use vstd::prelude::*;
use crate::text::{is_ws, char_is_ws, chars_of, push_str};
use crate::simple::{lines, text_lines, lines_grammar, grammar_of_lines};
use crate::grammar::{RawGrammar, Grammar, prods_view, eof_name, EOF};
use crate::extend::extend_spec;
use crate::collections::lex_entries;
use crate::text::{replaced, replace_all};
use crate::lr0::{Lr0Node, lr0_fsm, dots_fit};
use crate::lalr1::Lr1Node;
use crate::ll1::{LLCtx, is_first, is_follow};
use crate::table::{TableEntry, Conflict, lr1_ok};
use crate::lr1::lr1_fsm;
use crate::pipeline::{LrError, canonical_lr1, lr0_too_big, lr1_too_big, lalr1_unsolvable, lr1_unsolvable, lalr1_fsm_ok, solved_table_ok, check_dots_fit, lalr1_fsm, lalr1_table, lr1_table};
use crate::show_ll::{ll_text, ll_table_ok, lemma_ll_table_ok};
use crate::show_lr::{lr0_dot, lr1_dot, lr0_dot_text, lr1_dot_text, lr_table_text, sorted_links, lemma_fsm_nodes0_ok};

verus! {

/// `l` without the whitespace at its start.
pub open spec fn trim_start(l: Seq<char>) -> Seq<char>
    decreases l.len(),
{
    if l.len() > 0 && is_ws(l[0]) {
        trim_start(l.drop_first())
    } else {
        l
    }
}

/// `l` without the whitespace at its end.
pub open spec fn trim_end(l: Seq<char>) -> Seq<char>
    decreases l.len(),
{
    if l.len() > 0 && is_ws(l.last()) {
        trim_end(l.drop_last())
    } else {
        l
    }
}

/// `str::trim`: `l` without the whitespace at either end.
pub open spec fn trim(l: Seq<char>) -> Seq<char> {
    trim_end(trim_start(l))
}

/// Trims whitespace from both ends of `s` (`str::trim`).
pub fn trim_str(s: &str) -> (r: &str)
    ensures
        r@ == trim(s@),
{
    let cs = chars_of(s);
    let n = cs.len();
    let mut a: usize = 0;
    assert(s@.skip(0) =~= s@);
    while a < n && char_is_ws(cs[a])
        invariant
            cs@ == s@,
            n == s@.len(),
            a <= n,
            trim_start(s@) == trim_start(s@.skip(a as int)),
        decreases n - a,
    {
        assert(s@.skip(a as int).drop_first() =~= s@.skip(a + 1));
        a = a + 1;
    }
    if a < n {
        assert(s@.skip(a as int)[0] == s@[a as int]);
    } else {
        assert(s@.skip(a as int) =~= Seq::<char>::empty());
    }
    let mut b: usize = n;
    assert(s@.skip(a as int) =~= s@.subrange(a as int, n as int));
    while b > a && char_is_ws(cs[b - 1])
        invariant
            cs@ == s@,
            n == s@.len(),
            a <= b <= n,
            trim(s@) == trim_end(s@.subrange(a as int, b as int)),
        decreases b - a,
    {
        assert(s@.subrange(a as int, b as int).drop_last() =~= s@.subrange(a as int, b - 1));
        b = b - 1;
    }
    s.substring_char(a, b)
}

/// The lines of `s`, trimmed, without those that are then empty.
pub open spec fn kept_lines(s: Seq<char>) -> Seq<Seq<char>> {
    text_lines(s).map_values(|l: Seq<char>| trim(l)).filter(|l: Seq<char>| l.len() > 0)
}

/// The lines of `s`, each trimmed, without the empty ones.
pub fn trimmed_lines(s: &str) -> (v: Vec<&str>)
    ensures
        v@.map_values(|w: &str| w@) == kept_lines(s@),
{
    let ls = lines(s);
    let ghost tv = text_lines(s@).map_values(|l: Seq<char>| trim(l));
    let mut v: Vec<&str> = Vec::new();
    let mut i: usize = 0;
    while i < ls.len()
        invariant
            ls@.map_values(|w: &str| w@) == text_lines(s@),
            tv == text_lines(s@).map_values(|l: Seq<char>| trim(l)),
            tv.len() == ls@.len(),
            i <= ls@.len(),
            v@.map_values(|w: &str| w@) == tv.take(i as int).filter(|l: Seq<char>| l.len() > 0),
        decreases ls@.len() - i,
    {
        let t = trim_str(ls[i]);
        proof {
            assert(text_lines(s@)[i as int] == ls@[i as int]@);
            assert(tv[i as int] == t@);
            reveal(Seq::filter);
            assert(tv.take(i + 1).drop_last() =~= tv.take(i as int));
        }
        let ghost before = v@;
        if t.unicode_len() > 0 {
            v.push(t);
            assert(v@.map_values(|w: &str| w@) =~= before.map_values(|w: &str| w@).push(t@));
        }
        i = i + 1;
    }
    assert(tv.take(ls@.len() as int) =~= tv);
    v
}

/// The grammar that `parse_input` reads from `s`: its lines, trimmed and without the empty
/// ones, read as `lines_grammar` reads them, with `input is invalid: ` before any message.
pub open spec fn input_grammar(s: Seq<char>) -> Result<(Seq<crate::grammar::RawProdView>, Seq<char>, Seq<(Seq<char>, Seq<char>)>), Seq<char>> {
    match lines_grammar(kept_lines(s)) {
        Ok(v) => Ok(v),
        Err(e) => Err("input is invalid: "@ + e),
    }
}

/// Reads a grammar written one production `lhs -> rhs1 rhs2 ...` a line, where lines may be
/// indented or blank.
pub fn parse_input(s: &str) -> (r: Result<RawGrammar, String>)
    ensures
        (match input_grammar(s@) {
            Ok(v) => r matches Ok(g) && prods_view(g.production@) == v.0 && g.start@ == v.1 && lex_entries(g.lexical) == v.2
                && g.priority@.len() == 0,
            Err(e) => r matches Err(m) && m@ == e,
        }),
{
    let ls = trimmed_lines(s);
    match grammar_of_lines(&ls) {
        Ok(g) => Ok(g),
        Err(e) => {
            let mut m = String::new();
            push_str(&mut m, "input is invalid: ");
            push_str(&mut m, e.as_str());
            proof {
                reveal_strlit("input is invalid: ");
            }
            Err(m)
        },
    }
}


/// What can be shown of a grammar.
#[derive(Copy, Clone, Debug, PartialEq, Eq, Structural)]
pub enum Algo {
    /// The LR(0) automaton.
    Lr0,
    /// The canonical LR(1) automaton, or its parsing table.
    Lr1,
    /// The LALR(1) automaton, or its parsing table.
    Lalr1,
    /// The LL(1) first, follow and predict sets.
    Ll1,
}

/// The algorithm called `name`: `lr(0)`, `lr(1)`, `lalr(1)` or `ll(1)`.
pub open spec fn algo_named(name: Seq<char>) -> Option<Algo> {
    if name == "lr(0)"@ {
        Some(Algo::Lr0)
    } else if name == "lr(1)"@ {
        Some(Algo::Lr1)
    } else if name == "lalr(1)"@ {
        Some(Algo::Lalr1)
    } else if name == "ll(1)"@ {
        Some(Algo::Ll1)
    } else {
        None
    }
}

/// Reads the name of an algorithm (see `algo_named`).
pub fn algo_of(name: &str) -> (r: Option<Algo>)
    ensures
        r == algo_named(name@),
{
    proof {
        reveal_strlit("lr(0)");
        reveal_strlit("lr(1)");
        reveal_strlit("lalr(1)");
        reveal_strlit("ll(1)");
    }
    if crate::extend::str_eq(name, "lr(0)") {
        Some(Algo::Lr0)
    } else if crate::extend::str_eq(name, "lr(1)") {
        Some(Algo::Lr1)
    } else if crate::extend::str_eq(name, "lalr(1)") {
        Some(Algo::Lalr1)
    } else if crate::extend::str_eq(name, "ll(1)") {
        Some(Algo::Ll1)
    } else {
        None
    }
}

/// The message for an algorithm name that `algo_named` does not know.
pub open spec fn unknown_algo_msg(name: Seq<char>) -> Seq<char> {
    "grammar \""@ + name + "\" is invalid, expect one of \"lr0\", \"lr1\", \"lalr1\", \"ll1"@
}

/// Builds the message for an unknown algorithm name.
pub fn unknown_algo(name: &str) -> (m: String)
    ensures
        m@ == unknown_algo_msg(name@),
{
    let mut m = String::new();
    push_str(&mut m, "grammar \"");
    push_str(&mut m, name);
    push_str(&mut m, "\" is invalid, expect one of \"lr0\", \"lr1\", \"lalr1\", \"ll1");
    m
}

/// `t` is the drawing of an LR(0) automaton of `g`.
pub open spec fn shows_lr0(g: &Grammar, t: Seq<char>) -> bool {
    exists|r: Seq<Lr0Node>, sls: Seq<Seq<(u32, usize)>>|
        #![trigger lr0_dot_text(g, r, sls, r.len() as int)]
        lr0_fsm(g, r) && crate::lr0::bfs_numbered(crate::lr0::links_of(r)) && sls.len() == r.len() && (forall|i: int| 0 <= i < r.len() ==> sorted_links(r[i].link@, #[trigger] sls[i]))
            && t == lr0_dot_text(g, r, sls, r.len() as int) + "}"@
}

/// `t` is the drawing of the automaton `lr1`.
pub open spec fn draws_lr1(g: &Grammar, lr1: Seq<Lr1Node>, t: Seq<char>) -> bool {
    exists|sls: Seq<Seq<(u32, usize)>>|
        #![trigger lr1_dot_text(g, lr1, sls, lr1.len() as int)]
        sls.len() == lr1.len() && (forall|i: int| 0 <= i < lr1.len() ==> sorted_links(lr1[i].link@, #[trigger] sls[i]))
            && t == lr1_dot_text(g, lr1, sls, lr1.len() as int) + "}"@
}

/// `t` is what `render` shows of `g` for `algo` (before `_Eof` is written `#`): the drawing of
/// the automaton, or with `table` its parsing table before and after solving conflicts, or the
/// LL(1) sets and table.
pub open spec fn rendered(g: &Grammar, algo: Algo, table: bool, t: Seq<char>) -> bool {
    match algo {
        Algo::Lr0 => shows_lr0(g, t),
        Algo::Ll1 => exists|ll: LLCtx|
            #![trigger ll_text(g, &ll, g.nt@.len() as int)]
            is_first(g, ll.first@) && is_follow(g, ll.first@, ll.follow@) && ll.table_ok(g) && ll_table_ok(g, &ll)
                && t == ll_text(g, &ll, g.nt@.len() as int),
        Algo::Lalr1 => if table {
            exists|lr0: Seq<Lr0Node>, lr1: Seq<Lr1Node>, o: Seq<TableEntry>, n: Seq<TableEntry>, c: Seq<Conflict>|
                #![trigger lalr1_fsm_ok(g, lr0, lr1), solved_table_ok(g, lr1, o, n, c)]
                lalr1_fsm_ok(g, lr0, lr1) && solved_table_ok(g, lr1, o, n, c) && t == lr_table_text(g, lr1, o, n, lr1.len() as int)
        } else {
            exists|lr0: Seq<Lr0Node>, lr1: Seq<Lr1Node>| #[trigger] lalr1_fsm_ok(g, lr0, lr1) && draws_lr1(g, lr1, t)
        },
        Algo::Lr1 => if table {
            exists|lr1: Seq<Lr1Node>, o: Seq<TableEntry>, n: Seq<TableEntry>, c: Seq<Conflict>|
                #![trigger canonical_lr1(g, lr1), solved_table_ok(g, lr1, o, n, c)]
                canonical_lr1(g, lr1) && solved_table_ok(g, lr1, o, n, c) && t == lr_table_text(g, lr1, o, n, lr1.len() as int)
        } else {
            exists|lr1: Seq<Lr1Node>| #[trigger] canonical_lr1(g, lr1) && draws_lr1(g, lr1, t)
        },
    }
}

/// Why `render` fails for `algo`: a production too long for a dot to move along it (every
/// algorithm but LL(1)), an automaton with `u32::MAX` states or more (the LR(0) automaton under
/// LALR(1), the canonical one under LR(1) with its table), or a table entry that cannot be
/// solved (LALR(1) or LR(1) with the table).
pub open spec fn render_fails(g: &Grammar, algo: Algo, table: bool, e: LrError) -> bool {
    match e {
        LrError::LongProduction => algo != Algo::Ll1 && !dots_fit(g),
        LrError::TooManyStates => dots_fit(g) && ((algo == Algo::Lalr1 && lr0_too_big(g)) || (algo == Algo::Lr1 && table
            && lr1_too_big(g))),
        LrError::UnsolvableConflict => dots_fit(g) && table && ((algo == Algo::Lalr1 && lalr1_unsolvable(g)) || (algo
            == Algo::Lr1 && lr1_unsolvable(g))),
    }
}

/// Shows `g` for `algo`: the drawing of its automaton in the dot language, or with `table` its
/// parsing table before and after solving conflicts, or its LL(1) sets and table; `_Eof` is
/// written `#`. `table` matters for `Lr1` and `Lalr1` only.
pub fn render(g: &Grammar, algo: Algo, table: bool) -> (r: Result<String, LrError>)
    requires
        g.wf(),
    ensures
        r matches Ok(s) ==> exists|t: Seq<char>| #[trigger] rendered(g, algo, table, t) && s@ == replaced(t, eof_name(), "#"@),
        (r matches Err(LrError::LongProduction)) <==> (algo != Algo::Ll1 && !dots_fit(g)),
        r matches Err(e) ==> render_fails(g, algo, table, e),
        algo == Algo::Ll1 ==> r is Ok,
        algo == Algo::Lr0 && dots_fit(g) ==> r is Ok,
        algo == Algo::Lr1 && !table && dots_fit(g) ==> r is Ok,
{
    let text: String = match algo {
        Algo::Lr0 => {
            if !check_dots_fit(g) {
                return Err(LrError::LongProduction);
            }
            let fsm = crate::lr0::work(g);
            proof {
                lemma_fsm_nodes0_ok(g, fsm@);
            }
            let t = lr0_dot(g, &fsm);
            proof {
                let sls = choose|sls: Seq<Seq<(u32, usize)>>|
                    sls.len() == fsm@.len() && (forall|i: int| 0 <= i < fsm@.len() ==> sorted_links(fsm@[i].link@, #[trigger] sls[i])) && t@
                        == lr0_dot_text(g, fsm@, sls, fsm@.len() as int) + "}"@;
                assert(t@ == lr0_dot_text(g, fsm@, sls, fsm@.len() as int) + "}"@);
                assert(rendered(g, algo, table, t@));
            }
            t
        },
        Algo::Ll1 => {
            let ll = LLCtx::new(g);
            proof {
                lemma_ll_table_ok(g, &ll);
            }
            let t = crate::show_ll::table(&ll, g);
            proof {
                assert(t@ == ll_text(g, &ll, g.nt@.len() as int));
                assert(rendered(g, algo, table, t@));
            }
            t
        },
        Algo::Lalr1 => {
            if table {
                let out = match lalr1_table(g) {
                    Ok(o) => o,
                    Err(e) => {
                        return Err(e);
                    },
                };
                let t = crate::show_lr::table(&out.lr1, &out.orig_table, &out.table, g);
                proof {
                    assert(lalr1_fsm_ok(g, out.lr0@, out.lr1@));
                    assert(solved_table_ok(g, out.lr1@, out.orig_table@, out.table@, out.conflict@));
                    assert(rendered(g, algo, table, t@));
                }
                t
            } else {
                let (lr0, lr1) = match lalr1_fsm(g) {
                    Ok(p) => p,
                    Err(e) => {
                        return Err(e);
                    },
                };
                let t = lr1_dot(g, &lr1);
                proof {
                    let sls = choose|sls: Seq<Seq<(u32, usize)>>|
                        sls.len() == lr1@.len() && (forall|i: int| 0 <= i < lr1@.len() ==> sorted_links(lr1@[i].link@, #[trigger] sls[i])) && t@
                            == lr1_dot_text(g, lr1@, sls, lr1@.len() as int) + "}"@;
                    assert(t@ == lr1_dot_text(g, lr1@, sls, lr1@.len() as int) + "}"@);
                    assert(draws_lr1(g, lr1@, t@));
                    assert(lalr1_fsm_ok(g, lr0@, lr1@));
                    assert(rendered(g, algo, table, t@));
                }
                t
            }
        },
        Algo::Lr1 => {
            if table {
                let (lr1, orig, solved, conflict) = match lr1_table(g) {
                    Ok(o) => o,
                    Err(e) => {
                        return Err(e);
                    },
                };
                let t = crate::show_lr::table(&lr1, &orig, &solved, g);
                proof {
                    assert(canonical_lr1(g, lr1@));
                    assert(solved_table_ok(g, lr1@, orig@, solved@, conflict@));
                    assert(rendered(g, algo, table, t@));
                }
                t
            } else {
                if !check_dots_fit(g) {
                    return Err(LrError::LongProduction);
                }
                let lr1 = crate::lr1::work(g);
                let t = lr1_dot(g, &lr1);
                proof {
                    let sls = choose|sls: Seq<Seq<(u32, usize)>>|
                        sls.len() == lr1@.len() && (forall|i: int| 0 <= i < lr1@.len() ==> sorted_links(lr1@[i].link@, #[trigger] sls[i])) && t@
                            == lr1_dot_text(g, lr1@, sls, lr1@.len() as int) + "}"@;
                    assert(t@ == lr1_dot_text(g, lr1@, sls, lr1@.len() as int) + "}"@);
                    assert(draws_lr1(g, lr1@, t@));
                    assert(canonical_lr1(g, lr1@));
                    assert(rendered(g, algo, table, t@));
                }
                t
            }
        },
    };
    proof {
        reveal_strlit("_Eof");
        reveal_strlit("#");
        assert(EOF@ =~= eof_name());
    }
    let s = replace_all(text.as_str(), EOF, "#");
    Ok(s)
}


/// `raw` holds the grammar that `parse_input` reads from `s`.
pub open spec fn read_from(raw: RawGrammar, s: Seq<char>) -> bool {
    input_grammar(s) matches Ok(v) && prods_view(raw.production@) == v.0 && raw.start@ == v.1 && lex_entries(raw.lexical) == v.2
        && raw.priority@.len() == 0
}

/// The grammar read from `s`, if any, can be numbered: its counts fit in a `u32`, and no
/// left-hand side is the name of a builtin term.
pub open spec fn input_extends(s: Seq<char>) -> bool {
    forall|raw: RawGrammar|
        #[trigger] read_from(raw, s) ==> raw.size_bound() && extend_spec(
            raw.priority@,
            lex_entries(raw.lexical),
            prods_view(raw.production@),
            raw.start@,
            false,
        ) is Ok
}

/// `extend` numbers `raw` (without checking names) as `g`.
pub open spec fn numbered_as(raw: RawGrammar, g: Grammar) -> bool {
    extend_spec(raw.priority@, lex_entries(raw.lexical), prods_view(raw.production@), raw.start@, false) matches Ok(gs) && gs == g@
}

/// The message for an analysis that could not be made.
pub open spec fn lr_error_msg(e: LrError) -> Seq<char> {
    match e {
        LrError::LongProduction => "a production is too long"@,
        LrError::TooManyStates => "the automaton has too many states"@,
        LrError::UnsolvableConflict => "an entry of the table holds two actions that cannot be solved"@,
    }
}

fn lr_error(e: LrError) -> (m: String)
    ensures
        m@ == lr_error_msg(e),
{
    let mut m = String::new();
    match e {
        LrError::LongProduction => push_str(&mut m, "a production is too long"),
        LrError::TooManyStates => push_str(&mut m, "the automaton has too many states"),
        LrError::UnsolvableConflict => push_str(&mut m, "an entry of the table holds two actions that cannot be solved"),
    }
    proof {
        reveal_strlit("a production is too long");
        reveal_strlit("the automaton has too many states");
        reveal_strlit("an entry of the table holds two actions that cannot be solved");
    }
    m
}

/// Reads a grammar from `s` (see `parse_input`), numbers it without checking its names, and
/// shows it for the algorithm called `algo` (see `algo_named` and `render`).
pub fn parser(s: &str, algo: &str, table: bool) -> (r: Result<String, String>)
    requires
        input_extends(s@),
    ensures
        (match input_grammar(s@) {
            Err(e) => r matches Err(m) && m@ == e,
            Ok(v) => match algo_named(algo@) {
                None => r matches Err(m) && m@ == unknown_algo_msg(algo@),
                Some(a) => exists|raw: RawGrammar, g: Grammar| {
                    &&& #[trigger] read_from(raw, s@)
                    &&& #[trigger] g.wf()
                    &&& numbered_as(raw, g)
                    &&& match r {
                        Ok(out) => exists|t: Seq<char>| #[trigger] rendered(&g, a, table, t) && out@ == replaced(t, eof_name(), "#"@),
                        Err(m) => exists|e: LrError| #[trigger] render_fails(&g, a, table, e) && m@ == lr_error_msg(e),
                    }
                    &&& (a == Algo::Ll1 ==> r is Ok)
                    &&& (a == Algo::Lr0 && dots_fit(&g) ==> r is Ok)
                    &&& (a == Algo::Lr1 && !table && dots_fit(&g) ==> r is Ok)
                },
            },
        }),
{
    let mut raw = match parse_input(s) {
        Ok(raw) => raw,
        Err(m) => {
            return Err(m);
        },
    };
    proof {
        assert(read_from(raw, s@));
    }
    let g = match raw.extend(false) {
        Ok(g) => g,
        Err(m) => {
            return Err(m);
        },
    };
    let a = match algo_of(algo) {
        Some(a) => a,
        None => {
            return Err(unknown_algo(algo));
        },
    };
    match render(&g, a, table) {
        Ok(out) => Ok(out),
        Err(e) => Err(lr_error(e)),
    }
}

} // verus!
