use vstd::prelude::*;
use crate::grammar::{
    RawGrammar, RawProduction, RawProductionRhs, RawProdView, RhsView, prods_view, strings_view, START_NT_NAME,
    start_nt_name,
};
use crate::names::{arrow_prod, parse_arrow_prod};
use crate::text::{push_str, push_decimal, decimal, chars_of, lemma_decimal_injective};
use crate::collections::{name_map_new, name_map_insert, name_map_get, name_map_view, lex_entries, lex_map_new, lex_map_len, lex_map_insert, lemma_insert_new_key};
use crate::extend::str_eq;

verus! {

/// The number of characters before the first newline of `s`.
pub open spec fn line_len(s: Seq<char>) -> nat
    decreases s.len(),
{
    if s.len() == 0 || s[0] == '\n' {
        0
    } else {
        1 + line_len(s.drop_first())
    }
}

pub proof fn lemma_line_len(s: Seq<char>)
    ensures
        line_len(s) <= s.len(),
        forall|i: int| 0 <= i < line_len(s) ==> s[i] != '\n',
        line_len(s) < s.len() ==> s[line_len(s) as int] == '\n',
    decreases s.len(),
{
    if s.len() > 0 && s[0] != '\n' {
        lemma_line_len(s.drop_first());
        assert forall|i: int| 0 <= i < line_len(s) implies s[i] != '\n' by {
            if i > 0 {
                assert(s[i] == s.drop_first()[i - 1]);
            }
        }
    }
}

/// A line without the `\r` that ends it before its newline.
pub open spec fn strip_cr(l: Seq<char>) -> Seq<char> {
    if l.len() > 0 && l.last() == '\r' {
        l.drop_last()
    } else {
        l
    }
}

/// The lines of `s`, as `str::lines` gives them: split at each newline, a `\r` before the
/// newline dropped, and no last empty line.
pub open spec fn text_lines(s: Seq<char>) -> Seq<Seq<char>>
    decreases s.len(),
{
    if s.len() == 0 {
        Seq::empty()
    } else {
        let n = line_len(s);
        proof {
            lemma_line_len(s);
        }
        if n == s.len() {
            seq![s]
        } else {
            seq![strip_cr(s.take(n as int))] + text_lines(s.skip((n + 1) as int))
        }
    }
}

proof fn lemma_line_len_from(s: Seq<char>, i: int, j: int)
    requires
        0 <= i <= j <= s.len(),
        forall|k: int| i <= k < j ==> s[k] != '\n',
        j == s.len() || s[j] == '\n',
    ensures
        line_len(s.skip(i)) == j - i,
    decreases j - i,
{
    if i < j {
        assert(s.skip(i).drop_first() =~= s.skip(i + 1));
        lemma_line_len_from(s, i + 1, j);
    } else {
        if j < s.len() {
            assert(s.skip(i)[0] == s[j]);
        }
    }
}

/// The lines of `s` (`str::lines`).
pub fn lines(s: &str) -> (v: Vec<&str>)
    ensures
        v@.map_values(|w: &str| w@) == text_lines(s@),
{
    let cs = chars_of(s);
    let n = cs.len();
    let mut v: Vec<&str> = Vec::new();
    let mut i: usize = 0;
    assert(s@.skip(0) =~= s@);
    while i < n
        invariant
            cs@ == s@,
            n == s@.len(),
            i <= n,
            v@.map_values(|w: &str| w@) + text_lines(s@.skip(i as int)) == text_lines(s@),
        decreases n - i,
    {
        let mut j = i;
        while j < n && cs[j] != '\n'
            invariant
                cs@ == s@,
                n == s@.len(),
                i <= j <= n,
                forall|k: int| i <= k < j ==> s@[k] != '\n',
            decreases n - j,
        {
            j = j + 1;
        }
        proof {
            lemma_line_len_from(s@, i as int, j as int);
        }
        let ghost t = s@.skip(i as int);
        let ghost old_v = v@;
        if j == n {
            let w = s.substring_char(i, j);
            v.push(w);
            proof {
                assert(w@ =~= t);
                assert(text_lines(t) == seq![t]);
                assert(s@.skip(n as int) =~= Seq::<char>::empty());
                assert(v@.map_values(|w: &str| w@) =~= old_v.map_values(|w: &str| w@).push(w@));
            }
            i = j;
        } else {
            let end = if j > i && cs[j - 1] == '\r' { j - 1 } else { j };
            let w = s.substring_char(i, end);
            v.push(w);
            proof {
                assert(t.take((j - i) as int) =~= s@.subrange(i as int, j as int));
                assert(w@ =~= strip_cr(t.take((j - i) as int)));
                assert(t.skip((j - i) + 1) =~= s@.skip(j + 1));
                assert(v@.map_values(|w: &str| w@) =~= old_v.map_values(|w: &str| w@).push(w@));
            }
            i = j + 1;
        }
    }
    assert(s@.skip(n as int) =~= Seq::<char>::empty());
    assert(v@.map_values(|w: &str| w@) + text_lines(Seq::<char>::empty()) =~= v@.map_values(|w: &str| w@));
    v
}

/// The message for a line that is not of the form `lhs -> rhs1 rhs2 ...`.
pub open spec fn invalid_line_msg(l: Seq<char>) -> Seq<char> {
    "invalid input \""@ + l + "\", expect form of \"lhs -> rhs1 rhs2 ...\""@
}

/// The productions of the lines, or the message of the first line in error.
pub open spec fn lines_prods(ls: Seq<Seq<char>>) -> Result<Seq<(Seq<char>, Seq<Seq<char>>)>, Seq<char>>
    decreases ls.len(),
{
    if ls.len() == 0 {
        Ok(Seq::empty())
    } else {
        match arrow_prod(ls[0]) {
            None => Err(invalid_line_msg(ls[0])),
            Some(p) => if p.0 == start_nt_name() || p.1.contains(start_nt_name()) {
                Err("invalid token name: \"_\""@)
            } else {
                match lines_prods(ls.drop_first()) {
                    Ok(rest) => Ok(seq![p] + rest),
                    Err(e) => Err(e),
                }
            },
        }
    }
}

/// `pre` before the productions of `r`, when it holds some.
pub open spec fn prepend(pre: Seq<(Seq<char>, Seq<Seq<char>>)>, r: Result<Seq<(Seq<char>, Seq<Seq<char>>)>, Seq<char>>) -> Result<Seq<(Seq<char>, Seq<Seq<char>>)>, Seq<char>> {
    match r {
        Ok(rest) => Ok(pre + rest),
        Err(e) => Err(e),
    }
}

proof fn lemma_prepend_step(pre: Seq<(Seq<char>, Seq<Seq<char>>)>, p: (Seq<char>, Seq<Seq<char>>), r: Result<Seq<(Seq<char>, Seq<Seq<char>>)>, Seq<char>>)
    ensures
        prepend(pre, prepend(seq![p], r)) == prepend(pre.push(p), r),
{
    if let Ok(rest) = r {
        assert(pre + (seq![p] + rest) =~= pre.push(p) + rest);
    }
}

/// The tokens of the right-hand sides that are no left-hand side, in order, with repeats.
pub open spec fn lex_terms(ps: Seq<(Seq<char>, Seq<Seq<char>>)>, lhs: Seq<Seq<char>>) -> Seq<Seq<char>>
    decreases ps.len(),
{
    if ps.len() == 0 {
        Seq::empty()
    } else {
        lex_terms(ps.drop_last(), lhs) + ps.last().1.filter(|x: Seq<char>| !lhs.contains(x))
    }
}

/// Each term with its position as its (place-holding) regular expression.
pub open spec fn numbered(ts: Seq<Seq<char>>) -> Seq<(Seq<char>, Seq<char>)> {
    Seq::new(ts.len(), |k: int| (decimal(k as nat), ts[k]))
}

pub open spec fn simple_prod(p: (Seq<char>, Seq<Seq<char>>)) -> RawProdView {
    RawProdView {
        lhs: p.0,
        ty: Seq::empty(),
        alts: seq![RhsView { rhs: p.1, args: None, act: Seq::empty(), prec: None }],
    }
}

/// The grammar written by the lines `ls`, one production `lhs -> rhs1 rhs2 ...` a line: its
/// productions, its start (the first left-hand side), and a lexical rule for each term.
pub open spec fn lines_grammar(ls: Seq<Seq<char>>) -> Result<(Seq<RawProdView>, Seq<char>, Seq<(Seq<char>, Seq<char>)>), Seq<char>> {
    match lines_prods(ls) {
        Err(e) => Err(e),
        Ok(ps) => if ps.len() == 0 {
            Err("grammar must have at least one production rule"@)
        } else {
            Ok((ps.map_values(|p: (Seq<char>, Seq<Seq<char>>)| simple_prod(p)), ps[0].0, numbered(lex_terms(ps, ps.map_values(|p: (Seq<char>, Seq<Seq<char>>)| p.0)))))
        },
    }
}

/// The grammar written by the lines of `s` (see `lines_grammar`).
pub open spec fn parse_lines_spec(s: Seq<char>) -> Result<(Seq<RawProdView>, Seq<char>, Seq<(Seq<char>, Seq<char>)>), Seq<char>> {
    lines_grammar(text_lines(s))
}

fn string_from(s: &str) -> (r: String)
    ensures
        r@ == s@,
{
    let mut r = String::new();
    push_str(&mut r, s);
    r
}

/// Reads a grammar written one production `lhs -> rhs1 rhs2 ...` a line: the start is the
/// first left-hand side, and each right-hand side token that is no left-hand side becomes a
/// term, with its position as its regular expression.
pub fn parse_lines(s: &str) -> (r: Result<RawGrammar, String>)
    ensures
        (match parse_lines_spec(s@) {
            Ok(v) => r matches Ok(g) && prods_view(g.production@) == v.0 && g.start@ == v.1 && lex_entries(g.lexical) == v.2
                && g.priority@.len() == 0,
            Err(e) => r matches Err(m) && m@ == e,
        }),
{
    let ls = lines(s);
    grammar_of_lines(&ls)
}

/// The grammar written by the lines `ls` (see `lines_grammar`).
pub fn grammar_of_lines(ls: &Vec<&str>) -> (r: Result<RawGrammar, String>)
    ensures
        (match lines_grammar(ls@.map_values(|w: &str| w@)) {
            Ok(v) => r matches Ok(g) && prods_view(g.production@) == v.0 && g.start@ == v.1 && lex_entries(g.lexical) == v.2
                && g.priority@.len() == 0,
            Err(e) => r matches Err(m) && m@ == e,
        }),
{
    let ghost lv = ls@.map_values(|w: &str| w@);
    let mut prods: Vec<RawProduction> = Vec::new();
    let mut all_lhs = name_map_new();
    let ghost mut pv: Seq<(Seq<char>, Seq<Seq<char>>)> = Seq::empty();
    let mut i: usize = 0;
    proof {
        assert(lv.skip(0) =~= lv);
        if let Ok(rest) = lines_prods(lv) {
            assert(pv + rest =~= rest);
        }
    }
    while i < ls.len()
        invariant
            lv == ls@.map_values(|w: &str| w@),
            i <= ls@.len(),
            pv.len() == i,
            prods_view(prods@) == pv.map_values(|p: (Seq<char>, Seq<Seq<char>>)| simple_prod(p)),
            forall|x: Seq<char>| #[trigger] name_map_view(all_lhs).contains_key(x) <==> pv.map_values(|p: (Seq<char>, Seq<Seq<char>>)| p.0).contains(x),
            lines_prods(lv) == prepend(pv, lines_prods(lv.skip(i as int))),
        decreases ls@.len() - i,
    {
        let line = ls[i];
        proof {
            assert(lv.skip(i as int)[0] == line@);
            assert(lv.skip(i as int).drop_first() =~= lv.skip(i + 1));
        }
        proof {
            reveal_strlit("_");
        }
        let (lhs, rhs) = match parse_arrow_prod(line) {
            Some(p) => p,
            None => {
                let mut m = String::new();
                push_str(&mut m, "invalid input \"");
                push_str(&mut m, line);
                push_str(&mut m, "\", expect form of \"lhs -> rhs1 rhs2 ...\"");
                return Err(m);
            },
        };
        let ghost rv = rhs@.map_values(|w: &str| w@);
        let mut bad = str_eq(lhs, "_");
        proof {
            reveal_strlit("_");
            assert("_"@ =~= start_nt_name());
            assert(rv.take(0) =~= Seq::<Seq<char>>::empty());
            assert(!rv.take(0).contains(start_nt_name()));
        }
        let mut k: usize = 0;
        while k < rhs.len()
            invariant
                rv == rhs@.map_values(|w: &str| w@),
                k <= rhs@.len(),
                bad == (lhs@ == start_nt_name() || rv.take(k as int).contains(start_nt_name())),
            decreases rhs@.len() - k,
        {
            let b = str_eq(rhs[k], "_");
            proof {
                reveal_strlit("_");
                assert(rv.take(k + 1) =~= rv.take(k as int).push(rv[k as int]));
                let t1 = rv.take(k + 1);
                let t0 = rv.take(k as int);
                assert(rv[k as int] == rhs@[k as int]@);
                assert(t1[k as int] == rv[k as int]);
                assert(b == (rhs@[k as int]@ == "_"@));
                assert("_"@ == start_nt_name());
                assert(b == (rv[k as int] == start_nt_name()));
                if t1.contains(start_nt_name()) && !t0.contains(start_nt_name()) {
                    let j = choose|j: int| 0 <= j < t1.len() && #[trigger] t1[j] == start_nt_name();
                    if j < k {
                        assert(t0[j] == start_nt_name());
                    }
                    assert(j == k);
                }
                if t0.contains(start_nt_name()) {
                    let j = choose|j: int| 0 <= j < t0.len() && #[trigger] t0[j] == start_nt_name();
                    assert(t1[j] == start_nt_name());
                }
                if b {
                    assert(rv.take(k + 1)[k as int] == start_nt_name());
                }
            }
            bad = bad || b;
            k = k + 1;
        }
        assert(rv.take(rv.len() as int) =~= rv);
        if bad {
            let mut m = String::new();
            push_str(&mut m, "invalid token name: \"_\"");
            return Err(m);
        }
        let mut rhs_names: Vec<String> = Vec::new();
        let mut k: usize = 0;
        while k < rhs.len()
            invariant
                rv == rhs@.map_values(|w: &str| w@),
                k <= rhs@.len(),
                strings_view(rhs_names@) == rv.take(k as int),
            decreases rhs@.len() - k,
        {
            let ghost before = rhs_names@;
            rhs_names.push(string_from(rhs[k]));
            assert(strings_view(rhs_names@) =~= strings_view(before).push(rv[k as int]));
            assert(rv.take(k + 1) =~= rv.take(k as int).push(rv[k as int]));
            k = k + 1;
        }
        assert(rv.take(rv.len() as int) =~= rv);
        let mut alts: Vec<RawProductionRhs> = Vec::new();
        alts.push(RawProductionRhs { rhs: rhs_names, rhs_arg: None, act: String::new(), prec: None });
        let ghost before_p = prods@;
        let ghost before_l = pv.map_values(|p: (Seq<char>, Seq<Seq<char>>)| p.0);
        name_map_insert(&mut all_lhs, lhs, 0);
        prods.push(RawProduction { lhs: string_from(lhs), ty: String::new(), rhs: alts });
        proof {
            let p = (lhs@, rv);
            assert(simple_prod(p).alts =~= prods@.last()@.alts);
            assert(prods@.last()@ == simple_prod(p));
            lemma_prepend_step(pv, p, lines_prods(lv.skip(i + 1)));
            pv = pv.push(p);
            assert(prods_view(prods@) =~= pv.map_values(|p: (Seq<char>, Seq<Seq<char>>)| simple_prod(p))) by {
                assert(prods_view(prods@) =~= prods_view(before_p).push(prods@.last()@));
            }
            assert(pv.map_values(|p: (Seq<char>, Seq<Seq<char>>)| p.0) =~= before_l.push(lhs@));
            assert forall|x: Seq<char>| #[trigger] name_map_view(all_lhs).contains_key(x) <==> pv.map_values(|p: (Seq<char>, Seq<Seq<char>>)| p.0).contains(x) by {
                let nv = pv.map_values(|p: (Seq<char>, Seq<Seq<char>>)| p.0);
                if x == lhs@ {
                    assert(nv[nv.len() - 1] == x);
                } else if before_l.contains(x) {
                    let j = choose|j: int| 0 <= j < before_l.len() && before_l[j] == x;
                    assert(nv[j] == x);
                } else if nv.contains(x) {
                    let j = choose|j: int| 0 <= j < nv.len() && nv[j] == x;
                    if j < before_l.len() {
                        assert(before_l[j] == x);
                    }
                }
            }
            assert(pv.drop_last() + seq![p] =~= pv);
        }
        i = i + 1;
    }
    proof {
        assert(lv.skip(i as int) =~= Seq::<Seq<char>>::empty());
        assert(pv + Seq::<(Seq<char>, Seq<Seq<char>>)>::empty() =~= pv);
    }
    if prods.len() == 0 {
        let mut m = String::new();
        push_str(&mut m, "grammar must have at least one production rule");
        return Err(m);
    }
    let start = prods[0].lhs.clone();
    let ghost lhs_v = pv.map_values(|p: (Seq<char>, Seq<Seq<char>>)| p.0);
    let mut lexical = lex_map_new();
    let ghost mut terms: Seq<Seq<char>> = Seq::empty();
    let mut p: usize = 0;
    while p < prods.len()
        invariant
            prods_view(prods@) == pv.map_values(|p: (Seq<char>, Seq<Seq<char>>)| simple_prod(p)),
            forall|x: Seq<char>| #[trigger] name_map_view(all_lhs).contains_key(x) <==> lhs_v.contains(x),
            lhs_v == pv.map_values(|p: (Seq<char>, Seq<Seq<char>>)| p.0),
            p <= prods@.len(),
            prods@.len() == pv.len(),
            terms == lex_terms(pv.take(p as int), lhs_v),
            lex_entries(lexical) == numbered(terms),
        decreases prods@.len() - p,
    {
        proof {
            assert(prods_view(prods@)[p as int] == prods@[p as int]@);
            assert(prods@[p as int]@ == simple_prod(pv[p as int]));
            assert(prods@[p as int]@.alts.len() == 1);
        }
        let alt = &prods[p].rhs[0];
        proof {
            assert(prods@[p as int]@.alts[0] == alt@);
            assert(alt@.rhs == pv[p as int].1);
            assert(pv.take(p + 1).drop_last() =~= pv.take(p as int));
        }
        let ghost r = pv[p as int].1;
        let ghost t0 = terms;
        let mut k: usize = 0;
        while k < alt.rhs.len()
            invariant
                forall|x: Seq<char>| #[trigger] name_map_view(all_lhs).contains_key(x) <==> lhs_v.contains(x),
                strings_view(alt.rhs@) == r,
                k <= r.len(),
                terms == t0 + r.take(k as int).filter(|x: Seq<char>| !lhs_v.contains(x)),
                lex_entries(lexical) == numbered(terms),
            decreases r.len() - k,
        {
            let x = alt.rhs[k].as_str();
            proof {
                assert(r.take(k + 1) =~= r.take(k as int).push(r[k as int]));
                reveal(Seq::filter);
                assert(r.take(k + 1).filter(|x: Seq<char>| !lhs_v.contains(x)) == r.take(k as int).filter(|x: Seq<char>| !lhs_v.contains(x))
                    + (if !lhs_v.contains(r[k as int]) { seq![r[k as int]] } else { Seq::empty() })) by {
                    assert(r.take(k + 1).drop_last() =~= r.take(k as int));
                }
            }
            if name_map_get(&all_lhs, x).is_none() {
                let mut key = String::new();
                push_decimal(&mut key, lex_map_len(&lexical));
                let ghost before = lex_entries(lexical);
                proof {
                    assert forall|i: int| 0 <= i < before.len() implies (#[trigger] before[i]).0 != key@ by {
                        if before[i].0 == key@ {
                            lemma_decimal_injective(i as nat, before.len());
                        }
                    }
                    lemma_insert_new_key(before, key@, x@);
                }
                lex_map_insert(&mut lexical, key, string_from(x));
                proof {
                    terms = terms.push(r[k as int]);
                    assert(lex_entries(lexical) =~= numbered(terms));
                }
            }
            k = k + 1;
        }
        proof {
            assert(r.take(r.len() as int) =~= r);
            assert(lex_terms(pv.take(p + 1), lhs_v) == lex_terms(pv.take(p as int), lhs_v) + r.filter(|x: Seq<char>| !lhs_v.contains(x)));
        }
        p = p + 1;
    }
    proof {
        assert(pv.take(pv.len() as int) =~= pv);
        assert(prods_view(prods@)[0] == prods@[0]@);
    }
    Ok(RawGrammar {
        header: String::new(),
        epilogue: None,
        priority: Vec::new(),
        lexical,
        lexer_field: String::new(),
        lexer_action: String::new(),
        parser_field: String::new(),
        start,
        production: prods,
        parser_def: None,
    })
}

} // verus!
