use vstd::prelude::*;
use crate::grammar::{Grammar, Assoc, EPS_IDX, EOF_IDX};
use crate::lr0::{Lr0Item, closed, is_closure, has_items};
use crate::ll1::{string_first, predict, predicting, is_follow, is_follow_base, tokens_ok, bounded, sets_below, LLCtx};
use crate::table::{Act, ConflictView, solve_entry, solve_sr, solve_rr, prod_pri, term_pa, item_acts, reduce_part, shift_part, entry_acts, start_prod};
use crate::lalr1::{Lr1Node, Lr1Item};
use crate::lexer::{DfaTables, lex_next, TokenView, advance_pos};
use crate::printer::indent_lines;
use crate::extend::{extend_spec, lemma_extend_unchecked};
use crate::grammar::{RawPriorityRow, RawProdView};
use crate::driver::{run, OutcomeView, Event, ParseTables};

verus! {

/// A closed set of items is its own closure.
pub proof fn law_closure_of_closed(g: &Grammar, c: Set<Lr0Item>)
    requires
        closed(g, c),
    ensures
        is_closure(g, c, c),
{
}

/// A closure has items exactly when its kernel has: moving over a token that no item moves
/// over gives the empty state, which `go` reports as no transition.
pub proof fn law_closure_empty(g: &Grammar, k: Set<Lr0Item>, c: Set<Lr0Item>)
    requires
        is_closure(g, k, c),
    ensures
        has_items(k) <==> has_items(c),
{
    crate::lr0::lemma_closure_has_items(g, k, c);
}

/// FIRST of a concatenation: FIRST(w1 w2) is FIRST(w1) where `w1` cannot vanish, and
/// FIRST(w1) without ε together with FIRST(w2) where it can (for `w1` without the term `_Eps`).
pub proof fn law_first_concat(g: &Grammar, f: Seq<Set<int>>, w1: Seq<u32>, w2: Seq<u32>)
    requires
        f.len() == g.nt@.len(),
        tokens_ok(g, w1),
        !w1.contains(EPS_IDX as u32),
    ensures
        string_first(g, f, w1 + w2) == (if string_first(g, f, w1).contains(EPS_IDX as int) {
            string_first(g, f, w1).remove(EPS_IDX as int).union(string_first(g, f, w2))
        } else {
            string_first(g, f, w1)
        }),
    decreases w1.len(),
{
    if w1.len() == 0 {
        assert(w1 + w2 =~= w2);
        assert(string_first(g, f, w2).remove(EPS_IDX as int).union(string_first(g, f, w2)) =~= string_first(g, f, w2));
        assert(set![EPS_IDX as int].remove(EPS_IDX as int) =~= Set::<int>::empty());
        assert(Set::<int>::empty().union(string_first(g, f, w2)) =~= string_first(g, f, w2));
    } else {
        let w = w1 + w2;
        assert(w[0] == w1[0]);
        assert(w.drop_first() =~= w1.drop_first() + w2);
        assert(tokens_ok(g, w1.drop_first())) by {
            assert forall|j: int| 0 <= j < w1.drop_first().len() implies #[trigger] w1.drop_first()[j] < g.token_count() by {
                assert(w1.drop_first()[j] == w1[j + 1]);
            }
        }
        assert(!w1.drop_first().contains(EPS_IDX as u32)) by {
            if w1.drop_first().contains(EPS_IDX as u32) {
                let j = choose|j: int| 0 <= j < w1.drop_first().len() && w1.drop_first()[j] == EPS_IDX as u32;
                assert(w1[j + 1] == EPS_IDX as u32);
            }
        }
        law_first_concat(g, f, w1.drop_first(), w2);
        if w1[0] >= g.terms@.len() {
            let s = f[w1[0] - g.terms@.len()];
            if s.contains(EPS_IDX as int) {
                let a = string_first(g, f, w1.drop_first());
                if a.contains(EPS_IDX as int) {
                    assert(s.remove(EPS_IDX as int).union(a).remove(EPS_IDX as int).union(string_first(g, f, w2))
                        =~= s.remove(EPS_IDX as int).union(a.remove(EPS_IDX as int).union(string_first(g, f, w2))));
                } else {
                    assert(!s.remove(EPS_IDX as int).union(a).contains(EPS_IDX as int));
                }
            }
        } else {
            assert(w1[0] != EPS_IDX as u32) by {
                assert(w1.contains(w1[0]));
            }
        }
    }
}

/// No prediction set holds ε, so the LL(1) table has no entry on `_Eps`.
pub proof fn law_predict_no_eps(g: &Grammar, f: Seq<Set<int>>, fo: Seq<Set<int>>, p: int)
    ensures
        !predict(g, f, fo, p).contains(EPS_IDX as int),
{
}

/// `_Eof` follows the start non-term.
pub proof fn law_follow_start(g: &Grammar, f: Seq<Set<int>>, r: Seq<Set<int>>)
    requires
        g.wf(),
        is_follow(g, f, r),
    ensures
        r[g.nt@.len() - 1].contains(EOF_IDX as int),
{
    let fo = choose|fo: Seq<Set<int>>| #[trigger] is_follow_base(g, f, fo) && r.len() == fo.len() && forall|i: int| 0 <= i < r.len() ==> #[trigger] r[i] == fo[i].remove(EPS_IDX as int);
    assert(r[g.nt@.len() - 1] == fo[g.nt@.len() - 1].remove(EPS_IDX as int));
}

/// Solving leaves alone an entry with fewer than two actions, and reports nothing there.
pub proof fn law_solve_single(g: &Grammar, ch: int, acts: Seq<Act>)
    requires
        acts.len() < 2,
    ensures
        solve_entry(g, ch, acts) == (acts, Option::<ConflictView>::None),
{
}

/// A conflict solved by priority keeps at most one action; a reported conflict keeps all its
/// actions, the chosen one first: the shift for shift-reduce, the earlier production for
/// reduce-reduce.
pub proof fn law_solve_keeps_or_chooses(g: &Grammar, ch: int, acts: Seq<Act>)
    requires
        acts.len() == 2,
        match (acts[0], acts[1]) {
            (Act::Reduce(_), Act::Reduce(_)) => true,
            (Act::Reduce(_), Act::Shift(_)) => true,
            (Act::Shift(_), Act::Reduce(_)) => true,
            _ => false,
        },
    ensures
        solve_entry(g, ch, acts).1 is None ==> solve_entry(g, ch, acts).0.len() <= 1,
        solve_entry(g, ch, acts).1 is Some ==> solve_entry(g, ch, acts).0.to_multiset() == acts.to_multiset(),
        solve_entry(g, ch, acts).1 matches Some(ConflictView::SR(s, r)) ==> solve_entry(g, ch, acts).0[0] == Act::Shift(s),
        solve_entry(g, ch, acts).1 matches Some(ConflictView::RR(r1, r2)) ==> solve_entry(g, ch, acts).0[0] == Act::Reduce(
            if r1 < r2 { r1 } else { r2 },
        ),
{
    let res = solve_entry(g, ch, acts).0;
    if solve_entry(g, ch, acts).1 is Some {
        assert(res.len() == 2);
        assert(acts =~= seq![acts[0], acts[1]]);
        assert(res =~= seq![res[0], res[1]]);
        acts.lemma_reverse_to_multiset();
        assert(acts.reverse() =~= seq![acts[1], acts[0]]);
        if res[0] == acts[0] {
            assert(res =~= acts);
        } else {
            assert(res =~= acts.reverse());
        }
    }
}

/// Priorities decide a shift-reduce conflict when both the production and the term have one,
/// and nothing is reported: the higher priority wins; on equal priorities a left-associative
/// term reduces, a right-associative one shifts, and a non-associative one leaves no action.
pub proof fn law_priority_decides(g: &Grammar, ch: int, s: u32, r: u32, pp: u32, tp: u32, assoc: Assoc)
    requires
        prod_pri(g, r) == Some(pp),
        term_pa(g, ch) == Some((tp, assoc)),
    ensures
        solve_sr(g, ch, s, r).1 is None,
        pp < tp ==> solve_sr(g, ch, s, r).0 == seq![Act::Shift(s)],
        pp > tp ==> solve_sr(g, ch, s, r).0 == seq![Act::Reduce(r)],
        pp == tp && assoc == Assoc::Left ==> solve_sr(g, ch, s, r).0 == seq![Act::Reduce(r)],
        pp == tp && assoc == Assoc::Right ==> solve_sr(g, ch, s, r).0 == seq![Act::Shift(s)],
        pp == tp && assoc == Assoc::NoAssoc ==> solve_sr(g, ch, s, r).0.len() == 0,
{
}

/// Without priorities a shift-reduce conflict is reported and the shift is preferred, and a
/// reduce-reduce conflict is reported and the earlier production is preferred.
pub proof fn law_default_choices(g: &Grammar, ch: int, s: u32, r: u32, r1: u32, r2: u32)
    requires
        prod_pri(g, r) is None,
        prod_pri(g, r1) is None,
    ensures
        solve_sr(g, ch, s, r) == (seq![Act::Shift(s), Act::Reduce(r)], Some(ConflictView::SR(s, r))),
        solve_rr(g, r1, r2).1 == Some(ConflictView::RR(r1, r2)),
        solve_rr(g, r1, r2).0[0] == Act::Reduce(if r1 < r2 { r1 } else { r2 }),
{
}

/// A shift-reduce conflict on a term without a priority is reported whatever the priority of
/// the production, and both actions stay, the shift first; this holds in whichever order the
/// two actions were found. Priorities decide only where both the production and the term
/// have one: exactly then nothing is reported.
pub proof fn law_sr_needs_both_priorities(g: &Grammar, ch: int, s: u32, r: u32)
    ensures
        g.terms@[ch].pri_assoc is None ==> solve_sr(g, ch, s, r) == (
            seq![Act::Shift(s), Act::Reduce(r)],
            Some(ConflictView::SR(s, r)),
        ),
        g.terms@[ch].pri_assoc is None ==> solve_entry(g, ch, seq![Act::Shift(s), Act::Reduce(r)]) == (
            seq![Act::Shift(s), Act::Reduce(r)],
            Some(ConflictView::SR(s, r)),
        ),
        g.terms@[ch].pri_assoc is None ==> solve_entry(g, ch, seq![Act::Reduce(r), Act::Shift(s)]) == (
            seq![Act::Shift(s), Act::Reduce(r)],
            Some(ConflictView::SR(s, r)),
        ),
        solve_sr(g, ch, s, r).1 is None <==> (g.prod@[r as int].pri is Some && g.terms@[ch].pri_assoc is Some),
{
    let a = seq![Act::Shift(s), Act::Reduce(r)];
    let b = seq![Act::Reduce(r), Act::Shift(s)];
    assert(a.len() == 2 && a[0] == Act::Shift(s) && a[1] == Act::Reduce(r));
    assert(b.len() == 2 && b[0] == Act::Reduce(r) && b[1] == Act::Shift(s));
}

/// A token lists production `q` in the prediction table exactly when `q` lies in `[lo, hi)`
/// and its prediction set holds the token.
proof fn lemma_predicting_contains(g: &Grammar, f: Seq<Set<int>>, fo: Seq<Set<int>>, lo: int, hi: int, t: int, q: int)
    requires
        0 <= lo,
        hi <= u32::MAX,
        0 <= q < u32::MAX,
    ensures
        predicting(g, f, fo, lo, hi, t).contains(q as u32) <==> (lo <= q < hi && predict(g, f, fo, q).contains(t)),
    decreases hi - lo,
{
    if hi > lo {
        lemma_predicting_contains(g, f, fo, lo, hi - 1, t, q);
        let a = predicting(g, f, fo, lo, hi - 1, t);
        let b: Seq<u32> = if predict(g, f, fo, hi - 1).contains(t) { seq![(hi - 1) as u32] } else { Seq::empty() };
        let c = predicting(g, f, fo, lo, hi, t);
        assert(c == a + b);
        if a.contains(q as u32) {
            let k = choose|k: int| 0 <= k < a.len() && a[k] == q as u32;
            assert(c[k] == a[k]);
        }
        if q == hi - 1 && predict(g, f, fo, q).contains(t) {
            assert(c[a.len() as int] == b[0]);
        }
        if c.contains(q as u32) {
            let k = choose|k: int| 0 <= k < c.len() && c[k] == q as u32;
            if k < a.len() {
                assert(a[k] == c[k]);
            } else {
                assert(b[k - a.len()] == c[k]);
            }
        }
    }
}

/// In the LL(1) table, a token `t` predicts production `p` of non-term `i` exactly when `t` is
/// not ε and either starts the right-hand side of `p`, or the right-hand side can derive the
/// empty string and `t` follows `i`. So every token that follows `i` predicts each production
/// of `i` whose right-hand side is nullable.
pub proof fn law_ll_prediction(g: &Grammar, ll: &LLCtx, i: int, p: int, t: int)
    requires
        g.wf(),
        ll.table_ok(g),
        0 <= i < g.nt@.len(),
        g.nt@[i].start_idx <= p < g.end_idx(i),
        0 <= t < g.token_count(),
    ensures
        ll.table@[i]@[t]@.contains(p as u32) <==> (t != EPS_IDX && (string_first(g, ll.first@, g.rhs(p)).contains(t) || (
            string_first(g, ll.first@, g.rhs(p)).contains(EPS_IDX as int) && ll.follow@[i].contains(t)))),
        string_first(g, ll.first@, g.rhs(p)).contains(EPS_IDX as int) && ll.follow@[i].contains(t) && t != EPS_IDX
            ==> ll.table@[i]@[t]@.contains(p as u32),
{
    assert(g.prod@[p].lhs == i);
    assert(ll.table@[i]@[t]@ == predicting(g, ll.first@, ll.follow@, g.nt@[i].start_idx as int, g.end_idx(i), t));
    lemma_predicting_contains(g, ll.first@, ll.follow@, g.nt@[i].start_idx as int, g.end_idx(i), t, p);
}

/// Accept is only ever put on `_Eof`.
pub proof fn law_accept_on_eof(g: &Grammar, n: Lr1Node, ch: int)
    requires
        entry_acts(g, n, ch).contains(Act::Acc),
    ensures
        ch == EOF_IDX,
{
    lemma_shift_no_acc(n.link@, ch);
    lemma_reduce_acc(g, n.closure@, ch);
    let a = shift_part(n.link@, ch);
    let b = reduce_part(g, n.closure@, ch);
    let k = choose|k: int| 0 <= k < (a + b).len() && (a + b)[k] == Act::Acc;
    if k < a.len() {
        assert(a[k] == Act::Acc);
        assert(a.contains(Act::Acc));
    } else {
        assert(b[k - a.len()] == Act::Acc);
        assert(b.contains(Act::Acc));
    }
}

proof fn lemma_shift_no_acc(link: Seq<(u32, usize)>, ch: int)
    ensures
        !shift_part(link, ch).contains(Act::Acc),
    decreases link.len(),
{
    if link.len() > 0 {
        lemma_shift_no_acc(link.drop_last(), ch);
        let a = shift_part(link.drop_last(), ch);
        let b = if link.last().0 == ch { seq![Act::Shift(link.last().1 as u32)] } else { Seq::<Act>::empty() };
        if (a + b).contains(Act::Acc) {
            let k = choose|k: int| 0 <= k < (a + b).len() && (a + b)[k] == Act::Acc;
            if k < a.len() {
                assert(a[k] == Act::Acc);
            }
        }
    }
}

proof fn lemma_reduce_acc(g: &Grammar, items: Seq<Lr1Item>, ch: int)
    ensures
        reduce_part(g, items, ch).contains(Act::Acc) ==> ch == EOF_IDX,
    decreases items.len(),
{
    if items.len() > 0 {
        lemma_reduce_acc(g, items.drop_last(), ch);
        let a = reduce_part(g, items.drop_last(), ch);
        let b = item_acts(g, items.last().lr0, items.last().lookahead@, ch);
        if (a + b).contains(Act::Acc) {
            let k = choose|k: int| 0 <= k < (a + b).len() && (a + b)[k] == Act::Acc;
            if k < a.len() {
                assert(a[k] == Act::Acc);
            } else {
                assert(b[k - a.len()] == Act::Acc);
            }
        }
    }
}

/// What one call of the lexer consumes: the input is the skipped text, then the token's text,
/// then what remains.
pub proof fn law_lex_next_consumes(d: DfaTables, s: Seq<u8>, line: int, col: int)
    requires
        lex_next(d, s, line, col).0 matches Some(t) && t.ty != d.eof,
    ensures
        exists|k: int|
            0 <= k <= s.len() && #[trigger] s.take(k) + lex_next(d, s, line, col).0->0.piece + lex_next(d, s, line, col).1 == s,
    decreases s.len(),
{
    let r = d.scan(s, 0, 0, d.eof);
    let i = r.0;
    crate::lexer::lemma_scan_range(d, s, 0, 0, d.eof);
    let pos = crate::lexer::advance_pos(line, col, s.take(i));
    if s.len() == 0 {
    } else if r.1 == d.eof {
    } else if r.1 != d.eps {
        assert(s.take(0) + s.take(i) + s.skip(i) =~= s);
    } else if i >= s.len() {
    } else if i > 0 {
        law_lex_next_consumes(d, s.skip(i), pos.0, pos.1);
        let rest = s.skip(i);
        let k = choose|k: int|
            0 <= k <= rest.len() && #[trigger] rest.take(k) + lex_next(d, rest, pos.0, pos.1).0->0.piece + lex_next(d, rest, pos.0, pos.1).1 == rest;
        assert(lex_next(d, s, line, col) == lex_next(d, rest, pos.0, pos.1));
        assert(s.take(i + k) =~= s.take(i) + rest.take(k));
        let t = lex_next(d, rest, pos.0, pos.1);
        assert(s.take(i) + (rest.take(k) + t.0->0.piece + t.1) =~= s);
        assert(s.take(i + k) + lex_next(d, s, line, col).0->0.piece + lex_next(d, s, line, col).1 =~= s);
    }
}

/// The lexer never returns a skipped token: at the end of the input it returns `eof` instead.
pub proof fn law_lexer_skips_eps(d: DfaTables, s: Seq<u8>, line: int, col: int)
    requires
        d.eof != d.eps,
    ensures
        lex_next(d, s, line, col).0 matches Some(t) ==> t.ty != d.eps,
    decreases s.len(),
{
    if s.len() > 0 {
        let r = d.scan(s, 0, 0, d.eof);
        let i = r.0;
        crate::lexer::lemma_scan_range(d, s, 0, 0, d.eof);
        let pos = crate::lexer::advance_pos(line, col, s.take(i));
        if r.1 != d.eof && r.1 == d.eps && i < s.len() && i > 0 {
            law_lexer_skips_eps(d, s.skip(i), pos.0, pos.1);
        }
    }
}


/// Solving is idempotent: solving an entry that was already solved gives the same actions (a
/// conflict left unsolved is reported again).
pub proof fn law_solve_idempotent(g: &Grammar, ch: int, acts: Seq<Act>)
    ensures
        solve_entry(g, ch, solve_entry(g, ch, acts).0).0 == solve_entry(g, ch, acts).0,
{
    let once = solve_entry(g, ch, acts).0;
    if acts.len() == 2 {
        match (acts[0], acts[1]) {
            (Act::Reduce(r1), Act::Reduce(r2)) => {
                let lo = if r1 < r2 { r1 } else { r2 };
                let hi = if r1 < r2 { r2 } else { r1 };
                if once.len() == 2 {
                    assert(once == seq![Act::Reduce(lo), Act::Reduce(hi)]);
                    assert(solve_rr(g, lo, hi).0 =~= once);
                }
            },
            (Act::Reduce(r), Act::Shift(sh)) => {
                if once.len() == 2 {
                    assert(once == seq![Act::Shift(sh), Act::Reduce(r)]);
                }
            },
            (Act::Shift(sh), Act::Reduce(r)) => {
                if once.len() == 2 {
                    assert(once == seq![Act::Shift(sh), Act::Reduce(r)]);
                }
            },
            _ => {},
        }
    }
}

/// Numbering a grammar with the name check and without it differ only by the name errors:
/// where the checked numbering succeeds, the unchecked one gives the same grammar.
pub proof fn law_extend_name_check(
    priority: Seq<RawPriorityRow>,
    lexical: Seq<(Seq<char>, Seq<char>)>,
    productions: Seq<RawProdView>,
    start: Seq<char>,
)
    requires
        extend_spec(priority, lexical, productions, start, true) is Ok,
    ensures
        extend_spec(priority, lexical, productions, start, false) == extend_spec(priority, lexical, productions, start, true),
{
    lemma_extend_unchecked(priority, lexical, productions, start);
}

/// The lines of `s` split at each newline, as `str::split('\n')` gives them: one more than
/// the newlines, the last one possibly empty.
pub open spec fn split_nl(s: Seq<char>) -> Seq<Seq<char>>
    decreases s.len(),
{
    if s.len() == 0 {
        seq![Seq::empty()]
    } else if s.last() == '\n' {
        split_nl(s.drop_last()).push(Seq::empty())
    } else {
        let ls = split_nl(s.drop_last());
        ls.update(ls.len() - 1, ls.last().push(s.last()))
    }
}

/// What `ln` appends for each of `lines` in turn, at indentation `indent`.
pub open spec fn ln_each(indent: Seq<char>, lines: Seq<Seq<char>>) -> Seq<char>
    decreases lines.len(),
{
    if lines.len() == 0 {
        Seq::empty()
    } else {
        ln_each(indent, lines.drop_last()) + indent + lines.last() + seq!['\n']
    }
}

proof fn lemma_split_nl(s: Seq<char>, indent: Seq<char>)
    ensures
        split_nl(s).len() >= 1,
        indent + indent_lines(s, indent) == ln_each(indent, split_nl(s).drop_last()) + indent + split_nl(s).last(),
    decreases s.len(),
{
    if s.len() > 0 {
        let t = s.drop_last();
        lemma_split_nl(t, indent);
        let lt = split_nl(t);
        if s.last() == '\n' {
            assert(split_nl(s).drop_last() =~= lt);
            assert(lt =~= lt.drop_last().push(lt.last()));
            assert(indent + indent_lines(s, indent) =~= (indent + indent_lines(t, indent)) + seq!['\n'] + indent);
            assert(ln_each(indent, lt) == ln_each(indent, lt.drop_last()) + indent + lt.last() + seq!['\n']);
            assert(indent + indent_lines(s, indent) =~= ln_each(indent, split_nl(s).drop_last()) + indent + split_nl(s).last());
        } else {
            assert(split_nl(s).drop_last() =~= lt.drop_last());
            assert(indent + indent_lines(s, indent) =~= (indent + indent_lines(t, indent)) + seq![s.last()]);
            assert(indent + indent_lines(s, indent) =~= ln_each(indent, split_nl(s).drop_last()) + indent + split_nl(s).last());
        }
    }
}

/// `lns(s)` appends what `ln` appends for each line of `s` split at its newlines, in order.
pub proof fn law_lns_is_ln_per_line(indent: Seq<char>, s: Seq<char>)
    ensures
        indent + indent_lines(s, indent) + seq!['\n'] == ln_each(indent, split_nl(s)),
{
    lemma_split_nl(s, indent);
    let ls = split_nl(s);
    assert(ls.drop_last() + seq![ls.last()] =~= ls);
    assert(ln_each(indent, ls) == ln_each(indent, ls.drop_last()) + indent + ls.last() + seq!['\n']);
    assert(indent + indent_lines(s, indent) + seq!['\n'] =~= ln_each(indent, ls));
}

proof fn lemma_advance_concat(line: int, col: int, a: Seq<u8>, b: Seq<u8>)
    ensures
        advance_pos(line, col, a + b) == advance_pos(advance_pos(line, col, a).0, advance_pos(line, col, a).1, b),
    decreases b.len(),
{
    if b.len() > 0 {
        lemma_advance_concat(line, col, a, b.drop_last());
        assert((a + b).drop_last() =~= a + b.drop_last());
        assert((a + b).last() == b.last());
    } else {
        assert(a + b =~= a);
    }
}

/// After a call of the lexer that returns a token, the rest of the input is a suffix of it and
/// the position is that of the end of what was read before it.
pub proof fn law_lex_next_position(d: DfaTables, s: Seq<u8>, line: int, col: int)
    requires
        lex_next(d, s, line, col).0 is Some,
    ensures
        exists|k: int|
            0 <= k <= s.len() && lex_next(d, s, line, col).1 == s.skip(k) && (lex_next(d, s, line, col).2, lex_next(
                d,
                s,
                line,
                col,
            ).3) == #[trigger] advance_pos(line, col, s.take(k)),
    decreases s.len(),
{
    if s.len() == 0 {
        assert(s.skip(0) =~= s);
        assert(s.take(0) =~= Seq::<u8>::empty());
        assert(advance_pos(line, col, s.take(0)) == (line, col));
    } else {
        let r = d.scan(s, 0, 0, d.eof);
        let i = r.0;
        crate::lexer::lemma_scan_range(d, s, 0, 0, d.eof);
        let pos = advance_pos(line, col, s.take(i));
        if r.1 != d.eof && r.1 == d.eps && i < s.len() && i > 0 {
            let rest = s.skip(i);
            law_lex_next_position(d, rest, pos.0, pos.1);
            let k = choose|k: int|
                0 <= k <= rest.len() && lex_next(d, rest, pos.0, pos.1).1 == rest.skip(k) && (lex_next(d, rest, pos.0, pos.1).2, lex_next(
                    d,
                    rest,
                    pos.0,
                    pos.1,
                ).3) == #[trigger] advance_pos(pos.0, pos.1, rest.take(k));
            assert(lex_next(d, s, line, col) == lex_next(d, rest, pos.0, pos.1));
            assert(rest.skip(k) =~= s.skip(i + k));
            assert(s.take(i + k) =~= s.take(i) + rest.take(k));
            lemma_advance_concat(line, col, s.take(i), rest.take(k));
            assert(advance_pos(line, col, s.take(i + k)) == advance_pos(pos.0, pos.1, rest.take(k)));
        } else {
            assert(advance_pos(line, col, s.take(i)) == pos);
        }
    }
}

/// The input, line and column left after `n` calls of the lexer from `s` at `(line, col)`, or
/// `None` if one of them returned no token.
pub open spec fn lex_run(d: DfaTables, s: Seq<u8>, line: int, col: int, n: nat) -> Option<(Seq<u8>, int, int)>
    decreases n,
{
    if n == 0 {
        Some((s, line, col))
    } else {
        match lex_run(d, s, line, col, (n - 1) as nat) {
            None => None,
            Some(st) => {
                let x = lex_next(d, st.0, st.1, st.2);
                if x.0 is Some {
                    Some((x.1, x.2, x.3))
                } else {
                    None
                }
            },
        }
    }
}

/// Over any run of the lexer in which every call returned a token, what is left is a suffix of
/// the input and the line and column are those of the end of the prefix read: from a new lexer
/// (line 1, column 1), one more than the newlines read, and one more than the bytes read since
/// the last of them.
pub proof fn law_lexer_run_position(d: DfaTables, s: Seq<u8>, line: int, col: int, n: nat)
    ensures
        lex_run(d, s, line, col, n) matches Some(st) ==> exists|k: int|
            0 <= k <= s.len() && st.0 == s.skip(k) && (st.1, st.2) == #[trigger] advance_pos(line, col, s.take(k)),
    decreases n,
{
    if n == 0 {
        assert(s.skip(0) =~= s);
        assert(s.take(0) =~= Seq::<u8>::empty());
        assert(advance_pos(line, col, s.take(0)) == (line, col));
    } else {
        law_lexer_run_position(d, s, line, col, (n - 1) as nat);
        if let Some(st0) = lex_run(d, s, line, col, (n - 1) as nat) {
            let x = lex_next(d, st0.0, st0.1, st0.2);
            if x.0 is Some {
                let k0 = choose|k: int|
                    0 <= k <= s.len() && st0.0 == s.skip(k) && (st0.1, st0.2) == #[trigger] advance_pos(line, col, s.take(k));
                law_lex_next_position(d, st0.0, st0.1, st0.2);
                let rest = st0.0;
                let k1 = choose|k: int|
                    0 <= k <= rest.len() && lex_next(d, rest, st0.1, st0.2).1 == rest.skip(k) && (lex_next(d, rest, st0.1, st0.2).2, lex_next(
                        d,
                        rest,
                        st0.1,
                        st0.2,
                    ).3) == #[trigger] advance_pos(st0.1, st0.2, rest.take(k));
                assert(rest.skip(k1) =~= s.skip(k0 + k1));
                assert(s.take(k0 + k1) =~= s.take(k0) + rest.take(k1));
                lemma_advance_concat(line, col, s.take(k0), rest.take(k1));
                assert(advance_pos(line, col, s.take(k0 + k1)) == advance_pos(st0.1, st0.2, rest.take(k1)));
            }
        }
    }
}

/// The positions of the shifts among `events`, in order.
pub open spec fn shifts(events: Seq<Event>) -> Seq<usize>
    decreases events.len(),
{
    if events.len() == 0 {
        Seq::empty()
    } else {
        shifts(events.drop_last()) + match events.last() {
            Event::Shift(i) => seq![i],
            Event::Reduce(_) => Seq::empty(),
        }
    }
}

pub open spec fn counts_up(s: Seq<usize>) -> bool {
    forall|i: int| 0 <= i < s.len() ==> #[trigger] s[i] == i
}

/// An accepted parse shifts the tokens one by one, in order from the first.
pub proof fn law_parse_shifts_in_order(t: &ParseTables, toks: Seq<u32>, fuel: nat)
    requires
        toks.len() <= usize::MAX,
        run(t, toks, seq![0u32], 0, Seq::empty(), fuel) is Accept,
    ensures
        counts_up(shifts(run(t, toks, seq![0u32], 0, Seq::empty(), fuel)->Accept_0)),
{
    lemma_run_shifts(t, toks, seq![0u32], 0, Seq::empty(), fuel);
}

proof fn lemma_run_shifts(t: &ParseTables, toks: Seq<u32>, stack: Seq<u32>, pos: int, events: Seq<Event>, fuel: nat)
    requires
        toks.len() <= usize::MAX,
        run(t, toks, stack, pos, events, fuel) is Accept,
        counts_up(shifts(events)),
        shifts(events).len() == pos,
        pos >= 0,
    ensures
        counts_up(shifts(run(t, toks, stack, pos, events, fuel)->Accept_0)),
    decreases fuel,
{
    if fuel > 0 && pos < toks.len() && stack.len() > 0 && crate::driver::has_entry(t, stack.last() as int, toks[pos] as int) {
        match t.edge@[stack.last() as int]@[toks[pos] as int] {
            crate::driver::Act::Shift(s) => {
                if pos + 1 < toks.len() {
                    let ev = events.push(Event::Shift(pos as usize));
                    assert(ev.drop_last() =~= events);
                    assert(shifts(ev) =~= shifts(events).push(pos as usize));
                    lemma_run_shifts(t, toks, stack.push(s), pos + 1, ev, (fuel - 1) as nat);
                }
            },
            crate::driver::Act::Reduce(r) => {
                if !(r >= t.prod@.len() || t.prod@[r as int].1 >= stack.len()) {
                    let st2 = stack.take(stack.len() - t.prod@[r as int].1);
                    let lhs = t.prod@[r as int].0;
                    if crate::driver::has_entry(t, st2.last() as int, lhs as int) {
                        match t.edge@[st2.last() as int]@[lhs as int] {
                            crate::driver::Act::Goto(nx) => {
                                let ev = events.push(Event::Reduce(r));
                                assert(ev.drop_last() =~= events);
                                assert(shifts(ev) =~= shifts(events));
                                lemma_run_shifts(t, toks, st2.push(nx), pos, ev, (fuel - 1) as nat);
                            },
                            _ => {},
                        }
                    }
                }
            },
            _ => {},
        }
    }
}

/// Indenting one level and then going back restores the indentation.
pub proof fn law_inc_dec(indent: Seq<char>)
    ensures
        (indent + seq![' ', ' ']).take((indent + seq![' ', ' ']).len() - 2) == indent,
{
    assert((indent + seq![' ', ' ']).take((indent + seq![' ', ' ']).len() - 2) =~= indent);
}

} // verus!
