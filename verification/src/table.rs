use vstd::prelude::*;
use crate::grammar::{Grammar, Assoc, EOF_IDX};
use crate::collections::{ActVec, act_vec_items, act_vec_new, act_vec_push, act_vec_len, act_vec_get, act_vec_clone};
use crate::lr0::{Lr0Item, valid_item};
use crate::lalr1::{Lr1Node, Lr1Item};

verus! {

/// An action of the LR(1) table on a term.
#[derive(Copy, Clone, Debug, PartialEq, Eq, Structural)]
pub enum Act {
    Acc,
    Shift(u32),
    Reduce(u32),
}

/// A state of the parsing table: the actions on each term (`act[ch]`, empty where there is none;
/// after `solve`, the chosen one first) and the transitions on each non-term (`goto[i]` for
/// non-term `i`, counted from 0).
pub struct TableEntry {
    pub act: Vec<ActVec>,
    pub goto: Vec<Option<u32>>,
}

/// A conflict between actions of one table entry.
pub enum ConflictKind {
    RR { r1: u32, r2: u32 },
    SR { s: u32, r: u32 },
    Many(ActVec),
}

/// A conflict, with the state and the term of its entry.
pub struct Conflict {
    pub kind: ConflictKind,
    pub state: u32,
    pub ch: u32,
}

/// The abstract form of a conflict kind.
pub enum ConflictView {
    RR(u32, u32),
    SR(u32, u32),
    Many(Seq<Act>),
}

impl ConflictKind {
    pub open spec fn view(&self) -> ConflictView {
        match self {
            ConflictKind::RR { r1, r2 } => ConflictView::RR(*r1, *r2),
            ConflictKind::SR { s, r } => ConflictView::SR(*s, *r),
            ConflictKind::Many(v) => ConflictView::Many(act_vec_items(*v)),
        }
    }
}

impl Conflict {
    pub open spec fn view(&self) -> (ConflictView, u32, u32) {
        (self.kind@, self.state, self.ch)
    }

    /// Whether more than two actions conflict.
    pub fn is_many(&self) -> (r: bool)
        ensures
            r == (self.kind is Many),
    {
        match self.kind {
            ConflictKind::Many(_) => true,
            _ => false,
        }
    }
}

pub open spec fn acts_view(e: TableEntry) -> Seq<Seq<Act>> {
    e.act@.map_values(|v: ActVec| act_vec_items(v))
}

/// The target of the transition of `link` over `x`, if there is one.
pub open spec fn link_target(link: Seq<(u32, usize)>, x: u32) -> Option<u32>
    decreases link.len(),
{
    if link.len() == 0 {
        None
    } else if link.last().0 == x {
        Some(link.last().1 as u32)
    } else {
        link_target(link.drop_last(), x)
    }
}

/// The shifts that the transitions `link` put on term `ch`.
pub open spec fn shift_part(link: Seq<(u32, usize)>, ch: int) -> Seq<Act>
    decreases link.len(),
{
    if link.len() == 0 {
        Seq::empty()
    } else {
        shift_part(link.drop_last(), ch) + (if link.last().0 == ch { seq![Act::Shift(link.last().1 as u32)] } else { Seq::empty() })
    }
}

/// The production that `extend` adds last, `_ -> Start`.
pub open spec fn start_prod(g: &Grammar) -> int {
    g.prod@.len() - 1
}

/// What a complete item puts on term `ch`: accept on `_Eof` for the start production, else a
/// reduction on each of its lookaheads.
pub open spec fn item_acts(g: &Grammar, it: Lr0Item, la: Set<int>, ch: int) -> Seq<Act> {
    if it.dot == g.rhs(it.prod_id as int).len() {
        if it.prod_id == start_prod(g) {
            if ch == EOF_IDX && la.contains(EOF_IDX as int) { seq![Act::Acc] } else { Seq::empty() }
        } else if la.contains(ch) {
            seq![Act::Reduce(it.prod_id)]
        } else {
            Seq::empty()
        }
    } else {
        Seq::empty()
    }
}

pub open spec fn reduce_part(g: &Grammar, items: Seq<Lr1Item>, ch: int) -> Seq<Act>
    decreases items.len(),
{
    if items.len() == 0 {
        Seq::empty()
    } else {
        reduce_part(g, items.drop_last(), ch) + item_acts(g, items.last().lr0, items.last().lookahead@, ch)
    }
}

/// The actions of state `n` on term `ch`, before conflicts are solved: its shift, then what its
/// complete items put there, in order.
pub open spec fn entry_acts(g: &Grammar, n: Lr1Node, ch: int) -> Seq<Act> {
    shift_part(n.link@, ch) + reduce_part(g, n.closure@, ch)
}

/// Items and transitions that belong to the grammar.
pub open spec fn lr1_ok(g: &Grammar, r: Seq<Lr1Node>) -> bool {
    forall|s: int|
        0 <= s < r.len() ==> {
            &&& forall|k: int|
                0 <= k < (#[trigger] r[s]).closure@.len() ==> valid_item(g, (#[trigger] r[s].closure@[k]).lr0)
                    && r[s].closure@[k].lookahead.capacity() >= g.token_count()
            &&& forall|e: int| 0 <= e < r[s].link@.len() ==> (#[trigger] r[s].link@[e]).0 < g.token_count() && r[s].link@[e].1 < r.len()
        }
}

/// Entry `e` is the table entry of state `n`.
pub open spec fn entry_ok(g: &Grammar, n: Lr1Node, e: TableEntry) -> bool {
    &&& e.act@.len() == g.terms@.len()
    &&& forall|ch: int| 0 <= ch < g.terms@.len() ==> #[trigger] acts_view(e)[ch] == entry_acts(g, n, ch)
    &&& e.goto@.len() == g.nt@.len()
    &&& forall|i: int| 0 <= i < g.nt@.len() ==> #[trigger] e.goto@[i] == link_target(n.link@, (i + g.terms@.len()) as u32)
}

/// The parsing table of an LR(1) automaton, before its conflicts are solved.
pub fn mk_table(lr1: &Vec<Lr1Node>, g: &Grammar) -> (r: Vec<TableEntry>)
    requires
        g.wf(),
        lr1_ok(g, lr1@),
        lr1@.len() < u32::MAX,
    ensures
        r@.len() == lr1@.len(),
        forall|i: int| 0 <= i < r@.len() ==> entry_ok(g, lr1@[i], #[trigger] r@[i]),
{
    let tn = g.terms.len();
    let nn = g.nt.len();
    let mut r: Vec<TableEntry> = Vec::new();
    let mut s: usize = 0;
    while s < lr1.len()
        invariant
            g.wf(),
            lr1_ok(g, lr1@),
            lr1@.len() < u32::MAX,
            tn == g.terms@.len(),
            nn == g.nt@.len(),
            s <= lr1@.len(),
            r@.len() == s,
            forall|i: int| 0 <= i < s ==> entry_ok(g, lr1@[i], #[trigger] r@[i]),
        decreases lr1@.len() - s,
    {
        let node = &lr1[s];
        let mut act: Vec<ActVec> = Vec::new();
        let mut ch: usize = 0;
        while ch < tn
            invariant
                ch <= tn,
                act@.len() == ch,
                forall|c: int| 0 <= c < ch ==> act_vec_items(#[trigger] act@[c]) == Seq::<Act>::empty(),
            decreases tn - ch,
        {
            act.push(act_vec_new());
            ch = ch + 1;
        }
        let mut goto: Vec<Option<u32>> = Vec::new();
        let mut i: usize = 0;
        while i < nn
            invariant
                i <= nn,
                goto@.len() == i,
                forall|c: int| 0 <= c < i ==> #[trigger] goto@[c] == Option::<u32>::None,
            decreases nn - i,
        {
            goto.push(None);
            i = i + 1;
        }
        let mut e: usize = 0;
        while e < node.link.len()
            invariant
                g.wf(),
                lr1_ok(g, lr1@),
                lr1@.len() < u32::MAX,
                s < lr1@.len(),
                *node == lr1@[s as int],
                tn == g.terms@.len(),
                nn == g.nt@.len(),
                e <= node.link@.len(),
                act@.len() == tn,
                goto@.len() == nn,
                forall|c: int| 0 <= c < tn ==> act_vec_items(#[trigger] act@[c]) == shift_part(node.link@.take(e as int), c),
                forall|c: int| 0 <= c < nn ==> #[trigger] goto@[c] == link_target(node.link@.take(e as int), (c + tn) as u32),
            decreases node.link@.len() - e,
        {
            let (x, v) = node.link[e];
            proof {
                assert(node.link@[e as int].0 < g.token_count());
                assert(node.link@[e as int].1 < lr1@.len());
                assert(node.link@.take(e + 1).drop_last() =~= node.link@.take(e as int));
            }
            if (x as usize) < tn {
                act_vec_push(&mut act[x as usize], Act::Shift(v as u32));
            } else {
                goto.set(x as usize - tn, Some(v as u32));
            }
            e = e + 1;
        }
        assert(node.link@.take(node.link@.len() as int) =~= node.link@);
        let mut k: usize = 0;
        while k < node.closure.len()
            invariant
                g.wf(),
                lr1_ok(g, lr1@),
                s < lr1@.len(),
                *node == lr1@[s as int],
                tn == g.terms@.len(),
                k <= node.closure@.len(),
                act@.len() == tn,
                forall|c: int|
                    0 <= c < tn ==> act_vec_items(#[trigger] act@[c]) == shift_part(node.link@, c) + reduce_part(
                        g,
                        node.closure@.take(k as int),
                        c,
                    ),
            decreases node.closure@.len() - k,
        {
            let item = &node.closure[k];
            let it = item.lr0;
            proof {
                assert(valid_item(g, lr1@[s as int].closure@[k as int].lr0));
                assert(node.closure@.take(k + 1).drop_last() =~= node.closure@.take(k as int));
                assert(node.closure@.take(k + 1).last() == *item);
            }
            let len = crate::collections::prod_vec_len(&g.prod[it.prod_id as usize].rhs);
            if it.dot as usize == len {
                if it.prod_id as usize == g.prod.len() - 1 {
                    if item.lookahead.test(EOF_IDX as u32) {
                        act_vec_push(&mut act[EOF_IDX], Act::Acc);
                    }
                    proof {
                        assert forall|c: int| 0 <= c < tn implies act_vec_items(#[trigger] act@[c]) == shift_part(node.link@, c) + reduce_part(
                            g,
                            node.closure@.take(k + 1),
                            c,
                        ) by {
                            assert(item_acts(g, it, item.lookahead@, c) == (if c == EOF_IDX && item.lookahead@.contains(EOF_IDX as int) {
                                seq![Act::Acc]
                            } else {
                                Seq::<Act>::empty()
                            }));
                        }
                    }
                } else {
                    let mut c: usize = 0;
                    while c < tn
                        invariant
                            g.wf(),
                            s < lr1@.len(),
                            *node == lr1@[s as int],
                            k < node.closure@.len(),
                            *item == node.closure@[k as int],
                            it == item.lr0,
                            it.dot == g.rhs(it.prod_id as int).len(),
                            it.prod_id != start_prod(g),
                            item.lookahead.capacity() >= g.token_count(),
                            tn == g.terms@.len(),
                            c <= tn,
                            act@.len() == tn,
                            forall|cc: int|
                                0 <= cc < c ==> act_vec_items(#[trigger] act@[cc]) == shift_part(node.link@, cc) + reduce_part(
                                    g,
                                    node.closure@.take(k + 1),
                                    cc,
                                ),
                            forall|cc: int|
                                c <= cc < tn ==> act_vec_items(#[trigger] act@[cc]) == shift_part(node.link@, cc) + reduce_part(
                                    g,
                                    node.closure@.take(k as int),
                                    cc,
                                ),
                        decreases tn - c,
                    {
                        proof {
                            assert(node.closure@.take(k + 1).drop_last() =~= node.closure@.take(k as int));
                            assert(node.closure@.take(k + 1).last() == *item);
                        }
                        if item.lookahead.test(c as u32) {
                            act_vec_push(&mut act[c], Act::Reduce(it.prod_id));
                            assert(act_vec_items(act@[c as int]) =~= shift_part(node.link@, c as int) + reduce_part(g, node.closure@.take(k + 1), c as int));
                        } else {
                            assert(act_vec_items(act@[c as int]) =~= shift_part(node.link@, c as int) + reduce_part(g, node.closure@.take(k + 1), c as int));
                        }
                        c = c + 1;
                    }
                }
            } else {
                proof {
                    assert forall|c: int| 0 <= c < tn implies act_vec_items(#[trigger] act@[c]) == shift_part(node.link@, c) + reduce_part(
                        g,
                        node.closure@.take(k + 1),
                        c,
                    ) by {
                        assert(item_acts(g, it, item.lookahead@, c) == Seq::<Act>::empty());
                        assert(reduce_part(g, node.closure@.take(k + 1), c) =~= reduce_part(g, node.closure@.take(k as int), c));
                    }
                }
            }
            k = k + 1;
        }
        assert(node.closure@.take(node.closure@.len() as int) =~= node.closure@);
        let entry = TableEntry { act, goto };
        proof {
            assert forall|c: int| 0 <= c < g.terms@.len() implies #[trigger] acts_view(entry)[c] == entry_acts(g, lr1@[s as int], c) by {}
        }
        r.push(entry);
        s = s + 1;
    }
    r
}


/// The priority of production `r`.
pub open spec fn prod_pri(g: &Grammar, r: u32) -> Option<u32> {
    g.prod@[r as int].pri
}

/// The priority and associativity of term `ch`.
pub open spec fn term_pa(g: &Grammar, ch: int) -> Option<(u32, Assoc)> {
    g.terms@[ch].pri_assoc
}

/// A shift-reduce conflict on term `ch`: when both the production and the term have a
/// priority, the higher one wins, and on a tie the term's associativity decides (left:
/// reduce, right: shift, none: error, that is no action); else it is reported, and the shift
/// comes first.
pub open spec fn solve_sr(g: &Grammar, ch: int, s: u32, r: u32) -> (Seq<Act>, Option<ConflictView>) {
    match (prod_pri(g, r), term_pa(g, ch)) {
        (Some(pp), Some(pa)) => if pp < pa.0 {
            (seq![Act::Shift(s)], None)
        } else if pp > pa.0 {
            (seq![Act::Reduce(r)], None)
        } else {
            match pa.1 {
                Assoc::Left => (seq![Act::Reduce(r)], None),
                Assoc::Right => (seq![Act::Shift(s)], None),
                Assoc::NoAssoc => (Seq::empty(), None),
            }
        },
        _ => (seq![Act::Shift(s), Act::Reduce(r)], Some(ConflictView::SR(s, r))),
    }
}

/// A reduce-reduce conflict: when both productions have distinct priorities, the higher one
/// wins; else it is reported, and the earlier production comes first.
pub open spec fn solve_rr(g: &Grammar, r1: u32, r2: u32) -> (Seq<Act>, Option<ConflictView>) {
    let rep = (seq![Act::Reduce(if r1 < r2 { r1 } else { r2 }), Act::Reduce(if r1 < r2 { r2 } else { r1 })], Some(ConflictView::RR(r1, r2)));
    match (prod_pri(g, r1), prod_pri(g, r2)) {
        (Some(p1), Some(p2)) => if p1 != p2 {
            (seq![Act::Reduce(if p1 < p2 { r2 } else { r1 })], None)
        } else {
            rep
        },
        _ => rep,
    }
}

/// The actions of an entry on term `ch` after solving, and the conflict it reports: two
/// actions are solved as above; three or more are kept and reported.
pub open spec fn solve_entry(g: &Grammar, ch: int, acts: Seq<Act>) -> (Seq<Act>, Option<ConflictView>) {
    if acts.len() == 2 {
        match (acts[0], acts[1]) {
            (Act::Reduce(r1), Act::Reduce(r2)) => solve_rr(g, r1, r2),
            (Act::Reduce(r), Act::Shift(s)) => solve_sr(g, ch, s, r),
            (Act::Shift(s), Act::Reduce(r)) => solve_sr(g, ch, s, r),
            _ => (acts, None),
        }
    } else if acts.len() > 2 {
        (acts, Some(ConflictView::Many(acts)))
    } else {
        (acts, None)
    }
}

/// Two actions are a shift and a reduction or two reductions, of productions of `g`.
pub open spec fn pair_ok(g: &Grammar, a: Seq<Act>) -> bool {
    a.len() == 2 ==> match (a[0], a[1]) {
        (Act::Reduce(r1), Act::Reduce(r2)) => r1 < g.prod@.len() && r2 < g.prod@.len(),
        (Act::Reduce(r), Act::Shift(_)) => r < g.prod@.len(),
        (Act::Shift(_), Act::Reduce(r)) => r < g.prod@.len(),
        _ => false,
    }
}

pub open spec fn tables_view(t: Seq<TableEntry>) -> Seq<Seq<Seq<Act>>> {
    t.map_values(|e: TableEntry| acts_view(e))
}

/// Every entry has one action list per term, and those of two actions can be solved.
pub open spec fn solvable(g: &Grammar, t: Seq<TableEntry>) -> bool {
    forall|i: int|
        0 <= i < t.len() ==> {
            &&& (#[trigger] t[i]).act@.len() == g.terms@.len()
            &&& forall|ch: int| 0 <= ch < g.terms@.len() ==> pair_ok(g, #[trigger] acts_view(t[i])[ch])
        }
}

/// The conflicts that state `state` reports, on terms below `upto`, in order of term.
pub open spec fn state_reports(g: &Grammar, acts: Seq<Seq<Act>>, state: int, upto: int) -> Seq<(ConflictView, u32, u32)>
    decreases upto,
{
    if upto <= 0 {
        Seq::empty()
    } else {
        state_reports(g, acts, state, upto - 1) + match solve_entry(g, upto - 1, acts[upto - 1]).1 {
            Some(c) => seq![(c, state as u32, (upto - 1) as u32)],
            None => Seq::empty(),
        }
    }
}

/// The conflicts that the states below `upto` report, in order of state.
pub open spec fn table_reports(g: &Grammar, t: Seq<Seq<Seq<Act>>>, upto: int) -> Seq<(ConflictView, u32, u32)>
    decreases upto,
{
    if upto <= 0 {
        Seq::empty()
    } else {
        table_reports(g, t, upto - 1) + state_reports(g, t[upto - 1], upto - 1, t[upto - 1].len() as int)
    }
}

pub open spec fn opt_kind_view(o: Option<ConflictKind>) -> Option<ConflictView> {
    match o {
        Some(k) => Some(k@),
        None => None,
    }
}

/// Solves the conflict of one entry on term `ch`: the new actions, where they change, and the
/// conflict to report.
fn solve_one(acts: &ActVec, ch: u32, g: &Grammar) -> (r: (Option<ActVec>, Option<ConflictKind>))
    requires
        g.wf(),
        ch < g.terms@.len(),
        pair_ok(g, act_vec_items(*acts)),
    ensures
        (match r.0 {
            Some(v) => act_vec_items(v) == solve_entry(g, ch as int, act_vec_items(*acts)).0,
            None => act_vec_items(*acts) == solve_entry(g, ch as int, act_vec_items(*acts)).0,
        }),
        opt_kind_view(r.1) == solve_entry(g, ch as int, act_vec_items(*acts)).1,
{
    let n = act_vec_len(acts);
    if n == 2 {
        let a0 = act_vec_get(acts, 0);
        let a1 = act_vec_get(acts, 1);
        match (a0, a1) {
            (Act::Reduce(r1), Act::Reduce(r2)) => {
                let mut v = act_vec_new();
                match (g.prod_pri(r1), g.prod_pri(r2)) {
                    (Some(p1), Some(p2)) if p1 != p2 => {
                        act_vec_push(&mut v, Act::Reduce(if p1 < p2 { r2 } else { r1 }));
                        (Some(v), None)
                    },
                    _ => {
                        act_vec_push(&mut v, Act::Reduce(if r1 < r2 { r1 } else { r2 }));
                        act_vec_push(&mut v, Act::Reduce(if r1 < r2 { r2 } else { r1 }));
                        (Some(v), Some(ConflictKind::RR { r1, r2 }))
                    },
                }
            },
            (Act::Reduce(r), Act::Shift(s)) => solve_sr_acts(g, ch, s, r),
            (Act::Shift(s), Act::Reduce(r)) => solve_sr_acts(g, ch, s, r),
            _ => (None, None),
        }
    } else if n > 2 {
        (None, Some(ConflictKind::Many(act_vec_clone(acts))))
    } else {
        (None, None)
    }
}

fn solve_sr_acts(g: &Grammar, ch: u32, s: u32, r: u32) -> (res: (Option<ActVec>, Option<ConflictKind>))
    requires
        g.wf(),
        ch < g.terms@.len(),
        r < g.prod@.len(),
    ensures
        res.0 matches Some(v) && act_vec_items(v) == solve_sr(g, ch as int, s, r).0,
        opt_kind_view(res.1) == solve_sr(g, ch as int, s, r).1,
{
    let mut v = act_vec_new();
    match (g.prod_pri(r), g.term_pri_assoc(ch)) {
        (Some(pp), Some((cp, ca))) => {
            if pp < cp {
                act_vec_push(&mut v, Act::Shift(s));
            } else if pp > cp {
                act_vec_push(&mut v, Act::Reduce(r));
            } else {
                match ca {
                    Assoc::Left => act_vec_push(&mut v, Act::Reduce(r)),
                    Assoc::Right => act_vec_push(&mut v, Act::Shift(s)),
                    Assoc::NoAssoc => {},
                }
            }
            (Some(v), None)
        },
        _ => {
            act_vec_push(&mut v, Act::Shift(s));
            act_vec_push(&mut v, Act::Reduce(r));
            (Some(v), Some(ConflictKind::SR { s, r }))
        },
    }
}

/// Solves the conflicts of the table by priority and associativity and reports the others.
/// A conflict that priorities solve keeps only the chosen action; a reported one keeps its
/// actions, with the chosen one first.
pub fn solve(t: &mut Vec<TableEntry>, g: &Grammar) -> (reports: Vec<Conflict>)
    requires
        g.wf(),
        solvable(g, old(t)@),
        old(t)@.len() < u32::MAX,
    ensures
        final(t)@.len() == old(t)@.len(),
        forall|i: int|
            0 <= i < final(t)@.len() ==> {
                &&& (#[trigger] final(t)@[i]).goto@ == old(t)@[i].goto@
                &&& final(t)@[i].act@.len() == old(t)@[i].act@.len()
                &&& forall|ch: int|
                    0 <= ch < final(t)@[i].act@.len() ==> #[trigger] acts_view(final(t)@[i])[ch] == solve_entry(
                        g,
                        ch,
                        acts_view(old(t)@[i])[ch],
                    ).0
            },
        reports@.map_values(|c: Conflict| c@) == table_reports(g, tables_view(old(t)@), old(t)@.len() as int),
{
    let ghost t0 = t@;
    let ghost tv = tables_view(t0);
    let mut reports: Vec<Conflict> = Vec::new();
    let mut idx: usize = 0;
    while idx < t.len()
        invariant
            g.wf(),
            solvable(g, t0),
            t0.len() < u32::MAX,
            tv == tables_view(t0),
            t@.len() == t0.len(),
            idx <= t@.len(),
            forall|i: int|
                0 <= i < t@.len() ==> {
                    &&& (#[trigger] t@[i]).goto@ == t0[i].goto@
                    &&& t@[i].act@.len() == t0[i].act@.len()
                },
            forall|i: int, ch: int|
                0 <= i < idx && 0 <= ch < t@[i].act@.len() ==> #[trigger] acts_view(t@[i])[ch] == solve_entry(g, ch, tv[i][ch]).0,
            forall|i: int| idx <= i < t@.len() ==> #[trigger] acts_view(t@[i]) == tv[i],
            reports@.map_values(|c: Conflict| c@) == table_reports(g, tv, idx as int),
        decreases t0.len() - idx,
    {
        let n = t[idx].act.len();
        proof {
            assert(tv[idx as int] == acts_view(t0[idx as int]));
            assert(tv[idx as int].len() == n);
        }
        let mut ch: usize = 0;
        while ch < n
            invariant
                g.wf(),
                solvable(g, t0),
                t0.len() < u32::MAX,
                tv == tables_view(t0),
                t@.len() == t0.len(),
                idx < t@.len(),
                n == t0[idx as int].act@.len(),
                n == g.terms@.len(),
                ch <= n,
                forall|i: int|
                    0 <= i < t@.len() ==> {
                        &&& (#[trigger] t@[i]).goto@ == t0[i].goto@
                        &&& t@[i].act@.len() == t0[i].act@.len()
                    },
                forall|i: int, c: int|
                    0 <= i < idx && 0 <= c < t@[i].act@.len() ==> #[trigger] acts_view(t@[i])[c] == solve_entry(g, c, tv[i][c]).0,
                forall|i: int| idx < i < t@.len() ==> #[trigger] acts_view(t@[i]) == tv[i],
                forall|c: int| 0 <= c < ch ==> #[trigger] acts_view(t@[idx as int])[c] == solve_entry(g, c, tv[idx as int][c]).0,
                forall|c: int| ch <= c < n ==> #[trigger] acts_view(t@[idx as int])[c] == tv[idx as int][c],
                reports@.map_values(|c: Conflict| c@) == table_reports(g, tv, idx as int) + state_reports(g, tv[idx as int], idx as int, ch as int),
            decreases n - ch,
        {
            proof {
                assert(acts_view(t@[idx as int])[ch as int] == tv[idx as int][ch as int]);
                assert(pair_ok(g, acts_view(t0[idx as int])[ch as int]));
            }
            let (nv, rep) = solve_one(&t[idx].act[ch], ch as u32, g);
            let ghost before = t@;
            match nv {
                Some(v) => {
                    t[idx].act.set(ch, v);
                },
                None => {},
            }
            proof {
                assert forall|i: int| 0 <= i < t@.len() implies {
                    &&& (#[trigger] t@[i]).goto@ == t0[i].goto@
                    &&& t@[i].act@.len() == t0[i].act@.len()
                } by {
                    assert(before[i].goto@ == t0[i].goto@);
                }
                assert forall|c: int| 0 <= c < ch + 1 implies #[trigger] acts_view(t@[idx as int])[c] == solve_entry(g, c, tv[idx as int][c]).0 by {
                    if c < ch {
                        assert(acts_view(before[idx as int])[c] == solve_entry(g, c, tv[idx as int][c]).0);
                    }
                }
                assert forall|c: int| ch + 1 <= c < n implies #[trigger] acts_view(t@[idx as int])[c] == tv[idx as int][c] by {
                    assert(acts_view(before[idx as int])[c] == tv[idx as int][c]);
                }
                assert forall|i: int, c: int|
                    0 <= i < idx && 0 <= c < t@[i].act@.len() implies #[trigger] acts_view(t@[i])[c] == solve_entry(g, c, tv[i][c]).0 by {
                    assert(t@[i] == before[i]);
                }
                assert forall|i: int| idx < i < t@.len() implies #[trigger] acts_view(t@[i]) == tv[i] by {
                    assert(t@[i] == before[i]);
                }
            }
            let ghost old_reports = reports@;
            match rep {
                Some(kind) => {
                    reports.push(Conflict { kind, state: idx as u32, ch: ch as u32 });
                },
                None => {},
            }
            proof {
                assert(reports@.map_values(|c: Conflict| c@) =~= table_reports(g, tv, idx as int) + state_reports(g, tv[idx as int], idx as int, ch + 1)) by {
                    assert(old_reports.map_values(|c: Conflict| c@) == table_reports(g, tv, idx as int) + state_reports(g, tv[idx as int], idx as int, ch as int));
                    if rep is Some {
                        assert(reports@ == old_reports.push(reports@.last()));
                        assert(reports@.map_values(|c: Conflict| c@) =~= old_reports.map_values(|c: Conflict| c@).push(reports@.last()@));
                    } else {
                        assert(reports@ == old_reports);
                    }
                }
            }
            ch = ch + 1;
        }
        proof {
            assert(tv[idx as int].len() == n);
            assert(table_reports(g, tv, idx + 1) == table_reports(g, tv, idx as int) + state_reports(g, tv[idx as int], idx as int, n as int));
            assert forall|i: int, c: int|
                0 <= i < idx + 1 && 0 <= c < t@[i].act@.len() implies #[trigger] acts_view(t@[i])[c] == solve_entry(g, c, tv[i][c]).0 by {
                if i == idx {
                    assert(acts_view(t@[idx as int])[c] == solve_entry(g, c, tv[idx as int][c]).0);
                }
            }
        }
        idx = idx + 1;
    }
    reports
}

} // verus!
