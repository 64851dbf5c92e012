use vstd::prelude::*;
use crate::grammar::Grammar;
use crate::collections::{prod_vec_len, act_vec_items, act_vec_len, act_vec_get, act_vec_clone, ActVec};
use crate::lr0::{Lr0Node, lr0_fsm, dots_fit, valid_item, state_set, links_ok, node_sets};
use crate::ll1::is_first;
use crate::lalr1::{Lr1Node, same_core, is_lalr, lookaheads};
use crate::table::{TableEntry, Conflict, Act, lr1_ok, entry_ok, solvable, pair_ok, acts_view, solve_entry, tables_view, table_reports, mk_table, solve};

verus! {

/// Whether every production is shorter than `u32::MAX`, so that dots can move along it.
pub fn check_dots_fit(g: &Grammar) -> (r: bool)
    requires
        g.wf(),
    ensures
        r == dots_fit(g),
{
    let mut p: usize = 0;
    while p < g.prod.len()
        invariant
            g.wf(),
            p <= g.prod@.len(),
            forall|q: int| 0 <= q < p ==> #[trigger] g.rhs(q).len() < u32::MAX,
        decreases g.prod@.len() - p,
    {
        if prod_vec_len(&g.prod[p].rhs) >= 0xffff_ffff {
            assert(!(g.rhs(p as int).len() < u32::MAX));
            return false;
        }
        p = p + 1;
    }
    true
}

/// Whether the conflicts of the table are all between a shift and a reduction or between
/// two reductions, where there are two actions.
pub fn check_solvable(g: &Grammar, t: &Vec<TableEntry>) -> (r: bool)
    requires
        g.wf(),
        forall|i: int| 0 <= i < t@.len() ==> (#[trigger] t@[i]).act@.len() == g.terms@.len(),
    ensures
        r == solvable(g, t@),
{
    let mut i: usize = 0;
    while i < t.len()
        invariant
            g.wf(),
            forall|k: int| 0 <= k < t@.len() ==> (#[trigger] t@[k]).act@.len() == g.terms@.len(),
            i <= t@.len(),
            forall|k: int, ch: int| 0 <= k < i && 0 <= ch < g.terms@.len() ==> pair_ok(g, #[trigger] acts_view(t@[k])[ch]),
        decreases t@.len() - i,
    {
        let mut ch: usize = 0;
        while ch < g.terms.len()
            invariant
                g.wf(),
                i < t@.len(),
                t@[i as int].act@.len() == g.terms@.len(),
                ch <= g.terms@.len(),
                forall|c: int| 0 <= c < ch ==> pair_ok(g, #[trigger] acts_view(t@[i as int])[c]),
            decreases g.terms@.len() - ch,
        {
            let acts = &t[i].act[ch];
            if act_vec_len(acts) == 2 {
                let ok = match (act_vec_get(acts, 0), act_vec_get(acts, 1)) {
                    (Act::Reduce(r1), Act::Reduce(r2)) => (r1 as usize) < g.prod.len() && (r2 as usize) < g.prod.len(),
                    (Act::Reduce(r), Act::Shift(_)) => (r as usize) < g.prod.len(),
                    (Act::Shift(_), Act::Reduce(r)) => (r as usize) < g.prod.len(),
                    _ => false,
                };
                if !ok {
                    assert(!pair_ok(g, acts_view(t@[i as int])[ch as int]));
                    return false;
                }
            }
            ch = ch + 1;
        }
        i = i + 1;
    }
    true
}

/// A copy of a table entry.
pub fn copy_entry(e: &TableEntry) -> (r: TableEntry)
    ensures
        r.act@.len() == e.act@.len(),
        acts_view(r) == acts_view(*e),
        r.goto@ == e.goto@,
{
    let mut act: Vec<ActVec> = Vec::new();
    let mut i: usize = 0;
    while i < e.act.len()
        invariant
            i <= e.act@.len(),
            act@.len() == i,
            forall|k: int| 0 <= k < i ==> act_vec_items(#[trigger] act@[k]) == act_vec_items(e.act@[k]),
        decreases e.act@.len() - i,
    {
        act.push(act_vec_clone(&e.act[i]));
        i = i + 1;
    }
    let mut goto: Vec<Option<u32>> = Vec::new();
    let mut j: usize = 0;
    while j < e.goto.len()
        invariant
            j <= e.goto@.len(),
            goto@ == e.goto@.take(j as int),
        decreases e.goto@.len() - j,
    {
        goto.push(e.goto[j]);
        j = j + 1;
        assert(goto@ =~= e.goto@.take(j as int));
    }
    assert(e.goto@.take(j as int) =~= e.goto@);
    let r = TableEntry { act, goto };
    assert(acts_view(r) =~= acts_view(*e));
    r
}

/// A copy of a table.
pub fn copy_table(t: &Vec<TableEntry>) -> (r: Vec<TableEntry>)
    ensures
        r@.len() == t@.len(),
        forall|i: int|
            0 <= i < t@.len() ==> (#[trigger] r@[i]).act@.len() == t@[i].act@.len() && acts_view(r@[i]) == acts_view(t@[i]) && r@[i].goto@
                == t@[i].goto@,
        tables_view(r@) == tables_view(t@),
{
    let mut r: Vec<TableEntry> = Vec::new();
    let mut i: usize = 0;
    while i < t.len()
        invariant
            i <= t@.len(),
            r@.len() == i,
            forall|k: int|
                0 <= k < i ==> (#[trigger] r@[k]).act@.len() == t@[k].act@.len() && acts_view(r@[k]) == acts_view(t@[k]) && r@[k].goto@
                    == t@[k].goto@,
        decreases t@.len() - i,
    {
        r.push(copy_entry(&t[i]));
        i = i + 1;
    }
    assert(tables_view(r@) =~= tables_view(t@));
    r
}

/// Why no LALR(1) table was built.
#[derive(Copy, Clone, Debug, PartialEq, Eq, Structural)]
pub enum LrError {
    /// A production has `u32::MAX` tokens or more.
    LongProduction,
    /// The automaton has `u32::MAX` states or more.
    TooManyStates,
    /// An entry holds two actions that are neither a shift and a reduction nor two reductions.
    UnsolvableConflict,
}

/// `lr1` is the LALR(1) automaton of `g` built on its LR(0) automaton `lr0`: the same states
/// and links, with the least lookaheads that are closed under the LALR(1) rules.
pub open spec fn lalr1_fsm_ok(g: &Grammar, lr0: Seq<Lr0Node>, lr1: Seq<Lr1Node>) -> bool {
    &&& dots_fit(g)
    &&& lr0_fsm(g, lr0)
    &&& crate::lr0::bfs_numbered(crate::lr0::links_of(lr0))
    &&& lr0.len() < u32::MAX
    &&& same_core(lr0, lr1)
    &&& forall|f: Seq<Set<int>>| #[trigger] is_first(g, f) ==> is_lalr(g, f, lr0, lookaheads(lr1))
    &&& lr1_ok(g, lr1)
}

/// `orig` is the parsing table of the automaton `lr1`, `table` is `orig` with each entry solved,
/// and `conflict` lists what solving reported, state by state and term by term.
pub open spec fn solved_table_ok(
    g: &Grammar,
    lr1: Seq<Lr1Node>,
    orig: Seq<TableEntry>,
    table: Seq<TableEntry>,
    conflict: Seq<Conflict>,
) -> bool {
    &&& orig.len() == lr1.len()
    &&& forall|i: int| 0 <= i < orig.len() ==> entry_ok(g, lr1[i], #[trigger] orig[i])
    &&& solvable(g, orig)
    &&& table.len() == orig.len()
    &&& forall|i: int|
        0 <= i < table.len() ==> {
            &&& (#[trigger] table[i]).goto@ == orig[i].goto@
            &&& table[i].act@.len() == orig[i].act@.len()
            &&& forall|ch: int|
                0 <= ch < table[i].act@.len() ==> #[trigger] acts_view(table[i])[ch] == solve_entry(g, ch, acts_view(orig[i])[ch]).0
        }
    &&& conflict.map_values(|c: Conflict| c@) == table_reports(g, tables_view(orig), orig.len() as int)
}

/// `lr1` is the canonical LR(1) automaton of `g`.
pub open spec fn canonical_lr1(g: &Grammar, lr1: Seq<Lr1Node>) -> bool {
    &&& dots_fit(g)
    &&& forall|f: Seq<Set<int>>| #[trigger] is_first(g, f) ==> crate::lr1::lr1_fsm(g, f, lr1)
    &&& lr1_ok(g, lr1)
    &&& crate::lr0::bfs_numbered(crate::lr1::links1(lr1))
}

/// The LR(0) automaton of `g` has `u32::MAX` states or more.
pub open spec fn lr0_too_big(g: &Grammar) -> bool {
    exists|l: Seq<Lr0Node>| #[trigger] lr0_fsm(g, l) && l.len() >= u32::MAX
}

/// The canonical LR(1) automaton of `g` has `u32::MAX` states or more.
pub open spec fn lr1_too_big(g: &Grammar) -> bool {
    exists|l: Seq<Lr1Node>| #[trigger] canonical_lr1(g, l) && l.len() >= u32::MAX
}

/// `t` is the parsing table of the automaton `lr1`.
pub open spec fn table_of(g: &Grammar, lr1: Seq<Lr1Node>, t: Seq<TableEntry>) -> bool {
    &&& t.len() == lr1.len()
    &&& forall|i: int| 0 <= i < t.len() ==> entry_ok(g, lr1[i], #[trigger] t[i])
}

/// The LALR(1) parsing table of `g` has an entry that cannot be solved.
pub open spec fn lalr1_unsolvable(g: &Grammar) -> bool {
    exists|lr0: Seq<Lr0Node>, lr1: Seq<Lr1Node>, t: Seq<TableEntry>|
        #![trigger lalr1_fsm_ok(g, lr0, lr1), table_of(g, lr1, t)]
        lalr1_fsm_ok(g, lr0, lr1) && table_of(g, lr1, t) && !solvable(g, t)
}

/// The canonical LR(1) parsing table of `g` has an entry that cannot be solved.
pub open spec fn lr1_unsolvable(g: &Grammar) -> bool {
    exists|lr1: Seq<Lr1Node>, t: Seq<TableEntry>|
        #![trigger canonical_lr1(g, lr1), table_of(g, lr1, t)]
        canonical_lr1(g, lr1) && table_of(g, lr1, t) && !solvable(g, t)
}

/// Builds the LR(0) automaton of `g` and its LALR(1) lookaheads.
pub fn lalr1_fsm(g: &Grammar) -> (r: Result<(Vec<Lr0Node>, Vec<Lr1Node>), LrError>)
    requires
        g.wf(),
    ensures
        (r matches Err(LrError::LongProduction)) <==> !dots_fit(g),
        r matches Ok(o) ==> lalr1_fsm_ok(g, o.0@, o.1@),
        r matches Err(e) ==> (e == LrError::LongProduction || e == LrError::TooManyStates),
        r matches Err(LrError::TooManyStates) ==> dots_fit(g) && lr0_too_big(g),
{
    if !check_dots_fit(g) {
        return Err(LrError::LongProduction);
    }
    let lr0 = crate::lr0::work(g);
    if lr0.len() >= 0xffff_ffff {
        assert(lr0_fsm(g, lr0@));
        return Err(LrError::TooManyStates);
    }
    let lr1 = crate::lalr1::work(&lr0, g);
    proof {
        assert forall|s: int| 0 <= s < lr1@.len() implies {
            &&& forall|k: int|
                0 <= k < (#[trigger] lr1@[s]).closure@.len() ==> valid_item(g, (#[trigger] lr1@[s].closure@[k]).lr0)
                    && lr1@[s].closure@[k].lookahead.capacity() >= g.token_count()
            &&& forall|e: int| 0 <= e < lr1@[s].link@.len() ==> (#[trigger] lr1@[s].link@[e]).0 < g.token_count() && lr1@[s].link@[e].1 < lr1@.len()
        } by {
            assert(crate::lr0::valid_items(g, lr0@[s].closure@));
            assert(links_ok(g, state_set(lr0@[s]), lr0@[s].link@, node_sets(lr0@)));
            assert forall|k: int| 0 <= k < lr1@[s].closure@.len() implies valid_item(g, (#[trigger] lr1@[s].closure@[k]).lr0) by {
                assert(lr1@[s].closure@[k].lr0 == lr0@[s].closure@[k]);
            }
            assert forall|e: int| 0 <= e < lr1@[s].link@.len() implies (#[trigger] lr1@[s].link@[e]).0 < g.token_count() && lr1@[s].link@[e].1 < lr1@.len() by {
                assert(lr1@[s].link@[e] == lr0@[s].link@[e]);
                assert(node_sets(lr0@).len() == lr0@.len());
            }
        }
    }
    Ok((lr0, lr1))
}

/// The LALR(1) analysis of a grammar: the LR(0) automaton, its lookaheads, the table before
/// and after solving conflicts, and the conflicts reported.
pub struct LrOutput {
    pub lr0: Vec<Lr0Node>,
    pub lr1: Vec<Lr1Node>,
    pub orig_table: Vec<TableEntry>,
    pub table: Vec<TableEntry>,
    pub conflict: Vec<Conflict>,
}

/// Builds the LALR(1) automaton and parsing table of `g` and solves its conflicts.
pub fn lalr1_table(g: &Grammar) -> (r: Result<LrOutput, LrError>)
    requires
        g.wf(),
    ensures
        (r matches Err(LrError::LongProduction)) <==> !dots_fit(g),
        r matches Ok(o) ==> lalr1_fsm_ok(g, o.lr0@, o.lr1@) && solved_table_ok(g, o.lr1@, o.orig_table@, o.table@, o.conflict@),
        r matches Err(LrError::TooManyStates) ==> dots_fit(g) && lr0_too_big(g),
        r matches Err(LrError::UnsolvableConflict) ==> dots_fit(g) && lalr1_unsolvable(g),
{
    let (lr0, lr1) = match lalr1_fsm(g) {
        Ok(p) => p,
        Err(e) => {
            return Err(e);
        },
    };
    let orig_table = mk_table(&lr1, g);
    if !check_solvable(g, &orig_table) {
        assert(lalr1_fsm_ok(g, lr0@, lr1@) && table_of(g, lr1@, orig_table@));
        return Err(LrError::UnsolvableConflict);
    }
    let mut table = copy_table(&orig_table);
    let conflict = solve(&mut table, g);
    Ok(LrOutput { lr0, lr1, orig_table, table, conflict })
}


/// The parsing algorithm.
#[derive(Copy, Clone, Debug, PartialEq, Eq, Structural)]
pub enum PGAlgo {
    LL1,
    LALR1,
    LR1,
}

/// Builds the canonical LR(1) automaton and parsing table of `g` and solves its conflicts.
pub fn lr1_table(g: &Grammar) -> (r: Result<(Vec<Lr1Node>, Vec<TableEntry>, Vec<TableEntry>, Vec<Conflict>), LrError>)
    requires
        g.wf(),
    ensures
        (r matches Err(LrError::LongProduction)) <==> !dots_fit(g),
        r matches Ok(o) ==> canonical_lr1(g, o.0@) && solved_table_ok(g, o.0@, o.1@, o.2@, o.3@),
        r matches Err(LrError::TooManyStates) ==> dots_fit(g) && lr1_too_big(g),
        r matches Err(LrError::UnsolvableConflict) ==> dots_fit(g) && lr1_unsolvable(g),
{
    if !check_dots_fit(g) {
        return Err(LrError::LongProduction);
    }
    let lr1 = crate::lr1::work(g);
    if lr1.len() >= 0xffff_ffff {
        assert(canonical_lr1(g, lr1@));
        return Err(LrError::TooManyStates);
    }
    let orig_table = mk_table(&lr1, g);
    if !check_solvable(g, &orig_table) {
        assert(canonical_lr1(g, lr1@) && table_of(g, lr1@, orig_table@));
        return Err(LrError::UnsolvableConflict);
    }
    let mut table = copy_table(&orig_table);
    let conflict = solve(&mut table, g);
    Ok((lr1, orig_table, table, conflict))
}

} // verus!
