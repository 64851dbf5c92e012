use vstd::prelude::*;
use crate::bitset::BitSet;
use crate::grammar::{Grammar, EOF_IDX, slice_subrange};
use crate::collections::prod_vec_as_slice;
use crate::lr0::{
    Lr0Item, valid_items, valid_item, sorted_items, expands, is_closure, closure as lr0_closure, dots_fit, initial_item,
    item_lt,
};
use crate::ll1::{bounded, views, sets_below, tokens_ok, total, lemma_total_bound, lemma_total_mono, lemma_string_first_bounded};
use crate::lalr1::{Lr1Item, Lr1Node, Lr1Ctx, first_then, beta, find_item};
use crate::lr0::{start_item, lemma_closure_has_items, has_items, lemma_sorted_unique, item_universe, lemma_universe_finite};
use crate::counting::lemma_subsets_bound;
use crate::lr0::{bfs_from, bfs_links, bfs_numbered, lemma_bfs_prefix};
use vstd::arithmetic::power2::pow2;

verus! {

/// The LR(0) items of a sequence of LR(1) items.
pub open spec fn cores(v: Seq<Lr1Item>) -> Seq<Lr0Item> {
    v.map_values(|it: Lr1Item| it.lr0)
}

/// The lookaheads of a sequence of LR(1) items.
pub open spec fn las(v: Seq<Lr1Item>) -> Seq<Set<int>> {
    v.map_values(|it: Lr1Item| it.lookahead@)
}

/// The items with their lookaheads.
pub open spec fn kview(v: Seq<Lr1Item>) -> Seq<(Lr0Item, Set<int>)> {
    v.map_values(|it: Lr1Item| (it.lr0, it.lookahead@))
}

/// The lookaheads `la` of the items `items` are closed: each kernel entry's lookaheads are in
/// its item's, and an item `A -> α.Bβ` with lookaheads `L` gives each `B -> .γ` FIRST(βL).
pub open spec fn la_closed(g: &Grammar, f: Seq<Set<int>>, items: Seq<Lr0Item>, kernel: Seq<(Lr0Item, Set<int>)>, la: Seq<Set<int>>) -> bool {
    &&& la.len() == items.len()
    &&& forall|k: int, j: int|
        0 <= k < kernel.len() && 0 <= j < items.len() && #[trigger] kernel[k].0 == #[trigger] items[j] ==> kernel[k].1 <= la[j]
    &&& forall|j: int, j2: int|
        0 <= j < items.len() && 0 <= j2 < items.len() && (#[trigger] items[j2]).dot == 0 && expands(g, #[trigger] items[j], items[j2].prod_id as int)
            ==> first_then(g, f, beta(g, items[j]), la[j]) <= la[j2]
}

/// `st` is the LR(1) closure of `kernel`: its items are the LR(0) closure of the kernel's, in
/// increasing order, and its lookaheads the least closed ones.
pub open spec fn is_lr1_closure(g: &Grammar, f: Seq<Set<int>>, kernel: Seq<(Lr0Item, Set<int>)>, st: Seq<Lr1Item>) -> bool {
    &&& sorted_items(cores(st))
    &&& is_closure(g, kernel.map_values(|p: (Lr0Item, Set<int>)| p.0).to_set(), cores(st).to_set())
    &&& la_closed(g, f, cores(st), kernel, las(st))
    &&& forall|h: Seq<Set<int>>| #[trigger] la_closed(g, f, cores(st), kernel, h) ==> sets_below(las(st), h)
}

/// Lookahead bit sets, one per item, able to hold every token and holding only tokens.
pub open spec fn las_ok(g: &Grammar, v: Seq<BitSet>, n: int) -> bool {
    &&& v.len() == n
    &&& forall|j: int| 0 <= j < v.len() ==> (#[trigger] v[j]).capacity() >= g.token_count() && bounded(v[j]@, g.token_count())
}

/// Lookaheads on LR(1) items that belong to the grammar.
pub open spec fn lr1_items_ok(g: &Grammar, v: Seq<Lr1Item>) -> bool {
    forall|k: int|
        0 <= k < v.len() ==> valid_item(g, (#[trigger] v[k]).lr0) && v[k].lookahead.capacity() >= g.token_count()
            && bounded(v[k].lookahead@, g.token_count())
}

proof fn lemma_below_refl(a: Seq<Set<int>>)
    ensures
        sets_below(a, a),
{
}

proof fn lemma_below_trans(a: Seq<Set<int>>, b: Seq<Set<int>>, c: Seq<Set<int>>)
    requires
        sets_below(a, b),
        sets_below(b, c),
    ensures
        sets_below(a, c),
{
    assert forall|i: int| 0 <= i < a.len() implies #[trigger] a[i] <= c[i] by {
        assert(a[i] <= b[i]);
        assert(b[i] <= c[i]);
    }
}

proof fn lemma_below_antisym(a: Seq<Set<int>>, b: Seq<Set<int>>)
    requires
        sets_below(a, b),
        sets_below(b, a),
    ensures
        a == b,
{
    assert forall|i: int| 0 <= i < a.len() implies a[i] == b[i] by {
        assert(a[i] <= b[i]);
        assert(b[i] <= a[i]);
        assert(a[i] =~= b[i]);
    }
    assert(a =~= b);
}

/// Adds `src` to the lookaheads of item `j`; tells whether they grew.
fn la_add(la: &mut Vec<BitSet>, j: usize, src: &BitSet, g: &Grammar) -> (c: bool)
    requires
        las_ok(g, old(la)@, old(la)@.len() as int),
        j < old(la)@.len(),
        bounded(src@, g.token_count()),
    ensures
        las_ok(g, final(la)@, old(la)@.len() as int),
        views(final(la)@) == views(old(la)@).update(j as int, views(old(la)@)[j as int].union(src@)),
        c == (views(final(la)@) != views(old(la)@)),
{
    let ghost before = views(la@);
    let ghost cap = la@[j as int].capacity();
    let c = la[j].or(src);
    proof {
        let after = views(la@);
        assert(la@[j as int]@ =~= before[j as int].union(src@)) by {
            assert forall|x: int| src@.contains(x) implies x < cap by {}
        }
        assert(after =~= before.update(j as int, before[j as int].union(src@)));
        if c {
            assert(after[j as int] != before[j as int]);
        } else {
            assert(after =~= before);
        }
    }
    c
}

proof fn lemma_union_step(old: Seq<Set<int>>, cur: Seq<Set<int>>, j: int, src: Set<int>)
    requires
        sets_below(old, cur),
        0 <= j < cur.len(),
    ensures
        sets_below(cur, cur.update(j, cur[j].union(src))),
        sets_below(old, cur.update(j, cur[j].union(src))),
        (cur.update(j, cur[j].union(src)) != old) == (cur != old || cur.update(j, cur[j].union(src)) != cur),
        forall|h: Seq<Set<int>>| sets_below(cur, h) && src <= h[j] ==> #[trigger] sets_below(cur.update(j, cur[j].union(src)), h),
{
    let n = cur.update(j, cur[j].union(src));
    assert(sets_below(cur, n)) by {
        assert forall|i: int| 0 <= i < cur.len() implies #[trigger] cur[i] <= n[i] by {}
    }
    lemma_below_trans(old, cur, n);
    if n == old && cur != old {
        lemma_below_antisym(old, cur);
    }
    assert forall|h: Seq<Set<int>>| sets_below(cur, h) && src <= h[j] implies #[trigger] sets_below(n, h) by {
        assert forall|i: int| 0 <= i < n.len() implies #[trigger] n[i] <= h[i] by {
            assert(cur[i] <= h[i]);
        }
    }
}

impl Lr1Ctx {
    /// The LR(1) closure of the items `kernel`: the LR(0) closure of their items, in increasing
    /// order, with the least lookaheads that hold the kernel's and that each item `A -> α.Bβ`
    /// passes to the items `B -> .γ`.
    pub fn closure(&self, kernel: &Vec<Lr1Item>, g: &Grammar) -> (r: Vec<Lr1Item>)
        requires
            g.wf(),
            self.wf(g),
            lr1_items_ok(g, kernel@),
        ensures
            lr1_items_ok(g, r@),
            is_lr1_closure(g, self.0@, kview(kernel@), r@),
    {
        let ghost f = self.0@;
        let mut kcore: Vec<Lr0Item> = Vec::new();
        let mut i: usize = 0;
        while i < kernel.len()
            invariant
                i <= kernel@.len(),
                kcore@ == cores(kernel@).take(i as int),
            decreases kernel@.len() - i,
        {
            kcore.push(kernel[i].lr0);
            i = i + 1;
            assert(kcore@ =~= cores(kernel@).take(i as int));
        }
        assert(cores(kernel@).take(i as int) =~= cores(kernel@));
        proof {
            assert forall|k: int| 0 <= k < kcore@.len() implies valid_item(g, #[trigger] kcore@[k]) by {
                assert(kcore@[k] == kernel@[k].lr0);
            }
        }
        let items = lr0_closure(&kcore, g);
        let n = items.len();
        let tc = g.token_num() as u32;
        let mut la: Vec<BitSet> = Vec::new();
        let mut j: usize = 0;
        while j < n
            invariant
                tc == g.token_count(),
                j <= n,
                la@.len() == j,
                forall|k: int| 0 <= k < j ==> (#[trigger] la@[k]).capacity() >= g.token_count() && la@[k]@ == Set::<int>::empty(),
            decreases n - j,
        {
            la.push(BitSet::new(tc));
            j = j + 1;
        }
        proof {
            assert(las_ok(g, la@, n as int));
            assert forall|h: Seq<Set<int>>| #[trigger] la_closed(g, f, items@, kview(kernel@), h) implies sets_below(views(la@), h) by {
                assert forall|k: int| 0 <= k < views(la@).len() implies #[trigger] views(la@)[k] <= h[k] by {}
            }
        }
        // the kernel's lookaheads
        let mut k: usize = 0;
        while k < kernel.len()
            invariant
                g.wf(),
                self.wf(g),
                f == self.0@,
                lr1_items_ok(g, kernel@),
                n == items@.len(),
                sorted_items(items@),
                is_closure(g, kcore@.to_set(), items@.to_set()),
                kcore@ == cores(kernel@),
                k <= kernel@.len(),
                las_ok(g, la@, n as int),
                forall|h: Seq<Set<int>>| #[trigger] la_closed(g, f, items@, kview(kernel@), h) ==> sets_below(views(la@), h),
                forall|kk: int, jj: int|
                    0 <= kk < k && 0 <= jj < items@.len() && #[trigger] kview(kernel@)[kk].0 == #[trigger] items@[jj] ==> kview(kernel@)[kk].1
                        <= views(la@)[jj],
            decreases kernel@.len() - k,
        {
            let it = kernel[k].lr0;
            proof {
                assert(kcore@[k as int] == it);
                assert(kcore@.to_set().contains(it));
            }
            let jj = match find_item(&items, it) {
                Some(jj) => jj,
                None => {
                    proof {
                        assert(items@.to_set().contains(it));
                        assert(false);
                    }
                    return Vec::new();
                },
            };
            let ghost cur = views(la@);
            let ghost src = kernel@[k as int].lookahead@;
            la_add(&mut la, jj, &kernel[k].lookahead, g);
            proof {
                lemma_below_refl(cur);
                lemma_union_step(cur, cur, jj as int, src);
                assert forall|h: Seq<Set<int>>| #[trigger] la_closed(g, f, items@, kview(kernel@), h) implies sets_below(views(la@), h) by {
                    assert(sets_below(cur, h));
                    assert(kview(kernel@)[k as int].0 == items@[jj as int]);
                }
                assert forall|kk: int, j2: int|
                    0 <= kk < k + 1 && 0 <= j2 < items@.len() && #[trigger] kview(kernel@)[kk].0 == #[trigger] items@[j2] implies kview(kernel@)[kk].1
                        <= views(la@)[j2] by {
                    if kk == k {
                        if j2 != jj {
                            if j2 < jj {
                                assert(item_lt(items@[j2], items@[jj as int]));
                            } else {
                                assert(item_lt(items@[jj as int], items@[j2]));
                            }
                        }
                    } else {
                        assert(kview(kernel@)[kk].1 <= cur[j2]);
                        assert(cur[j2] <= views(la@)[j2]);
                    }
                }
            }
            k = k + 1;
        }
        // the spawned lookaheads, until nothing grows
        loop
            invariant
                g.wf(),
                self.wf(g),
                f == self.0@,
                lr1_items_ok(g, kernel@),
                n == items@.len(),
                valid_items(g, items@),
                las_ok(g, la@, n as int),
                forall|h: Seq<Set<int>>| #[trigger] la_closed(g, f, items@, kview(kernel@), h) ==> sets_below(views(la@), h),
                forall|kk: int, jj: int|
                    0 <= kk < kernel@.len() && 0 <= jj < items@.len() && #[trigger] kview(kernel@)[kk].0 == #[trigger] items@[jj] ==> kview(kernel@)[kk].1
                        <= views(la@)[jj],
            ensures
                las_ok(g, la@, n as int),
                la_closed(g, f, items@, kview(kernel@), views(la@)),
                forall|h: Seq<Set<int>>| #[trigger] la_closed(g, f, items@, kview(kernel@), h) ==> sets_below(views(la@), h),
            decreases n * g.token_count() - total(views(la@)),
        {
            let ghost f0 = views(la@);
            proof {
                lemma_below_refl(f0);
                lemma_total_bound(f0, g.token_count());
            }
            let mut changed = false;
            let mut j: usize = 0;
            while j < n
                invariant
                    g.wf(),
                    self.wf(g),
                    f == self.0@,
                    n == items@.len(),
                    valid_items(g, items@),
                    j <= n,
                    las_ok(g, la@, n as int),
                    forall|h: Seq<Set<int>>| #[trigger] la_closed(g, f, items@, kview(kernel@), h) ==> sets_below(views(la@), h),
                    sets_below(f0, views(la@)),
                    changed == (views(la@) != f0),
                    !changed ==> forall|j1: int, j2: int|
                        0 <= j1 < j && 0 <= j2 < items@.len() && (#[trigger] items@[j2]).dot == 0 && expands(g, #[trigger] items@[j1], items@[j2].prod_id as int)
                            ==> first_then(g, f, beta(g, items@[j1]), f0[j1]) <= f0[j2],
                decreases n - j,
            {
                let it = items[j];
                proof {
                    assert(valid_item(g, it));
                    assert(g.prod@[it.prod_id as int].id == it.prod_id);
                }
                let rhs = prod_vec_as_slice(&g.prod[it.prod_id as usize].rhs);
                assert(rhs@ == g.rhs(it.prod_id as int));
                if (it.dot as usize) < rhs.len() && (rhs[it.dot as usize] as usize) >= g.terms.len() {
                    let x = rhs[it.dot as usize];
                    assert(x < g.token_count());
                    let b = slice_subrange(rhs, it.dot as usize + 1, rhs.len());
                    proof {
                        assert(b@ =~= beta(g, it));
                        assert(tokens_ok(g, b@)) by {
                            assert forall|q: int| 0 <= q < b@.len() implies #[trigger] b@[q] < g.token_count() by {
                                assert(b@[q] == g.rhs(it.prod_id as int)[it.dot + 1 + q]);
                            }
                        }
                    }
                    let lj = la[j].copied();
                    let fb = self.first(b, &lj, g);
                    proof {
                        lemma_string_first_bounded(g, f, b@);
                    }
                    let ghost mid = views(la@);
                    let mut j2: usize = 0;
                    while j2 < n
                        invariant
                            g.wf(),
                            self.wf(g),
                            f == self.0@,
                            n == items@.len(),
                            valid_items(g, items@),
                            j < n,
                            it == items@[j as int],
                            it.dot < g.rhs(it.prod_id as int).len(),
                            g.rhs(it.prod_id as int)[it.dot as int] == x,
                            x >= g.terms@.len(),
                            x < g.token_count(),
                            j2 <= n,
                            las_ok(g, la@, n as int),
                            bounded(fb@, g.token_count()),
                            fb@ == first_then(g, f, beta(g, it), lj@),
                            lj@ <= views(la@)[j as int],
                            forall|h: Seq<Set<int>>| #[trigger] la_closed(g, f, items@, kview(kernel@), h) ==> sets_below(views(la@), h),
                            sets_below(f0, views(la@)),
                            changed == (views(la@) != f0),
                            !changed ==> lj@ == f0[j as int],
                            !changed ==> forall|j1: int, jj2: int|
                                0 <= j1 < j && 0 <= jj2 < items@.len() && (#[trigger] items@[jj2]).dot == 0 && expands(g, #[trigger] items@[j1], items@[jj2].prod_id as int)
                                    ==> first_then(g, f, beta(g, items@[j1]), f0[j1]) <= f0[jj2],
                            !changed ==> forall|jj2: int|
                                0 <= jj2 < j2 && (#[trigger] items@[jj2]).dot == 0 && expands(g, it, items@[jj2].prod_id as int)
                                    ==> first_then(g, f, beta(g, it), f0[j as int]) <= f0[jj2],
                        decreases n - j2,
                    {
                        let it2 = items[j2];
                        proof {
                            assert(valid_item(g, it2));
                            assert(g.prod@[it2.prod_id as int].id == it2.prod_id);
                        }
                        let spawns = it2.dot == 0 && (g.prod[it2.prod_id as usize].lhs as usize) + g.terms.len() == x as usize;
                        if spawns {
                            let ghost cur = views(la@);
                            let c = la_add(&mut la, j2, &fb, g);
                            proof {
                                lemma_union_step(f0, cur, j2 as int, fb@);
                                assert forall|h: Seq<Set<int>>| #[trigger] la_closed(g, f, items@, kview(kernel@), h) implies sets_below(views(la@), h) by {
                                    assert(sets_below(cur, h));
                                    assert(expands(g, it, it2.prod_id as int));
                                    assert(lj@ <= h[j as int]) by {
                                        assert(cur[j as int] <= h[j as int]);
                                    }
                                    assert(first_then(g, f, beta(g, it), h[j as int]) <= h[j2 as int]);
                                }
                                assert(lj@ <= views(la@)[j as int]) by {
                                    assert(cur[j as int] <= views(la@)[j as int]);
                                }
                                if !changed && !c {
                                    assert(views(la@) == cur);
                                }
                            }
                            changed = changed || c;
                        }
                        j2 = j2 + 1;
                    }
                } else {
                    proof {
                        assert forall|jj2: int| 0 <= jj2 < items@.len() && (#[trigger] items@[jj2]).dot == 0 implies !expands(g, it, items@[jj2].prod_id as int) by {}
                    }
                }
                j = j + 1;
            }
            if !changed {
                proof {
                    assert(views(la@) == f0);
                    assert(la_closed(g, f, items@, kview(kernel@), f0));
                }
                break;
            }
            proof {
                lemma_total_bound(views(la@), g.token_count());
                lemma_total_mono(f0, views(la@), g.token_count());
            }
        }
        let mut r: Vec<Lr1Item> = Vec::new();
        let mut j: usize = 0;
        while j < n
            invariant
                n == items@.len(),
                valid_items(g, items@),
                las_ok(g, la@, n as int),
                j <= n,
                r@.len() == j,
                forall|q: int| 0 <= q < j ==> (#[trigger] r@[q]).lr0 == items@[q] && r@[q].lookahead@ == views(la@)[q]
                    && r@[q].lookahead.capacity() >= g.token_count(),
            decreases n - j,
        {
            let lk = la[j].copied();
            r.push(Lr1Item { lr0: items[j], lookahead: lk });
            j = j + 1;
        }
        proof {
            assert(cores(r@) =~= items@);
            assert(las(r@) =~= views(la@));
            assert(kcore@ =~= kview(kernel@).map_values(|p: (Lr0Item, Set<int>)| p.0));
            assert forall|q: int| 0 <= q < r@.len() implies valid_item(g, (#[trigger] r@[q]).lr0) && r@[q].lookahead.capacity() >= g.token_count()
                && bounded(r@[q].lookahead@, g.token_count()) by {
                assert(valid_item(g, items@[q]));
                assert(bounded(views(la@)[q], g.token_count()));
            }
        }
        r
    }
}


/// Whether the LR(1) item with core `it` moves over `mov`.
pub open spec fn moves(g: &Grammar, it: Lr0Item, mov: u32) -> bool {
    it.dot < g.rhs(it.prod_id as int).len() && g.rhs(it.prod_id as int)[it.dot as int] == mov
}

/// The items of `st` that move over `mov`, moved, with their lookaheads.
pub open spec fn moved_kernel(g: &Grammar, st: Seq<(Lr0Item, Set<int>)>, mov: u32) -> Seq<(Lr0Item, Set<int>)>
    decreases st.len(),
{
    if st.len() == 0 {
        Seq::empty()
    } else {
        moved_kernel(g, st.drop_last(), mov) + (if moves(g, st.last().0, mov) {
            seq![(Lr0Item { prod_id: st.last().0.prod_id, dot: (st.last().0.dot + 1) as u32 }, st.last().1)]
        } else {
            Seq::empty()
        })
    }
}

impl Lr1Ctx {
    /// The LR(1) state reached from `state` over `mov`: the closure of its items that move
    /// over `mov`, moved, with their lookaheads.
    pub fn go(&self, state: &Vec<Lr1Item>, mov: u32, g: &Grammar) -> (r: Vec<Lr1Item>)
        requires
            g.wf(),
            dots_fit(g),
            self.wf(g),
            lr1_items_ok(g, state@),
        ensures
            lr1_items_ok(g, r@),
            is_lr1_closure(g, self.0@, moved_kernel(g, kview(state@), mov), r@),
    {
        let mut kernel: Vec<Lr1Item> = Vec::new();
        let mut i: usize = 0;
        while i < state.len()
            invariant
                g.wf(),
                dots_fit(g),
                lr1_items_ok(g, state@),
                i <= state@.len(),
                lr1_items_ok(g, kernel@),
                kview(kernel@) == moved_kernel(g, kview(state@).take(i as int), mov),
            decreases state@.len() - i,
        {
            let it = state[i].lr0;
            proof {
                assert(valid_item(g, it));
                assert(g.prod@[it.prod_id as int].id == it.prod_id);
                assert(kview(state@).take(i + 1).drop_last() =~= kview(state@).take(i as int));
                assert(kview(state@).take(i + 1).last() == (it, state@[i as int].lookahead@));
            }
            let rhs = prod_vec_as_slice(&g.prod[it.prod_id as usize].rhs);
            if (it.dot as usize) < rhs.len() && rhs[it.dot as usize] == mov {
                assert(g.rhs(it.prod_id as int).len() < u32::MAX);
                let lk = state[i].lookahead.copied();
                let ghost before = kernel@;
                kernel.push(Lr1Item { lr0: Lr0Item { prod_id: it.prod_id, dot: it.dot + 1 }, lookahead: lk });
                proof {
                    assert(kview(kernel@) =~= kview(before).push((Lr0Item { prod_id: it.prod_id, dot: (it.dot + 1) as u32 }, state@[i as int].lookahead@)));
                }
            } else {
                assert(moved_kernel(g, kview(state@).take(i + 1), mov) =~= moved_kernel(g, kview(state@).take(i as int), mov));
            }
            i = i + 1;
        }
        assert(kview(state@).take(state@.len() as int) =~= kview(state@));
        self.closure(&kernel, g)
    }
}

/// Whether two sets of lookaheads below `n` are equal.
pub fn bitset_eq(a: &BitSet, b: &BitSet, n: u32) -> (r: bool)
    requires
        a.capacity() >= n,
        b.capacity() >= n,
        bounded(a@, n as int),
        bounded(b@, n as int),
    ensures
        r == (a@ == b@),
{
    let mut t: u32 = 0;
    while t < n
        invariant
            t <= n,
            a.capacity() >= n,
            b.capacity() >= n,
            forall|x: int| 0 <= x < t ==> (a@.contains(x) == b@.contains(x)),
        decreases n - t,
    {
        if a.test(t) != b.test(t) {
            return false;
        }
        t = t + 1;
    }
    assert(a@ =~= b@);
    true
}

/// Whether two LR(1) states have the same items with the same lookaheads.
pub fn lr1_state_eq(a: &Vec<Lr1Item>, b: &Vec<Lr1Item>, g: &Grammar) -> (r: bool)
    requires
        lr1_items_ok(g, a@),
        lr1_items_ok(g, b@),
        g.wf(),
    ensures
        r == (kview(a@) == kview(b@)),
{
    if a.len() != b.len() {
        assert(kview(a@).len() != kview(b@).len());
        return false;
    }
    let n = g.token_num() as u32;
    let mut i: usize = 0;
    while i < a.len()
        invariant
            g.wf(),
            n == g.token_count(),
            lr1_items_ok(g, a@),
            lr1_items_ok(g, b@),
            a@.len() == b@.len(),
            i <= a@.len(),
            forall|j: int| 0 <= j < i ==> #[trigger] kview(a@)[j] == kview(b@)[j],
        decreases a@.len() - i,
    {
        if a[i].lr0 != b[i].lr0 {
            assert(kview(a@)[i as int] != kview(b@)[i as int]);
            return false;
        }
        if !bitset_eq(&a[i].lookahead, &b[i].lookahead, n) {
            assert(kview(a@)[i as int] != kview(b@)[i as int]);
            return false;
        }
        assert(kview(a@)[i as int] == kview(b@)[i as int]);
        i = i + 1;
    }
    assert(kview(a@) =~= kview(b@));
    true
}

/// Where `states` holds the state `st`, its index.
pub fn find_lr1_state(states: &Vec<Vec<Lr1Item>>, st: &Vec<Lr1Item>, g: &Grammar) -> (r: Option<usize>)
    requires
        g.wf(),
        lr1_items_ok(g, st@),
        forall|k: int| 0 <= k < states@.len() ==> lr1_items_ok(g, (#[trigger] states@[k])@),
    ensures
        (match r {
            Some(j) => j < states@.len() && kview(states@[j as int]@) == kview(st@),
            None => forall|j: int| 0 <= j < states@.len() ==> kview(states@[j]@) != kview(st@),
        }),
{
    let mut j: usize = 0;
    while j < states.len()
        invariant
            g.wf(),
            lr1_items_ok(g, st@),
            forall|k: int| 0 <= k < states@.len() ==> lr1_items_ok(g, (#[trigger] states@[k])@),
            j <= states@.len(),
            forall|k: int| 0 <= k < j ==> kview(states@[k]@) != kview(st@),
        decreases states@.len() - j,
    {
        if lr1_state_eq(&states[j], st, g) {
            return Some(j);
        }
        j = j + 1;
    }
    None
}


/// The kernel of the start state: `_ -> .Start` with the lookahead `_Eof`.
pub open spec fn start_kernel(g: &Grammar) -> Seq<(Lr0Item, Set<int>)> {
    seq![(start_item(g), set![EOF_IDX as int])]
}

/// The transitions `link` of the LR(1) state `st`, where state `j` is `states[j]`: one for each
/// token over which some item moves, in increasing order of token, each into the closure of
/// the moved items.
pub open spec fn lr1_links_ok(g: &Grammar, f: Seq<Set<int>>, st: Seq<Lr1Item>, link: Seq<(u32, usize)>, states: Seq<Seq<Lr1Item>>) -> bool {
    &&& forall|a: int, b: int| 0 <= a < b < link.len() ==> (#[trigger] link[a]).0 < (#[trigger] link[b]).0
    &&& forall|k: int|
        0 <= k < link.len() ==> {
            &&& (#[trigger] link[k]).0 < g.token_count()
            &&& link[k].1 < states.len()
            &&& moved_kernel(g, kview(st), link[k].0).len() > 0
            &&& is_lr1_closure(g, f, moved_kernel(g, kview(st), link[k].0), states[link[k].1 as int])
        }
    &&& forall|mov: u32|
        mov < g.token_count() && #[trigger] moved_kernel(g, kview(st), mov).len() > 0 ==> exists|k: int|
            0 <= k < link.len() && link[k].0 == mov
}

pub open spec fn node_states(r: Seq<Lr1Node>) -> Seq<Seq<Lr1Item>> {
    r.map_values(|n: Lr1Node| n.closure@)
}

/// State `j` is the target of a transition of an earlier state.
pub open spec fn entered1(r: Seq<Lr1Node>, j: int) -> bool {
    exists|i: int| 0 <= i < j && #[trigger] crate::lr0::has_link_to(r[i].link@, j)
}

/// `r` is the LR(1) automaton of `g` over the FIRST sets `f`: state 0 is the closure of the
/// start kernel, the states are distinct, each with its transitions, and each state but the
/// first is entered from an earlier one.
pub open spec fn lr1_fsm(g: &Grammar, f: Seq<Set<int>>, r: Seq<Lr1Node>) -> bool {
    &&& r.len() >= 1
    &&& is_lr1_closure(g, f, start_kernel(g), r[0].closure@)
    &&& forall|i: int| 0 <= i < r.len() ==> lr1_items_ok(g, (#[trigger] r[i]).closure@)
    &&& forall|i: int, j: int| 0 <= i < j < r.len() ==> kview((#[trigger] r[i]).closure@) != kview((#[trigger] r[j]).closure@)
    &&& forall|i: int| 0 <= i < r.len() ==> lr1_links_ok(g, f, (#[trigger] r[i]).closure@, r[i].link@, node_states(r))
    &&& forall|j: int| 1 <= j < r.len() ==> #[trigger] entered1(r, j)
}

/// The items and lookaheads of an LR(1) state, as pairs: `(item, -1)` for each item, and
/// `(item, t)` for each of its lookaheads `t`.
pub open spec fn enc(v: Seq<Lr1Item>) -> Set<(Lr0Item, int)> {
    Set::new(|p: (Lr0Item, int)| exists|j: int| 0 <= j < v.len() && v[j].lr0 == p.0 && (p.1 == -1 || v[j].lookahead@.contains(p.1)))
}

pub open spec fn pair_universe(g: &Grammar, k: int) -> Set<(Lr0Item, int)> {
    Set::new(|p: (Lr0Item, int)| valid_item(g, p.0) && -1 <= p.1 < k)
}

proof fn lemma_pair_universe_finite(g: &Grammar, k: int)
    ensures
        pair_universe(g, k).finite(),
    decreases k + 1,
{
    if k <= -1 {
        assert(pair_universe(g, k) =~= Set::empty());
    } else {
        lemma_pair_universe_finite(g, k - 1);
        lemma_universe_finite(g);
        let m = |it: Lr0Item| (it, k - 1);
        item_universe(g).lemma_map_finite(m);
        let w = item_universe(g).map(m);
        assert(pair_universe(g, k) =~= pair_universe(g, k - 1) + w) by {
            assert forall|p: (Lr0Item, int)| pair_universe(g, k).contains(p) implies (pair_universe(g, k - 1) + w).contains(p) by {
                if p.1 == k - 1 {
                    assert(item_universe(g).contains(p.0));
                    assert(m(p.0) == p);
                }
            }
        }
    }
}

proof fn lemma_enc_injective(g: &Grammar, a: Seq<Lr1Item>, b: Seq<Lr1Item>)
    requires
        sorted_items(cores(a)),
        sorted_items(cores(b)),
        lr1_items_ok(g, a),
        lr1_items_ok(g, b),
        enc(a) == enc(b),
    ensures
        kview(a) == kview(b),
{
    assert(cores(a).to_set() =~= cores(b).to_set()) by {
        assert forall|x: Lr0Item| cores(a).to_set().contains(x) <==> cores(b).to_set().contains(x) by {
            if cores(a).contains(x) {
                let j = choose|j: int| 0 <= j < cores(a).len() && cores(a)[j] == x;
                assert(enc(a).contains((x, -1)));
                assert(enc(b).contains((x, -1)));
                let j2 = choose|j2: int| 0 <= j2 < b.len() && b[j2].lr0 == x && (-1 == -1 || b[j2].lookahead@.contains(-1));
                assert(cores(b)[j2] == x);
            }
            if cores(b).contains(x) {
                let j = choose|j: int| 0 <= j < cores(b).len() && cores(b)[j] == x;
                assert(enc(b).contains((x, -1)));
                assert(enc(a).contains((x, -1)));
                let j2 = choose|j2: int| 0 <= j2 < a.len() && a[j2].lr0 == x && (-1 == -1 || a[j2].lookahead@.contains(-1));
                assert(cores(a)[j2] == x);
            }
        }
    }
    lemma_sorted_unique(cores(a), cores(b));
    assert forall|j: int| 0 <= j < a.len() implies #[trigger] kview(a)[j] == kview(b)[j] by {
        assert(cores(a)[j] == cores(b)[j]);
        assert(a[j].lr0 == b[j].lr0);
        assert(a[j].lookahead@ =~= b[j].lookahead@) by {
            assert forall|t: int| a[j].lookahead@.contains(t) <==> b[j].lookahead@.contains(t) by {
                if a[j].lookahead@.contains(t) {
                    assert(bounded(a[j].lookahead@, g.token_count()));
                    assert(enc(a).contains((a[j].lr0, t)));
                    assert(enc(b).contains((a[j].lr0, t)));
                    let j2 = choose|j2: int| 0 <= j2 < b.len() && b[j2].lr0 == a[j].lr0 && (t == -1 || b[j2].lookahead@.contains(t));
                    if j2 != j {
                        if j2 < j {
                            assert(item_lt(cores(b)[j2], cores(b)[j]));
                        } else {
                            assert(item_lt(cores(b)[j], cores(b)[j2]));
                        }
                    }
                }
                if b[j].lookahead@.contains(t) {
                    assert(bounded(b[j].lookahead@, g.token_count()));
                    assert(enc(b).contains((b[j].lr0, t)));
                    assert(enc(a).contains((b[j].lr0, t)));
                    let j2 = choose|j2: int| 0 <= j2 < a.len() && a[j2].lr0 == b[j].lr0 && (t == -1 || a[j2].lookahead@.contains(t));
                    if j2 != j {
                        if j2 < j {
                            assert(item_lt(cores(a)[j2], cores(a)[j]));
                        } else {
                            assert(item_lt(cores(a)[j], cores(a)[j2]));
                        }
                    }
                }
            }
        }
    }
    assert(kview(a) =~= kview(b));
}

pub open spec fn state_encs(states: Seq<Vec<Lr1Item>>) -> Seq<Set<(Lr0Item, int)>> {
    states.map_values(|v: Vec<Lr1Item>| enc(v@))
}

proof fn lemma_lr1_state_count(g: &Grammar, states: Seq<Vec<Lr1Item>>)
    requires
        g.wf(),
        forall|i: int| 0 <= i < states.len() ==> lr1_items_ok(g, (#[trigger] states[i])@) && sorted_items(cores(states[i]@)),
        forall|i: int, j: int| 0 <= i < j < states.len() ==> kview((#[trigger] states[i])@) != kview((#[trigger] states[j])@),
    ensures
        states.len() <= pow2(pair_universe(g, g.token_count()).len()),
{
    let e = state_encs(states);
    assert(e.no_duplicates()) by {
        assert forall|i: int, j: int| 0 <= i < e.len() && 0 <= j < e.len() && i != j implies e[i] != e[j] by {
            if e[i] == e[j] {
                lemma_enc_injective(g, states[i]@, states[j]@);
                if i < j {
                    assert(kview(states[i]@) != kview(states[j]@));
                } else {
                    assert(kview(states[j]@) != kview(states[i]@));
                }
            }
        }
    }
    e.unique_seq_to_set();
    lemma_pair_universe_finite(g, g.token_count());
    assert forall|x: Set<(Lr0Item, int)>| #[trigger] e.to_set().contains(x) implies x <= pair_universe(g, g.token_count()) by {
        let i = choose|i: int| 0 <= i < e.len() && e[i] == x;
        let v = states[i]@;
        assert(lr1_items_ok(g, v));
        assert forall|p: (Lr0Item, int)| x.contains(p) implies pair_universe(g, g.token_count()).contains(p) by {
            let j = choose|j: int| 0 <= j < v.len() && v[j].lr0 == p.0 && (p.1 == -1 || v[j].lookahead@.contains(p.1));
            assert(valid_item(g, v[j].lr0));
            if p.1 != -1 {
                assert(bounded(v[j].lookahead@, g.token_count()));
            }
        }
    }
    lemma_subsets_bound(e.to_set(), pair_universe(g, g.token_count()));
}

/// An LR(1) closure depends on the state's items and lookaheads only.
pub proof fn lemma_closure_kview(g: &Grammar, f: Seq<Set<int>>, k: Seq<(Lr0Item, Set<int>)>, a: Seq<Lr1Item>, b: Seq<Lr1Item>)
    requires
        is_lr1_closure(g, f, k, a),
        kview(a) == kview(b),
    ensures
        is_lr1_closure(g, f, k, b),
{
    assert(kview(a).len() == a.len());
    assert(kview(b).len() == b.len());
    assert(a.len() == b.len());
    assert(cores(a) =~= cores(b)) by {
        assert forall|j: int| 0 <= j < a.len() implies cores(a)[j] == cores(b)[j] by {
            assert(kview(a)[j] == kview(b)[j]);
        }
    }
    assert(las(a) =~= las(b)) by {
        assert forall|j: int| 0 <= j < a.len() implies las(a)[j] == las(b)[j] by {
            assert(kview(a)[j] == kview(b)[j]);
        }
    }
}

/// A copy of an LR(1) state.
pub fn copy_lr1_items(v: &Vec<Lr1Item>) -> (r: Vec<Lr1Item>)
    ensures
        kview(r@) == kview(v@),
        forall|k: int| 0 <= k < v@.len() ==> (#[trigger] r@[k]).lookahead.capacity() == v@[k].lookahead.capacity(),
        r@.len() == v@.len(),
{
    let mut r: Vec<Lr1Item> = Vec::new();
    let mut i: usize = 0;
    while i < v.len()
        invariant
            i <= v@.len(),
            r@.len() == i,
            forall|k: int|
                0 <= k < i ==> (#[trigger] r@[k]).lr0 == v@[k].lr0 && r@[k].lookahead@ == v@[k].lookahead@ && r@[k].lookahead.capacity()
                    == v@[k].lookahead.capacity(),
        decreases v@.len() - i,
    {
        r.push(Lr1Item { lr0: v[i].lr0, lookahead: v[i].lookahead.copied() });
        i = i + 1;
    }
    assert(kview(r@) =~= kview(v@)) by {
        assert forall|k: int| 0 <= k < r@.len() implies kview(r@)[k] == kview(v@)[k] by {
            assert(r@[k].lr0 == v@[k].lr0);
        }
    }
    r
}


proof fn lemma_lr1_nonempty(g: &Grammar, f: Seq<Set<int>>, k: Seq<(Lr0Item, Set<int>)>, st: Seq<Lr1Item>)
    requires
        is_lr1_closure(g, f, k, st),
    ensures
        (k.len() > 0) == (st.len() > 0),
{
    let ks = k.map_values(|p: (Lr0Item, Set<int>)| p.0).to_set();
    lemma_closure_has_items(g, ks, cores(st).to_set());
    if k.len() > 0 {
        assert(ks.contains(k[0].0)) by {
            assert(k.map_values(|p: (Lr0Item, Set<int>)| p.0)[0] == k[0].0);
        }
    }
    if st.len() > 0 {
        assert(cores(st).to_set().contains(st[0].lr0)) by {
            assert(cores(st)[0] == st[0].lr0);
        }
    }
    let kc = k.map_values(|p: (Lr0Item, Set<int>)| p.0);
    assert(ks == kc.to_set());
    if has_items(ks) {
        let x = choose|x: Lr0Item| ks.contains(x);
        let j = choose|j: int| 0 <= j < kc.len() && #[trigger] kc[j] == x;
    }
    if has_items(cores(st).to_set()) {
        let x = choose|x: Lr0Item| cores(st).to_set().contains(x);
        let j = choose|j: int| 0 <= j < cores(st).len() && cores(st)[j] == x;
    }
}

pub open spec fn vec_kviews(v: Seq<Vec<Lr1Item>>) -> Seq<Seq<Lr1Item>> {
    v.map_values(|x: Vec<Lr1Item>| x@)
}

proof fn lemma_lr1_links_grow(g: &Grammar, f: Seq<Set<int>>, st: Seq<Lr1Item>, link: Seq<(u32, usize)>, a: Seq<Seq<Lr1Item>>, b: Seq<Seq<Lr1Item>>)
    requires
        lr1_links_ok(g, f, st, link, a),
        a.len() <= b.len(),
        forall|i: int| 0 <= i < a.len() ==> a[i] == b[i],
    ensures
        lr1_links_ok(g, f, st, link, b),
{
    assert forall|k: int| 0 <= k < link.len() implies is_lr1_closure(g, f, moved_kernel(g, kview(st), (#[trigger] link[k]).0), b[link[k].1 as int]) by {
        assert(a[link[k].1 as int] == b[link[k].1 as int]);
    }
}

pub open spec fn links1(r: Seq<Lr1Node>) -> Seq<Seq<(u32, usize)>> {
    r.map_values(|n: Lr1Node| n.link@)
}

/// The canonical LR(1) automaton of `g`, with its states numbered in the order in which a
/// breadth-first walk from the start state finds them.
#[verifier::rlimit(100)]
#[verifier::spinoff_prover]
pub fn work(g: &Grammar) -> (r: Vec<Lr1Node>)
    requires
        g.wf(),
        dots_fit(g),
    ensures
        forall|f: Seq<Set<int>>| #[trigger] crate::ll1::is_first(g, f) ==> lr1_fsm(g, f, r@),
        crate::table::lr1_ok(g, r@),
        bfs_numbered(links1(r@)),
{
    let ctx = Lr1Ctx::new(g);
    let ghost f = ctx.0@;
    let n: u32 = g.token_num() as u32;
    let mut la0 = BitSet::new(n);
    la0.set(EOF_IDX as u32);
    let mut kernel0: Vec<Lr1Item> = Vec::new();
    kernel0.push(Lr1Item { lr0: Lr0Item { prod_id: (g.prod.len() - 1) as u32, dot: 0 }, lookahead: la0 });
    proof {
        assert(la0@ =~= set![EOF_IDX as int]);
        assert(kview(kernel0@) =~= start_kernel(g));
        assert(lr1_items_ok(g, kernel0@)) by {
            assert(valid_item(g, start_item(g)));
        }
    }
    let init = ctx.closure(&kernel0, g);
    let mut states: Vec<Vec<Lr1Item>> = Vec::new();
    states.push(init);
    let ghost mut parent: Seq<int> = seq![0int];
    let mut result: Vec<Lr1Node> = Vec::new();
    let ghost bound = pow2(pair_universe(g, g.token_count()).len());
    proof {
        lemma_lr1_state_count(g, states@);
    }
    while result.len() < states.len()
        invariant
            g.wf(),
            dots_fit(g),
            ctx.wf(g),
            f == ctx.0@,
            n == g.token_count(),
            bound == pow2(pair_universe(g, g.token_count()).len()),
            1 <= states@.len(),
            result@.len() <= states@.len(),
            states@.len() <= bound,
            forall|k: int| 0 <= k < states@.len() ==> lr1_items_ok(g, (#[trigger] states@[k])@) && sorted_items(cores(states@[k]@)),
            forall|a: int, b: int| 0 <= a < b < states@.len() ==> kview((#[trigger] states@[a])@) != kview((#[trigger] states@[b])@),
            is_lr1_closure(g, f, start_kernel(g), states@[0]@),
            forall|k: int| 0 <= k < result@.len() ==> kview((#[trigger] result@[k]).closure@) == kview(states@[k]@) && lr1_items_ok(g, result@[k].closure@),
            forall|k: int| 0 <= k < result@.len() ==> lr1_links_ok(g, f, states@[k]@, (#[trigger] result@[k]).link@, vec_kviews(states@)),
            parent.len() == states@.len(),
            forall|j: int|
                1 <= j < states@.len() ==> 0 <= #[trigger] parent[j] < j && parent[j] < result@.len() && crate::lr0::has_link_to(result@[parent[j]].link@, j),
            bfs_from(links1(result@), result@.len() as int) == Some(states@.len() as int),
        decreases 2 * bound - states@.len() - result@.len(),
    {
        let head = result.len();
        let cur = copy_lr1_items(&states[head]);
        proof {
            assert(lr1_items_ok(g, cur@)) by {
                assert forall|k: int| 0 <= k < cur@.len() implies valid_item(g, (#[trigger] cur@[k]).lr0) && cur@[k].lookahead.capacity() >= g.token_count()
                    && bounded(cur@[k].lookahead@, g.token_count()) by {
                    assert(kview(cur@)[k] == kview(states@[head as int]@)[k]);
                }
            }
        }
        let ghost len0 = states@.len();
        let mut link: Vec<(u32, usize)> = Vec::new();
        let mut mov: u32 = 0;
        while mov < n
            invariant
                g.wf(),
                dots_fit(g),
                ctx.wf(g),
                f == ctx.0@,
                n == g.token_count(),
                bound == pow2(pair_universe(g, g.token_count()).len()),
                head == result@.len(),
                head < states@.len(),
                states@.len() >= len0,
                len0 > head,
                kview(cur@) == kview(states@[head as int]@),
                lr1_items_ok(g, cur@),
                mov <= n,
                states@.len() <= bound,
                forall|k: int| 0 <= k < states@.len() ==> lr1_items_ok(g, (#[trigger] states@[k])@) && sorted_items(cores(states@[k]@)),
                forall|a: int, b: int| 0 <= a < b < states@.len() ==> kview((#[trigger] states@[a])@) != kview((#[trigger] states@[b])@),
                is_lr1_closure(g, f, start_kernel(g), states@[0]@),
                forall|k: int| 0 <= k < result@.len() ==> kview((#[trigger] result@[k]).closure@) == kview(states@[k]@) && lr1_items_ok(g, result@[k].closure@),
                forall|k: int| 0 <= k < result@.len() ==> lr1_links_ok(g, f, states@[k]@, (#[trigger] result@[k]).link@, vec_kviews(states@)),
                parent.len() == states@.len(),
                forall|j: int|
                    1 <= j < states@.len() ==> 0 <= #[trigger] parent[j] < j && parent[j] <= head
                        && (parent[j] < head ==> crate::lr0::has_link_to(result@[parent[j]].link@, j))
                        && (parent[j] == head ==> crate::lr0::has_link_to(link@, j)),
                forall|a: int, b: int| 0 <= a < b < link@.len() ==> (#[trigger] link@[a]).0 < (#[trigger] link@[b]).0,
                forall|k: int|
                    0 <= k < link@.len() ==> {
                        &&& (#[trigger] link@[k]).0 < mov
                        &&& link@[k].1 < states@.len()
                        &&& moved_kernel(g, kview(cur@), link@[k].0).len() > 0
                        &&& is_lr1_closure(g, f, moved_kernel(g, kview(cur@), link@[k].0), states@[link@[k].1 as int]@)
                    },
                forall|m: u32|
                    m < mov && #[trigger] moved_kernel(g, kview(cur@), m).len() > 0 ==> exists|k: int| 0 <= k < link@.len() && link@[k].0 == m,
                bfs_from(links1(result@), head as int) == Some(len0 as int),
                bfs_links(link@, len0 as int) == Some(states@.len() as int),
            decreases n - mov,
        {
            let ns = ctx.go(&cur, mov, g);
            let ghost nsv = ns@;
            proof {
                lemma_lr1_nonempty(g, f, moved_kernel(g, kview(cur@), mov), nsv);
            }
            if ns.len() > 0 {
                let ghost old_states = states@;
                let ghost old_link = link@;
                let target = match find_lr1_state(&states, &ns, g) {
                    Some(j) => {
                        proof {
                            lemma_closure_kview(g, f, moved_kernel(g, kview(cur@), mov), nsv, states@[j as int]@);
                        }
                        j
                    },
                    None => {
                        states.push(ns);
                        proof {
                            parent = parent.push(head as int);
                            assert(states@[states@.len() - 1]@ == nsv);
                            lemma_lr1_state_count(g, states@);
                            assert forall|k: int| 0 <= k < result@.len() implies lr1_links_ok(g, f, states@[k]@, (#[trigger] result@[k]).link@, vec_kviews(states@)) by {
                                lemma_lr1_links_grow(g, f, states@[k]@, result@[k].link@, vec_kviews(old_states), vec_kviews(states@));
                            }
                        }
                        states.len() - 1
                    },
                };
                link.push((mov, target));
                proof {
                    assert(link@.drop_last() =~= old_link);
                    assert(link@[link@.len() - 1] == (mov, target));
                    assert forall|j: int|
                        1 <= j < states@.len() implies 0 <= #[trigger] parent[j] < j && parent[j] <= head
                            && (parent[j] < head ==> crate::lr0::has_link_to(result@[parent[j]].link@, j))
                            && (parent[j] == head ==> crate::lr0::has_link_to(link@, j)) by {
                        if parent[j] == head {
                            if j == target {
                                assert(link@[link@.len() - 1].1 == j);
                            } else {
                                assert(j < old_states.len());
                                assert(crate::lr0::has_link_to(old_link, j));
                                let k = choose|k: int| 0 <= k < old_link.len() && old_link[k].1 == j;
                                assert(link@[k] == old_link[k]);
                            }
                        }
                    }
                    assert forall|m: u32|
                        m < mov + 1 && #[trigger] moved_kernel(g, kview(cur@), m).len() > 0 implies exists|k: int| 0 <= k < link@.len() && link@[k].0 == m by {
                        if m < mov {
                            let k = choose|k: int| 0 <= k < old_link.len() && old_link[k].0 == m;
                            assert(link@[k] == old_link[k]);
                        } else {
                            assert(link@[link@.len() - 1].0 == m);
                        }
                    }
                }
            }
            mov = mov + 1;
        }
        let ghost done_link = link@;
        let ghost cur_v = cur@;
        let ghost old_result = result@;
        result.push(Lr1Node { closure: cur, link });
        proof {
            lemma_bfs_prefix(links1(old_result), links1(result@), head as int);
            assert(links1(result@)[head as int] == done_link);
            assert(result@[head as int].link@ == done_link);
            assert(result@[head as int].closure@ == cur_v);
            assert(moved_kernel(g, kview(cur_v), 0) == moved_kernel(g, kview(states@[head as int]@), 0));
            assert(lr1_links_ok(g, f, states@[head as int]@, done_link, vec_kviews(states@))) by {
                assert forall|k: int| 0 <= k < done_link.len() implies is_lr1_closure(g, f, moved_kernel(g, kview(states@[head as int]@), (#[trigger] done_link[k]).0), vec_kviews(states@)[done_link[k].1 as int]) by {
                    assert(kview(cur_v) == kview(states@[head as int]@));
                }
                assert forall|m: u32|
                    m < g.token_count() && #[trigger] moved_kernel(g, kview(states@[head as int]@), m).len() > 0 implies exists|k: int|
                        0 <= k < done_link.len() && done_link[k].0 == m by {
                    assert(kview(cur_v) == kview(states@[head as int]@));
                    assert(moved_kernel(g, kview(cur_v), m).len() > 0);
                }
            }
        }
    }
    proof {
        assert forall|i: int| 0 <= i < result@.len() implies lr1_links_ok(g, f, (#[trigger] result@[i]).closure@, result@[i].link@, node_states(result@)) by {
            let st = states@[i]@;
            let lk = result@[i].link@;
            assert(lr1_links_ok(g, f, st, lk, vec_kviews(states@)));
            assert(kview(result@[i].closure@) == kview(st));
            assert forall|k: int| 0 <= k < lk.len() implies is_lr1_closure(g, f, moved_kernel(g, kview(result@[i].closure@), (#[trigger] lk[k]).0), node_states(result@)[lk[k].1 as int]) by {
                let t = lk[k].1 as int;
                assert(vec_kviews(states@)[t] == states@[t]@);
                assert(node_states(result@)[t] == result@[t].closure@);
                lemma_closure_kview(g, f, moved_kernel(g, kview(st), lk[k].0), states@[t]@, result@[t].closure@);
            }
            assert forall|m: u32|
                m < g.token_count() && #[trigger] moved_kernel(g, kview(result@[i].closure@), m).len() > 0 implies exists|k: int|
                    0 <= k < lk.len() && lk[k].0 == m by {
                assert(moved_kernel(g, kview(st), m).len() > 0);
            }
        }
        assert forall|i: int, j: int| 0 <= i < j < result@.len() implies kview((#[trigger] result@[i]).closure@) != kview((#[trigger] result@[j]).closure@) by {
            assert(kview(result@[i].closure@) == kview(states@[i]@));
            assert(kview(result@[j].closure@) == kview(states@[j]@));
        }
        assert forall|j: int| 1 <= j < result@.len() implies #[trigger] entered1(result@, j) by {
            let i = parent[j];
            assert(crate::lr0::has_link_to(result@[i].link@, j));
        }
        lemma_closure_kview(g, f, start_kernel(g), states@[0]@, result@[0].closure@);
        assert forall|s: int| 0 <= s < result@.len() implies {
            &&& forall|k: int|
                0 <= k < (#[trigger] result@[s]).closure@.len() ==> valid_item(g, (#[trigger] result@[s].closure@[k]).lr0)
                    && result@[s].closure@[k].lookahead.capacity() >= g.token_count()
            &&& forall|e: int| 0 <= e < result@[s].link@.len() ==> (#[trigger] result@[s].link@[e]).0 < g.token_count() && result@[s].link@[e].1 < result@.len()
        } by {
            assert(lr1_items_ok(g, result@[s].closure@));
            assert(lr1_links_ok(g, f, states@[s]@, result@[s].link@, vec_kviews(states@)));
        }
        assert forall|f2: Seq<Set<int>>| #[trigger] crate::ll1::is_first(g, f2) implies lr1_fsm(g, f2, result@) by {
            crate::ll1::lemma_first_unique(g, f, f2);
        }
    }
    result
}

} // verus!
