use vstd::prelude::*;
use crate::bitset::BitSet;
use crate::grammar::{Grammar, EPS_IDX, EOF_IDX, slice_subrange};
use crate::collections::prod_vec_as_slice;
use crate::lr0::{
    Lr0Item, Lr0Node, lr0_fsm, dots_fit, start_item, state_set, expands, links_ok, node_sets, sorted_items,
    valid_items, valid_item, is_closure, advance, has_items, copy_items,
};
use crate::ll1::{
    First, bounded, views, string_first, tokens_ok, sets_below, is_first, total, lemma_total_bound,
    lemma_total_mono, lemma_string_first_bounded, lemma_first_unique,
};

verus! {

/// The right-hand side of an item after the token that follows its dot.
pub open spec fn beta(g: &Grammar, it: Lr0Item) -> Seq<u32> {
    g.rhs(it.prod_id as int).skip(it.dot + 1)
}

/// FIRST of `w` where `EPS_IDX` gives way to the lookahead `a`.
pub open spec fn first_then(g: &Grammar, f: Seq<Set<int>>, w: Seq<u32>, a: Set<int>) -> Set<int> {
    let s = string_first(g, f, w);
    if s.contains(EPS_IDX as int) {
        s.remove(EPS_IDX as int).union(a)
    } else {
        s
    }
}

/// The closure rule: in state `s`, item `k` (`A -> α.Bβ`) gives item `k2` (`B -> .γ`) the
/// lookahead FIRST(β a) for each lookahead `a` of item `k`.
pub open spec fn spawn_ok(g: &Grammar, f: Seq<Set<int>>, fsm: Seq<Lr0Node>, la: Seq<Seq<Set<int>>>, s: int, k: int, k2: int) -> bool {
    let it = fsm[s].closure@[k];
    let it2 = fsm[s].closure@[k2];
    it2.dot == 0 && expands(g, it, it2.prod_id as int) ==> first_then(g, f, beta(g, it), la[s][k]) <= la[s][k2]
}

/// The transition rule: item `k` of state `s`, moved over the token of transition `e`, keeps
/// its lookaheads in the target state, where it is item `k2`.
pub open spec fn goto_ok(g: &Grammar, fsm: Seq<Lr0Node>, la: Seq<Seq<Set<int>>>, s: int, k: int, e: int, k2: int) -> bool {
    let it = fsm[s].closure@[k];
    let x = fsm[s].link@[e].0;
    let t = fsm[s].link@[e].1 as int;
    it.dot < g.rhs(it.prod_id as int).len() && g.rhs(it.prod_id as int)[it.dot as int] == x
        && fsm[t].closure@[k2] == (Lr0Item { prod_id: it.prod_id, dot: (it.dot + 1) as u32 }) ==> la[s][k] <= la[t][k2]
}

/// One lookahead set per item of each state.
pub open spec fn la_shape(fsm: Seq<Lr0Node>, la: Seq<Seq<Set<int>>>) -> bool {
    &&& la.len() == fsm.len()
    &&& forall|s: int| 0 <= s < la.len() ==> (#[trigger] la[s]).len() == fsm[s].closure@.len()
}

/// `la` is closed under the rules of LALR(1) lookaheads: `EOF_IDX` for the start item of state
/// 0, the closure rule and the transition rule.
pub open spec fn lalr_closed(g: &Grammar, f: Seq<Set<int>>, fsm: Seq<Lr0Node>, la: Seq<Seq<Set<int>>>) -> bool {
    &&& la_shape(fsm, la)
    &&& forall|k: int| 0 <= k < fsm[0].closure@.len() && fsm[0].closure@[k] == start_item(g) ==> #[trigger] la[0][k].contains(EOF_IDX as int)
    &&& forall|s: int, k: int, k2: int|
        0 <= s < fsm.len() && 0 <= k < fsm[s].closure@.len() && 0 <= k2 < fsm[s].closure@.len() ==> #[trigger] spawn_ok(g, f, fsm, la, s, k, k2)
    &&& forall|s: int, k: int, e: int, k2: int|
        0 <= s < fsm.len() && 0 <= k < fsm[s].closure@.len() && 0 <= e < fsm[s].link@.len()
            && 0 <= k2 < fsm[fsm[s].link@[e].1 as int].closure@.len() ==> #[trigger] goto_ok(g, fsm, la, s, k, e, k2)
}

pub open spec fn below2(a: Seq<Seq<Set<int>>>, b: Seq<Seq<Set<int>>>) -> bool {
    a.len() == b.len() && forall|s: int| 0 <= s < a.len() ==> sets_below(#[trigger] a[s], b[s])
}

/// `la` holds the LALR(1) lookaheads of the automaton `fsm`: the least closed assignment.
pub open spec fn is_lalr(g: &Grammar, f: Seq<Set<int>>, fsm: Seq<Lr0Node>, la: Seq<Seq<Set<int>>>) -> bool {
    &&& lalr_closed(g, f, fsm, la)
    &&& forall|h: Seq<Seq<Set<int>>>| #[trigger] lalr_closed(g, f, fsm, h) ==> below2(la, h)
}

pub open spec fn la_view(la: Seq<Vec<BitSet>>) -> Seq<Seq<Set<int>>> {
    la.map_values(|v: Vec<BitSet>| views(v@))
}

/// One bit set per item of each state, each able to hold every token and holding only tokens.
pub open spec fn la_ok(g: &Grammar, fsm: Seq<Lr0Node>, la: Seq<Vec<BitSet>>) -> bool {
    &&& la.len() == fsm.len()
    &&& forall|s: int| 0 <= s < la.len() ==> (#[trigger] la[s])@.len() == fsm[s].closure@.len()
    &&& forall|s: int, k: int|
        0 <= s < la.len() && 0 <= k < la[s]@.len() ==> (#[trigger] la[s]@[k]).capacity() >= g.token_count()
            && bounded(la[s]@[k]@, g.token_count())
}

pub open spec fn total2(a: Seq<Seq<Set<int>>>) -> int
    decreases a.len(),
{
    if a.len() == 0 {
        0
    } else {
        total2(a.drop_last()) + total(a.last())
    }
}

pub open spec fn count2(fsm: Seq<Lr0Node>) -> int
    decreases fsm.len(),
{
    if fsm.len() == 0 {
        0
    } else {
        count2(fsm.drop_last()) + fsm.last().closure@.len()
    }
}

pub proof fn lemma_total2_bound(a: Seq<Seq<Set<int>>>, fsm: Seq<Lr0Node>, n: int)
    requires
        n >= 0,
        la_shape(fsm, a),
        forall|s: int, k: int| 0 <= s < a.len() && 0 <= k < a[s].len() ==> bounded(#[trigger] a[s][k], n),
    ensures
        0 <= total2(a) <= count2(fsm) * n,
        count2(fsm) >= 0,
    decreases a.len(),
{
    if a.len() > 0 {
        let a2 = a.drop_last();
        let f2 = fsm.drop_last();
        assert(la_shape(f2, a2)) by {
            assert forall|s: int| 0 <= s < a2.len() implies (#[trigger] a2[s]).len() == f2[s].closure@.len() by {
                assert(a[s].len() == fsm[s].closure@.len());
            }
        }
        assert forall|s: int, k: int| 0 <= s < a2.len() && 0 <= k < a2[s].len() implies bounded(#[trigger] a2[s][k], n) by {
            assert(a2[s] == a[s]);
        }
        lemma_total2_bound(a2, f2, n);
        let last = a.last();
        assert(last.len() == fsm.last().closure@.len()) by {
            assert(a[a.len() - 1].len() == fsm[a.len() - 1].closure@.len());
        }
        assert forall|k: int| 0 <= k < last.len() implies bounded(#[trigger] last[k], n) by {
            assert(a[a.len() - 1][k] == last[k]);
        }
        lemma_total_bound(last, n);
        assert(count2(f2) * n + fsm.last().closure@.len() * n == count2(fsm) * n) by (nonlinear_arith)
            requires
                count2(fsm) == count2(f2) + fsm.last().closure@.len(),
        ;
    }
}

pub proof fn lemma_total2_mono(a: Seq<Seq<Set<int>>>, b: Seq<Seq<Set<int>>>, n: int)
    requires
        below2(a, b),
        n >= 0,
        forall|s: int, k: int| 0 <= s < b.len() && 0 <= k < b[s].len() ==> bounded(#[trigger] b[s][k], n),
    ensures
        total2(a) <= total2(b),
        a != b ==> total2(a) < total2(b),
    decreases a.len(),
{
    if a.len() > 0 {
        let a2 = a.drop_last();
        let b2 = b.drop_last();
        assert(below2(a2, b2)) by {
            assert forall|s: int| 0 <= s < a2.len() implies sets_below(#[trigger] a2[s], b2[s]) by {
                assert(sets_below(a[s], b[s]));
            }
        }
        assert forall|s: int, k: int| 0 <= s < b2.len() && 0 <= k < b2[s].len() implies bounded(#[trigger] b2[s][k], n) by {
            assert(b2[s] == b[s]);
        }
        lemma_total2_mono(a2, b2, n);
        assert(sets_below(a[a.len() - 1], b[b.len() - 1]));
        assert forall|k: int| 0 <= k < b.last().len() implies bounded(#[trigger] b.last()[k], n) by {
            assert(b[b.len() - 1][k] == b.last()[k]);
        }
        lemma_total_mono(a.last(), b.last(), n);
        if a != b {
            if a.last() == b.last() && a2 == b2 {
                assert(a =~= b) by {
                    assert forall|i: int| 0 <= i < a.len() implies a[i] == b[i] by {
                        if i < a.len() - 1 {
                            assert(a[i] == a2[i]);
                            assert(b[i] == b2[i]);
                        }
                    }
                }
            }
        }
    } else {
        assert(a =~= b);
    }
}

proof fn lemma_below2_trans(a: Seq<Seq<Set<int>>>, b: Seq<Seq<Set<int>>>, c: Seq<Seq<Set<int>>>)
    requires
        below2(a, b),
        below2(b, c),
    ensures
        below2(a, c),
{
    assert forall|s: int| 0 <= s < a.len() implies sets_below(#[trigger] a[s], c[s]) by {
        assert(sets_below(a[s], b[s]));
        assert(sets_below(b[s], c[s]));
        assert forall|k: int| 0 <= k < a[s].len() implies #[trigger] a[s][k] <= c[s][k] by {
            assert(a[s][k] <= b[s][k]);
            assert(b[s][k] <= c[s][k]);
        }
    }
}

proof fn lemma_below2_antisym(a: Seq<Seq<Set<int>>>, b: Seq<Seq<Set<int>>>)
    requires
        below2(a, b),
        below2(b, a),
    ensures
        a == b,
{
    assert forall|s: int| 0 <= s < a.len() implies a[s] == b[s] by {
        assert(sets_below(a[s], b[s]));
        assert(sets_below(b[s], a[s]));
        assert forall|k: int| 0 <= k < a[s].len() implies a[s][k] == b[s][k] by {
            assert(a[s][k] <= b[s][k]);
            assert(b[s][k] <= a[s][k]);
            assert(a[s][k] =~= b[s][k]);
        }
        assert(a[s] =~= b[s]);
    }
    assert(a =~= b);
}

proof fn lemma_below2_refl(a: Seq<Seq<Set<int>>>)
    ensures
        below2(a, a),
{
    assert forall|s: int| 0 <= s < a.len() implies sets_below(#[trigger] a[s], a[s]) by {}
}


/// Adds `src` to the lookaheads of item `k2` of state `t`; tells whether they grew.
fn la_or(la: &mut Vec<Vec<BitSet>>, t: usize, k2: usize, src: &BitSet, g: &Grammar, fsm: &Vec<Lr0Node>) -> (c: bool)
    requires
        la_ok(g, fsm@, old(la)@),
        t < old(la)@.len(),
        k2 < old(la)@[t as int]@.len(),
        bounded(src@, g.token_count()),
    ensures
        la_ok(g, fsm@, final(la)@),
        la_view(final(la)@) == la_view(old(la)@).update(
            t as int,
            la_view(old(la)@)[t as int].update(k2 as int, la_view(old(la)@)[t as int][k2 as int].union(src@)),
        ),
        c == (la_view(final(la)@) != la_view(old(la)@)),
{
    let ghost before = la_view(la@);
    let ghost cap = la@[t as int]@[k2 as int].capacity();
    let c = la[t][k2].or(src);
    proof {
        let after = la_view(la@);
        assert(la@[t as int]@[k2 as int]@ =~= before[t as int][k2 as int].union(src@)) by {
            assert forall|x: int| src@.contains(x) implies x < cap by {}
        }
        assert(after[t as int] =~= before[t as int].update(k2 as int, before[t as int][k2 as int].union(src@)));
        assert(after =~= before.update(t as int, before[t as int].update(k2 as int, before[t as int][k2 as int].union(src@))));
        if c {
            assert(after[t as int][k2 as int] != before[t as int][k2 as int]);
        } else {
            assert(after[t as int] =~= before[t as int]);
            assert(after =~= before);
        }
    }
    c
}

/// Where `link` has a transition over `x`, its index.
pub fn find_link(link: &Vec<(u32, usize)>, x: u32) -> (r: Option<usize>)
    ensures
        (match r {
            Some(e) => e < link@.len() && link@[e as int].0 == x,
            None => forall|e: int| 0 <= e < link@.len() ==> link@[e].0 != x,
        }),
{
    let mut e: usize = 0;
    while e < link.len()
        invariant
            e <= link@.len(),
            forall|j: int| 0 <= j < e ==> link@[j].0 != x,
        decreases link@.len() - e,
    {
        if link[e].0 == x {
            return Some(e);
        }
        e = e + 1;
    }
    None
}

/// Where `v` holds `x`, its index.
pub fn find_item(v: &Vec<Lr0Item>, x: Lr0Item) -> (r: Option<usize>)
    ensures
        (match r {
            Some(k) => k < v@.len() && v@[k as int] == x,
            None => !v@.contains(x),
        }),
{
    let mut k: usize = 0;
    while k < v.len()
        invariant
            k <= v@.len(),
            forall|j: int| 0 <= j < k ==> v@[j] != x,
        decreases v@.len() - k,
    {
        if v[k] == x {
            return Some(k);
        }
        k = k + 1;
    }
    None
}

/// The LR(1) context: the FIRST sets that lookaheads are computed from.
pub struct Lr1Ctx(pub First);

impl Lr1Ctx {
    pub open spec fn wf(&self, g: &Grammar) -> bool {
        self.0.wf(g)
    }

    /// The context of `g`.
    pub fn new(g: &Grammar) -> (r: Lr1Ctx)
        requires
            g.wf(),
        ensures
            r.wf(g),
            is_first(g, r.0@),
    {
        Lr1Ctx(First::new(g))
    }

    /// FIRST of `beta` followed by any of the lookaheads `a`.
    pub fn first(&self, beta: &[u32], a: &BitSet, g: &Grammar) -> (r: BitSet)
        requires
            g.wf(),
            self.wf(g),
            tokens_ok(g, beta@),
            bounded(a@, g.token_count()),
        ensures
            r.capacity() >= g.token_count(),
            r@ == first_then(g, self.0@, beta@, a@),
    {
        let mut r = self.0.first(beta, g);
        proof {
            lemma_string_first_bounded(g, self.0@, beta@);
        }
        if r.test(EPS_IDX as u32) {
            let ghost s0 = r@;
            r.clear(EPS_IDX as u32);
            let ghost s1 = r@;
            r.or(a);
            proof {
                assert(r@ =~= s0.remove(EPS_IDX as int).union(a@)) by {
                    assert forall|x: int| a@.contains(x) implies x < r.capacity() by {}
                }
            }
        }
        r
    }
}


pub open spec fn la_union(a: Seq<Seq<Set<int>>>, t: int, k2: int, src: Set<int>) -> Seq<Seq<Set<int>>> {
    a.update(t, a[t].update(k2, a[t][k2].union(src)))
}

proof fn lemma_below2_union(cur: Seq<Seq<Set<int>>>, t: int, k2: int, src: Set<int>)
    requires
        0 <= t < cur.len(),
        0 <= k2 < cur[t].len(),
    ensures
        below2(cur, la_union(cur, t, k2, src)),
        forall|h: Seq<Seq<Set<int>>>| below2(cur, h) && src <= h[t][k2] ==> #[trigger] below2(la_union(cur, t, k2, src), h),
{
    let n = la_union(cur, t, k2, src);
    assert forall|s: int| 0 <= s < cur.len() implies sets_below(#[trigger] cur[s], n[s]) by {
        assert forall|k: int| 0 <= k < cur[s].len() implies #[trigger] cur[s][k] <= n[s][k] by {}
    }
    assert forall|h: Seq<Seq<Set<int>>>| below2(cur, h) && src <= h[t][k2] implies #[trigger] below2(n, h) by {
        assert forall|s: int| 0 <= s < n.len() implies sets_below(#[trigger] n[s], h[s]) by {
            assert(sets_below(cur[s], h[s]));
            assert forall|k: int| 0 <= k < n[s].len() implies #[trigger] n[s][k] <= h[s][k] by {
                assert(cur[s][k] <= h[s][k]);
            }
        }
    }
}

proof fn lemma_grow_step(old: Seq<Seq<Set<int>>>, cur: Seq<Seq<Set<int>>>, new: Seq<Seq<Set<int>>>)
    requires
        below2(old, cur),
        below2(cur, new),
    ensures
        below2(old, new),
        (new != old) == (cur != old || new != cur),
{
    lemma_below2_trans(old, cur, new);
    if new == old && cur != old {
        lemma_below2_antisym(old, cur);
    }
}

/// Applies the two rules of LALR(1) lookaheads to item `k` of state `s`: its lookaheads pass
/// to the moved item in the target state, and spawn those of the items that its closure adds.
fn lalr_step(la: &mut Vec<Vec<BitSet>>, fsm: &Vec<Lr0Node>, ctx: &Lr1Ctx, g: &Grammar, s: usize, k: usize) -> (changed: bool)
    requires
        g.wf(),
        dots_fit(g),
        lr0_fsm(g, fsm@),
        ctx.wf(g),
        la_ok(g, fsm@, old(la)@),
        s < fsm@.len(),
        k < fsm@[s as int].closure@.len(),
        forall|h: Seq<Seq<Set<int>>>| #[trigger] lalr_closed(g, ctx.0@, fsm@, h) ==> below2(la_view(old(la)@), h),
    ensures
        la_ok(g, fsm@, final(la)@),
        forall|h: Seq<Seq<Set<int>>>| #[trigger] lalr_closed(g, ctx.0@, fsm@, h) ==> below2(la_view(final(la)@), h),
        below2(la_view(old(la)@), la_view(final(la)@)),
        changed == (la_view(final(la)@) != la_view(old(la)@)),
        !changed ==> forall|k2: int| 0 <= k2 < fsm@[s as int].closure@.len() ==> #[trigger] spawn_ok(g, ctx.0@, fsm@, la_view(old(la)@), s as int, k as int, k2),
        !changed ==> forall|e: int, k2: int|
            0 <= e < fsm@[s as int].link@.len() && 0 <= k2 < fsm@[fsm@[s as int].link@[e].1 as int].closure@.len()
                ==> #[trigger] goto_ok(g, fsm@, la_view(old(la)@), s as int, k as int, e, k2),
{
    let ghost old_la = la_view(la@);
    let ghost f = ctx.0@;
    let ghost fs = fsm@;
    let ghost st = state_set(fsm@[s as int]);
    proof {
        lemma_below2_refl(old_la);
    }
    let it = fsm[s].closure[k];
    proof {
        assert(valid_items(g, fsm@[s as int].closure@));
        assert(valid_item(g, it));
        assert(g.prod@[it.prod_id as int].id == it.prod_id);
    }
    let rhs = prod_vec_as_slice(&g.prod[it.prod_id as usize].rhs);
    assert(rhs@ == g.rhs(it.prod_id as int));
    if (it.dot as usize) >= rhs.len() {
        return false;
    }
    let x = rhs[it.dot as usize];
    assert(x < g.token_count());
    let moved = Lr0Item { prod_id: it.prod_id, dot: it.dot + 1 };
    proof {
        assert(st.contains(it)) by {
            assert(fsm@[s as int].closure@[k as int] == it);
        }
        assert(advance(g, st, x).contains(moved));
        assert(has_items(advance(g, st, x)));
        assert(links_ok(g, st, fsm@[s as int].link@, node_sets(fsm@)));
    }
    let e = match find_link(&fsm[s].link, x) {
        Some(e) => e,
        None => {
            proof {
                let w = choose|w: int| 0 <= w < fsm@[s as int].link@.len() && fsm@[s as int].link@[w].0 == x;
                assert(false);
            }
            return false;
        },
    };
    let t = fsm[s].link[e].1;
    proof {
        let lk = fsm@[s as int].link@;
        assert(lk[e as int].0 == x);
        assert(t < fsm@.len());
        assert(is_closure(g, advance(g, st, x), node_sets(fsm@)[t as int]));
        assert(node_sets(fsm@)[t as int] == state_set(fsm@[t as int]));
        assert(state_set(fsm@[t as int]).contains(moved));
    }
    let k2 = match find_item(&fsm[t].closure, moved) {
        Some(k2) => k2,
        None => {
            proof {
                assert(fsm@[t as int].closure@.to_set().contains(moved));
                assert(false);
            }
            return false;
        },
    };
    let src = la[s][k].copied();
    proof {
        assert(bounded(la@[s as int]@[k as int]@, g.token_count()));
        assert(src@ == old_la[s as int][k as int]);
    }
    let c1 = la_or(la, t, k2, &src, g, fsm);
    let ghost after1 = la_view(la@);
    proof {
        assert(after1 == la_union(old_la, t as int, k2 as int, src@));
        lemma_below2_union(old_la, t as int, k2 as int, src@);
        assert forall|h: Seq<Seq<Set<int>>>| #[trigger] lalr_closed(g, f, fs, h) implies below2(la_view(la@), h) by {
            assert(below2(old_la, h));
            assert(goto_ok(g, fs, h, s as int, k as int, e as int, k2 as int));
            assert(sets_below(old_la[s as int], h[s as int]));
            assert(old_la[s as int][k as int] <= h[s as int][k as int]);
        }
    }
    let mut changed = c1;
    if (x as usize) >= g.terms.len() {
        let b = slice_subrange(rhs, it.dot as usize + 1, rhs.len());
        proof {
            assert(b@ =~= beta(g, it));
            assert(tokens_ok(g, b@)) by {
                assert forall|j: int| 0 <= j < b@.len() implies #[trigger] b@[j] < g.token_count() by {
                    assert(b@[j] == g.rhs(it.prod_id as int)[it.dot + 1 + j]);
                }
            }
        }
        let ghost mid = la_view(la@);
        let lk = la[s][k].copied();
        proof {
            assert(bounded(la@[s as int]@[k as int]@, g.token_count()));
        }
        let fb = ctx.first(b, &lk, g);
        proof {
            lemma_string_first_bounded(g, f, b@);
            assert(bounded(fb@, g.token_count()));
        }
        let n = fsm[s].closure.len();
        let mut j: usize = 0;
        while j < n
            invariant
                g.wf(),
                dots_fit(g),
                lr0_fsm(g, fsm@),
                fs == fsm@,
                ctx.wf(g),
                f == ctx.0@,
                s < fsm@.len(),
                k < fsm@[s as int].closure@.len(),
                n == fsm@[s as int].closure@.len(),
                it == fsm@[s as int].closure@[k as int],
                it.dot < g.rhs(it.prod_id as int).len(),
                g.rhs(it.prod_id as int)[it.dot as int] == x,
                x >= g.terms@.len(),
                x < g.token_count(),
                j <= n,
                la_ok(g, fsm@, la@),
                bounded(fb@, g.token_count()),
                fb@ == first_then(g, f, beta(g, it), lk@),
                lk@ <= la_view(la@)[s as int][k as int],
                forall|h: Seq<Seq<Set<int>>>| #[trigger] lalr_closed(g, f, fs, h) ==> below2(la_view(la@), h),
                below2(old_la, la_view(la@)),
                changed == (la_view(la@) != old_la),
                !changed ==> lk@ == old_la[s as int][k as int],
                c1 ==> changed,
                !changed ==> forall|kk: int| 0 <= kk < j ==> #[trigger] spawn_ok(g, f, fs, old_la, s as int, k as int, kk),
            decreases n - j,
        {
            let it2 = fsm[s].closure[j];
            proof {
                assert(valid_items(g, fsm@[s as int].closure@));
                assert(valid_item(g, it2));
                assert(g.prod@[it2.prod_id as int].id == it2.prod_id);
            }
            let spawns = it2.dot == 0 && (g.prod[it2.prod_id as usize].lhs as usize) + g.terms.len() == x as usize;
            let ghost cur = la_view(la@);
            if spawns {
                let c = la_or(la, s, j, &fb, g, fsm);
                proof {
                    lemma_below2_union(cur, s as int, j as int, fb@);
                    lemma_grow_step(old_la, cur, la_view(la@));
                    assert forall|h: Seq<Seq<Set<int>>>| #[trigger] lalr_closed(g, f, fs, h) implies below2(la_view(la@), h) by {
                        assert(below2(cur, h));
                        assert(spawn_ok(g, f, fs, h, s as int, k as int, j as int));
                        assert(expands(g, it, it2.prod_id as int));
                        assert(sets_below(cur[s as int], h[s as int]));
                        assert(lk@ <= h[s as int][k as int]);
                        assert(fb@ <= first_then(g, f, beta(g, it), h[s as int][k as int]));
                    }
                    assert(lk@ <= la_view(la@)[s as int][k as int]) by {
                        assert(sets_below(cur[s as int], la_view(la@)[s as int]));
                    }
                    if !changed && !c {
                        assert(la_view(la@) == cur);
                        assert(spawn_ok(g, f, fs, old_la, s as int, k as int, j as int));
                    }
                }
                changed = changed || c;
            } else {
                proof {
                    assert(!expands(g, it, it2.prod_id as int) || it2.dot != 0);
                }
            }
            j = j + 1;
        }
    }
    proof {
        if !changed {
            assert(la_view(la@) == old_la);
            assert forall|e2: int, kk: int|
                0 <= e2 < fs[s as int].link@.len() && 0 <= kk < fs[fs[s as int].link@[e2].1 as int].closure@.len()
                    implies #[trigger] goto_ok(g, fs, old_la, s as int, k as int, e2, kk) by {
                let lk = fs[s as int].link@;
                if it.dot < g.rhs(it.prod_id as int).len() && g.rhs(it.prod_id as int)[it.dot as int] == lk[e2].0
                    && fs[lk[e2].1 as int].closure@[kk] == moved {
                    if e2 != e {
                        if e2 < e {
                            assert(lk[e2].0 < lk[e as int].0);
                        } else {
                            assert(lk[e as int].0 < lk[e2].0);
                        }
                    }
                    assert(sorted_items(fs[t as int].closure@));
                    let cl = fs[t as int].closure@;
                    if kk != k2 {
                        if kk < k2 {
                            assert(crate::lr0::item_lt(cl[kk], cl[k2 as int]));
                        } else {
                            assert(crate::lr0::item_lt(cl[k2 as int], cl[kk]));
                        }
                    }
                    assert(!c1);
                    assert(after1 == old_la);
                    assert(la_union(old_la, t as int, k2 as int, src@) == old_la);
                    assert(old_la[t as int][k2 as int].union(src@) == old_la[t as int][k2 as int]) by {
                        assert(la_union(old_la, t as int, k2 as int, src@)[t as int][k2 as int] == old_la[t as int][k2 as int].union(src@));
                    }
                }
            }
            if (x as usize) < g.terms@.len() {
                assert forall|kk: int| 0 <= kk < fs[s as int].closure@.len() implies #[trigger] spawn_ok(g, f, fs, old_la, s as int, k as int, kk) by {
                    let it2 = fs[s as int].closure@[kk];
                    assert(!expands(g, it, it2.prod_id as int));
                }
            }
        }
    }
    changed
}


/// An item of an LR(1) state: an LR(0) item and its lookaheads.
pub struct Lr1Item {
    pub lr0: Lr0Item,
    pub lookahead: BitSet,
}

/// A state of an LR(1) automaton: its items, and its transitions `(token, target state)`.
pub struct Lr1Node {
    pub closure: Vec<Lr1Item>,
    pub link: Vec<(u32, usize)>,
}

/// The lookaheads of each item of each state.
pub open spec fn lookaheads(r: Seq<Lr1Node>) -> Seq<Seq<Set<int>>> {
    r.map_values(|n: Lr1Node| n.closure@.map_values(|it: Lr1Item| it.lookahead@))
}

/// `r` is the automaton `lr0` with a lookahead set on each of its items: same states, same items
/// in the same order, same transitions.
pub open spec fn same_core(lr0: Seq<Lr0Node>, r: Seq<Lr1Node>) -> bool {
    &&& r.len() == lr0.len()
    &&& forall|s: int|
        0 <= s < r.len() ==> {
            &&& (#[trigger] r[s]).link@ == lr0[s].link@
            &&& r[s].closure@.len() == lr0[s].closure@.len()
            &&& forall|k: int| 0 <= k < r[s].closure@.len() ==> (#[trigger] r[s].closure@[k]).lr0 == lr0[s].closure@[k]
        }
}

/// The transitions, in the same order.
pub fn copy_links(v: &Vec<(u32, usize)>) -> (r: Vec<(u32, usize)>)
    ensures
        r@ == v@,
{
    let mut r: Vec<(u32, usize)> = Vec::new();
    let mut i: usize = 0;
    while i < v.len()
        invariant
            i <= v@.len(),
            r@ == v@.take(i as int),
        decreases v@.len() - i,
    {
        r.push(v[i]);
        i = i + 1;
        assert(r@ =~= v@.take(i as int));
    }
    assert(v@.take(v@.len() as int) =~= v@);
    r
}

/// The LALR(1) automaton of `g` from its LR(0) automaton `lr0`: each item gets its LALR(1)
/// lookaheads, computed by applying the closure and transition rules until nothing grows.
pub fn work(lr0: &Vec<Lr0Node>, g: &Grammar) -> (r: Vec<Lr1Node>)
    requires
        g.wf(),
        dots_fit(g),
        lr0_fsm(g, lr0@),
    ensures
        same_core(lr0@, r@),
        forall|s: int, k: int|
            0 <= s < r@.len() && 0 <= k < r@[s].closure@.len() ==> (#[trigger] r@[s].closure@[k]).lookahead.capacity() >= g.token_count(),
        forall|f: Seq<Set<int>>| #[trigger] is_first(g, f) ==> is_lalr(g, f, lr0@, lookaheads(r@)),
{
    let ctx = Lr1Ctx::new(g);
    let ghost f = ctx.0@;
    let tc = g.token_num() as u32;
    let n = lr0.len();
    let mut la: Vec<Vec<BitSet>> = Vec::new();
    let mut s: usize = 0;
    while s < n
        invariant
            g.wf(),
            tc == g.token_count(),
            n == lr0@.len(),
            s <= n,
            la@.len() == s,
            forall|i: int| 0 <= i < s ==> (#[trigger] la@[i])@.len() == lr0@[i].closure@.len(),
            forall|i: int, k: int|
                0 <= i < s && 0 <= k < la@[i]@.len() ==> (#[trigger] la@[i]@[k]).capacity() >= g.token_count()
                    && la@[i]@[k]@ == Set::<int>::empty(),
        decreases n - s,
    {
        let m = lr0[s].closure.len();
        let mut row: Vec<BitSet> = Vec::new();
        let mut k: usize = 0;
        while k < m
            invariant
                tc == g.token_count(),
                k <= m,
                row@.len() == k,
                forall|j: int| 0 <= j < k ==> (#[trigger] row@[j]).capacity() >= g.token_count() && row@[j]@ == Set::<int>::empty(),
            decreases m - k,
        {
            row.push(BitSet::new(tc));
            k = k + 1;
        }
        la.push(row);
        s = s + 1;
    }
    let start = Lr0Item { prod_id: (g.prod.len() - 1) as u32, dot: 0 };
    proof {
        assert(start == start_item(g));
        assert(set![start_item(g)].contains(start));
        assert(state_set(lr0@[0]).contains(start));
    }
    let k0 = match find_item(&lr0[0].closure, start) {
        Some(k0) => k0,
        None => {
            proof {
                assert(lr0@[0].closure@.to_set().contains(start));
                assert(false);
            }
            return Vec::new();
        },
    };
    la[0][k0].set(EOF_IDX as u32);
    proof {
        let v = la_view(la@);
        assert(la_ok(g, lr0@, la@)) by {
            assert forall|i: int, k: int|
                0 <= i < la@.len() && 0 <= k < la@[i]@.len() implies (#[trigger] la@[i]@[k]).capacity() >= g.token_count()
                    && bounded(la@[i]@[k]@, g.token_count()) by {}
        }
        assert forall|h: Seq<Seq<Set<int>>>| #[trigger] lalr_closed(g, f, lr0@, h) implies below2(v, h) by {
            assert forall|i: int| 0 <= i < v.len() implies sets_below(#[trigger] v[i], h[i]) by {
                assert(h[i].len() == lr0@[i].closure@.len());
                assert forall|k: int| 0 <= k < v[i].len() implies #[trigger] v[i][k] <= h[i][k] by {
                    if i == 0 && k == k0 {
                        assert(h[0][k].contains(EOF_IDX as int));
                        assert(v[i][k] =~= set![EOF_IDX as int]);
                    } else {
                        assert(v[i][k] =~= Set::<int>::empty());
                    }
                }
            }
        }
        assert(v[0][k0 as int].contains(EOF_IDX as int));
    }
    loop
        invariant
            g.wf(),
            dots_fit(g),
            lr0_fsm(g, lr0@),
            ctx.wf(g),
            f == ctx.0@,
            tc == g.token_count(),
            n == lr0@.len(),
            k0 < lr0@[0].closure@.len(),
            lr0@[0].closure@[k0 as int] == start_item(g),
            la_ok(g, lr0@, la@),
            la_view(la@)[0][k0 as int].contains(EOF_IDX as int),
            forall|h: Seq<Seq<Set<int>>>| #[trigger] lalr_closed(g, f, lr0@, h) ==> below2(la_view(la@), h),
        ensures
            la_ok(g, lr0@, la@),
            is_lalr(g, f, lr0@, la_view(la@)),
        decreases count2(lr0@) * tc - total2(la_view(la@)),
    {
        let ghost f0 = la_view(la@);
        proof {
            lemma_below2_refl(f0);
            lemma_total2_bound(f0, lr0@, g.token_count() as int);
        }
        let mut changed = false;
        let mut s: usize = 0;
        while s < n
            invariant
                g.wf(),
                dots_fit(g),
                lr0_fsm(g, lr0@),
                ctx.wf(g),
                f == ctx.0@,
                n == lr0@.len(),
                s <= n,
                la_ok(g, lr0@, la@),
                forall|h: Seq<Seq<Set<int>>>| #[trigger] lalr_closed(g, f, lr0@, h) ==> below2(la_view(la@), h),
                below2(f0, la_view(la@)),
                changed == (la_view(la@) != f0),
                !changed ==> forall|s2: int, k: int, k2: int|
                    0 <= s2 < s && 0 <= k < lr0@[s2].closure@.len() && 0 <= k2 < lr0@[s2].closure@.len()
                        ==> #[trigger] spawn_ok(g, f, lr0@, f0, s2, k, k2),
                !changed ==> forall|s2: int, k: int, e: int, k2: int|
                    0 <= s2 < s && 0 <= k < lr0@[s2].closure@.len() && 0 <= e < lr0@[s2].link@.len()
                        && 0 <= k2 < lr0@[lr0@[s2].link@[e].1 as int].closure@.len() ==> #[trigger] goto_ok(g, lr0@, f0, s2, k, e, k2),
            decreases n - s,
        {
            let m = lr0[s].closure.len();
            let mut k: usize = 0;
            while k < m
                invariant
                    g.wf(),
                    dots_fit(g),
                    lr0_fsm(g, lr0@),
                    ctx.wf(g),
                    f == ctx.0@,
                    n == lr0@.len(),
                    s < n,
                    m == lr0@[s as int].closure@.len(),
                    k <= m,
                    la_ok(g, lr0@, la@),
                    forall|h: Seq<Seq<Set<int>>>| #[trigger] lalr_closed(g, f, lr0@, h) ==> below2(la_view(la@), h),
                    below2(f0, la_view(la@)),
                    changed == (la_view(la@) != f0),
                    !changed ==> forall|s2: int, kk: int, k2: int|
                        (0 <= s2 < s && 0 <= kk < lr0@[s2].closure@.len() || s2 == s && 0 <= kk < k) && 0 <= k2 < lr0@[s2].closure@.len()
                            ==> #[trigger] spawn_ok(g, f, lr0@, f0, s2, kk, k2),
                    !changed ==> forall|s2: int, kk: int, e: int, k2: int|
                        (0 <= s2 < s && 0 <= kk < lr0@[s2].closure@.len() || s2 == s && 0 <= kk < k) && 0 <= e < lr0@[s2].link@.len()
                            && 0 <= k2 < lr0@[lr0@[s2].link@[e].1 as int].closure@.len() ==> #[trigger] goto_ok(g, lr0@, f0, s2, kk, e, k2),
                decreases m - k,
            {
                let ghost cur = la_view(la@);
                let c = lalr_step(&mut la, lr0, &ctx, g, s, k);
                proof {
                    lemma_grow_step(f0, cur, la_view(la@));
                    if !changed && !c {
                        assert(cur == f0);
                    }
                }
                changed = changed || c;
                k = k + 1;
            }
            s = s + 1;
        }
        if !changed {
            proof {
                assert(la_view(la@) == f0);
                assert(la_shape(lr0@, f0)) by {
                    assert forall|i: int| 0 <= i < f0.len() implies (#[trigger] f0[i]).len() == lr0@[i].closure@.len() by {
                        assert(la@[i]@.len() == lr0@[i].closure@.len());
                    }
                }
                assert forall|k: int| 0 <= k < lr0@[0].closure@.len() && lr0@[0].closure@[k] == start_item(g) implies #[trigger] f0[0][k].contains(EOF_IDX as int) by {
                    assert(sorted_items(lr0@[0].closure@));
                    let cl = lr0@[0].closure@;
                    if k != k0 {
                        if k < k0 {
                            assert(crate::lr0::item_lt(cl[k], cl[k0 as int]));
                        } else {
                            assert(crate::lr0::item_lt(cl[k0 as int], cl[k]));
                        }
                    }
                }
                assert(lalr_closed(g, f, lr0@, f0));
            }
            break;
        }
        proof {
            let v = la_view(la@);
            assert forall|i: int, k: int| 0 <= i < v.len() && 0 <= k < v[i].len() implies bounded(#[trigger] v[i][k], g.token_count() as int) by {
                assert(bounded(la@[i]@[k]@, g.token_count()));
            }
            assert(la_shape(lr0@, v)) by {
                assert forall|i: int| 0 <= i < v.len() implies (#[trigger] v[i]).len() == lr0@[i].closure@.len() by {
                    assert(la@[i]@.len() == lr0@[i].closure@.len());
                }
            }
            lemma_total2_bound(v, lr0@, g.token_count() as int);
            lemma_total2_mono(f0, v, g.token_count() as int);
            assert(sets_below(f0[0], v[0]));
            assert(f0[0][k0 as int] <= v[0][k0 as int]);
        }
    }
    let mut r: Vec<Lr1Node> = Vec::new();
    let mut s: usize = 0;
    while s < n
        invariant
            g.wf(),
            n == lr0@.len(),
            s <= n,
            la_ok(g, lr0@, la@),
            r@.len() == s,
            forall|i: int|
                0 <= i < s ==> {
                    &&& (#[trigger] r@[i]).link@ == lr0@[i].link@
                    &&& r@[i].closure@.len() == lr0@[i].closure@.len()
                    &&& forall|k: int|
                        0 <= k < r@[i].closure@.len() ==> (#[trigger] r@[i].closure@[k]).lr0 == lr0@[i].closure@[k]
                            && r@[i].closure@[k].lookahead@ == la_view(la@)[i][k]
                            && r@[i].closure@[k].lookahead.capacity() >= g.token_count()
                },
        decreases n - s,
    {
        let m = lr0[s].closure.len();
        let mut items: Vec<Lr1Item> = Vec::new();
        let mut k: usize = 0;
        while k < m
            invariant
                g.wf(),
                n == lr0@.len(),
                s < n,
                m == lr0@[s as int].closure@.len(),
                la_ok(g, lr0@, la@),
                k <= m,
                items@.len() == k,
                forall|j: int|
                    0 <= j < k ==> (#[trigger] items@[j]).lr0 == lr0@[s as int].closure@[j] && items@[j].lookahead@ == la_view(la@)[s as int][j]
                        && items@[j].lookahead.capacity() >= g.token_count(),
            decreases m - k,
        {
            let la_k = la[s][k].copied();
            items.push(Lr1Item { lr0: lr0[s].closure[k], lookahead: la_k });
            k = k + 1;
        }
        r.push(Lr1Node { closure: items, link: copy_links(&lr0[s].link) });
        s = s + 1;
    }
    proof {
        assert(lookaheads(r@) =~= la_view(la@)) by {
            assert forall|i: int| 0 <= i < r@.len() implies #[trigger] lookaheads(r@)[i] == la_view(la@)[i] by {
                assert(lookaheads(r@)[i] =~= la_view(la@)[i]);
            }
        }
        assert forall|f2: Seq<Set<int>>| #[trigger] is_first(g, f2) implies is_lalr(g, f2, lr0@, lookaheads(r@)) by {
            lemma_first_unique(g, f, f2);
        }
    }
    r
}

} // verus!
