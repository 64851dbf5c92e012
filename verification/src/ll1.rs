use vstd::prelude::*;
use vstd::set_lib::{set_int_range, lemma_int_range, lemma_len_subset};
use crate::bitset::BitSet;
use crate::grammar::{Grammar, EPS_IDX, EOF_IDX};
use crate::collections::prod_vec_as_slice;
use crate::grammar::slice_subrange;

verus! {

/// Every element of `s` lies in `[0, n)`.
pub open spec fn bounded(s: Set<int>, n: int) -> bool {
    forall|x: int| #[trigger] s.contains(x) ==> 0 <= x < n
}

/// The sets that the bit sets hold.
pub open spec fn views(v: Seq<BitSet>) -> Seq<Set<int>> {
    v.map_values(|b: BitSet| b@)
}

/// One bit set per non-term, each able to hold every token and holding only tokens.
pub open spec fn sets_ok(g: &Grammar, v: Seq<BitSet>) -> bool {
    &&& v.len() == g.nt@.len()
    &&& forall|i: int| 0 <= i < v.len() ==> (#[trigger] v[i]).capacity() >= g.token_count() && v[i].capacity() < g.token_count() + 64 && bounded(v[i]@, g.token_count())
}

/// Every token of `w` is a token of `g`.
pub open spec fn tokens_ok(g: &Grammar, w: Seq<u32>) -> bool {
    forall|k: int| 0 <= k < w.len() ==> #[trigger] w[k] < g.token_count()
}

/// The FIRST set of the string `w`, where `f[i]` is taken as the FIRST set of non-term `i`:
/// the terms that can begin `w`, and `EPS_IDX` when all of `w` can vanish.
pub open spec fn string_first(g: &Grammar, f: Seq<Set<int>>, w: Seq<u32>) -> Set<int>
    decreases w.len(),
{
    if w.len() == 0 {
        set![EPS_IDX as int]
    } else if w[0] >= g.terms@.len() {
        let s = f[w[0] - g.terms@.len()];
        if s.contains(EPS_IDX as int) {
            s.remove(EPS_IDX as int).union(string_first(g, f, w.drop_first()))
        } else {
            s.remove(EPS_IDX as int)
        }
    } else {
        set![w[0] as int]
    }
}

/// `f` holds, for each production, the FIRST set of its right-hand side in that of its non-term.
pub open spec fn first_closed(g: &Grammar, f: Seq<Set<int>>) -> bool {
    &&& f.len() == g.nt@.len()
    &&& forall|p: int| 0 <= p < g.prod@.len() ==> string_first(g, f, #[trigger] g.rhs(p)) <= f[g.prod@[p].lhs as int]
}

pub open spec fn sets_below(f: Seq<Set<int>>, h: Seq<Set<int>>) -> bool {
    f.len() == h.len() && forall|i: int| 0 <= i < f.len() ==> #[trigger] f[i] <= h[i]
}

/// `f` is the FIRST sets of the non-terms of `g`: the least assignment closed under the
/// productions.
pub open spec fn is_first(g: &Grammar, f: Seq<Set<int>>) -> bool {
    &&& first_closed(g, f)
    &&& forall|h: Seq<Set<int>>| #[trigger] first_closed(g, h) ==> sets_below(f, h)
}

/// The FIRST sets are unique.
pub proof fn lemma_first_unique(g: &Grammar, f1: Seq<Set<int>>, f2: Seq<Set<int>>)
    requires
        is_first(g, f1),
        is_first(g, f2),
    ensures
        f1 == f2,
{
    assert(sets_below(f1, f2));
    assert(sets_below(f2, f1));
    assert forall|i: int| 0 <= i < f1.len() implies f1[i] == f2[i] by {
        assert(f1[i] <= f2[i]);
        assert(f2[i] <= f1[i]);
        assert(f1[i] =~= f2[i]);
    }
    assert(f1 =~= f2);
}

/// The sum of the sizes of the sets.
pub open spec fn total(f: Seq<Set<int>>) -> int
    decreases f.len(),
{
    if f.len() == 0 {
        0
    } else {
        total(f.drop_last()) + f.last().len()
    }
}

pub proof fn lemma_total_update(f: Seq<Set<int>>, i: int, s: Set<int>)
    requires
        0 <= i < f.len(),
    ensures
        total(f.update(i, s)) == total(f) - f[i].len() + s.len(),
    decreases f.len(),
{
    if i == f.len() - 1 {
        assert(f.update(i, s).drop_last() =~= f.drop_last());
    } else {
        lemma_total_update(f.drop_last(), i, s);
        assert(f.update(i, s).drop_last() =~= f.drop_last().update(i, s));
    }
}

pub proof fn lemma_bounded_len(s: Set<int>, n: int)
    requires
        bounded(s, n),
        n >= 0,
    ensures
        s.finite(),
        s.len() <= n,
{
    lemma_int_range(0, n);
    assert(s <= set_int_range(0, n));
    vstd::set_lib::lemma_set_subset_finite(set_int_range(0, n), s);
    lemma_len_subset(s, set_int_range(0, n));
}

pub proof fn lemma_total_bound(f: Seq<Set<int>>, n: int)
    requires
        n >= 0,
        forall|i: int| 0 <= i < f.len() ==> bounded(#[trigger] f[i], n),
    ensures
        0 <= total(f) <= f.len() * n,
    decreases f.len(),
{
    if f.len() > 0 {
        lemma_total_bound(f.drop_last(), n);
        lemma_bounded_len(f.last(), n);
        assert((f.len() - 1) * n + n == f.len() * n) by (nonlinear_arith);
    }
}

pub proof fn lemma_strict_grow(a: Set<int>, b: Set<int>)
    requires
        a <= b,
        a != b,
        b.finite(),
    ensures
        a.len() < b.len(),
{
    if forall|x: int| b.contains(x) ==> a.contains(x) {
        assert(a =~= b);
    }
    let x = choose|x: int| b.contains(x) && !a.contains(x);
    assert(a <= b.remove(x));
    vstd::set_lib::lemma_set_subset_finite(b, a);
    lemma_len_subset(a, b.remove(x));
}

/// The FIRST set of a string grows with the sets it is computed from.
pub proof fn lemma_string_first_mono(g: &Grammar, f: Seq<Set<int>>, h: Seq<Set<int>>, w: Seq<u32>)
    requires
        sets_below(f, h),
        f.len() == g.nt@.len(),
        tokens_ok(g, w),
    ensures
        string_first(g, f, w) <= string_first(g, h, w),
    decreases w.len(),
{
    if w.len() > 0 && w[0] >= g.terms@.len() {
        let k = w[0] - g.terms@.len();
        assert(f[k] <= h[k]);
        assert(tokens_ok(g, w.drop_first())) by {
            assert forall|j: int| 0 <= j < w.drop_first().len() implies #[trigger] w.drop_first()[j] < g.token_count() by {
                assert(w.drop_first()[j] == w[j + 1]);
            }
        }
        lemma_string_first_mono(g, f, h, w.drop_first());
    }
}

/// The FIRST set of a string of tokens holds only tokens.
pub proof fn lemma_string_first_bounded(g: &Grammar, f: Seq<Set<int>>, w: Seq<u32>)
    requires
        g.wf(),
        f.len() == g.nt@.len(),
        forall|i: int| 0 <= i < f.len() ==> bounded(#[trigger] f[i], g.token_count()),
        tokens_ok(g, w),
    ensures
        bounded(string_first(g, f, w), g.token_count()),
    decreases w.len(),
{
    if w.len() > 0 && w[0] >= g.terms@.len() {
        assert(tokens_ok(g, w.drop_first())) by {
            assert forall|j: int| 0 <= j < w.drop_first().len() implies #[trigger] w.drop_first()[j] < g.token_count() by {
                assert(w.drop_first()[j] == w[j + 1]);
            }
        }
        lemma_string_first_bounded(g, f, w.drop_first());
        assert(bounded(f[w[0] - g.terms@.len()], g.token_count()));
    }
}

proof fn lemma_skip_step(w: Seq<u32>, i: int)
    requires
        0 <= i < w.len(),
    ensures
        w.skip(i).len() > 0,
        w.skip(i)[0] == w[i],
        w.skip(i).drop_first() == w.skip(i + 1),
{
    assert(w.skip(i).drop_first() =~= w.skip(i + 1));
}

/// The FIRST set of `string`, with `sets` taken as the FIRST sets of the non-terms.
pub fn string_first_of(sets: &Vec<BitSet>, string: &[u32], g: &Grammar) -> (r: BitSet)
    requires
        g.wf(),
        sets_ok(g, sets@),
        tokens_ok(g, string@),
    ensures
        r.capacity() >= g.token_count(),
        r@ == string_first(g, views(sets@), string@),
{
    let ghost f = views(sets@);
    let tc = g.token_num() as u32;
    let mut ret = BitSet::new(tc);
    assert(string@.skip(0) =~= string@);
    assert(ret@.union(string_first(g, f, string@)) =~= string_first(g, f, string@));
    let mut i: usize = 0;
    while i < string.len()
        invariant
            g.wf(),
            sets_ok(g, sets@),
            f == views(sets@),
            tokens_ok(g, string@),
            tc == g.token_count(),
            i <= string@.len(),
            ret.capacity() >= g.token_count(),
            bounded(ret@, g.token_count()),
            !ret@.contains(EPS_IDX as int),
            string_first(g, f, string@) == ret@.union(string_first(g, f, string@.skip(i as int))),
        decreases string@.len() - i,
    {
        let ch = string[i];
        proof {
            lemma_skip_step(string@, i as int);
            assert(string@[i as int] == ch);
        }
        if (ch as usize) >= g.terms.len() {
            let k = ch as usize - g.terms.len();
            let ghost old_ret = ret@;
            assert(sets@[k as int]@ == f[k as int]);
            assert(bounded(f[k as int], g.token_count()));
            ret.or(&sets[k]);
            ret.clear(EPS_IDX as u32);
            assert(ret@ =~= old_ret.union(f[k as int].remove(EPS_IDX as int))) by {
                assert forall|x: int| f[k as int].contains(x) implies x < ret.capacity() by {}
            }
            if !sets[k].test(EPS_IDX as u32) {
                proof {
                    assert(string_first(g, f, string@.skip(i as int)) == f[k as int].remove(EPS_IDX as int));
                    assert(ret@.union(string_first(g, f, string@.skip(i as int))) =~= ret@);
                }
                return ret;
            }
            proof {
                assert(ret@.union(string_first(g, f, string@.skip(i + 1))) =~= old_ret.union(string_first(g, f, string@.skip(i as int))));
            }
        } else {
            let ghost old_ret = ret@;
            ret.set(ch);
            proof {
                assert(string_first(g, f, string@.skip(i as int)) == set![ch as int]);
                assert(ret@.union(string_first(g, f, string@.skip(i as int))) =~= ret@);
            }
            return ret;
        }
        i = i + 1;
    }
    let ghost old_ret = ret@;
    ret.set(EPS_IDX as u32);
    proof {
        assert(string@.skip(i as int) =~= Seq::<u32>::empty());
        assert(ret@ =~= old_ret.union(set![EPS_IDX as int]));
    }
    ret
}

/// The FIRST sets of the non-terms of a grammar, one bit set per non-term.
pub struct First {
    pub bitsets: Vec<BitSet>,
}

impl First {
    pub open spec fn view(&self) -> Seq<Set<int>> {
        views(self.bitsets@)
    }

    pub open spec fn wf(&self, g: &Grammar) -> bool {
        sets_ok(g, self.bitsets@)
    }

    /// Computes the FIRST sets of `g`, repeating passes over the productions until none grows.
    pub fn new(g: &Grammar) -> (r: First)
        requires
            g.wf(),
        ensures
            r.wf(g),
            is_first(g, r@),
    {
        let nt_num = g.nt.len();
        let tc = g.token_num() as u32;
        let mut first: Vec<BitSet> = Vec::new();
        let mut i: usize = 0;
        while i < nt_num
            invariant
                g.wf(),
                nt_num == g.nt@.len(),
                tc == g.token_count(),
                i <= nt_num,
                first@.len() == i,
                forall|k: int| 0 <= k < i ==> (#[trigger] first@[k]).capacity() >= g.token_count() && first@[k].capacity() < g.token_count() + 64 && first@[k]@ == Set::<int>::empty(),
            decreases nt_num - i,
        {
            first.push(BitSet::new(tc));
            i = i + 1;
        }
        proof {
            assert forall|h: Seq<Set<int>>| #[trigger] first_closed(g, h) implies sets_below(views(first@), h) by {}
        }
        loop
            invariant
                g.wf(),
                nt_num == g.nt@.len(),
                tc == g.token_count(),
                sets_ok(g, first@),
                forall|h: Seq<Set<int>>| #[trigger] first_closed(g, h) ==> sets_below(views(first@), h),
            ensures
                sets_ok(g, first@),
                forall|h: Seq<Set<int>>| #[trigger] first_closed(g, h) ==> sets_below(views(first@), h),
                first_closed(g, views(first@)),
            decreases nt_num * tc - total(views(first@)),
        {
            let ghost f0 = views(first@);
            proof {
                lemma_total_bound(f0, g.token_count());
            }
            let mut changed = false;
            let mut i: usize = 0;
            while i < nt_num
                invariant
                    g.wf(),
                    nt_num == g.nt@.len(),
                    tc == g.token_count(),
                    i <= nt_num,
                    sets_ok(g, first@),
                    forall|h: Seq<Set<int>>| #[trigger] first_closed(g, h) ==> sets_below(views(first@), h),
                    total(views(first@)) >= total(f0),
                    changed ==> total(views(first@)) > total(f0),
                    !changed ==> views(first@) == f0,
                    !changed ==> forall|pp: int|
                        0 <= pp < (if i < nt_num { g.nt@[i as int].start_idx as int } else { g.prod@.len() as int })
                            ==> string_first(g, f0, #[trigger] g.rhs(pp)) <= f0[g.prod@[pp].lhs as int],
                decreases nt_num - i,
            {
                let start = g.nt[i].start_idx;
                let end = if i + 1 < nt_num { g.nt[i + 1].start_idx } else { g.prod.len() };
                assert(g.nt@[i as int].start_idx <= g.end_idx(i as int));
                assert(g.end_idx(i as int) <= g.prod@.len());
                let mut p = start;
                while p < end
                    invariant
                        g.wf(),
                        nt_num == g.nt@.len(),
                        tc == g.token_count(),
                        i < nt_num,
                        start == g.nt@[i as int].start_idx,
                        end == g.end_idx(i as int),
                        end <= g.prod@.len(),
                        start <= p <= end,
                        sets_ok(g, first@),
                        forall|h: Seq<Set<int>>| #[trigger] first_closed(g, h) ==> sets_below(views(first@), h),
                        total(views(first@)) >= total(f0),
                        changed ==> total(views(first@)) > total(f0),
                        !changed ==> views(first@) == f0,
                        !changed ==> forall|pp: int| 0 <= pp < p ==> string_first(g, f0, #[trigger] g.rhs(pp)) <= f0[g.prod@[pp].lhs as int],
                    decreases end - p,
                {
                    let ghost fb = views(first@);
                    let rhs = prod_vec_as_slice(&g.prod[p].rhs);
                    proof {
                        assert(g.prod@[p as int].id == p);
                        assert(tokens_ok(g, rhs@)) by {
                            assert forall|k: int| 0 <= k < rhs@.len() implies #[trigger] rhs@[k] < g.token_count() by {
                                assert(g.rhs(p as int)[k] == rhs@[k]);
                            }
                        }
                        assert(g.prod@[p as int].lhs == i);
                    }
                    let tmp = string_first_of(&first, rhs, g);
                    proof {
                        lemma_string_first_bounded(g, fb, rhs@);
                    }
                    let c = first[i].or(&tmp);
                    proof {
                        let fa = views(first@);
                        assert(fa[i as int] =~= fb[i as int].union(tmp@)) by {
                            assert(first@[i as int].capacity() >= g.token_count());
                        }
                        assert(fa =~= fb.update(i as int, fb[i as int].union(tmp@)));
                        lemma_total_update(fb, i as int, fa[i as int]);
                        lemma_bounded_len(fa[i as int], g.token_count());
                        vstd::set_lib::lemma_len_subset(fb[i as int], fa[i as int]);
                        if c {
                            lemma_strict_grow(fb[i as int], fa[i as int]);
                        }
                        assert forall|k: int| 0 <= k < first@.len() implies (#[trigger] first@[k]).capacity() >= g.token_count() && first@[k].capacity() < g.token_count() + 64 && bounded(first@[k]@, g.token_count()) by {
                            if k == i {
                                assert(first@[k]@ == fa[k]);
                            } else {
                                assert(first@[k]@ == fb[k]);
                            }
                        }
                        assert forall|h: Seq<Set<int>>| #[trigger] first_closed(g, h) implies sets_below(fa, h) by {
                            assert(sets_below(fb, h));
                            lemma_string_first_mono(g, fb, h, rhs@);
                            assert(string_first(g, h, g.rhs(p as int)) <= h[g.prod@[p as int].lhs as int]);
                        }
                        if !changed && !c {
                            assert(fa == fb);
                            assert(string_first(g, f0, g.rhs(p as int)) <= f0[i as int]);
                            assert forall|pp: int| 0 <= pp < p + 1 implies string_first(g, f0, #[trigger] g.rhs(pp)) <= f0[g.prod@[pp].lhs as int] by {
                                if pp == p {
                                    assert(g.prod@[pp].lhs == i);
                                }
                            }
                        }
                    }
                    changed = changed || c;
                    p = p + 1;
                }
                i = i + 1;
            }
            if !changed {
                proof {
                    assert forall|pp: int| 0 <= pp < g.prod@.len() implies string_first(g, views(first@), #[trigger] g.rhs(pp)) <= views(first@)[g.prod@[pp].lhs as int] by {}
                }
                break;
            }
            proof {
                lemma_total_bound(views(first@), g.token_count());
                assert(views(first@).len() == nt_num);
            }
        }
        First { bitsets: first }
    }

    /// The FIRST set of the string `string`.
    pub fn first(&self, string: &[u32], g: &Grammar) -> (r: BitSet)
        requires
            g.wf(),
            self.wf(g),
            tokens_ok(g, string@),
        ensures
            r.capacity() >= g.token_count(),
            r@ == string_first(g, self@, string@),
    {
        string_first_of(&self.bitsets, string, g)
    }

    /// The FIRST set of non-term `i`.
    pub fn get(&self, i: usize) -> (r: &BitSet)
        requires
            i < self.bitsets@.len(),
        ensures
            r@ == self@[i as int],
            *r == self.bitsets@[i as int],
    {
        &self.bitsets[i]
    }
}


/// For the occurrence of a non-term at position `k` of production `p`, followed by the string
/// `β`: `fo` of that non-term holds FIRST(β) and, when β can vanish, `fo` of the production's
/// own non-term.
pub open spec fn follow_step(g: &Grammar, f: Seq<Set<int>>, fo: Seq<Set<int>>, p: int, k: int) -> bool {
    let c = g.rhs(p)[k] - g.terms@.len();
    let sf = string_first(g, f, g.rhs(p).skip(k + 1));
    &&& sf <= fo[c]
    &&& sf.contains(EPS_IDX as int) ==> fo[g.prod@[p].lhs as int] <= fo[c]
}

/// `fo` is closed under the rules of FOLLOW sets, where `f` gives the FIRST sets; `EOF_IDX`
/// follows the start non-term, which is the last one.
pub open spec fn follow_closed(g: &Grammar, f: Seq<Set<int>>, fo: Seq<Set<int>>) -> bool {
    &&& fo.len() == g.nt@.len()
    &&& fo[g.nt@.len() - 1].contains(EOF_IDX as int)
    &&& forall|p: int, k: int|
        0 <= p < g.prod@.len() && 0 <= k < g.rhs(p).len() && g.rhs(p)[k] >= g.terms@.len() ==> #[trigger] follow_step(g, f, fo, p, k)
}

/// `fo` is the least assignment closed under the rules of FOLLOW sets.
pub open spec fn is_follow_base(g: &Grammar, f: Seq<Set<int>>, fo: Seq<Set<int>>) -> bool {
    &&& follow_closed(g, f, fo)
    &&& forall|h: Seq<Set<int>>| #[trigger] follow_closed(g, f, h) ==> sets_below(fo, h)
}

/// `r` is the FOLLOW sets: the least closed assignment, without `EPS_IDX`.
pub open spec fn is_follow(g: &Grammar, f: Seq<Set<int>>, r: Seq<Set<int>>) -> bool {
    exists|fo: Seq<Set<int>>|
        #[trigger] is_follow_base(g, f, fo) && r.len() == fo.len() && forall|i: int| 0 <= i < r.len() ==> #[trigger] r[i] == fo[i].remove(EPS_IDX as int)
}

pub proof fn lemma_total_mono(a: Seq<Set<int>>, b: Seq<Set<int>>, n: int)
    requires
        sets_below(a, b),
        n >= 0,
        forall|i: int| 0 <= i < b.len() ==> bounded(#[trigger] b[i], n),
    ensures
        total(a) <= total(b),
        a != b ==> total(a) < total(b),
    decreases a.len(),
{
    if a.len() > 0 {
        let a2 = a.drop_last();
        let b2 = b.drop_last();
        assert(sets_below(a2, b2)) by {
            assert forall|i: int| 0 <= i < a2.len() implies #[trigger] a2[i] <= b2[i] by {
                assert(a[i] <= b[i]);
            }
        }
        assert forall|i: int| 0 <= i < b2.len() implies bounded(#[trigger] b2[i], n) by {
            assert(bounded(b[i], n));
        }
        lemma_total_mono(a2, b2, n);
        assert(bounded(b[b.len() - 1], n));
        lemma_bounded_len(b.last(), n);
        assert(a[a.len() - 1] <= b[b.len() - 1]);
        vstd::set_lib::lemma_len_subset(a.last(), b.last());
        assert(total(a) == total(a2) + a.last().len());
        assert(total(b) == total(b2) + b.last().len());
        if a != b {
            if a.last() == b.last() {
                if a2 == b2 {
                    assert(a =~= b) by {
                        assert forall|i: int| 0 <= i < a.len() implies a[i] == b[i] by {
                            if i < a.len() - 1 {
                                assert(a[i] == a2[i]);
                                assert(b[i] == b2[i]);
                            }
                        }
                    }
                }
            } else {
                lemma_strict_grow(a.last(), b.last());
            }
        }
    } else {
        assert(a =~= b);
    }
}

proof fn lemma_below_trans(a: Seq<Set<int>>, b: Seq<Set<int>>, c: Seq<Set<int>>)
    requires
        sets_below(a, b),
        sets_below(b, c),
    ensures
        sets_below(a, c),
{
    assert forall|i: int| 0 <= i < a.len() implies #[trigger] a[i] <= c[i] by {
        assert(a[i] <= b[i]);
        assert(b[i] <= c[i]);
    }
}

proof fn lemma_below_antisym(a: Seq<Set<int>>, b: Seq<Set<int>>)
    requires
        sets_below(a, b),
        sets_below(b, a),
    ensures
        a == b,
{
    assert forall|i: int| 0 <= i < a.len() implies a[i] == b[i] by {
        assert(a[i] <= b[i]);
        assert(b[i] <= a[i]);
        assert(a[i] =~= b[i]);
    }
    assert(a =~= b);
}

/// One step of the FOLLOW computation over production `p`: for each non-term in its
/// right-hand side, adds what may follow it.
fn follow_prod(follow: &mut Vec<BitSet>, first: &First, g: &Grammar, p: usize) -> (changed: bool)
    requires
        g.wf(),
        first.wf(g),
        sets_ok(g, old(follow)@),
        p < g.prod@.len(),
        forall|h: Seq<Set<int>>| #[trigger] follow_closed(g, first@, h) ==> sets_below(views(old(follow)@), h),
    ensures
        sets_ok(g, final(follow)@),
        forall|h: Seq<Set<int>>| #[trigger] follow_closed(g, first@, h) ==> sets_below(views(final(follow)@), h),
        sets_below(views(old(follow)@), views(final(follow)@)),
        changed == (views(final(follow)@) != views(old(follow)@)),
        !changed ==> forall|k: int|
            0 <= k < g.rhs(p as int).len() && g.rhs(p as int)[k] >= g.terms@.len() ==> #[trigger] follow_step(g, first@, views(old(follow)@), p as int, k),
{
    let ghost f0 = views(follow@);
    let ghost fs = first@;
    let rhs = prod_vec_as_slice(&g.prod[p].rhs);
    let lhs = g.prod[p].lhs as usize;
    proof {
        assert(g.prod@[p as int].id == p);
        assert(tokens_ok(g, rhs@)) by {
            assert forall|k: int| 0 <= k < rhs@.len() implies #[trigger] rhs@[k] < g.token_count() by {
                assert(g.rhs(p as int)[k] == rhs@[k]);
            }
        }
        assert(sets_below(f0, f0));
    }
    let mut changed = false;
    let mut k: usize = 0;
    while k < rhs.len()
        invariant
            g.wf(),
            first.wf(g),
            fs == first@,
            p < g.prod@.len(),
            rhs@ == g.rhs(p as int),
            tokens_ok(g, rhs@),
            lhs == g.prod@[p as int].lhs,
            lhs < g.nt@.len(),
            k <= rhs@.len(),
            sets_ok(g, follow@),
            forall|h: Seq<Set<int>>| #[trigger] follow_closed(g, fs, h) ==> sets_below(views(follow@), h),
            sets_below(f0, views(follow@)),
            changed == (views(follow@) != f0),
            !changed ==> forall|kk: int|
                0 <= kk < k && g.rhs(p as int)[kk] >= g.terms@.len() ==> #[trigger] follow_step(g, fs, f0, p as int, kk),
        decreases rhs@.len() - k,
    {
        let ch = rhs[k];
        if (ch as usize) >= g.terms.len() {
            let c = ch as usize - g.terms.len();
            let remain = slice_subrange(rhs, k + 1, rhs.len());
            proof {
                assert(remain@ =~= rhs@.skip(k + 1));
                assert(tokens_ok(g, remain@)) by {
                    assert forall|j: int| 0 <= j < remain@.len() implies #[trigger] remain@[j] < g.token_count() by {
                        assert(remain@[j] == rhs@[k + 1 + j]);
                    }
                }
            }
            let rf = first.first(remain, g);
            proof {
                lemma_string_first_bounded(g, fs, remain@);
            }
            let ghost fa = views(follow@);
            let c1 = follow[c].or(&rf);
            let ghost fb = views(follow@);
            proof {
                assert(fb[c as int] =~= fa[c as int].union(rf@)) by {
                    assert(follow@[c as int].capacity() >= g.token_count());
                }
                assert(fb =~= fa.update(c as int, fa[c as int].union(rf@)));
                assert(sets_below(fa, fb));
                assert forall|i: int| 0 <= i < follow@.len() implies (#[trigger] follow@[i]).capacity() >= g.token_count() && follow@[i].capacity() < g.token_count() + 64 && bounded(follow@[i]@, g.token_count()) by {
                    assert(follow@[i]@ == fb[i]);
                }
                assert forall|h: Seq<Set<int>>| #[trigger] follow_closed(g, fs, h) implies sets_below(fb, h) by {
                    assert(sets_below(fa, h));
                    assert(follow_step(g, fs, h, p as int, k as int));
                }
            }
            let nullable = rf.test(EPS_IDX as u32);
            let mut c2 = false;
            if nullable {
                let li = follow[lhs].copied();
                c2 = follow[c].or(&li);
                proof {
                    let fc = views(follow@);
                    assert(fc[c as int] =~= fb[c as int].union(fb[lhs as int])) by {
                        assert(follow@[c as int].capacity() >= g.token_count());
                    }
                    assert(fc =~= fb.update(c as int, fb[c as int].union(fb[lhs as int])));
                    assert(sets_below(fb, fc));
                    assert forall|i: int| 0 <= i < follow@.len() implies (#[trigger] follow@[i]).capacity() >= g.token_count() && follow@[i].capacity() < g.token_count() + 64 && bounded(follow@[i]@, g.token_count()) by {
                        assert(follow@[i]@ == fc[i]);
                    }
                    assert forall|h: Seq<Set<int>>| #[trigger] follow_closed(g, fs, h) implies sets_below(fc, h) by {
                        assert(sets_below(fb, h));
                        assert(follow_step(g, fs, h, p as int, k as int));
                    }
                }
            }
            proof {
                let fz = views(follow@);
                lemma_below_trans(f0, fa, fb);
                lemma_below_trans(f0, fb, fz);
                if !c1 && !c2 {
                    assert(fz == fa);
                    if !changed {
                        assert(follow_step(g, fs, f0, p as int, k as int));
                    }
                } else {
                    if fz == f0 {
                        lemma_below_trans(fa, fb, fz);
                        lemma_below_antisym(f0, fa);
                        if c1 {
                            lemma_below_antisym(fa, fb);
                        } else {
                            lemma_below_antisym(fb, fz);
                        }
                    }
                }
                if changed {
                    if fz == f0 {
                        lemma_below_trans(fa, fb, fz);
                        lemma_below_antisym(f0, fa);
                    }
                }
            }
            changed = changed || c1 || c2;
        }
        k = k + 1;
    }
    changed
}

/// The FOLLOW sets of the non-terms of a grammar, one bit set per non-term.
pub struct Follow {
    pub bitsets: Vec<BitSet>,
}

impl Follow {
    pub open spec fn view(&self) -> Seq<Set<int>> {
        views(self.bitsets@)
    }

    pub open spec fn wf(&self, g: &Grammar) -> bool {
        sets_ok(g, self.bitsets@)
    }

    /// Computes the FOLLOW sets of `g` from its FIRST sets `first`.
    pub fn new(g: &Grammar, first: &First) -> (r: Follow)
        requires
            g.wf(),
            first.wf(g),
        ensures
            r.wf(g),
            is_follow(g, first@, r@),
    {
        let nt_num = g.nt.len();
        let tc = g.token_num() as u32;
        let mut follow: Vec<BitSet> = Vec::new();
        let mut i: usize = 0;
        while i < nt_num
            invariant
                g.wf(),
                nt_num == g.nt@.len(),
                tc == g.token_count(),
                i <= nt_num,
                follow@.len() == i,
                forall|k: int| 0 <= k < i ==> (#[trigger] follow@[k]).capacity() >= g.token_count() && follow@[k].capacity() < g.token_count() + 64 && follow@[k]@ == Set::<int>::empty(),
            decreases nt_num - i,
        {
            follow.push(BitSet::new(tc));
            i = i + 1;
        }
        follow[nt_num - 1].set(EOF_IDX as u32);
        proof {
            assert forall|k: int| 0 <= k < follow@.len() implies (#[trigger] follow@[k]).capacity() >= g.token_count() && follow@[k].capacity() < g.token_count() + 64 && bounded(follow@[k]@, g.token_count()) by {}
            assert forall|h: Seq<Set<int>>| #[trigger] follow_closed(g, first@, h) implies sets_below(views(follow@), h) by {
                assert forall|k: int| 0 <= k < follow@.len() implies #[trigger] views(follow@)[k] <= h[k] by {
                    if k == nt_num - 1 {
                        assert(views(follow@)[k] =~= set![EOF_IDX as int]);
                    }
                }
            }
        }
        loop
            invariant
                g.wf(),
                first.wf(g),
                nt_num == g.nt@.len(),
                tc == g.token_count(),
                sets_ok(g, follow@),
                views(follow@)[nt_num - 1].contains(EOF_IDX as int),
                forall|h: Seq<Set<int>>| #[trigger] follow_closed(g, first@, h) ==> sets_below(views(follow@), h),
            ensures
                sets_ok(g, follow@),
                is_follow_base(g, first@, views(follow@)),
            decreases nt_num * tc - total(views(follow@)),
        {
            let ghost f0 = views(follow@);
            proof {
                lemma_total_bound(f0, g.token_count());
            }
            let mut changed = false;
            let mut p: usize = 0;
            while p < g.prod.len()
                invariant
                    g.wf(),
                    first.wf(g),
                    nt_num == g.nt@.len(),
                    tc == g.token_count(),
                    p <= g.prod@.len(),
                    sets_ok(g, follow@),
                    forall|h: Seq<Set<int>>| #[trigger] follow_closed(g, first@, h) ==> sets_below(views(follow@), h),
                    sets_below(f0, views(follow@)),
                    changed == (views(follow@) != f0),
                    !changed ==> forall|pp: int, k: int|
                        0 <= pp < p && 0 <= k < g.rhs(pp).len() && g.rhs(pp)[k] >= g.terms@.len() ==> #[trigger] follow_step(g, first@, f0, pp, k),
                decreases g.prod@.len() - p,
            {
                let ghost fa = views(follow@);
                let c = follow_prod(&mut follow, first, g, p);
                proof {
                    lemma_below_trans(f0, fa, views(follow@));
                    if changed && views(follow@) == f0 {
                        lemma_below_antisym(f0, fa);
                    }
                    if !changed && !c {
                        assert(fa == f0);
                    }
                    if !changed && c {
                        assert(views(follow@) != f0);
                    }
                }
                changed = changed || c;
                p = p + 1;
            }
            if !changed {
                proof {
                    assert(views(follow@) == f0);
                    assert(f0[nt_num - 1].contains(EOF_IDX as int)) by {
                        assert(sets_below(f0, views(follow@)));
                    }
                    assert(follow_closed(g, first@, f0));
                }
                break;
            }
            proof {
                lemma_total_bound(views(follow@), g.token_count());
                lemma_total_mono(f0, views(follow@), g.token_count());
                assert(f0[nt_num - 1] <= views(follow@)[nt_num - 1]);
            }
        }
        let ghost base = views(follow@);
        let mut i: usize = 0;
        while i < nt_num
            invariant
                g.wf(),
                nt_num == g.nt@.len(),
                i <= nt_num,
                sets_ok(g, follow@),
                follow@.len() == base.len(),
                forall|k: int| 0 <= k < i ==> #[trigger] views(follow@)[k] == base[k].remove(EPS_IDX as int),
                forall|k: int| i <= k < nt_num ==> #[trigger] views(follow@)[k] == base[k],
            decreases nt_num - i,
        {
            let ghost before = views(follow@);
            follow[i].clear(EPS_IDX as u32);
            proof {
                assert(views(follow@) =~= before.update(i as int, before[i as int].remove(EPS_IDX as int)));
                assert forall|k: int| 0 <= k < follow@.len() implies (#[trigger] follow@[k]).capacity() >= g.token_count() && follow@[k].capacity() < g.token_count() + 64 && bounded(follow@[k]@, g.token_count()) by {}
            }
            i = i + 1;
        }
        let r = Follow { bitsets: follow };
        proof {
            assert(is_follow_base(g, first@, base));
            assert(r@.len() == base.len() && forall|k: int| 0 <= k < r@.len() ==> #[trigger] r@[k] == base[k].remove(EPS_IDX as int));
        }
        r
    }

    /// The FOLLOW set of non-term `i`.
    pub fn get(&self, i: usize) -> (r: &BitSet)
        requires
            i < self.bitsets@.len(),
        ensures
            r@ == self@[i as int],
            *r == self.bitsets@[i as int],
    {
        &self.bitsets[i]
    }
}


/// The prediction set of production `p`: the FIRST set of its right-hand side, where `EPS_IDX`
/// gives way to the FOLLOW set of its non-term.
pub open spec fn predict(g: &Grammar, f: Seq<Set<int>>, fo: Seq<Set<int>>, p: int) -> Set<int> {
    let s = string_first(g, f, g.rhs(p));
    if s.contains(EPS_IDX as int) {
        s.union(fo[g.prod@[p].lhs as int]).remove(EPS_IDX as int)
    } else {
        s
    }
}

/// The productions among `[lo, hi)` whose prediction set holds the token `t`, in order.
pub open spec fn predicting(g: &Grammar, f: Seq<Set<int>>, fo: Seq<Set<int>>, lo: int, hi: int, t: int) -> Seq<u32>
    decreases hi - lo,
{
    if hi <= lo {
        Seq::empty()
    } else {
        predicting(g, f, fo, lo, hi - 1, t) + (if predict(g, f, fo, hi - 1).contains(t) {
            seq![(hi - 1) as u32]
        } else {
            Seq::empty()
        })
    }
}

/// The LL(1) analysis of a grammar: its FIRST and FOLLOW sets, and its prediction table, where
/// `table[i][t]` lists, in order, the productions of non-term `i` that token `t` predicts
/// (more than one is a conflict, which the first of them wins).
pub struct LLCtx {
    pub first: First,
    pub follow: Follow,
    pub table: Vec<Vec<Vec<u32>>>,
}

impl LLCtx {
    /// The table is the prediction table of `g` over the sets `first` and `follow`.
    pub open spec fn table_ok(&self, g: &Grammar) -> bool {
        &&& self.table@.len() == g.nt@.len()
        &&& forall|i: int|
            0 <= i < g.nt@.len() ==> {
                &&& (#[trigger] self.table@[i])@.len() == g.token_count()
                &&& forall|t: int|
                    0 <= t < g.token_count() ==> (#[trigger] self.table@[i]@[t])@ == predicting(
                        g,
                        self.first@,
                        self.follow@,
                        g.nt@[i].start_idx as int,
                        g.end_idx(i),
                        t,
                    )
            }
    }

    /// The FIRST and FOLLOW sets of `g` and its LL(1) prediction table.
    pub fn new(g: &Grammar) -> (r: LLCtx)
        requires
            g.wf(),
        ensures
            r.first.wf(g),
            r.follow.wf(g),
            is_first(g, r.first@),
            is_follow(g, r.first@, r.follow@),
            r.table_ok(g),
    {
        let first = First::new(g);
        let follow = Follow::new(g, &first);
        let ghost f = first@;
        let ghost fo = follow@;
        let nt_num = g.nt.len();
        let tc = g.token_num();
        let mut table: Vec<Vec<Vec<u32>>> = Vec::new();
        let mut i: usize = 0;
        while i < nt_num
            invariant
                g.wf(),
                first.wf(g),
                follow.wf(g),
                f == first@,
                fo == follow@,
                nt_num == g.nt@.len(),
                tc == g.token_count(),
                i <= nt_num,
                table@.len() == i,
                forall|k: int|
                    0 <= k < i ==> {
                        &&& (#[trigger] table@[k])@.len() == tc
                        &&& forall|t: int|
                            0 <= t < tc ==> (#[trigger] table@[k]@[t])@ == predicting(g, f, fo, g.nt@[k].start_idx as int, g.end_idx(k), t)
                    },
            decreases nt_num - i,
        {
            let start = g.nt[i].start_idx;
            let end = if i + 1 < nt_num { g.nt[i + 1].start_idx } else { g.prod.len() };
            assert(g.nt@[i as int].start_idx <= g.end_idx(i as int));
            assert(g.end_idx(i as int) <= g.prod@.len());
            let mut row: Vec<Vec<u32>> = Vec::new();
            let mut t: usize = 0;
            while t < tc
                invariant
                    t <= tc,
                    row@.len() == t,
                    forall|k: int| 0 <= k < t ==> (#[trigger] row@[k])@ == Seq::<u32>::empty(),
                decreases tc - t,
            {
                row.push(Vec::new());
                t = t + 1;
            }
            proof {
                assert forall|k: int| 0 <= k < tc implies (#[trigger] row@[k])@ == predicting(g, f, fo, start as int, start as int, k) by {}
            }
            let mut p = start;
            while p < end
                invariant
                    g.wf(),
                    first.wf(g),
                    follow.wf(g),
                    f == first@,
                    fo == follow@,
                    nt_num == g.nt@.len(),
                    tc == g.token_count(),
                    i < nt_num,
                    start == g.nt@[i as int].start_idx,
                    end == g.end_idx(i as int),
                    end <= g.prod@.len(),
                    start <= p <= end,
                    row@.len() == tc,
                    forall|k: int| 0 <= k < tc ==> (#[trigger] row@[k])@ == predicting(g, f, fo, start as int, p as int, k),
                decreases end - p,
            {
                let rhs = prod_vec_as_slice(&g.prod[p].rhs);
                proof {
                    assert(g.prod@[p as int].id == p);
                    assert(g.prod@[p as int].lhs == i);
                    assert(tokens_ok(g, rhs@)) by {
                        assert forall|k: int| 0 <= k < rhs@.len() implies #[trigger] rhs@[k] < g.token_count() by {
                            assert(g.rhs(p as int)[k] == rhs@[k]);
                        }
                    }
                    lemma_string_first_bounded(g, f, rhs@);
                }
                let mut pred = first.first(rhs, g);
                if pred.test(EPS_IDX as u32) {
                    let ghost s0 = pred@;
                    pred.or(follow.get(i));
                    pred.clear(EPS_IDX as u32);
                    proof {
                        assert(bounded(fo[i as int], g.token_count()));
                        assert(pred@ =~= s0.union(fo[i as int]).remove(EPS_IDX as int)) by {
                            assert forall|x: int| fo[i as int].contains(x) implies x < pred.capacity() by {}
                        }
                    }
                }
                assert(pred@ == predict(g, f, fo, p as int));
                let mut t: usize = 0;
                while t < tc
                    invariant
                        g.wf(),
                        tc == g.token_count(),
                        pred.capacity() >= g.token_count(),
                        pred@ == predict(g, f, fo, p as int),
                        start <= p < end,
                        p < g.prod@.len(),
                        t <= tc,
                        row@.len() == tc,
                        forall|k: int| 0 <= k < t ==> (#[trigger] row@[k])@ == predicting(g, f, fo, start as int, p + 1, k),
                        forall|k: int| t <= k < tc ==> (#[trigger] row@[k])@ == predicting(g, f, fo, start as int, p as int, k),
                    decreases tc - t,
                {
                    if pred.test(t as u32) {
                        row[t].push(p as u32);
                    }
                    assert(row@[t as int]@ == predicting(g, f, fo, start as int, p + 1, t as int));
                    t = t + 1;
                }
                p = p + 1;
            }
            table.push(row);
            i = i + 1;
        }
        LLCtx { first, follow, table }
    }
}

} // verus!
