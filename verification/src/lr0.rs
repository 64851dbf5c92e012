use vstd::prelude::*;
use vstd::arithmetic::power2::pow2;
use vstd::set_lib::{set_int_range, lemma_int_range, lemma_len_subset};
use crate::grammar::{Grammar, Prod};
use crate::collections::{prod_vec_items, prod_vec_len, prod_vec_get};
use crate::counting::lemma_subsets_bound;

verus! {

/// An LR(0) item: production `prod_id` with the dot before its token `dot`.
#[derive(Clone, Copy, Debug, PartialEq, Eq, Structural)]
pub struct Lr0Item {
    pub prod_id: u32,
    pub dot: u32,
}

impl Lr0Item {
    /// A number that identifies the item and orders items by production, then by dot.
    pub fn unique_id(&self) -> (r: u64)
        ensures
            r == self.prod_id * 0x1_0000_0000 + self.dot,
    {
        let p = self.prod_id as u64;
        let d = self.dot as u64;
        assert((p << 32u64) | d == p * 0x1_0000_0000 + d) by (bit_vector)
            requires
                p < 0x1_0000_0000,
                d < 0x1_0000_0000,
        ;
        (p << 32u64) | d
    }
}

/// The order of items: by production, then by dot.
pub open spec fn item_lt(a: Lr0Item, b: Lr0Item) -> bool {
    a.prod_id < b.prod_id || (a.prod_id == b.prod_id && a.dot < b.dot)
}

pub open spec fn sorted_items(s: Seq<Lr0Item>) -> bool {
    forall|i: int, j: int| 0 <= i < j < s.len() ==> item_lt(#[trigger] s[i], #[trigger] s[j])
}

pub open spec fn valid_item(g: &Grammar, it: Lr0Item) -> bool {
    it.prod_id < g.prod@.len() && it.dot <= g.rhs(it.prod_id as int).len()
}

/// The production `p` (if any) whose non-term stands after the dot of `it`.
pub open spec fn expands(g: &Grammar, it: Lr0Item, p: int) -> bool {
    &&& 0 <= p < g.prod@.len()
    &&& it.dot < g.rhs(it.prod_id as int).len()
    &&& g.rhs(it.prod_id as int)[it.dot as int] == g.prod@[p].lhs + g.terms@.len()
}

/// The item of production `p` with the dot at its start.
pub open spec fn initial_item(p: int) -> Lr0Item {
    Lr0Item { prod_id: p as u32, dot: 0 }
}

/// A set of items that holds `B -> .γ` for every production of `B` whenever it holds an item
/// `A -> α.Bβ`.
pub open spec fn closed(g: &Grammar, s: Set<Lr0Item>) -> bool {
    forall|it: Lr0Item, p: int|
        #![trigger s.contains(it), g.prod@[p]]
        s.contains(it) && expands(g, it, p) ==> s.contains(initial_item(p as int))
}

/// `c` is the closure of `kernel`: the least closed set that holds it.
pub open spec fn is_closure(g: &Grammar, kernel: Set<Lr0Item>, c: Set<Lr0Item>) -> bool {
    &&& kernel <= c
    &&& closed(g, c)
    &&& forall|d: Set<Lr0Item>| #[trigger] closed(g, d) && kernel <= d ==> c <= d
}

/// The items whose dot can move over token `mov`, with the dot moved.
pub open spec fn advance(g: &Grammar, s: Set<Lr0Item>, mov: u32) -> Set<Lr0Item> {
    Set::new(
        |it: Lr0Item|
            it.dot > 0 && s.contains(Lr0Item { prod_id: it.prod_id, dot: (it.dot - 1) as u32 })
                && (it.dot - 1) < g.rhs(it.prod_id as int).len() && g.rhs(it.prod_id as int)[it.dot - 1]
                == mov,
    )
}

/// Every item of a grammar.
pub open spec fn item_universe(g: &Grammar) -> Set<Lr0Item> {
    Set::new(|it: Lr0Item| valid_item(g, it))
}

pub open spec fn item_of_index(i: int) -> Lr0Item {
    Lr0Item { prod_id: (i / 0x1_0000_0000) as u32, dot: (i % 0x1_0000_0000) as u32 }
}

pub proof fn lemma_universe_finite(g: &Grammar)
    ensures
        item_universe(g).finite(),
{
    let n = (g.prod@.len() * 0x1_0000_0000) as int;
    let r = set_int_range(0, n);
    lemma_int_range(0, n);
    let m = r.map(|i: int| item_of_index(i));
    r.lemma_map_finite(|i: int| item_of_index(i));
    assert forall|it: Lr0Item| #[trigger] item_universe(g).contains(it) implies m.contains(it) by {
        let i = it.prod_id * 0x1_0000_0000 + it.dot;
        assert(i / 0x1_0000_0000 == it.prod_id && i % 0x1_0000_0000 == it.dot) by (nonlinear_arith)
            requires
                i == it.prod_id * 0x1_0000_0000 + it.dot,
                it.dot < 0x1_0000_0000,
        ;
        assert(i < n) by (nonlinear_arith)
            requires
                i == it.prod_id * 0x1_0000_0000 + it.dot,
                it.dot < 0x1_0000_0000,
                it.prod_id < g.prod@.len(),
                n == g.prod@.len() * 0x1_0000_0000,
        ;
        assert(r.contains(i));
        assert(item_of_index(i) == it);
    }
    vstd::set_lib::lemma_set_subset_finite(m, item_universe(g));
}

/// Each production lies in the range of its non-term.
pub proof fn lemma_prod_in_range(g: &Grammar, p: int)
    requires
        g.wf(),
        0 <= p < g.prod@.len(),
    ensures
        g.nt@[g.prod@[p].lhs as int].start_idx <= p < g.end_idx(g.prod@[p].lhs as int),
{
    lemma_prod_in_range_from(g, p, 0);
}

proof fn lemma_prod_in_range_from(g: &Grammar, p: int, i: int)
    requires
        g.wf(),
        0 <= p < g.prod@.len(),
        0 <= i < g.nt@.len(),
        g.nt@[i].start_idx <= p,
    ensures
        g.nt@[g.prod@[p].lhs as int].start_idx <= p < g.end_idx(g.prod@[p].lhs as int),
    decreases g.nt@.len() - i,
{
    assert(g.nt@[i].start_idx <= g.end_idx(i));
    if p < g.end_idx(i) {
        assert(g.prod@[p].lhs == i);
    } else {
        assert(i + 1 < g.nt@.len());
        lemma_prod_in_range_from(g, p, i + 1);
    }
}

/// Whether `v` holds `x`.
pub fn contains_item(v: &Vec<Lr0Item>, x: Lr0Item) -> (b: bool)
    ensures
        b == v@.contains(x),
{
    let mut i: usize = 0;
    while i < v.len()
        invariant
            i <= v@.len(),
            forall|j: int| 0 <= j < i ==> v@[j] != x,
        decreases v@.len() - i,
    {
        if v[i] == x {
            return true;
        }
        i = i + 1;
    }
    false
}

pub fn exec_item_lt(a: Lr0Item, b: Lr0Item) -> (r: bool)
    ensures
        r == item_lt(a, b),
{
    a.prod_id < b.prod_id || (a.prod_id == b.prod_id && a.dot < b.dot)
}

/// The items of `v` in increasing order, each once.
pub fn sort_items(v: &Vec<Lr0Item>) -> (r: Vec<Lr0Item>)
    ensures
        sorted_items(r@),
        r@.to_set() == v@.to_set(),
{
    let mut out: Vec<Lr0Item> = Vec::new();
    let mut i: usize = 0;
    while i < v.len()
        invariant
            i <= v@.len(),
            sorted_items(out@),
            out@.to_set() == v@.take(i as int).to_set(),
        decreases v@.len() - i,
    {
        let x = v[i];
        let mut j: usize = 0;
        while j < out.len() && exec_item_lt(out[j], x)
            invariant
                j <= out@.len(),
                forall|k: int| 0 <= k < j ==> item_lt(out@[k], x),
            decreases out@.len() - j,
        {
            j = j + 1;
        }
        let ghost before = out@;
        if j < out.len() && out[j] == x {
        } else {
            out.insert(j, x);
            proof {
                assert forall|a: int, b: int| 0 <= a < b < out@.len() implies item_lt(#[trigger] out@[a], #[trigger] out@[b]) by {
                    if b < j {
                    } else if a > j {
                        assert(out@[a] == before[a - 1] && out@[b] == before[b - 1]);
                    } else if a == j {
                        assert(out@[b] == before[b - 1]);
                        if b - 1 > j {
                            assert(item_lt(before[j as int], before[b - 1]));
                        }
                        assert(!item_lt(before[j as int], x));
                    } else {
                        if b == j {
                        } else {
                            assert(out@[b] == before[b - 1]);
                        }
                    }
                }
                assert(out@ =~= before.insert(j as int, x));
                assert(out@.to_set() =~= before.to_set().insert(x)) by {
                    assert forall|y: Lr0Item| out@.to_set().contains(y) <==> before.to_set().insert(x).contains(y) by {
                        if out@.contains(y) {
                            let k = choose|k: int| 0 <= k < out@.len() && out@[k] == y;
                            if k < j {
                                assert(before[k] == y);
                            } else if k > j {
                                assert(before[k - 1] == y);
                            }
                        }
                        if before.contains(y) {
                            let k = choose|k: int| 0 <= k < before.len() && before[k] == y;
                            if k < j {
                                assert(out@[k] == y);
                            } else {
                                assert(out@[k + 1] == y);
                            }
                        }
                        if y == x {
                            assert(out@[j as int] == x);
                        }
                    }
                }
            }
        }
        proof {
            assert(v@.take(i + 1) =~= v@.take(i as int).push(x));
            assert(v@.take(i as int).push(x).to_set() =~= v@.take(i as int).to_set().insert(x)) by {
                v@.take(i as int).lemma_push_to_set_commute(x);
            }
            if j < before.len() && before[j as int] == x {
                assert(before.contains(x));
                assert(before.to_set().insert(x) =~= before.to_set());
            }
        }
        i = i + 1;
    }
    assert(v@.take(v@.len() as int) =~= v@);
    out
}

/// Two sorted sequences of items with the same elements are equal.
pub proof fn lemma_sorted_unique(a: Seq<Lr0Item>, b: Seq<Lr0Item>)
    requires
        sorted_items(a),
        sorted_items(b),
        a.to_set() == b.to_set(),
    ensures
        a == b,
    decreases a.len(),
{
    if a.len() == 0 {
        if b.len() > 0 {
            assert(b.to_set().contains(b[0]));
        }
        assert(a =~= b);
    } else {
        assert(a.to_set().contains(a[0]));
        assert(b.contains(a[0]));
        assert(b.len() > 0);
        assert(b.to_set().contains(b[0]));
        assert(a.contains(b[0]));
        let ka = choose|k: int| 0 <= k < a.len() && a[k] == b[0];
        let kb = choose|k: int| 0 <= k < b.len() && b[k] == a[0];
        if ka > 0 && kb > 0 {
            assert(item_lt(a[0], a[ka]));
            assert(item_lt(b[0], b[kb]));
        }
        assert(a[0] == b[0]);
        let a2 = a.drop_first();
        let b2 = b.drop_first();
        assert(a2.to_set() =~= b2.to_set()) by {
            assert forall|y: Lr0Item| a2.to_set().contains(y) <==> b2.to_set().contains(y) by {
                if a2.contains(y) {
                    let k = choose|k: int| 0 <= k < a2.len() && a2[k] == y;
                    assert(item_lt(a[0], a[k + 1]));
                    assert(a[k + 1] == y);
                    assert(a.contains(y));
                    assert(a.to_set().contains(y));
                    assert(b.contains(y));
                    let m = choose|m: int| 0 <= m < b.len() && b[m] == y;
                    assert(m != 0);
                    assert(b2[m - 1] == y);
                }
                if b2.contains(y) {
                    let k = choose|k: int| 0 <= k < b2.len() && b2[k] == y;
                    assert(item_lt(b[0], b[k + 1]));
                    assert(b[k + 1] == y);
                    assert(b.contains(y));
                    assert(b.to_set().contains(y));
                    assert(a.contains(y));
                    let m = choose|m: int| 0 <= m < a.len() && a[m] == y;
                    assert(m != 0);
                    assert(a2[m - 1] == y);
                }
            }
        }
        lemma_sorted_unique(a2, b2);
        assert(a =~= b) by {
            assert forall|k: int| 0 <= k < a.len() implies a[k] == b[k] by {
                if k > 0 {
                    assert(a[k] == a2[k - 1]);
                }
            }
        }
    }
}

/// Whether `a` and `b` hold the same items in the same order.
pub fn items_eq(a: &Vec<Lr0Item>, b: &Vec<Lr0Item>) -> (r: bool)
    ensures
        r == (a@ == b@),
{
    if a.len() != b.len() {
        return false;
    }
    let mut i: usize = 0;
    while i < a.len()
        invariant
            a@.len() == b@.len(),
            i <= a@.len(),
            forall|j: int| 0 <= j < i ==> a@[j] == b@[j],
        decreases a@.len() - i,
    {
        if a[i] != b[i] {
            return false;
        }
        i = i + 1;
    }
    assert(a@ =~= b@);
    true
}


/// Every item of `s` belongs to the grammar.
pub open spec fn valid_items(g: &Grammar, s: Seq<Lr0Item>) -> bool {
    forall|k: int| 0 <= k < s.len() ==> valid_item(g, #[trigger] s[k])
}

/// Moving a dot one step stays within `u32`: every production is shorter than `u32::MAX`.
pub open spec fn dots_fit(g: &Grammar) -> bool {
    forall|p: int| 0 <= p < g.prod@.len() ==> #[trigger] g.rhs(p).len() < u32::MAX
}

/// The item `_ -> .Start` of the production that `extend` adds last.
pub open spec fn start_item(g: &Grammar) -> Lr0Item {
    Lr0Item { prod_id: (g.prod@.len() - 1) as u32, dot: 0 }
}

/// The items of `v`, in the same order.
pub fn copy_items(v: &Vec<Lr0Item>) -> (r: Vec<Lr0Item>)
    ensures
        r@ == v@,
{
    let mut r: Vec<Lr0Item> = Vec::new();
    let mut i: usize = 0;
    while i < v.len()
        invariant
            i <= v@.len(),
            r@ == v@.take(i as int),
        decreases v@.len() - i,
    {
        r.push(v[i]);
        i = i + 1;
        assert(r@ =~= v@.take(i as int));
    }
    assert(v@.take(v@.len() as int) =~= v@);
    r
}

/// The closure of a set of items, with its items in increasing order.
pub fn closure(kernel: &Vec<Lr0Item>, g: &Grammar) -> (r: Vec<Lr0Item>)
    requires
        g.wf(),
        valid_items(g, kernel@),
    ensures
        sorted_items(r@),
        valid_items(g, r@),
        is_closure(g, kernel@.to_set(), r@.to_set()),
{
    let ghost kset = kernel@.to_set();
    let ghost u = item_universe(g);
    proof {
        lemma_universe_finite(g);
    }
    let mut all: Vec<Lr0Item> = Vec::new();
    let mut i: usize = 0;
    while i < kernel.len()
        invariant
            g.wf(),
            valid_items(g, kernel@),
            i <= kernel@.len(),
            all@.no_duplicates(),
            valid_items(g, all@),
            all@.to_set() == kernel@.take(i as int).to_set(),
        decreases kernel@.len() - i,
    {
        let x = kernel[i];
        let ghost before = all@;
        if !contains_item(&all, x) {
            all.push(x);
            proof {
                assert forall|a: int, b: int| 0 <= a < b < all@.len() implies all@[a] != all@[b] by {
                    if b == all@.len() - 1 {
                        assert(before.contains(before[a]));
                    }
                }
            }
        }
        proof {
            assert(kernel@.take(i + 1) =~= kernel@.take(i as int).push(x));
            kernel@.take(i as int).lemma_push_to_set_commute(x);
            before.lemma_push_to_set_commute(x);
            if before.contains(x) {
                assert(before.to_set().insert(x) =~= before.to_set());
            }
        }
        i = i + 1;
    }
    assert(kernel@.take(kernel@.len() as int) =~= kernel@);
    proof {
        all@.unique_seq_to_set();
        assert(all@.to_set() <= u);
        vstd::set_lib::lemma_len_subset(all@.to_set(), u);
        assert forall|d: Set<Lr0Item>| #[trigger] closed(g, d) && kset <= d implies all@.to_set() <= d by {}
    }
    let mut q: usize = 0;
    while q < all.len()
        invariant
            g.wf(),
            u == item_universe(g),
            u.finite(),
            q <= all@.len(),
            all@.len() <= u.len(),
            all@.no_duplicates(),
            valid_items(g, all@),
            kset <= all@.to_set(),
            forall|d: Set<Lr0Item>| #[trigger] closed(g, d) && kset <= d ==> all@.to_set() <= d,
            forall|k: int, p: int|
                #![trigger all@[k], g.prod@[p]]
                0 <= k < q && expands(g, all@[k], p) ==> all@.contains(initial_item(p as int)),
        decreases 2 * u.len() - all@.len() - q,
    {
        let it = all[q];
        let ghost len0 = all@.len();
        let rhs = &g.prod[it.prod_id as usize].rhs;
        let plen = prod_vec_len(rhs);
        if (it.dot as usize) < plen {
            let ch = prod_vec_get(rhs, it.dot as usize);
            if (ch as usize) >= g.terms.len() {
                assert(g.prod@[it.prod_id as int].id == it.prod_id);
                assert(g.rhs(it.prod_id as int)[it.dot as int] == ch);
                assert(ch < g.token_count());
                let nt = ch as usize - g.terms.len();
                let start = g.nt[nt].start_idx;
                let end = if nt + 1 < g.nt.len() { g.nt[nt + 1].start_idx } else { g.prod.len() };
                assert(g.nt@[nt as int].start_idx <= g.end_idx(nt as int));
                assert(g.end_idx(nt as int) <= g.prod@.len());
                let mut p = start;
                while p < end
                    invariant
                        g.wf(),
                        u == item_universe(g),
                        u.finite(),
                        q < all@.len(),
                        all@[q as int] == it,
                        valid_item(g, it),
                        it.dot < g.rhs(it.prod_id as int).len(),
                        g.rhs(it.prod_id as int)[it.dot as int] == ch,
                        ch == nt + g.terms@.len(),
                        nt < g.nt@.len(),
                        start == g.nt@[nt as int].start_idx,
                        end == g.end_idx(nt as int),
                        start <= p <= end,
                        end <= g.prod@.len(),
                        all@.len() <= u.len(),
                        all@.len() >= len0,
                        all@.no_duplicates(),
                        valid_items(g, all@),
                        kset <= all@.to_set(),
                        forall|d: Set<Lr0Item>| #[trigger] closed(g, d) && kset <= d ==> all@.to_set() <= d,
                        forall|k: int, pp: int|
                            #![trigger all@[k], g.prod@[pp]]
                            0 <= k < q && expands(g, all@[k], pp) ==> all@.contains(initial_item(pp as int)),
                        forall|pp: int| start <= pp < p ==> all@.contains(#[trigger] initial_item(pp as int)),
                    decreases end - p,
                {
                    let new_item = Lr0Item { prod_id: p as u32, dot: 0 };
                    assert(g.prod@[p as int].lhs == nt);
                    assert(expands(g, it, p as int));
                    if !contains_item(&all, new_item) {
                        let ghost before = all@;
                        proof {
                            assert(valid_item(g, new_item));
                            assert(u.contains(new_item));
                            assert(!before.to_set().contains(new_item));
                            before.unique_seq_to_set();
                            assert(before.to_set().insert(new_item) <= u);
                            vstd::set_lib::lemma_len_subset(before.to_set().insert(new_item), u);
                        }
                        all.push(new_item);
                        proof {
                            assert forall|a: int, b: int| 0 <= a < b < all@.len() implies all@[a] != all@[b] by {
                                if b == all@.len() - 1 {
                                    assert(before.contains(before[a]));
                                }
                            }
                            before.lemma_push_to_set_commute(new_item);
                            assert forall|d: Set<Lr0Item>| #[trigger] closed(g, d) && kset <= d implies all@.to_set() <= d by {
                                assert(before.to_set() <= d);
                                assert(before.contains(it));
                                assert(d.contains(it));
                                let pr = g.prod@[p as int];
                                assert(d.contains(initial_item(p as int)));
                            }
                            assert forall|k: int, pp: int|
                                #![trigger all@[k], g.prod@[pp]]
                                0 <= k < q && expands(g, all@[k], pp) implies all@.contains(initial_item(pp as int)) by {
                                assert(all@[k] == before[k]);
                                let w = initial_item(pp as int);
                                assert(before.contains(w));
                                let m = choose|m: int| 0 <= m < before.len() && before[m] == w;
                                assert(all@[m] == w);
                            }
                            assert forall|pp: int| start <= pp < p + 1 implies all@.contains(#[trigger] initial_item(pp as int)) by {
                                let w = initial_item(pp as int);
                                if pp < p {
                                    assert(before.contains(w));
                                    let m = choose|m: int| 0 <= m < before.len() && before[m] == w;
                                    assert(all@[m] == w);
                                } else {
                                    assert(all@[all@.len() - 1] == w);
                                }
                            }
                        }
                    }
                    p = p + 1;
                }
                proof {
                    assert forall|pp: int| expands(g, it, pp) implies all@.contains(#[trigger] initial_item(pp as int)) by {
                        lemma_prod_in_range(g, pp);
                    }
                }
            }
        }
        proof {
            assert forall|k: int, pp: int|
                #![trigger all@[k], g.prod@[pp]]
                0 <= k < q + 1 && expands(g, all@[k], pp) implies all@.contains(initial_item(pp as int)) by {
                if k == q {
                    assert(all@[k] == it);
                    assert(expands(g, it, pp));
                    if !((it.dot as int) < g.rhs(it.prod_id as int).len()) {
                    } else {
                        assert(g.rhs(it.prod_id as int)[it.dot as int] >= g.terms@.len());
                    }
                }
            }
        }
        q = q + 1;
    }
    proof {
        assert forall|it: Lr0Item, p: int|
            #![trigger all@.to_set().contains(it), g.prod@[p]]
            all@.to_set().contains(it) && expands(g, it, p) implies all@.to_set().contains(initial_item(p as int)) by {
            let k = choose|k: int| 0 <= k < all@.len() && all@[k] == it;
            assert(expands(g, all@[k], p));
        }
        assert(closed(g, all@.to_set()));
    }
    let r = sort_items(&all);
    proof {
        assert forall|k: int| 0 <= k < r@.len() implies valid_item(g, #[trigger] r@[k]) by {
            assert(r@.to_set().contains(r@[k]));
            assert(all@.contains(r@[k]));
        }
    }
    r
}


/// The state reached from the items `items` over the token `mov`: the closure of the items
/// whose dot stands before `mov`, with the dot moved past it.
pub fn go(items: &Vec<Lr0Item>, mov: u32, g: &Grammar) -> (r: Vec<Lr0Item>)
    requires
        g.wf(),
        dots_fit(g),
        valid_items(g, items@),
    ensures
        sorted_items(r@),
        valid_items(g, r@),
        is_closure(g, advance(g, items@.to_set(), mov), r@.to_set()),
{
    let mut kernel: Vec<Lr0Item> = Vec::new();
    let mut i: usize = 0;
    while i < items.len()
        invariant
            g.wf(),
            dots_fit(g),
            valid_items(g, items@),
            i <= items@.len(),
            valid_items(g, kernel@),
            kernel@.to_set() == advance(g, items@.take(i as int).to_set(), mov),
        decreases items@.len() - i,
    {
        let it = items[i];
        let ghost before = kernel@;
        let rhs = &g.prod[it.prod_id as usize].rhs;
        let moves = (it.dot as usize) < prod_vec_len(rhs) && prod_vec_get(rhs, it.dot as usize) == mov;
        if moves {
            assert(g.rhs(it.prod_id as int).len() < u32::MAX);
            kernel.push(Lr0Item { prod_id: it.prod_id, dot: it.dot + 1 });
        }
        proof {
            let s0 = items@.take(i as int).to_set();
            let s1 = items@.take(i + 1).to_set();
            assert(items@.take(i + 1) =~= items@.take(i as int).push(it));
            items@.take(i as int).lemma_push_to_set_commute(it);
            assert(s1 =~= s0.insert(it));
            let moved = Lr0Item { prod_id: it.prod_id, dot: (it.dot + 1) as u32 };
            before.lemma_push_to_set_commute(moved);
            assert forall|x: Lr0Item| #[trigger] kernel@.to_set().contains(x) <==> advance(g, s1, mov).contains(x) by {
                let px = Lr0Item { prod_id: x.prod_id, dot: (x.dot - 1) as u32 };
                if x.dot > 0 && px == it {
                    assert(x == moved);
                }
                if moves {
                    assert(kernel@.to_set() =~= before.to_set().insert(moved));
                } else {
                    assert(kernel@ == before);
                }
            }
            assert(kernel@.to_set() =~= advance(g, s1, mov));
        }
        i = i + 1;
    }
    assert(items@.take(items@.len() as int) =~= items@);
    closure(&kernel, g)
}

/// Where `states` holds `items`, its index.
pub fn find_state(states: &Vec<Vec<Lr0Item>>, items: &Vec<Lr0Item>) -> (r: Option<usize>)
    ensures
        (match r {
            Some(j) => j < states@.len() && states@[j as int]@ == items@,
            None => forall|j: int| 0 <= j < states@.len() ==> states@[j]@ != items@,
        }),
{
    let mut j: usize = 0;
    while j < states.len()
        invariant
            j <= states@.len(),
            forall|k: int| 0 <= k < j ==> states@[k]@ != items@,
        decreases states@.len() - j,
    {
        if items_eq(&states[j], items) {
            return Some(j);
        }
        j = j + 1;
    }
    None
}


/// A state of the LR(0) automaton: its items in increasing order, and its transitions
/// `(token, target state)` in increasing order of token.
pub struct Lr0Node {
    pub closure: Vec<Lr0Item>,
    pub link: Vec<(u32, usize)>,
}

/// The set of items of a state.
pub open spec fn state_set(n: Lr0Node) -> Set<Lr0Item> {
    n.closure@.to_set()
}

pub open spec fn has_items(s: Set<Lr0Item>) -> bool {
    exists|x: Lr0Item| s.contains(x)
}

/// Whether `link` holds a transition into state `j`.
pub open spec fn has_link_to(link: Seq<(u32, usize)>, j: int) -> bool {
    exists|k: int| 0 <= k < link.len() && link[k].1 == j
}

/// The transitions `link` of a state with items `s`, where state `j` has the items `sets[j]`:
/// one for each token over which some item moves, in increasing order of token, each into
/// the state that is the closure of the moved items.
pub open spec fn links_ok(g: &Grammar, s: Set<Lr0Item>, link: Seq<(u32, usize)>, sets: Seq<Set<Lr0Item>>) -> bool {
    &&& forall|a: int, b: int| 0 <= a < b < link.len() ==> (#[trigger] link[a]).0 < (#[trigger] link[b]).0
    &&& forall|k: int|
        0 <= k < link.len() ==> {
            &&& (#[trigger] link[k]).0 < g.token_count()
            &&& link[k].1 < sets.len()
            &&& has_items(advance(g, s, link[k].0))
            &&& is_closure(g, advance(g, s, link[k].0), sets[link[k].1 as int])
        }
    &&& forall|mov: u32|
        mov < g.token_count() && #[trigger] has_items(advance(g, s, mov)) ==> exists|k: int|
            0 <= k < link.len() && link[k].0 == mov
}

pub open spec fn node_sets(r: Seq<Lr0Node>) -> Seq<Set<Lr0Item>> {
    r.map_values(|n: Lr0Node| state_set(n))
}

/// `r` is the LR(0) automaton of `g`: state 0 is the closure of the start item, the states
/// are distinct sets of items, each with its transitions, and each state but the first is
/// entered from an earlier one.
pub open spec fn lr0_fsm(g: &Grammar, r: Seq<Lr0Node>) -> bool {
    &&& r.len() >= 1
    &&& is_closure(g, set![start_item(g)], state_set(r[0]))
    &&& forall|i: int| 0 <= i < r.len() ==> sorted_items((#[trigger] r[i]).closure@) && valid_items(g, r[i].closure@)
    &&& forall|i: int, j: int| 0 <= i < j < r.len() ==> state_set(#[trigger] r[i]) != state_set(#[trigger] r[j])
    &&& forall|i: int| 0 <= i < r.len() ==> links_ok(g, state_set(#[trigger] r[i]), r[i].link@, node_sets(r))
    &&& forall|j: int| 1 <= j < r.len() ==> #[trigger] entered(r, j)
}

/// State `j` is the target of a transition of an earlier state.
pub open spec fn entered(r: Seq<Lr0Node>, j: int) -> bool {
    exists|i: int| 0 <= i < j && #[trigger] has_link_to(r[i].link@, j)
}

pub open spec fn vec_sets(v: Seq<Vec<Lr0Item>>) -> Seq<Set<Lr0Item>> {
    v.map_values(|x: Vec<Lr0Item>| x@.to_set())
}

pub proof fn lemma_closure_has_items(g: &Grammar, k: Set<Lr0Item>, c: Set<Lr0Item>)
    requires
        is_closure(g, k, c),
    ensures
        has_items(k) <==> has_items(c),
{
    let e = Set::<Lr0Item>::empty();
    assert(closed(g, e));
    if has_items(k) {
        let x = choose|x: Lr0Item| k.contains(x);
        assert(c.contains(x));
    } else {
        assert(k <= e);
        assert(c <= e);
    }
}

/// Two closures of the same items are equal.
pub proof fn lemma_closure_unique(g: &Grammar, k: Set<Lr0Item>, c1: Set<Lr0Item>, c2: Set<Lr0Item>)
    requires
        is_closure(g, k, c1),
        is_closure(g, k, c2),
    ensures
        c1 == c2,
{
    assert(closed(g, c1));
    assert(closed(g, c2));
    assert(c1 <= c2);
    assert(c2 <= c1);
    assert(c1 =~= c2);
}

proof fn lemma_state_count(g: &Grammar, states: Seq<Vec<Lr0Item>>)
    requires
        forall|i: int| 0 <= i < states.len() ==> valid_items(g, (#[trigger] states[i])@),
        forall|i: int, j: int| 0 <= i < j < states.len() ==> (#[trigger] states[i])@.to_set() != (#[trigger] states[j])@.to_set(),
    ensures
        states.len() <= pow2(item_universe(g).len()),
{
    let sets = vec_sets(states);
    assert(sets.no_duplicates()) by {
        assert forall|i: int, j: int| 0 <= i < sets.len() && 0 <= j < sets.len() && i != j implies sets[i] != sets[j] by {
            if i < j {
                assert(states[i]@.to_set() != states[j]@.to_set());
            } else {
                assert(states[j]@.to_set() != states[i]@.to_set());
            }
        }
    }
    sets.unique_seq_to_set();
    lemma_universe_finite(g);
    assert forall|x: Set<Lr0Item>| #[trigger] sets.to_set().contains(x) implies x <= item_universe(g) by {
        let i = choose|i: int| 0 <= i < sets.len() && sets[i] == x;
        assert(valid_items(g, states[i]@));
        assert forall|it: Lr0Item| x.contains(it) implies item_universe(g).contains(it) by {
            let k = choose|k: int| 0 <= k < states[i]@.len() && states[i]@[k] == it;
        }
    }
    lemma_subsets_bound(sets.to_set(), item_universe(g));
}

proof fn lemma_links_grow(g: &Grammar, s: Set<Lr0Item>, link: Seq<(u32, usize)>, sets: Seq<Set<Lr0Item>>, sets2: Seq<Set<Lr0Item>>)
    requires
        links_ok(g, s, link, sets),
        sets.len() <= sets2.len(),
        forall|i: int| 0 <= i < sets.len() ==> sets[i] == sets2[i],
    ensures
        links_ok(g, s, link, sets2),
{
    assert forall|k: int| 0 <= k < link.len() implies is_closure(g, advance(g, s, (#[trigger] link[k]).0), sets2[link[k].1 as int]) by {
        assert(sets[link[k].1 as int] == sets2[link[k].1 as int]);
    }
}


/// Follows the transitions `link` of one state when `k` states are known: each goes to a known
/// state (below `k`) or to the next new one (`k`, which becomes known). The number of known
/// states after them, or `None` if one skips ahead.
pub open spec fn bfs_links(link: Seq<(u32, usize)>, k: int) -> Option<int>
    decreases link.len(),
{
    if link.len() == 0 {
        Some(k)
    } else {
        match bfs_links(link.drop_last(), k) {
            None => None,
            Some(k2) => if (link.last().1 as int) < k2 {
                Some(k2)
            } else if link.last().1 as int == k2 {
                Some(k2 + 1)
            } else {
                None
            },
        }
    }
}

/// The number of states known after following the transitions of the first `n` states in
/// order, starting with state 0 known (see `bfs_links`).
pub open spec fn bfs_from(links: Seq<Seq<(u32, usize)>>, n: int) -> Option<int>
    decreases n,
{
    if n <= 0 {
        Some(1)
    } else {
        match bfs_from(links, n - 1) {
            None => None,
            Some(k) => bfs_links(links[n - 1], k),
        }
    }
}

/// The states are numbered breadth-first: walking the states in order and each state's
/// transitions in order (of token), every transition goes to a state already found or to the
/// next number, and every state is found.
pub open spec fn bfs_numbered(links: Seq<Seq<(u32, usize)>>) -> bool {
    bfs_from(links, links.len() as int) == Some(links.len() as int)
}

pub open spec fn links_of(r: Seq<Lr0Node>) -> Seq<Seq<(u32, usize)>> {
    r.map_values(|n: Lr0Node| n.link@)
}

pub proof fn lemma_bfs_prefix(a: Seq<Seq<(u32, usize)>>, b: Seq<Seq<(u32, usize)>>, n: int)
    requires
        0 <= n <= a.len(),
        n <= b.len(),
        forall|i: int| 0 <= i < n ==> a[i] == b[i],
    ensures
        bfs_from(a, n) == bfs_from(b, n),
    decreases n,
{
    if n > 0 {
        lemma_bfs_prefix(a, b, n - 1);
    }
}

/// The LR(0) automaton of `g`, with its states numbered in the order in which a
/// breadth-first walk from the start state finds them.
pub fn work(g: &Grammar) -> (r: Vec<Lr0Node>)
    requires
        g.wf(),
        dots_fit(g),
    ensures
        lr0_fsm(g, r@),
        bfs_numbered(links_of(r@)),
{
    let n: u32 = g.token_num() as u32;
    let mut kernel0: Vec<Lr0Item> = Vec::new();
    kernel0.push(Lr0Item { prod_id: (g.prod.len() - 1) as u32, dot: 0 });
    proof {
        assert(kernel0@ =~= seq![start_item(g)]);
        assert(kernel0@.to_set() =~= set![start_item(g)]) by {
            assert forall|x: Lr0Item| kernel0@.to_set().contains(x) <==> set![start_item(g)].contains(x) by {
                if x == start_item(g) {
                    assert(kernel0@[0] == x);
                }
            }
        }
        assert(valid_item(g, start_item(g)));
    }
    let init = closure(&kernel0, g);
    let mut states: Vec<Vec<Lr0Item>> = Vec::new();
    states.push(init);
    let ghost mut parent: Seq<int> = seq![0int];
    let mut result: Vec<Lr0Node> = Vec::new();
    let ghost bound = pow2(item_universe(g).len());
    proof {
        lemma_state_count(g, states@);
    }
    while result.len() < states.len()
        invariant
            g.wf(),
            dots_fit(g),
            n == g.token_count(),
            bound == pow2(item_universe(g).len()),
            1 <= states@.len(),
            result@.len() <= states@.len(),
            states@.len() <= bound,
            forall|k: int| 0 <= k < states@.len() ==> sorted_items((#[trigger] states@[k])@) && valid_items(g, states@[k]@),
            forall|a: int, b: int| 0 <= a < b < states@.len() ==> (#[trigger] states@[a])@.to_set() != (#[trigger] states@[b])@.to_set(),
            is_closure(g, set![start_item(g)], states@[0]@.to_set()),
            forall|k: int| 0 <= k < result@.len() ==> (#[trigger] result@[k]).closure@ == states@[k]@,
            forall|k: int| 0 <= k < result@.len() ==> links_ok(g, states@[k]@.to_set(), (#[trigger] result@[k]).link@, vec_sets(states@)),
            parent.len() == states@.len(),
            forall|j: int|
                1 <= j < states@.len() ==> 0 <= #[trigger] parent[j] < j && parent[j] < result@.len() && has_link_to(result@[parent[j]].link@, j),
            bfs_from(links_of(result@), result@.len() as int) == Some(states@.len() as int),
        decreases 2 * bound - states@.len() - result@.len(),
    {
        let head = result.len();
        let cur = copy_items(&states[head]);
        let ghost cs = cur@.to_set();
        let ghost len0 = states@.len();
        let mut link: Vec<(u32, usize)> = Vec::new();
        let mut mov: u32 = 0;
        while mov < n
            invariant
                g.wf(),
                dots_fit(g),
                n == g.token_count(),
                bound == pow2(item_universe(g).len()),
                head == result@.len(),
                head < states@.len(),
                states@.len() >= len0,
                len0 > head,
                cur@ == states@[head as int]@,
                cs == cur@.to_set(),
                valid_items(g, cur@),
                mov <= n,
                states@.len() <= bound,
                forall|k: int| 0 <= k < states@.len() ==> sorted_items((#[trigger] states@[k])@) && valid_items(g, states@[k]@),
                forall|a: int, b: int| 0 <= a < b < states@.len() ==> (#[trigger] states@[a])@.to_set() != (#[trigger] states@[b])@.to_set(),
                is_closure(g, set![start_item(g)], states@[0]@.to_set()),
                forall|k: int| 0 <= k < result@.len() ==> (#[trigger] result@[k]).closure@ == states@[k]@,
                forall|k: int| 0 <= k < result@.len() ==> links_ok(g, states@[k]@.to_set(), (#[trigger] result@[k]).link@, vec_sets(states@)),
                parent.len() == states@.len(),
                forall|j: int|
                    1 <= j < states@.len() ==> 0 <= #[trigger] parent[j] < j && parent[j] <= head
                        && (parent[j] < head ==> has_link_to(result@[parent[j]].link@, j))
                        && (parent[j] == head ==> has_link_to(link@, j)),
                forall|a: int, b: int| 0 <= a < b < link@.len() ==> (#[trigger] link@[a]).0 < (#[trigger] link@[b]).0,
                forall|k: int|
                    0 <= k < link@.len() ==> {
                        &&& (#[trigger] link@[k]).0 < mov
                        &&& link@[k].1 < states@.len()
                        &&& has_items(advance(g, cs, link@[k].0))
                        &&& is_closure(g, advance(g, cs, link@[k].0), states@[link@[k].1 as int]@.to_set())
                    },
                forall|m: u32|
                    m < mov && #[trigger] has_items(advance(g, cs, m)) ==> exists|k: int| 0 <= k < link@.len() && link@[k].0 == m,
                bfs_from(links_of(result@), head as int) == Some(len0 as int),
                bfs_links(link@, len0 as int) == Some(states@.len() as int),
            decreases n - mov,
        {
            let ns = go(&cur, mov, g);
            let ghost nsv = ns@;
            proof {
                lemma_closure_has_items(g, advance(g, cs, mov), nsv.to_set());
                if nsv.len() > 0 {
                    assert(nsv.to_set().contains(nsv[0]));
                } else {
                    assert(!has_items(nsv.to_set()));
                }
            }
            if ns.len() > 0 {
                let ghost old_states = states@;
                let ghost old_link = link@;
                let target = match find_state(&states, &ns) {
                    Some(j) => j,
                    None => {
                        proof {
                            assert forall|a: int| 0 <= a < old_states.len() implies old_states[a]@.to_set() != nsv.to_set() by {
                                if old_states[a]@.to_set() == nsv.to_set() {
                                    lemma_sorted_unique(old_states[a]@, nsv);
                                }
                            }
                        }
                        states.push(ns);
                        proof {
                            parent = parent.push(head as int);
                            assert(states@[states@.len() - 1]@ == nsv);
                            lemma_state_count(g, states@);
                            assert forall|k: int| 0 <= k < result@.len() implies links_ok(g, states@[k]@.to_set(), (#[trigger] result@[k]).link@, vec_sets(states@)) by {
                                lemma_links_grow(g, states@[k]@.to_set(), result@[k].link@, vec_sets(old_states), vec_sets(states@));
                            }
                        }
                        states.len() - 1
                    },
                };
                link.push((mov, target));
                proof {
                    assert(link@.drop_last() =~= old_link);
                    assert(states@[target as int]@ == nsv);
                    assert(link@[link@.len() - 1] == (mov, target));
                    assert forall|j: int|
                        1 <= j < states@.len() implies 0 <= #[trigger] parent[j] < j && parent[j] <= head
                            && (parent[j] < head ==> has_link_to(result@[parent[j]].link@, j))
                            && (parent[j] == head ==> has_link_to(link@, j)) by {
                        if parent[j] == head {
                            if j == target {
                                assert(link@[link@.len() - 1].1 == j);
                            } else {
                                assert(j < old_states.len());
                                assert(has_link_to(old_link, j));
                                let k = choose|k: int| 0 <= k < old_link.len() && old_link[k].1 == j;
                                assert(link@[k] == old_link[k]);
                            }
                        }
                    }
                    assert forall|m: u32|
                        m < mov + 1 && #[trigger] has_items(advance(g, cs, m)) implies exists|k: int| 0 <= k < link@.len() && link@[k].0 == m by {
                        if m < mov {
                            let k = choose|k: int| 0 <= k < old_link.len() && old_link[k].0 == m;
                            assert(link@[k] == old_link[k]);
                        } else {
                            assert(link@[link@.len() - 1].0 == m);
                        }
                    }
                }
            }
            mov = mov + 1;
        }
        let ghost done_link = link@;
        let ghost old_result = result@;
        result.push(Lr0Node { closure: cur, link });
        proof {
            lemma_bfs_prefix(links_of(old_result), links_of(result@), head as int);
            assert(links_of(result@)[head as int] == done_link);
            assert(result@[head as int].link@ == done_link);
            assert(links_ok(g, states@[head as int]@.to_set(), done_link, vec_sets(states@))) by {
                assert forall|k: int| 0 <= k < done_link.len() implies is_closure(g, advance(g, cs, (#[trigger] done_link[k]).0), vec_sets(states@)[done_link[k].1 as int]) by {
                }
            }
        }
    }
    proof {
        assert(node_sets(result@) =~= vec_sets(states@));
        assert forall|i: int| 0 <= i < result@.len() implies links_ok(g, state_set(#[trigger] result@[i]), result@[i].link@, node_sets(result@)) by {
            assert(result@[i].closure@ == states@[i]@);
        }
        assert forall|i: int, j: int| 0 <= i < j < result@.len() implies state_set(#[trigger] result@[i]) != state_set(#[trigger] result@[j]) by {
            assert(result@[i].closure@ == states@[i]@);
            assert(result@[j].closure@ == states@[j]@);
        }
        assert forall|i: int| 0 <= i < result@.len() implies sorted_items((#[trigger] result@[i]).closure@) && valid_items(g, result@[i].closure@) by {
            assert(result@[i].closure@ == states@[i]@);
        }
        assert forall|j: int| 1 <= j < result@.len() implies #[trigger] entered(result@, j) by {
            let i = parent[j];
            assert(has_link_to(result@[i].link@, j));
        }
        assert(result@[0].closure@ == states@[0]@);
    }
    result
}

} // verus!
