use vstd::prelude::*;
use crate::grammar::Grammar;
use crate::text::{push_str, push_decimal, decimal};
use crate::bitset::BitSet;
use crate::ll1::{LLCtx, bounded, predicting};
use crate::lr0::{Lr0Node, valid_item};
use crate::lalr1::{Lr1Node, Lr1Item};
use crate::table::{Act, Conflict, ConflictKind, ConflictView, TableEntry, acts_view};
use crate::collections::{act_vec_items, act_vec_len, act_vec_get};

verus! {

/// `  i: <production i>` on a line for each production below `n`.
pub open spec fn prod_lines(g: &Grammar, n: int) -> Seq<char>
    decreases n,
{
    if n <= 0 {
        Seq::empty()
    } else {
        prod_lines(g, n - 1) + "  "@ + decimal((n - 1) as nat) + ": "@ + g.show_prod_spec(n - 1, None) + "\n"@
    }
}

/// `  i: <token i>` on a line for each token below `n`.
pub open spec fn token_lines(g: &Grammar, n: int) -> Seq<char>
    decreases n,
{
    if n <= 0 {
        Seq::empty()
    } else {
        token_lines(g, n - 1) + "  "@ + decimal((n - 1) as nat) + ": "@ + g.token_name(n - 1) + "\n"@
    }
}

/// The numbered productions and tokens of a grammar.
pub open spec fn prod_token_text(g: &Grammar) -> Seq<char> {
    "Productions:\n"@ + prod_lines(g, g.prod@.len() as int) + "\nTokens:\n"@ + token_lines(g, g.token_count()) + "\n"@
}

/// Lists the productions and the tokens of `g` with their numbers.
pub fn show_prod_token(g: &Grammar) -> (s: String)
    requires
        g.wf(),
    ensures
        s@ == prod_token_text(g),
{
    let mut s = String::new();
    push_str(&mut s, "Productions:\n");
    let mut i: usize = 0;
    while i < g.prod.len()
        invariant
            g.wf(),
            i <= g.prod@.len(),
            s@ == "Productions:\n"@ + prod_lines(g, i as int),
        decreases g.prod@.len() - i,
    {
        push_str(&mut s, "  ");
        push_decimal(&mut s, i);
        push_str(&mut s, ": ");
        let p = g.show_prod(i, None);
        push_str(&mut s, p.as_str());
        push_str(&mut s, "\n");
        i = i + 1;
    }
    push_str(&mut s, "\nTokens:\n");
    let n = g.token_num();
    let mut k: usize = 0;
    while k < n
        invariant
            g.wf(),
            n == g.token_count(),
            k <= n,
            s@ == "Productions:\n"@ + prod_lines(g, g.prod@.len() as int) + "\nTokens:\n"@ + token_lines(g, k as int),
        decreases n - k,
    {
        push_str(&mut s, "  ");
        push_decimal(&mut s, k);
        push_str(&mut s, ": ");
        push_str(&mut s, g.show_token(k));
        push_str(&mut s, "\n");
        k = k + 1;
    }
    push_str(&mut s, "\n");
    s
}

/// ` <token>` for each token below `n` in `set`, in increasing order.
pub open spec fn set_text(g: &Grammar, set: Set<int>, n: int) -> Seq<char>
    decreases n,
{
    if n <= 0 {
        Seq::empty()
    } else {
        set_text(g, set, n - 1) + (if set.contains(n - 1) { " "@ + g.token_name(n - 1) } else { Seq::empty() })
    }
}

fn push_set(s: &mut String, name: &str, set: &BitSet, g: &Grammar)
    requires
        g.wf(),
        set.capacity() >= g.token_count(),
    ensures
        final(s)@ == old(s)@ + name@ + ":"@ + set_text(g, set@, g.token_count()) + "\n"@,
{
    push_str(s, name);
    push_str(s, ":");
    let n = g.token_num();
    let mut i: usize = 0;
    while i < n
        invariant
            g.wf(),
            n == g.token_count(),
            set.capacity() >= g.token_count(),
            i <= n,
            s@ == old(s)@ + name@ + ":"@ + set_text(g, set@, i as int),
        decreases n - i,
    {
        if set.test(i as u32) {
            push_str(s, " ");
            push_str(s, g.show_token(i));
        }
        i = i + 1;
    }
    push_str(s, "\n");
}

/// The productions `prods` as `first; other(✗); ...`.
pub open spec fn prods_text(g: &Grammar, prods: Seq<u32>) -> Seq<char>
    decreases prods.len(),
{
    if prods.len() == 0 {
        Seq::empty()
    } else {
        prods_text(g, prods.drop_last()) + (if prods.len() == 1 {
            g.show_prod_spec(prods.last() as int, None)
        } else {
            "; "@ + g.show_prod_spec(prods.last() as int, None) + "(✗)"@
        })
    }
}

/// `  <token> => <productions>` for each token below `n` that predicts some production.
pub open spec fn row_text(g: &Grammar, row: Seq<Vec<u32>>, n: int) -> Seq<char>
    decreases n,
{
    if n <= 0 {
        Seq::empty()
    } else {
        row_text(g, row, n - 1) + (if row[n - 1]@.len() > 0 {
            "  "@ + g.token_name(n - 1) + " => "@ + prods_text(g, row[n - 1]@) + "\n"@
        } else {
            Seq::empty()
        })
    }
}

/// The text of the LL(1) analysis for the non-terms below `n`: for each, a header (the token
/// whose id is the non-term's index, as the table has always printed), its FIRST and FOLLOW
/// sets, and its row of the prediction table.
pub open spec fn ll_text(g: &Grammar, ll: &LLCtx, n: int) -> Seq<char>
    decreases n,
{
    if n <= 0 {
        prod_token_text(g)
    } else {
        ll_text(g, ll, n - 1) + g.token_name(n - 1) + ":\n"@ + "first"@ + ":"@ + set_text(g, ll.first@[n - 1], g.token_count()) + "\n"@
            + "follow"@ + ":"@ + set_text(g, ll.follow@[n - 1], g.token_count()) + "\n"@ + row_text(g, ll.table@[n - 1]@, g.token_count())
            + "\n"@
    }
}

/// Valid prediction lists: every production id is a production of `g`.
pub open spec fn ll_table_ok(g: &Grammar, ll: &LLCtx) -> bool {
    &&& ll.first.wf(g)
    &&& ll.follow.wf(g)
    &&& ll.table@.len() == g.nt@.len()
    &&& forall|i: int|
        0 <= i < g.nt@.len() ==> {
            &&& (#[trigger] ll.table@[i])@.len() == g.token_count()
            &&& forall|t: int, k: int|
                0 <= t < g.token_count() && 0 <= k < ll.table@[i]@[t]@.len() ==> (#[trigger] ll.table@[i]@[t]@[k]) < g.prod@.len()
        }
}

proof fn lemma_predicting_range(g: &Grammar, f: Seq<Set<int>>, fo: Seq<Set<int>>, lo: int, hi: int, t: int)
    requires
        0 <= lo,
        hi <= u32::MAX,
    ensures
        forall|k: int| 0 <= k < predicting(g, f, fo, lo, hi, t).len() ==> #[trigger] predicting(g, f, fo, lo, hi, t)[k] < hi,
    decreases hi - lo,
{
    if hi > lo {
        lemma_predicting_range(g, f, fo, lo, hi - 1, t);
        let a = predicting(g, f, fo, lo, hi - 1, t);
        assert forall|k: int| 0 <= k < predicting(g, f, fo, lo, hi, t).len() implies #[trigger] predicting(g, f, fo, lo, hi, t)[k] < hi by {
            if k < a.len() {
                assert(predicting(g, f, fo, lo, hi, t)[k] == a[k]);
            }
        }
    }
}

/// The table that `LLCtx::new` builds can be shown.
pub proof fn lemma_ll_table_ok(g: &Grammar, ll: &LLCtx)
    requires
        g.wf(),
        ll.first.wf(g),
        ll.follow.wf(g),
        ll.table_ok(g),
    ensures
        ll_table_ok(g, ll),
{
    assert forall|i: int| 0 <= i < g.nt@.len() implies {
        &&& (#[trigger] ll.table@[i])@.len() == g.token_count()
        &&& forall|t: int, k: int|
            0 <= t < g.token_count() && 0 <= k < ll.table@[i]@[t]@.len() ==> (#[trigger] ll.table@[i]@[t]@[k]) < g.prod@.len()
    } by {
        assert forall|t: int, k: int|
            0 <= t < g.token_count() && 0 <= k < ll.table@[i]@[t]@.len() implies (#[trigger] ll.table@[i]@[t]@[k]) < g.prod@.len() by {
            lemma_predicting_range(g, ll.first@, ll.follow@, g.nt@[i].start_idx as int, g.end_idx(i), t);
            assert(ll.table@[i]@[t]@ == predicting(g, ll.first@, ll.follow@, g.nt@[i].start_idx as int, g.end_idx(i), t));
        }
    }
}

/// The text of the LL(1) analysis: productions and tokens, then for each non-term its FIRST
/// and FOLLOW sets and its predictions, the first production on a token winning over the
/// others (marked `✗`).
pub fn table(ll: &LLCtx, g: &Grammar) -> (s: String)
    requires
        g.wf(),
        ll_table_ok(g, ll),
    ensures
        s@ == ll_text(g, ll, g.nt@.len() as int),
{
    let mut s = show_prod_token(g);
    let n = g.token_num();
    let mut idx: usize = 0;
    while idx < ll.table.len()
        invariant
            g.wf(),
            ll_table_ok(g, ll),
            n == g.token_count(),
            idx <= ll.table@.len(),
            s@ == ll_text(g, ll, idx as int),
        decreases ll.table@.len() - idx,
    {
        push_str(&mut s, g.show_token(idx));
        push_str(&mut s, ":\n");
        push_set(&mut s, "first", ll.first.get(idx), g);
        push_set(&mut s, "follow", ll.follow.get(idx), g);
        let row = &ll.table[idx];
        let mut ch: usize = 0;
        let ghost base = s@;
        while ch < n
            invariant
                g.wf(),
                ll_table_ok(g, ll),
                n == g.token_count(),
                idx < ll.table@.len(),
                *row == ll.table@[idx as int],
                ch <= n,
                s@ == base + row_text(g, row@, ch as int),
            decreases n - ch,
        {
            let prods = &row[ch];
            if prods.len() > 0 {
                push_str(&mut s, "  ");
                push_str(&mut s, g.show_token(ch));
                push_str(&mut s, " => ");
                let mut k: usize = 0;
                let ghost b2 = s@;
                while k < prods.len()
                    invariant
                        g.wf(),
                        ll_table_ok(g, ll),
                        idx < ll.table@.len(),
                        *row == ll.table@[idx as int],
                        ch < n,
                        n == g.token_count(),
                        *prods == row@[ch as int],
                        k <= prods@.len(),
                        s@ == b2 + prods_text(g, prods@.take(k as int)),
                    decreases prods@.len() - k,
                {
                    assert(prods@[k as int] < g.prod@.len());
                    let p = g.show_prod(prods[k] as usize, None);
                    assert(prods@.take(k + 1).drop_last() =~= prods@.take(k as int));
                    if k == 0 {
                        push_str(&mut s, p.as_str());
                    } else {
                        push_str(&mut s, "; ");
                        push_str(&mut s, p.as_str());
                        push_str(&mut s, "(✗)");
                    }
                    k = k + 1;
                }
                assert(prods@.take(prods@.len() as int) =~= prods@);
                push_str(&mut s, "\n");
            }
            ch = ch + 1;
        }
        push_str(&mut s, "\n");
        idx = idx + 1;
    }
    s
}

/// The conflicts of one prediction list on token `t`: the first production against each other.
pub open spec fn ll_entry_conflicts(g: &Grammar, prods: Seq<u32>, t: int, k: int) -> Seq<Seq<char>>
    decreases k,
{
    if k <= 1 {
        Seq::empty()
    } else {
        ll_entry_conflicts(g, prods, t, k - 1).push(
            "conflict at prod \""@ + g.show_prod_spec(prods[0] as int, None) + "\" and \""@ + g.show_prod_spec(prods[k - 1] as int, None)
                + "\", both's PS contains \""@ + g.token_name(t) + "\""@,
        )
    }
}

pub open spec fn ll_row_conflicts(g: &Grammar, row: Seq<Vec<u32>>, n: int) -> Seq<Seq<char>>
    decreases n,
{
    if n <= 0 {
        Seq::empty()
    } else {
        ll_row_conflicts(g, row, n - 1) + ll_entry_conflicts(g, row[n - 1]@, n - 1, row[n - 1]@.len() as int)
    }
}

pub open spec fn ll_conflicts(g: &Grammar, table: Seq<Vec<Vec<u32>>>, n: int) -> Seq<Seq<char>>
    decreases n,
{
    if n <= 0 {
        Seq::empty()
    } else {
        ll_conflicts(g, table, n - 1) + ll_row_conflicts(g, table[n - 1]@, g.token_count())
    }
}

pub open spec fn strings_of(v: Seq<String>) -> Seq<Seq<char>> {
    v.map_values(|s: String| s@)
}

/// The conflicts of an LL(1) table, in order of non-term and of token: where a token predicts
/// several productions, one message for each production after the first.
pub fn conflict(ll: &LLCtx, g: &Grammar) -> (r: Vec<String>)
    requires
        g.wf(),
        ll_table_ok(g, ll),
    ensures
        strings_of(r@) == ll_conflicts(g, ll.table@, ll.table@.len() as int),
{
    let mut r: Vec<String> = Vec::new();
    let n = g.token_num();
    let mut i: usize = 0;
    while i < ll.table.len()
        invariant
            g.wf(),
            ll_table_ok(g, ll),
            n == g.token_count(),
            i <= ll.table@.len(),
            strings_of(r@) == ll_conflicts(g, ll.table@, i as int),
        decreases ll.table@.len() - i,
    {
        let row = &ll.table[i];
        let ghost b0 = strings_of(r@);
        let mut ch: usize = 0;
        while ch < n
            invariant
                g.wf(),
                ll_table_ok(g, ll),
                n == g.token_count(),
                i < ll.table@.len(),
                *row == ll.table@[i as int],
                ch <= n,
                strings_of(r@) == b0 + ll_row_conflicts(g, row@, ch as int),
            decreases n - ch,
        {
            let prods = &row[ch];
            let ghost b1 = strings_of(r@);
            let mut k: usize = 1;
            if prods.len() > 1 {
                assert(prods@[0] < g.prod@.len());
                let first = g.show_prod(prods[0] as usize, None);
                while k < prods.len()
                    invariant
                        g.wf(),
                        ll_table_ok(g, ll),
                        i < ll.table@.len(),
                        *row == ll.table@[i as int],
                        ch < n,
                        n == g.token_count(),
                        *prods == row@[ch as int],
                        prods@.len() > 1,
                        1 <= k <= prods@.len(),
                        first@ == g.show_prod_spec(prods@[0] as int, None),
                        strings_of(r@) == b1 + ll_entry_conflicts(g, prods@, ch as int, k as int),
                    decreases prods@.len() - k,
                {
                    assert(prods@[k as int] < g.prod@.len());
                    let other = g.show_prod(prods[k] as usize, None);
                    let mut m = String::new();
                    push_str(&mut m, "conflict at prod \"");
                    push_str(&mut m, first.as_str());
                    push_str(&mut m, "\" and \"");
                    push_str(&mut m, other.as_str());
                    push_str(&mut m, "\", both's PS contains \"");
                    push_str(&mut m, g.show_token(ch));
                    push_str(&mut m, "\"");
                    let ghost before = r@;
                    r.push(m);
                    assert(strings_of(r@) =~= strings_of(before).push(m@));
                    k = k + 1;
                }
            } else {
                assert(ll_entry_conflicts(g, prods@, ch as int, prods@.len() as int) == Seq::<Seq<char>>::empty());
            }
            assert(strings_of(r@) == b1 + ll_entry_conflicts(g, prods@, ch as int, prods@.len() as int));
            assert(b0 + ll_row_conflicts(g, row@, ch + 1) =~= b0 + ll_row_conflicts(g, row@, ch as int) + ll_entry_conflicts(g, prods@, ch as int, prods@.len() as int));
            ch = ch + 1;
        }
        i = i + 1;
    }
    r
}

} // verus!
