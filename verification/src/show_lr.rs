use vstd::prelude::*;
use crate::grammar::Grammar;
use crate::text::{push_str, push_decimal, decimal};
use crate::bitset::BitSet;
use crate::ll1::{LLCtx, bounded};
use crate::lr0::{Lr0Node, valid_item, valid_items, lr0_fsm, links_ok, state_set, node_sets};
use crate::lalr1::{Lr1Node, Lr1Item};
use crate::table::{Act, Conflict, ConflictKind, ConflictView, TableEntry, acts_view};
use crate::collections::{act_vec_items, act_vec_len, act_vec_get};
use crate::show_ll::{show_prod_token, prod_token_text};

verus! {

/// The text of a shift-reduce, reduce-reduce or many-way conflict.
pub open spec fn conflict_text(g: &Grammar, c: (ConflictView, u32, u32)) -> Seq<char> {
    match c.0 {
        ConflictView::SR(s, r) => "shift-reduce conflict at state "@ + decimal(c.1 as nat) + " when faced with token \""@ + g.token_name(c.2 as int)
            + "\", it can either shift "@ + decimal(s as nat) + ", or reduce "@ + decimal(r as nat) + "(\""@ + g.show_prod_spec(r as int, None)
            + "\")"@,
        ConflictView::RR(r1, r2) => "reduce-reduce conflict at state "@ + decimal(c.1 as nat) + " when faced with token \""@ + g.token_name(
            c.2 as int,
        ) + "\", it can either reduce "@ + decimal(r1 as nat) + "(\""@ + g.show_prod_spec(r1 as int, None) + "\"), or reduce "@ + decimal(
            r2 as nat,
        ) + "(\""@ + g.show_prod_spec(r2 as int, None) + "\")"@,
        ConflictView::Many(acts) => "Too many conflicts at state "@ + decimal(c.1 as nat) + " when faced with token \""@ + g.token_name(c.2 as int)
            + "\":\n"@ + many_text(g, acts),
    }
}

/// One line for each action of a many-way conflict.
pub open spec fn many_text(g: &Grammar, acts: Seq<Act>) -> Seq<char>
    decreases acts.len(),
{
    if acts.len() == 0 {
        Seq::empty()
    } else {
        many_text(g, acts.drop_last()) + match acts.last() {
            Act::Shift(s) => "  - shift "@ + decimal(s as nat) + "\n"@,
            Act::Reduce(r) => "  - reduce "@ + decimal(r as nat) + "('"@ + g.show_prod_spec(r as int, None) + "')\n"@,
            Act::Acc => Seq::empty(),
        }
    }
}

/// A conflict that can be shown: its token and productions belong to the grammar, and a
/// many-way conflict holds no accept.
pub open spec fn conflict_ok(g: &Grammar, c: (ConflictView, u32, u32)) -> bool {
    &&& c.2 < g.token_count()
    &&& match c.0 {
        ConflictView::SR(s, r) => r < g.prod@.len(),
        ConflictView::RR(r1, r2) => r1 < g.prod@.len() && r2 < g.prod@.len(),
        ConflictView::Many(acts) => forall|k: int|
            0 <= k < acts.len() ==> match #[trigger] acts[k] {
                Act::Shift(_) => true,
                Act::Reduce(r) => r < g.prod@.len(),
                Act::Acc => false,
            },
    }
}

/// The message of each conflict, in order.
pub fn conflict(g: &Grammar, c: &Vec<Conflict>) -> (r: Vec<String>)
    requires
        g.wf(),
        forall|k: int| 0 <= k < c@.len() ==> conflict_ok(g, (#[trigger] c@[k])@),
    ensures
        r@.len() == c@.len(),
        forall|k: int| 0 <= k < c@.len() ==> #[trigger] r@[k]@ == conflict_text(g, c@[k]@),
{
    let mut r: Vec<String> = Vec::new();
    let mut i: usize = 0;
    while i < c.len()
        invariant
            g.wf(),
            forall|k: int| 0 <= k < c@.len() ==> conflict_ok(g, (#[trigger] c@[k])@),
            i <= c@.len(),
            r@.len() == i,
            forall|k: int| 0 <= k < i ==> #[trigger] r@[k]@ == conflict_text(g, c@[k]@),
        decreases c@.len() - i,
    {
        let cf = &c[i];
        assert(conflict_ok(g, cf@));
        let mut m = String::new();
        match &cf.kind {
            ConflictKind::SR { s, r } => {
                push_str(&mut m, "shift-reduce conflict at state ");
                push_decimal(&mut m, cf.state as usize);
                push_str(&mut m, " when faced with token \"");
                push_str(&mut m, g.show_token(cf.ch as usize));
                push_str(&mut m, "\", it can either shift ");
                push_decimal(&mut m, *s as usize);
                push_str(&mut m, ", or reduce ");
                push_decimal(&mut m, *r as usize);
                push_str(&mut m, "(\"");
                let p = g.show_prod(*r as usize, None);
                push_str(&mut m, p.as_str());
                push_str(&mut m, "\")");
            },
            ConflictKind::RR { r1, r2 } => {
                push_str(&mut m, "reduce-reduce conflict at state ");
                push_decimal(&mut m, cf.state as usize);
                push_str(&mut m, " when faced with token \"");
                push_str(&mut m, g.show_token(cf.ch as usize));
                push_str(&mut m, "\", it can either reduce ");
                push_decimal(&mut m, *r1 as usize);
                push_str(&mut m, "(\"");
                let p1 = g.show_prod(*r1 as usize, None);
                push_str(&mut m, p1.as_str());
                push_str(&mut m, "\"), or reduce ");
                push_decimal(&mut m, *r2 as usize);
                push_str(&mut m, "(\"");
                let p2 = g.show_prod(*r2 as usize, None);
                push_str(&mut m, p2.as_str());
                push_str(&mut m, "\")");
            },
            ConflictKind::Many(acts) => {
                push_str(&mut m, "Too many conflicts at state ");
                push_decimal(&mut m, cf.state as usize);
                push_str(&mut m, " when faced with token \"");
                push_str(&mut m, g.show_token(cf.ch as usize));
                push_str(&mut m, "\":\n");
                let ghost base = m@;
                let ghost av = act_vec_items(*acts);
                let n = act_vec_len(acts);
                let mut k: usize = 0;
                while k < n
                    invariant
                        g.wf(),
                        n == av.len(),
                        av == act_vec_items(*acts),
                        forall|j: int|
                            0 <= j < av.len() ==> match #[trigger] av[j] {
                                Act::Shift(_) => true,
                                Act::Reduce(r) => r < g.prod@.len(),
                                Act::Acc => false,
                            },
                        k <= n,
                        m@ == base + many_text(g, av.take(k as int)),
                    decreases n - k,
                {
                    let a = act_vec_get(acts, k);
                    assert(av.take(k + 1).drop_last() =~= av.take(k as int));
                    assert(av.take(k + 1).last() == a);
                    match a {
                        Act::Shift(s) => {
                            push_str(&mut m, "  - shift ");
                            push_decimal(&mut m, s as usize);
                            push_str(&mut m, "\n");
                        },
                        Act::Reduce(r) => {
                            push_str(&mut m, "  - reduce ");
                            push_decimal(&mut m, r as usize);
                            push_str(&mut m, "('");
                            let p = g.show_prod(r as usize, None);
                            push_str(&mut m, p.as_str());
                            push_str(&mut m, "')\n");
                        },
                        Act::Acc => {
                            assert(false);
                        },
                    }
                    k = k + 1;
                }
                assert(av.take(n as int) =~= av);
            },
        }
        r.push(m);
        i = i + 1;
    }
    r
}

/// The transitions of state `idx` as edges of a graph, in the order of `l`.
pub open spec fn link_lines(g: &Grammar, idx: int, l: Seq<(u32, usize)>) -> Seq<char>
    decreases l.len(),
{
    if l.len() == 0 {
        Seq::empty()
    } else {
        link_lines(g, idx, l.drop_last()) + decimal(idx as nat) + " -> "@ + decimal(l.last().1 as nat) + " [label=\""@ + g.token_name(
            l.last().0 as int,
        ) + "\"];\n"@
    }
}

/// `l` is `link` ordered by target state.
pub open spec fn sorted_links(link: Seq<(u32, usize)>, l: Seq<(u32, usize)>) -> bool {
    &&& l.to_multiset() == link.to_multiset()
    &&& forall|a: int, b: int| 0 <= a < b < l.len() ==> (#[trigger] l[a]).1 <= (#[trigger] l[b]).1
}

/// The transitions ordered by target state.
pub fn sort_links(link: &Vec<(u32, usize)>) -> (r: Vec<(u32, usize)>)
    ensures
        sorted_links(link@, r@),
{
    broadcast use vstd::seq_lib::group_to_multiset_ensures;

    let mut out: Vec<(u32, usize)> = Vec::new();
    let mut i: usize = 0;
    while i < link.len()
        invariant
            i <= link@.len(),
            out@.to_multiset() == link@.take(i as int).to_multiset(),
            forall|a: int, b: int| 0 <= a < b < out@.len() ==> (#[trigger] out@[a]).1 <= (#[trigger] out@[b]).1,
        decreases link@.len() - i,
    {
        let x = link[i];
        let mut j: usize = 0;
        while j < out.len() && out[j].1 <= x.1
            invariant
                j <= out@.len(),
                forall|k: int| 0 <= k < j ==> out@[k].1 <= x.1,
            decreases out@.len() - j,
        {
            j = j + 1;
        }
        let ghost before = out@;
        out.insert(j, x);
        proof {
            assert(link@.take(i + 1) =~= link@.take(i as int).push(x));
            assert(out@ == before.insert(j as int, x));
            vstd::seq_lib::to_multiset_insert(before, j as int, x);
            vstd::seq_lib::to_multiset_build(link@.take(i as int), x);
            assert forall|a: int, b: int| 0 <= a < b < out@.len() implies (#[trigger] out@[a]).1 <= (#[trigger] out@[b]).1 by {
                if b < j {
                } else if a > j {
                    assert(out@[a] == before[a - 1] && out@[b] == before[b - 1]);
                } else if a == j {
                    assert(out@[b] == before[b - 1]);
                    if j < before.len() {
                        assert(!(before[j as int].1 <= x.1));
                        if b - 1 > j {
                            assert(before[j as int].1 <= before[b - 1].1);
                        }
                    }
                } else {
                    if b != j {
                        assert(out@[b] == before[b - 1]);
                        assert(before[a].1 <= x.1);
                        if j < before.len() {
                            assert(!(before[j as int].1 <= x.1));
                            if b - 1 > j {
                                assert(before[j as int].1 <= before[b - 1].1);
                            }
                        }
                    }
                }
            }
        }
        i = i + 1;
    }
    assert(link@.take(link@.len() as int) =~= link@);
    out
}

/// The items of an LR(0) state, each as its production with the dot, separated by `\n`.
pub open spec fn items0_text(g: &Grammar, items: Seq<crate::lr0::Lr0Item>) -> Seq<char>
    decreases items.len(),
{
    if items.len() == 0 {
        Seq::empty()
    } else {
        items0_text(g, items.drop_last()) + (if items.len() > 1 { "\\n"@ } else { Seq::empty() }) + g.show_prod_spec(
            items.last().prod_id as int,
            Some(items.last().dot),
        )
    }
}

/// The text of an LR(0) automaton in the dot language, the edges of each state in the order of
/// `sls[i]`.
pub open spec fn lr0_dot_text(g: &Grammar, r: Seq<Lr0Node>, sls: Seq<Seq<(u32, usize)>>, n: int) -> Seq<char>
    decreases n,
{
    if n <= 0 {
        "digraph {\n"@
    } else {
        lr0_dot_text(g, r, sls, n - 1) + link_lines(g, n - 1, sls[n - 1]) + decimal((n - 1) as nat) + "[shape=box, label=\""@ + items0_text(
            g,
            r[n - 1].closure@,
        ) + "\"]\n"@
    }
}

/// States whose items and transitions belong to the grammar.
pub open spec fn nodes0_ok(g: &Grammar, r: Seq<Lr0Node>) -> bool {
    forall|i: int|
        0 <= i < r.len() ==> {
            &&& forall|k: int| 0 <= k < (#[trigger] r[i]).closure@.len() ==> valid_item(g, #[trigger] r[i].closure@[k])
            &&& forall|e: int| 0 <= e < r[i].link@.len() ==> (#[trigger] r[i].link@[e]).0 < g.token_count()
        }
}

/// An LR(0) automaton of `g` can be shown.
pub proof fn lemma_fsm_nodes0_ok(g: &Grammar, r: Seq<Lr0Node>)
    requires
        lr0_fsm(g, r),
    ensures
        nodes0_ok(g, r),
{
    assert forall|i: int| 0 <= i < r.len() implies {
        &&& forall|k: int| 0 <= k < (#[trigger] r[i]).closure@.len() ==> valid_item(g, #[trigger] r[i].closure@[k])
        &&& forall|e: int| 0 <= e < r[i].link@.len() ==> (#[trigger] r[i].link@[e]).0 < g.token_count()
    } by {
        assert(valid_items(g, r[i].closure@));
        assert(links_ok(g, state_set(r[i]), r[i].link@, node_sets(r)));
    }
}

fn push_links(s: &mut String, g: &Grammar, idx: usize, l: &Vec<(u32, usize)>)
    requires
        g.wf(),
        forall|e: int| 0 <= e < l@.len() ==> (#[trigger] l@[e]).0 < g.token_count(),
    ensures
        final(s)@ == old(s)@ + link_lines(g, idx as int, l@),
{
    let mut e: usize = 0;
    while e < l.len()
        invariant
            g.wf(),
            forall|e: int| 0 <= e < l@.len() ==> (#[trigger] l@[e]).0 < g.token_count(),
            e <= l@.len(),
            s@ == old(s)@ + link_lines(g, idx as int, l@.take(e as int)),
        decreases l@.len() - e,
    {
        assert(l@.take(e + 1).drop_last() =~= l@.take(e as int));
        let (x, v) = l[e];
        push_decimal(s, idx);
        push_str(s, " -> ");
        push_decimal(s, v);
        push_str(s, " [label=\"");
        push_str(s, g.show_token(x as usize));
        push_str(s, "\"];\n");
        e = e + 1;
    }
    assert(l@.take(l@.len() as int) =~= l@);
}

proof fn lemma_sorted_links_tokens(g: &Grammar, link: Seq<(u32, usize)>, l: Seq<(u32, usize)>)
    requires
        sorted_links(link, l),
        forall|e: int| 0 <= e < link.len() ==> (#[trigger] link[e]).0 < g.token_count(),
    ensures
        forall|e: int| 0 <= e < l.len() ==> (#[trigger] l[e]).0 < g.token_count(),
{
    broadcast use vstd::seq_lib::group_to_multiset_ensures;

    assert forall|e: int| 0 <= e < l.len() implies (#[trigger] l[e]).0 < g.token_count() by {
        assert(l.to_multiset().count(l[e]) > 0);
        assert(link.to_multiset().count(l[e]) > 0);
        assert(link.contains(l[e]));
    }
}

/// The LR(0) automaton in the dot language: for each state its edges, ordered by target, and
/// a box with its items.
pub fn lr0_dot(g: &Grammar, lr0: &Vec<Lr0Node>) -> (s: String)
    requires
        g.wf(),
        nodes0_ok(g, lr0@),
    ensures
        exists|sls: Seq<Seq<(u32, usize)>>|
            sls.len() == lr0@.len() && (forall|i: int| 0 <= i < lr0@.len() ==> sorted_links(lr0@[i].link@, #[trigger] sls[i])) && s@
                == lr0_dot_text(g, lr0@, sls, lr0@.len() as int) + "}"@,
{
    let mut s = String::new();
    push_str(&mut s, "digraph {\n");
    let ghost mut sls: Seq<Seq<(u32, usize)>> = Seq::empty();
    let mut idx: usize = 0;
    while idx < lr0.len()
        invariant
            g.wf(),
            nodes0_ok(g, lr0@),
            idx <= lr0@.len(),
            sls.len() == idx,
            forall|i: int| 0 <= i < idx ==> sorted_links(lr0@[i].link@, #[trigger] sls[i]),
            s@ == lr0_dot_text(g, lr0@, sls, idx as int),
        decreases lr0@.len() - idx,
    {
        let node = &lr0[idx];
        let sl = sort_links(&node.link);
        let ghost old_sls = sls;
        let ghost old_text = s@;
        proof {
            lemma_sorted_links_tokens(g, node.link@, sl@);
            sls = sls.push(sl@);
            assert(sls.drop_last() =~= old_sls);
        }
        push_links(&mut s, g, idx, &sl);
        push_decimal(&mut s, idx);
        push_str(&mut s, "[shape=box, label=\"");
        let ghost b = s@;
        let mut k: usize = 0;
        while k < node.closure.len()
            invariant
                g.wf(),
                nodes0_ok(g, lr0@),
                idx < lr0@.len(),
                *node == lr0@[idx as int],
                k <= node.closure@.len(),
                s@ == b + items0_text(g, node.closure@.take(k as int)),
            decreases node.closure@.len() - k,
        {
            let it = node.closure[k];
            assert(valid_item(g, lr0@[idx as int].closure@[k as int]));
            assert(node.closure@.take(k + 1).drop_last() =~= node.closure@.take(k as int));
            if k != 0 {
                push_str(&mut s, "\\n");
            }
            let p = g.show_prod(it.prod_id as usize, Some(it.dot));
            push_str(&mut s, p.as_str());
            k = k + 1;
        }
        assert(node.closure@.take(node.closure@.len() as int) =~= node.closure@);
        push_str(&mut s, "\"]\n");
        proof {
            lemma_dot_prefix(g, lr0@, sls, old_sls, idx as int);
            assert(old_text == lr0_dot_text(g, lr0@, old_sls, idx as int));
            assert(lr0_dot_text(g, lr0@, sls, idx + 1) == lr0_dot_text(g, lr0@, sls, idx as int) + link_lines(g, idx as int, sl@)
                + decimal(idx as nat) + "[shape=box, label=\""@ + items0_text(g, node.closure@) + "\"]\n"@);
        }
        idx = idx + 1;
    }
    push_str(&mut s, "}");
    s
}

proof fn lemma_dot_prefix(g: &Grammar, r: Seq<Lr0Node>, a: Seq<Seq<(u32, usize)>>, b: Seq<Seq<(u32, usize)>>, n: int)
    requires
        forall|i: int| 0 <= i < n ==> a[i] == b[i],
    ensures
        lr0_dot_text(g, r, a, n) == lr0_dot_text(g, r, b, n),
    decreases n,
{
    if n > 0 {
        lemma_dot_prefix(g, r, a, b, n - 1);
    }
}


pub open spec fn has_below(set: Set<int>, m: int) -> bool {
    exists|i: int| 0 <= i < m && set.contains(i)
}

/// The tokens below `n` in `set`, in increasing order, separated by `/`.
pub open spec fn la_names(g: &Grammar, set: Set<int>, n: int) -> Seq<char>
    decreases n,
{
    if n <= 0 {
        Seq::empty()
    } else {
        la_names(g, set, n - 1) + (if set.contains(n - 1) {
            (if has_below(set, n - 1) { "/"@ } else { Seq::empty() }) + g.token_name(n - 1)
        } else {
            Seq::empty()
        })
    }
}

fn push_la(s: &mut String, g: &Grammar, set: &BitSet)
    requires
        g.wf(),
        set.capacity() >= g.token_count(),
    ensures
        final(s)@ == old(s)@ + la_names(g, set@, g.token_count()),
{
    let n = g.token_num();
    let mut first = true;
    let mut i: usize = 0;
    while i < n
        invariant
            g.wf(),
            n == g.token_count(),
            set.capacity() >= g.token_count(),
            i <= n,
            first == !has_below(set@, i as int),
            s@ == old(s)@ + la_names(g, set@, i as int),
        decreases n - i,
    {
        if set.test(i as u32) {
            if !first {
                push_str(s, "/");
            }
            push_str(s, g.show_token(i));
            first = false;
            assert(has_below(set@, i + 1));
        } else {
            assert(has_below(set@, i + 1) == has_below(set@, i as int)) by {
                if has_below(set@, i + 1) {
                    let j = choose|j: int| 0 <= j < i + 1 && set@.contains(j);
                    assert(j != i);
                }
            }
        }
        i = i + 1;
    }
}

/// The items of an LR(1) state, each as its production with the dot, a comma and its
/// lookaheads, separated by `\n`.
pub open spec fn items1_text(g: &Grammar, items: Seq<Lr1Item>) -> Seq<char>
    decreases items.len(),
{
    if items.len() == 0 {
        Seq::empty()
    } else {
        items1_text(g, items.drop_last()) + (if items.len() > 1 { "\\n"@ } else { Seq::empty() }) + g.show_prod_spec(
            items.last().lr0.prod_id as int,
            Some(items.last().lr0.dot),
        ) + ","@ + la_names(g, items.last().lookahead@, g.token_count())
    }
}

/// The text of an LR(1) automaton in the dot language, the edges of each state in the order of
/// `sls[i]`.
pub open spec fn lr1_dot_text(g: &Grammar, r: Seq<Lr1Node>, sls: Seq<Seq<(u32, usize)>>, n: int) -> Seq<char>
    decreases n,
{
    if n <= 0 {
        "digraph {\n"@
    } else {
        lr1_dot_text(g, r, sls, n - 1) + link_lines(g, n - 1, sls[n - 1]) + decimal((n - 1) as nat) + "[shape=box, label=\""@ + items1_text(
            g,
            r[n - 1].closure@,
        ) + "\"]\n"@
    }
}

proof fn lemma_dot1_prefix(g: &Grammar, r: Seq<Lr1Node>, a: Seq<Seq<(u32, usize)>>, b: Seq<Seq<(u32, usize)>>, n: int)
    requires
        forall|i: int| 0 <= i < n ==> a[i] == b[i],
    ensures
        lr1_dot_text(g, r, a, n) == lr1_dot_text(g, r, b, n),
    decreases n,
{
    if n > 0 {
        lemma_dot1_prefix(g, r, a, b, n - 1);
    }
}

/// The LR(1) automaton in the dot language: for each state its edges, ordered by target, and
/// a box with its items and their lookaheads.
pub fn lr1_dot(g: &Grammar, lr1: &Vec<Lr1Node>) -> (s: String)
    requires
        g.wf(),
        crate::table::lr1_ok(g, lr1@),
    ensures
        exists|sls: Seq<Seq<(u32, usize)>>|
            sls.len() == lr1@.len() && (forall|i: int| 0 <= i < lr1@.len() ==> sorted_links(lr1@[i].link@, #[trigger] sls[i])) && s@
                == lr1_dot_text(g, lr1@, sls, lr1@.len() as int) + "}"@,
{
    let mut s = String::new();
    push_str(&mut s, "digraph {\n");
    let ghost mut sls: Seq<Seq<(u32, usize)>> = Seq::empty();
    let mut idx: usize = 0;
    while idx < lr1.len()
        invariant
            g.wf(),
            crate::table::lr1_ok(g, lr1@),
            idx <= lr1@.len(),
            sls.len() == idx,
            forall|i: int| 0 <= i < idx ==> sorted_links(lr1@[i].link@, #[trigger] sls[i]),
            s@ == lr1_dot_text(g, lr1@, sls, idx as int),
        decreases lr1@.len() - idx,
    {
        let node = &lr1[idx];
        let sl = sort_links(&node.link);
        let ghost old_sls = sls;
        let ghost old_text = s@;
        proof {
            assert(forall|e: int| 0 <= e < node.link@.len() ==> (#[trigger] node.link@[e]).0 < g.token_count());
            lemma_sorted_links_tokens(g, node.link@, sl@);
            sls = sls.push(sl@);
            assert(sls.drop_last() =~= old_sls);
        }
        push_links(&mut s, g, idx, &sl);
        push_decimal(&mut s, idx);
        push_str(&mut s, "[shape=box, label=\"");
        let ghost b = s@;
        let mut k: usize = 0;
        while k < node.closure.len()
            invariant
                g.wf(),
                crate::table::lr1_ok(g, lr1@),
                idx < lr1@.len(),
                *node == lr1@[idx as int],
                k <= node.closure@.len(),
                s@ == b + items1_text(g, node.closure@.take(k as int)),
            decreases node.closure@.len() - k,
        {
            let it = &node.closure[k];
            assert(valid_item(g, lr1@[idx as int].closure@[k as int].lr0));
            assert(node.closure@.take(k + 1).drop_last() =~= node.closure@.take(k as int));
            if k != 0 {
                push_str(&mut s, "\\n");
            }
            let p = g.show_prod(it.lr0.prod_id as usize, Some(it.lr0.dot));
            push_str(&mut s, p.as_str());
            push_str(&mut s, ",");
            push_la(&mut s, g, &it.lookahead);
            k = k + 1;
        }
        assert(node.closure@.take(node.closure@.len() as int) =~= node.closure@);
        push_str(&mut s, "\"]\n");
        proof {
            lemma_dot1_prefix(g, lr1@, sls, old_sls, idx as int);
        }
        idx = idx + 1;
    }
    push_str(&mut s, "}");
    s
}

/// The debug form of an action: `Acc`, `Shift(s)` or `Reduce(r)`.
pub open spec fn act_debug(a: Act) -> Seq<char> {
    match a {
        Act::Acc => "Acc"@,
        Act::Shift(s) => "Shift("@ + decimal(s as nat) + ")"@,
        Act::Reduce(r) => "Reduce("@ + decimal(r as nat) + ")"@,
    }
}

/// What became of action `o` once solved to `an`: chosen (`✓`), kept behind the chosen one
/// (`✗`), or removed by priority (`-`).
pub open spec fn keep_mark(o: Act, an: Seq<Act>) -> Seq<char> {
    if an.len() > 0 && an[0] == o {
        "✓"@
    } else if an.contains(o) {
        "✗"@
    } else {
        "-"@
    }
}

fn push_act(s: &mut String, a: Act)
    ensures
        final(s)@ == old(s)@ + act_debug(a),
{
    match a {
        Act::Acc => push_str(s, "Acc"),
        Act::Shift(x) => {
            push_str(s, "Shift(");
            push_decimal(s, x as usize);
            push_str(s, ")");
        },
        Act::Reduce(x) => {
            push_str(s, "Reduce(");
            push_decimal(s, x as usize);
            push_str(s, ")");
        },
    }
}

/// The lines for the actions `ao` on token `ch`, each with what became of it in `an`.
pub open spec fn act_lines(g: &Grammar, ch: int, ao: Seq<Act>, an: Seq<Act>) -> Seq<char>
    decreases ao.len(),
{
    if ao.len() == 0 {
        Seq::empty()
    } else {
        act_lines(g, ch, ao.drop_last(), an) + "  "@ + g.token_name(ch) + " => "@ + act_debug(ao.last()) + " ("@ + keep_mark(ao.last(), an)
            + ")\n"@
    }
}

pub open spec fn entry_lines(g: &Grammar, o: Seq<Seq<Act>>, n: Seq<Seq<Act>>, m: int) -> Seq<char>
    decreases m,
{
    if m <= 0 {
        Seq::empty()
    } else {
        entry_lines(g, o, n, m - 1) + act_lines(g, m - 1, o[m - 1], n[m - 1])
    }
}

pub open spec fn state_items_lines(g: &Grammar, items: Seq<Lr1Item>) -> Seq<char>
    decreases items.len(),
{
    if items.len() == 0 {
        Seq::empty()
    } else {
        state_items_lines(g, items.drop_last()) + "  "@ + g.show_prod_spec(items.last().lr0.prod_id as int, Some(items.last().lr0.dot)) + "\n"@
    }
}

/// The text of the parsing table, states below `k`: each state's items, then each action of
/// the table before solving, with what became of it.
pub open spec fn lr_table_text(g: &Grammar, lr1: Seq<Lr1Node>, o: Seq<TableEntry>, n: Seq<TableEntry>, k: int) -> Seq<char>
    decreases k,
{
    if k <= 0 {
        prod_token_text(g)
    } else {
        lr_table_text(g, lr1, o, n, k - 1) + "State "@ + decimal((k - 1) as nat) + ":\n"@ + state_items_lines(g, lr1[k - 1].closure@) + "\n"@
            + entry_lines(g, acts_view(o[k - 1]), acts_view(n[k - 1]), g.terms@.len() as int) + "\n"@
    }
}

fn contains_act(v: &crate::collections::ActVec, a: Act) -> (r: Option<usize>)
    ensures
        (match r {
            Some(k) => k < act_vec_items(*v).len() && act_vec_items(*v)[k as int] == a && forall|j: int| 0 <= j < k ==> act_vec_items(*v)[j] != a,
            None => !act_vec_items(*v).contains(a),
        }),
{
    let n = act_vec_len(v);
    let mut k: usize = 0;
    while k < n
        invariant
            n == act_vec_items(*v).len(),
            k <= n,
            forall|j: int| 0 <= j < k ==> act_vec_items(*v)[j] != a,
        decreases n - k,
    {
        if act_vec_get(v, k) == a {
            return Some(k);
        }
        k = k + 1;
    }
    None
}

fn push_act_line(s: &mut String, g: &Grammar, ch: usize, a: Act, an: &crate::collections::ActVec)
    requires
        g.wf(),
        ch < g.token_count(),
    ensures
        final(s)@ == old(s)@ + "  "@ + g.token_name(ch as int) + " => "@ + act_debug(a) + " ("@ + keep_mark(a, act_vec_items(*an)) + ")\n"@,
{
    push_str(s, "  ");
    push_str(s, g.show_token(ch));
    push_str(s, " => ");
    push_act(s, a);
    push_str(s, " (");
    match contains_act(an, a) {
        Some(k) => {
            if k == 0 {
                push_str(s, "✓");
            } else {
                assert(act_vec_items(*an).contains(a));
                push_str(s, "✗");
            }
        },
        None => push_str(s, "-"),
    }
    push_str(s, ")\n");
}

fn push_entry_acts(s: &mut String, g: &Grammar, ch: usize, ao: &crate::collections::ActVec, an: &crate::collections::ActVec)
    requires
        g.wf(),
        ch < g.token_count(),
    ensures
        final(s)@ == old(s)@ + act_lines(g, ch as int, act_vec_items(*ao), act_vec_items(*an)),
{
    let m = act_vec_len(ao);
    let ghost items = act_vec_items(*ao);
    let mut j: usize = 0;
    while j < m
        invariant
            g.wf(),
            ch < g.token_count(),
            m == items.len(),
            items == act_vec_items(*ao),
            j <= m,
            s@ == old(s)@ + act_lines(g, ch as int, items.take(j as int), act_vec_items(*an)),
        decreases m - j,
    {
        let a = act_vec_get(ao, j);
        proof {
            assert(items.take(j + 1).drop_last() =~= items.take(j as int));
            assert(items.take(j + 1).last() == a);
        }
        push_act_line(s, g, ch, a, an);
        j = j + 1;
    }
    assert(items.take(m as int) =~= items);
}

/// The parsing table before and after solving conflicts, with the states' items.
pub fn table(lr1: &Vec<Lr1Node>, orig_table: &Vec<TableEntry>, solved: &Vec<TableEntry>, g: &Grammar) -> (s: String)
    requires
        g.wf(),
        crate::table::lr1_ok(g, lr1@),
        orig_table@.len() == lr1@.len(),
        solved@.len() == lr1@.len(),
        forall|i: int|
            0 <= i < lr1@.len() ==> (#[trigger] orig_table@[i]).act@.len() == g.terms@.len() && solved@[i].act@.len() == g.terms@.len(),
    ensures
        s@ == lr_table_text(g, lr1@, orig_table@, solved@, lr1@.len() as int),
{
    let mut s = show_prod_token(g);
    let mut idx: usize = 0;
    while idx < lr1.len()
        invariant
            g.wf(),
            crate::table::lr1_ok(g, lr1@),
            orig_table@.len() == lr1@.len(),
            solved@.len() == lr1@.len(),
            forall|i: int|
                0 <= i < lr1@.len() ==> (#[trigger] orig_table@[i]).act@.len() == g.terms@.len() && solved@[i].act@.len() == g.terms@.len(),
            idx <= lr1@.len(),
            s@ == lr_table_text(g, lr1@, orig_table@, solved@, idx as int),
        decreases lr1@.len() - idx,
    {
        push_str(&mut s, "State ");
        push_decimal(&mut s, idx);
        push_str(&mut s, ":\n");
        let node = &lr1[idx];
        let ghost b0 = s@;
        let mut k: usize = 0;
        while k < node.closure.len()
            invariant
                g.wf(),
                crate::table::lr1_ok(g, lr1@),
                idx < lr1@.len(),
                *node == lr1@[idx as int],
                k <= node.closure@.len(),
                s@ == b0 + state_items_lines(g, node.closure@.take(k as int)),
            decreases node.closure@.len() - k,
        {
            let it = &node.closure[k];
            assert(valid_item(g, lr1@[idx as int].closure@[k as int].lr0));
            assert(node.closure@.take(k + 1).drop_last() =~= node.closure@.take(k as int));
            push_str(&mut s, "  ");
            let p = g.show_prod(it.lr0.prod_id as usize, Some(it.lr0.dot));
            push_str(&mut s, p.as_str());
            push_str(&mut s, "\n");
            k = k + 1;
        }
        assert(node.closure@.take(node.closure@.len() as int) =~= node.closure@);
        push_str(&mut s, "\n");
        let o = &orig_table[idx];
        let n = &solved[idx];
        let ghost b1 = s@;
        let mut ch: usize = 0;
        while ch < g.terms.len()
            invariant
                g.wf(),
                idx < lr1@.len(),
                *o == orig_table@[idx as int],
                *n == solved@[idx as int],
                o.act@.len() == g.terms@.len(),
                n.act@.len() == g.terms@.len(),
                ch <= g.terms@.len(),
                s@ == b1 + entry_lines(g, acts_view(*o), acts_view(*n), ch as int),
            decreases g.terms@.len() - ch,
        {
            push_entry_acts(&mut s, g, ch, &o.act[ch], &n.act[ch]);
            ch = ch + 1;
        }
        push_str(&mut s, "\n");
        idx = idx + 1;
    }
    s
}

} // verus!
