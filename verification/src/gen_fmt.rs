use vstd::prelude::*;
use crate::grammar::{Grammar, ProdSpec};
use crate::collections::prod_vec_len;
use crate::collections::prod_vec_get;
use crate::table::{Act, TableEntry, acts_view};
use crate::text::{push_char, push_decimal, push_str, decimal};
use crate::collections::{act_vec_len, act_vec_get, act_vec_items, NameMap, name_map_view, name_map_new, name_map_insert, name_map_get};

verus! {

/// The code of the entry whose actions are `a` in a generated parser's action table: the first
/// action's tag in the two low bits (shift 0, reduce 1, accept 2, none 3) and its state or
/// production above them.
pub open spec fn act_code(a: Seq<Act>) -> u32 {
    if a.len() == 0 {
        3u32
    } else {
        match a[0] {
            Act::Shift(x) => x << 2u32,
            Act::Reduce(x) => 1u32 | (x << 2u32),
            Act::Acc => 2u32,
        }
    }
}

/// The codes of the first `n` entries of a row, each followed by a comma.
pub open spec fn row_codes(acts: Seq<Seq<Act>>, n: int) -> Seq<char>
    decreases n,
{
    if n <= 0 {
        Seq::empty()
    } else {
        row_codes(acts, n - 1) + decimal(act_code(acts[n - 1]) as nat) + seq![',']
    }
}

/// The action table of a generated parser, for the first `n` states: each row between `open`
/// and `close` and followed by a comma.
pub open spec fn action_text(g: &Grammar, t: Seq<TableEntry>, n: int, open: char, close: char) -> Seq<char>
    decreases n,
{
    if n <= 0 {
        Seq::empty()
    } else {
        action_text(g, t, n - 1, open, close) + seq![open] + row_codes(acts_view(t[n - 1]), g.terms@.len() as int) + seq![close, ',']
    }
}

fn code_of(a: &crate::collections::ActVec) -> (c: u32)
    ensures
        c == act_code(act_vec_items(*a)),
{
    if act_vec_len(a) == 0 {
        3
    } else {
        match act_vec_get(a, 0) {
            Act::Shift(x) => x << 2u32,
            Act::Reduce(x) => 1u32 | (x << 2u32),
            Act::Acc => 2,
        }
    }
}

/// The action table of a generated parser (see `action_text`), rows between `open` and `close`.
pub fn action(g: &Grammar, table: &Vec<TableEntry>, open: char, close: char) -> (s: String)
    requires
        forall|i: int| 0 <= i < table@.len() ==> (#[trigger] table@[i]).act@.len() == g.terms@.len(),
    ensures
        s@ == action_text(g, table@, table@.len() as int, open, close),
{
    let mut s = String::new();
    let mut i: usize = 0;
    while i < table.len()
        invariant
            forall|k: int| 0 <= k < table@.len() ==> (#[trigger] table@[k]).act@.len() == g.terms@.len(),
            i <= table@.len(),
            s@ == action_text(g, table@, i as int, open, close),
        decreases table@.len() - i,
    {
        let ghost s0 = s@;
        let e = &table[i];
        push_char(&mut s, open);
        let mut ch: usize = 0;
        while ch < g.terms.len()
            invariant
                e.act@.len() == g.terms@.len(),
                ch <= g.terms@.len(),
                s@ == s0 + seq![open] + row_codes(acts_view(*e), ch as int),
            decreases g.terms@.len() - ch,
        {
            let c = code_of(&e.act[ch]);
            assert(acts_view(*e)[ch as int] == act_vec_items(e.act@[ch as int]));
            push_decimal(&mut s, c as usize);
            push_char(&mut s, ',');
            ch = ch + 1;
        }
        push_char(&mut s, close);
        push_char(&mut s, ',');
        assert(table@[i as int] == *e);
        assert(s@ =~= action_text(g, table@, i + 1, open, close));
        i = i + 1;
    }
    s
}

/// The types of the non-terms in order of first appearance, each once.
pub open spec fn types_of(nts: Seq<(Seq<char>, Seq<char>)>, n: int) -> Seq<Seq<char>>
    decreases n,
{
    if n <= 0 {
        Seq::empty()
    } else {
        let t = types_of(nts, n - 1);
        if t.contains(nts[n - 1].1) {
            t
        } else {
            t.push(nts[n - 1].1)
        }
    }
}

/// `m` maps each of `types` to its position.
pub open spec fn numbers_types(types: Seq<Seq<char>>, m: Map<Seq<char>, u32>) -> bool {
    &&& forall|k: Seq<char>| #[trigger] m.contains_key(k) <==> types.contains(k)
    &&& forall|i: int| 0 <= i < types.len() ==> #[trigger] m[types[i]] == i
}

/// The types of the non-terms of `g` in order of first appearance, each once, and a map from
/// each to its position.
pub fn gather_types(g: &Grammar) -> (r: (Vec<String>, NameMap))
    requires
        g.nt@.len() < u32::MAX,
    ensures
        r.0@.map_values(|t: String| t@) == types_of(g@.nts, g.nt@.len() as int),
        numbers_types(r.0@.map_values(|t: String| t@), name_map_view(r.1)),
{
    let mut types: Vec<String> = Vec::new();
    let mut map = name_map_new();
    let ghost nts = g@.nts;
    let mut i: usize = 0;
    while i < g.nt.len()
        invariant
            nts == g@.nts,
            nts.len() == g.nt@.len(),
            g.nt@.len() < u32::MAX,
            i <= g.nt@.len(),
            types@.map_values(|t: String| t@) == types_of(nts, i as int),
            types@.len() <= i,
            numbers_types(types@.map_values(|t: String| t@), name_map_view(map)),
        decreases g.nt@.len() - i,
    {
        let ty = g.nt[i].ty.as_str();
        let ghost tv = types@.map_values(|t: String| t@);
        assert(nts[i as int].1 == ty@);
        if name_map_get(&map, ty).is_none() {
            let id = types.len() as u32;
            name_map_insert(&mut map, ty, id);
            let mut owned = String::new();
            push_str(&mut owned, ty);
            types.push(owned);
            proof {
                let nv = types@.map_values(|t: String| t@);
                assert(nv =~= tv.push(ty@));
                assert forall|k: Seq<char>| #[trigger] name_map_view(map).contains_key(k) <==> nv.contains(k) by {
                    if k == ty@ {
                        assert(nv[nv.len() - 1] == k);
                    } else if tv.contains(k) {
                        let j = choose|j: int| 0 <= j < tv.len() && tv[j] == k;
                        assert(nv[j] == k);
                    } else if nv.contains(k) {
                        let j = choose|j: int| 0 <= j < nv.len() && nv[j] == k;
                        if j < tv.len() {
                            assert(tv[j] == k);
                        }
                    }
                }
                assert forall|j: int| 0 <= j < nv.len() implies #[trigger] name_map_view(map)[nv[j]] == j by {
                    if j < tv.len() {
                        assert(nv[j] == tv[j]);
                        assert(tv[j] != ty@);
                    }
                }
            }
        }
        i = i + 1;
    }
    (types, map)
}

/// Each production's arguments, where it has them, name each of its right-hand side tokens.
pub open spec fn args_fit(g: &Grammar) -> bool {
    forall|p: int|
        0 <= p < g.prod@.len() ==> ((#[trigger] g.prod@[p])@.args matches Some(a) ==> a.len() >= g.rhs(p).len())
}

/// The name of the value of right-hand side token `j` in a generated action: its argument's
/// name, or `prefix` and its position counted from 1.
pub open spec fn arg_name(p: ProdSpec, j: int, prefix: Seq<char>) -> Seq<char> {
    match p.args {
        Some(a) => a[j].0,
        None => prefix + decimal((j + 1) as nat),
    }
}

/// The type of the value of token `x`: its non-term's type, or `Token` for a term.
pub open spec fn value_type(g: &Grammar, x: u32) -> Seq<char> {
    if x >= g.terms@.len() {
        g.nt@[x - g.terms@.len()].ty@
    } else {
        "Token"@
    }
}

/// The C++ lines that pop the values of the first `j` right-hand side tokens of production
/// `p`, last token first.
pub open spec fn cpp_pops(g: &Grammar, p: int, j: int) -> Seq<char>
    decreases j,
{
    if j <= 0 {
        Seq::empty()
    } else {
        let ty = value_type(g, g.rhs(p)[j - 1]);
        "[[maybe_unused]] "@ + ty + " "@ + arg_name(g.prod@[p]@, j - 1, "_"@) + "(std::move(*std::get_if<"@ + ty
            + ">(&stk.back().first))); stk.pop_back();\n"@ + cpp_pops(g, p, j - 1)
    }
}

/// The C++ `case` of each of the first `n` productions in a generated parser's reduce switch:
/// pop the values, then run the action (`__ = _1;` for the added production `_ -> start`).
pub open spec fn cpp_act_text(g: &Grammar, n: int) -> Seq<char>
    decreases n,
{
    if n <= 0 {
        Seq::empty()
    } else {
        let p = n - 1;
        cpp_act_text(g, p) + "case "@ + decimal(p as nat) + ": {\n"@ + cpp_pops(g, p, g.rhs(p).len() as int) + (if p
            == g.prod@.len() - 1 {
            "__ = _1;"@
        } else {
            g.prod@[p].act@
        }) + "\nbreak;\n}\n"@
    }
}

fn push_arg_name(s: &mut String, g: &Grammar, p: usize, j: usize, prefix: &str)
    requires
        g.wf(),
        args_fit(g),
        p < g.prod@.len(),
        j < g.rhs(p as int).len(),
        j < usize::MAX,
    ensures
        final(s)@ == old(s)@ + arg_name(g.prod@[p as int]@, j as int, prefix@),
{
    match &g.prod[p].args {
        Some(a) => {
            assert(g.prod@[p as int]@.args == Some(crate::grammar::pairs_view(a@)));
            push_str(s, a[j].0.as_str());
        },
        None => {
            push_str(s, prefix);
            push_decimal(s, j + 1);
        },
    }
}

fn value_type_of(g: &Grammar, x: u32) -> (r: &str)
    requires
        g.wf(),
        x < g.token_count(),
    ensures
        r@ == value_type(g, x),
{
    match g.as_nt(x) {
        Some(k) => g.nt[k].ty.as_str(),
        None => {
            proof {
                reveal_strlit("Token");
            }
            "Token"
        },
    }
}

/// The C++ reduce actions of a generated parser (see `cpp_act_text`).
pub fn cpp_parser_act(g: &Grammar) -> (s: String)
    requires
        g.wf(),
        args_fit(g),
    ensures
        s@ == cpp_act_text(g, g.prod@.len() as int),
{
    let mut s = String::new();
    let mut i: usize = 0;
    while i < g.prod.len()
        invariant
            g.wf(),
            args_fit(g),
            i <= g.prod@.len(),
            s@ == cpp_act_text(g, i as int),
        decreases g.prod@.len() - i,
    {
        let ghost s0 = s@;
        push_str(&mut s, "case ");
        push_decimal(&mut s, i);
        push_str(&mut s, ": {\n");
        let n = prod_vec_len(&g.prod[i].rhs);
        let ghost s1 = s@;
        let mut j = n;
        assert(g.rhs(i as int).len() == n);
        while j > 0
            invariant
                g.wf(),
                args_fit(g),
                i < g.prod@.len(),
                n == g.rhs(i as int).len(),
                j <= n,
                s1 + cpp_pops(g, i as int, n as int) == s@ + cpp_pops(g, i as int, j as int),
            decreases j,
        {
            let x = prod_vec_get(&g.prod[i].rhs, j - 1);
            assert(x == g.rhs(i as int)[j - 1]);
            assert(g.prod@[i as int].id == i);
            assert(x < g.token_count());
            let ty = value_type_of(g, x);
            let ghost before = s@;
            push_str(&mut s, "[[maybe_unused]] ");
            push_str(&mut s, ty);
            push_str(&mut s, " ");
            push_arg_name(&mut s, g, i, j - 1, "_");
            push_str(&mut s, "(std::move(*std::get_if<");
            push_str(&mut s, ty);
            push_str(&mut s, ">(&stk.back().first))); stk.pop_back();\n");
            proof {
                reveal_strlit("[[maybe_unused]] ");
                reveal_strlit(" ");
                reveal_strlit("_");
                reveal_strlit("(std::move(*std::get_if<");
                reveal_strlit(">(&stk.back().first))); stk.pop_back();\n");
                assert(s@ + cpp_pops(g, i as int, j - 1) =~= before + cpp_pops(g, i as int, j as int));
            }
            j = j - 1;
        }
        if i == g.prod.len() - 1 {
            push_str(&mut s, "__ = _1;");
        } else {
            push_str(&mut s, g.prod[i].act.as_str());
        }
        push_str(&mut s, "\nbreak;\n}\n");
        proof {
            reveal_strlit("case ");
            reveal_strlit(": {\n");
            reveal_strlit("__ = _1;");
            reveal_strlit("\nbreak;\n}\n");
            assert(s1 + cpp_pops(g, i as int, n as int) == s@.take(0) + s1 + cpp_pops(g, i as int, n as int));
            assert(s@ =~= cpp_act_text(g, i + 1));
        }
        i = i + 1;
    }
    s
}

proof fn lemma_types_of_contains(nts: Seq<(Seq<char>, Seq<char>)>, n: int)
    requires
        0 <= n <= nts.len(),
    ensures
        forall|k: int| 0 <= k < n ==> types_of(nts, n).contains(#[trigger] nts[k].1),
    decreases n,
{
    if n > 0 {
        lemma_types_of_contains(nts, n - 1);
        let t = types_of(nts, n - 1);
        assert forall|k: int| 0 <= k < n implies types_of(nts, n).contains(#[trigger] nts[k].1) by {
            if k < n - 1 {
                let j = choose|j: int| 0 <= j < t.len() && t[j] == nts[k].1;
                if !t.contains(nts[n - 1].1) {
                    assert(types_of(nts, n)[j] == nts[k].1);
                }
            } else if !t.contains(nts[n - 1].1) {
                assert(types_of(nts, n)[t.len() as int] == nts[k].1);
            }
        }
    }
}

/// The position of `ty` among `types`.
pub open spec fn pos_of(types: Seq<Seq<char>>, ty: Seq<char>) -> int {
    choose|i: int| 0 <= i < types.len() && types[i] == ty
}

/// The number of the type of non-term `k` among the types of the non-terms of `g`.
pub open spec fn type_id(g: &Grammar, k: int) -> int {
    pos_of(types_of(g@.nts, g.nt@.len() as int), g.nt@[k].ty@)
}

/// The Java lines that pop the values of the first `j` right-hand side tokens of production
/// `p`, last token first.
pub open spec fn java_pops(g: &Grammar, p: int, j: int) -> Seq<char>
    decreases j,
{
    if j <= 0 {
        Seq::empty()
    } else {
        let x = g.rhs(p)[j - 1];
        let item = if x >= g.terms@.len() {
            "StackItem"@ + decimal(type_id(g, x - g.terms@.len()) as nat)
        } else {
            "StackItemToken"@
        };
        value_type(g, x) + " "@ + arg_name(g.prod@[p]@, j - 1, "$"@) + "=(("@ + item + ")stk.get(stk.size()-1)).$;stk.remove(stk.size()-1);\n"@
            + java_pops(g, p, j - 1)
    }
}

/// The Java `case` of each of the first `n` productions in a generated parser's reduce switch:
/// pop the values, make the item of the left-hand side's type, then run the action
/// (`$.$ = $1;` for the added production `_ -> start`).
pub open spec fn java_act_text(g: &Grammar, n: int) -> Seq<char>
    decreases n,
{
    if n <= 0 {
        Seq::empty()
    } else {
        let p = n - 1;
        let id = decimal(type_id(g, g.prod@[p].lhs as int) as nat);
        java_act_text(g, p) + "case "@ + decimal(p as nat) + ":{"@ + java_pops(g, p, g.rhs(p).len() as int) + "StackItem"@ + id
            + " $=new StackItem"@ + id + "();\n"@ + (if p == g.prod@.len() - 1 {
            "$.$ = $1;"@
        } else {
            g.prod@[p].act@
        }) + "value=$;break;}\n"@
    }
}

fn type_id_of(g: &Grammar, map: &NameMap, k: usize) -> (r: usize)
    requires
        g.wf(),
        k < g.nt@.len(),
        numbers_types(types_of(g@.nts, g.nt@.len() as int), name_map_view(*map)),
    ensures
        r == type_id(g, k as int),
{
    let ghost types = types_of(g@.nts, g.nt@.len() as int);
    proof {
        lemma_types_of_contains(g@.nts, g.nt@.len() as int);
        assert(g@.nts[k as int].1 == g.nt@[k as int].ty@);
        assert(types.contains(g@.nts[k as int].1));
        let i = type_id(g, k as int);
        assert(types[i] == g.nt@[k as int].ty@);
        assert(name_map_view(*map)[types[i]] == i);
    }
    match name_map_get(map, g.nt[k].ty.as_str()) {
        Some(id) => id as usize,
        None => 0,
    }
}

/// The Java reduce actions of a generated parser (see `java_act_text`).
pub fn java_parser_act(g: &Grammar) -> (s: String)
    requires
        g.wf(),
        args_fit(g),
    ensures
        s@ == java_act_text(g, g.prod@.len() as int),
{
    let (_types, map) = gather_types(g);
    let mut s = String::new();
    let mut i: usize = 0;
    while i < g.prod.len()
        invariant
            g.wf(),
            args_fit(g),
            numbers_types(types_of(g@.nts, g.nt@.len() as int), name_map_view(map)),
            i <= g.prod@.len(),
            s@ == java_act_text(g, i as int),
        decreases g.prod@.len() - i,
    {
        push_str(&mut s, "case ");
        push_decimal(&mut s, i);
        push_str(&mut s, ":{");
        let n = prod_vec_len(&g.prod[i].rhs);
        let ghost s1 = s@;
        let mut j = n;
        assert(g.rhs(i as int).len() == n);
        while j > 0
            invariant
                g.wf(),
                args_fit(g),
                numbers_types(types_of(g@.nts, g.nt@.len() as int), name_map_view(map)),
                i < g.prod@.len(),
                n == g.rhs(i as int).len(),
                j <= n,
                s1 + java_pops(g, i as int, n as int) == s@ + java_pops(g, i as int, j as int),
            decreases j,
        {
            let x = prod_vec_get(&g.prod[i].rhs, j - 1);
            assert(x == g.rhs(i as int)[j - 1]);
            assert(g.prod@[i as int].id == i);
            assert(x < g.token_count());
            let ghost before = s@;
            push_str(&mut s, value_type_of(g, x));
            push_str(&mut s, " ");
            push_arg_name(&mut s, g, i, j - 1, "$");
            push_str(&mut s, "=((");
            match g.as_nt(x) {
                Some(k) => {
                    push_str(&mut s, "StackItem");
                    let id = type_id_of(g, &map, k);
                    push_decimal(&mut s, id);
                },
                None => {
                    push_str(&mut s, "StackItemToken");
                },
            }
            push_str(&mut s, ")stk.get(stk.size()-1)).$;stk.remove(stk.size()-1);\n");
            proof {
                reveal_strlit(" ");
                reveal_strlit("$");
                reveal_strlit("=((");
                reveal_strlit("StackItem");
                reveal_strlit("StackItemToken");
                reveal_strlit(")stk.get(stk.size()-1)).$;stk.remove(stk.size()-1);\n");
                assert(s@ + java_pops(g, i as int, j - 1) =~= before + java_pops(g, i as int, j as int));
            }
            j = j - 1;
        }
        let lhs = g.prod[i].lhs as usize;
        assert(g.prod@[i as int].id == i);
        let id = type_id_of(g, &map, lhs);
        push_str(&mut s, "StackItem");
        push_decimal(&mut s, id);
        push_str(&mut s, " $=new StackItem");
        push_decimal(&mut s, id);
        push_str(&mut s, "();\n");
        if i == g.prod.len() - 1 {
            push_str(&mut s, "$.$ = $1;");
        } else {
            push_str(&mut s, g.prod[i].act.as_str());
        }
        push_str(&mut s, "value=$;break;}\n");
        proof {
            reveal_strlit("case ");
            reveal_strlit(":{");
            reveal_strlit("StackItem");
            reveal_strlit(" $=new StackItem");
            reveal_strlit("();\n");
            reveal_strlit("$.$ = $1;");
            reveal_strlit("value=$;break;}\n");
            assert(s@ =~= java_act_text(g, i + 1));
        }
        i = i + 1;
    }
    s
}

/// The Rust lines that pop the values of the first `j` right-hand side tokens of production
/// `p`, last token first; `pat` follows the value in the stack item's pattern, and `err` is what
/// a wrong item leads to.
pub open spec fn rs_pops(g: &Grammar, p: int, j: int, pat: Seq<char>, err: Seq<char>) -> Seq<char>
    decreases j,
{
    if j <= 0 {
        Seq::empty()
    } else {
        let x = g.rhs(p)[j - 1];
        let item = if x >= g.terms@.len() {
            "_S"@ + decimal(type_id(g, x - g.terms@.len()) as nat)
        } else {
            "_Token"@
        };
        "let "@ + arg_name(g.prod@[p]@, j - 1, "_"@) + "=match stk.pop(){Some(("@ + item + "(x)"@ + pat + "))=>x,_=>"@ + err
            + "};\n"@ + rs_pops(g, p, j - 1, pat, err)
    }
}

/// The Rust match arm of each of the first `n` productions in a generated parser's reduce
/// match: optionally print the production, pop the values, then wrap the action's value in the
/// stack item of the left-hand side's type.
pub open spec fn rs_act_text(g: &Grammar, n: int, log_reduce: bool, pat: Seq<char>, err: Seq<char>) -> Seq<char>
    decreases n,
{
    if n <= 0 {
        Seq::empty()
    } else {
        let p = n - 1;
        rs_act_text(g, p, log_reduce, pat, err) + decimal(p as nat) + "=>{\n"@ + (if log_reduce {
            "println!(\""@ + g.show_prod_spec(p, None) + "\");\n"@
        } else {
            Seq::empty()
        }) + rs_pops(g, p, g.rhs(p).len() as int, pat, err) + "_S"@ + decimal(type_id(g, g.prod@[p].lhs as int) as nat) + "({"@
            + g.prod@[p].act@ + "})\n}\n"@
    }
}

/// The Rust reduce actions of a generated parser (see `rs_act_text`): with `is_pair` the stack
/// items are pairs (pattern `,_` after the value), and `handle_err` is what a wrong item leads to.
pub fn gen_act(log_reduce: bool, g: &Grammar, is_pair: bool, handle_err: &str) -> (s: String)
    requires
        g.wf(),
        args_fit(g),
    ensures
        s@ == rs_act_text(g, g.prod@.len() as int, log_reduce, if is_pair { ",_"@ } else { ""@ }, handle_err@),
{
    let pat = if is_pair { ",_" } else { "" };
    let (_types, map) = gather_types(g);
    let mut s = String::new();
    let mut i: usize = 0;
    while i < g.prod.len()
        invariant
            g.wf(),
            args_fit(g),
            numbers_types(types_of(g@.nts, g.nt@.len() as int), name_map_view(map)),
            pat@ == (if is_pair { ",_"@ } else { ""@ }),
            i <= g.prod@.len(),
            s@ == rs_act_text(g, i as int, log_reduce, pat@, handle_err@),
        decreases g.prod@.len() - i,
    {
        let ghost s0 = s@;
        push_decimal(&mut s, i);
        push_str(&mut s, "=>{\n");
        if log_reduce {
            push_str(&mut s, "println!(\"");
            let sp = g.show_prod(i, None);
            push_str(&mut s, sp.as_str());
            push_str(&mut s, "\");\n");
        }
        let ghost s1 = s@;
        let n = prod_vec_len(&g.prod[i].rhs);
        let mut j = n;
        assert(g.rhs(i as int).len() == n);
        while j > 0
            invariant
                g.wf(),
                args_fit(g),
                numbers_types(types_of(g@.nts, g.nt@.len() as int), name_map_view(map)),
                i < g.prod@.len(),
                n == g.rhs(i as int).len(),
                j <= n,
                s1 + rs_pops(g, i as int, n as int, pat@, handle_err@) == s@ + rs_pops(g, i as int, j as int, pat@, handle_err@),
            decreases j,
        {
            let x = prod_vec_get(&g.prod[i].rhs, j - 1);
            assert(x == g.rhs(i as int)[j - 1]);
            assert(g.prod@[i as int].id == i);
            assert(x < g.token_count());
            let ghost before = s@;
            push_str(&mut s, "let ");
            push_arg_name(&mut s, g, i, j - 1, "_");
            push_str(&mut s, "=match stk.pop(){Some((");
            match g.as_nt(x) {
                Some(k) => {
                    push_str(&mut s, "_S");
                    let id = type_id_of(g, &map, k);
                    push_decimal(&mut s, id);
                },
                None => {
                    push_str(&mut s, "_Token");
                },
            }
            push_str(&mut s, "(x)");
            push_str(&mut s, pat);
            push_str(&mut s, "))=>x,_=>");
            push_str(&mut s, handle_err);
            push_str(&mut s, "};\n");
            proof {
                reveal_strlit("let ");
                reveal_strlit("_");
                reveal_strlit("=match stk.pop(){Some((");
                reveal_strlit("_S");
                reveal_strlit("_Token");
                reveal_strlit("(x)");
                reveal_strlit("))=>x,_=>");
                reveal_strlit("};\n");
                assert(s@ + rs_pops(g, i as int, j - 1, pat@, handle_err@) =~= before + rs_pops(g, i as int, j as int, pat@, handle_err@));
            }
            j = j - 1;
        }
        let lhs = g.prod[i].lhs as usize;
        assert(g.prod@[i as int].id == i);
        let id = type_id_of(g, &map, lhs);
        push_str(&mut s, "_S");
        push_decimal(&mut s, id);
        push_str(&mut s, "({");
        push_str(&mut s, g.prod[i].act.as_str());
        push_str(&mut s, "})\n}\n");
        proof {
            reveal_strlit("=>{\n");
            reveal_strlit("println!(\"");
            reveal_strlit("\");\n");
            reveal_strlit("_S");
            reveal_strlit("({");
            reveal_strlit("})\n}\n");
            assert(s@ =~= rs_act_text(g, i + 1, log_reduce, pat@, handle_err@));
        }
        i = i + 1;
    }
    s
}

} // verus!
