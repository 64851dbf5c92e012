use vstd::prelude::*;
use crate::text::chars_of;
use crate::names::{words, word_len, split_whitespace};
use crate::simple::{lines, text_lines};
use crate::playground::{trim, trim_str};
use crate::gen_fmt::{pos_of, numbers_types};
use crate::collections::{NameMap, name_map_view, name_map_new, name_map_insert, name_map_get};

verus! {

/// Whether `c` is an uppercase letter (Unicode's Uppercase property).
pub uninterp spec fn upper(c: char) -> bool;

/// `char::is_uppercase`.
#[verifier::external_body]
fn char_is_uppercase(c: char) -> (b: bool)
    ensures
        b == upper(c),
{
    c.is_uppercase()
}

/// The position of the first `->` in `l`.
pub open spec fn arrow_at(l: Seq<char>) -> Option<int>
    decreases l.len(),
{
    if l.len() < 2 {
        None
    } else if l[0] == '-' && l[1] == '>' {
        Some(0)
    } else {
        match arrow_at(l.drop_first()) {
            Some(i) => Some(i + 1),
            None => None,
        }
    }
}

proof fn lemma_arrow_at(l: Seq<char>)
    ensures
        arrow_at(l) matches Some(i) ==> 0 <= i && i + 2 <= l.len() && l[i] == '-' && l[i + 1] == '>',
        forall|k: int| 0 <= k < (match arrow_at(l) { Some(i) => i, None => l.len() - 1 }) ==> !(#[trigger] l[k] == '-' && l[k + 1] == '>'),
    decreases l.len(),
{
    if l.len() >= 2 && !(l[0] == '-' && l[1] == '>') {
        let t = l.drop_first();
        lemma_arrow_at(t);
        assert forall|k: int| 0 <= k < (match arrow_at(l) { Some(i) => i, None => l.len() - 1 }) implies !(#[trigger] l[k] == '-' && l[k + 1] == '>') by {
            if k > 0 {
                assert(l[k] == t[k - 1] && l[k + 1] == t[k]);
            }
        }
    }
}

/// The text before the first `->` of a line (all of it without one), trimmed.
pub open spec fn lhs_text(l: Seq<char>) -> Seq<char> {
    trim(
        match arrow_at(l) {
            Some(i) => l.take(i),
            None => l,
        },
    )
}

/// The text between the first `->` of a line and the next one (or the end).
pub open spec fn rhs_text(l: Seq<char>) -> Seq<char> {
    match arrow_at(l) {
        None => Seq::empty(),
        Some(i) => {
            let r = l.skip(i + 2);
            match arrow_at(r) {
                Some(j) => r.take(j),
                None => r,
            }
        },
    }
}

/// `v` with `x` added at the end unless it is there.
pub open spec fn distinct_push(v: Seq<Seq<char>>, x: Seq<char>) -> Seq<Seq<char>> {
    if v.contains(x) {
        v
    } else {
        v.push(x)
    }
}

/// The left-hand sides of the first `k` lines, each once, in order of first appearance.
pub open spec fn lhs_names(ls: Seq<Seq<char>>, k: int) -> Seq<Seq<char>>
    decreases k,
{
    if k <= 0 {
        Seq::empty()
    } else {
        distinct_push(lhs_names(ls, k - 1), lhs_text(ls[k - 1]))
    }
}

/// The terms after meeting word `w`: a word that starts with an uppercase letter names a
/// non-term, any other is a term.
pub open spec fn term_step(t: Seq<Seq<char>>, w: Seq<char>) -> Seq<Seq<char>> {
    if upper(w[0]) {
        t
    } else {
        distinct_push(t, w)
    }
}

pub open spec fn terms_after_words(t: Seq<Seq<char>>, ws: Seq<Seq<char>>) -> Seq<Seq<char>>
    decreases ws.len(),
{
    if ws.len() == 0 {
        t
    } else {
        term_step(terms_after_words(t, ws.drop_last()), ws.last())
    }
}

/// The builtin terms `ε`, `#` and the empty one.
pub open spec fn builtin_simple_terms() -> Seq<Seq<char>> {
    seq![seq!['ε'], seq!['#'], Seq::<char>::empty()]
}

/// The terms after the right-hand sides of the first `k` lines.
pub open spec fn terms_after_lines(ls: Seq<Seq<char>>, k: int) -> Seq<Seq<char>>
    decreases k,
{
    if k <= 0 {
        builtin_simple_terms()
    } else {
        terms_after_words(terms_after_lines(ls, k - 1), words(rhs_text(ls[k - 1])))
    }
}

/// The id of word `w`: its non-term's position among `nts`, or the number of non-terms plus
/// its term's position among the terms once it is added.
pub open spec fn word_id(nts: Seq<Seq<char>>, t: Seq<Seq<char>>, w: Seq<char>) -> int {
    if upper(w[0]) {
        pos_of(nts, w)
    } else {
        pos_of(term_step(t, w), w) + nts.len()
    }
}

pub open spec fn ids_of_words(nts: Seq<Seq<char>>, t: Seq<Seq<char>>, ws: Seq<Seq<char>>) -> Seq<u32>
    decreases ws.len(),
{
    if ws.len() == 0 {
        Seq::empty()
    } else {
        ids_of_words(nts, t, ws.drop_last()).push(word_id(nts, terms_after_words(t, ws.drop_last()), ws.last()) as u32)
    }
}

/// `prod` with group `lhs` (added as empty groups if missing) ending with `(rhs, idx)`.
pub open spec fn add_group(prod: Seq<Seq<(Seq<u32>, u32)>>, lhs: int, rhs: Seq<u32>, idx: u32) -> Seq<Seq<(Seq<u32>, u32)>> {
    let p = if prod.len() <= lhs {
        prod + Seq::new((lhs + 1 - prod.len()) as nat, |i: int| Seq::<(Seq<u32>, u32)>::empty())
    } else {
        prod
    };
    p.update(lhs, p[lhs].push((rhs, idx)))
}

/// The productions of the first `k` lines grouped by left-hand side, each with its line's index.
pub open spec fn prods_after(ls: Seq<Seq<char>>, nts: Seq<Seq<char>>, k: int) -> Seq<Seq<(Seq<u32>, u32)>>
    decreases k,
{
    if k <= 0 {
        Seq::empty()
    } else {
        add_group(
            prods_after(ls, nts, k - 1),
            pos_of(nts, lhs_text(ls[k - 1])),
            ids_of_words(nts, terms_after_lines(ls, k - 1), words(rhs_text(ls[k - 1]))),
            (k - 1) as u32,
        )
    }
}

/// The non-terms of the grammar in `text`: the left-hand sides, then the empty name of the
/// added start.
pub open spec fn simple_nts(text: Seq<char>) -> Seq<Seq<char>> {
    lhs_names(text_lines(text), text_lines(text).len() as int).push(Seq::empty())
}

/// The grammar that `from_text` reads: its productions by left-hand side (then the added
/// `S' -> S` numbered after all lines), its non-terms and its terms.
pub open spec fn simple_spec(text: Seq<char>) -> (Seq<Seq<(Seq<u32>, u32)>>, Seq<Seq<char>>, Seq<Seq<char>>) {
    let ls = text_lines(text);
    let nts = simple_nts(text);
    (
        prods_after(ls, nts, ls.len() as int).push(seq![(seq![0u32], ls.len() as u32)]),
        nts,
        terms_after_lines(ls, ls.len() as int),
    )
}

/// The inputs `from_text` reads without panicking: every line has a `->`, its left-hand side
/// starts with an uppercase letter, every right-hand side word that starts with one is a
/// left-hand side; and the counts fit in a `u32`.
pub open spec fn simple_text_ok(text: Seq<char>) -> bool {
    let ls = text_lines(text);
    &&& forall|i: int|
        0 <= i < ls.len() ==> {
            &&& arrow_at(#[trigger] ls[i]) is Some
            &&& lhs_text(ls[i]).len() > 0
            &&& upper(lhs_text(ls[i])[0])
            &&& forall|w: Seq<char>|
                words(rhs_text(ls[i])).contains(w) && upper(w[0]) ==> lhs_names(ls, ls.len() as int).contains(w)
        }
    &&& ls.len() + 1 + terms_after_lines(ls, ls.len() as int).len() < u32::MAX
}

/// A grammar written one production `Lhs -> rhs1 rhs2 ...` a line, with the non-terms named
/// by words that start with an uppercase letter.
pub struct SimpleGrammar {
    pub prod: Vec<Vec<(Vec<u32>, u32)>>,
    pub nt: Vec<String>,
    pub t: Vec<String>,
}

pub open spec fn groups_view(p: Seq<Vec<(Vec<u32>, u32)>>) -> Seq<Seq<(Seq<u32>, u32)>> {
    p.map_values(|g: Vec<(Vec<u32>, u32)>| g@.map_values(|x: (Vec<u32>, u32)| (x.0@, x.1)))
}

pub open spec fn names_view(v: Seq<String>) -> Seq<Seq<char>> {
    v.map_values(|s: String| s@)
}

impl SimpleGrammar {
    pub open spec fn view(&self) -> (Seq<Seq<(Seq<u32>, u32)>>, Seq<Seq<char>>, Seq<Seq<char>>) {
        (groups_view(self.prod@), names_view(self.nt@), names_view(self.t@))
    }
}

proof fn lemma_arrow_scan(l: Seq<char>, i: int)
    requires
        0 <= i,
        forall|k: int| 0 <= k < i && k + 1 < l.len() ==> !(#[trigger] l[k] == '-' && l[k + 1] == '>'),
    ensures
        (i + 1 < l.len() && l[i] == '-' && l[i + 1] == '>') ==> arrow_at(l) == Some(i),
        i + 1 >= l.len() ==> arrow_at(l) is None,
    decreases i,
{
    if i > 0 && l.len() >= 2 {
        let t = l.drop_first();
        assert(l[0] == l[0]);
        assert(!(l[0] == '-' && l[1] == '>'));
        assert forall|k: int| 0 <= k < i - 1 && k + 1 < t.len() implies !(#[trigger] t[k] == '-' && t[k + 1] == '>') by {
            assert(t[k] == l[k + 1] && t[k + 1] == l[k + 2]);
        }
        lemma_arrow_scan(t, i - 1);
        if i + 1 < l.len() && l[i] == '-' && l[i + 1] == '>' {
            assert(t[i - 1] == l[i] && t[i] == l[i + 1]);
        }
    }
}

fn arrow_pos(cs: &Vec<char>) -> (r: Option<usize>)
    ensures
        (match r {
            Some(i) => arrow_at(cs@) == Some(i as int),
            None => arrow_at(cs@) is None,
        }),
{
    let mut i: usize = 0;
    while cs.len() > 1 && i < cs.len() - 1
        invariant
            i <= cs@.len(),
            forall|k: int| 0 <= k < i && k + 1 < cs@.len() ==> !(#[trigger] cs@[k] == '-' && cs@[k + 1] == '>'),
        decreases cs@.len() - i,
    {
        if cs[i] == '-' && cs[i + 1] == '>' {
            proof {
                lemma_arrow_scan(cs@, i as int);
            }
            return Some(i);
        }
        i = i + 1;
    }
    proof {
        lemma_arrow_scan(cs@, i as int);
    }
    None
}

/// The left-hand side of a line (see `lhs_text`).
fn lhs_of(l: &str) -> (r: &str)
    ensures
        r@ == lhs_text(l@),
{
    let cs = chars_of(l);
    proof {
        lemma_arrow_at(l@);
    }
    match arrow_pos(&cs) {
        Some(i) => trim_str(l.substring_char(0, i)),
        None => trim_str(l),
    }
}

/// The right-hand side of a line that has a `->` (see `rhs_text`).
fn rhs_of(l: &str) -> (r: &str)
    requires
        arrow_at(l@) is Some,
    ensures
        r@ == rhs_text(l@),
{
    let cs = chars_of(l);
    proof {
        lemma_arrow_at(l@);
    }
    let i = match arrow_pos(&cs) {
        Some(i) => i,
        None => 0,
    };
    let rest = l.substring_char(i + 2, cs.len());
    assert(rest@ =~= l@.skip(i + 2));
    let rcs = chars_of(rest);
    proof {
        lemma_arrow_at(rest@);
    }
    match arrow_pos(&rcs) {
        Some(j) => rest.substring_char(0, j),
        None => rest,
    }
}

proof fn lemma_words_nonempty(s: Seq<char>)
    ensures
        forall|i: int| 0 <= i < words(s).len() ==> (#[trigger] words(s)[i]).len() > 0,
    decreases s.len(),
{
    if s.len() > 0 {
        if crate::text::is_ws(s[0]) {
            lemma_words_nonempty(s.drop_first());
            assert(words(s) == words(s.drop_first()));
        } else {
            let n = word_len(s);
            crate::names::lemma_word_len(s);
            assert(n >= 1);
            assert(words(s) == seq![s.take(n as int)] + words(s.skip(n as int)));
            assert(words(s)[0] == s.take(n as int));
            lemma_words_nonempty(s.skip(n as int));
            assert forall|i: int| 0 <= i < words(s).len() implies (#[trigger] words(s)[i]).len() > 0 by {
                if i > 0 {
                    assert(words(s)[i] == words(s.skip(n as int))[i - 1]);
                }
            }
        }
    }
}

proof fn lemma_lhs_names_contains(ls: Seq<Seq<char>>, n: int)
    requires
        0 <= n <= ls.len(),
    ensures
        forall|k: int| 0 <= k < n ==> lhs_names(ls, n).contains(lhs_text(#[trigger] ls[k])),
        forall|k: int| 0 <= k < lhs_names(ls, n).len() ==> exists|j: int| 0 <= j < n && #[trigger] lhs_names(ls, n)[k] == lhs_text(ls[j]),
        lhs_names(ls, n).len() <= n,
    decreases n,
{
    if n > 0 {
        lemma_lhs_names_contains(ls, n - 1);
        let t = lhs_names(ls, n - 1);
        let x = lhs_text(ls[n - 1]);
        assert forall|k: int| 0 <= k < n implies lhs_names(ls, n).contains(lhs_text(#[trigger] ls[k])) by {
            if k < n - 1 {
                let j = choose|j: int| 0 <= j < t.len() && t[j] == lhs_text(ls[k]);
                if !t.contains(x) {
                    assert(lhs_names(ls, n)[j] == lhs_text(ls[k]));
                }
            } else if !t.contains(x) {
                assert(lhs_names(ls, n)[t.len() as int] == x);
            }
        }
        assert forall|k: int| 0 <= k < lhs_names(ls, n).len() implies exists|j: int| 0 <= j < n && #[trigger] lhs_names(ls, n)[k] == lhs_text(ls[j]) by {
            if k < t.len() {
                let j = choose|j: int| 0 <= j < n - 1 && #[trigger] t[k] == lhs_text(ls[j]);
                assert(lhs_names(ls, n)[k] == t[k]);
            } else {
                assert(lhs_names(ls, n)[k] == lhs_text(ls[n - 1]));
            }
        }
    }
}

proof fn lemma_terms_words_grow(t: Seq<Seq<char>>, ws: Seq<Seq<char>>, k: int)
    requires
        0 <= k <= ws.len(),
    ensures
        t.len() <= terms_after_words(t, ws.take(k)).len() <= terms_after_words(t, ws).len(),
    decreases ws.len(),
{
    if ws.len() > 0 {
        if k < ws.len() {
            assert(ws.drop_last().take(k) =~= ws.take(k));
            lemma_terms_words_grow(t, ws.drop_last(), k);
        } else {
            assert(ws.take(k) =~= ws);
            lemma_terms_words_grow(t, ws.drop_last(), ws.len() - 1);
        }
    } else {
        assert(ws.take(k) =~= ws);
    }
}

proof fn lemma_terms_lines_grow(ls: Seq<Seq<char>>, k: int, n: int)
    requires
        0 <= k <= n,
    ensures
        terms_after_lines(ls, k).len() <= terms_after_lines(ls, n).len(),
    decreases n,
{
    if k < n {
        lemma_terms_lines_grow(ls, k, n - 1);
        let ws = words(rhs_text(ls[n - 1]));
        lemma_terms_words_grow(terms_after_lines(ls, n - 1), ws, 0);
    }
}

fn owned(s: &str) -> (r: String)
    ensures
        r@ == s@,
{
    let mut r = String::new();
    crate::text::push_str(&mut r, s);
    r
}

impl SimpleGrammar {
    /// Reads a grammar written one production `Lhs -> rhs1 rhs2 ...` a line: the non-terms are
    /// the left-hand sides in order of first appearance, then the added start `S'` (named by the
    /// empty string); the terms are `ε`, `#`, the empty one, then the other right-hand side
    /// words in order of first appearance; a token's id is its non-term's index, or the number
    /// of non-terms plus its term's index; the productions are grouped by left-hand side, each
    /// with its line's index, and `S' -> S` (the first non-term) comes last.
    pub fn from_text(text: &str) -> (g: SimpleGrammar)
        requires
            simple_text_ok(text@),
        ensures
            g@ == simple_spec(text@),
    {
        let ls = lines(text);
        let ghost lv = ls@.map_values(|w: &str| w@);
        let ghost n = lv.len() as int;
        assert(lv == text_lines(text@));
        let mut nt: Vec<String> = Vec::new();
        let mut nt2id = name_map_new();
        let mut i: usize = 0;
        while i < ls.len()
            invariant
                lv == ls@.map_values(|w: &str| w@),
                lv == text_lines(text@),
                n == lv.len(),
                simple_text_ok(text@),
                i <= lv.len(),
                names_view(nt@) == lhs_names(lv, i as int),
                numbers_types(names_view(nt@), name_map_view(nt2id)),
                nt@.len() <= i,
            decreases lv.len() - i,
        {
            let lhs = lhs_of(ls[i]);
            assert(lv[i as int] == ls@[i as int]@);
            let ghost tv = names_view(nt@);
            if name_map_get(&nt2id, lhs).is_none() {
                let id = nt.len() as u32;
                name_map_insert(&mut nt2id, lhs, id);
                nt.push(owned(lhs));
                proof {
                    let nv = names_view(nt@);
                    assert(nv =~= tv.push(lhs@));
                    assert forall|k: Seq<char>| #[trigger] name_map_view(nt2id).contains_key(k) <==> nv.contains(k) by {
                        if k == lhs@ {
                            assert(nv[nv.len() - 1] == k);
                        } else if tv.contains(k) {
                            let j = choose|j: int| 0 <= j < tv.len() && tv[j] == k;
                            assert(nv[j] == k);
                        } else if nv.contains(k) {
                            let j = choose|j: int| 0 <= j < nv.len() && nv[j] == k;
                            if j < tv.len() {
                                assert(tv[j] == k);
                            }
                        }
                    }
                    assert forall|j: int| 0 <= j < nv.len() implies #[trigger] name_map_view(nt2id)[nv[j]] == j by {
                        if j < tv.len() {
                            assert(nv[j] == tv[j]);
                            assert(tv[j] != lhs@);
                        }
                    }
                }
            } else {
                assert(tv.contains(lhs@));
            }
            i = i + 1;
        }
        let ghost names = names_view(nt@);
        proof {
            lemma_lhs_names_contains(lv, n);
        }
        nt.push(String::new());
        let ghost nts = names_view(nt@);
        assert(nts =~= names.push(Seq::empty()));
        assert(nts == simple_nts(text@));
        let nts_len = nt.len();
        let mut t: Vec<String> = Vec::new();
        let mut t2id = name_map_new();
        t.push(owned("ε"));
        t.push(owned("#"));
        t.push(String::new());
        name_map_insert(&mut t2id, "ε", 0);
        name_map_insert(&mut t2id, "#", 1);
        name_map_insert(&mut t2id, "", 2);
        proof {
            reveal_strlit("ε");
            reveal_strlit("#");
            reveal_strlit("");
            let tv = names_view(t@);
            let a: Seq<char> = seq!['ε'];
            let b: Seq<char> = seq!['#'];
            let c: Seq<char> = Seq::empty();
            assert("ε"@ =~= a);
            assert("#"@ =~= b);
            assert(""@ =~= c);
            assert(tv[0] == a && tv[1] == b);
            assert(tv[2] =~= c);
            assert(tv =~= builtin_simple_terms());
            assert(a != b) by {
                assert(a[0] != b[0]);
            }
            assert(a != c) by {
                assert(a.len() != c.len());
            }
            assert(b != c) by {
                assert(b.len() != c.len());
            }
            let m = name_map_view(t2id);
            assert(m == Map::<Seq<char>, u32>::empty().insert(a, 0u32).insert(b, 1u32).insert(c, 2u32));
            assert forall|k: Seq<char>| #[trigger] m.contains_key(k) <==> tv.contains(k) by {
                if tv.contains(k) {
                    let j = choose|j: int| 0 <= j < tv.len() && tv[j] == k;
                    assert(j == 0 || j == 1 || j == 2);
                }
                if m.contains_key(k) {
                    if k == a {
                        assert(tv[0] == k);
                    } else if k == b {
                        assert(tv[1] == k);
                    } else {
                        assert(k == c);
                        assert(tv[2] == k);
                    }
                }
            }
            assert forall|j: int| 0 <= j < tv.len() implies #[trigger] m[tv[j]] == j by {
                assert(j == 0 || j == 1 || j == 2);
            }
            lemma_terms_lines_grow(lv, 0, n);
        }
        let mut prod: Vec<Vec<(Vec<u32>, u32)>> = Vec::new();
        let mut i: usize = 0;
        while i < ls.len()
            invariant
                lv == ls@.map_values(|w: &str| w@),
                lv == text_lines(text@),
                n == lv.len(),
                simple_text_ok(text@),
                names == lhs_names(lv, n),
                nts == names.push(Seq::empty()),
                names_view(nt@) == nts,
                nts_len == nts.len(),
                names.len() <= n,
                numbers_types(names, name_map_view(nt2id)),
                forall|k: int| 0 <= k < n ==> names.contains(lhs_text(#[trigger] lv[k])),
                i <= lv.len(),
                names_view(t@) == terms_after_lines(lv, i as int),
                numbers_types(names_view(t@), name_map_view(t2id)),
                groups_view(prod@) == prods_after(lv, nts, i as int),
            decreases lv.len() - i,
        {
            let l = ls[i];
            assert(lv[i as int] == l@);
            let lhs = lhs_of(l);
            proof {
                assert(names.contains(lhs@));
                let j = choose|j: int| 0 <= j < names.len() && names[j] == lhs@;
                assert(name_map_view(nt2id)[names[j]] == j);
                let p = pos_of(nts, lhs@);
                assert(nts[j] == lhs@);
                assert(0 <= p < nts.len() && nts[p] == lhs@);
                assert(lhs@.len() > 0);
                assert(p < names.len());
                assert(name_map_view(nt2id)[lhs@] == p);
            }
            let lhs_id: usize = match name_map_get(&nt2id, lhs) {
                Some(x) => x as usize,
                None => 0,
            };
            let rhs = rhs_of(l);
            let ws = split_whitespace(rhs);
            let ghost wsv = ws@.map_values(|w: &str| w@);
            let ghost t0 = names_view(t@);
            proof {
                lemma_words_nonempty(rhs@);
                assert(wsv.take(0) =~= Seq::<Seq<char>>::empty());
                lemma_terms_lines_grow(lv, i + 1, n);
                lemma_terms_words_grow(t0, wsv, 0);
            }
            let mut ids: Vec<u32> = Vec::new();
            let mut k: usize = 0;
            while k < ws.len()
                invariant
                    simple_text_ok(text@),
                    i < n,
                    lv[i as int] == l@,
                    lv == text_lines(text@),
                    n == lv.len(),
                    wsv == ws@.map_values(|w: &str| w@),
                    wsv == words(rhs_text(l@)),
                    forall|q: int| 0 <= q < wsv.len() ==> (#[trigger] wsv[q]).len() > 0,
                    names == lhs_names(lv, n),
                    nts == names.push(Seq::empty()),
                    nts_len == nts.len(),
                    names.len() <= n,
                    numbers_types(names, name_map_view(nt2id)),
                    t0 == terms_after_lines(lv, i as int),
                    terms_after_words(t0, wsv).len() + n + 1 < u32::MAX,
                    k <= wsv.len(),
                    names_view(t@) == terms_after_words(t0, wsv.take(k as int)),
                    numbers_types(names_view(t@), name_map_view(t2id)),
                    ids@ == ids_of_words(nts, t0, wsv.take(k as int)),
                decreases wsv.len() - k,
            {
                let w = ws[k];
                assert(wsv[k as int] == w@);
                let ghost tb = names_view(t@);
                proof {
                    assert(wsv.take(k + 1).drop_last() =~= wsv.take(k as int));
                    assert(wsv.take(k + 1).last() == w@);
                    lemma_terms_words_grow(t0, wsv, k + 1);
                }
                let c = w.get_char(0);
                let id: u32 = if char_is_uppercase(c) {
                    proof {
                        assert(words(rhs_text(lv[i as int])).contains(w@));
                        assert(names.contains(w@));
                        let j = choose|j: int| 0 <= j < names.len() && names[j] == w@;
                        assert(name_map_view(nt2id)[names[j]] == j);
                        let p = pos_of(nts, w@);
                        assert(nts[j] == w@);
                        assert(p < names.len());
                    }
                    match name_map_get(&nt2id, w) {
                        Some(x) => x,
                        None => 0,
                    }
                } else {
                    match name_map_get(&t2id, w) {
                        Some(x) => {
                            proof {
                                let j = choose|j: int| 0 <= j < tb.len() && tb[j] == w@;
                                assert(name_map_view(t2id)[tb[j]] == j);
                            }
                            x + nts_len as u32
                        },
                        None => {
                            let x = t.len() as u32;
                            name_map_insert(&mut t2id, w, x);
                            t.push(owned(w));
                            proof {
                                let nv = names_view(t@);
                                assert(nv =~= tb.push(w@));
                                assert forall|q: Seq<char>| #[trigger] name_map_view(t2id).contains_key(q) <==> nv.contains(q) by {
                                    if q == w@ {
                                        assert(nv[nv.len() - 1] == q);
                                    } else if tb.contains(q) {
                                        let j = choose|j: int| 0 <= j < tb.len() && tb[j] == q;
                                        assert(nv[j] == q);
                                    } else if nv.contains(q) {
                                        let j = choose|j: int| 0 <= j < nv.len() && nv[j] == q;
                                        if j < tb.len() {
                                            assert(tb[j] == q);
                                        }
                                    }
                                }
                                assert forall|j: int| 0 <= j < nv.len() implies #[trigger] name_map_view(t2id)[nv[j]] == j by {
                                    if j < tb.len() {
                                        assert(nv[j] == tb[j]);
                                        assert(tb[j] != w@);
                                    }
                                }
                                assert(nv[tb.len() as int] == w@);
                            }
                            x + nts_len as u32
                        },
                    }
                };
                ids.push(id);
                proof {
                    assert(ids@ =~= ids_of_words(nts, t0, wsv.take(k + 1)));
                }
                k = k + 1;
            }
            proof {
                assert(wsv.take(wsv.len() as int) =~= wsv);
            }
            while prod.len() <= lhs_id
                invariant
                    groups_view(prod@) == (if prods_after(lv, nts, i as int).len() <= pos_of(nts, lhs_text(lv[i as int])) {
                        prods_after(lv, nts, i as int) + Seq::new(
                            (prod@.len() - prods_after(lv, nts, i as int).len()) as nat,
                            |q: int| Seq::<(Seq<u32>, u32)>::empty(),
                        )
                    } else {
                        prods_after(lv, nts, i as int)
                    }),
                    prod@.len() >= prods_after(lv, nts, i as int).len(),
                    prod@.len() > prods_after(lv, nts, i as int).len() ==> prod@.len() <= lhs_id + 1,
                    prod@.len() > prods_after(lv, nts, i as int).len() ==> prods_after(lv, nts, i as int).len() <= lhs_id,
                    lhs_id == pos_of(nts, lhs_text(lv[i as int])),
                    lhs_id < nts.len(),
                decreases lhs_id + 1 - prod@.len(),
            {
                let ghost before = groups_view(prod@);
                let e: Vec<(Vec<u32>, u32)> = Vec::new();
                assert(e@.map_values(|x: (Vec<u32>, u32)| (x.0@, x.1)) =~= Seq::<(Seq<u32>, u32)>::empty());
                prod.push(e);
                assert(groups_view(prod@) =~= before.push(Seq::empty()));
                assert(groups_view(prod@) =~= (if prods_after(lv, nts, i as int).len() <= pos_of(nts, lhs_text(lv[i as int])) {
                    prods_after(lv, nts, i as int) + Seq::new(
                        (prod@.len() - prods_after(lv, nts, i as int).len()) as nat,
                        |q: int| Seq::<(Seq<u32>, u32)>::empty(),
                    )
                } else {
                    prods_after(lv, nts, i as int)
                }));
            }
            let ghost gp = groups_view(prod@);
            let ghost old_prod = prod@;
            let mut grp = prod.remove(lhs_id);
            let ghost g0 = grp@;
            let ghost idsv = ids@;
            grp.push((ids, i as u32));
            let ghost gv = grp@;
            let ghost gvec = grp;
            prod.insert(lhs_id, grp);
            proof {
                assert(gv =~= g0.push(gv[gv.len() - 1]));
                assert(gv[gv.len() - 1].0@ == idsv);
                assert(gvec@ == gv);
                assert(prod@ =~= old_prod.update(lhs_id as int, gvec));
                assert(gv.map_values(|x: (Vec<u32>, u32)| (x.0@, x.1)) =~= gp[lhs_id as int].push((idsv, i as u32)));
                assert(groups_view(prod@) =~= gp.update(lhs_id as int, gp[lhs_id as int].push((ids@, i as u32))));
                assert(groups_view(prod@) =~= prods_after(lv, nts, i + 1));
            }
            i = i + 1;
        }
        let mut start: Vec<u32> = Vec::new();
        start.push(0);
        let mut last: Vec<(Vec<u32>, u32)> = Vec::new();
        last.push((start, ls.len() as u32));
        let ghost gp = groups_view(prod@);
        proof {
            assert(start@ =~= seq![0u32]);
            assert(last@[0].0@ == seq![0u32]);
            assert(last@.map_values(|x: (Vec<u32>, u32)| (x.0@, x.1)) =~= seq![(seq![0u32], n as u32)]);
        }
        prod.push(last);
        proof {
            assert(groups_view(prod@) =~= gp.push(seq![(seq![0u32], n as u32)]));
        }
        SimpleGrammar { prod, nt, t }
    }
}

/// Reads the grammar in `text` as `from_text` does, or gives `None` where `from_text` cannot
/// (see `simple_text_ok`).
pub fn try_from_text(text: &str) -> (r: Option<SimpleGrammar>)
    ensures
        r is Some <==> simple_text_ok(text@),
        r matches Some(g) ==> g@ == simple_spec(text@),
{
    let ls = lines(text);
    let ghost lv = ls@.map_values(|w: &str| w@);
    let ghost n = lv.len() as int;
    assert(lv == text_lines(text@));
    proof {
        lemma_lhs_names_contains(lv, n);
    }
    let ghost names = lhs_names(lv, n);
    if ls.len() >= 0xffff_fffb {
        proof {
            lemma_terms_lines_grow(lv, 0, n);
            assert(builtin_simple_terms().len() == 3);
            assert(terms_after_lines(lv, 0) == builtin_simple_terms());
        }
        return None;
    }
    let mut lhs_set = name_map_new();
    let mut i: usize = 0;
    while i < ls.len()
        invariant
            lv == ls@.map_values(|w: &str| w@),
            i <= lv.len(),
            forall|k: Seq<char>| #[trigger] name_map_view(lhs_set).contains_key(k) <==> exists|j: int| 0 <= j < i && k == lhs_text(lv[j]),
        decreases lv.len() - i,
    {
        let lhs = lhs_of(ls[i]);
        assert(lv[i as int] == ls@[i as int]@);
        name_map_insert(&mut lhs_set, lhs, 0);
        proof {
            assert forall|k: Seq<char>| #[trigger] name_map_view(lhs_set).contains_key(k) <==> exists|j: int| 0 <= j < i + 1 && k == lhs_text(lv[j]) by {
                if k == lhs@ {
                    assert(k == lhs_text(lv[i as int]));
                }
                if exists|j: int| 0 <= j < i + 1 && k == lhs_text(lv[j]) {
                    let j = choose|j: int| 0 <= j < i + 1 && k == lhs_text(lv[j]);
                    if j < i {
                        assert(exists|j2: int| 0 <= j2 < i && k == lhs_text(lv[j2]));
                    }
                }
            }
        }
        i = i + 1;
    }
    proof {
        assert forall|k: Seq<char>| #[trigger] name_map_view(lhs_set).contains_key(k) <==> names.contains(k) by {
            if names.contains(k) {
                let q = choose|q: int| 0 <= q < names.len() && names[q] == k;
                let j = choose|j: int| 0 <= j < n && #[trigger] names[q] == lhs_text(lv[j]);
            }
            if name_map_view(lhs_set).contains_key(k) {
                let j = choose|j: int| 0 <= j < n && k == lhs_text(lv[j]);
                assert(names.contains(lhs_text(lv[j])));
            }
        }
    }
    let mut term_set = name_map_new();
    name_map_insert(&mut term_set, "ε", 0);
    name_map_insert(&mut term_set, "#", 0);
    name_map_insert(&mut term_set, "", 0);
    let mut count: usize = 3;
    proof {
        reveal_strlit("ε");
        reveal_strlit("#");
        reveal_strlit("");
        let tv = builtin_simple_terms();
        assert("ε"@ =~= tv[0]);
        assert("#"@ =~= tv[1]);
        assert(""@ =~= tv[2]);
        assert forall|k: Seq<char>| #[trigger] name_map_view(term_set).contains_key(k) <==> tv.contains(k) by {
            if tv.contains(k) {
                let j = choose|j: int| 0 <= j < tv.len() && tv[j] == k;
                assert(j == 0 || j == 1 || j == 2);
            }
            if name_map_view(term_set).contains_key(k) {
                if k == tv[0] {} else if k == tv[1] {} else {
                    assert(k == tv[2]);
                }
            }
        }
    }
    let mut i: usize = 0;
    while i < ls.len()
        invariant
            lv == ls@.map_values(|w: &str| w@),
            lv == text_lines(text@),
            n == lv.len(),
            n < 0xffff_fffb,
            names == lhs_names(lv, n),
            forall|k: Seq<char>| #[trigger] name_map_view(lhs_set).contains_key(k) <==> names.contains(k),
            i <= lv.len(),
            forall|k: Seq<char>| #[trigger] name_map_view(term_set).contains_key(k) <==> terms_after_lines(lv, i as int).contains(k),
            count == terms_after_lines(lv, i as int).len(),
            count + n + 1 < u32::MAX,
            forall|q: int|
                0 <= q < i ==> {
                    &&& arrow_at(#[trigger] lv[q]) is Some
                    &&& lhs_text(lv[q]).len() > 0
                    &&& upper(lhs_text(lv[q])[0])
                    &&& forall|w: Seq<char>| words(rhs_text(lv[q])).contains(w) && upper(w[0]) ==> names.contains(w)
                },
        decreases lv.len() - i,
    {
        let l = ls[i];
        assert(lv[i as int] == l@);
        let cs = chars_of(l);
        if arrow_pos(&cs).is_none() {
            return None;
        }
        let lhs = lhs_of(l);
        if lhs.unicode_len() == 0 {
            return None;
        }
        if !char_is_uppercase(lhs.get_char(0)) {
            return None;
        }
        let rhs = rhs_of(l);
        let ws = split_whitespace(rhs);
        let ghost wsv = ws@.map_values(|w: &str| w@);
        let ghost t0 = terms_after_lines(lv, i as int);
        proof {
            lemma_words_nonempty(rhs@);
            assert(wsv.take(0) =~= Seq::<Seq<char>>::empty());
        }
        let mut k: usize = 0;
        while k < ws.len()
            invariant
                wsv == ws@.map_values(|w: &str| w@),
                wsv == words(rhs_text(lv[i as int])),
                forall|q: int| 0 <= q < wsv.len() ==> (#[trigger] wsv[q]).len() > 0,
                n < 0xffff_fffb,
                n == ls@.len(),
                lv == text_lines(text@),
                n == lv.len(),
                i < n,
                t0 == terms_after_lines(lv, i as int),
                names == lhs_names(lv, n),
                forall|x: Seq<char>| #[trigger] name_map_view(lhs_set).contains_key(x) <==> names.contains(x),
                k <= wsv.len(),
                forall|x: Seq<char>| #[trigger] name_map_view(term_set).contains_key(x) <==> terms_after_words(t0, wsv.take(k as int)).contains(x),
                count == terms_after_words(t0, wsv.take(k as int)).len(),
                count + n + 1 < u32::MAX,
                forall|q: int| 0 <= q < k ==> upper((#[trigger] wsv[q])[0]) ==> names.contains(wsv[q]),
            decreases wsv.len() - k,
        {
            let w = ws[k];
            assert(wsv[k as int] == w@);
            let ghost tb = terms_after_words(t0, wsv.take(k as int));
            proof {
                assert(wsv.take(k + 1).drop_last() =~= wsv.take(k as int));
                assert(wsv.take(k + 1).last() == w@);
            }
            if char_is_uppercase(w.get_char(0)) {
                if name_map_get(&lhs_set, w).is_none() {
                    proof {
                        assert(words(rhs_text(lv[i as int])).contains(w@));
                        assert(!names.contains(w@));
                        assert(lv[i as int] == text_lines(text@)[i as int]);
                        assert(upper(w@[0]));
                        assert(!simple_text_ok(text@));
                    }
                    return None;
                }
            } else if name_map_get(&term_set, w).is_none() {
                name_map_insert(&mut term_set, w, 0);
                proof {
                    let nv = tb.push(w@);
                    assert forall|x: Seq<char>| #[trigger] name_map_view(term_set).contains_key(x) <==> nv.contains(x) by {
                        if x == w@ {
                            assert(nv[nv.len() - 1] == x);
                        } else if tb.contains(x) {
                            let j = choose|j: int| 0 <= j < tb.len() && tb[j] == x;
                            assert(nv[j] == x);
                        } else if nv.contains(x) {
                            let j = choose|j: int| 0 <= j < nv.len() && nv[j] == x;
                            if j < tb.len() {
                                assert(tb[j] == x);
                            }
                        }
                    }
                }
                proof {
                    assert(!tb.contains(w@));
                    assert(terms_after_words(t0, wsv.take(k + 1)) == term_step(tb, w@));
                    assert(terms_after_words(t0, wsv.take(k + 1)).len() == count + 1);
                }
                if count + n_plus(ls.len()) >= 0xffff_fffe {
                    proof {
                        lemma_terms_words_grow(t0, wsv, k + 1);
                        lemma_terms_lines_grow(lv, i + 1, n);
                        assert(terms_after_lines(lv, i + 1) == terms_after_words(t0, wsv));
                        assert(!simple_text_ok(text@));
                    }
                    return None;
                }
                count = count + 1;
            }
            k = k + 1;
        }
        proof {
            assert(wsv.take(wsv.len() as int) =~= wsv);
            assert forall|w: Seq<char>| words(rhs_text(lv[i as int])).contains(w) && upper(w[0]) implies names.contains(w) by {
                let q = choose|q: int| 0 <= q < wsv.len() && wsv[q] == w;
                assert(upper(wsv[q][0]));
            }
        }
        i = i + 1;
    }
    Some(SimpleGrammar::from_text(text))
}

fn n_plus(n: usize) -> (r: usize)
    requires
        n < 0xffff_fffb,
    ensures
        r == n + 1,
{
    n + 1
}

} // verus!
