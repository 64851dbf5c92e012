use vstd::prelude::*;
use crate::text::{is_alpha, is_digit, is_ws, chars_of, char_is_alpha, char_is_digit, char_is_ws};

verus! {

/// A valid variable name: an ASCII letter followed by ASCII letters, digits and `_`.
pub open spec fn valid_name(s: Seq<char>) -> bool {
    &&& s.len() > 0
    &&& is_alpha(s[0])
    &&& forall|i: int| 1 <= i < s.len() ==> is_alpha(s[i]) || is_digit(s[i]) || s[i] == '_'
}

/// Tells whether `s` is a valid variable name (the names of the builtin terms are not).
pub fn validate_variable_name(s: &str) -> (b: bool)
    ensures
        b == valid_name(s@),
{
    let cs = chars_of(s);
    if cs.len() == 0 || !char_is_alpha(cs[0]) {
        return false;
    }
    let mut i: usize = 1;
    while i < cs.len()
        invariant
            cs@ == s@,
            1 <= i <= cs@.len(),
            is_alpha(cs@[0]),
            forall|j: int| 1 <= j < i ==> is_alpha(cs@[j]) || is_digit(cs@[j]) || cs@[j] == '_',
        decreases cs@.len() - i,
    {
        let c = cs[i];
        if !(char_is_alpha(c) || char_is_digit(c) || c == '_') {
            return false;
        }
        i = i + 1;
    }
    true
}

/// A matcher of valid variable names.
pub struct ValidName;

/// The matcher of valid variable names.
pub const VALID_NAME: ValidName = ValidName;

impl ValidName {
    pub fn is_match(&self, s: &str) -> (b: bool)
        ensures
            b == valid_name(s@),
    {
        validate_variable_name(s)
    }
}

/// The length of the run of non-whitespace characters at the start of `s`.
pub open spec fn word_len(s: Seq<char>) -> nat
    decreases s.len(),
{
    if s.len() == 0 || is_ws(s[0]) {
        0
    } else {
        1 + word_len(s.drop_first())
    }
}

/// The whitespace-separated words of `s` (`str::split_whitespace`).
pub open spec fn words(s: Seq<char>) -> Seq<Seq<char>>
    decreases s.len(),
{
    if s.len() == 0 {
        seq![]
    } else if is_ws(s[0]) {
        words(s.drop_first())
    } else {
        let n = word_len(s);
        proof {
            lemma_word_len(s);
        }
        seq![s.take(n as int)] + words(s.skip(n as int))
    }
}

pub proof fn lemma_word_len(s: Seq<char>)
    ensures
        word_len(s) <= s.len(),
        forall|i: int| 0 <= i < word_len(s) ==> !is_ws(s[i]),
        word_len(s) < s.len() ==> is_ws(s[word_len(s) as int]),
    decreases s.len(),
{
    if s.len() > 0 && !is_ws(s[0]) {
        lemma_word_len(s.drop_first());
        assert forall|i: int| 0 <= i < word_len(s) implies !is_ws(s[i]) by {
            if i > 0 {
                assert(s[i] == s.drop_first()[i - 1]);
            }
        }
    }
}

proof fn lemma_word_len_from(s: Seq<char>, i: int, j: int)
    requires
        0 <= i <= j <= s.len(),
        forall|k: int| i <= k < j ==> !is_ws(s[k]),
        j == s.len() || is_ws(s[j]),
    ensures
        word_len(s.skip(i)) == j - i,
    decreases j - i,
{
    if i < j {
        assert(s.skip(i).drop_first() =~= s.skip(i + 1));
        lemma_word_len_from(s, i + 1, j);
    } else {
        if j < s.len() {
            assert(s.skip(i)[0] == s[j]);
        }
    }
}

/// The whitespace-separated words of `s`, as slices of `s`.
pub fn split_whitespace(s: &str) -> (v: Vec<&str>)
    ensures
        v@.map_values(|w: &str| w@) == words(s@),
{
    let cs = chars_of(s);
    let n = cs.len();
    let mut v: Vec<&str> = Vec::new();
    let mut i: usize = 0;
    assert(s@.skip(0) =~= s@);
    while i < n
        invariant
            cs@ == s@,
            n == s@.len(),
            i <= n,
            v@.map_values(|w: &str| w@) + words(s@.skip(i as int)) == words(s@),
        decreases n - i,
    {
        if char_is_ws(cs[i]) {
            assert(s@.skip(i as int).drop_first() =~= s@.skip(i + 1));
            i = i + 1;
        } else {
            let mut j = i + 1;
            while j < n && !char_is_ws(cs[j])
                invariant
                    cs@ == s@,
                    n == s@.len(),
                    i < j <= n,
                    forall|k: int| i <= k < j ==> !is_ws(s@[k]),
                decreases n - j,
            {
                j = j + 1;
            }
            proof {
                lemma_word_len_from(s@, i as int, j as int);
                let t = s@.skip(i as int);
                assert(t.take((j - i) as int) =~= s@.subrange(i as int, j as int));
                assert(t.skip((j - i) as int) =~= s@.skip(j as int));
            }
            let w = s.substring_char(i, j);
            let ghost old_v = v@;
            v.push(w);
            assert(v@.map_values(|w: &str| w@) =~= old_v.map_values(|w: &str| w@).push(w@));
            i = j;
        }
    }
    assert(s@.skip(n as int) =~= Seq::<char>::empty());
    assert(v@.map_values(|w: &str| w@) + words(Seq::<char>::empty()) =~= v@.map_values(
        |w: &str| w@,
    ));
    v
}

/// The characters of `->`.
pub open spec fn arrow() -> Seq<char> {
    seq!['-', '>']
}

/// What `parse_arrow_prod` gives back for a line: its first word and the words after a second
/// word `->`, or nothing when the line has fewer than two words or the second is not `->`.
pub open spec fn arrow_prod(s: Seq<char>) -> Option<(Seq<char>, Seq<Seq<char>>)> {
    let w = words(s);
    if w.len() >= 2 && w[1] == arrow() {
        Some((w[0], w.skip(2)))
    } else {
        None
    }
}

/// Parses a `lhs -> rhs1 rhs2 ...` line.
pub fn parse_arrow_prod(s: &str) -> (r: Option<(&str, Vec<&str>)>)
    ensures
        r matches Some((lhs, rhs)) ==> arrow_prod(s@) == Some((lhs@, rhs@.map_values(|w: &str| w@))),
        r is None ==> arrow_prod(s@) is None,
{
    let sp = split_whitespace(s);
    let ghost ws = sp@.map_values(|w: &str| w@);
    if sp.len() < 2 {
        return None;
    }
    let second = chars_of(sp[1]);
    proof {
        reveal_strlit("->");
    }
    if !(second.len() == 2 && second[0] == '-' && second[1] == '>') {
        proof {
            assert(ws[1] == second@);
            if ws[1] == arrow() {
                assert(second@[0] == '-' && second@[1] == '>');
            }
        }
        return None;
    }
    assert(ws[1] =~= arrow());
    let mut rest: Vec<&str> = Vec::new();
    let mut i: usize = 2;
    while i < sp.len()
        invariant
            2 <= i <= sp@.len(),
            ws == sp@.map_values(|w: &str| w@),
            rest@.map_values(|w: &str| w@) == ws.subrange(2, i as int),
        decreases sp@.len() - i,
    {
        let ghost old_rest = rest@;
        rest.push(sp[i]);
        assert(rest@.map_values(|w: &str| w@) =~= old_rest.map_values(|w: &str| w@).push(sp@[i as int]@));
        assert(rest@.map_values(|w: &str| w@) =~= ws.subrange(2, i + 1));
        i = i + 1;
    }
    assert(ws.subrange(2, sp@.len() as int) =~= ws.skip(2));
    Some((sp[0], rest))
}

} // verus!
