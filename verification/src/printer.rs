use vstd::prelude::*;
use crate::text::{push_str, push_char, chars_of, string_of};

verus! {

/// `s` with a newline and then `indent` in place of each newline.
pub open spec fn indent_lines(s: Seq<char>, indent: Seq<char>) -> Seq<char>
    decreases s.len(),
{
    if s.len() == 0 {
        Seq::empty()
    } else {
        indent_lines(s.drop_last(), indent) + (if s.last() == '\n' { seq!['\n'] + indent } else { seq![s.last()] })
    }
}

/// A text builder that starts each line with the current indentation, two spaces a level.
pub struct IndentPrinter {
    indent: String,
    content: String,
}

impl IndentPrinter {
    /// The current indentation.
    pub closed spec fn indent(&self) -> Seq<char> {
        self.indent@
    }

    /// The text so far.
    pub closed spec fn content(&self) -> Seq<char> {
        self.content@
    }

    /// An empty text with no indentation.
    pub fn new() -> (r: IndentPrinter)
        ensures
            r.indent() == Seq::<char>::empty(),
            r.content() == Seq::<char>::empty(),
    {
        IndentPrinter { indent: String::new(), content: String::new() }
    }

    /// One more level of indentation.
    pub fn inc(&mut self) -> (r: &mut Self)
        ensures
            r.indent() == old(self).indent() + seq![' ', ' '],
            r.content() == old(self).content(),
            *final(self) == *final(r),
    {
        push_str(&mut self.indent, "  ");
        proof {
            reveal_strlit("  ");
        }
        self
    }

    /// One level of indentation less; there must be one.
    pub fn dec(&mut self) -> (r: &mut Self)
        requires
            old(self).indent().len() >= 2,
        ensures
            r.indent() == old(self).indent().take(old(self).indent().len() - 2),
            r.content() == old(self).content(),
            *final(self) == *final(r),
    {
        let cs = chars_of(self.indent.as_str());
        let mut kept: Vec<char> = Vec::new();
        let mut i: usize = 0;
        while i < cs.len() - 2
            invariant
                cs@ == self.indent@,
                cs@.len() >= 2,
                i <= cs@.len() - 2,
                kept@ == cs@.take(i as int),
            decreases cs@.len() - 2 - i,
        {
            kept.push(cs[i]);
            i = i + 1;
            assert(kept@ =~= cs@.take(i as int));
        }
        self.indent = string_of(&kept);
        self
    }

    /// Appends a line: the indentation, `s` and a newline.
    pub fn ln(&mut self, s: &str) -> (r: &mut Self)
        ensures
            r.indent() == old(self).indent(),
            r.content() == old(self).content() + old(self).indent() + s@ + seq!['\n'],
            *final(self) == *final(r),
    {
        push_str(&mut self.content, self.indent.as_str());
        push_str(&mut self.content, s);
        push_char(&mut self.content, '\n');
        self
    }

    /// Appends each line of `s` (split at newlines) as by `ln`.
    pub fn lns(&mut self, s: &str) -> (r: &mut Self)
        ensures
            r.indent() == old(self).indent(),
            r.content() == old(self).content() + old(self).indent() + indent_lines(s@, old(self).indent()) + seq!['\n'],
            *final(self) == *final(r),
    {
        let cs = chars_of(s);
        let ghost c0 = self.content@;
        push_str(&mut self.content, self.indent.as_str());
        let mut i: usize = 0;
        while i < cs.len()
            invariant
                cs@ == s@,
                self.indent@ == old(self).indent@,
                c0 == old(self).content@,
                i <= cs@.len(),
                self.content@ == c0 + self.indent@ + indent_lines(cs@.take(i as int), self.indent@),
            decreases cs@.len() - i,
        {
            let c = cs[i];
            proof {
                assert(cs@.take(i + 1).drop_last() =~= cs@.take(i as int));
                assert(cs@.take(i + 1).last() == c);
            }
            if c == '\n' {
                push_char(&mut self.content, '\n');
                push_str(&mut self.content, self.indent.as_str());
                assert(self.content@ =~= c0 + self.indent@ + indent_lines(cs@.take(i + 1), self.indent@));
            } else {
                push_char(&mut self.content, c);
                assert(self.content@ =~= c0 + self.indent@ + indent_lines(cs@.take(i + 1), self.indent@));
            }
            i = i + 1;
        }
        assert(cs@.take(cs@.len() as int) =~= cs@);
        push_char(&mut self.content, '\n');
        self
    }

    /// The text.
    pub fn finish(self) -> (r: String)
        ensures
            r@ == self.content(),
    {
        self.content
    }
}

/// The narrowest unsigned integer type that holds `x`.
pub fn min_u(x: usize) -> (r: &'static str)
    ensures
        r@ == (if x <= 255 { "u8"@ } else if x <= 65535 { "u16"@ } else { "u32"@ }),
{
    if x <= 255 {
        "u8"
    } else if x <= 65535 {
        "u16"
    } else {
        "u32"
    }
}

} // verus!
