use vstd::prelude::*;
use crate::grammar::slice_subrange;

verus! {

/// The tables of a lexer's DFA: `acc[s]` is the token that state `s` accepts (or `eof` when it
/// accepts none), `ec[c]` the class of byte `c` (its low seven bits), `edge[s][e]` the state
/// after class `e` in state `s`, state 0 being both the start and the dead state. A token of
/// type `eps` is skipped.
pub struct DfaTables {
    pub acc: Vec<u32>,
    pub ec: Vec<u8>,
    pub edge: Vec<Vec<u32>>,
    pub eof: u32,
    pub eps: u32,
}

impl DfaTables {
    /// The tables are complete, and the start state accepts no skipped token.
    pub open spec fn wf(&self) -> bool {
        &&& self.ec@.len() == 128
        &&& self.edge@.len() >= 1
        &&& self.acc@.len() == self.edge@.len()
        &&& forall|s: int, c: int|
            #![trigger self.edge@[s], self.ec@[c]]
            0 <= s < self.edge@.len() && 0 <= c < 128 ==> (self.ec@[c] as int) < self.edge@[s]@.len()
        &&& forall|s: int, e: int| 0 <= s < self.edge@.len() && 0 <= e < self.edge@[s]@.len() ==> #[trigger] self.edge@[s]@[e] < self.edge@.len()
        &&& self.acc@[0] != self.eps
    }

    /// The state after byte `ch` in state `st`.
    pub open spec fn step(&self, st: int, ch: u8) -> int {
        self.edge@[st]@[self.ec@[(ch % 128) as int] as int] as int
    }

    /// Runs the DFA over `s` from position `i` in state `st`, where `last` is the most recent
    /// token type met: the position where the DFA dies (or the end), and the token type.
    pub open spec fn scan(&self, s: Seq<u8>, st: int, i: int, last: u32) -> (int, u32)
        decreases s.len() - i,
    {
        if i >= s.len() || i < 0 {
            (i, last)
        } else {
            let nxt = self.step(st, s[i]);
            let acc = self.acc@[nxt];
            let last2 = if acc != self.eof { acc } else { last };
            if nxt == 0 {
                (i, last2)
            } else {
                self.scan(s, nxt, i + 1, last2)
            }
        }
    }
}

/// The line and column after reading `p` from `(line, col)`.
pub open spec fn advance_pos(line: int, col: int, p: Seq<u8>) -> (int, int)
    decreases p.len(),
{
    if p.len() == 0 {
        (line, col)
    } else {
        let lc = advance_pos(line, col, p.drop_last());
        if p.last() == 10 {
            (lc.0 + 1, 1)
        } else {
            (lc.0, lc.1 + 1)
        }
    }
}

pub proof fn lemma_advance_bound(line: int, col: int, p: Seq<u8>)
    requires
        line >= 0,
        col >= 0,
    ensures
        line <= advance_pos(line, col, p).0 <= line + p.len(),
        1 <= advance_pos(line, col, p).1 || (advance_pos(line, col, p).1 == col && p.len() == 0),
        advance_pos(line, col, p).1 <= col + p.len(),
    decreases p.len(),
{
    if p.len() > 0 {
        lemma_advance_bound(line, col, p.drop_last());
    }
}

/// A token: its type, its text, and the line and column where it starts.
pub struct Token<'a> {
    pub ty: u32,
    pub piece: &'a [u8],
    pub line: u32,
    pub col: u32,
}

pub struct TokenView {
    pub ty: u32,
    pub piece: Seq<u8>,
    pub line: u32,
    pub col: u32,
}

impl<'a> Token<'a> {
    pub open spec fn view(&self) -> TokenView {
        TokenView { ty: self.ty, piece: self.piece@, line: self.line, col: self.col }
    }
}

/// What `next` does on the input `s` at `(line, col)`: the token it returns, and the input and
/// position that remain.
pub open spec fn lex_next(d: DfaTables, s: Seq<u8>, line: int, col: int) -> (Option<TokenView>, Seq<u8>, int, int)
    decreases s.len(),
{
    if s.len() == 0 {
        (Some(TokenView { ty: d.eof, piece: Seq::empty(), line: line as u32, col: col as u32 }), s, line, col)
    } else {
        let r = d.scan(s, 0, 0, d.eof);
        let i = r.0;
        let last = r.1;
        let pos = advance_pos(line, col, s.take(i));
        if last == d.eof {
            (None, s, pos.0, pos.1)
        } else if last != d.eps {
            (Some(TokenView { ty: last, piece: s.take(i), line: line as u32, col: col as u32 }), s.skip(i), pos.0, pos.1)
        } else if i >= s.len() {
            (Some(TokenView { ty: d.eof, piece: Seq::empty(), line: pos.0 as u32, col: pos.1 as u32 }), s.skip(i), pos.0, pos.1)
        } else if i > 0 {
            lex_next(d, s.skip(i), pos.0, pos.1)
        } else {
            (None, s, pos.0, pos.1)
        }
    }
}

/// A lexer over a byte string, with the position of its next byte.
pub struct Lexer<'a> {
    pub string: &'a [u8],
    pub cur_line: u32,
    pub cur_col: u32,
}

pub open spec fn opt_token_view<'a>(t: Option<Token<'a>>) -> Option<TokenView> {
    match t {
        Some(t) => Some(t@),
        None => None,
    }
}

proof fn lemma_scan_step(d: DfaTables, s: Seq<u8>, st: int, i: int, last: u32)
    requires
        0 <= i < s.len(),
        d.step(st, s[i]) != 0,
    ensures
        d.scan(s, st, i, last) == d.scan(s, d.step(st, s[i]), i + 1, if d.acc@[d.step(st, s[i])] != d.eof { d.acc@[d.step(st, s[i])] } else { last }),
{
}

pub proof fn lemma_scan_range(d: DfaTables, s: Seq<u8>, st: int, i: int, last: u32)
    requires
        0 <= i <= s.len(),
    ensures
        i <= d.scan(s, st, i, last).0 <= s.len(),
    decreases s.len() - i,
{
    if i < s.len() {
        let nxt = d.step(st, s[i]);
        if nxt != 0 {
            let acc = d.acc@[nxt];
            lemma_scan_range(d, s, nxt, i + 1, if acc != d.eof { acc } else { last });
        }
    }
}

impl<'a> Lexer<'a> {
    /// The positions fit in `u32` for all of the input.
    pub open spec fn fits(&self) -> bool {
        self.cur_line + self.string@.len() < u32::MAX && self.cur_col + self.string@.len() < u32::MAX
    }

    /// A lexer at the start of `string`, line 1, column 1.
    pub fn new(string: &'a [u8]) -> (r: Lexer<'a>)
        ensures
            r.string@ == string@,
            r.cur_line == 1,
            r.cur_col == 1,
    {
        Lexer { string, cur_line: 1, cur_col: 1 }
    }

    /// The next token: the DFA runs from the start state until it dies, and the token has the
    /// type of the last accepting state it passed; skipped tokens are dropped, `eof` comes at
    /// the end of the input, and `None` where no token matches.
    pub fn next(&mut self, d: &DfaTables) -> (r: Option<Token<'a>>)
        requires
            d.wf(),
            old(self).fits(),
        ensures
            r is Some ==> final(self).fits(),
            opt_token_view(r) == lex_next(*d, old(self).string@, old(self).cur_line as int, old(self).cur_col as int).0,
            final(self).string@ == lex_next(*d, old(self).string@, old(self).cur_line as int, old(self).cur_col as int).1,
            final(self).cur_line == lex_next(*d, old(self).string@, old(self).cur_line as int, old(self).cur_col as int).2,
            final(self).cur_col == lex_next(*d, old(self).string@, old(self).cur_line as int, old(self).cur_col as int).3,
    {
        if self.string.len() == 0 {
            let tok = Token { ty: d.eof, piece: slice_subrange(self.string, 0, 0), line: self.cur_line, col: self.cur_col };
            assert(tok@.piece =~= Seq::<u8>::empty());
            assert(tok@ == TokenView { ty: d.eof, piece: Seq::empty(), line: self.cur_line, col: self.cur_col });
            return Some(tok);
        }
        let ghost s0 = self.string@;
        let ghost l0 = self.cur_line as int;
        let ghost c0 = self.cur_col as int;
        let mut line = self.cur_line;
        let mut col = self.cur_col;
        let mut last_acc = d.eof;
        let mut state: usize = 0;
        let mut i: usize = 0;
        loop
            invariant
                d.wf(),
                s0 == old(self).string@,
                l0 == old(self).cur_line,
                c0 == old(self).cur_col,
                self.string@.len() > 0,
                lex_next(*d, s0, l0, c0) == lex_next(*d, self.string@, line as int, col as int),
                line + self.string@.len() < u32::MAX,
                col + self.string@.len() < u32::MAX,
                0 <= i <= self.string@.len(),
                state < d.edge@.len(),
                i == 0 ==> state == 0 && last_acc == d.eof,
                d.scan(self.string@, state as int, i as int, last_acc) == d.scan(self.string@, 0, 0, d.eof),
                (self.cur_line as int, self.cur_col as int) == advance_pos(line as int, col as int, self.string@.take(i as int)),
            decreases self.string@.len(), self.string@.len() - i,
        {
            let ghost s = self.string@;
            let ghost lc = (self.cur_line as int, self.cur_col as int);
            if i >= self.string.len() {
                proof {
                    assert(s.take(i as int) =~= s);
                    assert(d.scan(s, state as int, i as int, last_acc) == (i as int, last_acc));
                    assert(lex_next(*d, s, line as int, col as int) == if last_acc == d.eof {
                        (None, s, lc.0, lc.1)
                    } else if last_acc != d.eps {
                        (Some(TokenView { ty: last_acc, piece: s.take(i as int), line, col }), s.skip(i as int), lc.0, lc.1)
                    } else {
                        (Some(TokenView { ty: d.eof, piece: Seq::empty(), line: lc.0 as u32, col: lc.1 as u32 }), s.skip(i as int), lc.0, lc.1)
                    });
                    lemma_advance_bound(line as int, col as int, s);
                }
                if last_acc == d.eof {
                    return None;
                }
                let piece = slice_subrange(self.string, 0, i);
                self.string = slice_subrange(self.string, i, self.string.len());
                proof {
                    assert(piece@ =~= s.take(i as int));
                    assert(self.string@ =~= s.skip(i as int));
                }
                if last_acc != d.eps {
                    let tok = Token { ty: last_acc, piece, line, col };
                    assert(tok@ == TokenView { ty: last_acc, piece: s.take(i as int), line, col });
                    return Some(tok);
                } else {
                    let empty = slice_subrange(piece, 0, 0);
                    let tok = Token { ty: d.eof, piece: empty, line: self.cur_line, col: self.cur_col };
                    assert(tok@.piece =~= Seq::<u8>::empty());
                    assert(tok@ == TokenView { ty: d.eof, piece: Seq::empty(), line: lc.0 as u32, col: lc.1 as u32 });
                    return Some(tok);
                }
            }
            let ch = self.string[i];
            let e = d.ec[(ch % 128) as usize];
            let nxt = d.edge[state][e as usize];
            let acc = d.acc[nxt as usize];
            let ghost last_old = last_acc;
            let ghost state_old = state as int;
            last_acc = if acc != d.eof { acc } else { last_acc };
            state = nxt as usize;
            proof {
                assert(d.step(state_old, ch) == nxt);
            }
            if nxt == 0 {
                proof {
                    assert(d.scan(s, state_old, i as int, last_old) == (i as int, last_acc));
                    lemma_advance_bound(line as int, col as int, s.take(i as int));
                    assert(lex_next(*d, s, line as int, col as int) == if last_acc == d.eof {
                        (None, s, lc.0, lc.1)
                    } else if last_acc != d.eps {
                        (Some(TokenView { ty: last_acc, piece: s.take(i as int), line, col }), s.skip(i as int), lc.0, lc.1)
                    } else if i as int >= s.len() {
                        (Some(TokenView { ty: d.eof, piece: Seq::empty(), line: lc.0 as u32, col: lc.1 as u32 }), s.skip(i as int), lc.0, lc.1)
                    } else if i > 0 {
                        lex_next(*d, s.skip(i as int), lc.0, lc.1)
                    } else {
                        (None, s, lc.0, lc.1)
                    });
                    if i == 0 {
                        assert(state_old == 0);
                        assert(last_acc != d.eps);
                    }
                }
                if last_acc == d.eof {
                    return None;
                }
                let piece = slice_subrange(self.string, 0, i);
                let rest = slice_subrange(self.string, i, self.string.len());
                proof {
                    assert(piece@ =~= s.take(i as int));
                    assert(rest@ =~= s.skip(i as int));
                }
                if last_acc != d.eps {
                    self.string = rest;
                    let tok = Token { ty: last_acc, piece, line, col };
                    assert(tok@ == TokenView { ty: last_acc, piece: s.take(i as int), line, col });
                    return Some(tok);
                } else {
                    proof {
                        assert(i > 0);
                        assert(lex_next(*d, s, line as int, col as int) == lex_next(*d, s.skip(i as int), lc.0, lc.1));
                    }
                    self.string = rest;
                    line = self.cur_line;
                    col = self.cur_col;
                    last_acc = d.eof;
                    state = 0;
                    i = 0;
                    assert(self.string@.take(0) =~= Seq::<u8>::empty());
                }
            } else {
                proof {
                    lemma_scan_step(*d, s, state_old, i as int, last_old);
                    lemma_advance_bound(line as int, col as int, s.take(i as int));
                    assert(s.take(i + 1).drop_last() =~= s.take(i as int));
                    assert(s.take(i + 1).last() == ch);
                }
                if ch == 10u8 {
                    self.cur_line = self.cur_line + 1;
                    self.cur_col = 1;
                } else {
                    self.cur_col = self.cur_col + 1;
                }
                i = i + 1;
            }
        }
    }
}

} // verus!
