use vstd::prelude::*;
use crate::collections::{ProdVec, prod_vec_items, prod_vec_len, prod_vec_get};
use crate::text::{push_str, push_char};

verus! {

/// The associativity of a priority row.
#[derive(Copy, Clone, Debug, PartialEq, Eq, Structural)]
pub enum Assoc {
    Left,
    Right,
    NoAssoc,
}

/// A row of the priority table: terms of equal priority and their associativity.
pub struct RawPriorityRow {
    pub assoc: Assoc,
    pub terms: Vec<String>,
}

/// One alternative of a production.
pub struct RawProductionRhs {
    pub rhs: Vec<String>,
    /// When present, one `(name, type)` pair per rhs token, for type checking.
    pub rhs_arg: Option<Vec<(String, String)>>,
    pub act: String,
    pub prec: Option<String>,
}

/// All the alternatives of a non-term.
pub struct RawProduction {
    pub lhs: String,
    pub ty: String,
    pub rhs: Vec<RawProductionRhs>,
}

/// A grammar as it is written in a configuration.
pub struct RawGrammar {
    pub header: String,
    pub epilogue: Option<String>,
    pub priority: Vec<RawPriorityRow>,
    /// Pairs of (regular expression, term), in order.
    pub lexical: indexmap::IndexMap<String, String>,
    pub lexer_field: String,
    pub lexer_action: String,
    pub parser_field: String,
    pub start: String,
    pub production: Vec<RawProduction>,
    pub parser_def: Option<String>,
}

/// The non-term that is added to the grammar with the production `_ -> Start`.
pub const START_NT_NAME: &'static str = "_";
pub const EPS: &'static str = "_Eps";
pub const EOF: &'static str = "_Eof";
pub const ERR: &'static str = "_Err";
pub const EPS_IDX: usize = 0;
pub const EOF_IDX: usize = 1;
pub const ERR_IDX: usize = 2;

pub open spec fn eps_name() -> Seq<char> {
    seq!['_', 'E', 'p', 's']
}

pub open spec fn eof_name() -> Seq<char> {
    seq!['_', 'E', 'o', 'f']
}

pub open spec fn err_name() -> Seq<char> {
    seq!['_', 'E', 'r', 'r']
}

pub open spec fn start_nt_name() -> Seq<char> {
    seq!['_']
}

/// The abstract form of an alternative.
pub struct RhsView {
    pub rhs: Seq<Seq<char>>,
    pub args: Option<Seq<(Seq<char>, Seq<char>)>>,
    pub act: Seq<char>,
    pub prec: Option<Seq<char>>,
}

/// The abstract form of a production.
pub struct RawProdView {
    pub lhs: Seq<char>,
    pub ty: Seq<char>,
    pub alts: Seq<RhsView>,
}

pub open spec fn strings_view(v: Seq<String>) -> Seq<Seq<char>> {
    v.map_values(|s: String| s@)
}

pub open spec fn pairs_view(v: Seq<(String, String)>) -> Seq<(Seq<char>, Seq<char>)> {
    v.map_values(|p: (String, String)| (p.0@, p.1@))
}

pub open spec fn opt_pairs_view(o: Option<Vec<(String, String)>>) -> Option<Seq<(Seq<char>, Seq<char>)>> {
    match o {
        Some(v) => Some(pairs_view(v@)),
        None => None,
    }
}

pub open spec fn opt_string_view(o: Option<String>) -> Option<Seq<char>> {
    match o {
        Some(s) => Some(s@),
        None => None,
    }
}

impl RawProductionRhs {
    pub open spec fn view(&self) -> RhsView {
        RhsView {
            rhs: strings_view(self.rhs@),
            args: opt_pairs_view(self.rhs_arg),
            act: self.act@,
            prec: opt_string_view(self.prec),
        }
    }
}

impl RawProduction {
    pub open spec fn view(&self) -> RawProdView {
        RawProdView { lhs: self.lhs@, ty: self.ty@, alts: self.rhs@.map_values(|r: RawProductionRhs| r@) }
    }
}

impl RawPriorityRow {
    pub open spec fn names(&self) -> Seq<Seq<char>> {
        strings_view(self.terms@)
    }
}

pub open spec fn prods_view(v: Seq<RawProduction>) -> Seq<RawProdView> {
    v.map_values(|p: RawProduction| p@)
}

/// The production `_ -> start` that `extend` adds.
pub open spec fn start_production(start: Seq<char>) -> RawProdView {
    RawProdView {
        lhs: start_nt_name(),
        ty: Seq::empty(),
        alts: seq![RhsView { rhs: seq![start], args: None, act: seq!['_', '1'], prec: None }],
    }
}

/// A terminal: its name and, if it is in the priority table, (priority, associativity).
pub struct Term {
    pub name: String,
    pub pri_assoc: Option<(u32, Assoc)>,
}

pub struct NonTerm {
    pub name: String,
    pub ty: String,
    /// Index in `prod` of the first production of this non-term.
    pub start_idx: usize,
}

/// A production of the grammar.
pub struct Prod {
    pub rhs: ProdVec,
    pub act: String,
    pub args: Option<Vec<(String, String)>>,
    /// Index in `nt` (counted from 0, not from `terms.len()`).
    pub lhs: u32,
    /// Index in `prod`.
    pub id: u32,
    pub pri: Option<u32>,
}

/// The abstract form of a production.
pub struct ProdSpec {
    pub rhs: Seq<u32>,
    pub act: Seq<char>,
    pub args: Option<Seq<(Seq<char>, Seq<char>)>>,
    pub lhs: u32,
    pub pri: Option<u32>,
}

pub type TermV = (Seq<char>, Option<(u32, Assoc)>);

pub type NtV = (Seq<char>, Seq<char>);

impl Term {
    pub open spec fn view(&self) -> TermV {
        (self.name@, self.pri_assoc)
    }
}

impl NonTerm {
    pub open spec fn view(&self) -> NtV {
        (self.name@, self.ty@)
    }
}

impl Prod {
    pub open spec fn view(&self) -> ProdSpec {
        ProdSpec {
            rhs: prod_vec_items(self.rhs),
            act: self.act@,
            args: opt_pairs_view(self.args),
            lhs: self.lhs,
            pri: self.pri,
        }
    }
}

/// A grammar whose tokens are numbered: terms in `[0, terms.len())`, then non-terms in
/// `[terms.len(), terms.len() + nt.len())`; `EPS_IDX`, `EOF_IDX` and `ERR_IDX` are terms.
pub struct Grammar {
    pub terms: Vec<Term>,
    pub nt: Vec<NonTerm>,
    pub prod: Vec<Prod>,
}

/// The abstract form of a grammar: its terms, its non-terms, and its productions grouped by
/// non-term (in the order of `nt`).
pub struct GrammarSpec {
    pub terms: Seq<TermV>,
    pub nts: Seq<NtV>,
    pub groups: Seq<Seq<ProdSpec>>,
}

pub open spec fn terms_view(v: Seq<Term>) -> Seq<TermV> {
    v.map_values(|t: Term| t@)
}

pub open spec fn nts_view(v: Seq<NonTerm>) -> Seq<NtV> {
    v.map_values(|n: NonTerm| n@)
}

/// Concatenates the groups in order.
pub open spec fn flat<A>(g: Seq<Seq<A>>) -> Seq<A>
    decreases g.len(),
{
    if g.len() == 0 {
        Seq::empty()
    } else {
        flat(g.drop_last()) + g.last()
    }
}

impl Grammar {
    pub open spec fn token_count(&self) -> int {
        (self.terms@.len() + self.nt@.len()) as int
    }

    pub open spec fn rhs(&self, p: int) -> Seq<u32> {
        prod_vec_items(self.prod@[p].rhs)
    }

    /// The index in `prod` just past the productions of non-term `i`.
    pub open spec fn end_idx(&self, i: int) -> int {
        if i + 1 < self.nt@.len() {
            self.nt@[i + 1].start_idx as int
        } else {
            self.prod@.len() as int
        }
    }

    /// The invariant of a grammar: the numbering and grouping described on `Grammar`.
    pub open spec fn wf(&self) -> bool {
        &&& self.terms@.len() >= 3
        &&& self.nt@.len() >= 1
        &&& self.prod@.len() >= 1
        &&& self.token_count() < u32::MAX
        &&& self.prod@.len() < u32::MAX
        &&& self.nt@[0].start_idx == 0
        &&& forall|i: int|
            0 <= i < self.nt@.len() ==> #[trigger] self.nt@[i].start_idx <= self.end_idx(i)
        &&& forall|i: int|
            0 <= i < self.nt@.len() ==> self.end_idx(i) <= self.prod@.len()
        &&& forall|i: int, p: int|
            #![trigger self.prod@[p].lhs, self.nt@[i].start_idx]
            0 <= i < self.nt@.len() && self.nt@[i].start_idx <= p < self.end_idx(i)
                ==> self.prod@[p].lhs == i
        &&& forall|p: int|
            0 <= p < self.prod@.len() ==> {
                &&& #[trigger] self.prod@[p].id == p
                &&& self.prod@[p].lhs < self.nt@.len()
                &&& forall|k: int| 0 <= k < self.rhs(p).len() ==> #[trigger] self.rhs(p)[k] < self.token_count()
            }
    }

    /// The abstract form of this grammar.
    pub open spec fn view(&self) -> GrammarSpec {
        GrammarSpec {
            terms: self.terms@.map_values(|t: Term| t@),
            nts: self.nt@.map_values(|n: NonTerm| n@),
            groups: Seq::new(
                self.nt@.len(),
                |i: int|
                    self.prod@.subrange(self.nt@[i].start_idx as int, self.end_idx(i)).map_values(
                        |p: Prod| p@,
                    ),
            ),
        }
    }

    /// The start non-term (as an index in `nt`) and its production, which is the last one.
    pub fn start(&self) -> (r: (u32, &Prod))
        requires
            self.wf(),
        ensures
            r.0 == self.nt@.len() - 1,
            *r.1 == self.prod@.last(),
    {
        ((self.nt.len() - 1) as u32, &self.prod[self.prod.len() - 1])
    }

    /// The number of tokens, terms and non-terms together.
    pub fn token_num(&self) -> (n: usize)
        requires
            self.wf(),
        ensures
            n == self.token_count(),
    {
        self.terms.len() + self.nt.len()
    }

    /// Converts a token id to an index in `nt`, if the token is not a term.
    pub fn as_nt(&self, ch: u32) -> (r: Option<usize>)
        ensures
            r == (if ch >= self.terms@.len() { Some((ch - self.terms@.len()) as usize) } else { None }),
    {
        if (ch as usize) >= self.terms.len() {
            Some(ch as usize - self.terms.len())
        } else {
            None
        }
    }

    /// The productions of the non-term with index `lhs` (in `nt`): `prod[start..end]`.
    pub fn get_prod(&self, lhs: usize) -> (r: &[Prod])
        requires
            self.wf(),
            lhs < self.nt@.len(),
        ensures
            r@ == self.prod@.subrange(self.nt@[lhs as int].start_idx as int, self.end_idx(lhs as int)),
    {
        let start = self.nt[lhs].start_idx;
        let end = if lhs + 1 < self.nt.len() { self.nt[lhs + 1].start_idx } else { self.prod.len() };
        slice_subrange(self.prod.as_slice(), start, end)
    }

    /// The name of the token with id `id`.
    pub fn show_token(&self, id: usize) -> (r: &str)
        requires
            id < self.token_count(),
        ensures
            r@ == (if id < self.terms@.len() { self.terms@[id as int].name@ } else {
                self.nt@[id - self.terms@.len()].name@
            }),
    {
        if id < self.terms.len() {
            self.terms[id].name.as_str()
        } else {
            self.nt[id - self.terms.len()].name.as_str()
        }
    }

    /// The text `lhs -> a b c` of production `id`, with `.` in place of the space before the
    /// token at `dot` (or at the end when `dot` is the rhs length).
    pub fn show_prod(&self, id: usize, dot: Option<u32>) -> (s: String)
        requires
            self.wf(),
            id < self.prod@.len(),
        ensures
            s@ == self.show_prod_spec(id as int, dot),
    {
        let prod = &self.prod[id];
        assert(self.prod@[id as int].id == id);
        let mut s = String::new();
        push_str(&mut s, self.nt[prod.lhs as usize].name.as_str());
        push_str(&mut s, " ->");
        let n = prod_vec_len(&prod.rhs);
        let mut i: usize = 0;
        while i < n
            invariant
                self.wf(),
                id < self.prod@.len(),
                *prod == self.prod@[id as int],
                n == self.rhs(id as int).len(),
                i <= n,
                s@ == self.show_prod_prefix(id as int, dot, i as int),
            decreases n - i,
        {
            let x = prod_vec_get(&prod.rhs, i);
            assert(self.prod@[id as int].id == id);
            assert(x == self.rhs(id as int)[i as int]);
            assert(x < self.token_count());
            let sep = if dot == Some(i as u32) { '.' } else { ' ' };
            push_char(&mut s, sep);
            push_str(&mut s, self.show_token(x as usize));
            i = i + 1;
        }
        if dot == Some(n as u32) {
            push_str(&mut s, ".");
        }
        s
    }

    /// The priority of production `id`.
    pub fn prod_pri(&self, id: u32) -> (r: Option<u32>)
        requires
            id < self.prod@.len(),
        ensures
            r == self.prod@[id as int].pri,
    {
        self.prod[id as usize].pri
    }

    /// The priority and associativity of term `ch`.
    pub fn term_pri_assoc(&self, ch: u32) -> (r: Option<(u32, Assoc)>)
        requires
            ch < self.terms@.len(),
        ensures
            r == self.terms@[ch as int].pri_assoc,
    {
        self.terms[ch as usize].pri_assoc
    }

    /// The number of non-terms.
    pub fn nt_num(&self) -> (n: usize)
        ensures
            n == self.nt@.len(),
    {
        self.nt.len()
    }

    /// The id of the term `_Eps`.
    pub fn eps(&self) -> (r: u32)
        ensures
            r == EPS_IDX,
    {
        EPS_IDX as u32
    }

    /// The id of the term `_Eof`.
    pub fn eof(&self) -> (r: u32)
        ensures
            r == EOF_IDX,
    {
        EOF_IDX as u32
    }

    /// The id of the term `_Err`.
    pub fn err(&self) -> (r: u32)
        ensures
            r == ERR_IDX,
    {
        ERR_IDX as u32
    }

    pub open spec fn token_name(&self, x: int) -> Seq<char> {
        if x < self.terms@.len() {
            self.terms@[x].name@
        } else {
            self.nt@[x - self.terms@.len()].name@
        }
    }

    pub open spec fn show_prod_prefix(&self, id: int, dot: Option<u32>, i: int) -> Seq<char>
        decreases i,
    {
        if i <= 0 {
            self.nt@[self.prod@[id].lhs as int].name@ + " ->"@
        } else {
            self.show_prod_prefix(id, dot, i - 1) + seq![
                if dot == Some((i - 1) as u32) { '.' } else { ' ' },
            ] + self.token_name(self.rhs(id)[i - 1] as int)
        }
    }

    pub open spec fn show_prod_spec(&self, id: int, dot: Option<u32>) -> Seq<char> {
        let n = self.rhs(id).len();
        self.show_prod_prefix(id, dot, n as int) + (if dot == Some(n as u32) { "."@ } else { Seq::empty() })
    }
}

/// `&s[start..end]`.
#[verifier::external_body]
pub(crate) fn slice_subrange<T>(s: &[T], start: usize, end: usize) -> (r: &[T])
    requires
        start <= end <= s@.len(),
    ensures
        r@ == s@.subrange(start as int, end as int),
{
    &s[start..end]
}

} // verus!
