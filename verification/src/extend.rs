use vstd::prelude::*;
use crate::collections::{NameMap, name_map_view, name_map_new, name_map_insert, name_map_get, lex_entries, lex_map_len, lex_map_get_index};
use crate::grammar::{RawProduction, RawGrammar, Grammar, START_NT_NAME, prods_view, flat};
use crate::grammar::{
    Assoc, RawPriorityRow, RawProductionRhs, Term, TermV, NonTerm, NtV, Prod, ProdSpec, RhsView,
    RawProdView, GrammarSpec, EPS, EOF, ERR, eps_name, eof_name, err_name, strings_view,
    start_production, terms_view, nts_view, pairs_view, opt_pairs_view,
};
use crate::collections::{prod_vec_new, prod_vec_push, prod_vec_items};
use crate::names::{valid_name, validate_variable_name};
use crate::text::{push_str, push_char, push_decimal, chars_of};

verus! {

/// Why a raw grammar cannot be extended.
pub enum GrammarError {
    InvalidTerm(Seq<char>),
    DuplicateTerm(Seq<char>),
    NoProduction,
    InvalidNonTerm(Seq<char>),
    NonTermIsTerm(Seq<char>),
    NonTermTypes(Seq<char>, Seq<char>, Seq<char>),
    UndefinedStart(Seq<char>),
    UndefinedToken(Seq<char>),
    UndefinedPrec(Seq<char>),
    /// lhs, rhs joined by spaces, rhs length, argument count
    ArgLen(Seq<char>, Seq<char>, nat, nat),
    /// lhs, rhs joined by spaces, token, its type, the argument's type
    ArgNonTerm(Seq<char>, Seq<char>, Seq<char>, Seq<char>, Seq<char>),
    /// lhs, rhs joined by spaces, token, the argument's type
    ArgTerm(Seq<char>, Seq<char>, Seq<char>, Seq<char>),
}

/// The message that reports an error.
pub open spec fn error_message(e: GrammarError) -> Seq<char> {
    match e {
        GrammarError::InvalidTerm(n) => "term is not a valid variable name: \""@ + n + "\""@,
        GrammarError::DuplicateTerm(n) => "duplicate term when assigning priority: \""@ + n + "\""@,
        GrammarError::NoProduction => "grammar must have at least one production rule"@,
        GrammarError::InvalidNonTerm(n) => "non-term is not a valid variable name: \""@ + n + "\""@,
        GrammarError::NonTermIsTerm(n) => "non-term has a duplicate name with term: \""@ + n + "\""@,
        GrammarError::NonTermTypes(n, t1, t2) => "non-term \""@ + n
            + "\" is assigned to different types: \""@ + t1 + "\" and \""@ + t2 + "\""@,
        GrammarError::UndefinedStart(n) => "start non-term \""@ + n + "\" undefined"@,
        GrammarError::UndefinedToken(n) => "production rhs contains undefined token: \""@ + n
            + "\""@,
        GrammarError::UndefinedPrec(n) => "prec uses undefined term: \""@ + n + "\""@,
        GrammarError::ArgLen(l, r, a, b) => "production \""@ + l + " -> "@ + r
            + "\" rhs and method arguments have different length: "@ + crate::text::decimal(a)
            + " vs "@ + crate::text::decimal(b),
        GrammarError::ArgNonTerm(l, r, t, nt_ty, ty) => "production \""@ + l + " -> "@ + r
            + "\" rhs and method arguments have conflict signature: `"@ + t + "` requires `"@
            + nt_ty + "`, while method takes `"@ + ty + "`"@,
        GrammarError::ArgTerm(l, r, t, ty) => "production \""@ + l + " -> "@ + r
            + "\" rhs and method arguments have conflict signature: `"@ + t
            + "` requires Token, while method takes `"@ + ty + "`"@,
    }
}

pub open spec fn names_of(ts: Seq<TermV>) -> Seq<Seq<char>> {
    ts.map_values(|t: TermV| t.0)
}

/// `m` maps each of `names` to its index, and has no other key.
pub open spec fn indexes(names: Seq<Seq<char>>, m: Map<Seq<char>, u32>) -> bool {
    &&& forall|k: Seq<char>| #[trigger] m.contains_key(k) <==> names.contains(k)
    &&& forall|i: int| 0 <= i < names.len() ==> m[#[trigger] names[i]] == i
}

pub open spec fn builtin_terms() -> Seq<TermV> {
    seq![(eps_name(), None), (eof_name(), None), (err_name(), None)]
}

pub open spec fn is_builtin(n: Seq<char>) -> bool {
    n == eps_name() || n == eof_name() || n == err_name()
}

pub open spec fn add_pri_term(
    acc: Result<Seq<TermV>, GrammarError>,
    name: Seq<char>,
    pa: (u32, Assoc),
    validate: bool,
) -> Result<Seq<TermV>, GrammarError> {
    match acc {
        Err(e) => Err(e),
        Ok(ts) => if validate && !valid_name(name) {
            Err(GrammarError::InvalidTerm(name))
        } else if names_of(ts).contains(name) {
            Err(GrammarError::DuplicateTerm(name))
        } else {
            Ok(ts.push((name, Some(pa))))
        },
    }
}

pub open spec fn add_row_terms(
    acc: Result<Seq<TermV>, GrammarError>,
    names: Seq<Seq<char>>,
    pa: (u32, Assoc),
    validate: bool,
) -> Result<Seq<TermV>, GrammarError>
    decreases names.len(),
{
    if names.len() == 0 {
        acc
    } else {
        add_pri_term(add_row_terms(acc, names.drop_last(), pa, validate), names.last(), pa, validate)
    }
}

/// The terms after the priority table: the builtin ones, then each term of each row, with the
/// row's index as its priority.
pub open spec fn priority_terms(rows: Seq<RawPriorityRow>, validate: bool) -> Result<
    Seq<TermV>,
    GrammarError,
>
    decreases rows.len(),
{
    if rows.len() == 0 {
        Ok(builtin_terms())
    } else {
        add_row_terms(
            priority_terms(rows.drop_last(), validate),
            rows.last().names(),
            ((rows.len() - 1) as u32, rows.last().assoc),
            validate,
        )
    }
}

pub open spec fn add_lex_term(acc: Result<Seq<TermV>, GrammarError>, name: Seq<char>, validate: bool) -> Result<
    Seq<TermV>,
    GrammarError,
> {
    match acc {
        Err(e) => Err(e),
        Ok(ts) => if !is_builtin(name) && validate && !valid_name(name) {
            Err(GrammarError::InvalidTerm(name))
        } else if names_of(ts).contains(name) {
            Ok(ts)
        } else {
            Ok(ts.push((name, None)))
        },
    }
}

pub open spec fn add_lex_terms(
    acc: Result<Seq<TermV>, GrammarError>,
    names: Seq<Seq<char>>,
    validate: bool,
) -> Result<Seq<TermV>, GrammarError>
    decreases names.len(),
{
    if names.len() == 0 {
        acc
    } else {
        add_lex_term(add_lex_terms(acc, names.drop_last(), validate), names.last(), validate)
    }
}

pub open spec fn lexical_names(lex: Seq<(Seq<char>, Seq<char>)>) -> Seq<Seq<char>> {
    lex.map_values(|p: (Seq<char>, Seq<char>)| p.1)
}

/// The terms of a grammar: the builtin ones, those of the priority table, then those of the
/// lexical rules that are new.
pub open spec fn parse_term_spec(
    priority: Seq<RawPriorityRow>,
    lexical: Seq<(Seq<char>, Seq<char>)>,
    validate: bool,
) -> Result<Seq<TermV>, GrammarError> {
    add_lex_terms(priority_terms(priority, validate), lexical_names(lexical), validate)
}

pub open spec fn row_count(rows: Seq<RawPriorityRow>) -> nat
    decreases rows.len(),
{
    if rows.len() == 0 {
        0
    } else {
        row_count(rows.drop_last()) + rows.last().terms@.len()
    }
}

/// The number of terms that the tables can name fits in a `u32`.
pub open spec fn term_count_bound(priority: Seq<RawPriorityRow>, lexical: Seq<(Seq<char>, Seq<char>)>) -> bool {
    &&& priority.len() < u32::MAX
    &&& row_count(priority) + lexical.len() + 3 < u32::MAX
}

pub proof fn lemma_add_row_terms_err(e: GrammarError, names: Seq<Seq<char>>, pa: (u32, Assoc), v: bool)
    ensures
        add_row_terms(Err(e), names, pa, v) == Err::<Seq<TermV>, GrammarError>(e),
    decreases names.len(),
{
    if names.len() > 0 {
        lemma_add_row_terms_err(e, names.drop_last(), pa, v);
    }
}

pub proof fn lemma_add_lex_terms_err(e: GrammarError, names: Seq<Seq<char>>, v: bool)
    ensures
        add_lex_terms(Err(e), names, v) == Err::<Seq<TermV>, GrammarError>(e),
    decreases names.len(),
{
    if names.len() > 0 {
        lemma_add_lex_terms_err(e, names.drop_last(), v);
    }
}

pub proof fn lemma_priority_terms_err(rows: Seq<RawPriorityRow>, k: int, v: bool)
    requires
        0 <= k <= rows.len(),
        priority_terms(rows.take(k), v) is Err,
    ensures
        priority_terms(rows, v) == priority_terms(rows.take(k), v),
    decreases rows.len() - k,
{
    if k < rows.len() {
        let e = priority_terms(rows.take(k), v)->Err_0;
        assert(rows.take(k + 1).drop_last() =~= rows.take(k));
        lemma_add_row_terms_err(e, rows.take(k + 1).last().names(), ((k + 1 - 1) as u32, rows.take(k + 1).last().assoc), v);
        lemma_priority_terms_err(rows, k + 1, v);
    } else {
        assert(rows.take(k) =~= rows);
    }
}

pub proof fn lemma_row_count_take(rows: Seq<RawPriorityRow>, k: int)
    requires
        0 <= k < rows.len(),
    ensures
        row_count(rows.take(k + 1)) == row_count(rows.take(k)) + rows[k].terms@.len(),
        row_count(rows.take(k + 1)) <= row_count(rows),
    decreases rows.len() - k,
{
    assert(rows.take(k + 1).drop_last() =~= rows.take(k));
    if k + 1 < rows.len() {
        lemma_row_count_take(rows, k + 1);
    } else {
        assert(rows.take(k + 1) =~= rows);
    }
}

/// Whether `a` and `b` hold the same characters.
pub fn str_eq(a: &str, b: &str) -> (r: bool)
    ensures
        r == (a@ == b@),
{
    let x = chars_of(a);
    let y = chars_of(b);
    if x.len() != y.len() {
        return false;
    }
    let mut i: usize = 0;
    while i < x.len()
        invariant
            x@ == a@,
            y@ == b@,
            x@.len() == y@.len(),
            i <= x@.len(),
            forall|j: int| 0 <= j < i ==> x@[j] == y@[j],
        decreases x@.len() - i,
    {
        if x[i] != y[i] {
            return false;
        }
        i = i + 1;
    }
    assert(x@ =~= y@);
    true
}

/// `prefix + name + suffix` as a new string.
pub fn quote_msg(prefix: &str, name: &str, suffix: &str) -> (s: String)
    ensures
        s@ == prefix@ + name@ + suffix@,
{
    let mut s = String::new();
    push_str(&mut s, prefix);
    push_str(&mut s, name);
    push_str(&mut s, suffix);
    s
}

proof fn lemma_names_push(ts: Seq<TermV>, t: TermV)
    ensures
        names_of(ts.push(t)) == names_of(ts).push(t.0),
{
    assert(names_of(ts.push(t)) =~= names_of(ts).push(t.0));
}

/// The terms of the priority table and of the lexical rules, numbered from 0 (the builtin
/// `EPS`, `EOF`, `ERR` first), with a map from name to id. When `validate_name` holds, every name
/// but a builtin one must be a valid variable name.
pub fn parse_term(priority: &Vec<RawPriorityRow>, lexical: &indexmap::IndexMap<String, String>, validate_name: bool) -> (r: Result<(Vec<Term>, NameMap), String>)
    requires
        term_count_bound(priority@, lex_entries(*lexical)),
    ensures
        (match parse_term_spec(priority@, lex_entries(*lexical), validate_name) {
            Ok(ts) => r matches Ok(p) && p.0@.map_values(|t: Term| t@) == ts && indexes(names_of(ts), name_map_view(p.1)),
            Err(e) => r matches Err(m) && m@ == error_message(e),
        }),
        r matches Ok(p) ==> 3 <= p.0@.len() <= row_count(priority@) + lex_entries(*lexical).len() + 3,
{
    proof {
        lemma_builtin_names();
    }
    let mut terms: Vec<Term> = Vec::new();
    terms.push(Term { name: String::from_str(EPS), pri_assoc: None });
    terms.push(Term { name: String::from_str(EOF), pri_assoc: None });
    terms.push(Term { name: String::from_str(ERR), pri_assoc: None });
    let mut map = name_map_new();
    name_map_insert(&mut map, EPS, 0);
    name_map_insert(&mut map, EOF, 1);
    name_map_insert(&mut map, ERR, 2);
    proof {
        let ts = terms@.map_values(|t: Term| t@);
        assert(ts =~= builtin_terms());
        let ns = names_of(ts);
        assert(ns =~= seq![eps_name(), eof_name(), err_name()]);
        assert forall|k: Seq<char>| #[trigger] name_map_view(map).contains_key(k) <==> ns.contains(k) by {
            if ns.contains(k) {
                let i = choose|i: int| 0 <= i < ns.len() && ns[i] == k;
                assert(i == 0 || i == 1 || i == 2);
            }
            if name_map_view(map).contains_key(k) {
                assert(k == eps_name() || k == eof_name() || k == err_name());
                if k == eps_name() { assert(ns[0] == k); }
                if k == eof_name() { assert(ns[1] == k); }
                if k == err_name() { assert(ns[2] == k); }
            }
        }
        assert(priority@.take(0) =~= Seq::<RawPriorityRow>::empty());
    }
    let mut r: usize = 0;
    while r < priority.len()
        invariant
            term_count_bound(priority@, lex_entries(*lexical)),
            r <= priority@.len(),
            priority_terms(priority@.take(r as int), validate_name) == Ok::<Seq<TermV>, GrammarError>(terms@.map_values(|t: Term| t@)),
            indexes(names_of(terms@.map_values(|t: Term| t@)), name_map_view(map)),
            terms@.len() == row_count(priority@.take(r as int)) + 3,
        decreases priority@.len() - r,
    {
        let row = &priority[r];
        let ghost start = terms@.map_values(|t: Term| t@);
        let ghost pa = (r as u32, row.assoc);
        proof {
            lemma_row_count_take(priority@, r as int);
            assert(priority@.take(r + 1).drop_last() =~= priority@.take(r as int));
            assert(priority@.take(r + 1).last() == *row);
            assert(row.names().take(0) =~= Seq::<Seq<char>>::empty());
        }
        let mut j: usize = 0;
        while j < row.terms.len()
            invariant
                term_count_bound(priority@, lex_entries(*lexical)),
                r < priority@.len(),
                *row == priority@[r as int],
                pa == (r as u32, row.assoc),
                priority_terms(priority@.take(r as int), validate_name) == Ok::<Seq<TermV>, GrammarError>(start),
                j <= row.terms@.len(),
                add_row_terms(Ok(start), row.names().take(j as int), pa, validate_name) == Ok::<Seq<TermV>, GrammarError>(terms@.map_values(|t: Term| t@)),
                indexes(names_of(terms@.map_values(|t: Term| t@)), name_map_view(map)),
                terms@.len() == row_count(priority@.take(r as int)) + 3 + j,
                row_count(priority@.take(r as int)) + row.terms@.len() <= row_count(priority@),
            decreases row.terms@.len() - j,
        {
            let name = row.terms[j].as_str();
            let ghost ts = terms@.map_values(|t: Term| t@);
            proof {
                assert(row.names().take(j + 1).drop_last() =~= row.names().take(j as int));
                assert(row.names().take(j + 1).last() == name@);
            }
            if validate_name && !validate_variable_name(name) {
                proof {
                    let e = GrammarError::InvalidTerm(name@);
                    assert(add_row_terms(Ok(start), row.names().take(j + 1), pa, validate_name) == Err::<Seq<TermV>, GrammarError>(e));
                    lemma_row_prefix_err(Ok(start), row.names(), j + 1, pa, validate_name);
                    lemma_take_succ(priority@, r as int);
                    assert(priority_terms(priority@.take(r + 1), validate_name) == Err::<Seq<TermV>, GrammarError>(e));
                    lemma_priority_terms_err(priority@, r + 1, validate_name);
                    lemma_add_lex_terms_err(e, lexical_names(lex_entries(*lexical)), validate_name);
                }
                return Err(quote_msg("term is not a valid variable name: \"", name, "\""));
            }
            if name_map_get(&map, name).is_some() {
                proof {
                    assert(names_of(ts).contains(name@));
                    let e = GrammarError::DuplicateTerm(name@);
                    assert(add_row_terms(Ok(start), row.names().take(j + 1), pa, validate_name) == Err::<Seq<TermV>, GrammarError>(e));
                    lemma_row_prefix_err(Ok(start), row.names(), j + 1, pa, validate_name);
                    lemma_take_succ(priority@, r as int);
                    assert(priority_terms(priority@.take(r + 1), validate_name) == Err::<Seq<TermV>, GrammarError>(e));
                    lemma_priority_terms_err(priority@, r + 1, validate_name);
                    lemma_add_lex_terms_err(e, lexical_names(lex_entries(*lexical)), validate_name);
                }
                return Err(quote_msg("duplicate term when assigning priority: \"", name, "\""));
            }
            let id = terms.len() as u32;
            name_map_insert(&mut map, name, id);
            terms.push(Term { name: String::from_str(name), pri_assoc: Some((r as u32, row.assoc)) });
            proof {
                lemma_indexes_push(ts, name_map_view(map), name@, Some(pa));
                assert(terms@.map_values(|t: Term| t@) =~= ts.push((name@, Some(pa))));
            }
            j = j + 1;
        }
        proof {
            assert(row.names().take(j as int) =~= row.names());
        }
        r = r + 1;
    }
    proof {
        assert(priority@.take(r as int) =~= priority@);
        assert(lexical_names(lex_entries(*lexical)).take(0) =~= Seq::<Seq<char>>::empty());
    }
    let ghost after_pri = terms@.map_values(|t: Term| t@);
    let n = lex_map_len(lexical);
    let mut k: usize = 0;
    while k < n
        invariant
            term_count_bound(priority@, lex_entries(*lexical)),
            n == lex_entries(*lexical).len(),
            k <= lex_entries(*lexical).len(),
            priority_terms(priority@, validate_name) == Ok::<Seq<TermV>, GrammarError>(after_pri),
            add_lex_terms(Ok(after_pri), lexical_names(lex_entries(*lexical)).take(k as int), validate_name) == Ok::<Seq<TermV>, GrammarError>(terms@.map_values(|t: Term| t@)),
            indexes(names_of(terms@.map_values(|t: Term| t@)), name_map_view(map)),
            terms@.len() <= row_count(priority@) + 3 + k,
            terms@.len() >= 3,
        decreases lex_entries(*lexical).len() - k,
    {
        let entry = lex_map_get_index(lexical, k);
        let name: &str = match entry {
            Some(p) => p.1.as_str(),
            None => "",
        };
        let ghost ts = terms@.map_values(|t: Term| t@);
        proof {
            assert(lexical_names(lex_entries(*lexical)).take(k + 1).drop_last() =~= lexical_names(lex_entries(*lexical)).take(k as int));
            assert(lexical_names(lex_entries(*lexical)).take(k + 1).last() == name@);
            lemma_builtin_names();
        }
        let builtin = str_eq(name, EOF) || str_eq(name, ERR) || str_eq(name, EPS);
        if !builtin && validate_name && !validate_variable_name(name) {
            proof {
                let e = GrammarError::InvalidTerm(name@);
                lemma_lex_prefix_err(Ok(after_pri), lexical_names(lex_entries(*lexical)), k + 1, validate_name);
            }
            return Err(quote_msg("term is not a valid variable name: \"", name, "\""));
        }
        if name_map_get(&map, name).is_none() {
            let id = terms.len() as u32;
            name_map_insert(&mut map, name, id);
            terms.push(Term { name: String::from_str(name), pri_assoc: None });
            proof {
                lemma_indexes_push(ts, name_map_view(map), name@, None);
                assert(terms@.map_values(|t: Term| t@) =~= ts.push((name@, None)));
            }
        } else {
            assert(names_of(ts).contains(name@));
        }
        k = k + 1;
    }
    proof {
        assert(lexical_names(lex_entries(*lexical)).take(k as int) =~= lexical_names(lex_entries(*lexical)));
    }
    Ok((terms, map))
}

proof fn lemma_indexes_push(ts: Seq<TermV>, m: Map<Seq<char>, u32>, name: Seq<char>, pa: Option<(u32, Assoc)>)
    requires
        !names_of(ts).contains(name),
        ts.len() < u32::MAX,
        indexes(names_of(ts), m.remove(name)),
        m.contains_key(name),
        m[name] == ts.len(),
    ensures
        indexes(names_of(ts.push((name, pa))), m),
{
    let ns = names_of(ts);
    let ns2 = names_of(ts.push((name, pa)));
    lemma_names_push(ts, (name, pa));
    assert forall|k: Seq<char>| #[trigger] m.contains_key(k) <==> ns2.contains(k) by {
        if k == name {
            assert(ns2[ns.len() as int] == name);
        } else {
            if m.contains_key(k) {
                assert(m.remove(name).contains_key(k));
                let i = choose|i: int| 0 <= i < ns.len() && ns[i] == k;
                assert(ns2[i] == k);
            }
            if ns2.contains(k) {
                let i = choose|i: int| 0 <= i < ns2.len() && ns2[i] == k;
                assert(i < ns.len());
                assert(ns[i] == k);
                assert(m.remove(name).contains_key(k));
            }
        }
    }
    assert forall|i: int| 0 <= i < ns2.len() implies m[#[trigger] ns2[i]] == i by {
        if i < ns.len() {
            assert(ns2[i] == ns[i]);
            assert(ns[i] != name) by {
                if ns[i] == name {
                    assert(ns.contains(name));
                }
            }
            assert(m.remove(name)[ns[i]] == i);
        }
    }
}

pub proof fn lemma_take_succ(rows: Seq<RawPriorityRow>, r: int)
    requires
        0 <= r < rows.len(),
    ensures
        rows.take(r + 1).drop_last() == rows.take(r),
        rows.take(r + 1).last() == rows[r],
        rows.take(r + 1).len() == r + 1,
{
    assert(rows.take(r + 1).drop_last() =~= rows.take(r));
}

pub proof fn lemma_builtin_names()
    ensures
        EPS@ == eps_name(),
        EOF@ == eof_name(),
        ERR@ == err_name(),
{
    reveal_strlit("_Eps");
    reveal_strlit("_Eof");
    reveal_strlit("_Err");
    assert(EPS@ =~= eps_name());
    assert(EOF@ =~= eof_name());
    assert(ERR@ =~= err_name());
}

pub proof fn lemma_row_prefix_err(acc: Result<Seq<TermV>, GrammarError>, names: Seq<Seq<char>>, k: int, pa: (u32, Assoc), v: bool)
    requires
        0 <= k <= names.len(),
        add_row_terms(acc, names.take(k), pa, v) is Err,
    ensures
        add_row_terms(acc, names, pa, v) == add_row_terms(acc, names.take(k), pa, v),
    decreases names.len() - k,
{
    if k < names.len() {
        assert(names.take(k + 1).drop_last() =~= names.take(k));
        lemma_row_prefix_err(acc, names, k + 1, pa, v);
    } else {
        assert(names.take(k) =~= names);
    }
}

pub proof fn lemma_lex_prefix_err(acc: Result<Seq<TermV>, GrammarError>, names: Seq<Seq<char>>, k: int, v: bool)
    requires
        0 <= k <= names.len(),
        add_lex_terms(acc, names.take(k), v) is Err,
    ensures
        add_lex_terms(acc, names, v) == add_lex_terms(acc, names.take(k), v),
    decreases names.len() - k,
{
    if k < names.len() {
        assert(names.take(k + 1).drop_last() =~= names.take(k));
        lemma_lex_prefix_err(acc, names, k + 1, v);
    } else {
        assert(names.take(k) =~= names);
    }
}


proof fn lemma_row_terms_unchecked(acc: Result<Seq<TermV>, GrammarError>, names: Seq<Seq<char>>, pa: (u32, Assoc))
    requires
        add_row_terms(acc, names, pa, true) is Ok,
    ensures
        add_row_terms(acc, names, pa, false) == add_row_terms(acc, names, pa, true),
    decreases names.len(),
{
    if names.len() > 0 {
        let inner = add_row_terms(acc, names.drop_last(), pa, true);
        if let Err(e) = inner {
            assert(add_pri_term(inner, names.last(), pa, true) == Err::<Seq<TermV>, GrammarError>(e));
        }
        lemma_row_terms_unchecked(acc, names.drop_last(), pa);
    }
}

proof fn lemma_priority_terms_unchecked(rows: Seq<RawPriorityRow>)
    requires
        priority_terms(rows, true) is Ok,
    ensures
        priority_terms(rows, false) == priority_terms(rows, true),
    decreases rows.len(),
{
    if rows.len() > 0 {
        let pa = ((rows.len() - 1) as u32, rows.last().assoc);
        let inner = priority_terms(rows.drop_last(), true);
        if let Err(e) = inner {
            lemma_add_row_terms_err(e, rows.last().names(), pa, true);
        }
        lemma_priority_terms_unchecked(rows.drop_last());
        lemma_row_terms_unchecked(inner, rows.last().names(), pa);
    }
}

proof fn lemma_lex_terms_unchecked(acc: Result<Seq<TermV>, GrammarError>, names: Seq<Seq<char>>)
    requires
        add_lex_terms(acc, names, true) is Ok,
    ensures
        add_lex_terms(acc, names, false) == add_lex_terms(acc, names, true),
    decreases names.len(),
{
    if names.len() > 0 {
        let inner = add_lex_terms(acc, names.drop_last(), true);
        if let Err(e) = inner {
            assert(add_lex_term(inner, names.last(), true) == Err::<Seq<TermV>, GrammarError>(e));
        }
        lemma_lex_terms_unchecked(acc, names.drop_last());
    }
}

proof fn lemma_collect_nts_unchecked(prods: Seq<RawProdView>, total: nat, tnames: Seq<Seq<char>>)
    requires
        collect_nts(prods, total, true, tnames) is Ok,
    ensures
        collect_nts(prods, total, false, tnames) == collect_nts(prods, total, true, tnames),
    decreases prods.len(),
{
    if prods.len() > 0 {
        let inner = collect_nts(prods.drop_last(), total, true, tnames);
        if let Err(e) = inner {
            assert(add_nt(inner, prods.last(), prods.len() == total, true, tnames) == Err::<Seq<NtV>, GrammarError>(e));
        }
        lemma_collect_nts_unchecked(prods.drop_last(), total, tnames);
    }
}

/// Checking names only adds errors: where numbering with the name check succeeds, numbering
/// without it gives the same grammar.
pub proof fn lemma_extend_unchecked(
    priority: Seq<RawPriorityRow>,
    lexical: Seq<(Seq<char>, Seq<char>)>,
    productions: Seq<RawProdView>,
    start: Seq<char>,
)
    requires
        extend_spec(priority, lexical, productions, start, true) is Ok,
    ensures
        extend_spec(priority, lexical, productions, start, false) == extend_spec(priority, lexical, productions, start, true),
{
    let pt = priority_terms(priority, true);
    if let Err(e) = pt {
        lemma_add_lex_terms_err(e, lexical_names(lexical), true);
    }
    lemma_priority_terms_unchecked(priority);
    lemma_lex_terms_unchecked(pt, lexical_names(lexical));
    let terms = parse_term_spec(priority, lexical, true)->Ok_0;
    let prods = productions.push(start_production(start));
    let c = collect_nts(prods, prods.len(), true, names_of(terms));
    if c is Err {
        assert(resolve_start(c, start) is Err);
    }
    lemma_collect_nts_unchecked(prods, prods.len(), names_of(terms));
}

} // verus!

verus! {

pub open spec fn nt_names(nts: Seq<NtV>) -> Seq<Seq<char>> {
    nts.map_values(|n: NtV| n.0)
}

pub open spec fn pri_of(t: TermV) -> Option<u32> {
    match t.1 {
        Some(pa) => Some(pa.0),
        None => None,
    }
}

/// Registers the non-term on the lhs of production `p`.
pub open spec fn add_nt(
    acc: Result<Seq<NtV>, GrammarError>,
    p: RawProdView,
    is_last: bool,
    validate: bool,
    tnames: Seq<Seq<char>>,
) -> Result<Seq<NtV>, GrammarError> {
    match acc {
        Err(e) => Err(e),
        Ok(nts) => if validate && !valid_name(p.lhs) && !is_last {
            Err(GrammarError::InvalidNonTerm(p.lhs))
        } else if tnames.contains(p.lhs) {
            Err(GrammarError::NonTermIsTerm(p.lhs))
        } else if !nt_names(nts).contains(p.lhs) {
            Ok(nts.push((p.lhs, p.ty)))
        } else if p.ty != nts[nt_names(nts).index_of(p.lhs)].1 {
            Err(GrammarError::NonTermTypes(p.lhs, nts[nt_names(nts).index_of(p.lhs)].1, p.ty))
        } else {
            Ok(nts)
        },
    }
}

/// The non-terms, in the order in which they first appear as a lhs.
pub open spec fn collect_nts(prods: Seq<RawProdView>, total: nat, validate: bool, tnames: Seq<Seq<char>>) -> Result<
    Seq<NtV>,
    GrammarError,
>
    decreases prods.len(),
{
    if prods.len() == 0 {
        Ok(Seq::empty())
    } else {
        add_nt(collect_nts(prods.drop_last(), total, validate, tnames), prods.last(), prods.len() == total, validate, tnames)
    }
}

/// The last non-term (the added start non-term) takes the type of the start non-term.
pub open spec fn resolve_start(acc: Result<Seq<NtV>, GrammarError>, start: Seq<char>) -> Result<Seq<NtV>, GrammarError> {
    match acc {
        Err(e) => Err(e),
        Ok(nts) => if !nt_names(nts).contains(start) {
            Err(GrammarError::UndefinedStart(start))
        } else {
            Ok(nts.update(nts.len() - 1, (nts.last().0, nts[nt_names(nts).index_of(start)].1)))
        },
    }
}

/// The id of a rhs token (a non-term before a term of the same name), and the priority of the
/// production so far: that of its last term.
pub open spec fn resolve_sym(
    acc: Result<(Seq<u32>, Option<u32>), GrammarError>,
    sym: Seq<char>,
    terms: Seq<TermV>,
    nts: Seq<NtV>,
) -> Result<(Seq<u32>, Option<u32>), GrammarError> {
    match acc {
        Err(e) => Err(e),
        Ok(st) => if nt_names(nts).contains(sym) {
            Ok((st.0.push((nt_names(nts).index_of(sym) + terms.len()) as u32), st.1))
        } else if names_of(terms).contains(sym) {
            Ok((st.0.push(names_of(terms).index_of(sym) as u32), pri_of(terms[names_of(terms).index_of(sym)])))
        } else {
            Err(GrammarError::UndefinedToken(sym))
        },
    }
}

pub open spec fn resolve_syms(syms: Seq<Seq<char>>, terms: Seq<TermV>, nts: Seq<NtV>) -> Result<
    (Seq<u32>, Option<u32>),
    GrammarError,
>
    decreases syms.len(),
{
    if syms.len() == 0 {
        Ok((Seq::empty(), None))
    } else {
        resolve_sym(resolve_syms(syms.drop_last(), terms, nts), syms.last(), terms, nts)
    }
}

/// The words joined by single spaces (`join(" ")`).
pub open spec fn join(ws: Seq<Seq<char>>) -> Seq<char>
    decreases ws.len(),
{
    if ws.len() == 0 {
        Seq::empty()
    } else if ws.len() == 1 {
        ws[0]
    } else {
        join(ws.drop_last()) + seq![' '] + ws.last()
    }
}

pub open spec fn starts_with_token(s: Seq<char>) -> bool {
    s.len() >= 5 && s.take(5) == seq!['T', 'o', 'k', 'e', 'n']
}

pub open spec fn check_arg(
    lhs: Seq<char>,
    joined: Seq<char>,
    sym: Seq<char>,
    ty: Seq<char>,
    terms: Seq<TermV>,
    nts: Seq<NtV>,
) -> Option<GrammarError> {
    if nt_names(nts).contains(sym) {
        let nt_ty = nts[nt_names(nts).index_of(sym)].1;
        if nt_ty != ty {
            Some(GrammarError::ArgNonTerm(lhs, joined, sym, nt_ty, ty))
        } else {
            None
        }
    } else if names_of(terms).contains(sym) {
        if !starts_with_token(ty) {
            Some(GrammarError::ArgTerm(lhs, joined, sym, ty))
        } else {
            None
        }
    } else {
        None
    }
}

/// The first error among the first `k` (token, argument) pairs.
pub open spec fn arg_errors(
    lhs: Seq<char>,
    joined: Seq<char>,
    syms: Seq<Seq<char>>,
    args: Seq<(Seq<char>, Seq<char>)>,
    k: int,
    terms: Seq<TermV>,
    nts: Seq<NtV>,
) -> Option<GrammarError>
    decreases k,
{
    if k <= 0 {
        None
    } else {
        match arg_errors(lhs, joined, syms, args, k - 1, terms, nts) {
            Some(e) => Some(e),
            None => check_arg(lhs, joined, syms[k - 1], args[k - 1].1, terms, nts),
        }
    }
}

pub open spec fn type_check(lhs: Seq<char>, alt: RhsView, terms: Seq<TermV>, nts: Seq<NtV>) -> Option<GrammarError> {
    match alt.args {
        None => None,
        Some(args) => if args.len() != alt.rhs.len() {
            Some(GrammarError::ArgLen(lhs, join(alt.rhs), alt.rhs.len(), args.len()))
        } else {
            arg_errors(lhs, join(alt.rhs), alt.rhs, args, args.len() as int, terms, nts)
        },
    }
}

/// The production that an alternative of non-term `lhs` (with index `lhs_id`) becomes.
pub open spec fn alt_prod(lhs_id: u32, lhs: Seq<char>, alt: RhsView, terms: Seq<TermV>, nts: Seq<NtV>) -> Result<
    ProdSpec,
    GrammarError,
> {
    match resolve_syms(alt.rhs, terms, nts) {
        Err(e) => Err(e),
        Ok(st) => {
            let pri = match alt.prec {
                None => Ok(st.1),
                Some(p) => if names_of(terms).contains(p) {
                    Ok(pri_of(terms[names_of(terms).index_of(p)]))
                } else {
                    Err(GrammarError::UndefinedPrec(p))
                },
            };
            match pri {
                Err(e) => Err(e),
                Ok(pr) => match type_check(lhs, alt, terms, nts) {
                    Some(e) => Err(e),
                    None => Ok(ProdSpec { rhs: st.0, act: alt.act, args: alt.args, lhs: lhs_id, pri: pr }),
                },
            }
        },
    }
}

pub open spec fn add_alts(
    acc: Result<Seq<Seq<ProdSpec>>, GrammarError>,
    lhs: Seq<char>,
    lhs_id: int,
    alts: Seq<RhsView>,
    terms: Seq<TermV>,
    nts: Seq<NtV>,
) -> Result<Seq<Seq<ProdSpec>>, GrammarError>
    decreases alts.len(),
{
    if alts.len() == 0 {
        acc
    } else {
        match add_alts(acc, lhs, lhs_id, alts.drop_last(), terms, nts) {
            Err(e) => Err(e),
            Ok(g) => match alt_prod(lhs_id as u32, lhs, alts.last(), terms, nts) {
                Err(e) => Err(e),
                Ok(p) => Ok(g.update(lhs_id, g[lhs_id].push(p))),
            },
        }
    }
}

/// The productions grouped by the index of their lhs.
pub open spec fn build_groups(prods: Seq<RawProdView>, terms: Seq<TermV>, nts: Seq<NtV>) -> Result<
    Seq<Seq<ProdSpec>>,
    GrammarError,
>
    decreases prods.len(),
{
    if prods.len() == 0 {
        Ok(Seq::new(nts.len(), |i: int| Seq::<ProdSpec>::empty()))
    } else {
        add_alts(
            build_groups(prods.drop_last(), terms, nts),
            prods.last().lhs,
            nt_names(nts).index_of(prods.last().lhs),
            prods.last().alts,
            terms,
            nts,
        )
    }
}

/// What `extend` makes of a raw grammar.
pub open spec fn extend_spec(
    priority: Seq<RawPriorityRow>,
    lexical: Seq<(Seq<char>, Seq<char>)>,
    productions: Seq<RawProdView>,
    start: Seq<char>,
    validate: bool,
) -> Result<GrammarSpec, GrammarError> {
    match parse_term_spec(priority, lexical, validate) {
        Err(e) => Err(e),
        Ok(terms) => if productions.len() == 0 {
            Err(GrammarError::NoProduction)
        } else {
            let prods = productions.push(start_production(start));
            match resolve_start(collect_nts(prods, prods.len(), validate, names_of(terms)), start) {
                Err(e) => Err(e),
                Ok(nts) => match build_groups(prods, terms, nts) {
                    Err(e) => Err(e),
                    Ok(groups) => Ok(GrammarSpec { terms, nts, groups }),
                },
            }
        },
    }
}

} // verus!

verus! {

proof fn lemma_index_of(names: Seq<Seq<char>>, m: Map<Seq<char>, u32>, k: Seq<char>)
    requires
        indexes(names, m),
        m.contains_key(k),
    ensures
        names.contains(k),
        names.index_of(k) == m[k] as int,
        0 <= m[k] < names.len(),
        names[m[k] as int] == k,
{
    assert(names.contains(k));
    let j = names.index_of(k);
    assert(m[names[j]] == j);
}

proof fn lemma_resolve_prefix_err(syms: Seq<Seq<char>>, k: int, terms: Seq<TermV>, nts: Seq<NtV>)
    requires
        0 <= k <= syms.len(),
        resolve_syms(syms.take(k), terms, nts) is Err,
    ensures
        resolve_syms(syms, terms, nts) == resolve_syms(syms.take(k), terms, nts),
    decreases syms.len() - k,
{
    if k < syms.len() {
        assert(syms.take(k + 1).drop_last() =~= syms.take(k));
        lemma_resolve_prefix_err(syms, k + 1, terms, nts);
    } else {
        assert(syms.take(k) =~= syms);
    }
}

proof fn lemma_arg_errors_some(
    lhs: Seq<char>,
    joined: Seq<char>,
    syms: Seq<Seq<char>>,
    args: Seq<(Seq<char>, Seq<char>)>,
    k: int,
    n: int,
    terms: Seq<TermV>,
    nts: Seq<NtV>,
)
    requires
        0 <= k <= n,
        arg_errors(lhs, joined, syms, args, k, terms, nts) is Some,
    ensures
        arg_errors(lhs, joined, syms, args, n, terms, nts) == arg_errors(lhs, joined, syms, args, k, terms, nts),
    decreases n - k,
{
    if k < n {
        lemma_arg_errors_some(lhs, joined, syms, args, k + 1, n, terms, nts);
    }
}

/// The words of `v` joined by single spaces.
pub fn join_words(v: &Vec<String>) -> (s: String)
    ensures
        s@ == join(strings_view(v@)),
{
    let mut s = String::new();
    let mut i: usize = 0;
    while i < v.len()
        invariant
            i <= v@.len(),
            s@ == join(strings_view(v@).take(i as int)),
        decreases v@.len() - i,
    {
        let ghost before = s@;
        proof {
            assert(strings_view(v@).take(i + 1).drop_last() =~= strings_view(v@).take(i as int));
        }
        if i > 0 {
            push_char(&mut s, ' ');
        }
        push_str(&mut s, v[i].as_str());
        proof {
            if i == 0 {
                assert(strings_view(v@).take(1) =~= seq![v@[0]@]);
                assert(s@ =~= v@[0]@);
            }
        }
        i = i + 1;
    }
    assert(strings_view(v@).take(v@.len() as int) =~= strings_view(v@));
    s
}

/// Whether `s` starts with `Token`.
pub fn exec_starts_with_token(s: &str) -> (b: bool)
    ensures
        b == starts_with_token(s@),
{
    let cs = chars_of(s);
    if cs.len() < 5 {
        return false;
    }
    let b = cs[0] == 'T' && cs[1] == 'o' && cs[2] == 'k' && cs[3] == 'e' && cs[4] == 'n';
    proof {
        if b {
            assert(s@.take(5) =~= seq!['T', 'o', 'k', 'e', 'n']);
        } else {
            if s@.take(5) == seq!['T', 'o', 'k', 'e', 'n'] {
                assert(s@.take(5)[0] == 'T');
                assert(s@.take(5)[1] == 'o');
                assert(s@.take(5)[2] == 'k');
                assert(s@.take(5)[3] == 'e');
                assert(s@.take(5)[4] == 'n');
            }
        }
    }
    b
}

/// A copy of a list of (name, type) pairs.
pub fn clone_pairs(v: &Option<Vec<(String, String)>>) -> (r: Option<Vec<(String, String)>>)
    ensures
        opt_pairs_view(r) == opt_pairs_view(*v),
{
    match v {
        None => None,
        Some(v) => {
            let mut out: Vec<(String, String)> = Vec::new();
            let mut i: usize = 0;
            while i < v.len()
                invariant
                    i <= v@.len(),
                    pairs_view(out@) == pairs_view(v@).take(i as int),
                decreases v@.len() - i,
            {
                let a = v[i].0.clone();
                let b = v[i].1.clone();
                let ghost before = pairs_view(out@);
                out.push((a, b));
                assert(pairs_view(out@) =~= before.push((v@[i as int].0@, v@[i as int].1@)));
                assert(pairs_view(v@).take(i + 1) =~= pairs_view(v@).take(i as int).push(pairs_view(v@)[i as int]));
                assert(pairs_view(out@) =~= pairs_view(v@).take(i + 1));
                i = i + 1;
            }
            assert(pairs_view(v@).take(v@.len() as int) =~= pairs_view(v@));
            Some(out)
        },
    }
}

fn arg_len_msg(lhs: &str, joined: &String, a: usize, b: usize) -> (s: String)
    ensures
        s@ == error_message(GrammarError::ArgLen(lhs@, joined@, a as nat, b as nat)),
{
    let mut s = String::new();
    push_str(&mut s, "production \"");
    push_str(&mut s, lhs);
    push_str(&mut s, " -> ");
    push_str(&mut s, joined.as_str());
    push_str(&mut s, "\" rhs and method arguments have different length: ");
    push_decimal(&mut s, a);
    push_str(&mut s, " vs ");
    push_decimal(&mut s, b);
    assert(s@ =~= error_message(GrammarError::ArgLen(lhs@, joined@, a as nat, b as nat)));
    s
}

fn arg_nt_msg(lhs: &str, joined: &String, tk: &str, nt_ty: &str, ty: &str) -> (s: String)
    ensures
        s@ == error_message(GrammarError::ArgNonTerm(lhs@, joined@, tk@, nt_ty@, ty@)),
{
    let mut s = String::new();
    push_str(&mut s, "production \"");
    push_str(&mut s, lhs);
    push_str(&mut s, " -> ");
    push_str(&mut s, joined.as_str());
    push_str(&mut s, "\" rhs and method arguments have conflict signature: `");
    push_str(&mut s, tk);
    push_str(&mut s, "` requires `");
    push_str(&mut s, nt_ty);
    push_str(&mut s, "`, while method takes `");
    push_str(&mut s, ty);
    push_str(&mut s, "`");
    assert(s@ =~= error_message(GrammarError::ArgNonTerm(lhs@, joined@, tk@, nt_ty@, ty@)));
    s
}

fn arg_term_msg(lhs: &str, joined: &String, tk: &str, ty: &str) -> (s: String)
    ensures
        s@ == error_message(GrammarError::ArgTerm(lhs@, joined@, tk@, ty@)),
{
    let mut s = String::new();
    push_str(&mut s, "production \"");
    push_str(&mut s, lhs);
    push_str(&mut s, " -> ");
    push_str(&mut s, joined.as_str());
    push_str(&mut s, "\" rhs and method arguments have conflict signature: `");
    push_str(&mut s, tk);
    push_str(&mut s, "` requires Token, while method takes `");
    push_str(&mut s, ty);
    push_str(&mut s, "`");
    assert(s@ =~= error_message(GrammarError::ArgTerm(lhs@, joined@, tk@, ty@)));
    s
}

/// The production that alternative `alt` of non-term `lhs` (index `lhs_id`) becomes; its id is
/// left 0.
pub fn resolve_alt(
    alt: &RawProductionRhs,
    lhs: &str,
    lhs_id: u32,
    terms: &Vec<Term>,
    term2id: &NameMap,
    nts: &Vec<NonTerm>,
    nt2id: &NameMap,
) -> (r: Result<Prod, String>)
    requires
        indexes(names_of(terms_view(terms@)), name_map_view(*term2id)),
        indexes(nt_names(nts_view(nts@)), name_map_view(*nt2id)),
        terms@.len() + nts@.len() < u32::MAX,
    ensures
        (match alt_prod(lhs_id, lhs@, alt@, terms_view(terms@), nts_view(nts@)) {
            Ok(p) => r matches Ok(x) && x@ == p && x.id == 0,
            Err(e) => r matches Err(m) && m@ == error_message(e),
        }),
{
    let ghost tv = terms_view(terms@);
    let ghost nv = nts_view(nts@);
    let ghost syms = alt@.rhs;
    let mut rhs = prod_vec_new();
    let mut pri: Option<u32> = None;
    let mut k: usize = 0;
    assert(syms.take(0) =~= Seq::<Seq<char>>::empty());
    while k < alt.rhs.len()
        invariant
            indexes(names_of(tv), name_map_view(*term2id)),
            indexes(nt_names(nv), name_map_view(*nt2id)),
            tv == terms_view(terms@),
            nv == nts_view(nts@),
            syms == alt@.rhs,
            terms@.len() + nts@.len() < u32::MAX,
            k <= alt.rhs@.len(),
            resolve_syms(syms.take(k as int), tv, nv) == Ok::<(Seq<u32>, Option<u32>), GrammarError>((prod_vec_items(rhs), pri)),
        decreases alt.rhs@.len() - k,
    {
        let sym = alt.rhs[k].as_str();
        proof {
            assert(syms.take(k + 1).drop_last() =~= syms.take(k as int));
            assert(syms.take(k + 1).last() == sym@);
        }
        match name_map_get(nt2id, sym) {
            Some(n) => {
                proof {
                    lemma_index_of(nt_names(nv), name_map_view(*nt2id), sym@);
                }
                prod_vec_push(&mut rhs, n + terms.len() as u32);
            },
            None => match name_map_get(term2id, sym) {
                Some(t) => {
                    proof {
                        lemma_index_of(names_of(tv), name_map_view(*term2id), sym@);
                    }
                    prod_vec_push(&mut rhs, t);
                    pri = match terms[t as usize].pri_assoc {
                        Some(pa) => Some(pa.0),
                        None => None,
                    };
                },
                None => {
                    proof {
                        lemma_resolve_prefix_err(syms, k + 1, tv, nv);
                    }
                    return Err(quote_msg("production rhs contains undefined token: \"", sym, "\""));
                },
            },
        }
        k = k + 1;
    }
    assert(syms.take(k as int) =~= syms);
    match &alt.prec {
        None => {},
        Some(p) => match name_map_get(term2id, p.as_str()) {
            None => {
                return Err(quote_msg("prec uses undefined term: \"", p.as_str(), "\""));
            },
            Some(t) => {
                proof {
                    lemma_index_of(names_of(tv), name_map_view(*term2id), p@);
                }
                pri = match terms[t as usize].pri_assoc {
                    Some(pa) => Some(pa.0),
                    None => None,
                };
            },
        },
    }
    match &alt.rhs_arg {
        None => {},
        Some(args) => {
            if args.len() != alt.rhs.len() {
                let joined = join_words(&alt.rhs);
                return Err(arg_len_msg(lhs, &joined, alt.rhs.len(), args.len()));
            }
            let joined = join_words(&alt.rhs);
            let ghost av = pairs_view(args@);
            let mut i: usize = 0;
            while i < args.len()
                invariant
                    indexes(names_of(tv), name_map_view(*term2id)),
                    indexes(nt_names(nv), name_map_view(*nt2id)),
                    tv == terms_view(terms@),
                    nv == nts_view(nts@),
                    syms == alt@.rhs,
                    alt@.args == Some(av),
                    av == pairs_view(args@),
                    args@.len() == syms.len(),
                    joined@ == join(syms),
                    i <= args@.len(),
                    arg_errors(lhs@, joined@, syms, av, i as int, tv, nv) is None,
                    resolve_syms(syms, tv, nv) is Ok,
                    (match alt@.prec {
                        None => true,
                        Some(p) => names_of(tv).contains(p),
                    }),
                decreases args@.len() - i,
            {
                let tk = alt.rhs[i].as_str();
                let ty = args[i].1.as_str();
                match name_map_get(nt2id, tk) {
                    Some(n) => {
                        proof {
                            lemma_index_of(nt_names(nv), name_map_view(*nt2id), tk@);
                        }
                        let nt_ty = nts[n as usize].ty.as_str();
                        if !str_eq(nt_ty, ty) {
                            proof {
                                lemma_arg_errors_some(lhs@, joined@, syms, av, i + 1, av.len() as int, tv, nv);
                            }
                            return Err(arg_nt_msg(lhs, &joined, tk, nt_ty, ty));
                        }
                    },
                    None => match name_map_get(term2id, tk) {
                        Some(_) => {
                            if !exec_starts_with_token(ty) {
                                proof {
                                    lemma_arg_errors_some(lhs@, joined@, syms, av, i + 1, av.len() as int, tv, nv);
                                }
                                return Err(arg_term_msg(lhs, &joined, tk, ty));
                            }
                        },
                        None => {},
                    },
                }
                i = i + 1;
            }
        },
    }
    let act = alt.act.clone();
    let args = clone_pairs(&alt.rhs_arg);
    Ok(Prod { rhs, act, args, lhs: lhs_id, id: 0, pri })
}

} // verus!

verus! {

pub proof fn lemma_indexes_push_name(ns: Seq<Seq<char>>, m: Map<Seq<char>, u32>, name: Seq<char>)
    requires
        !ns.contains(name),
        ns.len() < u32::MAX,
        indexes(ns, m.remove(name)),
        m.contains_key(name),
        m[name] == ns.len(),
    ensures
        indexes(ns.push(name), m),
{
    let ns2 = ns.push(name);
    assert forall|k: Seq<char>| #[trigger] m.contains_key(k) <==> ns2.contains(k) by {
        if k == name {
            assert(ns2[ns.len() as int] == name);
        } else {
            if m.contains_key(k) {
                assert(m.remove(name).contains_key(k));
                let i = choose|i: int| 0 <= i < ns.len() && ns[i] == k;
                assert(ns2[i] == k);
            }
            if ns2.contains(k) {
                let i = choose|i: int| 0 <= i < ns2.len() && ns2[i] == k;
                assert(i < ns.len());
                assert(ns[i] == k);
                assert(m.remove(name).contains_key(k));
            }
        }
    }
    assert forall|i: int| 0 <= i < ns2.len() implies m[#[trigger] ns2[i]] == i by {
        if i < ns.len() {
            assert(ns2[i] == ns[i]);
            assert(ns[i] != name) by {
                if ns[i] == name {
                    assert(ns.contains(name));
                }
            }
            assert(m.remove(name)[ns[i]] == i);
        }
    }
}

fn nt_types_msg(n: &str, t1: &str, t2: &str) -> (s: String)
    ensures
        s@ == error_message(GrammarError::NonTermTypes(n@, t1@, t2@)),
{
    let mut s = String::new();
    push_str(&mut s, "non-term \"");
    push_str(&mut s, n);
    push_str(&mut s, "\" is assigned to different types: \"");
    push_str(&mut s, t1);
    push_str(&mut s, "\" and \"");
    push_str(&mut s, t2);
    push_str(&mut s, "\"");
    assert(s@ =~= error_message(GrammarError::NonTermTypes(n@, t1@, t2@)));
    s
}

proof fn lemma_collect_prefix_err(prods: Seq<RawProdView>, k: int, total: nat, v: bool, tn: Seq<Seq<char>>)
    requires
        0 <= k <= prods.len(),
        collect_nts(prods.take(k), total, v, tn) is Err,
    ensures
        collect_nts(prods, total, v, tn) == collect_nts(prods.take(k), total, v, tn),
    decreases prods.len() - k,
{
    if k < prods.len() {
        assert(prods.take(k + 1).drop_last() =~= prods.take(k));
        lemma_collect_prefix_err(prods, k + 1, total, v, tn);
    } else {
        assert(prods.take(k) =~= prods);
    }
}

/// Every lhs is a collected non-term.
pub proof fn lemma_collect_nts_contains(prods: Seq<RawProdView>, total: nat, v: bool, tn: Seq<Seq<char>>)
    requires
        collect_nts(prods, total, v, tn) is Ok,
    ensures
        forall|j: int|
            0 <= j < prods.len() ==> nt_names(collect_nts(prods, total, v, tn)->Ok_0).contains(#[trigger] prods[j].lhs),
        collect_nts(prods, total, v, tn)->Ok_0.len() <= prods.len(),
    decreases prods.len(),
{
    if prods.len() > 0 {
        let pre = prods.drop_last();
        lemma_collect_nts_contains(pre, total, v, tn);
        let nts0 = collect_nts(pre, total, v, tn)->Ok_0;
        let nts = collect_nts(prods, total, v, tn)->Ok_0;
        assert forall|j: int| 0 <= j < prods.len() implies nt_names(nts).contains(#[trigger] prods[j].lhs) by {
            if j < prods.len() - 1 {
                assert(pre[j] == prods[j]);
                assert(nt_names(nts0).contains(prods[j].lhs));
                let i = choose|i: int| 0 <= i < nt_names(nts0).len() && nt_names(nts0)[i] == prods[j].lhs;
                if nts != nts0 {
                    assert(nts == nts0.push((prods.last().lhs, prods.last().ty)));
                    assert(nt_names(nts)[i] == prods[j].lhs);
                }
            } else {
                if nts != nts0 {
                    assert(nt_names(nts)[nts0.len() as int] == prods.last().lhs);
                }
            }
        }
    }
}

/// The non-terms of `prods` (which end with the start production), with a map from name to
/// index; `start_idx` is left 0.
fn collect_nts_exec(
    prods: &Vec<RawProduction>,
    term2id: &NameMap,
    Ghost(tn): Ghost<Seq<Seq<char>>>,
    validate_name: bool,
) -> (r: Result<(Vec<NonTerm>, NameMap), String>)
    requires
        forall|k: Seq<char>| #[trigger] name_map_view(*term2id).contains_key(k) <==> tn.contains(k),
        prods@.len() < u32::MAX,
    ensures
        (match collect_nts(prods_view(prods@), prods@.len(), validate_name, tn) {
            Ok(nts) => r matches Ok(p) && nts_view(p.0@) == nts && indexes(nt_names(nts), name_map_view(p.1)),
            Err(e) => r matches Err(m) && m@ == error_message(e),
        }),
{
    let ghost pv = prods_view(prods@);
    let ghost total = prods@.len();
    let mut nts: Vec<NonTerm> = Vec::new();
    let mut nt2id = name_map_new();
    let mut idx: usize = 0;
    assert(pv.take(0) =~= Seq::<RawProdView>::empty());
    assert(nts_view(nts@) =~= Seq::<NtV>::empty());
    while idx < prods.len()
        invariant
            pv == prods_view(prods@),
            total == prods@.len(),
            total < u32::MAX,
            forall|k: Seq<char>| #[trigger] name_map_view(*term2id).contains_key(k) <==> tn.contains(k),
            idx <= prods@.len(),
            nts@.len() <= idx,
            collect_nts(pv.take(idx as int), total, validate_name, tn) == Ok::<Seq<NtV>, GrammarError>(nts_view(nts@)),
            indexes(nt_names(nts_view(nts@)), name_map_view(nt2id)),
        decreases prods@.len() - idx,
    {
        let p = &prods[idx];
        let lhs = p.lhs.as_str();
        let ghost nv = nts_view(nts@);
        proof {
            assert(pv.take(idx + 1).drop_last() =~= pv.take(idx as int));
            assert(pv.take(idx + 1).last() == pv[idx as int]);
            assert(pv[idx as int] == p@);
        }
        if validate_name && !validate_variable_name(lhs) && idx != prods.len() - 1 {
            proof {
                lemma_collect_prefix_err(pv, idx + 1, total, validate_name, tn);
            }
            return Err(quote_msg("non-term is not a valid variable name: \"", lhs, "\""));
        }
        if name_map_get(term2id, lhs).is_some() {
            proof {
                lemma_collect_prefix_err(pv, idx + 1, total, validate_name, tn);
            }
            return Err(quote_msg("non-term has a duplicate name with term: \"", lhs, "\""));
        }
        match name_map_get(&nt2id, lhs) {
            None => {
                let id = nts.len() as u32;
                name_map_insert(&mut nt2id, lhs, id);
                nts.push(NonTerm { name: p.lhs.clone(), ty: p.ty.clone(), start_idx: 0 });
                proof {
                    assert(nt_names(nts_view(nts@)) =~= nt_names(nv).push(lhs@));
                    assert(nts_view(nts@) =~= nv.push((p.lhs@, p.ty@)));
                    lemma_indexes_push_name(nt_names(nv), name_map_view(nt2id), lhs@);
                }
            },
            Some(old) => {
                proof {
                    lemma_index_of(nt_names(nv), name_map_view(nt2id), lhs@);
                }
                if !str_eq(p.ty.as_str(), nts[old as usize].ty.as_str()) {
                    proof {
                        lemma_collect_prefix_err(pv, idx + 1, total, validate_name, tn);
                    }
                    return Err(nt_types_msg(lhs, nts[old as usize].ty.as_str(), p.ty.as_str()));
                }
            },
        }
        idx = idx + 1;
    }
    assert(pv.take(idx as int) =~= pv);
    Ok((nts, nt2id))
}

} // verus!

verus! {

pub open spec fn groups_view(g: Seq<Vec<Prod>>) -> Seq<Seq<ProdSpec>> {
    g.map_values(|v: Vec<Prod>| v@.map_values(|p: Prod| p@))
}

pub open spec fn alt_count(prods: Seq<RawProdView>) -> nat
    decreases prods.len(),
{
    if prods.len() == 0 {
        0
    } else {
        alt_count(prods.drop_last()) + prods.last().alts.len()
    }
}

proof fn lemma_alt_count_take(prods: Seq<RawProdView>, k: int)
    requires
        0 <= k < prods.len(),
    ensures
        alt_count(prods.take(k + 1)) == alt_count(prods.take(k)) + prods[k].alts.len(),
        alt_count(prods.take(k + 1)) <= alt_count(prods),
    decreases prods.len() - k,
{
    assert(prods.take(k + 1).drop_last() =~= prods.take(k));
    if k + 1 < prods.len() {
        lemma_alt_count_take(prods, k + 1);
    } else {
        assert(prods.take(k + 1) =~= prods);
    }
}

pub proof fn lemma_resolve_syms_bound(syms: Seq<Seq<char>>, terms: Seq<TermV>, nts: Seq<NtV>)
    requires
        resolve_syms(syms, terms, nts) is Ok,
        terms.len() + nts.len() < u32::MAX,
    ensures
        forall|k: int|
            0 <= k < resolve_syms(syms, terms, nts)->Ok_0.0.len()
                ==> #[trigger] resolve_syms(syms, terms, nts)->Ok_0.0[k] < terms.len() + nts.len(),
    decreases syms.len(),
{
    if syms.len() > 0 {
        lemma_resolve_syms_bound(syms.drop_last(), terms, nts);
        let sym = syms.last();
        if nt_names(nts).contains(sym) {
            let i = nt_names(nts).index_of(sym);
            assert(0 <= i < nts.len());
        } else if names_of(terms).contains(sym) {
            let i = names_of(terms).index_of(sym);
            assert(0 <= i < terms.len());
        }
    }
}

proof fn lemma_add_alts_prefix_err(
    acc: Result<Seq<Seq<ProdSpec>>, GrammarError>,
    lhs: Seq<char>,
    lhs_id: int,
    alts: Seq<RhsView>,
    k: int,
    terms: Seq<TermV>,
    nts: Seq<NtV>,
)
    requires
        0 <= k <= alts.len(),
        add_alts(acc, lhs, lhs_id, alts.take(k), terms, nts) is Err,
    ensures
        add_alts(acc, lhs, lhs_id, alts, terms, nts) == add_alts(acc, lhs, lhs_id, alts.take(k), terms, nts),
    decreases alts.len() - k,
{
    if k < alts.len() {
        assert(alts.take(k + 1).drop_last() =~= alts.take(k));
        lemma_add_alts_prefix_err(acc, lhs, lhs_id, alts, k + 1, terms, nts);
    } else {
        assert(alts.take(k) =~= alts);
    }
}

proof fn lemma_add_alts_err(e: GrammarError, lhs: Seq<char>, lhs_id: int, alts: Seq<RhsView>, terms: Seq<TermV>, nts: Seq<NtV>)
    ensures
        add_alts(Err(e), lhs, lhs_id, alts, terms, nts) == Err::<Seq<Seq<ProdSpec>>, GrammarError>(e),
    decreases alts.len(),
{
    if alts.len() > 0 {
        lemma_add_alts_err(e, lhs, lhs_id, alts.drop_last(), terms, nts);
    }
}

proof fn lemma_build_prefix_err(prods: Seq<RawProdView>, k: int, terms: Seq<TermV>, nts: Seq<NtV>)
    requires
        0 <= k <= prods.len(),
        build_groups(prods.take(k), terms, nts) is Err,
    ensures
        build_groups(prods, terms, nts) == build_groups(prods.take(k), terms, nts),
    decreases prods.len() - k,
{
    if k < prods.len() {
        let e = build_groups(prods.take(k), terms, nts)->Err_0;
        let p2 = prods.take(k + 1);
        assert(p2.drop_last() =~= prods.take(k));
        lemma_add_alts_err(e, p2.last().lhs, nt_names(nts).index_of(p2.last().lhs), p2.last().alts, terms, nts);
        lemma_build_prefix_err(prods, k + 1, terms, nts);
    } else {
        assert(prods.take(k) =~= prods);
    }
}

pub proof fn lemma_flat_update_len<A>(g: Seq<Seq<A>>, i: int, x: A)
    requires
        0 <= i < g.len(),
    ensures
        flat(g.update(i, g[i].push(x))).len() == flat(g).len() + 1,
    decreases g.len(),
{
    let g2 = g.update(i, g[i].push(x));
    if i == g.len() - 1 {
        assert(g2.drop_last() =~= g.drop_last());
    } else {
        assert(g2.drop_last() =~= g.drop_last().update(i, g.drop_last()[i].push(x)));
        lemma_flat_update_len(g.drop_last(), i, x);
    }
}

/// The productions of each non-term, in the order in which they are written.
fn build_groups_exec(
    prods: &Vec<RawProduction>,
    terms: &Vec<Term>,
    term2id: &NameMap,
    nts: &Vec<NonTerm>,
    nt2id: &NameMap,
) -> (r: Result<Vec<Vec<Prod>>, String>)
    requires
        indexes(names_of(terms_view(terms@)), name_map_view(*term2id)),
        indexes(nt_names(nts_view(nts@)), name_map_view(*nt2id)),
        terms@.len() + nts@.len() < u32::MAX,
        alt_count(prods_view(prods@)) < u32::MAX,
        forall|j: int| 0 <= j < prods@.len() ==> nt_names(nts_view(nts@)).contains(#[trigger] prods_view(prods@)[j].lhs),
    ensures
        (match build_groups(prods_view(prods@), terms_view(terms@), nts_view(nts@)) {
            Ok(g) => r matches Ok(x) && groups_view(x@) == g && x@.len() == nts@.len()
                && flat(g).len() == alt_count(prods_view(prods@))
                && (forall|i: int, j: int| 0 <= i < g.len() && 0 <= j < g[i].len() ==> (#[trigger] g[i][j]).lhs == i)
                && (forall|i: int, j: int, k: int| 0 <= i < g.len() && 0 <= j < g[i].len() && 0 <= k < g[i][j].rhs.len()
                    ==> (#[trigger] g[i][j].rhs[k]) < terms@.len() + nts@.len()),
            Err(e) => r matches Err(m) && m@ == error_message(e),
        }),
{
    let ghost pv = prods_view(prods@);
    let ghost tv = terms_view(terms@);
    let ghost nv = nts_view(nts@);
    let mut groups: Vec<Vec<Prod>> = Vec::new();
    let mut i: usize = 0;
    while i < nts.len()
        invariant
            i <= nts@.len(),
            groups@.len() == i,
            forall|j: int| 0 <= j < i ==> (#[trigger] groups@[j])@.len() == 0,
        decreases nts@.len() - i,
    {
        groups.push(Vec::new());
        i = i + 1;
    }
    proof {
        assert forall|j: int| 0 <= j < groups@.len() implies groups_view(groups@)[j] =~= Seq::<ProdSpec>::empty() by {
            assert(groups@[j]@.len() == 0);
        }
        assert(groups_view(groups@) =~= Seq::new(nv.len(), |i: int| Seq::<ProdSpec>::empty()));
        assert(pv.take(0) =~= Seq::<RawProdView>::empty());
        let g0 = groups_view(groups@);
        assert(flat(g0).len() == 0) by {
            lemma_flat_empty(g0);
        }
    }
    let mut pi: usize = 0;
    while pi < prods.len()
        invariant
            pv == prods_view(prods@),
            tv == terms_view(terms@),
            nv == nts_view(nts@),
            indexes(names_of(tv), name_map_view(*term2id)),
            indexes(nt_names(nv), name_map_view(*nt2id)),
            terms@.len() + nts@.len() < u32::MAX,
            alt_count(pv) < u32::MAX,
            forall|j: int| 0 <= j < prods@.len() ==> nt_names(nv).contains(#[trigger] pv[j].lhs),
            pi <= prods@.len(),
            groups@.len() == nts@.len(),
            build_groups(pv.take(pi as int), tv, nv) == Ok::<Seq<Seq<ProdSpec>>, GrammarError>(groups_view(groups@)),
            flat(groups_view(groups@)).len() == alt_count(pv.take(pi as int)),
            forall|i: int, j: int| 0 <= i < groups@.len() && 0 <= j < groups@[i]@.len() ==> (#[trigger] groups@[i]@[j])@.lhs == i,
            forall|i: int, j: int, k: int| 0 <= i < groups@.len() && 0 <= j < groups@[i]@.len() && 0 <= k < groups@[i]@[j]@.rhs.len()
                ==> (#[trigger] groups@[i]@[j]@.rhs[k]) < terms@.len() + nts@.len(),
        decreases prods@.len() - pi,
    {
        let rp = &prods[pi];
        let lhs = rp.lhs.as_str();
        proof {
            assert(pv[pi as int] == rp@);
            assert(nt_names(nv).contains(pv[pi as int].lhs));
            lemma_alt_count_take(pv, pi as int);
        }
        let lhs_id = match name_map_get(nt2id, lhs) {
            Some(n) => n,
            None => {
                proof {
                    let k = choose|k: int| 0 <= k < nt_names(nv).len() && nt_names(nv)[k] == lhs@;
                    assert(name_map_view(*nt2id).contains_key(nt_names(nv)[k]));
                }
                0
            },
        };
        proof {
            lemma_index_of(nt_names(nv), name_map_view(*nt2id), lhs@);
            assert(pv.take(pi + 1).drop_last() =~= pv.take(pi as int));
            assert(pv.take(pi + 1).last() == rp@);
        }
        let ghost gstart = groups_view(groups@);
        let ghost alts = rp@.alts;
        let mut ai: usize = 0;
        assert(alts.take(0) =~= Seq::<RhsView>::empty());
        while ai < rp.rhs.len()
            invariant
                pv == prods_view(prods@),
                tv == terms_view(terms@),
                nv == nts_view(nts@),
                indexes(names_of(tv), name_map_view(*term2id)),
                indexes(nt_names(nv), name_map_view(*nt2id)),
                terms@.len() + nts@.len() < u32::MAX,
                pi < prods@.len(),
                *rp == prods@[pi as int],
                alts == rp@.alts,
                lhs@ == rp@.lhs,
                lhs_id < nts@.len(),
                lhs_id == nt_names(nv).index_of(lhs@),
                ai <= rp.rhs@.len(),
                groups@.len() == nts@.len(),
                build_groups(pv.take(pi as int), tv, nv) == Ok::<Seq<Seq<ProdSpec>>, GrammarError>(gstart),
                add_alts(Ok(gstart), lhs@, lhs_id as int, alts.take(ai as int), tv, nv) == Ok::<Seq<Seq<ProdSpec>>, GrammarError>(groups_view(groups@)),
                flat(groups_view(groups@)).len() == alt_count(pv.take(pi as int)) + ai,
                alt_count(pv.take(pi + 1)) == alt_count(pv.take(pi as int)) + alts.len(),
                alt_count(pv.take(pi + 1)) <= alt_count(pv),
                alt_count(pv) < u32::MAX,
                forall|i: int, j: int| 0 <= i < groups@.len() && 0 <= j < groups@[i]@.len() ==> (#[trigger] groups@[i]@[j])@.lhs == i,
                forall|i: int, j: int, k: int| 0 <= i < groups@.len() && 0 <= j < groups@[i]@.len() && 0 <= k < groups@[i]@[j]@.rhs.len()
                    ==> (#[trigger] groups@[i]@[j]@.rhs[k]) < terms@.len() + nts@.len(),
            decreases rp.rhs@.len() - ai,
        {
            proof {
                assert(alts.take(ai + 1).drop_last() =~= alts.take(ai as int));
                assert(alts.take(ai + 1).last() == rp.rhs@[ai as int]@);
            }
            let p = match resolve_alt(&rp.rhs[ai], lhs, lhs_id, terms, term2id, nts, nt2id) {
                Ok(p) => p,
                Err(m) => {
                    proof {
                        lemma_add_alts_prefix_err(Ok(gstart), lhs@, lhs_id as int, alts, ai + 1, tv, nv);
                        assert(pv.take(pi + 1).drop_last() =~= pv.take(pi as int));
                        assert(pv.take(pi + 1).last() == rp@);
                        lemma_build_prefix_err(pv, pi + 1, tv, nv);
                    }
                    return Err(m);
                },
            };
            proof {
                let st = resolve_syms(rp.rhs@[ai as int]@.rhs, tv, nv);
                lemma_resolve_syms_bound(rp.rhs@[ai as int]@.rhs, tv, nv);
            }
            let ghost before = groups@;
            let ghost gvb = groups_view(groups@);
            groups[lhs_id as usize].push(p);
            proof {
                assert forall|i: int| 0 <= i < groups@.len() implies groups_view(groups@)[i] =~= gvb.update(lhs_id as int, gvb[lhs_id as int].push(p@))[i] by {
                    if i == lhs_id {
                        assert(groups@[i]@ =~= before[i]@.push(p));
                    } else {
                        assert(groups@[i] == before[i]);
                    }
                }
                assert(groups_view(groups@) =~= gvb.update(lhs_id as int, gvb[lhs_id as int].push(p@)));
                lemma_flat_update_len(gvb, lhs_id as int, p@);
                assert forall|i: int, j: int| 0 <= i < groups@.len() && 0 <= j < groups@[i]@.len() implies (#[trigger] groups@[i]@[j])@.lhs == i by {
                    if i != lhs_id || j < before[i]@.len() {
                        assert(groups@[i]@[j] == before[i]@[j]);
                    }
                }
                assert forall|i: int, j: int, k: int| 0 <= i < groups@.len() && 0 <= j < groups@[i]@.len() && 0 <= k < groups@[i]@[j]@.rhs.len()
                    implies (#[trigger] groups@[i]@[j]@.rhs[k]) < terms@.len() + nts@.len() by {
                    if i != lhs_id || j < before[i]@.len() {
                        assert(groups@[i]@[j] == before[i]@[j]);
                    }
                }
            }
            ai = ai + 1;
        }
        proof {
            assert(alts.take(ai as int) =~= alts);
        }
        pi = pi + 1;
    }
    proof {
        assert(pv.take(pi as int) =~= pv);
        let g = groups_view(groups@);
        assert forall|i: int, j: int| 0 <= i < g.len() && 0 <= j < g[i].len() implies (#[trigger] g[i][j]).lhs == i by {
            assert(g[i][j] == groups@[i]@[j]@);
        }
        assert forall|i: int, j: int, k: int| 0 <= i < g.len() && 0 <= j < g[i].len() && 0 <= k < g[i][j].rhs.len()
            implies (#[trigger] g[i][j].rhs[k]) < terms@.len() + nts@.len() by {
            assert(g[i][j] == groups@[i]@[j]@);
        }
    }
    Ok(groups)
}

pub proof fn lemma_flat_empty<A>(g: Seq<Seq<A>>)
    requires
        forall|i: int| 0 <= i < g.len() ==> (#[trigger] g[i]).len() == 0,
    ensures
        flat(g).len() == 0,
    decreases g.len(),
{
    if g.len() > 0 {
        lemma_flat_empty(g.drop_last());
    }
}

} // verus!

verus! {

pub proof fn lemma_flat_prefix<A>(g: Seq<Seq<A>>, i: int)
    requires
        0 <= i <= g.len(),
    ensures
        flat(g.take(i)).len() <= flat(g).len(),
        flat(g).subrange(0, flat(g.take(i)).len() as int) == flat(g.take(i)),
    decreases g.len() - i,
{
    if i == g.len() {
        assert(g.take(i) =~= g);
        assert(flat(g).subrange(0, flat(g).len() as int) =~= flat(g));
    } else {
        lemma_flat_prefix(g, i + 1);
        assert(g.take(i + 1).drop_last() =~= g.take(i));
        let a = flat(g.take(i));
        let b = flat(g.take(i + 1));
        assert(b == a + g[i]);
        assert(flat(g).subrange(0, a.len() as int) =~= b.subrange(0, a.len() as int));
        assert(b.subrange(0, a.len() as int) =~= a);
    }
}

pub proof fn lemma_flat_group<A>(g: Seq<Seq<A>>, i: int)
    requires
        0 <= i < g.len(),
    ensures
        flat(g.take(i + 1)).len() == flat(g.take(i)).len() + g[i].len(),
        flat(g).subrange(flat(g.take(i)).len() as int, flat(g.take(i + 1)).len() as int) == g[i],
{
    assert(g.take(i + 1).drop_last() =~= g.take(i));
    lemma_flat_prefix(g, i + 1);
    let a = flat(g.take(i));
    let b = flat(g.take(i + 1));
    assert(flat(g).subrange(a.len() as int, b.len() as int) =~= b.subrange(a.len() as int, b.len() as int));
    assert(b.subrange(a.len() as int, b.len() as int) =~= g[i]);
}

pub proof fn lemma_flat_all<A>(g: Seq<Seq<A>>, p: spec_fn(A) -> bool)
    requires
        forall|i: int, j: int| 0 <= i < g.len() && 0 <= j < g[i].len() ==> p(#[trigger] g[i][j]),
    ensures
        forall|k: int| 0 <= k < flat(g).len() ==> p(#[trigger] flat(g)[k]),
    decreases g.len(),
{
    if g.len() > 0 {
        let h = g.drop_last();
        assert forall|i: int, j: int| 0 <= i < h.len() && 0 <= j < h[i].len() implies p(#[trigger] h[i][j]) by {
            assert(h[i] == g[i]);
        }
        lemma_flat_all(h, p);
        assert forall|k: int| 0 <= k < flat(g).len() implies p(#[trigger] flat(g)[k]) by {
            if k < flat(h).len() {
                assert(flat(g)[k] == flat(h)[k]);
            } else {
                assert(flat(g)[k] == g.last()[k - flat(h).len()]);
                assert(g.last() == g[g.len() - 1]);
            }
        }
    }
}

impl RawGrammar {
    /// The counts of terms, non-terms and productions fit in a `u32`.
    pub open spec fn size_bound(&self) -> bool {
        &&& term_count_bound(self.priority@, lex_entries(self.lexical))
        &&& row_count(self.priority@) + lex_entries(self.lexical).len() + self.production@.len() + 5 < u32::MAX
        &&& alt_count(prods_view(self.production@)) + 2 < u32::MAX
    }

    /// Tells whether `size_bound` holds, that is whether `extend` can number this grammar.
    pub fn fits(&self) -> (b: bool)
        ensures
            b == self.size_bound(),
    {
        let limit: u64 = 0xFFFF_FFFF;
        if self.priority.len() as u64 >= limit || lex_map_len(&self.lexical) as u64 >= limit
            || self.production.len() as u64 >= limit {
            return false;
        }
        let mut rows: u64 = 0;
        let mut i: usize = 0;
        while i < self.priority.len()
            invariant
                limit == u32::MAX,
                i <= self.priority.len(),
                rows == row_count(self.priority@.take(i as int)),
                rows < limit,
            decreases self.priority.len() - i,
        {
            proof {
                lemma_row_count_take(self.priority@, i as int);
            }
            let n = self.priority[i].terms.len() as u64;
            if n >= limit - rows {
                return false;
            }
            rows = rows + n;
            i = i + 1;
        }
        assert(self.priority@.take(self.priority.len() as int) =~= self.priority@);
        let lex = lex_map_len(&self.lexical) as u64;
        let prods = self.production.len() as u64;
        if rows + lex + 3 >= limit || rows + lex + prods + 5 >= limit {
            return false;
        }
        let ghost pv = prods_view(self.production@);
        let mut alts: u64 = 0;
        let mut j: usize = 0;
        while j < self.production.len()
            invariant
                limit == u32::MAX,
                pv == prods_view(self.production@),
                j <= self.production.len(),
                alts == alt_count(pv.take(j as int)),
                alts < limit,
            decreases self.production.len() - j,
        {
            proof {
                lemma_alt_count_take(pv, j as int);
                assert(pv[j as int].alts.len() == self.production@[j as int].rhs@.len());
            }
            let n = self.production[j].rhs.len() as u64;
            if n >= limit - alts {
                return false;
            }
            alts = alts + n;
            j = j + 1;
        }
        assert(pv.take(self.production.len() as int) =~= pv);
        alts + 2 < limit
    }

    /// Numbers the terms and non-terms of the grammar and its productions, after adding the
    /// production `_ -> start`. When `validate_name` holds, every name but the builtin ones must
    /// be a valid variable name.
    pub fn extend(&mut self, validate_name: bool) -> (res: Result<Grammar, String>)
        requires
            old(self).size_bound(),
        ensures
            (match extend_spec(old(self).priority@, lex_entries(old(self).lexical), prods_view(old(self).production@), old(self).start@, validate_name) {
                Ok(gs) => res matches Ok(g) && g@ == gs && g.wf(),
                Err(e) => res matches Err(m) && m@ == error_message(e),
            }),
            prods_view(final(self).production@) == (if parse_term_spec(old(self).priority@, lex_entries(old(self).lexical), validate_name) is Ok
                && old(self).production@.len() > 0 {
                prods_view(old(self).production@).push(start_production(old(self).start@))
            } else {
                prods_view(old(self).production@)
            }),
            final(self).priority@ == old(self).priority@,
            final(self).lexical == old(self).lexical,
            final(self).start == old(self).start,
            final(self).header == old(self).header,
            final(self).epilogue == old(self).epilogue,
            final(self).lexer_field == old(self).lexer_field,
            final(self).lexer_action == old(self).lexer_action,
            final(self).parser_field == old(self).parser_field,
            final(self).parser_def == old(self).parser_def,
    {
        let ghost old_prods = prods_view(self.production@);
        let (terms, term2id) = match parse_term(&self.priority, &self.lexical, validate_name) {
            Ok(p) => p,
            Err(m) => {
                return Err(m);
            },
        };
        let ghost tv = terms_view(terms@);
        if self.production.len() == 0 {
            proof {
                reveal_strlit("grammar must have at least one production rule");
            }
            return Err(String::from_str("grammar must have at least one production rule"));
        }
        let mut start_rhs: Vec<String> = Vec::new();
        start_rhs.push(self.start.clone());
        let mut alts: Vec<RawProductionRhs> = Vec::new();
        alts.push(RawProductionRhs { rhs: start_rhs, rhs_arg: None, act: String::from_str("_1"), prec: None });
        self.production.push(RawProduction { lhs: String::from_str(START_NT_NAME), ty: String::new(), rhs: alts });
        let ghost pv = prods_view(self.production@);
        proof {
            reveal_strlit("_");
            reveal_strlit("_1");
            let sp = self.production@.last();
            assert(sp@.alts =~= seq![RhsView { rhs: seq![self.start@], args: None, act: seq!['_', '1'], prec: None }]) by {
                assert(sp.rhs@[0]@.rhs =~= seq![self.start@]);
                assert(sp.rhs@[0]@.act =~= seq!['_', '1']);
            }
            assert(sp@.lhs =~= crate::grammar::start_nt_name());
            assert(pv =~= old_prods.push(start_production(self.start@)));
            assert(old_prods.push(start_production(self.start@)).drop_last() =~= old_prods);
            assert(alt_count(pv) == alt_count(old_prods) + 1);
        }
        let (mut nts, nt2id) = match collect_nts_exec(&self.production, &term2id, Ghost(names_of(tv)), validate_name) {
            Ok(p) => p,
            Err(m) => {
                return Err(m);
            },
        };
        proof {
            lemma_collect_nts_contains(pv, pv.len(), validate_name, names_of(tv));
            assert(pv[pv.len() - 1].lhs == crate::grammar::start_nt_name());
            assert(nt_names(nts_view(nts@)).contains(pv[pv.len() - 1].lhs));
        }
        let ghost nv0 = nts_view(nts@);
        let s = match name_map_get(&nt2id, self.start.as_str()) {
            None => {
                return Err(quote_msg("start non-term \"", self.start.as_str(), "\" undefined"));
            },
            Some(s) => s,
        };
        proof {
            lemma_index_of(nt_names(nv0), name_map_view(nt2id), self.start@);
        }
        let ty = nts[s as usize].ty.clone();
        let last = nts.len() - 1;
        nts[last].ty = ty;
        let ghost nv = nts_view(nts@);
        proof {
            assert(nv =~= nv0.update(last as int, (nv0.last().0, nv0[s as int].1)));
            assert(nt_names(nv) =~= nt_names(nv0));
            assert forall|j: int| 0 <= j < self.production@.len() implies nt_names(nts_view(nts@)).contains(#[trigger] prods_view(self.production@)[j].lhs) by {
                assert(nt_names(nv0).contains(pv[j].lhs));
            }
        }
        let mut groups = match build_groups_exec(&self.production, &terms, &term2id, &nts, &nt2id) {
            Ok(g) => g,
            Err(m) => {
                return Err(m);
            },
        };
        let ghost gv = groups_view(groups@);
        let ghost gs = groups@.map_values(|v: Vec<Prod>| v@);
        let n = groups.len();
        let mut prod: Vec<Prod> = Vec::new();
        let mut i: usize = 0;
        proof {
            assert(gv.take(0) =~= Seq::<Seq<ProdSpec>>::empty());
            assert(prod@.map_values(|p: Prod| p@) =~= Seq::<ProdSpec>::empty());
        }
        while i < n
            invariant
                n == groups@.len(),
                n == nts@.len(),
                gv.len() == n,
                gs.len() == n,
                forall|j: int| 0 <= j < n ==> (#[trigger] gs[j]).map_values(|p: Prod| p@) == gv[j],
                i <= n,
                forall|j: int| i <= j < n ==> (#[trigger] groups@[j])@ == gs[j],
                prod@.map_values(|p: Prod| p@) == flat(gv.take(i as int)),
                nts_view(nts@) == nv,
                forall|j: int| 0 <= j < i ==> (#[trigger] nts@[j]).start_idx == flat(gv.take(j)).len(),
                flat(gv).len() == alt_count(pv),
                alt_count(pv) < u32::MAX,
            decreases n - i,
        {
            proof {
                lemma_flat_prefix(gv, i as int);
                lemma_flat_group(gv, i as int);
            }
            let cur = prod.len();
            let ghost nts_before = nts@;
            nts[i].start_idx = cur;
            proof {
                assert(nts_view(nts@) =~= nts_view(nts_before));
            }
            let mut g: Vec<Prod> = Vec::new();
            std::mem::swap(&mut g, &mut groups[i]);
            let ghost before = prod@;
            prod.append(&mut g);
            proof {
                assert(prod@ == before + gs[i as int]);
                assert(prod@.map_values(|p: Prod| p@) =~= before.map_values(|p: Prod| p@) + gs[i as int].map_values(|p: Prod| p@));
                assert(gv.take(i + 1).drop_last() =~= gv.take(i as int));
            }
            i = i + 1;
        }
        proof {
            assert(gv.take(n as int) =~= gv);
        }
        let ghost pspec = prod@.map_values(|p: Prod| p@);
        let plen = prod.len();
        let mut j: usize = 0;
        while j < plen
            invariant
                plen == prod@.len(),
                plen < u32::MAX,
                j <= plen,
                prod@.map_values(|p: Prod| p@) == pspec,
                forall|k: int| 0 <= k < j ==> (#[trigger] prod@[k]).id == k,
            decreases plen - j,
        {
            let ghost before = prod@;
            prod[j].id = j as u32;
            proof {
                assert(prod@.map_values(|p: Prod| p@) =~= before.map_values(|p: Prod| p@));
            }
            j = j + 1;
        }
        let g = Grammar { terms, nt: nts, prod };
        proof {
            lemma_grammar_result(&g, gv, nv);
        }
        Ok(g)
    }
}

} // verus!

verus! {

#[verifier::opaque]
pub open spec fn flat_layout(g: &Grammar, gv: Seq<Seq<ProdSpec>>) -> bool {
    &&& g.nt@.len() >= 1
    &&& gv.len() == g.nt@.len()
    &&& forall|j: int| 0 <= j < g.nt@.len() ==> (#[trigger] g.nt@[j]).start_idx == flat(gv.take(j)).len()
    &&& g.prod@.map_values(|p: Prod| p@) == flat(gv)
}

proof fn lemma_layout_ranges(g: &Grammar, gv: Seq<Seq<ProdSpec>>)
    requires
        flat_layout(g, gv),
    ensures
        forall|i: int| 0 <= i < g.nt@.len() ==> #[trigger] g.end_idx(i) == flat(gv.take(i + 1)).len(),
        forall|i: int| 0 <= i < g.nt@.len() ==> #[trigger] g.nt@[i].start_idx <= g.end_idx(i) && g.end_idx(i) <= g.prod@.len(),
        g.nt@[0].start_idx == 0,
{
    reveal(flat_layout);
    let n = g.nt@.len() as int;
    assert(gv.take(0) =~= Seq::<Seq<ProdSpec>>::empty());
    assert forall|i: int| 0 <= i < n implies #[trigger] g.end_idx(i) == flat(gv.take(i + 1)).len() by {
        if i + 1 >= n {
            assert(gv.take(i + 1) =~= gv);
            assert(g.prod@.map_values(|p: Prod| p@).len() == g.prod@.len());
        }
    }
    assert forall|i: int| 0 <= i < n implies #[trigger] g.nt@[i].start_idx <= g.end_idx(i) && g.end_idx(i) <= g.prod@.len() by {
        lemma_flat_group(gv, i);
        lemma_flat_prefix(gv, i + 1);
        assert(g.end_idx(i) == flat(gv.take(i + 1)).len());
        assert(g.prod@.map_values(|p: Prod| p@).len() == g.prod@.len());
    }
}

proof fn lemma_layout_groups(g: &Grammar, gv: Seq<Seq<ProdSpec>>)
    requires
        flat_layout(g, gv),
    ensures
        g@.groups == gv,
{
    reveal(flat_layout);
    lemma_layout_ranges(g, gv);
    let fl = flat(gv);
    assert forall|i: int| 0 <= i < g.nt@.len() implies g@.groups[i] == gv[i] by {
        lemma_flat_group(gv, i);
        let a = g.nt@[i].start_idx as int;
        let b = g.end_idx(i);
        assert(g.end_idx(i) == flat(gv.take(i + 1)).len());
        assert(g.prod@.subrange(a, b).map_values(|p: Prod| p@) =~= fl.subrange(a, b));
    }
    assert(g@.groups =~= gv);
}

proof fn lemma_lhs_at(ps: Seq<Prod>, gv: Seq<Seq<ProdSpec>>, i: int, p: int, a: int, b: int)
    requires
        0 <= i < gv.len(),
        ps.map_values(|q: Prod| q@) == flat(gv),
        forall|j: int| 0 <= j < gv[i].len() ==> (#[trigger] gv[i][j]).lhs == i,
        a == flat(gv.take(i)).len(),
        b == flat(gv.take(i + 1)).len(),
        a <= p < b,
    ensures
        ps[p].lhs == i,
{
    lemma_flat_group(gv, i);
    lemma_flat_prefix(gv, i + 1);
    let fl = flat(gv);
    assert(fl.subrange(a, b)[p - a] == fl[p]);
    assert(gv[i][p - a].lhs == i);
    assert(ps.map_values(|q: Prod| q@)[p] == ps[p]@);
}

proof fn lemma_layout_lhs(g: &Grammar, gv: Seq<Seq<ProdSpec>>)
    requires
        flat_layout(g, gv),
        forall|i: int, j: int| 0 <= i < gv.len() && 0 <= j < gv[i].len() ==> (#[trigger] gv[i][j]).lhs == i,
    ensures
        forall|i: int, p: int|
            #![trigger g.prod@[p].lhs, g.nt@[i].start_idx]
            0 <= i < g.nt@.len() && g.nt@[i].start_idx <= p < g.end_idx(i) ==> g.prod@[p].lhs == i,
{
    reveal(flat_layout);
    lemma_layout_ranges(g, gv);
    assert forall|i: int, p: int|
        #![trigger g.prod@[p].lhs, g.nt@[i].start_idx]
        0 <= i < g.nt@.len() && g.nt@[i].start_idx <= p < g.end_idx(i) implies g.prod@[p].lhs == i by {
        assert(g.end_idx(i) == flat(gv.take(i + 1)).len());
        assert(g.nt@[i].start_idx == flat(gv.take(i)).len());
        assert(forall|j: int| 0 <= j < gv[i].len() ==> (#[trigger] gv[i][j]).lhs == i);
        lemma_lhs_at(g.prod@, gv, i, p, g.nt@[i].start_idx as int, g.end_idx(i));
    }
}

proof fn lemma_layout_prods(g: &Grammar, gv: Seq<Seq<ProdSpec>>)
    requires
        flat_layout(g, gv),
        forall|k: int| 0 <= k < g.prod@.len() ==> (#[trigger] g.prod@[k]).id == k,
        forall|i: int, j: int| 0 <= i < gv.len() && 0 <= j < gv[i].len() ==> (#[trigger] gv[i][j]).lhs == i,
        forall|i: int, j: int, k: int| 0 <= i < gv.len() && 0 <= j < gv[i].len() && 0 <= k < gv[i][j].rhs.len()
            ==> (#[trigger] gv[i][j].rhs[k]) < g.terms@.len() + g.nt@.len(),
    ensures
        forall|p: int|
            0 <= p < g.prod@.len() ==> {
                &&& #[trigger] g.prod@[p].id == p
                &&& g.prod@[p].lhs < g.nt@.len()
                &&& forall|k: int| 0 <= k < g.rhs(p).len() ==> #[trigger] g.rhs(p)[k] < g.token_count()
            },
{
    reveal(flat_layout);
    let n = g.nt@.len() as int;
    let fl = flat(gv);
    let bound = g.terms@.len() + g.nt@.len();
    let pr = |x: ProdSpec| x.lhs < n && forall|k: int| 0 <= k < x.rhs.len() ==> #[trigger] x.rhs[k] < bound;
    assert forall|i: int, j: int| 0 <= i < gv.len() && 0 <= j < gv[i].len() implies pr(#[trigger] gv[i][j]) by {
    }
    lemma_flat_all(gv, pr);
    assert forall|p: int| 0 <= p < g.prod@.len() implies {
        &&& #[trigger] g.prod@[p].id == p
        &&& g.prod@[p].lhs < g.nt@.len()
        &&& forall|k: int| 0 <= k < g.rhs(p).len() ==> #[trigger] g.rhs(p)[k] < g.token_count()
    } by {
        assert(g.prod@.map_values(|p: Prod| p@)[p] == fl[p]);
        assert(g.prod@[p]@ == fl[p]);
        assert(pr(fl[p]));
        assert(g.rhs(p) == fl[p].rhs);
        assert forall|k: int| 0 <= k < g.rhs(p).len() implies #[trigger] g.rhs(p)[k] < g.token_count() by {
            assert(g.rhs(p)[k] == fl[p].rhs[k]);
        }
    }
}

#[verifier::rlimit(40)]
proof fn lemma_grammar_result(g: &Grammar, gv: Seq<Seq<ProdSpec>>, nv: Seq<NtV>)
    requires
        g.terms@.len() >= 3,
        g.nt@.len() >= 1,
        g.prod@.len() >= 1,
        g.terms@.len() + g.nt@.len() < u32::MAX,
        g.prod@.len() < u32::MAX,
        gv.len() == g.nt@.len(),
        forall|j: int| 0 <= j < g.nt@.len() ==> (#[trigger] g.nt@[j]).start_idx == flat(gv.take(j)).len(),
        g.prod@.map_values(|p: Prod| p@) == flat(gv),
        forall|k: int| 0 <= k < g.prod@.len() ==> (#[trigger] g.prod@[k]).id == k,
        forall|i: int, j: int| 0 <= i < gv.len() && 0 <= j < gv[i].len() ==> (#[trigger] gv[i][j]).lhs == i,
        forall|i: int, j: int, k: int| 0 <= i < gv.len() && 0 <= j < gv[i].len() && 0 <= k < gv[i][j].rhs.len()
            ==> (#[trigger] gv[i][j].rhs[k]) < g.terms@.len() + g.nt@.len(),
    ensures
        g.wf(),
        g@.groups == gv,

{
    assert(flat_layout(g, gv)) by {
        reveal(flat_layout);
    }
    lemma_layout_ranges(g, gv);
    lemma_layout_groups(g, gv);
    lemma_layout_lhs(g, gv);
    lemma_layout_prods(g, gv);
}

} // verus!
