use vstd::prelude::*;
use crate::table::Act;

verus! {

/// The right-hand side of a production: a `SmallVec` of token ids that keeps up to four inline.
#[verifier::external_body]
pub struct ProdVec {
    inner: smallvec::SmallVec<[u32; 4]>,
}

/// The token ids that a `ProdVec` holds, in order.
pub uninterp spec fn prod_vec_items(v: ProdVec) -> Seq<u32>;

/// `SmallVec::new`: an empty vector.
#[verifier::external_body]
pub(crate) fn prod_vec_new() -> (v: ProdVec)
    ensures
        prod_vec_items(v) == Seq::<u32>::empty(),
{
    ProdVec { inner: smallvec::SmallVec::new() }
}

/// `SmallVec::push`: appends `x` at the end.
#[verifier::external_body]
pub(crate) fn prod_vec_push(v: &mut ProdVec, x: u32)
    ensures
        prod_vec_items(*final(v)) == prod_vec_items(*old(v)).push(x),
{
    v.inner.push(x)
}

/// `SmallVec::len`: the number of items.
#[verifier::external_body]
pub(crate) fn prod_vec_len(v: &ProdVec) -> (n: usize)
    ensures
        n == prod_vec_items(*v).len(),
{
    v.inner.len()
}

/// Indexing a `SmallVec` (through its slice): the item at `i`, which must be in range.
#[verifier::external_body]
pub(crate) fn prod_vec_get(v: &ProdVec, i: usize) -> (x: u32)
    requires
        i < prod_vec_items(*v).len(),
    ensures
        x == prod_vec_items(*v)[i as int],
{
    v.inner[i]
}

/// A `SmallVec` seen as a slice of its items.
#[verifier::external_body]
pub(crate) fn prod_vec_as_slice(v: &ProdVec) -> (r: &[u32])
    ensures
        r@ == prod_vec_items(*v),
{
    v.inner.as_slice()
}

/// A hash map (`hashbrown::HashMap`) from names to ids.
#[verifier::external_body]
pub struct NameMap {
    inner: hashbrown::HashMap<String, u32>,
}

/// The entries of a `NameMap`, keyed by the characters of the name.
pub uninterp spec fn name_map_view(m: NameMap) -> Map<Seq<char>, u32>;

/// `HashMap::new`: an empty map.
#[verifier::external_body]
pub(crate) fn name_map_new() -> (map: NameMap)
    ensures
        name_map_view(map) =~= Map::empty(),
{
    NameMap { inner: hashbrown::HashMap::new() }
}

/// `HashMap::insert`: maps the name `k` to `v`, replacing an earlier entry of `k`.
#[verifier::external_body]
pub(crate) fn name_map_insert(m: &mut NameMap, k: &str, v: u32)
    ensures
        name_map_view(*final(m)) == name_map_view(*old(m)).insert(k@, v),
{
    m.inner.insert(k.to_string(), v);
}

/// `HashMap::get`: the id of the name `k`, if the map has it.
#[verifier::external_body]
pub(crate) fn name_map_get(m: &NameMap, k: &str) -> (r: Option<u32>)
    ensures
        r == (if name_map_view(*m).contains_key(k@) { Some(name_map_view(*m)[k@]) } else { None }),
{
    m.inner.get(k).copied()
}


/// The actions of a table entry: a `SmallVec` that keeps up to two inline.
#[verifier::external_body]
pub struct ActVec {
    inner: smallvec::SmallVec<[Act; 2]>,
}

/// The actions that an `ActVec` holds, in order.
pub uninterp spec fn act_vec_items(v: ActVec) -> Seq<Act>;

/// `SmallVec::new`: no action.
#[verifier::external_body]
pub(crate) fn act_vec_new() -> (v: ActVec)
    ensures
        act_vec_items(v) == Seq::<Act>::empty(),
{
    ActVec { inner: smallvec::SmallVec::new() }
}

/// `SmallVec::push`: appends `a` at the end.
#[verifier::external_body]
pub(crate) fn act_vec_push(v: &mut ActVec, a: Act)
    ensures
        act_vec_items(*final(v)) == act_vec_items(*old(v)).push(a),
{
    v.inner.push(a)
}

/// `SmallVec::len`: the number of actions.
#[verifier::external_body]
pub(crate) fn act_vec_len(v: &ActVec) -> (n: usize)
    ensures
        n == act_vec_items(*v).len(),
{
    v.inner.len()
}

/// Indexing a `SmallVec` (through its slice): the action at `i`, which must be in range.
#[verifier::external_body]
pub(crate) fn act_vec_get(v: &ActVec, i: usize) -> (a: Act)
    requires
        i < act_vec_items(*v).len(),
    ensures
        a == act_vec_items(*v)[i as int],
{
    v.inner[i]
}

/// `SmallVec::clone`: the same actions.
#[verifier::external_body]
pub(crate) fn act_vec_clone(v: &ActVec) -> (r: ActVec)
    ensures
        act_vec_items(r) == act_vec_items(*v),
{
    ActVec { inner: v.inner.clone() }
}

#[verifier::external_type_specification]
#[verifier::external_body]
#[verifier::reject_recursive_types(K)]
#[verifier::reject_recursive_types(V)]
#[verifier::reject_recursive_types(S)]
pub struct ExIndexMap<K, V, S>(indexmap::IndexMap<K, V, S>);

/// The entries of an `IndexMap` from strings to strings, in their order.
pub uninterp spec fn lex_entries(m: indexmap::IndexMap<String, String>) -> Seq<(Seq<char>, Seq<char>)>;

/// The entries after inserting `(k, v)`: an entry with key `k` keeps its place and takes the
/// value `v`; without one, `(k, v)` comes last.
pub open spec fn entries_insert(e: Seq<(Seq<char>, Seq<char>)>, k: Seq<char>, v: Seq<char>) -> Seq<(Seq<char>, Seq<char>)>
    decreases e.len(),
{
    if e.len() == 0 {
        seq![(k, v)]
    } else if e[0].0 == k {
        e.update(0, (k, v))
    } else {
        seq![e[0]] + entries_insert(e.drop_first(), k, v)
    }
}

/// Inserting a key that no entry has appends the entry.
pub proof fn lemma_insert_new_key(e: Seq<(Seq<char>, Seq<char>)>, k: Seq<char>, v: Seq<char>)
    requires
        forall|i: int| 0 <= i < e.len() ==> (#[trigger] e[i]).0 != k,
    ensures
        entries_insert(e, k, v) == e.push((k, v)),
    decreases e.len(),
{
    if e.len() > 0 {
        assert(e[0].0 != k);
        let t = e.drop_first();
        assert forall|i: int| 0 <= i < t.len() implies (#[trigger] t[i]).0 != k by {
            assert(t[i] == e[i + 1]);
        }
        lemma_insert_new_key(t, k, v);
        assert(seq![e[0]] + t.push((k, v)) =~= e.push((k, v)));
    }
}

/// `IndexMap::new`: an empty map.
#[verifier::external_body]
pub(crate) fn lex_map_new() -> (m: indexmap::IndexMap<String, String>)
    ensures
        lex_entries(m) == Seq::<(Seq<char>, Seq<char>)>::empty(),
{
    indexmap::IndexMap::new()
}

/// `IndexMap::insert`: an entry with an equal key keeps its place and takes the new value,
/// else the entry is added last.
#[verifier::external_body]
pub(crate) fn lex_map_insert(m: &mut indexmap::IndexMap<String, String>, k: String, v: String)
    ensures
        lex_entries(*final(m)) == entries_insert(lex_entries(*old(m)), k@, v@),
{
    m.insert(k, v);
}

/// `IndexMap::len`: the number of entries.
#[verifier::external_body]
pub(crate) fn lex_map_len(m: &indexmap::IndexMap<String, String>) -> (n: usize)
    ensures
        n == lex_entries(*m).len(),
{
    m.len()
}

/// `IndexMap::get_index`: the entry at position `i`, if there is one.
#[verifier::external_body]
pub(crate) fn lex_map_get_index(m: &indexmap::IndexMap<String, String>, i: usize) -> (r: Option<(&String, &String)>)
    ensures
        (r is Some) == (i < lex_entries(*m).len()),
        r matches Some(p) ==> (p.0@, p.1@) == lex_entries(*m)[i as int],
{
    m.get_index(i)
}

} // verus!
