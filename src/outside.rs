//! Calls into outside crates, each behind a small trusted item.

use arrayvec::ArrayVec;
use fnv::FnvHashMap;
use rand::rngs::StdRng;
use rand::Rng;
use vstd::prelude::*;

use crate::policy::Answer;

verus! {

/// A hash map from integer keys, with fnv's hasher.
pub type Table<V> = FnvHashMap<u32, V>;

/// A fixed-capacity vector from the arrayvec crate.
#[verifier::external_type_specification]
#[verifier::external_body]
#[verifier::reject_recursive_types(T)]
pub struct ExArrayVec<T, const CAP: usize>(ArrayVec<T, CAP>);

/// std's hasher builder that makes each hasher with `Default`.
#[verifier::external_type_specification]
#[verifier::external_body]
#[verifier::reject_recursive_types(H)]
pub struct ExBuildHasherDefault<H>(std::hash::BuildHasherDefault<H>);

/// The Fowler-Noll-Vo hasher of the fnv crate.
#[verifier::external_type_specification]
#[verifier::external_body]
pub struct ExFnvHasher(fnv::FnvHasher);

/// The seedable standard generator of the rand crate.
#[verifier::external_type_specification]
#[verifier::external_body]
pub struct ExStdRng(StdRng);

/// The answers held by a ranked list, in order.
pub uninterp spec fn answer_list(v: ArrayVec<Answer, 3>) -> Seq<Answer>;

/// The track indices held by a list of tracks, in order.
pub uninterp spec fn track_list(v: ArrayVec<usize, 3>) -> Seq<usize>;

/// Relies on ArrayVec::new: a new vector holds nothing.
#[verifier::external_body]
pub(crate) fn new_answers() -> (r: ArrayVec<Answer, 3>)
    ensures
        answer_list(r) == Seq::<Answer>::empty(),
{
    ArrayVec::new()
}

/// Relies on ArrayVec::push: appends the element; it panics only when the
/// vector is full.
#[verifier::external_body]
pub(crate) fn push_answer(v: &mut ArrayVec<Answer, 3>, a: Answer)
    requires
        answer_list(*old(v)).len() < 3,
    ensures
        answer_list(*final(v)) == answer_list(*old(v)).push(a),
{
    v.push(a)
}

/// Relies on ArrayVec::as_slice: the slice holds the elements in order.
#[verifier::external_body]
pub(crate) fn answers_slice(v: &ArrayVec<Answer, 3>) -> (r: &[Answer])
    ensures
        r@ == answer_list(*v),
        r@.len() <= 3,
{
    v.as_slice()
}

/// Relies on ArrayVec::new: a new vector holds nothing.
#[verifier::external_body]
pub(crate) fn new_tracks() -> (r: ArrayVec<usize, 3>)
    ensures
        track_list(r) == Seq::<usize>::empty(),
{
    ArrayVec::new()
}

/// Relies on ArrayVec::push: appends the element; it panics only when the
/// vector is full.
#[verifier::external_body]
pub(crate) fn push_track(v: &mut ArrayVec<usize, 3>, t: usize)
    requires
        track_list(*old(v)).len() < 3,
    ensures
        track_list(*final(v)) == track_list(*old(v)).push(t),
{
    v.push(t)
}

/// Relies on ArrayVec::as_slice: the slice holds the elements in order.
#[verifier::external_body]
pub(crate) fn tracks_slice(v: &ArrayVec<usize, 3>) -> (r: &[usize])
    ensures
        r@ == track_list(*v),
        r@.len() <= 3,
{
    v.as_slice()
}

/// Relies on HashMap::default with fnv's hasher: a new map is empty.
#[verifier::external_body]
pub(crate) fn new_table<V>() -> (r: Table<V>)
    ensures
        r@.dom() == Set::<u32>::empty(),
{
    FnvHashMap::default()
}

/// Relies on HashMap::insert with fnv's hasher, which hashes equal integers
/// alike: the key is bound to the value.
#[verifier::external_body]
pub(crate) fn table_insert<V>(m: &mut Table<V>, k: u32, v: V)
    ensures
        final(m)@ == old(m)@.insert(k, v),
{
    m.insert(k, v);
}

/// Relies on HashMap::get with fnv's hasher: the value bound to the key, if any.
#[verifier::external_body]
pub(crate) fn table_get<V>(m: &Table<V>, k: u32) -> (r: Option<&V>)
    ensures
        m@.contains_key(k) ==> r == Some(&m@[k]),
        !m@.contains_key(k) ==> r is None,
{
    m.get(&k)
}

/// Relies on HashMap::len: the number of keys bound.
#[verifier::external_body]
pub(crate) fn table_len<V>(m: &Table<V>) -> (r: usize)
    ensures
        r == m@.len(),
{
    m.len()
}

/// Relies on HashMap::iter with fnv's hasher: every binding once, in some
/// order.
#[verifier::external_body]
pub(crate) fn table_entries(m: &Table<u32>) -> (r: Vec<(u32, u32)>)
    ensures
        forall|i: int| 0 <= i < r@.len() ==> m@.contains_key(#[trigger] r@[i].0) && m@[r@[i].0] == r@[i].1,
        forall|k: u32| m@.contains_key(k) ==> exists|i: int| 0 <= i < r@.len() && #[trigger] r@[i].0 == k,
        forall|i: int, j: int| 0 <= i < j < r@.len() ==> r@[i].0 != r@[j].0,
{
    m.iter().map(|(k, v)| (*k, *v)).collect()
}

/// Relies on String::push_str: appends the characters of `t`.
#[verifier::external_body]
pub(crate) fn append(s: &mut String, t: &str)
    ensures
        final(s)@ == old(s)@ + t@,
{
    s.push_str(t)
}

/// Relies on Rng::gen_range over `0..100`: some integer below 100.
#[verifier::external_body]
pub(crate) fn roll_percent(rng: &mut StdRng) -> (r: u32)
    ensures
        r < 100,
{
    rng.gen_range(0..100u32)
}

} // verus!
