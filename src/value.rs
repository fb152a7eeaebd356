use vstd::prelude::*;

use crate::entity::Entity;

verus! {

/// The number of distinct `u64` values.
pub open spec fn u64_range() -> nat {
    0x1_0000_0000_0000_0000
}

/// A type-tagged value of a registered type: its scalar payload (which may be a
/// sequence of any length) and the live identities it refers to.
#[derive(Debug)]
pub struct Value {
    pub type_id: u32,
    pub words: Vec<u64>,
    pub refs: Vec<Entity>,
}

/// What a `Value` holds, as mathematical data.
pub struct ValueModel {
    pub type_id: u32,
    pub words: Seq<u64>,
    pub refs: Seq<Entity>,
}

impl View for Value {
    type V = ValueModel;

    open spec fn view(&self) -> ValueModel {
        ValueModel { type_id: self.type_id, words: self.words@, refs: self.refs@ }
    }
}

/// The views of a sequence of values.
pub open spec fn views(s: Seq<Value>) -> Seq<ValueModel> {
    s.map_values(|v: Value| v@)
}

/// One step of the structural hash: multiply by 31 and add the next word, both wrapping.
pub open spec fn mix(h: u64, x: u64) -> u64 {
    let m = (h as nat * 31) % u64_range();
    if m + x > u64::MAX {
        (m + x - u64_range()) as u64
    } else {
        (m + x) as u64
    }
}

/// The structural hash of a value's payload: seeded by its type tag, then folded word by word.
/// References to other entities take no part, since live identities differ between peers.
pub open spec fn hash_words(type_id: u32, words: Seq<u64>) -> u64
    decreases words.len(),
{
    if words.len() == 0 {
        type_id as u64
    } else {
        mix(hash_words(type_id, words.drop_last()), words.last())
    }
}

pub open spec fn value_hash(v: ValueModel) -> u64 {
    hash_words(v.type_id, v.words)
}

/// Copies a vector of plain `Copy` items.
pub fn copy_vec<T: Copy>(v: &Vec<T>) -> (r: Vec<T>)
    ensures
        r@ == v@,
{
    let mut r: Vec<T> = Vec::new();
    let mut i: usize = 0;
    while i < v.len()
        invariant
            i <= v.len(),
            r@ == v@.subrange(0, i as int),
        decreases v.len() - i,
    {
        r.push(v[i]);
        i = i + 1;
        assert(r@ =~= v@.subrange(0, i as int));
    }
    assert(r@ =~= v@);
    r
}

impl Value {
    pub fn new(type_id: u32, words: Vec<u64>, refs: Vec<Entity>) -> (r: Value)
        ensures
            r@ == (ValueModel { type_id, words: words@, refs: refs@ }),
    {
        Value { type_id, words, refs }
    }

    /// A value of the same type with the same payload and references.
    pub fn duplicate(&self) -> (r: Value)
        ensures
            r@ == self@,
    {
        Value { type_id: self.type_id, words: copy_vec(&self.words), refs: copy_vec(&self.refs) }
    }

    /// The structural hash of this value.
    pub fn structural_hash(&self) -> (r: u64)
        ensures
            r == value_hash(self@),
    {
        let mut h: u64 = self.type_id as u64;
        let mut i: usize = 0;
        while i < self.words.len()
            invariant
                i <= self.words.len(),
                h == hash_words(self.type_id, self.words@.subrange(0, i as int)),
            decreases self.words.len() - i,
        {
            proof {
                let s = self.words@.subrange(0, i as int + 1);
                assert(s.drop_last() =~= self.words@.subrange(0, i as int));
            }
            h = h.wrapping_mul(31).wrapping_add(self.words[i]);
            i = i + 1;
        }
        assert(self.words@.subrange(0, i as int) =~= self.words@);
        h
    }
}

pub proof fn lemma_views_push(s: Seq<Value>, v: Value)
    ensures
        views(s.push(v)) == views(s).push(v@),
{
    assert(views(s.push(v)) =~= views(s).push(v@));
}

/// Copies a list of values.
pub fn duplicate_all(s: &Vec<Value>) -> (r: Vec<Value>)
    ensures
        views(r@) == views(s@),
{
    let mut r: Vec<Value> = Vec::new();
    let mut i: usize = 0;
    while i < s.len()
        invariant
            i <= s.len(),
            r@.len() == i,
            forall|j: int| 0 <= j < i ==> (#[trigger] r@[j])@ == s@[j]@,
        decreases s.len() - i,
    {
        let d = s[i].duplicate();
        r.push(d);
        i = i + 1;
    }
    assert(views(r@) =~= views(s@));
    r
}

} // verus!
