//! Reference transactions: labelled vectors, as their file lists them.

use vstd::prelude::*;

verus! {

/// A reference as its file gives it.
pub struct ReferenceEntry {
    pub vector: Vec<u32>,
    pub label: String,
}

/// Labelled vectors: label 1 marks a fraud.
pub struct References {
    pub vectors: Vec<[u32; 14]>,
    pub labels: Vec<u8>,
    /// How many of the labels mark a fraud.
    pub frauds: usize,
    /// That count in percent of all, rounded down.
    pub percent: usize,
}

/// A reference whose vector does not have 14 components.
#[derive(Debug, Clone, Copy, PartialEq, Eq, Structural)]
pub struct WrongDims {
    pub index: usize,
    pub dims: usize,
}

/// The number that stands for a label.
pub open spec fn label_of(entry: ReferenceEntry) -> u8 {
    if entry.label@ == "fraud"@ {
        1
    } else {
        0
    }
}

/// How many of the first `m` references are frauds.
pub open spec fn frauds_to(entries: Seq<ReferenceEntry>, m: int) -> int
    decreases m,
{
    if m <= 0 {
        0
    } else {
        frauds_to(entries, m - 1) + label_of(entries[m - 1])
    }
}

/// Every vector has 14 components.
pub open spec fn all_dims(entries: Seq<ReferenceEntry>) -> bool {
    forall|i: int| 0 <= i < entries.len() ==> (#[trigger] entries[i]).vector@.len() == 14
}

/// Copies a vector of 14 components.
fn to_array(v: &Vec<u32>) -> (r: [u32; 14])
    requires
        v@.len() == 14,
    ensures
        r@ == v@,
{
    let mut a: [u32; 14] = [0u32;14];
    for i in 0..14usize
        invariant
            v@.len() == 14,
            forall|j: int| 0 <= j < i ==> a@[j] == v@[j],
    {
        a[i] = v[i];
    }
    assert(a@ =~= v@);
    a
}

/// Takes over the references, or reports the first with a wrong number of components.
///
/// There is no percentage of no references at all.
pub fn load_references(entries: &Vec<ReferenceEntry>) -> (r: Result<References, WrongDims>)
    requires
        all_dims(entries@) ==> entries@.len() > 0 && frauds_to(
            entries@,
            entries@.len() as int,
        ) * 100 <= usize::MAX,
    ensures
        match r {
            Ok(refs) => {
                &&& all_dims(entries@)
                &&& refs.vectors@.len() == entries@.len()
                &&& refs.labels@.len() == entries@.len()
                &&& forall|i: int|
                    0 <= i < entries@.len() ==> (#[trigger] refs.vectors@[i])@
                        == entries@[i].vector@
                &&& forall|i: int|
                    0 <= i < entries@.len() ==> #[trigger] refs.labels@[i] == label_of(entries@[i])
                &&& refs.frauds == frauds_to(entries@, entries@.len() as int)
                &&& refs.percent == refs.frauds * 100 / entries@.len() as int
            },
            Err(e) => {
                &&& e.index < entries@.len()
                &&& e.dims == entries@[e.index as int].vector@.len()
                &&& e.dims != 14
                &&& forall|i: int|
                    0 <= i < e.index ==> (#[trigger] entries@[i]).vector@.len() == 14
            },
        },
{
    let fraud: String = "fraud".to_owned();
    let count: usize = entries.len();
    let mut vectors: Vec<[u32; 14]> = Vec::new();
    let mut labels: Vec<u8> = Vec::new();
    let mut frauds: usize = 0;
    for i in 0..count
        invariant
            count == entries@.len(),
            fraud@ == "fraud"@,
            forall|j: int| 0 <= j < i ==> (#[trigger] entries@[j]).vector@.len() == 14,
            vectors@.len() == i,
            labels@.len() == i,
            forall|j: int| 0 <= j < i ==> (#[trigger] vectors@[j])@ == entries@[j].vector@,
            forall|j: int| 0 <= j < i ==> #[trigger] labels@[j] == label_of(entries@[j]),
            frauds <= i,
            frauds == frauds_to(entries@, i as int),
    {
        let e: &ReferenceEntry = &entries[i];
        if e.vector.len() != 14 {
            return Err(WrongDims { index: i, dims: e.vector.len() });
        }
        vectors.push(to_array(&e.vector));
        if e.label == fraud {
            labels.push(1);
            frauds = frauds + 1;
        } else {
            labels.push(0);
        }
    }
    let percent: usize = frauds * 100 / count;
    Ok(References { vectors, labels, frauds, percent })
}

} // verus!
