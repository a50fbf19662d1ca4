//! The inverted-file index and its binary form.
//!
//! The file holds a header of 64 bytes, the centroids, the offset and the size of
//! each cluster, the labels, and the vectors; numbers are little-endian.

use crate::quantize::{half_byte, quantize_half};
use crate::scan::bytes_equal;
use vstd::prelude::*;
use vstd::string::*;

verus! {

/// Components of a vector.
pub const DIMS: usize = 14;

/// Components of a stored vector, with padding.
pub const STORAGE_DIMS: usize = 16;

/// Bytes of the header.
pub const HEADER: usize = 64;

/// Version of the format.
pub const VERSION: u32 = 1;

/// An inverted-file index: vectors grouped by the centroid nearest to them.
pub struct IvfIndex {
    /// Number of clusters.
    pub k: usize,
    /// Number of vectors.
    pub n: usize,
    /// Number of clusters to probe by default.
    pub nprobe_default: usize,
    /// Centroids, as single-precision bit patterns.
    pub centroids: Vec<[u32; 14]>,
    /// Position of the first vector of each cluster.
    pub cluster_offsets: Vec<u32>,
    /// Number of vectors in each cluster.
    pub cluster_sizes: Vec<u32>,
    /// Label of each vector; 1 marks a fraud.
    pub labels: Vec<u8>,
    /// Components of the vectors, as half-precision bit patterns.
    pub vectors: Vec<u16>,
    /// The same components, quantized.
    pub vectors_u8: Vec<u8>,
}

/// Why a file is no index.
#[derive(Clone, Copy, PartialEq, Eq, Structural, Debug)]
pub enum LoadError {
    /// The file is shorter than a header.
    TooSmall,
    /// The file does not start with the mark of the format.
    BadMagic,
    /// The file has another version of the format.
    UnsupportedVersion(u32),
}

/// The two bytes at `i` as a number.
pub open spec fn u16_at(d: Seq<u8>, i: int) -> int {
    d[i] + 0x100 * d[i + 1]
}

/// The four bytes at `i` as a number.
pub open spec fn u32_at(d: Seq<u8>, i: int) -> int {
    d[i] + 0x100 * d[i + 1] + 0x1_0000 * d[i + 2] + 0x100_0000 * d[i + 3]
}

/// Number of clusters according to the header.
pub open spec fn header_k(d: Seq<u8>) -> int {
    u32_at(d, 12)
}

/// Number of vectors according to the header.
pub open spec fn header_n(d: Seq<u8>) -> int {
    u32_at(d, 16)
}

/// Components of a stored vector according to the header.
pub open spec fn header_storage_dims(d: Seq<u8>) -> int {
    u32_at(d, 24)
}

/// Where the offsets of the clusters start.
pub open spec fn offsets_at(d: Seq<u8>) -> int {
    64 + header_k(d) * 56
}

/// Where the sizes of the clusters start.
pub open spec fn sizes_at(d: Seq<u8>) -> int {
    offsets_at(d) + header_k(d) * 4
}

/// Where the labels start.
pub open spec fn labels_at(d: Seq<u8>) -> int {
    sizes_at(d) + header_k(d) * 4
}

/// Where the vectors start.
pub open spec fn vectors_at(d: Seq<u8>) -> int {
    labels_at(d) + header_n(d)
}

/// Where the vectors end.
pub open spec fn index_end(d: Seq<u8>) -> int {
    vectors_at(d) + header_n(d) * header_storage_dims(d) * 2
}

/// What is wrong with the header of a file, if anything.
pub open spec fn load_error(d: Seq<u8>) -> Option<LoadError> {
    if d.len() < HEADER {
        Some(LoadError::TooSmall)
    } else if d.subrange(0, 8) != "IVFFLAT1".spec_bytes() {
        Some(LoadError::BadMagic)
    } else if u32_at(d, 8) != VERSION {
        Some(LoadError::UnsupportedVersion(u32_at(d, 8) as u32))
    } else {
        None
    }
}

/// Whether the file is as long as its header says.
pub open spec fn is_complete(d: Seq<u8>) -> bool {
    index_end(d) <= d.len()
}

impl IvfIndex {
    /// The index is what the file says.
    pub open spec fn decodes(&self, d: Seq<u8>) -> bool {
        &&& self.k == header_k(d)
        &&& self.n == header_n(d)
        &&& self.nprobe_default == u32_at(d, 28)
        &&& self.centroids@.len() == header_k(d)
        &&& forall|i: int, j: int|
            0 <= i < header_k(d) && 0 <= j < 14 ==> (#[trigger] self.centroids@[i]@[j]) == u32_at(
                d,
                64 + (i * 14 + j) * 4,
            )
        &&& self.cluster_offsets@.len() == header_k(d)
        &&& forall|i: int|
            0 <= i < header_k(d) ==> (#[trigger] self.cluster_offsets@[i]) == u32_at(
                d,
                offsets_at(d) + i * 4,
            )
        &&& self.cluster_sizes@.len() == header_k(d)
        &&& forall|i: int|
            0 <= i < header_k(d) ==> (#[trigger] self.cluster_sizes@[i]) == u32_at(
                d,
                sizes_at(d) + i * 4,
            )
        &&& self.labels@ == d.subrange(labels_at(d), labels_at(d) + header_n(d))
        &&& self.vectors@.len() == header_n(d) * header_storage_dims(d)
        &&& forall|i: int|
            0 <= i < self.vectors@.len() ==> (#[trigger] self.vectors@[i]) == u16_at(
                d,
                vectors_at(d) + i * 2,
            )
        &&& self.quantizes()
    }

    /// The bytes are the quantized components.
    pub open spec fn quantizes(&self) -> bool {
        &&& self.vectors_u8@.len() == self.vectors@.len()
        &&& forall|i: int|
            0 <= i < self.vectors@.len() ==> (#[trigger] self.vectors_u8@[i]) == half_byte(
                self.vectors@[i],
            )
    }
}

/// Reads the two bytes at `i`.
fn read_u16(d: &[u8], i: usize) -> (r: u16)
    requires
        i + 2 <= d@.len(),
    ensures
        r == u16_at(d@, i as int),
{
    d[i] as u16 + 0x100 * d[i + 1] as u16
}

/// Reads the four bytes at `i`.
fn read_u32(d: &[u8], i: usize) -> (r: u32)
    requires
        i + 4 <= d@.len(),
    ensures
        r == u32_at(d@, i as int),
{
    d[i] as u32 + 0x100 * d[i + 1] as u32 + 0x1_0000 * d[i + 2] as u32 + 0x100_0000
        * d[i + 3] as u32
}

/// Checks the header of a file.
pub fn check_header(data: &[u8]) -> (r: Result<(), LoadError>)
    ensures
        match r {
            Ok(_) => load_error(data@) is None,
            Err(e) => load_error(data@) == Some(e),
        },
{
    if data.len() < HEADER {
        return Err(LoadError::TooSmall);
    }
    if !bytes_equal(&data[0..8], "IVFFLAT1".as_bytes()) {
        return Err(LoadError::BadMagic);
    }
    let version: u32 = read_u32(data, 8);
    if version != VERSION {
        return Err(LoadError::UnsupportedVersion(version));
    }
    Ok(())
}

/// Whether a file with a header is as long as the header says.
pub fn complete(data: &[u8]) -> (r: bool)
    requires
        data@.len() >= HEADER,
    ensures
        r == is_complete(data@),
{
    let k: u128 = read_u32(data, 12) as u128;
    let n: u128 = read_u32(data, 16) as u128;
    let storage_dims: u128 = read_u32(data, 24) as u128;
    assert(n * storage_dims <= 0x1_0000_0000 * 0x1_0000_0000) by (nonlinear_arith)
        requires
            0 <= n <= 0x1_0000_0000,
            0 <= storage_dims <= 0x1_0000_0000,
    ;
    64 + k * 56 + k * 4 + k * 4 + n + n * storage_dims * 2 <= data.len() as u128
}

/// Reads a table of `count` numbers of four bytes each.
fn read_table(d: &[u8], at: usize, count: usize) -> (r: Vec<u32>)
    requires
        at + count * 4 <= d@.len(),
    ensures
        r@.len() == count,
        forall|i: int| 0 <= i < count ==> (#[trigger] r@[i]) == u32_at(d@, at + i * 4),
{
    let mut table: Vec<u32> = Vec::new();
    for i in 0..count
        invariant
            at + count * 4 <= d@.len() == d.len(),
            table@.len() == i,
            forall|j: int| 0 <= j < i ==> (#[trigger] table@[j]) == u32_at(d@, at + j * 4),
    {
        table.push(read_u32(d, at + i * 4));
    }
    table
}

/// Reads a centroid of fourteen numbers of four bytes each.
fn read_centroid(d: &[u8], at: usize) -> (r: [u32; 14])
    requires
        at + 56 <= d@.len(),
    ensures
        forall|j: int| 0 <= j < 14 ==> (#[trigger] r@[j]) == u32_at(d@, at + j * 4),
{
    let mut c: [u32; 14] = [0u32;14];
    for j in 0..14usize
        invariant
            at + 56 <= d@.len() == d.len(),
            forall|i: int| 0 <= i < j ==> (#[trigger] c@[i]) == u32_at(d@, at + i * 4),
    {
        c[j] = read_u32(d, at + j * 4);
    }
    c
}

impl IvfIndex {
    /// Decodes an index file.
    ///
    /// A file with a good header has to be as long as the header says.
    pub fn load(data: &[u8]) -> (r: Result<IvfIndex, LoadError>)
        requires
            load_error(data@) is None ==> is_complete(data@),
        ensures
            match r {
                Ok(index) => load_error(data@) is None && index.decodes(data@),
                Err(e) => load_error(data@) == Some(e),
            },
    {
        match check_header(data) {
            Ok(_) => {},
            Err(e) => {
                return Err(e);
            },
        }
        let ghost d = data@;
        assert(d.len() == data.len());
        let k: usize = read_u32(data, 12) as usize;
        let n: usize = read_u32(data, 16) as usize;
        let storage_dims: usize = read_u32(data, 24) as usize;
        let nprobe_default: usize = read_u32(data, 28) as usize;
        assert(n * storage_dims >= 0) by (nonlinear_arith)
            requires
                n >= 0,
                storage_dims >= 0,
        ;

        let mut centroids: Vec<[u32; 14]> = Vec::new();
        for i in 0..k
            invariant
                d == data@,
                64 + k * 56 <= d.len() == data.len(),
                centroids@.len() == i,
                forall|a: int, j: int|
                    0 <= a < i && 0 <= j < 14 ==> (#[trigger] centroids@[a]@[j]) == u32_at(
                        d,
                        64 + (a * 14 + j) * 4,
                    ),
        {
            let c: [u32; 14] = read_centroid(data, 64 + i * 56);
            assert forall|j: int| 0 <= j < 14 implies (#[trigger] c@[j]) == u32_at(
                d,
                64 + (i * 14 + j) * 4,
            ) by {
                assert(64 + i * 56 + j * 4 == 64 + (i * 14 + j) * 4);
            }
            centroids.push(c);
        }
        let mut offset: usize = 64 + k * 56;
        let cluster_offsets: Vec<u32> = read_table(data, offset, k);
        offset = offset + k * 4;
        let cluster_sizes: Vec<u32> = read_table(data, offset, k);
        offset = offset + k * 4;
        let labels: Vec<u8> = vstd::slice::slice_to_vec(&data[offset..offset + n]);
        offset = offset + n;

        let count: usize = n * storage_dims;
        let mut vectors: Vec<u16> = Vec::new();
        let mut vectors_u8: Vec<u8> = Vec::new();
        for i in 0..count
            invariant
                d == data@,
                offset + count * 2 <= d.len() == data.len(),
                vectors@.len() == i,
                vectors_u8@.len() == i,
                forall|j: int|
                    0 <= j < i ==> (#[trigger] vectors@[j]) == u16_at(d, offset + j * 2),
                forall|j: int|
                    0 <= j < i ==> (#[trigger] vectors_u8@[j]) == half_byte(vectors@[j]),
        {
            let bits: u16 = read_u16(data, offset + i * 2);
            vectors.push(bits);
            vectors_u8.push(quantize_half(bits));
        }
        Ok(
            IvfIndex {
                k,
                n,
                nprobe_default,
                centroids,
                cluster_offsets,
                cluster_sizes,
                labels,
                vectors,
                vectors_u8,
            },
        )
    }
}

} // verus!
