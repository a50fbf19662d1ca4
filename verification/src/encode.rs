//! Writing an index file, and what loading it gives back.

use crate::index::{
    header_k, header_n, header_storage_dims, index_end, is_complete, labels_at, load_error,
    offsets_at, sizes_at, u16_at, u32_at, vectors_at, IvfIndex, DIMS, STORAGE_DIMS, VERSION,
};
use vstd::prelude::*;
use vstd::string::*;

verus! {

/// A 32-bit number, low byte first.
pub open spec fn le4(x: int) -> Seq<u8> {
    seq![
        (x % 0x100) as u8,
        (x / 0x100 % 0x100) as u8,
        (x / 0x1_0000 % 0x100) as u8,
        (x / 0x100_0000 % 0x100) as u8,
    ]
}

/// A 16-bit number, low byte first.
pub open spec fn le2(x: int) -> Seq<u8> {
    seq![(x % 0x100) as u8, (x / 0x100 % 0x100) as u8]
}

/// The bytes of a table of 32-bit numbers.
pub open spec fn words(s: Seq<u32>) -> Seq<u8> {
    Seq::new(4 * s.len(), |b: int| le4(s[b / 4] as int)[b % 4])
}

/// The bytes of a table of 16-bit numbers.
pub open spec fn halves(s: Seq<u16>) -> Seq<u8> {
    Seq::new(2 * s.len(), |b: int| le2(s[b / 2] as int)[b % 2])
}

/// The components of the centroids, one after the other.
pub open spec fn flat(centroids: Seq<[u32; 14]>) -> Seq<u32> {
    Seq::new(14 * centroids.len(), |i: int| centroids[i / 14]@[i % 14])
}

/// The components of the vectors, one after the other, each vector followed by two
/// zeros.
pub open spec fn padded(vectors: Seq<[u16; 14]>) -> Seq<u16> {
    Seq::new(
        16 * vectors.len(),
        |i: int|
            if i % 16 < 14 {
                vectors[i / 16]@[i % 16]
            } else {
                0
            },
    )
}

/// The header of an index file.
pub open spec fn header(k: u32, n: u32, nprobe: u32) -> Seq<u8> {
    "IVFFLAT1".spec_bytes() + le4(VERSION as int) + le4(k as int) + le4(n as int) + le4(
        DIMS as int,
    ) + le4(STORAGE_DIMS as int) + le4(nprobe as int) + Seq::new(32, |i: int| 0u8)
}

/// An index file.
pub open spec fn index_bytes(
    k: u32,
    n: u32,
    nprobe: u32,
    centroids: Seq<[u32; 14]>,
    vectors: Seq<[u16; 14]>,
    labels: Seq<u8>,
    offsets: Seq<u32>,
    sizes: Seq<u32>,
) -> Seq<u8> {
    header(k, n, nprobe) + words(flat(centroids)) + words(offsets) + words(sizes) + labels + halves(
        padded(vectors),
    )
}

/// One more number adds its bytes.
proof fn lemma_words_push(s: Seq<u32>, x: u32)
    ensures
        words(s.push(x)) == words(s) + le4(x as int),
{
    assert(words(s.push(x)) =~= words(s) + le4(x as int));
}

/// One more number adds its bytes.
proof fn lemma_halves_push(s: Seq<u16>, x: u16)
    ensures
        halves(s.push(x)) == halves(s) + le2(x as int),
{
    assert(halves(s.push(x)) =~= halves(s) + le2(x as int));
}

/// Appends a 32-bit number.
fn push_u32(out: &mut Vec<u8>, x: u32)
    ensures
        final(out)@ == old(out)@ + le4(x as int),
{
    out.push((x % 0x100) as u8);
    out.push((x / 0x100 % 0x100) as u8);
    out.push((x / 0x1_0000 % 0x100) as u8);
    out.push((x / 0x100_0000 % 0x100) as u8);
    assert(out@ =~= old(out)@ + le4(x as int));
}

/// Appends a 16-bit number.
fn push_u16(out: &mut Vec<u8>, x: u16)
    ensures
        final(out)@ == old(out)@ + le2(x as int),
{
    out.push((x % 0x100) as u8);
    out.push((x / 0x100 % 0x100) as u8);
    assert(out@ =~= old(out)@ + le2(x as int));
}

/// Appends a table of 32-bit numbers.
fn push_words(out: &mut Vec<u8>, s: &[u32])
    ensures
        final(out)@ == old(out)@ + words(s@),
{
    assert(out@ =~= old(out)@ + words(s@.take(0)));
    for i in 0..s.len()
        invariant
            out@ == old(out)@ + words(s@.take(i as int)),
    {
        push_u32(out, s[i]);
        proof {
            lemma_words_push(s@.take(i as int), s@[i as int]);
            assert(s@.take(i + 1) =~= s@.take(i as int).push(s@[i as int]));
            assert(out@ =~= old(out)@ + words(s@.take(i + 1)));
        }
    }
    assert(s@.take(s@.len() as int) =~= s@);
}

/// Appends the components of the centroids.
fn push_centroids(out: &mut Vec<u8>, centroids: &[[u32; 14]])
    ensures
        final(out)@ == old(out)@ + words(flat(centroids@)),
{
    assert(out@ =~= old(out)@ + words(flat(centroids@.take(0))));
    for i in 0..centroids.len()
        invariant
            out@ == old(out)@ + words(flat(centroids@.take(i as int))),
    {
        let c: [u32; 14] = centroids[i];
        push_words(out, c.as_slice());
        proof {
            let now = centroids@.take(i as int);
            let next = centroids@.take(i + 1);
            assert(flat(next) =~= flat(now) + c@);
            assert(words(flat(next)) =~= words(flat(now)) + words(c@));
            assert(out@ =~= old(out)@ + words(flat(next)));
        }
    }
    assert(centroids@.take(centroids@.len() as int) =~= centroids@);
}

/// Appends the components of the vectors with their padding.
fn push_vectors(out: &mut Vec<u8>, vectors: &[[u16; 14]])
    ensures
        final(out)@ == old(out)@ + halves(padded(vectors@)),
{
    assert(out@ =~= old(out)@ + halves(padded(vectors@.take(0))));
    for i in 0..vectors.len()
        invariant
            out@ == old(out)@ + halves(padded(vectors@.take(i as int))),
    {
        let v: [u16; 14] = vectors[i];
        let ghost start = out@;
        let ghost mut row: Seq<u16> = Seq::empty();
        assert(out@ =~= start + halves(row));
        for j in 0..STORAGE_DIMS
            invariant
                out@ == start + halves(row),
                row.len() == j,
                forall|a: int|
                    0 <= a < j ==> #[trigger] row[a] == if a < 14 {
                        v@[a]
                    } else {
                        0
                    },
        {
            let x: u16 = if j < DIMS {
                v[j]
            } else {
                0
            };
            push_u16(out, x);
            proof {
                lemma_halves_push(row, x);
                assert(out@ =~= start + halves(row.push(x)));
                row = row.push(x);
            }
        }
        proof {
            let now = vectors@.take(i as int);
            let next = vectors@.take(i + 1);
            assert(padded(next) =~= padded(now) + row);
            assert(halves(padded(next)) =~= halves(padded(now)) + halves(row));
            assert(out@ =~= old(out)@ + halves(padded(next)));
        }
    }
    assert(vectors@.take(vectors@.len() as int) =~= vectors@);
}

/// Writes an index file. The counts are written in 32 bits.
pub fn write_index(
    k: usize,
    n: usize,
    nprobe_default: usize,
    centroids: &[[u32; 14]],
    sorted_vectors: &[[u16; 14]],
    sorted_labels: &[u8],
    cluster_offsets: &[u32],
    cluster_sizes: &[u32],
) -> (r: Vec<u8>)
    ensures
        r@ == index_bytes(
            k as u32,
            n as u32,
            nprobe_default as u32,
            centroids@,
            sorted_vectors@,
            sorted_labels@,
            cluster_offsets@,
            cluster_sizes@,
        ),
{
    let mut out: Vec<u8> = vstd::slice::slice_to_vec("IVFFLAT1".as_bytes());
    push_u32(&mut out, VERSION);
    push_u32(&mut out, k as u32);
    push_u32(&mut out, n as u32);
    push_u32(&mut out, DIMS as u32);
    push_u32(&mut out, STORAGE_DIMS as u32);
    push_u32(&mut out, nprobe_default as u32);
    let ghost start = out@;
    assert(out@ =~= start + Seq::new(0, |i: int| 0u8));
    for i in 0..32usize
        invariant
            out@ == start + Seq::new(i as nat, |j: int| 0u8),
    {
        out.push(0);
        assert(out@ =~= start + Seq::new((i + 1) as nat, |j: int| 0u8));
    }
    push_centroids(&mut out, centroids);
    push_words(&mut out, cluster_offsets);
    push_words(&mut out, cluster_sizes);
    let ghost before = out@;
    for i in 0..sorted_labels.len()
        invariant
            out@ == before + sorted_labels@.take(i as int),
    {
        out.push(sorted_labels[i]);
        assert(out@ =~= before + sorted_labels@.take(i + 1));
    }
    assert(sorted_labels@.take(sorted_labels@.len() as int) =~= sorted_labels@);
    push_vectors(&mut out, sorted_vectors);
    out
}

/// The mark of the format is eight bytes long.
pub proof fn lemma_magic_len()
    ensures
        "IVFFLAT1".spec_bytes().len() == 8,
{
    reveal_strlit("IVFFLAT1");
    assert(is_ascii("IVFFLAT1"));
    is_ascii_spec_bytes("IVFFLAT1");
}

/// The bytes of a 32-bit number read back as the number.
proof fn lemma_le4(x: u32)
    ensures
        u32_at(le4(x as int), 0) == x,
{
}

/// The bytes of a 16-bit number read back as the number.
proof fn lemma_le2(x: u16)
    ensures
        u16_at(le2(x as int), 0) == x,
{
}

/// Entry `i` of a table reads back wherever the table stands in a file.
pub proof fn lemma_word_at(d: Seq<u8>, at: int, s: Seq<u32>, i: int)
    requires
        0 <= at,
        at + 4 * s.len() <= d.len(),
        d.subrange(at, at + 4 * s.len()) == words(s),
        0 <= i < s.len(),
    ensures
        u32_at(d, at + i * 4) == s[i],
{
    let w = words(s);
    assert forall|b: int| 0 <= b < 4 implies d[at + i * 4 + b] == #[trigger] le4(s[i] as int)[b] by {
        assert(d.subrange(at, at + 4 * s.len())[i * 4 + b] == w[i * 4 + b]);
        assert((i * 4 + b) / 4 == i && (i * 4 + b) % 4 == b);
    }
    lemma_le4(s[i]);
    let l = le4(s[i] as int);
    assert(d[at + i * 4] == l[0]) by {
        assert(d[at + i * 4 + 0] == l[0]);
    }
    assert(d[at + i * 4 + 1] == l[1]);
    assert(d[at + i * 4 + 2] == l[2]);
    assert(d[at + i * 4 + 3] == l[3]);
}

/// Entry `i` of a table of 16-bit numbers reads back wherever the table stands.
pub proof fn lemma_half_at(d: Seq<u8>, at: int, s: Seq<u16>, i: int)
    requires
        0 <= at,
        at + 2 * s.len() <= d.len(),
        d.subrange(at, at + 2 * s.len()) == halves(s),
        0 <= i < s.len(),
    ensures
        u16_at(d, at + i * 2) == s[i],
{
    let w = halves(s);
    assert forall|b: int| 0 <= b < 2 implies d[at + i * 2 + b] == #[trigger] le2(s[i] as int)[b] by {
        assert(d.subrange(at, at + 2 * s.len())[i * 2 + b] == w[i * 2 + b]);
        assert((i * 2 + b) / 2 == i && (i * 2 + b) % 2 == b);
    }
    lemma_le2(s[i]);
    let l = le2(s[i] as int);
    assert(d[at + i * 2] == l[0]) by {
        assert(d[at + i * 2 + 0] == l[0]);
    }
    assert(d[at + i * 2 + 1] == l[1]);
}

/// A number stands where it was written.
pub proof fn lemma_number_at(d: Seq<u8>, at: int, x: u32)
    requires
        0 <= at,
        at + 4 <= d.len(),
        d.subrange(at, at + 4) == le4(x as int),
    ensures
        u32_at(d, at) == x,
{
    let l = le4(x as int);
    let s = d.subrange(at, at + 4);
    assert(d[at] == s[0] && d[at + 1] == s[1] && d[at + 2] == s[2] && d[at + 3] == s[3]);
    lemma_le4(x);
}

/// The header of a file that starts with it.
pub proof fn lemma_header(d: Seq<u8>, k: u32, n: u32, nprobe: u32)
    requires
        d.len() >= 64,
        d.subrange(0, 64) == header(k, n, nprobe),
    ensures
        header(k, n, nprobe).len() == 64,
        load_error(d) is None,
        header_k(d) == k,
        header_n(d) == n,
        header_storage_dims(d) == 16,
        u32_at(d, 28) == nprobe,
{
    lemma_magic_len();
    let h = header(k, n, nprobe);
    let magic = "IVFFLAT1".spec_bytes();
    let s = d.subrange(0, 64);
    assert(h.len() == 64);
    assert(d.subrange(0, 8) =~= s.subrange(0, 8));
    assert(h.subrange(0, 8) =~= magic);
    assert(d.subrange(8, 12) =~= s.subrange(8, 12));
    assert(h.subrange(8, 12) =~= le4(VERSION as int));
    assert(d.subrange(12, 16) =~= s.subrange(12, 16));
    assert(h.subrange(12, 16) =~= le4(k as int));
    assert(d.subrange(16, 20) =~= s.subrange(16, 20));
    assert(h.subrange(16, 20) =~= le4(n as int));
    assert(d.subrange(24, 28) =~= s.subrange(24, 28));
    assert(h.subrange(24, 28) =~= le4(STORAGE_DIMS as int));
    assert(d.subrange(28, 32) =~= s.subrange(28, 32));
    assert(h.subrange(28, 32) =~= le4(nprobe as int));
    lemma_number_at(d, 8, VERSION);
    lemma_number_at(d, 12, k);
    lemma_number_at(d, 16, n);
    lemma_number_at(d, 24, 16);
    lemma_number_at(d, 28, nprobe);
}

/// A file that was written is one that loads: its header is good, it is complete,
/// and the index that it decodes to holds what was written, with the vectors padded.
pub proof fn law_load_written(
    nprobe: u32,
    centroids: Seq<[u32; 14]>,
    vectors: Seq<[u16; 14]>,
    labels: Seq<u8>,
    offsets: Seq<u32>,
    sizes: Seq<u32>,
    index: IvfIndex,
)
    requires
        centroids.len() <= u32::MAX,
        vectors.len() <= u32::MAX,
        offsets.len() == centroids.len(),
        sizes.len() == centroids.len(),
        labels.len() == vectors.len(),
    ensures
        ({
            let k = centroids.len() as u32;
            let n = vectors.len() as u32;
            let d = index_bytes(k, n, nprobe, centroids, vectors, labels, offsets, sizes);
            &&& load_error(d) is None
            &&& is_complete(d)
            &&& index_end(d) == d.len()
            &&& index.decodes(d) ==> {
                &&& index.k == centroids.len()
                &&& index.n == vectors.len()
                &&& index.nprobe_default == nprobe
                &&& index.centroids@ == centroids
                &&& index.cluster_offsets@ == offsets
                &&& index.cluster_sizes@ == sizes
                &&& index.labels@ == labels
                &&& index.vectors@ == padded(vectors)
                &&& index.quantizes()
            }
        }),
{
    let k = centroids.len() as u32;
    let n = vectors.len() as u32;
    let d = index_bytes(k, n, nprobe, centroids, vectors, labels, offsets, sizes);
    let h = header(k, n, nprobe);
    lemma_magic_len();
    assert(h.len() == 64);
    let w = words(flat(centroids));
    let o = words(offsets);
    let z = words(sizes);
    let v = halves(padded(vectors));
    assert(d == h + w + o + z + labels + v);
    assert(d.subrange(0, 64) =~= h);
    lemma_header(d, k, n, nprobe);
    assert(d.subrange(64, 64int + w.len()) =~= w);
    assert(offsets_at(d) == 64 + w.len());
    assert(d.subrange(offsets_at(d), offsets_at(d) + o.len()) =~= o);
    assert(sizes_at(d) == offsets_at(d) + o.len());
    assert(d.subrange(sizes_at(d), sizes_at(d) + z.len()) =~= z);
    assert(labels_at(d) == sizes_at(d) + z.len());
    assert(d.subrange(labels_at(d), labels_at(d) + n) =~= labels);
    assert(vectors_at(d) == labels_at(d) + n);
    assert(d.subrange(vectors_at(d), vectors_at(d) + v.len()) =~= v);
    assert(n * 16 == padded(vectors).len());
    if index.decodes(d) {
        assert forall|i: int| 0 <= i < k implies index.centroids@[i] == #[trigger] centroids[i] by {
            assert forall|j: int| 0 <= j < 14 implies index.centroids@[i]@[j] == centroids[i]@[j] by {
                lemma_word_at(d, 64, flat(centroids), i * 14 + j);
                assert((i * 14 + j) / 14 == i && (i * 14 + j) % 14 == j);
            }
            assert(index.centroids@[i] =~= centroids[i]);
        }
        assert(index.centroids@ =~= centroids);
        assert forall|i: int| 0 <= i < k implies index.cluster_offsets@[i] == offsets[i] by {
            lemma_word_at(d, offsets_at(d), offsets, i);
        }
        assert(index.cluster_offsets@ =~= offsets);
        assert forall|i: int| 0 <= i < k implies index.cluster_sizes@[i] == sizes[i] by {
            lemma_word_at(d, sizes_at(d), sizes, i);
        }
        assert(index.cluster_sizes@ =~= sizes);
        assert forall|i: int| 0 <= i < n * 16 implies index.vectors@[i] == padded(vectors)[i] by {
            lemma_half_at(d, vectors_at(d), padded(vectors), i);
        }
        assert(index.vectors@ =~= padded(vectors));
    }
}

} // verus!
