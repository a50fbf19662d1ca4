//! What the bytes of an index file, the references and a request say, byte by byte and
//! field by field.

use crate::encode::{
    flat, halves, header, index_bytes, le4, lemma_half_at, lemma_header, lemma_magic_len,
    lemma_number_at, lemma_word_at, padded, words,
};
use crate::index::{is_complete, load_error, IvfIndex, LoadError};
use crate::models::FraudRequest;
use crate::quantize::half_byte;
use crate::references::{all_dims, frauds_to, label_of, ReferenceEntry};
use crate::vectorize::{feature_views, Feature, FeatureView};
use vstd::prelude::*;
use vstd::string::*;

verus! {

/// The four bytes from `p` on as a number, the lowest first.
pub open spec fn word(d: Seq<u8>, p: int) -> int {
    d[p] + 256 * d[p + 1] + 65536 * d[p + 2] + 16777216 * d[p + 3]
}

/// The two bytes from `p` on as a number, the lower first.
pub open spec fn half_word(d: Seq<u8>, p: int) -> int {
    d[p] + 256 * d[p + 1]
}

/// The mark at the start of an index file: the letters IVFFLAT and the digit 1.
pub open spec fn mark() -> Seq<u8> {
    seq![73u8, 86, 70, 70, 76, 65, 84, 49]
}

/// The mark in letters.
proof fn lemma_mark()
    ensures
        "IVFFLAT1".spec_bytes() == mark(),
{
    reveal_strlit("IVFFLAT1");
    is_ascii_spec_bytes("IVFFLAT1");
    assert("IVFFLAT1".spec_bytes() =~= mark());
}

/// What is wrong with a file: it has fewer than 64 bytes, does not start with the mark,
/// or is of another version than the first; in this order.
pub proof fn law_load_error(d: Seq<u8>)
    ensures
        d.len() < 64 ==> load_error(d) == Some(LoadError::TooSmall),
        d.len() >= 64 && d.subrange(0, 8) != mark() ==> load_error(d) == Some(LoadError::BadMagic),
        d.len() >= 64 && d.subrange(0, 8) == mark() && word(d, 8) != 1 ==> load_error(d) == Some(
            LoadError::UnsupportedVersion(word(d, 8) as u32),
        ),
        d.len() >= 64 && d.subrange(0, 8) == mark() && word(d, 8) == 1 ==> load_error(d) is None,
{
    lemma_mark();
}

/// A file is complete where it has room for everything that its header announces.
pub proof fn law_complete(d: Seq<u8>)
    ensures
        is_complete(d) <==> 64 + 64 * word(d, 12) + word(d, 16) + 2 * (word(d, 16) * word(d, 24))
            <= d.len(),
{
    assert(word(d, 16) * word(d, 24) * 2 == 2 * (word(d, 16) * word(d, 24)));
}

/// An index holds what stands in its file: the numbers of the header, then the
/// centroids, the offsets, the sizes, the labels and the vectors, one after the other.
pub proof fn law_decoded(index: &IvfIndex, d: Seq<u8>)
    requires
        index.decodes(d),
        is_complete(d),
    ensures
        index.k == word(d, 12),
        index.n == word(d, 16),
        index.nprobe_default == word(d, 28),
        index.centroids@.len() == index.k,
        forall|c: int, j: int|
            0 <= c < index.k && 0 <= j < 14 ==> (#[trigger] index.centroids@[c]@[j]) == word(
                d,
                64 + 56 * c + 4 * j,
            ),
        index.cluster_offsets@.len() == index.k,
        forall|c: int|
            0 <= c < index.k ==> (#[trigger] index.cluster_offsets@[c]) == word(
                d,
                64 + 56 * index.k + 4 * c,
            ),
        index.cluster_sizes@.len() == index.k,
        forall|c: int|
            0 <= c < index.k ==> (#[trigger] index.cluster_sizes@[c]) == word(
                d,
                64 + 60 * index.k + 4 * c,
            ),
        index.labels@.len() == index.n,
        forall|g: int|
            0 <= g < index.n ==> (#[trigger] index.labels@[g]) == d[64 + 64 * index.k + g],
        index.vectors@.len() == word(d, 16) * word(d, 24),
        forall|i: int|
            0 <= i < index.vectors@.len() ==> (#[trigger] index.vectors@[i]) == half_word(
                d,
                64 + 64 * index.k + index.n + 2 * i,
            ),
        index.vectors_u8@.len() == index.vectors@.len(),
        forall|i: int|
            0 <= i < index.vectors@.len() ==> (#[trigger] index.vectors_u8@[i]) == half_byte(
                index.vectors@[i],
            ),
{
    assert forall|c: int, j: int| 0 <= c < index.k && 0 <= j < 14 implies (
    #[trigger] index.centroids@[c]@[j]) == word(d, 64 + 56 * c + 4 * j) by {
        assert(64 + (c * 14 + j) * 4 == 64 + 56 * c + 4 * j);
    }
    assert forall|g: int| 0 <= g < index.n implies (#[trigger] index.labels@[g]) == d[64 + 64
        * index.k + g] by {}
    assert(word(d, 16) * word(d, 24) >= 0) by (nonlinear_arith)
        requires
            word(d, 16) >= 0,
            word(d, 24) >= 0,
    ;
}

/// A written file starts with the mark and the header: version 1, the numbers of clusters
/// and vectors, 14 components, 16 with padding, the number of clusters to probe, and zeros.
pub proof fn law_header_bytes(
    k: u32,
    n: u32,
    nprobe: u32,
    centroids: Seq<[u32; 14]>,
    vectors: Seq<[u16; 14]>,
    labels: Seq<u8>,
    offsets: Seq<u32>,
    sizes: Seq<u32>,
)
    ensures
        ({
            let d = index_bytes(k, n, nprobe, centroids, vectors, labels, offsets, sizes);
            &&& d.len() >= 64
            &&& d.subrange(0, 8) == mark()
            &&& word(d, 8) == 1
            &&& word(d, 12) == k
            &&& word(d, 16) == n
            &&& word(d, 20) == 14
            &&& word(d, 24) == 16
            &&& word(d, 28) == nprobe
            &&& forall|i: int| 32 <= i < 64 ==> #[trigger] d[i] == 0
        }),
{
    let d = index_bytes(k, n, nprobe, centroids, vectors, labels, offsets, sizes);
    let h = header(k, n, nprobe);
    lemma_mark();
    lemma_magic_len();
    assert(h.len() == 64);
    assert(d.subrange(0, 64) =~= h);
    lemma_header(d, k, n, nprobe);
    law_load_error(d);
    assert(d.subrange(20, 24) =~= d.subrange(0, 64).subrange(20, 24));
    assert(h.subrange(20, 24) =~= le4(14));
    lemma_number_at(d, 20, 14);
    assert forall|i: int| 32 <= i < 64 implies #[trigger] d[i] == 0 by {
        assert(d.subrange(0, 64)[i] == h[i]);
    }
}

/// The file that is written of the tables.
#[verifier::opaque]
pub open spec fn written(
    nprobe: u32,
    centroids: Seq<[u32; 14]>,
    vectors: Seq<[u16; 14]>,
    labels: Seq<u8>,
    offsets: Seq<u32>,
    sizes: Seq<u32>,
) -> Seq<u8> {
    index_bytes(
        centroids.len() as u32,
        vectors.len() as u32,
        nprobe,
        centroids,
        vectors,
        labels,
        offsets,
        sizes,
    )
}

/// Where the tables of a written file stand.
proof fn lemma_tables(
    nprobe: u32,
    centroids: Seq<[u32; 14]>,
    vectors: Seq<[u16; 14]>,
    labels: Seq<u8>,
    offsets: Seq<u32>,
    sizes: Seq<u32>,
)
    requires
        centroids.len() <= u32::MAX,
        vectors.len() <= u32::MAX,
        offsets.len() == centroids.len(),
        sizes.len() == centroids.len(),
        labels.len() == vectors.len(),
    ensures
        ({
            let d = written(nprobe, centroids, vectors, labels, offsets, sizes);
            let a = 64 + 56 * centroids.len();
            let b = a + 4 * centroids.len();
            let c = b + 4 * centroids.len();
            let e = c + vectors.len();
            &&& d.len() == e + 32 * vectors.len()
            &&& d.subrange(64, a as int) == words(flat(centroids))
            &&& d.subrange(a as int, b as int) == words(offsets)
            &&& d.subrange(b as int, c as int) == words(sizes)
            &&& d.subrange(c as int, e as int) == labels
            &&& d.subrange(e as int, d.len() as int) == halves(padded(vectors))
        }),
{
    reveal(written);
    let k = centroids.len() as int;
    let n = vectors.len() as int;
    let d = written(nprobe, centroids, vectors, labels, offsets, sizes);
    let h = header(k as u32, n as u32, nprobe);
    lemma_magic_len();
    assert(h.len() == 64);
    let w = words(flat(centroids));
    let o = words(offsets);
    let z = words(sizes);
    let v = halves(padded(vectors));
    assert(d == h + w + o + z + labels + v);
    let a = 64 + 56 * k;
    let b = a + 4 * k;
    let c = b + 4 * k;
    let e = c + n;
    assert(d.subrange(64, a) =~= w);
    assert(d.subrange(a, b) =~= o);
    assert(d.subrange(b, c) =~= z);
    assert(d.subrange(c, e) =~= labels);
    assert(d.subrange(e, e + 32 * n) =~= v);
}

/// A written file has a byte for each label, 64 for each cluster and 32 for each vector
/// behind its header of 64; the centroids come first, four bytes a component.
pub proof fn law_centroid_bytes(
    nprobe: u32,
    centroids: Seq<[u32; 14]>,
    vectors: Seq<[u16; 14]>,
    labels: Seq<u8>,
    offsets: Seq<u32>,
    sizes: Seq<u32>,
    c: int,
    j: int,
)
    requires
        centroids.len() <= u32::MAX,
        vectors.len() <= u32::MAX,
        offsets.len() == centroids.len(),
        sizes.len() == centroids.len(),
        labels.len() == vectors.len(),
        0 <= c < centroids.len(),
        0 <= j < 14,
    ensures
        ({
            let d = written(nprobe, centroids, vectors, labels, offsets, sizes);
            &&& d.len() == 64 + 64 * centroids.len() + 33 * vectors.len()
            &&& word(d, 64 + 56 * c + 4 * j) == centroids[c]@[j]
        }),
{
    let d = written(nprobe, centroids, vectors, labels, offsets, sizes);
    lemma_tables(nprobe, centroids, vectors, labels, offsets, sizes);
    lemma_word_at(d, 64, flat(centroids), c * 14 + j);
    assert((c * 14 + j) / 14 == c && (c * 14 + j) % 14 == j);
    assert(64 + (c * 14 + j) * 4 == 64 + 56 * c + 4 * j);
}

/// Behind the centroids stand the offsets of all clusters, and behind those the sizes.
pub proof fn law_cluster_bytes(
    nprobe: u32,
    centroids: Seq<[u32; 14]>,
    vectors: Seq<[u16; 14]>,
    labels: Seq<u8>,
    offsets: Seq<u32>,
    sizes: Seq<u32>,
    c: int,
)
    requires
        centroids.len() <= u32::MAX,
        vectors.len() <= u32::MAX,
        offsets.len() == centroids.len(),
        sizes.len() == centroids.len(),
        labels.len() == vectors.len(),
        0 <= c < centroids.len(),
    ensures
        ({
            let d = written(nprobe, centroids, vectors, labels, offsets, sizes);
            &&& word(d, 64 + 56 * centroids.len() + 4 * c) == offsets[c]
            &&& word(d, 64 + 60 * centroids.len() + 4 * c) == sizes[c]
        }),
{
    let d = written(nprobe, centroids, vectors, labels, offsets, sizes);
    lemma_tables(nprobe, centroids, vectors, labels, offsets, sizes);
    lemma_word_at(d, 64 + 56 * centroids.len() as int, offsets, c);
    lemma_word_at(d, 64 + 60 * centroids.len() as int, sizes, c);
}

/// Behind the clusters stand the labels, and behind those the vectors, two bytes a
/// component, each filled up with two zeros.
pub proof fn law_vector_bytes(
    nprobe: u32,
    centroids: Seq<[u32; 14]>,
    vectors: Seq<[u16; 14]>,
    labels: Seq<u8>,
    offsets: Seq<u32>,
    sizes: Seq<u32>,
    g: int,
    j: int,
)
    requires
        centroids.len() <= u32::MAX,
        vectors.len() <= u32::MAX,
        offsets.len() == centroids.len(),
        sizes.len() == centroids.len(),
        labels.len() == vectors.len(),
        0 <= g < vectors.len(),
        0 <= j < 14,
    ensures
        ({
            let d = written(nprobe, centroids, vectors, labels, offsets, sizes);
            let at = 64 + 64 * centroids.len() + vectors.len() + 32 * g;
            &&& d[64 + 64 * centroids.len() + g] == labels[g]
            &&& half_word(d, at + 2 * j) == vectors[g]@[j]
            &&& half_word(d, at + 28) == 0
            &&& half_word(d, at + 30) == 0
        }),
{
    let d = written(nprobe, centroids, vectors, labels, offsets, sizes);
    let c = 64 + 64 * centroids.len() as int;
    let e = c + vectors.len();
    lemma_tables(nprobe, centroids, vectors, labels, offsets, sizes);
    assert(d.subrange(c, e)[g] == labels[g]);
    lemma_component(d, e, vectors, g, j);
    lemma_component(d, e, vectors, g, 14);
    lemma_component(d, e, vectors, g, 15);
}

/// A component of a padded vector stands in its place.
proof fn lemma_component(d: Seq<u8>, e: int, vectors: Seq<[u16; 14]>, g: int, j: int)
    requires
        0 <= e,
        d.len() == e + 32 * vectors.len(),
        d.subrange(e, d.len() as int) == halves(padded(vectors)),
        0 <= g < vectors.len(),
        0 <= j < 16,
    ensures
        j < 14 ==> half_word(d, e + 32 * g + 2 * j) == vectors[g]@[j],
        j >= 14 ==> half_word(d, e + 32 * g + 2 * j) == 0,
{
    let all = padded(vectors);
    assert(all.len() == 16 * vectors.len());
    lemma_half_at(d, e, all, g * 16 + j);
    assert((g * 16 + j) / 16 == g && (g * 16 + j) % 16 == j);
    assert(e + (g * 16 + j) * 2 == e + 32 * g + 2 * j);
}

/// Only the word fraud is the label of a fraud, and the frauds are as many as carry it.
pub proof fn law_labels(entries: Seq<ReferenceEntry>, m: int)
    requires
        0 <= m <= entries.len(),
    ensures
        forall|e: ReferenceEntry|
            (#[trigger] label_of(e) == 1 <==> e.label@ == seq!['f', 'r', 'a', 'u', 'd']) && (
            label_of(e) == 0 || label_of(e) == 1),
        frauds_to(entries, m) == entries.take(m).filter(
            |e: ReferenceEntry| e.label@ == seq!['f', 'r', 'a', 'u', 'd'],
        ).len(),
        all_dims(entries) <==> forall|i: int|
            0 <= i < entries.len() ==> (#[trigger] entries[i]).vector@.len() == 14,
    decreases m,
{
    reveal(Seq::filter);
    reveal_strlit("fraud");
    assert("fraud"@ =~= seq!['f', 'r', 'a', 'u', 'd']);
    if m > 0 {
        law_labels(entries, m - 1);
        assert(entries.take(m).drop_last() =~= entries.take(m - 1));
        assert(entries.take(m).last() == entries[m - 1]);
    }
}

/// What a request says, field by field.
pub proof fn law_request_fields(r: FraudRequest<'_>)
    ensures
        r@.amount == r.transaction.amount@,
        r@.installments == r.transaction.installments,
        r@.requested_at == r.transaction.requested_at@,
        r@.customer_avg_amount == r.customer.avg_amount@,
        r@.tx_count_24h == r.customer.tx_count_24h,
        r@.known_merchants == r.customer.known_merchants@,
        r@.merchant_id == r.merchant.id@,
        r@.mcc == r.merchant.mcc@,
        r@.merchant_avg_amount == r.merchant.avg_amount@,
        r@.is_online == r.terminal.is_online,
        r@.card_present == r.terminal.card_present,
        r@.km_from_home == r.terminal.km_from_home@,
        r.last_transaction is None ==> r@.last_transaction is None,
        r.last_transaction is Some ==> r@.last_transaction is Some
            && r@.last_transaction.unwrap().timestamp == r.last_transaction.unwrap().timestamp@
            && r@.last_transaction.unwrap().km_from_current
            == r.last_transaction.unwrap().km_from_current@,
{
}

/// What a feature says, field by field.
pub proof fn law_feature_fields(f: Feature<'_>)
    ensures
        match f {
            Feature::Ratio { num, den } => f@ == (FeatureView::Ratio {
                num: num as int,
                den: den as int,
            }),
            Feature::Scaled { number, max } => f@ == (FeatureView::Scaled {
                number: number@,
                max: max as int,
            }),
            Feature::Relative { amount, average, factor } => f@ == (FeatureView::Relative {
                amount: amount@,
                average: average@,
                factor: factor as int,
            }),
            Feature::Absent => f@ is Absent,
        },
{
}

/// What features say, one by one.
pub proof fn law_feature_views(features: Seq<Feature<'_>>, i: int)
    requires
        0 <= i < features.len(),
    ensures
        feature_views(features).len() == features.len(),
        feature_views(features)[i] == features[i]@,
{
}

} // verus!
