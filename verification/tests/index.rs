use fraud_knn::encode::write_index;
use fraud_knn::index::{check_header, complete, IvfIndex, LoadError};
use fraud_knn::quantize::quantize_half;

fn small() -> Vec<u8> {
    let centroids = [[1u32; 14], [2u32; 14]];
    let mut last = [0x3c00u16; 14];
    last[13] = 0xbc00;
    let vectors = [[0u16; 14], [0x3800u16; 14], last];
    write_index(2, 3, 16, &centroids, &vectors, &[0, 1, 1], &[0, 2], &[2, 1])
}

#[test]
fn an_index_file_has_a_fixed_layout() {
    let bytes = small();
    assert_eq!(bytes.len(), 64 + 2 * 14 * 4 + 2 * 4 + 2 * 4 + 3 + 3 * 16 * 2);
    assert_eq!(&bytes[..8], b"IVFFLAT1");
    let field = |i: usize| u32::from_le_bytes(bytes[i..i + 4].try_into().unwrap());
    assert_eq!([field(8), field(12), field(16)], [1, 2, 3]);
    assert_eq!([field(20), field(24), field(28)], [14, 16, 16]);
    assert!(bytes[32..64].iter().all(|&b| b == 0));
    assert_eq!(field(64), 1);
    assert_eq!(field(64 + 14 * 4), 2);
    assert_eq!([field(176), field(180)], [0, 2]);
    assert_eq!([field(184), field(188)], [2, 1]);
    assert_eq!(bytes[192..195], [0, 1, 1]);
    // the last vector: ones, minus one, two zeros
    assert_eq!(bytes[bytes.len() - 8..], [0x00, 0x3c, 0x00, 0xbc, 0, 0, 0, 0]);
}

#[test]
fn what_is_written_is_loaded_again() {
    let bytes = small();
    assert!(check_header(&bytes).is_ok());
    assert!(complete(&bytes));
    let index = IvfIndex::load(&bytes).unwrap();
    assert_eq!((index.k, index.n, index.nprobe_default), (2, 3, 16));
    assert_eq!(index.centroids, vec![[1u32; 14], [2u32; 14]]);
    assert_eq!(index.cluster_offsets, vec![0, 2]);
    assert_eq!(index.cluster_sizes, vec![2, 1]);
    assert_eq!(index.labels, vec![0, 1, 1]);
    assert_eq!(index.vectors.len(), 48);
    assert_eq!(index.vectors[16..30], [0x3800; 14]);
    assert_eq!(index.vectors[30..32], [0, 0]);
    assert_eq!(index.vectors[45], 0xbc00);
    for (bits, byte) in index.vectors.iter().zip(&index.vectors_u8) {
        assert_eq!(quantize_half(*bits), *byte);
    }
    assert_eq!(index.vectors_u8[16], 191);
    assert_eq!(index.vectors_u8[45], 0);
}

#[test]
fn an_empty_index_can_be_written_and_loaded() {
    let bytes = write_index(0, 0, 4, &[], &[], &[], &[], &[]);
    assert_eq!(bytes.len(), 64);
    let index = IvfIndex::load(&bytes).unwrap();
    assert_eq!((index.k, index.n, index.nprobe_default), (0, 0, 4));
    assert!(index.is_searchable());
}

#[test]
fn files_that_are_no_index_are_refused() {
    assert!(matches!(IvfIndex::load(&[]), Err(LoadError::TooSmall)));
    assert!(matches!(IvfIndex::load(&[0; 63]), Err(LoadError::TooSmall)));
    assert!(matches!(IvfIndex::load(&[0; 64]), Err(LoadError::BadMagic)));
    let mut bytes = small();
    bytes[7] = b'2';
    assert!(matches!(IvfIndex::load(&bytes), Err(LoadError::BadMagic)));
    let mut bytes = small();
    bytes[8] = 2;
    assert!(matches!(IvfIndex::load(&bytes), Err(LoadError::UnsupportedVersion(2))));
    bytes[11] = 1;
    assert!(matches!(
        IvfIndex::load(&bytes),
        Err(LoadError::UnsupportedVersion(0x0100_0002))
    ));
}

#[test]
fn a_file_that_is_cut_off_is_incomplete() {
    let bytes = small();
    for len in [64, 100, 176, 190, bytes.len() - 1] {
        assert!(check_header(&bytes[..len]).is_ok());
        assert!(!complete(&bytes[..len]), "{len} bytes");
    }
    let mut longer = bytes.clone();
    longer.push(0);
    assert!(complete(&longer));
    assert_eq!(IvfIndex::load(&longer).unwrap().labels, vec![0, 1, 1]);
}
