use banyan::codec::{deserialize_compressed, serialize_compressed};
use banyan::compactseq::SimpleCompactSeq;
use banyan::error::Error;
use banyan::index::{BranchIndex, Index, LeafIndex};
use banyan::links::Link;
use banyan::semigroup::Key;

fn test_key() -> Vec<u8> {
    (0u8..32).collect()
}

fn test_nonce() -> Vec<u8> {
    (100u8..124).collect()
}

fn link(tag: u64) -> Link {
    Link { w0: tag, w1: tag.wrapping_mul(3), w2: !tag, w3: tag ^ 0xdead_beef }
}

fn leaf(sealed: bool, cid: Option<Link>, keys: Vec<Key>, value_bytes: u64) -> Index {
    Index::Leaf(LeafIndex { sealed, cid, keys: SimpleCompactSeq(keys), value_bytes })
}

fn branch(
    count: u64,
    level: u32,
    sealed: bool,
    cid: Option<Link>,
    summaries: Vec<Key>,
    value_bytes: u64,
    key_bytes: u64,
) -> Index {
    Index::Branch(BranchIndex {
        count,
        level,
        sealed,
        cid,
        summaries: SimpleCompactSeq(summaries),
        value_bytes,
        key_bytes,
    })
}

fn sample_indices() -> Vec<Index> {
    vec![
        branch(
            10,
            1,
            true,
            Some(link(1)),
            vec![Key { min_lamport: 0, min_time: 3, max_time: 9 }],
            100,
            40,
        ),
        // a purged branch: summaries survive, the block does not
        branch(
            7,
            2,
            true,
            None,
            vec![
                Key { min_lamport: 1, min_time: 1, max_time: 4 },
                Key { min_lamport: 2, min_time: 2, max_time: 8 },
            ],
            55,
            21,
        ),
        leaf(
            true,
            Some(link(2)),
            vec![
                Key { min_lamport: 5, min_time: 5, max_time: 5 },
                Key { min_lamport: 6, min_time: 6, max_time: 6 },
            ],
            64,
        ),
        leaf(false, Some(link(3)), vec![Key { min_lamport: 9, min_time: 9, max_time: 9 }], 17),
        leaf(true, None, vec![Key { min_lamport: 11, min_time: 2, max_time: 30 }], 23),
    ]
}

fn assert_index_eq(a: &Index, b: &Index) {
    match (a, b) {
        (Index::Leaf(x), Index::Leaf(y)) => {
            assert_eq!(x.sealed, y.sealed);
            assert_eq!(x.cid, y.cid);
            assert_eq!(x.keys.0, y.keys.0);
            assert_eq!(x.value_bytes, y.value_bytes);
        }
        (Index::Branch(x), Index::Branch(y)) => {
            assert_eq!(x.count, y.count);
            assert_eq!(x.level, y.level);
            assert_eq!(x.sealed, y.sealed);
            assert_eq!(x.cid, y.cid);
            assert_eq!(x.summaries.0, y.summaries.0);
            assert_eq!(x.value_bytes, y.value_bytes);
            assert_eq!(x.key_bytes, y.key_bytes);
        }
        _ => panic!("leaf and branch do not match"),
    }
}

#[test]
fn round_trip_heterogeneous() {
    let key = test_key();
    let nonce = test_nonce();
    let items = sample_indices();
    let mut bytes: Vec<u8> = Vec::new();
    serialize_compressed(&key, &nonce, &items, 10, &mut bytes).unwrap();
    let back = deserialize_compressed(&key, &bytes).unwrap();
    assert_eq!(back.len(), items.len());
    for (a, b) in items.iter().zip(back.iter()) {
        assert_index_eq(a, b);
    }
    // the purged branch keeps cid = None; live links come back in order
    match &back[1] {
        Index::Branch(b) => assert!(b.cid.is_none()),
        _ => panic!("expected a branch"),
    }
    assert_eq!(back[0].cid(), &Some(link(1)));
    assert_eq!(back[2].cid(), &Some(link(2)));
    assert_eq!(back[3].cid(), &Some(link(3)));
    assert_eq!(back[4].cid(), &None);
}

#[test]
fn round_trip_empty() {
    let key = test_key();
    let nonce = test_nonce();
    let items: Vec<Index> = Vec::new();
    let mut bytes: Vec<u8> = Vec::new();
    serialize_compressed(&key, &nonce, &items, 0, &mut bytes).unwrap();
    let back = deserialize_compressed(&key, &bytes).unwrap();
    assert!(back.is_empty());
}

#[test]
fn serialization_is_byte_stable() {
    let key = test_key();
    let nonce = test_nonce();
    let items = sample_indices();
    let mut first: Vec<u8> = Vec::new();
    serialize_compressed(&key, &nonce, &items, 10, &mut first).unwrap();
    let mut second: Vec<u8> = Vec::new();
    serialize_compressed(&key, &nonce, &items, 10, &mut second).unwrap();
    assert_eq!(first, second);
}

#[test]
fn serialize_appends_after_existing_bytes() {
    let key = test_key();
    let nonce = test_nonce();
    let items = sample_indices();
    let mut plain: Vec<u8> = Vec::new();
    serialize_compressed(&key, &nonce, &items, 10, &mut plain).unwrap();
    let mut prefixed: Vec<u8> = vec![1, 2, 3];
    serialize_compressed(&key, &nonce, &items, 10, &mut prefixed).unwrap();
    assert_eq!(&prefixed[..3], &[1, 2, 3]);
    assert_eq!(&prefixed[3..], &plain[..]);
}

#[test]
fn wrong_key_fails_to_decode() {
    let key = test_key();
    let nonce = test_nonce();
    let items = sample_indices();
    let mut bytes: Vec<u8> = Vec::new();
    serialize_compressed(&key, &nonce, &items, 10, &mut bytes).unwrap();
    let mut other_key = test_key();
    other_key[0] ^= 0xff;
    let r = deserialize_compressed(&other_key, &bytes);
    assert!(r.is_err());
}

#[test]
fn garbage_is_format_mismatch() {
    let key = test_key();
    let r = deserialize_compressed(&key, &[0u8, 1, 2, 3]);
    assert_eq!(r.unwrap_err(), Error::FormatMismatch);
}

#[test]
fn short_blob_is_nonce_missing() {
    // outer pair by hand: empty CID list and an empty byte string
    let mut bytes: Vec<u8> = vec![0x82, 0x9b];
    bytes.extend_from_slice(&[0u8; 8]);
    bytes.push(0x5b);
    bytes.extend_from_slice(&[0u8; 8]);
    let key = test_key();
    let r = deserialize_compressed(&key, &bytes);
    assert_eq!(r.unwrap_err(), Error::NonceMissing);
}

#[test]
fn corrupt_frame_is_decrypt_or_decompress() {
    // outer pair by hand: nonce present, but the frame is garbage
    let mut bytes: Vec<u8> = vec![0x82, 0x9b];
    bytes.extend_from_slice(&[0u8; 8]);
    bytes.push(0x5b);
    bytes.extend_from_slice(&28u64.to_be_bytes());
    bytes.extend_from_slice(&[7u8; 28]);
    let key = test_key();
    let r = deserialize_compressed(&key, &bytes);
    assert_eq!(r.unwrap_err(), Error::DecryptOrDecompress);
}
