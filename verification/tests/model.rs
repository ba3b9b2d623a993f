use std::collections::VecDeque;

use banyan::compactseq::{CompactSeq, SimpleCompactSeq};
use banyan::error::Error;
use banyan::index::{BranchIndex, Index, IndexRecord, LeafIndex};
use banyan::links::Link;
use banyan::semigroup::{Key, Semigroup};

fn k(l: u64, t: u64) -> Key {
    Key::single(l, t)
}

#[test]
fn key_single_has_point_range() {
    let key = Key::single(7, 7);
    assert_eq!(key.min_lamport, 7);
    assert_eq!(key.min_time, 7);
    assert_eq!(key.max_time, 7);
}

#[test]
fn key_combine_unions_ranges() {
    let mut a = Key { min_lamport: 5, min_time: 2, max_time: 9 };
    let b = Key { min_lamport: 3, min_time: 4, max_time: 11 };
    a.combine(&b);
    assert_eq!(a, Key { min_lamport: 3, min_time: 2, max_time: 11 });
}

#[test]
fn key_combine_is_associative_on_samples() {
    let xs = [k(1, 9), k(4, 2), k(2, 7)];
    let mut left = xs[0];
    left.combine(&xs[1]);
    left.combine(&xs[2]);
    let mut bc = xs[1];
    bc.combine(&xs[2]);
    let mut right = xs[0];
    right.combine(&bc);
    assert_eq!(left, right);
}

#[test]
fn compactseq_new_rejects_empty() {
    let items: Vec<Key> = Vec::new();
    let r = SimpleCompactSeq::new(&items);
    assert_eq!(r.unwrap_err(), Error::EmptyIterator);
}

#[test]
fn compactseq_basics() {
    let items = vec![k(1, 1), k(2, 2), k(3, 3)];
    let s = SimpleCompactSeq::new(&items).unwrap();
    assert_eq!(s.count(), 3);
    assert_eq!(s.len(), 3);
    assert_eq!(s.get(0), Some(k(1, 1)));
    assert_eq!(s.get(2), Some(k(3, 3)));
    assert_eq!(s.get(3), None);
    assert_eq!(s.to_vec(), items);
}

#[test]
fn compactseq_push_and_extend() {
    let mut s = SimpleCompactSeq::single(&k(5, 5));
    s.push(&k(9, 1));
    assert_eq!(s.count(), 2);
    // extend combines into the last element without growing the count
    s.extend(&k(1, 30));
    assert_eq!(s.count(), 2);
    assert_eq!(s.get(1), Some(Key { min_lamport: 1, min_time: 1, max_time: 30 }));
}

#[test]
fn compactseq_summarize_folds_all() {
    let items = vec![k(5, 3), k(2, 8), k(9, 1)];
    let s = SimpleCompactSeq::new(&items).unwrap();
    assert_eq!(s.summarize(), Key { min_lamport: 2, min_time: 1, max_time: 8 });
}

#[test]
fn compactseq_select_picks_set_bits() {
    let items = vec![k(1, 1), k(2, 2), k(3, 3), k(4, 4)];
    let s = SimpleCompactSeq::new(&items).unwrap();
    let bits = vec![true, false, false, true];
    let picked = s.select(&bits);
    assert_eq!(picked, vec![(0usize, k(1, 1)), (3usize, k(4, 4))]);
}

#[test]
fn index_getters_leaf() {
    let ix = Index::Leaf(LeafIndex {
        sealed: true,
        cid: None,
        keys: SimpleCompactSeq(vec![k(1, 1), k(2, 2)]),
        value_bytes: 77,
    });
    assert_eq!(ix.count(), 2);
    assert_eq!(ix.level(), 0);
    assert!(ix.sealed());
    assert_eq!(ix.value_bytes(), 77);
    assert_eq!(ix.key_bytes(), 0);
    assert_eq!(ix.cid(), &None);
    assert_eq!(ix.data().len(), 2);
}

#[test]
fn index_getters_branch() {
    let l = Link { w0: 1, w1: 2, w2: 3, w3: 4 };
    let ix = Index::Branch(BranchIndex {
        count: 12,
        level: 3,
        sealed: false,
        cid: Some(l),
        summaries: SimpleCompactSeq(vec![k(1, 1)]),
        value_bytes: 100,
        key_bytes: 40,
    });
    assert_eq!(ix.count(), 12);
    assert_eq!(ix.level(), 3);
    assert!(!ix.sealed());
    assert_eq!(ix.value_bytes(), 100);
    assert_eq!(ix.key_bytes(), 40);
    assert_eq!(ix.cid(), &Some(l));
}

#[test]
fn leaf_index_keys_and_select() {
    let li = LeafIndex {
        sealed: true,
        cid: None,
        keys: SimpleCompactSeq(vec![k(1, 1), k(2, 2), k(3, 3)]),
        value_bytes: 10,
    };
    assert_eq!(li.keys(), vec![k(1, 1), k(2, 2), k(3, 3)]);
    let bits = vec![false, true, true];
    assert_eq!(li.select_keys(&bits), vec![(1usize, k(2, 2)), (2usize, k(3, 3))]);
}

#[test]
fn branch_last_child_access() {
    let mk = |v: u64| {
        Index::Leaf(LeafIndex {
            sealed: false,
            cid: None,
            keys: SimpleCompactSeq(vec![k(v, v)]),
            value_bytes: v,
        })
    };
    let mut b = banyan::index::Branch::new(vec![mk(1), mk(2)]);
    assert_eq!(b.last_child().value_bytes(), 2);
    match b.last_child_mut() {
        Index::Leaf(x) => x.value_bytes = 9,
        _ => panic!("expected a leaf"),
    }
    assert_eq!(b.last_child().value_bytes(), 9);
}

#[test]
fn inconsistent_record_is_rejected() {
    let rec = IndexRecord {
        sealed: true,
        purged: false,
        data: SimpleCompactSeq(vec![k(1, 1)]),
        value_bytes: 5,
        count: Some(4),
        level: None,
        key_bytes: Some(9),
    };
    let mut cids: VecDeque<Link> = VecDeque::new();
    cids.push_back(Link { w0: 1, w1: 1, w2: 1, w3: 1 });
    let r = rec.to_index(&mut cids);
    assert_eq!(r.unwrap_err(), Error::InconsistentRecord);
    // the link was not consumed
    assert_eq!(cids.len(), 1);
}

#[test]
fn record_round_trip_reattaches_link() {
    let l = Link { w0: 8, w1: 7, w2: 6, w3: 5 };
    let ix = Index::Branch(BranchIndex {
        count: 3,
        level: 1,
        sealed: true,
        cid: Some(l),
        summaries: SimpleCompactSeq(vec![k(2, 2)]),
        value_bytes: 30,
        key_bytes: 12,
    });
    let rec = IndexRecord::from_index(&ix);
    assert!(!rec.purged);
    assert_eq!(rec.count, Some(3));
    let mut cids: VecDeque<Link> = VecDeque::new();
    cids.push_back(l);
    let back = rec.to_index(&mut cids).unwrap();
    match back {
        Index::Branch(b) => {
            assert_eq!(b.cid, Some(l));
            assert_eq!(b.count, 3);
            assert_eq!(b.level, 1);
            assert_eq!(b.key_bytes, 12);
        }
        _ => panic!("expected a branch"),
    }
    assert!(cids.is_empty());
}

#[test]
fn summary_of_concatenation_combines_summaries() {
    let a = vec![k(5, 3), k(2, 8)];
    let b = vec![k(9, 1), k(4, 20)];
    let sa = SimpleCompactSeq::new(&a).unwrap().summarize();
    let sb = SimpleCompactSeq::new(&b).unwrap().summarize();
    let mut ab = a.clone();
    ab.extend_from_slice(&b);
    let sab = SimpleCompactSeq::new(&ab).unwrap().summarize();
    let mut combined = sa;
    combined.combine(&sb);
    assert_eq!(sab, combined);
}
