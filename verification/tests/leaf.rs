use banyan::error::Error;
use banyan::zarray::{Leaf, ZstdArrayBuilder};

#[test]
fn single_leaf_holds_one_value() {
    let leaf = Leaf::single(7, 10).unwrap();
    assert_eq!(leaf.child_at(0).unwrap(), 7);
    assert_eq!(leaf.child_at(1).unwrap_err(), Error::IndexOutOfBounds);
}

#[test]
fn builder_push_then_read_back() {
    let mut b = ZstdArrayBuilder::new(10);
    for v in 0u64..100 {
        b.push(v * 3);
    }
    let leaf = Leaf::from_builder(&b).unwrap();
    let items = leaf.as_ref().items().unwrap();
    assert_eq!(items.len(), 100);
    for (i, v) in items.iter().enumerate() {
        assert_eq!(*v, (i as u64) * 3);
    }
    assert_eq!(leaf.as_ref().get(99).unwrap(), Some(297));
    assert_eq!(leaf.as_ref().get(100).unwrap(), None);
}

#[test]
fn reopening_a_leaf_keeps_its_values() {
    let leaf = Leaf::single(42, 3).unwrap();
    let mut b = leaf.builder(3).unwrap();
    b.push(43);
    let bigger = Leaf::from_builder(&b).unwrap();
    assert_eq!(bigger.child_at(0).unwrap(), 42);
    assert_eq!(bigger.child_at(1).unwrap(), 43);
}

#[test]
fn fill_takes_values_until_target() {
    let leaf = Leaf::single(0, 10).unwrap();
    let values: Vec<u64> = (1..1000).collect();
    // a huge target takes everything
    let (full, n) = leaf.fill(&values, 0, u64::MAX, 10).unwrap();
    assert_eq!(n, 999);
    assert_eq!(full.as_ref().items().unwrap().len(), 1000);
    // a tiny target takes nothing
    let (small, m) = leaf.fill(&values, 0, 1, 10).unwrap();
    assert_eq!(m, 0);
    assert_eq!(small.as_ref().items().unwrap().len(), 1);
}

#[test]
fn corrupt_leaf_bytes_error_on_read() {
    let leaf = Leaf::new(vec![1, 2, 3, 4]);
    assert!(leaf.child_at(0).is_err());
}

#[test]
fn compressed_size_grows_with_content() {
    let mut b = ZstdArrayBuilder::new(0);
    let empty = b.compressed_size();
    for v in 0u64..512 {
        b.push(v.wrapping_mul(0x9e3779b97f4a7c15));
    }
    let full = b.compressed_size();
    assert!(full > empty);
}
