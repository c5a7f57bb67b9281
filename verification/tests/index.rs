use drip::index::{low_word, successor, Index, IndexVec};
use drip::middle::lir::{BlockId, RegisterId};

#[test]
fn index_keeps_low_bits() {
    assert_eq!(low_word(7), 7);
    assert_eq!(low_word(0x1_0000_0003), 3);
    assert_eq!(successor(4), 5);
    assert_eq!(successor(u32::MAX), 0);
    let id: BlockId = Index::new(0x1_0000_0002);
    assert_eq!(id.index(), 2);
    assert_eq!(id.plus(3), BlockId(5));
    let mut id = RegisterId(1);
    id.increment_by(4);
    assert_eq!(id, RegisterId(5));
}

#[test]
fn vector_hands_out_indices_in_order() {
    let mut v: IndexVec<BlockId, &str> = IndexVec::new();
    assert!(v.is_empty());
    assert_eq!(v.next_index(), BlockId(0));
    assert_eq!(v.push("a"), BlockId(0));
    assert_eq!(v.push("b"), BlockId(1));
    assert_eq!(v.len(), 2);
    assert_eq!(v.indices(), vec![BlockId(0), BlockId(1)]);
    assert_eq!(v.get(BlockId(1)), Some(&"b"));
    assert_eq!(v.get(BlockId(2)), None);
    if let Some(slot) = v.get_mut(BlockId(0)) {
        *slot = "c";
    }
    assert!(v.get_mut(BlockId(9)).is_none());
    assert_eq!(v.enumerate(), vec![(BlockId(0), &"c"), (BlockId(1), &"b")]);
    assert_eq!(v.iter().count(), 2);
    assert_eq!(v.pop(), Some("b"));
    assert_eq!(v.into_entries(), vec![(BlockId(0), "c")]);
}

#[test]
fn vector_grows_to_hold_an_index() {
    let mut v: IndexVec<BlockId, u8> = IndexVec::with_capacity(4);
    *v.ensure_contains_elem(BlockId(2), || 7) = 9;
    assert_eq!(v.raw, vec![7, 7, 9]);
    *v.ensure_contains_elem(BlockId(0), || 1) = 8;
    assert_eq!(v.into_iter().collect::<Vec<u8>>(), vec![8, 7, 9]);
}

#[test]
fn vector_is_filled_in_order() {
    let mut v: IndexVec<BlockId, u8> = IndexVec::from_raw(vec![40]);
    let mut calls = 0;
    let last = *v.ensure_contains_elem(BlockId(3), || {
        calls += 1;
        calls
    });
    assert_eq!(last, 3);
    assert_eq!(v.raw, vec![40, 1, 2, 3]);
    v.ensure_contains_elem(BlockId(1), || unreachable!());
    assert_eq!(calls, 3);
}

#[test]
fn empty_vector_pops_nothing() {
    let mut v: IndexVec<BlockId, u8> = IndexVec::from_raw(vec![]);
    assert_eq!(v.pop(), None);
}
