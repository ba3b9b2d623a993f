//! The index data structures for the tree: how a node looks from its
//! parent, and the per-child record shape used by the index block codec.

use crate::compactseq::{selected, CompactSeq, SimpleCompactSeq};
use crate::error::Error;
use crate::links::Link;
use crate::semigroup::Key;
use std::collections::VecDeque;
use vstd::prelude::*;

verus! {

/// The concrete compact sequence of keys used by this tree.
pub type KeySeq = SimpleCompactSeq<Key>;

/// Index for a leaf holding a run of events.
#[derive(Debug)]
pub struct LeafIndex {
    /// The block can accept no more events.
    pub sealed: bool,
    /// Link to the data block; `None` once the block has been purged.
    pub cid: Option<Link>,
    /// One key per event in the referenced data block.
    pub keys: KeySeq,
    /// Compressed byte size of the data block.
    pub value_bytes: u64,
}

/// Index for a branch node.
#[derive(Debug)]
pub struct BranchIndex {
    /// Total number of events beneath this branch.
    pub count: u64,
    /// Level of this node; leaves sit at level 0, so this is at least 1.
    pub level: u32,
    /// The node can accept no more children.
    pub sealed: bool,
    /// Link to the index block; `None` once the block has been purged.
    pub cid: Option<Link>,
    /// One summary per direct child, in child order.
    pub summaries: KeySeq,
    /// Compressed byte size of the value half of the child blocks.
    pub value_bytes: u64,
    /// Compressed byte size of the key half of the child blocks.
    pub key_bytes: u64,
}

/// The view of a leaf index: the same fields with the keys as a sequence.
pub struct LeafIndexV {
    pub sealed: bool,
    pub cid: Option<Link>,
    pub keys: Seq<Key>,
    pub value_bytes: u64,
}

/// The view of a branch index.
pub struct BranchIndexV {
    pub count: u64,
    pub level: u32,
    pub sealed: bool,
    pub cid: Option<Link>,
    pub summaries: Seq<Key>,
    pub value_bytes: u64,
    pub key_bytes: u64,
}

/// The view of an index.
pub enum IndexV {
    Leaf(LeafIndexV),
    Branch(BranchIndexV),
}

impl View for LeafIndex {
    type V = LeafIndexV;

    open spec fn view(&self) -> LeafIndexV {
        LeafIndexV {
            sealed: self.sealed,
            cid: self.cid,
            keys: self.keys@,
            value_bytes: self.value_bytes,
        }
    }
}

impl View for BranchIndex {
    type V = BranchIndexV;

    open spec fn view(&self) -> BranchIndexV {
        BranchIndexV {
            count: self.count,
            level: self.level,
            sealed: self.sealed,
            cid: self.cid,
            summaries: self.summaries@,
            value_bytes: self.value_bytes,
            key_bytes: self.key_bytes,
        }
    }
}

impl Clone for LeafIndex {
    fn clone(&self) -> (r: Self)
        ensures
            r@ == self@,
    {
        Self {
            sealed: self.sealed,
            value_bytes: self.value_bytes,
            cid: self.cid,
            keys: self.keys.clone(),
        }
    }
}

impl Clone for BranchIndex {
    fn clone(&self) -> (r: Self)
        ensures
            r@ == self@,
    {
        Self {
            count: self.count,
            level: self.level,
            sealed: self.sealed,
            value_bytes: self.value_bytes,
            key_bytes: self.key_bytes,
            cid: self.cid,
            summaries: self.summaries.clone(),
        }
    }
}

impl LeafIndex {
    /// All keys of the referenced data block, one value each.
    pub fn keys(&self) -> (r: Vec<Key>)
        ensures
            r@ == self.keys@,
    {
        self.keys.to_vec()
    }

    /// The `(position, key)` pairs whose bit is set in `bits`.
    pub fn select_keys(&self, bits: &Vec<bool>) -> (r: Vec<(usize, Key)>)
        requires
            self.keys@.len() <= bits@.len(),
        ensures
            r@ == selected(self.keys@, bits@, self.keys@.len() as int),
    {
        self.keys.select(bits)
    }
}

impl BranchIndex {
    /// All child summaries, one value each, in child order.
    pub fn summaries(&self) -> (r: Vec<Key>)
        ensures
            r@ == self.summaries@,
    {
        self.summaries.to_vec()
    }
}

/// An index: what a parent records about one child node.
#[derive(Debug)]
pub enum Index {
    Leaf(LeafIndex),
    Branch(BranchIndex),
}

impl View for Index {
    type V = IndexV;

    open spec fn view(&self) -> IndexV {
        match self {
            Index::Leaf(x) => IndexV::Leaf(x@),
            Index::Branch(x) => IndexV::Branch(x@),
        }
    }
}

impl Clone for Index {
    fn clone(&self) -> (r: Self)
        ensures
            r@ == self@,
    {
        match self {
            Index::Leaf(x) => Index::Leaf(x.clone()),
            Index::Branch(x) => Index::Branch(x.clone()),
        }
    }
}

impl IndexV {
    /// The link of the node, if it is still stored.
    pub open spec fn cid(self) -> Option<Link> {
        match self {
            IndexV::Leaf(x) => x.cid,
            IndexV::Branch(x) => x.cid,
        }
    }

    /// The number of events beneath the node.
    pub open spec fn count(self) -> nat {
        match self {
            IndexV::Leaf(x) => x.keys.len(),
            IndexV::Branch(x) => x.count as nat,
        }
    }

    /// Whether the node accepts no more data.
    pub open spec fn sealed(self) -> bool {
        match self {
            IndexV::Leaf(x) => x.sealed,
            IndexV::Branch(x) => x.sealed,
        }
    }

    /// The level of the node; leaves sit at level 0.
    pub open spec fn level(self) -> u32 {
        match self {
            IndexV::Leaf(_) => 0,
            IndexV::Branch(x) => x.level,
        }
    }
}

impl Index {
    /// The keys of a leaf, or the summaries of a branch.
    pub fn data(&self) -> (r: &KeySeq)
        ensures
            r@ == match self@ {
                IndexV::Leaf(x) => x.keys,
                IndexV::Branch(x) => x.summaries,
            },
    {
        match self {
            Index::Leaf(x) => &x.keys,
            Index::Branch(x) => &x.summaries,
        }
    }

    /// The link of the node, if it is still stored.
    pub fn cid(&self) -> (r: &Option<Link>)
        ensures
            *r == self@.cid(),
    {
        match self {
            Index::Leaf(x) => &x.cid,
            Index::Branch(x) => &x.cid,
        }
    }

    /// The number of events beneath the node.
    pub fn count(&self) -> (r: u64)
        ensures
            r == self@.count(),
    {
        match self {
            Index::Leaf(x) => x.keys.count(),
            Index::Branch(x) => x.count,
        }
    }

    /// Whether the node accepts no more data.
    pub fn sealed(&self) -> (r: bool)
        ensures
            r == self@.sealed(),
    {
        match self {
            Index::Leaf(x) => x.sealed,
            Index::Branch(x) => x.sealed,
        }
    }

    /// The level of the node; leaves sit at level 0.
    pub fn level(&self) -> (r: u32)
        ensures
            r == self@.level(),
    {
        match self {
            Index::Leaf(_) => 0,
            Index::Branch(x) => x.level,
        }
    }

    /// Compressed byte size of the value data beneath the node.
    pub fn value_bytes(&self) -> (r: u64)
        ensures
            r == match self@ {
                IndexV::Leaf(x) => x.value_bytes,
                IndexV::Branch(x) => x.value_bytes,
            },
    {
        match self {
            Index::Leaf(x) => x.value_bytes,
            Index::Branch(x) => x.value_bytes,
        }
    }

    /// Compressed byte size of the key data beneath the node.
    pub fn key_bytes(&self) -> (r: u64)
        ensures
            r == match self@ {
                IndexV::Leaf(_) => 0u64,
                IndexV::Branch(x) => x.key_bytes,
            },
    {
        match self {
            Index::Leaf(_) => 0,
            Index::Branch(x) => x.key_bytes,
        }
    }
}

/// Fully in-memory representation of a branch node: never empty.
#[derive(Debug)]
pub struct Branch {
    /// Index data for the children.
    pub children: Vec<Index>,
}

impl Branch {
    /// Wraps a non-empty child list.
    pub fn new(children: Vec<Index>) -> (r: Self)
        requires
            children@.len() > 0,
        ensures
            r.children@ == children@,
    {
        Self { children }
    }

    /// The last child.
    pub fn last_child(&self) -> (r: &Index)
        requires
            self.children@.len() > 0,
        ensures
            *r == self.children@.last(),
    {
        &self.children[self.children.len() - 1]
    }

    /// A mutable borrow of the last child.
    pub fn last_child_mut(&mut self) -> (r: &mut Index)
        requires
            old(self).children@.len() > 0,
        ensures
            *r == old(self).children@.last(),
            final(self).children@ == old(self).children@.update(
                old(self).children@.len() - 1,
                *final(r),
            ),
    {
        let n = self.children.len();
        &mut self.children[n - 1]
    }
}

/// One per-child record of an index block, as it stands on the wire:
/// the union of the leaf and branch fields, with the branch-only fields
/// optional, plus the purged flag that replaces the link.
#[derive(Debug)]
pub struct IndexRecord {
    pub sealed: bool,
    pub purged: bool,
    pub data: KeySeq,
    pub value_bytes: u64,
    pub count: Option<u64>,
    pub level: Option<u32>,
    pub key_bytes: Option<u64>,
}

/// The view of a record, with the data as a sequence.
pub struct IndexRecordV {
    pub sealed: bool,
    pub purged: bool,
    pub data: Seq<Key>,
    pub value_bytes: u64,
    pub count: Option<u64>,
    pub level: Option<u32>,
    pub key_bytes: Option<u64>,
}

impl View for IndexRecord {
    type V = IndexRecordV;

    open spec fn view(&self) -> IndexRecordV {
        IndexRecordV {
            sealed: self.sealed,
            purged: self.purged,
            data: self.data@,
            value_bytes: self.value_bytes,
            count: self.count,
            level: self.level,
            key_bytes: self.key_bytes,
        }
    }
}

/// The record that stands for `i` on the wire.
pub open spec fn record_of(i: IndexV) -> IndexRecordV {
    match i {
        IndexV::Branch(b) => IndexRecordV {
            sealed: b.sealed,
            purged: b.cid is None,
            data: b.summaries,
            value_bytes: b.value_bytes,
            count: Some(b.count),
            level: Some(b.level),
            key_bytes: Some(b.key_bytes),
        },
        IndexV::Leaf(l) => IndexRecordV {
            sealed: l.sealed,
            purged: l.cid is None,
            data: l.keys,
            value_bytes: l.value_bytes,
            count: None,
            level: None,
            key_bytes: None,
        },
    }
}

impl IndexRecord {
    /// Builds the wire record of an index; the link itself is carried
    /// separately, so only its absence is recorded.
    pub fn from_index(value: &Index) -> (r: IndexRecord)
        ensures
            r@ == record_of(value@),
    {
        match value {
            Index::Branch(i) => Self {
                sealed: i.sealed,
                purged: i.cid.is_none(),
                data: i.summaries.clone(),
                value_bytes: i.value_bytes,
                count: Some(i.count),
                level: Some(i.level),
                key_bytes: Some(i.key_bytes),
            },
            Index::Leaf(i) => Self {
                sealed: i.sealed,
                purged: i.cid.is_none(),
                data: i.keys.clone(),
                value_bytes: i.value_bytes,
                count: None,
                level: None,
                key_bytes: None,
            },
        }
    }

    /// Rebuilds an index from a wire record, re-attaching the next link
    /// from `cids` when the record is not purged.
    ///
    /// A record with all three branch-only fields present is a branch;
    /// with all three absent, a leaf; any other mix is rejected.
    pub fn to_index(self, cids: &mut VecDeque<Link>) -> (r: Result<Index, Error>)
        ensures
            match r {
                Ok(ix) => {
                    &&& record_consistent(self@)
                    &&& ix@ == index_of_record(
                        self@,
                        if self@.purged {
                            None
                        } else if old(cids)@.len() > 0 {
                            Some(old(cids)@[0])
                        } else {
                            None
                        },
                    )
                    &&& final(cids)@ == if self@.purged || old(cids)@.len() == 0 {
                        old(cids)@
                    } else {
                        old(cids)@.drop_first()
                    }
                },
                Err(e) => {
                    &&& !record_consistent(self@)
                    &&& e == Error::InconsistentRecord
                    &&& final(cids)@ == old(cids)@
                },
            },
    {
        let consistent = match (&self.count, &self.level, &self.key_bytes) {
            (Some(_), Some(_), Some(_)) => true,
            (None, None, None) => true,
            _ => false,
        };
        if !consistent {
            return Err(Error::InconsistentRecord);
        }
        let cid = if !self.purged {
            cids.pop_front()
        } else {
            None
        };
        if let (Some(count), Some(level), Some(key_bytes)) = (self.count, self.level,
            self.key_bytes) {
            Ok(
                Index::Branch(
                    BranchIndex {
                        summaries: self.data,
                        sealed: self.sealed,
                        value_bytes: self.value_bytes,
                        key_bytes,
                        count,
                        level,
                        cid,
                    },
                ),
            )
        } else {
            Ok(
                Index::Leaf(
                    LeafIndex {
                        keys: self.data,
                        sealed: self.sealed,
                        value_bytes: self.value_bytes,
                        cid,
                    },
                ),
            )
        }
    }
}

/// Whether a wire record carries either all or none of the branch fields.
pub open spec fn record_consistent(r: IndexRecordV) -> bool {
    (r.count is Some && r.level is Some && r.key_bytes is Some) || (r.count is None && r.level
        is None && r.key_bytes is None)
}

/// The index a consistent wire record stands for, once `cid` is attached.
pub open spec fn index_of_record(r: IndexRecordV, cid: Option<Link>) -> IndexV
    recommends
        record_consistent(r),
{
    if r.count is Some {
        IndexV::Branch(
            BranchIndexV {
                count: r.count->0,
                level: r.level->0,
                sealed: r.sealed,
                cid,
                summaries: r.data,
                value_bytes: r.value_bytes,
                key_bytes: r.key_bytes->0,
            },
        )
    } else {
        IndexV::Leaf(
            LeafIndexV {
                sealed: r.sealed,
                cid,
                keys: r.data,
                value_bytes: r.value_bytes,
            },
        )
    }
}

/// A record built from an index and decoded with the index's own link
/// restores the index.
pub proof fn lemma_record_roundtrip(i: IndexV)
    ensures
        record_consistent(record_of(i)),
        index_of_record(record_of(i), i.cid()) == i,
{
}

} // verus!
