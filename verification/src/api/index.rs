use vstd::prelude::*;
use crate::api::stream_flags::LzmaStreamFlags;
use crate::api::vli::LzmaVli;
use crate::common::index_copy::{
    copy_group, copy_index, copy_stream, group_alike, index_alike, stream_alike,
};
use crate::common::index_iter::IterPos;
use crate::common::index_tree::{IndexGroup, IndexStream, IndexTreeNode, LzmaIndex};

verus! {

/// What an iterator tells of the stream it stands at.
#[derive(Debug, Clone, Copy, PartialEq, Eq, Structural)]
pub struct Stream {
    /// The flags of the stream, where they are known.
    pub flags: Option<LzmaStreamFlags>,
    /// Number of the stream; the first is 1.
    pub number: LzmaVli,
    pub block_count: LzmaVli,
    pub compressed_offset: LzmaVli,
    pub uncompressed_offset: LzmaVli,
    pub compressed_size: LzmaVli,
    pub uncompressed_size: LzmaVli,
    pub padding: LzmaVli,
    pub reserved_vli1: LzmaVli,
    pub reserved_vli2: LzmaVli,
    pub reserved_vli3: LzmaVli,
    pub reserved_vli4: LzmaVli,
}

/// What an iterator tells of the block it stands at.
#[derive(Debug, Clone, Copy, PartialEq, Eq, Structural)]
pub struct Block {
    /// Number of the block in the file; the first is 1.
    pub number_in_file: LzmaVli,
    pub compressed_file_offset: LzmaVli,
    pub uncompressed_file_offset: LzmaVli,
    /// Number of the block in its stream; the first is 1.
    pub number_in_stream: LzmaVli,
    pub compressed_stream_offset: LzmaVli,
    pub uncompressed_stream_offset: LzmaVli,
    pub uncompressed_size: LzmaVli,
    pub unpadded_size: LzmaVli,
    pub total_size: LzmaVli,
    pub reserved_vli1: LzmaVli,
    pub reserved_vli2: LzmaVli,
    pub reserved_vli3: LzmaVli,
    pub reserved_vli4: LzmaVli,
}

impl Default for Stream {
    fn default() -> (s: Stream)
        ensures
            s == Stream::blank(),
    {
        Stream {
            flags: None,
            number: 0,
            block_count: 0,
            compressed_offset: 0,
            uncompressed_offset: 0,
            compressed_size: 0,
            uncompressed_size: 0,
            padding: 0,
            reserved_vli1: 0,
            reserved_vli2: 0,
            reserved_vli3: 0,
            reserved_vli4: 0,
        }
    }
}

impl Stream {
    /// The record of a stream with nothing in it.
    pub open spec fn blank() -> Stream {
        Stream {
            flags: None,
            number: 0,
            block_count: 0,
            compressed_offset: 0,
            uncompressed_offset: 0,
            compressed_size: 0,
            uncompressed_size: 0,
            padding: 0,
            reserved_vli1: 0,
            reserved_vli2: 0,
            reserved_vli3: 0,
            reserved_vli4: 0,
        }
    }
}

impl Default for Block {
    fn default() -> (b: Block)
        ensures
            b == Block::blank(),
    {
        Block {
            number_in_file: 0,
            compressed_file_offset: 0,
            uncompressed_file_offset: 0,
            number_in_stream: 0,
            compressed_stream_offset: 0,
            uncompressed_stream_offset: 0,
            uncompressed_size: 0,
            unpadded_size: 0,
            total_size: 0,
            reserved_vli1: 0,
            reserved_vli2: 0,
            reserved_vli3: 0,
            reserved_vli4: 0,
        }
    }
}

impl Block {
    /// The record of a block with nothing in it.
    pub open spec fn blank() -> Block {
        Block {
            number_in_file: 0,
            compressed_file_offset: 0,
            uncompressed_file_offset: 0,
            number_in_stream: 0,
            compressed_stream_offset: 0,
            uncompressed_stream_offset: 0,
            uncompressed_size: 0,
            unpadded_size: 0,
            total_size: 0,
            reserved_vli1: 0,
            reserved_vli2: 0,
            reserved_vli3: 0,
            reserved_vli4: 0,
        }
    }
}

/// One slot of an iterator's private state.
#[derive(Debug)]
pub enum Internal {
    Index(Box<LzmaIndex>),
    Stream(Box<IndexStream>),
    Group(Box<IndexGroup>),
    Size(usize),
    Vli(LzmaVli),
    Empty,
}

impl Default for Internal {
    fn default() -> (i: Internal)
        ensures
            i == Internal::Empty,
    {
        Internal::Empty
    }
}

impl Internal {
    pub fn as_index(&self) -> (r: Option<&LzmaIndex>)
        ensures
            r == (match *self {
                Internal::Index(index) => Some(&*index),
                _ => None,
            }),
    {
        match self {
            Internal::Index(index) => Some(index),
            _ => None,
        }
    }

    /// A copy of the stream in the slot, where the slot holds one.
    pub fn as_stream(&self) -> (r: Option<Box<IndexStream>>)
        ensures
            match *self {
                Internal::Stream(stream) => r is Some && stream_alike(*stream, *r->0),
                _ => r is None,
            },
    {
        match self {
            Internal::Stream(stream) => Some(Box::new(copy_stream(stream))),
            _ => None,
        }
    }

    pub fn as_group(&self) -> (r: Option<&IndexGroup>)
        ensures
            r == (match *self {
                Internal::Group(group) => Some(&*group),
                _ => None,
            }),
    {
        match self {
            Internal::Group(group) => Some(group),
            _ => None,
        }
    }

    pub fn as_size(&self) -> (r: Option<usize>)
        ensures
            r == (match *self {
                Internal::Size(val) => Some(val),
                _ => None,
            }),
    {
        match self {
            Internal::Size(val) => Some(*val),
            _ => None,
        }
    }

    pub fn as_vli(&self) -> (r: Option<LzmaVli>)
        ensures
            r == (match *self {
                Internal::Vli(val) => Some(val),
                _ => None,
            }),
    {
        match self {
            Internal::Vli(val) => Some(*val),
            _ => None,
        }
    }
}

/// Two slots hold the same.
pub open spec fn internal_alike(a: Internal, b: Internal) -> bool {
    match (a, b) {
        (Internal::Index(x), Internal::Index(y)) => index_alike(*x, *y),
        (Internal::Stream(x), Internal::Stream(y)) => stream_alike(*x, *y),
        (Internal::Group(x), Internal::Group(y)) => group_alike(*x, *y),
        (Internal::Size(x), Internal::Size(y)) => x == y,
        (Internal::Vli(x), Internal::Vli(y)) => x == y,
        (Internal::Empty, Internal::Empty) => true,
        _ => false,
    }
}

impl Clone for Internal {
    fn clone(&self) -> (c: Internal)
        ensures
            internal_alike(*self, c),
    {
        match self {
            Internal::Index(index) => Internal::Index(Box::new(copy_index(index))),
            Internal::Stream(stream) => Internal::Stream(Box::new(copy_stream(stream))),
            Internal::Group(group) => Internal::Group(Box::new(copy_group(group))),
            Internal::Size(val) => Internal::Size(*val),
            Internal::Vli(val) => Internal::Vli(*val),
            Internal::Empty => Internal::Empty,
        }
    }
}

/// Number of slots of an iterator's private state.
pub const INTERNAL_SLOTS: usize = 6;

/// The private state of an iterator: six slots.
#[derive(Debug)]
pub struct InternalArray {
    data: Vec<Internal>,
}

impl InternalArray {
    /// The six slots.
    pub closed spec fn slots(self) -> Seq<Internal> {
        self.data@
    }

    /// There are six slots.
    pub open spec fn wf(self) -> bool {
        self.slots().len() == INTERNAL_SLOTS
    }

    /// Six empty slots.
    pub fn new() -> (a: InternalArray)
        ensures
            a.wf(),
            a.slots() == Seq::new(INTERNAL_SLOTS as nat, |i: int| Internal::Empty),
    {
        let mut data: Vec<Internal> = Vec::new();
        let mut i: usize = 0;
        while i < INTERNAL_SLOTS
            invariant
                i <= INTERNAL_SLOTS,
                data@ == Seq::new(i as nat, |k: int| Internal::Empty),
            decreases INTERNAL_SLOTS - i,
        {
            data.push(Internal::Empty);
            i += 1;
            assert(data@ =~= Seq::new(i as nat, |k: int| Internal::Empty));
        }
        InternalArray { data }
    }

    /// Puts `value` into the slot `index`; there is no slot from 6 on.
    pub fn set(&mut self, index: usize, value: Internal) -> (r: Result<(), &'static str>)
        requires
            old(self).wf(),
        ensures
            final(self).wf(),
            r is Ok <==> index < INTERNAL_SLOTS,
            r is Ok ==> final(self).slots() == old(self).slots().update(index as int, value),
            r is Err ==> final(self).slots() == old(self).slots(),
            r is Err ==> r->Err_0@ == "Index out of bounds"@,
    {
        if index >= 6 {
            return Err("Index out of bounds");
        }
        self.data[index] = value;
        Ok(())
    }

    /// Puts into the slot `index` a group that has the links `node` and
    /// no records.
    pub fn set_tree_node(&mut self, index: usize, node: IndexTreeNode) -> (r: Result<(), &'static str>)
        requires
            old(self).wf(),
        ensures
            final(self).wf(),
            r is Ok <==> index < INTERNAL_SLOTS,
            r is Ok ==> {
                &&& final(self).slots().len() == INTERNAL_SLOTS
                &&& forall|k: int|
                    0 <= k < INTERNAL_SLOTS && k != index ==> final(self).slots()[k] == old(
                        self,
                    ).slots()[k]
                &&& final(self).slots()[index as int] is Group
                &&& final(self).slots()[index as int]->Group_0.node == node
                &&& final(self).slots()[index as int]->Group_0.number_base == 0
                &&& final(self).slots()[index as int]->Group_0.allocated == 0
                &&& final(self).slots()[index as int]->Group_0.last == 0
                &&& final(self).slots()[index as int]->Group_0.records@.len() == 0
            },
            r is Err ==> final(self).slots() == old(self).slots(),
            r is Err ==> r->Err_0@ == "Index out of bounds"@,
    {
        if index >= 6 {
            return Err("Index out of bounds");
        }
        let group = IndexGroup { node, number_base: 0, allocated: 0, last: 0, records: Vec::new() };
        self.data[index] = Internal::Group(Box::new(group));
        Ok(())
    }

    /// The slot `index`, where there is one.
    pub fn get(&self, index: usize) -> (r: Option<&Internal>)
        requires
            self.wf(),
        ensures
            r == (if index < INTERNAL_SLOTS {
                Some(&self.slots()[index as int])
            } else {
                None
            }),
    {
        if index >= 6 {
            None
        } else {
            Some(&self.data[index])
        }
    }
}

/// Two arrays of slots hold the same, slot by slot.
pub open spec fn slots_alike(a: Seq<Internal>, b: Seq<Internal>) -> bool {
    &&& a.len() == b.len()
    &&& forall|i: int| 0 <= i < a.len() ==> internal_alike(a[i], #[trigger] b[i])
}

impl Clone for InternalArray {
    fn clone(&self) -> (c: InternalArray)
        ensures
            slots_alike(self.slots(), c.slots()),
            c.wf() == self.wf(),
    {
        let mut data: Vec<Internal> = Vec::new();
        let mut i: usize = 0;
        while i < self.data.len()
            invariant
                i <= self.data@.len(),
                data@.len() == i,
                forall|k: int| 0 <= k < i ==> internal_alike(self.data@[k], #[trigger] data@[k]),
            decreases self.data@.len() - i,
        {
            let slot = self.data[i].clone();
            data.push(slot);
            i += 1;
        }
        InternalArray { data }
    }
}

/// What an iterator stops at.
#[derive(PartialEq, Eq, PartialOrd, Structural, Clone, Copy, Debug)]
pub enum LzmaIndexIterMode {
    /// The next block, or the next stream where it has no block.
    Any,
    /// The next stream.
    Stream,
    /// The next block; streams without blocks are passed over.
    Block,
    /// The next block that is not empty.
    NonEmptyBlock,
}

/// Slot of the stream that an iterator stands at.
pub const ITER_STREAM: usize = 1;

/// Slot of the group that an iterator stands at.
pub const ITER_GROUP: usize = 2;

/// Slot of the record that an iterator stands at.
pub const ITER_RECORD: usize = 3;

/// A cursor over the streams and blocks of an index. It goes forward
/// only: to start again, make a new one. The index is handed to every
/// call, and may have grown since the call before.
#[derive(Debug)]
pub struct LzmaIndexIter {
    /// The stream that the iterator stands at.
    pub stream: Stream,
    /// The block that the iterator stands at, or stood at last.
    pub block: Block,
    pub internal: InternalArray,
}

/// The number in a slot, where the slot holds one.
pub open spec fn slot_size(slot: Internal) -> Option<usize> {
    match slot {
        Internal::Size(v) => Some(v),
        _ => None,
    }
}

impl Clone for LzmaIndexIter {
    fn clone(&self) -> (c: LzmaIndexIter)
        ensures
            c.stream == self.stream,
            c.block == self.block,
            slots_alike(self.internal.slots(), c.internal.slots()),
            c.wf() == self.wf(),
            self.wf() ==> c.position() == self.position(),
    {
        LzmaIndexIter { stream: self.stream, block: self.block, internal: self.internal.clone() }
    }
}

impl Default for LzmaIndexIter {
    fn default() -> (iter: LzmaIndexIter)
        ensures
            iter.wf(),
            iter.internal.slots() == Seq::new(INTERNAL_SLOTS as nat, |i: int| Internal::Empty),
            iter.position() == (IterPos { stream: None, group: None, record: 0 }),
            iter.stream == Stream::blank(),
            iter.block == Block::blank(),
    {
        LzmaIndexIter {
            stream: Stream::default(),
            block: Block::default(),
            internal: InternalArray::new(),
        }
    }
}

impl LzmaIndexIter {
    /// The private state has its six slots.
    pub open spec fn wf(self) -> bool {
        self.internal.wf()
    }

    /// Where the iterator stands.
    pub open spec fn position(self) -> IterPos {
        IterPos {
            stream: slot_size(self.internal.slots()[ITER_STREAM as int]),
            group: slot_size(self.internal.slots()[ITER_GROUP as int]),
            record: match slot_size(self.internal.slots()[ITER_RECORD as int]) {
                Some(r) => r,
                None => 0,
            },
        }
    }

    /// An iterator at the start: it stands at no stream yet, tells of
    /// no stream and no block, and all six slots of its private state
    /// are empty.
    pub fn new() -> (iter: LzmaIndexIter)
        ensures
            iter.wf(),
            iter.internal.slots() == Seq::new(INTERNAL_SLOTS as nat, |i: int| Internal::Empty),
            iter.position() == (IterPos { stream: None, group: None, record: 0 }),
            iter.stream == Stream::blank(),
            iter.block == Block::blank(),
    {
        LzmaIndexIter {
            stream: Stream::default(),
            block: Block::default(),
            internal: InternalArray::new(),
        }
    }

    /// Reads where the iterator stands.
    pub fn here(&self) -> (p: IterPos)
        requires
            self.wf(),
        ensures
            p == self.position(),
    {
        let stream: Option<usize> = match self.internal.get(ITER_STREAM) {
            Some(slot) => slot.as_size(),
            None => None,
        };
        let group: Option<usize> = match self.internal.get(ITER_GROUP) {
            Some(slot) => slot.as_size(),
            None => None,
        };
        let record: usize = match self.internal.get(ITER_RECORD) {
            Some(slot) => match slot.as_size() {
                Some(r) => r,
                None => 0,
            },
            None => 0,
        };
        IterPos { stream, group, record }
    }

    /// Puts the iterator at `p`.
    fn put(&mut self, p: IterPos)
        requires
            old(self).wf(),
        ensures
            final(self).wf(),
            final(self).position() == p,
            final(self).stream == old(self).stream,
            final(self).block == old(self).block,
    {
        let stream: Internal = match p.stream {
            Some(s) => Internal::Size(s),
            None => Internal::Empty,
        };
        let group: Internal = match p.group {
            Some(g) => Internal::Size(g),
            None => Internal::Empty,
        };
        let _ = self.internal.set(ITER_STREAM, stream);
        let _ = self.internal.set(ITER_GROUP, group);
        let _ = self.internal.set(ITER_RECORD, Internal::Size(p.record));
    }

    /// Puts the iterator at `p` and tells of the stream there, and of
    /// the block where `p` stands at one.
    fn settle(&mut self, index: &LzmaIndex, p: IterPos)
        requires
            old(self).wf(),
            index.wf(),
            index.holds(p),
            p.stream is Some,
        ensures
            final(self).wf(),
            final(self).position() == p,
            final(self).stream == index.stream_info(p.stream->0 as int),
            final(self).block == (if p.group is Some {
                index.block_info(p)
            } else {
                old(self).block
            }),
    {
        self.put(p);
        self.stream = index.tell_stream(p.stream.unwrap());
        if p.group.is_some() {
            self.block = index.tell_block(p);
        }
    }

    /// Moves the iterator on in the mode `mode`. Returns true, with the
    /// iterator as it was, where there is nothing more to stop at.
    pub fn next(&mut self, index: &LzmaIndex, mode: LzmaIndexIterMode) -> (end: bool)
        requires
            old(self).wf(),
            index.wf(),
            index.holds(old(self).position()),
        ensures
            final(self).wf(),
            end == (index.sought(old(self).position(), mode) is None),
            end ==> *final(self) == *old(self),
            !end ==> {
                let p = index.sought(old(self).position(), mode)->0;
                &&& final(self).position() == p
                &&& index.holds(p)
                &&& index.rests(p)
                &&& final(self).stream == index.stream_info(p.stream->0 as int)
                &&& final(self).block == (if p.group is Some {
                    index.block_info(p)
                } else {
                    old(self).block
                })
            },
    {
        let cur: IterPos = self.here();
        match index.find(cur, mode) {
            None => true,
            Some(p) => {
                proof {
                    index.lemma_sought_rests(cur, mode);
                }
                self.settle(index, p);
                false
            },
        }
    }

    /// Puts the iterator at the first block that ends at the
    /// uncompressed offset `target` or behind it. Returns true, with the
    /// iterator as it was, where there is no such block.
    pub fn locate(&mut self, index: &LzmaIndex, target: LzmaVli) -> (missing: bool)
        requires
            old(self).wf(),
            index.wf(),
        ensures
            final(self).wf(),
            missing == (index.record_count == 0 || target > index.uncompressed_size),
            missing ==> *final(self) == *old(self),
            !missing ==> {
                let p = final(self).position();
                &&& index.is_block(p)
                &&& index.block_end(p) >= target
                &&& forall|q: IterPos|
                    index.is_block(q) && crate::common::index_iter::pos_before(q, p)
                        ==> #[trigger] index.block_end(q) < target
                &&& final(self).stream == index.stream_info(p.stream->0 as int)
                &&& final(self).block == index.block_info(p)
            },
    {
        match index.locate(target) {
            None => true,
            Some(p) => {
                self.settle(index, p);
                false
            },
        }
    }
}

} // verus!
