use vstd::prelude::*;
use crate::api::index::{Block, LzmaIndexIterMode, Stream};
use crate::api::vli::LzmaVli;
use crate::common::index::{
    ceil4,
    group_linked_at,
    group_of,
    groups_linked,
    index_size,
    index_size_of,
    lemma_group_rises,
    lemma_groups_rise,
    lemma_groups_sorted,
    lemma_index_size_bounds,
    lemma_streams_rise,
    lemma_streams_sorted,
    lemma_vli_size_bounds,
    records_upto,
    stream_linked_at,
    vli_ceil4,
    STREAM_HEADER_SIZE,
};
use crate::common::index_tree::{IndexGroup, IndexNode, IndexStream, LzmaIndex};

verus! {

/// Where an iterator stands: at no stream yet, at a stream without a
/// block, or at the record `record` of the group `group` of a stream.
#[derive(Clone, Copy, PartialEq, Eq, Structural, Debug)]
pub struct IterPos {
    pub stream: Option<usize>,
    pub group: Option<usize>,
    pub record: usize,
}

impl IndexStream {
    /// The group `g` of the stream.
    pub open spec fn group(self, g: int) -> IndexGroup {
        group_of(self.groups.nodes@[g])
    }

    /// Number of groups of the stream.
    pub open spec fn group_count(self) -> nat {
        self.groups.nodes@.len()
    }
}

impl LzmaIndex {
    /// The position is one of this index.
    pub open spec fn holds(self, p: IterPos) -> bool {
        &&& self.stream_count() <= u32::MAX
        &&& match p.stream {
            None => p.group is None && p.record == 0,
            Some(s) => s < self.stream_count() && self.stream(s as int).group_count() <= u32::MAX
                && (match p.group {
                None => p.record == 0,
                Some(g) => g < self.stream(s as int).group_count() && p.record <= self.stream(
                    s as int,
                ).group(g as int).last,
            }),
        }
    }

    /// The position at the start of the stream `s`: at its first block,
    /// where it has one.
    pub open spec fn first_in(self, s: usize) -> IterPos {
        IterPos {
            stream: Some(s),
            group: if self.stream(s as int).group_count() > 0 {
                Some(0usize)
            } else {
                None
            },
            record: 0,
        }
    }

    /// The position of the block behind that of `p` in the same stream,
    /// where there is one.
    pub open spec fn next_block(self, p: IterPos) -> Option<IterPos> {
        match (p.stream, p.group) {
            (Some(s), Some(g)) => {
                if p.record < self.stream(s as int).group(g as int).last {
                    Some(IterPos { record: (p.record + 1) as usize, ..p })
                } else if g + 1 < self.stream(s as int).group_count() {
                    Some(IterPos { group: Some((g + 1) as usize), record: 0, ..p })
                } else {
                    None
                }
            },
            _ => None,
        }
    }

    /// The position at the start of the stream behind that of `p`, or of
    /// the first stream where `p` stands at none.
    pub open spec fn step_stream(self, p: IterPos) -> Option<IterPos> {
        let s = match p.stream {
            None => 0,
            Some(s) => s + 1,
        };
        if s < self.stream_count() {
            Some(self.first_in(s as usize))
        } else {
            None
        }
    }

    /// The position behind `p`: the next block of the stream, or the
    /// start of the next stream where the stream has no block more.
    pub open spec fn step_any(self, p: IterPos) -> Option<IterPos> {
        match self.next_block(p) {
            Some(q) => Some(q),
            None => self.step_stream(p),
        }
    }

    /// Uncompressed offset in its stream at which the block at `p`
    /// starts.
    pub open spec fn block_start(self, p: IterPos) -> u64 {
        let g = self.stream(p.stream->0 as int).group(p.group->0 as int);
        if p.record == 0 {
            g.node.uncompressed_base
        } else {
            g.records@[p.record - 1].uncompressed_sum
        }
    }

    /// Uncompressed offset in its stream at which the block at `p` ends.
    pub open spec fn block_stop(self, p: IterPos) -> u64 {
        self.stream(p.stream->0 as int).group(p.group->0 as int).records@[p.record as int].uncompressed_sum
    }

    /// Offset in its stream, counted from the end of the stream header,
    /// at which the block at `p` starts.
    pub open spec fn block_padded_start(self, p: IterPos) -> int {
        let g = self.stream(p.stream->0 as int).group(p.group->0 as int);
        if p.record == 0 {
            g.node.compressed_base as int
        } else {
            ceil4(g.records@[p.record - 1].unpadded_sum as int)
        }
    }

    /// Whether an iterator in the mode `mode` stops at `p`.
    pub open spec fn accepts(self, p: IterPos, mode: LzmaIndexIterMode) -> bool {
        match mode {
            LzmaIndexIterMode::Any => true,
            LzmaIndexIterMode::Stream => true,
            LzmaIndexIterMode::Block => p.group is Some,
            LzmaIndexIterMode::NonEmptyBlock => p.group is Some && self.block_stop(p)
                > self.block_start(p),
        }
    }

    /// How far `p` is from the end: the streams from it on, the groups of
    /// its stream from it on, and the records of its group behind it.
    pub open spec fn streams_left(self, p: IterPos) -> nat {
        match p.stream {
            None => self.stream_count() + 1,
            Some(s) => (self.stream_count() - s) as nat,
        }
    }

    pub open spec fn groups_left(self, p: IterPos) -> nat {
        match (p.stream, p.group) {
            (Some(s), Some(g)) => (self.stream(s as int).group_count() - g) as nat,
            _ => 0,
        }
    }

    pub open spec fn records_left(self, p: IterPos) -> nat {
        match (p.stream, p.group) {
            (Some(s), Some(g)) => (self.stream(s as int).group(g as int).last - p.record) as nat,
            _ => 0,
        }
    }

    /// The first position behind `p` at which an iterator in the mode
    /// `mode` stops, where there is one: positions are gone through one
    /// by one, blocks and streams without blocks alike.
    pub open spec fn seek(self, p: IterPos, mode: LzmaIndexIterMode) -> Option<IterPos>
        decreases self.streams_left(p), self.groups_left(p), self.records_left(p),
    {
        if !self.holds(p) {
            None
        } else {
            match self.step_any(p) {
                None => None,
                Some(q) => if self.accepts(q, mode) {
                    Some(q)
                } else {
                    self.seek(q, mode)
                },
            }
        }
    }

    /// The position that an iterator at `p` goes to in the mode `mode`:
    /// the start of the next stream in the mode `Stream`, else the first
    /// position behind `p` at which the mode stops.
    pub open spec fn sought(self, p: IterPos, mode: LzmaIndexIterMode) -> Option<IterPos> {
        if mode == LzmaIndexIterMode::Stream {
            self.step_stream(p)
        } else {
            self.seek(p, mode)
        }
    }

    /// What is told of the stream `s`.
    pub open spec fn stream_info(self, s: int) -> Stream {
        let st = self.stream(s);
        Stream {
            flags: if st.stream_flags.version == u32::MAX {
                None
            } else {
                Some(st.stream_flags)
            },
            number: st.number as u64,
            block_count: st.record_count,
            compressed_offset: st.node.compressed_base,
            uncompressed_offset: st.node.uncompressed_base,
            compressed_size: (2 * STREAM_HEADER_SIZE + index_size_of(
                st.record_count,
                st.index_list_size,
            ) + st.blocks_size()) as u64,
            uncompressed_size: st.uncompressed_size(),
            padding: st.stream_padding,
            reserved_vli1: 0,
            reserved_vli2: 0,
            reserved_vli3: 0,
            reserved_vli4: 0,
        }
    }

    /// What is told of the block at `p`: its numbers, counted from one,
    /// its sizes, and where it starts in its stream and in the file.
    pub open spec fn block_info(self, p: IterPos) -> Block {
        let st = self.stream(p.stream->0 as int);
        let g = st.group(p.group->0 as int);
        let unpadded = g.records@[p.record as int].unpadded_sum - self.block_padded_start(p);
        Block {
            number_in_file: (st.block_number_base + g.number_base + p.record + 1) as u64,
            compressed_file_offset: (st.node.compressed_base + STREAM_HEADER_SIZE
                + self.block_padded_start(p)) as u64,
            uncompressed_file_offset: (st.node.uncompressed_base + self.block_start(p)) as u64,
            number_in_stream: (g.number_base + p.record + 1) as u64,
            compressed_stream_offset: (STREAM_HEADER_SIZE + self.block_padded_start(p)) as u64,
            uncompressed_stream_offset: self.block_start(p),
            uncompressed_size: (self.block_stop(p) - self.block_start(p)) as u64,
            unpadded_size: unpadded as u64,
            total_size: ceil4(unpadded) as u64,
            reserved_vli1: 0,
            reserved_vli2: 0,
            reserved_vli3: 0,
            reserved_vli4: 0,
        }
    }
}

impl IndexStream {
    /// The group `g` of the stream.
    pub fn group_ref(&self, g: usize) -> (group: &IndexGroup)
        requires
            self.wf(),
            g < self.group_count(),
        ensures
            *group == self.group(g as int),
            group.wf(),
            group_linked_at(self.groups.nodes@, g as int),
    {
        assert(group_linked_at(self.groups.nodes@, g as int));
        match &self.groups.nodes[g] {
            IndexNode::Group(group) => group,
            IndexNode::Stream(_) => vstd::pervasive::unreached(),
        }
    }
}

impl LzmaIndex {
    /// The stream `s` of the index.
    pub fn stream_ref(&self, s: usize) -> (stream: &IndexStream)
        requires
            self.wf(),
            s < self.stream_count(),
        ensures
            *stream == self.stream(s as int),
            stream.wf(),
            stream.group_count() <= u32::MAX,
            stream_linked_at(self.streams.nodes@, s as int),
    {
        assert(stream_linked_at(self.streams.nodes@, s as int));
        match &self.streams.nodes[s] {
            IndexNode::Stream(stream) => stream,
            IndexNode::Group(_) => vstd::pervasive::unreached(),
        }
    }

    /// Computes the position at the start of the stream `s`.
    fn start_of(&self, s: usize) -> (p: IterPos)
        requires
            self.wf(),
            s < self.stream_count(),
        ensures
            p == self.first_in(s),
            self.holds(p),
    {
        let st = self.stream_ref(s);
        if st.groups.nodes.len() > 0 {
            let g = st.group_ref(0);
            IterPos { stream: Some(s), group: Some(0), record: 0 }
        } else {
            IterPos { stream: Some(s), group: None, record: 0 }
        }
    }

    /// Computes the position at the start of the next stream.
    pub fn go_stream(&self, p: IterPos) -> (q: Option<IterPos>)
        requires
            self.wf(),
            self.holds(p),
        ensures
            q == self.step_stream(p),
            q is Some ==> self.holds(q->0),
    {
        let s: usize = match p.stream {
            None => 0,
            Some(s) => s + 1,
        };
        if s < self.streams.nodes.len() {
            Some(self.start_of(s))
        } else {
            None
        }
    }

    /// Computes the position behind `p`.
    pub fn go_any(&self, p: IterPos) -> (q: Option<IterPos>)
        requires
            self.wf(),
            self.holds(p),
        ensures
            q == self.step_any(p),
            q is Some ==> self.holds(q->0),
    {
        match (p.stream, p.group) {
            (Some(s), Some(g)) => {
                let st = self.stream_ref(s);
                let gr = st.group_ref(g);
                if p.record < gr.last {
                    Some(IterPos { stream: p.stream, group: p.group, record: p.record + 1 })
                } else if g + 1 < st.groups.nodes.len() {
                    let nx = st.group_ref(g + 1);
                    Some(IterPos { stream: p.stream, group: Some(g + 1), record: 0 })
                } else {
                    self.go_stream(p)
                }
            },
            _ => self.go_stream(p),
        }
    }

    /// Decides whether an iterator in the mode `mode` stops at `p`.
    pub fn stops_at(&self, p: IterPos, mode: LzmaIndexIterMode) -> (stop: bool)
        requires
            self.wf(),
            self.holds(p),
            p.stream is Some,
        ensures
            stop == self.accepts(p, mode),
    {
        match mode {
            LzmaIndexIterMode::Any => true,
            LzmaIndexIterMode::Stream => true,
            LzmaIndexIterMode::Block => p.group.is_some(),
            LzmaIndexIterMode::NonEmptyBlock => {
                match (p.stream, p.group) {
                    (Some(s), Some(g)) => {
                        let gr = self.stream_ref(s).group_ref(g);
                        let start: u64 = if p.record == 0 {
                            gr.node.uncompressed_base
                        } else {
                            gr.records[p.record - 1].uncompressed_sum
                        };
                        gr.records[p.record].uncompressed_sum > start
                    },
                    _ => false,
                }
            },
        }
    }

    /// Finds the position that an iterator at `p` goes to in the mode
    /// `mode`.
    pub fn find(&self, p: IterPos, mode: LzmaIndexIterMode) -> (q: Option<IterPos>)
        requires
            self.wf(),
            self.holds(p),
        ensures
            q == self.sought(p, mode),
            q is Some ==> self.holds(q->0) && q->0.stream is Some,
    {
        if mode == LzmaIndexIterMode::Stream {
            return self.go_stream(p);
        }
        let mut cur: IterPos = p;
        loop
            invariant
                self.wf(),
                self.holds(cur),
                mode != LzmaIndexIterMode::Stream,
                self.seek(cur, mode) == self.seek(p, mode),
            decreases self.streams_left(cur), self.groups_left(cur), self.records_left(cur),
        {
            match self.go_any(cur) {
                None => {
                    return None;
                },
                Some(q) => {
                    if self.stops_at(q, mode) {
                        return Some(q);
                    }
                    cur = q;
                },
            }
        }
    }
}

impl LzmaIndex {
    /// A stream ends no later than the whole index does, in blocks and
    /// in uncompressed bytes, and a group no later than its stream.
    pub proof fn lemma_within(self, s: int, g: int)
        requires
            self.wf(),
            0 <= s < self.stream_count(),
            0 <= g < self.stream(s).group_count(),
        ensures
            self.stream(s).node.uncompressed_base + self.stream(s).uncompressed_size()
                <= self.uncompressed_size,
            self.stream(s).block_number_base + self.stream(s).record_count <= self.record_count,
            self.stream(s).group(g).end_uncompressed() <= self.stream(s).uncompressed_size(),
            self.stream(s).group(g).end_padded() <= self.stream(s).blocks_size(),
            self.stream(s).group(g).number_base + self.stream(s).group(g).last + 1 <= self.stream(
                s,
            ).record_count,
            self.stream(s).wf(),
            self.stream(s).group(g).wf(),
    {
        let nodes = self.streams.nodes@;
        let n = nodes.len() as int;
        lemma_streams_rise(nodes, s, n - 1);
        assert(stream_linked_at(nodes, s));
        assert(stream_linked_at(nodes, n - 1));
        let groups = self.stream(s).groups.nodes@;
        let m = groups.len() as int;
        lemma_groups_rise(groups, g, m - 1);
        assert(group_linked_at(groups, g));
        assert(group_linked_at(groups, m - 1));
    }

    /// Tells of the stream `s`.
    pub fn tell_stream(&self, s: usize) -> (info: Stream)
        requires
            self.wf(),
            s < self.stream_count(),
        ensures
            info == self.stream_info(s as int),
    {
        let st = self.stream_ref(s);
        proof {
            lemma_vli_size_bounds(st.record_count);
            lemma_index_size_bounds(st.record_count, st.index_list_size);
        }
        let t = st.tail();
        Stream {
            flags: if st.stream_flags.version == u32::MAX {
                None
            } else {
                Some(st.stream_flags)
            },
            number: st.number as u64,
            block_count: st.record_count,
            compressed_offset: st.node.compressed_base,
            uncompressed_offset: st.node.uncompressed_base,
            compressed_size: 2 * STREAM_HEADER_SIZE + index_size(
                st.record_count,
                st.index_list_size,
            ) + t.1,
            uncompressed_size: t.0,
            padding: st.stream_padding,
            reserved_vli1: 0,
            reserved_vli2: 0,
            reserved_vli3: 0,
            reserved_vli4: 0,
        }
    }

    /// Tells of the block at `p`.
    pub fn tell_block(&self, p: IterPos) -> (info: Block)
        requires
            self.wf(),
            self.holds(p),
            p.stream is Some,
            p.group is Some,
        ensures
            info == self.block_info(p),
    {
        let s: usize = p.stream.unwrap();
        let g: usize = p.group.unwrap();
        let st = self.stream_ref(s);
        let gr = st.group_ref(g);
        proof {
            self.lemma_within(s as int, g as int);
            lemma_group_rises(*gr, 0, p.record as int);
            lemma_group_rises(*gr, p.record as int, gr.last as int);
            assert(gr.record_follows(p.record as int));
            lemma_vli_size_bounds(st.record_count);
            lemma_index_size_bounds(st.record_count, st.index_list_size);
            if p.record > 0 {
                lemma_group_rises(*gr, p.record - 1, gr.last as int);
                assert(gr.record_follows(p.record - 1));
            }
        }
        let number_in_stream: u64 = gr.number_base + (p.record as u64) + 1;
        let padded_start: u64 = if p.record == 0 {
            gr.node.compressed_base
        } else {
            vli_ceil4(gr.records[p.record - 1].unpadded_sum)
        };
        let start: u64 = if p.record == 0 {
            gr.node.uncompressed_base
        } else {
            gr.records[p.record - 1].uncompressed_sum
        };
        let unpadded_size: u64 = gr.records[p.record].unpadded_sum - padded_start;
        Block {
            number_in_file: number_in_stream + st.block_number_base,
            compressed_file_offset: padded_start + STREAM_HEADER_SIZE + st.node.compressed_base,
            uncompressed_file_offset: start + st.node.uncompressed_base,
            number_in_stream,
            compressed_stream_offset: padded_start + STREAM_HEADER_SIZE,
            uncompressed_stream_offset: start,
            uncompressed_size: gr.records[p.record].uncompressed_sum - start,
            unpadded_size,
            total_size: vli_ceil4(unpadded_size),
            reserved_vli1: 0,
            reserved_vli2: 0,
            reserved_vli3: 0,
            reserved_vli4: 0,
        }
    }
}

/// The position `q` lies further on than the position `p`: in a later
/// stream, or in the same stream at a later group, or in the same group
/// at a later record. Standing at no stream comes before every stream,
/// and standing at no block before every block of the stream.
pub open spec fn further_on(p: IterPos, q: IterPos) -> bool {
    let ps: int = match p.stream {
        None => -1,
        Some(s) => s as int,
    };
    let qs: int = match q.stream {
        None => -1,
        Some(s) => s as int,
    };
    let pg: int = match p.group {
        None => -1,
        Some(g) => g as int,
    };
    let qg: int = match q.group {
        None => -1,
        Some(g) => g as int,
    };
    ps < qs || (ps == qs && (pg < qg || (pg == qg && p.record < q.record)))
}

impl LzmaIndex {
    /// Going through the positions one by one, in any mode, leads to a
    /// position further on.
    proof fn lemma_seek_goes_forward(self, p: IterPos, mode: LzmaIndexIterMode)
        requires
            self.seek(p, mode) is Some,
        ensures
            further_on(p, self.seek(p, mode)->0),
        decreases self.streams_left(p), self.groups_left(p), self.records_left(p),
    {
        let q = self.step_any(p)->0;
        assert(further_on(p, q));
        if !self.accepts(q, mode) {
            self.lemma_seek_goes_forward(q, mode);
        }
    }

    /// An iterator only goes forward: in every mode, the position that
    /// it goes to lies further on than the one that it leaves.
    pub proof fn lemma_iteration_goes_forward(self, p: IterPos, mode: LzmaIndexIterMode)
        requires
            self.holds(p),
            self.sought(p, mode) is Some,
        ensures
            further_on(p, self.sought(p, mode)->0),
    {
        if mode != LzmaIndexIterMode::Stream {
            self.lemma_seek_goes_forward(p, mode);
        }
    }
}

impl LzmaIndex {
    /// The number of blocks up to the position `p`, the block at `p`
    /// counted: the number in the file of the block that `p` stands at,
    /// or the number of blocks before the stream where it stands at a
    /// stream without blocks, or zero where it stands at no stream yet.
    pub open spec fn blocks_upto(self, p: IterPos) -> int {
        match p.stream {
            None => 0,
            Some(s) => self.stream(s as int).block_number_base + (match p.group {
                None => 0int,
                Some(g) => self.stream(s as int).group(g as int).number_base + p.record + 1,
            }),
        }
    }

    /// The position is one that an iterator comes to rest at: where it
    /// stands at a stream and at no block, the stream has none.
    pub open spec fn rests(self, p: IterPos) -> bool {
        self.holds(p) && (p.stream is Some && p.group is None ==> self.stream(
            p.stream->0 as int,
        ).group_count() == 0)
    }

    /// Wherever an iterator goes, it comes to rest.
    pub proof fn lemma_sought_rests(self, p: IterPos, mode: LzmaIndexIterMode)
        requires
            self.wf(),
            self.holds(p),
            self.sought(p, mode) is Some,
        ensures
            self.rests(self.sought(p, mode)->0),
    {
        if mode == LzmaIndexIterMode::Stream {
            self.lemma_step_holds(p);
        } else {
            self.lemma_seek_rests(p, mode);
        }
    }

    /// A step from a position of the index leads to one where an
    /// iterator can rest.
    proof fn lemma_step_holds(self, p: IterPos)
        requires
            self.wf(),
            self.holds(p),
        ensures
            self.step_any(p) is Some ==> self.rests(self.step_any(p)->0),
            self.step_stream(p) is Some ==> self.rests(self.step_stream(p)->0),
    {
        let streams = self.streams.nodes@;
        let next: int = match p.stream {
            None => 0,
            Some(s) => s + 1,
        };
        if next < streams.len() {
            assert(stream_linked_at(streams, next));
            let t = self.stream(next);
            if t.group_count() > 0 {
                assert(group_linked_at(t.groups.nodes@, 0));
            }
        }
        match (p.stream, p.group) {
            (Some(s), Some(g)) => {
                assert(stream_linked_at(streams, s as int));
                let groups = self.stream(s as int).groups.nodes@;
                assert(group_linked_at(groups, g as int));
                if g + 1 < groups.len() {
                    assert(group_linked_at(groups, g + 1));
                }
            },
            _ => {},
        }
    }

    proof fn lemma_seek_rests(self, p: IterPos, mode: LzmaIndexIterMode)
        requires
            self.wf(),
            self.holds(p),
            self.seek(p, mode) is Some,
        ensures
            self.rests(self.seek(p, mode)->0),
        decreases self.streams_left(p), self.groups_left(p), self.records_left(p),
    {
        self.lemma_step_holds(p);
        let q = self.step_any(p)->0;
        if !self.accepts(q, mode) {
            self.lemma_seek_rests(q, mode);
        }
    }

    /// One step counts one block. The position behind `p` is one of the
    /// index; where it is a block, it is the block with the next number
    /// in the file, and where it is a stream without blocks, the count
    /// stays. There is no position behind `p` only when every block of
    /// the index has been counted.
    pub proof fn lemma_step_counts(self, p: IterPos)
        requires
            self.wf(),
            self.rests(p),
        ensures
            match self.step_any(p) {
                Some(q) => self.rests(q) && self.blocks_upto(q) == self.blocks_upto(p) + (if q.group is Some {
                    1int
                } else {
                    0int
                }),
                None => self.blocks_upto(p) == self.record_count,
            },
    {
        let streams = self.streams.nodes@;
        let n = streams.len() as int;
        assert(stream_linked_at(streams, n - 1));
        let next: int = match p.stream {
            None => 0,
            Some(s) => s + 1,
        };
        if next < n {
            assert(stream_linked_at(streams, next));
            let t = self.stream(next);
            if t.group_count() > 0 {
                assert(group_linked_at(t.groups.nodes@, 0));
            }
        }
        match p.stream {
            None => {},
            Some(s) => {
                assert(stream_linked_at(streams, s as int));
                let st = self.stream(s as int);
                let groups = st.groups.nodes@;
                let m = groups.len() as int;
                if m > 0 {
                    assert(group_linked_at(groups, m - 1));
                }
                match p.group {
                    None => {},
                    Some(g) => {
                        assert(group_linked_at(groups, g as int));
                        if g + 1 < m {
                            assert(group_linked_at(groups, g + 1));
                        }
                    },
                }
            },
        }
    }

    /// A walk from block to block counts the blocks one by one. In the
    /// mode `Block` an iterator that rests at `p` goes to the block whose
    /// number in the file is one more than the number of blocks up to
    /// `p`, whatever streams without blocks lie between; it finds no
    /// block more only when every block of the index has been counted.
    /// So a walk from the start visits the blocks 1, 2, 3, and so on up
    /// to the last, in the order in which they were appended.
    pub proof fn lemma_walk_counts(self, p: IterPos)
        requires
            self.wf(),
            self.rests(p),
        ensures
            match self.seek(p, LzmaIndexIterMode::Block) {
                Some(q) => self.is_block(q) && self.rests(q) && self.blocks_upto(q)
                    == self.blocks_upto(p) + 1,
                None => self.blocks_upto(p) == self.record_count,
            },
        decreases self.streams_left(p), self.groups_left(p), self.records_left(p),
    {
        self.lemma_step_counts(p);
        match self.step_any(p) {
            None => {},
            Some(q) => {
                if !self.accepts(q, LzmaIndexIterMode::Block) {
                    self.lemma_walk_counts(q);
                }
            },
        }
    }

    /// In the mode `Any` an iterator that rests at `p` goes one step:
    /// to the block with the next number, or to a stream without
    /// blocks.
    pub proof fn lemma_any_steps(self, p: IterPos)
        requires
            self.wf(),
            self.rests(p),
        ensures
            self.sought(p, LzmaIndexIterMode::Any) == self.step_any(p),
    {
    }
}

/// A record of a group stands in the records of the first `n` groups at
/// the group's number base and its own place.
proof fn lemma_record_stands(nodes: Seq<IndexNode>, n: nat, g: int, r: int)
    requires
        groups_linked(nodes),
        0 <= g < n <= nodes.len(),
        0 <= r <= group_of(nodes[g]).last,
    ensures
        group_of(nodes[g]).number_base + r < records_upto(nodes, n).len(),
        records_upto(nodes, n)[group_of(nodes[g]).number_base + r] == group_of(nodes[g]).records@[r],
    decreases n,
{
    crate::common::index::lemma_group_starts(nodes, n - 1);
    if g < n - 1 {
        lemma_record_stands(nodes, (n - 1) as nat, g, r);
    }
}

impl LzmaIndex {
    /// The place of the block at `p` in its stream's list of records.
    pub open spec fn record_of(self, p: IterPos) -> int {
        self.stream(p.stream->0 as int).group(p.group->0 as int).number_base + p.record
    }

    /// What an iterator tells of a block is what the stream's list of
    /// records holds of it. The block at `p` is the one whose record
    /// stands at `record_of(p)`: its numbers count from there, its sizes
    /// are what its record adds to the record before it, the unpadded
    /// sum of that one rounded up to a multiple of four, and it starts
    /// where that one ends.
    pub proof fn lemma_block_told(self, p: IterPos)
        requires
            self.wf(),
            self.is_block(p),
        ensures
            ({
                let st = self.stream(p.stream->0 as int);
                let recs = st.records();
                let j = self.record_of(p);
                let info = self.block_info(p);
                let before_padded = if j == 0 {
                    0int
                } else {
                    ceil4(recs[j - 1].unpadded_sum as int)
                };
                let before_uncompressed = if j == 0 {
                    0int
                } else {
                    recs[j - 1].uncompressed_sum as int
                };
                &&& 0 <= j < recs.len()
                &&& recs.len() == st.record_count
                &&& recs[j] == st.group(p.group->0 as int).records@[p.record as int]
                &&& info.number_in_stream == j + 1
                &&& info.number_in_file == st.block_number_base + j + 1
                &&& info.number_in_file == self.blocks_upto(p)
                &&& info.number_in_file <= self.record_count
                &&& info.uncompressed_size == recs[j].uncompressed_sum - before_uncompressed
                &&& info.unpadded_size == recs[j].unpadded_sum - before_padded
                &&& info.total_size == ceil4(info.unpadded_size as int)
                &&& info.uncompressed_stream_offset == before_uncompressed
                &&& info.uncompressed_file_offset == st.node.uncompressed_base + before_uncompressed
                &&& info.compressed_stream_offset == STREAM_HEADER_SIZE + before_padded
                &&& info.compressed_file_offset == st.node.compressed_base + STREAM_HEADER_SIZE
                    + before_padded
            }),
    {
        let s = p.stream->0 as int;
        let g = p.group->0 as int;
        let r = p.record as int;
        let st = self.stream(s);
        let groups = st.groups.nodes@;
        let m = groups.len();
        self.lemma_within(s, g);
        assert(stream_linked_at(self.streams.nodes@, s));
        assert(group_linked_at(groups, g));
        lemma_record_stands(groups, m, g, r);
        crate::common::index::lemma_records_rise(st, self.record_of(p), self.record_of(p));
        assert(st.group(g).record_follows(r));
        lemma_group_rises(st.group(g), 0, r);
        lemma_group_rises(st.group(g), r, st.group(g).last as int);
        lemma_vli_size_bounds(st.record_count);
        lemma_index_size_bounds(st.record_count, st.index_list_size);
        if r > 0 {
            lemma_group_rises(st.group(g), r - 1, st.group(g).last as int);
            assert(st.group(g).record_follows(r - 1));
            lemma_record_stands(groups, m, g, r - 1);
        } else if g > 0 {
            assert(group_linked_at(groups, g - 1));
            lemma_record_stands(groups, m, g - 1, st.group(g - 1).last as int);
        }
    }
}

/// The position `q` comes before the position `p`: in an earlier stream,
/// or in an earlier group of the same stream, or at an earlier record of
/// the same group. Both stand at a block.
pub open spec fn pos_before(q: IterPos, p: IterPos) -> bool {
    q.stream->0 < p.stream->0 || (q.stream->0 == p.stream->0 && (q.group->0 < p.group->0 || (
    q.group->0 == p.group->0 && q.record < p.record)))
}

impl LzmaIndex {
    /// The position stands at a block of this index.
    pub open spec fn is_block(self, p: IterPos) -> bool {
        self.holds(p) && p.stream is Some && p.group is Some
    }

    /// Uncompressed offset in the file at which the block at `p` ends.
    pub open spec fn block_end(self, p: IterPos) -> int {
        self.stream(p.stream->0 as int).node.uncompressed_base + self.block_stop(p)
    }

    /// Finds in the group `g` of the stream `s` the first record whose
    /// uncompressed sum is at least `t`, by halving; the last record of
    /// the group is one.
    fn locate_record(&self, s: usize, g: usize, t: LzmaVli) -> (r: usize)
        requires
            self.wf(),
            s < self.stream_count(),
            g < self.stream(s as int).group_count(),
            self.stream(s as int).group(g as int).end_uncompressed() >= t,
        ensures
            r <= self.stream(s as int).group(g as int).last,
            self.stream(s as int).group(g as int).records@[r as int].uncompressed_sum >= t,
            forall|k: int|
                0 <= k < r ==> (#[trigger] self.stream(s as int).group(
                    g as int,
                ).records@[k]).uncompressed_sum < t,
    {
        let gr = self.stream_ref(s).group_ref(g);
        let mut left: usize = 0;
        let mut right: usize = gr.last;
        while left < right
            invariant
                gr.wf(),
                left <= right <= gr.last,
                gr.records@[right as int].uncompressed_sum >= t,
                forall|k: int| 0 <= k < left ==> (#[trigger] gr.records@[k]).uncompressed_sum < t,
            decreases right - left,
        {
            let pos: usize = left + (right - left) / 2;
            if gr.records[pos].uncompressed_sum < t {
                proof {
                    assert forall|k: int| 0 <= k < pos + 1 implies (
                    #[trigger] gr.records@[k]).uncompressed_sum < t by {
                        lemma_group_rises(*gr, k, pos as int);
                    }
                }
                left = pos + 1;
            } else {
                right = pos;
            }
        }
        left
    }

    /// Finds the first stream that has a block, where there is a block
    /// at all; the streams before it start and end at zero.
    fn first_stream_with_blocks(&self) -> (s: usize)
        requires
            self.wf(),
            self.record_count > 0,
        ensures
            s < self.stream_count(),
            self.stream(s as int).group_count() > 0,
            self.stream(s as int).node.uncompressed_base == 0,
            forall|k: int| 0 <= k < s ==> (#[trigger] self.stream(k)).group_count() == 0,
    {
        let mut s: usize = 0;
        proof {
            assert(stream_linked_at(self.streams.nodes@, 0));
        }
        loop
            invariant
                self.wf(),
                self.record_count > 0,
                s < self.stream_count(),
                self.stream(s as int).block_number_base == 0,
                self.stream(s as int).node.uncompressed_base == 0,
                forall|k: int| 0 <= k < s ==> (#[trigger] self.stream(k)).group_count() == 0,
            decreases self.stream_count() - s,
        {
            let st = self.stream_ref(s);
            if st.groups.nodes.len() > 0 {
                return s;
            }
            proof {
                let n = self.stream_count() as int;
                assert(stream_linked_at(self.streams.nodes@, n - 1));
                if s + 1 < n {
                    assert(stream_linked_at(self.streams.nodes@, s + 1));
                }
            }
            s += 1;
        }
    }

    /// Finds the first block, in the order of the file, that ends at the
    /// uncompressed offset `target` or behind it: the streams and the
    /// groups are searched by where they start, the records of the group
    /// by halving. There is none where the index has no block or `target`
    /// lies behind the end of the file.
    #[verifier::rlimit(40)]
    pub fn locate(&self, target: LzmaVli) -> (found: Option<IterPos>)
        requires
            self.wf(),
        ensures
            found is None <==> (self.record_count == 0 || target > self.uncompressed_size),
            found is Some ==> {
                &&& self.is_block(found->0)
                &&& self.block_end(found->0) >= target
                &&& forall|q: IterPos|
                    self.is_block(q) && pos_before(q, found->0) ==> #[trigger] self.block_end(q)
                        < target
            },
    {
        if self.record_count == 0 || target > self.uncompressed_size {
            return None;
        }
        let ghost streams = self.streams.nodes@;
        let ghost n = streams.len() as int;
        proof {
            lemma_streams_sorted(streams);
            assert(stream_linked_at(streams, n - 1));
        }
        let hit: Option<usize> = self.streams.locate(target);
        let s: usize = match hit {
            Some(i) => i,
            None => self.first_stream_with_blocks(),
        };
        let st = self.stream_ref(s);
        proof {
            if hit is Some {
                if s + 1 < n {
                    assert(stream_linked_at(streams, s + 1));
                    assert(crate::common::index_tree::base_at(streams, s + 1) >= target);
                }
            } else {
                assert(stream_linked_at(streams, 0));
                assert(crate::common::index_tree::base_at(streams, 0) >= target);
            }
            assert(st.group_count() > 0);
        }
        let t: u64 = target - st.node.uncompressed_base;
        let ghost groups = st.groups.nodes@;
        let ghost m = groups.len() as int;
        proof {
            lemma_groups_sorted(groups);
            assert(group_linked_at(groups, m - 1));
            assert(group_linked_at(groups, 0));
            assert(st.uncompressed_size() >= t);
        }
        let ghit: Option<usize> = st.groups.locate(t);
        let g: usize = match ghit {
            Some(i) => i,
            None => 0,
        };
        proof {
            assert(group_linked_at(groups, g as int));
            if ghit is Some {
                if g + 1 < m {
                    assert(group_linked_at(groups, g + 1));
                    assert(crate::common::index_tree::base_at(groups, g + 1) >= t);
                }
            } else {
                assert(crate::common::index_tree::base_at(groups, 0) >= t);
                lemma_group_rises(group_of(groups[0]), 0, group_of(groups[0]).last as int);
            }
        }
        let r: usize = self.locate_record(s, g, t);
        let p = IterPos { stream: Some(s), group: Some(g), record: r };
        proof {
            assert forall|q: IterPos| self.is_block(q) && pos_before(q, p) implies #[trigger] self.block_end(
                q,
            ) < target by {
                let qs = q.stream->0 as int;
                let qg = q.group->0 as int;
                self.lemma_within(qs, qg);
                lemma_group_rises(self.stream(qs).group(qg), q.record as int, q.record as int);
                assert(self.block_stop(q) <= self.stream(qs).uncompressed_size());
                assert(stream_linked_at(streams, qs));
                assert(stream_linked_at(streams, s as int));
                if qs < s {
                    lemma_streams_rise(streams, qs, s as int);
                    if hit is None {
                        assert(self.stream(qs).group_count() == 0);
                    } else {
                        assert(crate::common::index_tree::base_at(streams, s as int) < target);
                        assert(self.block_end(q) <= crate::common::index_tree::base_at(
                            streams,
                            s as int,
                        ));
                    }
                } else if qg < g {
                    assert(qs == s);
                    lemma_groups_rise(groups, qg, g as int);
                    assert(ghit is Some);
                    assert(crate::common::index_tree::base_at(groups, g as int) < t);
                    assert(self.block_stop(q) <= crate::common::index_tree::base_at(
                        groups,
                        g as int,
                    ));
                } else {
                    assert(qs == s && qg == g);
                    assert(self.stream(s as int).group(g as int).records@[q.record as int].uncompressed_sum
                        < t);
                }
            }
        }
        Some(p)
    }
}

impl LzmaIndex {
    /// Uncompressed offset in the file at which the block at `p`
    /// begins.
    pub open spec fn block_begin(self, p: IterPos) -> int {
        self.stream(p.stream->0 as int).node.uncompressed_base + self.block_start(p)
    }

    /// The blocks lie in the file in the order of their positions: a
    /// block that comes before another ends where the other begins, or
    /// before that.
    pub proof fn lemma_blocks_in_order(self, p: IterPos, b: IterPos)
        requires
            self.wf(),
            self.is_block(p),
            self.is_block(b),
            pos_before(p, b),
        ensures
            self.block_end(p) <= self.block_begin(b),
            self.block_begin(p) <= self.block_end(p),
    {
        let ps = p.stream->0 as int;
        let pg = p.group->0 as int;
        let bs = b.stream->0 as int;
        let bg = b.group->0 as int;
        let streams = self.streams.nodes@;
        self.lemma_within(ps, pg);
        self.lemma_within(bs, bg);
        let gp = self.stream(ps).group(pg);
        let gb = self.stream(bs).group(bg);
        lemma_group_rises(gp, p.record as int, gp.last as int);
        lemma_group_rises(gb, 0, b.record as int);
        assert(gp.record_follows(p.record as int));
        if p.record > 0 {
            lemma_group_rises(gp, p.record - 1, p.record as int);
        }
        if b.record > 0 {
            lemma_group_rises(gb, 0, b.record - 1);
        }
        assert(self.block_stop(p) <= gp.end_uncompressed());
        assert(gb.node.uncompressed_base <= self.block_start(b));
        if ps < bs {
            lemma_streams_rise(streams, ps, bs);
            assert(stream_linked_at(streams, ps));
            assert(stream_linked_at(streams, bs));
            assert(self.block_end(p) <= crate::common::index_tree::base_at(streams, bs));
        } else if pg < bg {
            let groups = self.stream(ps).groups.nodes@;
            lemma_groups_rise(groups, pg, bg);
            assert(group_linked_at(groups, pg));
            assert(group_linked_at(groups, bg));
            assert(gp.end_uncompressed() <= crate::common::index_tree::base_at(groups, bg));
        } else {
            lemma_group_rises(gp, p.record as int, b.record - 1);
        }
    }

    /// An offset inside a block is located at that block. Where the
    /// block at `b` begins before the offset and ends at it or behind
    /// it, the one position that is the first block to end at the offset
    /// or behind it, which is what `locate` returns, is `b`.
    pub proof fn lemma_located_inside(self, b: IterPos, p: IterPos, target: LzmaVli)
        requires
            self.wf(),
            self.is_block(b),
            self.is_block(p),
            self.block_begin(b) < target <= self.block_end(b),
            self.block_end(p) >= target,
            forall|q: IterPos|
                self.is_block(q) && pos_before(q, p) ==> #[trigger] self.block_end(q) < target,
        ensures
            p == b,
    {
        if pos_before(p, b) {
            self.lemma_blocks_in_order(p, b);
        } else if pos_before(b, p) {
            assert(self.block_end(b) < target);
        }
    }
}

} // verus!
