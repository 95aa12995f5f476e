use vstd::prelude::*;
use crate::api::base::LzmaRet;
use crate::api::check::{check_id, LzmaCheck};
use crate::api::stream_flags::LzmaStreamFlags;
use crate::api::vli::{LzmaVli, LZMA_VLI_MAX, LZMA_VLI_UNKNOWN};
use crate::common::index_tree::{
    bases_sorted, base_at, contents_kept, link, same_content, IndexGroup, IndexNode, IndexRecord,
    IndexStream, IndexTree, IndexTreeNode, LzmaIndex,
};

verus! {

/// Number of records that a group is made for.
pub const INDEX_GROUP_SIZE: usize = 512;

/// Smallest unpadded size of a block.
pub const UNPADDED_SIZE_MIN: LzmaVli = 5;

/// Largest unpadded size of a block: the largest multiple of four that a
/// variable-length integer can hold.
pub const UNPADDED_SIZE_MAX: LzmaVli = 0x7FFF_FFFF_FFFF_FFFC;

/// Size of a stream header, and of a stream footer.
pub const STREAM_HEADER_SIZE: LzmaVli = 12;

/// Largest size of an index field that a stream footer can give.
pub const BACKWARD_SIZE_MAX: LzmaVli = 0x4_0000_0000;

/// `v` rounded up to a multiple of four.
pub open spec fn ceil4(v: int) -> int {
    (v + 3) / 4 * 4
}

/// Number of bytes that a variable-length integer takes: one for every
/// seven bits, and none for a value that is out of range.
pub open spec fn vli_size(v: u64) -> int
    decreases v,
{
    if v > LZMA_VLI_MAX {
        0
    } else if v < 128 {
        1
    } else {
        1 + vli_size(v / 128)
    }
}

/// Size of an index field with `count` records whose list takes
/// `list_size` bytes: the indicator byte, the number of records, the
/// list and the CRC32, padded to a multiple of four.
pub open spec fn index_size_of(count: u64, list_size: u64) -> int {
    ceil4(1 + vli_size(count) + list_size + 4)
}

/// Size of the file up to the end of a stream that starts at
/// `compressed_base`: the streams before it, its header and footer, its
/// blocks with their padding, its index and its stream padding.
pub open spec fn file_size_of(compressed_base: u64, unpadded_sum: u64, count: u64, list_size: u64, padding: u64) -> int {
    compressed_base + 2 * STREAM_HEADER_SIZE + padding + ceil4(unpadded_sum as int) + index_size_of(
        count,
        list_size,
    )
}

proof fn lemma_ceil4_bits(v: u64)
    by (bit_vector)
    ensures
        v & 0xFFFF_FFFF_FFFF_FFFCu64 == v / 4 * 4,
        v >> 7 == v / 128,
{
}

/// Rounds a size up to a multiple of four.
pub fn vli_ceil4(vli: LzmaVli) -> (r: LzmaVli)
    requires
        vli <= LZMA_VLI_MAX,
    ensures
        r == ceil4(vli as int),
        r % 4 == 0,
        vli <= r <= vli + 3,
{
    proof {
        lemma_ceil4_bits((vli + 3) as u64);
    }
    (vli + 3) & 0xFFFF_FFFF_FFFF_FFFC
}

/// The bounds on the size of a variable-length integer.
pub proof fn lemma_vli_size_bounds(v: u64)
    ensures
        v <= LZMA_VLI_MAX ==> 1 <= vli_size(v) <= 9,
        v > LZMA_VLI_MAX ==> vli_size(v) == 0,
{
    if v <= LZMA_VLI_MAX {
        reveal_with_fuel(vli_size, 10);
    }
}

/// Number of bytes that `vli` takes as a variable-length integer; zero
/// for a value that is out of range.
pub fn lzma_vli_size(vli: LzmaVli) -> (size: u32)
    ensures
        size == vli_size(vli),
        size <= 9,
{
    proof {
        lemma_vli_size_bounds(vli);
    }
    if vli > LZMA_VLI_MAX {
        return 0;
    }
    let mut v: u64 = vli;
    let mut i: u32 = 1;
    while v >= 128
        invariant
            v <= LZMA_VLI_MAX,
            1 <= i,
            i - 1 + vli_size(v) == vli_size(vli),
            vli_size(vli) <= 9,
        decreases v,
    {
        proof {
            lemma_ceil4_bits(v);
            lemma_vli_size_bounds(v / 128);
        }
        v >>= 7;
        i += 1;
    }
    i
}

/// Size of an index field with `count` records whose list takes
/// `index_list_size` bytes.
pub fn index_size(count: LzmaVli, index_list_size: LzmaVli) -> (size: LzmaVli)
    requires
        index_list_size <= LZMA_VLI_MAX - 20,
    ensures
        size == index_size_of(count, index_list_size),
        size % 4 == 0,
        index_list_size + 5 <= size <= index_list_size + 20,
{
    vli_ceil4(1 + (lzma_vli_size(count) as u64) + index_list_size + 4)
}

/// Size of the file up to the end of a stream, or `LZMA_VLI_UNKNOWN`
/// where that size is more than a variable-length integer can hold.
pub fn index_file_size(compressed_base: LzmaVli, unpadded_sum: LzmaVli, record_count: LzmaVli, index_list_size: LzmaVli, stream_padding: LzmaVli) -> (size:
    LzmaVli)
    requires
        compressed_base + stream_padding <= LZMA_VLI_MAX,
        unpadded_sum <= LZMA_VLI_MAX,
        index_list_size <= LZMA_VLI_MAX - 20,
    ensures
        size == (if file_size_of(
            compressed_base,
            unpadded_sum,
            record_count,
            index_list_size,
            stream_padding,
        ) <= LZMA_VLI_MAX {
            file_size_of(
                compressed_base,
                unpadded_sum,
                record_count,
                index_list_size,
                stream_padding,
            ) as u64
        } else {
            LZMA_VLI_UNKNOWN
        }),
{
    proof {
        lemma_vli_size_bounds(record_count);
    }
    let mut file_size: u64 = compressed_base + 2 * STREAM_HEADER_SIZE + stream_padding;
    if file_size > LZMA_VLI_MAX {
        return LZMA_VLI_UNKNOWN;
    }
    file_size += vli_ceil4(unpadded_sum);
    if file_size > LZMA_VLI_MAX {
        return LZMA_VLI_UNKNOWN;
    }
    file_size += index_size(record_count, index_list_size);
    if file_size > LZMA_VLI_MAX {
        return LZMA_VLI_UNKNOWN;
    }
    file_size
}

/// The record `rec` can come behind a record, or a start, at which the
/// uncompressed sum is `uncompressed_before` and the unpadded sum,
/// rounded up to a multiple of four, is `padded_before`: neither sum
/// falls, the block takes at least the smallest unpadded size, and both
/// sums stay in range.
pub open spec fn follows(rec: IndexRecord, uncompressed_before: u64, padded_before: int) -> bool {
    &&& uncompressed_before <= rec.uncompressed_sum <= LZMA_VLI_MAX
    &&& padded_before + UNPADDED_SIZE_MIN <= rec.unpadded_sum <= UNPADDED_SIZE_MAX
}

/// The record that comes behind sums of `uncompressed_before` and
/// `padded_before` for a block of the given sizes.
pub open spec fn next_record(uncompressed_before: u64, padded_before: int, unpadded_size: u64, uncompressed_size: u64) -> IndexRecord {
    IndexRecord {
        uncompressed_sum: (uncompressed_before + uncompressed_size) as u64,
        unpadded_sum: (padded_before + unpadded_size) as u64,
    }
}

/// The group that a node is, where it is one.
pub open spec fn group_of(n: IndexNode) -> IndexGroup {
    n->Group_0
}

/// The stream that a node is, where it is one.
pub open spec fn stream_of(n: IndexNode) -> IndexStream {
    n->Stream_0
}

impl IndexGroup {
    /// The group holds the records 0 to `last`, no more than it was made
    /// for, it starts at a multiple of four, and every record follows
    /// the one before it, the first the group's start.
    pub open spec fn wf(self) -> bool {
        &&& self.records@.len() == self.last + 1
        &&& self.last < self.allocated
        &&& self.node.compressed_base % 4 == 0
        &&& forall|r: int| 0 <= r <= self.last ==> #[trigger] self.record_follows(r)
    }

    /// The record `r` follows the record before it, or the start of the
    /// group where it is the first.
    pub open spec fn record_follows(self, r: int) -> bool {
        if r == 0 {
            follows(self.records@[0], self.node.uncompressed_base, self.node.compressed_base as int)
        } else {
            follows(
                self.records@[r],
                self.records@[r - 1].uncompressed_sum,
                ceil4(self.records@[r - 1].unpadded_sum as int),
            )
        }
    }

    /// Uncompressed sum at the end of the group.
    pub open spec fn end_uncompressed(self) -> u64 {
        self.records@[self.last as int].uncompressed_sum
    }

    /// Unpadded sum at the end of the group, rounded up to a multiple of
    /// four.
    pub open spec fn end_padded(self) -> int {
        ceil4(self.records@[self.last as int].unpadded_sum as int)
    }
}

/// The node `k` is a well-formed group that starts, in block number and
/// in both sums, where the group before it ends, or at zero where it is
/// the first.
pub open spec fn group_linked_at(nodes: Seq<IndexNode>, k: int) -> bool {
    &&& nodes[k] is Group
    &&& group_of(nodes[k]).wf()
    &&& k == 0 ==> {
        &&& group_of(nodes[k]).number_base == 0
        &&& group_of(nodes[k]).node.uncompressed_base == 0
        &&& group_of(nodes[k]).node.compressed_base == 0
    }
    &&& k > 0 ==> {
        &&& nodes[k - 1] is Group
        &&& group_of(nodes[k]).number_base == group_of(nodes[k - 1]).number_base + group_of(
            nodes[k - 1],
        ).last + 1
        &&& group_of(nodes[k]).node.uncompressed_base == group_of(nodes[k - 1]).end_uncompressed()
        &&& group_of(nodes[k]).node.compressed_base == group_of(nodes[k - 1]).end_padded()
    }
}

/// The nodes are groups that follow each other.
pub open spec fn groups_linked(nodes: Seq<IndexNode>) -> bool {
    forall|k: int| 0 <= k < nodes.len() ==> #[trigger] group_linked_at(nodes, k)
}

/// The records of the first `n` groups, one group after the other.
pub open spec fn records_upto(nodes: Seq<IndexNode>, n: nat) -> Seq<IndexRecord>
    decreases n,
{
    if n == 0 {
        Seq::empty()
    } else {
        records_upto(nodes, (n - 1) as nat) + group_of(nodes[n - 1]).records@
    }
}

impl IndexStream {
    /// The records of the stream, in the order of its blocks.
    pub open spec fn records(self) -> Seq<IndexRecord> {
        records_upto(self.groups.nodes@, self.groups.nodes@.len())
    }

    /// The last group of the stream; the stream must have one.
    pub open spec fn last_group(self) -> IndexGroup {
        group_of(self.groups.nodes@.last())
    }

    /// Uncompressed size of the stream: the uncompressed sum of its last
    /// record.
    pub open spec fn uncompressed_size(self) -> u64 {
        if self.groups.nodes@.len() == 0 {
            0
        } else {
            self.last_group().end_uncompressed()
        }
    }

    /// Unpadded sum of the stream's last record.
    pub open spec fn unpadded_sum(self) -> u64 {
        if self.groups.nodes@.len() == 0 {
            0
        } else {
            self.last_group().records@[self.last_group().last as int].unpadded_sum
        }
    }

    /// Total size of the stream's blocks, each with its padding.
    pub open spec fn blocks_size(self) -> int {
        ceil4(self.unpadded_sum() as int)
    }

    /// Size of the file up to the end of this stream.
    pub open spec fn file_size(self) -> int {
        file_size_of(
            self.node.compressed_base,
            self.unpadded_sum(),
            self.record_count,
            self.index_list_size,
            self.stream_padding,
        )
    }

    /// The groups are a well-formed tree of groups that follow each
    /// other, `record_count` counts their records, every record takes at
    /// least two bytes of the list, the padding is a multiple of four,
    /// and the file up to the end of the stream fits the format.
    pub open spec fn wf(self) -> bool {
        &&& self.groups.wf()
        &&& groups_linked(self.groups.nodes@)
        &&& self.record_count == (if self.groups.nodes@.len() == 0 {
            0
        } else {
            self.last_group().number_base + self.last_group().last + 1
        })
        &&& 2 * self.record_count <= self.index_list_size <= BACKWARD_SIZE_MAX
        &&& self.stream_padding % 4 == 0
        &&& self.node.compressed_base % 4 == 0
        &&& self.file_size() <= LZMA_VLI_MAX
        &&& self.number >= 1
    }
}

/// The node `k` is a well-formed stream, the `k + 1`-th, that starts, in
/// block number, in uncompressed offset and in the file, where the
/// stream before it ends, or at zero where it is the first.
pub open spec fn stream_linked_at(nodes: Seq<IndexNode>, k: int) -> bool {
    &&& nodes[k] is Stream
    &&& stream_of(nodes[k]).wf()
    &&& stream_of(nodes[k]).number == k + 1
    &&& k == 0 ==> {
        &&& stream_of(nodes[k]).block_number_base == 0
        &&& stream_of(nodes[k]).node.uncompressed_base == 0
        &&& stream_of(nodes[k]).node.compressed_base == 0
    }
    &&& k > 0 ==> {
        &&& nodes[k - 1] is Stream
        &&& stream_of(nodes[k]).block_number_base == stream_of(nodes[k - 1]).block_number_base
            + stream_of(nodes[k - 1]).record_count
        &&& stream_of(nodes[k]).node.uncompressed_base == stream_of(
            nodes[k - 1],
        ).node.uncompressed_base + stream_of(nodes[k - 1]).uncompressed_size()
        &&& stream_of(nodes[k]).node.compressed_base == stream_of(nodes[k - 1]).file_size()
    }
}

/// The nodes are streams that follow each other.
pub open spec fn streams_linked(nodes: Seq<IndexNode>) -> bool {
    forall|k: int| 0 <= k < nodes.len() ==> #[trigger] stream_linked_at(nodes, k)
}

/// Total size of the blocks of the first `n` streams.
pub open spec fn blocks_size_upto(nodes: Seq<IndexNode>, n: nat) -> int
    decreases n,
{
    if n == 0 {
        0
    } else {
        blocks_size_upto(nodes, (n - 1) as nat) + stream_of(nodes[n - 1]).blocks_size()
    }
}

/// Number of records of the first `n` streams.
pub open spec fn record_count_upto(nodes: Seq<IndexNode>, n: nat) -> int
    decreases n,
{
    if n == 0 {
        0
    } else {
        record_count_upto(nodes, (n - 1) as nat) + stream_of(nodes[n - 1]).record_count
    }
}

/// Uncompressed size of the first `n` streams.
pub open spec fn uncompressed_size_upto(nodes: Seq<IndexNode>, n: nat) -> int
    decreases n,
{
    if n == 0 {
        0
    } else {
        uncompressed_size_upto(nodes, (n - 1) as nat) + stream_of(nodes[n - 1]).uncompressed_size()
    }
}

/// Size of the lists of records of the first `n` streams.
pub open spec fn list_size_upto(nodes: Seq<IndexNode>, n: nat) -> int
    decreases n,
{
    if n == 0 {
        0
    } else {
        list_size_upto(nodes, (n - 1) as nat) + stream_of(nodes[n - 1]).index_list_size
    }
}

impl LzmaIndex {
    /// Number of streams.
    pub open spec fn stream_count(self) -> nat {
        self.streams.nodes@.len()
    }

    /// The stream `k`.
    pub open spec fn stream(self, k: int) -> IndexStream {
        stream_of(self.streams.nodes@[k])
    }

    /// The last stream: blocks are appended to it.
    pub open spec fn last_stream(self) -> IndexStream {
        stream_of(self.streams.nodes@.last())
    }

    /// The index has at least one stream, its streams are a well-formed
    /// tree of streams that follow each other, and each total is the sum
    /// over the streams: the uncompressed size, the total size of the
    /// blocks, the number of records and the size of their list. The
    /// index field of all records together fits what a stream footer
    /// can give.
    pub open spec fn wf(self) -> bool {
        &&& self.streams.wf()
        &&& self.streams.nodes@.len() >= 1
        &&& streams_linked(self.streams.nodes@)
        &&& self.uncompressed_size == uncompressed_size_upto(
            self.streams.nodes@,
            self.streams.nodes@.len(),
        )
        &&& self.total_size == blocks_size_upto(self.streams.nodes@, self.streams.nodes@.len())
        &&& self.record_count == record_count_upto(self.streams.nodes@, self.streams.nodes@.len())
        &&& self.index_list_size == list_size_upto(self.streams.nodes@, self.streams.nodes@.len())
        &&& self.uncompressed_size == self.last_stream().node.uncompressed_base
            + self.last_stream().uncompressed_size()
        &&& self.record_count == self.last_stream().block_number_base
            + self.last_stream().record_count
        &&& self.total_size <= self.last_stream().node.compressed_base
            + self.last_stream().blocks_size()
        &&& self.last_stream().index_list_size <= self.index_list_size
        &&& self.uncompressed_size <= LZMA_VLI_MAX
        &&& 2 * self.record_count <= self.index_list_size
        &&& index_size_of(self.record_count, self.index_list_size) <= BACKWARD_SIZE_MAX
        &&& 1 <= self.prealloc
    }
}

/// The records of the groups are those of their contents alone: where
/// two vectors of nodes hold the same in their first `n` places, the
/// records are the same.
pub proof fn lemma_records_frame(a: Seq<IndexNode>, b: Seq<IndexNode>, n: nat)
    requires
        n <= a.len(),
        n <= b.len(),
        groups_linked(a),
        forall|k: int| 0 <= k < n ==> same_content(#[trigger] b[k], a[k]),
    ensures
        records_upto(b, n) == records_upto(a, n),
    decreases n,
{
    if n > 0 {
        lemma_records_frame(a, b, (n - 1) as nat);
        assert(same_content(b[n - 1], a[n - 1]));
        assert(group_linked_at(a, n - 1));
        assert(group_of(b[n - 1]).records == group_of(a[n - 1]).records);
    }
}

/// A group that follows the one before it still does so when the links
/// of the two change.
pub proof fn lemma_group_linked_frame(a: Seq<IndexNode>, b: Seq<IndexNode>, k: int)
    requires
        0 <= k < a.len(),
        a.len() <= b.len(),
        group_linked_at(a, k),
        same_content(b[k], a[k]),
        k > 0 ==> same_content(b[k - 1], a[k - 1]),
    ensures
        group_linked_at(b, k),
{
    let ga = group_of(a[k]);
    let gb = group_of(b[k]);
    assert(gb.records == ga.records);
    assert forall|r: int| 0 <= r <= gb.last implies #[trigger] gb.record_follows(r) by {
        assert(ga.record_follows(r));
    }
}

/// The number of records before a group is that of the records of the
/// groups before it, and the records of the group stand behind them.
pub proof fn lemma_group_starts(nodes: Seq<IndexNode>, k: int)
    requires
        groups_linked(nodes),
        0 <= k < nodes.len(),
    ensures
        records_upto(nodes, k as nat).len() == group_of(nodes[k]).number_base,
        records_upto(nodes, (k + 1) as nat) == records_upto(nodes, k as nat) + group_of(
            nodes[k],
        ).records@,
        group_of(nodes[k]).records@.len() == group_of(nodes[k]).last + 1,
    decreases k,
{
    assert(group_linked_at(nodes, k));
    if k > 0 {
        lemma_group_starts(nodes, k - 1);
        assert(group_linked_at(nodes, k - 1));
    }
}

/// How a group holds its records: the number of blocks before it, the
/// number of records that it was made for, and the place of its last
/// record.
pub struct GroupShape {
    pub number_base: LzmaVli,
    pub allocated: usize,
    pub last: usize,
}

/// The shape of the group that a node is.
pub open spec fn shape_of(n: IndexNode) -> GroupShape {
    GroupShape {
        number_base: group_of(n).number_base,
        allocated: group_of(n).allocated,
        last: group_of(n).last,
    }
}

/// The groups after one record more: the last group takes it where it
/// was made for more records than it holds; else a new group comes
/// behind it, made for `prealloc` records, that holds the one record
/// and has the `record_count` records so far before it.
pub open spec fn grown(layout: Seq<GroupShape>, record_count: LzmaVli, prealloc: usize) -> Seq<
    GroupShape,
> {
    if layout.len() > 0 && layout.last().last + 1 < layout.last().allocated {
        layout.update(
            layout.len() - 1,
            GroupShape { last: (layout.last().last + 1) as usize, ..layout.last() },
        )
    } else {
        layout.push(GroupShape { number_base: record_count, allocated: prealloc, last: 0 })
    }
}

/// The shapes of the groups that the nodes are, group by group.
pub open spec fn layout_of(nodes: Seq<IndexNode>) -> Seq<GroupShape> {
    Seq::new(nodes.len(), |k: int| shape_of(nodes[k]))
}

/// A record more in the last group, which has room: the groups grow as
/// `grown` says.
proof fn lemma_layout_filled(before: Seq<IndexNode>, after: Seq<IndexNode>, record_count: LzmaVli, prealloc: usize)
    requires
        before.len() > 0,
        after.len() == before.len(),
        group_of(before.last()).last + 1 < group_of(before.last()).allocated,
        forall|k: int| 0 <= k < before.len() - 1 ==> shape_of(#[trigger] after[k]) == shape_of(before[k]),
        shape_of(after.last()) == (GroupShape {
            last: (group_of(before.last()).last + 1) as usize,
            ..shape_of(before.last())
        }),
    ensures
        layout_of(after) == grown(layout_of(before), record_count, prealloc),
{
    assert(layout_of(before).last() == shape_of(before.last()));
    assert(layout_of(after) =~= grown(layout_of(before), record_count, prealloc));
}

/// A new group behind the groups, none of which has room: the groups
/// grow as `grown` says.
proof fn lemma_layout_pushed(before: Seq<IndexNode>, after: Seq<IndexNode>, record_count: LzmaVli, prealloc: usize)
    requires
        after.len() == before.len() + 1,
        !(before.len() > 0 && group_of(before.last()).last + 1 < group_of(before.last()).allocated),
        forall|k: int| 0 <= k < before.len() ==> shape_of(#[trigger] after[k]) == shape_of(before[k]),
        shape_of(after.last()) == (GroupShape { number_base: record_count, allocated: prealloc, last: 0 }),
    ensures
        layout_of(after) == grown(layout_of(before), record_count, prealloc),
{
    if before.len() > 0 {
        assert(layout_of(before).last() == shape_of(before.last()));
    }
    assert(layout_of(after) =~= grown(layout_of(before), record_count, prealloc));
}

impl IndexStream {
    /// The stream is `before` but for its links in the tree of streams:
    /// it holds the same groups and numbers and starts at the same
    /// offsets.
    pub open spec fn moved_from(self, before: IndexStream) -> bool {
        &&& self == (IndexStream { node: self.node, ..before })
        &&& self.node.uncompressed_base == before.node.uncompressed_base
        &&& self.node.compressed_base == before.node.compressed_base
    }

    /// How the records of the stream are laid out in groups, group by
    /// group.
    pub open spec fn layout(self) -> Seq<GroupShape> {
        layout_of(self.groups.nodes@)
    }

    /// Whether the last group has room for one record more.
    pub open spec fn has_room(self) -> bool {
        self.groups.nodes@.len() > 0 && self.last_group().last + 1 < self.last_group().allocated
    }

    /// Everything but the groups and the two counts is as in `before`.
    pub open spec fn same_place(self, before: IndexStream) -> bool {
        &&& self.node == before.node
        &&& self.number == before.number
        &&& self.block_number_base == before.block_number_base
        &&& self.stream_flags == before.stream_flags
        &&& self.stream_padding == before.stream_padding
    }

    /// A stream without blocks, the `number`-th of its index, that
    /// starts at the given offsets behind `block_number_base` blocks.
    /// Its flags are not known yet.
    pub fn new(compressed_base: LzmaVli, uncompressed_base: LzmaVli, number: u32, block_number_base: LzmaVli) -> (s:
        IndexStream)
        requires
            number >= 1,
            compressed_base % 4 == 0,
            compressed_base + 2 * STREAM_HEADER_SIZE + 8 <= LZMA_VLI_MAX,
        ensures
            s.wf(),
            s.groups.nodes@.len() == 0,
            s.record_count == 0,
            s.index_list_size == 0,
            s.stream_padding == 0,
            s.number == number,
            s.block_number_base == block_number_base,
            s.node.compressed_base == compressed_base,
            s.node.uncompressed_base == uncompressed_base,
            s.stream_flags == LzmaStreamFlags::plain(u32::MAX, LzmaCheck::CheckNone),
            s.records() == Seq::<IndexRecord>::empty(),
    {
        proof {
            lemma_vli_size_bounds(0);
        }
        IndexStream {
            node: IndexTreeNode {
                uncompressed_base,
                compressed_base,
                parent: None,
                left: None,
                right: None,
                height: 1,
            },
            number,
            block_number_base,
            groups: IndexTree::new(),
            record_count: 0,
            index_list_size: 0,
            stream_flags: LzmaStreamFlags::unknown(),
            stream_padding: 0,
        }
    }

    /// The sums at the end of the stream, and whether its last group has
    /// room.
    pub fn tail(&self) -> (t: (LzmaVli, LzmaVli, bool))
        requires
            self.wf(),
        ensures
            t.0 == self.uncompressed_size(),
            t.1 == self.blocks_size(),
            t.2 == self.has_room(),
            t.0 <= LZMA_VLI_MAX,
            t.1 <= UNPADDED_SIZE_MAX,
            t.1 % 4 == 0,
    {
        match self.groups.rightmost {
            None => (0, 0, false),
            Some(gi) => {
                assert(group_linked_at(self.groups.nodes@, gi as int));
                match &self.groups.nodes[gi] {
                    IndexNode::Group(g) => {
                        assert(g.record_follows(g.last as int));
                        (
                            g.records[g.last].uncompressed_sum,
                            vli_ceil4(g.records[g.last].unpadded_sum),
                            g.last + 1 < g.allocated,
                        )
                    },
                    IndexNode::Stream(_) => (0, 0, false),
                }
            },
        }
    }
}

/// Adds a record to a group that has room.
fn group_push(g: &mut IndexGroup, rec: IndexRecord)
    requires
        old(g).wf(),
        old(g).last + 1 < old(g).allocated,
        follows(rec, old(g).end_uncompressed(), old(g).end_padded()),
    ensures
        final(g).wf(),
        final(g).records@ == old(g).records@.push(rec),
        final(g).last == old(g).last + 1,
        final(g).node == old(g).node,
        final(g).number_base == old(g).number_base,
        final(g).allocated == old(g).allocated,
{
    g.last += 1;
    g.records.push(rec);
    proof {
        assert forall|r: int| 0 <= r <= g.last implies #[trigger] g.record_follows(r) by {
            if r < g.last {
                assert(old(g).record_follows(r));
            }
        }
    }
}

impl IndexStream {
    /// Adds the record of a block of the given sizes, whose entry in the
    /// list of records takes `list_add` bytes: to the last group where
    /// that has room, else to a new group made for `prealloc` records.
    #[verifier::rlimit(40)]
    pub fn push_record(&mut self, unpadded_size: LzmaVli, uncompressed_size: LzmaVli, list_add: u64, prealloc: usize)
        requires
            old(self).wf(),
            UNPADDED_SIZE_MIN <= unpadded_size <= UNPADDED_SIZE_MAX,
            old(self).uncompressed_size() + uncompressed_size <= LZMA_VLI_MAX,
            old(self).blocks_size() + unpadded_size <= UNPADDED_SIZE_MAX,
            2 <= list_add,
            old(self).index_list_size + list_add <= BACKWARD_SIZE_MAX,
            file_size_of(
                old(self).node.compressed_base,
                (old(self).blocks_size() + unpadded_size) as u64,
                (old(self).record_count + 1) as u64,
                (old(self).index_list_size + list_add) as u64,
                old(self).stream_padding,
            ) <= LZMA_VLI_MAX,
            prealloc >= 1,
            old(self).has_room() || old(self).groups.count < u32::MAX,
        ensures
            final(self).wf(),
            final(self).same_place(*old(self)),
            final(self).records() == old(self).records().push(
                next_record(
                    old(self).uncompressed_size(),
                    old(self).blocks_size(),
                    unpadded_size,
                    uncompressed_size,
                ),
            ),
            final(self).record_count == old(self).record_count + 1,
            final(self).index_list_size == old(self).index_list_size + list_add,
            final(self).uncompressed_size() == old(self).uncompressed_size() + uncompressed_size,
            final(self).unpadded_sum() == old(self).blocks_size() + unpadded_size,
            final(self).blocks_size() == old(self).blocks_size() + ceil4(unpadded_size as int),
            final(self).groups.nodes@.len() == old(self).groups.nodes@.len() + (if old(
                self,
            ).has_room() {
                0int
            } else {
                1int
            }),
            final(self).layout() == grown(old(self).layout(), old(self).record_count, prealloc),
    {
        let t = self.tail();
        let ghost count0 = self.record_count;
        let rec = IndexRecord {
            uncompressed_sum: t.0 + uncompressed_size,
            unpadded_sum: t.1 + unpadded_size,
        };
        let ghost before = self.groups.nodes@;
        let ghost n = before.len();
        if t.2 {
            let gi: usize = self.groups.nodes.len() - 1;
            proof {
                assert(group_linked_at(before, gi as int));
                lemma_group_starts(before, gi as int);
            }
            match &mut self.groups.nodes[gi] {
                IndexNode::Group(g) => {
                    group_push(g, rec);
                },
                IndexNode::Stream(_) => {},
            }
            proof {
                let after = self.groups.nodes@;
                assert forall|k: int| 0 <= k < n implies link(#[trigger] after[k]) == link(
                    before[k],
                ) by {}
                crate::common::index_tree::lemma_subtree_frame(
                    before,
                    after,
                    self.groups.root,
                    None,
                    0,
                    n as int,
                );
                assert forall|k: int| 0 <= k < after.len() implies #[trigger] group_linked_at(
                    after,
                    k,
                ) by {
                    assert(group_linked_at(before, k));
                }
                lemma_records_frame(before, after, gi as nat);
                assert(records_upto(after, n) =~= records_upto(before, n).push(rec));
                lemma_layout_filled(before, after, count0, prealloc);
            }
        } else {
            let g = IndexGroup {
                node: IndexTreeNode {
                    uncompressed_base: t.0,
                    compressed_base: t.1,
                    parent: None,
                    left: None,
                    right: None,
                    height: 1,
                },
                number_base: self.record_count,
                allocated: prealloc,
                last: 0,
                records: vec![rec],
            };
            let ghost fresh = IndexNode::Group(g);
            proof {
                assert(g.record_follows(0));
                assert(g.wf());
                if n > 0 {
                    assert(group_linked_at(before, n - 1));
                }
            }
            self.groups.append(IndexNode::Group(g));
            proof {
                let after = self.groups.nodes@;
                assert(same_content(after[n as int], fresh));
                assert forall|k: int| 0 <= k < n implies same_content(
                    #[trigger] after[k],
                    before[k],
                ) by {
                    assert(after[k] == after.drop_last()[k]);
                }
                let ext = before.push(fresh);
                assert(group_linked_at(ext, n as int));
                assert forall|k: int| 0 <= k < after.len() implies #[trigger] group_linked_at(
                    after,
                    k,
                ) by {
                    if k < n {
                        assert(group_linked_at(before, k));
                        assert(ext[k] == before[k]);
                        if k > 0 {
                            assert(ext[k - 1] == before[k - 1]);
                        }
                        assert(group_linked_at(ext, k));
                    }
                    assert(same_content(after[k], ext[k]));
                    if k > 0 {
                        assert(same_content(after[k - 1], ext[k - 1]));
                    }
                    lemma_group_linked_frame(ext, after, k);
                }
                lemma_records_frame(before, after, n);
                assert(group_of(after[n as int]).records == g.records);
                assert(records_upto(after, n + 1) =~= records_upto(before, n).push(rec));
                assert forall|k: int| 0 <= k < n implies shape_of(#[trigger] after[k])
                    == shape_of(before[k]) by {
                    assert(same_content(after[k], before[k]));
                    assert(group_linked_at(before, k));
                }
                lemma_layout_pushed(before, after, count0, prealloc);
            }
        }
        self.record_count += 1;
        self.index_list_size += list_add;
    }
}

/// The size of an index field is that of its list and from 5 to 20
/// bytes more.
pub proof fn lemma_index_size_bounds(count: u64, list_size: u64)
    ensures
        list_size + 5 <= index_size_of(count, list_size) <= list_size + 20,
        index_size_of(count, list_size) % 4 == 0,
{
    lemma_vli_size_bounds(count);
}

/// The sums over streams are those of their contents alone: where two
/// vectors of streams hold the same in their first `n` places, the sums
/// are the same.
pub proof fn lemma_sums_frame(a: Seq<IndexNode>, b: Seq<IndexNode>, n: nat)
    requires
        n <= a.len(),
        n <= b.len(),
        streams_linked(a),
        forall|k: int| 0 <= k < n ==> same_content(#[trigger] b[k], a[k]),
    ensures
        blocks_size_upto(b, n) == blocks_size_upto(a, n),
        record_count_upto(b, n) == record_count_upto(a, n),
        uncompressed_size_upto(b, n) == uncompressed_size_upto(a, n),
        list_size_upto(b, n) == list_size_upto(a, n),
    decreases n,
{
    if n > 0 {
        lemma_sums_frame(a, b, (n - 1) as nat);
        assert(same_content(b[n - 1], a[n - 1]));
        assert(stream_linked_at(a, n - 1));
        assert(stream_of(b[n - 1]).groups == stream_of(a[n - 1]).groups);
    }
}

/// A stream that follows the one before it still does so when the links
/// of the two change.
pub proof fn lemma_stream_linked_frame(a: Seq<IndexNode>, b: Seq<IndexNode>, k: int)
    requires
        0 <= k < a.len(),
        a.len() <= b.len(),
        stream_linked_at(a, k),
        k > 0 ==> stream_linked_at(a, k - 1),
        same_content(b[k], a[k]),
        k > 0 ==> same_content(b[k - 1], a[k - 1]),
    ensures
        stream_linked_at(b, k),
{
    assert(stream_of(b[k]).groups == stream_of(a[k]).groups);
    if k > 0 {
        assert(stream_of(b[k - 1]).groups == stream_of(a[k - 1]).groups);
    }
}

impl LzmaIndex {
    /// What appending a block of the given sizes comes to. Sizes out of
    /// range are the caller's error. The data are in error where the
    /// uncompressed size of the file, the unpadded sum of the stream, the
    /// size of the file up to the end of the stream, or the size of the
    /// index field would pass its limit. Memory is short where a new
    /// group is needed and the stream can hold no more groups.
    pub open spec fn append_verdict(self, unpadded_size: u64, uncompressed_size: u64) -> LzmaRet {
        let s = self.last_stream();
        let add = vli_size(unpadded_size) + vli_size(uncompressed_size);
        if unpadded_size < UNPADDED_SIZE_MIN || unpadded_size > UNPADDED_SIZE_MAX
            || uncompressed_size > LZMA_VLI_MAX {
            LzmaRet::ProgError
        } else if self.uncompressed_size + uncompressed_size > LZMA_VLI_MAX {
            LzmaRet::DataError
        } else if s.blocks_size() + unpadded_size > UNPADDED_SIZE_MAX {
            LzmaRet::DataError
        } else if file_size_of(
            s.node.compressed_base,
            (s.blocks_size() + unpadded_size) as u64,
            (s.record_count + 1) as u64,
            (s.index_list_size + add) as u64,
            s.stream_padding,
        ) > LZMA_VLI_MAX {
            LzmaRet::DataError
        } else if index_size_of(
            (self.record_count + 1) as u64,
            (self.index_list_size + add) as u64,
        ) > BACKWARD_SIZE_MAX {
            LzmaRet::DataError
        } else if !s.has_room() && s.groups.count == u32::MAX {
            LzmaRet::MemError
        } else {
            LzmaRet::LzmaOk
        }
    }

    /// An index of one stream without blocks.
    pub fn new() -> (index: LzmaIndex)
        ensures
            index.wf(),
            index.stream_count() == 1,
            index.last_stream().records() == Seq::<IndexRecord>::empty(),
            index.last_stream().layout() == Seq::<GroupShape>::empty(),
            index.last_stream().number == 1,
            index.last_stream().block_number_base == 0,
            index.last_stream().node.compressed_base == 0,
            index.last_stream().node.uncompressed_base == 0,
            index.last_stream().record_count == 0,
            index.last_stream().index_list_size == 0,
            index.last_stream().stream_padding == 0,
            index.last_stream().stream_flags == LzmaStreamFlags::plain(
                u32::MAX,
                LzmaCheck::CheckNone,
            ),
            index.uncompressed_size == 0,
            index.total_size == 0,
            index.record_count == 0,
            index.index_list_size == 0,
            index.prealloc == INDEX_GROUP_SIZE,
            index.checks == 0,
    {
        let s = IndexStream::new(0, 0, 1, 0);
        let ghost fresh = IndexNode::Stream(s);
        let mut streams = IndexTree::new();
        streams.append(IndexNode::Stream(s));
        let index = LzmaIndex {
            streams,
            uncompressed_size: 0,
            total_size: 0,
            record_count: 0,
            index_list_size: 0,
            prealloc: INDEX_GROUP_SIZE,
            checks: 0,
        };
        proof {
            let nodes = index.streams.nodes@;
            assert(same_content(nodes[0], fresh));
            assert(stream_of(nodes[0]).groups == s.groups);
            assert(stream_linked_at(nodes, 0));
            lemma_vli_size_bounds(0);
            reveal_with_fuel(blocks_size_upto, 2);
            reveal_with_fuel(record_count_upto, 2);
            reveal_with_fuel(uncompressed_size_upto, 2);
            reveal_with_fuel(list_size_upto, 2);
            assert(index.last_stream().layout() =~= Seq::<GroupShape>::empty());
        }
        index
    }

    /// Appends the record of a block to the last stream. The index
    /// changes only where the block is taken.
    pub fn append(&mut self, unpadded_size: LzmaVli, uncompressed_size: LzmaVli) -> (ret: LzmaRet)
        requires
            old(self).wf(),
        ensures
            ret == old(self).append_verdict(unpadded_size, uncompressed_size),
            ret != LzmaRet::LzmaOk ==> *final(self) == *old(self),
            final(self).wf(),
            final(self).stream_count() == old(self).stream_count(),
            forall|k: int|
                0 <= k < old(self).stream_count() - 1 ==> final(self).streams.nodes@[k] == old(
                    self,
                ).streams.nodes@[k],
            ret == LzmaRet::LzmaOk ==> {
                &&& final(self).last_stream().same_place(old(self).last_stream())
                &&& final(self).last_stream().records() == old(self).last_stream().records().push(
                    next_record(
                        old(self).last_stream().uncompressed_size(),
                        old(self).last_stream().blocks_size(),
                        unpadded_size,
                        uncompressed_size,
                    ),
                )
                &&& final(self).uncompressed_size == old(self).uncompressed_size
                    + uncompressed_size
                &&& final(self).total_size == old(self).total_size + ceil4(unpadded_size as int)
                &&& final(self).record_count == old(self).record_count + 1
                &&& final(self).index_list_size == old(self).index_list_size + vli_size(
                    unpadded_size,
                ) + vli_size(uncompressed_size)
                &&& final(self).checks == old(self).checks
                &&& final(self).prealloc == (if old(self).last_stream().has_room() {
                    old(self).prealloc
                } else {
                    INDEX_GROUP_SIZE
                })
                &&& final(self).last_stream().layout() == grown(
                    old(self).last_stream().layout(),
                    old(self).last_stream().record_count,
                    old(self).prealloc,
                )
                &&& final(self).last_stream().record_count == old(self).last_stream().record_count
                    + 1
                &&& final(self).last_stream().index_list_size == old(
                    self,
                ).last_stream().index_list_size + vli_size(unpadded_size) + vli_size(
                    uncompressed_size,
                )
                &&& final(self).last_stream().uncompressed_size() == old(
                    self,
                ).last_stream().uncompressed_size() + uncompressed_size
                &&& final(self).last_stream().unpadded_sum() == old(self).last_stream().blocks_size()
                    + unpadded_size
            },
    {
        if unpadded_size < UNPADDED_SIZE_MIN || unpadded_size > UNPADDED_SIZE_MAX
            || uncompressed_size > LZMA_VLI_MAX {
            return LzmaRet::ProgError;
        }
        let ghost before = self.streams.nodes@;
        let ghost n = before.len();
        let si: usize = self.streams.nodes.len() - 1;
        proof {
            assert(stream_linked_at(before, si as int));
            lemma_vli_size_bounds(unpadded_size);
            lemma_vli_size_bounds(uncompressed_size);
            lemma_index_size_bounds(self.record_count, self.index_list_size);
        }
        let add: u64 = (lzma_vli_size(unpadded_size) + lzma_vli_size(uncompressed_size)) as u64;
        let facts = match &self.streams.nodes[si] {
            IndexNode::Stream(s) => {
                let t = s.tail();
                proof {
                    lemma_vli_size_bounds(s.record_count);
                }
                (
                    t.0,
                    t.1,
                    t.2,
                    s.node.compressed_base,
                    s.record_count,
                    s.index_list_size,
                    s.stream_padding,
                    s.groups.count,
                )
            },
            IndexNode::Group(_) => (0, 0, false, 0, 0, 0, 0, 0),
        };
        if self.uncompressed_size + uncompressed_size > LZMA_VLI_MAX {
            return LzmaRet::DataError;
        }
        if facts.1 + unpadded_size > UNPADDED_SIZE_MAX {
            return LzmaRet::DataError;
        }
        proof {
            lemma_vli_size_bounds((facts.4 + 1) as u64);
            lemma_vli_size_bounds((self.record_count + 1) as u64);
        }
        if index_file_size(facts.3, facts.1 + unpadded_size, facts.4 + 1, facts.5 + add, facts.6)
            == LZMA_VLI_UNKNOWN {
            return LzmaRet::DataError;
        }
        if index_size(self.record_count + 1, self.index_list_size + add) > BACKWARD_SIZE_MAX {
            return LzmaRet::DataError;
        }
        if !facts.2 && facts.7 == u32::MAX {
            return LzmaRet::MemError;
        }
        proof {
            lemma_index_size_bounds(
                (self.record_count + 1) as u64,
                (self.index_list_size + add) as u64,
            );
        }
        let prealloc: usize = self.prealloc;
        match &mut self.streams.nodes[si] {
            IndexNode::Stream(s) => {
                s.push_record(unpadded_size, uncompressed_size, add, prealloc);
            },
            IndexNode::Group(_) => {},
        }
        if !facts.2 {
            self.prealloc = INDEX_GROUP_SIZE;
        }
        self.total_size += vli_ceil4(unpadded_size);
        self.uncompressed_size += uncompressed_size;
        self.record_count += 1;
        self.index_list_size += add;
        proof {
            let after = self.streams.nodes@;
            assert forall|k: int| 0 <= k < n implies link(#[trigger] after[k]) == link(
                before[k],
            ) by {}
            crate::common::index_tree::lemma_subtree_frame(
                before,
                after,
                self.streams.root,
                None,
                0,
                n as int,
            );
            assert forall|k: int| 0 <= k < after.len() implies #[trigger] stream_linked_at(
                after,
                k,
            ) by {
                assert(stream_linked_at(before, k));
                if k > 0 {
                    assert(stream_linked_at(before, k - 1));
                }
            }
            assert forall|k: int| 0 <= k < si implies same_content(#[trigger] after[k], before[k]) by {
                assert(after[k] == before[k]);
            }
            lemma_sums_frame(before, after, si as nat);
        }
        LzmaRet::LzmaOk
    }
}

/// The bit set `checks` with the kind of check of the flags `flags`
/// added, where the flags are known.
pub open spec fn checks_with(checks: u32, flags: LzmaStreamFlags) -> u32 {
    if flags.version == u32::MAX {
        checks
    } else {
        checks | (1u32 << check_id(flags.check))
    }
}

impl IndexStream {
    /// Computes the sum of the unpadded sizes at the end of the stream.
    pub fn unpadded_end(&self) -> (sum: LzmaVli)
        requires
            self.wf(),
        ensures
            sum == self.unpadded_sum(),
            sum <= UNPADDED_SIZE_MAX,
    {
        match self.groups.rightmost {
            None => 0,
            Some(gi) => {
                assert(group_linked_at(self.groups.nodes@, gi as int));
                match &self.groups.nodes[gi] {
                    IndexNode::Group(g) => {
                        assert(g.record_follows(g.last as int));
                        g.records[g.last].unpadded_sum
                    },
                    IndexNode::Stream(_) => 0,
                }
            },
        }
    }

    /// Computes the size of the file up to the end of this stream.
    #[verifier::rlimit(40)]
    pub fn end_in_file(&self) -> (size: LzmaVli)
        requires
            self.wf(),
        ensures
            size == self.file_size(),
            size <= LZMA_VLI_MAX,
            size % 4 == 0,
            size >= self.node.compressed_base + self.blocks_size() + 2 * STREAM_HEADER_SIZE + 8,
    {
        proof {
            lemma_vli_size_bounds(self.record_count);
            lemma_index_size_bounds(self.record_count, self.index_list_size);
        }
        let sum: u64 = self.unpadded_end();
        index_file_size(
            self.node.compressed_base,
            sum,
            self.record_count,
            self.index_list_size,
            self.stream_padding,
        )
    }
}

impl LzmaIndex {
    /// What starting a new stream comes to. Memory is short where the
    /// index can hold no more streams; the data are in error where even
    /// an empty stream behind the last one would pass the limit of the
    /// file size.
    pub open spec fn stream_verdict(self) -> LzmaRet {
        if self.streams.count == u32::MAX {
            LzmaRet::MemError
        } else if self.last_stream().file_size() + 2 * STREAM_HEADER_SIZE + 8 > LZMA_VLI_MAX {
            LzmaRet::DataError
        } else {
            LzmaRet::LzmaOk
        }
    }

    /// Starts a new stream behind the last one: it has no blocks yet and
    /// begins where the last stream ends. The kind of check of the stream
    /// that was the last joins `checks`.
    pub fn append_stream(&mut self) -> (ret: LzmaRet)
        requires
            old(self).wf(),
        ensures
            ret == old(self).stream_verdict(),
            ret != LzmaRet::LzmaOk ==> *final(self) == *old(self),
            final(self).wf(),
            ret == LzmaRet::LzmaOk ==> {
                &&& final(self).stream_count() == old(self).stream_count() + 1
                &&& contents_kept(old(self).streams.nodes@, final(self).streams.nodes@.drop_last())
                &&& forall|k: int|
                    0 <= k < old(self).stream_count() ==> (#[trigger] final(self).stream(
                        k,
                    )).moved_from(old(self).stream(k))
                &&& final(self).last_stream().records() == Seq::<IndexRecord>::empty()
                &&& final(self).last_stream().layout() == Seq::<GroupShape>::empty()
                &&& final(self).last_stream().record_count == 0
                &&& final(self).last_stream().index_list_size == 0
                &&& final(self).last_stream().number == old(self).stream_count() + 1
                &&& final(self).last_stream().block_number_base == old(self).record_count
                &&& final(self).last_stream().node.uncompressed_base == old(self).uncompressed_size
                &&& final(self).last_stream().node.compressed_base == old(
                    self,
                ).last_stream().file_size()
                &&& final(self).last_stream().stream_padding == 0
                &&& final(self).last_stream().stream_flags == LzmaStreamFlags::plain(
                    u32::MAX,
                    LzmaCheck::CheckNone,
                )
                &&& final(self).uncompressed_size == old(self).uncompressed_size
                &&& final(self).total_size == old(self).total_size
                &&& final(self).record_count == old(self).record_count
                &&& final(self).index_list_size == old(self).index_list_size
                &&& final(self).prealloc == old(self).prealloc
                &&& final(self).checks == checks_with(
                    old(self).checks,
                    old(self).last_stream().stream_flags,
                )
            },
    {
        let ghost before = self.streams.nodes@;
        let ghost n = before.len();
        let si: usize = self.streams.nodes.len() - 1;
        proof {
            assert(stream_linked_at(before, si as int));
        }
        if self.streams.count == u32::MAX {
            return LzmaRet::MemError;
        }
        let facts = match &self.streams.nodes[si] {
            IndexNode::Stream(s) => (s.end_in_file(), s.stream_flags),
            IndexNode::Group(_) => (0, LzmaStreamFlags::unknown()),
        };
        if facts.0 > LZMA_VLI_MAX - 2 * STREAM_HEADER_SIZE - 8 {
            return LzmaRet::DataError;
        }
        let number: u32 = self.streams.count + 1;
        let s = IndexStream::new(facts.0, self.uncompressed_size, number, self.record_count);
        let ghost fresh = IndexNode::Stream(s);
        self.streams.append(IndexNode::Stream(s));
        if facts.1.version != u32::MAX {
            self.checks = self.checks | (1u32 << facts.1.check.id());
        }
        proof {
            let after = self.streams.nodes@;
            assert(same_content(after[n as int], fresh));
            assert(stream_of(after[n as int]).groups == s.groups);
            assert forall|k: int| 0 <= k < n implies same_content(#[trigger] after[k], before[k]) by {
                assert(after[k] == after.drop_last()[k]);
            }
            let ext = before.push(fresh);
            assert(stream_linked_at(ext, n as int));
            assert forall|k: int| 0 <= k < after.len() implies #[trigger] stream_linked_at(
                after,
                k,
            ) by {
                if k < n {
                    assert(stream_linked_at(before, k));
                    assert(ext[k] == before[k]);
                    if k > 0 {
                        assert(stream_linked_at(before, k - 1));
                        assert(ext[k - 1] == before[k - 1]);
                    }
                    assert(stream_linked_at(ext, k));
                }
                if k > 0 {
                    assert(stream_linked_at(before, k - 1));
                    assert(ext[k - 1] == before[k - 1]);
                    assert(stream_linked_at(ext, k - 1));
                    assert(same_content(after[k - 1], ext[k - 1]));
                }
                assert(same_content(after[k], ext[k]));
                lemma_stream_linked_frame(ext, after, k);
            }
            lemma_sums_frame(before, after, n);
            assert forall|k: int| 0 <= k < n implies (#[trigger] self.stream(k)).moved_from(
                old(self).stream(k),
            ) by {
                assert(same_content(after[k], before[k]));
                assert(stream_linked_at(before, k));
            }
        }
        LzmaRet::LzmaOk
    }

    /// Number of blocks in all streams.
    pub fn block_count(&self) -> (n: LzmaVli)
        ensures
            n == self.record_count,
    {
        self.record_count
    }

    /// Number of streams.
    pub fn streams_count(&self) -> (n: LzmaVli)
        requires
            self.wf(),
        ensures
            n == self.stream_count(),
    {
        self.streams.count as u64
    }

    /// Uncompressed size of all blocks.
    pub fn uncompressed(&self) -> (n: LzmaVli)
        ensures
            n == self.uncompressed_size,
    {
        self.uncompressed_size
    }

    /// Total size of all blocks, each with its padding.
    pub fn total(&self) -> (n: LzmaVli)
        ensures
            n == self.total_size,
    {
        self.total_size
    }

    /// Size of the file that the index describes.
    pub fn file_size(&self) -> (size: LzmaVli)
        requires
            self.wf(),
        ensures
            size == self.last_stream().file_size(),
            size <= LZMA_VLI_MAX,
    {
        let si: usize = self.streams.nodes.len() - 1;
        assert(stream_linked_at(self.streams.nodes@, si as int));
        match &self.streams.nodes[si] {
            IndexNode::Stream(s) => s.end_in_file(),
            IndexNode::Group(_) => 0,
        }
    }

    /// The kinds of check of all streams whose flags are known, as a bit
    /// set.
    pub fn all_checks(&self) -> (checks: u32)
        requires
            self.wf(),
        ensures
            checks == checks_with(self.checks, self.last_stream().stream_flags),
    {
        let si: usize = self.streams.nodes.len() - 1;
        assert(stream_linked_at(self.streams.nodes@, si as int));
        match &self.streams.nodes[si] {
            IndexNode::Stream(s) => {
                if s.stream_flags.version != u32::MAX {
                    self.checks | (1u32 << s.stream_flags.check.id())
                } else {
                    self.checks
                }
            },
            IndexNode::Group(_) => self.checks,
        }
    }
}

/// Largest number of records that a group can be made for.
pub const PREALLOC_MAX: usize = 0x0FFF_FFFF;

/// What the flags of a stream are taken for: a version other than zero
/// is not supported, and a backward size that is given must be a
/// multiple of four from 4 to 2^34.
pub open spec fn flags_verdict(flags: LzmaStreamFlags) -> LzmaRet {
    if flags.version != 0 {
        LzmaRet::OptionsError
    } else if flags.backward_size != LZMA_VLI_UNKNOWN && (flags.backward_size < 4
        || flags.backward_size > BACKWARD_SIZE_MAX || flags.backward_size % 4 != 0) {
        LzmaRet::ProgError
    } else {
        LzmaRet::LzmaOk
    }
}

impl LzmaIndex {
    /// Everything but the last stream is as in `before`, and the last
    /// stream holds the same blocks at the same place.
    pub open spec fn same_blocks(self, before: LzmaIndex) -> bool {
        &&& self.stream_count() == before.stream_count()
        &&& forall|k: int|
            0 <= k < before.stream_count() - 1 ==> self.streams.nodes@[k]
                == before.streams.nodes@[k]
        &&& self.last_stream().node == before.last_stream().node
        &&& self.last_stream().number == before.last_stream().number
        &&& self.last_stream().block_number_base == before.last_stream().block_number_base
        &&& self.last_stream().groups == before.last_stream().groups
        &&& self.last_stream().record_count == before.last_stream().record_count
        &&& self.last_stream().index_list_size == before.last_stream().index_list_size
        &&& self.uncompressed_size == before.uncompressed_size
        &&& self.total_size == before.total_size
        &&& self.record_count == before.record_count
        &&& self.index_list_size == before.index_list_size
        &&& self.prealloc == before.prealloc
        &&& self.checks == before.checks
    }

    /// Sets the flags of the last stream.
    pub fn set_stream_flags(&mut self, flags: LzmaStreamFlags) -> (ret: LzmaRet)
        requires
            old(self).wf(),
        ensures
            ret == flags_verdict(flags),
            ret != LzmaRet::LzmaOk ==> *final(self) == *old(self),
            final(self).wf(),
            ret == LzmaRet::LzmaOk ==> {
                &&& final(self).same_blocks(*old(self))
                &&& final(self).last_stream().stream_flags == flags
                &&& final(self).last_stream().stream_padding == old(
                    self,
                ).last_stream().stream_padding
            },
    {
        if flags.version != 0 {
            return LzmaRet::OptionsError;
        }
        if flags.backward_size != LZMA_VLI_UNKNOWN && (flags.backward_size < 4
            || flags.backward_size > BACKWARD_SIZE_MAX || flags.backward_size % 4 != 0) {
            return LzmaRet::ProgError;
        }
        let ghost before = self.streams.nodes@;
        let ghost n = before.len();
        let si: usize = self.streams.nodes.len() - 1;
        proof {
            assert(stream_linked_at(before, si as int));
        }
        match &mut self.streams.nodes[si] {
            IndexNode::Stream(s) => {
                s.stream_flags = flags;
            },
            IndexNode::Group(_) => {},
        }
        proof {
            self.lemma_last_stream_changed(*old(self));
        }
        LzmaRet::LzmaOk
    }

    /// What setting the padding behind the last stream to `padding`
    /// comes to: a padding that is no multiple of four, or out of range,
    /// is the caller's error; the data are in error where the file would
    /// pass its limit.
    pub open spec fn padding_verdict(self, padding: u64) -> LzmaRet {
        let s = self.last_stream();
        if padding > LZMA_VLI_MAX || padding % 4 != 0 {
            LzmaRet::ProgError
        } else if file_size_of(
            s.node.compressed_base,
            s.unpadded_sum(),
            s.record_count,
            s.index_list_size,
            padding,
        ) > LZMA_VLI_MAX {
            LzmaRet::DataError
        } else {
            LzmaRet::LzmaOk
        }
    }

    /// Sets the size of the padding behind the last stream.
    pub fn set_stream_padding(&mut self, padding: LzmaVli) -> (ret: LzmaRet)
        requires
            old(self).wf(),
        ensures
            ret == old(self).padding_verdict(padding),
            ret != LzmaRet::LzmaOk ==> *final(self) == *old(self),
            final(self).wf(),
            ret == LzmaRet::LzmaOk ==> {
                &&& final(self).same_blocks(*old(self))
                &&& final(self).last_stream().stream_padding == padding
                &&& final(self).last_stream().stream_flags == old(self).last_stream().stream_flags
            },
    {
        if padding > LZMA_VLI_MAX || padding % 4 != 0 {
            return LzmaRet::ProgError;
        }
        let ghost before = self.streams.nodes@;
        let si: usize = self.streams.nodes.len() - 1;
        proof {
            assert(stream_linked_at(before, si as int));
        }
        let fits: bool = match &self.streams.nodes[si] {
            IndexNode::Stream(s) => {
                proof {
                    lemma_vli_size_bounds(s.record_count);
                    lemma_index_size_bounds(s.record_count, s.index_list_size);
                }
                let sum: u64 = s.unpadded_end();
                padding <= LZMA_VLI_MAX - s.node.compressed_base && index_file_size(
                    s.node.compressed_base,
                    sum,
                    s.record_count,
                    s.index_list_size,
                    padding,
                ) != LZMA_VLI_UNKNOWN
            },
            IndexNode::Group(_) => false,
        };
        if !fits {
            return LzmaRet::DataError;
        }
        match &mut self.streams.nodes[si] {
            IndexNode::Stream(s) => {
                s.stream_padding = padding;
            },
            IndexNode::Group(_) => {},
        }
        proof {
            self.lemma_last_stream_changed(*old(self));
        }
        LzmaRet::LzmaOk
    }

    /// Sets the number of records that the next new group is made for,
    /// kept from 1 to `PREALLOC_MAX`.
    pub fn set_prealloc(&mut self, records: LzmaVli)
        requires
            old(self).wf(),
        ensures
            final(self).wf(),
            *final(self) == (LzmaIndex { prealloc: final(self).prealloc, ..*old(self) }),
            final(self).prealloc == (if records < 1 {
                1
            } else if records > PREALLOC_MAX {
                PREALLOC_MAX
            } else {
                records as usize
            }),
    {
        self.prealloc = if records < 1 {
            1
        } else if records > PREALLOC_MAX as u64 {
            PREALLOC_MAX
        } else {
            records as usize
        };
    }

    /// An index stays well-formed where only the flags and the padding of
    /// its last stream change, and the stream stays well-formed.
    proof fn lemma_last_stream_changed(self, before: LzmaIndex)
        requires
            before.wf(),
            self.same_blocks(before),
            self.streams.nodes@.last() is Stream,
            self.last_stream().wf(),
            self.streams.root == before.streams.root,
            self.streams.leftmost == before.streams.leftmost,
            self.streams.rightmost == before.streams.rightmost,
            self.streams.count == before.streams.count,
        ensures
            self.wf(),
    {
        let a = before.streams.nodes@;
        let b = self.streams.nodes@;
        let n = a.len();
        assert(stream_linked_at(a, n - 1));
        assert forall|k: int| 0 <= k < n implies link(#[trigger] b[k]) == link(a[k]) by {}
        crate::common::index_tree::lemma_subtree_frame(a, b, before.streams.root, None, 0, n as int);
        assert forall|k: int| 0 <= k < n implies #[trigger] stream_linked_at(b, k) by {
            assert(stream_linked_at(a, k));
            if k > 0 {
                assert(stream_linked_at(a, k - 1));
            }
        }
        assert forall|k: int| 0 <= k < n - 1 implies same_content(#[trigger] b[k], a[k]) by {
            assert(b[k] == a[k]);
        }
        lemma_sums_frame(a, b, (n - 1) as nat);
    }
}

proof fn lemma_group_chain(g: IndexGroup, i: int, j: int)
    requires
        g.wf(),
        0 <= i <= j <= g.last,
    ensures
        g.records@[i].uncompressed_sum <= g.records@[j].uncompressed_sum,
        g.records@[i].unpadded_sum <= g.records@[j].unpadded_sum,
        i < j ==> g.records@[i].unpadded_sum < g.records@[j].unpadded_sum,
    decreases j - i,
{
    if i < j {
        assert(g.record_follows(j));
        lemma_group_chain(g, i, j - 1);
    }
}

/// Within a group no sum falls from one record to a later one, and the
/// unpadded sum rises; every sum lies between what the group starts at
/// and what it ends at.
pub proof fn lemma_group_rises(g: IndexGroup, i: int, j: int)
    requires
        g.wf(),
        0 <= i <= j <= g.last,
    ensures
        g.records@[i].uncompressed_sum <= g.records@[j].uncompressed_sum,
        i < j ==> g.records@[i].unpadded_sum < g.records@[j].unpadded_sum,
        g.node.uncompressed_base <= g.records@[i].uncompressed_sum,
        g.node.compressed_base < g.records@[i].unpadded_sum,
        g.records@[j].uncompressed_sum <= g.end_uncompressed(),
{
    lemma_group_chain(g, i, j);
    lemma_group_chain(g, 0, i);
    lemma_group_chain(g, j, g.last as int);
    assert(g.record_follows(0));
}

/// Groups that follow each other start and end in rising order: no group
/// starts before an earlier one, and none starts before an earlier one
/// has ended.
pub proof fn lemma_groups_rise(nodes: Seq<IndexNode>, i: int, j: int)
    requires
        groups_linked(nodes),
        0 <= i <= j < nodes.len(),
    ensures
        base_at(nodes, i) <= base_at(nodes, j),
        base_at(nodes, j) <= group_of(nodes[j]).end_uncompressed(),
        group_of(nodes[i]).end_uncompressed() <= group_of(nodes[j]).end_uncompressed(),
        i < j ==> group_of(nodes[i]).end_uncompressed() <= base_at(nodes, j),
        group_of(nodes[i]).number_base <= group_of(nodes[j]).number_base,
        i < j ==> group_of(nodes[i]).number_base + group_of(nodes[i]).last < group_of(
            nodes[j],
        ).number_base,
        group_of(nodes[i]).end_padded() <= group_of(nodes[j]).end_padded(),
        link(nodes[j]).compressed_base <= group_of(nodes[j]).end_padded(),
    decreases j - i,
{
    assert(group_linked_at(nodes, j));
    lemma_group_rises(group_of(nodes[j]), 0, group_of(nodes[j]).last as int);
    lemma_group_chain(group_of(nodes[j]), 0, group_of(nodes[j]).last as int);
    assert(group_of(nodes[j]).record_follows(0));
    if i < j {
        lemma_groups_rise(nodes, i, j - 1);
        assert(group_linked_at(nodes, j - 1));
    }
}

/// The groups of a well-formed stream are sorted by where they start.
pub proof fn lemma_groups_sorted(nodes: Seq<IndexNode>)
    requires
        groups_linked(nodes),
    ensures
        bases_sorted(nodes),
{
    assert forall|i: int, j: int| 0 <= i <= j < nodes.len() implies link(
        nodes[i],
    ).uncompressed_base <= link(nodes[j]).uncompressed_base by {
        lemma_groups_rise(nodes, i, j);
        assert(group_linked_at(nodes, i));
        assert(group_linked_at(nodes, j));
    }
}

/// Streams that follow each other start in rising order, and none
/// starts before an earlier one has ended.
pub proof fn lemma_streams_rise(nodes: Seq<IndexNode>, i: int, j: int)
    requires
        streams_linked(nodes),
        0 <= i <= j < nodes.len(),
    ensures
        base_at(nodes, i) <= base_at(nodes, j),
        i < j ==> base_at(nodes, i) + stream_of(nodes[i]).uncompressed_size() <= base_at(nodes, j),
        stream_of(nodes[i]).block_number_base <= stream_of(nodes[j]).block_number_base,
        i < j ==> stream_of(nodes[i]).block_number_base + stream_of(nodes[i]).record_count
            <= stream_of(nodes[j]).block_number_base,
    decreases j - i,
{
    assert(stream_linked_at(nodes, j));
    if i < j {
        lemma_streams_rise(nodes, i, j - 1);
        assert(stream_linked_at(nodes, j - 1));
    }
}

/// The streams of a well-formed index are sorted by where they start.
pub proof fn lemma_streams_sorted(nodes: Seq<IndexNode>)
    requires
        streams_linked(nodes),
    ensures
        bases_sorted(nodes),
{
    assert forall|i: int, j: int| 0 <= i <= j < nodes.len() implies link(
        nodes[i],
    ).uncompressed_base <= link(nodes[j]).uncompressed_base by {
        lemma_streams_rise(nodes, i, j);
        assert(stream_linked_at(nodes, i));
        assert(stream_linked_at(nodes, j));
    }
}

/// The records of the first `n` groups rise: from one record to a later
/// one the unpadded sum grows and the uncompressed sum does not fall,
/// and no sum is more than what the last of the groups ends at.
pub proof fn lemma_records_rise_upto(nodes: Seq<IndexNode>, n: nat, i: int, j: int)
    requires
        groups_linked(nodes),
        1 <= n <= nodes.len(),
        0 <= i <= j < records_upto(nodes, n).len(),
    ensures
        records_upto(nodes, n)[i].uncompressed_sum <= records_upto(nodes, n)[j].uncompressed_sum,
        i < j ==> records_upto(nodes, n)[i].unpadded_sum < records_upto(nodes, n)[j].unpadded_sum,
        records_upto(nodes, n)[j].uncompressed_sum <= group_of(nodes[n - 1]).end_uncompressed(),
        records_upto(nodes, n)[j].unpadded_sum <= group_of(nodes[n - 1]).records@[group_of(
            nodes[n - 1],
        ).last as int].unpadded_sum,
    decreases n,
{
    let g = group_of(nodes[n - 1]);
    let before = records_upto(nodes, (n - 1) as nat);
    let m = before.len() as int;
    assert(group_linked_at(nodes, n - 1));
    lemma_group_starts(nodes, n - 1);
    lemma_group_rises(g, 0, g.last as int);
    if j < m {
        lemma_records_rise_upto(nodes, (n - 1) as nat, i, j);
        assert(group_linked_at(nodes, n - 2));
        lemma_group_rises(g, 0, 0);
    } else if i < m {
        lemma_records_rise_upto(nodes, (n - 1) as nat, i, m - 1);
        assert(group_linked_at(nodes, n - 2));
        lemma_group_rises(g, 0, j - m);
        lemma_group_rises(g, j - m, g.last as int);
    } else {
        lemma_group_rises(g, i - m, j - m);
        lemma_group_rises(g, j - m, g.last as int);
        lemma_group_chain(g, j - m, g.last as int);
    }
    if j >= m {
        lemma_group_chain(g, j - m, g.last as int);
    } else {
        lemma_group_chain(g, 0, g.last as int);
        assert(g.record_follows(0));
    }
}

/// Cumulative sums rise: in a well-formed stream the unpadded sum of a
/// record is greater than that of every record before it, and its
/// uncompressed sum is not less.
pub proof fn lemma_records_rise(s: IndexStream, i: int, j: int)
    requires
        s.wf(),
        0 <= i <= j < s.records().len(),
    ensures
        s.records()[i].uncompressed_sum <= s.records()[j].uncompressed_sum,
        i < j ==> s.records()[i].unpadded_sum < s.records()[j].unpadded_sum,
        s.records()[j].uncompressed_sum <= s.uncompressed_size(),
        s.records()[j].unpadded_sum <= s.unpadded_sum(),
        s.records().len() == s.record_count,
{
    let n = s.groups.nodes@.len();
    lemma_records_rise_upto(s.groups.nodes@, n, i, j);
    lemma_group_starts(s.groups.nodes@, n - 1);
}

impl IndexStream {
    /// Uncompressed size of the block `k` of the stream: what its record
    /// adds to the sum of the record before it.
    pub open spec fn uncompressed_of(self, k: int) -> int {
        if k == 0 {
            self.records()[0].uncompressed_sum as int
        } else {
            self.records()[k].uncompressed_sum - self.records()[k - 1].uncompressed_sum
        }
    }
}

/// Cumulative sums rise strictly where no block is empty: in a
/// well-formed stream both sums of a record are greater than those of a
/// record before it, if every block between the two, the later one
/// counted, holds at least one byte.
pub proof fn lemma_records_rise_strictly(s: IndexStream, i: int, j: int)
    requires
        s.wf(),
        0 <= i < j < s.records().len(),
        forall|k: int| i < k <= j ==> #[trigger] s.uncompressed_of(k) > 0,
    ensures
        s.records()[i].uncompressed_sum < s.records()[j].uncompressed_sum,
        s.records()[i].unpadded_sum < s.records()[j].unpadded_sum,
    decreases j - i,
{
    lemma_records_rise(s, i, j);
    assert(s.uncompressed_of(j) > 0);
    if i < j - 1 {
        lemma_records_rise_strictly(s, i, j - 1);
    }
}

} // verus!
