use vstd::prelude::*;
use crate::api::base::{LzmaAction, LzmaRet};
use crate::api::filter::LzmaOptionsType;
use crate::common::common::{
    lzma_next_end, CoderType, LzmaFilterInfo, LzmaNextCoder, NextCoderInitFunction,
};
use crate::seqs::splice;
use crate::simple::arm::arm_code;
use crate::simple::arm64::arm64_code;
use crate::simple::armthumb::armthumb_code;
use crate::bitops::pc_at;
use crate::simple::simple_private::{LzmaSimpleCoder, SimpleFilter, SimpleType};
use crate::simple::stream::{
    filter_done, filter_stream, lemma_filter_continues, lemma_filter_prefix,
    lemma_stream_round_trip, placed,
};

verus! {

/// Most bytes that a converter leaves at the end of what it is given.
pub const SIMPLE_UNFILTERED_MAX: usize = 4;

/// The smaller of two sizes.
pub open spec fn min_size(a: int, b: int) -> int {
    if a < b {
        a
    } else {
        b
    }
}

/// Copies as many bytes from `src`, from `src_pos` up to `src_size`, to
/// `dst`, from `dst_pos` up to `dst_size`, as the one has and the other
/// has room for, moves both positions on, and returns the number of
/// bytes copied.
pub fn lzma_bufcpy(src: &[u8], src_pos: &mut usize, src_size: usize, dst: &mut [u8], dst_pos: &mut usize, dst_size: usize) -> (n:
    usize)
    requires
        *old(src_pos) <= src_size <= src@.len(),
        *old(dst_pos) <= dst_size <= old(dst)@.len(),
    ensures
        n == min_size(src_size - *old(src_pos), dst_size - *old(dst_pos)),
        *final(src_pos) == *old(src_pos) + n,
        *final(dst_pos) == *old(dst_pos) + n,
        final(dst)@ == splice(
            old(dst)@,
            *old(dst_pos) as int,
            src@.subrange(*old(src_pos) as int, *old(src_pos) + n),
        ),
{
    let src_avail: usize = src_size - *src_pos;
    let dst_avail: usize = dst_size - *dst_pos;
    let n: usize = if src_avail < dst_avail {
        src_avail
    } else {
        dst_avail
    };
    let ghost s0 = *src_pos;
    let ghost d0 = *dst_pos;
    let mut i: usize = 0;
    while i < n
        invariant
            i <= n,
            s0 + n <= src_size <= src@.len(),
            d0 + n <= dst_size <= dst@.len(),
            dst@.len() == old(dst)@.len(),
            *src_pos == s0 + i,
            *dst_pos == d0 + i,
            dst@ == splice(old(dst)@, d0 as int, src@.subrange(s0 as int, s0 + i)),
        decreases n - i,
    {
        dst[*dst_pos] = src[*src_pos];
        *src_pos += 1;
        *dst_pos += 1;
        i += 1;
        assert(dst@ =~= splice(old(dst)@, d0 as int, src@.subrange(s0 as int, s0 + i)));
    }
    assert(dst@ =~= splice(old(dst)@, d0 as int, src@.subrange(s0 as int, s0 + n)));
    n
}

impl LzmaSimpleCoder {
    /// The buffer has the size that is recorded and room for twice what
    /// a converter can leave, the three marks stand in order, fewer
    /// than four bytes wait to be converted, there is a converter, a
    /// stage that has seen the end of the data has nothing left to
    /// convert, and the chain behind is well-formed.
    pub open spec fn wf(self) -> bool
        decreases self,
    {
        &&& self.buffer@.len() == self.allocated
        &&& self.allocated >= 2 * SIMPLE_UNFILTERED_MAX
        &&& self.pos <= self.filtered <= self.size <= self.allocated
        &&& self.size - self.filtered < SIMPLE_UNFILTERED_MAX
        &&& self.filter is Some
        &&& self.end_was_reached ==> self.filtered == self.size
        &&& self.next.wf()
    }

    /// The chain from this stage on is set up as in `before`: the same
    /// converters in the same direction, the same filters.
    pub open spec fn same_setup(self, before: LzmaSimpleCoder) -> bool
        decreases self,
    {
        &&& self.is_encoder == before.is_encoder
        &&& self.filter == before.filter
        &&& self.allocated == before.allocated
        &&& self.next.same_setup(*before.next)
    }

    /// The bytes that the converter has dealt with and that wait to go
    /// out.
    pub open spec fn pending(self) -> Seq<u8> {
        self.buffer@.subrange(self.pos as int, self.filtered as int)
    }

    /// The bytes that the converter has not dealt with yet.
    pub open spec fn raw(self) -> Seq<u8> {
        self.buffer@.subrange(self.filtered as int, self.size as int)
    }

    /// What the stage will have given out when the bytes `coming` have
    /// come in: the bytes that wait, and then the bytes not dealt with
    /// and the bytes to come, converted at once. A stage that has seen
    /// the end of the data gives out what it holds.
    pub open spec fn passes(self, coming: Seq<u8>) -> Seq<u8> {
        if self.end_was_reached {
            self.pending() + self.raw()
        } else {
            self.pending() + filter_stream(
                self.filter->0,
                self.is_encoder,
                self.now_pos,
                self.raw() + coming,
            )
        }
    }

    /// What the chain from this stage on will have given out when the
    /// bytes `coming` have come in at its far end: every stage passes
    /// what the stage behind it gives out.
    pub open spec fn flow(self, coming: Seq<u8>) -> Seq<u8>
        decreases self,
    {
        self.passes(self.next.flow(coming))
    }

    /// A stage of the chain from this one on has seen the end of the
    /// data.
    pub open spec fn any_ended(self) -> bool
        decreases self,
    {
        self.end_was_reached || self.next.any_ended()
    }
}

impl LzmaNextCoder {
    /// Every stage from this link on is well-formed.
    pub open spec fn wf(self) -> bool
        decreases self,
    {
        match self.coder {
            None => true,
            Some(b) => match *b {
                CoderType::SimpleCoder(c) => c.wf(),
            },
        }
    }

    /// The chain from this link on is set up as in `before`.
    pub open spec fn same_setup(self, before: LzmaNextCoder) -> bool
        decreases self,
    {
        &&& self.id == before.id
        &&& self.init == before.init
        &&& match (self.coder, before.coder) {
            (None, None) => true,
            (Some(a), Some(b)) => match (*a, *b) {
                (CoderType::SimpleCoder(c), CoderType::SimpleCoder(d)) => c.same_setup(d),
            },
            _ => false,
        }
    }

    /// What the chain from this link on will have given out when the
    /// bytes `coming` have come in at its far end; behind the last stage
    /// that is the bytes themselves.
    pub open spec fn flow(self, coming: Seq<u8>) -> Seq<u8>
        decreases self,
    {
        match self.coder {
            None => coming,
            Some(b) => match *b {
                CoderType::SimpleCoder(c) => c.flow(coming),
            },
        }
    }

    /// A stage of the chain from this link on has seen the end of the
    /// data.
    pub open spec fn any_ended(self) -> bool
        decreases self,
    {
        match self.coder {
            None => false,
            Some(b) => match *b {
                CoderType::SimpleCoder(c) => c.any_ended(),
            },
        }
    }
}

impl LzmaSimpleCoder {
    /// The chain from this stage on comes to its end by itself: its
    /// last stage is an encoder, which takes the end of the input,
    /// while finishing, for the end of the data. A decoder is told of
    /// the end by the data, and none of these stages reads it there.
    pub open spec fn finishes(self) -> bool
        decreases self,
    {
        self.next.finishes_for(self.is_encoder)
    }

    /// The stage has seen the end of the data and holds nothing more.
    pub open spec fn spent(self) -> bool {
        self.end_was_reached && self.pos == self.size
    }
}

impl LzmaNextCoder {
    /// The chain from this link on comes to its end by itself; behind
    /// the last stage, that is for the last stage to say: it does where
    /// it is an encoder.
    pub open spec fn finishes_for(self, encoder_before: bool) -> bool
        decreases self,
    {
        match self.coder {
            None => encoder_before,
            Some(b) => match *b {
                CoderType::SimpleCoder(c) => c.finishes(),
            },
        }
    }

    /// The chain from this link on comes to its end by itself.
    pub open spec fn finishes(self) -> bool {
        self.finishes_for(false)
    }

    /// The first stage has seen the end of the data and holds nothing
    /// more.
    pub open spec fn spent(self) -> bool {
        match self.coder {
            None => false,
            Some(b) => match *b {
                CoderType::SimpleCoder(c) => c.spent(),
            },
        }
    }
}

/// A call has gone as far as it could. Where it went well and the end
/// was not reported (`went_on`), it stopped because the room for output
/// was used up, or because the input was, and then the chain was not
/// about to come to its end (`finishing`: the action is `Finish` and the
/// chain comes to its end by itself). And a stage has seen the end of
/// the data for the first time only where the input was used up while
/// finishing.
pub open spec fn far_enough(ended_before: bool, ended: bool, finishing: bool, in_left: int, out_left: int, went_on: bool) -> bool {
    &&& went_on ==> out_left <= 0 || (in_left <= 0 && !finishing)
    &&& ended && !ended_before ==> finishing && in_left <= 0
}

/// Chains that are set up alike come to their end alike.
pub proof fn lemma_same_finish(a: LzmaNextCoder, b: LzmaNextCoder, encoder_before: bool)
    requires
        a.same_setup(b),
    ensures
        a.finishes_for(encoder_before) == b.finishes_for(encoder_before),
    decreases a,
{
    match (a.coder, b.coder) {
        (Some(x), Some(y)) => match (*x, *y) {
            (CoderType::SimpleCoder(p), CoderType::SimpleCoder(q)) => {
                lemma_same_finish(*p.next, *q.next, p.is_encoder);
            },
        },
        _ => {},
    }
}

/// The chain has carried the bytes on: what it would have given out for
/// the input `x` and then `z`, it has given out as `y`, and will give
/// out the rest for `z`.
pub open spec fn carried(before: LzmaNextCoder, after: LzmaNextCoder, x: Seq<u8>, y: Seq<u8>, z: Seq<u8>) -> bool {
    before.flow(x + z) == y + after.flow(z)
}

/// A call has taken the input `x` and given the output `y` in keeping
/// with the stream: whatever comes in later, the chain gives out in all
/// what it would have given out before the call. Where a stage has seen
/// the end of the data, nothing comes in later.
pub open spec fn flows(before: LzmaNextCoder, after: LzmaNextCoder, x: Seq<u8>, y: Seq<u8>) -> bool {
    if after.any_ended() {
        carried(before, after, x, y, Seq::empty())
    } else {
        forall|z: Seq<u8>| #[trigger] carried(before, after, x, y, z)
    }
}

/// The same of the chain from a stage on.
pub open spec fn stage_carried(before: LzmaSimpleCoder, after: LzmaSimpleCoder, x: Seq<u8>, y: Seq<u8>, z: Seq<
    u8,
>) -> bool {
    before.flow(x + z) == y + after.flow(z)
}

/// The same of the chain from a stage on.
pub open spec fn stage_flows(before: LzmaSimpleCoder, after: LzmaSimpleCoder, x: Seq<u8>, y: Seq<u8>) -> bool {
    if after.any_ended() {
        stage_carried(before, after, x, y, Seq::empty())
    } else {
        forall|z: Seq<u8>| #[trigger] stage_carried(before, after, x, y, z)
    }
}

/// What a setup keeps is kept through two steps, and a chain is set up
/// as itself.
pub proof fn lemma_same_setup(a: LzmaNextCoder, b: LzmaNextCoder, c: LzmaNextCoder)
    ensures
        a.same_setup(a),
        a.same_setup(b) ==> a.depth() == b.depth() && a.ids() == b.ids(),
        a.same_setup(b) && b.same_setup(c) ==> a.same_setup(c),
    decreases a,
{
    match (a.coder, b.coder, c.coder) {
        (Some(x), Some(y), Some(z)) => match (*x, *y, *z) {
            (CoderType::SimpleCoder(p), CoderType::SimpleCoder(q), CoderType::SimpleCoder(r)) => {
                lemma_same_setup(*p.next, *q.next, *r.next);
            },
        },
        (Some(x), Some(y), None) => match (*x, *y) {
            (CoderType::SimpleCoder(p), CoderType::SimpleCoder(q)) => {
                lemma_same_setup(*p.next, *q.next, *q.next);
            },
        },
        (Some(x), None, _) => match *x {
            CoderType::SimpleCoder(p) => {
                lemma_same_setup(*p.next, *p.next, *p.next);
            },
        },
        _ => {},
    }
}

/// Two calls in a row keep with the stream as one call does that takes
/// the input of both and gives the output of both. A chain of which a
/// stage has seen the end of the data takes no input.
pub proof fn lemma_stage_flows_on(a: LzmaSimpleCoder, b: LzmaSimpleCoder, c: LzmaSimpleCoder, x1: Seq<u8>, y1: Seq<
    u8,
>, x2: Seq<u8>, y2: Seq<u8>)
    requires
        stage_flows(a, b, x1, y1),
        stage_flows(b, c, x2, y2),
        b.any_ended() ==> c.any_ended() && x2.len() == 0,
    ensures
        stage_flows(a, c, x1 + x2, y1 + y2),
{
    let e = Seq::<u8>::empty();
    if b.any_ended() {
        assert(stage_carried(a, b, x1, y1, e));
        assert(stage_carried(b, c, x2, y2, e));
        assert(x2 + e =~= e);
        assert(x1 + x2 + e =~= x1 + e);
        assert(y1 + (y2 + c.flow(e)) =~= y1 + y2 + c.flow(e));
    } else if c.any_ended() {
        assert(stage_carried(a, b, x1, y1, x2 + e));
        assert(stage_carried(b, c, x2, y2, e));
        assert(x1 + x2 + e =~= x1 + (x2 + e));
        assert(y1 + (y2 + c.flow(e)) =~= y1 + y2 + c.flow(e));
    } else {
        assert forall|z: Seq<u8>| #[trigger] stage_carried(a, c, x1 + x2, y1 + y2, z) by {
            assert(stage_carried(a, b, x1, y1, x2 + z));
            assert(stage_carried(b, c, x2, y2, z));
            assert(x1 + x2 + z =~= x1 + (x2 + z));
            assert(y1 + (y2 + c.flow(z)) =~= y1 + y2 + c.flow(z));
        }
    }
}

/// A stage that has carried on what the chain behind it has given out
/// makes a chain that has carried on what came in: from what the stage
/// has done with the bytes `m`, and what the chain behind it has done
/// to give them out, follows what the chain from the stage on has done.
pub proof fn lemma_stage_joins(a: LzmaSimpleCoder, b: LzmaSimpleCoder, x: Seq<u8>, m: Seq<u8>, y: Seq<u8>)
    requires
        !a.end_was_reached,
        b.end_was_reached ==> carried(*a.next, *b.next, x, m, Seq::empty()) && b.next.flow(
            Seq::empty(),
        ) == Seq::<u8>::empty() && a.passes(m) == y + b.passes(Seq::empty()),
        !b.end_was_reached ==> flows(*a.next, *b.next, x, m) && forall|u: Seq<u8>|
            #[trigger] a.passes(m + u) == y + b.passes(u),
    ensures
        stage_flows(a, b, x, y),
{
    let e = Seq::<u8>::empty();
    if b.end_was_reached {
        assert(m + e =~= m);
        assert(a.flow(x + e) == a.passes(a.next.flow(x + e)));
    } else if b.next.any_ended() {
        assert(carried(*a.next, *b.next, x, m, e));
        assert(a.passes(m + b.next.flow(e)) == y + b.passes(b.next.flow(e)));
    } else {
        assert forall|z: Seq<u8>| #[trigger] stage_carried(a, b, x, y, z) by {
            assert(carried(*a.next, *b.next, x, m, z));
            assert(a.passes(m + b.next.flow(z)) == y + b.passes(b.next.flow(z)));
        }
    }
}

/// A stage that has taken in the bytes `m`, has converted them with the
/// bytes that it had not dealt with, and holds what it has not given
/// out, has carried the stream on.
pub proof fn lemma_stage_absorbs(a: LzmaSimpleCoder, b: LzmaSimpleCoder, x: Seq<u8>, m: Seq<u8>, y: Seq<u8>)
    requires
        !a.end_was_reached,
        !b.end_was_reached,
        a.filter is Some,
        b.filter == a.filter,
        b.is_encoder == a.is_encoder,
        flows(*a.next, *b.next, x, m),
        b.now_pos == pc_at(a.now_pos, filter_done(a.filter->0, a.raw() + m)),
        a.pending() + filter_stream(a.filter->0, a.is_encoder, a.now_pos, a.raw() + m).take(
            filter_done(a.filter->0, a.raw() + m) as int,
        ) == y + b.pending(),
        b.raw() == (a.raw() + m).skip(filter_done(a.filter->0, a.raw() + m) as int),
    ensures
        stage_flows(a, b, x, y),
{
    let whole = a.raw() + m;
    let k = filter_done(a.filter->0, whole) as int;
    let stream = filter_stream(a.filter->0, a.is_encoder, a.now_pos, whole);
    assert forall|u: Seq<u8>| #[trigger] a.passes(m + u) == y + b.passes(u) by {
        lemma_filter_continues(a.filter->0, a.is_encoder, a.now_pos, whole, u);
        assert(a.raw() + (m + u) =~= whole + u);
        let rest = filter_stream(a.filter->0, a.is_encoder, b.now_pos, whole.skip(k) + u);
        assert(a.pending() + (stream.take(k) + rest) =~= (a.pending() + stream.take(k)) + rest);
        assert((y + b.pending()) + rest =~= y + (b.pending() + rest));
    }
    lemma_stage_joins(a, b, x, m, y);
}

/// A stage that has taken in the last bytes `m`, has converted them
/// with the bytes that it had not dealt with, and holds what it has not
/// given out, has carried the stream to its end.
pub proof fn lemma_stage_absorbs_last(a: LzmaSimpleCoder, b: LzmaSimpleCoder, x: Seq<u8>, m: Seq<u8>, y: Seq<
    u8,
>)
    requires
        !a.end_was_reached,
        b.end_was_reached,
        a.filter is Some,
        carried(*a.next, *b.next, x, m, Seq::empty()),
        b.next.flow(Seq::empty()) == Seq::<u8>::empty(),
        a.pending() + filter_stream(a.filter->0, a.is_encoder, a.now_pos, a.raw() + m) == y
            + (b.pending() + b.raw()),
    ensures
        stage_flows(a, b, x, y),
{
    let e = Seq::<u8>::empty();
    assert(a.raw() + m + e =~= a.raw() + m);
    assert(m + e =~= m);
    lemma_stage_joins(a, b, x, m, y);
}

/// What holds of the chain from a stage on holds of the chain from the
/// link that leads to the stage.
pub proof fn lemma_link_flows(before: LzmaNextCoder, after: LzmaNextCoder, x: Seq<u8>, y: Seq<u8>)
    requires
        before.coder is Some,
        after.coder is Some,
        ({
            let CoderType::SimpleCoder(c) = *before.coder->0;
            let CoderType::SimpleCoder(d) = *after.coder->0;
            stage_flows(c, d, x, y)
        }),
    ensures
        flows(before, after, x, y),
{
    let CoderType::SimpleCoder(c) = *before.coder->0;
    let CoderType::SimpleCoder(d) = *after.coder->0;
    let e = Seq::<u8>::empty();
    if after.any_ended() {
        assert(stage_carried(c, d, x, y, e));
    } else {
        assert forall|z: Seq<u8>| #[trigger] carried(before, after, x, y, z) by {
            assert(stage_carried(c, d, x, y, z));
        }
    }
}

/// Runs the converter `filter` on the first `size` bytes of `buffer`,
/// which lie at `now_pos`.
fn run_filter(filter: SimpleFilter, simple: &mut SimpleType, now_pos: u32, is_encoder: bool, buffer: &mut [u8], size: usize) -> (done:
    usize)
    requires
        size <= old(buffer)@.len(),
    ensures
        done == filter_done(filter, old(buffer)@.take(size as int)),
        final(buffer)@ == filter_stream(
            filter,
            is_encoder,
            now_pos,
            old(buffer)@.take(size as int),
        ) + old(buffer)@.skip(size as int),
        done <= size,
        size < done + SIMPLE_UNFILTERED_MAX,
        final(buffer)@.len() == old(buffer)@.len(),
{
    proof {
        lemma_filter_prefix(filter, is_encoder, now_pos, old(buffer)@, size as nat);
        lemma_filter_continues(
            filter,
            is_encoder,
            now_pos,
            old(buffer)@.take(size as int),
            Seq::empty(),
        );
    }
    match filter {
        SimpleFilter::Arm => arm_code(simple, now_pos, is_encoder, buffer, size),
        SimpleFilter::Arm64 => arm64_code(simple, now_pos, is_encoder, buffer, size),
        SimpleFilter::ArmThumb => armthumb_code(simple, now_pos, is_encoder, buffer, size),
    }
}

/// The first `n` bytes of `a` are those of `b`.
pub open spec fn same_prefix(a: Seq<u8>, b: Seq<u8>, n: int) -> bool {
    &&& a.len() == b.len()
    &&& forall|k: int| 0 <= k < n ==> a[k] == b[k]
}

/// Gets more data into `out`: from the next stage where there is one,
/// else straight from `in_`. Notes in `end_was_reached` that the data
/// have come to their end: the next stage says so, or, where an encoder
/// is the last stage, the input is used up while finishing.
fn copy_or_code(next: &mut LzmaNextCoder, is_encoder: bool, end_was_reached: &mut bool, in_: &[u8], in_pos: &mut usize, in_size: usize, out: &mut [u8], out_pos: &mut usize, out_size: usize, action: LzmaAction) -> (ret:
    LzmaRet)
    requires
        old(next).wf(),
        !*old(end_was_reached),
        *old(in_pos) <= in_size <= in_@.len(),
        *old(out_pos) <= out_size <= old(out)@.len(),
    ensures
        final(next).wf(),
        final(next).same_setup(*old(next)),
        *old(in_pos) <= *final(in_pos) <= in_size,
        *old(out_pos) <= *final(out_pos) <= out_size,
        same_prefix(final(out)@, old(out)@, *old(out_pos) as int),
        ret == LzmaRet::LzmaOk || ret == LzmaRet::OptionsError,
        ret == LzmaRet::OptionsError ==> action == LzmaAction::SyncFlush,
        old(next).any_ended() ==> final(next).any_ended() && *final(in_pos) == *old(in_pos),
        ret == LzmaRet::LzmaOk && *final(end_was_reached) ==> carried(
            *old(next),
            *final(next),
            in_@.subrange(*old(in_pos) as int, *final(in_pos) as int),
            final(out)@.subrange(*old(out_pos) as int, *final(out_pos) as int),
            Seq::empty(),
        ) && final(next).flow(Seq::empty()) == Seq::<u8>::empty(),
        ret == LzmaRet::LzmaOk && !*final(end_was_reached) ==> flows(
            *old(next),
            *final(next),
            in_@.subrange(*old(in_pos) as int, *final(in_pos) as int),
            final(out)@.subrange(*old(out_pos) as int, *final(out_pos) as int),
        ),
        far_enough(
            old(next).any_ended(),
            *final(end_was_reached) || final(next).any_ended(),
            action == LzmaAction::Finish && old(next).finishes_for(is_encoder),
            in_size - *final(in_pos),
            out_size - *final(out_pos),
            ret == LzmaRet::LzmaOk && !*final(end_was_reached),
        ),
    decreases old(next).depth(), 1int,
{
    proof {
        lemma_same_setup(*next, *next, *next);
    }
    let ghost e = Seq::<u8>::empty();
    if next.coder.is_none() {
        let n = lzma_bufcpy(in_, in_pos, in_size, out, out_pos, out_size);
        if is_encoder && action == LzmaAction::Finish && *in_pos == in_size {
            *end_was_reached = true;
        }
        proof {
            let x = in_@.subrange(*old(in_pos) as int, *in_pos as int);
            let m = out@.subrange(*old(out_pos) as int, *out_pos as int);
            assert(m =~= x);
            assert(x + e =~= x);
            assert(m + e =~= m);
            assert forall|z: Seq<u8>| #[trigger] carried(*old(next), *next, x, m, z) by {}
        }
    } else {
        let ret: LzmaRet = next.code(in_, in_pos, in_size, out, out_pos, out_size, action);
        if ret == LzmaRet::StreamEnd {
            *end_was_reached = true;
        } else if ret != LzmaRet::LzmaOk {
            return ret;
        }
    }
    LzmaRet::LzmaOk
}

impl LzmaNextCoder {
    /// Runs the stage: it takes input from `in_`, from `in_pos` up to
    /// `in_size`, writes output to `out`, from `out_pos` up to
    /// `out_size`, and moves both positions on. What is taken and what
    /// is written keep with the stream: see `flows`. A link without a
    /// coder cannot code: that is the caller's error.
    #[verifier::rlimit(40)]
    pub fn code(&mut self, in_: &[u8], in_pos: &mut usize, in_size: usize, out: &mut [u8], out_pos: &mut usize, out_size: usize, action: LzmaAction) -> (ret:
        LzmaRet)
        requires
            old(self).wf(),
            *old(in_pos) <= in_size <= in_@.len(),
            *old(out_pos) <= out_size <= old(out)@.len(),
        ensures
            final(self).wf(),
            final(self).same_setup(*old(self)),
            *old(in_pos) <= *final(in_pos) <= in_size,
            *old(out_pos) <= *final(out_pos) <= out_size,
            same_prefix(final(out)@, old(out)@, *old(out_pos) as int),
            old(self).coder is None ==> ret == LzmaRet::ProgError && *final(in_pos) == *old(in_pos)
                && *final(out_pos) == *old(out_pos) && final(out)@ == old(out)@ && *final(self)
                == *old(self),
            old(self).coder is Some ==> ret == LzmaRet::LzmaOk || ret == LzmaRet::StreamEnd || ret
                == LzmaRet::OptionsError,
            old(self).coder is Some ==> (ret == LzmaRet::OptionsError <==> action
                == LzmaAction::SyncFlush),
            ret == LzmaRet::OptionsError ==> *final(in_pos) == *old(in_pos) && *final(out_pos)
                == *old(out_pos) && final(out)@ == old(out)@ && *final(self) == *old(self),
            ret == LzmaRet::LzmaOk || ret == LzmaRet::StreamEnd ==> flows(
                *old(self),
                *final(self),
                in_@.subrange(*old(in_pos) as int, *final(in_pos) as int),
                final(out)@.subrange(*old(out_pos) as int, *final(out_pos) as int),
            ),
            ret == LzmaRet::StreamEnd ==> final(self).any_ended() && final(self).flow(Seq::empty())
                == Seq::<u8>::empty(),
            old(self).any_ended() ==> final(self).any_ended() && *final(in_pos) == *old(in_pos),
            old(self).coder is Some ==> (ret == LzmaRet::StreamEnd <==> action
                != LzmaAction::SyncFlush && final(self).spent()),
            old(self).coder is Some ==> far_enough(
                old(self).any_ended(),
                final(self).any_ended(),
                action == LzmaAction::Finish && old(self).finishes(),
                in_size - *final(in_pos),
                out_size - *final(out_pos),
                ret == LzmaRet::LzmaOk,
            ),
        decreases old(self).depth(), 0int,
    {
        proof {
            lemma_same_setup(*self, *self, *self);
        }
        let ret: LzmaRet = match &mut self.coder {
            None => LzmaRet::ProgError,
            Some(b) => match &mut **b {
                CoderType::SimpleCoder(c) => c.code(
                    in_,
                    in_pos,
                    in_size,
                    out,
                    out_pos,
                    out_size,
                    action,
                ),
            },
        };
        proof {
            if ret == LzmaRet::LzmaOk || ret == LzmaRet::StreamEnd {
                lemma_link_flows(
                    *old(self),
                    *self,
                    in_@.subrange(*old(in_pos) as int, *in_pos as int),
                    out@.subrange(*old(out_pos) as int, *out_pos as int),
                );
            }
        }
        ret
    }
}

impl LzmaSimpleCoder {
    /// Runs the converter on the first `size` bytes of `buffer` and
    /// moves the position of the data on by what it has dealt with.
    fn call_filter(&mut self, buffer: &mut [u8], size: usize) -> (done: usize)
        requires
            old(self).filter is Some,
            size <= old(buffer)@.len(),
        ensures
            done == filter_done(old(self).filter->0, old(buffer)@.take(size as int)),
            final(buffer)@ == filter_stream(
                old(self).filter->0,
                old(self).is_encoder,
                old(self).now_pos,
                old(buffer)@.take(size as int),
            ) + old(buffer)@.skip(size as int),
            done <= size,
            size < done + SIMPLE_UNFILTERED_MAX,
            final(buffer)@.len() == old(buffer)@.len(),
            final(self).now_pos == pc_at(old(self).now_pos, done as nat),
            *final(self) == (LzmaSimpleCoder {
                now_pos: final(self).now_pos,
                simple: final(self).simple,
                ..*old(self)
            }),
    {
        let done: usize = match self.filter {
            Some(f) => run_filter(f, &mut self.simple, self.now_pos, self.is_encoder, buffer, size),
            None => 0,
        };
        proof {
            crate::bitops::lemma_usize_low32(done);
            crate::bitops::lemma_wrapping_32(self.now_pos, ((done as int) % 0x1_0000_0000) as u32);
        }
        self.now_pos = self.now_pos.wrapping_add(#[verifier::truncate] (done as u32));
        done
    }

    /// The stage is well-formed but for the marks, which are being set
    /// anew: nothing waits to go out.
    pub open spec fn wf_open(self) -> bool {
        &&& self.buffer@.len() == self.allocated
        &&& self.allocated >= 2 * SIMPLE_UNFILTERED_MAX
        &&& self.pos <= self.size <= self.allocated
        &&& self.size - self.pos < SIMPLE_UNFILTERED_MAX
        &&& self.pos == self.filtered
        &&& self.filter is Some
        &&& !self.end_was_reached
        &&& self.next.wf()
    }

    /// The stage is set up as in `before`, whatever its buffer holds.
    pub open spec fn same_stage(self, before: LzmaSimpleCoder) -> bool {
        &&& self.is_encoder == before.is_encoder
        &&& self.filter == before.filter
        &&& self.allocated == before.allocated
        &&& self.next.same_setup(*before.next)
        &&& self.next.depth() == before.next.depth()
    }

    /// Runs the converter on the bytes of `out` from `from` up to `to`.
    fn filter_in_place(&mut self, out: &mut [u8], from: usize, to: usize) -> (done: usize)
        requires
            old(self).filter is Some,
            from <= to <= old(out)@.len(),
        ensures
            done == filter_done(old(self).filter->0, old(out)@.subrange(from as int, to as int)),
            final(out)@.subrange(from as int, to as int) == filter_stream(
                old(self).filter->0,
                old(self).is_encoder,
                old(self).now_pos,
                old(out)@.subrange(from as int, to as int),
            ),
            same_prefix(final(out)@, old(out)@, from as int),
            done <= to - from,
            to - from < done + SIMPLE_UNFILTERED_MAX,
            final(self).now_pos == pc_at(old(self).now_pos, done as nat),
            *final(self) == (LzmaSimpleCoder {
                now_pos: final(self).now_pos,
                simple: final(self).simple,
                ..*old(self)
            }),
            filter_stream(
                old(self).filter->0,
                old(self).is_encoder,
                old(self).now_pos,
                old(out)@.subrange(from as int, to as int),
            ).skip(done as int) == old(out)@.subrange(from as int, to as int).skip(done as int),
    {
        let ghost whole = out@.subrange(from as int, to as int);
        let ghost e = Seq::<u8>::empty();
        proof {
            lemma_filter_continues(self.filter->0, self.is_encoder, self.now_pos, whole, e);
        }
        let size: usize = to - from;
        if size == 0 {
            proof {
                assert(whole =~= e);
                assert(pc_at(self.now_pos, 0) == self.now_pos);
            }
            return 0;
        }
        let ghost before = out@;
        let (head, tail) = out.split_at_mut(from);
        proof {
            assert(tail@.take(size as int) =~= whole);
        }
        let done: usize = self.call_filter(tail, size);
        proof {
            assert(out@.len() == before.len());
            assert forall|k: int| 0 <= k < from implies out@[k] == before[k] by {}
            assert(out@.subrange(from as int, to as int) =~= filter_stream(
                old(self).filter->0,
                old(self).is_encoder,
                old(self).now_pos,
                whole,
            ));
        }
        done
    }

    /// Puts the bytes of the buffer that wait to be converted into `out`
    /// and gets more data behind them.
    fn gather(&mut self, in_: &[u8], in_pos: &mut usize, in_size: usize, out: &mut [u8], out_pos: &mut usize, out_size: usize, action: LzmaAction) -> (ret:
        LzmaRet)
        requires
            old(self).wf_open(),
            *old(in_pos) <= in_size <= in_@.len(),
            *old(out_pos) <= out_size <= old(out)@.len(),
            out_size - *old(out_pos) >= old(self).size - old(self).pos,
        ensures
            *final(self) == (LzmaSimpleCoder {
                next: final(self).next,
                end_was_reached: final(self).end_was_reached,
                ..*old(self)
            }),
            final(self).next.wf(),
            final(self).next.same_setup(*old(self).next),
            final(self).next.depth() == old(self).next.depth(),
            *old(in_pos) <= *final(in_pos) <= in_size,
            *old(out_pos) + old(self).raw().len() <= *final(out_pos) <= out_size,
            same_prefix(final(out)@, old(out)@, *old(out_pos) as int),
            ret == LzmaRet::LzmaOk || ret == LzmaRet::OptionsError,
            ret == LzmaRet::OptionsError ==> action == LzmaAction::SyncFlush,
            ret != LzmaRet::LzmaOk ==> !final(self).end_was_reached,
            old(self).next.any_ended() ==> final(self).next.any_ended() && *final(in_pos) == *old(
                in_pos,
            ),
            final(out)@.subrange(
                *old(out_pos) as int,
                *old(out_pos) + old(self).raw().len(),
            ) == old(self).raw(),
            ret == LzmaRet::LzmaOk && final(self).end_was_reached ==> carried(
                *old(self).next,
                *final(self).next,
                in_@.subrange(*old(in_pos) as int, *final(in_pos) as int),
                final(out)@.subrange(
                    *old(out_pos) + old(self).raw().len(),
                    *final(out_pos) as int,
                ),
                Seq::empty(),
            ) && final(self).next.flow(Seq::empty()) == Seq::<u8>::empty(),
            ret == LzmaRet::LzmaOk && !final(self).end_was_reached ==> flows(
                *old(self).next,
                *final(self).next,
                in_@.subrange(*old(in_pos) as int, *final(in_pos) as int),
                final(out)@.subrange(
                    *old(out_pos) + old(self).raw().len(),
                    *final(out_pos) as int,
                ),
            ),
            far_enough(
                old(self).next.any_ended(),
                final(self).end_was_reached || final(self).next.any_ended(),
                action == LzmaAction::Finish && old(self).finishes(),
                in_size - *final(in_pos),
                out_size - *final(out_pos),
                ret == LzmaRet::LzmaOk && !final(self).end_was_reached,
            ),
        decreases old(self).next.depth(), 2int,
    {
        proof {
            lemma_same_setup(*self.next, *self.next, *self.next);
        }
        let ghost raw0 = self.raw();
        let ghost out_start = *out_pos;
        let mut from: usize = self.pos;
        lzma_bufcpy(self.buffer.as_slice(), &mut from, self.size, out, out_pos, out_size);
        proof {
            assert(out@.subrange(out_start as int, *out_pos as int) =~= raw0);
        }
        let ghost mid_pos = *out_pos;
        let ret: LzmaRet = copy_or_code(
            &mut *self.next,
            self.is_encoder,
            &mut self.end_was_reached,
            in_,
            in_pos,
            in_size,
            out,
            out_pos,
            out_size,
            action,
        );
        proof {
            lemma_same_setup(*self.next, *old(self).next, *old(self).next);
            assert(out@.subrange(out_start as int, mid_pos as int) =~= raw0);
        }
        if ret != LzmaRet::LzmaOk {
            self.end_was_reached = false;
        }
        ret
    }

    /// Gets more data straight into `out`, behind the bytes that waited
    /// in the buffer, converts them there, and takes back into the
    /// buffer what the converter has left.
    #[verifier::rlimit(40)]
    fn code_direct(&mut self, in_: &[u8], in_pos: &mut usize, in_size: usize, out: &mut [u8], out_pos: &mut usize, out_size: usize, action: LzmaAction) -> (ret:
        LzmaRet)
        requires
            old(self).wf_open(),
            *old(in_pos) <= in_size <= in_@.len(),
            *old(out_pos) <= out_size <= old(out)@.len(),
            out_size - *old(out_pos) >= old(self).size - old(self).pos,
        ensures
            final(self).same_stage(*old(self)),
            ret == LzmaRet::LzmaOk ==> final(self).wf() && final(self).pos == 0 && final(self).filtered
                == (if final(self).end_was_reached {
                final(self).size
            } else {
                0
            }),
            ret != LzmaRet::LzmaOk ==> final(self).wf_open() && final(self).pos == old(self).pos,
            *old(in_pos) <= *final(in_pos) <= in_size,
            *old(out_pos) <= *final(out_pos) <= out_size,
            same_prefix(final(out)@, old(out)@, *old(out_pos) as int),
            ret == LzmaRet::LzmaOk || ret == LzmaRet::OptionsError,
            ret == LzmaRet::OptionsError ==> action == LzmaAction::SyncFlush,
            old(self).next.any_ended() ==> final(self).next.any_ended() && *final(in_pos) == *old(
                in_pos,
            ),
            ret == LzmaRet::LzmaOk ==> stage_flows(
                *old(self),
                *final(self),
                in_@.subrange(*old(in_pos) as int, *final(in_pos) as int),
                final(out)@.subrange(*old(out_pos) as int, *final(out_pos) as int),
            ),
            ret == LzmaRet::LzmaOk && final(self).end_was_reached ==> final(self).size == 0,
            far_enough(
                old(self).next.any_ended(),
                final(self).end_was_reached || final(self).next.any_ended(),
                action == LzmaAction::Finish && old(self).finishes(),
                in_size - *final(in_pos),
                out_size - *final(out_pos) - final(self).size,
                ret == LzmaRet::LzmaOk && !final(self).end_was_reached,
            ),
        decreases old(self).next.depth(), 3int,
    {
        let ghost s0 = *self;
        let ghost raw0 = self.raw();
        let ghost e = Seq::<u8>::empty();
        let out_start: usize = *out_pos;
        let ret: LzmaRet = self.gather(in_, in_pos, in_size, out, out_pos, out_size, action);
        if ret != LzmaRet::LzmaOk {
            return ret;
        }
        let ghost x = in_@.subrange(*old(in_pos) as int, *in_pos as int);
        let ghost m = out@.subrange(out_start + raw0.len(), *out_pos as int);
        let ghost whole = raw0 + m;
        proof {
            assert(out@.subrange(out_start as int, *out_pos as int) =~= whole);
        }
        let end: usize = *out_pos;
        let size: usize = end - out_start;
        let filtered: usize = self.filter_in_place(out, out_start, end);
        let ghost stream = filter_stream(s0.filter->0, s0.is_encoder, s0.now_pos, whole);
        let unfiltered: usize = size - filtered;
        self.pos = 0;
        self.filtered = 0;
        self.size = unfiltered;
        if self.end_was_reached {
            self.size = 0;
            proof {
                assert(self.pending() =~= e);
                assert(self.raw() =~= e);
                assert(s0.pending() =~= e);
                assert(e + stream =~= stream + (e + e));
                lemma_stage_absorbs_last(s0, *self, x, m, stream);
            }
        } else {
            if unfiltered > 0 {
                *out_pos -= unfiltered;
                let mut at: usize = *out_pos;
                let mut to: usize = 0;
                lzma_bufcpy(
                    out,
                    &mut at,
                    *out_pos + unfiltered,
                    self.buffer.as_mut_slice(),
                    &mut to,
                    unfiltered,
                );
            }
            proof {
                let y = out@.subrange(out_start as int, *out_pos as int);
                let k = filtered as int;
                assert(y =~= stream.take(k));
                assert(self.raw() =~= whole.skip(k));
                assert(self.pending() =~= e);
                assert(s0.pending() =~= e);
                assert(e + stream.take(k) =~= y + e);
                lemma_stage_absorbs(s0, *self, x, m, y);
            }
        }
        LzmaRet::LzmaOk
    }

    /// Moves the bytes that wait in the buffer to its start.
    fn compact(&mut self)
        requires
            old(self).wf_open(),
        ensures
            final(self).wf_open(),
            final(self).pos == 0,
            final(self).size == old(self).size - old(self).pos,
            final(self).raw() == old(self).raw(),
            *final(self) == (LzmaSimpleCoder {
                pos: 0,
                filtered: 0,
                size: final(self).size,
                buffer: final(self).buffer,
                ..*old(self)
            }),
    {
        let mut to: usize = 0;
        let mut from: usize = self.pos;
        while from < self.size
            invariant
                to + old(self).pos == from,
                old(self).pos <= from <= self.size <= self.allocated,
                self.buffer@.len() == self.allocated,
                *self == (LzmaSimpleCoder { buffer: self.buffer, ..*old(self) }),
                forall|k: int| 0 <= k < to ==> self.buffer@[k] == old(self).buffer@[k + old(self).pos],
                forall|k: int| from <= k < self.size ==> self.buffer@[k] == old(self).buffer@[k],
            decreases self.size - from,
        {
            let b: u8 = self.buffer[from];
            self.buffer[to] = b;
            from += 1;
            to += 1;
        }
        self.size -= self.pos;
        self.pos = 0;
        self.filtered = 0;
        assert(self.raw() =~= old(self).raw());
    }

    /// Fills the buffer up behind the bytes that wait in it, converts
    /// what it holds, and hands on what the converter has dealt with.
    #[verifier::rlimit(80)]
    fn code_buffered(&mut self, in_: &[u8], in_pos: &mut usize, in_size: usize, out: &mut [u8], out_pos: &mut usize, out_size: usize, action: LzmaAction) -> (ret:
        LzmaRet)
        requires
            old(self).wf_open(),
            old(self).pos == 0,
            *old(in_pos) <= in_size <= in_@.len(),
            *old(out_pos) <= out_size <= old(out)@.len(),
        ensures
            final(self).wf(),
            final(self).same_stage(*old(self)),
            *old(in_pos) <= *final(in_pos) <= in_size,
            *old(out_pos) <= *final(out_pos) <= out_size,
            same_prefix(final(out)@, old(out)@, *old(out_pos) as int),
            ret == LzmaRet::LzmaOk || ret == LzmaRet::OptionsError,
            ret == LzmaRet::OptionsError ==> action == LzmaAction::SyncFlush,
            old(self).next.any_ended() ==> final(self).next.any_ended() && *final(in_pos) == *old(in_pos),
            ret == LzmaRet::LzmaOk ==> stage_flows(
                *old(self),
                *final(self),
                in_@.subrange(*old(in_pos) as int, *final(in_pos) as int),
                final(out)@.subrange(*old(out_pos) as int, *final(out_pos) as int),
            ),
            ret != LzmaRet::LzmaOk ==> !final(self).end_was_reached,
            ret == LzmaRet::LzmaOk ==> *final(out_pos) == *old(out_pos) + final(self).pos,
            ret == LzmaRet::LzmaOk && final(self).pos < final(self).filtered ==> *final(out_pos)
                == out_size,
            far_enough(
                old(self).next.any_ended(),
                final(self).end_was_reached || final(self).next.any_ended(),
                action == LzmaAction::Finish && old(self).finishes(),
                in_size - *final(in_pos),
                final(self).allocated - final(self).size,
                ret == LzmaRet::LzmaOk && !final(self).end_was_reached,
            ),
        decreases old(self).next.depth(), 2int,
    {
        proof {
            lemma_same_setup(*self.next, *self.next, *self.next);
        }
        let ghost s0 = *self;
        let ghost raw0 = self.raw();
        let ghost e = Seq::<u8>::empty();
        let ghost size0 = self.size;
        let allocated: usize = self.allocated;
        let ret: LzmaRet = copy_or_code(
            &mut *self.next,
            self.is_encoder,
            &mut self.end_was_reached,
            in_,
            in_pos,
            in_size,
            self.buffer.as_mut_slice(),
            &mut self.size,
            allocated,
            action,
        );
        proof {
            lemma_same_setup(*self.next, *old(self).next, *old(self).next);
        }
        if ret != LzmaRet::LzmaOk {
            self.end_was_reached = false;
            self.size = self.filtered;
            return ret;
        }
        let ghost x = in_@.subrange(*old(in_pos) as int, *in_pos as int);
        let ghost m = self.buffer@.subrange(size0 as int, self.size as int);
        let ghost whole = raw0 + m;
        proof {
            assert(self.buffer@.take(self.size as int) =~= whole);
        }
        let size: usize = self.size;
        let mut buffer: Vec<u8> = Vec::new();
        std::mem::swap(&mut buffer, &mut self.buffer);
        let done: usize = self.call_filter(buffer.as_mut_slice(), size);
        std::mem::swap(&mut buffer, &mut self.buffer);
        let ghost stream = filter_stream(s0.filter->0, s0.is_encoder, s0.now_pos, whole);
        proof {
            lemma_filter_continues(s0.filter->0, s0.is_encoder, s0.now_pos, whole, e);
            assert(self.buffer@.take(size as int) =~= stream);
        }
        self.filtered = done;
        if self.end_was_reached {
            self.filtered = self.size;
        }
        let ghost out_start = *out_pos;
        lzma_bufcpy(self.buffer.as_slice(), &mut self.pos, self.filtered, out, out_pos, out_size);
        proof {
            let y = out@.subrange(out_start as int, *out_pos as int);
            let n = self.pos as int;
            let k = done as int;
            assert(y =~= stream.take(n));
            assert(s0.pending() =~= e);
            if self.end_was_reached {
                assert(self.pending() =~= stream.subrange(n, size as int));
                assert(self.raw() =~= e);
                assert(e + stream =~= y + (stream.subrange(n, size as int) + e));
                lemma_stage_absorbs_last(s0, *self, x, m, y);
            } else {
                assert(self.pending() =~= stream.subrange(n, k));
                assert(self.raw() =~= whole.skip(k));
                assert(e + stream.take(k) =~= y + stream.subrange(n, k));
                lemma_stage_absorbs(s0, *self, x, m, y);
            }
        }
        LzmaRet::LzmaOk
    }

    /// Hands on bytes that wait to go out.
    fn flush_pending(&mut self, out: &mut [u8], out_pos: &mut usize, out_size: usize)
        requires
            old(self).wf(),
            *old(out_pos) <= out_size <= old(out)@.len(),
        ensures
            final(self).wf(),
            *final(self) == (LzmaSimpleCoder { pos: final(self).pos, ..*old(self) }),
            *old(out_pos) <= *final(out_pos) <= out_size,
            same_prefix(final(out)@, old(out)@, *old(out_pos) as int),
            final(self).pos < final(self).filtered ==> *final(out_pos) == out_size,
            old(self).pending() == final(out)@.subrange(
                *old(out_pos) as int,
                *final(out_pos) as int,
            ) + final(self).pending(),
            final(self).raw() == old(self).raw(),
            stage_flows(
                *old(self),
                *final(self),
                Seq::empty(),
                final(out)@.subrange(*old(out_pos) as int, *final(out_pos) as int),
            ),
    {
        let ghost start = *out_pos;
        lzma_bufcpy(self.buffer.as_slice(), &mut self.pos, self.filtered, out, out_pos, out_size);
        proof {
            let e = Seq::<u8>::empty();
            let y = out@.subrange(start as int, *out_pos as int);
            assert(old(self).pending() =~= y + self.pending());
            assert forall|z: Seq<u8>| #[trigger] stage_carried(*old(self), *self, e, y, z) by {
                assert(e + z =~= z);
                let inner = self.next.flow(z);
                assert(old(self).passes(inner) =~= y + self.passes(inner));
            }
        }
    }

    /// Gets more data where nothing waits to go out. Where there is
    /// room in `out` for more than the bytes that wait to be converted,
    /// the data go straight to `out` and are converted there; else the
    /// bytes that wait are moved to the start of the buffer.
    #[verifier::rlimit(40)]
    fn code_first(&mut self, in_: &[u8], in_pos: &mut usize, in_size: usize, out: &mut [u8], out_pos: &mut usize, out_size: usize, action: LzmaAction) -> (ret:
        LzmaRet)
        requires
            old(self).wf(),
            !old(self).end_was_reached,
            old(self).pos == old(self).filtered,
            action != LzmaAction::SyncFlush,
            *old(in_pos) <= in_size <= in_@.len(),
            *old(out_pos) <= out_size <= old(out)@.len(),
        ensures
            ret == LzmaRet::LzmaOk,
            final(self).wf(),
            final(self).same_stage(*old(self)),
            final(self).pos == 0,
            final(self).filtered == (if final(self).end_was_reached {
                final(self).size
            } else {
                0
            }),
            final(self).end_was_reached ==> final(self).size == 0,
            *old(in_pos) <= *final(in_pos) <= in_size,
            *old(out_pos) <= *final(out_pos) <= out_size,
            same_prefix(final(out)@, old(out)@, *old(out_pos) as int),
            old(self).next.any_ended() ==> final(self).next.any_ended() && *final(in_pos) == *old(
                in_pos,
            ),
            stage_flows(
                *old(self),
                *final(self),
                in_@.subrange(*old(in_pos) as int, *final(in_pos) as int),
                final(out)@.subrange(*old(out_pos) as int, *final(out_pos) as int),
            ),
            far_enough(
                old(self).next.any_ended(),
                final(self).end_was_reached || final(self).next.any_ended(),
                action == LzmaAction::Finish && old(self).finishes(),
                in_size - *final(in_pos),
                out_size - *final(out_pos) - final(self).size,
                !final(self).end_was_reached,
            ),
        decreases old(self).next.depth(), 4int,
    {
        proof {
            lemma_same_setup(*self.next, *self.next, *self.next);
        }
        let ghost e = Seq::<u8>::empty();
        let out_avail: usize = out_size - *out_pos;
        let buf_avail: usize = self.size - self.pos;
        if out_avail > buf_avail || buf_avail == 0 {
            let ret: LzmaRet = self.code_direct(in_, in_pos, in_size, out, out_pos, out_size, action);
            if ret != LzmaRet::LzmaOk {
                // Never taken: the stages refuse `SyncFlush` alone, and
                // that action does not come this far.
                assert(false);
                return ret;
            }
        } else {
            if self.pos > 0 {
                self.compact();
            } else {
                self.filtered = 0;
                assert(self.raw() =~= old(self).raw());
            }
            proof {
                assert(in_@.subrange(*old(in_pos) as int, *in_pos as int) =~= e);
                assert(out@.subrange(*old(out_pos) as int, *out_pos as int) =~= e);
                assert(self.pending() =~= e);
                assert(old(self).pending() =~= e);
                assert forall|z: Seq<u8>| #[trigger] stage_carried(*old(self), *self, e, e, z) by {
                    assert(e + z =~= z);
                    assert(old(self).passes(old(self).next.flow(z)) =~= e + self.passes(
                        self.next.flow(z),
                    ));
                }
            }
        }
        LzmaRet::LzmaOk
    }

    /// Gets more data where nothing waits to go out, converts what
    /// there is, and hands on what the converter has dealt with.
    #[verifier::rlimit(40)]
    fn code_on(&mut self, in_: &[u8], in_pos: &mut usize, in_size: usize, out: &mut [u8], out_pos: &mut usize, out_size: usize, action: LzmaAction) -> (ret:
        LzmaRet)
        requires
            old(self).wf(),
            !old(self).end_was_reached,
            old(self).pos == old(self).filtered,
            action != LzmaAction::SyncFlush,
            *old(in_pos) <= in_size <= in_@.len(),
            *old(out_pos) <= out_size <= old(out)@.len(),
        ensures
            ret == LzmaRet::LzmaOk || ret == LzmaRet::StreamEnd,
            ret == LzmaRet::StreamEnd <==> final(self).spent(),
            final(self).wf(),
            final(self).same_stage(*old(self)),
            *old(in_pos) <= *final(in_pos) <= in_size,
            *old(out_pos) <= *final(out_pos) <= out_size,
            same_prefix(final(out)@, old(out)@, *old(out_pos) as int),
            old(self).next.any_ended() ==> final(self).next.any_ended() && *final(in_pos) == *old(
                in_pos,
            ),
            stage_flows(
                *old(self),
                *final(self),
                in_@.subrange(*old(in_pos) as int, *final(in_pos) as int),
                final(out)@.subrange(*old(out_pos) as int, *final(out_pos) as int),
            ),
            far_enough(
                old(self).next.any_ended(),
                final(self).any_ended(),
                action == LzmaAction::Finish && old(self).finishes(),
                in_size - *final(in_pos),
                out_size - *final(out_pos),
                ret == LzmaRet::LzmaOk,
            ),
        decreases old(self).next.depth(), 5int,
    {
        let ghost start = *out_pos;
        let ghost in_start = *in_pos;
        let ret: LzmaRet = self.code_first(in_, in_pos, in_size, out, out_pos, out_size, action);
        if ret != LzmaRet::LzmaOk {
            return ret;
        }
        let ghost s1 = *self;
        let ghost pos1 = *out_pos;
        let ghost in_1 = *in_pos;
        let ghost x1 = in_@.subrange(in_start as int, in_1 as int);
        let ghost y1 = out@.subrange(start as int, pos1 as int);
        if self.size > 0 && !self.end_was_reached {
            let ret: LzmaRet = self.code_buffered(
                in_,
                in_pos,
                in_size,
                out,
                out_pos,
                out_size,
                action,
            );
            if ret != LzmaRet::LzmaOk {
                // Never taken: the stages refuse `SyncFlush` alone, and
                // that action does not come this far.
                assert(false);
                return ret;
            }
            proof {
                lemma_same_setup(*self.next, *s1.next, *old(self).next);
                lemma_same_finish(*s1.next, *old(self).next, self.is_encoder);
                let x2 = in_@.subrange(in_1 as int, *in_pos as int);
                let y2 = out@.subrange(pos1 as int, *out_pos as int);
                assert(out@.subrange(start as int, pos1 as int) =~= y1);
                lemma_stage_flows_on(*old(self), s1, *self, x1, y1, x2, y2);
                assert(in_@.subrange(in_start as int, *in_pos as int) =~= x1 + x2);
                assert(out@.subrange(start as int, *out_pos as int) =~= y1 + y2);
            }
        }
        if self.end_was_reached && self.pos == self.size {
            return LzmaRet::StreamEnd;
        }
        LzmaRet::LzmaOk
    }

    /// Runs the stage. Bytes that the converter has dealt with go to
    /// `out`; bytes that it has left, because an instruction may go on
    /// in the data to come, wait in the stage's buffer. What is taken
    /// and what is written keep with the stream: see `stage_flows`. The
    /// call goes as far as the input and the room for output let it:
    /// see `far_enough`. The stage cannot flush in the middle of the
    /// data: `SyncFlush` is an error of the options. Returns `StreamEnd`
    /// when the data have come to their end and every byte has gone
    /// out, and then only.
    pub fn code(&mut self, in_: &[u8], in_pos: &mut usize, in_size: usize, out: &mut [u8], out_pos: &mut usize, out_size: usize, action: LzmaAction) -> (ret:
        LzmaRet)
        requires
            old(self).wf(),
            *old(in_pos) <= in_size <= in_@.len(),
            *old(out_pos) <= out_size <= old(out)@.len(),
        ensures
            final(self).wf(),
            final(self).same_setup(*old(self)),
            *old(in_pos) <= *final(in_pos) <= in_size,
            *old(out_pos) <= *final(out_pos) <= out_size,
            same_prefix(final(out)@, old(out)@, *old(out_pos) as int),
            ret == LzmaRet::LzmaOk || ret == LzmaRet::StreamEnd || ret == LzmaRet::OptionsError,
            ret == LzmaRet::OptionsError <==> action == LzmaAction::SyncFlush,
            ret == LzmaRet::OptionsError ==> *final(in_pos) == *old(in_pos) && *final(out_pos)
                == *old(out_pos) && final(out)@ == old(out)@ && *final(self) == *old(self),
            ret == LzmaRet::LzmaOk || ret == LzmaRet::StreamEnd ==> stage_flows(
                *old(self),
                *final(self),
                in_@.subrange(*old(in_pos) as int, *final(in_pos) as int),
                final(out)@.subrange(*old(out_pos) as int, *final(out_pos) as int),
            ),
            ret == LzmaRet::StreamEnd <==> action != LzmaAction::SyncFlush && final(self).spent(),
            ret == LzmaRet::StreamEnd ==> final(self).flow(Seq::empty()) == Seq::<u8>::empty(),
            old(self).any_ended() ==> final(self).any_ended() && *final(in_pos) == *old(in_pos),
            far_enough(
                old(self).any_ended(),
                final(self).any_ended(),
                action == LzmaAction::Finish && old(self).finishes(),
                in_size - *final(in_pos),
                out_size - *final(out_pos),
                ret == LzmaRet::LzmaOk,
            ),
        decreases old(self).next.depth(), 6int,
    {
        proof {
            lemma_same_setup(*self.next, *self.next, *self.next);
        }
        if action == LzmaAction::SyncFlush {
            return LzmaRet::OptionsError;
        }
        let ghost e = Seq::<u8>::empty();
        let ghost start = *out_pos;
        let ghost in_start = *in_pos;
        assert(in_@.subrange(in_start as int, in_start as int) =~= e);
        self.flush_pending(out, out_pos, out_size);
        let ghost s1 = *self;
        let ghost pos1 = *out_pos;
        let ghost y1 = out@.subrange(start as int, pos1 as int);
        if self.end_was_reached {
            proof {
                assert(self.raw() =~= e);
                if self.pos == self.size {
                    assert(self.pending() =~= e);
                    assert(self.flow(e) =~= e);
                }
            }
            if self.pos == self.size {
                return LzmaRet::StreamEnd;
            }
            return LzmaRet::LzmaOk;
        }
        if self.pos < self.filtered {
            return LzmaRet::LzmaOk;
        }
        let ret: LzmaRet = self.code_on(in_, in_pos, in_size, out, out_pos, out_size, action);
        proof {
            lemma_same_setup(*self.next, *s1.next, *old(self).next);
            lemma_same_finish(*s1.next, *old(self).next, self.is_encoder);
            let x2 = in_@.subrange(in_start as int, *in_pos as int);
            let y2 = out@.subrange(pos1 as int, *out_pos as int);
            assert(out@.subrange(start as int, pos1 as int) =~= y1);
            lemma_stage_flows_on(*old(self), s1, *self, e, y1, x2, y2);
            assert(e + x2 =~= x2);
            assert(out@.subrange(start as int, *out_pos as int) =~= y1 + y2);
            if ret == LzmaRet::StreamEnd {
                assert(self.pending() =~= e);
                assert(self.raw() =~= e);
                assert(self.flow(e) =~= e);
            }
        }
        ret
    }
}

/// The converter that a setup function sets up.
pub open spec fn filter_of(f: NextCoderInitFunction) -> SimpleFilter {
    match f {
        NextCoderInitFunction::SimpleArmEncoder => SimpleFilter::Arm,
        NextCoderInitFunction::SimpleArmDecoder => SimpleFilter::Arm,
        NextCoderInitFunction::SimpleArm64Encoder => SimpleFilter::Arm64,
        NextCoderInitFunction::SimpleArm64Decoder => SimpleFilter::Arm64,
        NextCoderInitFunction::SimpleArmThumbEncoder => SimpleFilter::ArmThumb,
        NextCoderInitFunction::SimpleArmThumbDecoder => SimpleFilter::ArmThumb,
    }
}

/// Whether a setup function sets up an encoder.
pub open spec fn encodes(f: NextCoderInitFunction) -> bool {
    f == NextCoderInitFunction::SimpleArmEncoder || f == NextCoderInitFunction::SimpleArm64Encoder
        || f == NextCoderInitFunction::SimpleArmThumbEncoder
}

/// The alignment of the instructions that a converter looks for: the
/// data must start at a multiple of it.
pub open spec fn alignment_of(filter: SimpleFilter) -> u32 {
    match filter {
        SimpleFilter::Arm => 4,
        SimpleFilter::Arm64 => 4,
        SimpleFilter::ArmThumb => 2,
    }
}

/// The position at which the options say the data start: zero without
/// options; options of another family of filters give none.
pub open spec fn start_offset_of(options: Option<LzmaOptionsType>) -> Option<u32> {
    match options {
        None => Some(0u32),
        Some(LzmaOptionsType::Bcj(o)) => Some(o.start_offset),
        Some(_) => None,
    }
}

/// The options suit a converter of the given alignment: they are those
/// of a branch converter, or none, and the data start at a multiple of
/// the alignment.
pub open spec fn options_fit(options: Option<LzmaOptionsType>, alignment: u32) -> bool {
    start_offset_of(options) is Some && start_offset_of(options)->0 % alignment == 0
}

/// The filters from the first on can be set up: each has options that
/// suit its converter. A filter without a setup function ends the list.
pub open spec fn chain_fits(filters: Seq<LzmaFilterInfo>) -> bool
    decreases filters.len(),
{
    if filters.len() == 0 {
        true
    } else {
        match filters[0].init {
            None => true,
            Some(f) => options_fit(filters[0].options, alignment_of(filter_of(f))) && chain_fits(
                filters.skip(1),
            ),
        }
    }
}

/// A stage as setting up leaves it: the converter and its direction,
/// an empty buffer of the given size, the data at `now_pos`.
pub open spec fn stage_fresh(c: LzmaSimpleCoder, filter: SimpleFilter, is_encoder: bool, now_pos: u32, allocated: int) -> bool {
    &&& c.filter == Some(filter)
    &&& c.is_encoder == is_encoder
    &&& c.now_pos == now_pos
    &&& !c.end_was_reached
    &&& c.pos == 0
    &&& c.filtered == 0
    &&& c.size == 0
    &&& c.allocated == allocated
    &&& c.buffer@.len() == allocated
    &&& c.simple == SimpleType::NoData
}

/// Encoding and decoding undo each other: what a fresh encoding stage
/// makes of a stream, a fresh decoding stage of the same converter at
/// the same position turns back into the stream, and the other way
/// round, neither with a stage behind it.
pub proof fn lemma_stage_round_trip(first: LzmaSimpleCoder, second: LzmaSimpleCoder, filter: SimpleFilter, is_encoder: bool, now_pos: u32, x: Seq<
    u8,
>)
    requires
        stage_fresh(first, filter, is_encoder, now_pos, first.allocated as int),
        stage_fresh(second, filter, !is_encoder, now_pos, second.allocated as int),
        first.next.coder is None,
        second.next.coder is None,
        placed(filter, now_pos),
    ensures
        first.flow(x) == filter_stream(filter, is_encoder, now_pos, x),
        second.flow(first.flow(x)) == x,
{
    let e = Seq::<u8>::empty();
    let y = filter_stream(filter, is_encoder, now_pos, x);
    assert(first.pending() =~= e);
    assert(first.raw() =~= e);
    assert(second.pending() =~= e);
    assert(second.raw() =~= e);
    assert(e + x =~= x);
    assert(e + y =~= y);
    assert(first.flow(x) =~= y);
    lemma_stream_round_trip(filter, is_encoder, now_pos, x);
    assert(second.flow(y) =~= x);
}

/// The chain from this link on is the one that the filters from the
/// first on ask for: a fresh stage for each, and the link behind the
/// last stage.
pub open spec fn chain_built(next: LzmaNextCoder, filters: Seq<LzmaFilterInfo>) -> bool
    decreases filters.len(),
{
    if filters.len() == 0 {
        next == LzmaNextCoder::unset()
    } else {
        &&& next.id == filters[0].id
        &&& next.init == filters[0].init
        &&& match filters[0].init {
            None => next.coder is None,
            Some(f) => match next.coder {
                None => false,
                Some(b) => match *b {
                    CoderType::SimpleCoder(c) => stage_fresh(
                        c,
                        filter_of(f),
                        encodes(f),
                        start_offset_of(filters[0].options)->0,
                        2 * SIMPLE_UNFILTERED_MAX as int,
                    ) && chain_built(*c.next, filters.skip(1)),
                },
            },
        }
    }
}

/// A chain that was set up is well-formed.
pub proof fn lemma_chain_built_wf(next: LzmaNextCoder, filters: Seq<LzmaFilterInfo>)
    requires
        chain_built(next, filters),
    ensures
        next.wf(),
        next.made(),
    decreases filters.len(),
{
    if filters.len() > 0 {
        match next.coder {
            Some(b) => match *b {
                CoderType::SimpleCoder(c) => {
                    if filters[0].init is Some {
                        lemma_chain_built_wf(*c.next, filters.skip(1));
                    }
                },
            },
            None => {},
        }
    }
}

/// Sets up the chain from this link on for the filters from the first
/// on. A stage that was there is ended first.
pub fn lzma_next_filter_init(next: &mut LzmaNextCoder, filters: &[LzmaFilterInfo]) -> (ret: LzmaRet)
    ensures
        ret == (if chain_fits(filters@) {
            LzmaRet::LzmaOk
        } else {
            LzmaRet::OptionsError
        }),
        ret == LzmaRet::LzmaOk ==> chain_built(*final(next), filters@),
        final(next).wf(),
    decreases filters@.len(), 3int,
{
    lzma_next_end(next);
    if filters.len() == 0 {
        return LzmaRet::LzmaOk;
    }
    next.init = filters[0].init;
    next.id = filters[0].id;
    match filters[0].init {
        None => LzmaRet::LzmaOk,
        Some(NextCoderInitFunction::SimpleArmEncoder) => crate::simple::arm::lzma_simple_arm_encoder_init(
            next,
            filters,
        ),
        Some(NextCoderInitFunction::SimpleArmDecoder) => crate::simple::arm::lzma_simple_arm_decoder_init(
            next,
            filters,
        ),
        Some(NextCoderInitFunction::SimpleArm64Encoder) => crate::simple::arm64::lzma_simple_arm64_encoder_init(
            next,
            filters,
        ),
        Some(NextCoderInitFunction::SimpleArm64Decoder) => crate::simple::arm64::lzma_simple_arm64_decoder_init(
            next,
            filters,
        ),
        Some(NextCoderInitFunction::SimpleArmThumbEncoder) => crate::simple::armthumb::lzma_simple_armthumb_encoder_init(
            next,
            filters,
        ),
        Some(NextCoderInitFunction::SimpleArmThumbDecoder) => crate::simple::armthumb::lzma_simple_armthumb_decoder_init(
            next,
            filters,
        ),
    }
}

/// Makes a buffer of `n` zero bytes.
fn zeroed(n: usize) -> (buffer: Vec<u8>)
    ensures
        buffer@.len() == n,
        forall|i: int| 0 <= i < n ==> buffer@[i] == 0,
{
    let mut buffer: Vec<u8> = Vec::new();
    while buffer.len() < n
        invariant
            buffer@.len() <= n,
            forall|i: int| 0 <= i < buffer@.len() ==> buffer@[i] == 0,
        decreases n - buffer@.len(),
    {
        buffer.push(0);
    }
    buffer
}

/// Sets up a stage that runs the converter `filter` for the first of
/// `filters`, and then the chain behind it for the rest. The stage gets
/// a buffer of twice `unfiltered_max` bytes, and the data start where
/// the filter's options say, which must be a multiple of `alignment`.
/// A converter leaves fewer than four bytes at the end of what it is
/// given, so `unfiltered_max` is four at least.
pub fn lzma_simple_coder_init(next: &mut LzmaNextCoder, filters: &[LzmaFilterInfo], filter: SimpleFilter, simple_size: usize, unfiltered_max: usize, alignment: u32, is_encoder: bool) -> (ret:
    LzmaRet)
    requires
        filters@.len() >= 1,
        alignment >= 1,
        SIMPLE_UNFILTERED_MAX <= unfiltered_max <= usize::MAX / 2,
        old(next).wf(),
    ensures
        ret == (if options_fit(filters@[0].options, alignment) && chain_fits(filters@.skip(1)) {
            LzmaRet::LzmaOk
        } else {
            LzmaRet::OptionsError
        }),
        final(next).wf(),
        final(next).id == old(next).id,
        final(next).init == old(next).init,
        ret == LzmaRet::LzmaOk ==> match final(next).coder {
            None => false,
            Some(b) => match *b {
                CoderType::SimpleCoder(c) => stage_fresh(
                    c,
                    filter,
                    is_encoder,
                    start_offset_of(filters@[0].options)->0,
                    2 * unfiltered_max as int,
                ) && chain_built(*c.next, filters@.skip(1)),
            },
        },
    decreases filters@.len(), 0int,
{
    let now_pos: u32 = match &filters[0].options {
        None => 0,
        Some(LzmaOptionsType::Bcj(o)) => o.start_offset,
        Some(_) => {
            return LzmaRet::OptionsError;
        },
    };
    if now_pos % alignment != 0 {
        return LzmaRet::OptionsError;
    }
    let mut coder = LzmaSimpleCoder::new(2 * unfiltered_max);
    coder.filter = Some(filter);
    coder.allocated = 2 * unfiltered_max;
    coder.buffer = zeroed(2 * unfiltered_max);
    coder.now_pos = now_pos;
    coder.is_encoder = is_encoder;
    coder.end_was_reached = false;
    coder.pos = 0;
    coder.filtered = 0;
    coder.size = 0;
    let rest = vstd::slice::slice_subrange(filters, 1, filters.len());
    proof {
        assert(rest@ =~= filters@.skip(1));
    }
    let ret: LzmaRet = lzma_next_filter_init(&mut *coder.next, rest);
    next.coder = Some(Box::new(CoderType::SimpleCoder(coder)));
    ret
}

} // verus!
