use vstd::prelude::*;
use crate::common::common::{
    action_index, action_number, lzma_next_end, sequence_enter, sequence_entry, sequence_exit,
    sequence_leave, LzmaFilterInfo, LzmaInternal, LzmaNextCoder, Sequence,
};
use crate::simple::simple_coder::{
    chain_built, chain_fits, far_enough, flows, lzma_next_filter_init, same_prefix,
};

verus! {

pub type LzmaBool = u8;

pub type LzmaReservedEnum = u32;

/// Status reported by every coding call.
#[derive(Debug, Clone, Copy, PartialEq, Eq, Structural)]
pub enum LzmaRet {
    LzmaOk,
    StreamEnd,
    NoCheck,
    UnsupportedCheck,
    GetCheck,
    MemError,
    MemlimitError,
    FormatError,
    OptionsError,
    DataError,
    BufError,
    ProgError,
    SeekNeeded,
    RetInternal1,
}

/// What the caller asks a coding call to do.
#[derive(Debug, Clone, Copy, PartialEq, Eq, Structural)]
pub enum LzmaAction {
    Run,
    SyncFlush,
    FullFlush,
    Finish,
    FullBarrier,
}

/// A coding session as the caller sees it: the input still to be taken,
/// the room for output, the totals, and the session's own state.
#[derive(Debug)]
pub struct LzmaStream<'a> {
    /// The input that has not been taken yet.
    pub next_in: &'a [u8],
    /// Number of bytes of `next_in` that may be taken.
    pub avail_in: usize,
    pub total_in: u64,
    /// The output buffer.
    pub next_out: Vec<u8>,
    /// Number of bytes that may be written from `next_out_pos` on.
    pub avail_out: usize,
    pub total_out: u64,
    /// Where in `next_out` the next byte goes.
    pub next_out_pos: u32,
    pub internal: Option<LzmaInternal>,
    pub seek_pos: u64,
    pub reserved_int2: u64,
    pub reserved_int3: usize,
    pub reserved_int4: usize,
    pub reserved_enum1: LzmaReservedEnum,
    pub reserved_enum2: LzmaReservedEnum,
}

impl<'a> Default for LzmaStream<'a> {
    fn default() -> (strm: LzmaStream<'a>)
        ensures
            strm.next_in@.len() == 0,
            strm.avail_in == 0,
            strm.total_in == 0,
            strm.next_out@.len() == 0,
            strm.avail_out == 0,
            strm.total_out == 0,
            strm.next_out_pos == 0,
            strm.internal is None,
            strm.seek_pos == 0,
            strm.reserved_int2 == 0 && strm.reserved_int3 == 0 && strm.reserved_int4 == 0,
            strm.reserved_enum1 == 0 && strm.reserved_enum2 == 0,
            strm.wf(),
    {
        let empty: &'static [u8] = &[];
        LzmaStream {
            next_in: empty,
            avail_in: 0,
            total_in: 0,
            next_out: Vec::new(),
            avail_out: 0,
            total_out: 0,
            internal: None,
            seek_pos: 0,
            reserved_int2: 0,
            reserved_int3: 0,
            reserved_int4: 0,
            reserved_enum1: 0,
            reserved_enum2: 0,
            next_out_pos: 0,
        }
    }
}

impl LzmaInternal {
    /// The chain of the session is well-formed.
    pub open spec fn wf(self) -> bool {
        match self.next {
            None => true,
            Some(b) => b.wf(),
        }
    }

    /// Whether the session has a chain that can code.
    pub open spec fn can_code(self) -> bool {
        match self.next {
            None => false,
            Some(b) => b.coder is Some,
        }
    }
}

impl<'a> LzmaStream<'a> {
    /// The input that may be taken lies in `next_in`, the room for
    /// output lies in `next_out` and ends within what `next_out_pos` can
    /// count, and the session's chain is well-formed.
    pub open spec fn wf(self) -> bool {
        &&& self.avail_in <= self.next_in@.len()
        &&& self.next_out_pos + self.avail_out <= self.next_out@.len()
        &&& self.next_out_pos + self.avail_out <= u32::MAX
        &&& match self.internal {
            None => true,
            Some(i) => i.wf(),
        }
    }

    /// The fields that no call of the session touches are as in
    /// `before`: the seek position and the reserved ones.
    pub open spec fn same_aside(self, before: LzmaStream<'a>) -> bool {
        &&& self.seek_pos == before.seek_pos
        &&& self.reserved_int2 == before.reserved_int2
        &&& self.reserved_int3 == before.reserved_int3
        &&& self.reserved_int4 == before.reserved_int4
        &&& self.reserved_enum1 == before.reserved_enum1
        &&& self.reserved_enum2 == before.reserved_enum2
    }

    /// The input that the session remembers to have been left by the
    /// call before; zero where there is no session.
    pub open spec fn input_left(self) -> usize {
        match self.internal {
            Some(i) => i.avail_in,
            None => 0,
        }
    }

    /// The stream with a session started, or started anew: the totals
    /// are zero, the session runs, it takes no action yet and allows no
    /// buffer error; the chain and the input that the session remembers
    /// are kept, and so is every other field of the stream.
    pub open spec fn started(self) -> LzmaStream<'a> {
        LzmaStream {
            total_in: 0,
            total_out: 0,
            internal: Some(
                LzmaInternal {
                    next: match self.internal {
                        Some(i) => i.next,
                        None => None,
                    },
                    sequence: Sequence::Run,
                    avail_in: self.input_left(),
                    supported_actions: [false, false, false, false, false],
                    allow_buf_error: false,
                },
            ),
            ..self
        }
    }

    /// Starting a session is idempotent: starting it a second time
    /// changes nothing.
    pub proof fn lemma_started_again(self)
        ensures
            self.started().started() == self.started(),
    {
    }

    /// Starts a session, or starts it anew: no action is taken yet, the
    /// session runs, and the totals are zero. A chain that was set up
    /// stays, and so do the input that the session remembers and every
    /// field of the stream but the totals: a second call changes
    /// nothing more.
    pub fn init(&mut self) -> (ret: LzmaRet)
        ensures
            ret == LzmaRet::LzmaOk,
            *final(self) == old(self).started(),
            old(self).wf() ==> final(self).wf(),
            final(self).same_aside(*old(self)),
            final(self).input_left() == old(self).input_left(),
            final(self).internal is Some,
            final(self).internal->0.sequence == Sequence::Run,
            !final(self).internal->0.allow_buf_error,
            forall|i: int| 0 <= i < 5 ==> !final(self).internal->0.supported_actions@[i],
            final(self).internal->0.next == (match old(self).internal {
                Some(i) => i.next,
                None => None,
            }),
            final(self).total_in == 0,
            final(self).total_out == 0,
            final(self).next_in == old(self).next_in,
            final(self).avail_in == old(self).avail_in,
            final(self).next_out == old(self).next_out,
            final(self).avail_out == old(self).avail_out,
            final(self).next_out_pos == old(self).next_out_pos,
    {
        if self.internal.is_none() {
            self.internal = Some(LzmaInternal::new());
        }
        match &mut self.internal {
            Some(session) => {
                session.supported_actions = [false; 5];
                session.sequence = Sequence::Run;
                session.allow_buf_error = false;
            },
            None => {},
        }
        self.total_in = 0;
        self.total_out = 0;
        proof {
            assert(self.internal->0.supported_actions =~= old(
                self,
            ).started().internal->0.supported_actions);
        }
        LzmaRet::LzmaOk
    }

    /// Ends the session: the chain is ended stage by stage and the
    /// session's state is given up.
    pub fn end(&mut self)
        ensures
            final(self).internal is None,
            final(self).same_aside(*old(self)),
            final(self).next_in == old(self).next_in,
            final(self).avail_in == old(self).avail_in,
            final(self).total_in == old(self).total_in,
            final(self).next_out == old(self).next_out,
            final(self).avail_out == old(self).avail_out,
            final(self).total_out == old(self).total_out,
            final(self).next_out_pos == old(self).next_out_pos,
    {
        match &mut self.internal {
            Some(session) => {
                match &mut session.next {
                    Some(next) => {
                        lzma_next_end(&mut **next);
                    },
                    None => {},
                }
                session.next = None;
            },
            None => {},
        }
        self.internal = None;
    }

    /// The session's state, where a session has been started.
    pub fn get_internal_mut(&mut self) -> (r: Option<&mut LzmaInternal>)
        ensures
            r is Some <==> old(self).internal is Some,
            r is Some ==> *r->0 == old(self).internal->0,
            r is Some ==> final(self).internal == Some(*final(r->0)),
            r is None ==> final(self).internal is None,
            final(self).same_aside(*old(self)),
            final(self).next_in == old(self).next_in,
            final(self).avail_in == old(self).avail_in,
            final(self).total_in == old(self).total_in,
            final(self).next_out == old(self).next_out,
            final(self).avail_out == old(self).avail_out,
            final(self).total_out == old(self).total_out,
            final(self).next_out_pos == old(self).next_out_pos,
    {
        match &mut self.internal {
            Some(i) => Some(i),
            None => None,
        }
    }

    /// Starts a session whose chain is made of the given filters, the
    /// first stage first. The chain takes the actions `Run` and
    /// `Finish`.
    pub fn raw_coder(&mut self, filters: &[LzmaFilterInfo]) -> (ret: LzmaRet)
        ensures
            ret == (if chain_fits(filters@) {
                LzmaRet::LzmaOk
            } else {
                LzmaRet::OptionsError
            }),
            old(self).wf() ==> final(self).wf(),
            final(self).internal->0.wf(),
            final(self).same_aside(*old(self)),
            final(self).input_left() == old(self).input_left(),
            final(self).internal is Some,
            final(self).internal->0.sequence == Sequence::Run,
            !final(self).internal->0.allow_buf_error,
            final(self).internal->0.next is Some,
            ret == LzmaRet::LzmaOk ==> chain_built(*final(self).internal->0.next->0, filters@),
            forall|i: int|
                0 <= i < 5 ==> final(self).internal->0.supported_actions@[i] == (ret
                    == LzmaRet::LzmaOk && (i == 0 || i == 3)),
            final(self).total_in == 0,
            final(self).total_out == 0,
            final(self).next_in == old(self).next_in,
            final(self).avail_in == old(self).avail_in,
            final(self).next_out == old(self).next_out,
            final(self).avail_out == old(self).avail_out,
            final(self).next_out_pos == old(self).next_out_pos,
    {
        let _ = self.init();
        let mut next = LzmaNextCoder::default();
        let ret: LzmaRet = lzma_next_filter_init(&mut next, filters);
        match &mut self.internal {
            Some(session) => {
                session.next = Some(Box::new(next));
                if ret == LzmaRet::LzmaOk {
                    session.supported_actions[0] = true;
                    session.supported_actions[3] = true;
                }
            },
            None => {},
        }
        ret
    }
}

impl<'a> LzmaStream<'a> {
    /// What a call of `code` comes to before any coding: without a
    /// session, or without a chain that can code, the call is the
    /// caller's error; else the session decides.
    pub open spec fn code_entry(self, action: LzmaAction) -> Result<Sequence, LzmaRet> {
        match self.internal {
            None => Err(LzmaRet::ProgError),
            Some(i) => if !i.can_code() {
                Err(LzmaRet::ProgError)
            } else {
                sequence_entry(
                    i.sequence,
                    action,
                    i.supported_actions@[action_index(action)],
                    i.avail_in == self.avail_in,
                )
            },
        }
    }

    /// Everything but the session's state and the cursors is as in
    /// `before`, and so are the chain's setup and the actions it takes.
    pub open spec fn same_session(self, before: LzmaStream<'a>) -> bool {
        &&& self.internal is Some
        &&& before.internal is Some
        &&& self.internal->0.next is Some
        &&& before.internal->0.next is Some
        &&& self.internal->0.next->0.same_setup(*before.internal->0.next->0)
        &&& self.internal->0.supported_actions == before.internal->0.supported_actions
        &&& self.same_aside(before)
    }

    /// What a call of `code` that was not refused has done: the chain
    /// took some of the input and made some output, the cursors and the
    /// totals moved on by these, no byte of output before the cursor
    /// changed, and the session was left as `sequence_exit` says of what
    /// the chain returned.
    pub open spec fn coded(self, before: LzmaStream<'a>, action: LzmaAction, ret: LzmaRet) -> bool {
        let used = before.avail_in - self.avail_in;
        let made = before.avail_out - self.avail_out;
        let progressed = used + made > 0;
        &&& self.same_session(before)
        &&& 0 <= used <= before.avail_in
        &&& 0 <= made <= before.avail_out
        &&& self.next_in@ == before.next_in@.skip(used)
        &&& self.total_in == before.total_in.wrapping_add(used as u64)
        &&& self.next_out_pos == before.next_out_pos + made
        &&& self.total_out == before.total_out.wrapping_add(made as u64)
        &&& same_prefix(self.next_out@, before.next_out@, before.next_out_pos as int)
        &&& self.internal->0.avail_in == self.avail_in
        &&& exists|r: LzmaRet| #[trigger]
            self.left_by(before, action, ret, r)
    }

    /// The session is left, and `ret` is returned to the caller, as
    /// `sequence_exit` says of the status `r` that the chain has
    /// returned. The chain refuses `SyncFlush` alone; otherwise what it
    /// has taken and written keeps with the stream (see `flows`), it
    /// has gone as far as the input and the room for output let it (see
    /// `far_enough`), and it reports the end when its first stage has
    /// seen the end of the data and holds nothing more, and then only.
    pub open spec fn left_by(self, before: LzmaStream<'a>, action: LzmaAction, ret: LzmaRet, r: LzmaRet) -> bool {
        let used = before.avail_in - self.avail_in;
        let made = before.avail_out - self.avail_out;
        let chain_before = *before.internal->0.next->0;
        let chain = *self.internal->0.next->0;
        &&& (self.internal->0.sequence, ret, self.internal->0.allow_buf_error) == sequence_exit(
            before.code_entry(action)->Ok_0,
            r,
            used + made > 0,
            before.internal->0.allow_buf_error,
        )
        &&& r == LzmaRet::LzmaOk || r == LzmaRet::StreamEnd || r == LzmaRet::OptionsError
        &&& r == LzmaRet::OptionsError <==> action == LzmaAction::SyncFlush
        &&& r != LzmaRet::OptionsError ==> flows(
            chain_before,
            chain,
            before.next_in@.take(used),
            self.next_out@.subrange(
                before.next_out_pos as int,
                before.next_out_pos + made,
            ),
        )
        &&& r == LzmaRet::StreamEnd ==> chain.flow(Seq::empty()) == Seq::<u8>::empty()
        &&& r == LzmaRet::StreamEnd <==> action != LzmaAction::SyncFlush && chain.spent()
        &&& far_enough(
            chain_before.any_ended(),
            chain.any_ended(),
            action == LzmaAction::Finish && chain_before.finishes(),
            self.avail_in as int,
            self.avail_out as int,
            r == LzmaRet::LzmaOk,
        )
    }

    /// Runs the chain once on the input and the room for output at hand.
    /// The call is refused, and nothing changes, where `code_entry` says
    /// so. Else the chain takes `used` bytes of input and makes `made`
    /// bytes of output, the cursors and the totals move on by these, and
    /// the session is left as `sequence_exit` says of what the chain has
    /// returned.
    pub fn code(&mut self, action: LzmaAction) -> (ret: LzmaRet)
        requires
            old(self).wf(),
        ensures
            final(self).wf(),
            old(self).code_entry(action) is Err ==> ret == old(self).code_entry(action)->Err_0
                && *final(self) == *old(self),
            old(self).code_entry(action) is Ok ==> final(self).coded(*old(self), action, ret),
    {
        let avail_in: usize = self.avail_in;
        let avail_out: usize = self.avail_out;
        let out_start: usize = self.next_out_pos as usize;
        let input: &'a [u8] = self.next_in;
        let mut in_pos: usize = 0;
        let mut out_pos: usize = out_start;
        let ghost mut witness: LzmaRet = LzmaRet::LzmaOk;
        let ret: LzmaRet = match &mut self.internal {
            None => {
                return LzmaRet::ProgError;
            },
            Some(session) => {
                let supported: bool = session.supported_actions[action_number(action)];
                let same_input: bool = session.avail_in == avail_in;
                let sequence: Sequence = session.sequence;
                let allow: bool = session.allow_buf_error;
                match &mut session.next {
                    None => {
                        return LzmaRet::ProgError;
                    },
                    Some(next) => {
                        if next.coder.is_none() {
                            return LzmaRet::ProgError;
                        }
                        let entered: Sequence = match sequence_enter(
                            sequence,
                            action,
                            supported,
                            same_input,
                        ) {
                            Err(e) => {
                                return e;
                            },
                            Ok(seq) => seq,
                        };
                        let r: LzmaRet = next.code(
                            input,
                            &mut in_pos,
                            avail_in,
                            self.next_out.as_mut_slice(),
                            &mut out_pos,
                            out_start + avail_out,
                            action,
                        );
                        let left = sequence_leave(
                            entered,
                            r,
                            in_pos > 0 || out_pos > out_start,
                            allow,
                        );
                        session.sequence = left.0;
                        session.allow_buf_error = left.2;
                        session.avail_in = avail_in - in_pos;
                        proof {
                            witness = r;
                        }
                        left.1
                    },
                }
            },
        };
        self.next_in = vstd::slice::slice_subrange(input, in_pos, input.len());
        self.avail_in = avail_in - in_pos;
        self.total_in = self.total_in.wrapping_add(in_pos as u64);
        let made: usize = out_pos - out_start;
        self.next_out_pos = out_pos as u32;
        self.avail_out = avail_out - made;
        self.total_out = self.total_out.wrapping_add(made as u64);
        proof {
            assert(self.next_in@ =~= old(self).next_in@.skip(in_pos as int));
            let used = old(self).avail_in - self.avail_in;
            let made = old(self).avail_out - self.avail_out;
            let progressed = used + made > 0;
            assert(self.same_session(*old(self)));
            assert(same_prefix(self.next_out@, old(self).next_out@, old(self).next_out_pos as int));
            assert((self.internal->0.sequence, ret, self.internal->0.allow_buf_error)
                == sequence_exit(
                old(self).code_entry(action)->Ok_0,
                witness,
                progressed,
                old(self).internal->0.allow_buf_error,
            ));
            assert(0 <= used <= old(self).avail_in);
            assert(0 <= made <= old(self).avail_out);
            assert(self.next_in@ == old(self).next_in@.skip(used));
            assert(self.total_in == old(self).total_in.wrapping_add(used as u64));
            assert(self.next_out_pos == old(self).next_out_pos + made);
            assert(self.total_out == old(self).total_out.wrapping_add(made as u64));
            assert(self.internal->0.avail_in == self.avail_in);
            assert(old(self).next_in@.take(used) =~= old(self).next_in@.subrange(0, used));
            assert(self.left_by(*old(self), action, ret, witness));
            assert(self.coded(*old(self), action, ret));
        }
        ret
    }
}

} // verus!
