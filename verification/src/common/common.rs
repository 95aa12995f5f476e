use vstd::prelude::*;
use crate::api::base::{LzmaAction, LzmaRet};
use crate::api::check::LzmaCheck;
use crate::api::filter::{LzmaFilter, LzmaOptionsType};
use crate::api::vli::{LzmaVli, LZMA_VLI_UNKNOWN};
use crate::simple::simple_private::LzmaSimpleCoder;

verus! {

/// Number of the last action.
pub const LZMA_ACTION_MAX: usize = 4;

pub const LZMA_BUFFER_SIZE: usize = 4096;

pub const LZMA_THREADS_MAX: u32 = 16384;

/// Where a coding session stands.
#[derive(PartialEq, Eq, Structural, Debug, Clone, Copy)]
pub enum Sequence {
    Run,
    SyncFlush,
    FullFlush,
    Finish,
    FullBarrier,
    End,
    Error,
}

/// The coders of the stages that a chain can hold.
#[derive(Debug)]
pub enum CoderType {
    SimpleCoder(LzmaSimpleCoder),
}

/// The functions that set a stage up. A stage remembers which one made
/// it: a stage made by another one is ended before it is set up anew.
#[derive(Clone, Copy, Debug, PartialEq, Eq, Structural)]
pub enum NextCoderInitFunction {
    SimpleArmEncoder,
    SimpleArmDecoder,
    SimpleArm64Encoder,
    SimpleArm64Decoder,
    SimpleArmThumbEncoder,
    SimpleArmThumbDecoder,
}

/// One filter of a chain that is being set up: its identifier, the
/// function that sets its stage up, and its options.
#[derive(Debug, Clone)]
pub struct LzmaFilterInfo {
    pub id: LzmaVli,
    pub init: Option<NextCoderInitFunction>,
    pub options: Option<LzmaOptionsType>,
}

/// The operations that a stage may offer.
#[derive(Clone, Copy, Debug, PartialEq, Eq, Structural)]
pub enum CoderOp {
    Code,
    End,
    GetProgress,
    GetCheck,
    Memconfig,
    Update,
    SetOutLimit,
}

/// A link of the filter chain: the coder of the stage, or none behind
/// the last stage.
#[derive(Debug)]
pub struct LzmaNextCoder {
    /// The coder of the stage.
    pub coder: Option<Box<CoderType>>,
    /// Identifier of the stage's filter.
    pub id: LzmaVli,
    /// The function that set the stage up.
    pub init: Option<NextCoderInitFunction>,
}

impl Default for LzmaNextCoder {
    fn default() -> (next: LzmaNextCoder)
        ensures
            next == LzmaNextCoder::unset(),
    {
        LzmaNextCoder { coder: None, id: LZMA_VLI_UNKNOWN, init: None }
    }
}

impl LzmaNextCoder {
    /// The link behind the last stage: no coder, no filter.
    pub open spec fn unset() -> LzmaNextCoder {
        LzmaNextCoder { coder: None, id: LZMA_VLI_UNKNOWN, init: None }
    }

    /// A link that no function has set up has no coder.
    pub open spec fn made(self) -> bool {
        self.init is None ==> self.coder is None
    }

    /// Number of stages from this link on.
    pub open spec fn depth(self) -> nat
        decreases self,
    {
        match self.coder {
            None => 0,
            Some(b) => match *b {
                CoderType::SimpleCoder(c) => 1 + c.next.depth(),
            },
        }
    }

    /// The identifiers of the filters from this link on, the last stage's
    /// last.
    pub open spec fn ids(self) -> Seq<LzmaVli>
        decreases self,
    {
        match self.coder {
            None => Seq::empty(),
            Some(b) => match *b {
                CoderType::SimpleCoder(c) => seq![self.id] + c.next.ids(),
            },
        }
    }

    /// Whether the stage offers the operation: a link without a coder
    /// offers none; a simple coder codes, ends and passes updates on.
    pub open spec fn offers(self, op: CoderOp) -> bool {
        match self.coder {
            None => false,
            Some(b) => match *b {
                CoderType::SimpleCoder(_) => op == CoderOp::Code || op == CoderOp::End || op
                    == CoderOp::Update,
            },
        }
    }

    /// Tells whether the stage offers the operation `op`.
    pub fn supports(&self, op: CoderOp) -> (yes: bool)
        ensures
            yes == self.offers(op),
    {
        match &self.coder {
            None => false,
            Some(b) => match &**b {
                CoderType::SimpleCoder(_) => op == CoderOp::Code || op == CoderOp::End || op
                    == CoderOp::Update,
            },
        }
    }

    /// The numbers of bytes that the stage has taken in and given out:
    /// `None` where the stage does not count them, which holds of every
    /// kind of stage that there is.
    pub fn get_progress(&self) -> (progress: Option<(u64, u64)>)
        ensures
            progress is Some <==> self.offers(CoderOp::GetProgress),
            progress is None,
    {
        None
    }

    /// The kind of check of the data: `None` where the stage does not
    /// know of one, which holds of every kind of stage that there is.
    pub fn get_check(&self) -> (check: Option<LzmaCheck>)
        ensures
            check is Some <==> self.offers(CoderOp::GetCheck),
            check is None,
    {
        None
    }

    /// Sets the memory limit of the stage and returns the status, the
    /// memory in use and the limit before: `None`, and nothing changed,
    /// where the stage has no such limit, which holds of every kind of
    /// stage that there is.
    pub fn memconfig(&mut self, new_memlimit: u64) -> (r: Option<(LzmaRet, u64, u64)>)
        ensures
            r is Some <==> old(self).offers(CoderOp::Memconfig),
            r is None,
            *final(self) == *old(self),
    {
        None
    }

    /// Sets a limit on the output of the stage: `None`, and nothing
    /// changed, where the stage takes none, which holds of every kind of
    /// stage that there is.
    pub fn set_out_limit(&mut self, out_limit: u64) -> (r: Option<(LzmaRet, u64)>)
        ensures
            r is Some <==> old(self).offers(CoderOp::SetOutLimit),
            r is None,
            *final(self) == *old(self),
    {
        None
    }
}

/// Ends the stage and every stage behind it: the link is left as one
/// behind the last stage.
pub fn lzma_next_end(next: &mut LzmaNextCoder)
    ensures
        *final(next) == LzmaNextCoder::unset(),
{
    next.coder = None;
    next.id = LZMA_VLI_UNKNOWN;
    next.init = None;
}

/// Whether the filters `reversed`, from the place `at` on, are those of
/// the chain from this link on, stage by stage, with the entry of the
/// unknown identifier where the chain ends.
pub open spec fn chain_matches(next: LzmaNextCoder, reversed: Seq<LzmaFilter>, at: int) -> bool
    decreases next,
{
    &&& 0 <= at < reversed.len()
    &&& reversed[at].id == next.id
    &&& (next.id != LZMA_VLI_UNKNOWN ==> match next.coder {
        None => false,
        Some(b) => match *b {
            CoderType::SimpleCoder(c) => chain_matches(*c.next, reversed, at + 1),
        },
    })
}

/// Hands new options to the chain from this link on; `reversed_filters`
/// holds the filters of the chain from `at` on, the unknown identifier
/// behind the last. A filter that is not the one of its stage is an
/// error of the options.
pub fn lzma_next_filter_update(next: &mut LzmaNextCoder, reversed_filters: &[LzmaFilter], at: usize) -> (ret:
    LzmaRet)
    ensures
        ret == (if chain_matches(*old(next), reversed_filters@, at as int) {
            LzmaRet::LzmaOk
        } else {
            LzmaRet::OptionsError
        }),
        *final(next) == *old(next),
    decreases *old(next),
{
    if at >= reversed_filters.len() {
        return LzmaRet::OptionsError;
    }
    if reversed_filters[at].id != next.id {
        return LzmaRet::OptionsError;
    }
    if reversed_filters[at].id == LZMA_VLI_UNKNOWN {
        return LzmaRet::LzmaOk;
    }
    if at == usize::MAX {
        return LzmaRet::OptionsError;
    }
    match &mut next.coder {
        None => LzmaRet::OptionsError,
        Some(b) => match &mut **b {
            CoderType::SimpleCoder(c) => lzma_next_filter_update(
                &mut *c.next,
                reversed_filters,
                at + 1,
            ),
        },
    }
}

/// The state of a coding session: the chain, where the session stands,
/// and what the call before left to remember.
#[derive(Debug)]
pub struct LzmaInternal {
    /// The first stage of the chain.
    pub next: Option<Box<LzmaNextCoder>>,
    pub sequence: Sequence,
    /// The input that was left after the call before.
    pub avail_in: usize,
    /// The actions that the chain takes.
    pub supported_actions: [bool; 5],
    /// Whether the call before made no progress: a second such call in a
    /// row is a buffer error.
    pub allow_buf_error: bool,
}

/// The number of an action, in the order of the variants.
pub open spec fn action_index(action: LzmaAction) -> int {
    match action {
        LzmaAction::Run => 0,
        LzmaAction::SyncFlush => 1,
        LzmaAction::FullFlush => 2,
        LzmaAction::Finish => 3,
        LzmaAction::FullBarrier => 4,
    }
}

/// Computes the number of an action.
pub fn action_number(action: LzmaAction) -> (i: usize)
    ensures
        i == action_index(action),
        i <= LZMA_ACTION_MAX,
{
    match action {
        LzmaAction::Run => 0,
        LzmaAction::SyncFlush => 1,
        LzmaAction::FullFlush => 2,
        LzmaAction::Finish => 3,
        LzmaAction::FullBarrier => 4,
    }
}

impl LzmaInternal {
    /// A session at its start: no chain, no action taken yet.
    pub fn new() -> (internal: LzmaInternal)
        ensures
            internal.next is None,
            internal.sequence == Sequence::Run,
            internal.avail_in == 0,
            forall|i: int| 0 <= i < 5 ==> !internal.supported_actions@[i],
            !internal.allow_buf_error,
    {
        LzmaInternal {
            next: None,
            sequence: Sequence::Run,
            avail_in: 0,
            supported_actions: [false; 5],
            allow_buf_error: false,
        }
    }
}

/// The state that an action asks for.
pub open spec fn sequence_of(action: LzmaAction) -> Sequence {
    match action {
        LzmaAction::Run => Sequence::Run,
        LzmaAction::SyncFlush => Sequence::SyncFlush,
        LzmaAction::FullFlush => Sequence::FullFlush,
        LzmaAction::Finish => Sequence::Finish,
        LzmaAction::FullBarrier => Sequence::FullBarrier,
    }
}

/// What a call with the action `action` comes to before any coding. An
/// action that the chain does not take is an error of the options. A
/// session that runs goes to the state that the action asks for. A
/// session that flushes or finishes must be called with the same
/// action and the same input until it is done: anything else is the
/// caller's error. A session that has ended reports the end again, and
/// one that has failed takes no more calls.
pub open spec fn sequence_entry(sequence: Sequence, action: LzmaAction, supported: bool, same_input: bool) -> Result<
    Sequence,
    LzmaRet,
> {
    if !supported {
        Err(LzmaRet::OptionsError)
    } else {
        match sequence {
            Sequence::Run => Ok(sequence_of(action)),
            Sequence::End => Err(LzmaRet::StreamEnd),
            Sequence::Error => Err(LzmaRet::ProgError),
            _ => if sequence_of(action) == sequence && same_input {
                Ok(sequence)
            } else {
                Err(LzmaRet::ProgError)
            },
        }
    }
}

/// Decides what a call with the action `action` comes to before any
/// coding.
pub fn sequence_enter(sequence: Sequence, action: LzmaAction, supported: bool, same_input: bool) -> (r:
    Result<Sequence, LzmaRet>)
    ensures
        r == sequence_entry(sequence, action, supported, same_input),
{
    if !supported {
        return Err(LzmaRet::OptionsError);
    }
    let asked: Sequence = match action {
        LzmaAction::Run => Sequence::Run,
        LzmaAction::SyncFlush => Sequence::SyncFlush,
        LzmaAction::FullFlush => Sequence::FullFlush,
        LzmaAction::Finish => Sequence::Finish,
        LzmaAction::FullBarrier => Sequence::FullBarrier,
    };
    match sequence {
        Sequence::Run => Ok(asked),
        Sequence::End => Err(LzmaRet::StreamEnd),
        Sequence::Error => Err(LzmaRet::ProgError),
        _ => if asked == sequence && same_input {
            Ok(sequence)
        } else {
            Err(LzmaRet::ProgError)
        },
    }
}

/// What a session is left with after the chain has returned `ret`: the
/// state, the status for the caller, and whether the next call without
/// progress is a buffer error.
///
/// A call that made no progress is let pass once and is a buffer error
/// the second time in a row. The end of the stream ends a flush and
/// lets the session run on, and ends the session otherwise. A seek
/// lets a session that was finishing run on. A status that tells of
/// the check or of a memory limit leaves the session as it is. Every
/// other status is fatal.
pub open spec fn sequence_exit(sequence: Sequence, ret: LzmaRet, progressed: bool, allow_buf_error: bool) -> (
    Sequence,
    LzmaRet,
    bool,
) {
    match ret {
        LzmaRet::LzmaOk => if progressed {
            (sequence, LzmaRet::LzmaOk, false)
        } else if allow_buf_error {
            (sequence, LzmaRet::BufError, true)
        } else {
            (sequence, LzmaRet::LzmaOk, true)
        },
        LzmaRet::RetInternal1 => (sequence, LzmaRet::LzmaOk, false),
        LzmaRet::SeekNeeded => (
            if sequence == Sequence::Finish {
                Sequence::Run
            } else {
                sequence
            },
            ret,
            false,
        ),
        LzmaRet::StreamEnd => (
            if sequence == Sequence::SyncFlush || sequence == Sequence::FullFlush || sequence
                == Sequence::FullBarrier {
                Sequence::Run
            } else {
                Sequence::End
            },
            ret,
            false,
        ),
        LzmaRet::NoCheck | LzmaRet::UnsupportedCheck | LzmaRet::GetCheck | LzmaRet::MemlimitError => (
            sequence,
            ret,
            false,
        ),
        _ => (Sequence::Error, ret, allow_buf_error),
    }
}

/// Decides what a session is left with after the chain has returned
/// `ret`.
pub fn sequence_leave(sequence: Sequence, ret: LzmaRet, progressed: bool, allow_buf_error: bool) -> (r: (
    Sequence,
    LzmaRet,
    bool,
))
    ensures
        r == sequence_exit(sequence, ret, progressed, allow_buf_error),
{
    match ret {
        LzmaRet::LzmaOk => if progressed {
            (sequence, LzmaRet::LzmaOk, false)
        } else if allow_buf_error {
            (sequence, LzmaRet::BufError, true)
        } else {
            (sequence, LzmaRet::LzmaOk, true)
        },
        LzmaRet::RetInternal1 => (sequence, LzmaRet::LzmaOk, false),
        LzmaRet::SeekNeeded => (
            if sequence == Sequence::Finish {
                Sequence::Run
            } else {
                sequence
            },
            ret,
            false,
        ),
        LzmaRet::StreamEnd => (
            if sequence == Sequence::SyncFlush || sequence == Sequence::FullFlush || sequence
                == Sequence::FullBarrier {
                Sequence::Run
            } else {
                Sequence::End
            },
            ret,
            false,
        ),
        LzmaRet::NoCheck => (sequence, ret, false),
        LzmaRet::UnsupportedCheck => (sequence, ret, false),
        LzmaRet::GetCheck => (sequence, ret, false),
        LzmaRet::MemlimitError => (sequence, ret, false),
        _ => (Sequence::Error, ret, allow_buf_error),
    }
}

/// A session that has ended or failed stays so: no action leads out of
/// `End` or `Error`.
pub proof fn lemma_sequence_terminal(sequence: Sequence, action: LzmaAction, supported: bool, same_input: bool)
    requires
        sequence == Sequence::End || sequence == Sequence::Error,
    ensures
        sequence_entry(sequence, action, supported, same_input) is Err,
{
}

} // verus!
