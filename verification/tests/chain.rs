use liblzma::api::base::{LzmaAction, LzmaRet, LzmaStream};
use liblzma::api::bcj::{LzmaOptionsBcj, LZMA_FILTER_ARM, LZMA_FILTER_ARM64, LZMA_FILTER_ARMTHUMB};
use liblzma::api::delta::LzmaOptionsDelta;
use liblzma::api::filter::{LzmaFilter, LzmaOptionsType};
use liblzma::api::vli::LZMA_VLI_UNKNOWN;
use liblzma::common::common::{
    action_number, lzma_next_end, lzma_next_filter_update, sequence_enter, sequence_leave,
    CoderOp, CoderType, LzmaFilterInfo, LzmaInternal, LzmaNextCoder, NextCoderInitFunction,
    Sequence, LZMA_ACTION_MAX,
};
use liblzma::simple::arm::{arm_code, lzma_simple_arm_decoder_init, lzma_simple_arm_encoder_init};
use liblzma::simple::arm64::{
    arm64_code, lzma_simple_arm64_decoder_init, lzma_simple_arm64_encoder_init,
};
use liblzma::simple::armthumb::{
    armthumb_code, lzma_simple_armthumb_decoder_init, lzma_simple_armthumb_encoder_init,
};
use liblzma::simple::simple_coder::{lzma_bufcpy, lzma_next_filter_init, lzma_simple_coder_init};
use liblzma::simple::simple_private::{LzmaSimpleCoder, SimpleFilter, SimpleType};

fn info(id: u64, init: NextCoderInitFunction, start: Option<u32>) -> LzmaFilterInfo {
    LzmaFilterInfo {
        id,
        init: Some(init),
        options: start.map(|s| LzmaOptionsType::Bcj(LzmaOptionsBcj { start_offset: s })),
    }
}

fn end_of_list() -> LzmaFilterInfo {
    LzmaFilterInfo { id: LZMA_VLI_UNKNOWN, init: None, options: None }
}

fn stage(next: &LzmaNextCoder) -> &LzmaSimpleCoder {
    match next.coder.as_deref() {
        Some(CoderType::SimpleCoder(c)) => c,
        None => panic!("no stage"),
    }
}

fn sample(len: usize, seed: u32) -> Vec<u8> {
    let mut state = seed;
    (0..len)
        .map(|_| {
            state = state.wrapping_mul(1664525).wrapping_add(1013904223);
            let b = (state >> 24) as u8;
            if b & 3 == 0 {
                0xEB
            } else {
                b
            }
        })
        .collect()
}

/// Runs a session over `input`, giving it `in_step` bytes of input and
/// `out_step` bytes of room at a time.
fn run(filters: &[LzmaFilterInfo], input: &[u8], in_step: usize, out_step: usize) -> Vec<u8> {
    let mut strm = LzmaStream::default();
    assert_eq!(strm.raw_coder(filters), LzmaRet::LzmaOk);
    strm.next_out = vec![0u8; out_step];
    let mut out = Vec::new();
    let mut fed = 0usize;
    strm.next_in = &input[..0];
    let mut rounds = 0;
    loop {
        rounds += 1;
        assert!(rounds < 100000);
        if strm.avail_in == 0 && fed < input.len() {
            let n = in_step.min(input.len() - fed);
            strm.next_in = &input[fed..fed + n];
            strm.avail_in = n;
            fed += n;
        }
        strm.next_out_pos = 0;
        strm.avail_out = out_step;
        let action = if fed == input.len() { LzmaAction::Finish } else { LzmaAction::Run };
        let ret = strm.code(action);
        out.extend_from_slice(&strm.next_out[..strm.next_out_pos as usize]);
        match ret {
            LzmaRet::LzmaOk => {},
            LzmaRet::StreamEnd => break,
            other => panic!("unexpected status {:?}", other),
        }
    }
    assert_eq!(strm.total_in, input.len() as u64);
    assert_eq!(strm.total_out, out.len() as u64);
    assert_eq!(strm.code(LzmaAction::Finish), LzmaRet::StreamEnd);
    strm.end();
    assert!(strm.internal.is_none());
    out
}

#[test]
fn arm_stage_filters_the_whole_stream() {
    let input = sample(1003, 21);
    let mut expected = input.clone();
    let mut simple = SimpleType::NoData;
    let done = arm_code(&mut simple, 0, true, &mut expected, input.len());
    assert_eq!(done, 1000);
    let filters = [info(LZMA_FILTER_ARM, NextCoderInitFunction::SimpleArmEncoder, None), end_of_list()];
    for (in_step, out_step) in [(1003, 2000), (1, 1), (3, 5), (7, 2), (64, 9), (5, 64)] {
        assert_eq!(run(&filters, &input, in_step, out_step), expected, "{} {}", in_step, out_step);
    }
}

#[test]
fn stages_of_a_chain_run_one_after_the_other() {
    let input = sample(515, 22);
    // The first stage of the list is the outermost: data pass the last stage first.
    let mut expected = input.clone();
    let mut simple = SimpleType::NoData;
    armthumb_code(&mut simple, 8, true, &mut expected, input.len());
    arm64_code(&mut simple, 0, true, &mut expected, input.len());
    let filters = [
        info(LZMA_FILTER_ARM64, NextCoderInitFunction::SimpleArm64Encoder, None),
        info(LZMA_FILTER_ARMTHUMB, NextCoderInitFunction::SimpleArmThumbEncoder, Some(8)),
        end_of_list(),
    ];
    for (in_step, out_step) in [(515, 600), (1, 1), (4, 3), (10, 7)] {
        assert_eq!(run(&filters, &input, in_step, out_step), expected);
    }
}

#[test]
fn session_refuses_what_the_chain_does_not_take() {
    let filters = [info(LZMA_FILTER_ARM, NextCoderInitFunction::SimpleArmEncoder, None), end_of_list()];
    let mut strm = LzmaStream::default();
    assert_eq!(strm.code(LzmaAction::Run), LzmaRet::ProgError);
    assert_eq!(strm.init(), LzmaRet::LzmaOk);
    assert_eq!(strm.code(LzmaAction::Run), LzmaRet::ProgError);
    assert_eq!(strm.raw_coder(&filters), LzmaRet::LzmaOk);
    strm.next_out = vec![0u8; 16];
    strm.avail_out = 16;
    assert_eq!(strm.code(LzmaAction::SyncFlush), LzmaRet::OptionsError);
    assert_eq!(strm.code(LzmaAction::FullFlush), LzmaRet::OptionsError);
    assert_eq!(strm.get_internal_mut().unwrap().sequence, Sequence::Run);
    let data = [1u8, 2, 3, 4, 5, 6, 7, 8];
    strm.next_in = &data;
    strm.avail_in = 8;
    assert_eq!(strm.code(LzmaAction::Finish), LzmaRet::StreamEnd);
    assert_eq!(strm.total_in, 8);
    assert_eq!(strm.total_out, 8);
    assert_eq!(&strm.next_out[..8], &data);
    assert_eq!(strm.get_internal_mut().unwrap().sequence, Sequence::End);
    assert_eq!(strm.code(LzmaAction::Run), LzmaRet::StreamEnd);
    // Starting anew lets the session run again.
    assert_eq!(strm.init(), LzmaRet::LzmaOk);
    assert_eq!(strm.total_in, 0);
    assert_eq!(strm.get_internal_mut().unwrap().sequence, Sequence::Run);
    strm.end();
    assert!(strm.get_internal_mut().is_none());
}

#[test]
fn finishing_must_go_on_with_the_same_input() {
    let filters = [info(LZMA_FILTER_ARM, NextCoderInitFunction::SimpleArmEncoder, None), end_of_list()];
    let mut strm = LzmaStream::default();
    assert_eq!(strm.raw_coder(&filters), LzmaRet::LzmaOk);
    let data = [9u8; 32];
    strm.next_in = &data;
    strm.avail_in = 32;
    strm.next_out = vec![0u8; 4];
    strm.avail_out = 4;
    assert_eq!(strm.code(LzmaAction::Finish), LzmaRet::LzmaOk);
    assert_eq!(strm.get_internal_mut().unwrap().sequence, Sequence::Finish);
    strm.next_out_pos = 0;
    strm.avail_out = 4;
    assert_eq!(strm.code(LzmaAction::Run), LzmaRet::ProgError);
    let mut other = LzmaStream::default();
    assert_eq!(other.raw_coder(&filters), LzmaRet::LzmaOk);
    other.next_in = &data;
    other.avail_in = 32;
    other.next_out = vec![0u8; 4];
    other.avail_out = 4;
    assert_eq!(other.code(LzmaAction::Finish), LzmaRet::LzmaOk);
    other.avail_in -= 1;
    other.next_out_pos = 0;
    other.avail_out = 4;
    assert_eq!(other.code(LzmaAction::Finish), LzmaRet::ProgError);
}

#[test]
fn no_progress_twice_is_a_buffer_error() {
    let filters = [info(LZMA_FILTER_ARM, NextCoderInitFunction::SimpleArmEncoder, None), end_of_list()];
    let mut strm = LzmaStream::default();
    assert_eq!(strm.raw_coder(&filters), LzmaRet::LzmaOk);
    assert_eq!(strm.code(LzmaAction::Run), LzmaRet::LzmaOk);
    assert!(strm.get_internal_mut().unwrap().allow_buf_error);
    assert_eq!(strm.code(LzmaAction::Run), LzmaRet::BufError);
    assert_eq!(strm.get_internal_mut().unwrap().sequence, Sequence::Run);
}

#[test]
fn session_state_machine() {
    assert_eq!(sequence_enter(Sequence::Run, LzmaAction::Run, true, true), Ok(Sequence::Run));
    assert_eq!(sequence_enter(Sequence::Run, LzmaAction::SyncFlush, true, false), Ok(Sequence::SyncFlush));
    assert_eq!(sequence_enter(Sequence::Run, LzmaAction::FullFlush, true, false), Ok(Sequence::FullFlush));
    assert_eq!(sequence_enter(Sequence::Run, LzmaAction::Finish, true, false), Ok(Sequence::Finish));
    assert_eq!(sequence_enter(Sequence::Run, LzmaAction::FullBarrier, true, false), Ok(Sequence::FullBarrier));
    assert_eq!(sequence_enter(Sequence::Run, LzmaAction::Run, false, true), Err(LzmaRet::OptionsError));
    assert_eq!(sequence_enter(Sequence::Finish, LzmaAction::Finish, true, true), Ok(Sequence::Finish));
    assert_eq!(sequence_enter(Sequence::Finish, LzmaAction::Finish, true, false), Err(LzmaRet::ProgError));
    assert_eq!(sequence_enter(Sequence::Finish, LzmaAction::Run, true, true), Err(LzmaRet::ProgError));
    assert_eq!(sequence_enter(Sequence::SyncFlush, LzmaAction::SyncFlush, true, true), Ok(Sequence::SyncFlush));
    assert_eq!(sequence_enter(Sequence::End, LzmaAction::Run, true, true), Err(LzmaRet::StreamEnd));
    assert_eq!(sequence_enter(Sequence::Error, LzmaAction::Run, true, true), Err(LzmaRet::ProgError));

    assert_eq!(sequence_leave(Sequence::Run, LzmaRet::LzmaOk, true, true), (Sequence::Run, LzmaRet::LzmaOk, false));
    assert_eq!(sequence_leave(Sequence::Run, LzmaRet::LzmaOk, false, false), (Sequence::Run, LzmaRet::LzmaOk, true));
    assert_eq!(sequence_leave(Sequence::Run, LzmaRet::LzmaOk, false, true), (Sequence::Run, LzmaRet::BufError, true));
    assert_eq!(sequence_leave(Sequence::Finish, LzmaRet::StreamEnd, true, false), (Sequence::End, LzmaRet::StreamEnd, false));
    assert_eq!(sequence_leave(Sequence::SyncFlush, LzmaRet::StreamEnd, true, false), (Sequence::Run, LzmaRet::StreamEnd, false));
    assert_eq!(sequence_leave(Sequence::FullFlush, LzmaRet::StreamEnd, true, false), (Sequence::Run, LzmaRet::StreamEnd, false));
    assert_eq!(sequence_leave(Sequence::FullBarrier, LzmaRet::StreamEnd, true, false), (Sequence::Run, LzmaRet::StreamEnd, false));
    assert_eq!(sequence_leave(Sequence::Finish, LzmaRet::SeekNeeded, true, true), (Sequence::Run, LzmaRet::SeekNeeded, false));
    assert_eq!(sequence_leave(Sequence::Run, LzmaRet::RetInternal1, false, true), (Sequence::Run, LzmaRet::LzmaOk, false));
    assert_eq!(sequence_leave(Sequence::Run, LzmaRet::GetCheck, false, true), (Sequence::Run, LzmaRet::GetCheck, false));
    assert_eq!(sequence_leave(Sequence::Run, LzmaRet::NoCheck, false, true), (Sequence::Run, LzmaRet::NoCheck, false));
    assert_eq!(sequence_leave(Sequence::Run, LzmaRet::UnsupportedCheck, false, true).0, Sequence::Run);
    assert_eq!(sequence_leave(Sequence::Run, LzmaRet::MemlimitError, false, true).0, Sequence::Run);
    for fatal in [LzmaRet::MemError, LzmaRet::FormatError, LzmaRet::OptionsError, LzmaRet::DataError, LzmaRet::ProgError, LzmaRet::BufError] {
        assert_eq!(sequence_leave(Sequence::Run, fatal, true, false), (Sequence::Error, fatal, false));
    }
    assert_eq!(action_number(LzmaAction::Run), 0);
    assert_eq!(action_number(LzmaAction::FullBarrier), LZMA_ACTION_MAX);
    let fresh = LzmaInternal::new();
    assert!(fresh.next.is_none());
    assert_eq!(fresh.sequence, Sequence::Run);
    assert_eq!(fresh.supported_actions, [false; 5]);
}

#[test]
fn setup_checks_the_alignment() {
    let mut next = LzmaNextCoder::default();
    let good = [info(LZMA_FILTER_ARM, NextCoderInitFunction::SimpleArmDecoder, Some(16)), end_of_list()];
    assert_eq!(lzma_next_filter_init(&mut next, &good), LzmaRet::LzmaOk);
    assert_eq!(next.id, LZMA_FILTER_ARM);
    assert_eq!(next.init, Some(NextCoderInitFunction::SimpleArmDecoder));
    let c = stage(&next);
    assert_eq!(c.now_pos, 16);
    assert!(!c.is_encoder);
    assert_eq!(c.filter, Some(SimpleFilter::Arm));
    assert_eq!((c.allocated, c.buffer.len(), c.pos, c.filtered, c.size), (8, 8, 0, 0, 0));
    assert!(!c.end_was_reached);
    assert_eq!(c.next.id, LZMA_VLI_UNKNOWN);
    assert!(c.next.coder.is_none());

    let bad = [info(LZMA_FILTER_ARM, NextCoderInitFunction::SimpleArmEncoder, Some(2)), end_of_list()];
    assert_eq!(lzma_next_filter_init(&mut next, &bad), LzmaRet::OptionsError);
    let thumb_ok = [info(LZMA_FILTER_ARMTHUMB, NextCoderInitFunction::SimpleArmThumbEncoder, Some(2)), end_of_list()];
    assert_eq!(lzma_next_filter_init(&mut next, &thumb_ok), LzmaRet::LzmaOk);
    assert_eq!(stage(&next).filter, Some(SimpleFilter::ArmThumb));
    let thumb_bad = [info(LZMA_FILTER_ARMTHUMB, NextCoderInitFunction::SimpleArmThumbDecoder, Some(1)), end_of_list()];
    assert_eq!(lzma_next_filter_init(&mut next, &thumb_bad), LzmaRet::OptionsError);
    let deep_bad = [
        info(LZMA_FILTER_ARM64, NextCoderInitFunction::SimpleArm64Encoder, None),
        info(LZMA_FILTER_ARM, NextCoderInitFunction::SimpleArmEncoder, Some(6)),
        end_of_list(),
    ];
    assert_eq!(lzma_next_filter_init(&mut next, &deep_bad), LzmaRet::OptionsError);
    let wrong_family = [
        LzmaFilterInfo {
            id: LZMA_FILTER_ARM,
            init: Some(NextCoderInitFunction::SimpleArmEncoder),
            options: Some(LzmaOptionsType::Delta(LzmaOptionsDelta::default())),
        },
        end_of_list(),
    ];
    assert_eq!(lzma_next_filter_init(&mut next, &wrong_family), LzmaRet::OptionsError);
    assert_eq!(lzma_next_filter_init(&mut next, &[]), LzmaRet::LzmaOk);
    assert!(next.coder.is_none());
    assert_eq!(next.id, LZMA_VLI_UNKNOWN);
}

#[test]
fn each_setup_function_makes_its_stage() {
    let list = [info(77, NextCoderInitFunction::SimpleArmEncoder, Some(4)), end_of_list()];
    let checks: Vec<(fn(&mut LzmaNextCoder, &[LzmaFilterInfo]) -> LzmaRet, SimpleFilter, bool)> = vec![
        (lzma_simple_arm_encoder_init, SimpleFilter::Arm, true),
        (lzma_simple_arm_decoder_init, SimpleFilter::Arm, false),
        (lzma_simple_arm64_encoder_init, SimpleFilter::Arm64, true),
        (lzma_simple_arm64_decoder_init, SimpleFilter::Arm64, false),
        (lzma_simple_armthumb_encoder_init, SimpleFilter::ArmThumb, true),
        (lzma_simple_armthumb_decoder_init, SimpleFilter::ArmThumb, false),
    ];
    for (init, filter, is_encoder) in checks {
        let mut next = LzmaNextCoder::default();
        assert_eq!(init(&mut next, &list), LzmaRet::LzmaOk);
        let c = stage(&next);
        assert_eq!(c.filter, Some(filter));
        assert_eq!(c.is_encoder, is_encoder);
        assert_eq!(c.now_pos, 4);
    }
    let mut next = LzmaNextCoder::default();
    assert_eq!(
        lzma_simple_coder_init(&mut next, &list, SimpleFilter::Arm64, 0, 4, 8, true),
        LzmaRet::OptionsError
    );
    assert_eq!(
        lzma_simple_coder_init(&mut next, &list, SimpleFilter::Arm64, 0, 4, 4, false),
        LzmaRet::LzmaOk
    );
    assert_eq!(stage(&next).filter, Some(SimpleFilter::Arm64));
    let plain = LzmaSimpleCoder::new(16);
    assert!(plain.filter.is_none());
    assert!(plain.is_encoder);
    assert_eq!((plain.allocated, plain.pos, plain.filtered, plain.size, plain.now_pos), (0, 0, 0, 0, 0));
    assert!(plain.buffer.is_empty());
    assert!(plain.next.coder.is_none());
}

#[test]
fn capabilities_and_update() {
    let mut next = LzmaNextCoder::default();
    for op in [CoderOp::Code, CoderOp::End, CoderOp::GetProgress, CoderOp::GetCheck, CoderOp::Memconfig, CoderOp::Update, CoderOp::SetOutLimit] {
        assert!(!next.supports(op));
    }
    let mut none = [0u8; 4];
    let (mut i, mut o) = (0usize, 0usize);
    assert_eq!(next.code(&[1, 2], &mut i, 2, &mut none, &mut o, 4, LzmaAction::Run), LzmaRet::ProgError);
    let list = [
        info(LZMA_FILTER_ARM, NextCoderInitFunction::SimpleArmEncoder, None),
        info(LZMA_FILTER_ARM64, NextCoderInitFunction::SimpleArm64Encoder, None),
        end_of_list(),
    ];
    assert_eq!(lzma_next_filter_init(&mut next, &list), LzmaRet::LzmaOk);
    assert!(next.supports(CoderOp::Code));
    assert!(next.supports(CoderOp::End));
    assert!(next.supports(CoderOp::Update));
    assert!(!next.supports(CoderOp::GetProgress));
    assert!(!next.supports(CoderOp::GetCheck));
    assert!(!next.supports(CoderOp::Memconfig));
    assert!(!next.supports(CoderOp::SetOutLimit));
    assert_eq!(next.get_progress(), None);
    assert_eq!(next.get_check(), None);
    assert_eq!(next.memconfig(1 << 20), None);
    assert_eq!(next.set_out_limit(100), None);

    let f = |id: u64| LzmaFilter { id, options: None };
    let same = [f(LZMA_FILTER_ARM), f(LZMA_FILTER_ARM64), f(LZMA_VLI_UNKNOWN)];
    assert_eq!(lzma_next_filter_update(&mut next, &same, 0), LzmaRet::LzmaOk);
    let swapped = [f(LZMA_FILTER_ARM64), f(LZMA_FILTER_ARM), f(LZMA_VLI_UNKNOWN)];
    assert_eq!(lzma_next_filter_update(&mut next, &swapped, 0), LzmaRet::OptionsError);
    let other = [f(LZMA_FILTER_ARM), f(LZMA_FILTER_ARMTHUMB), f(LZMA_VLI_UNKNOWN)];
    assert_eq!(lzma_next_filter_update(&mut next, &other, 0), LzmaRet::OptionsError);
    let short = [f(LZMA_FILTER_ARM), f(LZMA_FILTER_ARM64)];
    assert_eq!(lzma_next_filter_update(&mut next, &short, 0), LzmaRet::OptionsError);
    let long = [f(LZMA_FILTER_ARM), f(LZMA_FILTER_ARM64), f(LZMA_FILTER_ARM), f(LZMA_VLI_UNKNOWN)];
    assert_eq!(lzma_next_filter_update(&mut next, &long, 0), LzmaRet::OptionsError);
    assert_eq!(lzma_next_filter_update(&mut next, &same, 1), LzmaRet::OptionsError);
    assert_eq!(stage(&next).filter, Some(SimpleFilter::Arm));
    lzma_next_end(&mut next);
    assert!(next.coder.is_none());
    assert_eq!(next.id, LZMA_VLI_UNKNOWN);
    assert_eq!(next.init, None);
    let end = [f(LZMA_VLI_UNKNOWN)];
    assert_eq!(lzma_next_filter_update(&mut next, &end, 0), LzmaRet::LzmaOk);
}

#[test]
fn bufcpy_copies_what_fits() {
    let src = [1u8, 2, 3, 4, 5];
    let mut dst = [0u8; 8];
    let (mut sp, mut dp) = (1usize, 6usize);
    assert_eq!(lzma_bufcpy(&src, &mut sp, 5, &mut dst, &mut dp, 8), 2);
    assert_eq!((sp, dp), (3, 8));
    assert_eq!(dst, [0, 0, 0, 0, 0, 0, 2, 3]);
    let (mut sp, mut dp) = (3usize, 0usize);
    assert_eq!(lzma_bufcpy(&src, &mut sp, 4, &mut dst, &mut dp, 8), 1);
    assert_eq!(dst, [4, 0, 0, 0, 0, 0, 2, 3]);
    assert_eq!(lzma_bufcpy(&src, &mut sp, 4, &mut dst, &mut dp, 8), 0);
}

#[test]
fn a_stage_cannot_flush_in_the_middle() {
    let mut next = LzmaNextCoder::default();
    let list = [info(LZMA_FILTER_ARM, NextCoderInitFunction::SimpleArmEncoder, None), end_of_list()];
    assert_eq!(lzma_next_filter_init(&mut next, &list), LzmaRet::LzmaOk);
    let input = [0u8, 0, 0, 0xEB, 1, 2];
    let mut out = [0xCCu8; 16];
    let (mut i, mut o) = (0usize, 0usize);
    assert_eq!(next.code(&input, &mut i, 6, &mut out, &mut o, 16, LzmaAction::SyncFlush), LzmaRet::OptionsError);
    assert_eq!((i, o), (0, 0));
    assert_eq!(out, [0xCC; 16]);
    assert_eq!(next.code(&input, &mut i, 6, &mut out, &mut o, 16, LzmaAction::Run), LzmaRet::LzmaOk);
    assert_eq!((i, o), (6, 4));
    assert_eq!(&out[..4], &[2, 0, 0, 0xEB]);
    assert_eq!(stage(&next).size, 2);
    assert_eq!(stage(&next).now_pos, 4);
    assert_eq!(next.code(&input, &mut i, 6, &mut out, &mut o, 16, LzmaAction::Finish), LzmaRet::StreamEnd);
    assert_eq!(&out[..6], &[2, 0, 0, 0xEB, 1, 2]);
    assert_eq!(o, 6);
}

#[test]
fn a_larger_buffer_gives_the_same_stream() {
    let input = sample(777, 5);
    let mut expected = input.clone();
    let mut simple = SimpleType::NoData;
    assert_eq!(arm_code(&mut simple, 0, true, &mut expected, input.len()), 776);
    let list = [info(LZMA_FILTER_ARM, NextCoderInitFunction::SimpleArmEncoder, None), end_of_list()];
    for unfiltered_max in [4usize, 5, 16, 100] {
        let mut next = LzmaNextCoder::default();
        assert_eq!(
            lzma_simple_coder_init(&mut next, &list, SimpleFilter::Arm, 0, unfiltered_max, 4, true),
            LzmaRet::LzmaOk
        );
        assert_eq!(stage(&next).allocated, 2 * unfiltered_max);
        assert_eq!(stage(&next).buffer.len(), 2 * unfiltered_max);
        let mut out = vec![0u8; 1000];
        let mut in_pos = 0usize;
        let mut out_pos = 0usize;
        let mut rounds = 0;
        loop {
            rounds += 1;
            assert!(rounds < 10000);
            let in_size = (in_pos + 11).min(input.len());
            let out_size = (out_pos + 7).min(out.len());
            let action = if in_size == input.len() { LzmaAction::Finish } else { LzmaAction::Run };
            let ret = next.code(&input, &mut in_pos, in_size, &mut out, &mut out_pos, out_size, action);
            if ret == LzmaRet::StreamEnd {
                break;
            }
            assert_eq!(ret, LzmaRet::LzmaOk);
            // A call stops only where the input or the room is used up.
            assert!(in_pos == in_size || out_pos == out_size);
            if action == LzmaAction::Finish {
                assert_eq!(out_pos, out_size);
            }
        }
        assert_eq!(in_pos, input.len());
        assert_eq!(&out[..out_pos], &expected[..]);
    }
}

#[test]
fn a_decoder_does_not_end_by_itself() {
    let plain = sample(64, 77);
    let mut coded = plain.clone();
    let mut simple = SimpleType::NoData;
    assert_eq!(arm_code(&mut simple, 0, true, &mut coded, 64), 64);
    let list = [info(LZMA_FILTER_ARM, NextCoderInitFunction::SimpleArmDecoder, None), end_of_list()];
    let mut next = LzmaNextCoder::default();
    assert_eq!(lzma_next_filter_init(&mut next, &list), LzmaRet::LzmaOk);
    let mut out = vec![0u8; 100];
    let mut in_pos = 0usize;
    let mut out_pos = 0usize;
    // The input is used up while finishing, and there is room left: the
    // decoder has given out all it could and waits for more.
    assert_eq!(
        next.code(&coded, &mut in_pos, 64, &mut out, &mut out_pos, 100, LzmaAction::Finish),
        LzmaRet::LzmaOk
    );
    assert_eq!((in_pos, out_pos), (64, 64));
    assert_eq!(&out[..64], &plain[..]);
    assert!(!stage(&next).end_was_reached);
    assert_eq!(
        next.code(&coded, &mut in_pos, 64, &mut out, &mut out_pos, 100, LzmaAction::Finish),
        LzmaRet::LzmaOk
    );
    assert_eq!((in_pos, out_pos), (64, 64));
}

#[test]
fn an_encoder_ends_when_the_last_byte_has_gone_out() {
    let input = sample(30, 3);
    let list = [info(LZMA_FILTER_ARM, NextCoderInitFunction::SimpleArmEncoder, None), end_of_list()];
    let mut next = LzmaNextCoder::default();
    assert_eq!(lzma_next_filter_init(&mut next, &list), LzmaRet::LzmaOk);
    let mut out = vec![0u8; 30];
    let mut in_pos = 0usize;
    let mut out_pos = 0usize;
    // Room for all but one byte: the end has been seen, one byte waits.
    assert_eq!(
        next.code(&input, &mut in_pos, 30, &mut out, &mut out_pos, 29, LzmaAction::Finish),
        LzmaRet::LzmaOk
    );
    assert_eq!((in_pos, out_pos), (30, 29));
    assert!(stage(&next).end_was_reached);
    assert_eq!(stage(&next).size - stage(&next).pos, 1);
    // No room: nothing moves, and the end is not reported.
    assert_eq!(
        next.code(&input, &mut in_pos, 30, &mut out, &mut out_pos, 29, LzmaAction::Finish),
        LzmaRet::LzmaOk
    );
    assert_eq!((in_pos, out_pos), (30, 29));
    assert_eq!(
        next.code(&input, &mut in_pos, 30, &mut out, &mut out_pos, 30, LzmaAction::Finish),
        LzmaRet::StreamEnd
    );
    assert_eq!((in_pos, out_pos), (30, 30));
    assert_eq!(stage(&next).pos, stage(&next).size);
}

#[test]
fn decoding_undoes_encoding_through_the_chain() {
    let mut plain = sample(1234, 41);
    // Some instructions that the ARM-Thumb converter takes up.
    for at in [100usize, 300, 902] {
        plain[at..at + 4].copy_from_slice(&[0x12, 0xF3, 0x45, 0xFA]);
    }
    let encoders = [
        (LZMA_FILTER_ARM, NextCoderInitFunction::SimpleArmEncoder, NextCoderInitFunction::SimpleArmDecoder, 4u32),
        (
            LZMA_FILTER_ARM64,
            NextCoderInitFunction::SimpleArm64Encoder,
            NextCoderInitFunction::SimpleArm64Decoder,
            8,
        ),
        (
            LZMA_FILTER_ARMTHUMB,
            NextCoderInitFunction::SimpleArmThumbEncoder,
            NextCoderInitFunction::SimpleArmThumbDecoder,
            6,
        ),
    ];
    for (id, encoder, decoder, start) in encoders {
        let coded = run(&[info(id, encoder, Some(start)), end_of_list()], &plain, 13, 17);
        assert_eq!(coded.len(), plain.len());
        assert_ne!(coded, plain);
        let mut next = LzmaNextCoder::default();
        assert_eq!(
            lzma_next_filter_init(&mut next, &[info(id, decoder, Some(start)), end_of_list()]),
            LzmaRet::LzmaOk
        );
        let mut out = vec![0u8; plain.len()];
        let mut in_pos = 0usize;
        let mut out_pos = 0usize;
        let mut rounds = 0;
        while in_pos < coded.len() {
            rounds += 1;
            assert!(rounds < 10000);
            let in_size = (in_pos + 5).min(coded.len());
            let out_size = (out_pos + 9).min(out.len());
            assert_eq!(
                next.code(&coded, &mut in_pos, in_size, &mut out, &mut out_pos, out_size, LzmaAction::Run),
                LzmaRet::LzmaOk
            );
        }
        // What the decoder still holds are the bytes behind the last whole
        // instruction, which no converter changes.
        let held = stage(&next);
        let rest = &held.buffer[held.pos..held.size];
        assert_eq!(out_pos + rest.len(), plain.len());
        assert_eq!(&out[..out_pos], &plain[..out_pos]);
        assert_eq!(rest, &plain[out_pos..]);
    }
}
