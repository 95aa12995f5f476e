use liblzma::api::base::{LzmaAction, LzmaRet, LzmaStream};
use liblzma::api::bcj::{LzmaOptionsBcj, LZMA_FILTER_ARM, LZMA_FILTER_X86};
use liblzma::api::block::{
    lzma_block_header_size_decode, LzmaBlock, LZMA_BLOCK_HEADER_SIZE_MAX,
    LZMA_BLOCK_HEADER_SIZE_MIN,
};
use liblzma::api::check::{LzmaCheck, LZMA_CHECK_ID_MAX, LZMA_CHECK_SIZE_MAX};
use liblzma::api::container::{LzmaMt, LZMA_PRESET_DEFAULT, LZMA_PRESET_EXTREME};
use liblzma::api::delta::{LzmaDeltaType, LzmaOptionsDelta, LZMA_DELTA_DIST_MAX, LZMA_FILTER_DELTA};
use liblzma::api::filter::{LzmaFilter, LzmaOptionsType, LZMA_FILTERS_MAX};
use liblzma::api::index::LzmaIndexIterMode;
use liblzma::api::lzma12::{
    copy_bytes, lzma_set_ext_size, LzmaMatchFinder, LzmaMode, LzmaOptionsLzma,
    LZMA_DICT_SIZE_DEFAULT, LZMA_FILTER_LZMA1, LZMA_FILTER_LZMA2,
};
use liblzma::api::stream_flags::{
    LzmaStreamFlags, LZMA_BACKWARD_SIZE_MAX, LZMA_BACKWARD_SIZE_MIN, LZMA_STREAM_HEADER_SIZE,
};
use liblzma::api::version::{
    lzma_version_string_c, lzma_version_string_c_, LZMA_VERSION, LZMA_VERSION_MAJOR,
    LZMA_VERSION_MINOR, LZMA_VERSION_PATCH,
};
use liblzma::api::vli::{lzma_vli_is_valid, LZMA_VLI_BYTES_MAX, LZMA_VLI_MAX, LZMA_VLI_UNKNOWN};

#[test]
fn vli_valid_range() {
    assert!(lzma_vli_is_valid(0));
    assert!(lzma_vli_is_valid((1u64 << 63) - 1));
    assert!(!lzma_vli_is_valid(1u64 << 63));
    assert!(!lzma_vli_is_valid(u64::MAX - 1));
    assert!(lzma_vli_is_valid(u64::MAX));
    assert_eq!(LZMA_VLI_MAX, u64::MAX / 2);
    assert_eq!(LZMA_VLI_UNKNOWN, u64::MAX);
    assert_eq!(LZMA_VLI_BYTES_MAX, 9);
}

#[test]
fn version_text() {
    assert_eq!(lzma_version_string_c_(5, 4, 4, "", ""), "5.4.4");
    assert_eq!(lzma_version_string_c(5, 4, 4, "beta", "-g1234"), "5.4.4beta-g1234");
    assert_eq!(lzma_version_string_c(0, 10, 4000000000, "", ""), "0.10.4000000000");
    assert_eq!(LZMA_VERSION, 50040042);
    assert_eq!((LZMA_VERSION_MAJOR, LZMA_VERSION_MINOR, LZMA_VERSION_PATCH), (5, 4, 4));
}

#[test]
fn block_header_sizes() {
    assert_eq!(lzma_block_header_size_decode(0), 4);
    assert_eq!(lzma_block_header_size_decode(1), 8);
    assert_eq!(lzma_block_header_size_decode(2), 12);
    assert_eq!(lzma_block_header_size_decode(255), 1024);
    assert_eq!(LZMA_BLOCK_HEADER_SIZE_MIN, 8);
    assert_eq!(LZMA_BLOCK_HEADER_SIZE_MAX, 1024);
    assert_eq!(LZMA_STREAM_HEADER_SIZE, 12);
    assert_eq!(LZMA_BACKWARD_SIZE_MIN, 4);
    assert_eq!(LZMA_BACKWARD_SIZE_MAX, 1 << 34);
}

#[test]
fn defaults_are_zero() {
    let b = LzmaBlock::default();
    assert_eq!((b.version, b.header_size, b.compressed_size, b.uncompressed_size), (0, 0, 0, 0));
    assert_eq!(b.check, LzmaCheck::CheckNone);
    assert!(b.filters.is_empty());
    assert_eq!(b.raw_check, [0u8; LZMA_CHECK_SIZE_MAX]);
    assert!(!b.ignore_check);
    assert_eq!(b.reserved_int8, 0);
    let s = LzmaStream::default();
    assert!(s.next_in.is_empty());
    assert_eq!((s.avail_in, s.total_in, s.avail_out, s.total_out, s.next_out_pos), (0, 0, 0, 0, 0));
    assert!(s.next_out.is_empty());
    assert!(s.internal.is_none());
    assert_eq!(s.seek_pos, 0);
    let o = LzmaOptionsLzma::default();
    assert_eq!(o.dict_size, 0);
    assert!(o.preset_dict.is_none());
    assert_eq!(o.mode, LzmaMode::Fast);
    assert_eq!(o.mf, LzmaMatchFinder::LzmaMfHc3);
    assert_eq!(LzmaOptionsBcj::default().start_offset, 0);
    assert_eq!(LzmaOptionsDelta::default().type_, LzmaDeltaType::Byte);
    assert_eq!(LzmaOptionsDelta::default().dist, 0);
    assert_eq!(LzmaFilter::default().id, 0);
    assert!(LzmaFilter::default().options.is_none());
    assert_eq!(LzmaStreamFlags::default().version, 0);
    assert_eq!(LzmaCheck::default(), LzmaCheck::CheckNone);
    assert_eq!(LzmaDeltaType::default(), LzmaDeltaType::Byte);
}

#[test]
fn checks_have_their_numbers() {
    assert_eq!(LzmaCheck::CheckNone.id(), 0);
    assert_eq!(LzmaCheck::Crc32.id(), 1);
    assert_eq!(LzmaCheck::Crc64.id(), 4);
    assert_eq!(LzmaCheck::Sha256.id(), 10);
    assert_eq!(LzmaCheck::try_from_u32(0), Some(LzmaCheck::CheckNone));
    assert_eq!(LzmaCheck::try_from_u32(1), Some(LzmaCheck::Crc32));
    assert_eq!(LzmaCheck::try_from_u32(4), Some(LzmaCheck::Crc64));
    assert_eq!(LzmaCheck::try_from_u32(10), Some(LzmaCheck::Sha256));
    for v in [2u32, 3, 5, 9, 11, 15, 16, u32::MAX] {
        assert_eq!(LzmaCheck::try_from_u32(v), None);
    }
    assert_eq!(LZMA_CHECK_ID_MAX, 15);
}

#[test]
fn options_by_family() {
    let lzma = LzmaOptionsType::LzmaOptionsLzma(LzmaOptionsLzma::default());
    let delta = LzmaOptionsType::Delta(LzmaOptionsDelta { dist: 3, ..Default::default() });
    let bcj = LzmaOptionsType::Bcj(LzmaOptionsBcj { start_offset: 64 });
    let lod = LzmaOptionsType::Lod(LzmaOptionsDelta::default());
    let none = LzmaOptionsType::NoOptions;
    assert!(lzma.as_lzma_options_lzma().is_some());
    assert!(lzma.as_delta().is_none() && lzma.as_bcj().is_none());
    assert_eq!(delta.as_delta().unwrap().dist, 3);
    assert!(delta.as_bcj().is_none() && delta.as_lzma_options_lzma().is_none());
    assert_eq!(bcj.as_bcj().unwrap().start_offset, 64);
    assert!(bcj.as_delta().is_none());
    assert!(lod.as_delta().is_none());
    assert!(none.as_bcj().is_none() && none.as_delta().is_none() && none.as_lzma_options_lzma().is_none());
    assert_eq!(LZMA_FILTERS_MAX, 4);
    assert_eq!(LZMA_FILTER_X86, 4);
    assert_eq!(LZMA_FILTER_ARM, 7);
    assert_eq!(LZMA_FILTER_DELTA, 3);
    assert_eq!(LZMA_FILTER_LZMA2, 0x21);
    assert_eq!(LZMA_FILTER_LZMA1, 0x4000000000000001);
    assert_eq!(LZMA_DELTA_DIST_MAX, 256);
    assert_eq!(LZMA_DICT_SIZE_DEFAULT, 1 << 23);
    assert_eq!(LZMA_PRESET_DEFAULT, 6);
    assert_eq!(LZMA_PRESET_EXTREME, 1 << 31);
}

#[test]
fn ext_size_is_split_in_two() {
    let mut o = LzmaOptionsLzma::default();
    o.preset_dict = Some(vec![1, 2, 3]);
    o.lc = 3;
    lzma_set_ext_size(&mut o, 0x1234_5678_9ABC_DEF0);
    assert_eq!(o.ext_size_low, 0x9ABC_DEF0);
    assert_eq!(o.ext_size_high, 0x1234_5678);
    assert_eq!(o.lc, 3);
    lzma_set_ext_size(&mut o, u64::MAX);
    assert_eq!((o.ext_size_low, o.ext_size_high), (u32::MAX, u32::MAX));
    let c = o.clone();
    assert_eq!(c.preset_dict, Some(vec![1, 2, 3]));
    assert_eq!((c.lc, c.ext_size_low, c.ext_size_high), (3, u32::MAX, u32::MAX));
    assert_eq!(copy_bytes(&vec![9, 8, 7]), vec![9, 8, 7]);
    assert_eq!(copy_bytes(&Vec::new()), Vec::<u8>::new());
}

#[test]
fn status_and_action_values() {
    assert_ne!(LzmaRet::LzmaOk, LzmaRet::StreamEnd);
    assert_eq!(LzmaRet::DataError, LzmaRet::DataError);
    assert_ne!(LzmaAction::Run, LzmaAction::Finish);
    let mt = LzmaMt {
        flags: 0,
        threads: 4,
        block_size: 0,
        timeout: 0,
        preset: LZMA_PRESET_DEFAULT,
        filters: vec![LzmaFilter::default()],
        check: LzmaCheck::Crc64,
        reserved_enum1: 0,
        reserved_enum2: 0,
        reserved_enum3: 0,
        reserved_int1: 0,
        reserved_int2: 0,
        reserved_int3: 0,
        reserved_int4: 0,
        memlimit_threading: 0,
        memlimit_stop: 0,
        reserved_int7: 0,
        reserved_int8: 0,
    };
    assert_eq!(mt.threads, 4);
    assert_eq!(mt.filters.len(), 1);
}

#[test]
fn kinds_of_check_and_modes_are_ordered() {
    assert!(LzmaCheck::CheckNone < LzmaCheck::Crc32);
    assert!(LzmaCheck::Crc32 < LzmaCheck::Crc64);
    assert!(LzmaCheck::Crc64 < LzmaCheck::Sha256);
    assert!(LzmaCheck::Sha256 >= LzmaCheck::Sha256);
    assert!(LzmaIndexIterMode::Any < LzmaIndexIterMode::Stream);
    assert!(LzmaIndexIterMode::Stream < LzmaIndexIterMode::Block);
    assert!(LzmaIndexIterMode::Block < LzmaIndexIterMode::NonEmptyBlock);
}

#[test]
fn starting_a_session_twice_changes_nothing_more() {
    let data = [1u8, 2, 3];
    let mut strm = LzmaStream::default();
    strm.next_in = &data;
    strm.avail_in = 3;
    strm.next_out = vec![0u8; 8];
    strm.avail_out = 8;
    strm.total_in = 11;
    strm.total_out = 12;
    strm.seek_pos = 77;
    strm.reserved_int2 = 5;
    strm.reserved_int3 = 6;
    strm.reserved_int4 = 7;
    strm.reserved_enum1 = 1;
    strm.reserved_enum2 = 2;
    assert_eq!(strm.init(), LzmaRet::LzmaOk);
    assert_eq!(strm.get_internal_mut().unwrap().avail_in, 0);
    strm.get_internal_mut().unwrap().avail_in = 3;
    strm.get_internal_mut().unwrap().allow_buf_error = true;
    strm.get_internal_mut().unwrap().supported_actions = [true; 5];
    assert_eq!(strm.init(), LzmaRet::LzmaOk);
    let first = format!("{:?}", strm);
    assert_eq!(strm.init(), LzmaRet::LzmaOk);
    assert_eq!(format!("{:?}", strm), first);
    assert_eq!((strm.total_in, strm.total_out), (0, 0));
    assert_eq!((strm.avail_in, strm.avail_out, strm.next_out_pos), (3, 8, 0));
    assert_eq!(strm.seek_pos, 77);
    assert_eq!((strm.reserved_int2, strm.reserved_int3, strm.reserved_int4), (5, 6, 7));
    assert_eq!((strm.reserved_enum1, strm.reserved_enum2), (1, 2));
    let session = strm.get_internal_mut().unwrap();
    assert_eq!(session.avail_in, 3);
    assert!(!session.allow_buf_error);
    assert_eq!(session.supported_actions, [false; 5]);
    strm.end();
    assert!(strm.internal.is_none());
    assert_eq!(strm.seek_pos, 77);
    assert_eq!((strm.reserved_int2, strm.reserved_enum2), (5, 2));
}
