use liblzma::tuklib::common::{get_progname, set_progname, ProgName};
use liblzma::tuklib::mythread::{get_tick_count, MyThreadCondTime};
use liblzma::tuklib::sysdefs::{memzero, my_max, my_min};
use liblzma::tuklib::tuklib_exit::{exit_status, shows_error};
use liblzma::tuklib::tuklib_open_stdxxx::{stdxxx_step, NullAccess, Probe, StdStep};
use liblzma::tuklib::tuklib_integer::{
    conv16le, conv32le, conv64le, read32le, read32ne, read64le, read64ne, write32le, write32ne,
};
use liblzma::tuklib::tuklib_mbstr_fw::tuklib_mbstr_fw;
use liblzma::tuklib::tuklib_mbstr_width::tuklib_mbstr_width;
use liblzma::tuklib::tuklib_progname::tuklib_progname_init;

#[test]
fn integers_are_read_lowest_byte_first() {
    assert_eq!(read32le(&[0x78, 0x56, 0x34, 0x12]), 0x12345678);
    assert_eq!(read32ne(&[0x78, 0x56, 0x34, 0x12, 0xFF]), 0x12345678);
    assert_eq!(read32le(&[0x01, 0x02]), 0x0201);
    assert_eq!(read32le(&[]), 0);
    assert_eq!(read32le(&[0xFF, 0xFF, 0xFF, 0xFF]), u32::MAX);
    assert_eq!(read64le(&[1, 2, 3, 4, 5, 6, 7, 8]), 0x0807060504030201);
    assert_eq!(read64ne(&[0xFF; 8]), u64::MAX);
    assert_eq!(conv16le(0x1234), 0x1234);
    assert_eq!(conv32le(0x12345678), 0x12345678);
    assert_eq!(conv64le(0x1234567890ABCDEF), 0x1234567890ABCDEF);
}

#[test]
fn integers_are_written_lowest_byte_first() {
    let mut buf = [0xAAu8; 6];
    write32le(&mut buf, 0x12345678);
    assert_eq!(buf, [0x78, 0x56, 0x34, 0x12, 0xAA, 0xAA]);
    write32ne(&mut buf, 1);
    assert_eq!(buf, [1, 0, 0, 0, 0xAA, 0xAA]);
    write32le(&mut buf, u32::MAX);
    assert_eq!(read32le(&buf), u32::MAX);
}

#[test]
fn smaller_and_greater() {
    assert_eq!(my_min(3, 5), 3);
    assert_eq!(my_min(5, 3), 3);
    assert_eq!(my_min(4, 4), 4);
    assert_eq!(my_max(3, 5), 5);
    assert_eq!(my_max(5, 3), 5);
    assert_eq!(my_max("a", "b"), "b");
    assert_eq!(my_min((1, 9), (1, 2)), (1, 2));
}

#[test]
fn memzero_sets_defaults() {
    let mut bytes = [7u8, 8, 9];
    memzero(&mut bytes);
    assert_eq!(bytes, [0, 0, 0]);
    let mut words = vec![String::from("a"), String::from("b")];
    memzero(&mut words);
    assert_eq!(words, vec![String::new(), String::new()]);
    let mut none: [u32; 0] = [];
    memzero(&mut none);
}

#[test]
fn widths() {
    assert_eq!(tuklib_mbstr_width("hello", 0), 5);
    assert_eq!(tuklib_mbstr_width("hello", 3), 3);
    assert_eq!(tuklib_mbstr_width("", 0), 0);
    assert_eq!(tuklib_mbstr_fw("hello", 8), 8);
    assert_eq!(tuklib_mbstr_fw("hello", 5), 5);
    assert_eq!(tuklib_mbstr_fw("hello", 4), 0);
    assert_eq!(tuklib_mbstr_fw("", 0), 0);
    assert_eq!(tuklib_mbstr_fw("hello", -3), -3);
}

#[test]
fn program_name() {
    let mut holder = ProgName::new();
    assert_eq!(get_progname(&holder), Some(String::new()));
    set_progname(&mut holder, "xz");
    assert_eq!(get_progname(&holder), Some(String::from("xz")));
    tuklib_progname_init(&mut holder, "/usr/bin/unxz");
    assert_eq!(get_progname(&holder), Some(String::from("/usr/bin/unxz")));
    let t = MyThreadCondTime::default();
    assert_eq!((t.start, t.timeout), (0, 0));
}

#[test]
fn tick_count_is_the_low_32_bits_of_the_milliseconds() {
    assert_eq!(get_tick_count(0), 0);
    assert_eq!(get_tick_count(1_700_000_000_123), 3_487_918_203);
    assert_eq!(get_tick_count(0xFFFF_FFFF), u32::MAX);
    assert_eq!(get_tick_count(0x1_0000_0000), 0);
    assert_eq!(get_tick_count(u128::MAX), u32::MAX);
}

#[test]
fn exit_status_turns_to_the_error_status_when_a_flush_fails() {
    assert_eq!(exit_status(0, 1, false, false), 0);
    assert_eq!(exit_status(0, 1, true, false), 1);
    assert_eq!(exit_status(0, 1, false, true), 1);
    assert_eq!(exit_status(2, 1, true, true), 1);
    assert_eq!(exit_status(1, 1, false, false), 1);
    assert_eq!(exit_status(3, 7, false, false), 3);
    assert!(shows_error(0, 1, 1, true));
    assert!(!shows_error(0, 1, 0, true));
    assert!(!shows_error(0, 1, 1, false));
    assert!(!shows_error(1, 1, 1, true));
}

#[test]
fn closed_standard_descriptors_are_opened_the_wrong_way_round() {
    assert_eq!(stdxxx_step(0, Probe::Open), StdStep::Keep);
    assert_eq!(stdxxx_step(0, Probe::Closed), StdStep::Reopen(NullAccess::WriteOnly));
    assert_eq!(stdxxx_step(1, Probe::Closed), StdStep::Reopen(NullAccess::ReadOnly));
    assert_eq!(stdxxx_step(2, Probe::Closed), StdStep::Reopen(NullAccess::ReadOnly));
    assert_eq!(stdxxx_step(2, Probe::Failed), StdStep::GiveUp);
}
