use liblzma::simple::arm::arm_code;
use liblzma::simple::arm64::arm64_code;
use liblzma::simple::armthumb::armthumb_code;
use liblzma::simple::simple_private::{LzmaSimpleX86, SimpleType};

fn sample(len: usize, seed: u32) -> Vec<u8> {
    let mut state = seed;
    let mut v = Vec::with_capacity(len);
    for _ in 0..len {
        state = state.wrapping_mul(1664525).wrapping_add(1013904223);
        let b = (state >> 24) as u8;
        // Make branch-like bytes frequent.
        let b = match b & 7 {
            0 => 0xEB,
            1 => 0xF0 | (b >> 5),
            2 => 0xF8 | (b >> 5),
            3 => 0x94 | (b >> 6),
            4 => 0x90 | (b >> 7) << 7,
            _ => b,
        };
        v.push(b);
    }
    v
}

#[test]
fn arm_encodes_a_branch() {
    let mut simple = SimpleType::NoData;
    let mut buf = vec![0x01, 0x00, 0x00, 0xEB, 0xAA, 0xBB];
    let done = arm_code(&mut simple, 0, true, &mut buf, 6);
    assert_eq!(done, 4);
    assert_eq!(buf, vec![0x03, 0x00, 0x00, 0xEB, 0xAA, 0xBB]);
    let back = arm_code(&mut simple, 0, false, &mut buf, 6);
    assert_eq!(back, 4);
    assert_eq!(buf, vec![0x01, 0x00, 0x00, 0xEB, 0xAA, 0xBB]);
}

#[test]
fn arm_uses_the_position() {
    let mut simple = SimpleType::NoData;
    // Second word at now_pos 0x1000 + 4: offset 0x10 becomes 0x10 + (0x1004 + 8) / 4 = 0x413.
    let mut buf = vec![0, 0, 0, 0, 0x10, 0x00, 0x00, 0xEB];
    assert_eq!(arm_code(&mut simple, 0x1000, true, &mut buf, 8), 8);
    assert_eq!(buf, vec![0, 0, 0, 0, 0x13, 0x04, 0x00, 0xEB]);
}

#[test]
fn arm_leaves_short_tails() {
    let mut simple = SimpleType::NoData;
    let mut buf = vec![1, 2, 0xEB];
    assert_eq!(arm_code(&mut simple, 0, true, &mut buf, 3), 0);
    assert_eq!(buf, vec![1, 2, 0xEB]);
    let mut seven = vec![0, 0, 0, 0xEB, 0, 0, 0xEB];
    assert_eq!(arm_code(&mut simple, 0, true, &mut seven, 7), 4);
    assert_eq!(seven, vec![2, 0, 0, 0xEB, 0, 0, 0xEB]);
    let mut none: Vec<u8> = Vec::new();
    assert_eq!(arm_code(&mut simple, 0, true, &mut none, 0), 0);
}

#[test]
fn arm_round_trip_at_aligned_positions() {
    for (seed, now_pos) in [(1u32, 0u32), (2, 4), (3, 0xFFFF_FFF0), (4, 0x1234_5678 & !3)] {
        let plain = sample(1021, seed);
        let mut buf = plain.clone();
        let mut simple = SimpleType::NoData;
        let done = arm_code(&mut simple, now_pos, true, &mut buf, plain.len());
        assert_eq!(done, 1020);
        assert_ne!(buf, plain);
        assert_eq!(arm_code(&mut simple, now_pos, false, &mut buf, plain.len()), 1020);
        assert_eq!(buf, plain);
    }
}

#[test]
fn arm_does_not_round_trip_off_alignment() {
    let mut simple = SimpleType::NoData;
    let mut buf = vec![0, 0, 0, 0xEB];
    arm_code(&mut simple, 1, true, &mut buf, 4);
    assert_eq!(buf, vec![2, 0, 0, 0xEB]);
    arm_code(&mut simple, 1, false, &mut buf, 4);
    assert_eq!(buf, vec![0xFF, 0xFF, 0xFF, 0xEB]);
}

#[test]
fn arm64_encodes_bl() {
    let mut simple = SimpleType::NoData;
    // BL with offset 1 at address 0x1000: 1 + 0x1000 / 4 = 0x401.
    let mut buf = vec![0x01, 0x00, 0x00, 0x94];
    assert_eq!(arm64_code(&mut simple, 0x1000, true, &mut buf, 4), 4);
    assert_eq!(buf, vec![0x01, 0x04, 0x00, 0x94]);
    assert_eq!(arm64_code(&mut simple, 0x1000, false, &mut buf, 4), 4);
    assert_eq!(buf, vec![0x01, 0x00, 0x00, 0x94]);
}

#[test]
fn arm64_encodes_adrp_in_range_only() {
    let mut simple = SimpleType::NoData;
    // ADRP x0 with page offset 1 at address 0x3000: 1 + 3 = 4, so immlo 0, immhi 1.
    let mut buf = 0x3000_0000u32.wrapping_add(0x9000_0000 - 0x1000_0000).to_le_bytes().to_vec();
    // 0xB0000000: immlo = 1, immhi = 0.
    assert_eq!(buf, vec![0x00, 0x00, 0x00, 0xB0]);
    assert_eq!(arm64_code(&mut simple, 0x3000, true, &mut buf, 4), 4);
    assert_eq!(buf, vec![0x20, 0x00, 0x00, 0x90]);
    assert_eq!(arm64_code(&mut simple, 0x3000, false, &mut buf, 4), 4);
    assert_eq!(buf, vec![0x00, 0x00, 0x00, 0xB0]);
    // An ADRP whose offset is out of +-512 MiB stays: immhi bit 17 set alone.
    let far = 0x9000_0000u32 | (0x2_0000 << 3);
    let mut out = far.to_le_bytes().to_vec();
    assert_eq!(arm64_code(&mut simple, 0x3000, true, &mut out, 4), 4);
    assert_eq!(out, far.to_le_bytes().to_vec());
}

#[test]
fn arm64_round_trip_at_any_position() {
    for (seed, now_pos) in [(5u32, 0u32), (6, 1), (7, 0xFFFF_FFFE), (8, 0x0ABC_DEF3)] {
        let plain = sample(2050, seed);
        let mut buf = plain.clone();
        let mut simple = SimpleType::NoData;
        assert_eq!(arm64_code(&mut simple, now_pos, true, &mut buf, plain.len()), 2048);
        assert_eq!(arm64_code(&mut simple, now_pos, false, &mut buf, plain.len()), 2048);
        assert_eq!(buf, plain);
    }
}

#[test]
fn armthumb_encodes_bl() {
    let mut simple = SimpleType::NoData;
    let mut buf = vec![0x00, 0xF0, 0x01, 0xF8];
    assert_eq!(armthumb_code(&mut simple, 0, true, &mut buf, 4), 4);
    assert_eq!(buf, vec![0x00, 0xF0, 0x03, 0xF8]);
    assert_eq!(armthumb_code(&mut simple, 0, false, &mut buf, 4), 4);
    assert_eq!(buf, vec![0x00, 0xF0, 0x01, 0xF8]);
}

#[test]
fn armthumb_steps_by_two_and_by_four() {
    let mut simple = SimpleType::NoData;
    // No instruction at 0; one at 2; the scan then stands at 6.
    let mut buf = vec![0x11, 0x22, 0x00, 0xF0, 0x01, 0xF8, 0x33];
    let done = armthumb_code(&mut simple, 0, true, &mut buf, 7);
    assert_eq!(done, 6);
    // Offset 1 halfword, address 2: (2 + 4 + 2) / 2 = 4.
    assert_eq!(buf, vec![0x11, 0x22, 0x00, 0xF0, 0x04, 0xF8, 0x33]);
    let mut short = vec![0x00, 0xF0, 0x01];
    assert_eq!(armthumb_code(&mut simple, 0, true, &mut short, 3), 0);
    let mut five = vec![0x11, 0x22, 0x33, 0x44, 0x55];
    assert_eq!(armthumb_code(&mut simple, 0, true, &mut five, 5), 2);
}

#[test]
fn armthumb_round_trip_at_even_positions() {
    for (seed, now_pos) in [(9u32, 0u32), (10, 2), (11, 0xFFFF_FFFC), (12, 0x0ABC_DEF2)] {
        let plain = sample(3001, seed);
        let mut buf = plain.clone();
        let mut simple = SimpleType::NoData;
        let done = armthumb_code(&mut simple, now_pos, true, &mut buf, plain.len());
        assert!(done % 2 == 0 && done + 3 >= plain.len());
        assert_eq!(armthumb_code(&mut simple, now_pos, false, &mut buf, plain.len()), done);
        assert_eq!(buf, plain);
    }
}

#[test]
fn filters_only_look_at_the_given_size() {
    let plain = sample(64, 13);
    let mut simple = SimpleType::X86Filter(LzmaSimpleX86::default());
    let mut a = plain.clone();
    arm_code(&mut simple, 0, true, &mut a, 32);
    assert_eq!(&a[32..], &plain[32..]);
    let mut b = plain.clone();
    arm64_code(&mut simple, 0, true, &mut b, 32);
    assert_eq!(&b[32..], &plain[32..]);
    let mut c = plain.clone();
    armthumb_code(&mut simple, 0, true, &mut c, 32);
    assert_eq!(&c[32..], &plain[32..]);
    match simple {
        SimpleType::X86Filter(x) => assert_eq!((x.prev_mask, x.prev_pos), (0, 0)),
        _ => panic!("the converter's state was replaced"),
    }
}
