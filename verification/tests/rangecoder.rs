use liblzma::api::base::LzmaRet;
use liblzma::rangecoder::price::{
    rc_bit_0_price, rc_bit_1_price, rc_bit_price, rc_bittree_price, rc_bittree_reverse_price,
    rc_direct_price, LZMA_RC_PRICES, RC_INFINITY_PRICE, RC_PRICE_TABLE_SIZE,
};
use liblzma::rangecoder::range_common::{
    bit_reset, bittree_reset, prob_update_0, prob_update_1, RC_BIT_MODEL_TOTAL, RC_PROB_INIT,
    RC_TOP_VALUE,
};
use liblzma::rangecoder::range_decoder::{rc_read_init, LzmaRangeDecoder};
use liblzma::rangecoder::range_encoder::{LzmaRangeEncoder, RcSymbol, RC_SYMBOLS_MAX};

/// Drains the encoder into a growing vector, `room` bytes at a time.
fn drain(enc: &mut LzmaRangeEncoder, probs: &mut [u16], out: &mut Vec<u8>, room: usize) {
    loop {
        let mut buf = vec![0u8; room];
        let mut pos = 0usize;
        let more = enc.rc_encode(probs, &mut buf, &mut pos, room);
        out.extend_from_slice(&buf[..pos]);
        if !more {
            break;
        }
        assert_eq!(pos, room);
    }
}

fn encode_reference_vector(room: usize) -> (Vec<u8>, Vec<u16>) {
    let mut enc = LzmaRangeEncoder::new();
    enc.rc_reset();
    let mut probs = vec![1024u16; 4];
    let mut out = Vec::new();
    let bits = [0u32, 1, 1, 0, 1, 0, 0, 0, 1, 1, 1, 1, 0, 1, 0, 1];
    for (k, b) in bits.iter().enumerate() {
        enc.rc_bit(k % 4, *b);
    }
    drain(&mut enc, &mut probs, &mut out, room);
    enc.rc_direct(0b10110010, 8);
    enc.rc_flush();
    drain(&mut enc, &mut probs, &mut out, room);
    (out, probs)
}

#[test]
fn encoder_matches_reference_bytes() {
    let (out, probs) = encode_reference_vector(64);
    assert_eq!(out, vec![0, 105, 38, 174, 61, 119, 110, 0]);
    assert_eq!(probs, vec![1025, 962, 1025, 1022]);
}

#[test]
fn encoder_resumes_across_small_buffers() {
    let (whole, probs_whole) = encode_reference_vector(64);
    for room in 1..5 {
        let (pieces, probs) = encode_reference_vector(room);
        assert_eq!(pieces, whole);
        assert_eq!(probs, probs_whole);
    }
}

#[test]
fn encode_pauses_with_position_kept() {
    let mut enc = LzmaRangeEncoder::new();
    enc.rc_reset();
    let mut probs = vec![1024u16; 1];
    for _ in 0..40 {
        enc.rc_bit(0, 1);
    }
    enc.rc_flush();
    let count = enc.count;
    let mut small = [0u8; 2];
    let mut pos = 0usize;
    let more = enc.rc_encode(&mut probs, &mut small, &mut pos, 2);
    assert!(more);
    assert_eq!(pos, 2);
    assert!(enc.pos > 0 && enc.pos < count);
    assert_eq!(enc.count, count);
    let mut rest = [0u8; 64];
    let mut pos2 = 0usize;
    let more2 = enc.rc_encode(&mut probs, &mut rest, &mut pos2, 64);
    assert!(!more2);
    assert_eq!(enc.count, 0);
    assert_eq!(enc.pos, 0);

    let mut enc1 = LzmaRangeEncoder::new();
    enc1.rc_reset();
    let mut probs1 = vec![1024u16; 1];
    for _ in 0..40 {
        enc1.rc_bit(0, 1);
    }
    enc1.rc_flush();
    let mut big = [0u8; 64];
    let mut big_pos = 0usize;
    assert!(!enc1.rc_encode(&mut probs1, &mut big, &mut big_pos, 64));
    let mut joined = small[..pos].to_vec();
    joined.extend_from_slice(&rest[..pos2]);
    assert_eq!(joined, big[..big_pos].to_vec());
    assert_eq!(probs, probs1);
}

#[test]
fn encode_then_decode_gives_the_bits_back() {
    // A fixed pseudo-random sequence of contexts and bits.
    let mut state: u32 = 12345;
    let mut symbols: Vec<(usize, u32)> = Vec::new();
    for _ in 0..2000 {
        state = state.wrapping_mul(1103515245).wrapping_add(12345);
        let ctx = ((state >> 16) & 7) as usize;
        state = state.wrapping_mul(1103515245).wrapping_add(12345);
        let bit = if (state >> 16) % 10 < 3 { 1 } else { 0 };
        symbols.push((ctx, bit));
    }
    let mut enc = LzmaRangeEncoder::new();
    enc.rc_reset();
    let mut probs = vec![RC_PROB_INIT; 8];
    let mut out = Vec::new();
    for (k, (ctx, bit)) in symbols.iter().enumerate() {
        enc.rc_bit(*ctx, *bit);
        if k % 10 == 9 {
            enc.rc_direct((k as u32) & 0x1F, 5);
        }
        if enc.count + 6 > RC_SYMBOLS_MAX {
            drain(&mut enc, &mut probs, &mut out, 7);
        }
    }
    drain(&mut enc, &mut probs, &mut out, 7);
    enc.rc_flush();
    drain(&mut enc, &mut probs, &mut out, 7);

    let mut rc = LzmaRangeDecoder::default();
    rc.rc_reset();
    let mut in_pos = 0usize;
    let ret = rc_read_init(&mut rc, &out, &mut in_pos, out.len());
    assert_eq!(ret, LzmaRet::StreamEnd);
    assert_eq!(in_pos, 5);
    let mut model = vec![RC_PROB_INIT; 8];
    for (k, (ctx, bit)) in symbols.iter().enumerate() {
        let got = rc.rc_bit(&mut model[*ctx], &out, &mut in_pos, out.len());
        assert_eq!(got, Some(*bit));
        if k % 10 == 9 {
            let mut dest = 0u32;
            for _ in 0..5 {
                assert!(rc.rc_direct(&mut dest, &out, &mut in_pos, out.len()));
            }
            assert_eq!(dest, (k as u32) & 0x1F);
        }
    }
    assert_eq!(model, probs);
    assert!(rc.rc_is_finished());
}

#[test]
fn priming_rejects_a_nonzero_first_byte() {
    let mut rc = LzmaRangeDecoder::default();
    rc.rc_reset();
    let input = [1u8, 0, 0, 0, 0];
    let mut pos = 0usize;
    assert_eq!(rc_read_init(&mut rc, &input, &mut pos, 5), LzmaRet::DataError);
    assert_eq!(pos, 0);
    assert_eq!(rc.init_bytes_left, 5);
}

#[test]
fn priming_takes_five_bytes_and_any_payload() {
    let mut rc = LzmaRangeDecoder::default();
    rc.rc_reset();
    assert_eq!(rc.range, u32::MAX);
    assert_eq!(rc.code, 0);
    assert_eq!(rc.init_bytes_left, 5);
    let input = [0u8, 0x12, 0x34, 0x56, 0x78, 0xAA, 0xBB];
    let mut pos = 0usize;
    assert_eq!(rc_read_init(&mut rc, &input, &mut pos, 7), LzmaRet::StreamEnd);
    assert_eq!(pos, 5);
    assert_eq!(rc.code, 0x12345678);
    assert_eq!(rc.init_bytes_left, 0);
}

#[test]
fn priming_goes_on_over_partial_buffers() {
    let mut rc = LzmaRangeDecoder::default();
    rc.rc_reset();
    let input = [0u8, 1, 2, 3, 4];
    let mut pos = 0usize;
    assert_eq!(rc_read_init(&mut rc, &input, &mut pos, 2), LzmaRet::LzmaOk);
    assert_eq!(pos, 2);
    assert_eq!(rc.init_bytes_left, 3);
    assert_eq!(rc_read_init(&mut rc, &input, &mut pos, 2), LzmaRet::LzmaOk);
    assert_eq!(pos, 2);
    assert_eq!(rc_read_init(&mut rc, &input, &mut pos, 5), LzmaRet::StreamEnd);
    assert_eq!(pos, 5);
    assert_eq!(rc.code, 0x01020304);
}

#[test]
fn decoder_waits_for_input() {
    let mut rc = LzmaRangeDecoder { range: 0x00FF_FFFF, code: 5, init_bytes_left: 0 };
    let mut prob = 1024u16;
    let input = [0u8; 0];
    let mut pos = 0usize;
    assert_eq!(rc.rc_bit(&mut prob, &input, &mut pos, 0), None);
    assert_eq!(rc.range, 0x00FF_FFFF);
    assert_eq!(rc.code, 5);
    assert_eq!(prob, 1024);
    assert!(!rc.rc_normalize(&input, &mut pos, 0));
    let mut dest = 7u32;
    assert!(!rc.rc_direct(&mut dest, &input, &mut pos, 0));
    assert_eq!(dest, 7);
    let more = [0x80u8];
    assert!(rc.rc_normalize(&more, &mut pos, 1));
    assert_eq!(pos, 1);
    assert_eq!(rc.range, 0xFFFF_FF00);
    assert_eq!(rc.code, 0x580);
}

#[test]
fn probability_update_rule() {
    assert_eq!(prob_update_0(1024), 1056);
    assert_eq!(prob_update_1(1024), 992);
    assert_eq!(prob_update_0(2047), 2047);
    assert_eq!(prob_update_1(31), 31);
    assert_eq!(prob_update_0(0), 64);
    assert_eq!(prob_update_1(0), 0);
    let mut p = 5u16;
    bit_reset(&mut p);
    assert_eq!(p, 1024);
    let mut tree = vec![7u16; 10];
    bittree_reset(&mut tree, 3);
    assert_eq!(tree, vec![1024, 1024, 1024, 1024, 1024, 1024, 1024, 1024, 7, 7]);
    assert_eq!(RC_BIT_MODEL_TOTAL, 2048);
    assert_eq!(RC_TOP_VALUE, 1 << 24);
}

#[test]
fn prices_come_from_the_table() {
    assert_eq!(RC_PRICE_TABLE_SIZE, 128);
    assert_eq!(LZMA_RC_PRICES[0], 128);
    assert_eq!(LZMA_RC_PRICES[1], 103);
    assert_eq!(LZMA_RC_PRICES[64], 16);
    assert_eq!(LZMA_RC_PRICES[127], 1);
    assert_eq!(rc_bit_0_price(1024), 16);
    assert_eq!(rc_bit_1_price(1024), 17);
    assert_eq!(rc_bit_price(1024, 0), 16);
    assert_eq!(rc_bit_price(1024, 1), 17);
    assert_eq!(rc_bit_0_price(0), 128);
    assert_eq!(rc_bit_1_price(2047), 128);
    assert_eq!(rc_bit_0_price(2047), 1);
    assert_eq!(rc_bit_1_price(0), 1);
    assert_eq!(rc_direct_price(3), 48);
    assert_eq!(rc_direct_price(0), 0);
    assert_eq!(RC_INFINITY_PRICE, 1 << 30);
}

#[test]
fn price_of_a_zero_never_rises_and_of_a_one_never_falls() {
    let mut before0 = rc_bit_0_price(0);
    let mut before1 = rc_bit_1_price(0);
    for p in 1..2048u16 {
        let price_0 = rc_bit_0_price(p);
        let price_1 = rc_bit_1_price(p);
        assert!(price_0 <= before0);
        assert!(price_1 >= before1);
        before0 = price_0;
        before1 = price_1;
    }
}

#[test]
fn bittree_prices_add_up() {
    let probs: Vec<u16> = (0..8).map(|i| 200 + 200 * i as u16).collect();
    // Symbol 5 = 101b with three levels: nodes 1, 3, 6 with bits 1, 0, 1.
    let expected = rc_bit_price(probs[1], 1) + rc_bit_price(probs[3], 0) + rc_bit_price(probs[6], 1);
    assert_eq!(rc_bittree_price(&probs, 3, 5), expected);
    assert_eq!(rc_bittree_price(&probs, 0, 0), 0);
    // Reverse: bits of 5, lowest first: 1, 0, 1 at nodes 1, 3, 6.
    let reversed = rc_bit_price(probs[1], 1) + rc_bit_price(probs[3], 0) + rc_bit_price(probs[6], 1);
    assert_eq!(rc_bittree_reverse_price(&probs, 3, 5, 0), reversed);
    // Symbol 6 = 110b reversed: bits 0, 1, 1 at nodes 1, 2, 5.
    let reversed6 = rc_bit_price(probs[1], 0) + rc_bit_price(probs[2], 1) + rc_bit_price(probs[5], 1);
    assert_eq!(rc_bittree_reverse_price(&probs, 3, 6, 0), reversed6);
    // With the flag the lowest bit is priced with the first probability.
    let flagged = rc_bit_price(probs[0], 0) + rc_bit_price(probs[2], 1) + rc_bit_price(probs[5], 1);
    assert_eq!(rc_bittree_reverse_price(&probs, 3, 6, 1), flagged);
}

#[test]
fn queueing_fills_the_slots_in_order() {
    let mut enc = LzmaRangeEncoder::new();
    assert_eq!(enc.low, 0);
    assert_eq!(enc.cache_size, 0);
    assert_eq!(enc.range, u32::MAX);
    assert_eq!(enc.count, 0);
    enc.rc_reset();
    assert_eq!(enc.cache_size, 1);
    enc.rc_bit(9, 1);
    enc.rc_bit(4, 0);
    assert_eq!(enc.count, 2);
    assert_eq!(enc.symbols[0], RcSymbol::RcBit1);
    assert_eq!(enc.probs[0], 9);
    assert_eq!(enc.symbols[1], RcSymbol::RcBit0);
    assert_eq!(enc.probs[1], 4);
    // Bit tree at base 100: symbol 5 = 101b, nodes 1, 3, 6.
    enc.rc_bittree(100, 3, 5);
    assert_eq!(enc.count, 5);
    assert_eq!(&enc.symbols[2..5], &[RcSymbol::RcBit1, RcSymbol::RcBit0, RcSymbol::RcBit1]);
    assert_eq!(&enc.probs[2..5], &[101, 103, 106]);
    // Reverse tree at base 200: symbol 6 = 110b, lowest first: 0, 1, 1 at nodes 1, 2, 5.
    enc.rc_bittree_reverse(200, 3, 6, 0);
    assert_eq!(&enc.symbols[5..8], &[RcSymbol::RcBit0, RcSymbol::RcBit1, RcSymbol::RcBit1]);
    assert_eq!(&enc.probs[5..8], &[201, 202, 205]);
    enc.rc_bittree_reverse(200, 3, 6, 1);
    assert_eq!(&enc.probs[8..11], &[200, 202, 205]);
    enc.rc_direct(0b10, 2);
    assert_eq!(&enc.symbols[11..13], &[RcSymbol::RcDirect1, RcSymbol::RcDirect0]);
    enc.rc_flush();
    assert_eq!(enc.count, 18);
    for k in 13..18 {
        assert_eq!(enc.symbols[k], RcSymbol::RcFlush);
    }
    enc.rc_forget();
    assert_eq!(enc.count, 0);
    assert_eq!(RcSymbol::try_from_u32(4), Some(RcSymbol::RcFlush));
    assert_eq!(RcSymbol::try_from_u32(5), None);
    assert_eq!(RcSymbol::default(), RcSymbol::RcBit0);
}

#[test]
fn shift_low_carries_into_held_bytes() {
    let mut enc = LzmaRangeEncoder::new();
    enc.rc_reset();
    // Two pending 0xFF bytes behind the cached 0x12, then a carry.
    enc.cache = 0x12;
    enc.cache_size = 3;
    enc.low = 0x1_0000_0005;
    let mut out = [0u8; 8];
    let mut pos = 0usize;
    assert!(!enc.rc_shift_low(&mut out, &mut pos, 8));
    assert_eq!(pos, 3);
    assert_eq!(&out[..3], &[0x13, 0x00, 0x00]);
    assert_eq!(enc.cache, 0);
    assert_eq!(enc.cache_size, 1);
    assert_eq!(enc.low, 0x500);
    assert_eq!(enc.out_total, 3);
    // A low word of 0xFF...: the byte may still change, so it is held.
    enc.low = 0xFF00_0000;
    assert!(!enc.rc_shift_low(&mut out, &mut pos, 8));
    assert_eq!(pos, 3);
    assert_eq!(enc.cache_size, 2);
    // No room: nothing is shifted.
    enc.low = 0x1234_5678;
    let mut none = [0u8; 0];
    let mut price_0 = 0usize;
    assert!(enc.rc_shift_low(&mut none, &mut price_0, 0));
    assert_eq!(enc.low, 0x1234_5678);
    assert_eq!(enc.cache_size, 2);
}

#[test]
fn bittree_reset_takes_a_short_slice() {
    // Fewer cells than the tree has: all of them are reset.
    let mut short = vec![7u16; 5];
    bittree_reset(&mut short, 3);
    assert_eq!(short, vec![1024; 5]);
    let mut none: Vec<u16> = Vec::new();
    bittree_reset(&mut none, 10);
    assert!(none.is_empty());
    let mut one = vec![3u16, 4, 5];
    bittree_reset(&mut one, 0);
    assert_eq!(one, vec![1024, 4, 5]);
    let mut wide = vec![9u16; 4];
    bittree_reset(&mut wide, 40);
    assert_eq!(wide, vec![1024; 4]);
}

#[test]
fn bit_trees_of_thirty_one_levels() {
    let mut enc = LzmaRangeEncoder::new();
    enc.rc_reset();
    enc.rc_bittree(0, 31, 0x7FFF_FFFF);
    assert_eq!(enc.count, 31);
    assert!(enc.symbols[..31].iter().all(|s| *s == RcSymbol::RcBit1));
    assert_eq!(enc.probs[0], 1);
    assert_eq!(enc.probs[1], 3);
    assert_eq!(enc.probs[30], 0x7FFF_FFFF);
    enc.rc_forget();
    enc.rc_bittree_reverse(0, 31, 0, 0);
    assert_eq!(enc.count, 31);
    assert!(enc.symbols[..31].iter().all(|s| *s == RcSymbol::RcBit0));
    assert_eq!(enc.probs[30], 1 << 30);
}

#[test]
fn a_paused_drain_keeps_the_queue() {
    let mut enc = LzmaRangeEncoder::new();
    enc.rc_reset();
    for k in 0..20usize {
        enc.rc_bit(k % 4, (k % 3 == 0) as u32);
    }
    enc.rc_flush();
    let symbols = enc.symbols;
    let names = enc.probs;
    let mut probs = vec![1024u16; 4];
    let mut out = vec![0u8; 64];
    let mut out_pos = 0usize;
    let mut room = 1usize;
    let mut before = 0usize;
    while enc.rc_encode(&mut probs, &mut out, &mut out_pos, room) {
        assert_eq!(out_pos, room);
        assert_eq!(enc.count, 25);
        assert!(before <= enc.pos && enc.pos < enc.count);
        assert_eq!(enc.symbols, symbols);
        assert_eq!(enc.probs, names);
        before = enc.pos;
        room += 1;
    }
    assert_eq!((enc.count, enc.pos), (0, 0));
    assert_eq!(enc.symbols, symbols);
    let (whole, model) = {
        let mut enc = LzmaRangeEncoder::new();
        enc.rc_reset();
        for k in 0..20usize {
            enc.rc_bit(k % 4, (k % 3 == 0) as u32);
        }
        enc.rc_flush();
        let mut probs = vec![1024u16; 4];
        let mut out = vec![0u8; 64];
        let mut out_pos = 0usize;
        assert!(!enc.rc_encode(&mut probs, &mut out, &mut out_pos, 64));
        (out[..out_pos].to_vec(), probs)
    };
    assert_eq!(&out[..out_pos], &whole[..]);
    assert_eq!(probs, model);
}
