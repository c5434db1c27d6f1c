use nibblepack::sink::{DeltaDiffPackSink, DeltaSink, DoubleXorSink, LongSink};
use nibblepack::pack::{nibble_pack8, pack_f64_xor, pack_u64, pack_u64_delta};
use nibblepack::unpack::{nibble_unpack8, unpack, unpack_f64_xor};
use nibblepack::NibblePackError;

#[test]
fn nibblepack8_all_zeroes() {
    let mut buf = Vec::with_capacity(512);
    let inputs = [0u64; 8];
    nibble_pack8(&inputs, &mut buf);
    assert_eq!(buf.len(), 1);
    assert_eq!(buf[..], [0u8]);
}

#[test]
fn nibblepack8_all_evennibbles() {
    // All 8 are nonzero, even # nibbles
    let mut buf = Vec::with_capacity(512);
    let inputs = [ 0x0000_00fe_dcba_0000u64, 0x0000_0033_2211_0000u64,
                   0x0000_0044_3322_0000u64, 0x0000_0055_4433_0000u64,
                   0x0000_0066_5544_0000u64, 0x0000_0076_5432_0000u64,
                   0x0000_0087_6543_0000u64, 0x0000_0098_7654_0000u64, ];
    nibble_pack8(&inputs, &mut buf);

    // Expected result:
    let expected_buf = [
        0xffu8, // Every input is nonzero, all bits on
        0x54u8, // six nibbles wide, four zero nibbles trailing
        0xbau8, 0xdcu8, 0xfeu8, 0x11u8, 0x22u8, 0x33u8, 0x22u8, 0x33u8, 0x44u8,
        0x33u8, 0x44u8, 0x55u8, 0x44u8, 0x55u8, 0x66u8, 0x32u8, 0x54u8, 0x76u8,
        0x43u8, 0x65u8, 0x87u8, 0x54u8, 0x76u8, 0x98u8, ];
    assert_eq!(buf.len(), 2 + 3 * 8);
    assert_eq!(buf[..], expected_buf);
}

// Even nibbles with different combos of partial
#[test]
fn nibblepack8_partial_evennibbles() {
    // All 8 are nonzero, even # nibbles
    let mut buf = Vec::with_capacity(1024);
    let inputs = [
        0u64,
        0x0000_0033_2211_0000u64, 0x0000_0044_3322_0000u64,
        0x0000_0055_4433_0000u64, 0x0000_0066_5544_0000u64,
        0u64,
        0u64,
        0u64,
    ];
    nibble_pack8(&inputs, &mut buf);

    // Expected result:
    let expected_buf = [
        0b0001_1110u8, // only some bits on
        0x54u8,        // six nibbles wide, four zero nibbles trailing
        0x11u8, 0x22u8, 0x33u8, 0x22u8, 0x33u8, 0x44u8,
        0x33u8, 0x44u8, 0x55u8, 0x44u8, 0x55u8, 0x66u8,
    ];
    assert_eq!(buf.len(), 2 + 3 * 4);
    assert_eq!(buf[..], expected_buf);
}

// Odd nibbles with different combos of partial
#[test]
fn nibblepack8_partial_oddnibbles() {
    // All 8 are nonzero, even # nibbles
    let mut buf = Vec::with_capacity(1024);
    let inputs = [
        0u64,
        0x0000_0033_2210_0000u64, 0x0000_0044_3320_0000u64,
        0x0000_0055_4430_0000u64, 0x0000_0066_5540_0000u64,
        0x0000_0076_5430_0000u64, 0u64, 0u64,
    ];
    nibble_pack8(&inputs, &mut buf);

    // Expected result:
    let expected_buf = [
        0b0011_1110u8, // only some bits on
        0x45u8,        // five nibbles wide, five zero nibbles trailing
        0x21u8, 0x32u8, 0x23u8, 0x33u8, 0x44u8, // First two values
        0x43u8, 0x54u8, 0x45u8, 0x55u8, 0x66u8,
        0x43u8, 0x65u8, 0x07u8,
    ];
    assert_eq!(buf.len(), expected_buf.len());
    assert_eq!(buf[..], expected_buf);
}

// Odd nibbles > 8 nibbles
#[test]
fn nibblepack8_partial_oddnibbles_large() {
    // All 8 are nonzero, even # nibbles
    let mut buf = Vec::with_capacity(1024);
    let inputs = [
        0u64,
        0x0005_4433_2211_0000u64, 0x0000_0044_3320_0000u64,
        0x0007_6655_4433_0000u64, 0x0000_0066_5540_0000u64,
        0x0001_9876_5430_0000u64, 0u64, 0u64,
    ];
    nibble_pack8(&inputs, &mut buf);

    // Expected result:
    let expected_buf = [
        0b0011_1110u8, // only some bits on
        0x84u8,        // nine nibbles wide, four zero nibbles trailing
        0x11u8, 0x22u8, 0x33u8, 0x44u8, 0x05u8, 0x32u8, 0x43u8, 0x04u8, 0,
        0x33u8, 0x44u8, 0x55u8, 0x66u8, 0x07u8, 0x54u8, 0x65u8, 0x06u8, 0,
        0x30u8, 0x54u8, 0x76u8, 0x98u8, 0x01u8,
    ];
    assert_eq!(buf[..], expected_buf);
}

#[test]
fn nibblepack8_64bit_numbers() {
    let mut buf = Vec::with_capacity(1024);
    let inputs = [0, 0, -1i32 as u64, -2i32 as u64, 0, -100234i32 as u64, 0, 0];
    nibble_pack8(&inputs, &mut buf);

    let expected_buf = [
        0b0010_1100u8,
        0xf0u8, // all 16 nibbles wide, zero nibbles trailing
        0xffu8, 0xffu8, 0xffu8, 0xffu8, 0xffu8, 0xffu8, 0xffu8, 0xffu8,
        0xfeu8, 0xffu8, 0xffu8, 0xffu8, 0xffu8, 0xffu8, 0xffu8, 0xffu8,
        0x76u8, 0x78u8, 0xfeu8, 0xffu8, 0xffu8, 0xffu8, 0xffu8, 0xffu8,
    ];
    assert_eq!(buf[..], expected_buf);
}

#[test]
fn unpack8_all_zeroes() {
    let compressed_array = [0x00u8];
    let mut sink = LongSink::new();
    let res = nibble_unpack8(&compressed_array, &mut sink);
    assert_eq!(res.unwrap().is_empty(), true);
    assert_eq!(sink.vec.len(), 8);
    assert_eq!(sink.vec[..], [0u64; 8]);
}

#[test]
fn unpack8_input_too_short() {
    let compressed = [
        0b0011_1110u8, // only some bits on
        0x84u8,        // nine nibbles wide, four zero nibbles trailing
        0x11u8, 0x22u8, 0x33u8, 0x44u8, 0x05u8, 0x32u8, 0x43u8, 0x04u8, 0,
        0x33u8, 0x44u8, 0x55u8, 0x66u8, 0x07u8,
    ]; // too short!!
    let mut sink = LongSink::new();
    let res = nibble_unpack8(&compressed, &mut sink);
    assert_eq!(res, Err(NibblePackError::InputTooShort));
}

// Tests the case where nibbles lines up with 64-bit boundaries - edge case
#[test]
fn unpack8_4nibbles_allfull() {
    // 4 nibbles = 2^16, so values < 65536
    let inputs = [65535u64; 8];
    let mut buf = Vec::with_capacity(1024);
    nibble_pack8(&inputs, &mut buf);

    let mut sink = LongSink::new();
    let res = nibble_unpack8(&buf[..], &mut sink);
    assert_eq!(res.unwrap().len(), 0);
    assert_eq!(sink.vec[..], inputs);
}

#[test]
fn unpack8_partial_oddnibbles() {
    let compressed = [
        0b0011_1110u8, // only some bits on
        0x84u8,        // nine nibbles wide, four zero nibbles trailing
        0x11u8, 0x22u8, 0x33u8, 0x44u8, 0x05u8, 0x32u8, 0x43u8, 0x04u8, 0,
        0x33u8, 0x44u8, 0x55u8, 0x66u8, 0x07u8, 0x54u8, 0x65u8, 0x06u8, 0,
        0x30u8, 0x54u8, 0x76u8, 0x98u8, 0x01u8,
        0x00u8, ]; // extra padding... just to test the return value
    let mut sink = LongSink::new();
    let res = nibble_unpack8(&compressed, &mut sink);
    assert_eq!(res.unwrap().len(), 1);
    assert_eq!(sink.vec.len(), 8);

    let orig = [
        0u64,
        0x0005_4433_2211_0000u64, 0x0000_0044_3320_0000u64,
        0x0007_6655_4433_0000u64, 0x0000_0066_5540_0000u64,
        0x0001_9876_5430_0000u64, 0u64, 0u64,
    ];

    assert_eq!(sink.vec[..], orig);
}

#[test]
fn pack_unpack_u64_plain() {
    let inputs = [0u64, 1000, 1001, 1002, 1003, 2005, 2010, 3034, 4045, 5056, 6067, 7078];
    let mut buf = Vec::with_capacity(1024);
    pack_u64(&inputs[..], &mut buf);
    println!("Packed {} u64 inputs (plain) into {} bytes", inputs.len(), buf.len());

    let mut sink = LongSink::new();
    let res = unpack(&buf[..], &mut sink, inputs.len());
    assert_eq!(res.unwrap().len(), 0);
    assert_eq!(sink.vec[..inputs.len()], inputs);
}

#[test]
fn pack_unpack_u64_deltas() {
    let inputs = [0u64, 1000, 1001, 1002, 1003, 2005, 2010, 3034, 4045, 5056, 6067, 7078];
    let mut buf = Vec::with_capacity(1024);
    pack_u64_delta(&inputs[..], &mut buf);
    println!("Packed {} u64 inputs (delta) into {} bytes", inputs.len(), buf.len());

    let mut sink = DeltaSink::new();
    let res = unpack(&buf[..], &mut sink, inputs.len());
    assert_eq!(res.unwrap().len(), 0);
    assert_eq!(sink.sink.vec[..inputs.len()], inputs);
}

#[test]
fn pack_unpack_f64_xor() {
    let inputs = [0f64, 0.5, 2.5, 10., 25., 100.];
    let bits: Vec<u64> = inputs.iter().map(|f| f.to_bits()).collect();
    let mut buf = Vec::with_capacity(512);
    pack_f64_xor(&bits[..], &mut buf).unwrap();
    println!("Packed {} f64 inputs (XOR) into {} bytes", inputs.len(), buf.len());

    let out = Vec::<u64>::with_capacity(64);
    let mut sink = DoubleXorSink::new(out);
    let res = unpack_f64_xor(&buf[..], &mut sink, inputs.len());
    assert_eq!(res.unwrap().len(), 0);
    let floats: Vec<f64> = sink.vec[..inputs.len()].iter().map(|b| f64::from_bits(*b)).collect();
    assert_eq!(floats[..], inputs);
}

#[test]
fn delta_diffpack_sink_test() {
    let inputs = [ [0u64, 1000, 1001, 1002, 1003, 2005, 2010, 3034, 4045, 5056, 6067, 7078],
                   [3u64, 1004, 1006, 1008, 1009, 2012, 2020, 3056, 4070, 5090, 6101, 7150],
                   [7u64, 1010, 1016, 1018, 1019, 2022, 2030, 3078, 4101, 5122, 6134, 7195] ];
    let diffs = inputs.windows(2).map(|pair| {
        pair[1].iter().zip(pair[0].iter()).map(|(nb, na)| nb - na ).collect::<Vec<_>>()
    }).collect::<Vec<_>>();

    // Compress each individual input into its own buffer
    let compressed_inputs: Vec<Vec<u8>> = inputs.iter().map(|input| {
        let mut buf = Vec::with_capacity(128);
        pack_u64_delta(&input[..], &mut buf);
        buf
    }).collect();

    let out_buf = Vec::<u8>::new();
    let mut sink = DeltaDiffPackSink::new(inputs[0].len(), out_buf);

    // Verify delta on first one (empty diffs) yields back the original
    let res = unpack(&compressed_inputs[0][..], &mut sink, inputs[0].len());
    assert_eq!(res.unwrap().len(), 0);
    sink.finish();

    let mut dsink = DeltaSink::new();
    let res = unpack(&sink.out_vec[..], &mut dsink, inputs[0].len());
    assert_eq!(res.unwrap().len(), 0);
    assert_eq!(dsink.sink.vec[..inputs[0].len()], inputs[0]);

    // Second and subsequent inputs should correspond to diffs
    for i in 1..3 {
        sink.out_vec.truncate(0);   // need to reset output
        let res = unpack(&compressed_inputs[i][..], &mut sink, inputs[0].len());
        assert_eq!(res.unwrap().len(), 0);
        assert_eq!(sink.value_dropped, false);  // should not have dropped?
        sink.finish();

        let mut dsink = DeltaSink::new();
        let res = unpack(&sink.out_vec[..], &mut dsink, inputs[0].len());
        assert_eq!(res.unwrap().len(), 0);
        assert_eq!(dsink.sink.vec[..inputs[0].len()], diffs[i - 1][..]);
    }
}

// The plain round trip pads a partial final group with zeros that the
// caller trims by the logical length.
#[test]
fn plain_round_trip_pads_tail_with_zeros() {
    let inputs = [7u64, 0, 9, u64::MAX, 12345];
    let mut buf = Vec::new();
    pack_u64(&inputs[..], &mut buf);

    let mut sink = LongSink::new();
    let res = unpack(&buf[..], &mut sink, inputs.len());
    assert_eq!(res.unwrap().len(), 0);
    assert_eq!(sink.vec.len(), 8);
    assert_eq!(sink.vec[..inputs.len()], inputs);
    assert_eq!(sink.vec[inputs.len()..], [0u64, 0, 0]);
}

// The emitted header byte carries the nibble width minus one in the high
// nibble and the trailing zero nibble count in the low nibble, and the
// frame length is the rounded-up body.
#[test]
fn header_bytes_parse_back() {
    let inputs = [0x120u64, 0x340, 0x560, 0x780, 0x9a0, 0xbc0, 0xde0, 0xf10];
    let mut buf = Vec::new();
    nibble_pack8(&inputs, &mut buf);
    assert_eq!(buf[0], 0xff);
    let num_nibbles = (buf[1] >> 4) + 1;
    let tz_nibbles = buf[1] & 0x0f;
    assert_eq!(num_nibbles, 2);
    assert_eq!(tz_nibbles, 1);
    assert!(num_nibbles >= 1 && num_nibbles <= 16);
    assert!(tz_nibbles <= 15);
    assert!(num_nibbles + tz_nibbles <= 16);
    // body: 8 values, 2 nibbles each = 8 bytes
    assert_eq!(buf.len(), 2 + 8);
}

// Clearing a sink makes a later decode indistinguishable from decoding
// into a freshly built sink.
#[test]
fn clear_is_fresh() {
    let inputs = [5u64, 6, 7, 8, 9, 10, 11, 12];
    let mut buf = Vec::new();
    pack_u64_delta(&inputs[..], &mut buf);

    let mut used = DeltaSink::new();
    let _ = unpack(&buf[..], &mut used, inputs.len());
    used.clear();
    let res1 = unpack(&buf[..], &mut used, inputs.len());
    assert_eq!(res1.unwrap().len(), 0);

    let mut fresh = DeltaSink::new();
    let res2 = unpack(&buf[..], &mut fresh, inputs.len());
    assert_eq!(res2.unwrap().len(), 0);
    assert_eq!(used.acc, fresh.acc);
    assert_eq!(used.sink.vec, fresh.sink.vec);
}

// Any truncation of a valid stream either decodes fewer groups cleanly or
// reports the input too short; it never panics.
#[test]
fn truncation_is_detected() {
    let inputs = [1u64, 2, 3, 4, 5, 6, 7, 8, 90000, 90001, 90002, 90003];
    let mut buf = Vec::new();
    pack_u64(&inputs[..], &mut buf);
    for k in 0..buf.len() {
        let mut sink = LongSink::new();
        let res = unpack(&buf[..k], &mut sink, inputs.len());
        match res {
            Ok(_) => panic!("a truncated stream of {} of {} bytes decoded whole", k, buf.len()),
            Err(e) => assert_eq!(e, NibblePackError::InputTooShort),
        }
    }
    // intact input still decodes
    let mut sink = LongSink::new();
    assert!(unpack(&buf[..], &mut sink, inputs.len()).is_ok());
}

// A shorter count may leave trailing groups unread: the remainder comes
// back to the caller.
#[test]
fn unpack_stops_after_requested_groups() {
    let inputs = [1u64, 2, 3, 4, 5, 6, 7, 8, 9, 10, 11, 12, 13, 14, 15, 16];
    let mut buf = Vec::new();
    pack_u64(&inputs[..], &mut buf);
    let mut sink = LongSink::new();
    let res = unpack(&buf[..], &mut sink, 8);
    let remainder = res.unwrap();
    assert!(remainder.len() > 0);
    assert_eq!(sink.vec[..], inputs[..8]);

    // and the remainder holds the second group
    let mut sink2 = LongSink::new();
    let res2 = unpack(remainder, &mut sink2, 8);
    assert_eq!(res2.unwrap().len(), 0);
    assert_eq!(sink2.vec[..], inputs[8..]);
}

// The XOR path preserves bit patterns exactly, NaN payloads and signed
// zeros included.
#[test]
fn xor_round_trip_is_bit_exact() {
    let inputs = [0.0f64, -0.0, f64::NAN, f64::INFINITY, f64::NEG_INFINITY, 1.0e-308, -3.25];
    let bits: Vec<u64> = inputs.iter().map(|f| f.to_bits()).collect();
    let mut buf = Vec::new();
    pack_f64_xor(&bits[..], &mut buf).unwrap();

    let mut sink = DoubleXorSink::new(Vec::new());
    let res = unpack_f64_xor(&buf[..], &mut sink, inputs.len());
    assert_eq!(res.unwrap().len(), 0);
    for i in 0..inputs.len() {
        assert_eq!(sink.vec[i], bits[i]);
    }
}

// The XOR encoder demands at least one value.
#[test]
fn xor_encode_empty_is_too_short() {
    let mut buf = Vec::new();
    let res = pack_f64_xor(&[], &mut buf);
    assert_eq!(res, Err(NibblePackError::InputTooShort));
    assert!(buf.is_empty());
}

// The XOR decoder needs the eight-byte seed.
#[test]
fn xor_decode_short_seed_is_too_short() {
    let mut sink = DoubleXorSink::new(Vec::new());
    let res = unpack_f64_xor(&[0xff; 7], &mut sink, 1);
    assert_eq!(res, Err(NibblePackError::InputTooShort));
}

// Decoding an empty buffer with values still owed is an error, not a
// panic.
#[test]
fn unpack_empty_buffer_is_too_short() {
    let mut sink = LongSink::new();
    let res = unpack(&[], &mut sink, 5);
    assert_eq!(res, Err(NibblePackError::InputTooShort));
}

// A diff-pack pass against all-zero deltas re-encodes the decoded deltas
// byte for byte as the delta encoder would.
#[test]
fn diffpack_identity_against_zero_deltas() {
    let inputs = [10u64, 20, 35, 60, 100, 170, 290, 500, 850, 1440];
    let mut delta_bytes = Vec::new();
    pack_u64_delta(&inputs[..], &mut delta_bytes);

    let mut sink = DeltaDiffPackSink::new(inputs.len(), Vec::new());
    let res = unpack(&delta_bytes[..], &mut sink, inputs.len());
    assert_eq!(res.unwrap().len(), 0);
    sink.finish();
    assert_eq!(sink.out_vec, delta_bytes);
    assert_eq!(sink.value_dropped, false);
}

// A counter reset (a dropped value) is noted and the raw value is kept.
#[test]
fn diffpack_notes_dropped_values() {
    let first = [100u64, 200, 300, 400, 500, 600, 700, 800];
    let second = [100u64, 150, 300, 400, 500, 600, 700, 800]; // bucket 1 dropped
    let mut b1 = Vec::new();
    pack_u64_delta(&first[..], &mut b1);
    let mut b2 = Vec::new();
    pack_u64_delta(&second[..], &mut b2);

    let mut sink = DeltaDiffPackSink::new(first.len(), Vec::new());
    let _ = unpack(&b1[..], &mut sink, first.len());
    sink.finish();
    assert_eq!(sink.value_dropped, false);

    sink.out_vec.truncate(0);
    let _ = unpack(&b2[..], &mut sink, second.len());
    assert_eq!(sink.value_dropped, true);
}
