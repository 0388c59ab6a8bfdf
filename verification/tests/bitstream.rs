use amrwb::bitstream::{
    blank_sid_first, finish_sid_payload, parse_sid, sid_is_update, sid_mode_indication, CodecBits,
};
use amrwb::mode::{AmrMode, AmrVariant};
use amrwb::sort_tables::sort_table;

#[test]
fn every_sort_table_is_a_permutation() {
    for mode_index in 0..9u8 {
        let sort = sort_table(mode_index);
        let mut seen = vec![false; sort.len()];
        for &target in &sort {
            let target = target as usize;
            assert!(
                target < seen.len(),
                "mode {mode_index}: index {target} out of range"
            );
            assert!(
                !seen[target],
                "mode {mode_index}: index {target} appears twice"
            );
            seen[target] = true;
        }
    }
}

#[test]
fn a_short_payload_is_rejected_rather_than_padded() {
    let mode = AmrMode::new(AmrVariant::WideBand, 8).expect("mode");
    assert!(CodecBits::unpack(mode, &[0u8; 59]).is_none());
    assert!(CodecBits::unpack(mode, &[0u8; 60]).is_some());
}

#[test]
fn reading_past_the_end_fails_rather_than_returning_zeros() {
    let mode = AmrMode::new(AmrVariant::WideBand, 0).expect("mode");
    let mut bits = CodecBits::unpack(mode, &[0xffu8; 17]).expect("unpacks");
    assert_eq!(bits.remaining(), 132);
    assert!(bits.take(16).is_some());
    while bits.remaining() >= 8 {
        assert!(bits.take(8).is_some());
    }
    let left = bits.remaining();
    assert!(bits.take(left + 1).is_none(), "overrun was not rejected");
    assert!(bits.take(left).is_some());
}

#[test]
fn the_payload_order_is_not_the_codec_order() {
    for mode_index in 0..9u8 {
        let sort = sort_table(mode_index);
        assert!(
            sort.iter().enumerate().any(|(i, &t)| usize::from(t) != i),
            "mode {mode_index}: sorting table is the identity"
        );
    }
    // The first codec bit leads, and the bits after it are scattered.
    let sort = sort_table(0);
    assert_eq!(&sort[..4], &[0, 5, 6, 7]);
    let place = |bit: u16| sort.iter().position(|&t| t == bit).expect("sent");
    assert_eq!(
        [place(0), place(1), place(2), place(3), place(5), place(6), place(7)],
        [0, 31, 38, 32, 1, 2, 3]
    );
}

#[test]
fn a_single_payload_bit_lands_on_its_codec_bit() {
    let mode = AmrMode::new(AmrVariant::WideBand, 2).expect("mode");
    let sort = sort_table(2);
    for i in [0usize, 1, 7, 8, 100, 252] {
        let mut payload = vec![0u8; 32];
        payload[i / 8] = 1 << (7 - i % 8);
        let bits = CodecBits::unpack(mode, &payload).expect("unpacks");
        let set: Vec<usize> = (0..253).filter(|&b| bits.bits()[b] == 1).collect();
        assert_eq!(set, vec![sort[i] as usize]);
    }
}

#[test]
fn a_finished_sid_reads_back_its_marks() {
    let mut payload = [0xa5, 0x5a, 0xff, 0x00, 0xe0];
    finish_sid_payload(&mut payload, true, 7);
    assert_eq!(payload, [0xa5, 0x5a, 0xff, 0x00, 0xf7]);
    assert!(sid_is_update(&payload));
    assert_eq!(sid_mode_indication(&payload), Some(7));

    blank_sid_first(&mut payload);
    assert_eq!(payload, [0, 0, 0, 0, 0x17]);
    assert!(sid_is_update(&payload));
    payload[4] = 0x0f;
    assert!(!sid_is_update(&payload));
    assert_eq!(sid_mode_indication(&payload), None);
}

#[test]
fn a_sid_of_another_length_does_not_parse() {
    assert!(parse_sid(&[0u8; 4]).is_none());
    assert!(parse_sid(&[0u8; 6]).is_none());
    let (indices, energy, dither) = parse_sid(&[0xff; 5]).expect("five octets");
    assert_eq!(indices, [63, 63, 63, 31, 31]);
    assert_eq!(energy, 63);
    assert!(dither);
}
