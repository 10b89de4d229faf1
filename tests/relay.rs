use udp_audio::listener::{establish, Listener, Step};
use udp_audio::playback::{Engine, Finish, Slot, BATCH};
use udp_audio::session::{parse_config, parse_text_config, parse_usize, split_fields, trim_bytes, Session};
use udp_audio::wire::{
    classify, decode_data, encode_samples, silence_length, silence_samples, PacketKind,
};

fn session(bit_depth: usize, rate: usize, buffer: usize, auto_fill: bool) -> Session {
    Session { bit_depth, rate, buffer, auto_fill }
}

fn pushed(step: Step) -> Vec<i32> {
    match step {
        Step::Push(v) => v,
        other => panic!("expected samples, got {:?}", other),
    }
}

#[test]
fn config_three_numbers_set_exactly() {
    assert_eq!(parse_config(b"16 48000 1024"), session(16, 48000, 1024, true));
    assert_eq!(parse_config(b"24 96000 4096"), session(24, 96000, 4096, true));
}

#[test]
fn config_defaults() {
    assert_eq!(Session::defaults(), session(32, 44100, 2048, true));
}

#[test]
fn config_short_or_long_keeps_defaults() {
    assert_eq!(parse_config(b"16 48000"), Session::defaults());
    assert_eq!(parse_config(b""), Session::defaults());
    assert_eq!(parse_config(b"16 48000 1024 false 9"), Session::defaults());
}

#[test]
fn config_malformed_field_keeps_its_default() {
    assert_eq!(parse_config(b"abc 48000 1024"), session(32, 48000, 1024, true));
    assert_eq!(parse_config(b"16 -5 1024"), session(16, 44100, 1024, true));
    assert_eq!(parse_config(b"16 48000 10x"), session(16, 48000, 2048, true));
    assert_eq!(
        parse_config(b"16 48000 99999999999999999999999"),
        session(16, 48000, 2048, true)
    );
}

#[test]
fn config_not_utf8_keeps_defaults() {
    assert_eq!(parse_config(b"16 48000 1024 \xff"), Session::defaults());
    assert_eq!(parse_config(b"16 48000 \xc3\x28"), Session::defaults());
    // the text reader alone takes the bytes as they are
    assert_eq!(parse_text_config(b"16 48000 1024 \xff"), session(16, 48000, 1024, true));
    // well-formed UTF-8 beyond ASCII is text
    assert_eq!(parse_config("16 48000 1024 é".as_bytes()), session(16, 48000, 1024, true));
}

#[test]
fn config_fourth_field_false_disables_fill() {
    assert_eq!(parse_config(b"16 48000 1024 false"), session(16, 48000, 1024, false));
    assert_eq!(parse_config(b"16 48000 1024 true"), session(16, 48000, 1024, true));
    assert_eq!(parse_config(b"16 48000 1024 FALSE"), session(16, 48000, 1024, true));
}

#[test]
fn config_trimmed_and_split_on_single_spaces() {
    assert_eq!(parse_config(b" \t16 48000 1024\r\n"), session(16, 48000, 1024, true));
    // two spaces enclose an empty field: four fields, the second empty
    assert_eq!(parse_config(b"16  48000 1024"), session(16, 44100, 48000, true));
    assert_eq!(parse_config(b"+16 48000 1024"), session(16, 48000, 1024, true));
}

#[test]
fn config_trims_unicode_white_space() {
    let mut d = vec![2u8];
    d.extend("\u{3000}16 48000 1024".as_bytes());
    assert_eq!(establish(&d), session(16, 48000, 1024, true));
    // a trailing U+3000 is trimmed, leaving two fields: defaults
    assert_eq!(parse_config("16 48000 \u{3000}".as_bytes()), Session::defaults());
    assert_eq!(
        parse_config("\u{a0}\u{2009}16 48000 1024\u{85}\u{205f}".as_bytes()),
        session(16, 48000, 1024, true)
    );
    assert_eq!(trim_bytes("\u{1680}x\u{2029}".as_bytes()), b"x".to_vec());
    // other non-ASCII characters stay
    assert_eq!(trim_bytes("\u{e9}x".as_bytes()), "\u{e9}x".as_bytes().to_vec());
}

#[test]
fn text_helpers() {
    assert_eq!(trim_bytes(b"  a b \n"), b"a b".to_vec());
    assert_eq!(trim_bytes(b" \t "), Vec::<u8>::new());
    assert_eq!(
        split_fields(b"a  b"),
        vec![b"a".to_vec(), Vec::new(), b"b".to_vec()]
    );
    assert_eq!(split_fields(b""), vec![Vec::<u8>::new()]);
    assert_eq!(parse_usize(b"0"), Some(0));
    assert_eq!(parse_usize(b"+7"), Some(7));
    assert_eq!(parse_usize(b"+"), None);
    assert_eq!(parse_usize(b""), None);
    assert_eq!(parse_usize(b"18446744073709551615"), Some(usize::MAX));
    assert_eq!(parse_usize(b"18446744073709551616"), None);
}

#[test]
fn establish_from_first_datagram() {
    assert_eq!(establish(b"\x0216 48000 1024"), session(16, 48000, 1024, true));
    assert_eq!(establish(&[1, 2, 3, 4, 5]), Session::defaults());
    assert_eq!(establish(&[0, 9, 0]), Session::defaults());
    assert_eq!(establish(&[]), Session::defaults());
    assert_eq!(establish(&[2]), Session::defaults());
}

#[test]
fn classify_by_discriminant() {
    assert_eq!(classify(&[]), PacketKind::Empty);
    assert_eq!(classify(&[0, 1, 0]), PacketKind::Silence);
    assert_eq!(classify(&[2]), PacketKind::Config);
    assert_eq!(classify(&[1, 5]), PacketKind::Data);
    assert_eq!(classify(&[255]), PacketKind::Data);
}

#[test]
fn silence_length_field() {
    assert_eq!(silence_length(&[0, 0x34, 0x12]), Some(0x1234));
    assert_eq!(silence_length(&[0, 9, 0, 7]), Some(9));
    assert_eq!(silence_length(&[0, 9]), None);
    assert_eq!(silence_samples(9, 2), 4);
    assert_eq!(silence_samples(9, 4), 2);
    assert_eq!(silence_samples(1, 4), 0);
    assert_eq!(silence_samples(0, 4), 0);
}

#[test]
fn data_groups_decode_little_endian() {
    assert_eq!(decode_data(&[1, 0x01, 0x02, 0xff, 0xff, 0x00, 0x80], 2), vec![0x0201, -1, -32768]);
    assert_eq!(decode_data(&[1, 0x78, 0x56, 0x34, 0x12, 0xAA], 4), vec![0x12345678]);
    assert_eq!(decode_data(&[1, 0x00, 0x00, 0x80], 3), vec![-8388608]);
    assert_eq!(decode_data(&[1, 0x7f, 0x80], 1), vec![127, -128]);
    assert_eq!(decode_data(&[1], 4), Vec::<i32>::new());
}

#[test]
fn encode_then_decode() {
    assert_eq!(encode_samples(&[1, -2], 2), vec![1, 0, 0xfe, 0xff]);
    assert_eq!(encode_samples(&[0x12345678], 4), vec![0x78, 0x56, 0x34, 0x12]);
    let x = vec![5, -7, 300, -32768, 32767];
    let mut d = vec![1u8];
    d.extend(encode_samples(&x, 2));
    assert_eq!(decode_data(&d, 2), x);
}

#[test]
fn listener_width_must_fit() {
    assert!(Listener::start(session(7, 44100, 2048, true)).is_none());
    assert!(Listener::start(session(64, 44100, 2048, true)).is_none());
    let l = Listener::start(session(16, 44100, 2048, true)).unwrap();
    assert_eq!(l.width(), 2);
    assert_eq!(l.session(), session(16, 44100, 2048, true));
    assert_eq!(Listener::start(Session::defaults()).unwrap().width(), 4);
}

#[test]
fn listener_datagram_steps() {
    let mut l = Listener::start(session(16, 48000, 4, true)).unwrap();
    assert!(matches!(l.on_datagram(&[], 0), Step::End));
    assert!(matches!(l.on_datagram(b"\x0216 8000 1", 0), Step::Skip));
    assert_eq!(pushed(l.on_datagram(&[0, 9, 0], 0)), vec![0, 0, 0, 0]);
    assert_eq!(pushed(l.on_datagram(&[0, 9, 0], 4)), vec![0, 0, 0, 0]);
    assert!(matches!(l.on_datagram(&[0, 9, 0], 5), Step::Skip));
    assert!(matches!(l.on_datagram(&[0, 9], 0), Step::Skip));
    assert_eq!(pushed(l.on_datagram(&[0, 0, 0], 0)), Vec::<i32>::new());
    // data is forwarded whatever the queue holds
    assert_eq!(pushed(l.on_datagram(&[1, 3, 0, 0xfe, 0xff], 100000)), vec![3, -2]);
}

#[test]
fn silence_datagram_enqueues_zeros() {
    let mut l = Listener::start(Session::defaults()).unwrap();
    assert_eq!(pushed(l.on_datagram(&[0, 17, 0], 0)), vec![0; 4]);
    assert_eq!(pushed(l.on_datagram(&[0, 0x01, 0x01], 0)), vec![0; 64]);
}

#[test]
fn timeouts_end_quiet_session() {
    let mut l = Listener::start(Session::defaults()).unwrap();
    assert_eq!(l.read_timeout_ms(), 250);
    assert!(matches!(l.on_timeout(), Step::Skip));
    assert!(matches!(l.on_timeout(), Step::Skip));
    assert!(matches!(l.on_timeout(), Step::Skip));
    assert!(matches!(l.on_timeout(), Step::End));

    // a datagram resets the quiet time
    let mut l = Listener::start(Session::defaults()).unwrap();
    assert!(matches!(l.on_timeout(), Step::Skip));
    assert!(matches!(l.on_timeout(), Step::Skip));
    let _ = l.on_datagram(&[1, 0, 0, 0, 0], 0);
    assert!(matches!(l.on_timeout(), Step::Skip));
    assert!(matches!(l.on_timeout(), Step::Skip));
    assert!(matches!(l.on_timeout(), Step::Skip));
    assert!(matches!(l.on_timeout(), Step::End));

    let mut l = Listener::start(session(32, 44100, 2048, false)).unwrap();
    assert_eq!(l.read_timeout_ms(), 1000);
    assert!(matches!(l.on_timeout(), Step::End));
}

/// Fills one batch from `queue`, as the playback thread does, and returns
/// the writes that the engine then hands out.
fn run_batch(e: &mut Engine, queue: &mut Vec<i32>) -> Vec<Vec<i32>> {
    while !e.batch_full() {
        match e.next_slot(queue.is_empty()) {
            Slot::Fill => {}
            Slot::Take => {
                let s = queue.remove(0);
                e.take(s);
            }
        }
    }
    e.end_batch();
    writes(e)
}

fn writes(e: &mut Engine) -> Vec<Vec<i32>> {
    let mut out = Vec::new();
    while let Some(w) = e.next_write() {
        out.push(w);
    }
    out
}

#[test]
fn preroll_holds_back_until_threshold() {
    let mut e = Engine::new(8);
    let mut q: Vec<i32> = (1..=16).collect();
    assert_eq!(e.finish(), Finish::Abandon);
    assert_eq!(run_batch(&mut e, &mut q), Vec::<Vec<i32>>::new());
    assert!(!e.started());
    // the held pre-roll comes out as successive batches of eight
    assert_eq!(
        run_batch(&mut e, &mut q),
        vec![(1..=8).collect::<Vec<i32>>(), (9..=16).collect::<Vec<i32>>()]
    );
    assert!(e.started());
    assert_eq!(e.finish(), Finish::Drain);
}

#[test]
fn preroll_zero_threshold_starts_after_first_batch() {
    let mut e = Engine::new(0);
    let mut q: Vec<i32> = (1..=8).collect();
    assert_eq!(run_batch(&mut e, &mut q), vec![(1..=8).collect::<Vec<i32>>()]);
    assert!(e.started());
}

#[test]
fn every_write_is_one_batch() {
    let mut e = Engine::new(12);
    let mut q: Vec<i32> = (1..=40).collect();
    let mut all = Vec::new();
    for _ in 0..5 {
        for w in run_batch(&mut e, &mut q) {
            assert_eq!(w.len(), BATCH);
            all.extend(w);
        }
    }
    assert_eq!(all, (1..=40).collect::<Vec<i32>>());
}

#[test]
fn underrun_fills_in_pairs() {
    let mut e = Engine::new(4);
    let mut q: Vec<i32> = (1..=8).collect();
    assert_eq!(run_batch(&mut e, &mut q).len(), 1);
    // queue empty on the first slot: a pair of zeros, then real samples
    let mut q2: Vec<i32> = Vec::new();
    assert_eq!(e.next_slot(q2.is_empty()), Slot::Fill);
    q2.extend([10, 11, 12, 13, 14, 15, 16, 17]);
    assert_eq!(e.next_slot(q2.is_empty()), Slot::Fill);
    let out = run_batch(&mut e, &mut q2);
    assert_eq!(out, vec![vec![0, 0, 10, 11, 12, 13, 14, 15]]);
    // an underrun after an odd number of samples keeps the pairing
    let mut q3: Vec<i32> = vec![20];
    assert_eq!(e.next_slot(false), Slot::Take);
    e.take(16);
    assert_eq!(e.next_slot(false), Slot::Take);
    e.take(17);
    assert_eq!(e.next_slot(false), Slot::Take);
    e.take(q3.remove(0));
    assert_eq!(e.next_slot(true), Slot::Fill);
    assert_eq!(e.next_slot(false), Slot::Fill);
    assert_eq!(e.next_slot(false), Slot::Take);
    e.take(21);
    let out = run_batch(&mut e, &mut vec![22, 23]);
    // samples 16, 20 and 22 stay on even slots, 17, 21 and 23 on odd ones
    assert_eq!(out, vec![vec![16, 17, 20, 0, 0, 21, 22, 23]]);
}

#[test]
fn fill_runs_keep_channels_across_batches() {
    let mut e = Engine::new(0);
    let mut q: Vec<i32> = (1..=8).collect();
    run_batch(&mut e, &mut q);
    let mut q: Vec<i32> = vec![31, 32, 33];
    assert_eq!(run_batch(&mut e, &mut q), vec![vec![31, 32, 33, 0, 0, 0, 0, 0]]);
    let mut q: Vec<i32> = vec![34, 35];
    assert_eq!(run_batch(&mut e, &mut q), vec![vec![0, 34, 35, 0, 0, 0, 0, 0]]);
}

#[test]
fn fill_does_not_depend_on_auto_fill() {
    let s = parse_config(b"16 48000 1024 false");
    assert!(!s.auto_fill);
    let mut e = Engine::new(0);
    let mut q: Vec<i32> = (1..=8).collect();
    run_batch(&mut e, &mut q);
    assert!(e.started());
    assert_eq!(e.next_slot(true), Slot::Fill);
}

#[test]
fn padding_flushes_the_last_samples() {
    let mut e = Engine::new(0);
    let mut q: Vec<i32> = (1..=8).collect();
    run_batch(&mut e, &mut q);
    assert_eq!(e.next_slot(false), Slot::Take);
    e.take(9);
    assert!(!e.batch_empty());
    e.pad_batch();
    assert!(e.batch_full());
    e.end_batch();
    assert_eq!(writes(&mut e), vec![vec![9, 0, 0, 0, 0, 0, 0, 0]]);
    assert!(e.batch_empty());
}

#[test]
fn end_to_end_config_then_data() {
    let s = establish(b"\x0216 48000 1024");
    assert_eq!(s, session(16, 48000, 1024, true));
    let mut l = Listener::start(s).unwrap();
    let d = [1u8, 0x01, 0x00, 0xff, 0xff, 0x00, 0x01, 0x34, 0x12];
    let samples = pushed(l.on_datagram(&d, 0));
    assert_eq!(samples, vec![1, -1, 256, 0x1234]);

    // the playback side takes them in order, ahead of any fill
    let mut e = Engine::new(2);
    let mut q = samples.clone();
    q.extend([5, 6, 7, 8]);
    let out = run_batch(&mut e, &mut q);
    assert_eq!(out, vec![vec![1, -1, 256, 0x1234, 5, 6, 7, 8]]);
}
