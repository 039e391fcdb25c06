use beepfreq::decode::{split_lines, split_records, RECORD_BYTES};
use beepfreq::dispatch::{Action, Dispatcher, Event, Failure};
use beepfreq::pipeline::{decode, Records};

/// Runs the library over `input` the way the program does, recording each
/// frequency handed to the tone primitive; the primitive fails on the
/// record whose index is `fail_at`.
fn drive(input: &[u8], raw: bool, fail_at: Option<usize>) -> (Vec<f32>, Result<(), Failure>) {
    let records = decode(&input.to_vec(), raw);
    let mut d = Dispatcher::new(records.len());
    let mut sent: Vec<f32> = Vec::new();
    let mut current: f32 = 0.0;
    loop {
        match d.action() {
            Action::Decode(i) => {
                let parsed = match &records {
                    Records::Lines(v) => std::str::from_utf8(&v[i])
                        .ok()
                        .and_then(|s| s.parse::<f32>().ok()),
                    Records::Raw(v) => Some(f32::from_ne_bytes(v[i])),
                };
                match parsed {
                    Some(f) => {
                        current = f;
                        d.advance(Event::Decoded);
                    }
                    None => d.advance(Event::Malformed),
                }
            }
            Action::Emit(i) => {
                sent.push(current);
                if fail_at == Some(i) {
                    d.advance(Event::EmitFailed);
                } else {
                    d.advance(Event::Emitted);
                }
            }
            Action::Finish => return (sent, Ok(())),
            Action::Fail(f) => return (sent, Err(f)),
        }
    }
}

fn raw_of(values: &[f32]) -> Vec<u8> {
    let mut out: Vec<u8> = Vec::new();
    for v in values {
        out.extend_from_slice(&v.to_ne_bytes());
    }
    out
}

#[test]
fn text_three_lines_dispatch_in_order() {
    let (sent, outcome) = drive(b"440\n220\n110\n", false, None);
    assert_eq!(sent, vec![440.0, 220.0, 110.0]);
    assert_eq!(outcome, Ok(()));
}

#[test]
fn text_bad_line_stops_the_run() {
    let (sent, outcome) = drive(b"440\nabc\n110\n", false, None);
    assert_eq!(sent, vec![440.0]);
    assert_eq!(outcome, Err(Failure::Malformed(1)));
    let lines = split_lines(&b"440\nabc\n110\n".to_vec());
    assert_eq!(lines[1], b"abc".to_vec());
}

#[test]
fn raw_two_records_dispatch_in_order() {
    let input = raw_of(&[261.63, 329.63]);
    assert_eq!(input.len(), 8);
    let (sent, outcome) = drive(&input, true, None);
    assert_eq!(sent, vec![261.63f32, 329.63f32]);
    assert_eq!(outcome, Ok(()));
}

#[test]
fn raw_truncated_tail_is_ignored() {
    let mut input = raw_of(&[261.63, 329.63]);
    input.push(0x12);
    input.push(0x34);
    let (sent, outcome) = drive(&input, true, None);
    assert_eq!(sent, vec![261.63f32, 329.63f32]);
    assert_eq!(outcome, Ok(()));
}

#[test]
fn empty_input_dispatches_nothing() {
    for raw in [false, true] {
        let (sent, outcome) = drive(b"", raw, None);
        assert!(sent.is_empty());
        assert_eq!(outcome, Ok(()));
    }
}

#[test]
fn rerun_gives_the_same_dispatches() {
    let text: &[u8] = b"1.5\n-3\n1e3\ninf\n";
    assert_eq!(drive(text, false, None), drive(text, false, None));
    let bytes = raw_of(&[1.0, 2.5, -7.25]);
    assert_eq!(drive(&bytes, true, None), drive(&bytes, true, None));
}

#[test]
fn text_n_lines_give_n_dispatches() {
    let mut text: Vec<u8> = Vec::new();
    for k in 0..50u32 {
        text.extend_from_slice(format!("{}\n", k * 10).as_bytes());
    }
    let (sent, outcome) = drive(&text, false, None);
    assert_eq!(sent.len(), 50);
    for (k, f) in sent.iter().enumerate() {
        assert_eq!(*f, (k * 10) as f32);
    }
    assert_eq!(outcome, Ok(()));
}

#[test]
fn raw_n_records_give_n_dispatches_with_any_tail() {
    let values: Vec<f32> = (0..20).map(|k| k as f32 * 1.5).collect();
    for extra in 0..4usize {
        let mut input = raw_of(&values);
        input.extend(std::iter::repeat(0xffu8).take(extra));
        let (sent, outcome) = drive(&input, true, None);
        assert_eq!(sent, values);
        assert_eq!(outcome, Ok(()));
    }
}

#[test]
fn tone_failure_stops_the_run() {
    let (sent, outcome) = drive(b"440\n220\n110\n", false, Some(1));
    assert_eq!(sent, vec![440.0, 220.0]);
    assert_eq!(outcome, Err(Failure::Tone(1)));
}

#[test]
fn empty_line_is_malformed() {
    let (sent, outcome) = drive(b"440\n\n110\n", false, None);
    assert_eq!(sent, vec![440.0]);
    assert_eq!(outcome, Err(Failure::Malformed(1)));
}

#[test]
fn split_lines_follows_line_endings() {
    let lines = split_lines(&b"440\r\n220\n110".to_vec());
    assert_eq!(lines, vec![b"440".to_vec(), b"220".to_vec(), b"110".to_vec()]);
    let lines = split_lines(&b"a\r".to_vec());
    assert_eq!(lines, vec![b"a\r".to_vec()]);
    let lines = split_lines(&b"\n\n".to_vec());
    assert_eq!(lines, vec![Vec::<u8>::new(), Vec::new()]);
    assert!(split_lines(&Vec::new()).is_empty());
}

#[test]
fn split_records_takes_whole_records() {
    let input: Vec<u8> = (1..=10u8).collect();
    let recs = split_records(&input);
    assert_eq!(RECORD_BYTES, 4);
    assert_eq!(recs, vec![[1, 2, 3, 4], [5, 6, 7, 8]]);
    assert!(split_records(&vec![9, 9, 9]).is_empty());
}

#[test]
fn decode_selects_the_variant() {
    let input = b"12\n34\n".to_vec();
    match decode(&input, false) {
        Records::Lines(v) => assert_eq!(v, vec![b"12".to_vec(), b"34".to_vec()]),
        Records::Raw(_) => panic!("text mode gave raw records"),
    }
    match decode(&input, true) {
        Records::Raw(v) => assert_eq!(v, vec![[b'1', b'2', b'\n', b'3']]),
        Records::Lines(_) => panic!("raw mode gave lines"),
    }
    assert_eq!(decode(&input, false).len(), 2);
    assert_eq!(decode(&input, true).len(), 1);
}

#[test]
fn dispatcher_ignores_out_of_turn_events() {
    let mut d = Dispatcher::new(2);
    assert_eq!(d.action(), Action::Decode(0));
    d.advance(Event::Emitted);
    assert_eq!(d.action(), Action::Decode(0));
    d.advance(Event::Decoded);
    assert_eq!(d.action(), Action::Emit(0));
    d.advance(Event::Malformed);
    assert_eq!(d.action(), Action::Emit(0));
    d.advance(Event::Emitted);
    assert_eq!(d.action(), Action::Decode(1));
    assert!(!d.is_done());
    d.advance(Event::Malformed);
    assert_eq!(d.action(), Action::Fail(Failure::Malformed(1)));
    assert!(d.is_done());
    d.advance(Event::Decoded);
    assert_eq!(d.action(), Action::Fail(Failure::Malformed(1)));
}

#[test]
fn dispatcher_over_nothing_finishes() {
    let mut d = Dispatcher::new(0);
    assert_eq!(d.action(), Action::Finish);
    assert!(d.is_done());
    d.advance(Event::Decoded);
    assert_eq!(d.action(), Action::Finish);
}
