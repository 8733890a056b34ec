use espeak_provider::event::BoundaryEvent;
use espeak_provider::stream::{StreamEncoder, CHUNK_CAPACITY};

#[derive(Debug, PartialEq)]
enum Frame {
    Audio(Vec<u8>),
    Event(u8, u32, u32, Vec<u8>),
}

fn read_u32(b: &[u8]) -> u32 {
    u32::from_le_bytes([b[0], b[1], b[2], b[3]])
}

fn decode(bytes: &[u8]) -> (Vec<u8>, Vec<Frame>) {
    let header = bytes[..4].to_vec();
    let mut frames = Vec::new();
    let mut i = 4;
    while i < bytes.len() {
        match bytes[i] {
            1 => {
                let n = read_u32(&bytes[i + 1..]) as usize;
                frames.push(Frame::Audio(bytes[i + 5..i + 5 + n].to_vec()));
                i += 5 + n;
            }
            2 => {
                let kind = bytes[i + 1];
                let s = read_u32(&bytes[i + 2..]);
                let e = read_u32(&bytes[i + 6..]);
                let n = read_u32(&bytes[i + 10..]) as usize;
                frames.push(Frame::Event(kind, s, e, bytes[i + 14..i + 14 + n].to_vec()));
                i += 14 + n;
            }
            t => panic!("unknown frame tag {}", t),
        }
    }
    (header, frames)
}

fn run(text_len: u32, input: Vec<(i16, Option<Vec<BoundaryEvent>>)>) -> Vec<u8> {
    let (mut enc, mut bytes) = StreamEncoder::new(text_len);
    for (sample, events) in input {
        bytes.extend(enc.push(sample, events));
    }
    bytes.extend(enc.finish());
    bytes
}

fn sample_bytes(samples: &[i16]) -> Vec<u8> {
    samples.iter().flat_map(|s| s.to_le_bytes()).collect()
}

#[test]
fn stream_starts_with_header() {
    let bytes = run(0, vec![]);
    assert_eq!(bytes, b"0.01".to_vec());
}

#[test]
fn audio_is_flushed_before_each_event() {
    let input = vec![
        (1i16, None),
        (-2, None),
        (3, Some(vec![BoundaryEvent::Start, BoundaryEvent::Word(0, 4)])),
        (4, None),
        (5, Some(vec![BoundaryEvent::Sentence(5), BoundaryEvent::Word(5, 3)])),
    ];
    let (header, frames) = decode(&run(8, input));
    assert_eq!(header, b"0.01".to_vec());
    assert_eq!(
        frames,
        vec![
            Frame::Audio(sample_bytes(&[1, -2])),
            Frame::Event(1, 0, 4, vec![]),
            Frame::Audio(sample_bytes(&[3, 4])),
            Frame::Event(2, 5, 5, vec![]),
            Frame::Event(1, 5, 8, vec![]),
            Frame::Audio(sample_bytes(&[5])),
        ]
    );
}

#[test]
fn event_on_first_sample_writes_no_empty_audio() {
    let input = vec![(7i16, Some(vec![BoundaryEvent::Word(0, 2)])), (8, Some(vec![BoundaryEvent::End]))];
    let (_, frames) = decode(&run(2, input));
    assert_eq!(
        frames,
        vec![Frame::Event(1, 0, 2, vec![]), Frame::Audio(sample_bytes(&[7])), Frame::Audio(sample_bytes(&[8]))]
    );
}

#[test]
fn audio_round_trips_across_full_chunks() {
    let samples: Vec<i16> = (0..3000).map(|i| (i * 37 - 20000) as i16).collect();
    let mut input: Vec<(i16, Option<Vec<BoundaryEvent>>)> = samples.iter().map(|s| (*s, None)).collect();
    input[1500].1 = Some(vec![BoundaryEvent::Word(2, 3)]);
    input[2100].1 = Some(vec![BoundaryEvent::Word(6, 30)]);
    let (header, frames) = decode(&run(10, input));
    assert_eq!(header, b"0.01".to_vec());
    let mut audio = Vec::new();
    let mut last_start = 0;
    for f in &frames {
        match f {
            Frame::Audio(p) => {
                assert!(!p.is_empty() && p.len() <= CHUNK_CAPACITY);
                audio.extend_from_slice(p);
            }
            Frame::Event(_, s, e, t) => {
                assert!(*s >= last_start && s <= e && *e <= 10 && t.is_empty());
                last_start = *s;
            }
        }
    }
    assert_eq!(audio, sample_bytes(&samples));
    let first_event = frames.iter().position(|f| matches!(f, Frame::Event(..))).unwrap();
    let before: usize = frames[..first_event]
        .iter()
        .map(|f| match f {
            Frame::Audio(p) => p.len(),
            _ => 0,
        })
        .sum();
    assert_eq!(before, 2 * 1500);
    assert_eq!(frames[0], Frame::Audio(sample_bytes(&samples[..1024])));
    assert!(frames.contains(&Frame::Event(1, 6, 10, vec![])));
}

#[test]
fn exactly_full_chunk_is_flushed_at_once() {
    let input: Vec<(i16, Option<Vec<BoundaryEvent>>)> = (0..1024).map(|i| (i as i16, None)).collect();
    let (mut enc, _) = StreamEncoder::new(0);
    let mut last = Vec::new();
    for (s, e) in input {
        last = enc.push(s, e);
    }
    assert_eq!(last.len(), 5 + CHUNK_CAPACITY);
    assert_eq!(enc.finish(), Vec::<u8>::new());
}
