use vstd::bytes::{spec_u16_to_le_bytes, spec_u32_from_le_bytes, spec_u32_to_le_bytes, u16_to_le_bytes, u32_to_le_bytes};
use vstd::prelude::*;

use crate::event::{min_int, word_bounds, word_range, BoundaryEvent};

verus! {

/// Largest audio payload of one frame, in bytes.
pub const CHUNK_CAPACITY: usize = 2048;

/// First byte of an audio frame.
pub const AUDIO_TAG: u8 = 1;

/// First byte of an event frame.
pub const EVENT_TAG: u8 = 2;

/// Kinds of boundary that an event frame reports.
#[derive(Clone, Copy, Debug, PartialEq, Eq, Structural)]
pub enum EventKind {
    Word,
    Sentence,
}

pub open spec fn kind_tag(k: EventKind) -> u8 {
    match k {
        EventKind::Word => 1,
        EventKind::Sentence => 2,
    }
}

/// The frames of a stream, as the reader sees them.
pub enum FrameView {
    /// Raw sample bytes.
    Audio(Seq<u8>),
    /// Kind, start offset, end offset and text.
    Event(EventKind, u32, u32, Seq<u8>),
}

/// The version tag that opens every stream: "0.01".
pub open spec fn stream_header() -> Seq<u8> {
    seq![0x30u8, 0x2eu8, 0x30u8, 0x31u8]
}

pub open spec fn encode_frame(f: FrameView) -> Seq<u8> {
    match f {
        FrameView::Audio(p) => seq![AUDIO_TAG] + spec_u32_to_le_bytes(p.len() as u32) + p,
        FrameView::Event(k, s, e, t) => seq![EVENT_TAG, kind_tag(k)] + spec_u32_to_le_bytes(s)
            + spec_u32_to_le_bytes(e) + spec_u32_to_le_bytes(t.len() as u32) + t,
    }
}

/// The bytes of a sequence of frames, one after the other.
pub open spec fn encode_all(fs: Seq<FrameView>) -> Seq<u8>
    decreases fs.len(),
{
    if fs.len() == 0 {
        Seq::empty()
    } else {
        encode_all(fs.drop_last()) + encode_frame(fs.last())
    }
}

/// The audio payloads of a sequence of frames, concatenated.
pub open spec fn audio_of(fs: Seq<FrameView>) -> Seq<u8>
    decreases fs.len(),
{
    if fs.len() == 0 {
        Seq::empty()
    } else {
        audio_of(fs.drop_last()) + match fs.last() {
            FrameView::Audio(p) => p,
            FrameView::Event(..) => Seq::empty(),
        }
    }
}

/// The event frames among a sequence of frames, in order.
pub open spec fn event_frames_of(fs: Seq<FrameView>) -> Seq<FrameView>
    decreases fs.len(),
{
    if fs.len() == 0 {
        Seq::empty()
    } else {
        event_frames_of(fs.drop_last()) + match fs.last() {
            FrameView::Audio(_) => Seq::empty(),
            FrameView::Event(..) => seq![fs.last()],
        }
    }
}

/// Signed 16-bit samples as little-endian bytes.
pub open spec fn sample_bytes(s: Seq<i16>) -> Seq<u8>
    decreases s.len(),
{
    if s.len() == 0 {
        Seq::empty()
    } else {
        sample_bytes(s.drop_last()) + spec_u16_to_le_bytes(s.last() as u16)
    }
}

/// The event frame that a boundary event gives; start and end are not reported.
pub open spec fn frames_of_event(e: BoundaryEvent, text_len: u32) -> Seq<FrameView> {
    match e {
        BoundaryEvent::Word(s, l) => seq![
            FrameView::Event(
                EventKind::Word,
                word_bounds(s, l, text_len as u64).0 as u32,
                word_bounds(s, l, text_len as u64).1 as u32,
                Seq::empty(),
            ),
        ],
        BoundaryEvent::Sentence(o) => seq![
            FrameView::Event(
                EventKind::Sentence,
                min_int(o as int, text_len as int) as u32,
                min_int(o as int, text_len as int) as u32,
                Seq::empty(),
            ),
        ],
        _ => Seq::empty(),
    }
}

pub open spec fn event_frames(evs: Seq<BoundaryEvent>, text_len: u32) -> Seq<FrameView>
    decreases evs.len(),
{
    if evs.len() == 0 {
        Seq::empty()
    } else {
        event_frames(evs.drop_last(), text_len) + frames_of_event(evs.last(), text_len)
    }
}

/// One step of the stream: the frames written for a sample and the events at
/// its position, and the audio left pending. Pending audio is flushed before
/// the events, so that an event frame follows all audio before its position
/// and precedes the audio it describes; a full chunk is flushed at once.
pub open spec fn push_frames(
    pending: Seq<u8>,
    sample: i16,
    events: Option<Seq<BoundaryEvent>>,
    text_len: u32,
) -> (Seq<FrameView>, Seq<u8>) {
    let (before, kept) = match events {
        Some(evs) => (
            (if pending.len() > 0 {
                seq![FrameView::Audio(pending)]
            } else {
                Seq::empty()
            }) + event_frames(evs, text_len),
            Seq::<u8>::empty(),
        ),
        None => (Seq::empty(), pending),
    };
    let p = kept + spec_u16_to_le_bytes(sample as u16);
    if p.len() >= CHUNK_CAPACITY {
        (before.push(FrameView::Audio(p)), Seq::empty())
    } else {
        (before, p)
    }
}

/// Writes one task's audio and boundary events as a framed byte stream.
pub struct StreamEncoder {
    buffer: Vec<u8>,
    text_len: u32,
    samples: Ghost<Seq<i16>>,
    frames: Ghost<Seq<FrameView>>,
    positions: Ghost<Seq<nat>>,
    written: Ghost<Seq<u8>>,
    events: Ghost<Seq<BoundaryEvent>>,
}

impl StreamEncoder {
    /// Samples taken in so far.
    pub closed spec fn samples(&self) -> Seq<i16> {
        self.samples@
    }

    /// Frames written so far, the header aside.
    pub closed spec fn frames(&self) -> Seq<FrameView> {
        self.frames@
    }

    /// Bytes handed out so far.
    pub closed spec fn written(&self) -> Seq<u8> {
        self.written@
    }

    /// Audio taken in and not yet written.
    pub closed spec fn pending(&self) -> Seq<u8> {
        self.buffer@
    }

    /// Number of samples taken in before each frame was written.
    pub closed spec fn positions(&self) -> Seq<nat> {
        self.positions@
    }

    /// Boundary events taken in so far, in order.
    pub closed spec fn events(&self) -> Seq<BoundaryEvent> {
        self.events@
    }

    pub closed spec fn text_len(&self) -> u32 {
        self.text_len
    }

    /// The frames of the whole stream once it is finished.
    pub open spec fn finished_frames(&self) -> Seq<FrameView> {
        if self.pending().len() > 0 {
            self.frames().push(FrameView::Audio(self.pending()))
        } else {
            self.frames()
        }
    }

    pub closed spec fn wf(&self) -> bool {
        &&& self.buffer@.len() < CHUNK_CAPACITY
        &&& self.consistent()
    }

    #[verifier::opaque]
    closed spec fn consistent(&self) -> bool {
        &&& self.buffer@.len() % 2 == 0
        &&& audio_of(self.frames@) + self.buffer@ == sample_bytes(self.samples@)
        &&& self.written@ == stream_header() + encode_all(self.frames@)
        &&& self.positions@.len() == self.frames@.len()
        &&& event_frames_of(self.frames@) == event_frames(self.events@, self.text_len)
        &&& forall|j: int|
            0 <= j < self.frames@.len() ==> (#[trigger] self.frames@[j] is Event ==> audio_of(
                self.frames@.take(j),
            ).len() == 2 * self.positions@[j])
        &&& forall|j: int|
            0 <= j < self.frames@.len() ==> match #[trigger] self.frames@[j] {
                FrameView::Audio(p) => 0 < p.len() <= CHUNK_CAPACITY,
                FrameView::Event(_, s, e, t) => s <= e <= self.text_len && t.len() == 0,
            }
    }

    pub fn new(text_len: u32) -> (r: (StreamEncoder, Vec<u8>))
        ensures
            r.0.wf(),
            r.1@ == stream_header(),
            r.0.written() == stream_header(),
            r.0.samples() == Seq::<i16>::empty(),
            r.0.frames() == Seq::<FrameView>::empty(),
            r.0.positions() == Seq::<nat>::empty(),
            r.0.events() == Seq::<BoundaryEvent>::empty(),
            r.0.pending() == Seq::<u8>::empty(),
            r.0.text_len() == text_len,
    {
        reveal(StreamEncoder::consistent);
        let header: Vec<u8> = vec![0x30u8, 0x2eu8, 0x30u8, 0x31u8];
        assert(header@ == stream_header());
        let enc = StreamEncoder {
            buffer: Vec::new(),
            text_len,
            samples: Ghost(Seq::empty()),
            frames: Ghost(Seq::empty()),
            positions: Ghost(Seq::empty()),
            written: Ghost(stream_header()),
            events: Ghost(Seq::empty()),
        };
        proof {
            assert(stream_header() + encode_all(Seq::<FrameView>::empty()) =~= stream_header());
            assert(audio_of(Seq::<FrameView>::empty()) + Seq::<u8>::empty() =~= sample_bytes(
                Seq::<i16>::empty(),
            ));
        }
        (enc, header)
    }

    /// Writes the pending audio as one frame.
    fn flush(&mut self, out: &mut Vec<u8>)
        requires
            old(self).consistent(),
            0 < old(self).buffer@.len() <= CHUNK_CAPACITY,
        ensures
            final(self).consistent(),
            final(self).buffer@ == Seq::<u8>::empty(),
            final(self).frames@ == old(self).frames@.push(FrameView::Audio(old(self).buffer@)),
            final(self).written@ == old(self).written@ + encode_frame(FrameView::Audio(old(self).buffer@)),
            final(out)@ == old(out)@ + encode_frame(FrameView::Audio(old(self).buffer@)),
            final(self).samples@ == old(self).samples@,
            final(self).events@ == old(self).events@,
            final(self).text_len == old(self).text_len,
    {
        reveal(StreamEncoder::consistent);
        let ghost f = FrameView::Audio(self.buffer@);
        put_u8(out, AUDIO_TAG);
        put_u32(out, self.buffer.len() as u32);
        put_bytes(out, &self.buffer);
        proof {
            assert(final(out)@ =~= old(out)@ + encode_frame(f));
        }
        self.buffer = Vec::new();
        let ghost n = self.frames@.len() as int;
        self.frames = Ghost(self.frames@.push(f));
        self.positions = Ghost(self.positions@.push(self.samples@.len()));
        self.written = Ghost(self.written@ + encode_frame(f));
        proof {
            let fs = self.frames@;
            assert(fs.drop_last() =~= old(self).frames@);
            assert(audio_of(fs) + self.buffer@ =~= audio_of(old(self).frames@) + old(self).buffer@);
            assert(self.written@ =~= stream_header() + encode_all(fs));
            assert(event_frames_of(fs) =~= event_frames_of(old(self).frames@));
            assert forall|j: int|
                0 <= j < fs.len() && #[trigger] fs[j] is Event implies audio_of(fs.take(j)).len()
                == 2 * self.positions@[j] by {
                if j < n {
                    assert(fs.take(j) =~= old(self).frames@.take(j));
                    assert(fs[j] == old(self).frames@[j]);
                }
            }
            assert forall|j: int| 0 <= j < n implies #[trigger] fs[j] == old(self).frames@[j] by {}
        }
    }

    /// Writes the frames of one boundary event; the pending audio must be out already.
    #[verifier::rlimit(40)]
    fn put_event(&mut self, out: &mut Vec<u8>, e: BoundaryEvent)
        requires
            old(self).consistent(),
            old(self).buffer@.len() == 0,
        ensures
            final(self).consistent(),
            final(self).buffer@ == Seq::<u8>::empty(),
            final(self).frames@ == old(self).frames@ + frames_of_event(e, old(self).text_len),
            final(self).written@ == old(self).written@ + encode_all(frames_of_event(e, old(self).text_len)),
            final(out)@ == old(out)@ + encode_all(frames_of_event(e, old(self).text_len)),
            final(self).samples@ == old(self).samples@,
            final(self).events@ == old(self).events@.push(e),
            final(self).text_len == old(self).text_len,
    {
        reveal(StreamEncoder::consistent);
        let (kind, start, end) = match e {
            BoundaryEvent::Word(s, l) => {
                let (a, b) = word_range(s, l, self.text_len as u64);
                (EventKind::Word, a as u32, b as u32)
            },
            BoundaryEvent::Sentence(o) => {
                let a = if o <= self.text_len as u64 { o as u32 } else { self.text_len };
                (EventKind::Sentence, a, a)
            },
            _ => {
                self.events = Ghost(self.events@.push(e));
                proof {
                    assert(self.events@.drop_last() =~= old(self).events@);
                    assert(event_frames(self.events@, self.text_len) =~= event_frames(old(self).events@, self.text_len));
                    assert(frames_of_event(e, self.text_len) =~= Seq::<FrameView>::empty());
                    assert(encode_all(Seq::<FrameView>::empty()) =~= Seq::<u8>::empty());
                    assert(self.frames@ + Seq::<FrameView>::empty() =~= self.frames@);
                    assert(self.written@ + Seq::<u8>::empty() =~= self.written@);
                    assert(old(out)@ + Seq::<u8>::empty() =~= old(out)@);
                }
                return;
            },
        };
        let ghost f = FrameView::Event(kind, start, end, Seq::empty());
        assert(frames_of_event(e, self.text_len) =~= seq![f]);
        put_u8(out, EVENT_TAG);
        put_u8(out, match kind {
            EventKind::Word => 1,
            EventKind::Sentence => 2,
        });
        put_u32(out, start);
        put_u32(out, end);
        put_u32(out, 0);
        proof {
            reveal_with_fuel(encode_all, 2);
            assert(seq![f].drop_last() =~= Seq::<FrameView>::empty());
            assert(encode_all(seq![f]) =~= encode_frame(f));
            assert(final(out)@ =~= old(out)@ + encode_frame(f));
            lemma_sample_bytes_len(self.samples@);
        }
        let ghost n = self.frames@.len() as int;
        self.frames = Ghost(self.frames@.push(f));
        self.positions = Ghost(self.positions@.push(self.samples@.len()));
        self.written = Ghost(self.written@ + encode_frame(f));
        self.events = Ghost(self.events@.push(e));
        proof {
            let fs = self.frames@;
            assert(fs =~= old(self).frames@ + seq![f]);
            assert(self.events@.drop_last() =~= old(self).events@);
            assert(fs.drop_last() =~= old(self).frames@);
            assert(event_frames_of(fs) =~= event_frames_of(old(self).frames@) + seq![f]);
            assert(event_frames(self.events@, self.text_len) == event_frames(old(self).events@, self.text_len) + seq![f]);
            assert(audio_of(fs) + self.buffer@ =~= audio_of(old(self).frames@) + old(self).buffer@);
            assert(self.written@ =~= stream_header() + encode_all(fs));
            assert(fs.take(n) =~= old(self).frames@);
            assert forall|j: int|
                0 <= j < fs.len() && #[trigger] fs[j] is Event implies audio_of(fs.take(j)).len()
                == 2 * self.positions@[j] by {
                if j < n {
                    assert(fs.take(j) =~= old(self).frames@.take(j));
                    assert(fs[j] == old(self).frames@[j]);
                }
            }
            assert forall|j: int| 0 <= j < n implies #[trigger] fs[j] == old(self).frames@[j] by {}
        }
    }

    /// Takes in one sample.
    fn put_sample(&mut self, sample: i16)
        requires
            old(self).consistent(),
            old(self).buffer@.len() < CHUNK_CAPACITY,
        ensures
            final(self).consistent(),
            final(self).buffer@ == old(self).buffer@ + spec_u16_to_le_bytes(sample as u16),
            0 < final(self).buffer@.len() <= CHUNK_CAPACITY,
            final(self).frames@ == old(self).frames@,
            final(self).written@ == old(self).written@,
            final(self).samples@ == old(self).samples@.push(sample),
            final(self).events@ == old(self).events@,
            final(self).text_len == old(self).text_len,
    {
        reveal(StreamEncoder::consistent);
        let b = u16_to_le_bytes(sample as u16);
        self.buffer.push(b[0]);
        self.buffer.push(b[1]);
        self.samples = Ghost(self.samples@.push(sample));
        proof {
            vstd::bytes::lemma_auto_spec_u16_to_from_le_bytes();
            assert(b@ =~= seq![b@[0], b@[1]]);
            assert(self.buffer@ =~= old(self).buffer@ + b@);
            assert(self.samples@.drop_last() =~= old(self).samples@);
            assert(audio_of(self.frames@) + self.buffer@ =~= audio_of(old(self).frames@)
                + old(self).buffer@ + b@);
        }
    }

    /// Takes in one sample and the boundary events at its position, if the
    /// engine reported any there, and gives the bytes to write.
    pub fn push(&mut self, sample: i16, events: Option<Vec<BoundaryEvent>>) -> (out: Vec<u8>)
        requires
            old(self).wf(),
        ensures
            final(self).wf(),
            final(self).text_len() == old(self).text_len(),
            final(self).samples() == old(self).samples().push(sample),
            final(self).events() == old(self).events() + match events {
                Some(v) => v@,
                None => Seq::<BoundaryEvent>::empty(),
            },
            final(self).frames() == old(self).frames() + push_frames(
                old(self).pending(),
                sample,
                opt_view(events),
                old(self).text_len(),
            ).0,
            final(self).pending() == push_frames(
                old(self).pending(),
                sample,
                opt_view(events),
                old(self).text_len(),
            ).1,
            final(self).written() == old(self).written() + out@,
    {
        let mut out: Vec<u8> = Vec::new();
        let ghost pf = push_frames(self.buffer@, sample, opt_view(events), self.text_len);
        let ghost before: Seq<FrameView> = Seq::empty();
        match events {
            Some(evs) => {
                if self.buffer.len() > 0 {
                    self.flush(&mut out);
                    proof {
                        before = seq![FrameView::Audio(old(self).buffer@)];
                    }
                }
                assert(out@ =~= encode_all(before)) by {
                    reveal_with_fuel(encode_all, 2);
                    if before.len() > 0 {
                        assert(before.drop_last() =~= Seq::<FrameView>::empty());
                    }
                }
                assert(self.frames@ =~= old(self).frames@ + before);
                let ghost out0 = out@;
                self.put_events(&mut out, &evs);
                proof {
                    let ef = event_frames(evs@, self.text_len);
                    lemma_encode_all_concat(before, ef);
                    assert(out@ =~= encode_all(before + ef));
                    assert(self.frames@ =~= old(self).frames@ + (before + ef));
                    assert(self.written@ =~= old(self).written@ + out@);
                }
            },
            None => {
                assert(self.events@ =~= old(self).events@ + Seq::<BoundaryEvent>::empty());
                assert(self.frames@ =~= old(self).frames@ + before);
                assert(out@ =~= encode_all(before));
                assert(self.written@ =~= old(self).written@ + out@);
            },
        }
        proof {
            vstd::bytes::lemma_auto_spec_u16_to_from_le_bytes();
        }
        self.put_sample(sample);
        if self.buffer.len() >= CHUNK_CAPACITY {
            let ghost out0 = out@;
            let ghost chunk = FrameView::Audio(self.buffer@);
            self.flush(&mut out);
            proof {
                assert(seq![chunk].drop_last() =~= Seq::<FrameView>::empty());
                reveal_with_fuel(encode_all, 2);
                assert(encode_all(seq![chunk]) =~= encode_frame(chunk));
                assert(self.written@ =~= old(self).written@ + out@);
                assert(self.frames@ =~= old(self).frames@ + pf.0);
            }
        } else {
            assert(self.frames@ =~= old(self).frames@ + pf.0);
        }
        out
    }

    /// Writes the frames of a run of boundary events; no audio may be pending.
    fn put_events(&mut self, out: &mut Vec<u8>, evs: &Vec<BoundaryEvent>)
        requires
            old(self).consistent(),
            old(self).buffer@.len() == 0,
        ensures
            final(self).consistent(),
            final(self).buffer@ == Seq::<u8>::empty(),
            final(self).frames@ == old(self).frames@ + event_frames(evs@, old(self).text_len),
            final(self).written@ == old(self).written@ + encode_all(event_frames(evs@, old(self).text_len)),
            final(out)@ == old(out)@ + encode_all(event_frames(evs@, old(self).text_len)),
            final(self).samples@ == old(self).samples@,
            final(self).events@ == old(self).events@ + evs@,
            final(self).text_len == old(self).text_len,
    {
        let mut i: usize = 0;
        assert(evs@.take(0) =~= Seq::<BoundaryEvent>::empty());
        assert(self.events@ =~= old(self).events@ + evs@.take(0));
        assert(self.frames@ =~= old(self).frames@ + event_frames(evs@.take(0), self.text_len));
        assert(out@ =~= old(out)@ + encode_all(event_frames(evs@.take(0), self.text_len)));
        assert(self.written@ =~= old(self).written@ + encode_all(event_frames(evs@.take(0), self.text_len)));
        while i < evs.len()
            invariant
                self.consistent(),
                self.buffer@ == Seq::<u8>::empty(),
                self.samples@ == old(self).samples@,
                self.events@ == old(self).events@ + evs@.take(i as int),
                self.text_len == old(self).text_len,
                i <= evs@.len(),
                self.frames@ == old(self).frames@ + event_frames(evs@.take(i as int), self.text_len),
                self.written@ == old(self).written@ + encode_all(event_frames(evs@.take(i as int), self.text_len)),
                out@ == old(out)@ + encode_all(event_frames(evs@.take(i as int), self.text_len)),
            decreases evs@.len() - i,
        {
            let ghost ef = event_frames(evs@.take(i as int), self.text_len);
            let ghost fe = frames_of_event(evs@[i as int], self.text_len);
            self.put_event(out, evs[i]);
            proof {
                assert(evs@.take(i + 1).drop_last() =~= evs@.take(i as int));
                assert(self.events@ =~= old(self).events@ + evs@.take(i + 1));
                assert(event_frames(evs@.take(i + 1), self.text_len) == ef + fe);
                lemma_encode_all_concat(ef, fe);
                assert(self.frames@ =~= old(self).frames@ + (ef + fe));
                assert(out@ =~= old(out)@ + encode_all(ef + fe));
                assert(self.written@ =~= old(self).written@ + encode_all(ef + fe));
            }
            i = i + 1;
        }
        assert(evs@.take(evs@.len() as int) =~= evs@);
    }

    /// Writes the audio still pending; the stream is then complete.
    pub fn finish(self) -> (out: Vec<u8>)
        requires
            self.wf(),
        ensures
            self.written() + out@ == stream_header() + encode_all(self.finished_frames()),
            out@ == (if self.pending().len() > 0 {
                encode_frame(FrameView::Audio(self.pending()))
            } else {
                Seq::<u8>::empty()
            }),
    {
        reveal(StreamEncoder::consistent);
        let mut s = self;
        let mut out: Vec<u8> = Vec::new();
        if s.buffer.len() > 0 {
            s.flush(&mut out);
            assert(out@ =~= encode_frame(FrameView::Audio(self.pending())));
            assert(s.frames@.drop_last() =~= self.frames@);
            assert(self.written() + out@ =~= stream_header() + encode_all(self.finished_frames()));
        } else {
            assert(self.written() + out@ =~= self.written());
        }
        out
    }
}

pub open spec fn opt_view(events: Option<Vec<BoundaryEvent>>) -> Option<Seq<BoundaryEvent>> {
    match events {
        Some(v) => Some(v@),
        None => None,
    }
}

fn put_u8(out: &mut Vec<u8>, b: u8)
    ensures
        final(out)@ == old(out)@ + seq![b],
{
    out.push(b);
    assert(final(out)@ =~= old(out)@ + seq![b]);
}

fn put_u32(out: &mut Vec<u8>, v: u32)
    ensures
        final(out)@ == old(out)@ + spec_u32_to_le_bytes(v),
{
    let b = u32_to_le_bytes(v);
    let mut i: usize = 0;
    while i < 4
        invariant
            b@ == spec_u32_to_le_bytes(v),
            b@.len() == 4,
            i <= 4,
            out@ == old(out)@ + b@.take(i as int),
        decreases 4 - i,
    {
        out.push(b[i]);
        assert(b@.take(i + 1) =~= b@.take(i as int).push(b@[i as int]));
        i = i + 1;
    }
    assert(b@.take(4) =~= b@);
}

fn put_bytes(out: &mut Vec<u8>, src: &Vec<u8>)
    ensures
        final(out)@ == old(out)@ + src@,
{
    let mut i: usize = 0;
    while i < src.len()
        invariant
            i <= src@.len(),
            out@ == old(out)@ + src@.take(i as int),
        decreases src@.len() - i,
    {
        out.push(src[i]);
        assert(src@.take(i + 1) =~= src@.take(i as int).push(src@[i as int]));
        i = i + 1;
    }
    assert(src@.take(src@.len() as int) =~= src@);
}

proof fn lemma_sample_bytes_len(s: Seq<i16>)
    ensures
        sample_bytes(s).len() == 2 * s.len(),
    decreases s.len(),
{
    vstd::bytes::lemma_auto_spec_u16_to_from_le_bytes();
    if s.len() > 0 {
        lemma_sample_bytes_len(s.drop_last());
    }
}

proof fn lemma_encode_all_concat(a: Seq<FrameView>, b: Seq<FrameView>)
    ensures
        encode_all(a + b) == encode_all(a) + encode_all(b),
    decreases b.len(),
{
    if b.len() == 0 {
        assert(a + b =~= a);
        assert(encode_all(a) + encode_all(b) =~= encode_all(a));
    } else {
        lemma_encode_all_concat(a, b.drop_last());
        assert((a + b).drop_last() =~= a + b.drop_last());
        assert(encode_all(a + b) =~= encode_all(a) + encode_all(b));
    }
}

pub open spec fn kind_of_tag(t: u8) -> EventKind {
    if t == 1 {
        EventKind::Word
    } else {
        EventKind::Sentence
    }
}

/// Reads frames back from their bytes; `None` where the bytes are no sequence of frames.
pub open spec fn decode_frames(b: Seq<u8>) -> Option<Seq<FrameView>>
    decreases b.len(),
{
    if b.len() == 0 {
        Some(Seq::empty())
    } else if b[0] == AUDIO_TAG && b.len() >= 5 {
        let n = spec_u32_from_le_bytes(b.subrange(1, 5)) as int;
        if 5 + n <= b.len() {
            match decode_frames(b.subrange(5 + n, b.len() as int)) {
                Some(rest) => Some(seq![FrameView::Audio(b.subrange(5, 5 + n))] + rest),
                None => None,
            }
        } else {
            None
        }
    } else if b[0] == EVENT_TAG && b.len() >= 14 && (b[1] == 1 || b[1] == 2) {
        let n = spec_u32_from_le_bytes(b.subrange(10, 14)) as int;
        if 14 + n <= b.len() {
            match decode_frames(b.subrange(14 + n, b.len() as int)) {
                Some(rest) => Some(
                    seq![
                        FrameView::Event(
                            kind_of_tag(b[1]),
                            spec_u32_from_le_bytes(b.subrange(2, 6)),
                            spec_u32_from_le_bytes(b.subrange(6, 10)),
                            b.subrange(14, 14 + n),
                        ),
                    ] + rest,
                ),
                None => None,
            }
        } else {
            None
        }
    } else {
        None
    }
}

/// Reads a whole stream back: the header, then its frames.
pub open spec fn decode_stream(b: Seq<u8>) -> Option<Seq<FrameView>> {
    if b.len() >= 4 && b.take(4) == stream_header() {
        decode_frames(b.skip(4))
    } else {
        None
    }
}

/// A frame whose payload length fits its length field.
pub open spec fn frame_fits(f: FrameView) -> bool {
    match f {
        FrameView::Audio(p) => p.len() <= u32::MAX,
        FrameView::Event(_, _, _, t) => t.len() <= u32::MAX,
    }
}

proof fn lemma_encode_all_first(fs: Seq<FrameView>)
    requires
        fs.len() > 0,
    ensures
        encode_all(fs) == encode_frame(fs[0]) + encode_all(fs.drop_first()),
{
    lemma_encode_all_concat(seq![fs[0]], fs.drop_first());
    assert(seq![fs[0]] + fs.drop_first() =~= fs);
    reveal_with_fuel(encode_all, 2);
    assert(seq![fs[0]].drop_last() =~= Seq::<FrameView>::empty());
    assert(encode_all(seq![fs[0]]) =~= encode_frame(fs[0]));
}

/// Frames read back from their own bytes are the frames written.
pub proof fn lemma_decode_encode(fs: Seq<FrameView>)
    requires
        forall|j: int| 0 <= j < fs.len() ==> frame_fits(#[trigger] fs[j]),
    ensures
        decode_frames(encode_all(fs)) == Some(fs),
    decreases fs.len(),
{
    if fs.len() == 0 {
        assert(decode_frames(Seq::<u8>::empty()) == Some(Seq::<FrameView>::empty()));
    } else {
        vstd::bytes::lemma_auto_spec_u32_to_from_le_bytes();
        let rest = fs.drop_first();
        assert forall|j: int| 0 <= j < rest.len() implies frame_fits(#[trigger] rest[j]) by {
            assert(rest[j] == fs[j + 1]);
        }
        lemma_decode_encode(rest);
        lemma_encode_all_first(fs);
        let r = encode_all(rest);
        let b = encode_all(fs);
        assert(frame_fits(fs[0]));
        match fs[0] {
            FrameView::Audio(p) => {
                let n = p.len() as int;
                let lb = spec_u32_to_le_bytes(p.len() as u32);
                assert(b =~= seq![AUDIO_TAG] + lb + p + r);
                assert(b.subrange(1, 5) =~= lb);
                assert(b.subrange(5, 5 + n) =~= p);
                assert(b.subrange(5 + n, b.len() as int) =~= r);
                assert(seq![FrameView::Audio(p)] + rest =~= fs);
            },
            FrameView::Event(k, st, en, t) => {
                let n = t.len() as int;
                let sb = spec_u32_to_le_bytes(st);
                let eb = spec_u32_to_le_bytes(en);
                let lb = spec_u32_to_le_bytes(t.len() as u32);
                assert(b =~= seq![EVENT_TAG, kind_tag(k)] + sb + eb + lb + t + r);
                assert(b[1] == kind_tag(k));
                assert(kind_of_tag(kind_tag(k)) == k);
                assert(b.subrange(2, 6) =~= sb);
                assert(b.subrange(6, 10) =~= eb);
                assert(b.subrange(10, 14) =~= lb);
                assert(b.subrange(14, 14 + n) =~= t);
                assert(b.subrange(14 + n, b.len() as int) =~= r);
                assert(seq![FrameView::Event(k, st, en, t)] + rest =~= fs);
            },
        }
    }
}

/// What a finished stream gives its reader. Its bytes read back as the header
/// and then its frames; the audio payloads, put together, are exactly the
/// samples taken in; every event frame follows exactly the audio of the samples
/// before its position and reports offsets within the utterance; no audio
/// frame is empty or over the chunk capacity.
pub proof fn lemma_finished_stream_recovers_input(enc: StreamEncoder, tail: Seq<u8>)
    requires
        enc.wf(),
        tail == (if enc.pending().len() > 0 {
            encode_frame(FrameView::Audio(enc.pending()))
        } else {
            Seq::<u8>::empty()
        }),
    ensures
        decode_stream(enc.written() + tail) == Some(enc.finished_frames()),
        audio_of(enc.finished_frames()) == sample_bytes(enc.samples()),
        event_frames_of(enc.finished_frames()) == event_frames(enc.events(), enc.text_len()),
        forall|j: int|
            0 <= j < enc.finished_frames().len() && #[trigger] enc.finished_frames()[j] is Event
                ==> j < enc.positions().len() && audio_of(enc.finished_frames().take(j)).len() == 2
                * enc.positions()[j],
        forall|j: int|
            0 <= j < enc.finished_frames().len() ==> match #[trigger] enc.finished_frames()[j] {
                FrameView::Audio(p) => 0 < p.len() <= CHUNK_CAPACITY,
                FrameView::Event(_, s, e, t) => s <= e <= enc.text_len() && t.len() == 0,
            },
{
    reveal(StreamEncoder::consistent);
    let fs = enc.finished_frames();
    let old_fs = enc.frames();
    assert(enc.written() + tail == stream_header() + encode_all(fs)) by {
        if enc.pending().len() > 0 {
            assert(fs.drop_last() =~= old_fs);
        }
    }
    if enc.pending().len() > 0 {
        assert(fs.drop_last() =~= old_fs);
        assert(audio_of(fs) == audio_of(old_fs) + enc.pending());
        assert(event_frames_of(fs) =~= event_frames_of(old_fs));
        assert forall|j: int| 0 <= j < old_fs.len() implies #[trigger] fs[j] == old_fs[j] by {}
        assert forall|j: int| 0 <= j < old_fs.len() implies #[trigger] fs.take(j) == old_fs.take(j) by {
            assert(fs.take(j) =~= old_fs.take(j));
        }
    } else {
        assert(audio_of(old_fs) + enc.pending() =~= audio_of(old_fs));
    }
    assert forall|j: int| 0 <= j < fs.len() implies frame_fits(#[trigger] fs[j]) by {
        if j < old_fs.len() {
            assert(fs[j] == old_fs[j]);
        }
    }
    lemma_decode_encode(fs);
    let b = enc.written() + tail;
    assert(b.take(4) =~= stream_header());
    assert(b.skip(4) =~= encode_all(fs));
}

/// Whether a boundary event gives an event frame, and the offset it starts at.
pub open spec fn reported_offset(e: BoundaryEvent) -> Option<u64> {
    match e {
        BoundaryEvent::Word(s, _) => Some(s),
        BoundaryEvent::Sentence(o) => Some(o),
        _ => None,
    }
}

pub open spec fn frame_start(f: FrameView) -> u32 {
    match f {
        FrameView::Event(_, s, _, _) => s,
        FrameView::Audio(_) => 0,
    }
}

proof fn lemma_event_frames_bounded(evs: Seq<BoundaryEvent>, text_len: u32, m: u64)
    requires
        forall|i: int|
            0 <= i < evs.len() && (#[trigger] reported_offset(evs[i])) is Some
                ==> reported_offset(evs[i])->0 <= m,
    ensures
        forall|j: int|
            0 <= j < event_frames(evs, text_len).len() ==> {
                &&& #[trigger] event_frames(evs, text_len)[j] is Event
                &&& frame_start(event_frames(evs, text_len)[j]) <= m
                &&& frame_start(event_frames(evs, text_len)[j]) <= text_len
            },
    decreases evs.len(),
{
    if evs.len() > 0 {
        let pre = evs.drop_last();
        assert forall|i: int|
            0 <= i < pre.len() && (#[trigger] reported_offset(pre[i])) is Some implies reported_offset(
                pre[i],
            )->0 <= m by {
            assert(pre[i] == evs[i]);
        }
        lemma_event_frames_bounded(pre, text_len, m);
        assert(reported_offset(evs[evs.len() - 1]) is Some ==> reported_offset(evs.last())->0 <= m);
    }
}

/// Event frames come out in the order of the events: where the engine reports
/// words and sentences at non-decreasing offsets, the frames' start offsets do
/// not decrease either.
pub proof fn lemma_event_frames_in_order(evs: Seq<BoundaryEvent>, text_len: u32)
    requires
        forall|i: int, j: int|
            0 <= i < j < evs.len() && (#[trigger] reported_offset(evs[i])) is Some && (
            #[trigger] reported_offset(evs[j])) is Some ==> reported_offset(evs[i])->0
                <= reported_offset(evs[j])->0,
    ensures
        forall|i: int, j: int|
            0 <= i < j < event_frames(evs, text_len).len() ==> frame_start(
                #[trigger] event_frames(evs, text_len)[i],
            ) <= frame_start(#[trigger] event_frames(evs, text_len)[j]),
    decreases evs.len(),
{
    if evs.len() > 0 {
        let pre = evs.drop_last();
        let last = evs.last();
        assert forall|i: int, j: int|
            0 <= i < j < pre.len() && (#[trigger] reported_offset(pre[i])) is Some && (
            #[trigger] reported_offset(pre[j])) is Some implies reported_offset(pre[i])->0
            <= reported_offset(pre[j])->0 by {
            assert(pre[i] == evs[i] && pre[j] == evs[j]);
        }
        lemma_event_frames_in_order(pre, text_len);
        let fs = event_frames(evs, text_len);
        let fp = event_frames(pre, text_len);
        if let Some(o) = reported_offset(last) {
            assert forall|i: int|
                0 <= i < pre.len() && (#[trigger] reported_offset(pre[i])) is Some implies reported_offset(
                    pre[i],
                )->0 <= o by {
                assert(pre[i] == evs[i]);
                assert(reported_offset(evs[i]) is Some);
                assert(reported_offset(evs[evs.len() - 1]) is Some);
            }
            lemma_event_frames_bounded(pre, text_len, o);
            assert forall|i: int, j: int|
                0 <= i < j < fs.len() implies frame_start(#[trigger] fs[i]) <= frame_start(
                #[trigger] fs[j]) by {
                if j < fp.len() {
                    assert(fs[i] == fp[i] && fs[j] == fp[j]);
                } else {
                    assert(fs[i] == fp[i]);
                    assert(frame_start(fp[i]) <= o && frame_start(fp[i]) <= text_len);
                }
            }
        } else {
            assert(fs =~= fp);
        }
    }
}

/// The event frames of a finished stream carry non-decreasing start offsets
/// wherever the engine reported its words and sentences in text order.
pub proof fn lemma_stream_events_in_order(enc: StreamEncoder)
    requires
        enc.wf(),
        forall|i: int, j: int|
            0 <= i < j < enc.events().len() && (#[trigger] reported_offset(enc.events()[i])) is Some
                && (#[trigger] reported_offset(enc.events()[j])) is Some ==> reported_offset(
                enc.events()[i],
            )->0 <= reported_offset(enc.events()[j])->0,
    ensures
        forall|i: int, j: int|
            0 <= i < j < event_frames_of(enc.finished_frames()).len() ==> frame_start(
                #[trigger] event_frames_of(enc.finished_frames())[i],
            ) <= frame_start(#[trigger] event_frames_of(enc.finished_frames())[j]),
{
    let tail = if enc.pending().len() > 0 {
        encode_frame(FrameView::Audio(enc.pending()))
    } else {
        Seq::<u8>::empty()
    };
    lemma_finished_stream_recovers_input(enc, tail);
    lemma_event_frames_in_order(enc.events(), enc.text_len());
}

} // verus!
