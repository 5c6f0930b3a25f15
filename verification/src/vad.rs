//! Voice-activity-driven chunking.
//!
//! A `Vad` answers "is this frame speech?"; the `Chunker` state machine
//! consumes a stream of (frame, is_speech) pairs and emits chunk-boundary
//! events. `FrameSlicer` cuts the incoming audio into VAD-sized frames.
use vstd::prelude::*;
use crate::config::VadConfig;

verus! {

/// Per-frame speech classifier. Frames are 16kHz mono i16 samples; the
/// implementation decides its own frame size.
pub trait Vad {
    /// Required input frame length, in samples.
    fn frame_samples(&self) -> usize;

    /// Classify one frame.
    fn is_speech(&mut self, frame: &[i16]) -> bool;
}

/// Why a chunk ended.
#[derive(Debug, PartialEq, Eq, Copy, Clone)]
pub enum EndReason {
    SilenceTimeout,
    MaxLength,
    SessionClosed,
}

/// What the chunker reports.
#[derive(Debug, PartialEq, Eq)]
pub enum ChunkEvent {
    /// A new chunk just started.
    Start,
    /// Audio samples belonging to the current chunk.
    Samples(Vec<i16>),
    /// The current chunk just ended.
    End { reason: EndReason },
}

/// A chunk event with its samples as a sequence.
pub enum EventModel {
    Start,
    Samples(Seq<i16>),
    End(EndReason),
}

impl View for ChunkEvent {
    type V = EventModel;

    open spec fn view(&self) -> EventModel {
        match self {
            ChunkEvent::Start => EventModel::Start,
            ChunkEvent::Samples(s) => EventModel::Samples(s@),
            ChunkEvent::End { reason } => EventModel::End(*reason),
        }
    }
}

/// The events of a list, as models.
pub open spec fn events_model(evs: Seq<ChunkEvent>) -> Seq<EventModel> {
    evs.map_values(|e: ChunkEvent| e@)
}

/// The samples carried by a list of events, concatenated in order.
pub open spec fn samples_of(evs: Seq<EventModel>) -> Seq<i16>
    decreases evs.len(),
{
    if evs.len() == 0 {
        Seq::empty()
    } else {
        let head = match evs[0] {
            EventModel::Samples(s) => s,
            _ => Seq::empty(),
        };
        head + samples_of(evs.drop_first())
    }
}

/// Starting with a chunk open (`open`) or not, the events `evs` are legal —
/// a chunk starts only when none is open, samples and ends occur only inside
/// an open chunk — and leave a chunk open exactly when `open_after`.
pub open spec fn events_valid(open: bool, evs: Seq<EventModel>, open_after: bool) -> bool
    decreases evs.len(),
{
    if evs.len() == 0 {
        open == open_after
    } else {
        match evs[0] {
            EventModel::Start => !open && events_valid(true, evs.drop_first(), open_after),
            EventModel::Samples(_) => open && events_valid(open, evs.drop_first(), open_after),
            EventModel::End(_) => open && events_valid(false, evs.drop_first(), open_after),
        }
    }
}

/// The abstract state of a chunker.
pub struct ChunkerModel {
    /// Silence (in samples) that ends a chunk.
    pub min_silence: nat,
    /// Length (in samples) at which a chunk is cut.
    pub max_chunk: nat,
    /// Whether a chunk is open.
    pub in_speech: bool,
    /// Samples of silence since the last speech frame of the open chunk.
    pub silence_streak: nat,
    /// Samples of the open chunk not yet emitted.
    pub buf: Seq<i16>,
}

/// One step of the chunker: its new state and the events it emits.
pub open spec fn feed_model(m: ChunkerModel, frame: Seq<i16>, is_speech: bool) -> (ChunkerModel, Seq<EventModel>) {
    if !m.in_speech {
        if is_speech {
            (ChunkerModel { in_speech: true, silence_streak: 0, buf: frame, ..m }, seq![EventModel::Start])
        } else {
            (m, Seq::empty())
        }
    } else {
        let buf = m.buf + frame;
        let streak: nat = if is_speech { 0 } else { m.silence_streak + frame.len() };
        if streak >= m.min_silence {
            (
                ChunkerModel { in_speech: false, silence_streak: 0, buf: Seq::empty(), ..m },
                seq![EventModel::Samples(buf), EventModel::End(EndReason::SilenceTimeout)],
            )
        } else if buf.len() >= m.max_chunk {
            (
                ChunkerModel { in_speech: true, silence_streak: 0, buf: Seq::empty(), ..m },
                seq![
                    EventModel::Samples(buf),
                    EventModel::End(EndReason::MaxLength),
                    EventModel::Start,
                ],
            )
        } else {
            (ChunkerModel { silence_streak: streak, buf: buf, ..m }, Seq::empty())
        }
    }
}

/// Closing the session: the open chunk, if any, is flushed and ended.
pub open spec fn close_model(m: ChunkerModel) -> (ChunkerModel, Seq<EventModel>) {
    if !m.in_speech {
        (m, Seq::empty())
    } else {
        let end = seq![EventModel::End(EndReason::SessionClosed)];
        (
            ChunkerModel { in_speech: false, silence_streak: 0, buf: Seq::empty(), ..m },
            if m.buf.len() > 0 { seq![EventModel::Samples(m.buf)] + end } else { end },
        )
    }
}

/// A closed chunker holds no audio.
pub open spec fn model_wf(m: ChunkerModel) -> bool {
    !m.in_speech ==> m.buf.len() == 0 && m.silence_streak == 0
}

/// Audio is never lost inside a chunk: what a chunk held, plus the frame
/// (when it belongs to a chunk), is exactly what the step emits followed by
/// what the chunk holds afterwards. Only silence outside a chunk is dropped.
pub proof fn law_feed_keeps_audio(m: ChunkerModel, frame: Seq<i16>, is_speech: bool)
    requires
        model_wf(m),
    ensures
        ({
            let (m2, evs) = feed_model(m, frame, is_speech);
            m.buf + (if m.in_speech || is_speech { frame } else { Seq::empty() })
                == samples_of(evs) + m2.buf
        }),
{
    reveal_with_fuel(samples_of, 4);
    let (m2, evs) = feed_model(m, frame, is_speech);
    let fed = if m.in_speech || is_speech { frame } else { Seq::<i16>::empty() };
    if !m.in_speech {
        assert(samples_of(evs) =~= Seq::<i16>::empty());
    } else {
        let buf = m.buf + frame;
        if evs.len() > 0 {
            assert(samples_of(evs) =~= buf);
        }
    }
    assert(m.buf + fed =~= samples_of(evs) + m2.buf);
}

/// Every step emits a legal event sequence (a chunk starts only when none is
/// open; samples and ends only inside an open chunk) that leaves a chunk open
/// exactly when the new state is in speech, and keeps a closed chunker empty.
pub proof fn law_feed_events_valid(m: ChunkerModel, frame: Seq<i16>, is_speech: bool)
    requires
        model_wf(m),
    ensures
        ({
            let (m2, evs) = feed_model(m, frame, is_speech);
            events_valid(m.in_speech, evs, m2.in_speech) && model_wf(m2)
        }),
{
    reveal_with_fuel(events_valid, 4);
    let (m2, evs) = feed_model(m, frame, is_speech);
    if m.in_speech && evs.len() == 3 {
        assert(evs.drop_first().drop_first().drop_first() =~= Seq::<EventModel>::empty());
    }
}

/// What a feed step emits: every end directly follows the samples of its
/// chunk, no end is a session close, and samples are never empty when the
/// frame is not.
pub proof fn law_feed_event_shape(m: ChunkerModel, frame: Seq<i16>, is_speech: bool)
    ensures
        ({
            let (m2, evs) = feed_model(m, frame, is_speech);
            &&& forall|i: int| 0 <= i < evs.len() && #[trigger] evs[i] is End ==> i > 0 && evs[i - 1] is Samples
            &&& forall|i: int| 0 <= i < evs.len() ==> #[trigger] evs[i] != EventModel::End(EndReason::SessionClosed)
            &&& forall|i: int|
                0 <= i < evs.len() && #[trigger] evs[i] is Samples && frame.len() > 0 ==> evs[i]->Samples_0.len() > 0
        }),
{
    let (m2, evs) = feed_model(m, frame, is_speech);
    if m.in_speech {
        let buf = m.buf + frame;
        assert(frame.len() > 0 ==> buf.len() > 0);
    }
}

/// What closing emits: only samples that are not empty, then the session
/// close.
pub proof fn law_close_event_shape(m: ChunkerModel)
    ensures
        ({
            let (m2, evs) = close_model(m);
            &&& forall|i: int| 0 <= i < evs.len() && #[trigger] evs[i] is Samples ==> evs[i]->Samples_0.len() > 0
            &&& m.in_speech ==> evs.len() > 0 && evs.last() == EventModel::End(EndReason::SessionClosed)
            &&& forall|i: int| 0 <= i < evs.len() - 1 ==> #[trigger] evs[i] is Samples
        }),
{
}

/// Inside an open chunk the silence count runs only over consecutive silent
/// frames: a speech frame never ends the chunk on silence (unless no
/// silence at all is required) and, when it emits nothing, leaves the count
/// at zero; a silent frame that emits nothing adds its length to the count;
/// and a chunk ends on silence only when the count before the frame plus a
/// silent frame's length reaches the threshold.
pub proof fn law_speech_resets_silence(m: ChunkerModel, frame: Seq<i16>, is_speech: bool)
    requires
        m.in_speech,
    ensures
        ({
            let (m2, evs) = feed_model(m, frame, is_speech);
            &&& (is_speech && m.min_silence > 0 ==> !evs.contains(EventModel::End(EndReason::SilenceTimeout)))
            &&& (is_speech && evs.len() == 0 ==> m2.silence_streak == 0)
            &&& (!is_speech && evs.len() == 0 ==> m2.silence_streak == m.silence_streak + frame.len())
            &&& (evs.contains(EventModel::End(EndReason::SilenceTimeout)) ==> if is_speech {
                m.min_silence == 0
            } else {
                m.silence_streak + frame.len() >= m.min_silence
            })
        }),
{
    let (m2, evs) = feed_model(m, frame, is_speech);
    if evs.contains(EventModel::End(EndReason::SilenceTimeout)) {
        let i = choose|i: int| 0 <= i < evs.len() && evs[i] == EventModel::End(EndReason::SilenceTimeout);
        assert(evs[i] == EventModel::End(EndReason::SilenceTimeout));
    }
}

/// Closing flushes exactly the audio the open chunk held, ends it with a
/// legal event sequence, and leaves the chunker closed and empty; closing a
/// closed chunker emits nothing.
pub proof fn law_close_flushes(m: ChunkerModel)
    requires
        model_wf(m),
    ensures
        ({
            let (m2, evs) = close_model(m);
            &&& samples_of(evs) == m.buf
            &&& events_valid(m.in_speech, evs, false)
            &&& !m2.in_speech
            &&& m2.buf.len() == 0
            &&& (!m.in_speech ==> evs.len() == 0)
        }),
{
    reveal_with_fuel(samples_of, 3);
    reveal_with_fuel(events_valid, 3);
    let (m2, evs) = close_model(m);
    if m.in_speech {
        if m.buf.len() > 0 {
            assert(evs.drop_first().drop_first() =~= Seq::<EventModel>::empty());
            assert(samples_of(evs) =~= m.buf);
        } else {
            assert(evs.drop_first() =~= Seq::<EventModel>::empty());
            assert(samples_of(evs) =~= m.buf);
        }
    } else {
        assert(samples_of(evs) =~= m.buf);
    }
}

/// Frames fed in turn: the final state, the events in order, and the audio
/// that went into chunks (every frame fed while a chunk was open or that
/// opened one).
pub open spec fn run_model(m: ChunkerModel, frames: Seq<(Seq<i16>, bool)>) -> (ChunkerModel, Seq<EventModel>, Seq<i16>)
    decreases frames.len(),
{
    if frames.len() == 0 {
        (m, Seq::empty(), Seq::empty())
    } else {
        let (m1, e1, a1) = run_model(m, frames.drop_last());
        let (f, sp) = frames.last();
        let (m2, e2) = feed_model(m1, f, sp);
        (m2, e1 + e2, a1 + if m1.in_speech || sp { f } else { Seq::empty() })
    }
}

proof fn lemma_samples_of_append(a: Seq<EventModel>, b: Seq<EventModel>)
    ensures
        samples_of(a + b) == samples_of(a) + samples_of(b),
    decreases a.len(),
{
    if a.len() == 0 {
        assert(a + b =~= b);
        assert(Seq::<i16>::empty() + samples_of(b) =~= samples_of(b));
    } else {
        lemma_samples_of_append(a.drop_first(), b);
        assert((a + b).drop_first() =~= a.drop_first() + b);
        assert((a + b)[0] == a[0]);
        let head = match a[0] {
            EventModel::Samples(s) => s,
            _ => Seq::<i16>::empty(),
        };
        assert(head + (samples_of(a.drop_first()) + samples_of(b)) =~= (head + samples_of(a.drop_first()))
            + samples_of(b));
    }
}

proof fn lemma_events_valid_append(o1: bool, a: Seq<EventModel>, o2: bool, b: Seq<EventModel>, o3: bool)
    requires
        events_valid(o1, a, o2),
        events_valid(o2, b, o3),
    ensures
        events_valid(o1, a + b, o3),
    decreases a.len(),
{
    if a.len() == 0 {
        assert(a + b =~= b);
    } else {
        assert((a + b).drop_first() =~= a.drop_first() + b);
        assert((a + b)[0] == a[0]);
        match a[0] {
            EventModel::Start => lemma_events_valid_append(true, a.drop_first(), o2, b, o3),
            EventModel::Samples(_) => lemma_events_valid_append(o1, a.drop_first(), o2, b, o3),
            EventModel::End(_) => lemma_events_valid_append(false, a.drop_first(), o2, b, o3),
        }
    }
}

proof fn lemma_run_keeps_audio(m: ChunkerModel, frames: Seq<(Seq<i16>, bool)>)
    requires
        model_wf(m),
    ensures
        ({
            let (m1, evs, audio) = run_model(m, frames);
            &&& model_wf(m1)
            &&& m1.min_silence == m.min_silence && m1.max_chunk == m.max_chunk
            &&& m.buf + audio == samples_of(evs) + m1.buf
            &&& events_valid(m.in_speech, evs, m1.in_speech)
        }),
    decreases frames.len(),
{
    if frames.len() == 0 {
        assert(m.buf + Seq::<i16>::empty() =~= Seq::<i16>::empty() + m.buf);
    } else {
        lemma_run_keeps_audio(m, frames.drop_last());
        let (m1, e1, a1) = run_model(m, frames.drop_last());
        let (f, sp) = frames.last();
        let (m2, e2) = feed_model(m1, f, sp);
        let fed = if m1.in_speech || sp { f } else { Seq::<i16>::empty() };
        law_feed_keeps_audio(m1, f, sp);
        law_feed_events_valid(m1, f, sp);
        lemma_samples_of_append(e1, e2);
        lemma_events_valid_append(m.in_speech, e1, m1.in_speech, e2, m2.in_speech);
        assert(m.buf + (a1 + fed) =~= (m.buf + a1) + fed);
        assert((samples_of(e1) + m1.buf) + fed =~= samples_of(e1) + (m1.buf + fed));
        assert(samples_of(e1) + (samples_of(e2) + m2.buf) =~= (samples_of(e1) + samples_of(e2)) + m2.buf);
    }
}

/// Over a whole session — frames fed in turn, then the session closed — the
/// samples the events carry are exactly the audio that went into chunks
/// (after whatever the chunker already held), in order, and the events form
/// a legal sequence that ends with no chunk open.
pub proof fn law_session_keeps_audio(m: ChunkerModel, frames: Seq<(Seq<i16>, bool)>)
    requires
        model_wf(m),
    ensures
        ({
            let (m1, evs, audio) = run_model(m, frames);
            let (m2, last) = close_model(m1);
            &&& m.buf + audio == samples_of(evs + last)
            &&& events_valid(m.in_speech, evs + last, false)
            &&& !m2.in_speech
        }),
{
    lemma_run_keeps_audio(m, frames);
    let (m1, evs, audio) = run_model(m, frames);
    let (m2, last) = close_model(m1);
    law_close_flushes(m1);
    lemma_samples_of_append(evs, last);
    lemma_events_valid_append(m.in_speech, evs, m1.in_speech, last, false);
}

/// Every end in `evs` directly follows samples.
pub open spec fn ends_follow_samples(evs: Seq<EventModel>) -> bool {
    forall|i: int| 0 <= i < evs.len() && #[trigger] evs[i] is End ==> i > 0 && evs[i - 1] is Samples
}

/// No event of `evs` carries empty samples.
pub open spec fn samples_non_empty(evs: Seq<EventModel>) -> bool {
    forall|i: int| 0 <= i < evs.len() && #[trigger] evs[i] is Samples ==> evs[i]->Samples_0.len() > 0
}

/// No event of `evs` is the end of the session.
pub open spec fn no_session_close(evs: Seq<EventModel>) -> bool {
    forall|i: int| 0 <= i < evs.len() ==> #[trigger] evs[i] != EventModel::End(EndReason::SessionClosed)
}

proof fn lemma_run_event_shape(m: ChunkerModel, frames: Seq<(Seq<i16>, bool)>)
    requires
        forall|k: int| 0 <= k < frames.len() ==> (#[trigger] frames[k]).0.len() > 0,
    ensures
        ({
            let (m1, evs, audio) = run_model(m, frames);
            &&& ends_follow_samples(evs)
            &&& no_session_close(evs)
            &&& samples_non_empty(evs)
        }),
    decreases frames.len(),
{
    if frames.len() > 0 {
        let fs = frames.drop_last();
        assert forall|k: int| 0 <= k < fs.len() implies (#[trigger] fs[k]).0.len() > 0 by {
            assert(fs[k] == frames[k]);
        }
        lemma_run_event_shape(m, fs);
        let (m1, e1, a1) = run_model(m, fs);
        let (f, sp) = frames.last();
        assert(frames[frames.len() - 1].0.len() > 0);
        law_feed_event_shape(m1, f, sp);
        let (m2, e2) = feed_model(m1, f, sp);
        let r = e1 + e2;
        assert forall|i: int| 0 <= i < r.len() && #[trigger] r[i] is End implies i > 0 && r[i - 1] is Samples by {
            if i < e1.len() {
                assert(r[i] == e1[i]);
                assert(r[i - 1] == e1[i - 1]);
            } else {
                assert(r[i] == e2[i - e1.len()]);
                assert(r[i - 1] == e2[i - 1 - e1.len()]);
            }
        }
        assert forall|i: int| 0 <= i < r.len() implies #[trigger] r[i] != EventModel::End(EndReason::SessionClosed) by {
            if i < e1.len() {
                assert(r[i] == e1[i]);
            } else {
                assert(r[i] == e2[i - e1.len()]);
            }
        }
        assert forall|i: int| 0 <= i < r.len() && #[trigger] r[i] is Samples implies r[i]->Samples_0.len() > 0 by {
            if i < e1.len() {
                assert(r[i] == e1[i]);
            } else {
                assert(r[i] == e2[i - e1.len()]);
            }
        }
    }
}

/// Over a whole session of non-empty frames fed in turn and then closed:
/// the events follow the chunk grammar (a start, then samples and an end,
/// chunk after chunk, no chunk left open); every end that a feed emits
/// directly follows samples; only the close ends the session; and no
/// samples are empty.
pub proof fn law_session_event_shape(m: ChunkerModel, frames: Seq<(Seq<i16>, bool)>)
    requires
        model_wf(m),
        !m.in_speech,
        forall|k: int| 0 <= k < frames.len() ==> (#[trigger] frames[k]).0.len() > 0,
    ensures
        ({
            let (m1, evs, audio) = run_model(m, frames);
            let (m2, last) = close_model(m1);
            &&& events_valid(false, evs + last, false)
            &&& ends_follow_samples(evs)
            &&& no_session_close(evs)
            &&& samples_non_empty(evs + last)
            &&& forall|i: int| 0 <= i < last.len() - 1 ==> #[trigger] last[i] is Samples
            &&& (m1.in_speech ==> last.last() == EventModel::End(EndReason::SessionClosed))
        }),
{
    law_session_keeps_audio(m, frames);
    lemma_run_event_shape(m, frames);
    let (m1, evs, audio) = run_model(m, frames);
    let (m2, last) = close_model(m1);
    law_close_event_shape(m1);
    let r = evs + last;
    assert forall|i: int| 0 <= i < r.len() && #[trigger] r[i] is Samples implies r[i]->Samples_0.len() > 0 by {
        if i < evs.len() {
            assert(r[i] == evs[i]);
        } else {
            assert(r[i] == last[i - evs.len()]);
        }
    }
}

/// Converts a duration in milliseconds to a number of samples at `sample_rate`.
pub fn ms_to_samples(ms: u32, sample_rate: u32) -> (n: u64)
    ensures
        n == (ms as int * sample_rate as int) / 1000,
{
    proof {
        vstd::arithmetic::mul::lemma_mul_upper_bound(
            ms as int,
            u32::MAX as int,
            sample_rate as int,
            u32::MAX as int,
        );
    }
    (ms as u64 * sample_rate as u64) / 1000
}

/// Appends `frame` to `buf`.
fn append_samples(buf: &mut Vec<i16>, frame: &[i16])
    ensures
        final(buf)@ == old(buf)@ + frame@,
{
    let mut i: usize = 0;
    while i < frame.len()
        invariant
            i <= frame@.len(),
            buf@ == old(buf)@ + frame@.take(i as int),
        decreases frame@.len() - i,
    {
        buf.push(frame[i]);
        i = i + 1;
        assert(buf@ =~= old(buf)@ + frame@.take(i as int));
    }
    assert(frame@.take(frame@.len() as int) =~= frame@);
}

/// Takes the contents out of `buf`, leaving it empty.
fn take_samples(buf: &mut Vec<i16>) -> (taken: Vec<i16>)
    ensures
        taken@ == old(buf)@,
        final(buf)@ == Seq::<i16>::empty(),
{
    let mut taken: Vec<i16> = Vec::new();
    std::mem::swap(&mut taken, buf);
    taken
}

/// Turns a stream of classified frames into chunk events.
pub struct Chunker {
    sample_rate: u32,
    min_silence_samples: u64,
    max_chunk_samples: u64,
    in_speech: bool,
    silence_streak: u64,
    chunk_len: u64,
    buf: Vec<i16>,
}

impl View for Chunker {
    type V = ChunkerModel;

    closed spec fn view(&self) -> ChunkerModel {
        ChunkerModel {
            min_silence: self.min_silence_samples as nat,
            max_chunk: self.max_chunk_samples as nat,
            in_speech: self.in_speech,
            silence_streak: self.silence_streak as nat,
            buf: self.buf@,
        }
    }
}

impl Chunker {
    /// The internal bookkeeping agrees with the model.
    pub closed spec fn wf(&self) -> bool {
        &&& self.chunk_len == self.buf@.len()
        &&& self.silence_streak <= self.chunk_len
        &&& model_wf(self@)
    }

    /// The sample rate the chunker was made for.
    pub closed spec fn rate(&self) -> u32 {
        self.sample_rate
    }

    /// A closed chunker whose thresholds are `cfg`'s durations at `sample_rate`.
    pub fn new(sample_rate: u32, cfg: &VadConfig) -> (c: Self)
        ensures
            c.wf(),
            c.rate() == sample_rate,
            c@.min_silence == (cfg.min_silence_ms as int * sample_rate as int) / 1000,
            c@.max_chunk == (cfg.max_chunk_ms as int * sample_rate as int) / 1000,
            !c@.in_speech,
            c@.silence_streak == 0,
            c@.buf == Seq::<i16>::empty(),
    {
        Chunker {
            sample_rate,
            min_silence_samples: ms_to_samples(cfg.min_silence_ms, sample_rate),
            max_chunk_samples: ms_to_samples(cfg.max_chunk_ms, sample_rate),
            in_speech: false,
            silence_streak: 0,
            chunk_len: 0,
            buf: Vec::new(),
        }
    }

    /// Feeds one frame and returns the events it causes, in order.
    pub fn feed(&mut self, frame: &[i16], is_speech: bool) -> (events: Vec<ChunkEvent>)
        requires
            old(self).wf(),
        ensures
            final(self).wf(),
            final(self).rate() == old(self).rate(),
            (final(self)@, events_model(events@)) == feed_model(old(self)@, frame@, is_speech),
    {
        let mut events: Vec<ChunkEvent> = Vec::new();
        let frame_len = frame.len() as u64;
        if !self.in_speech {
            if is_speech {
                self.in_speech = true;
                self.chunk_len = 0;
                self.silence_streak = 0;
                self.buf.clear();
                append_samples(&mut self.buf, frame);
                self.chunk_len = frame_len;
                events.push(ChunkEvent::Start);
                assert(events_model(events@) =~= seq![EventModel::Start]);
            } else {
                assert(events_model(events@) =~= Seq::<EventModel>::empty());
            }
            return events;
        }
        append_samples(&mut self.buf, frame);
        let new_len = self.buf.len();
        assert(new_len == self.chunk_len + frame_len);
        self.chunk_len = new_len as u64;
        if is_speech {
            self.silence_streak = 0;
        } else {
            self.silence_streak = self.silence_streak + frame_len;
        }
        if self.silence_streak >= self.min_silence_samples {
            let samples = take_samples(&mut self.buf);
            events.push(ChunkEvent::Samples(samples));
            events.push(ChunkEvent::End { reason: EndReason::SilenceTimeout });
            self.in_speech = false;
            self.silence_streak = 0;
            self.chunk_len = 0;
        } else if self.chunk_len >= self.max_chunk_samples {
            let samples = take_samples(&mut self.buf);
            events.push(ChunkEvent::Samples(samples));
            events.push(ChunkEvent::End { reason: EndReason::MaxLength });
            self.in_speech = true;
            self.chunk_len = 0;
            self.silence_streak = 0;
            events.push(ChunkEvent::Start);
        }
        assert(events_model(events@) =~= feed_model(old(self)@, frame@, is_speech).1);
        events
    }

    /// Closes out any in-flight chunk (called on session end).
    pub fn close(&mut self) -> (events: Vec<ChunkEvent>)
        requires
            old(self).wf(),
        ensures
            final(self).wf(),
            final(self).rate() == old(self).rate(),
            (final(self)@, events_model(events@)) == close_model(old(self)@),
    {
        if !self.in_speech {
            let out: Vec<ChunkEvent> = Vec::new();
            assert(events_model(out@) =~= Seq::<EventModel>::empty());
            return out;
        }
        let samples = take_samples(&mut self.buf);
        let mut out: Vec<ChunkEvent> = Vec::new();
        if samples.len() > 0 {
            out.push(ChunkEvent::Samples(samples));
        }
        out.push(ChunkEvent::End { reason: EndReason::SessionClosed });
        self.in_speech = false;
        self.chunk_len = 0;
        self.silence_streak = 0;
        assert(events_model(out@) =~= close_model(old(self)@).1);
        out
    }
}

/// The samples of each frame in a list.
pub open spec fn frames_model(frames: Seq<Vec<i16>>) -> Seq<Seq<i16>> {
    frames.map_values(|f: Vec<i16>| f@)
}

/// Copies `v[lo..hi]` into a new vector.
fn copy_range(v: &Vec<i16>, lo: usize, hi: usize) -> (out: Vec<i16>)
    requires
        lo <= hi <= v@.len(),
    ensures
        out@ == v@.subrange(lo as int, hi as int),
{
    let mut out: Vec<i16> = Vec::new();
    let mut i = lo;
    while i < hi
        invariant
            lo <= i <= hi <= v@.len(),
            out@ == v@.subrange(lo as int, i as int),
        decreases hi - i,
    {
        out.push(v[i]);
        i = i + 1;
        assert(out@ =~= v@.subrange(lo as int, i as int));
    }
    out
}

/// Cuts arbitrarily sized blocks of audio into frames of a fixed size,
/// carrying the remainder over to the next block.
pub struct FrameSlicer {
    frame_size: usize,
    leftover: Vec<i16>,
}

impl FrameSlicer {
    /// The size of every frame produced.
    pub closed spec fn frame_size(&self) -> nat {
        self.frame_size as nat
    }

    /// Samples received but not yet handed out in a frame.
    pub closed spec fn pending(&self) -> Seq<i16> {
        self.leftover@
    }

    /// A slicer producing frames of `frame_size` samples, holding nothing.
    pub fn new(frame_size: usize) -> (s: Self)
        requires
            frame_size > 0,
        ensures
            s.frame_size() == frame_size,
            s.pending() == Seq::<i16>::empty(),
    {
        FrameSlicer { frame_size, leftover: Vec::new() }
    }

    /// Adds `incoming` and returns every complete frame now available, in
    /// order; fewer than a frame's worth of samples stay pending.
    pub fn push(&mut self, incoming: &[i16]) -> (frames: Vec<Vec<i16>>)
        requires
            old(self).frame_size() > 0,
        ensures
            final(self).frame_size() == old(self).frame_size(),
            frames_model(frames@).flatten() + final(self).pending() == old(self).pending() + incoming@,
            forall|k: int| 0 <= k < frames@.len() ==> #[trigger] frames@[k]@.len() == old(self).frame_size(),
            final(self).pending().len() < old(self).frame_size(),
    {
        broadcast use Seq::lemma_flatten_push;
        append_samples(&mut self.leftover, incoming);
        let all = take_samples(&mut self.leftover);
        let fs = self.frame_size;
        let mut frames: Vec<Vec<i16>> = Vec::new();
        let mut start: usize = 0;
        while all.len() - start >= fs
            invariant
                fs > 0,
                start <= all@.len(),
                frames_model(frames@).flatten() == all@.subrange(0, start as int),
                forall|k: int| 0 <= k < frames@.len() ==> #[trigger] frames@[k]@.len() == fs,
            decreases all@.len() - start,
        {
            let f = copy_range(&all, start, start + fs);
            let ghost before = frames_model(frames@);
            frames.push(f);
            assert(frames_model(frames@) =~= before.push(f@));
            proof {
                before.lemma_flatten_push(f@);
            }
            start = start + fs;
            assert(all@.subrange(0, start as int) =~= all@.subrange(0, start - fs) + f@);
        }
        self.leftover = copy_range(&all, start, all.len());
        assert(all@ =~= all@.subrange(0, start as int) + all@.subrange(start as int, all@.len() as int));
        frames
    }
}

} // verus!
