use localasr::config::{VadBackend, VadConfig};
use localasr::vad::{ms_to_samples, ChunkEvent, Chunker, EndReason, FrameSlicer};

fn cfg(min_silence_ms: u32, max_chunk_ms: u32) -> VadConfig {
    VadConfig { backend: VadBackend::Silero, min_silence_ms, max_chunk_ms }
}

fn frame(n: usize) -> Vec<i16> {
    vec![0i16; n]
}

#[test]
fn silence_then_speech_starts_chunk() {
    let mut c = Chunker::new(16000, &cfg(400, 5000));
    assert!(c.feed(&frame(160), false).is_empty());
    let evs = c.feed(&frame(160), true);
    assert_eq!(evs, vec![ChunkEvent::Start]);
}

#[test]
fn silence_after_speech_ends_chunk() {
    let mut c = Chunker::new(16000, &cfg(100, 5000)); // 1600 samples silence
    c.feed(&frame(160), true);
    for _ in 0..10 {
        let _ = c.feed(&frame(160), false);
    }
    let evs = c.feed(&frame(160), true);
    assert_eq!(evs[0], ChunkEvent::Start, "should be starting a new chunk after End");
}

#[test]
fn max_chunk_length_forces_end_and_restart() {
    let mut c = Chunker::new(16000, &cfg(400, 100)); // 1600 sample max
    c.feed(&frame(160), true);
    let mut last = vec![];
    for _ in 0..20 {
        last = c.feed(&frame(160), true);
        if !last.is_empty() {
            break;
        }
    }
    assert!(matches!(last[0], ChunkEvent::Samples(_)));
    assert_eq!(last[1], ChunkEvent::End { reason: EndReason::MaxLength });
    assert_eq!(last[2], ChunkEvent::Start);
}

#[test]
fn close_during_silence_emits_nothing() {
    let mut c = Chunker::new(16000, &cfg(400, 5000));
    c.feed(&frame(160), false);
    assert!(c.close().is_empty());
}

#[test]
fn close_during_speech_flushes_chunk() {
    let mut c = Chunker::new(16000, &cfg(400, 5000));
    c.feed(&frame(160), true);
    c.feed(&frame(160), true);
    let evs = c.close();
    assert!(matches!(evs[0], ChunkEvent::Samples(_)));
    assert_eq!(evs[1], ChunkEvent::End { reason: EndReason::SessionClosed });
}

#[test]
fn ms_to_samples_exact() {
    assert_eq!(ms_to_samples(400, 16000), 6400);
    assert_eq!(ms_to_samples(1, 44100), 44);
    assert_eq!(ms_to_samples(u32::MAX, u32::MAX), (u32::MAX as u64 * u32::MAX as u64) / 1000);
}

#[test]
fn silence_timeout_emits_all_chunk_audio() {
    let mut c = Chunker::new(1000, &cfg(3, 5000)); // 3 samples of silence end a chunk
    let mut out: Vec<i16> = Vec::new();
    let mut fed: Vec<i16> = Vec::new();
    let frames: Vec<(Vec<i16>, bool)> = vec![(vec![1, 2], true), (vec![3], false), (vec![4, 5], false)];
    let mut reasons = vec![];
    for (f, speech) in frames {
        fed.extend(&f);
        for ev in c.feed(&f, speech) {
            match ev {
                ChunkEvent::Samples(s) => out.extend(s),
                ChunkEvent::End { reason } => reasons.push(reason),
                ChunkEvent::Start => {}
            }
        }
    }
    assert_eq!(out, fed);
    assert_eq!(reasons, vec![EndReason::SilenceTimeout]);
}

#[test]
fn session_close_flushes_partial_chunk_audio() {
    let mut c = Chunker::new(1000, &cfg(100, 5000));
    c.feed(&[7, 8, 9], true);
    c.feed(&[10], false);
    let evs = c.close();
    assert_eq!(
        evs,
        vec![ChunkEvent::Samples(vec![7, 8, 9, 10]), ChunkEvent::End { reason: EndReason::SessionClosed }]
    );
    assert!(c.close().is_empty());
}

#[test]
fn max_length_restart_keeps_audio_in_order() {
    let mut c = Chunker::new(1000, &cfg(100, 4)); // 4-sample chunks
    let evs = c.feed(&[1, 2], true);
    assert_eq!(evs, vec![ChunkEvent::Start]);
    let evs = c.feed(&[3, 4], true);
    assert_eq!(
        evs,
        vec![
            ChunkEvent::Samples(vec![1, 2, 3, 4]),
            ChunkEvent::End { reason: EndReason::MaxLength },
            ChunkEvent::Start,
        ]
    );
    let evs = c.feed(&[5], true);
    assert!(evs.is_empty());
    assert_eq!(
        c.close(),
        vec![ChunkEvent::Samples(vec![5]), ChunkEvent::End { reason: EndReason::SessionClosed }]
    );
}

#[test]
fn restart_then_immediate_close_emits_only_end() {
    let mut c = Chunker::new(1000, &cfg(100, 2));
    c.feed(&[1], true);
    c.feed(&[2], true); // reaches the max: Samples, End, Start
    assert_eq!(c.close(), vec![ChunkEvent::End { reason: EndReason::SessionClosed }]);
}

#[test]
fn frame_slicer_cuts_fixed_frames_and_carries_rest() {
    let mut s = FrameSlicer::new(3);
    let f = s.push(&[1, 2]);
    assert!(f.is_empty());
    let f = s.push(&[3, 4, 5, 6, 7]);
    assert_eq!(f, vec![vec![1, 2, 3], vec![4, 5, 6]]);
    let f = s.push(&[8, 9]);
    assert_eq!(f, vec![vec![7, 8, 9]]);
    assert!(s.push(&[]).is_empty());
}

#[test]
fn whole_session_samples_are_the_chunked_audio() {
    let mut c = Chunker::new(16000, &cfg(100, 5000)); // 1600 samples of silence ends a chunk
    let f = |i: i16| vec![i; 160];
    let mut events = Vec::new();
    events.extend(c.feed(&f(0), false)); // outside a chunk: dropped
    events.extend(c.feed(&f(1), true));
    for i in 2..12 {
        events.extend(c.feed(&f(i), false)); // the tenth silent frame ends the chunk
    }
    events.extend(c.feed(&f(12), false)); // dropped
    events.extend(c.feed(&f(13), true));
    events.extend(c.feed(&f(14), true));
    events.extend(c.close());

    let mut samples = Vec::new();
    let mut open = false;
    for ev in &events {
        match ev {
            ChunkEvent::Start => {
                assert!(!open);
                open = true;
            }
            ChunkEvent::Samples(s) => {
                assert!(open);
                samples.extend_from_slice(s);
            }
            ChunkEvent::End { .. } => {
                assert!(open);
                open = false;
            }
        }
    }
    assert!(!open);
    let mut expected = Vec::new();
    for i in (1..12).chain(13..15) {
        expected.extend(f(i));
    }
    assert_eq!(samples, expected);
    assert_eq!(events.last(), Some(&ChunkEvent::End { reason: EndReason::SessionClosed }));
}

#[test]
fn feed_ends_follow_samples_and_samples_are_not_empty() {
    let mut c = Chunker::new(16000, &cfg(100, 50)); // 800 samples max per chunk
    let mut all = Vec::new();
    for i in 0..30 {
        let evs = c.feed(&vec![1i16; 160], i % 7 != 6);
        for (k, ev) in evs.iter().enumerate() {
            match ev {
                ChunkEvent::End { reason } => {
                    assert!(k > 0 && matches!(evs[k - 1], ChunkEvent::Samples(_)));
                    assert_ne!(*reason, EndReason::SessionClosed);
                }
                ChunkEvent::Samples(s) => assert!(!s.is_empty()),
                ChunkEvent::Start => {}
            }
        }
        all.extend(evs);
    }
    let closing = c.close();
    assert_eq!(closing.last(), Some(&ChunkEvent::End { reason: EndReason::SessionClosed }));
    assert!(!all.is_empty());
}
