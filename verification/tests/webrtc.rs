use localasr::vad::Vad;
use localasr::webrtc::{speech_verdict, WebrtcVad, WEBRTC_FRAME_SAMPLES};

#[test]
fn verdict_is_speech_only_for_reported_voice() {
    assert!(speech_verdict(Ok(true)));
    assert!(!speech_verdict(Ok(false)));
    assert!(!speech_verdict(Err(())));
}

#[test]
fn webrtc_frames_are_30ms_at_16khz() {
    let v = WebrtcVad::new(16000);
    assert_eq!(v.frame_samples(), 480);
    assert_eq!(WEBRTC_FRAME_SAMPLES, 480);
}

#[test]
fn webrtc_silence_is_not_speech() {
    let mut v = WebrtcVad::new(16000);
    assert!(!v.is_speech(&vec![0i16; 480]));
}

#[test]
fn webrtc_unusable_frames_count_as_silence() {
    let mut v = WebrtcVad::new(16000);
    assert!(!v.is_speech(&[]));
    assert!(!v.is_speech(&vec![1000i16; 100]));
}
