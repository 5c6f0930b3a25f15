//! The classical speech detector: WebRTC's voice activity detector, run on
//! 30 ms frames at 16 kHz in its aggressive mode.
use vstd::prelude::*;
use crate::vad::Vad;
use crate::fvad::{fvad_answer, valid_frame_len, Detector, DetectorMode, DetectorRate};

verus! {

/// The frame length the detector is run on: 30 ms at 16 kHz.
pub const WEBRTC_FRAME_SAMPLES: usize = 480;

/// The verdict for a frame from the detector's answer: speech only when it
/// reported voice; an unusable frame counts as silence.
pub fn speech_verdict(r: Result<bool, ()>) -> (speech: bool)
    ensures
        speech == (r == Ok::<bool, ()>(true)),
{
    match r {
        Ok(b) => b,
        Err(_) => false,
    }
}

/// WebRTC voice activity detection, aggressive mode, 16 kHz input.
pub struct WebrtcVad {
    det: Detector,
}

impl WebrtcVad {
    /// The operating mode of the detector.
    pub closed spec fn mode(&self) -> DetectorMode {
        self.det.mode()
    }

    /// The input sample rate of the detector.
    pub closed spec fn rate(&self) -> DetectorRate {
        self.det.rate()
    }

    /// The frames handed to the detector, oldest first.
    pub closed spec fn fed(&self) -> Seq<Seq<i16>> {
        self.det.fed()
    }

    /// A detector in aggressive mode for 16 kHz input; the rate argument is
    /// not used, as frames always arrive at 16 kHz.
    pub fn new(_sample_rate: u32) -> (d: Self)
        ensures
            d.mode() == DetectorMode::Aggressive,
            d.rate() == DetectorRate::Rate16kHz,
            d.fed() == Seq::<Seq<i16>>::empty(),
    {
        WebrtcVad { det: Detector::create(DetectorMode::Aggressive, DetectorRate::Rate16kHz) }
    }
}

impl Vad for WebrtcVad {
    /// 30 ms of audio at 16 kHz.
    fn frame_samples(&self) -> (n: usize)
        ensures
            n == WEBRTC_FRAME_SAMPLES,
    {
        WEBRTC_FRAME_SAMPLES
    }

    /// A non-empty frame is handed, whole, to the detector, and is speech
    /// exactly when the detector reports voice; an empty frame is never
    /// speech and is not handed over. The configuration is unchanged.
    fn is_speech(&mut self, frame: &[i16]) -> (speech: bool)
        ensures
            frame@.len() == 0 ==> !speech && final(self).fed() == old(self).fed(),
            frame@.len() > 0 ==> final(self).fed() == old(self).fed().push(frame@),
            frame@.len() > 0 ==> speech == (fvad_answer(old(self).mode(), old(self).rate(), old(self).fed(), frame@)
                == Ok::<bool, ()>(true)),
            !valid_frame_len(old(self).rate(), frame@.len()) ==> !speech,
            final(self).mode() == old(self).mode(),
            final(self).rate() == old(self).rate(),
    {
        if frame.len() == 0 {
            false
        } else {
            speech_verdict(self.det.process(frame))
        }
    }
}

} // verus!
