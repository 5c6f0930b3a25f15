//! A WebRTC voice-activity detector instance, with a record of how it was
//! configured and of every frame it was handed.
use vstd::prelude::*;
use webrtc_vad::Vad as Fvad;

verus! {

/// Declares the detector instance of `webrtc_vad`.
#[verifier::external_type_specification]
#[verifier::external_body]
pub struct ExFvad(Fvad);

/// Operating modes of the detector, from most to least inclined to report speech.
#[derive(Debug, Clone, Copy, PartialEq, Eq, Structural)]
pub enum DetectorMode {
    Quality,
    LowBitrate,
    Aggressive,
    VeryAggressive,
}

/// Input sample rates the detector accepts.
#[derive(Debug, Clone, Copy, PartialEq, Eq, Structural)]
pub enum DetectorRate {
    Rate8kHz,
    Rate16kHz,
    Rate32kHz,
    Rate48kHz,
}

/// Samples per millisecond at a rate.
pub open spec fn samples_per_ms(rate: DetectorRate) -> nat {
    match rate {
        DetectorRate::Rate8kHz => 8,
        DetectorRate::Rate16kHz => 16,
        DetectorRate::Rate32kHz => 32,
        DetectorRate::Rate48kHz => 48,
    }
}

/// Whether the detector takes a frame of `len` samples at `rate`: frames of
/// 10, 20 or 30 ms.
pub open spec fn valid_frame_len(rate: DetectorRate, len: nat) -> bool {
    len == 10 * samples_per_ms(rate) || len == 20 * samples_per_ms(rate) || len == 30 * samples_per_ms(rate)
}

/// The detector's answer for `frame`, from an instance created with `mode`
/// and `rate` that has been handed `fed` before.
pub uninterp spec fn fvad_answer(mode: DetectorMode, rate: DetectorRate, fed: Seq<Seq<i16>>, frame: Seq<i16>) -> Result<bool, ()>;

/// A detector instance. Its record is written only where the instance is
/// created and where it is handed a frame.
pub struct Detector {
    vad: Fvad,
    mode: Ghost<DetectorMode>,
    rate: Ghost<DetectorRate>,
    fed: Ghost<Seq<Seq<i16>>>,
}

impl Detector {
    /// The operating mode the instance was created with.
    pub closed spec fn mode(&self) -> DetectorMode {
        self.mode@
    }

    /// The input sample rate the instance was created with.
    pub closed spec fn rate(&self) -> DetectorRate {
        self.rate@
    }

    /// The frames handed to the instance, oldest first.
    pub closed spec fn fed(&self) -> Seq<Seq<i16>> {
        self.fed@
    }

    /// Creates an instance with the given sample rate and operating mode
    /// (`webrtc_vad::Vad::new_with_rate_and_mode`, which allocates the C
    /// instance and sets the rate, then the mode). Every rate and mode of
    /// these enums is valid, so the source's checks of the C return codes
    /// never fail; it panics only when allocation fails. Claimed: the
    /// instance has that rate and mode and has been handed no frame.
    #[verifier::external_body]
    pub(crate) fn create(mode: DetectorMode, rate: DetectorRate) -> (d: Detector)
        ensures
            d.mode() == mode,
            d.rate() == rate,
            d.fed() == Seq::<Seq<i16>>::empty(),
    {
        let vad = Fvad::new_with_rate_and_mode(
            match rate {
                DetectorRate::Rate8kHz => webrtc_vad::SampleRate::Rate8kHz,
                DetectorRate::Rate16kHz => webrtc_vad::SampleRate::Rate16kHz,
                DetectorRate::Rate32kHz => webrtc_vad::SampleRate::Rate32kHz,
                DetectorRate::Rate48kHz => webrtc_vad::SampleRate::Rate48kHz,
            },
            match mode {
                DetectorMode::Quality => webrtc_vad::VadMode::Quality,
                DetectorMode::LowBitrate => webrtc_vad::VadMode::LowBitrate,
                DetectorMode::Aggressive => webrtc_vad::VadMode::Aggressive,
                DetectorMode::VeryAggressive => webrtc_vad::VadMode::VeryAggressive,
            },
        );
        Detector { vad, mode: Ghost(mode), rate: Ghost(rate), fed: Ghost(Seq::empty()) }
    }

    /// Classifies one frame (`webrtc_vad::Vad::is_voice_segment`): `Ok(true)`
    /// for voice, `Ok(false)` for none, `Err` for a frame length the detector
    /// does not take. The source indexes the first sample, so the frame must
    /// not be empty. Claimed: the answer is `fvad_answer` of the instance's
    /// settings, the frames handed to it before and this frame (libfvad's
    /// `fvad_process` is deterministic in these); it is `Err` exactly when
    /// the frame is not 10, 20 or 30 ms long at the rate (`valid_length` in
    /// libfvad's `fvad.c`); the frame is recorded as handed over, and rate
    /// and mode stay. Which valid frames count as voice is not stated.
    #[verifier::external_body]
    pub(crate) fn process(&mut self, frame: &[i16]) -> (r: Result<bool, ()>)
        requires
            frame@.len() > 0,
        ensures
            r == fvad_answer(old(self).mode(), old(self).rate(), old(self).fed(), frame@),
            r is Err <==> !valid_frame_len(old(self).rate(), frame@.len()),
            final(self).fed() == old(self).fed().push(frame@),
            final(self).mode() == old(self).mode(),
            final(self).rate() == old(self).rate(),
    {
        let r = self.vad.is_voice_segment(frame);
        self.fed = Ghost(self.fed@.push(frame@));
        r
    }
}

} // verus!
