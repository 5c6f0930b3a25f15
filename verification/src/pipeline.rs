//! Per-session decisions: which recognised chunks make up the text, what
//! the editor passes see, and which edits to inject; and the daemon's
//! session supervision on hotkey events.
use vstd::prelude::*;
use crate::hotkey::HotkeyEvent;
use crate::state::{common_prefix_len, Diff, TypedState};
use crate::text::{join_all, join_range, join_with, strings_model};
use crate::vad::{ChunkEvent, EndReason, EventModel};

verus! {

/// The text of one dictation session: the recognised (and lightly edited)
/// chunks, and what has been typed.
pub struct Session {
    chunks: Vec<String>,
    typed: TypedState,
}

/// The last `n` chunks (all of them if there are fewer).
pub open spec fn light_window_spec(chunks: Seq<Seq<char>>, n: nat) -> Seq<Seq<char>> {
    let start = if chunks.len() >= n { chunks.len() - n } else { 0 };
    chunks.subrange(start as int, chunks.len() as int)
}

/// The chunks joined with single spaces.
pub open spec fn full_text(chunks: Seq<Seq<char>>) -> Seq<char> {
    join_with(chunks, seq![' '])
}

/// What a session does on a chunker event.
#[derive(Debug, Clone, Copy, PartialEq, Eq, Structural)]
pub enum SessionStep {
    /// Nothing (a chunk start, or a chunk end within the session).
    Continue,
    /// Transcribe the samples and type the result.
    Transcribe,
    /// The session closed: run the final pass and stop.
    Finish,
}

/// The step for an event: samples are transcribed, the session-closed end
/// finishes the session, anything else is passed over.
pub open spec fn session_step(ev: EventModel) -> SessionStep {
    match ev {
        EventModel::Samples(_) => SessionStep::Transcribe,
        EventModel::End(EndReason::SessionClosed) => SessionStep::Finish,
        _ => SessionStep::Continue,
    }
}

impl Session {
    /// The recognised chunks so far.
    pub closed spec fn chunks(&self) -> Seq<Seq<char>> {
        strings_model(self.chunks@)
    }

    /// The text typed so far.
    pub closed spec fn typed(&self) -> Seq<char> {
        self.typed@
    }

    /// A session with no chunks and nothing typed.
    pub fn new() -> (s: Self)
        ensures
            s.chunks() == Seq::<Seq<char>>::empty(),
            s.typed() == Seq::<char>::empty(),
    {
        let s = Session { chunks: Vec::new(), typed: TypedState::new() };
        assert(strings_model(s.chunks@) =~= Seq::<Seq<char>>::empty());
        s
    }

    /// The step to take on a chunker event.
    pub fn on_event(ev: &ChunkEvent) -> (step: SessionStep)
        ensures
            step == session_step(ev@),
    {
        match ev {
            ChunkEvent::Start => SessionStep::Continue,
            ChunkEvent::Samples(_) => SessionStep::Transcribe,
            ChunkEvent::End { reason } => match reason {
                EndReason::SessionClosed => SessionStep::Finish,
                _ => SessionStep::Continue,
            },
        }
    }

    /// Takes the outcome of transcribing a chunk: a transcript is recorded
    /// and `true` returned (the chunk goes on to the light pass and is
    /// typed); a failed transcription (`None`) is skipped, changing nothing.
    pub fn accept_transcript(&mut self, raw: Option<String>) -> (accepted: bool)
        ensures
            accepted == raw is Some,
            final(self).chunks() == match raw {
                Some(t) => old(self).chunks().push(t@),
                None => old(self).chunks(),
            },
            final(self).typed() == old(self).typed(),
    {
        match raw {
            Some(t) => {
                self.push_transcript(t);
                true
            },
            None => false,
        }
    }

    /// Records the transcript of a newly recognised chunk.
    pub fn push_transcript(&mut self, raw: String)
        ensures
            final(self).chunks() == old(self).chunks().push(raw@),
            final(self).typed() == old(self).typed(),
    {
        self.chunks.push(raw);
        assert(strings_model(self.chunks@) =~= old(self).chunks().push(raw@));
    }

    /// The chunks the light editor sees: the last `context_chunks` of them.
    pub fn light_window(&self, context_chunks: u32) -> (w: Vec<String>)
        ensures
            strings_model(w@) == light_window_spec(self.chunks(), context_chunks as nat),
    {
        let len = self.chunks.len();
        let n = context_chunks as usize;
        let start = if len >= n { len - n } else { 0 };
        let mut w: Vec<String> = Vec::new();
        let mut i = start;
        while i < len
            invariant
                start <= i <= len,
                len == self.chunks@.len(),
                w@.len() == i - start,
                forall|j: int| 0 <= j < w@.len() ==> #[trigger] w@[j]@ == self.chunks@[start + j]@,
            decreases len - i,
        {
            w.push(self.chunks[i].clone());
            i = i + 1;
        }
        assert(strings_model(w@) =~= light_window_spec(self.chunks(), context_chunks as nat));
        w
    }

    /// Takes the light editor's result (`None` when the pass is disabled or
    /// failed): it replaces the last chunk; then the typed text is brought to
    /// the chunks joined with spaces, and the edit that does so is returned.
    pub fn apply_light_result(&mut self, polished: Option<String>) -> (d: Diff)
        requires
            old(self).chunks().len() > 0,
        ensures
            final(self).chunks() == match polished {
                Some(t) => old(self).chunks().update(old(self).chunks().len() - 1, t@),
                None => old(self).chunks(),
            },
            final(self).typed() == full_text(final(self).chunks()),
            d.backspace_count == old(self).typed().len() - common_prefix_len(old(self).typed(), final(self).typed()),
            d.append@ == final(self).typed().skip(common_prefix_len(old(self).typed(), final(self).typed()) as int),
    {
        if let Some(t) = polished {
            let last = self.chunks.len() - 1;
            let ghost t_view = t@;
            self.chunks.set(last, t);
            assert(strings_model(self.chunks@) =~= old(self).chunks().update(last as int, t_view));
        }
        let full = join_all(&self.chunks, " ");
        proof {
            reveal_strlit(" ");
            assert(" "@ =~= seq![' ']);
        }
        self.typed.update(full.as_str())
    }

    /// The utterance for the heavy editor: every chunk joined with spaces,
    /// when the heavy pass is enabled and something was recognised.
    pub fn heavy_utterance(&self, heavy_enabled: bool) -> (u: Option<String>)
        ensures
            match u {
                Some(t) => heavy_enabled && self.chunks().len() > 0 && t@ == full_text(self.chunks()),
                None => !heavy_enabled || self.chunks().len() == 0,
            },
    {
        if !heavy_enabled || self.chunks.len() == 0 {
            return None;
        }
        let u = join_all(&self.chunks, " ");
        proof {
            reveal_strlit(" ");
            assert(" "@ =~= seq![' ']);
        }
        Some(u)
    }

    /// Takes the heavy editor's text: the typed text is brought to it, and
    /// the edit that does so is returned.
    pub fn apply_heavy_result(&mut self, polished: &str) -> (d: Diff)
        ensures
            final(self).chunks() == old(self).chunks(),
            final(self).typed() == polished@,
            d.backspace_count == old(self).typed().len() - common_prefix_len(old(self).typed(), polished@),
            d.append@ == polished@.skip(common_prefix_len(old(self).typed(), polished@) as int),
    {
        self.typed.update(polished)
    }
}

/// What the daemon does with the session on a hotkey event.
#[derive(Debug, Clone, Copy, PartialEq, Eq, Structural)]
pub enum SupervisorAction {
    /// Cancel the running session at once.
    AbortSession,
    /// Start a new session.
    StartSession,
    /// Stop audio and let the running session finish (heavy pass included).
    StopSession,
}

/// Tracks whether a dictation session is running.
pub struct SessionSupervisor {
    active: bool,
}

/// The supervisor's answer to a hotkey event: a press while a session runs
/// aborts it (a re-press means abort) and starts a new one; a release stops
/// the running session gracefully; a release with none running does nothing.
pub open spec fn supervise(active: bool, ev: HotkeyEvent) -> (bool, Seq<SupervisorAction>) {
    match ev {
        HotkeyEvent::Press => (
            true,
            if active {
                seq![SupervisorAction::AbortSession, SupervisorAction::StartSession]
            } else {
                seq![SupervisorAction::StartSession]
            },
        ),
        HotkeyEvent::Release => (false, if active { seq![SupervisorAction::StopSession] } else { Seq::empty() }),
    }
}

impl SessionSupervisor {
    /// Whether a session is running.
    pub closed spec fn is_active(&self) -> bool {
        self.active
    }

    /// No session running.
    pub fn new() -> (s: Self)
        ensures
            !s.is_active(),
    {
        SessionSupervisor { active: false }
    }

    /// Takes a hotkey event and returns what to do, in order.
    pub fn on_hotkey(&mut self, ev: HotkeyEvent) -> (actions: Vec<SupervisorAction>)
        ensures
            (final(self).is_active(), actions@) == supervise(old(self).is_active(), ev),
    {
        let mut actions: Vec<SupervisorAction> = Vec::new();
        match ev {
            HotkeyEvent::Press => {
                if self.active {
                    actions.push(SupervisorAction::AbortSession);
                }
                actions.push(SupervisorAction::StartSession);
                self.active = true;
            },
            HotkeyEvent::Release => {
                if self.active {
                    actions.push(SupervisorAction::StopSession);
                }
                self.active = false;
            },
        }
        assert(actions@ =~= supervise(old(self).is_active(), ev).1);
        actions
    }
}

/// Sessions never overlap: every start is preceded, in the same answer, by
/// an abort of the running session if there is one; a session is stopped
/// only when one runs; after a press one runs, after a release none does.
pub proof fn law_supervise(active: bool, ev: HotkeyEvent)
    ensures
        ({
            let (after, acts) = supervise(active, ev);
            &&& (ev == HotkeyEvent::Press ==> after && acts.last() == SupervisorAction::StartSession
                && (active <==> acts.len() == 2 && acts[0] == SupervisorAction::AbortSession))
            &&& (ev == HotkeyEvent::Release ==> !after && (acts.len() > 0 <==> active))
        }),
{
}

} // verus!
