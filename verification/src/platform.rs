//! Platform-facing records (clipboard snapshots, recorded calls), the
//! in-memory recording platform, and the plan of platform calls that
//! injects one text edit.
use vstd::prelude::*;
use vstd::string::*;
use crate::config::InjectionConfig;
use crate::state::{common_prefix_len, lemma_common_prefix_len, Diff};

verus! {

/// The text content of the clipboard (`None` when it holds no text).
#[derive(Debug, Clone, PartialEq, Eq, Default)]
pub struct ClipboardSnapshot(pub Option<String>);

impl View for ClipboardSnapshot {
    type V = Option<Seq<char>>;

    open spec fn view(&self) -> Option<Seq<char>> {
        match &self.0 {
            Some(s) => Some(s@),
            None => None,
        }
    }
}

/// A copy of a snapshot.
pub fn clone_snapshot(s: &ClipboardSnapshot) -> (c: ClipboardSnapshot)
    ensures
        c@ == s@,
{
    match &s.0 {
        Some(t) => ClipboardSnapshot(Some(t.clone())),
        None => ClipboardSnapshot(None),
    }
}

/// One platform operation.
#[derive(Debug, PartialEq, Eq, Clone)]
pub enum Call {
    ReadClipboard,
    WriteClipboard(ClipboardSnapshot),
    Paste(String),
    Backspace(usize),
}

/// A platform operation as plain values.
pub enum CallModel {
    ReadClipboard,
    WriteClipboard(Option<Seq<char>>),
    Paste(Seq<char>),
    Backspace(nat),
}

impl View for Call {
    type V = CallModel;

    open spec fn view(&self) -> CallModel {
        match self {
            Call::ReadClipboard => CallModel::ReadClipboard,
            Call::WriteClipboard(s) => CallModel::WriteClipboard(s@),
            Call::Paste(s) => CallModel::Paste(s@),
            Call::Backspace(n) => CallModel::Backspace(*n as nat),
        }
    }
}

/// The calls of a list, as models.
pub open spec fn calls_model(v: Seq<Call>) -> Seq<CallModel> {
    v.map_values(|c: Call| c@)
}

/// A copy of a call.
pub fn clone_call(c: &Call) -> (d: Call)
    ensures
        d@ == c@,
{
    match c {
        Call::ReadClipboard => Call::ReadClipboard,
        Call::WriteClipboard(s) => Call::WriteClipboard(clone_snapshot(s)),
        Call::Paste(s) => Call::Paste(s.clone()),
        Call::Backspace(n) => Call::Backspace(*n),
    }
}

/// An in-memory platform that records every call made to it, for tests.
pub struct MockPlatform {
    clipboard: ClipboardSnapshot,
    calls: Vec<Call>,
}

impl MockPlatform {
    /// The clipboard contents.
    pub closed spec fn clipboard(&self) -> Option<Seq<char>> {
        self.clipboard@
    }

    /// The calls recorded so far, oldest first.
    pub closed spec fn recorded(&self) -> Seq<CallModel> {
        calls_model(self.calls@)
    }

    /// An empty clipboard and no calls.
    pub fn new() -> (p: Self)
        ensures
            p.clipboard() is None,
            p.recorded() == Seq::<CallModel>::empty(),
    {
        let p = MockPlatform { clipboard: ClipboardSnapshot(None), calls: Vec::new() };
        assert(calls_model(p.calls@) =~= Seq::<CallModel>::empty());
        p
    }

    /// The calls recorded so far, oldest first.
    pub fn calls(&self) -> (v: Vec<Call>)
        ensures
            calls_model(v@) == self.recorded(),
    {
        let mut v: Vec<Call> = Vec::new();
        let mut i: usize = 0;
        while i < self.calls.len()
            invariant
                i <= self.calls@.len(),
                v@.len() == i,
                forall|j: int| 0 <= j < i ==> #[trigger] v@[j]@ == self.calls@[j]@,
            decreases self.calls@.len() - i,
        {
            v.push(clone_call(&self.calls[i]));
            i = i + 1;
        }
        assert(calls_model(v@) =~= calls_model(self.calls@));
        v
    }

    /// Records a read and returns the clipboard.
    pub fn read_clipboard(&mut self) -> (s: ClipboardSnapshot)
        ensures
            s@ == old(self).clipboard(),
            final(self).clipboard() == old(self).clipboard(),
            final(self).recorded() == old(self).recorded().push(CallModel::ReadClipboard),
    {
        self.calls.push(Call::ReadClipboard);
        assert(calls_model(self.calls@) =~= old(self).recorded().push(CallModel::ReadClipboard));
        clone_snapshot(&self.clipboard)
    }

    /// Records a write and stores `snap` as the clipboard.
    pub fn write_clipboard(&mut self, snap: &ClipboardSnapshot)
        ensures
            final(self).clipboard() == snap@,
            final(self).recorded() == old(self).recorded().push(CallModel::WriteClipboard(snap@)),
    {
        self.calls.push(Call::WriteClipboard(clone_snapshot(snap)));
        assert(calls_model(self.calls@) =~= old(self).recorded().push(CallModel::WriteClipboard(snap@)));
        self.clipboard = clone_snapshot(snap);
    }

    /// Records a paste keystroke.
    pub fn paste(&mut self, shortcut: &str)
        ensures
            final(self).clipboard() == old(self).clipboard(),
            final(self).recorded() == old(self).recorded().push(CallModel::Paste(shortcut@)),
    {
        self.calls.push(Call::Paste(shortcut.to_owned()));
        assert(calls_model(self.calls@) =~= old(self).recorded().push(CallModel::Paste(shortcut@)));
    }

    /// Records `n` backspaces.
    pub fn backspace(&mut self, n: usize)
        ensures
            final(self).clipboard() == old(self).clipboard(),
            final(self).recorded() == old(self).recorded().push(CallModel::Backspace(n as nat)),
    {
        self.calls.push(Call::Backspace(n));
        assert(calls_model(self.calls@) =~= old(self).recorded().push(CallModel::Backspace(n as nat)));
    }
}

/// The native Linux platform (clipboard via the window system, keystrokes
/// via a virtual input device).
pub struct LinuxPlatform;

impl LinuxPlatform {
    /// The platform handle.
    pub fn new() -> (p: Self) {
        LinuxPlatform
    }
}

/// One step of injecting an edit.
#[derive(Debug, PartialEq, Eq, Clone)]
pub enum InjectAction {
    /// Send this many backspaces.
    Backspace(usize),
    /// Put this on the clipboard.
    WriteClipboard(ClipboardSnapshot),
    /// Send the paste shortcut.
    Paste(String),
    /// Wait this many milliseconds.
    Sleep(u64),
}

/// An injection step as plain values.
pub enum InjectActionModel {
    Backspace(nat),
    WriteClipboard(Option<Seq<char>>),
    Paste(Seq<char>),
    Sleep(nat),
}

impl View for InjectAction {
    type V = InjectActionModel;

    open spec fn view(&self) -> InjectActionModel {
        match self {
            InjectAction::Backspace(n) => InjectActionModel::Backspace(*n as nat),
            InjectAction::WriteClipboard(s) => InjectActionModel::WriteClipboard(s@),
            InjectAction::Paste(s) => InjectActionModel::Paste(s@),
            InjectAction::Sleep(ms) => InjectActionModel::Sleep(*ms as nat),
        }
    }
}

/// The steps of a list, as models.
pub open spec fn actions_model(v: Seq<InjectAction>) -> Seq<InjectActionModel> {
    v.map_values(|a: InjectAction| a@)
}

/// How an edit is injected: nothing for an empty edit; otherwise the
/// backspaces (if any), then, if there is text to add, put it on the
/// clipboard, paste, wait the restore delay, and put the saved clipboard
/// back.
pub open spec fn injection_plan(
    backspaces: nat,
    append: Seq<char>,
    shortcut: Seq<char>,
    delay_ms: nat,
    saved: Option<Seq<char>>,
) -> Seq<InjectActionModel> {
    let bs = if backspaces > 0 { seq![InjectActionModel::Backspace(backspaces)] } else { Seq::empty() };
    let paste = if append.len() > 0 {
        seq![
            InjectActionModel::WriteClipboard(Some(append)),
            InjectActionModel::Paste(shortcut),
            InjectActionModel::Sleep(delay_ms),
            InjectActionModel::WriteClipboard(saved),
        ]
    } else {
        Seq::empty()
    };
    bs + paste
}

/// The platform calls that apply `diff`, restoring the clipboard to `saved`
/// afterwards.
pub fn plan_apply(cfg: &InjectionConfig, diff: &Diff, saved: &ClipboardSnapshot) -> (plan: Vec<InjectAction>)
    ensures
        actions_model(plan@) == injection_plan(
            diff.backspace_count as nat,
            diff.append@,
            cfg.paste_shortcut@,
            cfg.restore_delay_ms as nat,
            saved@,
        ),
{
    let mut plan: Vec<InjectAction> = Vec::new();
    if diff.backspace_count > 0 {
        plan.push(InjectAction::Backspace(diff.backspace_count));
    }
    if !diff.append.as_str().is_empty() {
        plan.push(InjectAction::WriteClipboard(ClipboardSnapshot(Some(diff.append.clone()))));
        plan.push(InjectAction::Paste(cfg.paste_shortcut.clone()));
        plan.push(InjectAction::Sleep(cfg.restore_delay_ms));
        plan.push(InjectAction::WriteClipboard(clone_snapshot(saved)));
    }
    assert(actions_model(plan@) =~= injection_plan(
        diff.backspace_count as nat,
        diff.append@,
        cfg.paste_shortcut@,
        cfg.restore_delay_ms as nat,
        saved@,
    ));
    plan
}

/// An empty edit does nothing; an edit that only deletes never touches the
/// clipboard; whenever the clipboard is written, the last write puts the
/// saved contents back.
pub proof fn law_injection_restores_clipboard(
    backspaces: nat,
    append: Seq<char>,
    shortcut: Seq<char>,
    delay_ms: nat,
    saved: Option<Seq<char>>,
)
    ensures
        ({
            let p = injection_plan(backspaces, append, shortcut, delay_ms, saved);
            &&& (backspaces == 0 && append.len() == 0 ==> p.len() == 0)
            &&& (append.len() == 0 ==> forall|i: int| 0 <= i < p.len() ==> !(#[trigger] p[i] is WriteClipboard))
            &&& (append.len() > 0 ==> p.last() == InjectActionModel::WriteClipboard(saved))
        }),
{
    let p = injection_plan(backspaces, append, shortcut, delay_ms, saved);
    if append.len() == 0 {
        assert forall|i: int| 0 <= i < p.len() implies !(#[trigger] p[i] is WriteClipboard) by {
            assert(p[i] == InjectActionModel::Backspace(backspaces));
        }
    }
}


/// What the focused application shows and what the clipboard holds, after
/// one injection step: backspaces delete from the end, a clipboard write
/// replaces the clipboard, a paste inserts the clipboard's text, and a wait
/// changes nothing.
pub open spec fn replay_step(st: (Seq<char>, Option<Seq<char>>), a: InjectActionModel) -> (Seq<char>, Option<Seq<char>>) {
    match a {
        InjectActionModel::Backspace(n) => (
            if n <= st.0.len() { st.0.take(st.0.len() - n) } else { Seq::empty() },
            st.1,
        ),
        InjectActionModel::WriteClipboard(c) => (st.0, c),
        InjectActionModel::Paste(_) => (
            st.0 + match st.1 {
                Some(t) => t,
                None => Seq::empty(),
            },
            st.1,
        ),
        InjectActionModel::Sleep(_) => st,
    }
}

/// The steps of a plan carried out in turn.
pub open spec fn replay(st: (Seq<char>, Option<Seq<char>>), plan: Seq<InjectActionModel>) -> (Seq<char>, Option<Seq<char>>)
    decreases plan.len(),
{
    if plan.len() == 0 {
        st
    } else {
        replay(replay_step(st, plan[0]), plan.drop_first())
    }
}

/// The injection plan of the edit from `typed` to `target`, as a session
/// computes it (`TypedState::update`, then `plan_apply`).
pub open spec fn edit_plan(
    typed: Seq<char>,
    target: Seq<char>,
    shortcut: Seq<char>,
    delay_ms: nat,
    saved: Option<Seq<char>>,
) -> Seq<InjectActionModel> {
    let n = common_prefix_len(typed, target);
    injection_plan((typed.len() - n) as nat, target.skip(n as int), shortcut, delay_ms, saved)
}

/// The plans of a session that brings the typed text to each of `targets`
/// in turn, one after another.
pub open spec fn session_plan(
    typed: Seq<char>,
    targets: Seq<Seq<char>>,
    shortcut: Seq<char>,
    delay_ms: nat,
    saved: Option<Seq<char>>,
) -> Seq<InjectActionModel>
    decreases targets.len(),
{
    if targets.len() == 0 {
        Seq::empty()
    } else {
        edit_plan(typed, targets[0], shortcut, delay_ms, saved) + session_plan(
            targets[0],
            targets.drop_first(),
            shortcut,
            delay_ms,
            saved,
        )
    }
}

proof fn lemma_replay_append(st: (Seq<char>, Option<Seq<char>>), a: Seq<InjectActionModel>, b: Seq<InjectActionModel>)
    ensures
        replay(st, a + b) == replay(replay(st, a), b),
    decreases a.len(),
{
    if a.len() == 0 {
        assert(a + b =~= b);
    } else {
        assert((a + b)[0] == a[0]);
        assert((a + b).drop_first() =~= a.drop_first() + b);
        lemma_replay_append(replay_step(st, a[0]), a.drop_first(), b);
    }
}

/// Carrying out the plan of an edit, on a screen that shows the typed text
/// with the saved contents on the clipboard, leaves the new text on the
/// screen and the saved contents on the clipboard.
pub proof fn law_edit_plan_reaches_target(
    typed: Seq<char>,
    target: Seq<char>,
    shortcut: Seq<char>,
    delay_ms: nat,
    saved: Option<Seq<char>>,
)
    ensures
        replay((typed, saved), edit_plan(typed, target, shortcut, delay_ms, saved)) == (target, saved),
{
    lemma_common_prefix_len(typed, target);
    let n = common_prefix_len(typed, target);
    let bs = (typed.len() - n) as nat;
    let append = target.skip(n as int);
    let bpart: Seq<InjectActionModel> = if bs > 0 { seq![InjectActionModel::Backspace(bs)] } else { Seq::empty() };
    let ppart: Seq<InjectActionModel> = if append.len() > 0 {
        seq![
            InjectActionModel::WriteClipboard(Some(append)),
            InjectActionModel::Paste(shortcut),
            InjectActionModel::Sleep(delay_ms),
            InjectActionModel::WriteClipboard(saved),
        ]
    } else {
        Seq::empty()
    };
    assert(edit_plan(typed, target, shortcut, delay_ms, saved) == bpart + ppart);
    lemma_replay_append((typed, saved), bpart, ppart);
    let st1 = replay((typed, saved), bpart);
    assert(st1 == (typed.take(n as int), saved)) by {
        if bs > 0 {
            reveal_with_fuel(replay, 2);
            assert(bpart.drop_first() =~= Seq::<InjectActionModel>::empty());
        } else {
            assert(typed.take(n as int) =~= typed);
        }
    }
    assert(typed.take(n as int) =~= target.take(n as int));
    if append.len() > 0 {
        reveal_with_fuel(replay, 5);
        assert(ppart.drop_first() =~= seq![
            InjectActionModel::Paste(shortcut),
            InjectActionModel::Sleep(delay_ms),
            InjectActionModel::WriteClipboard(saved),
        ]);
        assert(ppart.drop_first().drop_first() =~= seq![
            InjectActionModel::Sleep(delay_ms),
            InjectActionModel::WriteClipboard(saved),
        ]);
        assert(ppart.drop_first().drop_first().drop_first() =~= seq![InjectActionModel::WriteClipboard(saved)]);
        assert(ppart.drop_first().drop_first().drop_first().drop_first() =~= Seq::<InjectActionModel>::empty());
        assert(target.take(n as int) + append =~= target);
    } else {
        assert(target.take(n as int) =~= target);
    }
}

/// Over a whole session: carrying out the plans of the successive edits,
/// starting from the typed text with the saved contents on the clipboard,
/// leaves the last target text on the screen (the typed text when there
/// were no edits) and the saved contents back on the clipboard.
pub proof fn law_session_replay(
    typed: Seq<char>,
    targets: Seq<Seq<char>>,
    shortcut: Seq<char>,
    delay_ms: nat,
    saved: Option<Seq<char>>,
)
    ensures
        replay((typed, saved), session_plan(typed, targets, shortcut, delay_ms, saved)) == (
            if targets.len() == 0 { typed } else { targets.last() },
            saved,
        ),
    decreases targets.len(),
{
    if targets.len() > 0 {
        let first = edit_plan(typed, targets[0], shortcut, delay_ms, saved);
        let rest = session_plan(targets[0], targets.drop_first(), shortcut, delay_ms, saved);
        lemma_replay_append((typed, saved), first, rest);
        law_edit_plan_reaches_target(typed, targets[0], shortcut, delay_ms, saved);
        law_session_replay(targets[0], targets.drop_first(), shortcut, delay_ms, saved);
        if targets.len() > 1 {
            assert(targets.drop_first().last() == targets.last());
        }
    }
}

} // verus!
