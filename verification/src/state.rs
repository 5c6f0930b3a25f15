//! The text typed into the focused application during one dictation session,
//! and the minimal edit (backspaces, then an appended tail) that moves it to a
//! new version.
use vstd::prelude::*;
use crate::text::{chars_of, string_of, string_of_range};

verus! {

/// Length of the longest common prefix of `a` and `b`.
pub open spec fn common_prefix_len(a: Seq<char>, b: Seq<char>) -> nat
    decreases a.len(),
{
    if a.len() == 0 || b.len() == 0 || a[0] != b[0] {
        0
    } else {
        1 + common_prefix_len(a.drop_first(), b.drop_first())
    }
}

/// `n` is the length of the longest common prefix of `a` and `b`.
pub open spec fn is_common_prefix_len(a: Seq<char>, b: Seq<char>, n: int) -> bool {
    &&& 0 <= n <= a.len()
    &&& n <= b.len()
    &&& forall|i: int| 0 <= i < n ==> a[i] == b[i]
    &&& (n == a.len() || n == b.len() || a[n] != b[n])
}

/// The recursive definition agrees with the direct characterisation.
pub proof fn lemma_common_prefix_len(a: Seq<char>, b: Seq<char>)
    ensures
        is_common_prefix_len(a, b, common_prefix_len(a, b) as int),
    decreases a.len(),
{
    if a.len() == 0 || b.len() == 0 || a[0] != b[0] {
    } else {
        lemma_common_prefix_len(a.drop_first(), b.drop_first());
        let n = common_prefix_len(a, b) as int;
        assert forall|i: int| 0 <= i < n implies a[i] == b[i] by {
            if i > 0 {
                assert(a.drop_first()[i - 1] == a[i]);
                assert(b.drop_first()[i - 1] == b[i]);
            }
        }
        if n < a.len() && n < b.len() {
            assert(a.drop_first()[n - 1] == a[n]);
            assert(b.drop_first()[n - 1] == b[n]);
        }
    }
}

/// The characterisation determines the length uniquely.
pub proof fn lemma_common_prefix_len_unique(a: Seq<char>, b: Seq<char>, n: int)
    requires
        is_common_prefix_len(a, b, n),
    ensures
        n == common_prefix_len(a, b),
{
    lemma_common_prefix_len(a, b);
    let m = common_prefix_len(a, b) as int;
    if n < m {
        assert(a[n] == b[n]);
    } else if m < n {
        assert(a[m] == b[m]);
    }
}

/// The text that results from deleting the last `backspaces` characters of
/// `typed` and then appending `append`.
pub open spec fn apply_edit(typed: Seq<char>, backspaces: nat, append: Seq<char>) -> Seq<char> {
    typed.take(typed.len() - backspaces) + append
}

/// An edit that turns the typed text into a new version: delete
/// `backspace_count` characters, then paste `append`.
#[derive(Debug, PartialEq, Eq)]
pub struct Diff {
    pub backspace_count: usize,
    pub append: String,
}

/// The text typed so far in the current session.
#[derive(Debug, Clone)]
pub struct TypedState {
    typed: String,
}

impl View for TypedState {
    type V = Seq<char>;

    closed spec fn view(&self) -> Seq<char> {
        self.typed@
    }
}

impl Default for TypedState {
    fn default() -> (s: Self)
        ensures
            s@ == Seq::<char>::empty(),
    {
        TypedState::new()
    }
}

impl TypedState {
    /// Nothing typed yet.
    pub fn new() -> (s: Self)
        ensures
            s@ == Seq::<char>::empty(),
    {
        TypedState { typed: String::new() }
    }

    /// The text typed so far.
    pub fn current(&self) -> (s: &str)
        ensures
            s@ == self@,
    {
        self.typed.as_str()
    }

    /// Records `new_full` as the typed text and returns the edit from the old
    /// typed text to it: backspace over everything after the longest common
    /// prefix, then append the rest of `new_full`.
    pub fn update(&mut self, new_full: &str) -> (d: Diff)
        ensures
            final(self)@ == new_full@,
            d.backspace_count == old(self)@.len() - common_prefix_len(old(self)@, new_full@),
            d.append@ == new_full@.skip(common_prefix_len(old(self)@, new_full@) as int),
    {
        let old_chars = chars_of(self.typed.as_str());
        let new_chars = chars_of(new_full);
        let common = common_prefix_len_chars(&old_chars, &new_chars);
        proof {
            lemma_common_prefix_len(old_chars@, new_chars@);
        }
        let typed_chars = old_chars.len();
        let backspace_count = typed_chars - common;
        let append = string_of_range(new_chars.as_slice(), common, new_chars.len());
        self.typed = string_of(new_chars.as_slice());
        Diff { backspace_count, append }
    }

    /// Forgets everything typed so far.
    pub fn reset(&mut self)
        ensures
            final(self)@ == Seq::<char>::empty(),
    {
        self.typed = String::new();
    }
}

/// Length of the longest common prefix of two character sequences.
fn common_prefix_len_chars(a: &Vec<char>, b: &Vec<char>) -> (n: usize)
    ensures
        n == common_prefix_len(a@, b@),
{
    let mut n: usize = 0;
    while n < a.len() && n < b.len() && a[n] == b[n]
        invariant
            n <= a@.len(),
            n <= b@.len(),
            forall|i: int| 0 <= i < n ==> a@[i] == b@[i],
        decreases a@.len() - n,
    {
        n = n + 1;
    }
    proof {
        lemma_common_prefix_len_unique(a@, b@, n as int);
    }
    n
}

/// Applying the edit that `update` returns to the old typed text yields the
/// new text exactly.
pub proof fn lemma_update_edit_reaches_target(old_typed: Seq<char>, new_full: Seq<char>)
    ensures
        apply_edit(
            old_typed,
            (old_typed.len() - common_prefix_len(old_typed, new_full)) as nat,
            new_full.skip(common_prefix_len(old_typed, new_full) as int),
        ) == new_full,
{
    lemma_common_prefix_len(old_typed, new_full);
    let n = common_prefix_len(old_typed, new_full) as int;
    let r = apply_edit(old_typed, (old_typed.len() - n) as nat, new_full.skip(n));
    assert(r =~= new_full);
}

/// No edit of the form "delete some characters, then append" reaches the new
/// text with fewer backspaces than the one `update` returns.
pub proof fn lemma_update_edit_is_minimal(
    old_typed: Seq<char>,
    new_full: Seq<char>,
    backspaces: nat,
    append: Seq<char>,
)
    requires
        backspaces <= old_typed.len(),
        apply_edit(old_typed, backspaces, append) == new_full,
    ensures
        old_typed.len() - common_prefix_len(old_typed, new_full) <= backspaces,
{
    lemma_common_prefix_len(old_typed, new_full);
    let n = common_prefix_len(old_typed, new_full) as int;
    let k = old_typed.len() - backspaces;
    // The kept prefix of length k is a common prefix of both texts.
    assert forall|i: int| 0 <= i < k implies old_typed[i] == new_full[i] by {
        assert(apply_edit(old_typed, backspaces, append)[i] == old_typed.take(k)[i]);
    }
    if k > n {
        assert(n < old_typed.len());
        assert(n < new_full.len());
        assert(old_typed[n] == new_full[n]);
    }
}

} // verus!
