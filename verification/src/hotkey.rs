//! Key bindings: parsing binding and paste-shortcut strings into keys,
//! tracking held keys to turn raw key events into press/release of the
//! binding, and composing a binding string from captured modifiers.
use vstd::prelude::*;
use vstd::string::*;
use crate::text::{chars_of, decimal, push_char, string_of_range, trim, trim_range};

verus! {

/// The keys the Linux backend listens for or synthesises.
#[derive(Debug, Clone, Copy, PartialEq, Eq, Structural)]
pub enum Key {
    LeftCtrl,
    RightCtrl,
    LeftShift,
    RightShift,
    LeftAlt,
    RightAlt,
    LeftMeta,
    RightMeta,
    Space,
    F1,
    F2,
    F3,
    F4,
    F5,
    F6,
    F7,
    F8,
    F9,
    F10,
    F11,
    F12,
    V,
    Backspace,
}

/// Press (every key of the binding held) or release (one of them let go).
#[derive(Debug, PartialEq, Eq, Clone, Copy, Structural)]
pub enum HotkeyEvent {
    Press,
    Release,
}

/// A key name that is not recognised; `key` is the name as compared
/// (trimmed, ASCII-lowercased).
#[derive(Debug, Clone, PartialEq, Eq)]
pub struct UnsupportedKey {
    pub key: String,
}

/// ASCII letters lowercased, everything else unchanged.
pub open spec fn ascii_lower(c: char) -> char {
    if 'A' <= c <= 'Z' {
        ((c as u32) + 32) as char
    } else {
        c
    }
}

/// `s` with ASCII letters lowercased.
pub open spec fn lower(s: Seq<char>) -> Seq<char> {
    s.map_values(|c: char| ascii_lower(c))
}

/// Index of the last `+` in `s`, or -1.
pub open spec fn last_plus(s: Seq<char>) -> int
    decreases s.len(),
{
    if s.len() == 0 {
        -1
    } else if s.last() == '+' {
        s.len() - 1
    } else {
        last_plus(s.drop_last())
    }
}

/// The last `+` is the last one.
pub proof fn lemma_last_plus(s: Seq<char>)
    ensures
        -1 <= last_plus(s) < s.len(),
        last_plus(s) >= 0 ==> s[last_plus(s)] == '+',
        forall|k: int| last_plus(s) < k < s.len() ==> s[k] != '+',
    decreases s.len(),
{
    if s.len() > 0 && s.last() != '+' {
        lemma_last_plus(s.drop_last());
        assert forall|k: int| last_plus(s) < k < s.len() implies s[k] != '+' by {
            if k < s.len() - 1 {
                assert(s.drop_last()[k] == s[k]);
            }
        }
    }
}

/// The parts of `s` between `+` signs (`str::split('+')`).
pub open spec fn split_plus(s: Seq<char>) -> Seq<Seq<char>>
    decreases s.len(),
{
    let j = last_plus(s);
    if j < 0 {
        seq![s]
    } else {
        proof {
            lemma_last_plus(s);
        }
        split_plus(s.take(j)).push(s.skip(j + 1))
    }
}

/// A part as it is looked up: trimmed, ASCII-lowercased.
pub open spec fn normalize(part: Seq<char>) -> Seq<char> {
    lower(trim(part))
}

/// The key a binding part names.
#[verifier::opaque]
pub open spec fn binding_key(name: Seq<char>) -> Option<Key> {
    if name == "ctrl"@ || name == "leftctrl"@ {
        Some(Key::LeftCtrl)
    } else if name == "rightctrl"@ {
        Some(Key::RightCtrl)
    } else if name == "shift"@ || name == "leftshift"@ {
        Some(Key::LeftShift)
    } else if name == "rightshift"@ {
        Some(Key::RightShift)
    } else if name == "alt"@ || name == "leftalt"@ {
        Some(Key::LeftAlt)
    } else if name == "rightalt"@ {
        Some(Key::RightAlt)
    } else if name == "meta"@ || name == "super"@ || name == "leftmeta"@ {
        Some(Key::LeftMeta)
    } else if name == "rightmeta"@ {
        Some(Key::RightMeta)
    } else if name == "space"@ {
        Some(Key::Space)
    } else if name == "f1"@ {
        Some(Key::F1)
    } else if name == "f2"@ {
        Some(Key::F2)
    } else if name == "f3"@ {
        Some(Key::F3)
    } else if name == "f4"@ {
        Some(Key::F4)
    } else if name == "f5"@ {
        Some(Key::F5)
    } else if name == "f6"@ {
        Some(Key::F6)
    } else if name == "f7"@ {
        Some(Key::F7)
    } else if name == "f8"@ {
        Some(Key::F8)
    } else if name == "f9"@ {
        Some(Key::F9)
    } else if name == "f10"@ {
        Some(Key::F10)
    } else if name == "f11"@ {
        Some(Key::F11)
    } else if name == "f12"@ {
        Some(Key::F12)
    } else {
        None
    }
}

/// The key a paste-shortcut part names.
#[verifier::opaque]
pub open spec fn chord_key(name: Seq<char>) -> Option<Key> {
    if name == "ctrl"@ || name == "control"@ || name == "leftctrl"@ {
        Some(Key::LeftCtrl)
    } else if name == "rightctrl"@ {
        Some(Key::RightCtrl)
    } else if name == "shift"@ || name == "leftshift"@ {
        Some(Key::LeftShift)
    } else if name == "rightshift"@ {
        Some(Key::RightShift)
    } else if name == "alt"@ || name == "leftalt"@ {
        Some(Key::LeftAlt)
    } else if name == "rightalt"@ {
        Some(Key::RightAlt)
    } else if name == "meta"@ || name == "super"@ || name == "leftmeta"@ {
        Some(Key::LeftMeta)
    } else if name == "rightmeta"@ {
        Some(Key::RightMeta)
    } else if name == "v"@ {
        Some(Key::V)
    } else if name == "backspace"@ || name == "back"@ {
        Some(Key::Backspace)
    } else {
        None
    }
}

/// The name of a key, as compared (lowercase): the key's own name.
pub open spec fn key_name(k: Key) -> Seq<char> {
    match k {
        Key::LeftCtrl => "leftctrl"@,
        Key::RightCtrl => "rightctrl"@,
        Key::LeftShift => "leftshift"@,
        Key::RightShift => "rightshift"@,
        Key::LeftAlt => "leftalt"@,
        Key::RightAlt => "rightalt"@,
        Key::LeftMeta => "leftmeta"@,
        Key::RightMeta => "rightmeta"@,
        Key::Space => "space"@,
        Key::F1 => "f1"@,
        Key::F2 => "f2"@,
        Key::F3 => "f3"@,
        Key::F4 => "f4"@,
        Key::F5 => "f5"@,
        Key::F6 => "f6"@,
        Key::F7 => "f7"@,
        Key::F8 => "f8"@,
        Key::F9 => "f9"@,
        Key::F10 => "f10"@,
        Key::F11 => "f11"@,
        Key::F12 => "f12"@,
        Key::V => "v"@,
        Key::Backspace => "backspace"@,
    }
}

/// The number of a function key (`F1` is 1, ..., `F12` is 12).
pub open spec fn function_number(k: Key) -> Option<nat> {
    match k {
        Key::F1 => Some(1),
        Key::F2 => Some(2),
        Key::F3 => Some(3),
        Key::F4 => Some(4),
        Key::F5 => Some(5),
        Key::F6 => Some(6),
        Key::F7 => Some(7),
        Key::F8 => Some(8),
        Key::F9 => Some(9),
        Key::F10 => Some(10),
        Key::F11 => Some(11),
        Key::F12 => Some(12),
        _ => None,
    }
}

/// Whether a key can be part of a push-to-talk binding (all but `V` and
/// `Backspace`).
pub open spec fn is_binding_key(k: Key) -> bool {
    k != Key::V && k != Key::Backspace
}

/// Whether a key can be part of a paste shortcut (the modifiers, `V` and
/// `Backspace`).
pub open spec fn is_chord_key(k: Key) -> bool {
    !(k is Space) && function_number(k) is None
}

/// The binding's keys as a set (first occurrence order), or the first
/// unsupported part.
pub open spec fn parse_binding_parts(parts: Seq<Seq<char>>) -> Result<Seq<Key>, Seq<char>>
    decreases parts.len(),
{
    if parts.len() == 0 {
        Ok(Seq::empty())
    } else {
        match parse_binding_parts(parts.drop_last()) {
            Err(e) => Err(e),
            Ok(ks) => match binding_key(normalize(parts.last())) {
                None => Err(normalize(parts.last())),
                Some(k) => Ok(if ks.contains(k) { ks } else { ks.push(k) }),
            },
        }
    }
}

/// The shortcut's keys in order, or the first unsupported part.
pub open spec fn parse_chord_parts(parts: Seq<Seq<char>>) -> Result<Seq<Key>, Seq<char>>
    decreases parts.len(),
{
    if parts.len() == 0 {
        Ok(Seq::empty())
    } else {
        match parse_chord_parts(parts.drop_last()) {
            Err(e) => Err(e),
            Ok(ks) => match chord_key(normalize(parts.last())) {
                None => Err(normalize(parts.last())),
                Some(k) => Ok(ks.push(k)),
            },
        }
    }
}

/// A parse result as plain values.
pub open spec fn keys_result(r: Result<Vec<Key>, UnsupportedKey>) -> Result<Seq<Key>, Seq<char>> {
    match r {
        Ok(ks) => Ok(ks@),
        Err(e) => Err(e.key@),
    }
}

/// Whether the characters `a` spell `b`.
pub(crate) fn chars_are(a: &Vec<char>, b: &str) -> (r: bool)
    ensures
        r == (a@ == b@),
{
    let bv = chars_of(b);
    if a.len() != bv.len() {
        return false;
    }
    let mut i: usize = 0;
    while i < a.len()
        invariant
            a@.len() == bv@.len(),
            bv@ == b@,
            i <= a@.len(),
            forall|k: int| 0 <= k < i ==> a@[k] == bv@[k],
        decreases a@.len() - i,
    {
        if a[i] != bv[i] {
            assert(a@[i as int] != bv@[i as int]);
            assert(a@ != bv@);
            return false;
        }
        i = i + 1;
    }
    assert(a@ =~= bv@);
    true
}

/// `v[lo..hi]`, trimmed and ASCII-lowercased.
pub(crate) fn normalized_part(v: &Vec<char>, lo: usize, hi: usize) -> (out: Vec<char>)
    requires
        lo <= hi <= v@.len(),
    ensures
        out@ == normalize(v@.subrange(lo as int, hi as int)),
{
    let (a, b) = trim_range(v.as_slice(), lo, hi);
    let mut out: Vec<char> = Vec::new();
    let mut i = a;
    while i < b
        invariant
            lo <= a <= i <= b <= hi <= v@.len(),
            out@ == lower(v@.subrange(a as int, i as int)),
        decreases b - i,
    {
        let c = v[i];
        let l = if 'A' <= c && c <= 'Z' {
            ((c as u8) + 32) as char
        } else {
            c
        };
        out.push(l);
        i = i + 1;
        assert(out@ =~= lower(v@.subrange(a as int, i as int)));
    }
    out
}

/// The key a binding part names, looked up.
fn lookup_binding_key(n: &Vec<char>) -> (k: Option<Key>)
    ensures
        k == binding_key(n@),
{
    reveal(binding_key);
    if chars_are(n, "ctrl") || chars_are(n, "leftctrl") {
        Some(Key::LeftCtrl)
    } else if chars_are(n, "rightctrl") {
        Some(Key::RightCtrl)
    } else if chars_are(n, "shift") || chars_are(n, "leftshift") {
        Some(Key::LeftShift)
    } else if chars_are(n, "rightshift") {
        Some(Key::RightShift)
    } else if chars_are(n, "alt") || chars_are(n, "leftalt") {
        Some(Key::LeftAlt)
    } else if chars_are(n, "rightalt") {
        Some(Key::RightAlt)
    } else if chars_are(n, "meta") || chars_are(n, "super") || chars_are(n, "leftmeta") {
        Some(Key::LeftMeta)
    } else if chars_are(n, "rightmeta") {
        Some(Key::RightMeta)
    } else if chars_are(n, "space") {
        Some(Key::Space)
    } else if chars_are(n, "f1") {
        Some(Key::F1)
    } else if chars_are(n, "f2") {
        Some(Key::F2)
    } else if chars_are(n, "f3") {
        Some(Key::F3)
    } else if chars_are(n, "f4") {
        Some(Key::F4)
    } else if chars_are(n, "f5") {
        Some(Key::F5)
    } else if chars_are(n, "f6") {
        Some(Key::F6)
    } else if chars_are(n, "f7") {
        Some(Key::F7)
    } else if chars_are(n, "f8") {
        Some(Key::F8)
    } else if chars_are(n, "f9") {
        Some(Key::F9)
    } else if chars_are(n, "f10") {
        Some(Key::F10)
    } else if chars_are(n, "f11") {
        Some(Key::F11)
    } else if chars_are(n, "f12") {
        Some(Key::F12)
    } else {
        None
    }
}

/// The key a paste-shortcut part names, looked up.
fn lookup_chord_key(n: &Vec<char>) -> (k: Option<Key>)
    ensures
        k == chord_key(n@),
{
    reveal(chord_key);
    if chars_are(n, "ctrl") || chars_are(n, "control") || chars_are(n, "leftctrl") {
        Some(Key::LeftCtrl)
    } else if chars_are(n, "rightctrl") {
        Some(Key::RightCtrl)
    } else if chars_are(n, "shift") || chars_are(n, "leftshift") {
        Some(Key::LeftShift)
    } else if chars_are(n, "rightshift") {
        Some(Key::RightShift)
    } else if chars_are(n, "alt") || chars_are(n, "leftalt") {
        Some(Key::LeftAlt)
    } else if chars_are(n, "rightalt") {
        Some(Key::RightAlt)
    } else if chars_are(n, "meta") || chars_are(n, "super") || chars_are(n, "leftmeta") {
        Some(Key::LeftMeta)
    } else if chars_are(n, "rightmeta") {
        Some(Key::RightMeta)
    } else if chars_are(n, "v") {
        Some(Key::V)
    } else if chars_are(n, "backspace") || chars_are(n, "back") {
        Some(Key::Backspace)
    } else {
        None
    }
}

/// Splitting a prefix that ends just before a `+`-free tail.
proof fn lemma_split_step(s: Seq<char>, start: int, i: int)
    requires
        0 <= start <= i <= s.len(),
        start == 0 || s[start - 1] == '+',
        forall|k: int| start <= k < i ==> s[k] != '+',
    ensures
        split_plus(s.take(i)) == if start == 0 {
            seq![s.take(i)]
        } else {
            split_plus(s.take(start - 1)).push(s.subrange(start, i))
        },
{
    let t = s.take(i);
    lemma_last_plus(t);
    if start == 0 {
        assert forall|k: int| 0 <= k < t.len() implies t[k] != '+' by {}
        if last_plus(t) >= 0 {
            assert(t[last_plus(t)] == '+');
        }
    } else {
        if last_plus(t) < start - 1 {
            assert(t[start - 1] == '+');
        } else if last_plus(t) > start - 1 {
            assert(t[last_plus(t)] == s[last_plus(t)]);
        }
        assert(t.take(start - 1) =~= s.take(start - 1));
        assert(t.skip(start) =~= s.subrange(start, i));
    }
}

/// `p` is a range of `v` holding exactly `part`.
pub open spec fn range_holds(v: Seq<char>, p: (usize, usize), part: Seq<char>) -> bool {
    p.0 <= p.1 <= v.len() && v.subrange(p.0 as int, p.1 as int) == part
}

/// Each range of `r` holds the corresponding part.
pub open spec fn ranges_hold(v: Seq<char>, r: Seq<(usize, usize)>, parts: Seq<Seq<char>>) -> bool {
    r.len() == parts.len() && forall|k: int| #![trigger r[k]] 0 <= k < r.len() ==> range_holds(v, r[k], parts[k])
}

/// The character ranges of the parts of `v` between `+` signs.
pub(crate) fn split_ranges(v: &Vec<char>) -> (r: Vec<(usize, usize)>)
    ensures
        ranges_hold(v@, r@, split_plus(v@)),
{
    let ghost sv = v@;
    let mut r: Vec<(usize, usize)> = Vec::new();
    let mut start: usize = 0;
    let mut i: usize = 0;
    while i < v.len()
        invariant
            v@ == sv,
            start <= i <= sv.len(),
            start == 0 || sv[start - 1] == '+',
            forall|k: int| start <= k < i ==> sv[k] != '+',
            start == 0 ==> r@.len() == 0,
            start > 0 ==> ranges_hold(sv, r@, split_plus(sv.take(start - 1))),
        decreases sv.len() - i,
    {
        if v[i] == '+' {
            proof {
                lemma_split_step(sv, start as int, i as int);
            }
            let ghost before = r@;
            r.push((start, i));
            proof {
                let p = split_plus(sv.take(i as int));
                assert forall|k: int| #![trigger r@[k]] 0 <= k < r@.len() implies range_holds(sv, r@[k], p[k]) by {
                    if k < before.len() {
                        assert(r@[k] == before[k]);
                        assert(p[k] == split_plus(sv.take(start - 1))[k]);
                    } else {
                        assert(sv.subrange(start as int, i as int) == p[k]);
                    }
                }
                assert(sv.take(i + 1 - 1) == sv.take(i as int));
            }
            start = i + 1;
        }
        i = i + 1;
    }
    proof {
        lemma_split_step(sv, start as int, i as int);
        assert(sv.take(i as int) =~= sv);
    }
    let ghost before = r@;
    r.push((start, i));
    proof {
        let p = split_plus(sv);
        assert forall|k: int| #![trigger r@[k]] 0 <= k < r@.len() implies range_holds(sv, r@[k], p[k]) by {
            if k < before.len() {
                assert(r@[k] == before[k]);
                assert(p[k] == split_plus(sv.take(start - 1))[k]);
            } else {
                assert(sv.subrange(start as int, i as int) == p[k]);
            }
        }
    }
    r
}

proof fn lemma_binding_err_sticks(parts: Seq<Seq<char>>, m: int, n: int)
    requires
        0 <= m <= n <= parts.len(),
        parse_binding_parts(parts.take(m)) is Err,
    ensures
        parse_binding_parts(parts.take(n)) == parse_binding_parts(parts.take(m)),
    decreases n - m,
{
    if n > m {
        lemma_binding_err_sticks(parts, m, n - 1);
        assert(parts.take(n).drop_last() =~= parts.take(n - 1));
    }
}

proof fn lemma_chord_err_sticks(parts: Seq<Seq<char>>, m: int, n: int)
    requires
        0 <= m <= n <= parts.len(),
        parse_chord_parts(parts.take(m)) is Err,
    ensures
        parse_chord_parts(parts.take(n)) == parse_chord_parts(parts.take(m)),
    decreases n - m,
{
    if n > m {
        lemma_chord_err_sticks(parts, m, n - 1);
        assert(parts.take(n).drop_last() =~= parts.take(n - 1));
    }
}

/// Parses a hotkey binding such as `RightCtrl` or `Ctrl+Alt+Space` into the
/// set of keys that must all be held. Parts are split on `+`, trimmed and
/// compared case-insensitively.
#[verifier::spinoff_prover]
#[verifier::rlimit(50)]
pub fn parse_binding(s: &str) -> (r: Result<Vec<Key>, UnsupportedKey>)
    ensures
        keys_result(r) == parse_binding_parts(split_plus(s@)),
{
    let v = chars_of(s);
    let ranges = split_ranges(&v);
    let ghost parts = split_plus(v@);
    let mut keys: Vec<Key> = Vec::new();
    let mut k: usize = 0;
    assert(parts.take(0) =~= Seq::<Seq<char>>::empty());
    while k < ranges.len()
        invariant
            parts == split_plus(v@),
            v@ == s@,
            ranges_hold(v@, ranges@, parts),
            k <= parts.len(),
            parse_binding_parts(parts.take(k as int)) == Ok::<Seq<Key>, Seq<char>>(keys@),
        decreases parts.len() - k,
    {
        let (lo, hi) = ranges[k];
        assert(range_holds(v@, ranges@[k as int], parts[k as int]));
        let part = normalized_part(&v, lo, hi);
        proof {
            assert(parts.take(k + 1).drop_last() =~= parts.take(k as int));
            assert(parts.take(k + 1).last() == parts[k as int]);
        }
        match lookup_binding_key(&part) {
            None => {
                let key = string_of_range(part.as_slice(), 0, part.len());
                proof {
                    assert(part@.subrange(0, part@.len() as int) =~= part@);
                    assert(part@ == normalize(parts[k as int]));
                    assert(parse_binding_parts(parts.take(k + 1)) == Err::<Seq<Key>, Seq<char>>(part@));
                    lemma_binding_err_sticks(parts, k + 1, parts.len() as int);
                    assert(parts.take(parts.len() as int) =~= parts);
                }
                return Err(UnsupportedKey { key });
            },
            Some(key) => {
                let mut present = false;
                let mut q: usize = 0;
                while q < keys.len()
                    invariant
                        q <= keys@.len(),
                        present <==> (exists|j: int| 0 <= j < q && keys@[j] == key),
                    decreases keys@.len() - q,
                {
                    if keys[q] == key {
                        present = true;
                    }
                    q = q + 1;
                }
                let ghost before = keys@;
                assert(part@ == normalize(parts[k as int]));
                if !present {
                    keys.push(key);
                    assert(!before.contains(key));
                    assert(parse_binding_parts(parts.take(k + 1)) == Ok::<Seq<Key>, Seq<char>>(before.push(key)));
                } else {
                    assert(keys@.contains(key));
                    assert(parse_binding_parts(parts.take(k + 1)) == Ok::<Seq<Key>, Seq<char>>(before));
                }
            },
        }
        k = k + 1;
    }
    assert(parts.take(parts.len() as int) =~= parts);
    Ok(keys)
}

/// Parses a paste shortcut such as `Ctrl+V` into the keys to tap, in order.
/// Parts are split on `+`, trimmed and compared case-insensitively.
#[verifier::spinoff_prover]
#[verifier::rlimit(50)]
pub fn parse_chord(s: &str) -> (r: Result<Vec<Key>, UnsupportedKey>)
    ensures
        keys_result(r) == parse_chord_parts(split_plus(s@)),
{
    let v = chars_of(s);
    let ranges = split_ranges(&v);
    let ghost parts = split_plus(v@);
    let mut keys: Vec<Key> = Vec::new();
    let mut k: usize = 0;
    assert(parts.take(0) =~= Seq::<Seq<char>>::empty());
    while k < ranges.len()
        invariant
            parts == split_plus(v@),
            v@ == s@,
            ranges_hold(v@, ranges@, parts),
            k <= parts.len(),
            parse_chord_parts(parts.take(k as int)) == Ok::<Seq<Key>, Seq<char>>(keys@),
        decreases parts.len() - k,
    {
        let (lo, hi) = ranges[k];
        assert(range_holds(v@, ranges@[k as int], parts[k as int]));
        let part = normalized_part(&v, lo, hi);
        proof {
            assert(parts.take(k + 1).drop_last() =~= parts.take(k as int));
            assert(parts.take(k + 1).last() == parts[k as int]);
        }
        match lookup_chord_key(&part) {
            None => {
                let key = string_of_range(part.as_slice(), 0, part.len());
                proof {
                    assert(part@.subrange(0, part@.len() as int) =~= part@);
                    assert(part@ == normalize(parts[k as int]));
                    assert(parse_chord_parts(parts.take(k + 1)) == Err::<Seq<Key>, Seq<char>>(part@));
                    lemma_chord_err_sticks(parts, k + 1, parts.len() as int);
                    assert(parts.take(parts.len() as int) =~= parts);
                }
                return Err(UnsupportedKey { key });
            },
            Some(key) => {
                let ghost before = keys@;
                keys.push(key);
                assert(part@ == normalize(parts[k as int]));
                assert(parse_chord_parts(parts.take(k + 1)) == Ok::<Seq<Key>, Seq<char>>(before.push(key)));
            },
        }
        k = k + 1;
    }
    assert(parts.take(parts.len() as int) =~= parts);
    Ok(keys)
}

/// The characters of the key names the parsers compare against.
pub(crate) proof fn lemma_key_literals()
    ensures
        "ctrl"@ == seq!['c', 't', 'r', 'l'],
        "leftctrl"@ == seq!['l', 'e', 'f', 't', 'c', 't', 'r', 'l'],
        "rightctrl"@ == seq!['r', 'i', 'g', 'h', 't', 'c', 't', 'r', 'l'],
        "shift"@ == seq!['s', 'h', 'i', 'f', 't'],
        "leftshift"@ == seq!['l', 'e', 'f', 't', 's', 'h', 'i', 'f', 't'],
        "rightshift"@ == seq!['r', 'i', 'g', 'h', 't', 's', 'h', 'i', 'f', 't'],
        "alt"@ == seq!['a', 'l', 't'],
        "leftalt"@ == seq!['l', 'e', 'f', 't', 'a', 'l', 't'],
        "rightalt"@ == seq!['r', 'i', 'g', 'h', 't', 'a', 'l', 't'],
        "meta"@ == seq!['m', 'e', 't', 'a'],
        "super"@ == seq!['s', 'u', 'p', 'e', 'r'],
        "leftmeta"@ == seq!['l', 'e', 'f', 't', 'm', 'e', 't', 'a'],
        "rightmeta"@ == seq!['r', 'i', 'g', 'h', 't', 'm', 'e', 't', 'a'],
        "space"@ == seq!['s', 'p', 'a', 'c', 'e'],
        "control"@ == seq!['c', 'o', 'n', 't', 'r', 'o', 'l'],
        "v"@ == seq!['v'],
        "backspace"@ == seq!['b', 'a', 'c', 'k', 's', 'p', 'a', 'c', 'e'],
        "back"@ == seq!['b', 'a', 'c', 'k'],
        "f1"@ == seq!['f', '1'],
        "f2"@ == seq!['f', '2'],
        "f3"@ == seq!['f', '3'],
        "f4"@ == seq!['f', '4'],
        "f5"@ == seq!['f', '5'],
        "f6"@ == seq!['f', '6'],
        "f7"@ == seq!['f', '7'],
        "f8"@ == seq!['f', '8'],
        "f9"@ == seq!['f', '9'],
        "f10"@ == seq!['f', '1', '0'],
        "f11"@ == seq!['f', '1', '1'],
        "f12"@ == seq!['f', '1', '2'],
{
    reveal_strlit("ctrl");
    assert("ctrl"@.len() == 4);
    assert("ctrl"@[0] == 'c');
    assert("ctrl"@[1] == 't');
    assert("ctrl"@[2] == 'r');
    assert("ctrl"@[3] == 'l');
    reveal_strlit("leftctrl");
    assert("leftctrl"@.len() == 8);
    assert("leftctrl"@[0] == 'l');
    assert("leftctrl"@[1] == 'e');
    assert("leftctrl"@[2] == 'f');
    assert("leftctrl"@[3] == 't');
    assert("leftctrl"@[4] == 'c');
    assert("leftctrl"@[5] == 't');
    assert("leftctrl"@[6] == 'r');
    assert("leftctrl"@[7] == 'l');
    reveal_strlit("rightctrl");
    assert("rightctrl"@.len() == 9);
    assert("rightctrl"@[0] == 'r');
    assert("rightctrl"@[1] == 'i');
    assert("rightctrl"@[2] == 'g');
    assert("rightctrl"@[3] == 'h');
    assert("rightctrl"@[4] == 't');
    assert("rightctrl"@[5] == 'c');
    assert("rightctrl"@[6] == 't');
    assert("rightctrl"@[7] == 'r');
    assert("rightctrl"@[8] == 'l');
    reveal_strlit("shift");
    assert("shift"@.len() == 5);
    assert("shift"@[0] == 's');
    assert("shift"@[1] == 'h');
    assert("shift"@[2] == 'i');
    assert("shift"@[3] == 'f');
    assert("shift"@[4] == 't');
    reveal_strlit("leftshift");
    assert("leftshift"@.len() == 9);
    assert("leftshift"@[0] == 'l');
    assert("leftshift"@[1] == 'e');
    assert("leftshift"@[2] == 'f');
    assert("leftshift"@[3] == 't');
    assert("leftshift"@[4] == 's');
    assert("leftshift"@[5] == 'h');
    assert("leftshift"@[6] == 'i');
    assert("leftshift"@[7] == 'f');
    assert("leftshift"@[8] == 't');
    reveal_strlit("rightshift");
    assert("rightshift"@.len() == 10);
    assert("rightshift"@[0] == 'r');
    assert("rightshift"@[1] == 'i');
    assert("rightshift"@[2] == 'g');
    assert("rightshift"@[3] == 'h');
    assert("rightshift"@[4] == 't');
    assert("rightshift"@[5] == 's');
    assert("rightshift"@[6] == 'h');
    assert("rightshift"@[7] == 'i');
    assert("rightshift"@[8] == 'f');
    assert("rightshift"@[9] == 't');
    reveal_strlit("alt");
    assert("alt"@.len() == 3);
    assert("alt"@[0] == 'a');
    assert("alt"@[1] == 'l');
    assert("alt"@[2] == 't');
    reveal_strlit("leftalt");
    assert("leftalt"@.len() == 7);
    assert("leftalt"@[0] == 'l');
    assert("leftalt"@[1] == 'e');
    assert("leftalt"@[2] == 'f');
    assert("leftalt"@[3] == 't');
    assert("leftalt"@[4] == 'a');
    assert("leftalt"@[5] == 'l');
    assert("leftalt"@[6] == 't');
    reveal_strlit("rightalt");
    assert("rightalt"@.len() == 8);
    assert("rightalt"@[0] == 'r');
    assert("rightalt"@[1] == 'i');
    assert("rightalt"@[2] == 'g');
    assert("rightalt"@[3] == 'h');
    assert("rightalt"@[4] == 't');
    assert("rightalt"@[5] == 'a');
    assert("rightalt"@[6] == 'l');
    assert("rightalt"@[7] == 't');
    reveal_strlit("meta");
    assert("meta"@.len() == 4);
    assert("meta"@[0] == 'm');
    assert("meta"@[1] == 'e');
    assert("meta"@[2] == 't');
    assert("meta"@[3] == 'a');
    reveal_strlit("super");
    assert("super"@.len() == 5);
    assert("super"@[0] == 's');
    assert("super"@[1] == 'u');
    assert("super"@[2] == 'p');
    assert("super"@[3] == 'e');
    assert("super"@[4] == 'r');
    reveal_strlit("leftmeta");
    assert("leftmeta"@.len() == 8);
    assert("leftmeta"@[0] == 'l');
    assert("leftmeta"@[1] == 'e');
    assert("leftmeta"@[2] == 'f');
    assert("leftmeta"@[3] == 't');
    assert("leftmeta"@[4] == 'm');
    assert("leftmeta"@[5] == 'e');
    assert("leftmeta"@[6] == 't');
    assert("leftmeta"@[7] == 'a');
    reveal_strlit("rightmeta");
    assert("rightmeta"@.len() == 9);
    assert("rightmeta"@[0] == 'r');
    assert("rightmeta"@[1] == 'i');
    assert("rightmeta"@[2] == 'g');
    assert("rightmeta"@[3] == 'h');
    assert("rightmeta"@[4] == 't');
    assert("rightmeta"@[5] == 'm');
    assert("rightmeta"@[6] == 'e');
    assert("rightmeta"@[7] == 't');
    assert("rightmeta"@[8] == 'a');
    reveal_strlit("space");
    assert("space"@.len() == 5);
    assert("space"@[0] == 's');
    assert("space"@[1] == 'p');
    assert("space"@[2] == 'a');
    assert("space"@[3] == 'c');
    assert("space"@[4] == 'e');
    reveal_strlit("control");
    assert("control"@.len() == 7);
    assert("control"@[0] == 'c');
    assert("control"@[1] == 'o');
    assert("control"@[2] == 'n');
    assert("control"@[3] == 't');
    assert("control"@[4] == 'r');
    assert("control"@[5] == 'o');
    assert("control"@[6] == 'l');
    reveal_strlit("v");
    assert("v"@.len() == 1);
    assert("v"@[0] == 'v');
    reveal_strlit("backspace");
    assert("backspace"@.len() == 9);
    assert("backspace"@[0] == 'b');
    assert("backspace"@[1] == 'a');
    assert("backspace"@[2] == 'c');
    assert("backspace"@[3] == 'k');
    assert("backspace"@[4] == 's');
    assert("backspace"@[5] == 'p');
    assert("backspace"@[6] == 'a');
    assert("backspace"@[7] == 'c');
    assert("backspace"@[8] == 'e');
    reveal_strlit("back");
    assert("back"@.len() == 4);
    assert("back"@[0] == 'b');
    assert("back"@[1] == 'a');
    assert("back"@[2] == 'c');
    assert("back"@[3] == 'k');
    reveal_strlit("f1");
    assert("f1"@.len() == 2);
    assert("f1"@[0] == 'f');
    assert("f1"@[1] == '1');
    reveal_strlit("f2");
    assert("f2"@.len() == 2);
    assert("f2"@[0] == 'f');
    assert("f2"@[1] == '2');
    reveal_strlit("f3");
    assert("f3"@.len() == 2);
    assert("f3"@[0] == 'f');
    assert("f3"@[1] == '3');
    reveal_strlit("f4");
    assert("f4"@.len() == 2);
    assert("f4"@[0] == 'f');
    assert("f4"@[1] == '4');
    reveal_strlit("f5");
    assert("f5"@.len() == 2);
    assert("f5"@[0] == 'f');
    assert("f5"@[1] == '5');
    reveal_strlit("f6");
    assert("f6"@.len() == 2);
    assert("f6"@[0] == 'f');
    assert("f6"@[1] == '6');
    reveal_strlit("f7");
    assert("f7"@.len() == 2);
    assert("f7"@[0] == 'f');
    assert("f7"@[1] == '7');
    reveal_strlit("f8");
    assert("f8"@.len() == 2);
    assert("f8"@[0] == 'f');
    assert("f8"@[1] == '8');
    reveal_strlit("f9");
    assert("f9"@.len() == 2);
    assert("f9"@[0] == 'f');
    assert("f9"@[1] == '9');
    reveal_strlit("f10");
    assert("f10"@.len() == 3);
    assert("f10"@[0] == 'f');
    assert("f10"@[1] == '1');
    assert("f10"@[2] == '0');
    reveal_strlit("f11");
    assert("f11"@.len() == 3);
    assert("f11"@[0] == 'f');
    assert("f11"@[1] == '1');
    assert("f11"@[2] == '1');
    reveal_strlit("f12");
    assert("f12"@.len() == 3);
    assert("f12"@[0] == 'f');
    assert("f12"@[1] == '1');
    assert("f12"@[2] == '2');
    assert("ctrl"@ =~= seq!['c', 't', 'r', 'l']);
    assert("leftctrl"@ =~= seq!['l', 'e', 'f', 't', 'c', 't', 'r', 'l']);
    assert("rightctrl"@ =~= seq!['r', 'i', 'g', 'h', 't', 'c', 't', 'r', 'l']);
    assert("shift"@ =~= seq!['s', 'h', 'i', 'f', 't']);
    assert("leftshift"@ =~= seq!['l', 'e', 'f', 't', 's', 'h', 'i', 'f', 't']);
    assert("rightshift"@ =~= seq!['r', 'i', 'g', 'h', 't', 's', 'h', 'i', 'f', 't']);
    assert("alt"@ =~= seq!['a', 'l', 't']);
    assert("leftalt"@ =~= seq!['l', 'e', 'f', 't', 'a', 'l', 't']);
    assert("rightalt"@ =~= seq!['r', 'i', 'g', 'h', 't', 'a', 'l', 't']);
    assert("meta"@ =~= seq!['m', 'e', 't', 'a']);
    assert("super"@ =~= seq!['s', 'u', 'p', 'e', 'r']);
    assert("leftmeta"@ =~= seq!['l', 'e', 'f', 't', 'm', 'e', 't', 'a']);
    assert("rightmeta"@ =~= seq!['r', 'i', 'g', 'h', 't', 'm', 'e', 't', 'a']);
    assert("space"@ =~= seq!['s', 'p', 'a', 'c', 'e']);
    assert("control"@ =~= seq!['c', 'o', 'n', 't', 'r', 'o', 'l']);
    assert("v"@ =~= seq!['v']);
    assert("backspace"@ =~= seq!['b', 'a', 'c', 'k', 's', 'p', 'a', 'c', 'e']);
    assert("back"@ =~= seq!['b', 'a', 'c', 'k']);
    assert("f1"@ =~= seq!['f', '1']);
    assert("f2"@ =~= seq!['f', '2']);
    assert("f3"@ =~= seq!['f', '3']);
    assert("f4"@ =~= seq!['f', '4']);
    assert("f5"@ =~= seq!['f', '5']);
    assert("f6"@ =~= seq!['f', '6']);
    assert("f7"@ =~= seq!['f', '7']);
    assert("f8"@ =~= seq!['f', '8']);
    assert("f9"@ =~= seq!['f', '9']);
    assert("f10"@ =~= seq!['f', '1', '0']);
    assert("f11"@ =~= seq!['f', '1', '1']);
    assert("f12"@ =~= seq!['f', '1', '2']);
}

/// Every key that a binding can hold is found under its own name: each
/// modifier under its left/right name, `space`, and each function key under
/// `f` and its own number.
#[verifier::spinoff_prover]
#[verifier::rlimit(60)]
pub proof fn law_binding_key_names(k: Key)
    requires
        is_binding_key(k),
    ensures
        binding_key(key_name(k)) == Some(k),
        function_number(k) is Some ==> key_name(k).len() >= 2 && key_name(k)[0] == 'f',
{
    reveal(binding_key);
    lemma_key_literals();
    match k {
        Key::LeftCtrl => {},
        Key::RightCtrl => {},
        Key::LeftShift => {},
        Key::RightShift => {},
        Key::LeftAlt => {},
        Key::RightAlt => {},
        Key::LeftMeta => {},
        Key::RightMeta => {},
        Key::Space => {},
        Key::F1 => {},
        Key::F2 => {},
        Key::F3 => {},
        Key::F4 => {},
        Key::F5 => {},
        Key::F6 => {},
        Key::F7 => {},
        Key::F8 => {},
        Key::F9 => {},
        Key::F10 => {
            assert("f10"@.len() == 3 && "f1"@.len() == 2);
        },
        Key::F11 => {
            assert("f11"@.len() == 3 && "f1"@.len() == 2);
        },
        Key::F12 => {
            assert("f12"@.len() == 3 && "f1"@.len() == 2);
        },
        Key::V => {},
        Key::Backspace => {},
    }
}

/// A binding part `f` followed by the decimal number `n`, for `n` from 1
/// to 12, names the function key numbered `n`.
pub proof fn law_function_key_numbers(n: nat)
    requires
        1 <= n <= 12,
    ensures
        ({
            let k = binding_key(seq!['f'] + decimal(n));
            k is Some && function_number(k->Some_0) == Some(n)
        }),
{
    reveal_with_fuel(decimal, 2);
    lemma_key_literals();
    let name = seq!['f'] + decimal(n);
    if n == 1 {
        assert(decimal(1) =~= seq!['1']);
        assert(name =~= "f1"@);
        law_binding_key_names(Key::F1);
    } else if n == 2 {
        assert(decimal(2) =~= seq!['2']);
        assert(name =~= "f2"@);
        law_binding_key_names(Key::F2);
    } else if n == 3 {
        assert(decimal(3) =~= seq!['3']);
        assert(name =~= "f3"@);
        law_binding_key_names(Key::F3);
    } else if n == 4 {
        assert(decimal(4) =~= seq!['4']);
        assert(name =~= "f4"@);
        law_binding_key_names(Key::F4);
    } else if n == 5 {
        assert(decimal(5) =~= seq!['5']);
        assert(name =~= "f5"@);
        law_binding_key_names(Key::F5);
    } else if n == 6 {
        assert(decimal(6) =~= seq!['6']);
        assert(name =~= "f6"@);
        law_binding_key_names(Key::F6);
    } else if n == 7 {
        assert(decimal(7) =~= seq!['7']);
        assert(name =~= "f7"@);
        law_binding_key_names(Key::F7);
    } else if n == 8 {
        assert(decimal(8) =~= seq!['8']);
        assert(name =~= "f8"@);
        law_binding_key_names(Key::F8);
    } else if n == 9 {
        assert(decimal(9) =~= seq!['9']);
        assert(name =~= "f9"@);
        law_binding_key_names(Key::F9);
    } else if n == 10 {
        assert(decimal(10) =~= seq!['1', '0']);
        assert(name =~= "f10"@);
        law_binding_key_names(Key::F10);
    } else if n == 11 {
        assert(decimal(11) =~= seq!['1', '1']);
        assert(name =~= "f11"@);
        law_binding_key_names(Key::F11);
    } else if n == 12 {
        assert(decimal(12) =~= seq!['1', '2']);
        assert(name =~= "f12"@);
        law_binding_key_names(Key::F12);
    }
}

/// Every key that a paste shortcut can hold is found under its own name.
pub proof fn law_chord_key_names(k: Key)
    requires
        is_chord_key(k),
    ensures
        chord_key(key_name(k)) == Some(k),
{
    reveal(chord_key);
    lemma_key_literals();
}

/// Which keys of the binding are held and whether the session is open.
pub struct TrackerModel {
    pub wanted: Set<u16>,
    pub held: Set<u16>,
    pub open: bool,
}

/// One raw key event (`value`: 1 down, 0 up, anything else ignored) and the
/// binding event it causes: a key outside the binding changes nothing; the
/// session opens (`Press`) when every key of the binding becomes held and
/// closes (`Release`) when one of them is let go.
pub open spec fn tracker_step(m: TrackerModel, code: u16, value: i32) -> (TrackerModel, Option<HotkeyEvent>) {
    if !m.wanted.contains(code) {
        (m, None)
    } else {
        let held = if value == 1 {
            m.held.insert(code)
        } else if value == 0 {
            m.held.remove(code)
        } else {
            m.held
        };
        let all = m.wanted.subset_of(held);
        if all && !m.open {
            (TrackerModel { held: held, open: true, ..m }, Some(HotkeyEvent::Press))
        } else if !all && m.open {
            (TrackerModel { held: held, open: false, ..m }, Some(HotkeyEvent::Release))
        } else {
            (TrackerModel { held: held, ..m }, None)
        }
    }
}

/// Turns raw key up/down events into press/release of a key binding.
pub struct HotkeyTracker {
    wanted: Vec<u16>,
    held: Vec<u16>,
    open: bool,
}

impl View for HotkeyTracker {
    type V = TrackerModel;

    closed spec fn view(&self) -> TrackerModel {
        TrackerModel { wanted: self.wanted@.to_set(), held: self.held@.to_set(), open: self.open }
    }
}

/// Whether `v` holds `x`.
fn contains_code(v: &Vec<u16>, x: u16) -> (b: bool)
    ensures
        b == v@.contains(x),
{
    let mut i: usize = 0;
    while i < v.len()
        invariant
            i <= v@.len(),
            forall|j: int| 0 <= j < i ==> v@[j] != x,
        decreases v@.len() - i,
    {
        if v[i] == x {
            assert(v@[i as int] == x);
            return true;
        }
        i = i + 1;
    }
    false
}

impl HotkeyTracker {
    /// No key is recorded as held twice.
    #[verifier::type_invariant]
    spec fn inv(&self) -> bool {
        self.held@.no_duplicates()
    }

    /// A tracker for the binding whose key codes are `wanted`; nothing held,
    /// session closed.
    pub fn new(wanted: Vec<u16>) -> (t: Self)
        ensures
            t@.wanted == wanted@.to_set(),
            t@.held == Set::<u16>::empty(),
            !t@.open,
    {
        let held: Vec<u16> = Vec::new();
        assert(held@.to_set() =~= Set::<u16>::empty()) by {
            broadcast use vstd::seq_lib::group_seq_properties;
        }
        HotkeyTracker { wanted, held, open: false }
    }

    /// Whether the session is open.
    pub fn is_open(&self) -> (b: bool)
        ensures
            b == self@.open,
    {
        self.open
    }

    /// Feeds one raw key event; returns the binding event it causes.
    pub fn on_key(&mut self, code: u16, value: i32) -> (ev: Option<HotkeyEvent>)
        ensures
            (final(self)@, ev) == tracker_step(old(self)@, code, value),
    {
        broadcast use vstd::seq_lib::group_seq_properties;
        proof {
            use_type_invariant(&*self);
        }
        if !contains_code(&self.wanted, code) {
            return None;
        }
        let mut held: Vec<u16> = Vec::new();
        std::mem::swap(&mut held, &mut self.held);
        assert(held@.no_duplicates());
        let ghost held0 = held@.to_set();
        if value == 1 {
            if !contains_code(&held, code) {
                held.push(code);
            }
            assert(held@.to_set() =~= held0.insert(code));
        } else if value == 0 {
            let mut i: usize = 0;
            while i < held.len() && held[i] != code
                invariant
                    i <= held@.len(),
                    forall|j: int| 0 <= j < i ==> held@[j] != code,
                decreases held@.len() - i,
            {
                i = i + 1;
            }
            if i < held.len() {
                let ghost before = held@;
                held.remove(i);
                assert(held@ =~= before.take(i as int) + before.skip(i + 1));
                assert forall|x: u16| held@.to_set().contains(x) implies held0.remove(code).contains(x) by {
                    assert(held@.contains(x));
                    let q = choose|q: int| 0 <= q < held@.len() && held@[q] == x;
                    if q < i {
                        assert(before[q] == x);
                        assert(before[q] != before[i as int]);
                    } else {
                        assert(before[q + 1] == x);
                        assert(before[q + 1] != before[i as int]);
                    }
                    assert(before.contains(x));
                }
                assert forall|x: u16| held0.remove(code).contains(x) implies held@.to_set().contains(x) by {
                    assert(before.contains(x));
                    let q = choose|q: int| 0 <= q < before.len() && before[q] == x;
                    if q < i {
                        assert(held@[q] == x);
                    } else if q > i {
                        assert(held@[q - 1] == x);
                    }
                }
                assert(held@.to_set() =~= held0.remove(code));
                assert forall|p: int, q: int| 0 <= p < q < held@.len() implies held@[p] != held@[q] by {
                    let pp = if p < i { p } else { p + 1 };
                    let qq = if q < i { q } else { q + 1 };
                    assert(held@[p] == before[pp]);
                    assert(held@[q] == before[qq]);
                }
            } else {
                assert(!held@.contains(code));
                assert(held@.to_set() =~= held0.remove(code));
            }
        } else {
            assert(held@.to_set() =~= held0);
        }
        self.held = held;
        let mut all = true;
        let mut w: usize = 0;
        while w < self.wanted.len()
            invariant
                w <= self.wanted@.len(),
                all <==> (forall|j: int| 0 <= j < w ==> self.held@.contains(#[trigger] self.wanted@[j])),
            decreases self.wanted@.len() - w,
        {
            if !contains_code(&self.held, self.wanted[w]) {
                all = false;
            }
            w = w + 1;
        }
        assert(all == self@.wanted.subset_of(self.held@.to_set())) by {
            if all {
                assert forall|x: u16| self@.wanted.contains(x) implies self.held@.to_set().contains(x) by {
                    assert(self.wanted@.contains(x));
                    let j = choose|j: int| 0 <= j < self.wanted@.len() && self.wanted@[j] == x;
                    assert(self.held@.contains(self.wanted@[j]));
                }
            } else {
                let j = choose|j: int| 0 <= j < self.wanted@.len() && !self.held@.contains(#[trigger] self.wanted@[j]);
                assert(self@.wanted.contains(self.wanted@[j]));
                assert(!self.held@.to_set().contains(self.wanted@[j]));
            }
        }
        if all && !self.open {
            self.open = true;
            Some(HotkeyEvent::Press)
        } else if !all && self.open {
            self.open = false;
            Some(HotkeyEvent::Release)
        } else {
            None
        }
    }
}

/// The session is open exactly when every key of the binding is held, and
/// each event keeps it so: `Press` is emitted exactly when the session
/// opens and `Release` exactly when it closes, so they alternate.
pub proof fn law_tracker_step(m: TrackerModel, code: u16, value: i32)
    requires
        m.open == m.wanted.subset_of(m.held),
    ensures
        ({
            let (m2, ev) = tracker_step(m, code, value);
            &&& m2.wanted == m.wanted
            &&& m2.open == m2.wanted.subset_of(m2.held)
            &&& (ev == Some(HotkeyEvent::Press) <==> !m.open && m2.open)
            &&& (ev == Some(HotkeyEvent::Release) <==> m.open && !m2.open)
            &&& (ev is None <==> m.open == m2.open)
        }),
{
}

/// A raw key event changes only whether that key is held, and only for a
/// key of the binding: a key-down marks it held, a key-up marks it released,
/// any other value leaves it; every other key keeps its state. The session
/// is open afterwards exactly when every key of the binding is held (for a
/// tracker that was consistent before).
pub proof fn law_tracker_held_keys(m: TrackerModel, code: u16, value: i32)
    ensures
        ({
            let (m2, ev) = tracker_step(m, code, value);
            &&& forall|x: u16| x != code ==> (m2.held.contains(x) <==> m.held.contains(x))
            &&& (m.wanted.contains(code) ==> (m2.held.contains(code) <==> (value == 1 || (value != 0
                && m.held.contains(code)))))
            &&& (!m.wanted.contains(code) ==> m2.held == m.held && ev is None)
            &&& (m.open == m.wanted.subset_of(m.held) ==> m2.open == m.wanted.subset_of(m2.held))
        }),
{
}

/// Raw key events fed in turn: the final state and the binding events
/// emitted, in order.
pub open spec fn tracker_run(m: TrackerModel, keys: Seq<(u16, i32)>) -> (TrackerModel, Seq<HotkeyEvent>)
    decreases keys.len(),
{
    if keys.len() == 0 {
        (m, Seq::empty())
    } else {
        let (m1, evs) = tracker_run(m, keys.drop_last());
        let (m2, e) = tracker_step(m1, keys.last().0, keys.last().1);
        (
            m2,
            match e {
                Some(x) => evs.push(x),
                None => evs,
            },
        )
    }
}

/// `Press`, `Release`, `Press`, ... in turn, beginning with `Press`.
pub open spec fn alternating(evs: Seq<HotkeyEvent>) -> bool {
    forall|i: int|
        0 <= i < evs.len() ==> #[trigger] evs[i] == if i % 2 == 0 {
            HotkeyEvent::Press
        } else {
            HotkeyEvent::Release
        }
}

/// Over any run of key events from a closed tracker, the binding events
/// alternate Press, Release, ... beginning with Press; the session is open
/// afterwards exactly when the last one was a Press, and exactly when every
/// key of the binding is held.
pub proof fn law_tracker_alternates(m: TrackerModel, keys: Seq<(u16, i32)>)
    requires
        !m.open,
        !m.wanted.subset_of(m.held),
    ensures
        ({
            let (m2, evs) = tracker_run(m, keys);
            &&& alternating(evs)
            &&& m2.open == (evs.len() % 2 == 1)
            &&& m2.open == m2.wanted.subset_of(m2.held)
            &&& m2.wanted == m.wanted
        }),
    decreases keys.len(),
{
    if keys.len() > 0 {
        law_tracker_alternates(m, keys.drop_last());
        let (m1, evs) = tracker_run(m, keys.drop_last());
        law_tracker_step(m1, keys.last().0, keys.last().1);
        let (m2, e) = tracker_step(m1, keys.last().0, keys.last().1);
        match e {
            Some(x) => {
                let r = evs.push(x);
                assert forall|i: int| 0 <= i < r.len() implies #[trigger] r[i] == if i % 2 == 0 {
                    HotkeyEvent::Press
                } else {
                    HotkeyEvent::Release
                } by {
                    if i < evs.len() {
                        assert(r[i] == evs[i]);
                    }
                }
            },
            None => {},
        }
    }
}

/// A fresh tracker for a non-empty binding is closed, consistently with
/// nothing being held.
pub proof fn law_tracker_starts_closed(wanted: Set<u16>)
    requires
        wanted.len() > 0,
        wanted.finite(),
    ensures
        !wanted.subset_of(Set::<u16>::empty()),
{
    let x = wanted.choose();
    assert(wanted.contains(x));
}

/// The modifier keys held while a hotkey was captured.
#[derive(Debug, Clone, Copy, Default, PartialEq, Eq)]
pub struct ChordModifiers {
    pub ctrl: bool,
    pub shift: bool,
    pub alt: bool,
    pub mac_cmd: bool,
    pub command: bool,
}

/// The parts of a captured binding: `Ctrl`, `Shift`, `Alt`, `Meta` (for
/// either command modifier), in that order, then the key.
pub open spec fn chord_name_parts(m: ChordModifiers, key: Option<Seq<char>>) -> Seq<Seq<char>> {
    (if m.ctrl { seq!["Ctrl"@] } else { Seq::empty() }) + (if m.shift { seq!["Shift"@] } else { Seq::empty() })
        + (if m.alt { seq!["Alt"@] } else { Seq::empty() }) + (if m.mac_cmd || m.command { seq!["Meta"@] } else {
        Seq::empty()
    }) + (match key {
        Some(k) => seq![k],
        None => Seq::empty(),
    })
}

/// The parts joined with `+`.
pub open spec fn join_plus(parts: Seq<Seq<char>>) -> Seq<char>
    decreases parts.len(),
{
    if parts.len() == 0 {
        Seq::empty()
    } else if parts.len() == 1 {
        parts[0]
    } else {
        join_plus(parts.drop_last()) + seq!['+'] + parts.last()
    }
}

/// Appends one part to a `+`-joined list held in `out`.
fn push_part(out: &mut String, n: &mut usize, part: &str, Ghost(parts): Ghost<Seq<Seq<char>>>)
    requires
        old(out)@ == join_plus(parts),
        *old(n) == parts.len(),
        parts.len() < usize::MAX,
    ensures
        final(out)@ == join_plus(parts.push(part@)),
        *final(n) == parts.len() + 1,
{
    if *n > 0 {
        push_char(out, '+');
    }
    out.append(part);
    proof {
        let p2 = parts.push(part@);
        assert(p2.drop_last() =~= parts);
        assert(out@ =~= join_plus(p2));
    }
    *n = *n + 1;
}

/// The binding string for the captured modifiers and key, e.g.
/// `Ctrl+Alt+Space`.
pub fn build_chord(mods: ChordModifiers, key: Option<&str>) -> (s: String)
    ensures
        s@ == join_plus(chord_name_parts(mods, match key {
            Some(k) => Some(k@),
            None => None,
        })),
{
    let mut out = String::new();
    let mut n: usize = 0;
    let ghost mut parts: Seq<Seq<char>> = Seq::empty();
    if mods.ctrl {
        push_part(&mut out, &mut n, "Ctrl", Ghost(parts));
        proof { parts = parts.push("Ctrl"@); }
    }
    if mods.shift {
        push_part(&mut out, &mut n, "Shift", Ghost(parts));
        proof { parts = parts.push("Shift"@); }
    }
    if mods.alt {
        push_part(&mut out, &mut n, "Alt", Ghost(parts));
        proof { parts = parts.push("Alt"@); }
    }
    if mods.mac_cmd || mods.command {
        push_part(&mut out, &mut n, "Meta", Ghost(parts));
        proof { parts = parts.push("Meta"@); }
    }
    if let Some(k) = key {
        push_part(&mut out, &mut n, k, Ghost(parts));
        proof { parts = parts.push(k@); }
    }
    let ghost expected = chord_name_parts(mods, match key {
        Some(k) => Some(k@),
        None => None,
    });
    assert(parts =~= expected);
    out
}

} // verus!
