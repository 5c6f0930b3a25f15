//! Key names on Windows: binding and paste-shortcut strings parsed into
//! virtual-key codes.
use vstd::prelude::*;
use vstd::string::*;
use crate::hotkey::{
    chars_are, lower, normalize, normalized_part, range_holds, ranges_hold, split_plus, split_ranges,
    UnsupportedKey,
};
use crate::text::{decimal, string_of_range};
use crate::hotkey::{key_name, lemma_key_literals, Key};

verus! {

pub const VK_BACK: u16 = 0x08;
pub const VK_SHIFT: u16 = 0x10;
pub const VK_CONTROL: u16 = 0x11;
pub const VK_MENU: u16 = 0x12;
pub const VK_SPACE: u16 = 0x20;
pub const VK_LWIN: u16 = 0x5B;
pub const VK_RWIN: u16 = 0x5C;
pub const VK_F1: u16 = 0x70;
pub const VK_LSHIFT: u16 = 0xA0;
pub const VK_RSHIFT: u16 = 0xA1;
pub const VK_LCONTROL: u16 = 0xA2;
pub const VK_RCONTROL: u16 = 0xA3;
pub const VK_LMENU: u16 = 0xA4;
pub const VK_RMENU: u16 = 0xA5;

/// ASCII letters uppercased, everything else unchanged.
pub open spec fn ascii_upper(c: char) -> char {
    if 'a' <= c <= 'z' {
        ((c as u32) - 32) as char
    } else {
        c
    }
}

/// The code of a named key (a name as compared: lowercased); `backspace`
/// and `back` are names only where `with_backspace` holds.
#[verifier::opaque]
pub open spec fn vk_named(name: Seq<char>, with_backspace: bool) -> Option<u16> {
    if name == "ctrl"@ || name == "control"@ {
        Some(VK_CONTROL)
    } else if name == "leftctrl"@ {
        Some(VK_LCONTROL)
    } else if name == "rightctrl"@ {
        Some(VK_RCONTROL)
    } else if name == "shift"@ {
        Some(VK_SHIFT)
    } else if name == "leftshift"@ {
        Some(VK_LSHIFT)
    } else if name == "rightshift"@ {
        Some(VK_RSHIFT)
    } else if name == "alt"@ {
        Some(VK_MENU)
    } else if name == "leftalt"@ {
        Some(VK_LMENU)
    } else if name == "rightalt"@ {
        Some(VK_RMENU)
    } else if name == "meta"@ || name == "super"@ || name == "leftmeta"@ {
        Some(VK_LWIN)
    } else if name == "rightmeta"@ {
        Some(VK_RWIN)
    } else if name == "space"@ {
        Some(VK_SPACE)
    } else if with_backspace && (name == "backspace"@ || name == "back"@) {
        Some(VK_BACK)
    } else if name == "f1"@ {
        Some(VK_F1)
    } else if name == "f2"@ {
        Some((VK_F1 + 1) as u16)
    } else if name == "f3"@ {
        Some((VK_F1 + 2) as u16)
    } else if name == "f4"@ {
        Some((VK_F1 + 3) as u16)
    } else if name == "f5"@ {
        Some((VK_F1 + 4) as u16)
    } else if name == "f6"@ {
        Some((VK_F1 + 5) as u16)
    } else if name == "f7"@ {
        Some((VK_F1 + 6) as u16)
    } else if name == "f8"@ {
        Some((VK_F1 + 7) as u16)
    } else if name == "f9"@ {
        Some((VK_F1 + 8) as u16)
    } else if name == "f10"@ {
        Some((VK_F1 + 9) as u16)
    } else if name == "f11"@ {
        Some((VK_F1 + 10) as u16)
    } else if name == "f12"@ {
        Some((VK_F1 + 11) as u16)
    } else {
        None
    }
}

/// The code a name stands for: a named key, or else a single ASCII
/// character, whose code is that of its uppercase form.
pub open spec fn vk_code(name: Seq<char>, with_backspace: bool) -> Option<u16> {
    match vk_named(name, with_backspace) {
        Some(k) => Some(k),
        None => if name.len() == 1 && (name[0] as u32) < 128 {
            Some((ascii_upper(name[0]) as u32) as u16)
        } else {
            None
        },
    }
}

/// One key name looked up, lowercased but not trimmed.
pub open spec fn key_spec(s: Seq<char>) -> Result<u16, Seq<char>> {
    match vk_code(lower(s), true) {
        Some(k) => Ok(k),
        None => Err(lower(s)),
    }
}

/// The binding's codes as a set (first occurrence order), or the first
/// unsupported part.
pub open spec fn binding_parts(parts: Seq<Seq<char>>) -> Result<Seq<u16>, Seq<char>>
    decreases parts.len(),
{
    if parts.len() == 0 {
        Ok(Seq::empty())
    } else {
        match binding_parts(parts.drop_last()) {
            Err(e) => Err(e),
            Ok(ks) => match vk_code(normalize(parts.last()), false) {
                None => Err(normalize(parts.last())),
                Some(k) => Ok(if ks.contains(k) { ks } else { ks.push(k) }),
            },
        }
    }
}

/// The shortcut's codes in order, or the first unsupported part.
pub open spec fn chord_parts(parts: Seq<Seq<char>>) -> Result<Seq<u16>, Seq<char>>
    decreases parts.len(),
{
    if parts.len() == 0 {
        Ok(Seq::empty())
    } else {
        match chord_parts(parts.drop_last()) {
            Err(e) => Err(e),
            Ok(ks) => match vk_code(normalize(parts.last()), true) {
                None => Err(normalize(parts.last())),
                Some(k) => Ok(ks.push(k)),
            },
        }
    }
}

/// `f` followed by the decimal number `n`, for `n` from 1 to 12, is the
/// function key numbered `n`, whose code is `n - 1` after `F1`'s, in
/// bindings and shortcuts alike; a single ASCII letter is the code of its
/// uppercase form, whatever its case.
pub proof fn law_vk_names(n: nat, c: char, with_backspace: bool)
    requires
        1 <= n <= 12,
    ensures
        vk_code(seq!['f'] + decimal(n), with_backspace) == Some((VK_F1 + n - 1) as u16),
        'a' <= c <= 'z' ==> vk_code(seq![c], with_backspace) == Some(((c as u32) - 32) as u16),
        'a' <= c <= 'z' ==> key_spec(seq![((c as u32) - 32) as char]) == Ok::<u16, Seq<char>>(((c as u32) - 32) as u16)
            && key_spec(seq![c]) == key_spec(seq![((c as u32) - 32) as char]),
{
    reveal(vk_named);
    reveal_with_fuel(decimal, 2);
    lemma_key_literals();
    let name = seq!['f'] + decimal(n);
    if n == 1 {
        assert(decimal(1) =~= seq!['1']);
        assert(name =~= "f1"@);
    } else if n == 2 {
        assert(decimal(2) =~= seq!['2']);
        assert(name =~= "f2"@);
    } else if n == 3 {
        assert(decimal(3) =~= seq!['3']);
        assert(name =~= "f3"@);
    } else if n == 4 {
        assert(decimal(4) =~= seq!['4']);
        assert(name =~= "f4"@);
    } else if n == 5 {
        assert(decimal(5) =~= seq!['5']);
        assert(name =~= "f5"@);
    } else if n == 6 {
        assert(decimal(6) =~= seq!['6']);
        assert(name =~= "f6"@);
    } else if n == 7 {
        assert(decimal(7) =~= seq!['7']);
        assert(name =~= "f7"@);
    } else if n == 8 {
        assert(decimal(8) =~= seq!['8']);
        assert(name =~= "f8"@);
    } else if n == 9 {
        assert(decimal(9) =~= seq!['9']);
        assert(name =~= "f9"@);
    } else if n == 10 {
        assert(decimal(10) =~= seq!['1', '0']);
        assert(name =~= "f10"@);
        assert("f10"@.len() == 3 && "f1"@.len() == 2);
    } else if n == 11 {
        assert(decimal(11) =~= seq!['1', '1']);
        assert(name =~= "f11"@);
        assert("f11"@.len() == 3 && "f1"@.len() == 2);
    } else if n == 12 {
        assert(decimal(12) =~= seq!['1', '2']);
        assert(name =~= "f12"@);
        assert("f12"@.len() == 3 && "f1"@.len() == 2);
    }
    if 'a' <= c <= 'z' {
        assert(seq![c].len() == 1);
        assert(seq![((c as u32) - 32) as char].len() == 1);
        assert(lower(seq![((c as u32) - 32) as char]) =~= seq![c]);
        assert(lower(seq![c]) =~= seq![c]);
    }
}

/// The virtual-key code of each key: the left or right modifier itself,
/// space, the function keys from `VK_F1` on, `V` and backspace.
pub open spec fn vk_of(k: Key) -> u16 {
    match k {
        Key::LeftCtrl => VK_LCONTROL,
        Key::RightCtrl => VK_RCONTROL,
        Key::LeftShift => VK_LSHIFT,
        Key::RightShift => VK_RSHIFT,
        Key::LeftAlt => VK_LMENU,
        Key::RightAlt => VK_RMENU,
        Key::LeftMeta => VK_LWIN,
        Key::RightMeta => VK_RWIN,
        Key::Space => VK_SPACE,
        Key::F1 => VK_F1,
        Key::F2 => (VK_F1 + 1) as u16,
        Key::F3 => (VK_F1 + 2) as u16,
        Key::F4 => (VK_F1 + 3) as u16,
        Key::F5 => (VK_F1 + 4) as u16,
        Key::F6 => (VK_F1 + 5) as u16,
        Key::F7 => (VK_F1 + 6) as u16,
        Key::F8 => (VK_F1 + 7) as u16,
        Key::F9 => (VK_F1 + 8) as u16,
        Key::F10 => (VK_F1 + 9) as u16,
        Key::F11 => (VK_F1 + 10) as u16,
        Key::F12 => (VK_F1 + 11) as u16,
        Key::V => 0x56,
        Key::Backspace => VK_BACK,
    }
}

/// Each key is found under its own (lowercase) name with its own
/// virtual-key code; backspace only where backspace is a name.
pub proof fn law_vk_key_names(k: Key, with_backspace: bool)
    requires
        k != Key::Backspace || with_backspace,
    ensures
        vk_code(key_name(k), with_backspace) == Some(vk_of(k)),
{
    reveal(vk_named);
    lemma_key_literals();
    match k {
        Key::LeftCtrl => {},
        Key::RightCtrl => {},
        Key::LeftShift => {},
        Key::RightShift => {},
        Key::LeftAlt => {},
        Key::RightAlt => {},
        Key::LeftMeta => {},
        Key::RightMeta => {},
        Key::Space => {},
        Key::F1 => {},
        Key::F2 => {},
        Key::F3 => {},
        Key::F4 => {},
        Key::F5 => {},
        Key::F6 => {},
        Key::F7 => {},
        Key::F8 => {},
        Key::F9 => {},
        Key::F10 => {
            assert("f10"@.len() == 3 && "f1"@.len() == 2);
        },
        Key::F11 => {
            assert("f11"@.len() == 3 && "f1"@.len() == 2);
        },
        Key::F12 => {
            assert("f12"@.len() == 3 && "f1"@.len() == 2);
        },
        Key::V => {},
        Key::Backspace => {},
    }
}

/// A parse result as plain values.
pub open spec fn code_result(r: Result<u16, UnsupportedKey>) -> Result<u16, Seq<char>> {
    match r {
        Ok(k) => Ok(k),
        Err(e) => Err(e.key@),
    }
}

/// A parse result as plain values.
pub open spec fn codes_result(r: Result<Vec<u16>, UnsupportedKey>) -> Result<Seq<u16>, Seq<char>> {
    match r {
        Ok(ks) => Ok(ks@),
        Err(e) => Err(e.key@),
    }
}

/// The code a lowercased name stands for, looked up.
fn lookup(n: &Vec<char>, with_backspace: bool) -> (k: Option<u16>)
    ensures
        k == vk_code(n@, with_backspace),
{
    reveal(vk_named);
    if chars_are(n, "ctrl") || chars_are(n, "control") {
        Some(VK_CONTROL)
    } else if chars_are(n, "leftctrl") {
        Some(VK_LCONTROL)
    } else if chars_are(n, "rightctrl") {
        Some(VK_RCONTROL)
    } else if chars_are(n, "shift") {
        Some(VK_SHIFT)
    } else if chars_are(n, "leftshift") {
        Some(VK_LSHIFT)
    } else if chars_are(n, "rightshift") {
        Some(VK_RSHIFT)
    } else if chars_are(n, "alt") {
        Some(VK_MENU)
    } else if chars_are(n, "leftalt") {
        Some(VK_LMENU)
    } else if chars_are(n, "rightalt") {
        Some(VK_RMENU)
    } else if chars_are(n, "meta") || chars_are(n, "super") || chars_are(n, "leftmeta") {
        Some(VK_LWIN)
    } else if chars_are(n, "rightmeta") {
        Some(VK_RWIN)
    } else if chars_are(n, "space") {
        Some(VK_SPACE)
    } else if with_backspace && (chars_are(n, "backspace") || chars_are(n, "back")) {
        Some(VK_BACK)
    } else if chars_are(n, "f1") {
        Some(VK_F1)
    } else if chars_are(n, "f2") {
        Some(VK_F1 + 1)
    } else if chars_are(n, "f3") {
        Some(VK_F1 + 2)
    } else if chars_are(n, "f4") {
        Some(VK_F1 + 3)
    } else if chars_are(n, "f5") {
        Some(VK_F1 + 4)
    } else if chars_are(n, "f6") {
        Some(VK_F1 + 5)
    } else if chars_are(n, "f7") {
        Some(VK_F1 + 6)
    } else if chars_are(n, "f8") {
        Some(VK_F1 + 7)
    } else if chars_are(n, "f9") {
        Some(VK_F1 + 8)
    } else if chars_are(n, "f10") {
        Some(VK_F1 + 9)
    } else if chars_are(n, "f11") {
        Some(VK_F1 + 10)
    } else if chars_are(n, "f12") {
        Some(VK_F1 + 11)
    } else if n.len() == 1 && (n[0] as u32) < 128 {
        let c = n[0];
        let b = c as u8;
        if 'a' <= c && c <= 'z' {
            Some((b - 32) as u16)
        } else {
            Some(b as u16)
        }
    } else {
        None
    }
}

/// Looks up one key name, compared case-insensitively.
pub fn parse_key(s: &str) -> (r: Result<u16, UnsupportedKey>)
    ensures
        code_result(r) == key_spec(s@),
{
    let v = crate::text::chars_of(s);
    let mut low: Vec<char> = Vec::new();
    let mut i: usize = 0;
    while i < v.len()
        invariant
            i <= v@.len(),
            v@ == s@,
            low@ == lower(v@.take(i as int)),
        decreases v@.len() - i,
    {
        let c = v[i];
        let l = if 'A' <= c && c <= 'Z' {
            ((c as u8) + 32) as char
        } else {
            c
        };
        low.push(l);
        i = i + 1;
        assert(low@ =~= lower(v@.take(i as int)));
    }
    assert(v@.take(v@.len() as int) =~= v@);
    match lookup(&low, true) {
        Some(k) => Ok(k),
        None => {
            let key = string_of_range(low.as_slice(), 0, low.len());
            assert(low@.subrange(0, low@.len() as int) =~= low@);
            Err(UnsupportedKey { key })
        },
    }
}

proof fn lemma_binding_err_sticks(parts: Seq<Seq<char>>, m: int, n: int)
    requires
        0 <= m <= n <= parts.len(),
        binding_parts(parts.take(m)) is Err,
    ensures
        binding_parts(parts.take(n)) == binding_parts(parts.take(m)),
    decreases n - m,
{
    if n > m {
        lemma_binding_err_sticks(parts, m, n - 1);
        assert(parts.take(n).drop_last() =~= parts.take(n - 1));
    }
}

proof fn lemma_chord_err_sticks(parts: Seq<Seq<char>>, m: int, n: int)
    requires
        0 <= m <= n <= parts.len(),
        chord_parts(parts.take(m)) is Err,
    ensures
        chord_parts(parts.take(n)) == chord_parts(parts.take(m)),
    decreases n - m,
{
    if n > m {
        lemma_chord_err_sticks(parts, m, n - 1);
        assert(parts.take(n).drop_last() =~= parts.take(n - 1));
    }
}

/// Parses a hotkey binding such as `Ctrl+Alt+Space` into the set of
/// virtual-key codes that must all be held. Parts are split on `+`, trimmed
/// and compared case-insensitively.
#[verifier::spinoff_prover]
#[verifier::rlimit(50)]
pub fn parse_binding(s: &str) -> (r: Result<Vec<u16>, UnsupportedKey>)
    ensures
        codes_result(r) == binding_parts(split_plus(s@)),
{
    let v = crate::text::chars_of(s);
    let ranges = split_ranges(&v);
    let ghost parts = split_plus(v@);
    let mut keys: Vec<u16> = Vec::new();
    let mut k: usize = 0;
    assert(parts.take(0) =~= Seq::<Seq<char>>::empty());
    while k < ranges.len()
        invariant
            parts == split_plus(v@),
            v@ == s@,
            ranges_hold(v@, ranges@, parts),
            k <= parts.len(),
            binding_parts(parts.take(k as int)) == Ok::<Seq<u16>, Seq<char>>(keys@),
        decreases parts.len() - k,
    {
        let (lo, hi) = ranges[k];
        assert(range_holds(v@, ranges@[k as int], parts[k as int]));
        let part = normalized_part(&v, lo, hi);
        proof {
            assert(parts.take(k + 1).drop_last() =~= parts.take(k as int));
            assert(parts.take(k + 1).last() == parts[k as int]);
        }
        match lookup(&part, false) {
            None => {
                let key = string_of_range(part.as_slice(), 0, part.len());
                proof {
                    assert(part@.subrange(0, part@.len() as int) =~= part@);
                    assert(binding_parts(parts.take(k + 1)) == Err::<Seq<u16>, Seq<char>>(part@));
                    lemma_binding_err_sticks(parts, k + 1, parts.len() as int);
                    assert(parts.take(parts.len() as int) =~= parts);
                }
                return Err(UnsupportedKey { key });
            },
            Some(code) => {
                let mut present = false;
                let mut q: usize = 0;
                while q < keys.len()
                    invariant
                        q <= keys@.len(),
                        present <==> (exists|j: int| 0 <= j < q && keys@[j] == code),
                    decreases keys@.len() - q,
                {
                    if keys[q] == code {
                        present = true;
                    }
                    q = q + 1;
                }
                let ghost before = keys@;
                if !present {
                    keys.push(code);
                    assert(!before.contains(code));
                    assert(binding_parts(parts.take(k + 1)) == Ok::<Seq<u16>, Seq<char>>(before.push(code)));
                } else {
                    assert(keys@.contains(code));
                    assert(binding_parts(parts.take(k + 1)) == Ok::<Seq<u16>, Seq<char>>(before));
                }
            },
        }
        k = k + 1;
    }
    assert(parts.take(parts.len() as int) =~= parts);
    Ok(keys)
}

/// Parses a paste shortcut such as `Ctrl+V` into the virtual-key codes to
/// tap, in order. Parts are split on `+`, trimmed and compared
/// case-insensitively.
#[verifier::spinoff_prover]
#[verifier::rlimit(50)]
pub fn paste_keys(s: &str) -> (r: Result<Vec<u16>, UnsupportedKey>)
    ensures
        codes_result(r) == chord_parts(split_plus(s@)),
{
    let v = crate::text::chars_of(s);
    let ranges = split_ranges(&v);
    let ghost parts = split_plus(v@);
    let mut keys: Vec<u16> = Vec::new();
    let mut k: usize = 0;
    assert(parts.take(0) =~= Seq::<Seq<char>>::empty());
    while k < ranges.len()
        invariant
            parts == split_plus(v@),
            v@ == s@,
            ranges_hold(v@, ranges@, parts),
            k <= parts.len(),
            chord_parts(parts.take(k as int)) == Ok::<Seq<u16>, Seq<char>>(keys@),
        decreases parts.len() - k,
    {
        let (lo, hi) = ranges[k];
        assert(range_holds(v@, ranges@[k as int], parts[k as int]));
        let part = normalized_part(&v, lo, hi);
        proof {
            assert(parts.take(k + 1).drop_last() =~= parts.take(k as int));
            assert(parts.take(k + 1).last() == parts[k as int]);
        }
        match lookup(&part, true) {
            None => {
                let key = string_of_range(part.as_slice(), 0, part.len());
                proof {
                    assert(part@.subrange(0, part@.len() as int) =~= part@);
                    assert(chord_parts(parts.take(k + 1)) == Err::<Seq<u16>, Seq<char>>(part@));
                    lemma_chord_err_sticks(parts, k + 1, parts.len() as int);
                    assert(parts.take(parts.len() as int) =~= parts);
                }
                return Err(UnsupportedKey { key });
            },
            Some(code) => {
                let ghost before = keys@;
                keys.push(code);
                assert(chord_parts(parts.take(k + 1)) == Ok::<Seq<u16>, Seq<char>>(before.push(code)));
            },
        }
        k = k + 1;
    }
    assert(parts.take(parts.len() as int) =~= parts);
    Ok(keys)
}

} // verus!
