//! Configuration records and `${NAME}` interpolation.
use vstd::prelude::*;
use vstd::string::*;
use crate::text::{
    char_utf8_len, chars_of, lemma_utf8_len_range_le, lemma_utf8_len_single, lemma_utf8_len_split,
    push_char, push_decimal, string_of_range, utf8_len, decimal,
};

verus! {

/// Which voice-activity detector to run.
#[derive(Debug, Clone, Copy, PartialEq, Eq)]
pub enum VadBackend {
    Silero,
    Webrtc,
}

/// The push-to-talk binding, e.g. `RightCtrl` or `Ctrl+Alt+Space`.
#[derive(Debug, Clone)]
pub struct HotkeyConfig {
    pub binding: String,
}

/// Input device (empty = system default) and sample rate.
#[derive(Debug, Clone)]
pub struct AudioConfig {
    pub device: String,
    pub sample_rate: u32,
}

/// Voice-activity detection settings.
#[derive(Debug, Clone)]
pub struct VadConfig {
    pub backend: VadBackend,
    pub min_silence_ms: u32,
    pub max_chunk_ms: u32,
}

/// Speech-recognition endpoint.
#[derive(Debug, Clone)]
pub struct AsrConfig {
    pub base_url: String,
    pub api_key: String,
    pub model: String,
    pub language: String,
    pub timeout_ms: u64,
}

/// One editor pass (light or heavy).
#[derive(Debug, Clone)]
pub struct EditorPassConfig {
    pub enabled: bool,
    pub context_chunks: u32,
    pub system_prompt: String,
}

/// Term database location.
#[derive(Debug, Clone)]
pub struct TermsConfig {
    pub enabled: bool,
    pub path: String,
}

/// How text reaches the focused application.
#[derive(Debug, Clone)]
pub struct InjectionConfig {
    pub mode: String,
    pub paste_shortcut: String,
    pub restore_delay_ms: u64,
}

/// Why `${NAME}` interpolation failed.
#[derive(Debug, Clone, PartialEq, Eq)]
pub enum InterpolateError {
    /// A `${` without a closing `}`; the position is the byte offset of `$`.
    Unclosed { at_byte: usize },
    /// The named variable is not set.
    NotSet { name: String },
}

/// An interpolation failure as plain values.
pub enum InterpolateErrorModel {
    Unclosed(nat),
    NotSet(Seq<char>),
}

impl View for InterpolateError {
    type V = InterpolateErrorModel;

    open spec fn view(&self) -> InterpolateErrorModel {
        match self {
            InterpolateError::Unclosed { at_byte } => InterpolateErrorModel::Unclosed(*at_byte as nat),
            InterpolateError::NotSet { name } => InterpolateErrorModel::NotSet(name@),
        }
    }
}

/// An environment as (name, value) pairs.
pub open spec fn env_model(env: Seq<(String, String)>) -> Seq<(Seq<char>, Seq<char>)> {
    env.map_values(|p: (String, String)| (p.0@, p.1@))
}

/// The value of the first variable called `name`.
pub open spec fn env_lookup(env: Seq<(Seq<char>, Seq<char>)>, name: Seq<char>) -> Option<Seq<char>>
    decreases env.len(),
{
    if env.len() == 0 {
        None
    } else if env[0].0 == name {
        Some(env[0].1)
    } else {
        env_lookup(env.drop_first(), name)
    }
}

/// Index of the first `}` at or after `i`, or -1.
pub open spec fn close_brace(s: Seq<char>, i: int) -> int
    decreases s.len() - i,
{
    if i < 0 || i >= s.len() {
        -1
    } else if s[i] == '}' {
        i
    } else {
        close_brace(s, i + 1)
    }
}

/// The first closing brace at or after `i`, if any, and none before it.
pub proof fn lemma_close_brace(s: Seq<char>, i: int)
    requires
        0 <= i,
    ensures
        close_brace(s, i) == -1 || (i <= close_brace(s, i) < s.len() && s[close_brace(s, i)] == '}'),
        forall|k: int| i <= k < s.len() && (close_brace(s, i) == -1 || k < close_brace(s, i)) ==> s[k] != '}',
    decreases s.len() - i,
{
    if i < s.len() && s[i] != '}' {
        lemma_close_brace(s, i + 1);
    }
}

/// `p` followed by the text of `r`, or `r`'s error.
pub open spec fn prepend(p: Seq<char>, r: Result<Seq<char>, InterpolateErrorModel>) -> Result<Seq<char>, InterpolateErrorModel> {
    match r {
        Ok(x) => Ok(p + x),
        Err(e) => Err(e),
    }
}

/// Interpolation of `s` from position `i`: `\$` stands for `$`, `${NAME}`
/// for the value of `NAME`, everything else for itself.
pub open spec fn interp_from(s: Seq<char>, i: int, env: Seq<(Seq<char>, Seq<char>)>) -> Result<Seq<char>, InterpolateErrorModel>
    decreases s.len() - i,
{
    if i < 0 || i >= s.len() {
        Ok(Seq::empty())
    } else if s[i] == '\\' && i + 1 < s.len() && s[i + 1] == '$' {
        prepend(seq!['$'], interp_from(s, i + 2, env))
    } else if s[i] == '$' && i + 1 < s.len() && s[i + 1] == '{' {
        let j = close_brace(s, i + 2);
        if j < 0 {
            Err(InterpolateErrorModel::Unclosed(utf8_len(s.take(i))))
        } else {
            let name = s.subrange(i + 2, j);
            match env_lookup(env, name) {
                None => Err(InterpolateErrorModel::NotSet(name)),
                Some(v) => {
                    proof {
                        lemma_close_brace(s, i + 2);
                    }
                    prepend(v, interp_from(s, j + 1, env))
                },
            }
        }
    } else {
        prepend(seq![s[i]], interp_from(s, i + 1, env))
    }
}

/// Interpolation of all of `s`.
pub open spec fn interpolate_spec(s: Seq<char>, env: Seq<(Seq<char>, Seq<char>)>) -> Result<Seq<char>, InterpolateErrorModel> {
    interp_from(s, 0, env)
}

/// A result as plain values.
pub open spec fn result_model(r: Result<String, InterpolateError>) -> Result<Seq<char>, InterpolateErrorModel> {
    match r {
        Ok(x) => Ok(x@),
        Err(e) => Err(e@),
    }
}

proof fn lemma_prepend_assoc(a: Seq<char>, b: Seq<char>, r: Result<Seq<char>, InterpolateErrorModel>)
    ensures
        prepend(a, prepend(b, r)) == prepend(a + b, r),
{
    match r {
        Ok(x) => {
            assert(a + (b + x) =~= (a + b) + x);
        },
        Err(_) => {},
    }
}

/// The value of the first variable in `env` called `name`.
fn lookup(env: &Vec<(String, String)>, name: &String) -> (r: Option<String>)
    ensures
        match r {
            Some(v) => env_lookup(env_model(env@), name@) == Some(v@),
            None => env_lookup(env_model(env@), name@) is None,
        },
{
    let ghost em = env_model(env@);
    let mut k: usize = 0;
    assert(em.skip(0) =~= em);
    while k < env.len()
        invariant
            k <= env@.len(),
            em == env_model(env@),
            env_lookup(em, name@) == env_lookup(em.skip(k as int), name@),
        decreases env@.len() - k,
    {
        assert(em.skip(k as int)[0] == (env@[k as int].0@, env@[k as int].1@));
        assert(em.skip(k as int).drop_first() =~= em.skip(k + 1));
        if env[k].0 == *name {
            return Some(env[k].1.clone());
        }
        k = k + 1;
    }
    None
}

/// Replaces `${NAME}` with the value of `NAME` in `env`; `\$` is an escape
/// for a literal `$`. A `${` without a closing `}` and a variable missing
/// from `env` are errors.
pub fn interpolate_env(s: &str, env: &Vec<(String, String)>) -> (r: Result<String, InterpolateError>)
    ensures
        result_model(r) == interpolate_spec(s@, env_model(env@)),
{
    let v = chars_of(s);
    let len = v.len();
    let total = s.as_bytes().len();
    let ghost sv = v@;
    let ghost em = env_model(env@);
    let mut out = String::new();
    let mut i: usize = 0;
    let mut byte_pos: usize = 0;
    proof {
        assert(out@ + Seq::<char>::empty() =~= out@);
        assert(sv.take(0) =~= sv.subrange(0, 0));
    }
    while i < len
        invariant
            len == sv.len(),
            v@ == sv,
            sv == s@,
            em == env_model(env@),
            total == utf8_len(sv),
            i <= len,
            byte_pos == utf8_len(sv.subrange(0, i as int)),
            interpolate_spec(sv, em) == prepend(out@, interp_from(sv, i as int, em)),
        decreases len - i,
    {
        let c = v[i];
        if c == '\\' && i + 1 < len && v[i + 1] == '$' {
            let ghost before = out@;
            push_char(&mut out, '$');
            assert(out@ =~= before + seq!['$']);
            proof {
                assert(interp_from(sv, i as int, em) == prepend(seq!['$'], interp_from(sv, i + 2, em)));
                lemma_prepend_assoc(before, seq!['$'], interp_from(sv, i + 2, em));
                lemma_utf8_len_split(sv, 0, i as int, i + 2);
                lemma_utf8_len_range_le(sv, 0, i + 2);
                lemma_utf8_len_split(sv, i as int, i + 1, i + 2);
                assert(sv.subrange(i as int, i + 1) =~= seq![sv[i as int]]);
                assert(sv.subrange(i + 1, i + 2) =~= seq![sv[i + 1]]);
                lemma_utf8_len_single(sv[i as int]);
                lemma_utf8_len_single(sv[i + 1]);
            }
            byte_pos = byte_pos + 2;
            assert(interpolate_spec(sv, em) == prepend(out@, interp_from(sv, i + 2, em)));
            i = i + 2;
        } else if c == '$' && i + 1 < len && v[i + 1] == '{' {
            let mut j = i + 2;
            while j < len && v[j] != '}'
                invariant
                    len == sv.len(),
                    v@ == sv,
                    i + 2 <= j <= len,
                    close_brace(sv, i + 2) == close_brace(sv, j as int),
                decreases len - j,
            {
                j = j + 1;
            }
            if j >= len {
                proof {
                    assert(close_brace(sv, j as int) == -1);
                    assert(interp_from(sv, i as int, em) == Err::<Seq<char>, InterpolateErrorModel>(InterpolateErrorModel::Unclosed(utf8_len(sv.take(i as int)))));
                    assert(sv.take(i as int) =~= sv.subrange(0, i as int));
                }
                return Err(InterpolateError::Unclosed { at_byte: byte_pos });
            }
            let name = string_of_range(v.as_slice(), i + 2, j);
            match lookup(env, &name) {
                None => {
                    assert(close_brace(sv, j as int) == j);
                    return Err(InterpolateError::NotSet { name });
                },
                Some(val) => {
                    let mut k = i;
                    while k < j
                        invariant
                            len == sv.len(),
                            v@ == sv,
                            total == utf8_len(sv),
                            i <= k <= j < len,
                            byte_pos == utf8_len(sv.subrange(0, k as int)),
                        decreases j - k,
                    {
                        proof {
                            lemma_utf8_len_split(sv, 0, k as int, k + 1);
                            lemma_utf8_len_range_le(sv, 0, k + 1);
                            assert(sv.subrange(k as int, k + 1) =~= seq![sv[k as int]]);
                            lemma_utf8_len_single(sv[k as int]);
                        }
                        byte_pos = byte_pos + char_utf8_len(v[k]);
                        k = k + 1;
                    }
                    let ghost before = out@;
                    out.append(val.as_str());
                    proof {
                        lemma_close_brace(sv, i + 2);
                        assert(close_brace(sv, j as int) == j);
                        assert(interp_from(sv, i as int, em) == prepend(val@, interp_from(sv, j + 1, em)));
                        lemma_prepend_assoc(before, val@, interp_from(sv, j + 1, em));
                        lemma_utf8_len_split(sv, 0, i as int, j + 1);
                        lemma_utf8_len_range_le(sv, 0, j + 1);
                        lemma_utf8_len_split(sv, i as int, j as int, j + 1);
                        assert(sv.subrange(j as int, j + 1) =~= seq![sv[j as int]]);
                        lemma_utf8_len_single(sv[j as int]);
                    }
                    proof {
                        lemma_utf8_len_split(sv, 0, j as int, j + 1);
                        lemma_utf8_len_range_le(sv, 0, j + 1);
                        assert(sv.subrange(j as int, j + 1) =~= seq![sv[j as int]]);
                        lemma_utf8_len_single(sv[j as int]);
                    }
                    byte_pos = byte_pos + 1;
                    assert(interpolate_spec(sv, em) == prepend(out@, interp_from(sv, j + 1, em)));
                    i = j + 1;
                },
            }
        } else {
            let ghost before = out@;
            push_char(&mut out, c);
            assert(out@ =~= before + seq![c]);
            proof {
                assert(interp_from(sv, i as int, em) == prepend(seq![c], interp_from(sv, i + 1, em)));
                lemma_prepend_assoc(before, seq![c], interp_from(sv, i + 1, em));
                lemma_utf8_len_split(sv, 0, i as int, i + 1);
                lemma_utf8_len_range_le(sv, 0, i + 1);
                assert(sv.subrange(i as int, i + 1) =~= seq![sv[i as int]]);
                lemma_utf8_len_single(sv[i as int]);
            }
            byte_pos = byte_pos + char_utf8_len(c);
            assert(interpolate_spec(sv, em) == prepend(out@, interp_from(sv, i + 1, em)));
            i = i + 1;
        }
    }
    assert(out@ + Seq::<char>::empty() =~= out@);
    Ok(out)
}

/// The message for an interpolation failure.
pub open spec fn error_message(e: InterpolateErrorModel) -> Seq<char> {
    match e {
        InterpolateErrorModel::Unclosed(at) => "unclosed ${ at byte "@ + decimal(at),
        InterpolateErrorModel::NotSet(name) => "env var ${"@ + name + "} not set"@,
    }
}

impl InterpolateError {
    /// A human-readable description: `unclosed ${ at byte N` or
    /// `env var ${NAME} not set`.
    pub fn message(&self) -> (m: String)
        ensures
            m@ == error_message(self@),
    {
        let mut m = String::new();
        match self {
            InterpolateError::Unclosed { at_byte } => {
                m.append("unclosed ${ at byte ");
                push_decimal(&mut m, *at_byte);
            },
            InterpolateError::NotSet { name } => {
                m.append("env var ${");
                m.append(name.as_str());
                m.append("} not set");
            },
        }
        m
    }
}

/// Text without any `$` comes through interpolation unchanged.
pub proof fn law_plain_text_unchanged(s: Seq<char>, env: Seq<(Seq<char>, Seq<char>)>)
    requires
        !s.contains('$'),
    ensures
        interpolate_spec(s, env) == Ok::<Seq<char>, InterpolateErrorModel>(s),
{
    lemma_plain_from(s, 0, env);
    assert(s.skip(0) =~= s);
}

proof fn lemma_plain_from(s: Seq<char>, i: int, env: Seq<(Seq<char>, Seq<char>)>)
    requires
        !s.contains('$'),
        0 <= i <= s.len(),
    ensures
        interp_from(s, i, env) == Ok::<Seq<char>, InterpolateErrorModel>(s.skip(i)),
    decreases s.len() - i,
{
    if i < s.len() {
        lemma_plain_from(s, i + 1, env);
        if i + 1 < s.len() {
            assert(s[i + 1] != '$');
        }
        assert(s[i] != '$');
        assert(seq![s[i]] + s.skip(i + 1) =~= s.skip(i));
    } else {
        assert(s.skip(i) =~= Seq::<char>::empty());
    }
}

} // verus!
