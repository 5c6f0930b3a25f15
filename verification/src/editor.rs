//! What the editor and extraction requests say: system prompts, user
//! messages, endpoint URLs, and the text taken from a reply.
use vstd::prelude::*;
use vstd::string::*;
use crate::config::EditorPassConfig;
use crate::terms::{prompt_block, render_prompt_block, terms_model, TermDb};
use crate::text::{chars_of, join_all, join_with, string_of_range, strings_model, trim, trim_str};

verus! {

/// The light pass's system prompt when none is configured.
pub const DEFAULT_LIGHT_PROMPT: &'static str = "You polish recent dictation. Fix obvious ASR errors only (mis-heard words, capitalisation). Do not add or remove content. Reply with the corrected text for the last chunk and nothing else.";

/// The heavy pass's system prompt when none is configured.
pub const DEFAULT_HEAVY_PROMPT: &'static str = "You polish a dictated utterance. Fix mis-heard words, punctuation, and capitalisation. Preserve meaning and length. If the speaker mentions a phrase that sounds like one of the listed terms, prefer the listed spelling.";

/// The system prompt of term extraction.
pub const EXTRACT_SYSTEM_PROMPT: &'static str = "You are a glossary extractor for a dictation system.\n\nGiven a chunk of text (source code, docs, notes, etc.), identify domain-specific terms that a dictation speech-to-text system would otherwise mis-hear: tool names, library names, proper nouns, acronyms, technical jargon.\n\nFor each term, emit:\n- \"name\": the canonical spelling\n- \"aliases\": an array of common phonetic mis-hearings (be CONSERVATIVE; only include if you can think of a plausible mis-hearing \u{2014} empty array is fine)\n- \"hint\": a short context, max 80 characters (empty string is fine)\n\nOutput STRICT JSON only, no prose, no markdown fences. Schema:\n{\"terms\": [{\"name\": \"kubectl\", \"aliases\": [\"cube control\"], \"hint\": \"Kubernetes CLI\"}]}\n\nSkip common English words. Aim for 5-20 terms per chunk; quality over quantity. If the chunk has no domain terms, return {\"terms\": []}.";

/// The configured prompt, or `default` when none is configured.
pub open spec fn prompt_or_default(configured: Seq<char>, default: Seq<char>) -> Seq<char> {
    if configured.len() == 0 {
        default
    } else {
        configured
    }
}

/// The light pass's system prompt.
pub fn light_system_prompt(pass: &EditorPassConfig) -> (p: String)
    ensures
        p@ == prompt_or_default(pass.system_prompt@, DEFAULT_LIGHT_PROMPT@),
{
    if pass.system_prompt.as_str().is_empty() {
        DEFAULT_LIGHT_PROMPT.to_owned()
    } else {
        pass.system_prompt.clone()
    }
}

/// The light pass's user message: the recent chunks, oldest first, one per
/// line, between `---` rules, with the instruction to return only the last.
pub open spec fn light_user_message_spec(chunks: Seq<Seq<char>>) -> Seq<char> {
    "Recent chunks (oldest first):\n---\n"@ + join_with(chunks, seq!['\n'])
        + "\n---\nReturn only the corrected text for the LAST chunk."@
}

/// The light pass's user message.
pub fn light_user_message(recent_chunks: &Vec<String>) -> (m: String)
    ensures
        m@ == light_user_message_spec(strings_model(recent_chunks@)),
{
    let mut m = String::new();
    m.append("Recent chunks (oldest first):\n---\n");
    let body = join_all(recent_chunks, "\n");
    proof {
        reveal_strlit("\n");
        assert("\n"@ =~= seq!['\n']);
    }
    m.append(body.as_str());
    m.append("\n---\nReturn only the corrected text for the LAST chunk.");
    m
}

/// The heavy pass's system prompt: the configured (or default) prompt,
/// followed, when a non-empty term database is given, by the terms to
/// prefer.
pub open spec fn heavy_system_prompt_spec(configured: Seq<char>, terms: Option<Seq<crate::terms::TermModel>>) -> Seq<char> {
    let base = prompt_or_default(configured, DEFAULT_HEAVY_PROMPT@);
    match terms {
        Some(t) => if t.len() > 0 {
            base + "\n\nTerms to prefer:\n"@ + prompt_block(t)
        } else {
            base
        },
        None => base,
    }
}

/// The heavy pass's system prompt.
pub fn heavy_system_prompt(pass: &EditorPassConfig, terms: Option<&TermDb>) -> (p: String)
    ensures
        p@ == heavy_system_prompt_spec(pass.system_prompt@, match terms {
            Some(db) => Some(terms_model(db.entries@)),
            None => None,
        }),
{
    let mut p = if pass.system_prompt.as_str().is_empty() {
        DEFAULT_HEAVY_PROMPT.to_owned()
    } else {
        pass.system_prompt.clone()
    };
    if let Some(db) = terms {
        if db.entries.len() > 0 {
            p.append("\n\nTerms to prefer:\n");
            let block = render_prompt_block(db);
            p.append(block.as_str());
        }
    }
    p
}

/// `base` without trailing `/` characters, followed by `path`.
pub open spec fn endpoint_url_spec(base: Seq<char>, path: Seq<char>) -> Seq<char> {
    strip_trailing_slashes(base) + path
}

/// `s` without trailing `/` characters.
pub open spec fn strip_trailing_slashes(s: Seq<char>) -> Seq<char>
    decreases s.len(),
{
    if s.len() > 0 && s.last() == '/' {
        strip_trailing_slashes(s.drop_last())
    } else {
        s
    }
}

/// The URL of an endpoint under `base`, e.g. `{base}/chat/completions`.
pub fn endpoint_url(base: &str, path: &str) -> (u: String)
    ensures
        u@ == endpoint_url_spec(base@, path@),
{
    let v = chars_of(base);
    let mut e = v.len();
    assert(v@.take(v@.len() as int) =~= v@);
    while e > 0 && v[e - 1] == '/'
        invariant
            e <= v@.len(),
            strip_trailing_slashes(v@) == strip_trailing_slashes(v@.take(e as int)),
        decreases e,
    {
        assert(v@.take(e as int).drop_last() =~= v@.take(e - 1));
        e = e - 1;
    }
    assert(v@.take(v@.len() as int) =~= v@);
    let mut u = string_of_range(v.as_slice(), 0, e);
    assert(v@.subrange(0, e as int) =~= v@.take(e as int));
    u.append(path);
    u
}

/// The text of a completion reply: the first choice's content, trimmed, or
/// empty when there is no choice.
pub open spec fn reply_text_spec(contents: Seq<Seq<char>>) -> Seq<char> {
    if contents.len() > 0 {
        trim(contents[0])
    } else {
        Seq::empty()
    }
}

/// The text of a completion reply given its choices' contents.
pub fn reply_text(contents: &Vec<String>) -> (t: String)
    ensures
        t@ == reply_text_spec(strings_model(contents@)),
{
    if contents.len() > 0 {
        trim_str(contents[0].as_str())
    } else {
        String::new()
    }
}

/// The user message of a term-extraction request.
pub open spec fn extract_user_message_spec(source_hint: Seq<char>, chunk: Seq<char>) -> Seq<char> {
    "Source: "@ + source_hint + "\n\nText:\n---\n"@ + chunk + "\n---"@
}

/// The user message of a term-extraction request for `chunk`, labelled with
/// `source_hint` (e.g. file path and chunk index).
pub fn extract_user_message(chunk: &str, source_hint: &str) -> (m: String)
    ensures
        m@ == extract_user_message_spec(source_hint@, chunk@),
{
    let mut m = String::new();
    m.append("Source: ");
    m.append(source_hint);
    m.append("\n\nText:\n---\n");
    m.append(chunk);
    m.append("\n---");
    m
}

} // verus!
