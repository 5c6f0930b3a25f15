//! Term-database extraction: cutting text into request-sized chunks,
//! cleaning model replies, and merging the extracted terms.
use vstd::prelude::*;
use crate::text::{
    chars_of, char_utf8_len, lemma_utf8_len_range_le, lemma_utf8_len_single, lemma_utf8_len_split,
    string_of_range, strings_model, utf8_len, trim, trim_end, trim_range, is_whitespace,
    lemma_trim_idempotent, lemma_trim_end_shape,
};
use crate::terms::{clone_term, Term, TermDb, TermModel, terms_model};
use crate::text::{clone_strings, contains_string};
use vstd::multiset::Multiset;

verus! {

/// Default chunk size for extraction requests, in bytes.
pub const DEFAULT_CHUNK_BYTES: usize = 8192;

/// Length of the first line of `rest`, including its `\n` if it has one.
pub open spec fn line_len(rest: Seq<char>) -> nat
    decreases rest.len(),
{
    if rest.len() == 0 {
        0
    } else if rest[0] == '\n' {
        1
    } else {
        1 + line_len(rest.drop_first())
    }
}

/// A non-empty sequence has a first line of at least one character.
pub proof fn lemma_line_len_bounds(rest: Seq<char>)
    ensures
        line_len(rest) <= rest.len(),
        rest.len() > 0 ==> line_len(rest) >= 1,
    decreases rest.len(),
{
    if rest.len() > 0 && rest[0] != '\n' {
        lemma_line_len_bounds(rest.drop_first());
    }
}

/// If the first `k` characters hold no newline and position `k` is the end
/// or a newline, the first line ends there.
pub proof fn lemma_line_len_at(rest: Seq<char>, k: int)
    requires
        0 <= k <= rest.len(),
        forall|i: int| 0 <= i < k ==> rest[i] != '\n',
        k == rest.len() || rest[k] == '\n',
    ensures
        line_len(rest) == if k < rest.len() { k + 1 } else { k },
    decreases k,
{
    if k > 0 {
        assert forall|i: int| 0 <= i < k - 1 implies rest.drop_first()[i] != '\n' by {
            assert(rest.drop_first()[i] == rest[i + 1]);
        }
        if k < rest.len() {
            assert(rest.drop_first()[k - 1] == rest[k]);
        }
        lemma_line_len_at(rest.drop_first(), k - 1);
    }
}

/// `out` with `buf` appended as a chunk when it is non-empty.
pub open spec fn flush(out: Seq<Seq<char>>, buf: Seq<char>) -> Seq<Seq<char>> {
    if buf.len() > 0 {
        out.push(buf)
    } else {
        out
    }
}

/// Takes one line into the chunking state (finished chunks, open chunk):
/// a line longer than the cap becomes a chunk of its own (after flushing the
/// open chunk); a line that does not fit after a non-empty open chunk
/// flushes it and opens a new one; otherwise the line joins the open chunk.
pub open spec fn chunk_step(out: Seq<Seq<char>>, buf: Seq<char>, line: Seq<char>, max: nat) -> (Seq<Seq<char>>, Seq<char>) {
    if utf8_len(line) > max {
        (flush(out, buf).push(line), Seq::empty())
    } else if buf.len() > 0 && utf8_len(buf) + utf8_len(line) > max {
        (out.push(buf), line)
    } else {
        (out, buf + line)
    }
}

/// The chunks produced from the remaining text `rest`, given the state.
pub open spec fn chunks_from(rest: Seq<char>, max: nat, out: Seq<Seq<char>>, buf: Seq<char>) -> Seq<Seq<char>>
    decreases rest.len(),
{
    if rest.len() == 0 {
        flush(out, buf)
    } else {
        let n = line_len(rest) as int;
        proof {
            lemma_line_len_bounds(rest);
        }
        let (out2, buf2) = chunk_step(out, buf, rest.take(n), max);
        chunks_from(rest.skip(n), max, out2, buf2)
    }
}

/// The chunks of `text` with a cap of `max` bytes.
pub open spec fn chunks_spec(text: Seq<char>, max: nat) -> Seq<Seq<char>> {
    chunks_from(text, max, Seq::empty(), Seq::empty())
}

/// Splits `text` into windows of at most `max_bytes` bytes on line
/// boundaries. A single line longer than the cap is emitted whole, as its
/// own chunk; text is never split inside a line.
pub fn chunk(text: &str, max_bytes: usize) -> (out: Vec<String>)
    ensures
        strings_model(out@) == chunks_spec(text@, max_bytes as nat),
{
    let chars = chars_of(text);
    let total = text.as_bytes().len();
    let len = chars.len();
    let ghost t = chars@;
    let ghost m = max_bytes as nat;
    let mut out: Vec<String> = Vec::new();
    let mut buf_start: usize = 0;
    let mut buf_bytes: usize = 0;
    let mut pos: usize = 0;
    proof {
        assert(t.skip(0) =~= t);
        assert(t.subrange(0, 0) =~= Seq::<char>::empty());
        assert(strings_model(out@) =~= Seq::<Seq<char>>::empty());
    }
    while pos < len
        invariant
            len == t.len(),
            chars@ == t,
            t == text@,
            total == utf8_len(t),
            m == max_bytes as nat,
            buf_start <= pos <= len,
            buf_bytes == utf8_len(t.subrange(buf_start as int, pos as int)),
            buf_bytes <= max_bytes || buf_start == pos,
            chunks_spec(t, m) == chunks_from(
                t.skip(pos as int),
                m,
                strings_model(out@),
                t.subrange(buf_start as int, pos as int),
            ),
        decreases len - pos,
    {
        let mut j = pos;
        let mut line_bytes: usize = 0;
        while j < len && chars[j] != '\n'
            invariant
                len == t.len(),
                chars@ == t,
                total == utf8_len(t),
                pos <= j <= len,
                line_bytes == utf8_len(t.subrange(pos as int, j as int)),
                forall|i: int| pos <= i < j ==> t[i] != '\n',
            decreases len - j,
        {
            proof {
                lemma_utf8_len_split(t, pos as int, j as int, j + 1);
                lemma_utf8_len_range_le(t, pos as int, j + 1);
                assert(t.subrange(j as int, j + 1) =~= seq![t[j as int]]);
                lemma_utf8_len_single(t[j as int]);
            }
            line_bytes = line_bytes + char_utf8_len(chars[j]);
            j = j + 1;
        }
        let end = if j < len {
            proof {
                lemma_utf8_len_split(t, pos as int, j as int, j + 1);
                lemma_utf8_len_range_le(t, pos as int, j + 1);
                assert(t.subrange(j as int, j + 1) =~= seq![t[j as int]]);
                lemma_utf8_len_single(t[j as int]);
            }
            line_bytes = line_bytes + 1;
            j + 1
        } else {
            j
        };
        let ghost rest = t.skip(pos as int);
        let ghost line = t.subrange(pos as int, end as int);
        let ghost buf = t.subrange(buf_start as int, pos as int);
        proof {
            assert forall|i: int| 0 <= i < j - pos implies rest[i] != '\n' by {
                assert(rest[i] == t[pos + i]);
            }
            if j < len {
                assert(rest[j - pos] == t[j as int]);
            }
            lemma_line_len_at(rest, j - pos);
            assert(rest.take(end - pos) =~= line);
            assert(rest.skip(end - pos) =~= t.skip(end as int));
            lemma_line_len_bounds(rest);
            lemma_utf8_len_split(t, buf_start as int, pos as int, end as int);
            lemma_utf8_len_range_le(t, buf_start as int, end as int);
        }
        let ghost before = strings_model(out@);
        if line_bytes > max_bytes {
            if buf_start < pos {
                let s = string_of_range(chars.as_slice(), buf_start, pos);
                out.push(s);
            }
            let s = string_of_range(chars.as_slice(), pos, end);
            out.push(s);
            proof {
                assert(strings_model(out@) =~= flush(before, buf).push(line));
                assert(t.subrange(end as int, end as int) =~= Seq::<char>::empty());
            }
            buf_start = end;
            buf_bytes = 0;
        } else if buf_start < pos && buf_bytes + line_bytes > max_bytes {
            let s = string_of_range(chars.as_slice(), buf_start, pos);
            out.push(s);
            proof {
                assert(strings_model(out@) =~= before.push(buf));
            }
            buf_start = pos;
            buf_bytes = line_bytes;
        } else {
            proof {
                lemma_utf8_len_split(t, buf_start as int, pos as int, end as int);
                lemma_utf8_len_range_le(t, buf_start as int, end as int);
                assert(buf + line =~= t.subrange(buf_start as int, end as int));
                if buf_start == pos {
                    assert(buf =~= Seq::<char>::empty());
                }
            }
            buf_bytes = buf_bytes + line_bytes;
        }
        pos = end;
    }
    let ghost before = strings_model(out@);
    if buf_start < pos {
        let s = string_of_range(chars.as_slice(), buf_start, pos);
        out.push(s);
        assert(strings_model(out@) =~= before.push(t.subrange(buf_start as int, pos as int)));
    }
    assert(t.skip(pos as int) =~= Seq::<char>::empty());
    out
}

/// The first line of `rest` is itself a single line.
pub proof fn lemma_first_line_is_line(rest: Seq<char>)
    ensures
        line_len(rest.take(line_len(rest) as int)) == line_len(rest),
    decreases rest.len(),
{
    lemma_line_len_bounds(rest);
    let n = line_len(rest) as int;
    if rest.len() == 0 {
    } else if rest[0] == '\n' {
    } else {
        let t = rest.take(n);
        lemma_first_line_is_line(rest.drop_first());
        assert(t.drop_first() =~= rest.drop_first().take(n - 1));
    }
}

/// The first line ends with a newline unless it runs to the end of `rest`.
pub proof fn lemma_first_line_ends(rest: Seq<char>)
    requires
        rest.len() > 0,
    ensures
        line_len(rest) < rest.len() ==> rest[line_len(rest) - 1] == '\n',
    decreases rest.len(),
{
    lemma_line_len_bounds(rest);
    if rest[0] != '\n' && rest.len() > 1 {
        lemma_first_line_ends(rest.drop_first());
        lemma_line_len_bounds(rest.drop_first());
    }
}

/// `c` is non-empty and ends with a newline.
pub open spec fn ends_with_newline(c: Seq<char>) -> bool {
    c.len() > 0 && c.last() == '\n'
}

/// Chunks are whole: non-empty, and within the cap unless they are a single
/// line that alone exceeds it.
pub open spec fn chunk_ok(c: Seq<char>, max: nat) -> bool {
    c.len() > 0 && (utf8_len(c) <= max || line_len(c) == c.len())
}

proof fn lemma_flatten_flush(out: Seq<Seq<char>>, buf: Seq<char>)
    ensures
        flush(out, buf).flatten() == out.flatten() + buf,
{
    broadcast use Seq::lemma_flatten_push;
    if buf.len() == 0 {
        assert(out.flatten() + buf =~= out.flatten());
    }
}

proof fn lemma_chunks_from_concat(rest: Seq<char>, max: nat, out: Seq<Seq<char>>, buf: Seq<char>)
    ensures
        chunks_from(rest, max, out, buf).flatten() == out.flatten() + buf + rest,
    decreases rest.len(),
{
    broadcast use Seq::lemma_flatten_push;
    if rest.len() == 0 {
        lemma_flatten_flush(out, buf);
        assert(out.flatten() + buf + rest =~= out.flatten() + buf);
    } else {
        lemma_line_len_bounds(rest);
        let n = line_len(rest) as int;
        let line = rest.take(n);
        let (out2, buf2) = chunk_step(out, buf, line, max);
        lemma_chunks_from_concat(rest.skip(n), max, out2, buf2);
        lemma_flatten_flush(out, buf);
        assert(rest =~= line + rest.skip(n));
        if utf8_len(line) > max {
            assert(out2.flatten() == flush(out, buf).flatten() + line);
            assert(out2.flatten() + buf2 + rest.skip(n) =~= out.flatten() + buf + rest);
        } else if buf.len() > 0 && utf8_len(buf) + utf8_len(line) > max {
            assert(out2.flatten() + buf2 + rest.skip(n) =~= out.flatten() + buf + rest);
        } else {
            assert(out2.flatten() + buf2 + rest.skip(n) =~= out.flatten() + buf + rest);
        }
    }
}

proof fn lemma_chunks_from_ok(rest: Seq<char>, max: nat, out: Seq<Seq<char>>, buf: Seq<char>)
    requires
        forall|i: int| 0 <= i < out.len() ==> chunk_ok(#[trigger] out[i], max),
        utf8_len(buf) <= max,
    ensures
        forall|i: int|
            0 <= i < chunks_from(rest, max, out, buf).len() ==> chunk_ok(
                #[trigger] chunks_from(rest, max, out, buf)[i],
                max,
            ),
    decreases rest.len(),
{
    if rest.len() == 0 {
        let c = flush(out, buf);
        assert(chunks_from(rest, max, out, buf) == c);
        assert forall|i: int| 0 <= i < c.len() implies chunk_ok(#[trigger] c[i], max) by {
            if i < out.len() {
                assert(c[i] == out[i]);
            }
        }
    } else {
        lemma_line_len_bounds(rest);
        let n = line_len(rest) as int;
        let line = rest.take(n);
        lemma_first_line_is_line(rest);
        let (out2, buf2) = chunk_step(out, buf, line, max);
        if utf8_len(line) > max {
            assert(utf8_len(buf2) == 0) by {
                assert(buf2 =~= Seq::<char>::empty());
            }
        } else if buf.len() > 0 && utf8_len(buf) + utf8_len(line) > max {
        } else {
            lemma_encode_utf8_len_concat(buf, line);
        }
        assert forall|i: int| 0 <= i < out2.len() implies chunk_ok(#[trigger] out2[i], max) by {
            if i < out.len() {
                assert(out2[i] == out[i]);
            }
        }
        lemma_chunks_from_ok(rest.skip(n), max, out2, buf2);
        assert(chunks_from(rest, max, out, buf) == chunks_from(rest.skip(n), max, out2, buf2));
    }
}

proof fn lemma_encode_utf8_len_concat(a: Seq<char>, b: Seq<char>)
    ensures
        utf8_len(a + b) == utf8_len(a) + utf8_len(b),
{
    crate::text::lemma_encode_utf8_concat(a, b);
}

/// Text is never split inside a line while more text follows.
pub open spec fn whole_lines(rest: Seq<char>, out: Seq<Seq<char>>, buf: Seq<char>) -> bool {
    &&& forall|i: int|
        0 <= i < out.len() ==> ends_with_newline(#[trigger] out[i]) || (i == out.len() - 1
            && rest.len() == 0 && buf.len() == 0)
    &&& (rest.len() > 0 ==> buf.len() == 0 || ends_with_newline(buf))
}

proof fn lemma_chunks_from_whole_lines(rest: Seq<char>, max: nat, out: Seq<Seq<char>>, buf: Seq<char>)
    requires
        whole_lines(rest, out, buf),
    ensures
        forall|i: int|
            0 <= i < chunks_from(rest, max, out, buf).len() - 1 ==> ends_with_newline(
                #[trigger] chunks_from(rest, max, out, buf)[i],
            ),
    decreases rest.len(),
{
    if rest.len() == 0 {
        let c = flush(out, buf);
        assert(chunks_from(rest, max, out, buf) == c);
        assert forall|i: int| 0 <= i < c.len() - 1 implies ends_with_newline(#[trigger] c[i]) by {
            assert(c[i] == out[i]);
        }
    } else {
        lemma_line_len_bounds(rest);
        lemma_first_line_ends(rest);
        let n = line_len(rest) as int;
        let line = rest.take(n);
        let rest2 = rest.skip(n);
        assert(rest2.len() > 0 ==> ends_with_newline(line)) by {
            if rest2.len() > 0 {
                assert(line.last() == rest[n - 1]);
            }
        }
        let (out2, buf2) = chunk_step(out, buf, line, max);
        if buf.len() > 0 {
            assert(ends_with_newline(buf));
        }
        if utf8_len(line) > max {
        } else if buf.len() > 0 && utf8_len(buf) + utf8_len(line) > max {
        } else {
            if rest2.len() > 0 {
                assert((buf + line).last() == line.last());
            }
        }
        assert forall|i: int|
            0 <= i < out2.len() implies ends_with_newline(#[trigger] out2[i]) || (i == out2.len()
                - 1 && rest2.len() == 0 && buf2.len() == 0) by {
            if i < out.len() {
                assert(out2[i] == out[i]);
            }
        }
        lemma_chunks_from_whole_lines(rest2, max, out2, buf2);
        assert(chunks_from(rest, max, out, buf) == chunks_from(rest2, max, out2, buf2));
    }
}

/// Concatenating the chunks gives back the text.
pub proof fn law_chunks_concat(text: Seq<char>, max: nat)
    ensures
        chunks_spec(text, max).flatten() == text,
{
    lemma_chunks_from_concat(text, max, Seq::empty(), Seq::empty());
    assert(Seq::<Seq<char>>::empty().flatten() + Seq::<char>::empty() + text =~= text);
}

/// Every chunk is non-empty and within the cap, except a chunk that is a
/// single over-long line.
pub proof fn law_chunks_within_cap(text: Seq<char>, max: nat)
    ensures
        forall|i: int| 0 <= i < chunks_spec(text, max).len() ==> chunk_ok(
            #[trigger] chunks_spec(text, max)[i],
            max,
        ),
{
    assert(utf8_len(Seq::<char>::empty()) == 0);
    lemma_chunks_from_ok(text, max, Seq::empty(), Seq::empty());
}

/// Every chunk but the last ends with a newline: lines are never split.
pub proof fn law_chunks_split_on_lines(text: Seq<char>, max: nat)
    ensures
        forall|i: int| 0 <= i < chunks_spec(text, max).len() - 1 ==> ends_with_newline(
            #[trigger] chunks_spec(text, max)[i],
        ),
{
    lemma_chunks_from_whole_lines(text, max, Seq::empty(), Seq::empty());
}

/// The first line of `c`, with its `\n` if it has one.
pub open spec fn first_line(c: Seq<char>) -> Seq<char> {
    c.take(line_len(c) as int)
}

/// `b`'s first line would not have fitted into `a`: together they exceed
/// the cap.
pub open spec fn next_line_overflows(a: Seq<char>, b: Seq<char>, max: nat) -> bool {
    utf8_len(a) + utf8_len(first_line(b)) > max
}

proof fn lemma_first_line_append(b: Seq<char>, x: Seq<char>)
    requires
        ends_with_newline(b),
    ensures
        first_line(b + x) == first_line(b),
    decreases b.len(),
{
    lemma_line_len_bounds(b);
    if b[0] != '\n' {
        assert(b.len() >= 2);
        let d = b.drop_first();
        assert(d.last() == b.last());
        lemma_first_line_append(d, x);
        assert((b + x).drop_first() =~= d + x);
        assert((b + x)[0] == b[0]);
        lemma_line_len_bounds(d);
        lemma_line_len_bounds(d + x);
        assert(first_line(b + x).drop_first() =~= first_line(d + x));
        assert(first_line(b).drop_first() =~= first_line(d));
        assert(first_line(b + x) =~= first_line(b));
    } else {
        assert(first_line(b + x) =~= first_line(b));
    }
}

/// The packing invariant: consecutive finished chunks could not have been
/// merged, the open chunk could not have joined the last finished one, an
/// empty open chunk after a finished one follows an over-long line, and an
/// open chunk is whole lines while text remains.
pub open spec fn packed(rest: Seq<char>, out: Seq<Seq<char>>, buf: Seq<char>, max: nat) -> bool {
    &&& forall|i: int| 0 <= i < out.len() - 1 ==> next_line_overflows(#[trigger] out[i], out[i + 1], max)
    &&& (out.len() > 0 && buf.len() > 0 ==> next_line_overflows(out.last(), buf, max))
    &&& (out.len() > 0 && buf.len() == 0 ==> utf8_len(out.last()) > max)
    &&& (rest.len() > 0 ==> buf.len() == 0 || ends_with_newline(buf))
}

proof fn lemma_chunks_from_greedy(rest: Seq<char>, max: nat, out: Seq<Seq<char>>, buf: Seq<char>)
    requires
        packed(rest, out, buf, max),
    ensures
        forall|i: int|
            0 <= i < chunks_from(rest, max, out, buf).len() - 1 ==> next_line_overflows(
                #[trigger] chunks_from(rest, max, out, buf)[i],
                chunks_from(rest, max, out, buf)[i + 1],
                max,
            ),
    decreases rest.len(),
{
    if rest.len() == 0 {
        let c = flush(out, buf);
        assert(chunks_from(rest, max, out, buf) == c);
        assert forall|i: int| 0 <= i < c.len() - 1 implies next_line_overflows(#[trigger] c[i], c[i + 1], max) by {
            if i < out.len() - 1 {
                assert(c[i] == out[i] && c[i + 1] == out[i + 1]);
            } else {
                assert(c[i] == out.last());
                assert(c[i + 1] == buf);
            }
        }
    } else {
        lemma_line_len_bounds(rest);
        lemma_first_line_ends(rest);
        let n = line_len(rest) as int;
        let line = rest.take(n);
        let rest2 = rest.skip(n);
        lemma_first_line_is_line(rest);
        assert(first_line(line) =~= line);
        assert(rest2.len() > 0 ==> ends_with_newline(line)) by {
            if rest2.len() > 0 {
                assert(line.last() == rest[n - 1]);
            }
        }
        let (out2, buf2) = chunk_step(out, buf, line, max);
        if utf8_len(line) > max {
            let f = flush(out, buf);
            assert forall|i: int| 0 <= i < out2.len() - 1 implies next_line_overflows(#[trigger] out2[i], out2[i + 1], max) by {
                if i < f.len() - 1 {
                    assert(out2[i] == f[i] && out2[i + 1] == f[i + 1]);
                    if i < out.len() - 1 {
                        assert(f[i] == out[i] && f[i + 1] == out[i + 1]);
                    } else {
                        assert(f[i] == out.last());
                        assert(f[i + 1] == buf);
                    }
                } else {
                    assert(out2[i + 1] == line);
                }
            }
            assert(out2.last() == line);
        } else if buf.len() > 0 && utf8_len(buf) + utf8_len(line) > max {
            assert forall|i: int| 0 <= i < out2.len() - 1 implies next_line_overflows(#[trigger] out2[i], out2[i + 1], max) by {
                if i < out.len() - 1 {
                    assert(out2[i] == out[i] && out2[i + 1] == out[i + 1]);
                } else {
                    assert(out2[i] == out.last());
                    assert(out2[i + 1] == buf);
                }
            }
            assert(out2.last() == buf);
        } else {
            if out.len() > 0 && buf.len() > 0 {
                lemma_first_line_append(buf, line);
            }
            if buf.len() == 0 {
                assert(buf + line =~= line);
            }
            if rest2.len() > 0 {
                assert((buf + line).last() == line.last());
            }
        }
        lemma_chunks_from_greedy(rest2, max, out2, buf2);
        assert(chunks_from(rest, max, out, buf) == chunks_from(rest2, max, out2, buf2));
    }
}

/// Chunks are packed greedily: the first line of each chunk would have
/// pushed the chunk before it over the cap.
pub proof fn law_chunks_greedy(text: Seq<char>, max: nat)
    ensures
        forall|i: int|
            0 <= i < chunks_spec(text, max).len() - 1 ==> next_line_overflows(
                #[trigger] chunks_spec(text, max)[i],
                chunks_spec(text, max)[i + 1],
                max,
            ),
{
    lemma_chunks_from_greedy(text, max, Seq::empty(), Seq::empty());
}

/// Empty text yields no chunks.
pub proof fn law_chunks_empty(max: nat)
    ensures
        chunks_spec(Seq::empty(), max).len() == 0,
{
}

/// Position of the last entry named `name`, or -1 when there is none.
pub open spec fn last_index_named(entries: Seq<TermModel>, name: Seq<char>) -> int
    decreases entries.len(),
{
    if entries.len() == 0 {
        -1
    } else if entries.last().name == name {
        entries.len() - 1
    } else {
        last_index_named(entries.drop_last(), name)
    }
}

/// `xs` followed by the members of `ys` it does not yet hold, in first-seen
/// order and without repeats.
pub open spec fn union_aliases(xs: Seq<Seq<char>>, ys: Seq<Seq<char>>) -> Seq<Seq<char>>
    decreases ys.len(),
{
    if ys.len() == 0 {
        xs
    } else {
        let u = union_aliases(xs, ys.drop_last());
        if u.contains(ys.last()) {
            u
        } else {
            u.push(ys.last())
        }
    }
}

/// An existing entry after folding in a same-named term: aliases are
/// united, and the first non-empty hint is kept.
pub open spec fn merge_term(e: TermModel, t: TermModel) -> TermModel {
    TermModel {
        name: e.name,
        aliases: union_aliases(e.aliases, t.aliases),
        hint: if e.hint.len() == 0 && t.hint.len() > 0 {
            t.hint
        } else {
            e.hint
        },
    }
}

/// Folds one term into the entries: terms with an empty name are skipped,
/// a new name is appended, a known name is merged into its entry.
pub open spec fn merge_one(entries: Seq<TermModel>, t: TermModel) -> Seq<TermModel> {
    if t.name.len() == 0 {
        entries
    } else {
        let p = last_index_named(entries, t.name);
        if p < 0 {
            entries.push(t)
        } else {
            entries.update(p, merge_term(entries[p], t))
        }
    }
}

/// Folds all of `new`, in order, into the entries.
pub open spec fn merge_all(entries: Seq<TermModel>, new: Seq<TermModel>) -> Seq<TermModel>
    decreases new.len(),
{
    if new.len() == 0 {
        entries
    } else {
        merge_one(merge_all(entries, new.drop_last()), new.last())
    }
}

proof fn lemma_last_index_named(entries: Seq<TermModel>, name: Seq<char>)
    ensures
        -1 <= last_index_named(entries, name) < entries.len(),
        last_index_named(entries, name) >= 0 ==> entries[last_index_named(entries, name)].name == name,
        forall|j: int|
            last_index_named(entries, name) < j < entries.len() ==> #[trigger] entries[j].name != name,
    decreases entries.len(),
{
    if entries.len() > 0 && entries.last().name != name {
        lemma_last_index_named(entries.drop_last(), name);
        assert forall|j: int|
            last_index_named(entries, name) < j < entries.len() implies #[trigger] entries[j].name != name by {
            if j < entries.len() - 1 {
                assert(entries.drop_last()[j] == entries[j]);
            }
        }
    }
}

/// Position of the last entry named `name`, if any.
fn find_last_named(entries: &Vec<Term>, name: &String) -> (r: Option<usize>)
    ensures
        match r {
            Some(p) => p == last_index_named(terms_model(entries@), name@),
            None => last_index_named(terms_model(entries@), name@) == -1,
        },
{
    let ghost tm = terms_model(entries@);
    proof {
        lemma_last_index_named(tm, name@);
    }
    let mut i = entries.len();
    while i > 0
        invariant
            i <= entries@.len(),
            tm == terms_model(entries@),
            -1 <= last_index_named(tm, name@) < i,
            forall|j: int| last_index_named(tm, name@) < j < tm.len() ==> #[trigger] tm[j].name != name@,
            last_index_named(tm, name@) >= 0 ==> tm[last_index_named(tm, name@)].name == name@,
        decreases i,
    {
        if entries[i - 1].name == *name {
            assert(tm[i - 1].name == name@);
            return Some(i - 1);
        }
        assert(tm[i - 1].name != name@);
        i = i - 1;
    }
    None
}

/// Merges `new` terms into `db`, in order: empty names are skipped; a name
/// not yet present is appended; for a name already present, its aliases gain
/// the new ones not yet listed (first-seen order, no repeats) and an empty
/// hint is filled by the first non-empty one.
pub fn merge_into(db: &mut TermDb, new: Vec<Term>)
    ensures
        terms_model(final(db).entries@) == merge_all(terms_model(old(db).entries@), terms_model(new@)),
{
    let ghost orig = terms_model(db.entries@);
    let ghost nm = terms_model(new@);
    let mut i: usize = 0;
    proof {
        assert(nm.take(0) =~= Seq::<TermModel>::empty());
    }
    while i < new.len()
        invariant
            i <= new@.len(),
            nm == terms_model(new@),
            terms_model(db.entries@) == merge_all(orig, nm.take(i as int)),
        decreases new@.len() - i,
    {
        let incoming = &new[i];
        let ghost cur = terms_model(db.entries@);
        proof {
            assert(nm.take(i + 1).drop_last() =~= nm.take(i as int));
            assert(nm.take(i + 1).last() == incoming@);
        }
        if incoming.name.as_str().is_empty() {
        } else {
            proof {
                lemma_last_index_named(cur, incoming@.name);
            }
            match find_last_named(&db.entries, &incoming.name) {
                None => {
                    let t = clone_term(incoming);
                    db.entries.push(t);
                    assert(terms_model(db.entries@) =~= cur.push(incoming@));
                },
                Some(pos) => {
                    let existing = &db.entries[pos];
                    let mut aliases = clone_strings(&existing.aliases);
                    let mut k: usize = 0;
                    let ghost ya = incoming@.aliases;
                    while k < incoming.aliases.len()
                        invariant
                            k <= incoming.aliases@.len(),
                            ya == incoming@.aliases,
                            ya.len() == incoming.aliases@.len(),
                            strings_model(aliases@) == union_aliases(existing@.aliases, ya.take(k as int)),
                        decreases incoming.aliases@.len() - k,
                    {
                        let a = &incoming.aliases[k];
                        proof {
                            assert(ya.take(k + 1).drop_last() =~= ya.take(k as int));
                            assert(ya.take(k + 1).last() == a@);
                        }
                        if !contains_string(&aliases, a) {
                            let ghost before = strings_model(aliases@);
                            aliases.push(a.clone());
                            assert(strings_model(aliases@) =~= before.push(a@));
                        }
                        k = k + 1;
                    }
                    proof {
                        assert(ya.take(ya.len() as int) =~= ya);
                    }
                    let hint = if existing.hint.as_str().is_empty() && !incoming.hint.as_str().is_empty() {
                        incoming.hint.clone()
                    } else {
                        existing.hint.clone()
                    };
                    let merged = Term { name: existing.name.clone(), aliases, hint };
                    assert(merged@ == merge_term(cur[pos as int], incoming@));
                    db.entries.set(pos, merged);
                    assert(terms_model(db.entries@) =~= cur.update(pos as int, merge_term(cur[pos as int], incoming@)));
                },
            }
        }
        i = i + 1;
    }
    assert(nm.take(new@.len() as int) =~= nm);
}

/// The terms of `raw` that have a non-empty name, in order.
pub open spec fn named_terms(raw: Seq<TermModel>) -> Seq<TermModel> {
    raw.filter(|t: TermModel| t.name.len() > 0)
}

/// Drops the terms whose name is empty, keeping the others in order.
pub fn keep_named_terms(raw: Vec<Term>) -> (out: Vec<Term>)
    ensures
        terms_model(out@) == named_terms(terms_model(raw@)),
{
    let ghost rm = terms_model(raw@);
    let mut out: Vec<Term> = Vec::new();
    let mut i: usize = 0;
    while i < raw.len()
        invariant
            i <= raw@.len(),
            rm == terms_model(raw@),
            terms_model(out@) == named_terms(rm.take(i as int)),
        decreases raw@.len() - i,
    {
        proof {
            assert(rm.take(i + 1).drop_last() =~= rm.take(i as int));
            reveal_with_fuel(Seq::filter, 1);
        }
        if !raw[i].name.as_str().is_empty() {
            let ghost before = terms_model(out@);
            out.push(clone_term(&raw[i]));
            assert(terms_model(out@) =~= before.push(rm[i as int]));
        }
        i = i + 1;
    }
    assert(rm.take(raw@.len() as int) =~= rm);
    out
}

/// No two entries share a name.
pub open spec fn unique_names(entries: Seq<TermModel>) -> bool {
    forall|i: int, j: int| 0 <= i < j < entries.len() ==> entries[i].name != entries[j].name
}

/// No alias is listed twice.
pub open spec fn no_repeats(xs: Seq<Seq<char>>) -> bool {
    forall|i: int, j: int| 0 <= i < j < xs.len() ==> xs[i] != xs[j]
}

/// Uniting aliases keeps the existing ones first and in order, adds every
/// new one, introduces nothing else, and never repeats an alias that was not
/// already repeated.
pub proof fn law_union_aliases(xs: Seq<Seq<char>>, ys: Seq<Seq<char>>)
    ensures
        union_aliases(xs, ys).len() >= xs.len(),
        union_aliases(xs, ys).take(xs.len() as int) == xs,
        forall|k: int| 0 <= k < ys.len() ==> union_aliases(xs, ys).contains(#[trigger] ys[k]),
        forall|a: Seq<char>| #[trigger] union_aliases(xs, ys).contains(a) ==> xs.contains(a) || ys.contains(a),
        no_repeats(xs) ==> no_repeats(union_aliases(xs, ys)),
    decreases ys.len(),
{
    if ys.len() > 0 {
        let u = union_aliases(xs, ys.drop_last());
        law_union_aliases(xs, ys.drop_last());
        let r = union_aliases(xs, ys);
        if !u.contains(ys.last()) {
            assert(r.take(xs.len() as int) =~= u.take(xs.len() as int));
            assert(r[u.len() as int] == ys.last());
        }
        assert forall|k: int| 0 <= k < ys.len() implies r.contains(#[trigger] ys[k]) by {
            if k < ys.len() - 1 {
                assert(ys.drop_last()[k] == ys[k]);
                let w = choose|w: int| 0 <= w < u.len() && u[w] == ys[k];
                assert(r[w] == ys[k]);
            } else if !u.contains(ys.last()) {
                assert(r[u.len() as int] == ys[k]);
            }
        }
        assert forall|a: Seq<char>| #[trigger] r.contains(a) implies xs.contains(a) || ys.contains(a) by {
            let w = choose|w: int| 0 <= w < r.len() && r[w] == a;
            if w < u.len() {
                assert(u[w] == a);
                assert(u.contains(a));
                if ys.drop_last().contains(a) {
                    let q = choose|q: int| 0 <= q < ys.drop_last().len() && ys.drop_last()[q] == a;
                    assert(ys[q] == a);
                }
            } else {
                assert(ys[ys.len() - 1] == a);
            }
        }
    }
}

/// Merging keeps every existing entry in place (with its name), only
/// appends after them, leaves every non-empty incoming name present, and
/// keeps names unique when they were unique before.
pub proof fn law_merge_all(entries: Seq<TermModel>, new: Seq<TermModel>)
    ensures
        merge_all(entries, new).len() >= entries.len(),
        forall|j: int| 0 <= j < entries.len() ==> #[trigger] merge_all(entries, new)[j].name == entries[j].name,
        forall|k: int|
            0 <= k < new.len() && new[k].name.len() > 0 ==> exists|j: int|
                0 <= j < merge_all(entries, new).len() && #[trigger] merge_all(entries, new)[j].name
                    == #[trigger] new[k].name,
        unique_names(entries) ==> unique_names(merge_all(entries, new)),
    decreases new.len(),
{
    if new.len() > 0 {
        let prev = merge_all(entries, new.drop_last());
        law_merge_all(entries, new.drop_last());
        let t = new.last();
        let r = merge_all(entries, new);
        assert(r == merge_one(prev, t));
        lemma_last_index_named(prev, t.name);
        let p = last_index_named(prev, t.name);
        assert forall|j: int| 0 <= j < prev.len() implies #[trigger] r[j].name == prev[j].name by {
        }
        assert forall|k: int|
            0 <= k < new.len() && new[k].name.len() > 0 implies exists|j: int|
                0 <= j < r.len() && #[trigger] r[j].name == #[trigger] new[k].name by {
            if k < new.len() - 1 {
                assert(new.drop_last()[k] == new[k]);
                let j = choose|j: int| 0 <= j < prev.len() && #[trigger] prev[j].name == new.drop_last()[k].name;
                assert(r[j].name == prev[j].name);
            } else {
                if p < 0 {
                    assert(r[prev.len() as int].name == t.name);
                } else {
                    assert(r[p].name == t.name);
                }
            }
        }
        if unique_names(entries) {
            assert forall|i: int, j: int| 0 <= i < j < r.len() implies r[i].name != r[j].name by {
                if j == prev.len() {
                    assert(r[j] == t);
                    assert(p < 0);
                    assert(prev[i].name != t.name);
                } else {
                    assert(r[i].name == prev[i].name);
                    assert(r[j].name == prev[j].name);
                }
            }
        }
    }
}

/// The names of the entries, in order.
pub open spec fn names_of(entries: Seq<TermModel>) -> Seq<Seq<char>> {
    entries.map_values(|t: TermModel| t.name)
}

/// The non-empty names of `new` that `names` does not hold, each once, in
/// order of first occurrence.
pub open spec fn appended_names(names: Seq<Seq<char>>, new: Seq<TermModel>) -> Seq<Seq<char>>
    decreases new.len(),
{
    if new.len() == 0 {
        Seq::empty()
    } else {
        let prev = appended_names(names, new.drop_last());
        let n = new.last().name;
        if n.len() == 0 || names.contains(n) || prev.contains(n) {
            prev
        } else {
            prev.push(n)
        }
    }
}

/// Merging changes no existing entry whose name does not come in, and what
/// it appends are new entries for the incoming names that were not there,
/// one per name, in order of first occurrence.
pub proof fn law_merge_appends_new_names(entries: Seq<TermModel>, new: Seq<TermModel>)
    ensures
        merge_all(entries, new).len() >= entries.len(),
        forall|j: int|
            0 <= j < entries.len() && (forall|k: int| 0 <= k < new.len() ==> new[k].name != entries[j].name)
                ==> #[trigger] merge_all(entries, new)[j] == entries[j],
        names_of(merge_all(entries, new).skip(entries.len() as int)) == appended_names(names_of(entries), new),
    decreases new.len(),
{
    law_merge_all(entries, new);
    let r = merge_all(entries, new);
    let e = entries.len() as int;
    if new.len() == 0 {
        assert(names_of(r.skip(e)) =~= Seq::<Seq<char>>::empty());
    } else {
        let prev = merge_all(entries, new.drop_last());
        law_merge_appends_new_names(entries, new.drop_last());
        law_merge_all(entries, new.drop_last());
        let t = new.last();
        let pa = appended_names(names_of(entries), new.drop_last());
        assert(r == merge_one(prev, t));
        lemma_last_index_named(prev, t.name);
        let p = last_index_named(prev, t.name);
        assert forall|j: int|
            0 <= j < e && (forall|k: int| 0 <= k < new.len() ==> new[k].name != entries[j].name)
                implies #[trigger] r[j] == entries[j] by {
            assert forall|k: int| 0 <= k < new.drop_last().len() implies new.drop_last()[k].name != entries[j].name by {
                assert(new.drop_last()[k] == new[k]);
            }
            assert(prev[j] == entries[j]);
            assert(new[new.len() - 1] == t);
            assert(t.name != entries[j].name);
            if t.name.len() > 0 && p >= 0 {
                assert(p != j);
            }
        }
        // Which names the merged entries already hold.
        assert(names_of(prev.skip(e)) == pa);
        let held = prev.map_values(|x: TermModel| x.name).contains(t.name);
        assert(held == (p >= 0)) by {
            if p >= 0 {
                assert(names_of(prev)[p] == t.name);
            }
            if held {
                let q = choose|q: int| 0 <= q < prev.len() && names_of(prev)[q] == t.name;
                assert(prev[q].name == t.name);
            }
        }
        assert((p >= 0) == (names_of(entries).contains(t.name) || pa.contains(t.name))) by {
            if p >= 0 {
                if p < e {
                    assert(names_of(entries)[p] == t.name);
                } else {
                    assert(pa[p - e] == names_of(prev.skip(e))[p - e]);
                    assert(prev.skip(e)[p - e] == prev[p]);
                }
            }
            if names_of(entries).contains(t.name) {
                let q = choose|q: int| 0 <= q < entries.len() && names_of(entries)[q] == t.name;
                assert(prev[q].name == entries[q].name);
                assert(names_of(prev)[q] == t.name);
            }
            if pa.contains(t.name) {
                let q = choose|q: int| 0 <= q < pa.len() && pa[q] == t.name;
                assert(names_of(prev.skip(e))[q] == t.name);
                assert(prev.skip(e)[q] == prev[q + e]);
                assert(names_of(prev)[q + e] == t.name);
            }
        }
        if t.name.len() == 0 {
            assert(r == prev);
        } else if p < 0 {
            assert(r == prev.push(t));
            assert(names_of(r.skip(e)) =~= pa.push(t.name));
        } else {
            assert(names_of(r.skip(e)) =~= names_of(prev.skip(e)));
        }
    }
}

/// Position of the first occurrence of `a` in `s`, or -1.
pub open spec fn first_index(s: Seq<Seq<char>>, a: Seq<char>) -> int
    decreases s.len(),
{
    if s.len() == 0 {
        -1
    } else {
        let f = first_index(s.drop_last(), a);
        if f >= 0 {
            f
        } else if s.last() == a {
            s.len() - 1
        } else {
            -1
        }
    }
}

proof fn lemma_first_index(s: Seq<Seq<char>>, a: Seq<char>)
    ensures
        s.contains(a) ==> 0 <= first_index(s, a) < s.len() && s[first_index(s, a)] == a,
        !s.contains(a) ==> first_index(s, a) == -1,
    decreases s.len(),
{
    if s.len() > 0 {
        lemma_first_index(s.drop_last(), a);
        if s.drop_last().contains(a) {
            let q = choose|q: int| 0 <= q < s.drop_last().len() && s.drop_last()[q] == a;
            assert(s[q] == a);
        }
        if s.contains(a) && !s.drop_last().contains(a) {
            let q = choose|q: int| 0 <= q < s.len() && s[q] == a;
            if q < s.len() - 1 {
                assert(s.drop_last()[q] == a);
            }
        }
        if !s.contains(a) && s.drop_last().contains(a) {
            let q = choose|q: int| 0 <= q < s.drop_last().len() && s.drop_last()[q] == a;
            assert(s[q] == a);
        }
    }
}

proof fn lemma_union_order(xs: Seq<Seq<char>>, ys: Seq<Seq<char>>)
    ensures
        ({
            let r = union_aliases(xs, ys);
            &&& forall|p: int| xs.len() <= p < r.len() ==> ys.contains(#[trigger] r[p]) && !xs.contains(r[p])
            &&& forall|p: int, q: int|
                xs.len() <= p < q < r.len() ==> first_index(ys, #[trigger] r[p]) < first_index(ys, #[trigger] r[q])
        }),
    decreases ys.len(),
{
    law_union_aliases(xs, ys);
    if ys.len() > 0 {
        let yd = ys.drop_last();
        lemma_union_order(xs, yd);
        law_union_aliases(xs, yd);
        let u = union_aliases(xs, yd);
        let r = union_aliases(xs, ys);
        let y = ys.last();
        assert forall|a: Seq<char>| yd.contains(a) implies first_index(ys, a) == first_index(yd, a) by {
            lemma_first_index(yd, a);
        }
        assert forall|p: int| xs.len() <= p < r.len() implies ys.contains(#[trigger] r[p]) && !xs.contains(r[p]) by {
            if p < u.len() {
                assert(r[p] == u[p]);
                let k = choose|k: int| 0 <= k < yd.len() && yd[k] == u[p];
                assert(ys[k] == u[p]);
            } else {
                assert(r[p] == y);
                assert(ys[ys.len() - 1] == y);
                assert(u.take(xs.len() as int) == xs);
                if xs.contains(y) {
                    let k = choose|k: int| 0 <= k < xs.len() && xs[k] == y;
                    assert(u[k] == y);
                }
            }
        }
        assert forall|p: int, q: int|
            xs.len() <= p < q < r.len() implies first_index(ys, #[trigger] r[p]) < first_index(ys, #[trigger] r[q]) by {
            assert(r[p] == u[p]);
            assert(yd.contains(u[p]));
            lemma_first_index(yd, u[p]);
            if q < u.len() {
                assert(r[q] == u[q]);
                assert(yd.contains(u[q]));
            } else {
                assert(r[q] == y);
                assert(!u.contains(y));
                assert(!yd.contains(y)) by {
                    if yd.contains(y) {
                        let k = choose|k: int| 0 <= k < yd.len() && yd[k] == y;
                        assert(u.contains(yd[k]));
                    }
                }
                lemma_first_index(yd, y);
                assert(first_index(ys, y) == ys.len() - 1);
            }
        }
    }
}

/// Folding a term into an existing entry with the same name keeps the
/// entry's aliases first and in order, then adds the incoming aliases it did
/// not list, each once, in the order they first appear in the incoming
/// term; nothing else is added.
pub proof fn law_merge_term_alias_order(e: TermModel, t: TermModel)
    ensures
        ({
            let r = merge_term(e, t).aliases;
            &&& merge_term(e, t).name == e.name
            &&& r.take(e.aliases.len() as int) == e.aliases
            &&& forall|a: Seq<char>| t.aliases.contains(a) ==> r.contains(a)
            &&& forall|p: int| e.aliases.len() <= p < r.len() ==> t.aliases.contains(#[trigger] r[p])
                && !e.aliases.contains(r[p])
            &&& forall|p: int, q: int|
                e.aliases.len() <= p < q < r.len() ==> first_index(t.aliases, #[trigger] r[p]) < first_index(
                    t.aliases,
                    #[trigger] r[q],
                )
        }),
{
    law_union_aliases(e.aliases, t.aliases);
    lemma_union_order(e.aliases, t.aliases);
    let r = merge_term(e, t).aliases;
    assert forall|a: Seq<char>| t.aliases.contains(a) implies r.contains(a) by {
        let k = choose|k: int| 0 <= k < t.aliases.len() && t.aliases[k] == a;
        assert(r.contains(t.aliases[k]));
    }
}

/// A non-empty hint on an existing entry is never replaced, and an empty one
/// takes the incoming hint.
pub proof fn law_merge_term_hint(e: TermModel, t: TermModel)
    ensures
        e.hint.len() > 0 ==> merge_term(e, t).hint == e.hint,
        e.hint.len() == 0 ==> merge_term(e, t).hint == t.hint,
{
}

/// Names ordered character by character (by code point), a proper prefix
/// first; this is the order of Rust's `String` comparison.
pub open spec fn name_lt(a: Seq<char>, b: Seq<char>) -> bool
    decreases a.len(),
{
    if b.len() == 0 {
        false
    } else if a.len() == 0 {
        true
    } else if a[0] != b[0] {
        (a[0] as u32) < (b[0] as u32)
    } else {
        name_lt(a.drop_first(), b.drop_first())
    }
}

proof fn lemma_name_lt_irrefl(a: Seq<char>)
    ensures
        !name_lt(a, a),
    decreases a.len(),
{
    if a.len() > 0 {
        lemma_name_lt_irrefl(a.drop_first());
    }
}

proof fn lemma_char_u32_distinct(x: char, y: char)
    ensures
        x != y ==> (x as u32) != (y as u32),
{
    vstd::utf8::char_u32_cast(x, x as u32);
    vstd::utf8::char_u32_cast(y, y as u32);
}

proof fn lemma_name_lt_asym(a: Seq<char>, b: Seq<char>)
    ensures
        name_lt(a, b) ==> !name_lt(b, a),
    decreases a.len(),
{
    if a.len() > 0 && b.len() > 0 {
        lemma_char_u32_distinct(a[0], b[0]);
        lemma_name_lt_asym(a.drop_first(), b.drop_first());
    }
}

proof fn lemma_name_lt_trans(a: Seq<char>, b: Seq<char>, c: Seq<char>)
    ensures
        name_lt(a, b) && name_lt(b, c) ==> name_lt(a, c),
    decreases a.len(),
{
    if a.len() > 0 && b.len() > 0 && c.len() > 0 {
        lemma_char_u32_distinct(a[0], b[0]);
        lemma_char_u32_distinct(b[0], c[0]);
        lemma_char_u32_distinct(a[0], c[0]);
        lemma_name_lt_trans(a.drop_first(), b.drop_first(), c.drop_first());
    }
}

proof fn lemma_name_lt_total(a: Seq<char>, b: Seq<char>)
    ensures
        a != b ==> name_lt(a, b) || name_lt(b, a),
    decreases a.len(),
{
    if a.len() > 0 && b.len() > 0 {
        lemma_char_u32_distinct(a[0], b[0]);
        lemma_name_lt_total(a.drop_first(), b.drop_first());
        if a[0] == b[0] && a.drop_first() == b.drop_first() {
            assert(a =~= seq![a[0]] + a.drop_first());
            assert(b =~= seq![b[0]] + b.drop_first());
        }
    } else if a.len() == 0 && b.len() == 0 {
        assert(a =~= b);
    }
}

proof fn lemma_name_lt_order(a: Seq<char>, b: Seq<char>, c: Seq<char>)
    ensures
        !name_lt(a, a),
        name_lt(a, b) ==> !name_lt(b, a),
        name_lt(a, b) && name_lt(b, c) ==> name_lt(a, c),
        a != b ==> name_lt(a, b) || name_lt(b, a),
{
    lemma_name_lt_irrefl(a);
    lemma_name_lt_asym(a, b);
    lemma_name_lt_trans(a, b, c);
    lemma_name_lt_total(a, b);
}

/// The entries are in name order.
pub open spec fn sorted_by_name(r: Seq<TermModel>) -> bool {
    forall|i: int, j: int| 0 <= i < j < r.len() ==> !name_lt(r[j].name, r[i].name)
}

/// Where `t` goes in `r`: after every entry whose name is not greater.
pub open spec fn insert_pos(r: Seq<TermModel>, t: TermModel) -> int
    decreases r.len(),
{
    if r.len() == 0 {
        0
    } else if name_lt(t.name, r[0].name) {
        0
    } else {
        1 + insert_pos(r.drop_first(), t)
    }
}

/// Stable insertion sort by name.
pub open spec fn sort_by_name(s: Seq<TermModel>) -> Seq<TermModel>
    decreases s.len(),
{
    if s.len() == 0 {
        s
    } else {
        let r = sort_by_name(s.drop_last());
        r.insert(insert_pos(r, s.last()), s.last())
    }
}

proof fn lemma_insert_pos(r: Seq<TermModel>, t: TermModel)
    requires
        sorted_by_name(r),
    ensures
        0 <= insert_pos(r, t) <= r.len(),
        forall|i: int| 0 <= i < insert_pos(r, t) ==> !name_lt(t.name, #[trigger] r[i].name),
        forall|i: int| insert_pos(r, t) <= i < r.len() ==> name_lt(t.name, #[trigger] r[i].name),
    decreases r.len(),
{
    if r.len() > 0 {
        if name_lt(t.name, r[0].name) {
            assert forall|i: int| 0 <= i < r.len() implies name_lt(t.name, #[trigger] r[i].name) by {
                lemma_name_lt_order(t.name, r[0].name, r[i].name);
                lemma_name_lt_order(r[0].name, r[i].name, r[0].name);
            }
        } else {
            let d = r.drop_first();
            assert(sorted_by_name(d)) by {
                assert forall|i: int, j: int| 0 <= i < j < d.len() implies !name_lt(d[j].name, d[i].name) by {
                    assert(d[i] == r[i + 1] && d[j] == r[j + 1]);
                }
            }
            lemma_insert_pos(d, t);
            assert forall|i: int| 0 <= i < insert_pos(r, t) implies !name_lt(t.name, #[trigger] r[i].name) by {
                if i > 0 {
                    assert(r[i] == d[i - 1]);
                }
            }
            assert forall|i: int| insert_pos(r, t) <= i < r.len() implies name_lt(t.name, #[trigger] r[i].name) by {
                assert(r[i] == d[i - 1]);
            }
        }
    }
}

proof fn lemma_insert_sorted(r: Seq<TermModel>, t: TermModel)
    requires
        sorted_by_name(r),
    ensures
        sorted_by_name(r.insert(insert_pos(r, t), t)),
        r.insert(insert_pos(r, t), t).to_multiset() == r.to_multiset().insert(t),
{
    broadcast use vstd::seq_lib::group_to_multiset_ensures;
    lemma_insert_pos(r, t);
    let k = insert_pos(r, t);
    let s = r.insert(k, t);
    assert forall|i: int, j: int| 0 <= i < j < s.len() implies !name_lt(s[j].name, s[i].name) by {
        if j < k {
        } else if j == k {
            assert(s[i] == r[i]);
        } else if i == k {
            assert(s[j] == r[j - 1]);
            lemma_name_lt_order(t.name, r[j - 1].name, t.name);
        } else if i < k {
            assert(s[i] == r[i] && s[j] == r[j - 1]);
        } else {
            assert(s[i] == r[i - 1] && s[j] == r[j - 1]);
        }
    }
    assert(s.remove(k) =~= r);
    assert(s.to_multiset().remove(t) == r.to_multiset());
    assert(s.to_multiset().count(t) > 0) by {
        assert(s[k] == t);
        assert(s.contains(t));
    }
    assert(s.to_multiset() =~= r.to_multiset().insert(t));
}

/// Sorting by name yields the same entries (as a multiset), in name order.
pub proof fn law_sort_by_name(s: Seq<TermModel>)
    ensures
        sorted_by_name(sort_by_name(s)),
        sort_by_name(s).to_multiset() == s.to_multiset(),
    decreases s.len(),
{
    broadcast use vstd::seq_lib::group_to_multiset_ensures;
    if s.len() > 0 {
        law_sort_by_name(s.drop_last());
        let r = sort_by_name(s.drop_last());
        lemma_insert_sorted(r, s.last());
        assert(s =~= s.drop_last().push(s.last()));
    }
}

/// Whether `a` sorts strictly before `b`.
fn name_less(a: &String, b: &String) -> (lt: bool)
    ensures
        lt == name_lt(a@, b@),
{
    let x = chars_of(a.as_str());
    let y = chars_of(b.as_str());
    let mut i: usize = 0;
    assert(x@.skip(0) =~= x@ && y@.skip(0) =~= y@);
    while i < x.len() && i < y.len() && x[i] == y[i]
        invariant
            i <= x@.len(),
            i <= y@.len(),
            name_lt(x@, y@) == name_lt(x@.skip(i as int), y@.skip(i as int)),
        decreases x@.len() - i,
    {
        assert(x@.skip(i as int).drop_first() =~= x@.skip(i + 1));
        assert(y@.skip(i as int).drop_first() =~= y@.skip(i + 1));
        i = i + 1;
    }
    assert(x@.skip(0) =~= x@ && y@.skip(0) =~= y@);
    if i == y.len() {
        false
    } else if i == x.len() {
        true
    } else {
        assert(x@.skip(i as int)[0] == x@[i as int]);
        assert(y@.skip(i as int)[0] == y@[i as int]);
        proof {
            lemma_char_u32_distinct(x@[i as int], y@[i as int]);
        }
        (x[i] as u32) < (y[i] as u32)
    }
}

/// Sorts the entries alphabetically by name (a stable sort).
pub fn finalize(db: &mut TermDb)
    ensures
        terms_model(final(db).entries@) == sort_by_name(terms_model(old(db).entries@)),
{
    let ghost src = terms_model(db.entries@);
    let mut out: Vec<Term> = Vec::new();
    let mut i: usize = 0;
    proof {
        assert(src.take(0) =~= Seq::<TermModel>::empty());
    }
    while i < db.entries.len()
        invariant
            i <= db.entries@.len(),
            src == terms_model(db.entries@),
            terms_model(out@) == sort_by_name(src.take(i as int)),
        decreases db.entries@.len() - i,
    {
        let t = clone_term(&db.entries[i]);
        let ghost r = terms_model(out@);
        proof {
            assert(src.take(i + 1).drop_last() =~= src.take(i as int));
            assert(src.take(i + 1).last() == t@);
        }
        let mut k: usize = 0;
        assert(r.skip(0) =~= r);
        while k < out.len() && !name_less(&t.name, &out[k].name)
            invariant
                k <= out@.len(),
                r == terms_model(out@),
                insert_pos(r, t@) == k + insert_pos(r.skip(k as int), t@),
            decreases out@.len() - k,
        {
            assert(r.skip(k as int)[0] == r[k as int]);
            assert(r.skip(k as int).drop_first() =~= r.skip(k + 1));
            k = k + 1;
        }
        proof {
            assert(r.skip(0) =~= r);
            if k < out.len() {
                assert(r.skip(k as int)[0] == r[k as int]);
            }
        }
        out.insert(k, t);
        assert(terms_model(out@) =~= r.insert(k as int, t@));
        i = i + 1;
    }
    assert(src.take(db.entries@.len() as int) =~= src);
    db.entries = out;
}

/// `s` begins with a code fence (three backticks).
pub open spec fn starts_with_fence(s: Seq<char>) -> bool {
    s.len() >= 3 && s[0] == '`' && s[1] == '`' && s[2] == '`'
}

/// `s` ends with a code fence.
pub open spec fn ends_with_fence(s: Seq<char>) -> bool {
    s.len() >= 3 && s[s.len() - 3] == '`' && s[s.len() - 2] == '`' && s[s.len() - 1] == '`'
}

/// The text after the opening fence's language tag: everything after the
/// first newline, or all of it when there is no newline.
pub open spec fn after_tag(rest: Seq<char>) -> Seq<char> {
    if rest.contains('\n') {
        rest.skip(line_len(rest) as int)
    } else {
        rest
    }
}

/// One pass: the reply with a leading fence (and its language tag) and a
/// trailing fence removed, trimmed; text without a leading fence is only
/// trimmed.
pub open spec fn strip_fence_once(s: Seq<char>) -> Seq<char> {
    let t = trim(s);
    if starts_with_fence(t) {
        let body = after_tag(t.skip(3));
        let te = trim_end(body);
        if ends_with_fence(te) {
            trim(te.take(te.len() - 3))
        } else {
            trim(body)
        }
    } else {
        t
    }
}

/// The reply with fences stripped pass after pass, until what is left does
/// not start with a fence.
pub open spec fn strip_fence_spec(s: Seq<char>) -> Seq<char>
    decreases s.len(),
{
    let r = strip_fence_once(s);
    if starts_with_fence(r) && r.len() < s.len() {
        strip_fence_spec(r)
    } else {
        r
    }
}

/// A pass yields trimmed text; it is the trimmed input unless that starts
/// with a fence, and then it is shorter than the input.
proof fn lemma_once_shape(s: Seq<char>)
    ensures
        trim(strip_fence_once(s)) == strip_fence_once(s),
        !starts_with_fence(trim(s)) ==> strip_fence_once(s) == trim(s),
        starts_with_fence(trim(s)) ==> strip_fence_once(s).len() < s.len(),
        starts_with_fence(strip_fence_once(s)) ==> strip_fence_once(s).len() < s.len(),
{
    let t = trim(s);
    lemma_trim_idempotent(s);
    if starts_with_fence(t) {
        let body = after_tag(t.skip(3));
        assert(body.len() <= t.len() - 3) by {
            if t.skip(3).contains('\n') {
                lemma_line_len_bounds(t.skip(3));
            }
        }
        let te = trim_end(body);
        lemma_trim_end_shape(body);
        lemma_trim_idempotent(body);
        if te.len() >= 3 {
            lemma_trim_idempotent(te.take(te.len() - 3));
        }
    }
}

/// What stripping leaves is trimmed and does not start with a fence.
proof fn lemma_strip_result(s: Seq<char>)
    ensures
        trim(strip_fence_spec(s)) == strip_fence_spec(s),
        !starts_with_fence(strip_fence_spec(s)),
    decreases s.len(),
{
    lemma_once_shape(s);
    let r = strip_fence_once(s);
    if starts_with_fence(r) {
        lemma_strip_result(r);
    }
}

/// Stripping a reply whose fences still have to come off.
proof fn lemma_strip_step(s: Seq<char>)
    ensures
        strip_fence_spec(s) == if starts_with_fence(strip_fence_once(s)) {
            strip_fence_spec(strip_fence_once(s))
        } else {
            strip_fence_once(s)
        },
{
    lemma_once_shape(s);
}

/// Start of the text after the language tag of `v[rs..b]`.
fn after_tag_start(v: &Vec<char>, rs: usize, b: usize) -> (bs: usize)
    requires
        rs <= b <= v@.len(),
    ensures
        rs <= bs <= b,
        v@.subrange(bs as int, b as int) == after_tag(v@.subrange(rs as int, b as int)),
{
    let ghost sv = v@;
    let ghost rest = sv.subrange(rs as int, b as int);
    let mut j = rs;
    while j < b && v[j] != '\n'
        invariant
            rs <= j <= b <= sv.len(),
            v@ == sv,
            forall|i: int| rs <= i < j ==> sv[i] != '\n',
        decreases b - j,
    {
        j = j + 1;
    }
    if j < b {
        proof {
            assert(rest[j - rs] == '\n');
            assert(rest.contains('\n'));
            assert forall|i: int| 0 <= i < j - rs implies rest[i] != '\n' by {
                assert(rest[i] == sv[rs + i]);
            }
            lemma_line_len_at(rest, j - rs);
            assert(rest.skip(j - rs + 1) =~= sv.subrange(j + 1, b as int));
        }
        j + 1
    } else {
        proof {
            assert forall|i: int| 0 <= i < rest.len() implies rest[i] != '\n' by {
                assert(rest[i] == sv[rs + i]);
            }
            assert(!rest.contains('\n'));
        }
        rs
    }
}

/// End of `v[lo..hi]` with trailing whitespace removed.
fn trim_end_index(v: &Vec<char>, lo: usize, hi: usize) -> (e: usize)
    requires
        lo <= hi <= v@.len(),
    ensures
        lo <= e <= hi,
        v@.subrange(lo as int, e as int) == trim_end(v@.subrange(lo as int, hi as int)),
{
    let mut e = hi;
    while e > lo && is_whitespace(v[e - 1])
        invariant
            lo <= e <= hi <= v@.len(),
            trim_end(v@.subrange(lo as int, hi as int)) == trim_end(v@.subrange(lo as int, e as int)),
        decreases e - lo,
    {
        assert(v@.subrange(lo as int, e as int).drop_last() =~= v@.subrange(lo as int, e - 1));
        e = e - 1;
    }
    e
}

/// One stripping pass.
#[verifier::rlimit(30)]
fn strip_fence_pass(s: &str) -> (out: String)
    ensures
        out@ == strip_fence_once(s@),
{
    let v = chars_of(s);
    let n = v.len();
    let ghost sv = v@;
    let (a, b) = trim_range(v.as_slice(), 0, n);
    assert(sv.subrange(0, n as int) =~= sv);
    let ghost t = sv.subrange(a as int, b as int);
    if b - a >= 3 && v[a] == '`' && v[a + 1] == '`' && v[a + 2] == '`' {
        assert(starts_with_fence(t));
        let bs = after_tag_start(&v, a + 3, b);
        assert(t.skip(3) =~= sv.subrange(a + 3, b as int));
        let ghost body = sv.subrange(bs as int, b as int);
        let e = trim_end_index(&v, bs, b);
        let ghost te = sv.subrange(bs as int, e as int);
        if e - bs >= 3 && v[e - 3] == '`' && v[e - 2] == '`' && v[e - 1] == '`' {
            assert(ends_with_fence(te));
            let (x, y) = trim_range(v.as_slice(), bs, e - 3);
            assert(te.take(te.len() - 3) =~= sv.subrange(bs as int, e - 3));
            return string_of_range(v.as_slice(), x, y);
        }
        assert(!ends_with_fence(te));
        let (x, y) = trim_range(v.as_slice(), bs, b);
        return string_of_range(v.as_slice(), x, y);
    }
    assert(!starts_with_fence(t));
    string_of_range(v.as_slice(), a, b)
}

/// Whether `s` starts with a code fence.
fn starts_with_fence_str(s: &str) -> (b: bool)
    ensures
        b == starts_with_fence(s@),
{
    let v = chars_of(s);
    v.len() >= 3 && v[0] == '`' && v[1] == '`' && v[2] == '`'
}

/// Strips a leading ```` ```lang ```` line and a trailing ```` ``` ```` fence,
/// and surrounding whitespace, pass after pass until no leading fence is
/// left, so that stripping twice is stripping once.
pub fn strip_code_fence(s: &str) -> (out: String)
    ensures
        out@ == strip_fence_spec(s@),
{
    let mut cur = strip_fence_pass(s);
    proof {
        lemma_strip_step(s@);
        lemma_once_shape(s@);
    }
    while starts_with_fence_str(cur.as_str())
        invariant
            trim(cur@) == cur@,
            strip_fence_spec(s@) == if starts_with_fence(cur@) { strip_fence_spec(cur@) } else { cur@ },
        decreases cur@.len(),
    {
        let next = strip_fence_pass(cur.as_str());
        proof {
            lemma_strip_step(cur@);
            lemma_once_shape(cur@);
        }
        cur = next;
    }
    cur
}

/// Stripping is idempotent: stripping what stripping left changes nothing.
pub proof fn law_strip_fence_idempotent(s: Seq<char>)
    ensures
        strip_fence_spec(strip_fence_spec(s)) == strip_fence_spec(s),
{
    let r = strip_fence_spec(s);
    lemma_strip_result(s);
    lemma_once_shape(r);
    assert(strip_fence_once(r) == r);
}

} // verus!
