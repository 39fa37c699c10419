//! Framing a raw captured usbmon window and sanitizing each event or line.

use vstd::prelude::*;
use vstd::utf8::*;

use crate::capture::sanitize::{
    before_tag, header_stripped, is_tag, law_a_stripped_line_carries_no_data, law_stripping_a_line_is_idempotent,
    lemma_before_tag, line_stripped, sanitize_binary_header, sanitize_text_line, HEADER_LEN,
};
use crate::text::{
    decode, extend_str, find_char, first_index, from_chars, is_space, is_word, join_with, leading_blanks,
    lemma_first_index, lemma_first_index_is, lemma_leading_blanks, lemma_trailing_blanks, lemma_words_are_words,
    lemma_words_concat, slice, to_chars, words_of,
};

verus! {

/// In which order the bytes of a number stand.
#[derive(Debug, Clone, Copy, PartialEq, Eq, Structural)]
pub enum ByteOrder {
    Little,
    Big,
}

/// Four bytes as a number.
pub open spec fn number_of(b: Seq<u8>, order: ByteOrder) -> nat {
    match order {
        ByteOrder::Little => (b[0] + 256 * b[1] + 65_536 * b[2] + 16_777_216 * b[3]) as nat,
        ByteOrder::Big => (b[3] + 256 * b[2] + 65_536 * b[1] + 16_777_216 * b[0]) as nat,
    }
}

/// Four bytes as a number.
pub fn read_number(v: &Vec<u8>, at: usize, order: ByteOrder) -> (r: u32)
    requires
        at + 4 <= v.len(),
    ensures
        r == number_of(v@.subrange(at as int, at + 4), order),
{
    let a = v[at] as u32;
    let b = v[at + 1] as u32;
    let c = v[at + 2] as u32;
    let d = v[at + 3] as u32;
    match order {
        ByteOrder::Little => a + 256 * b + 65_536 * c + 16_777_216 * d,
        ByteOrder::Big => d + 256 * c + 65_536 * b + 16_777_216 * a,
    }
}

/// How many payload bytes the header at the front of `raw` claims.
pub open spec fn payload_len(raw: Seq<u8>, order: ByteOrder) -> nat {
    number_of(raw.subrange(36, 40), order)
}

/// The headers of the complete events at the front of `raw`, stripped.
pub open spec fn events_stripped(raw: Seq<u8>, order: ByteOrder) -> Seq<u8>
    decreases raw.len(),
{
    if raw.len() < 48 || raw.len() < 48 + payload_len(raw, order) {
        Seq::empty()
    } else {
        header_stripped(raw.take(48)) + events_stripped(raw.skip(48 + payload_len(raw, order) as int), order)
    }
}

/// Concatenated binary usbmon events, sanitized: each complete 48-byte header
/// with `len_cap` zeroed and no payload. A trailing partial event (a window
/// cut mid-event) is dropped.
pub fn sanitize_binary_stream(raw: &Vec<u8>, order: ByteOrder) -> (r: Vec<u8>)
    ensures
        r@ == events_stripped(raw@, order),
{
    let mut out: Vec<u8> = Vec::new();
    let mut offset: usize = 0;
    assert(raw@.skip(0) =~= raw@);
    assert(out@ + events_stripped(raw@, order) =~= events_stripped(raw@, order));
    loop
        invariant
            offset <= raw@.len(),
            out@ + events_stripped(raw@.skip(offset as int), order) == events_stripped(raw@, order),
        decreases raw@.len() - offset,
    {
        let ghost rest = raw@.skip(offset as int);
        let left: usize = raw.len() - offset;
        if left < HEADER_LEN {
            assert(out@ =~= events_stripped(raw@, order));
            return out;
        }
        let claimed = read_number(raw, offset + 36, order);
        assert(rest.subrange(36, 40) =~= raw@.subrange(offset + 36, offset + 40));
        if (left - HEADER_LEN) as u64 >= claimed as u64 {
            let mut header: [u8; 48] = [0; 48];
            let mut i: usize = 0;
            while i < 48
                invariant
                    i <= 48,
                    offset + 48 <= raw.len(),
                    header@.len() == 48,
                    forall|j: int| 0 <= j < i ==> header@[j] == raw@[offset + j],
                decreases 48 - i,
            {
                header[i] = raw[offset + i];
                i = i + 1;
            }
            assert(header@ =~= rest.take(48));
            let clean = sanitize_binary_header(&header);
            let ghost before = out@;
            let mut k: usize = 0;
            while k < 48
                invariant
                    k <= 48,
                    clean@.len() == 48,
                    out@ == before + clean@.take(k as int),
                decreases 48 - k,
            {
                out.push(clean[k]);
                assert(clean@.take(k + 1) =~= clean@.take(k as int).push(clean@[k as int]));
                k = k + 1;
            }
            assert(clean@.take(48) =~= clean@);
            let next = offset + HEADER_LEN + claimed as usize;
            proof {
                assert(rest.skip(48 + claimed as int) =~= raw@.skip(next as int));
                assert(out@ + events_stripped(raw@.skip(next as int), order) =~= before + (header_stripped(
                    rest.take(48),
                ) + events_stripped(raw@.skip(next as int), order)));
            }
            offset = next;
        } else {
            assert(out@ =~= events_stripped(raw@, order));
            return out;
        }
    }
}

/// Whether a record of a trace claims payload bytes.
pub open spec fn claims_payload(trace: Seq<u8>, i: int) -> bool {
    trace[48 * i + 36] != 0 || trace[48 * i + 37] != 0 || trace[48 * i + 38] != 0 || trace[48 * i + 39] != 0
}

/// A trace is a whole number of headers, none of which claims payload.
pub open spec fn is_payload_free(trace: Seq<u8>) -> bool {
    trace.len() % 48 == 0 && forall|i: int| 0 <= i < trace.len() / 48 ==> !(#[trigger] claims_payload(trace, i))
}

/// A sanitized stream is whole headers without payload.
pub proof fn law_a_sanitized_stream_is_payload_free(raw: Seq<u8>, order: ByteOrder)
    ensures
        is_payload_free(events_stripped(raw, order)),
    decreases raw.len(),
{
    if raw.len() >= 48 && raw.len() >= 48 + payload_len(raw, order) {
        let rest = raw.skip(48 + payload_len(raw, order) as int);
        law_a_sanitized_stream_is_payload_free(rest, order);
        let tail = events_stripped(rest, order);
        let all = events_stripped(raw, order);
        assert forall|i: int| 0 <= i < all.len() / 48 implies !(#[trigger] claims_payload(all, i)) by {
            if i > 0 {
                assert(!claims_payload(tail, i - 1));
                assert(all[48 * i + 36] == tail[48 * (i - 1) + 36]);
                assert(all[48 * i + 37] == tail[48 * (i - 1) + 37]);
                assert(all[48 * i + 38] == tail[48 * (i - 1) + 38]);
                assert(all[48 * i + 39] == tail[48 * (i - 1) + 39]);
            }
        }
    }
}

/// A stream without payload stays as it is.
pub proof fn lemma_payload_free_is_kept(trace: Seq<u8>, order: ByteOrder)
    requires
        is_payload_free(trace),
    ensures
        events_stripped(trace, order) == trace,
    decreases trace.len(),
{
    if trace.len() >= 48 {
        assert(!claims_payload(trace, 0));
        assert(payload_len(trace, order) == 0);
        let rest = trace.skip(48);
        assert forall|i: int| 0 <= i < rest.len() / 48 implies !(#[trigger] claims_payload(rest, i)) by {
            assert(!claims_payload(trace, i + 1));
            assert(rest[48 * i + 36] == trace[48 * (i + 1) + 36]);
            assert(rest[48 * i + 37] == trace[48 * (i + 1) + 37]);
            assert(rest[48 * i + 38] == trace[48 * (i + 1) + 38]);
            assert(rest[48 * i + 39] == trace[48 * (i + 1) + 39]);
        }
        lemma_payload_free_is_kept(rest, order);
        assert(header_stripped(trace.take(48)) =~= trace.take(48));
        assert(trace.take(48) + rest =~= trace);
    } else {
        assert(trace.len() == 0);
        assert(events_stripped(trace, order) =~= trace);
    }
}

/// Sanitizing a sanitized stream changes nothing.
pub proof fn law_sanitizing_a_stream_is_idempotent(raw: Seq<u8>, order: ByteOrder)
    ensures
        events_stripped(events_stripped(raw, order), order) == events_stripped(raw, order),
{
    law_a_sanitized_stream_is_payload_free(raw, order);
    lemma_payload_free_is_kept(events_stripped(raw, order), order);
}

/// The complete lines of a text, each stripped and ended by a newline.
pub open spec fn lines_stripped(text: Seq<char>) -> Seq<char>
    decreases text.len(),
{
    let k = first_index(text, '\n');
    if k >= text.len() {
        Seq::empty()
    } else {
        line_stripped(text.take(k as int)).push('\n') + lines_stripped(text.skip(k as int + 1))
    }
}

/// A text that is not UTF-8.
#[derive(Debug, Clone, Copy, PartialEq, Eq, Structural)]
pub struct NotUtf8;

/// Text lines, sanitized: one sanitized line and a newline for every complete
/// line. A trailing line without a newline (a window cut mid-line) is
/// dropped.
pub fn sanitize_text_stream(raw: Vec<u8>) -> (r: Result<String, NotUtf8>)
    ensures
        r is Ok <==> valid_utf8(raw@),
        r matches Ok(s) ==> s@ == lines_stripped(decode_utf8(raw@)),
{
    let ghost bytes = raw@;
    let text = match decode(raw) {
        None => {
            return Err(NotUtf8);
        },
        Some(t) => t,
    };
    let v = to_chars(text.as_str());
    let mut out: Vec<char> = Vec::new();
    let mut at: usize = 0;
    assert(v@.skip(0) =~= v@);
    assert(out@ + lines_stripped(v@) =~= lines_stripped(v@));
    loop
        invariant
            at <= v@.len(),
            bytes == raw@,
            valid_utf8(bytes),
            v@ == decode_utf8(bytes),
            out@ + lines_stripped(v@.skip(at as int)) == lines_stripped(v@),
        decreases v@.len() - at,
    {
        let ghost rest = v@.skip(at as int);
        let end = find_char(&v, '\n', at);
        proof {
            lemma_first_index(rest, '\n');
        }
        if end >= v.len() {
            assert(out@ =~= lines_stripped(v@));
            return Ok(from_chars(&out));
        }
        let line = slice(&v, at, end);
        assert(line@ =~= rest.take(end - at));
        let line_text = from_chars(&line);
        let clean = sanitize_text_line(line_text.as_str());
        let ghost before = out@;
        extend_str(&mut out, clean.as_str());
        out.push('\n');
        assert(rest.skip(end - at + 1) =~= v@.skip(end + 1));
        assert(out@ + lines_stripped(v@.skip(end + 1)) =~= before + (line_stripped(rest.take(end - at)).push('\n')
            + lines_stripped(v@.skip(end + 1))));
        at = end + 1;
    }
}

/// No `=` token survives in sanitized text.
pub proof fn law_sanitized_text_carries_no_data_tag(text: Seq<char>)
    ensures
        !words_of(lines_stripped(text)).contains("="@),
    decreases text.len(),
{
    let k = first_index(text, '\n') as int;
    lemma_first_index(text, '\n');
    if k < text.len() {
        let line = line_stripped(text.take(k));
        let rest = text.skip(k + 1);
        law_sanitized_text_carries_no_data_tag(rest);
        lemma_words_concat(line, '\n', lines_stripped(rest));
        law_a_stripped_line_carries_no_data(text.take(k));
        let a = words_of(line);
        let b = words_of(lines_stripped(rest));
        assert(is_tag("="@));
        reveal_strlit("=");
        reveal_strlit("<");
        assert("="@[0] == '=' && "<"@[0] == '<');
        assert forall|i: int| 0 <= i < (a + b).len() implies (a + b)[i] != "="@ by {
            if i < a.len() {
                assert(a[i] == (a + b)[i]);
            } else {
                assert(b[i - a.len()] == (a + b)[i]);
                assert(b.contains(b[i - a.len()]));
            }
        }
    } else {
        assert(words_of(lines_stripped(text)) =~= Seq::<Seq<char>>::empty());
    }
}

proof fn lemma_joined_words_have_no_newline(ws: Seq<Seq<char>>)
    requires
        forall|i: int| 0 <= i < ws.len() ==> is_word(#[trigger] ws[i]),
    ensures
        forall|j: int| 0 <= j < join_with(ws, " "@).len() ==> #[trigger] join_with(ws, " "@)[j] != '\n',
    decreases ws.len(),
{
    reveal_strlit(" ");
    let all = join_with(ws, " "@);
    if ws.len() > 0 {
        let last = ws[ws.len() - 1];
        assert(is_word(last));
        if ws.len() > 1 {
            let front = ws.drop_last();
            lemma_joined_words_have_no_newline(front);
            let head = join_with(front, " "@);
            assert forall|j: int| 0 <= j < all.len() implies #[trigger] all[j] != '\n' by {
                if j < head.len() {
                    assert(all[j] == head[j]);
                } else if j > head.len() {
                    assert(all[j] == last[j - head.len() - 1]);
                    assert(!is_space(last[j - head.len() - 1]));
                }
            }
        } else {
            assert forall|j: int| 0 <= j < all.len() implies #[trigger] all[j] != '\n' by {
                assert(all[j] == last[j]);
                assert(!is_space(last[j]));
            }
        }
    }
}

/// A stripped line is one line.
proof fn lemma_a_stripped_line_is_one_line(line: Seq<char>)
    requires
        forall|j: int| 0 <= j < line.len() ==> #[trigger] line[j] != '\n',
    ensures
        forall|j: int| 0 <= j < line_stripped(line).len() ==> #[trigger] line_stripped(line)[j] != '\n',
{
    let tokens = words_of(line);
    lemma_words_are_words(line);
    let k = before_tag(tokens) as int;
    lemma_before_tag(tokens);
    reveal_strlit(" <");
    if k < tokens.len() {
        let front = tokens.take(k);
        assert forall|i: int| 0 <= i < front.len() implies is_word(#[trigger] front[i]) by {
            assert(front[i] == tokens[i]);
        }
        lemma_joined_words_have_no_newline(front);
    } else {
        let from = leading_blanks(line, false) as int;
        lemma_leading_blanks(line, false);
        lemma_trailing_blanks(line.skip(from), false);
        let out = line_stripped(line);
        assert forall|j: int| 0 <= j < out.len() implies #[trigger] out[j] != '\n' by {
            assert(out[j] == line[from + j]);
        }
    }
}

/// Sanitizing sanitized text changes nothing.
pub proof fn law_sanitizing_text_is_idempotent(text: Seq<char>)
    ensures
        lines_stripped(lines_stripped(text)) == lines_stripped(text),
    decreases text.len(),
{
    let k = first_index(text, '\n') as int;
    lemma_first_index(text, '\n');
    if k < text.len() {
        let line = line_stripped(text.take(k));
        let rest = lines_stripped(text.skip(k + 1));
        let all = lines_stripped(text);
        law_sanitizing_text_is_idempotent(text.skip(k + 1));
        lemma_a_stripped_line_is_one_line(text.take(k));
        law_stripping_a_line_is_idempotent(text.take(k));
        assert forall|j: int| 0 <= j < line.len() implies all[j] != '\n' by {
            assert(all[j] == line[j]);
        }
        lemma_first_index_is(all, '\n', line.len() as int);
        assert(all.take(line.len() as int) =~= line);
        assert(all.skip(line.len() as int + 1) =~= rest);
    }
}

} // verus!
