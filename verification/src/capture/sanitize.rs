//! Stripping captured USB payload from one usbmon event before it is written
//! into a fixture. Byte accounting uses the header's `length` field, not
//! `len_cap` or the data field, so stripping changes no golden.

use vstd::prelude::*;

use crate::text::{
    char_views, extend_str, from_chars, is_word, join, join_with, lemma_trimmed, lemma_words_are_words,
    lemma_words_concat, lemma_words_of_join, lemma_words_of_word, to_chars, trim, trimmed, words, words_of,
};

verus! {

/// The bytes of a binary usbmon header.
pub const HEADER_LEN: usize = 48;

/// A header with `len_cap` (bytes 36 to 39) zero.
pub open spec fn header_stripped(header: Seq<u8>) -> Seq<u8> {
    header.update(36, 0).update(37, 0).update(38, 0).update(39, 0)
}

/// One 48-byte binary usbmon header with `len_cap` (bytes 36 to 39) forced to
/// zero. No payload bytes are ever written after the returned header, so the
/// sanitized event carries no captured data.
pub fn sanitize_binary_header(header: &[u8; 48]) -> (r: [u8; 48])
    ensures
        r@ == header_stripped(header@),
{
    let mut out = *header;
    out[36] = 0;
    out[37] = 0;
    out[38] = 0;
    out[39] = 0;
    out
}

/// Whether a token introduces the data field.
pub open spec fn is_tag(token: Seq<char>) -> bool {
    token == "="@ || token == "<"@ || token == ">"@
}

/// How many tokens stand before the first data tag.
pub open spec fn before_tag(tokens: Seq<Seq<char>>) -> nat
    decreases tokens.len(),
{
    if tokens.len() == 0 || is_tag(tokens[0]) {
        0
    } else {
        1 + before_tag(tokens.skip(1))
    }
}

/// A line with its data field elided; without one, the line trimmed.
pub open spec fn line_stripped(line: Seq<char>) -> Seq<char> {
    let tokens = words_of(line);
    let k = before_tag(tokens) as int;
    if k < tokens.len() {
        join_with(tokens.take(k), " "@) + " <"@
    } else {
        trimmed(line)
    }
}

proof fn lemma_before_tag_is(tokens: Seq<Seq<char>>, k: int)
    requires
        0 <= k <= tokens.len(),
        forall|j: int| 0 <= j < k ==> !is_tag(#[trigger] tokens[j]),
        k < tokens.len() ==> is_tag(tokens[k]),
    ensures
        before_tag(tokens) == k,
    decreases tokens.len(),
{
    if k > 0 {
        let t = tokens.skip(1);
        assert(!is_tag(tokens[0]));
        assert forall|j: int| 0 <= j < k - 1 implies !is_tag(#[trigger] t[j]) by {
            assert(t[j] == tokens[j + 1]);
        }
        lemma_before_tag_is(t, k - 1);
    }
}

pub proof fn lemma_before_tag(tokens: Seq<Seq<char>>)
    ensures
        before_tag(tokens) <= tokens.len(),
        forall|j: int| 0 <= j < before_tag(tokens) ==> !is_tag(#[trigger] tokens[j]),
        before_tag(tokens) < tokens.len() ==> is_tag(tokens[before_tag(tokens) as int]),
    decreases tokens.len(),
{
    if tokens.len() > 0 && !is_tag(tokens[0]) {
        let t = tokens.skip(1);
        lemma_before_tag(t);
        assert forall|j: int| 0 <= j < before_tag(tokens) implies !is_tag(#[trigger] tokens[j]) by {
            if j > 0 {
                assert(t[j - 1] == tokens[j]);
            }
        }
    }
}

fn tag(token: &Vec<char>) -> (r: bool)
    ensures
        r == is_tag(token@),
{
    proof {
        reveal_strlit("=");
        reveal_strlit("<");
        reveal_strlit(">");
    }
    if token.len() != 1 {
        return false;
    }
    let c = token[0];
    assert(c == '=' ==> token@ =~= "="@);
    assert(c == '<' ==> token@ =~= "<"@);
    assert(c == '>' ==> token@ =~= ">"@);
    c == '=' || c == '<' || c == '>'
}

/// One text line with its data field elided. Every token up to the data tag
/// (`=`, `<` or `>`, the only single-character tokens that introduce the data
/// field) is kept verbatim: the length column, iso descriptors, and any
/// control SETUP header. The data tag and its hex are replaced with a bare
/// `<`. A line with no data tag (a bare `E` event) is returned trimmed and
/// unchanged. Hex data words are `[0-9a-f]+`, so none can be mistaken
/// for a tag; the first tag token is always the real data field.
pub fn sanitize_text_line(line: &str) -> (r: String)
    ensures
        r@ == line_stripped(line@),
{
    let v = to_chars(line);
    let mut tokens = words(&v);
    let ghost views = char_views(tokens@);
    let mut k: usize = 0;
    while k < tokens.len() && !tag(&tokens[k])
        invariant
            k <= tokens@.len(),
            views == char_views(tokens@),
            forall|j: int| 0 <= j < k ==> !is_tag(#[trigger] views[j]),
        decreases tokens@.len() - k,
    {
        assert(views[k as int] == tokens@[k as int]@);
        k = k + 1;
    }
    proof {
        if k < tokens@.len() {
            assert(views[k as int] == tokens@[k as int]@);
        }
        lemma_before_tag_is(views, k as int);
    }
    if k < tokens.len() {
        let sep = to_chars(" ");
        tokens.truncate(k);
        assert(char_views(tokens@) =~= views.take(k as int));
        let mut out = join(&tokens, &sep);
        extend_str(&mut out, " <");
        from_chars(&out)
    } else {
        from_chars(&trim(&v))
    }
}

/// The words of a stripped line: those before the tag, and a bare `<` in the
/// place of the tag and what followed it.
pub proof fn lemma_stripped_words(line: Seq<char>)
    ensures
        ({
            let tokens = words_of(line);
            let k = before_tag(tokens) as int;
            words_of(line_stripped(line)) == (if k < tokens.len() {
                tokens.take(k).push("<"@)
            } else {
                tokens
            })
        }),
{
    let tokens = words_of(line);
    let k = before_tag(tokens) as int;
    lemma_words_are_words(line);
    lemma_before_tag(tokens);
    if k < tokens.len() {
        let front = tokens.take(k);
        assert forall|i: int| 0 <= i < front.len() implies is_word(#[trigger] front[i]) by {
            assert(front[i] == tokens[i]);
        }
        lemma_words_of_join(front);
        reveal_strlit(" <");
        reveal_strlit("<");
        assert(join_with(front, " "@) + " <"@ == join_with(front, " "@).push(' ') + "<"@);
        lemma_words_concat(join_with(front, " "@), ' ', "<"@);
        assert(is_word("<"@));
        lemma_words_of_word("<"@);
        assert(front + seq!["<"@] == front.push("<"@));
    } else {
        lemma_trimmed(line);
    }
}

/// No data tag survives but a bare `<` at the end, and nothing follows it.
pub proof fn law_a_stripped_line_carries_no_data(line: Seq<char>)
    ensures
        ({
            let w = words_of(line_stripped(line));
            forall|i: int| 0 <= i < w.len() && is_tag(#[trigger] w[i]) ==> w[i] == "<"@ && i == w.len() - 1
        }),
{
    lemma_stripped_words(line);
    lemma_before_tag(words_of(line));
    let tokens = words_of(line);
    let k = before_tag(tokens) as int;
    let w = words_of(line_stripped(line));
    assert forall|i: int| 0 <= i < w.len() && is_tag(#[trigger] w[i]) implies w[i] == "<"@ && i == w.len()
        - 1 by {
        if i < k {
            assert(w[i] == tokens[i]);
        }
    }
}

/// Stripping a stripped line changes nothing.
pub proof fn law_stripping_a_line_is_idempotent(line: Seq<char>)
    ensures
        line_stripped(line_stripped(line)) == line_stripped(line),
{
    lemma_stripped_words(line);
    let tokens = words_of(line);
    lemma_before_tag(tokens);
    let k = before_tag(tokens) as int;
    let again = words_of(line_stripped(line));
    if k < tokens.len() {
        assert forall|j: int| 0 <= j < k implies !is_tag(#[trigger] again[j]) by {
            assert(again[j] == tokens[j]);
        }
        assert(is_tag(again[k]));
        lemma_before_tag_is(again, k);
        assert(again.take(k) == tokens.take(k));
    } else {
        lemma_trimmed(line);
    }
}

/// A line with no data tag is only trimmed.
pub proof fn law_a_line_without_data_is_only_trimmed(line: Seq<char>)
    requires
        forall|i: int| 0 <= i < words_of(line).len() ==> !is_tag(#[trigger] words_of(line)[i]),
    ensures
        line_stripped(line) == trimmed(line),
{
    lemma_before_tag_is(words_of(line), words_of(line).len() as int);
}

/// What stands before the data field stays: the length column, the
/// descriptors and the SETUP header included.
pub proof fn law_stripping_keeps_what_precedes_the_data(line: Seq<char>, i: int)
    requires
        0 <= i < before_tag(words_of(line)),
    ensures
        i < words_of(line_stripped(line)).len(),
        words_of(line_stripped(line))[i] == words_of(line)[i],
{
    lemma_stripped_words(line);
    lemma_before_tag(words_of(line));
}

} // verus!
