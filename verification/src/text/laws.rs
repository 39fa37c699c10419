//! What the text helpers promise: trimming takes white space off the two ends
//! and nothing else, and a text falls into its lines.

use vstd::prelude::*;

use super::{
    first_starting, is_blank, is_space, leading_blanks, lemma_first_index_is, lemma_leading_blanks,
    lemma_trailing_blanks, lines_of, occurs, occurs_at, starts, trailing_blanks, trim_blanks, trimmed, unquoted,
};

verus! {

/// Among the ASCII characters, white space is the space, the tab, the line
/// feed, the carriage return, and the vertical tab and form feed between them.
pub proof fn law_white_space_among_ascii(c: char)
    requires
        c <= '\x7f',
    ensures
        is_space(c) <==> c == ' ' || c == '\t' || c == '\n' || c == '\r' || c == '\x0b' || c == '\x0c',
{
}

proof fn lemma_trailing_all(s: Seq<char>, nul: bool)
    ensures
        forall|j: int| s.len() - trailing_blanks(s, nul) <= j < s.len() ==> is_blank(#[trigger] s[j], nul),
    decreases s.len(),
{
    if s.len() > 0 && is_blank(s.last(), nul) {
        let front = s.drop_last();
        lemma_trailing_all(front, nul);
        lemma_trailing_blanks(front, nul);
        assert forall|j: int| s.len() - trailing_blanks(s, nul) <= j < s.len() implies is_blank(
            #[trigger] s[j],
            nul,
        ) by {
            if j < front.len() {
                assert(front[j] == s[j]);
            }
        }
    }
}

/// Trimming takes off blanks alone, at the two ends alone, and all of them:
/// what is left is a stretch of the text that neither starts nor ends with a
/// blank, and everything around it is blank.
pub proof fn law_trimming_takes_the_blanks_off(s: Seq<char>, nul: bool) -> (from: int)
    ensures
        ({
            let t = trim_blanks(s, nul);
            &&& 0 <= from && from + t.len() <= s.len()
            &&& t == s.subrange(from, from + t.len())
            &&& t.len() > 0 ==> !is_blank(t[0], nul) && !is_blank(t.last(), nul)
            &&& forall|j: int| 0 <= j < from ==> is_blank(#[trigger] s[j], nul)
            &&& forall|j: int| from + t.len() <= j < s.len() ==> is_blank(#[trigger] s[j], nul)
        }),
        trimmed(s) == trim_blanks(s, false),
        forall|c: char| #[trigger] is_blank(c, false) <==> is_space(c),
        forall|c: char| #[trigger] is_blank(c, true) <==> is_space(c) || c == '\0',
{
    let k = leading_blanks(s, nul) as int;
    lemma_leading_blanks(s, nul);
    let rest = s.skip(k);
    lemma_trailing_blanks(rest, nul);
    lemma_trailing_all(rest, nul);
    let m = trailing_blanks(rest, nul) as int;
    let t = trim_blanks(s, nul);
    assert(t =~= s.subrange(k, k + t.len()));
    assert forall|j: int| k + t.len() <= j < s.len() implies is_blank(#[trigger] s[j], nul) by {
        assert(rest[j - k] == s[j]);
    }
    if t.len() > 0 {
        assert(t[0] == s[k]);
        assert(t.last() == rest[rest.len() - m - 1]);
    }
    k
}

/// A text falls into its lines: what stands before a line feed is a line, but
/// for a carriage return at its end, and the rest follows; text behind the
/// last line feed is a line of its own.
pub proof fn law_a_text_falls_into_its_lines(line: Seq<char>, rest: Seq<char>)
    requires
        !line.contains('\n'),
    ensures
        line.len() == 0 || line.last() != '\r' ==> lines_of(line.push('\n') + rest) == seq![line] + lines_of(rest),
        lines_of(line.push('\r').push('\n') + rest) == seq![line] + lines_of(rest),
        line.len() > 0 ==> lines_of(line) == seq![line],
{
    let s = line.push('\n') + rest;
    assert forall|j: int| 0 <= j < line.len() implies s[j] != '\n' by {
        assert(s[j] == line[j]);
    }
    lemma_first_index_is(s, '\n', line.len() as int);
    assert(s.take(line.len() as int) =~= line);
    assert(s.skip(line.len() as int + 1) =~= rest);
    let back = line.push('\r');
    let u = back.push('\n') + rest;
    assert forall|j: int| 0 <= j < back.len() implies u[j] != '\n' by {
        if j < line.len() {
            assert(u[j] == line[j]);
        }
    }
    lemma_first_index_is(u, '\n', back.len() as int);
    assert(u.take(back.len() as int) =~= back);
    assert(u.skip(back.len() as int + 1) =~= rest);
    assert(back.drop_last() =~= line);
    lemma_first_index_is(line, '\n', line.len() as int);
}

/// The line that is found is the first that starts so.
pub proof fn law_the_first_line_that_starts_so_is_found(lines: Seq<Seq<char>>, p: Seq<char>, k: int)
    requires
        0 <= k <= lines.len(),
        k < lines.len() ==> starts(lines[k], p),
        forall|j: int| 0 <= j < k ==> !starts(#[trigger] lines[j], p),
    ensures
        first_starting(lines, p) == (if k < lines.len() {
            Some(lines[k])
        } else {
            None
        }),
    decreases lines.len(),
{
    if k > 0 {
        assert(!starts(lines[0], p));
        assert forall|j: int| 0 <= j < k - 1 implies !starts(#[trigger] lines.skip(1)[j], p) by {
            assert(lines.skip(1)[j] == lines[j + 1]);
        }
        law_the_first_line_that_starts_so_is_found(lines.skip(1), p, k - 1);
    }
}

/// A text starts with another, or holds it, when the characters agree.
pub proof fn law_a_text_starts_with_or_holds_another(front: Seq<char>, p: Seq<char>, rest: Seq<char>, s: Seq<char>)
    ensures
        starts(p + rest, p),
        starts(s, p) ==> s == p + s.skip(p.len() as int),
        occurs(front + p + rest, p),
        occurs(s, p) ==> exists|a: Seq<char>, b: Seq<char>| s == #[trigger] (a + p + b),
{
    assert((p + rest).take(p.len() as int) =~= p);
    if starts(s, p) {
        assert(s =~= s.take(p.len() as int) + s.skip(p.len() as int));
    }
    let t = front + p + rest;
    assert(t.subrange(front.len() as int, front.len() as int + p.len()) =~= p);
    assert(occurs_at(t, p, front.len() as int));
    if occurs(s, p) {
        let i = choose|i: int| occurs_at(s, p, i);
        let a = s.take(i);
        let b = s.skip(i + p.len());
        assert(s =~= a + s.subrange(i, i + p.len()) + b);
        assert(s == a + p + b);
    }
}

/// Quotes around a text are taken off, and a text without them at its ends
/// stays.
pub proof fn law_quotes_are_taken_off(s: Seq<char>)
    requires
        s.len() > 0,
        s[0] != '"',
        s.last() != '"',
    ensures
        unquoted(s) == s,
        unquoted(s.push('"')) == s,
        unquoted(seq!['"'] + s) == s,
        unquoted(seq!['"'] + s.push('"')) == s,
{
    assert(unquoted(s) == s);
    let back = s.push('"');
    assert(back.drop_last() =~= s);
    assert(back[0] == s[0] && back.last() == '"');
    assert(unquoted(back) == unquoted(s));
    let front = seq!['"'] + s;
    assert(front.skip(1) =~= s);
    assert(front[0] == '"');
    assert(unquoted(front) == unquoted(s));
    let both = seq!['"'] + back;
    assert(both.skip(1) =~= back);
    assert(both[0] == '"');
    assert(unquoted(both) == unquoted(back));
}

} // verus!
