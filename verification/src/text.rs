//! Text as a sequence of characters: splitting, trimming, joining and
//! searching, each stated over `Seq<char>` and computed on `Vec<char>`.

pub mod laws;

use vstd::prelude::*;
use vstd::utf8::*;

verus! {

/// `String::push` appends one character.
pub assume_specification[ String::push ](s: &mut String, c: char)
    ensures
        final(s)@ == old(s)@.push(c),
;

/// The characters held by each of several strings.
pub open spec fn string_views(v: Seq<String>) -> Seq<Seq<char>> {
    v.map_values(|s: String| s@)
}

/// The characters held by each of several character vectors.
pub open spec fn char_views(v: Seq<Vec<char>>) -> Seq<Seq<char>> {
    v.map_values(|s: Vec<char>| s@)
}

/// The characters of `s`.
pub fn to_chars(s: &str) -> (v: Vec<char>)
    ensures
        v@ == s@,
{
    let mut v: Vec<char> = Vec::new();
    for c in it: s.chars()
        invariant
            v@ == s@.take(it.index()),
            it.seq() == s@,
    {
        v.push(c);
        assert(s@.take(it.index() + 1) == s@.take(it.index()).push(c));
    }
    assert(s@.take(s@.len() as int) == s@);
    v
}

/// The string made of `v`.
pub fn from_chars(v: &Vec<char>) -> (s: String)
    ensures
        s@ == v@,
{
    let mut s = String::new();
    let mut i: usize = 0;
    while i < v.len()
        invariant
            i <= v.len(),
            s@ == v@.take(i as int),
        decreases v.len() - i,
    {
        s.push(v[i]);
        assert(v@.take(i + 1) == v@.take(i as int).push(v@[i as int]));
        i = i + 1;
    }
    assert(v@.take(v@.len() as int) == v@);
    s
}


/// Whether two strings hold the same characters.
pub fn str_eq(a: &str, b: &str) -> (r: bool)
    ensures
        r == (a@ == b@),
{
    a.to_owned() == b.to_owned()
}

/// Whether two character vectors are the same.
pub fn chars_eq(a: &Vec<char>, b: &Vec<char>) -> (r: bool)
    ensures
        r == (a@ == b@),
{
    if a.len() != b.len() {
        return false;
    }
    let mut i: usize = 0;
    while i < a.len()
        invariant
            i <= a.len(),
            a.len() == b.len(),
            forall|j: int| 0 <= j < i ==> a@[j] == b@[j],
        decreases a.len() - i,
    {
        if a[i] != b[i] {
            return false;
        }
        i = i + 1;
    }
    assert(a@ == b@);
    true
}

/// The characters `v[from..to]`.
pub fn slice(v: &Vec<char>, from: usize, to: usize) -> (r: Vec<char>)
    requires
        from <= to <= v.len(),
    ensures
        r@ == v@.subrange(from as int, to as int),
{
    let mut r: Vec<char> = Vec::new();
    let mut i: usize = from;
    while i < to
        invariant
            from <= i <= to <= v.len(),
            r@ == v@.subrange(from as int, i as int),
        decreases to - i,
    {
        r.push(v[i]);
        assert(v@.subrange(from as int, i + 1) == v@.subrange(from as int, i as int).push(v@[i as int]));
        i = i + 1;
    }
    r
}

/// Append all of `tail` to `v`.
pub fn extend(v: &mut Vec<char>, tail: &Vec<char>)
    ensures
        final(v)@ == old(v)@ + tail@,
{
    let mut i: usize = 0;
    let ghost start = v@;
    while i < tail.len()
        invariant
            i <= tail.len(),
            v@ == start + tail@.take(i as int),
        decreases tail.len() - i,
    {
        v.push(tail[i]);
        assert(tail@.take(i + 1) == tail@.take(i as int).push(tail@[i as int]));
        assert(v@ == start + tail@.take(i + 1));
        i = i + 1;
    }
    assert(tail@.take(tail@.len() as int) == tail@);
}

/// Append the characters of `tail` to `v`.
pub fn extend_str(v: &mut Vec<char>, tail: &str)
    ensures
        final(v)@ == old(v)@ + tail@,
{
    let t = to_chars(tail);
    extend(v, &t);
}

/// The position of the first `c` in `s`, or `s.len()` when there is none.
pub open spec fn first_index(s: Seq<char>, c: char) -> nat
    decreases s.len(),
{
    if s.len() == 0 || s[0] == c {
        0
    } else {
        1 + first_index(s.skip(1), c)
    }
}

pub proof fn lemma_first_index(s: Seq<char>, c: char)
    ensures
        first_index(s, c) <= s.len(),
        first_index(s, c) < s.len() ==> s[first_index(s, c) as int] == c,
        forall|j: int| 0 <= j < first_index(s, c) ==> s[j] != c,
    decreases s.len(),
{
    if s.len() != 0 && s[0] != c {
        lemma_first_index(s.skip(1), c);
        let k = first_index(s.skip(1), c);
        assert forall|j: int| 0 <= j < 1 + k implies s[j] != c by {
            if j > 0 {
                assert(s.skip(1)[j - 1] == s[j]);
            }
        }
    }
}

pub proof fn lemma_first_index_is(s: Seq<char>, c: char, k: int)
    requires
        0 <= k <= s.len(),
        forall|j: int| 0 <= j < k ==> s[j] != c,
        k < s.len() ==> s[k] == c,
    ensures
        first_index(s, c) == k,
{
    lemma_first_index(s, c);
    let f = first_index(s, c) as int;
    if f < k {
        assert(s[f] == c);
    }
    if k < f {
        assert(s[k] == c);
    }
}

/// The position of the first `c` at or after `from`, or the length.
pub fn find_char(v: &Vec<char>, c: char, from: usize) -> (r: usize)
    requires
        from <= v.len(),
    ensures
        from <= r <= v.len(),
        r - from == first_index(v@.skip(from as int), c),
        forall|j: int| from <= j < r ==> v@[j] != c,
        r < v.len() ==> v@[r as int] == c,
{
    let mut i: usize = from;
    while i < v.len() && v[i] != c
        invariant
            from <= i <= v.len(),
            forall|j: int| from <= j < i ==> v@[j] != c,
        decreases v.len() - i,
    {
        i = i + 1;
    }
    proof {
        let t = v@.skip(from as int);
        assert forall|j: int| 0 <= j < i - from implies t[j] != c by {
            assert(t[j] == v@[from + j]);
        }
        lemma_first_index_is(t, c, i - from);
    }
    i
}

/// `s` cut at every `sep`: one piece more than there are separators.
pub open spec fn split_on(s: Seq<char>, sep: char) -> Seq<Seq<char>>
    decreases s.len(),
{
    let k = first_index(s, sep);
    if k >= s.len() {
        seq![s]
    } else {
        seq![s.take(k as int)] + split_on(s.skip(k as int + 1), sep)
    }
}

pub proof fn lemma_split_on_nonempty(s: Seq<char>, sep: char)
    ensures
        split_on(s, sep).len() >= 1,
{
}

/// The pieces of `v` between separators.
pub fn split(v: &Vec<char>, sep: char) -> (r: Vec<Vec<char>>)
    ensures
        char_views(r@) == split_on(v@, sep),
{
    let mut r: Vec<Vec<char>> = Vec::new();
    let mut start: usize = 0;
    assert(v@.skip(0) == v@);
    assert(char_views(r@) + split_on(v@, sep) == split_on(v@, sep));
    loop
        invariant
            start <= v.len(),
            char_views(r@) + split_on(v@.skip(start as int), sep) == split_on(v@, sep),
        decreases v.len() + 1 - start,
    {
        let k = find_char(v, sep, start);
        let piece = slice(v, start, k);
        let ghost before = char_views(r@);
        let ghost rest = v@.skip(start as int);
        r.push(piece);
        assert(char_views(r@) == before.push(piece@));
        if k >= v.len() {
            assert(piece@ == rest);
            assert(split_on(rest, sep) == seq![rest]);
            assert(char_views(r@) == before + seq![rest]);
            return r;
        }
        proof {
            assert(rest.take(k - start) == piece@);
            assert(rest.skip(k - start + 1) == v@.skip(k + 1));
            assert(before.push(piece@) + split_on(v@.skip(k + 1), sep)
                == before + (seq![piece@] + split_on(v@.skip(k + 1), sep)));
        }
        start = k + 1;
    }
}

/// `parts` with `sep` between each two neighbours.
pub open spec fn join_with(parts: Seq<Seq<char>>, sep: Seq<char>) -> Seq<char>
    decreases parts.len(),
{
    if parts.len() == 0 {
        Seq::empty()
    } else if parts.len() == 1 {
        parts[0]
    } else {
        join_with(parts.drop_last(), sep) + sep + parts.last()
    }
}

/// The pieces joined by `sep`.
pub fn join(parts: &Vec<Vec<char>>, sep: &Vec<char>) -> (r: Vec<char>)
    ensures
        r@ == join_with(char_views(parts@), sep@),
{
    let mut r: Vec<char> = Vec::new();
    let mut i: usize = 0;
    let ghost views = char_views(parts@);
    while i < parts.len()
        invariant
            i <= parts.len(),
            views == char_views(parts@),
            r@ == join_with(views.take(i as int), sep@),
        decreases parts.len() - i,
    {
        if i > 0 {
            extend(&mut r, sep);
        }
        extend(&mut r, &parts[i]);
        assert(views.take(i + 1).drop_last() == views.take(i as int));
        i = i + 1;
    }
    assert(views.take(views.len() as int) == views);
    r
}

/// Unicode's White_Space property.
pub open spec fn is_space(c: char) -> bool {
    ||| '\u{9}' <= c <= '\u{d}'
    ||| c == '\u{20}'
    ||| c == '\u{85}'
    ||| c == '\u{a0}'
    ||| c == '\u{1680}'
    ||| '\u{2000}' <= c <= '\u{200a}'
    ||| c == '\u{2028}'
    ||| c == '\u{2029}'
    ||| c == '\u{202f}'
    ||| c == '\u{205f}'
    ||| c == '\u{3000}'
}

/// Whether `c` is white space.
pub fn space(c: char) -> (r: bool)
    ensures
        r == is_space(c),
{
    ('\u{9}' <= c && c <= '\u{d}') || c == '\u{20}' || c == '\u{85}' || c == '\u{a0}' || c
        == '\u{1680}' || ('\u{2000}' <= c && c <= '\u{200a}') || c == '\u{2028}' || c == '\u{2029}'
        || c == '\u{202f}' || c == '\u{205f}' || c == '\u{3000}'
}

/// Whether trimming takes `c` off: white space, and NUL where `nul` says so.
pub open spec fn is_blank(c: char, nul: bool) -> bool {
    is_space(c) || (nul && c == '\0')
}

/// How many blanks `s` starts with.
pub open spec fn leading_blanks(s: Seq<char>, nul: bool) -> nat
    decreases s.len(),
{
    if s.len() == 0 || !is_blank(s[0], nul) {
        0
    } else {
        1 + leading_blanks(s.skip(1), nul)
    }
}

/// How many blanks `s` ends with.
pub open spec fn trailing_blanks(s: Seq<char>, nul: bool) -> nat
    decreases s.len(),
{
    if s.len() == 0 || !is_blank(s.last(), nul) {
        0
    } else {
        1 + trailing_blanks(s.drop_last(), nul)
    }
}

pub proof fn lemma_leading_blanks_is(s: Seq<char>, nul: bool, k: int)
    requires
        0 <= k <= s.len(),
        forall|j: int| 0 <= j < k ==> is_blank(s[j], nul),
        k < s.len() ==> !is_blank(s[k], nul),
    ensures
        leading_blanks(s, nul) == k,
    decreases s.len(),
{
    if k > 0 {
        assert(is_blank(s[0], nul));
        let t = s.skip(1);
        assert forall|j: int| 0 <= j < k - 1 implies is_blank(t[j], nul) by {
            assert(t[j] == s[j + 1]);
        }
        lemma_leading_blanks_is(t, nul, k - 1);
    }
}

pub proof fn lemma_leading_blanks(s: Seq<char>, nul: bool)
    ensures
        leading_blanks(s, nul) <= s.len(),
        forall|j: int| 0 <= j < leading_blanks(s, nul) ==> is_blank(s[j], nul),
        leading_blanks(s, nul) < s.len() ==> !is_blank(s[leading_blanks(s, nul) as int], nul),
    decreases s.len(),
{
    if s.len() != 0 && is_blank(s[0], nul) {
        let t = s.skip(1);
        lemma_leading_blanks(t, nul);
        assert forall|j: int| 0 <= j < 1 + leading_blanks(t, nul) implies is_blank(s[j], nul) by {
            if j > 0 {
                assert(t[j - 1] == s[j]);
            }
        }
    }
}

pub proof fn lemma_trailing_blanks_is(s: Seq<char>, nul: bool, k: int)
    requires
        0 <= k <= s.len(),
        forall|j: int| s.len() - k <= j < s.len() ==> is_blank(s[j], nul),
        k < s.len() ==> !is_blank(s[s.len() - k - 1], nul),
    ensures
        trailing_blanks(s, nul) == k,
    decreases s.len(),
{
    if k > 0 {
        assert(is_blank(s.last(), nul));
        lemma_trailing_blanks_is(s.drop_last(), nul, k - 1);
    }
}

/// `s` without the blanks at its two ends.
pub open spec fn trim_blanks(s: Seq<char>, nul: bool) -> Seq<char> {
    let t = s.skip(leading_blanks(s, nul) as int);
    t.take(t.len() - trailing_blanks(t, nul))
}

/// `s` without the white space at its two ends.
pub open spec fn trimmed(s: Seq<char>) -> Seq<char> {
    trim_blanks(s, false)
}

/// `v` without the blanks at its two ends.
pub fn trim_with(v: &Vec<char>, nul: bool) -> (r: Vec<char>)
    ensures
        r@ == trim_blanks(v@, nul),
{
    let mut from: usize = 0;
    while from < v.len() && (space(v[from]) || (nul && v[from] == '\0'))
        invariant
            from <= v.len(),
            forall|j: int| 0 <= j < from ==> is_blank(v@[j], nul),
        decreases v.len() - from,
    {
        from = from + 1;
    }
    let mut to: usize = v.len();
    while to > from && (space(v[to - 1]) || (nul && v[to - 1] == '\0'))
        invariant
            from <= to <= v.len(),
            forall|j: int| to <= j < v.len() ==> is_blank(v@[j], nul),
        decreases to,
    {
        to = to - 1;
    }
    proof {
        lemma_leading_blanks_is(v@, nul, from as int);
        let t = v@.skip(from as int);
        assert forall|j: int| t.len() - (v.len() - to) <= j < t.len() implies is_blank(t[j], nul) by {
            assert(t[j] == v@[j + from]);
        }
        lemma_trailing_blanks_is(t, nul, v.len() - to);
        assert(t.take(to - from) == v@.subrange(from as int, to as int));
    }
    slice(v, from, to)
}

/// `v` without the white space at its two ends.
pub fn trim(v: &Vec<char>) -> (r: Vec<char>)
    ensures
        r@ == trimmed(v@),
{
    trim_with(v, false)
}

/// How many characters `s` has before its first white space.
pub open spec fn word_len(s: Seq<char>) -> nat
    decreases s.len(),
{
    if s.len() == 0 || is_space(s[0]) {
        0
    } else {
        1 + word_len(s.skip(1))
    }
}

pub proof fn lemma_word_len_is(s: Seq<char>, k: int)
    requires
        0 <= k <= s.len(),
        forall|j: int| 0 <= j < k ==> !is_space(s[j]),
        k < s.len() ==> is_space(s[k]),
    ensures
        word_len(s) == k,
    decreases s.len(),
{
    if k > 0 {
        assert(!is_space(s[0]));
        let t = s.skip(1);
        assert forall|j: int| 0 <= j < k - 1 implies !is_space(t[j]) by {
            assert(t[j] == s[j + 1]);
        }
        lemma_word_len_is(t, k - 1);
    }
}

pub proof fn lemma_word_len(s: Seq<char>)
    ensures
        word_len(s) <= s.len(),
        forall|j: int| 0 <= j < word_len(s) ==> !is_space(s[j]),
        word_len(s) < s.len() ==> is_space(s[word_len(s) as int]),
    decreases s.len(),
{
    if s.len() != 0 && !is_space(s[0]) {
        let t = s.skip(1);
        lemma_word_len(t);
        assert forall|j: int| 0 <= j < 1 + word_len(t) implies !is_space(s[j]) by {
            if j > 0 {
                assert(t[j - 1] == s[j]);
            }
        }
    }
}

/// The maximal runs of `s` that hold no white space, in order.
pub open spec fn words_of(s: Seq<char>) -> Seq<Seq<char>>
    decreases s.len(),
{
    let t = s.skip(leading_blanks(s, false) as int);
    if leading_blanks(s, false) >= s.len() {
        Seq::empty()
    } else {
        let k = word_len(t);
        proof {
            lemma_leading_blanks(s, false);
            lemma_word_len(t);
            assert(!is_space(t[0]));
        }
        seq![t.take(k as int)] + words_of(t.skip(k as int))
    }
}

/// The white-space separated words of `v`.
pub fn words(v: &Vec<char>) -> (r: Vec<Vec<char>>)
    ensures
        char_views(r@) == words_of(v@),
{
    let mut r: Vec<Vec<char>> = Vec::new();
    let mut at: usize = 0;
    assert(v@.skip(0) == v@);
    assert(char_views(r@) + words_of(v@) == words_of(v@));
    loop
        invariant
            at <= v.len(),
            char_views(r@) + words_of(v@.skip(at as int)) == words_of(v@),
        decreases v.len() + 1 - at,
    {
        let ghost rest = v@.skip(at as int);
        let mut from: usize = at;
        while from < v.len() && space(v[from])
            invariant
                at <= from <= v.len(),
                forall|j: int| at <= j < from ==> is_blank(#[trigger] v@[j], false),
            decreases v.len() - from,
        {
            from = from + 1;
        }
        proof {
            assert forall|j: int| 0 <= j < from - at implies is_blank(rest[j], false) by {
                assert(rest[j] == v@[j + at]);
            }
            lemma_leading_blanks_is(rest, false, from - at);
        }
        if from >= v.len() {
            assert(words_of(rest) == Seq::<Seq<char>>::empty());
            assert(char_views(r@) == words_of(v@));
            return r;
        }
        let mut to: usize = from;
        while to < v.len() && !space(v[to])
            invariant
                from <= to <= v.len(),
                forall|j: int| from <= j < to ==> !is_space(#[trigger] v@[j]),
            decreases v.len() - to,
        {
            to = to + 1;
        }
        let word = slice(v, from, to);
        let ghost before = char_views(r@);
        r.push(word);
        proof {
            let t = rest.skip(from - at);
            assert(t == v@.skip(from as int));
            assert forall|j: int| 0 <= j < to - from implies !is_space(t[j]) by {
                assert(t[j] == v@[j + from]);
            }
            lemma_word_len_is(t, to - from);
            assert(t.take(to - from) == word@);
            assert(t.skip(to - from) == v@.skip(to as int));
            assert(!is_space(v@[from as int]));
            assert(char_views(r@) == before.push(word@));
            assert(before.push(word@) + words_of(v@.skip(to as int)) == before + (seq![word@] + words_of(
                v@.skip(to as int),
            )));
        }
        at = to;
    }
}

/// Whether `s` starts with `p`.
pub open spec fn starts(s: Seq<char>, p: Seq<char>) -> bool {
    p.len() <= s.len() && s.take(p.len() as int) == p
}

/// Whether `p` stands in `s` at position `i`.
pub open spec fn occurs_at(s: Seq<char>, p: Seq<char>, i: int) -> bool {
    0 <= i && i + p.len() <= s.len() && s.subrange(i, i + p.len()) == p
}

/// Whether `p` stands somewhere in `s`.
pub open spec fn occurs(s: Seq<char>, p: Seq<char>) -> bool {
    exists|i: int| occurs_at(s, p, i)
}

/// Whether `p` stands in `v` at position `i`.
pub fn matches_at(v: &Vec<char>, p: &Vec<char>, i: usize) -> (r: bool)
    requires
        i <= v.len(),
    ensures
        r == occurs_at(v@, p@, i as int),
{
    if p.len() > v.len() - i {
        return false;
    }
    let mut j: usize = 0;
    while j < p.len()
        invariant
            i <= v.len(),
            p.len() <= v.len() - i,
            j <= p.len(),
            forall|k: int| 0 <= k < j ==> v@[i + k] == p@[k],
        decreases p.len() - j,
    {
        if v[i + j] != p[j] {
            assert(v@.subrange(i as int, i + p@.len())[j as int] != p@[j as int]);
            return false;
        }
        j = j + 1;
    }
    assert(v@.subrange(i as int, i + p@.len()) == p@);
    true
}

/// Whether `v` starts with `p`.
pub fn starts_with(v: &Vec<char>, p: &Vec<char>) -> (r: bool)
    ensures
        r == starts(v@, p@),
{
    let r = matches_at(v, p, 0);
    assert(p@.len() <= v@.len() ==> v@.subrange(0, p@.len() as int) == v@.take(p@.len() as int));
    r
}

/// The first position at or after `from` where `p` stands in `v`.
pub fn find_from(v: &Vec<char>, p: &Vec<char>, from: usize) -> (r: Option<usize>)
    requires
        from <= v.len(),
    ensures
        match r {
            Some(i) => {
                &&& from <= i <= v.len()
                &&& occurs_at(v@, p@, i as int)
                &&& forall|j: int| from <= j < i ==> !occurs_at(v@, p@, j)
            },
            None => forall|j: int| from <= j ==> !occurs_at(v@, p@, j),
        },
{
    let mut i: usize = from;
    loop
        invariant
            from <= i <= v.len(),
            forall|j: int| from <= j < i ==> !occurs_at(v@, p@, j),
        decreases v.len() - i,
    {
        if matches_at(v, p, i) {
            return Some(i);
        }
        if i >= v.len() {
            return None;
        }
        i = i + 1;
    }
}

/// Whether `p` stands somewhere in `v`.
pub fn contains(v: &Vec<char>, p: &Vec<char>) -> (r: bool)
    ensures
        r == occurs(v@, p@),
{
    let r = find_from(v, p, 0);
    match r {
        Some(i) => {
            assert(occurs_at(v@, p@, i as int));
            true
        },
        None => false,
    }
}

/// Whether `c` is one of the characters of `v`.
pub fn has_char(v: &Vec<char>, c: char) -> (r: bool)
    ensures
        r == v@.contains(c),
{
    let k = find_char(v, c, 0);
    if k < v.len() {
        assert(v@[k as int] == c);
        true
    } else {
        false
    }
}

/// A piece without the separator splits off whole.
pub proof fn lemma_split_front(a: Seq<char>, rest: Seq<char>, sep: char)
    requires
        !a.contains(sep),
    ensures
        split_on(a.push(sep) + rest, sep) == seq![a] + split_on(rest, sep),
{
    let s = a.push(sep) + rest;
    assert forall|j: int| 0 <= j < a.len() implies s[j] != sep by {
        assert(s[j] == a[j]);
    }
    lemma_first_index_is(s, sep, a.len() as int);
    assert(s.take(a.len() as int) == a);
    assert(s.skip(a.len() as int + 1) == rest);
}

/// Text without the separator is one piece.
pub proof fn lemma_split_single(a: Seq<char>, sep: char)
    requires
        !a.contains(sep),
    ensures
        split_on(a, sep) == seq![a],
{
    lemma_first_index_is(a, sep, a.len() as int);
}

/// Joining takes the first piece, the separator and the rest joined.
pub proof fn lemma_join_front(parts: Seq<Seq<char>>, sep: Seq<char>)
    requires
        parts.len() >= 2,
    ensures
        join_with(parts, sep) == parts[0] + sep + join_with(parts.skip(1), sep),
    decreases parts.len(),
{
    let rest = parts.skip(1);
    if parts.len() == 2 {
        assert(parts.drop_last() == seq![parts[0]]);
        assert(rest == seq![parts[1]]);
        assert(join_with(parts.drop_last(), sep) == parts[0]);
        assert(join_with(rest, sep) == parts[1]);
        assert(join_with(parts, sep) == join_with(parts.drop_last(), sep) + sep + parts.last());
    } else {
        lemma_join_front(parts.drop_last(), sep);
        assert(join_with(parts, sep) == join_with(parts.drop_last(), sep) + sep + parts.last());
        assert(parts.drop_last().skip(1) == rest.drop_last());
        let mid = join_with(rest.drop_last(), sep);
        assert(join_with(rest, sep) == mid + sep + parts.last());
        assert(parts[0] + sep + mid + sep + parts.last() == parts[0] + sep + (mid + sep + parts.last()));
    }
}

/// Splitting what was joined gives the pieces back.
pub proof fn lemma_split_of_join(parts: Seq<Seq<char>>, sep: char)
    requires
        parts.len() >= 1,
        forall|i: int| 0 <= i < parts.len() ==> !(#[trigger] parts[i]).contains(sep),
    ensures
        split_on(join_with(parts, seq![sep]), sep) == parts,
    decreases parts.len(),
{
    if parts.len() == 1 {
        lemma_split_single(parts[0], sep);
        assert(parts == seq![parts[0]]);
    } else {
        lemma_join_front(parts, seq![sep]);
        let rest = parts.skip(1);
        assert forall|i: int| 0 <= i < rest.len() implies !(#[trigger] rest[i]).contains(sep) by {
            assert(rest[i] == parts[i + 1]);
        }
        lemma_split_of_join(rest, sep);
        assert(!parts[0].contains(sep));
        lemma_split_front(parts[0], join_with(rest, seq![sep]), sep);
        assert(parts[0].push(sep) + join_with(rest, seq![sep]) == parts[0] + seq![sep] + join_with(
            rest,
            seq![sep],
        ));
        assert(seq![parts[0]] + rest == parts);
    }
}

/// White space between two texts keeps their words apart.
pub proof fn lemma_words_concat(a: Seq<char>, c: char, b: Seq<char>)
    requires
        is_space(c),
    ensures
        words_of(a.push(c) + b) == words_of(a) + words_of(b),
    decreases a.len(),
{
    let s = a.push(c) + b;
    let k = leading_blanks(a, false) as int;
    lemma_leading_blanks(a, false);
    if k == a.len() {
        lemma_leading_blanks(b, false);
        let m = leading_blanks(b, false) as int;
        assert forall|j: int| 0 <= j < k + 1 + m implies is_blank(s[j], false) by {
            if j < k {
                assert(is_blank(a[j], false));
            } else if j > k {
                assert(s[j] == b[j - k - 1]);
                assert(is_blank(b[j - k - 1], false));
            }
        }
        if m < b.len() {
            assert(s[k + 1 + m] == b[m]);
        }
        lemma_leading_blanks_is(s, false, k + 1 + m);
        assert(s.skip(k + 1 + m) == b.skip(m));
        assert(words_of(a) == Seq::<Seq<char>>::empty());
        assert(words_of(a) + words_of(b) == words_of(b));
    } else {
        assert forall|j: int| 0 <= j < k implies is_blank(s[j], false) by {
            assert(is_blank(a[j], false));
        }
        assert(s[k] == a[k]);
        lemma_leading_blanks_is(s, false, k);
        let t = a.skip(k);
        let u = s.skip(k);
        let w = word_len(t) as int;
        lemma_word_len(t);
        assert(!is_space(t[0]));
        assert forall|j: int| 0 <= j < w implies !is_space(u[j]) by {
            assert(u[j] == t[j]);
        }
        if w < t.len() {
            assert(u[w] == t[w]);
        } else {
            assert(u[w] == c);
        }
        lemma_word_len_is(u, w);
        assert(u.take(w) == t.take(w));
        assert(u.skip(w) == t.skip(w).push(c) + b);
        lemma_words_concat(t.skip(w), c, b);
        assert(seq![t.take(w)] + (words_of(t.skip(w)) + words_of(b)) == (seq![t.take(w)] + words_of(t.skip(w)))
            + words_of(b));
    }
}

pub proof fn lemma_trailing_blanks(s: Seq<char>, nul: bool)
    ensures
        trailing_blanks(s, nul) <= s.len(),
        trailing_blanks(s, nul) < s.len() ==> !is_blank(s[s.len() - trailing_blanks(s, nul) - 1], nul),
    decreases s.len(),
{
    if s.len() > 0 && is_blank(s.last(), nul) {
        lemma_trailing_blanks(s.drop_last(), nul);
    }
}

/// White space at the end adds no word.
proof fn lemma_words_before_blanks(s: Seq<char>)
    ensures
        words_of(s.take(s.len() - trailing_blanks(s, false))) == words_of(s),
    decreases s.len(),
{
    lemma_trailing_blanks(s, false);
    if s.len() > 0 && is_blank(s.last(), false) {
        let front = s.drop_last();
        lemma_trailing_blanks(front, false);
        lemma_words_before_blanks(front);
        let kept = s.len() - trailing_blanks(s, false);
        assert(s.take(kept) == front.take(kept));
        assert(front.push(s.last()) + Seq::<char>::empty() == s);
        lemma_words_concat(front, s.last(), Seq::empty());
        assert(words_of(Seq::<char>::empty()) == Seq::<Seq<char>>::empty());
        assert(words_of(front) + Seq::<Seq<char>>::empty() == words_of(front));
    } else {
        assert(s.take(s.len() as int) == s);
    }
}

/// Trimming keeps the words, and trimming twice is trimming once.
pub proof fn lemma_trimmed(s: Seq<char>)
    ensures
        words_of(trimmed(s)) == words_of(s),
        trimmed(trimmed(s)) == trimmed(s),
{
    let k = leading_blanks(s, false) as int;
    lemma_leading_blanks(s, false);
    let t = s.skip(k);
    let r = trimmed(s);
    lemma_trailing_blanks(t, false);
    lemma_words_before_blanks(t);
    if t.len() > 0 {
        assert(!is_blank(t[0], false));
        lemma_leading_blanks_is(t, false, 0);
        assert(t.skip(0) == t);
        if r.len() == 0 {
            assert(words_of(t).len() > 0);
        } else {
            assert(r[0] == t[0]);
            assert(r.last() == t[t.len() - trailing_blanks(t, false) - 1]);
        }
        lemma_leading_blanks_is(r, false, 0);
        assert(r.skip(0) == r);
        assert(r.take(r.len() as int) == r);
    } else {
        assert(r == Seq::<char>::empty());
        assert(trimmed(r) == r);
    }
}

/// Whether `w` is a word: not empty, and without white space.
pub open spec fn is_word(w: Seq<char>) -> bool {
    w.len() > 0 && forall|j: int| 0 <= j < w.len() ==> !is_space(#[trigger] w[j])
}

/// A word is its own only word.
pub proof fn lemma_words_of_word(w: Seq<char>)
    requires
        is_word(w),
    ensures
        words_of(w) == seq![w],
{
    lemma_leading_blanks_is(w, false, 0);
    assert(w.skip(0) == w);
    lemma_word_len_is(w, w.len() as int);
    assert(w.take(w.len() as int) == w);
    let e = w.skip(w.len() as int);
    assert(words_of(e) == Seq::<Seq<char>>::empty());
    assert(seq![w] + Seq::<Seq<char>>::empty() == seq![w]);
}

/// What is cut at white space is words.
pub proof fn lemma_words_are_words(s: Seq<char>)
    ensures
        forall|i: int| 0 <= i < words_of(s).len() ==> is_word(#[trigger] words_of(s)[i]),
    decreases s.len(),
{
    let k = leading_blanks(s, false) as int;
    lemma_leading_blanks(s, false);
    if k < s.len() {
        let t = s.skip(k);
        let w = word_len(t) as int;
        lemma_word_len(t);
        assert(!is_space(t[0]));
        lemma_words_are_words(t.skip(w));
        assert(is_word(t.take(w)));
        let rest = words_of(t.skip(w));
        assert forall|i: int| 0 <= i < words_of(s).len() implies is_word(#[trigger] words_of(s)[i]) by {
            if i > 0 {
                assert(words_of(s)[i] == rest[i - 1]);
            }
        }
    }
}

/// Words joined by one space are the words of the joined text.
pub proof fn lemma_words_of_join(ws: Seq<Seq<char>>)
    requires
        forall|i: int| 0 <= i < ws.len() ==> is_word(#[trigger] ws[i]),
    ensures
        words_of(join_with(ws, " "@)) == ws,
    decreases ws.len(),
{
    reveal_strlit(" ");
    if ws.len() == 0 {
        assert(words_of(Seq::<char>::empty()) == ws);
    } else if ws.len() == 1 {
        lemma_words_of_word(ws[0]);
        assert(seq![ws[0]] == ws);
    } else {
        let front = ws.drop_last();
        lemma_words_of_join(front);
        lemma_words_concat(join_with(front, " "@), ' ', ws.last());
        lemma_words_of_word(ws.last());
        assert(join_with(front, " "@) + " "@ + ws.last() == join_with(front, " "@).push(' ') + ws.last());
        assert(front + seq![ws.last()] == ws);
    }
}

/// `String::from_utf8`: the text that the bytes encode, or nothing exactly
/// when they are not valid UTF-8.
#[verifier::external_body]
pub(crate) fn decode(bytes: Vec<u8>) -> (r: Option<String>)
    ensures
        match r {
            Some(s) => valid_utf8(bytes@) && s@ == decode_utf8(bytes@),
            None => !valid_utf8(bytes@),
        },
{
    String::from_utf8(bytes).ok()
}

/// The bytes of a text.
pub fn encode(s: &str) -> (r: Vec<u8>)
    ensures
        r@ == encode_utf8(s@),
{
    let bytes = s.as_bytes();
    let mut r: Vec<u8> = Vec::new();
    let mut i: usize = 0;
    while i < bytes.len()
        invariant
            i <= bytes@.len(),
            r@ == bytes@.take(i as int),
        decreases bytes@.len() - i,
    {
        r.push(bytes[i]);
        assert(bytes@.take(i + 1) == bytes@.take(i as int).push(bytes@[i as int]));
        i = i + 1;
    }
    assert(bytes@.take(bytes@.len() as int) == bytes@);
    r
}

/// Where `p` first occurs in `s`.
pub open spec fn first_occurrence(s: Seq<char>, p: Seq<char>) -> Option<nat>
    decreases s.len(),
{
    if occurs_at(s, p, 0) {
        Some(0)
    } else if s.len() == 0 {
        None
    } else {
        match first_occurrence(s.skip(1), p) {
            Some(k) => Some(k + 1),
            None => None,
        }
    }
}

proof fn lemma_occurs_after_skip(s: Seq<char>, p: Seq<char>, i: int)
    requires
        0 <= i,
        s.len() > 0,
    ensures
        occurs_at(s.skip(1), p, i) == occurs_at(s, p, i + 1),
{
    if i + 1 + p.len() <= s.len() {
        assert(s.skip(1).subrange(i, i + p.len()) == s.subrange(i + 1, i + 1 + p.len()));
    }
}

/// The first occurrence, told by its place.
pub proof fn lemma_first_occurrence_is(s: Seq<char>, p: Seq<char>, k: int)
    requires
        0 <= k <= s.len(),
        occurs_at(s, p, k),
        forall|j: int| 0 <= j < k ==> !occurs_at(s, p, j),
    ensures
        first_occurrence(s, p) == Some(k as nat),
    decreases s.len(),
{
    if k > 0 {
        assert(!occurs_at(s, p, 0));
        let t = s.skip(1);
        lemma_occurs_after_skip(s, p, k - 1);
        assert forall|j: int| 0 <= j < k - 1 implies !occurs_at(t, p, j) by {
            lemma_occurs_after_skip(s, p, j);
        }
        lemma_first_occurrence_is(t, p, k - 1);
    }
}

/// Nothing occurs where nothing is found.
pub proof fn lemma_no_occurrence(s: Seq<char>, p: Seq<char>)
    requires
        forall|j: int| 0 <= j ==> !occurs_at(s, p, j),
    ensures
        first_occurrence(s, p) is None,
    decreases s.len(),
{
    assert(!occurs_at(s, p, 0));
    if s.len() > 0 {
        let t = s.skip(1);
        assert forall|j: int| 0 <= j implies !occurs_at(t, p, j) by {
            lemma_occurs_after_skip(s, p, j);
        }
        lemma_no_occurrence(t, p);
    }
}

/// A first occurrence lies within the text.
pub proof fn lemma_first_occurrence(s: Seq<char>, p: Seq<char>)
    ensures
        first_occurrence(s, p) matches Some(k) ==> occurs_at(s, p, k as int) && k + p.len() <= s.len(),
    decreases s.len(),
{
    if !occurs_at(s, p, 0) && s.len() > 0 {
        lemma_first_occurrence(s.skip(1), p);
        if let Some(k) = first_occurrence(s.skip(1), p) {
            lemma_occurs_after_skip(s, p, k as int);
        }
    }
}

/// Where `p` first occurs in `v`.
pub fn find(v: &Vec<char>, p: &Vec<char>) -> (r: Option<usize>)
    ensures
        match r {
            Some(k) => first_occurrence(v@, p@) == Some(k as nat) && k + p@.len() <= v@.len(),
            None => first_occurrence(v@, p@) is None,
        },
{
    let found = find_from(v, p, 0);
    proof {
        match found {
            Some(k) => {
                lemma_first_occurrence_is(v@, p@, k as int);
                lemma_first_occurrence(v@, p@);
            },
            None => lemma_no_occurrence(v@, p@),
        }
    }
    found
}

/// What `String::from_utf8_lossy` makes of bytes.
pub uninterp spec fn lossy_text(bytes: Seq<u8>) -> Seq<char>;

/// `String::from_utf8_lossy`: the text of the bytes, with a replacement
/// character for what is not UTF-8. It follows from the bytes alone, and is
/// the text itself where they are valid.
#[verifier::external_body]
pub(crate) fn decode_lossy(bytes: &Vec<u8>) -> (r: String)
    ensures
        r@ == lossy_text(bytes@),
        valid_utf8(bytes@) ==> r@ == decode_utf8(bytes@),
{
    String::from_utf8_lossy(bytes).into_owned()
}

/// A line without the carriage return before its newline.
pub open spec fn without_return(s: Seq<char>) -> Seq<char> {
    if s.len() > 0 && s.last() == '\r' {
        s.drop_last()
    } else {
        s
    }
}

/// The lines of a text. Each ends with a newline, or a carriage return and a
/// newline; the last one may also end with the text.
pub open spec fn lines_of(s: Seq<char>) -> Seq<Seq<char>>
    decreases s.len(),
{
    if s.len() == 0 {
        Seq::empty()
    } else {
        let k = first_index(s, '\n');
        if k < s.len() {
            seq![without_return(s.take(k as int))] + lines_of(s.skip(k as int + 1))
        } else {
            seq![s]
        }
    }
}

/// The lines of a text.
pub fn lines(v: &Vec<char>) -> (r: Vec<Vec<char>>)
    ensures
        char_views(r@) == lines_of(v@),
{
    let mut out: Vec<Vec<char>> = Vec::new();
    let mut at: usize = 0;
    assert(v@.skip(0) =~= v@);
    assert(char_views(out@) + lines_of(v@) =~= lines_of(v@));
    while at < v.len()
        invariant
            at <= v@.len(),
            char_views(out@) + lines_of(v@.skip(at as int)) == lines_of(v@),
        decreases v@.len() - at,
    {
        let ghost rest = v@.skip(at as int);
        let ghost before = char_views(out@);
        let end = find_char(v, '\n', at);
        proof {
            lemma_first_index(rest, '\n');
        }
        if end == v.len() {
            let line = slice(v, at, end);
            assert(line@ =~= rest);
            assert(first_index(rest, '\n') == rest.len());
            out.push(line);
            assert(char_views(out@) =~= before + seq![rest]);
            return out;
        }
        let ghost line = rest.take(end - at);
        let stop = if end > at && v[end - 1] == '\r' {
            end - 1
        } else {
            end
        };
        let piece = slice(v, at, stop);
        assert(piece@ =~= without_return(line));
        out.push(piece);
        assert(rest.skip(end - at + 1) =~= v@.skip(end + 1));
        assert(char_views(out@) =~= before + seq![without_return(line)]);
        assert(char_views(out@) + lines_of(v@.skip(end + 1)) =~= before + (seq![without_return(line)] + lines_of(
            v@.skip(end + 1),
        )));
        at = end + 1;
    }
    assert(v@.skip(at as int) =~= Seq::<char>::empty());
    assert(char_views(out@) =~= lines_of(v@));
    out
}

/// A text without the double quotes at its ends.
pub open spec fn unquoted(s: Seq<char>) -> Seq<char>
    decreases s.len(),
{
    if s.len() == 0 {
        s
    } else if s[0] == '"' {
        unquoted(s.skip(1))
    } else if s.last() == '"' {
        unquoted(s.drop_last())
    } else {
        s
    }
}

/// A text without the double quotes at its ends.
pub fn unquote(v: &Vec<char>) -> (r: Vec<char>)
    ensures
        r@ == unquoted(v@),
{
    let mut from: usize = 0;
    let mut to: usize = v.len();
    assert(v@.subrange(0, v@.len() as int) =~= v@);
    while from < to && v[from] == '"'
        invariant
            from <= to <= v@.len(),
            unquoted(v@.subrange(from as int, to as int)) == unquoted(v@),
        decreases to - from,
    {
        assert(v@.subrange(from as int, to as int).skip(1) =~= v@.subrange(from + 1, to as int));
        from = from + 1;
    }
    while from < to && v[to - 1] == '"'
        invariant
            from <= to <= v@.len(),
            from < to ==> v@[from as int] != '"',
            unquoted(v@.subrange(from as int, to as int)) == unquoted(v@),
        decreases to - from,
    {
        assert(v@.subrange(from as int, to as int).drop_last() =~= v@.subrange(from as int, to - 1));
        to = to - 1;
    }
    slice(v, from, to)
}

/// The first line that starts with `p`.
pub open spec fn first_starting(lines: Seq<Seq<char>>, p: Seq<char>) -> Option<Seq<char>>
    decreases lines.len(),
{
    if lines.len() == 0 {
        None
    } else if starts(lines[0], p) {
        Some(lines[0])
    } else {
        first_starting(lines.skip(1), p)
    }
}

/// The first line that starts with `p`.
pub fn find_line(lines: &Vec<Vec<char>>, p: &Vec<char>) -> (r: Option<Vec<char>>)
    ensures
        match r {
            Some(line) => first_starting(char_views(lines@), p@) == Some(line@),
            None => first_starting(char_views(lines@), p@) is None,
        },
{
    let ghost views = char_views(lines@);
    let mut i: usize = 0;
    assert(views.skip(0) =~= views);
    while i < lines.len()
        invariant
            i <= lines@.len(),
            views == char_views(lines@),
            first_starting(views.skip(i as int), p@) == first_starting(views, p@),
        decreases lines@.len() - i,
    {
        assert(views.skip(i as int)[0] == lines@[i as int]@);
        if starts_with(&lines[i], p) {
            return Some(lines[i].clone());
        }
        assert(views.skip(i as int).skip(1) =~= views.skip(i + 1));
        i = i + 1;
    }
    None
}

/// Whether `s` ends with `p`.
pub open spec fn ends(s: Seq<char>, p: Seq<char>) -> bool {
    p.len() <= s.len() && s.skip(s.len() - p.len()) == p
}

/// Whether `v` ends with `p`.
pub fn ends_with(v: &Vec<char>, p: &Vec<char>) -> (r: bool)
    ensures
        r == ends(v@, p@),
{
    if p.len() > v.len() {
        return false;
    }
    let tail = slice(v, v.len() - p.len(), v.len());
    assert(tail@ =~= v@.skip(v@.len() - p@.len()));
    chars_eq(&tail, p)
}

} // verus!
