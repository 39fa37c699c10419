//! Paths by their components, without touching the filesystem. A component
//! is its text: `/` for the root, `..` for a step up, `.` where a relative
//! path starts with it, and otherwise a name.

pub mod laws;

use vstd::prelude::*;

use crate::text::{char_views, chars_eq, extend, from_chars, join, join_with, slice, split, split_on, to_chars};

verus! {

/// The root component.
pub open spec fn root_part() -> Seq<char> {
    seq!['/']
}

/// The component that stays where it is.
pub open spec fn here_part() -> Seq<char> {
    seq!['.']
}

/// The component that steps up.
pub open spec fn up_part() -> Seq<char> {
    seq!['.', '.']
}

/// Whether a component is a plain name.
pub open spec fn is_name(part: Seq<char>) -> bool {
    part != root_part() && part != here_part() && part != up_part()
}

/// Whether the piece at `i` between slashes is a component: an empty piece
/// never is, and `.` only at the start of a relative path.
pub open spec fn is_component(piece: Seq<char>, i: int, rooted: bool) -> bool {
    piece.len() > 0 && (piece != here_part() || (i == 0 && !rooted))
}

/// The pieces that are components.
pub open spec fn kept_pieces(pieces: Seq<Seq<char>>, rooted: bool) -> Seq<Seq<char>>
    decreases pieces.len(),
{
    if pieces.len() == 0 {
        Seq::empty()
    } else {
        let front = kept_pieces(pieces.drop_last(), rooted);
        if is_component(pieces.last(), pieces.len() - 1, rooted) {
            front.push(pieces.last())
        } else {
            front
        }
    }
}

/// Whether a path starts at the root.
pub open spec fn is_rooted(s: Seq<char>) -> bool {
    s.len() > 0 && s[0] == '/'
}

/// The components of a path.
pub open spec fn parts_of(s: Seq<char>) -> Seq<Seq<char>> {
    let names = kept_pieces(split_on(s, '/'), is_rooted(s));
    if is_rooted(s) {
        seq![root_part()] + names
    } else {
        names
    }
}

/// The text of a path with these components.
pub open spec fn path_text(parts: Seq<Seq<char>>) -> Seq<char> {
    if parts.len() > 0 && parts[0] == root_part() {
        seq!['/'] + join_with(parts.skip(1), seq!['/'])
    } else {
        join_with(parts, seq!['/'])
    }
}

/// The components after every `.` is dropped and every `..` has taken the
/// name before it away; a `..` with nothing to take away is dropped too.
pub open spec fn resolved(parts: Seq<Seq<char>>) -> Seq<Seq<char>>
    decreases parts.len(),
{
    if parts.len() == 0 {
        parts
    } else {
        let front = resolved(parts.drop_last());
        let part = parts.last();
        if part == up_part() {
            if front.len() > 0 && front.last() != root_part() {
                front.drop_last()
            } else {
                front
            }
        } else if part == here_part() {
            front
        } else if part == root_part() {
            seq![part]
        } else {
            front.push(part)
        }
    }
}

/// Whether `path` is `home` or lies inside it once both are resolved.
pub open spec fn lies_within(path: Seq<char>, home: Seq<char>) -> bool {
    resolved(parts_of(home)).is_prefix_of(resolved(parts_of(path)))
}

/// The last component, when it is a name.
pub open spec fn name_of(s: Seq<char>) -> Option<Seq<char>> {
    let parts = parts_of(s);
    if parts.len() > 0 && is_name(parts.last()) {
        Some(parts.last())
    } else {
        None
    }
}

/// The components above the last one; none for the root and for nothing.
pub open spec fn parent_parts(s: Seq<char>) -> Option<Seq<Seq<char>>> {
    let parts = parts_of(s);
    if parts.len() > 0 && parts.last() != root_part() {
        Some(parts.drop_last())
    } else {
        None
    }
}

/// `name` beneath `dir`; a name that starts at the root leads there itself.
pub open spec fn joined(dir: Seq<char>, name: Seq<char>) -> Seq<char> {
    if is_rooted(name) {
        name
    } else if dir.len() == 0 || dir.last() == '/' {
        dir + name
    } else {
        dir.push('/') + name
    }
}

/// How many leading components two paths share.
pub open spec fn shared(a: Seq<Seq<char>>, b: Seq<Seq<char>>) -> nat
    decreases a.len(),
{
    if a.len() == 0 || b.len() == 0 || a[0] != b[0] {
        0
    } else {
        1 + shared(a.skip(1), b.skip(1))
    }
}

/// The components that lead from the directory `from` to `to`: up out of
/// what they do not share, then down.
pub open spec fn relative_parts(from: Seq<Seq<char>>, to: Seq<Seq<char>>) -> Seq<Seq<char>> {
    let k = shared(from, to);
    Seq::new((from.len() - k) as nat, |i: int| up_part()) + to.skip(k as int)
}

/// Whether `v` is the root component.
pub fn is_root(v: &Vec<char>) -> (r: bool)
    ensures
        r == (v@ == root_part()),
{
    let r = v.len() == 1 && v[0] == '/';
    if r {
        assert(v@ =~= root_part());
    }
    r
}

/// Whether `v` is `.`.
pub fn is_here(v: &Vec<char>) -> (r: bool)
    ensures
        r == (v@ == here_part()),
{
    let r = v.len() == 1 && v[0] == '.';
    if r {
        assert(v@ =~= here_part());
    }
    r
}

/// Whether `v` is `..`.
pub fn is_up(v: &Vec<char>) -> (r: bool)
    ensures
        r == (v@ == up_part()),
{
    let r = v.len() == 2 && v[0] == '.' && v[1] == '.';
    if r {
        assert(v@ =~= up_part());
    }
    r
}

/// The components of `v`.
pub fn parts(v: &Vec<char>) -> (r: Vec<Vec<char>>)
    ensures
        char_views(r@) == parts_of(v@),
{
    let rooted = v.len() > 0 && v[0] == '/';
    let pieces = split(v, '/');
    let ghost views = char_views(pieces@);
    let mut r: Vec<Vec<char>> = Vec::new();
    let ghost head: Seq<Seq<char>> = if rooted { seq![root_part()] } else { Seq::empty() };
    if rooted {
        let mut root: Vec<char> = Vec::new();
        root.push('/');
        assert(root@ == root_part());
        r.push(root);
    }
    assert(char_views(r@) == head);
    assert(views.take(0) == Seq::<Seq<char>>::empty());
    assert(head + kept_pieces(views.take(0), rooted) == head);
    let mut i: usize = 0;
    while i < pieces.len()
        invariant
            i <= pieces.len(),
            views == char_views(pieces@),
            char_views(r@) == head + kept_pieces(views.take(i as int), rooted),
        decreases pieces.len() - i,
    {
        let piece = &pieces[i];
        let ghost before = char_views(r@);
        assert(views[i as int] == piece@);
        assert(views.take(i + 1).drop_last() == views.take(i as int));
        let dot = is_here(piece);
        if piece.len() > 0 && (!dot || (i == 0 && !rooted)) {
            let copy = slice(piece, 0, piece.len());
            assert(piece@.subrange(0, piece@.len() as int) == piece@);
            r.push(copy);
            assert(char_views(r@) == before.push(piece@));
            assert(before.push(piece@) == head + kept_pieces(views.take(i as int), rooted).push(piece@));
        }
        i = i + 1;
    }
    assert(views.take(views.len() as int) == views);
    assert(head + kept_pieces(views, rooted) == parts_of(v@));
    r
}

/// The components resolved.
pub fn resolve(v: &Vec<Vec<char>>) -> (r: Vec<Vec<char>>)
    ensures
        char_views(r@) == resolved(char_views(v@)),
{
    let ghost views = char_views(v@);
    let mut r: Vec<Vec<char>> = Vec::new();
    let mut i: usize = 0;
    assert(views.take(0) == Seq::<Seq<char>>::empty());
    assert(char_views(r@) == resolved(views.take(0)));
    while i < v.len()
        invariant
            i <= v.len(),
            views == char_views(v@),
            char_views(r@) == resolved(views.take(i as int)),
        decreases v.len() - i,
    {
        let part = &v[i];
        let ghost before = char_views(r@);
        assert(views[i as int] == part@);
        assert(views.take(i + 1).drop_last() == views.take(i as int));
        let up = is_up(part);
        let here = is_here(part);
        let root = is_root(part);
        if up {
            let n = r.len();
            if n > 0 {
                let at_root = is_root(&r[n - 1]);
                assert(before.last() == r@[n - 1]@);
                if !at_root {
                    let _ = r.pop();
                    assert(char_views(r@) == before.drop_last());
                }
            }
        } else if !here {
            let copy = slice(part, 0, part.len());
            assert(part@.subrange(0, part@.len() as int) == part@);
            if root {
                r = Vec::new();
                r.push(copy);
                assert(char_views(r@) == seq![part@]);
            } else {
                r.push(copy);
                assert(char_views(r@) == before.push(part@));
            }
        }
        i = i + 1;
    }
    assert(views.take(views.len() as int) == views);
    r
}

/// The last component, when it is a name.
pub fn last_name(v: &Vec<char>) -> (r: Option<Vec<char>>)
    ensures
        match r {
            Some(n) => name_of(v@) == Some(n@),
            None => name_of(v@) is None,
        },
{
    let p = parts(v);
    let n = p.len();
    if n == 0 {
        return None;
    }
    let last = &p[n - 1];
    assert(parts_of(v@).last() == last@);
    let special = is_root(last) || is_here(last) || is_up(last);
    if special {
        None
    } else {
        let copy = slice(last, 0, last.len());
        assert(last@.subrange(0, last@.len() as int) == last@);
        Some(copy)
    }
}

/// `name` beneath `dir`; a name that starts at the root leads there itself.
pub fn join_path(dir: &Vec<char>, name: &Vec<char>) -> (r: Vec<char>)
    ensures
        r@ == joined(dir@, name@),
{
    if name.len() > 0 && name[0] == '/' {
        assert(name@.subrange(0, name@.len() as int) == name@);
        return slice(name, 0, name.len());
    }
    let mut r = slice(dir, 0, dir.len());
    assert(dir@.subrange(0, dir@.len() as int) == dir@);
    if r.len() > 0 && r[r.len() - 1] != '/' {
        r.push('/');
    }
    extend(&mut r, name);
    r
}

/// The text of a path with these components.
pub fn to_path(v: &Vec<Vec<char>>) -> (r: Vec<char>)
    ensures
        r@ == path_text(char_views(v@)),
{
    let ghost views = char_views(v@);
    let mut sep: Vec<char> = Vec::new();
    sep.push('/');
    assert(sep@ == seq!['/']);
    if v.len() > 0 && is_root(&v[0]) {
        let rest = tail_parts(v, 1);
        let body = join(&rest, &sep);
        extend(&mut sep, &body);
        assert(views[0] == root_part());
        sep
    } else {
        assert(views.len() > 0 ==> views[0] == v@[0]@);
        join(v, &sep)
    }
}

/// The components from `from` on.
pub fn tail_parts(v: &Vec<Vec<char>>, from: usize) -> (r: Vec<Vec<char>>)
    requires
        from <= v.len(),
    ensures
        char_views(r@) == char_views(v@).skip(from as int),
{
    let ghost views = char_views(v@);
    let mut r: Vec<Vec<char>> = Vec::new();
    let mut i: usize = from;
    assert(char_views(r@) == views.subrange(from as int, from as int));
    while i < v.len()
        invariant
            from <= i <= v.len(),
            views == char_views(v@),
            char_views(r@) == views.subrange(from as int, i as int),
        decreases v.len() - i,
    {
        let copy = slice(&v[i], 0, v[i].len());
        assert(v@[i as int]@.subrange(0, v@[i as int]@.len() as int) == v@[i as int]@);
        let ghost before = char_views(r@);
        r.push(copy);
        assert(char_views(r@) == before.push(copy@));
        assert(views.subrange(from as int, i + 1) == views.subrange(from as int, i as int).push(views[i as int]));
        i = i + 1;
    }
    assert(views.subrange(from as int, views.len() as int) == views.skip(from as int));
    r
}

/// The text of the path that leads from the directory `from` to `to`.
pub open spec fn relative_text(from: Seq<char>, to: Seq<char>) -> Seq<char> {
    let (f, t) = (parts_of(from), parts_of(to));
    if shared(f, t) == 0 && t.len() > 0 && t[0] == root_part() {
        path_text(t)
    } else {
        path_text(relative_parts(f, t))
    }
}

proof fn lemma_shared_is(a: Seq<Seq<char>>, b: Seq<Seq<char>>, k: int)
    requires
        0 <= k <= a.len(),
        k <= b.len(),
        forall|j: int| 0 <= j < k ==> #[trigger] a[j] == b[j],
        k < a.len() && k < b.len() ==> a[k] != b[k],
    ensures
        shared(a, b) == k,
    decreases a.len(),
{
    if k > 0 {
        assert(a[0] == b[0]);
        let (x, y) = (a.skip(1), b.skip(1));
        assert forall|j: int| 0 <= j < k - 1 implies #[trigger] x[j] == y[j] by {
            assert(a[j + 1] == b[j + 1]);
        }
        lemma_shared_is(x, y, k - 1);
    }
}

proof fn lemma_shared(a: Seq<Seq<char>>, b: Seq<Seq<char>>)
    ensures
        shared(a, b) <= a.len(),
        shared(a, b) <= b.len(),
        a.take(shared(a, b) as int) == b.take(shared(a, b) as int),
    decreases a.len(),
{
    if a.len() > 0 && b.len() > 0 && a[0] == b[0] {
        let (x, y) = (a.skip(1), b.skip(1));
        lemma_shared(x, y);
        let k = shared(x, y) as int;
        assert forall|j: int| 0 <= j < k + 1 implies a[j] == b[j] by {
            if j > 0 {
                assert(x.take(k)[j - 1] == y.take(k)[j - 1]);
            }
        }
        assert(a.take(k + 1) == b.take(k + 1));
    } else {
        assert(a.take(0) == b.take(0));
    }
}

/// `to` relative to the directory `from`, by lexical components: strip the
/// common prefix, one `..` per remaining `from` component, then the rest of
/// `to`.
pub fn relative_path(from: &str, to: &str) -> (r: String)
    ensures
        r@ == relative_text(from@, to@),
{
    let f = parts(&to_chars(from));
    let t = parts(&to_chars(to));
    let ghost (fv, tv) = (char_views(f@), char_views(t@));
    let mut k: usize = 0;
    while k < f.len() && k < t.len() && chars_eq(&f[k], &t[k])
        invariant
            k <= f.len(),
            k <= t.len(),
            fv == char_views(f@),
            tv == char_views(t@),
            forall|j: int| 0 <= j < k ==> #[trigger] fv[j] == tv[j],
        decreases f.len() - k,
    {
        assert(fv[k as int] == f@[k as int]@ && tv[k as int] == t@[k as int]@);
        k = k + 1;
    }
    proof {
        if k < f@.len() && k < t@.len() {
            assert(fv[k as int] == f@[k as int]@ && tv[k as int] == t@[k as int]@);
        }
        lemma_shared_is(fv, tv, k as int);
    }
    if k == 0 && t.len() > 0 {
        assert(tv[0] == t@[0]@);
        if is_root(&t[0]) {
            return from_chars(&to_path(&t));
        }
    }
    let mut r: Vec<Vec<char>> = Vec::new();
    let ghost ups = Seq::new((fv.len() - k) as nat, |i: int| up_part());
    let mut i: usize = k;
    assert(char_views(r@) =~= ups.take(0));
    while i < f.len()
        invariant
            k <= i <= f.len(),
            fv.len() == f@.len(),
            ups == Seq::new((fv.len() - k) as nat, |i: int| up_part()),
            char_views(r@) == ups.take(i - k),
        decreases f.len() - i,
    {
        let mut up: Vec<char> = Vec::new();
        up.push('.');
        up.push('.');
        assert(up@ =~= up_part());
        let ghost before = char_views(r@);
        r.push(up);
        assert(char_views(r@) =~= before.push(up_part()));
        assert(ups.take(i - k + 1) =~= ups.take(i - k).push(up_part()));
        i = i + 1;
    }
    assert(ups.take(fv.len() - k) =~= ups);
    let ghost climbed = char_views(r@);
    let mut j: usize = k;
    assert(climbed + tv.subrange(k as int, k as int) =~= climbed);
    while j < t.len()
        invariant
            k <= j <= t.len(),
            tv == char_views(t@),
            char_views(r@) == climbed + tv.subrange(k as int, j as int),
        decreases t.len() - j,
    {
        let copy = slice(&t[j], 0, t[j].len());
        assert(t@[j as int]@.subrange(0, t@[j as int]@.len() as int) =~= t@[j as int]@);
        let ghost before = char_views(r@);
        r.push(copy);
        assert(char_views(r@) =~= before.push(tv[j as int]));
        assert(tv.subrange(k as int, j + 1) =~= tv.subrange(k as int, j as int).push(tv[j as int]));
        j = j + 1;
    }
    assert(tv.subrange(k as int, tv.len() as int) =~= tv.skip(k as int));
    from_chars(&to_path(&r))
}

/// Whether every component is a name, but for a root in front.
pub open spec fn is_plain(parts: Seq<Seq<char>>) -> bool {
    forall|i: int|
        0 <= i < parts.len() ==> is_name(#[trigger] parts[i]) || (i == 0 && parts[i] == root_part())
}

/// Whether the first component is the root.
pub open spec fn starts_at_root(parts: Seq<Seq<char>>) -> bool {
    parts.len() > 0 && parts[0] == root_part()
}

proof fn lemma_names_differ()
    ensures
        root_part() != here_part(),
        root_part() != up_part(),
        here_part() != up_part(),
{
    assert(root_part()[0] == '/' && here_part()[0] == '.');
    assert(root_part().len() == 1 && up_part().len() == 2 && here_part().len() == 1);
}

/// Resolving leaves no `.` and no `..`, and a root in front only.
pub proof fn law_resolved_is_plain(parts: Seq<Seq<char>>)
    ensures
        is_plain(resolved(parts)),
    decreases parts.len(),
{
    if parts.len() > 0 {
        law_resolved_is_plain(parts.drop_last());
        lemma_names_differ();
    }
}

/// A plain path is its own resolution.
pub proof fn lemma_plain_is_resolved(parts: Seq<Seq<char>>)
    requires
        is_plain(parts),
    ensures
        resolved(parts) == parts,
    decreases parts.len(),
{
    lemma_names_differ();
    if parts.len() > 0 {
        let front = parts.drop_last();
        assert forall|i: int| 0 <= i < front.len() implies is_name(#[trigger] front[i]) || (i == 0 && front[i]
            == root_part()) by {
            assert(front[i] == parts[i]);
        }
        lemma_plain_is_resolved(front);
        assert(front.push(parts.last()) == parts);
    }
}

/// Resolving twice changes nothing.
pub proof fn law_resolving_is_idempotent(parts: Seq<Seq<char>>)
    ensures
        resolved(resolved(parts)) == resolved(parts),
{
    law_resolved_is_plain(parts);
    lemma_plain_is_resolved(resolved(parts));
}

/// A path lies within itself.
pub proof fn law_within_is_reflexive(path: Seq<char>)
    ensures
        lies_within(path, path),
{
}

/// What lies within a directory lies within every directory around it.
pub proof fn law_within_is_transitive(path: Seq<char>, inner: Seq<char>, outer: Seq<char>)
    requires
        lies_within(path, inner),
        lies_within(inner, outer),
    ensures
        lies_within(path, outer),
{
    let (p, i, o) = (resolved(parts_of(path)), resolved(parts_of(inner)), resolved(parts_of(outer)));
    assert(o =~= p.subrange(0, o.len() as int));
}

proof fn lemma_climb(parts: Seq<Seq<char>>, n: nat)
    requires
        is_plain(parts),
        n <= parts.len(),
        starts_at_root(parts) ==> n < parts.len(),
    ensures
        resolved(parts + Seq::new(n, |i: int| up_part())) == parts.take(parts.len() - n),
    decreases n,
{
    lemma_names_differ();
    let ups = Seq::new(n, |i: int| up_part());
    if n == 0 {
        lemma_plain_is_resolved(parts);
        assert(parts + ups == parts);
        assert(parts.take(parts.len() as int) == parts);
    } else {
        let fewer = Seq::new((n - 1) as nat, |i: int| up_part());
        lemma_climb(parts, (n - 1) as nat);
        assert((parts + ups).drop_last() == parts + fewer);
        let front = parts.take(parts.len() - (n - 1));
        assert(front.last() == parts[parts.len() - n]);
        assert(front.drop_last() == parts.take(parts.len() - n));
    }
}

proof fn lemma_descend(parts: Seq<Seq<char>>, names: Seq<Seq<char>>)
    requires
        forall|i: int| 0 <= i < names.len() ==> is_name(#[trigger] names[i]),
    ensures
        resolved(parts + names) == resolved(parts) + names,
    decreases names.len(),
{
    if names.len() == 0 {
        assert(parts + names == parts);
        assert(resolved(parts) + names == resolved(parts));
    } else {
        let front = names.drop_last();
        assert forall|i: int| 0 <= i < front.len() implies is_name(#[trigger] front[i]) by {
            assert(front[i] == names[i]);
        }
        lemma_descend(parts, front);
        assert((parts + names).drop_last() == parts + front);
        assert((resolved(parts) + front).push(names.last()) == resolved(parts) + names);
    }
}

/// Following a relative path from its directory leads to where it points.
pub proof fn law_a_relative_path_leads_there(from: Seq<Seq<char>>, to: Seq<Seq<char>>)
    requires
        is_plain(from),
        is_plain(to),
        starts_at_root(from) == starts_at_root(to),
    ensures
        resolved(from + relative_parts(from, to)) == to,
{
    let k = shared(from, to) as int;
    lemma_shared(from, to);
    let n = (from.len() - k) as nat;
    let ups = Seq::new(n, |i: int| up_part());
    let rest = to.skip(k);
    if starts_at_root(from) {
        assert(from[0] == to[0]);
        assert(k > 0);
    }
    lemma_climb(from, n);
    assert forall|i: int| 0 <= i < rest.len() implies is_name(#[trigger] rest[i]) by {
        assert(rest[i] == to[i + k]);
        if i + k == 0 {
            assert(to[0] != root_part());
        }
    }
    lemma_descend(from + ups, rest);
    assert(from + relative_parts(from, to) == (from + ups) + rest);
    assert(from.take(k) + rest == to);
}

/// The path above a path: what is left without the last component, and `.`
/// where nothing is above it at all.
pub open spec fn parent_text(path: Seq<char>) -> Seq<char> {
    match parent_parts(path) {
        Some(up) => path_text(up),
        None => "."@,
    }
}

/// The path above a path.
pub fn holding_text(path: &str) -> (r: String)
    ensures
        r@ == parent_text(path@),
{
    let mut p = parts(&to_chars(path));
    let ghost views = char_views(p@);
    let n = p.len();
    if n == 0 {
        return ".".to_owned();
    }
    assert(views.last() == p@[n - 1]@);
    if is_root(&p[n - 1]) {
        return ".".to_owned();
    }
    p.truncate(n - 1);
    assert(char_views(p@) =~= views.drop_last());
    from_chars(&to_path(&p))
}

/// What is left of a path below a directory that leads to it; none when the
/// directory does not.
pub open spec fn below(path: Seq<char>, dir: Seq<char>) -> Option<Seq<char>> {
    if parts_of(dir).is_prefix_of(parts_of(path)) {
        Some(path_text(parts_of(path).skip(parts_of(dir).len() as int)))
    } else {
        None
    }
}

/// What is left of a path below a directory that leads to it.
pub fn strip_prefix(path: &str, dir: &str) -> (r: Option<String>)
    ensures
        match r {
            Some(rest) => below(path@, dir@) == Some(rest@),
            None => below(path@, dir@) is None,
        },
{
    let p = parts(&to_chars(path));
    let d = parts(&to_chars(dir));
    let ghost ps = char_views(p@);
    let ghost ds = char_views(d@);
    if d.len() > p.len() {
        return None;
    }
    let mut i: usize = 0;
    while i < d.len()
        invariant
            i <= d@.len() <= p@.len(),
            ps == char_views(p@),
            ds == char_views(d@),
            ps == parts_of(path@),
            ds == parts_of(dir@),
            forall|j: int| 0 <= j < i ==> ps[j] == ds[j],
        decreases d@.len() - i,
    {
        assert(ps[i as int] == p@[i as int]@);
        assert(ds[i as int] == d@[i as int]@);
        if !chars_eq(&p[i], &d[i]) {
            return None;
        }
        i = i + 1;
    }
    assert(ds =~= ps.take(ds.len() as int));
    let rest = tail_parts(&p, d.len());
    assert(char_views(rest@) =~= ps.skip(ds.len() as int));
    Some(from_chars(&to_path(&rest)))
}

} // verus!
