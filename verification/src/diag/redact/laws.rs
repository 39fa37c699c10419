//! What the privacy rules promise of every text: the home directory becomes
//! `~` and the login name `<user>` wherever they stand as whole path
//! components, and nothing else changes.

use vstd::prelude::*;

use crate::text::{
    first_occurrence, lemma_first_occurrence, lemma_first_occurrence_is, lemma_no_occurrence, occurs_at,
};

use super::{
    after_slash, alphanumeric, char_ahead, fired, home_masked, is_allowlisted, is_boundary, is_hex, is_path_char,
    kept_home, kept_name, lone_mac, mac_in_front, mac_mask, name_masked, text_masked, token_masked, tokens_masked,
    uuid_count, without_slashes, Masked, Redactor,
};

verus! {

/// Whether a name may end where `rest` begins: nothing follows, or a
/// character that is not one of a name.
pub open spec fn ends_here(rest: Seq<char>) -> bool {
    rest.len() == 0 || !is_path_char(rest[0])
}

/// Whether a path may begin behind `front`: nothing comes before, or a
/// character that is not one of a name.
pub open spec fn begins_here(front: Seq<char>) -> bool {
    front.len() == 0 || !is_path_char(front.last())
}

/// Whether `name` stands at position `i` of `s` as a whole path component:
/// behind a slash, and followed by no character of a name.
pub open spec fn component_at(s: Seq<char>, name: Seq<char>, i: int) -> bool {
    &&& 0 < i
    &&& i + name.len() <= s.len()
    &&& s.subrange(i, i + name.len()) == name
    &&& s[i - 1] == '/'
    &&& ends_here(s.skip(i + name.len()))
}

/// Whether `home` stands at position `i` of `s` at path boundaries.
pub open spec fn path_at(s: Seq<char>, home: Seq<char>, i: int) -> bool {
    &&& 0 <= i
    &&& i + home.len() <= s.len()
    &&& s.subrange(i, i + home.len()) == home
    &&& begins_here(s.take(i))
    &&& ends_here(s.skip(i + home.len()))
}

proof fn lemma_earlier(s: Seq<char>, p: Seq<char>)
    ensures
        first_occurrence(s, p) matches Some(k) ==> forall|j: int| 0 <= j < k ==> !occurs_at(s, p, j),
        first_occurrence(s, p) is None ==> forall|j: int| 0 <= j ==> !occurs_at(s, p, j),
    decreases s.len(),
{
    if occurs_at(s, p, 0) {
    } else if s.len() == 0 {
        assert forall|j: int| 0 <= j implies !occurs_at(s, p, j) by {
            if occurs_at(s, p, j) {
                assert(j == 0);
            }
        }
    } else {
        lemma_earlier(s.skip(1), p);
        let found = first_occurrence(s.skip(1), p);
        let end: int = match found {
            Some(k) => k as int + 1,
            None => s.len() as int + 1,
        };
        assert forall|j: int| 0 <= j < end implies !occurs_at(s, p, j) by {
            if occurs_at(s, p, j) {
                assert(j > 0);
                assert(s.skip(1).subrange(j - 1, j - 1 + p.len()) =~= s.subrange(j, j + p.len()));
                assert(occurs_at(s.skip(1), p, j - 1));
            }
        }
    }
}

proof fn lemma_occurs_in_front(u: Seq<char>, t: Seq<char>, p: Seq<char>, i: int)
    requires
        0 <= i,
        i + p.len() <= u.len(),
    ensures
        occurs_at(u + t, p, i) == occurs_at(u, p, i),
{
    assert((u + t).subrange(i, i + p.len()) =~= u.subrange(i, i + p.len()));
}

proof fn lemma_occurs_behind(u: Seq<char>, t: Seq<char>, p: Seq<char>, i: int)
    requires
        0 <= i,
    ensures
        occurs_at(u + t, p, u.len() + i) == occurs_at(t, p, i),
{
    if i + p.len() <= t.len() {
        assert((u + t).subrange(u.len() + i, u.len() + i + p.len()) =~= t.subrange(i, i + p.len()));
    }
}

/// Which character may follow a text does not matter when the text ends with
/// a slash, or when neither of two such characters is one of a name.
proof fn lemma_name_next(s: Seq<char>, name: Seq<char>, a: Option<char>, b: Option<char>)
    requires
        !name.contains('/'),
        (s.len() > 0 && s.last() == '/') || is_boundary(a) == is_boundary(b),
    ensures
        name_masked(s, a, name) == name_masked(s, b, name),
    decreases s.len(),
{
    lemma_first_occurrence(s, name);
    if let Some(at) = first_occurrence(s, name) {
        if name.len() > 0 {
            let after = s.skip(at as int + name.len());
            if s.last() == '/' && after.len() == 0 {
                assert(s.subrange(at as int, at as int + name.len()) == name);
                assert(name[name.len() - 1] == s[s.len() - 1]);
                assert(name.contains('/'));
            }
            lemma_name_next(after, name, a, b);
        }
    }
}

proof fn lemma_name_split(u: Seq<char>, name: Seq<char>, v: Seq<char>, next: Option<char>)
    requires
        u.len() > 0,
        u.last() == '/',
        name.len() > 0,
        !name.contains('/'),
        is_boundary(char_ahead(v, next)),
    ensures
        ({
            let (front, m) = name_masked(u, None, name);
            let (rest, n) = name_masked(v, next, name);
            name_masked(u + name + v, next, name) == (front + "<user>"@ + rest, m + 1 + n)
        }),
    decreases u.len(),
{
    let s = u + name + v;
    let len = u.len() as int;
    assert(s =~= u + (name + v));
    assert((name + v).subrange(0, name.len() as int) =~= name);
    assert(occurs_at(name + v, name, 0));
    lemma_occurs_behind(u, name + v, name, 0);
    lemma_first_occurrence(s, name);
    lemma_earlier(s, name);
    assert(first_occurrence(s, name) is Some);
    let at = first_occurrence(s, name)->0 as int;
    assert(at <= len);
    if at < len {
        assert(at + name.len() < len) by {
            if at + name.len() >= len {
                assert(s.subrange(at, at + name.len())[len - 1 - at] == s[len - 1]);
                assert(name[len - 1 - at] == '/');
            }
        }
        assert forall|j: int| 0 <= j <= at implies occurs_at(u, name, j) == occurs_at(s, name, j) by {
            lemma_occurs_in_front(u, name + v, name, j);
        }
        lemma_first_occurrence_is(u, name, at);
        let rest_u = u.skip(at + name.len());
        let after = s.skip(at + name.len());
        assert(after =~= rest_u + name + v);
        assert(rest_u.last() == u.last());
        lemma_name_split(rest_u, name, v, next);
        assert(s.take(at) =~= u.take(at));
        assert(after[0] == rest_u[0]);
        if at > 0 {
            assert(s[at - 1] == u[at - 1]);
        }
        let (front, m) = name_masked(rest_u, None, name);
        let (rest, n) = name_masked(v, next, name);
        if at > 0 && s[at - 1] == '/' && is_boundary(char_ahead(after, next)) {
            assert(u.take(at) + "<user>"@ + (front + "<user>"@ + rest) =~= (u.take(at) + "<user>"@ + front) + "<user>"@
                + rest);
        } else {
            assert(u.take(at) + name + (front + "<user>"@ + rest) =~= (u.take(at) + name + front) + "<user>"@ + rest);
        }
    } else {
        assert forall|j: int| 0 <= j implies !occurs_at(u, name, j) by {
            if occurs_at(u, name, j) {
                lemma_occurs_in_front(u, name + v, name, j);
            }
        }
        lemma_no_occurrence(u, name);
        assert(s.take(at) =~= u);
        assert(s.skip(at + name.len()) =~= v);
        assert(s[at - 1] == u.last());
    }
}

/// Whether an occurrence of `home` in `s` lies outside the positions from
/// `from` to `to`.
spec fn outside(s: Seq<char>, home: Seq<char>, from: int, to: int) -> bool {
    forall|i: int| #[trigger] occurs_at(s, home, i) && 0 <= i ==> i + home.len() <= from || i >= to
}

/// Two rewritten texts with `sep` between them.
spec fn glued(a: Masked, sep: Seq<char>, homes: nat, users: nat, b: Masked) -> Masked {
    Masked { text: a.text + sep + b.text, homes: a.homes + homes + b.homes, users: a.users + users + b.users }
}

/// A rewritten text in front of the home, the home or a tilde, and the rest.
spec fn stepped(front: (Seq<char>, nat), at_boundaries: bool, home: Seq<char>, rest: Masked) -> Masked {
    if at_boundaries {
        Masked { text: front.0.push('~') + rest.text, homes: rest.homes + 1, users: front.1 + rest.users }
    } else {
        Masked { text: front.0 + home + rest.text, homes: rest.homes, users: front.1 + rest.users }
    }
}

proof fn lemma_step(prev: Option<char>, s: Seq<char>, at: int, home: Seq<char>, name: Seq<char>)
    requires
        home.len() > 0,
        0 <= at <= s.len(),
        occurs_at(s, home, at),
        forall|j: int| 0 <= j < at ==> !(#[trigger] occurs_at(s, home, j)),
    ensures
        home_masked(prev, s, home, Some(name)) == stepped(
            name_masked(s.take(at), Some(home[0]), name),
            is_boundary(
                if at == 0 {
                    prev
                } else {
                    Some(s[at - 1])
                },
            ) && ends_here(s.skip(at + home.len())),
            home,
            home_masked(Some(home.last()), s.skip(at + home.len()), home, Some(name)),
        ),
{
    lemma_first_occurrence_is(s, home, at);
    lemma_first_occurrence(s, home);
}

proof fn lemma_absent(prev: Option<char>, s: Seq<char>, home: Seq<char>, name: Seq<char>)
    requires
        forall|j: int| 0 <= j ==> !(#[trigger] occurs_at(s, home, j)),
    ensures
        home_masked(prev, s, home, Some(name)) == (Masked {
            text: name_masked(s, None, name).0,
            homes: 0,
            users: name_masked(s, None, name).1,
        }),
{
    assert forall|j: int| 0 <= j implies !occurs_at(s, home, j) by {
        assert(!occurs_at(s, home, j));
    }
    lemma_no_occurrence(s, home);
}

proof fn lemma_step_glued(
    front: (Seq<char>, nat),
    at_boundaries: bool,
    home: Seq<char>,
    mid: Masked,
    sep: Seq<char>,
    homes: nat,
    users: nat,
    rest: Masked,
)
    ensures
        stepped(front, at_boundaries, home, glued(mid, sep, homes, users, rest)) == glued(
            stepped(front, at_boundaries, home, mid),
            sep,
            homes,
            users,
            rest,
        ),
{
    assert(front.0.push('~') + (mid.text + sep + rest.text) =~= (front.0.push('~') + mid.text) + sep + rest.text);
    assert(front.0 + home + (mid.text + sep + rest.text) =~= (front.0 + home + mid.text) + sep + rest.text);
}

proof fn lemma_glued_step(
    a: Masked,
    sep: Seq<char>,
    users: nat,
    front: (Seq<char>, nat),
    at_boundaries: bool,
    home: Seq<char>,
    rest: Masked,
)
    requires
        a.homes == 0,
    ensures
        stepped((a.text + sep + front.0, a.users + users + front.1), at_boundaries, home, rest) == glued(
            a,
            sep,
            0,
            users,
            stepped(front, at_boundaries, home, rest),
        ),
{
    assert((a.text + sep + front.0).push('~') + rest.text =~= a.text + sep + (front.0.push('~') + rest.text));
    assert((a.text + sep + front.0) + home + rest.text =~= a.text + sep + (front.0 + home + rest.text));
}

proof fn lemma_first_in_front(u: Seq<char>, t: Seq<char>, home: Seq<char>, at: int)
    requires
        0 <= at,
        at + home.len() <= u.len(),
        occurs_at(u + t, home, at),
        forall|j: int| 0 <= j < at ==> !(#[trigger] occurs_at(u + t, home, j)),
    ensures
        occurs_at(u, home, at),
        forall|j: int| 0 <= j < at ==> !(#[trigger] occurs_at(u, home, j)),
{
    lemma_occurs_in_front(u, t, home, at);
    assert forall|j: int| 0 <= j < at implies !(#[trigger] occurs_at(u, home, j)) by {
        lemma_occurs_in_front(u, t, home, j);
    }
}

proof fn lemma_user_split_before(
    prev: Option<char>,
    u: Seq<char>,
    v: Seq<char>,
    home: Seq<char>,
    name: Seq<char>,
    at: int,
)
    requires
        u.len() > 0,
        u.last() == '/',
        name.len() > 0,
        !name.contains('/'),
        home.len() > 0,
        ends_here(v),
        at >= u.len() + name.len(),
        occurs_at(u + name + v, home, at),
        forall|j: int| 0 <= j < at ==> !(#[trigger] occurs_at(u + name + v, home, j)),
    ensures
        home_masked(prev, u + name + v, home, Some(name)) == glued(
            home_masked(prev, u, home, Some(name)),
            "<user>"@,
            0,
            1,
            home_masked(Some(name.last()), v, home, Some(name)),
        ),
{
    let s = u + name + v;
    let un = u + name;
    let end = un.len() as int;
    let b = at - end;
    assert(s =~= u + (name + v));
    assert forall|j: int| 0 <= j implies !(#[trigger] occurs_at(u, home, j)) by {
        if occurs_at(u, home, j) {
            lemma_occurs_in_front(u, name + v, home, j);
        }
    }
    lemma_absent(prev, u, home, name);
    lemma_occurs_behind(un, v, home, b);
    assert forall|j: int| 0 <= j < b implies !(#[trigger] occurs_at(v, home, j)) by {
        lemma_occurs_behind(un, v, home, j);
        assert(!occurs_at(s, home, end + j));
    }
    lemma_step(prev, s, at, home, name);
    lemma_step(Some(name.last()), v, b, home, name);
    assert(s.take(at) =~= u + name + v.take(b));
    assert(s.skip(at + home.len()) =~= v.skip(b + home.len()));
    if b == 0 {
        assert(v.subrange(0, home.len() as int)[0] == v[0]);
        assert(s[at - 1] == name.last());
    } else {
        assert(s[at - 1] == v[b - 1]);
        assert(v.take(b)[0] == v[0]);
    }
    lemma_name_split(u, name, v.take(b), Some(home[0]));
    lemma_glued_step(
        home_masked(prev, u, home, Some(name)),
        "<user>"@,
        1,
        name_masked(v.take(b), Some(home[0]), name),
        is_boundary(Some(s[at - 1])) && ends_here(v.skip(b + home.len())),
        home,
        home_masked(Some(home.last()), v.skip(b + home.len()), home, Some(name)),
    );
}

proof fn lemma_user_split(
    prev: Option<char>,
    u: Seq<char>,
    v: Seq<char>,
    home: Seq<char>,
    name: Seq<char>,
)
    requires
        u.len() > 0,
        u.last() == '/',
        name.len() > 0,
        !name.contains('/'),
        home.len() > 0,
        home.last() != '/',
        ends_here(v),
        outside(u + name + v, home, u.len() as int, (u.len() + name.len()) as int),
    ensures
        home_masked(prev, u + name + v, home, Some(name)) == glued(
            home_masked(prev, u, home, Some(name)),
            "<user>"@,
            0,
            1,
            home_masked(Some(name.last()), v, home, Some(name)),
        ),
    decreases u.len(),
{
    let s = u + name + v;
    let len = u.len() as int;
    let un = u + name;
    assert(s =~= u + (name + v));
    lemma_earlier(s, home);
    lemma_first_occurrence(s, home);
    match first_occurrence(s, home) {
        None => {
            assert forall|j: int| 0 <= j implies !(#[trigger] occurs_at(u, home, j)) by {
                if occurs_at(u, home, j) {
                    lemma_occurs_in_front(u, name + v, home, j);
                }
            }
            assert forall|j: int| 0 <= j implies !(#[trigger] occurs_at(v, home, j)) by {
                lemma_occurs_behind(un, v, home, j);
            }
            lemma_absent(prev, s, home, name);
            lemma_absent(prev, u, home, name);
            lemma_absent(Some(name.last()), v, home, name);
            lemma_name_split(u, name, v, None);
        },
        Some(k) => {
            let at = k as int;
            assert(occurs_at(s, home, at));
            if at + home.len() <= len {
                lemma_first_in_front(u, name + v, home, at);
                let rest_u = u.skip(at + home.len());
                let after = s.skip(at + home.len());
                assert(after =~= rest_u + name + v);
                assert(rest_u.len() > 0) by {
                    if at + home.len() == len {
                        assert(s.subrange(at, at + home.len())[home.len() - 1] == s[len - 1]);
                    }
                }
                assert(outside(after, home, rest_u.len() as int, rest_u.len() as int + name.len())) by {
                    assert forall|i: int| #[trigger] occurs_at(after, home, i) && 0 <= i implies i + home.len()
                        <= rest_u.len() || i >= rest_u.len() + name.len() by {
                        assert(s =~= s.take(at + home.len()) + after);
                        lemma_occurs_behind(s.take(at + home.len()), after, home, i);
                    }
                }
                lemma_user_split(Some(home.last()), rest_u, v, home, name);
                lemma_step(prev, s, at, home, name);
                lemma_step(prev, u, at, home, name);
                assert(s.take(at) =~= u.take(at));
                assert(after[0] == rest_u[0]);
                if at > 0 {
                    assert(s[at - 1] == u[at - 1]);
                }
                lemma_step_glued(
                    name_masked(u.take(at), Some(home[0]), name),
                    is_boundary(
                        if at == 0 {
                            prev
                        } else {
                            Some(u[at - 1])
                        },
                    ) && ends_here(rest_u),
                    home,
                    home_masked(Some(home.last()), rest_u, home, Some(name)),
                    "<user>"@,
                    0,
                    1,
                    home_masked(Some(name.last()), v, home, Some(name)),
                );
            } else {
                assert(at >= len + name.len());
                lemma_user_split_before(prev, u, v, home, name, at);
            }
        },
    }
}

/// Wherever the login name stands as a whole path component outside every
/// occurrence of the home directory, the result has `<user>` in its place,
/// and counts it; what lies before it and what lies behind it are rewritten
/// as if they stood alone, whether or not the home occurs in them.
pub proof fn law_the_login_name_is_masked_outside_the_home(
    u: Seq<char>,
    v: Seq<char>,
    home: Seq<char>,
    name: Seq<char>,
)
    requires
        u.len() > 0,
        u.last() == '/',
        ends_here(v),
        name.len() > 0,
        !name.contains('/'),
        home.len() > 0,
        home.last() != '/',
        forall|i: int|
            0 <= i && #[trigger] occurs_at(u + name + v, home, i) ==> i + home.len() <= u.len() || i >= u.len()
                + name.len(),
    ensures
        ({
            let front = text_masked(u, Some(home), Some(name));
            let rest = home_masked(Some(name.last()), v, home, Some(name));
            text_masked(u + name + v, Some(home), Some(name)) == (Masked {
                text: front.text + "<user>"@ + rest.text,
                homes: front.homes + rest.homes,
                users: front.users + 1 + rest.users,
            })
        }),
{
    lemma_user_split(None, u, v, home, name);
}

/// The same where the home directory is not looked for.
pub proof fn law_the_login_name_is_masked_without_a_home(u: Seq<char>, v: Seq<char>, name: Seq<char>)
    requires
        u.len() > 0,
        u.last() == '/',
        ends_here(v),
        name.len() > 0,
        !name.contains('/'),
    ensures
        ({
            let front = text_masked(u, None, Some(name));
            let rest = text_masked(v, None, Some(name));
            text_masked(u + name + v, None, Some(name)) == (Masked {
                text: front.text + "<user>"@ + rest.text,
                homes: 0,
                users: front.users + 1 + rest.users,
            })
        }),
{
    lemma_name_split(u, name, v, None);
}

/// What stands for the home between what comes before and what comes behind.
spec fn home_shown(before: Option<char>, v: Seq<char>, home: Seq<char>) -> Seq<char> {
    if is_boundary(before) && ends_here(v) {
        "~"@
    } else {
        home
    }
}

/// Whether the home is counted between what comes before and what comes
/// behind.
spec fn home_counted(before: Option<char>, v: Seq<char>) -> nat {
    if is_boundary(before) && ends_here(v) {
        1
    } else {
        0
    }
}

/// The character in front of what follows `u`.
spec fn char_behind(prev: Option<char>, u: Seq<char>) -> Option<char> {
    if u.len() == 0 {
        prev
    } else {
        Some(u.last())
    }
}

proof fn lemma_home_split_here(
    prev: Option<char>,
    u: Seq<char>,
    v: Seq<char>,
    home: Seq<char>,
    name: Seq<char>,
)
    requires
        home.len() > 0,
        !is_path_char(home[0]),
        !name.contains('/'),
        forall|j: int| 0 <= j < u.len() ==> !(#[trigger] occurs_at(u + home + v, home, j)),
    ensures
        home_masked(prev, u + home + v, home, Some(name)) == glued(
            home_masked(prev, u, home, Some(name)),
            home_shown(char_behind(prev, u), v, home),
            home_counted(char_behind(prev, u), v),
            0,
            home_masked(Some(home.last()), v, home, Some(name)),
        ),
{
    reveal_strlit("~");
    let s = u + home + v;
    let len = u.len() as int;
    assert(s =~= u + (home + v));
    assert((home + v).subrange(0, home.len() as int) =~= home);
    assert(occurs_at(home + v, home, 0));
    lemma_occurs_behind(u, home + v, home, 0);
    assert forall|j: int| 0 <= j implies !(#[trigger] occurs_at(u, home, j)) by {
        if occurs_at(u, home, j) {
            lemma_occurs_in_front(u, home + v, home, j);
        }
    }
    lemma_absent(prev, u, home, name);
    lemma_step(prev, s, len, home, name);
    assert(s.take(len) =~= u);
    assert(s.skip(len + home.len()) =~= v);
    lemma_name_next(u, name, Some(home[0]), None);
    let front = name_masked(u, None, name).0;
    let rest = home_masked(Some(home.last()), v, home, Some(name));
    assert(front.push('~') + rest.text =~= front + "~"@ + rest.text);
    if len > 0 {
        assert(s[len - 1] == u.last());
    }
}

#[verifier::rlimit(40)]
proof fn lemma_home_split(
    prev: Option<char>,
    u: Seq<char>,
    v: Seq<char>,
    home: Seq<char>,
    name: Seq<char>,
)
    requires
        home.len() > 0,
        !is_path_char(home[0]),
        !name.contains('/'),
        forall|i: int| 0 <= i < u.len() && #[trigger] occurs_at(u + home + v, home, i) ==> i + home.len() <= u.len(),
    ensures
        home_masked(prev, u + home + v, home, Some(name)) == glued(
            home_masked(prev, u, home, Some(name)),
            home_shown(char_behind(prev, u), v, home),
            home_counted(char_behind(prev, u), v),
            0,
            home_masked(Some(home.last()), v, home, Some(name)),
        ),
    decreases u.len(),
{
    let s = u + home + v;
    let len = u.len() as int;
    assert(s =~= u + (home + v));
    assert((home + v).subrange(0, home.len() as int) =~= home);
    assert(occurs_at(home + v, home, 0));
    lemma_occurs_behind(u, home + v, home, 0);
    lemma_earlier(s, home);
    lemma_first_occurrence(s, home);
    let at = first_occurrence(s, home)->0 as int;
    assert(occurs_at(s, home, at));
    let rest = home_masked(Some(home.last()), v, home, Some(name));
    if at < len {
        lemma_first_in_front(u, home + v, home, at);
        let rest_u = u.skip(at + home.len());
        let after = s.skip(at + home.len());
        assert(after =~= rest_u + home + v);
        assert forall|i: int| 0 <= i < rest_u.len() && #[trigger] occurs_at(rest_u + home + v, home, i) implies i
            + home.len() <= rest_u.len() by {
            assert(s =~= s.take(at + home.len()) + after);
            lemma_occurs_behind(s.take(at + home.len()), after, home, i);
        }
        lemma_home_split(Some(home.last()), rest_u, v, home, name);
        lemma_step(prev, s, at, home, name);
        lemma_step(prev, u, at, home, name);
        assert(s.take(at) =~= u.take(at));
        if at > 0 {
            assert(s[at - 1] == u[at - 1]);
        }
        if rest_u.len() > 0 {
            assert(after[0] == rest_u[0]);
            assert(rest_u.last() == u.last());
        } else {
            assert(after[0] == home[0]);
            assert(u.subrange(at, at + home.len())[home.len() - 1] == u[len - 1]);
        }
        assert(char_behind(Some(home.last()), rest_u) == char_behind(prev, u));
        lemma_step_glued(
            name_masked(u.take(at), Some(home[0]), name),
            is_boundary(
                if at == 0 {
                    prev
                } else {
                    Some(u[at - 1])
                },
            ) && ends_here(rest_u),
            home,
            home_masked(Some(home.last()), rest_u, home, Some(name)),
            home_shown(char_behind(prev, u), v, home),
            home_counted(char_behind(prev, u), v),
            0,
            rest,
        );
    } else {
        assert(at == len);
        lemma_home_split_here(prev, u, v, home, name);
    }
}

/// Wherever the home directory stands at path boundaries the result has `~`
/// in its place and counts it, and where it stands in the middle of a longer
/// name it is kept; what lies before it is rewritten as if it stood alone,
/// and what lies behind it as what follows the home.
pub proof fn law_the_home_becomes_a_tilde(u: Seq<char>, v: Seq<char>, home: Seq<char>, name: Seq<char>)
    requires
        home.len() > 0,
        !is_path_char(home[0]),
        !name.contains('/'),
        forall|i: int| 0 <= i < u.len() && #[trigger] occurs_at(u + home + v, home, i) ==> i + home.len() <= u.len(),
    ensures
        ({
            let front = text_masked(u, Some(home), Some(name));
            let rest = home_masked(Some(home.last()), v, home, Some(name));
            text_masked(u + home + v, Some(home), Some(name)) == (if begins_here(u) && ends_here(v) {
                Masked {
                    text: front.text + "~"@ + rest.text,
                    homes: front.homes + 1 + rest.homes,
                    users: front.users + rest.users,
                }
            } else {
                Masked {
                    text: front.text + home + rest.text,
                    homes: front.homes + rest.homes,
                    users: front.users + rest.users,
                }
            })
        }),
{
    lemma_home_split(None, u, v, home, name);
}

proof fn lemma_name_stays(s: Seq<char>, next: Option<char>, name: Seq<char>)
    requires
        forall|i: int|
            !(0 < i && i + name.len() <= s.len() && #[trigger] s.subrange(i, i + name.len()) == name && s[i - 1] == '/'
                && is_boundary(char_ahead(s.skip(i + name.len()), next))),
    ensures
        name_masked(s, next, name) == (s, 0nat),
    decreases s.len(),
{
    lemma_first_occurrence(s, name);
    if let Some(at) = first_occurrence(s, name) {
        let at = at as int;
        if name.len() > 0 {
            let cut = at + name.len();
            let after = s.skip(cut);
            assert forall|i: int|
                !(0 < i && i + name.len() <= after.len() && #[trigger] after.subrange(i, i + name.len()) == name
                    && after[i - 1] == '/' && is_boundary(char_ahead(after.skip(i + name.len()), next))) by {
                if 0 < i && i + name.len() <= after.len() {
                    assert(after.subrange(i, i + name.len()) =~= s.subrange(cut + i, cut + i + name.len()));
                    assert(after.skip(i + name.len()) =~= s.skip(cut + i + name.len()));
                    assert(after[i - 1] == s[cut + i - 1]);
                }
            }
            lemma_name_stays(after, next, name);
            assert(s.subrange(at, at + name.len()) == name);
            assert(s =~= s.take(at) + name + after);
        }
    }
}

proof fn lemma_stays(prev: Option<char>, s: Seq<char>, home: Seq<char>, name: Seq<char>)
    requires
        forall|i: int| !(#[trigger] component_at(s, name, i)),
        forall|i: int|
            !(0 <= i && i + home.len() <= s.len() && #[trigger] s.subrange(i, i + home.len()) == home && is_boundary(
                if i == 0 {
                    prev
                } else {
                    Some(s[i - 1])
                },
            ) && ends_here(s.skip(i + home.len()))),
    ensures
        home_masked(prev, s, home, Some(name)) == (Masked { text: s, homes: 0, users: 0 }),
    decreases s.len(),
{
    lemma_first_occurrence(s, home);
    match first_occurrence(s, home) {
        None => {
            assert forall|i: int|
                !(0 < i && i + name.len() <= s.len() && #[trigger] s.subrange(i, i + name.len()) == name && s[i - 1]
                    == '/' && is_boundary(char_ahead(s.skip(i + name.len()), None))) by {
                assert(!component_at(s, name, i));
            }
            lemma_name_stays(s, None, name);
        },
        Some(at) => {
            let at = at as int;
            if home.len() > 0 {
                let cut = at + home.len();
                let front = s.take(at);
                let after = s.skip(cut);
                assert(s.subrange(at, cut) == home);
                assert forall|i: int|
                    !(0 < i && i + name.len() <= front.len() && #[trigger] front.subrange(i, i + name.len()) == name
                        && front[i - 1] == '/' && is_boundary(
                        char_ahead(front.skip(i + name.len()), Some(home[0])),
                    )) by {
                    if 0 < i && i + name.len() <= front.len() {
                        assert(!component_at(s, name, i));
                        assert(front.subrange(i, i + name.len()) =~= s.subrange(i, i + name.len()));
                        if i + name.len() == at {
                            assert(s.skip(at)[0] == s.subrange(at, cut)[0]);
                        } else {
                            assert(front.skip(i + name.len())[0] == s.skip(i + name.len())[0]);
                        }
                    }
                }
                lemma_name_stays(front, Some(home[0]), name);
                assert forall|i: int| !(#[trigger] component_at(after, name, i)) by {
                    if component_at(after, name, i) {
                        assert(after.subrange(i, i + name.len()) =~= s.subrange(cut + i, cut + i + name.len()));
                        assert(after.skip(i + name.len()) =~= s.skip(cut + i + name.len()));
                        assert(component_at(s, name, cut + i));
                    }
                }
                assert forall|i: int|
                    !(0 <= i && i + home.len() <= after.len() && #[trigger] after.subrange(i, i + home.len()) == home
                        && is_boundary(
                        if i == 0 {
                            Some(home.last())
                        } else {
                            Some(after[i - 1])
                        },
                    ) && ends_here(after.skip(i + home.len()))) by {
                    if 0 <= i && i + home.len() <= after.len() {
                        assert(after.subrange(i, i + home.len()) =~= s.subrange(cut + i, cut + i + home.len()));
                        assert(after.skip(i + home.len()) =~= s.skip(cut + i + home.len()));
                        assert(s[cut - 1] == s.subrange(at, cut)[home.len() - 1]);
                        if i > 0 {
                            assert(after[i - 1] == s[cut + i - 1]);
                        }
                    }
                }
                lemma_stays(Some(home.last()), after, home, name);
                assert(s =~= front + home + after);
            }
        },
    }
}

/// A text in which neither the home stands at path boundaries nor the login
/// name as a whole path component stays as it is, and nothing is counted.
pub proof fn law_nothing_else_is_rewritten(s: Seq<char>, home: Seq<char>, name: Seq<char>)
    requires
        forall|i: int| !(#[trigger] component_at(s, name, i)),
        forall|i: int| !(#[trigger] path_at(s, home, i)),
    ensures
        text_masked(s, Some(home), Some(name)) == (Masked { text: s, homes: 0, users: 0 }),
{
    assert forall|i: int|
        !(0 <= i && i + home.len() <= s.len() && #[trigger] s.subrange(i, i + home.len()) == home && is_boundary(
            if i == 0 {
                None
            } else {
                Some(s[i - 1])
            },
        ) && ends_here(s.skip(i + home.len()))) by {
        assert(!path_at(s, home, i));
        if 0 < i && i + home.len() <= s.len() {
            assert(s.take(i).last() == s[i - 1]);
        }
    }
    lemma_stays(None, s, home, name);
}

proof fn lemma_without_slashes(s: Seq<char>)
    ensures
        without_slashes(s).len() <= s.len(),
        without_slashes(s) == s.take(without_slashes(s).len() as int),
        without_slashes(s).len() > 0 ==> without_slashes(s).last() != '/',
        forall|i: int| without_slashes(s).len() <= i < s.len() ==> #[trigger] s[i] == '/',
    decreases s.len(),
{
    if s.len() > 0 && s.last() == '/' {
        lemma_without_slashes(s.drop_last());
        let t = without_slashes(s.drop_last());
        assert(s.take(t.len() as int) =~= s.drop_last().take(t.len() as int));
        assert forall|i: int| t.len() <= i < s.len() implies #[trigger] s[i] == '/' by {
            if i < s.len() - 1 {
                assert(s.drop_last()[i] == s[i]);
            }
        }
    } else {
        assert(s.take(s.len() as int) =~= s);
    }
}

proof fn lemma_after_slash(s: Seq<char>)
    ensures
        after_slash(s).len() <= s.len(),
        after_slash(s) == s.skip(s.len() - after_slash(s).len()),
        !after_slash(s).contains('/'),
        after_slash(s).len() < s.len() ==> s[s.len() - after_slash(s).len() - 1] == '/',
    decreases s.len(),
{
    if s.len() == 0 || s.last() == '/' {
        assert(s.skip(s.len() as int) =~= Seq::<char>::empty());
    } else {
        let front = s.drop_last();
        lemma_after_slash(front);
        let t = after_slash(front);
        assert(s.skip(front.len() - t.len()) =~= front.skip(front.len() - t.len()).push(s.last()));
        assert forall|i: int| 0 <= i < t.push(s.last()).len() implies t.push(s.last())[i] != '/' by {
            if i < t.len() {
                assert(t.contains(t[i]));
            }
        }
    }
}

/// The home that is looked for is the given one without the slashes at its
/// end, and the login name is its last path component; a home of slashes
/// alone is not looked for.
pub proof fn law_the_login_name_is_the_last_component_of_the_home(given: Seq<char>)
    ensures
        kept_home(None) is None,
        kept_name(None) is None,
        kept_home(Some(given)) is None <==> kept_name(Some(given)) is None,
        kept_home(Some(given)) is None <==> forall|i: int| 0 <= i < given.len() ==> #[trigger] given[i] == '/',
        kept_home(Some(given)) matches Some(home) ==> {
            &&& home.len() > 0
            &&& home == given.take(home.len() as int)
            &&& home.last() != '/'
            &&& forall|i: int| home.len() <= i < given.len() ==> #[trigger] given[i] == '/'
        },
        kept_name(Some(given)) matches Some(name) ==> {
            let home = kept_home(Some(given))->0;
            &&& 0 < name.len() <= home.len()
            &&& name == home.skip(home.len() - name.len())
            &&& !name.contains('/')
            &&& name.len() < home.len() ==> home[home.len() - name.len() - 1] == '/'
        },
{
    let home = without_slashes(given);
    lemma_without_slashes(given);
    if home.len() > 0 {
        lemma_after_slash(home);
        assert(given[home.len() - 1] == home.last());
        if after_slash(home).len() == 0 {
            assert(home[home.len() - 1] == '/');
        }
    }
}

/// A token of a kernel command line that holds `UUID=` is cut off behind it
/// and says `<redacted>`, and any other token is kept.
pub proof fn law_a_uuid_is_cut_off_its_token(front: Seq<char>, value: Seq<char>, other: Seq<char>)
    requires
        forall|i: int| 0 <= i < front.len() ==> !(#[trigger] occurs_at(front + "UUID="@ + value, "UUID="@, i)),
        forall|i: int| 0 <= i ==> !(#[trigger] occurs_at(other, "UUID="@, i)),
    ensures
        token_masked(front + "UUID="@ + value) == front + "UUID=<redacted>"@,
        token_masked(other) == other,
{
    let token = front + "UUID="@ + value;
    assert(token.subrange(front.len() as int, front.len() as int + "UUID="@.len()) =~= "UUID="@);
    assert(occurs_at(token, "UUID="@, front.len() as int));
    lemma_first_occurrence_is(token, "UUID="@, front.len() as int);
    assert(token.take(front.len() as int) =~= front);
    lemma_no_occurrence(other, "UUID="@);
}

/// A character continues a name when it is a letter or a digit, an
/// underscore, a hyphen or a dot.
pub proof fn law_a_name_is_of_letters_digits_and_three_signs(c: char)
    ensures
        is_path_char(c) <==> alphanumeric(c) || c == '_' || c == '-' || c == '.',
{
}

/// A MAC address is six pairs of hexadecimal digits in either case with
/// colons between them; it stands alone when neither neighbour is such a digit
/// or a colon, and the mask that replaces it is as long as it is.
pub proof fn law_a_mac_is_six_pairs_between_colons(s: Seq<char>, before: Option<char>)
    ensures
        mac_in_front(s) <==> s.len() >= 17 && s[2] == ':' && s[5] == ':' && s[8] == ':' && s[11] == ':' && s[14] == ':'
            && forall|i: int|
            0 <= i < 17 && i % 3 != 2 ==> '0' <= #[trigger] s[i] <= '9' || 'a' <= s[i] <= 'f' || 'A' <= s[i] <= 'F',
        lone_mac(before, s) <==> mac_in_front(s) && (before is None || !('0' <= before->0 <= '9' || 'a' <= before->0
            <= 'f' || 'A' <= before->0 <= 'F' || before->0 == ':')) && (s.len() == 17 || !('0' <= s[17] <= '9' || 'a'
            <= s[17] <= 'f' || 'A' <= s[17] <= 'F' || s[17] == ':')),
        mac_mask() == "xx:xx:xx:xx:xx:xx"@,
        mac_mask().len() == 17,
{
    reveal_strlit("xx:xx:xx:xx:xx:xx");
    if mac_in_front(s) {
        assert(s[2] == ':' && s[5] == ':' && s[8] == ':' && s[11] == ':' && s[14] == ':');
    }
    if s.len() >= 17 && s[2] == ':' && s[5] == ':' && s[8] == ':' && s[11] == ':' && s[14] == ':' && forall|i: int|
        0 <= i < 17 && i % 3 != 2 ==> '0' <= #[trigger] s[i] <= '9' || 'a' <= s[i] <= 'f' || 'A' <= s[i] <= 'F' {
        assert forall|i: int| 0 <= i < 17 implies (if i % 3 == 2 {
            #[trigger] s[i] == ':'
        } else {
            is_hex(s[i])
        }) by {
            if i % 3 == 2 {
                assert(i == 2 || i == 5 || i == 8 || i == 11 || i == 14);
            }
        }
    }
}

/// The UUIDs that are counted are the tokens that hold one, and masking keeps
/// the number of tokens.
pub proof fn law_uuids_are_counted_by_token(tokens: Seq<Seq<char>>)
    ensures
        uuid_count(tokens) == tokens.filter(|t: Seq<char>| first_occurrence(t, "UUID="@) is Some).len(),
        tokens_masked(tokens).len() == tokens.len(),
    decreases tokens.len(),
{
    reveal(Seq::filter);
    if tokens.len() > 0 {
        law_uuids_are_counted_by_token(tokens.drop_last());
    }
}

/// A summary names exactly the rules that fired, each once with its count.
pub proof fn law_a_summary_names_the_rules_that_fired(r: Redactor, rule: Seq<char>, n: usize)
    ensures
        r.fired_rules().contains((rule, n)) <==> n > 0 && ((rule == "fs_uuid"@ && n == r.fs_uuids) || (rule
            == "home_path"@ && n == r.home_paths) || (rule == "mac_address"@ && n == r.mac_masks) || (rule
            == "user_name"@ && n == r.user_names)),
{
    let a = fired("fs_uuid"@, r.fs_uuids);
    let b = fired("home_path"@, r.home_paths);
    let c = fired("mac_address"@, r.mac_masks);
    let d = fired("user_name"@, r.user_names);
    let all = r.fired_rules();
    assert(all =~= a + b + c + d);
    let na = a.len() as int;
    let nb = na + b.len();
    let nc = nb + c.len();
    if all.contains((rule, n)) {
        let i = choose|i: int| 0 <= i < all.len() && all[i] == (rule, n);
        if i < na {
            assert(all[i] == a[i]);
        } else if i < nb {
            assert(all[i] == b[i - na]);
        } else if i < nc {
            assert(all[i] == c[i - nb]);
        } else {
            assert(all[i] == d[i - nc]);
        }
    }
    if n > 0 {
        if rule == "fs_uuid"@ && n == r.fs_uuids {
            assert(all[0] == (rule, n));
        }
        if rule == "home_path"@ && n == r.home_paths {
            assert(all[na] == b[0]);
            assert(all[na] == (rule, n));
        }
        if rule == "mac_address"@ && n == r.mac_masks {
            assert(all[nb] == c[0]);
            assert(all[nb] == (rule, n));
        }
        if rule == "user_name"@ && n == r.user_names {
            assert(all[nc] == d[0]);
            assert(all[nc] == (rule, n));
        }
    }
}

/// The only variables whose values are recorded.
pub proof fn law_five_variables_are_recorded(name: Seq<char>)
    ensures
        is_allowlisted(name) <==> name == "TERM"@ || name == "COLORTERM"@ || name == "LANG"@ || name == "LC_ALL"@ || name
            == "RUST_LOG"@,
{
}

} // verus!
