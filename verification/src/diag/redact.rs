//! The privacy rules. The boundary is "host identity out, device identity
//! in": nothing here ever touches a device serial or descriptor. The user's
//! home directory becomes `~`, the login name is masked wherever it stands as
//! a whole path component, host MAC addresses are masked in kernel log lines
//! and filesystem UUIDs in the kernel command line, and only a few environment
//! variables may be recorded. Every substitution is counted, so the manifest
//! can say what was changed.

pub mod laws;

use vstd::prelude::*;

use crate::device::text_of;
use crate::text::{
    char_views, extend, extend_str, find, first_occurrence, from_chars, join, join_with, lemma_first_occurrence,
    lemma_first_occurrence_is, occurs_at, slice, str_eq, to_chars, words, words_of,
};

verus! {

/// What `char::is_alphanumeric` says of a character.
pub uninterp spec fn alphanumeric(c: char) -> bool;

/// `char::is_alphanumeric`: whether a character is alphabetic or numeric, as
/// Unicode has it. Among ASCII characters those are the letters and the
/// digits.
#[verifier::external_body]
fn is_alphanumeric(c: char) -> (r: bool)
    ensures
        r == alphanumeric(c),
        c <= '\x7f' ==> r == ('0' <= c <= '9' || 'A' <= c <= 'Z' || 'a' <= c <= 'z'),
{
    c.is_alphanumeric()
}

/// Whether a character may continue a path component's name.
pub open spec fn is_path_char(c: char) -> bool {
    alphanumeric(c) || c == '_' || c == '-' || c == '.'
}

/// Whether a character may continue a path component's name: a letter or a
/// digit as Unicode has it, `_`, `-` or `.`.
pub fn path_char(c: char) -> (r: bool)
    ensures
        r == is_path_char(c),
        c <= '\x7f' ==> r == ('0' <= c <= '9' || 'A' <= c <= 'Z' || 'a' <= c <= 'z' || c == '_' || c == '-' || c
            == '.'),
{
    is_alphanumeric(c) || c == '_' || c == '-' || c == '.'
}

fn boundary(c: Option<char>) -> (r: bool)
    ensures
        r == is_boundary(c),
{
    match c {
        Some(c) => !path_char(c),
        None => true,
    }
}

/// Applies the rules and counts what it changed.
#[derive(Debug)]
pub struct Redactor {
    /// The home directory to rewrite, without a trailing slash; `None`
    /// disables the path rule (no home known, or a home of `/`, which would
    /// rewrite every absolute path).
    pub home: Option<String>,
    /// The login name (the home directory's last path component).
    pub user_name: Option<String>,
    pub home_paths: usize,
    pub user_names: usize,
    pub mac_masks: usize,
    pub fs_uuids: usize,
}

/// `s` without the slashes at its end.
pub open spec fn without_slashes(s: Seq<char>) -> Seq<char>
    decreases s.len(),
{
    if s.len() > 0 && s.last() == '/' {
        without_slashes(s.drop_last())
    } else {
        s
    }
}

/// What follows the last slash.
pub open spec fn after_slash(s: Seq<char>) -> Seq<char>
    decreases s.len(),
{
    if s.len() == 0 || s.last() == '/' {
        Seq::empty()
    } else {
        after_slash(s.drop_last()).push(s.last())
    }
}

/// A count that holds at the largest number it can show.
pub open spec fn tally(before: usize, more: nat) -> usize {
    if before + more > usize::MAX {
        usize::MAX
    } else {
        (before + more) as usize
    }
}

/// Whether a name may begin or end next to `c`: nothing is there, or a
/// character that is not one of a name.
pub open spec fn is_boundary(c: Option<char>) -> bool {
    c matches Some(c) ==> !is_path_char(c)
}

/// The character that follows where `s`, and `next` behind it, are still to
/// come.
pub open spec fn char_ahead(s: Seq<char>, next: Option<char>) -> Option<char> {
    if s.len() > 0 {
        Some(s[0])
    } else {
        next
    }
}

/// A text with the login name masked wherever it is a whole path component,
/// and how often that was: the character before must be `/`, the character
/// after absent or not one of a name. `next` is the character behind the text.
pub open spec fn name_masked(s: Seq<char>, next: Option<char>, name: Seq<char>) -> (Seq<char>, nat)
    decreases s.len(),
{
    match first_occurrence(s, name) {
        None => (s, 0),
        Some(at) => {
            proof {
                lemma_first_occurrence(s, name);
            }
            if name.len() == 0 {
                (s, 0)
            } else {
                let after = s.skip(at as int + name.len());
                let (rest, n) = name_masked(after, next, name);
                if at > 0 && s[at - 1] == '/' && is_boundary(char_ahead(after, next)) {
                    (s.take(at as int) + "<user>"@ + rest, n + 1)
                } else {
                    (s.take(at as int) + name + rest, n)
                }
            }
        },
    }
}

/// A text with the login name masked, where there is one.
pub open spec fn user_masked(s: Seq<char>, next: Option<char>, name: Option<Seq<char>>) -> (Seq<char>, nat) {
    match name {
        Some(n) => name_masked(s, next, n),
        None => (s, 0),
    }
}

/// What the path rules make of a text.
pub struct Masked {
    pub text: Seq<char>,
    pub homes: nat,
    pub users: nat,
}

/// A text with the home directory rewritten at path boundaries, and the login
/// name masked in what lies between. `prev` is the character before the text.
pub open spec fn home_masked(prev: Option<char>, s: Seq<char>, home: Seq<char>, name: Option<Seq<char>>) -> Masked
    decreases s.len(),
{
    match first_occurrence(s, home) {
        None => Masked { text: user_masked(s, None, name).0, homes: 0, users: user_masked(s, None, name).1 },
        Some(at) => {
            proof {
                lemma_first_occurrence(s, home);
            }
            if home.len() == 0 {
                Masked { text: s, homes: 0, users: 0 }
            } else {
                let (front, n) = user_masked(s.take(at as int), Some(home[0]), name);
                let after = s.skip(at as int + home.len());
                let rest = home_masked(Some(home.last()), after, home, name);
                let before = if at == 0 {
                    prev
                } else {
                    Some(s[at - 1])
                };
                if is_boundary(before) && is_boundary(char_ahead(after, None)) {
                    Masked {
                        text: front.push('~') + rest.text,
                        homes: rest.homes + 1,
                        users: n + rest.users,
                    }
                } else {
                    Masked { text: front + home + rest.text, homes: rest.homes, users: n + rest.users }
                }
            }
        },
    }
}

/// What the path rules make of a text, with or without a home.
pub open spec fn text_masked(s: Seq<char>, home: Option<Seq<char>>, name: Option<Seq<char>>) -> Masked {
    match home {
        Some(h) => home_masked(None, s, h, name),
        None => Masked { text: user_masked(s, None, name).0, homes: 0, users: user_masked(s, None, name).1 },
    }
}

/// Whether a character is a hexadecimal digit.
pub open spec fn is_hex(c: char) -> bool {
    '0' <= c <= '9' || 'a' <= c <= 'f' || 'A' <= c <= 'F'
}

/// Whether a character may be part of a MAC address.
pub open spec fn is_mac_char(c: char) -> bool {
    is_hex(c) || c == ':'
}

/// Whether `s` starts with six pairs of digits with colons between them.
pub open spec fn mac_in_front(s: Seq<char>) -> bool {
    s.len() >= 17 && forall|i: int|
        0 <= i < 17 ==> (if i % 3 == 2 {
            #[trigger] s[i] == ':'
        } else {
            is_hex(s[i])
        })
}

/// What a masked MAC address reads.
pub open spec fn mac_mask() -> Seq<char> {
    "xx:xx:xx:xx:xx:xx"@
}

/// Whether a MAC address stands alone at the front of `s`, `before` being the
/// character in front of it.
pub open spec fn lone_mac(before: Option<char>, s: Seq<char>) -> bool {
    &&& mac_in_front(s)
    &&& (before matches Some(c) ==> !is_mac_char(c))
    &&& (s.len() > 17 ==> !is_mac_char(s[17]))
}

/// A text with each MAC address that stands alone masked, and how often that
/// was.
pub open spec fn macs_masked(before: Option<char>, s: Seq<char>) -> (Seq<char>, nat)
    decreases s.len(),
{
    if s.len() < 17 {
        (s, 0)
    } else if lone_mac(before, s) {
        let (rest, n) = macs_masked(Some('x'), s.skip(17));
        (mac_mask() + rest, n + 1)
    } else {
        let (rest, n) = macs_masked(Some(s[0]), s.skip(1));
        (seq![s[0]] + rest, n)
    }
}

/// A token of a kernel command line with the value after `UUID=` masked.
pub open spec fn token_masked(token: Seq<char>) -> Seq<char> {
    match first_occurrence(token, "UUID="@) {
        Some(at) => token.take(at as int) + "UUID=<redacted>"@,
        None => token,
    }
}

/// Tokens of a kernel command line, masked.
pub open spec fn tokens_masked(tokens: Seq<Seq<char>>) -> Seq<Seq<char>> {
    tokens.map_values(|t: Seq<char>| token_masked(t))
}

/// How many tokens hold a UUID.
pub open spec fn uuid_count(tokens: Seq<Seq<char>>) -> nat
    decreases tokens.len(),
{
    if tokens.len() == 0 {
        0
    } else if first_occurrence(tokens.last(), "UUID="@) is Some {
        uuid_count(tokens.drop_last()) + 1
    } else {
        uuid_count(tokens.drop_last())
    }
}

/// The only environment variables whose values a bundle records.
pub open spec fn is_allowlisted(name: Seq<char>) -> bool {
    name == "TERM"@ || name == "COLORTERM"@ || name == "LANG"@ || name == "LC_ALL"@ || name == "RUST_LOG"@
}

/// One rule with its count, when it fired.
pub open spec fn fired(rule: Seq<char>, n: usize) -> Seq<(Seq<char>, usize)> {
    if n > 0 {
        seq![(rule, n)]
    } else {
        Seq::empty()
    }
}

/// What a list of rules and counts says.
pub open spec fn rule_counts(v: Seq<(String, usize)>) -> Seq<(Seq<char>, usize)> {
    v.map_values(|e: (String, usize)| (e.0@, e.1))
}

/// The home that is looked for: without slashes at its end, and none when
/// nothing is left.
pub open spec fn kept_home(home: Option<Seq<char>>) -> Option<Seq<char>> {
    match home {
        Some(h) => if without_slashes(h).len() > 0 {
            Some(without_slashes(h))
        } else {
            None
        },
        None => None,
    }
}

/// The login name that is looked for: the last component of the home.
pub open spec fn kept_name(home: Option<Seq<char>>) -> Option<Seq<char>> {
    match kept_home(home) {
        Some(h) => Some(after_slash(h)),
        None => None,
    }
}

impl Redactor {
    /// Whether this redactor works for the home `home`.
    pub open spec fn is_for(self, home: Option<Seq<char>>) -> bool {
        text_of(self.home) == kept_home(home) && text_of(self.user_name) == kept_name(home)
    }

    /// Whether nothing was counted yet.
    pub open spec fn is_unused(self) -> bool {
        self.home_paths == 0 && self.user_names == 0 && self.mac_masks == 0 && self.fs_uuids == 0
    }

    /// A redactor for a home directory.
    pub fn new(home: Option<&str>) -> (r: Redactor)
        ensures
            r.is_for(
                (match home {
                    Some(h) => Some(h@),
                    None => None,
                }),
            ),
            r.is_unused(),
    {
        let mut v = match home {
            Some(h) => to_chars(h),
            None => Vec::new(),
        };
        let ghost whole = v@;
        while v.len() > 0 && v[v.len() - 1] == '/'
            invariant
                without_slashes(v@) == without_slashes(whole),
            decreases v@.len(),
        {
            let ghost before = v@;
            let _ = v.pop();
            assert(v@ =~= before.drop_last());
        }
        assert(v@ == without_slashes(whole));
        let mut r = Redactor {
            home: None,
            user_name: None,
            home_paths: 0,
            user_names: 0,
            mac_masks: 0,
            fs_uuids: 0,
        };
        if v.len() > 0 {
            let mut k: usize = v.len();
            assert(v@.subrange(k as int, v@.len() as int) =~= Seq::<char>::empty());
            assert(v@.take(k as int) =~= v@);
            assert(after_slash(v@.take(k as int)) + v@.subrange(k as int, v@.len() as int) =~= after_slash(v@));
            while k > 0 && v[k - 1] != '/'
                invariant
                    k <= v@.len(),
                    after_slash(v@.take(k as int)) + v@.subrange(k as int, v@.len() as int) == after_slash(v@),
                decreases k,
            {
                let ghost front = v@.take(k as int);
                assert(front.drop_last() =~= v@.take(k - 1));
                assert(front.last() == v@[k - 1]);
                assert(after_slash(v@.take(k - 1)) + v@.subrange(k - 1, v@.len() as int) =~= after_slash(
                    v@.take(k - 1),
                ).push(v@[k - 1]) + v@.subrange(k as int, v@.len() as int));
                k = k - 1;
            }
            assert(k > 0 ==> v@.take(k as int).last() == v@[k - 1]);
            assert(v@.subrange(k as int, v@.len() as int) =~= after_slash(v@));
            let name = slice(&v, k, v.len());
            r.home = Some(from_chars(&v));
            r.user_name = Some(from_chars(&name));
        }
        r
    }

    /// Every rule that fired and how often, by rule name.
    pub open spec fn fired_rules(self) -> Seq<(Seq<char>, usize)> {
        fired("fs_uuid"@, self.fs_uuids) + fired("home_path"@, self.home_paths) + fired(
            "mac_address"@,
            self.mac_masks,
        ) + fired("user_name"@, self.user_names)
    }

    /// What becomes of a text.
    pub open spec fn masks(self, s: Seq<char>) -> Masked {
        text_masked(s, text_of(self.home), text_of(self.user_name))
    }

    /// The redactor once it has rewritten a text.
    pub open spec fn after(self, s: Seq<char>) -> Redactor {
        Redactor {
            home_paths: tally(self.home_paths, self.masks(s).homes),
            user_names: tally(self.user_names, self.masks(s).users),
            ..self
        }
    }

    fn mask_user_name(&mut self, text: &Vec<char>, next: Option<char>) -> (r: Vec<char>)
        ensures
            r@ == user_masked(text@, next, text_of(old(self).user_name)).0,
            *final(self) == (Redactor {
                user_names: tally(old(self).user_names, user_masked(text@, next, text_of(old(self).user_name)).1),
                ..*old(self)
            }),
    {
        let name = match &self.user_name {
            None => {
                let copy = slice(text, 0, text.len());
                assert(copy@ =~= text@);
                return copy;
            },
            Some(n) => to_chars(n.as_str()),
        };
        let mut out: Vec<char> = Vec::new();
        let mut rest = slice(text, 0, text.len());
        let mut count: usize = 0;
        let ghost whole = name_masked(text@, next, name@);
        assert(rest@ =~= text@);
        assert(out@ + whole.0 =~= whole.0);
        let ghost mut seen: nat = 0;
        if name.len() == 0 {
            proof {
                lemma_first_occurrence(text@, name@);
            }
            return rest;
        }
        loop
            invariant
                name@.len() > 0,
                *self == *old(self),
                text_of(old(self).user_name) == Some(name@),
                whole == name_masked(text@, next, name@),
                out@ + name_masked(rest@, next, name@).0 == whole.0,
                seen + name_masked(rest@, next, name@).1 == whole.1,
                count == tally(0, seen),
            decreases rest@.len(),
        {
            match find(&rest, &name) {
                None => {
                    extend(&mut out, &rest);
                    self.user_names = if count > usize::MAX - self.user_names {
                        usize::MAX
                    } else {
                        self.user_names + count
                    };
                    return out;
                },
                Some(at) => {
                    assert(at + name@.len() <= rest.len());
                    let after = slice(&rest, at + name.len(), rest.len());
                    let front = slice(&rest, 0, at);
                    assert(after@ =~= rest@.skip(at + name@.len()));
                    assert(front@ =~= rest@.take(at as int));
                    let before_ok = at > 0 && rest[at - 1] == '/';
                    let after_ok = if after.len() > 0 {
                        !path_char(after[0])
                    } else {
                        boundary(next)
                    };
                    let ghost so_far = out@;
                    extend(&mut out, &front);
                    if before_ok && after_ok {
                        extend_str(&mut out, "<user>");
                        if count < usize::MAX {
                            count = count + 1;
                        }
                        proof {
                            seen = seen + 1;
                        }
                        assert(out@ + name_masked(after@, next, name@).0 =~= so_far + (front@ + "<user>"@ + name_masked(
                            after@,
                            next,
                            name@,
                        ).0));
                    } else {
                        extend(&mut out, &name);
                        assert(out@ + name_masked(after@, next, name@).0 =~= so_far + (front@ + name@ + name_masked(
                            after@,
                            next,
                            name@,
                        ).0));
                    }
                    rest = after;
                },
            }
        }
    }

    /// Every occurrence of the home directory inside free text becomes `~`,
    /// and every occurrence of the login name as a whole path component in
    /// what lies between becomes `<user>`. An occurrence of the home counts
    /// only at a path boundary: both the character before and the character
    /// after the match must be absent or not one of a name. `/home/alice/x` matches,
    /// `/home/alice2/x` and `/opt/home/alice/data` do not.
    pub fn text(&mut self, text: &str) -> (r: String)
        ensures
            r@ == old(self).masks(text@).text,
            *final(self) == old(self).after(text@),
    {
        let v = to_chars(text);
        let ghost m = text_masked(text@, text_of(self.home), text_of(self.user_name));
        let ghost user = text_of(self.user_name);
        let home = match &self.home {
            None => {
                let out = self.mask_user_name(&v, None);
                return from_chars(&out);
            },
            Some(h) => to_chars(h.as_str()),
        };
        if home.len() == 0 {
            proof {
                lemma_first_occurrence(text@, home@);
                assert(crate::text::occurs_at(text@, home@, 0)) by {
                    assert(text@.subrange(0, 0) =~= home@);
                }
            }
            return from_chars(&v);
        }
        let mut out: Vec<char> = Vec::new();
        let mut rest = slice(&v, 0, v.len());
        let mut prev: Option<char> = None;
        assert(rest@ =~= text@);
        assert(out@ + m.text =~= m.text);
        let ghost mut homes: nat = 0;
        let ghost mut users: nat = 0;
        loop
            invariant
                home@.len() > 0,
                text_of(old(self).home) == Some(home@),
                user == text_of(old(self).user_name),
                m == home_masked(None, text@, home@, user),
                *self == (Redactor {
                    home_paths: tally(old(self).home_paths, homes),
                    user_names: tally(old(self).user_names, users),
                    ..*old(self)
                }),
                out@ + home_masked(prev, rest@, home@, user).text == m.text,
                homes + home_masked(prev, rest@, home@, user).homes == m.homes,
                users + home_masked(prev, rest@, home@, user).users == m.users,
            decreases rest@.len(),
        {
            match find(&rest, &home) {
                None => {
                    let tail = self.mask_user_name(&rest, None);
                    extend(&mut out, &tail);
                    return from_chars(&out);
                },
                Some(at) => {
                    let front = slice(&rest, 0, at);
                    let after = slice(&rest, at + home.len(), rest.len());
                    assert(after@ =~= rest@.skip(at + home@.len()));
                    assert(front@ =~= rest@.take(at as int));
                    let ghost so_far = out@;
                    let masked = self.mask_user_name(&front, Some(home[0]));
                    proof {
                        users = users + user_masked(front@, Some(home@[0]), user).1;
                    }
                    extend(&mut out, &masked);
                    let before_ok = if at == 0 {
                        boundary(prev)
                    } else {
                        !path_char(rest[at - 1])
                    };
                    let after_ok = after.len() == 0 || !path_char(after[0]);
                    let ghost tail = home_masked(Some(home@.last()), after@, home@, user).text;
                    if before_ok && after_ok {
                        out.push('~');
                        if self.home_paths < usize::MAX {
                            self.home_paths = self.home_paths + 1;
                        }
                        proof {
                            homes = homes + 1;
                        }
                        assert(out@ + tail =~= so_far + (masked@.push('~') + tail));
                    } else {
                        extend(&mut out, &home);
                        assert(out@ + tail =~= so_far + (masked@ + home@ + tail));
                    }
                    rest = after;
                    prev = Some(home[home.len() - 1]);
                },
            }
        }
    }

    /// A path under the home directory becomes `~/…`; the home itself becomes
    /// `~`. Anything else is returned as written, but for the login name.
    pub fn path(&mut self, path: &str) -> (r: String)
        ensures
            r@ == old(self).masks(path@).text,
            *final(self) == old(self).after(path@),
    {
        self.text(path)
    }

    /// Masks each stand-alone `hh:hh:hh:hh:hh:hh` token as
    /// `xx:xx:xx:xx:xx:xx`. Applied to kernel log lines, where a USB network
    /// adapter's line names the host's own MAC; never to the device
    /// inventory, whose serial strings are device identity and stay.
    pub fn mac_addresses(&mut self, text: &str) -> (r: String)
        ensures
            r@ == macs_masked(None, text@).0,
            *final(self) == (Redactor {
                mac_masks: tally(old(self).mac_masks, macs_masked(None, text@).1),
                ..*old(self)
            }),
    {
        let v = to_chars(text);
        let mut out: Vec<char> = Vec::new();
        let mut i: usize = 0;
        let mut before: Option<char> = None;
        let ghost whole = macs_masked(None, text@);
        let ghost mut seen: nat = 0;
        assert(v@.skip(0) =~= v@);
        assert(out@ + whole.0 =~= whole.0);
        while v.len() - i >= 17
            invariant
                i <= v@.len(),
                whole == macs_masked(None, text@),
                out@ + macs_masked(before, v@.skip(i as int)).0 == whole.0,
                seen + macs_masked(before, v@.skip(i as int)).1 == whole.1,
                *self == (Redactor { mac_masks: tally(old(self).mac_masks, seen), ..*old(self) }),
            decreases v@.len() - i,
        {
            let ghost s = v@.skip(i as int);
            let ghost so_far = out@;
            let lone = is_lone_mac(before, &v, i);
            if lone {
                extend_str(&mut out, "xx:xx:xx:xx:xx:xx");
                if self.mac_masks < usize::MAX {
                    self.mac_masks = self.mac_masks + 1;
                }
                proof {
                    seen = seen + 1;
                    assert(s.skip(17) =~= v@.skip(i + 17));
                    assert(out@ + macs_masked(Some('x'), v@.skip(i + 17)).0 =~= so_far + (mac_mask() + macs_masked(
                        Some('x'),
                        v@.skip(i + 17),
                    ).0));
                }
                before = Some('x');
                i = i + 17;
            } else {
                out.push(v[i]);
                proof {
                    assert(s[0] == v@[i as int]);
                    assert(s.skip(1) =~= v@.skip(i + 1));
                    assert(out@ + macs_masked(Some(s[0]), v@.skip(i + 1)).0 =~= so_far + (seq![s[0]] + macs_masked(
                        Some(s[0]),
                        v@.skip(i + 1),
                    ).0));
                }
                before = Some(v[i]);
                i = i + 1;
            }
        }
        let tail = slice(&v, i, v.len());
        assert(tail@ =~= v@.skip(i as int));
        extend(&mut out, &tail);
        from_chars(&out)
    }

    /// Masks the value after `UUID=` and `PARTUUID=` in a kernel command
    /// line; every other token is kept whole.
    pub fn cmdline(&mut self, text: &str) -> (r: String)
        ensures
            r@ == join_with(tokens_masked(words_of(text@)), " "@),
            *final(self) == (Redactor {
                fs_uuids: tally(old(self).fs_uuids, uuid_count(words_of(text@))),
                ..*old(self)
            }),
    {
        let tokens = words(&to_chars(text));
        let ghost views = char_views(tokens@);
        let ghost masked = tokens_masked(views);
        let key = to_chars("UUID=");
        let mut out: Vec<Vec<char>> = Vec::new();
        let mut i: usize = 0;
        assert(views.take(0) =~= Seq::<Seq<char>>::empty());
        assert(char_views(out@) =~= masked.take(0));
        while i < tokens.len()
            invariant
                i <= tokens@.len(),
                key@ == "UUID="@,
                views == char_views(tokens@),
                masked == tokens_masked(views),
                char_views(out@) == masked.take(i as int),
                *self == (Redactor {
                    fs_uuids: tally(old(self).fs_uuids, uuid_count(views.take(i as int))),
                    ..*old(self)
                }),
            decreases tokens@.len() - i,
        {
            assert(views[i as int] == tokens@[i as int]@);
            assert(views.take(i + 1).drop_last() =~= views.take(i as int));
            assert(masked.take(i + 1) =~= masked.take(i as int).push(masked[i as int]));
            let ghost before = char_views(out@);
            let token = match find(&tokens[i], &key) {
                Some(at) => {
                    if self.fs_uuids < usize::MAX {
                        self.fs_uuids = self.fs_uuids + 1;
                    }
                    let mut t = slice(&tokens[i], 0, at);
                    assert(t@ =~= views[i as int].take(at as int));
                    extend_str(&mut t, "UUID=<redacted>");
                    t
                },
                None => {
                    let t = slice(&tokens[i], 0, tokens[i].len());
                    assert(t@ =~= views[i as int]);
                    t
                },
            };
            out.push(token);
            assert(char_views(out@) =~= before.push(masked[i as int]));
            i = i + 1;
        }
        assert(views.take(views.len() as int) =~= views);
        assert(masked.take(masked.len() as int) =~= masked);
        from_chars(&join(&out, &to_chars(" ")))
    }

    /// Whether a bundle may record the value of an environment variable.
    pub fn env_allowlisted(name: &str) -> (r: bool)
        ensures
            r == is_allowlisted(name@),
    {
        str_eq(name, "TERM") || str_eq(name, "COLORTERM") || str_eq(name, "LANG") || str_eq(name, "LC_ALL") || str_eq(
            name,
            "RUST_LOG",
        )
    }

    /// Every rule that fired and how often, sorted by rule name.
    pub fn summary(&self) -> (r: Vec<(String, usize)>)
        ensures
            rule_counts(r@) == self.fired_rules(),
    {
        let mut r: Vec<(String, usize)> = Vec::new();
        if self.fs_uuids > 0 {
            r.push(("fs_uuid".to_owned(), self.fs_uuids));
        }
        if self.home_paths > 0 {
            r.push(("home_path".to_owned(), self.home_paths));
        }
        if self.mac_masks > 0 {
            r.push(("mac_address".to_owned(), self.mac_masks));
        }
        if self.user_names > 0 {
            r.push(("user_name".to_owned(), self.user_names));
        }
        assert(rule_counts(r@) =~= self.fired_rules());
        r
    }

    /// Whether any ssh marker is set, given a predicate that answers "is this
    /// variable set and non-empty?". The values are never read here.
    pub fn ssh_present<F: Fn(&str) -> bool>(present: F) -> (r: bool)
        requires
            call_requires(present, ("SSH_TTY",)),
            call_requires(present, ("SSH_CONNECTION",)),
            call_requires(present, ("SSH_CLIENT",)),
        ensures
            r ==> call_ensures(present, ("SSH_TTY",), true) || call_ensures(present, ("SSH_CONNECTION",), true)
                || call_ensures(present, ("SSH_CLIENT",), true),
            !r ==> call_ensures(present, ("SSH_TTY",), false) && call_ensures(present, ("SSH_CONNECTION",), false)
                && call_ensures(present, ("SSH_CLIENT",), false),
    {
        present("SSH_TTY") || present("SSH_CONNECTION") || present("SSH_CLIENT")
    }
}

fn hex_digit(c: char) -> (r: bool)
    ensures
        r == is_hex(c),
{
    ('0' <= c && c <= '9') || ('a' <= c && c <= 'f') || ('A' <= c && c <= 'F')
}

fn is_lone_mac(before: Option<char>, v: &Vec<char>, at: usize) -> (r: bool)
    requires
        at + 17 <= v.len(),
    ensures
        r == lone_mac(before, v@.skip(at as int)),
{
    let ghost s = v@.skip(at as int);
    if let Some(c) = before {
        if hex_digit(c) || c == ':' {
            return false;
        }
    }
    if at + 17 < v.len() {
        let c = v[at + 17];
        assert(s[17] == c);
        if hex_digit(c) || c == ':' {
            return false;
        }
    }
    let mut k: usize = 0;
    while k < 17
        invariant
            k <= 17,
            at + 17 <= v.len(),
            s == v@.skip(at as int),
            forall|i: int|
                0 <= i < k ==> (if i % 3 == 2 {
                    #[trigger] s[i] == ':'
                } else {
                    is_hex(s[i])
                }),
        decreases 17 - k,
    {
        let c = v[at + k];
        assert(s[k as int] == c);
        let fits = if k % 3 == 2 {
            c == ':'
        } else {
            hex_digit(c)
        };
        if !fits {
            return false;
        }
        k = k + 1;
    }
    true
}

/// Without a home nothing is rewritten.
pub proof fn law_no_home_rewrites_nothing(s: Seq<char>)
    ensures
        text_masked(s, None, None) == (Masked { text: s, homes: 0, users: 0 }),
{
}

/// A text in which neither the home nor the login name occurs stays as it is.
pub proof fn law_text_without_the_home_stays(s: Seq<char>, home: Seq<char>, name: Seq<char>)
    requires
        first_occurrence(s, home) is None,
        first_occurrence(s, name) is None,
    ensures
        text_masked(s, Some(home), Some(name)) == (Masked { text: s, homes: 0, users: 0 }),
{
}

/// What becomes of a text does not depend on what was rewritten before.
pub proof fn law_rewriting_does_not_depend_on_what_came_before(redactor: Redactor, earlier: Seq<char>, s: Seq<char>)
    ensures
        redactor.after(earlier).masks(s) == redactor.masks(s),
{
}

/// The counts do not depend on the order in which texts are rewritten.
pub proof fn law_the_order_of_texts_does_not_change_the_counts(redactor: Redactor, a: Seq<char>, b: Seq<char>)
    ensures
        redactor.after(a).after(b) == redactor.after(b).after(a),
{
}

/// The home itself, and a path below it, are shown with `~` in its place.
pub proof fn law_a_path_below_the_home_is_shown_below_a_tilde(home: Seq<char>, rest: Seq<char>, name: Option<Seq<char>>)
    requires
        home.len() > 0,
        rest.len() == 0 || !is_path_char(rest[0]),
    ensures
        text_masked(home + rest, Some(home), name).text == seq!['~'] + home_masked(Some(home.last()), rest, home, name).text,
        text_masked(home + rest, Some(home), name).homes == 1 + home_masked(Some(home.last()), rest, home, name).homes,
{
    let s = home + rest;
    assert(s.subrange(0, home.len() as int) =~= home);
    assert(occurs_at(s, home, 0));
    lemma_first_occurrence_is(s, home, 0);
    assert(s.take(0) =~= Seq::<char>::empty());
    assert(s.skip(home.len() as int) =~= rest);
    if let Some(n) = name {
        lemma_first_occurrence(Seq::<char>::empty(), n);
    }
    assert(user_masked(Seq::<char>::empty(), Some(home[0]), name).0 =~= Seq::<char>::empty());
    assert(Seq::<char>::empty().push('~') =~= seq!['~']);
}

/// A path whose first components only begin like the home is kept.
pub proof fn law_a_sibling_of_the_home_is_kept(home: Seq<char>, rest: Seq<char>, name: Option<Seq<char>>)
    requires
        home.len() > 0,
        rest.len() > 0,
        is_path_char(rest[0]),
    ensures
        text_masked(home + rest, Some(home), name).text == home + home_masked(Some(home.last()), rest, home, name).text,
        text_masked(home + rest, Some(home), name).homes == home_masked(Some(home.last()), rest, home, name).homes,
{
    let s = home + rest;
    assert(s.subrange(0, home.len() as int) =~= home);
    assert(occurs_at(s, home, 0));
    lemma_first_occurrence_is(s, home, 0);
    assert(s.take(0) =~= Seq::<char>::empty());
    assert(s.skip(home.len() as int) =~= rest);
    if let Some(n) = name {
        lemma_first_occurrence(Seq::<char>::empty(), n);
    }
    assert(user_masked(Seq::<char>::empty(), Some(home[0]), name).0 =~= Seq::<char>::empty());
    assert(Seq::<char>::empty() + home =~= home);
}

/// Masking MAC addresses keeps the length of a text.
pub proof fn law_masking_macs_keeps_the_length(before: Option<char>, s: Seq<char>)
    ensures
        macs_masked(before, s).0.len() == s.len(),
    decreases s.len(),
{
    reveal_strlit("xx:xx:xx:xx:xx:xx");
    if s.len() >= 17 {
        if lone_mac(before, s) {
            law_masking_macs_keeps_the_length(Some('x'), s.skip(17));
        } else {
            law_masking_macs_keeps_the_length(Some(s[0]), s.skip(1));
        }
    }
}

/// A run of characters that may be part of a MAC address comes out of masking
/// only where it stood before, and so does the character after it.
proof fn lemma_run_was_there(before: Option<char>, s: Seq<char>, n: int)
    requires
        0 <= n <= s.len(),
        macs_masked(before, s).0.len() == s.len(),
        forall|k: int| 0 <= k < n ==> is_mac_char(#[trigger] macs_masked(before, s).0[k]),
    ensures
        forall|k: int| 0 <= k < n ==> #[trigger] macs_masked(before, s).0[k] == s[k],
        n < s.len() ==> macs_masked(before, s).0[n] == s[n] || (if n == 0 {
            before matches Some(c) ==> !is_mac_char(c)
        } else {
            !is_mac_char(s[n - 1])
        }),
    decreases s.len(),
{
    let out = macs_masked(before, s).0;
    reveal_strlit("xx:xx:xx:xx:xx:xx");
    if s.len() >= 17 {
        if lone_mac(before, s) {
            assert(out[0] == 'x');
            if n > 0 {
                assert(is_mac_char(out[0]));
            }
        } else if n > 0 {
            let rest = macs_masked(Some(s[0]), s.skip(1)).0;
            law_masking_macs_keeps_the_length(Some(s[0]), s.skip(1));
            assert forall|k: int| 0 <= k < n - 1 implies is_mac_char(#[trigger] rest[k]) by {
                assert(out[k + 1] == rest[k]);
            }
            lemma_run_was_there(Some(s[0]), s.skip(1), n - 1);
            assert forall|k: int| 0 <= k < n implies #[trigger] out[k] == s[k] by {
                if k > 0 {
                    assert(out[k] == rest[k - 1]);
                    assert(rest[k - 1] == s.skip(1)[k - 1]);
                }
            }
            if n < s.len() {
                assert(out[n] == rest[n - 1]);
                assert(out[n - 1] == s[n - 1]);
                assert(is_mac_char(out[n - 1]));
            }
        }
    }
}

/// No MAC address stands alone in a masked text.
pub proof fn law_no_mac_stands_alone_once_masked(before: Option<char>, s: Seq<char>, i: int)
    requires
        0 <= i < s.len(),
    ensures
        ({
            let out = macs_masked(before, s).0;
            !lone_mac(
                if i == 0 {
                    before
                } else {
                    Some(out[i - 1])
                },
                out.skip(i),
            )
        }),
    decreases s.len(),
{
    let out = macs_masked(before, s).0;
    law_masking_macs_keeps_the_length(before, s);
    reveal_strlit("xx:xx:xx:xx:xx:xx");
    let front = if i == 0 {
        before
    } else {
        Some(out[i - 1])
    };
    if s.len() < 17 {
        assert(!mac_in_front(out.skip(i)));
    } else if lone_mac(before, s) {
        let rest = macs_masked(Some('x'), s.skip(17)).0;
        if i < 17 {
            assert(out[i] == mac_mask()[i]);
            assert(out.skip(i)[0] == out[i]);
        } else if i < s.len() {
            law_no_mac_stands_alone_once_masked(Some('x'), s.skip(17), i - 17);
            assert(out.skip(i) =~= rest.skip(i - 17));
            if i == 17 {
                assert(out[16] == 'x');
            } else {
                assert(out[i - 1] == rest[i - 18]);
            }
        }
    } else {
        let rest = macs_masked(Some(s[0]), s.skip(1)).0;
        if i > 0 {
            law_no_mac_stands_alone_once_masked(Some(s[0]), s.skip(1), i - 1);
            assert(out.skip(i) =~= rest.skip(i - 1));
            if i > 1 {
                assert(out[i - 1] == rest[i - 2]);
            }
        } else if lone_mac(before, out.skip(0)) {
            assert(out.skip(0) =~= out);
            assert forall|k: int| 0 <= k < 17 implies is_mac_char(#[trigger] out[k]) by {
            }
            lemma_run_was_there(before, s, 17);
            assert(is_hex(out[16]));
            assert(out[16] == s[16]);
            assert forall|k: int| 0 <= k < 17 implies (if k % 3 == 2 {
                #[trigger] s[k] == ':'
            } else {
                is_hex(s[k])
            }) by {
                assert(out[k] == s[k]);
            }
            assert(mac_in_front(s));
            assert(lone_mac(before, s));
        }
    }
}

/// Whether a MAC address stands alone at position `i` of a text.
pub open spec fn mac_alone_at(s: Seq<char>, i: int) -> bool {
    &&& 0 <= i
    &&& i + 17 <= s.len()
    &&& mac_in_front(s.skip(i))
    &&& (i > 0 ==> !is_mac_char(s[i - 1]))
    &&& (i + 17 < s.len() ==> !is_mac_char(s[i + 17]))
}

/// How many MAC addresses stand alone at or after position `i`.
pub open spec fn macs_from(s: Seq<char>, i: int) -> nat
    decreases s.len() - i,
{
    if i >= s.len() {
        0
    } else {
        macs_from(s, i + 1) + (if mac_alone_at(s, i) {
            1nat
        } else {
            0
        })
    }
}

/// Whether position `j` of a text belongs to a MAC address that stands alone.
pub open spec fn in_lone_mac(s: Seq<char>, j: int) -> bool {
    exists|i: int| #[trigger] mac_alone_at(s, i) && i <= j < i + 17
}

/// No other address stands alone within one that does, nor right behind it.
proof fn lemma_macs_from_after(s: Seq<char>, i: int, k: int)
    requires
        mac_alone_at(s, i),
        0 < k <= 17,
    ensures
        macs_from(s, i + k) == macs_from(s, i + 17),
        i + k < s.len() && k < 17 ==> !mac_alone_at(s, i + k),
        !mac_alone_at(s, i + 17),
    decreases 17 - k,
{
    let m = s.skip(i);
    assert(m[16] == s[i + 16]);
    assert(is_hex(m[16]));
    if k < 17 {
        assert(m[k - 1] == s[i + k - 1]);
        assert(is_mac_char(m[k - 1]));
        assert(!mac_alone_at(s, i + k));
        lemma_macs_from_after(s, i, k + 1);
    }
}

/// What masking makes of the rest of a text from position `i` on.
proof fn lemma_macs_masked_from(s: Seq<char>, i: int, before: Option<char>)
    requires
        0 <= i <= s.len(),
        if i == 0 {
            before is None
        } else {
            before == Some(s[i - 1]) || (before == Some('x') && mac_alone_at(s, i - 17))
        },
    ensures
        macs_masked(before, s.skip(i)).0.len() == s.len() - i,
        macs_masked(before, s.skip(i)).1 == macs_from(s, i),
        forall|a: int, k: int|
            i <= a && #[trigger] mac_alone_at(s, a) && 0 <= k < 17 ==> macs_masked(before, s.skip(i)).0[a - i + k]
                == #[trigger] mac_mask()[k],
        forall|j: int|
            i <= j < s.len() && (forall|a: int| i <= a <= j < a + 17 ==> !(#[trigger] mac_alone_at(s, a)))
                ==> #[trigger] macs_masked(before, s.skip(i)).0[j - i] == s[j],
    decreases s.len() - i,
{
    let rest = s.skip(i);
    let out = macs_masked(before, rest).0;
    law_masking_macs_keeps_the_length(before, rest);
    reveal_strlit("xx:xx:xx:xx:xx:xx");
    if rest.len() < 17 {
        lemma_no_mac_fits(s, i);
        assert forall|j: int| i <= j < s.len() implies #[trigger] out[j - i] == s[j] by {
            assert(rest[j - i] == s[j]);
        }
    } else {
        if i > 0 && before == Some('x') && mac_alone_at(s, i - 17) {
            lemma_macs_from_after(s, i - 17, 17);
            assert(!mac_alone_at(s, i));
            if mac_in_front(rest) {
                assert(is_hex(rest[0]));
                assert(rest[0] == s[i]);
            }
        }
        if i + 17 < s.len() {
            assert(rest[17] == s[i + 17]);
        }
        assert(lone_mac(before, rest) == mac_alone_at(s, i));
        if lone_mac(before, rest) {
            assert(rest.skip(17) =~= s.skip(i + 17));
            lemma_macs_masked_from(s, i + 17, Some('x'));
            lemma_macs_from_after(s, i, 1);
            let tail = macs_masked(Some('x'), s.skip(i + 17)).0;
            assert forall|a: int, k: int| i <= a && #[trigger] mac_alone_at(s, a) && 0 <= k < 17 implies out[a - i + k]
                == #[trigger] mac_mask()[k] by {
                if a > i {
                    if a < i + 17 {
                        lemma_macs_from_after(s, i, a - i);
                    }
                    assert(tail[a - (i + 17) + k] == mac_mask()[k]);
                    assert(out[a - i + k] == tail[a - (i + 17) + k]);
                }
            }
            assert forall|j: int|
                i <= j < s.len() && (forall|a: int| i <= a <= j < a + 17 ==> !(#[trigger] mac_alone_at(s, a))) implies
                #[trigger] out[j - i] == s[j] by {
                assert(j >= i + 17);
                assert(tail[j - (i + 17)] == s[j]);
                assert(out[j - i] == tail[j - (i + 17)]);
            }
        } else {
            assert(rest.skip(1) =~= s.skip(i + 1));
            assert(rest[0] == s[i]);
            lemma_macs_masked_from(s, i + 1, Some(s[i]));
            let tail = macs_masked(Some(s[i]), s.skip(i + 1)).0;
            assert forall|a: int, k: int| i <= a && #[trigger] mac_alone_at(s, a) && 0 <= k < 17 implies out[a - i + k]
                == #[trigger] mac_mask()[k] by {
                assert(tail[a - (i + 1) + k] == mac_mask()[k]);
                assert(out[a - i + k] == tail[a - (i + 1) + k]);
            }
            assert forall|j: int|
                i <= j < s.len() && (forall|a: int| i <= a <= j < a + 17 ==> !(#[trigger] mac_alone_at(s, a))) implies
                #[trigger] out[j - i] == s[j] by {
                if j > i {
                    assert(tail[j - (i + 1)] == s[j]);
                    assert(out[j - i] == tail[j - (i + 1)]);
                }
            }
        }
    }
}

proof fn lemma_no_mac_fits(s: Seq<char>, i: int)
    requires
        0 <= i <= s.len(),
        s.len() - i < 17,
    ensures
        macs_from(s, i) == 0,
    decreases s.len() - i,
{
    if i < s.len() {
        lemma_no_mac_fits(s, i + 1);
    }
}

/// Masking rewrites each MAC address that stands alone, keeps every other
/// position of the text, and counts the addresses it rewrote.
pub proof fn law_exactly_the_lone_macs_are_masked(s: Seq<char>)
    ensures
        macs_masked(None, s).0.len() == s.len(),
        forall|i: int, k: int|
            #[trigger] mac_alone_at(s, i) && 0 <= k < 17 ==> macs_masked(None, s).0[i + k]
                == #[trigger] mac_mask()[k],
        forall|j: int|
            0 <= j < s.len() && !in_lone_mac(s, j) ==> #[trigger] macs_masked(None, s).0[j] == s[j],
        macs_masked(None, s).1 == macs_from(s, 0),
{
    assert(s.skip(0) =~= s);
    lemma_macs_masked_from(s, 0, None);
    let out = macs_masked(None, s).0;
    assert forall|i: int, k: int| #[trigger] mac_alone_at(s, i) && 0 <= k < 17 implies out[i + k]
        == #[trigger] mac_mask()[k] by {
        assert(out[i - 0 + k] == mac_mask()[k]);
    }
    assert forall|j: int| 0 <= j < s.len() && !in_lone_mac(s, j) implies #[trigger] out[j] == s[j] by {
        assert(out[j - 0] == s[j]);
    }
}

proof fn lemma_none_alone(s: Seq<char>, i: int)
    requires
        0 <= i,
        forall|a: int| !(#[trigger] mac_alone_at(s, a)),
    ensures
        macs_from(s, i) == 0,
    decreases s.len() - i,
{
    if i < s.len() {
        lemma_none_alone(s, i + 1);
    }
}

/// Masking a masked text changes nothing and counts nothing more.
pub proof fn law_masking_macs_twice_changes_nothing(s: Seq<char>)
    ensures
        macs_masked(None, macs_masked(None, s).0) == (macs_masked(None, s).0, 0nat),
{
    let out = macs_masked(None, s).0;
    law_masking_macs_keeps_the_length(None, s);
    assert forall|a: int| !(#[trigger] mac_alone_at(out, a)) by {
        if mac_alone_at(out, a) {
            law_no_mac_stands_alone_once_masked(None, s, a);
            if a + 17 < out.len() {
                assert(out.skip(a)[17] == out[a + 17]);
            }
        }
    }
    lemma_none_alone(out, 0);
    law_exactly_the_lone_macs_are_masked(out);
    assert(macs_masked(None, out).0 =~= out);
}

/// A command line with no UUID keeps every token.
pub proof fn law_other_tokens_are_kept(tokens: Seq<Seq<char>>, i: int)
    requires
        0 <= i < tokens.len(),
        first_occurrence(tokens[i], "UUID="@) is None,
    ensures
        tokens_masked(tokens)[i] == tokens[i],
{
}

} // verus!
