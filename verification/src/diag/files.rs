//! Reading the values of small text files, as sysfs and procfs have them.

use vstd::prelude::*;

use crate::device::text_of;
use crate::order::{
    chars_lt, lemma_lex_total, lemma_lex_transitive, lemma_sorted_mapped, lex_le, rank, sort, sorted_by, Ranked,
};
use crate::path::{last_name, name_of};
use crate::sysfs::{entry_named, find_entry, Content, Node};
use crate::text::{
    char_views, decode_lossy, from_chars, lossy_text, split, split_on, str_eq, to_chars, trim_blanks, trim_with,
};

verus! {

/// The text of a file, with replacement characters for what is not UTF-8.
pub open spec fn raw_text(content: Content) -> Option<Seq<char>> {
    match content {
        Content::Text(t) => Some(t@),
        Content::Bytes(b) => Some(lossy_text(b@)),
        _ => None,
    }
}

/// A text with every NUL replaced by a space.
pub open spec fn flattened(s: Seq<char>) -> Seq<char> {
    s.map_values(
        |c: char|
            if c == '\0' {
                ' '
            } else {
                c
            },
    )
}

/// The value of a file: its text without the white space and NULs at its
/// ends, NULs inside it as spaces. None when there is nothing.
pub open spec fn value_of(content: Content) -> Option<Seq<char>> {
    match raw_text(content) {
        Some(t) => if trim_blanks(t, true).len() > 0 {
            Some(flattened(trim_blanks(t, true)))
        } else {
            None
        },
        None => None,
    }
}

/// The value of the file `name` among `entries`.
pub open spec fn value_named(entries: Seq<Node>, name: Seq<char>) -> Option<Seq<char>> {
    match entry_named(entries, name) {
        Some(n) => value_of(n.content),
        None => None,
    }
}

/// Reads a sysfs, procfs or device-tree file, trimmed. Device-tree files are
/// NUL-separated string lists, so beyond edge-trimming, interior NULs are
/// flattened to single spaces: `"raspberrypi,5-model-b\0brcm,bcm2712\0"` reads
/// as `"raspberrypi,5-model-b brcm,bcm2712"`. Unreadable, missing or empty
/// files are `None`.
pub fn read_trimmed(content: &Content) -> (r: Option<String>)
    ensures
        text_of(r) == value_of(*content),
{
    let raw = match content {
        Content::Text(t) => to_chars(t.as_str()),
        Content::Bytes(b) => to_chars(decode_lossy(b).as_str()),
        _ => {
            return None;
        },
    };
    let mut v = trim_with(&raw, true);
    if v.len() == 0 {
        return None;
    }
    let ghost trimmed = v@;
    let mut i: usize = 0;
    while i < v.len()
        invariant
            i <= v@.len(),
            v@.len() == trimmed.len(),
            forall|j: int| 0 <= j < i ==> v@[j] == flattened(trimmed)[j],
            forall|j: int| i <= j < v@.len() ==> v@[j] == trimmed[j],
        decreases v@.len() - i,
    {
        if v[i] == '\0' {
            v.set(i, ' ');
        }
        i = i + 1;
    }
    assert(v@ =~= flattened(trimmed));
    Some(from_chars(&v))
}

/// The value of the file `name` among `entries`.
pub fn attr(entries: &Vec<Node>, name: &str) -> (r: Option<String>)
    ensures
        text_of(r) == value_named(entries@, name@),
{
    match find_entry(entries, name) {
        Some(n) => read_trimmed(&n.content),
        None => None,
    }
}

/// The last component of where the symlink `name` points.
pub open spec fn link_named(entries: Seq<Node>, name: Seq<char>) -> Option<Seq<char>> {
    match entry_named(entries, name) {
        Some(n) => match n.link {
            Some(target) => name_of(target@),
            None => None,
        },
        None => None,
    }
}

/// The last component of where the symlink `name` points.
pub fn link_name(entries: &Vec<Node>, name: &str) -> (r: Option<String>)
    ensures
        text_of(r) == link_named(entries@, name@),
{
    match find_entry(entries, name) {
        Some(n) => match &n.link {
            Some(target) => match last_name(&to_chars(target.as_str())) {
                Some(v) => Some(from_chars(&v)),
                None => None,
            },
            None => None,
        },
        None => None,
    }
}

/// Entries stand by name.
pub open spec fn by_entry_name() -> spec_fn(Node, Node) -> bool {
    |a: Node, b: Node| lex_le(a.name@, b.name@)
}

/// The entries of a directory by name.
pub open spec fn in_order(entries: Seq<Node>) -> Seq<Node> {
    sorted_by(entries, by_entry_name())
}

/// An entry, ranked by its name.
pub struct Listed<'a> {
    pub node: &'a Node,
}

impl<'a> Ranked for Listed<'a> {
    open spec fn le(self, other: Self) -> bool {
        lex_le(self.node.name@, other.node.name@)
    }

    fn is_le(&self, other: &Self) -> (r: bool) {
        if str_eq(self.node.name.as_str(), other.node.name.as_str()) {
            return true;
        }
        chars_lt(&to_chars(self.node.name.as_str()), &to_chars(other.node.name.as_str()))
    }

    proof fn le_total(a: Self, b: Self) {
        lemma_lex_total(a.node.name@, b.node.name@);
    }

    proof fn le_transitive(a: Self, b: Self, c: Self) {
        if a.node.name@ != b.node.name@ && b.node.name@ != c.node.name@ {
            lemma_lex_transitive(a.node.name@, b.node.name@, c.node.name@);
        }
    }
}

/// The nodes of listed entries.
pub open spec fn nodes_of<'a>(v: Seq<Listed<'a>>) -> Seq<Node> {
    v.map_values(|l: Listed<'a>| *l.node)
}

/// The entries of a directory by name.
pub fn list<'a>(entries: &'a Vec<Node>) -> (r: Vec<Listed<'a>>)
    ensures
        nodes_of(r@) == in_order(entries@),
{
    let mut v: Vec<Listed<'a>> = Vec::new();
    let mut i: usize = 0;
    while i < entries.len()
        invariant
            i <= entries@.len(),
            nodes_of(v@) == entries@.take(i as int),
        decreases entries@.len() - i,
    {
        let ghost before = nodes_of(v@);
        v.push(Listed { node: &entries[i] });
        assert(nodes_of(v@) =~= before.push(entries@[i as int]));
        assert(entries@.take(i + 1) =~= entries@.take(i as int).push(entries@[i as int]));
        i = i + 1;
    }
    assert(entries@.take(entries@.len() as int) =~= entries@);
    proof {
        lemma_sorted_mapped(v@, rank::<Listed<'a>>(), |l: Listed<'a>| *l.node, by_entry_name());
    }
    sort(v)
}

/// The entry that a path of names leads to.
pub open spec fn entry_at(entries: Seq<Node>, path: Seq<Seq<char>>) -> Option<Node>
    decreases path.len(),
{
    if path.len() == 0 {
        None
    } else {
        match entry_named(entries, path[0]) {
            Some(n) => if path.len() == 1 {
                Some(n)
            } else {
                entry_at(n.children(), path.skip(1))
            },
            None => None,
        }
    }
}

/// The value of the file that a `/`-separated path leads to.
pub open spec fn value_at(entries: Seq<Node>, path: Seq<char>) -> Option<Seq<char>> {
    match entry_at(entries, split_on(path, '/')) {
        Some(n) => value_of(n.content),
        None => None,
    }
}

/// The entry that a `/`-separated path leads to.
pub fn find_at<'a>(entries: &'a Vec<Node>, path: &str) -> (r: Option<&'a Node>)
    ensures
        match r {
            Some(n) => entry_at(entries@, split_on(path@, '/')) == Some(*n),
            None => entry_at(entries@, split_on(path@, '/')) is None,
        },
{
    let pieces = split(&to_chars(path), '/');
    let ghost views = char_views(pieces@);
    let mut here = entries;
    let mut i: usize = 0;
    assert(views.skip(0) =~= views);
    while i < pieces.len()
        invariant
            i <= pieces@.len(),
            views == char_views(pieces@),
            views == split_on(path@, '/'),
            entry_at(here@, views.skip(i as int)) == entry_at(entries@, views),
        decreases pieces@.len() - i,
    {
        let name = from_chars(&pieces[i]);
        assert(views.skip(i as int)[0] == name@);
        match find_entry(here, name.as_str()) {
            None => {
                return None;
            },
            Some(n) => {
                if i + 1 == pieces.len() {
                    assert(views.skip(i as int).len() == 1);
                    return Some(n);
                }
                assert(views.skip(i as int).skip(1) =~= views.skip(i + 1));
                match &n.content {
                    Content::Directory(v) => {
                        here = v;
                    },
                    _ => {
                        proof {
                            assert(n.children().len() == 0);
                            assert(entry_at(n.children(), views.skip(i + 1)) is None);
                        }
                        return None;
                    },
                }
            },
        }
        i = i + 1;
    }
    None
}

/// The value of the file that a `/`-separated path leads to.
pub fn read_at(entries: &Vec<Node>, path: &str) -> (r: Option<String>)
    ensures
        text_of(r) == value_at(entries@, path@),
{
    match find_at(entries, path) {
        Some(n) => read_trimmed(&n.content),
        None => None,
    }
}

} // verus!
