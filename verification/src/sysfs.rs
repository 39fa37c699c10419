//! A directory tree as it was read: what the logic sees of sysfs.

use vstd::prelude::*;

use crate::path::{join_path, joined};
use crate::text::{from_chars, str_eq, to_chars};

verus! {

/// What stands under a name.
#[derive(Debug)]
pub enum Content {
    /// A file whose bytes are valid UTF-8.
    Text(String),
    /// A file whose bytes are not.
    Bytes(Vec<u8>),
    /// Something that was listed but is not there when it is looked at: a
    /// file that has vanished, or a link that leads nowhere.
    Absent,
    /// Something that could not be looked at, or a file that could not be
    /// read, and why.
    Unreadable(String),
    /// A directory that could not be listed, and why.
    Unlisted(String),
    /// A directory, its entries in the order they were listed.
    Directory(Vec<Node>),
}

/// One entry of a directory.
#[derive(Debug)]
pub struct Node {
    pub name: String,
    /// Where a symbolic link points, as stored.
    pub link: Option<String>,
    /// The canonical path, where it resolves.
    pub canonical: Option<String>,
    pub content: Content,
}

/// A device directory tree and the path it was read from.
#[derive(Debug)]
pub struct Sysfs {
    pub base: String,
    pub entries: Vec<Node>,
}

/// The first entry called `name`.
pub open spec fn entry_named(entries: Seq<Node>, name: Seq<char>) -> Option<Node>
    decreases entries.len(),
{
    if entries.len() == 0 {
        None
    } else if entries[0].name@ == name {
        Some(entries[0])
    } else {
        entry_named(entries.skip(1), name)
    }
}

impl Node {
    /// The entries of a directory; none for anything else.
    pub open spec fn children(self) -> Seq<Node> {
        match self.content {
            Content::Directory(v) => v@,
            _ => Seq::empty(),
        }
    }

    /// The text of a file.
    pub open spec fn text(self) -> Option<Seq<char>> {
        match self.content {
            Content::Text(t) => Some(t@),
            _ => None,
        }
    }
}

/// The text of the file `name` among `entries`.
pub open spec fn text_named(entries: Seq<Node>, name: Seq<char>) -> Option<Seq<char>> {
    match entry_named(entries, name) {
        Some(n) => n.text(),
        None => None,
    }
}

/// The first entry called `name`.
pub fn find_entry<'a>(entries: &'a Vec<Node>, name: &str) -> (r: Option<&'a Node>)
    ensures
        match r {
            Some(n) => entry_named(entries@, name@) == Some(*n),
            None => entry_named(entries@, name@) is None,
        },
{
    let mut i: usize = 0;
    assert(entries@.skip(0) == entries@);
    while i < entries.len()
        invariant
            i <= entries.len(),
            entry_named(entries@, name@) == entry_named(entries@.skip(i as int), name@),
        decreases entries.len() - i,
    {
        if str_eq(entries[i].name.as_str(), name) {
            return Some(&entries[i]);
        }
        assert(entries@.skip(i as int).skip(1) == entries@.skip(i + 1));
        i = i + 1;
    }
    None
}

/// The text of the file `name` among `entries`.
pub fn read_text<'a>(entries: &'a Vec<Node>, name: &str) -> (r: Option<&'a String>)
    ensures
        match r {
            Some(t) => text_named(entries@, name@) == Some(t@),
            None => text_named(entries@, name@) is None,
        },
{
    match find_entry(entries, name) {
        Some(n) => match &n.content {
            Content::Text(t) => Some(t),
            _ => None,
        },
        None => None,
    }
}

impl Sysfs {
    /// The path of the entry called `name`.
    pub open spec fn path_of(self, name: Seq<char>) -> Seq<char> {
        joined(self.base@, name)
    }

    /// Whether an entry has the path `path`.
    pub open spec fn holds(self, path: Seq<char>) -> bool {
        exists|i: int| 0 <= i < self.entries@.len() && self.path_of((#[trigger] self.entries@[i]).name@) == path
    }

    /// The path of the entry called `name`.
    pub fn entry_path(&self, name: &str) -> (r: String)
        ensures
            r@ == self.path_of(name@),
    {
        let b = to_chars(self.base.as_str());
        let n = to_chars(name);
        let p = join_path(&b, &n);
        from_chars(&p)
    }

    /// Whether an entry has the path `path`.
    pub fn has_path(&self, path: &str) -> (r: bool)
        ensures
            r == self.holds(path@),
    {
        let mut i: usize = 0;
        while i < self.entries.len()
            invariant
                i <= self.entries.len(),
                forall|j: int| 0 <= j < i ==> self.path_of((#[trigger] self.entries@[j]).name@) != path@,
            decreases self.entries.len() - i,
        {
            let p = self.entry_path(self.entries[i].name.as_str());
            if str_eq(p.as_str(), path) {
                assert(self.path_of(self.entries@[i as int].name@) == path@);
                return true;
            }
            i = i + 1;
        }
        false
    }
}

} // verus!
