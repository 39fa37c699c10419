//! The rules of the fixture directory: which paths may name it, which
//! directories are made on the way to it, what a run has created in it and so
//! hands over at the end, and how messages name it.

pub mod laws;

use vstd::prelude::*;

use crate::device::text_of;
use crate::number::{decimal, to_decimal};
use crate::path::{is_up, join_path, joined, parts, parts_of, path_text, to_path, up_part};
use crate::table::NameTable;
use crate::text::{
    char_views, extend, extend_str, find, first_occurrence, from_chars, join, join_with, lemma_first_occurrence, slice,
    split, split_on, starts, starts_with, string_views, to_chars,
};

verus! {

/// Why a directory cannot be a fixture directory.
#[derive(Debug)]
pub enum RootFault {
    /// The path has a `..` component.
    ParentComponent(String),
    /// procfs is not mounted.
    NoProcfs,
}

impl RootFault {
    /// The sentence about a fault.
    pub fn message(&self) -> (r: String)
        ensures
            r@ == (match self {
                RootFault::ParentComponent(dir) => "the output directory "@ + dir@
                    + " contains `..`; give it as a plain path"@,
                RootFault::NoProcfs =>
                    "procfs is not mounted; the fixture capturer reads its output back through /proc/self/fd"@,
            }),
    {
        match self {
            RootFault::ParentComponent(dir) => {
                let mut v = to_chars("the output directory ");
                extend_str(&mut v, dir.as_str());
                extend_str(&mut v, " contains `..`; give it as a plain path");
                from_chars(&v)
            },
            RootFault::NoProcfs => {
                "procfs is not mounted; the fixture capturer reads its output back through /proc/self/fd".to_owned()
            },
        }
    }
}

/// A path has a `..` component.
pub open spec fn climbs(dir: Seq<char>) -> bool {
    parts_of(dir).contains(up_part())
}

/// Refuses a path with a `..` component: `new/../fixture` would create and
/// record `new` while the fixture lands beside it.
pub fn refuse_parent_components(dir: &str) -> (r: Result<(), RootFault>)
    ensures
        if climbs(dir@) {
            r matches Err(RootFault::ParentComponent(d)) && d@ == dir@
        } else {
            r is Ok
        },
{
    let p = parts(&to_chars(dir));
    let ghost views = char_views(p@);
    let mut i: usize = 0;
    while i < p.len()
        invariant
            i <= p@.len(),
            views == char_views(p@),
            views == parts_of(dir@),
            forall|j: int| 0 <= j < i ==> views[j] != up_part(),
        decreases p@.len() - i,
    {
        assert(views[i as int] == p@[i as int]@);
        if is_up(&p[i]) {
            assert(views.contains(views[i as int]));
            return Err(RootFault::ParentComponent(dir.to_owned()));
        }
        i = i + 1;
    }
    Ok(())
}

/// The directories on the way to a directory and the directory itself, the
/// topmost first.
pub open spec fn ancestors(dir: Seq<char>) -> Seq<Seq<char>> {
    Seq::new(parts_of(dir).len(), |i: int| path_text(parts_of(dir).take(i + 1)))
}

/// The directories to create for `dir`, the topmost first.
pub fn dirs_to_create(dir: &str) -> (r: Vec<String>)
    ensures
        string_views(r@) == ancestors(dir@),
{
    let p = parts(&to_chars(dir));
    let ghost views = char_views(p@);
    let mut out: Vec<String> = Vec::new();
    let mut so_far: Vec<Vec<char>> = Vec::new();
    let mut i: usize = 0;
    while i < p.len()
        invariant
            i <= p@.len(),
            views == char_views(p@),
            views == parts_of(dir@),
            char_views(so_far@) == views.take(i as int),
            out@.len() == i,
            forall|j: int| 0 <= j < i ==> (#[trigger] out@[j])@ == path_text(views.take(j + 1)),
        decreases p@.len() - i,
    {
        let ghost before = char_views(so_far@);
        so_far.push(p[i].clone());
        assert(char_views(so_far@) =~= before.push(views[i as int]));
        assert(views.take(i + 1) =~= views.take(i as int).push(views[i as int]));
        out.push(from_chars(&to_path(&so_far)));
        i = i + 1;
    }
    assert(string_views(out@) =~= ancestors(dir@));
    out
}

/// How an attempt to create a directory went.
#[derive(Debug)]
pub enum MkdirOutcome {
    Created,
    Existed,
    Failed(String),
}

/// The topmost directory that was created, after the first `n` attempts; a
/// directory that someone else had made is never counted.
pub open spec fn created_first(dirs: Seq<Seq<char>>, outcomes: Seq<MkdirOutcome>, n: int) -> Option<Seq<char>>
    decreases n,
{
    if n <= 0 {
        None
    } else {
        match created_first(dirs, outcomes, n - 1) {
            Some(top) => Some(top),
            None => if outcomes[n - 1] is Created {
                Some(dirs[n - 1])
            } else {
                None
            },
        }
    }
}

/// Takes in how an attempt to create `dir` went: `top` receives the topmost
/// directory that was created, the moment it is, so a failure further down
/// still reports it. A failure ends the run.
pub fn record_top(top: &mut Option<String>, dir: &str, outcome: &MkdirOutcome) -> (r: Result<(), String>)
    ensures
        text_of(*final(top)) == (match (text_of(*old(top)), *outcome) {
            (None, MkdirOutcome::Created) => Some(dir@),
            (t, _) => t,
        }),
        match *outcome {
            MkdirOutcome::Failed(e) => r matches Err(f) && f@ == e@,
            _ => r is Ok,
        },
{
    match outcome {
        MkdirOutcome::Created => {
            if top.is_none() {
                *top = Some(dir.to_owned());
            }
            Ok(())
        },
        MkdirOutcome::Existed => Ok(()),
        MkdirOutcome::Failed(e) => Err(e.clone()),
    }
}

/// Every directory that was created lies at or below the topmost one that
/// was: handing the topmost one over hands over all of them.
pub proof fn law_the_topmost_is_above_every_created_directory(dir: Seq<char>, outcomes: Seq<MkdirOutcome>, n: int, i: int)
    requires
        0 <= i < n <= parts_of(dir).len(),
        n <= outcomes.len(),
        outcomes[i] is Created,
    ensures
        exists|k: int|
            0 <= k <= i && created_first(ancestors(dir), outcomes, n) == Some(#[trigger] ancestors(dir)[k])
                && outcomes[k] is Created,
    decreases n,
{
    if i == n - 1 {
        lemma_first_is_one(dir, outcomes, n - 1);
        if created_first(ancestors(dir), outcomes, n - 1) is None {
            assert(created_first(ancestors(dir), outcomes, n) == Some(ancestors(dir)[n - 1]));
        }
    } else {
        law_the_topmost_is_above_every_created_directory(dir, outcomes, n - 1, i);
    }
}

proof fn lemma_first_is_one(dir: Seq<char>, outcomes: Seq<MkdirOutcome>, n: int)
    requires
        n <= parts_of(dir).len(),
        n <= outcomes.len(),
    ensures
        created_first(ancestors(dir), outcomes, n) is Some ==> exists|k: int|
            0 <= k < n && created_first(ancestors(dir), outcomes, n) == Some(#[trigger] ancestors(dir)[k])
                && outcomes[k] is Created,
    decreases n,
{
    if n > 0 {
        lemma_first_is_one(dir, outcomes, n - 1);
        if created_first(ancestors(dir), outcomes, n - 1) is None && outcomes[n - 1] is Created {
            assert(created_first(ancestors(dir), outcomes, n) == Some(ancestors(dir)[n - 1]));
        }
    }
}

/// Where the pinned directory is read: through its descriptor.
pub open spec fn fd_path(fd: u32) -> Seq<char> {
    "/proc/self/fd/"@ + decimal(fd as nat)
}

/// The read base for a root: `/proc/self/fd/<n>`, the one way to read the
/// pinned inode by descriptor. Without procfs the alternative would be reading
/// by name, which resolves whatever the path names by then, so the root is
/// refused instead.
pub fn read_base_for(fd: u32, procfs_available: bool) -> (r: Result<String, RootFault>)
    ensures
        if procfs_available {
            r matches Ok(base) && base@ == fd_path(fd)
        } else {
            r matches Err(RootFault::NoProcfs)
        },
{
    if !procfs_available {
        return Err(RootFault::NoProcfs);
    }
    let mut v = to_chars("/proc/self/fd/");
    extend(&mut v, &to_decimal(fd as u64));
    Ok(from_chars(&v))
}

/// A fixture directory pinned on a descriptor: what is known of it beside the
/// descriptor itself.
#[derive(Debug)]
pub struct FixtureRoot {
    /// Where reads of the written tree resolve; fixed at construction so every
    /// reader and every message keys on the same base.
    pub read_base: String,
    /// The path the directory was named by; no write resolves it.
    pub logical: String,
    /// The topmost directory that the root's creation itself made.
    pub created_top: Option<String>,
    /// The topmost entry that each write through this root created.
    pub created: NameTable<bool>,
    /// How messages name the directory: the path as the user gave it, or
    /// `fixture` inside a support bundle. Never the descriptor path.
    pub display: String,
    /// Modes for what this root creates (the umask applies): private inside a
    /// support bundle, readable for a fixture meant to be committed.
    pub dir_mode: u32,
    pub file_mode: u32,
}

/// The first `n` components of a relative path.
pub open spec fn front_of(rel: Seq<char>, n: nat) -> Seq<char> {
    let pieces = split_on(rel, '/');
    join_with(
        if n < pieces.len() {
            pieces.take(n as int)
        } else {
            pieces
        },
        "/"@,
    )
}

/// An entry lies beneath another.
pub open spec fn is_beneath(rel: Seq<char>, other: Seq<char>) -> bool {
    starts(rel, other + "/"@)
}

/// An entry lies beneath none of the others.
pub open spec fn is_topmost(rel: Seq<char>, all: Seq<Seq<char>>) -> bool {
    forall|i: int| 0 <= i < all.len() ==> !is_beneath(rel, #[trigger] all[i])
}

/// The entries that lie beneath none of `all`, below `logical`.
pub open spec fn topmost_paths(names: Seq<Seq<char>>, all: Seq<Seq<char>>, logical: Seq<char>) -> Seq<Seq<char>>
    decreases names.len(),
{
    if names.len() == 0 {
        Seq::empty()
    } else if is_topmost(names.last(), all) {
        topmost_paths(names.drop_last(), all, logical).push(joined(logical, names.last()))
    } else {
        topmost_paths(names.drop_last(), all, logical)
    }
}

/// A text with every occurrence of `from` replaced, left to right.
pub open spec fn replaced(s: Seq<char>, from: Seq<char>, to: Seq<char>) -> Seq<char>
    decreases s.len(),
{
    match first_occurrence(s, from) {
        None => s,
        Some(at) => {
            proof {
                lemma_first_occurrence(s, from);
            }
            if from.len() == 0 {
                s
            } else {
                s.take(at as int) + to + replaced(s.skip(at as int + from.len()), from, to)
            }
        },
    }
}

impl FixtureRoot {
    /// For a directory of the invoker's own choice, created and opened as
    /// `fd`. A fixture captured this way is meant to be read and committed, so
    /// it is created readable and handed to the sudo invoker at the end.
    pub fn create(dir: &str, fd: u32, procfs_available: bool, created_top: Option<String>) -> (r: Result<
        FixtureRoot,
        RootFault,
    >)
        ensures
            if climbs(dir@) {
                r matches Err(RootFault::ParentComponent(d)) && d@ == dir@
            } else if !procfs_available {
                r matches Err(RootFault::NoProcfs)
            } else {
                &&& r matches Ok(root)
                &&& root.read_base@ == fd_path(fd)
                &&& root.logical@ == dir@
                &&& root.created_top == created_top
                &&& root.created.names() == Seq::<Seq<char>>::empty()
                &&& root.display@ == dir@
                &&& root.dir_mode == 0o755
                &&& root.file_mode == 0o644
            },
    {
        match refuse_parent_components(dir) {
            Err(e) => {
                return Err(e);
            },
            Ok(_) => {},
        }
        let read_base = match read_base_for(fd, procfs_available) {
            Ok(base) => base,
            Err(e) => {
                return Err(e);
            },
        };
        let created = NameTable::new();
        assert(created.names() =~= Seq::<Seq<char>>::empty());
        Ok(
            FixtureRoot {
                read_base,
                logical: dir.to_owned(),
                created_top,
                created,
                display: dir.to_owned(),
                dir_mode: 0o755,
                file_mode: 0o644,
            },
        )
    }

    /// For a support bundle: the directory `name` directly beneath an already
    /// pinned bundle root, opened as `fd`. `logical` is the bundle directory
    /// joined with `name`. Private like the rest of the bundle.
    pub fn beneath(name: &str, logical: &str, fd: u32, procfs_available: bool) -> (r: Result<FixtureRoot, RootFault>)
        ensures
            if !procfs_available {
                r matches Err(RootFault::NoProcfs)
            } else {
                &&& r matches Ok(root)
                &&& root.read_base@ == fd_path(fd)
                &&& root.logical@ == logical@
                &&& root.created_top is None
                &&& root.created.names() == Seq::<Seq<char>>::empty()
                &&& root.display@ == name@
                &&& root.dir_mode == 0o700
                &&& root.file_mode == 0o600
            },
    {
        let read_base = match read_base_for(fd, procfs_available) {
            Ok(base) => base,
            Err(e) => {
                return Err(e);
            },
        };
        let created = NameTable::new();
        assert(created.names() =~= Seq::<Seq<char>>::empty());
        Ok(
            FixtureRoot {
                read_base,
                logical: logical.to_owned(),
                created_top: None,
                created,
                display: name.to_owned(),
                dir_mode: 0o700,
                file_mode: 0o600,
            },
        )
    }

    /// The path this directory was named by.
    pub fn logical(&self) -> (r: &str)
        ensures
            r@ == self.logical@,
    {
        self.logical.as_str()
    }

    /// How messages name this directory.
    pub fn display(&self) -> (r: &str)
        ensures
            r@ == self.display@,
    {
        self.display.as_str()
    }

    /// Where the tree beneath the pinned root is read.
    pub fn read_base(&self) -> (r: String)
        ensures
            r@ == self.read_base@,
    {
        self.read_base.clone()
    }

    /// Records what a write of `rel` reported creating along the way: the
    /// topmost entry is the first `index + 1` components. Nothing is recorded
    /// for an entry that already existed or a path that was rejected.
    pub fn record(&mut self, rel: &str, created: Option<usize>)
        requires
            created matches Some(index) ==> index < usize::MAX,
        ensures
            match created {
                Some(index) => final(self).created@ == old(self).created@.insert(
                    front_of(rel@, (index + 1) as nat),
                    true,
                ),
                None => final(self).created == old(self).created,
            },
            *final(self) == (FixtureRoot { created: final(self).created, ..*old(self) }),
    {
        if let Some(index) = created {
            let mut pieces = split(&to_chars(rel), '/');
            let ghost views = char_views(pieces@);
            if index + 1 < pieces.len() {
                pieces.truncate(index + 1);
                assert(char_views(pieces@) =~= views.take(index + 1));
            }
            let name = from_chars(&join(&pieces, &to_chars("/")));
            self.created.insert(name, true);
        }
    }

    /// What the ownership pass at the end should hand over.
    pub open spec fn owned(self) -> Seq<Seq<char>> {
        match self.created_top {
            Some(top) => seq![top@],
            None => topmost_paths(self.created.names(), self.created.names(), self.logical@),
        }
    }

    /// What the ownership pass at the end should hand over: the topmost
    /// directory this run created when it created one, else the topmost entry
    /// each write created inside the pre-existing directory, with an entry
    /// beneath another recorded one folded into it; never anything that was
    /// already there.
    pub fn owned_paths(&self) -> (r: Vec<String>)
        ensures
            string_views(r@) == self.owned(),
    {
        let mut out: Vec<String> = Vec::new();
        if let Some(top) = &self.created_top {
            out.push(top.clone());
            assert(string_views(out@) =~= seq![top@]);
            return out;
        }
        let ghost names = self.created.names();
        let base = to_chars(self.logical.as_str());
        let n = self.created.len();
        let mut i: usize = 0;
        assert(string_views(out@) =~= Seq::<Seq<char>>::empty());
        while i < n
            invariant
                i <= n,
                n == self.created.pairs().len(),
                names == self.created.names(),
                base@ == self.logical@,
                string_views(out@) == topmost_paths(names.take(i as int), names, self.logical@),
            decreases n - i,
        {
            assert(names.take(i + 1).drop_last() =~= names.take(i as int));
            let (name, _) = self.created.at(i);
            assert(names[i as int] == name@);
            let rel = to_chars(name.as_str());
            let mut top = true;
            let mut k: usize = 0;
            while k < n
                invariant
                    k <= n,
                    n == self.created.pairs().len(),
                    names == self.created.names(),
                    top == (forall|j: int| 0 <= j < k ==> !is_beneath(rel@, #[trigger] names[j])),
                decreases n - k,
            {
                let (other, _) = self.created.at(k);
                assert(names[k as int] == other@);
                let mut prefix = to_chars(other.as_str());
                extend_str(&mut prefix, "/");
                if starts_with(&rel, &prefix) {
                    assert(is_beneath(rel@, names[k as int]));
                    top = false;
                }
                k = k + 1;
            }
            assert(top == is_topmost(rel@, names));
            if top {
                let ghost before = string_views(out@);
                let path = from_chars(&join_path(&base, &rel));
                let ghost view = path@;
                out.push(path);
                assert(string_views(out@) =~= before.push(view));
            }
            i = i + 1;
        }
        assert(names.take(names.len() as int) =~= names);
        out
    }

    /// Rewords an error text that captured the descriptor path so it names the
    /// directory the way the user knows it.
    pub fn describe(&self, text: &str) -> (r: String)
        requires
            self.read_base@.len() > 0,
        ensures
            r@ == replaced(text@, self.read_base@, self.display@),
    {
        let from = to_chars(self.read_base.as_str());
        let to = to_chars(self.display.as_str());
        let mut rest = to_chars(text);
        let mut out: Vec<char> = Vec::new();
        let ghost whole = replaced(text@, from@, to@);
        assert(out@ + whole =~= whole);
        loop
            invariant
                from@.len() > 0,
                from@ == self.read_base@,
                to@ == self.display@,
                whole == replaced(text@, from@, to@),
                out@ + replaced(rest@, from@, to@) == whole,
            decreases rest@.len(),
        {
            match find(&rest, &from) {
                None => {
                    extend(&mut out, &rest);
                    return from_chars(&out);
                },
                Some(at) => {
                    let front = slice(&rest, 0, at);
                    let end = rest.len();
                    assert(at + from@.len() <= end);
                    let after = slice(&rest, at + from.len(), end);
                    assert(front@ =~= rest@.take(at as int));
                    assert(after@ =~= rest@.skip(at + from@.len()));
                    let ghost before = out@;
                    extend(&mut out, &front);
                    extend(&mut out, &to);
                    assert(out@ + replaced(after@, from@, to@) =~= before + (front@ + to@ + replaced(
                        after@,
                        from@,
                        to@,
                    )));
                    rest = after;
                },
            }
        }
    }
}

/// An entry is beneath what the entry above it is beneath.
proof fn lemma_beneath_is_transitive(a: Seq<char>, b: Seq<char>, c: Seq<char>)
    requires
        is_beneath(a, b),
        is_beneath(b, c),
    ensures
        is_beneath(a, c),
{
    let n = (c + "/"@).len();
    assert(b.subrange(0, n as int) =~= c + "/"@);
    assert(a.subrange(0, (b + "/"@).len() as int) =~= b + "/"@);
    assert(a.subrange(0, n as int) =~= (b + "/"@).subrange(0, n as int));
    assert((b + "/"@).subrange(0, n as int) =~= b.subrange(0, n as int));
}

proof fn lemma_topmost_is_listed(names: Seq<Seq<char>>, all: Seq<Seq<char>>, logical: Seq<char>, i: int)
    requires
        0 <= i < names.len(),
        is_topmost(names[i], all),
    ensures
        topmost_paths(names, all, logical).contains(joined(logical, names[i])),
    decreases names.len(),
{
    let list = topmost_paths(names, all, logical);
    if i == names.len() - 1 {
        assert(list[list.len() - 1] == joined(logical, names[i]));
    } else {
        lemma_topmost_is_listed(names.drop_last(), all, logical, i);
        let front = topmost_paths(names.drop_last(), all, logical);
        let k = choose|k: int| 0 <= k < front.len() && front[k] == joined(logical, names[i]);
        assert(list[k] == front[k]);
    }
}

/// Every entry that was recorded is handed over: it is itself a path to hand
/// over, or lies beneath one.
pub proof fn law_every_created_entry_is_handed_over(all: Seq<Seq<char>>, logical: Seq<char>, i: int)
    requires
        0 <= i < all.len(),
    ensures
        exists|k: int|
            0 <= k < all.len() && topmost_paths(all, all, logical).contains(joined(logical, #[trigger] all[k])) && (all[k]
                == all[i] || is_beneath(all[i], all[k])),
    decreases all[i].len(),
{
    if is_topmost(all[i], all) {
        lemma_topmost_is_listed(all, all, logical, i);
        assert(topmost_paths(all, all, logical).contains(joined(logical, all[i])));
    } else {
        let j = choose|j: int| 0 <= j < all.len() && is_beneath(all[i], #[trigger] all[j]);
        reveal_strlit("/");
        assert(all[j].len() < all[i].len());
        law_every_created_entry_is_handed_over(all, logical, j);
        let k = choose|k: int|
            0 <= k < all.len() && topmost_paths(all, all, logical).contains(joined(logical, #[trigger] all[k])) && (all[k]
                == all[j] || is_beneath(all[j], all[k]));
        if all[k] != all[j] {
            lemma_beneath_is_transitive(all[i], all[j], all[k]);
        }
        assert(all[k] == all[i] || is_beneath(all[i], all[k]));
    }
}

} // verus!
