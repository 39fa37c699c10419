//! Where per-user files live, for whom they are written, and how they are
//! replaced. Every decision is over values that were read beforehand.

pub mod laws;
pub mod replace;

use vstd::prelude::*;

use crate::number::{parse_uint, read_uint};
use crate::path::{
    join_path, joined, last_name, lies_within, name_of, parent_parts, parts, parts_of, path_text, resolve, resolved,
    to_path,
};
use crate::table::NameTable;
use crate::text::{char_views, chars_eq, extend_str, from_chars, to_chars};

verus! {

/// The directory in a home that holds the configuration.
pub const CONFIG_DIR_NAME: &'static str = ".usbtop-ng";

/// The preferences file in that directory.
pub const PREFERENCES_FILE_NAME: &'static str = "preferences.toml";

/// The user a root process is acting on behalf of, resolved from `sudo`'s
/// environment. Every per-user path follows this home instead of root's when
/// there is one.
#[derive(Debug)]
pub struct Invoker {
    pub uid: u32,
    pub gid: u32,
    pub home: String,
}

/// The number that an environment variable holds.
pub open spec fn id_in(text: Option<&str>) -> Option<nat> {
    match text {
        Some(t) => read_uint(t@, 10, u32::MAX as nat),
        None => None,
    }
}

/// Who a root process under `sudo` acts for: a user and a group, the user not
/// root.
pub open spec fn acting_for(euid: u32, sudo_uid: Option<&str>, sudo_gid: Option<&str>) -> Option<(u32, u32)> {
    match (id_in(sudo_uid), id_in(sudo_gid)) {
        (Some(uid), Some(gid)) => if euid == 0 && uid != 0 {
            Some((uid as u32, gid as u32))
        } else {
            None
        },
        _ => None,
    }
}

fn parse_id(text: Option<&str>) -> (r: Option<u32>)
    ensures
        match r {
            Some(n) => id_in(text) == Some(n as nat),
            None => id_in(text) is None,
        },
{
    match text {
        Some(t) => match parse_uint(&to_chars(t), 10, u32::MAX as u64) {
            Some(n) => Some(n as u32),
            None => None,
        },
        None => None,
    }
}

/// The invoker, when a home is known that is not empty.
pub open spec fn invoker_at(who: (u32, u32), home: Option<String>) -> Option<Invoker> {
    match home {
        Some(h) => if h@.len() > 0 {
            Some((Invoker { uid: who.0, gid: who.1, home: h }))
        } else {
            None
        },
        None => None,
    }
}

/// Whether the user database may give this home for a user.
pub open spec fn answers<F: Fn(u32) -> Option<String>>(home_of: F, uid: u32, home: Option<String>) -> bool {
    call_ensures(home_of, (uid,), home)
}

/// Whether `r` is the invoker that the user database makes of `who`.
pub open spec fn is_settled<F: Fn(u32) -> Option<String>>(
    home_of: F,
    who: Option<(u32, u32)>,
    r: Option<Invoker>,
) -> bool {
    match who {
        None => r is None,
        Some(w) => exists|home: Option<String>| #[trigger] answers(home_of, w.0, home) && r == invoker_at(w, home),
    }
}

/// Is this a root process acting on behalf of another user under `sudo`, and
/// if so, who? `None` unless every one of these holds: `euid` is 0, both
/// `sudo_uid` and `sudo_gid` are set and parse as `u32`, `sudo_uid` is not 0
/// (root sudo-ing to root changes nothing), and `home_of` knows a non-empty
/// home directory for that uid. `home_of` is the user-database lookup; it is
/// asked for that uid and no other.
pub fn resolve_invoker<F: Fn(u32) -> Option<String>>(
    euid: u32,
    sudo_uid: Option<&str>,
    sudo_gid: Option<&str>,
    home_of: F,
) -> (r: Option<Invoker>)
    requires
        acting_for(euid, sudo_uid, sudo_gid) matches Some(who) ==> call_requires(home_of, (who.0,)),
    ensures
        is_settled(home_of, acting_for(euid, sudo_uid, sudo_gid), r),
{
    if euid != 0 {
        return None;
    }
    let uid = match parse_id(sudo_uid) {
        None => {
            return None;
        },
        Some(n) => n,
    };
    let gid = match parse_id(sudo_gid) {
        None => {
            return None;
        },
        Some(n) => n,
    };
    if uid == 0 {
        return None;
    }
    let found = home_of(uid);
    let ghost answer = found;
    let ghost who = (uid, gid);
    assert(answers(home_of, who.0, answer));
    let r = match found {
        None => None,
        Some(home) => {
            if home.as_str().is_empty() {
                None
            } else {
                Some(Invoker { uid, gid, home })
            }
        },
    };
    assert(r == invoker_at(who, answer));
    assert(acting_for(euid, sudo_uid, sudo_gid) == Some(who));
    assert(is_settled(home_of, Some(who), r));
    r
}

/// A path with its `.` and `..` components resolved by text alone.
pub open spec fn normalized(path: Seq<char>) -> Seq<char> {
    path_text(resolved(parts_of(path)))
}

/// Resolves `..` and `.` components without touching the filesystem; the path
/// need not exist.
pub fn normalize_lexically(path: &str) -> (r: String)
    ensures
        r@ == normalized(path@),
{
    let p = parts(&to_chars(path));
    let q = resolve(&p);
    from_chars(&to_path(&q))
}

/// True when `path` is `home` itself or lexically nested inside it, after
/// resolving `..` and `.` components, so that `/home/alice/../root/x`, which
/// shares a literal prefix with `/home/alice`, is not within it. This alone
/// does not stop a symlink on disk: see [`resolve_for_containment_check`].
pub fn is_within(path: &str, home: &str) -> (r: bool)
    ensures
        r == lies_within(path@, home@),
{
    let p = resolve(&parts(&to_chars(path)));
    let h = resolve(&parts(&to_chars(home)));
    let ghost (pv, hv) = (char_views(p@), char_views(h@));
    if h.len() > p.len() {
        return false;
    }
    let mut i: usize = 0;
    while i < h.len()
        invariant
            i <= h@.len() <= p@.len(),
            pv == char_views(p@),
            hv == char_views(h@),
            pv == resolved(parts_of(path@)),
            hv == resolved(parts_of(home@)),
            forall|j: int| 0 <= j < i ==> #[trigger] hv[j] == pv[j],
        decreases h@.len() - i,
    {
        assert(hv[i as int] == h@[i as int]@ && pv[i as int] == p@[i as int]@);
        if !chars_eq(&h[i], &p[i]) {
            assert(pv.subrange(0, hv.len() as int)[i as int] == pv[i as int]);
            return false;
        }
        i = i + 1;
    }
    assert(hv =~= pv.subrange(0, hv.len() as int));
    true
}

/// Where a path really lies: its canonical path, or its name below the
/// canonical path of its parent.
pub open spec fn location(
    path: Seq<char>,
    canonical: Option<Seq<char>>,
    canonical_parent: Option<Seq<char>>,
) -> Option<Seq<char>> {
    match canonical {
        Some(c) => Some(c),
        None => match (parent_parts(path), name_of(path), canonical_parent) {
            (Some(_), Some(name), Some(parent)) => Some(joined(parent, name)),
            _ => None,
        },
    }
}

/// Resolves `path` for a containment check from what the filesystem said of
/// it and of its parent, so a symlinked ancestor cannot make a path that is
/// lexically inside a home land somewhere else on disk. A path that does not
/// exist yet is taken as its name below its resolved parent: the parent is
/// where a symlink would have to be.
pub fn resolve_for_containment_check(
    path: &str,
    canonical: Option<String>,
    canonical_parent: Option<String>,
) -> (r: Option<String>)
    ensures
        crate::device::text_of(r) == location(
            path@,
            crate::device::text_of(canonical),
            crate::device::text_of(canonical_parent),
        ),
{
    if canonical.is_some() {
        return canonical;
    }
    let v = to_chars(path);
    let name = match last_name(&v) {
        None => {
            return None;
        },
        Some(n) => n,
    };
    match canonical_parent {
        None => None,
        Some(parent) => {
            assert(parts_of(path@).last() != crate::path::root_part());
            let p = join_path(&to_chars(parent.as_str()), &name);
            Some(from_chars(&p))
        },
    }
}

/// A home as far as it could be resolved.
pub open spec fn effective_home(home: Seq<char>, resolved_home: Option<Seq<char>>) -> Seq<char> {
    match resolved_home {
        Some(h) => h,
        None => home,
    }
}

/// Whether a created file is handed to the invoker, and to which uid and gid:
/// only when there is one and the file really lies inside their home. A home
/// that cannot be resolved at all counts in its lexical form.
pub fn owner_of_created(
    invoker: &Option<Invoker>,
    resolved_path: &Option<String>,
    resolved_home: &Option<String>,
) -> (r: Option<(u32, u32)>)
    ensures
        r == (match (*invoker, *resolved_path) {
            (Some(i), Some(p)) => if lies_within(
                p@,
                effective_home(i.home@, crate::device::text_of(*resolved_home)),
            ) {
                Some((i.uid, i.gid))
            } else {
                None
            },
            _ => None,
        }),
{
    match (invoker, resolved_path) {
        (Some(i), Some(p)) => {
            let inside = match resolved_home {
                Some(h) => is_within(p.as_str(), h.as_str()),
                None => is_within(p.as_str(), i.home.as_str()),
            };
            if inside {
                Some((i.uid, i.gid))
            } else {
                None
            }
        },
        _ => None,
    }
}

/// The directory that holds (or will hold) a file, by its components; none
/// for the current one.
pub open spec fn holding_parts(file: Seq<char>) -> Option<Seq<Seq<char>>> {
    match parent_parts(file) {
        Some(up) => if up.len() > 0 {
            Some(up)
        } else {
            None
        },
        None => None,
    }
}

/// The directory that holds (or will hold) `file`.
pub fn holding_dir(file: &str) -> (r: String)
    ensures
        r@ == (match holding_parts(file@) {
            Some(up) => path_text(up),
            None => "."@,
        }),
{
    let mut p = parts(&to_chars(file));
    let ghost views = char_views(p@);
    let n = p.len();
    if n < 2 {
        return ".".to_owned();
    }
    assert(views.last() == p@[n - 1]@);
    if crate::path::is_root(&p[n - 1]) {
        return ".".to_owned();
    }
    p.truncate(n - 1);
    assert(char_views(p@) =~= views.drop_last());
    from_chars(&to_path(&p))
}

/// A directory that leads out of the invoking user's home.
#[derive(Debug)]
pub struct Escape {
    pub dir: String,
    pub actual: String,
    pub home: String,
}

/// The sentence about an escape.
pub open spec fn escape_text(dir: Seq<char>, actual: Seq<char>, home: Seq<char>) -> Seq<char> {
    dir + " resolves to "@ + actual + ", outside the invoking user's home "@ + home
        + "; refusing to write there as root"@
}

impl Escape {
    /// The sentence about an escape.
    pub fn message(&self) -> (r: String)
        ensures
            r@ == escape_text(self.dir@, self.actual@, self.home@),
    {
        let mut v = to_chars(self.dir.as_str());
        extend_str(&mut v, " resolves to ");
        extend_str(&mut v, self.actual.as_str());
        extend_str(&mut v, ", outside the invoking user's home ");
        extend_str(&mut v, self.home.as_str());
        extend_str(&mut v, "; refusing to write there as root");
        from_chars(&v)
    }
}

/// Whether a directory opened for a write may be written to. Under sudo, when
/// the file lexically claims a place inside the invoker's home, the directory
/// that was really opened must lie inside the resolved home too: root writes
/// into the invoker's home and nowhere else. An explicit path outside the
/// home is the invoker's own choice; without sudo there is no boundary.
pub fn admit_dir(
    dir: &str,
    claimed: &str,
    home: Option<&str>,
    actual: &str,
    resolved_home: Option<&str>,
) -> (r: Result<(), Escape>)
    ensures
        match home {
            None => r is Ok,
            Some(h) => {
                let inside = lies_within(
                    actual@,
                    (match resolved_home {
                        Some(x) => x@,
                        None => h@,
                    }),
                );
                &&& r is Ok <==> !lies_within(claimed@, h@) || inside
                &&& r matches Err(e) ==> e.dir@ == dir@ && e.actual@ == actual@ && e.home@ == h@
            },
        },
{
    let h = match home {
        None => {
            return Ok(());
        },
        Some(h) => h,
    };
    if !is_within(claimed, h) {
        return Ok(());
    }
    let inside = match resolved_home {
        Some(x) => is_within(actual, x),
        None => is_within(actual, h),
    };
    if inside {
        Ok(())
    } else {
        Err(Escape { dir: dir.to_owned(), actual: actual.to_owned(), home: h.to_owned() })
    }
}

/// Why an existing configuration directory is refused.
#[derive(Debug)]
pub enum ConfigDirFault {
    Unresolved(String),
    Escapes(Escape),
}

impl ConfigDirFault {
    /// The sentence about a fault.
    pub fn message(&self) -> (r: String)
        ensures
            r@ == (match self {
                ConfigDirFault::Unresolved(d) => "config directory "@ + d@ + " could not be resolved"@,
                ConfigDirFault::Escapes(e) => "config directory "@ + escape_text(e.dir@, e.actual@, e.home@),
            }),
    {
        let mut v = to_chars("config directory ");
        match self {
            ConfigDirFault::Unresolved(d) => {
                extend_str(&mut v, d.as_str());
                extend_str(&mut v, " could not be resolved");
            },
            ConfigDirFault::Escapes(e) => {
                let text = e.message();
                extend_str(&mut v, text.as_str());
            },
        }
        from_chars(&v)
    }
}

/// Root acting for a sudo invoker writes into that user's home and nowhere
/// else: an existing configuration directory that resolves outside their home
/// is refused, as is one that cannot be resolved.
pub fn refuse_escape_from_home(
    dir: &str,
    home: &str,
    resolved_dir: Option<String>,
    resolved_home: Option<String>,
) -> (r: Result<(), ConfigDirFault>)
    ensures
        match resolved_dir {
            None => r matches Err(ConfigDirFault::Unresolved(d)) && d@ == dir@,
            Some(actual) => if lies_within(
                actual@,
                effective_home(home@, crate::device::text_of(resolved_home)),
            ) {
                r is Ok
            } else {
                r matches Err(ConfigDirFault::Escapes(e)) && e.dir@ == dir@ && e.actual@ == actual@ && e.home@
                    == home@
            },
        },
{
    match resolved_dir {
        None => Err(ConfigDirFault::Unresolved(dir.to_owned())),
        Some(actual) => {
            let inside = match &resolved_home {
                Some(h) => is_within(actual.as_str(), h.as_str()),
                None => is_within(actual.as_str(), home),
            };
            if inside {
                Ok(())
            } else {
                Err(ConfigDirFault::Escapes(Escape { dir: dir.to_owned(), actual, home: home.to_owned() }))
            }
        },
    }
}

/// There is no home to keep configuration in.
#[derive(Debug, Clone, Copy, PartialEq, Eq, Structural)]
pub struct NoHome;

impl NoHome {
    /// The sentence about it.
    pub fn message(&self) -> (r: &'static str)
        ensures
            r@ == "HOME is not set; cannot locate ~/.usbtop-ng"@,
    {
        "HOME is not set; cannot locate ~/.usbtop-ng"
    }
}

/// The home directory per-user data resolves against: the invoking user's
/// home under sudo, else `$HOME` as always.
pub fn config_home(invoker: &Option<Invoker>, home: Option<String>) -> (r: Result<String, NoHome>)
    ensures
        match (*invoker, home) {
            (Some(i), _) => r matches Ok(h) && h@ == i.home@,
            (None, Some(h)) => r == Ok::<String, NoHome>(h),
            (None, None) => r is Err,
        },
{
    match invoker {
        Some(i) => Ok(i.home.clone()),
        None => match home {
            Some(h) => Ok(h),
            None => Err(NoHome),
        },
    }
}

/// The preferences file of a home.
pub open spec fn preferences_in(home: Seq<char>) -> Seq<char> {
    joined(joined(home, ".usbtop-ng"@), "preferences.toml"@)
}

/// The preferences file of a home.
pub fn preferences_path_from(home: &str) -> (r: String)
    ensures
        r@ == preferences_in(home@),
{
    let dir = join_path(&to_chars(home), &to_chars(".usbtop-ng"));
    let file = join_path(&dir, &to_chars("preferences.toml"));
    from_chars(&file)
}

/// The preferences file of whoever the process acts for.
pub fn preferences_path(invoker: &Option<Invoker>, home: Option<String>) -> (r: Result<String, NoHome>)
    ensures
        match (*invoker, home) {
            (Some(i), _) => r matches Ok(p) && p@ == preferences_in(i.home@),
            (None, Some(h)) => r matches Ok(p) && p@ == preferences_in(h@),
            (None, None) => r is Err,
        },
{
    match config_home(invoker, home) {
        Ok(h) => Ok(preferences_path_from(h.as_str())),
        Err(e) => Err(e),
    }
}

/// What a user prefers.
pub struct Preferences {
    /// Load the Linux usbmon kernel module automatically when it is missing.
    pub auto_load_usbmon: bool,
    /// Unload usbmon automatically on exit when it was loaded for this run.
    pub unload_usbmon_on_exit: bool,
    /// Hide devices that are not transferring. Off by default, so every
    /// connected device shows even at zero bandwidth.
    pub hide_idle_devices: bool,
    /// Path to a usb.ids database file. Overrides the downloaded and distro
    /// copies; the `--usbids` flag overrides this.
    pub usbids_path: Option<String>,
    /// User-given names for physical connectors, keyed by position (`"3:1"`,
    /// `"3:1.4"`) or by the kernel's port object name (`usb3-port1`).
    pub connector_names: NameTable<String>,
}

impl Default for Preferences {
    /// Every switch off, no path and no name.
    fn default() -> (r: Preferences)
        ensures
            !r.auto_load_usbmon,
            !r.unload_usbmon_on_exit,
            !r.hide_idle_devices,
            r.usbids_path is None,
            r.connector_names@ == Map::<Seq<char>, String>::empty(),
    {
        Preferences {
            auto_load_usbmon: false,
            unload_usbmon_on_exit: false,
            hide_idle_devices: false,
            usbids_path: None,
            connector_names: NameTable::new(),
        }
    }
}

/// What to do about the preferences file.
#[derive(Debug, Clone, Copy, PartialEq, Eq, Structural)]
pub enum PreferencesStep {
    /// Read it and parse it.
    Load,
    /// Write the defaults, and use them.
    CreateDefault,
}

/// A preferences file that is there is read; otherwise the defaults are
/// written and used.
pub fn load_or_create_default_at(exists: bool) -> (r: PreferencesStep)
    ensures
        r == (if exists {
            PreferencesStep::Load
        } else {
            PreferencesStep::CreateDefault
        }),
{
    if exists {
        PreferencesStep::Load
    } else {
        PreferencesStep::CreateDefault
    }
}

/// What to do about the configuration directory.
#[derive(Debug, Clone, Copy, PartialEq, Eq, Structural)]
pub enum ConfigDirStep {
    /// It is there: check that it lies inside the invoker's home.
    CheckContained,
    /// It is there, and there is nobody to check it for.
    Keep,
    /// Make it private, and hand it to the invoker.
    CreatePrivate,
}

/// An existing configuration directory is never changed, only checked under
/// sudo; a missing one is created private.
pub fn ensure_private_config_dir(exists: bool, invoker: &Option<Invoker>) -> (r: ConfigDirStep)
    ensures
        r == (if !exists {
            ConfigDirStep::CreatePrivate
        } else if *invoker is Some {
            ConfigDirStep::CheckContained
        } else {
            ConfigDirStep::Keep
        }),
{
    if !exists {
        ConfigDirStep::CreatePrivate
    } else if invoker.is_some() {
        ConfigDirStep::CheckContained
    } else {
        ConfigDirStep::Keep
    }
}

/// The permission bits of a private directory.
pub const PRIVATE_DIR_MODE: u32 = 0o700;

/// Normalizing leaves no `.` and no `..` among the components that count for
/// containment.
pub proof fn law_normalized_components_are_plain(path: Seq<char>)
    ensures
        crate::path::is_plain(resolved(parts_of(path))),
{
    crate::path::law_resolved_is_plain(parts_of(path));
}

} // verus!
