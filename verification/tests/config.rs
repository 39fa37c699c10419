use std::collections::BTreeMap;

use usbtop_ng::config::replace::{temp_name, EntryKind, ReplaceFault, ReplaceStep, Replacement, StepOutcome};
use usbtop_ng::config::{
    admit_dir, config_home, ensure_private_config_dir, holding_dir, is_within, load_or_create_default_at,
    normalize_lexically, owner_of_created, preferences_path, preferences_path_from, refuse_escape_from_home,
    resolve_for_containment_check, resolve_invoker, ConfigDirStep, Invoker, Preferences, PreferencesStep,
    PRIVATE_DIR_MODE,
};

const PASSWD: &str = "root:x:0:0:root:/root:/bin/bash\n\
    daemon:x:1:1:daemon:/usr/sbin:/usr/sbin/nologin\n\
    malformed line without colons\n\
    alice:x:1000:1000:Alice Example:/home/alice:/bin/bash\n";

/// A user database in passwd format: the home of `uid`.
fn home_from_passwd_text(passwd: &str, uid: u32) -> Option<String> {
    passwd.lines().find_map(|line| {
        let fields: Vec<&str> = line.split(':').collect();
        if fields.len() < 6 || fields[2].parse::<u32>().ok()? != uid {
            return None;
        }
        Some(fields[5].to_string())
    })
}

fn table(uid: u32) -> Option<String> {
    home_from_passwd_text(PASSWD, uid)
}

#[test]
fn resolver_finds_the_invoking_users_home() {
    let inv = resolve_invoker(0, Some("1000"), Some("1000"), table).unwrap();
    assert_eq!(inv.uid, 1000);
    assert_eq!(inv.gid, 1000);
    assert_eq!(inv.home, "/home/alice");
}

#[test]
fn resolver_is_none_without_full_sudo_context() {
    assert!(resolve_invoker(1000, Some("1000"), Some("1000"), table).is_none(), "not root");
    assert!(resolve_invoker(0, None, Some("1000"), table).is_none());
    assert!(resolve_invoker(0, Some("1000"), None, table).is_none());
    assert!(resolve_invoker(0, Some("0"), Some("0"), table).is_none(), "root sudo root");
    assert!(resolve_invoker(0, Some("abc"), Some("1000"), table).is_none());
    assert!(resolve_invoker(0, Some("4242"), Some("4242"), table).is_none(), "uid not in the user database");
    assert!(resolve_invoker(0, Some("1000"), Some("1000"), |_| None).is_none(), "user database unavailable");
}

#[test]
fn resolver_rejects_an_empty_home_field() {
    let text = "ghost:x:1000:1000:g::/bin/bash\n";
    assert!(resolve_invoker(0, Some("1000"), Some("1000"), |uid| home_from_passwd_text(text, uid)).is_none());
}

#[test]
fn refuse_escape_from_home_allows_in_home_layouts_and_rejects_an_escape() {
    let home = "/t/home";
    let check = |dir: &str, actual: &str| {
        refuse_escape_from_home(dir, home, Some(actual.to_string()), Some(home.to_string()))
    };
    assert!(check("/t/home/.usbtop-ng-plain", "/t/home/.usbtop-ng-plain").is_ok(), "a real dir in home");
    assert!(
        check("/t/home/.usbtop-ng", "/t/home/dotfiles/usbtop-ng").is_ok(),
        "a symlink that stays inside home is the invoker's own layout"
    );
    let err = check("/t/home/.usbtop-ng-escape", "/t/outside").unwrap_err().message();
    assert!(err.contains("outside the invoking user's home"), "{err}");
    assert!(err.contains("/t/outside"), "{err}");
    let err = refuse_escape_from_home("/t/home/.usbtop-ng", home, None, Some(home.to_string())).unwrap_err();
    assert!(err.message().contains("/t/home/.usbtop-ng"), "{}", err.message());
}

#[test]
fn pinned_dir_refuses_a_directory_that_escapes_the_invokers_home() {
    let home = "/t/home";
    let open = |dir: &str, actual: &str| {
        admit_dir(dir, &format!("{dir}/preferences.toml"), Some(home), actual, Some(home))
    };
    open("/t/home/.plain", "/t/home/.plain").expect("a real directory in home");
    open("/t/home/.inside-link", "/t/home/dotfiles/usbtop-ng").expect("a link that stays inside home");
    let err = open("/t/home/.escape", "/t/outside").unwrap_err().message();
    assert!(err.contains("outside the invoking user's home"), "{err}");
    assert!(err.contains("/t/outside"), "{err}");
}

#[test]
fn pinned_dir_has_no_boundary_without_a_sudo_invoker() {
    // Not root acting for someone else: the user's own layout is theirs.
    admit_dir("/t/home/.escape", "/t/home/.escape/preferences.toml", None, "/t/outside", None)
        .expect("no privilege boundary, no refusal");
}

#[test]
fn an_explicit_path_outside_the_home_is_the_invokers_choice() {
    admit_dir("/etc/usbtop", "/etc/usbtop/preferences.toml", Some("/home/alice"), "/etc/usbtop", Some("/home/alice"))
        .expect("the file never claimed to be in the home");
}

#[test]
fn is_within_accepts_a_path_nested_inside_home() {
    assert!(is_within("/home/alice/.usbtop-ng/preferences.toml", "/home/alice"));
}

#[test]
fn is_within_accepts_home_itself() {
    assert!(is_within("/home/alice", "/home/alice"));
}

#[test]
fn is_within_rejects_an_unrelated_path() {
    assert!(!is_within("/etc/cron.d/evil", "/home/alice"));
}

#[test]
fn is_within_rejects_dotdot_traversal_that_escapes_home() {
    // Resolves to /home/root/x, a sibling of /home/alice, though the text
    // begins with "/home/alice".
    assert!(!is_within("/home/alice/../root/x", "/home/alice"));
}

#[test]
fn is_within_rejects_a_sibling_directory_that_shares_a_name_prefix() {
    assert!(!is_within("/home/alice2/x", "/home/alice"));
}

#[test]
fn normalizing_resolves_dots_and_twice_is_once() {
    assert_eq!(normalize_lexically("/home/alice/../root/./x"), "/home/root/x");
    assert_eq!(normalize_lexically("/../x"), "/x");
    assert_eq!(normalize_lexically(&normalize_lexically("/a//b/../c")), normalize_lexically("/a//b/../c"));
}

#[test]
fn resolve_for_containment_check_accepts_an_existing_in_home_path() {
    let file = "/t/home/.usbtop-ng/preferences.toml";
    let resolved = resolve_for_containment_check(file, Some(file.to_string()), None).unwrap();
    assert!(is_within(&resolved, "/t/home"));
}

#[test]
fn resolve_for_containment_check_falls_back_to_the_parent_for_a_not_yet_created_file() {
    let resolved =
        resolve_for_containment_check("/t/home/not-written-yet.toml", None, Some("/t/home".to_string())).unwrap();
    assert_eq!(resolved, "/t/home/not-written-yet.toml");
    assert!(is_within(&resolved, "/t/home"));
    assert_eq!(resolve_for_containment_check("/t/home/x", None, None), None);
}

#[test]
fn resolve_for_containment_check_follows_a_symlinked_ancestor_out_of_home() {
    let file = "/t/home/trap/planted.toml";
    let resolved = resolve_for_containment_check(file, Some("/t/outside/planted.toml".to_string()), None).unwrap();
    assert!(!is_within(&resolved, "/t/home"), "a symlinked ancestor resolves to its real target");
    let invoker = Some(alice());
    assert_eq!(owner_of_created(&invoker, &Some(resolved), &Some("/t/home".to_string())), None);
    assert_eq!(
        owner_of_created(&invoker, &Some("/t/home/x".to_string()), &Some("/t/home".to_string())),
        Some((1000, 1000))
    );
    assert_eq!(owner_of_created(&None, &Some("/t/home/x".to_string()), &Some("/t/home".to_string())), None);
}

fn alice() -> Invoker {
    Invoker { uid: 1000, gid: 1000, home: "/home/alice".to_string() }
}

#[test]
fn preferences_path_from_joins_config_dir_and_file_name() {
    assert_eq!(preferences_path_from("/home/alice"), "/home/alice/.usbtop-ng/preferences.toml");
}

#[test]
fn the_invokers_home_wins_over_the_environment() {
    assert_eq!(config_home(&Some(alice()), Some("/root".to_string())).unwrap(), "/home/alice");
    assert_eq!(config_home(&None, Some("/root".to_string())).unwrap(), "/root");
    let missing = preferences_path(&None, None).unwrap_err();
    assert_eq!(missing.message(), "HOME is not set; cannot locate ~/.usbtop-ng");
    assert_eq!(
        preferences_path(&Some(alice()), None).unwrap(),
        "/home/alice/.usbtop-ng/preferences.toml"
    );
}

#[test]
fn hide_idle_devices_defaults_to_false() {
    assert!(!Preferences::default().hide_idle_devices);
}

#[test]
fn the_default_preferences_switch_nothing_on() {
    let prefs = Preferences::default();
    assert!(!prefs.auto_load_usbmon && !prefs.unload_usbmon_on_exit);
    assert_eq!(prefs.usbids_path, None);
    assert_eq!(prefs.connector_names.len(), 0);
}

#[test]
fn creates_default_preferences_file() {
    assert_eq!(load_or_create_default_at(false), PreferencesStep::CreateDefault);
}

#[test]
fn loads_existing_preferences_file() {
    assert_eq!(load_or_create_default_at(true), PreferencesStep::Load);
}

#[test]
fn ensure_private_config_dir_creates_with_0700() {
    assert_eq!(ensure_private_config_dir(false, &None), ConfigDirStep::CreatePrivate);
    assert_eq!(ensure_private_config_dir(false, &Some(alice())), ConfigDirStep::CreatePrivate);
    assert_eq!(PRIVATE_DIR_MODE, 0o700);
}

#[test]
fn ensure_private_config_dir_leaves_existing_dir_permissions_alone() {
    assert_eq!(ensure_private_config_dir(true, &None), ConfigDirStep::Keep);
    assert_eq!(ensure_private_config_dir(true, &Some(alice())), ConfigDirStep::CheckContained);
}

#[test]
fn the_holding_directory_is_the_parent_or_the_current_one() {
    assert_eq!(holding_dir("/t/home/prefs.toml"), "/t/home");
    assert_eq!(holding_dir("prefs.toml"), ".");
}

// Replacing a file.

#[derive(Debug, Clone, PartialEq)]
enum Entry {
    File(Vec<u8>),
    Link,
    Directory,
}

/// One directory, on which a replacement's steps are carried out.
struct Directory {
    exists: bool,
    entries: BTreeMap<String, Entry>,
    broken: Option<ReplaceStep>,
}

const PID: u32 = 4711;
const TARGET: &str = "/t/internal-devices.toml";
const NAME: &str = "internal-devices.toml";

impl Directory {
    fn new(entries: &[(&str, Entry)]) -> Directory {
        Directory {
            exists: true,
            entries: entries.iter().map(|(n, e)| (n.to_string(), e.clone())).collect(),
            broken: None,
        }
    }

    fn kind(&self, name: &str) -> StepOutcome {
        StepOutcome::Found(match self.entries.get(name) {
            None => EntryKind::Missing,
            Some(Entry::File(_)) => EntryKind::RegularFile,
            Some(Entry::Link) => EntryKind::Symlink,
            Some(Entry::Directory) => EntryKind::Other,
        })
    }

    fn perform(&mut self, step: ReplaceStep, temp: &str, bytes: &[u8]) -> StepOutcome {
        if self.broken == Some(step) {
            return StepOutcome::Broke("No space left on device (os error 28)".to_string());
        }
        match step {
            ReplaceStep::OpenDir => {
                if self.exists {
                    StepOutcome::Worked
                } else {
                    StepOutcome::Broke("No such file or directory (os error 2)".to_string())
                }
            }
            ReplaceStep::StatTarget => self.kind(NAME),
            ReplaceStep::StatTemp => self.kind(temp),
            ReplaceStep::CreateTemp | ReplaceStep::RetryTemp => {
                if self.entries.contains_key(temp) {
                    StepOutcome::AlreadyThere("File exists (os error 17)".to_string())
                } else {
                    self.entries.insert(temp.to_string(), Entry::File(Vec::new()));
                    StepOutcome::Worked
                }
            }
            ReplaceStep::ClearTemp | ReplaceStep::Discard => {
                self.entries.remove(temp);
                StepOutcome::Worked
            }
            ReplaceStep::WriteTemp => {
                self.entries.insert(temp.to_string(), Entry::File(bytes.to_vec()));
                StepOutcome::Worked
            }
            ReplaceStep::Rename => {
                let entry = self.entries.remove(temp).unwrap();
                self.entries.insert(NAME.to_string(), entry);
                StepOutcome::Worked
            }
            ReplaceStep::SyncDir => StepOutcome::Worked,
            ReplaceStep::Done | ReplaceStep::Failed => unreachable!(),
        }
    }

    fn replace(&mut self, bytes: &[u8]) -> Result<(), ReplaceFault> {
        let temp = temp_name(TARGET, PID).unwrap();
        let mut replacement = Replacement::start(TARGET);
        loop {
            match replacement.step {
                ReplaceStep::Done => return Ok(()),
                ReplaceStep::Failed => return Err(replacement.fault.unwrap()),
                step => {
                    let outcome = self.perform(step, &temp, bytes);
                    replacement = replacement.advance(outcome);
                }
            }
        }
    }

    fn names(&self) -> Vec<&str> {
        self.entries.keys().map(String::as_str).collect()
    }
}

fn contents(text: &str) -> Entry {
    Entry::File(text.as_bytes().to_vec())
}

#[test]
fn replace_file_owned_replaces_content_privately_and_leaves_no_temp_file() {
    let mut dir = Directory::new(&[(NAME, contents("old"))]);
    dir.replace(b"new contents").unwrap();
    assert_eq!(dir.entries[NAME], contents("new contents"));
    assert_eq!(dir.names(), [NAME]);
}

#[test]
fn replace_file_owned_uses_a_temp_name_unique_to_this_process() {
    assert_eq!(temp_name(TARGET, 4711).as_deref(), Some("internal-devices.toml.4711.tmp"));
    assert_ne!(temp_name(TARGET, 4711), temp_name(TARGET, 4712));
    assert_eq!(temp_name("/", 4711), None);
    let mut dir = Directory::new(&[]);
    dir.replace(b"contents").unwrap();
    assert_eq!(dir.names(), [NAME]);
}

#[test]
fn replace_file_owned_creates_the_file_when_it_does_not_exist_yet() {
    let mut dir = Directory::new(&[]);
    dir.replace(b"first").unwrap();
    assert_eq!(dir.entries[NAME], contents("first"));
}

#[test]
fn replace_file_owned_ignores_a_stale_temp_file_from_another_run() {
    let stale = temp_name(TARGET, 99999).unwrap();
    let mut dir = Directory::new(&[(NAME, contents("old")), (&stale, contents("half-written garbage"))]);
    dir.replace(b"new").unwrap();
    assert_eq!(dir.entries[NAME], contents("new"));
    assert_eq!(
        dir.entries[&stale],
        contents("half-written garbage"),
        "another run's temp file is neither read nor removed"
    );
}

#[test]
fn replace_file_owned_replaces_a_stale_temp_file_left_by_a_dead_run_with_our_pid() {
    let stale = temp_name(TARGET, PID).unwrap();
    let mut dir = Directory::new(&[(NAME, contents("old")), (&stale, contents("half-written garbage"))]);
    dir.replace(b"new").unwrap();
    assert_eq!(dir.entries[NAME], contents("new"));
    assert_eq!(dir.names(), [NAME], "the leftover was consumed, not left behind");
}

#[test]
fn replace_file_owned_never_removes_a_symlink_at_its_temp_name() {
    let tmp = temp_name(TARGET, PID).unwrap();
    let mut dir = Directory::new(&[
        (NAME, contents("precious original")),
        ("decoy", contents("do not touch")),
        (&tmp, Entry::Link),
    ]);
    let err = dir.replace(b"replacement").unwrap_err();
    assert_eq!(err.message(TARGET), "File exists (os error 17)");
    assert_eq!(dir.entries["decoy"], contents("do not touch"), "the symlink's target is untouched");
    assert_eq!(dir.entries[&tmp], Entry::Link, "the symlink itself survives");
    assert_eq!(dir.entries[NAME], contents("precious original"), "and the target is intact");
}

#[test]
fn replace_file_owned_leaves_the_original_intact_when_the_temp_file_cannot_be_created() {
    let squatter = temp_name(TARGET, PID).unwrap();
    let mut dir = Directory::new(&[(NAME, contents("precious original")), (&squatter, Entry::Directory)]);
    let err = dir.replace(b"replacement").unwrap_err();
    assert_eq!(err.message(TARGET), "File exists (os error 17)");
    assert_eq!(dir.entries[NAME], contents("precious original"), "byte-for-byte intact");
    assert_eq!(dir.entries[&squatter], Entry::Directory, "the squatter is not removed");
}

#[test]
fn replace_file_owned_refuses_a_symlinked_target_and_leaves_both_ends_alone() {
    let mut dir = Directory::new(&[("elsewhere.toml", contents("target contents")), (NAME, Entry::Link)]);
    let err = dir.replace(b"replacement").unwrap_err();
    assert!(matches!(err, ReplaceFault::TargetIsSymlink));
    assert_eq!(err.message(TARGET), "refusing to replace a symlink at /t/internal-devices.toml");
    assert_eq!(dir.entries[NAME], Entry::Link, "the link survives");
    assert_eq!(dir.entries["elsewhere.toml"], contents("target contents"), "the target is untouched");
    assert_eq!(dir.names(), ["elsewhere.toml", NAME], "no temp file was created at all");
}

#[test]
fn replace_file_owned_errors_when_the_parent_directory_is_missing() {
    let mut dir = Directory::new(&[]);
    dir.exists = false;
    assert!(dir.replace(b"x").is_err());
}

#[test]
fn a_failed_preferences_rewrite_leaves_the_previous_file_intact() {
    for step in [ReplaceStep::WriteTemp, ReplaceStep::Rename] {
        let mut dir = Directory::new(&[(NAME, contents("names and all"))]);
        dir.broken = Some(step);
        let err = dir.replace(b"rewritten").unwrap_err();
        assert_eq!(err.message(TARGET), "No space left on device (os error 28)");
        assert_eq!(dir.entries[NAME], contents("names and all"));
        assert_eq!(dir.names(), [NAME], "the temporary file is gone");
    }
}

#[test]
fn a_path_without_a_file_name_cannot_be_replaced() {
    let refused = Replacement::start("/");
    assert_eq!(refused.step, ReplaceStep::Failed);
    assert_eq!(refused.fault.unwrap().message("/"), "/ has no file name");
}

#[test]
fn only_the_acting_user_is_looked_up() {
    let only = |uid: u32| if uid == 1000 { Some("/home/alice".to_string()) } else { panic!("{uid} was looked up") };
    assert_eq!(resolve_invoker(0, Some("1000"), Some("100"), only).unwrap().home, "/home/alice");
    let nobody = |uid: u32| -> Option<String> { panic!("{uid} was looked up") };
    assert!(resolve_invoker(1000, Some("1000"), Some("1000"), nobody).is_none());
    assert!(resolve_invoker(0, Some("0"), Some("0"), nobody).is_none());
    assert!(resolve_invoker(0, Some("1000"), Some("x"), nobody).is_none());
}
