//! What the configuration promises: whom a run acts for, and where its files
//! are.

use vstd::prelude::*;

use crate::number::{decimal, lemma_decimal_round_trip};
use crate::path::joined;
use crate::path::laws::{absolute, are_names, law_a_name_joins_below_its_directory};

use super::{acting_for, id_in, invoker_at, location, preferences_in};

verus! {

/// A run acts for another user exactly when it is root's and both ids that
/// `sudo` leaves are numbers, the user's not root's.
pub proof fn law_only_root_acts_for_another(euid: u32, sudo_uid: Option<&str>, sudo_gid: Option<&str>)
    ensures
        acting_for(euid, sudo_uid, sudo_gid) is Some <==> euid == 0 && id_in(sudo_uid) is Some && id_in(sudo_gid) is Some
            && id_in(sudo_uid) != Some(0nat),
        acting_for(euid, sudo_uid, sudo_gid) matches Some((uid, gid)) ==> uid != 0 && id_in(sudo_uid) == Some(
            uid as nat,
        ) && id_in(sudo_gid) == Some(gid as nat),
        sudo_uid is None || sudo_gid is None ==> acting_for(euid, sudo_uid, sudo_gid) is None,
{
}

/// An id is read from a text that writes it.
pub proof fn law_an_id_is_read_as_written(text: &str, n: nat)
    requires
        text@ == decimal(n),
        n <= u32::MAX,
    ensures
        id_in(Some(text)) == Some(n),
{
    lemma_decimal_round_trip(n);
}

/// The invoker has the ids it acts with and the home of the user database; an
/// empty home, or none, makes no invoker.
pub proof fn law_an_invoker_has_a_home(who: (u32, u32), home: Option<String>)
    ensures
        invoker_at(who, home) is Some <==> home is Some && (home->0)@.len() > 0,
        invoker_at(who, home) matches Some(i) ==> i.uid == who.0 && i.gid == who.1 && Some(i.home) == home,
{
}

/// A path that resolves lies where it resolves to, and one that does not yet
/// exist below its parent's real place.
pub proof fn law_a_path_lies_where_it_resolves(
    path: Seq<char>,
    canonical: Option<Seq<char>>,
    canonical_parent: Option<Seq<char>>,
)
    ensures
        canonical is Some ==> location(path, canonical, canonical_parent) == canonical,
        canonical is None && canonical_parent is None ==> location(path, canonical, canonical_parent) is None,
        canonical is None && canonical_parent is Some && crate::path::name_of(path) is Some && crate::path::parent_parts(
            path,
        ) is Some ==> location(path, canonical, canonical_parent) == Some(
            joined(canonical_parent->0, crate::path::name_of(path)->0),
        ),
{
}

/// The preferences of a home are the file `preferences.toml` of its directory
/// `.usbtop-ng`.
pub proof fn law_preferences_lie_below_the_home(home: Seq<Seq<char>>)
    requires
        home.len() > 0,
        are_names(home),
    ensures
        preferences_in(absolute(home)) == absolute(home.push(".usbtop-ng"@).push("preferences.toml"@)),
{
    reveal_strlit(".usbtop-ng");
    reveal_strlit("preferences.toml");
    let dir = home.push(".usbtop-ng"@);
    let file = dir.push("preferences.toml"@);
    assert(".usbtop-ng"@.len() == 10 && "preferences.toml"@.len() == 16);
    assert forall|i: int| 0 <= i < 10 implies ".usbtop-ng"@[i] != '/' by {}
    assert forall|i: int| 0 <= i < 16 implies "preferences.toml"@[i] != '/' by {}
    assert(are_names(dir)) by {
        assert forall|i: int| 0 <= i < dir.len() implies (#[trigger] dir[i]).len() > 0 && !dir[i].contains('/')
            && dir[i] != seq!['.'] && dir[i] != seq!['.', '.'] by {
            if i < home.len() {
                assert(dir[i] == home[i]);
            } else {
                assert(seq!['.'].len() == 1 && seq!['.', '.'].len() == 2);
            }
        }
    }
    assert(are_names(file)) by {
        assert forall|i: int| 0 <= i < file.len() implies (#[trigger] file[i]).len() > 0 && !file[i].contains('/')
            && file[i] != seq!['.'] && file[i] != seq!['.', '.'] by {
            if i < dir.len() {
                assert(file[i] == dir[i]);
            } else {
                assert(seq!['.'].len() == 1 && seq!['.', '.'].len() == 2);
            }
        }
    }
    law_a_name_joins_below_its_directory(home, ".usbtop-ng"@);
    law_a_name_joins_below_its_directory(dir, "preferences.toml"@);
}

} // verus!
