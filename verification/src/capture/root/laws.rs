//! What the output root promises of paths.

use vstd::prelude::*;

use crate::path::laws::{absolute, are_names, law_the_components_of_a_path_read_back};

use super::{ancestors, climbs, is_beneath};

verus! {

/// A path of names never climbs, and the directories on its way are its
/// fronts, the root first and the path itself last.
pub proof fn law_the_way_to_a_directory_is_its_fronts(names: Seq<Seq<char>>, i: int)
    requires
        are_names(names),
        0 <= i <= names.len(),
    ensures
        !climbs(absolute(names)),
        ancestors(absolute(names)).len() == names.len() + 1,
        ancestors(absolute(names))[i] == absolute(names.take(i)),
{
    law_the_components_of_a_path_read_back(names);
    let parts = seq![seq!['/']] + names;
    assert(!parts.contains(seq!['.', '.'])) by {
        assert forall|k: int| 0 <= k < parts.len() implies parts[k] != seq!['.', '.'] by {
            if k == 0 {
                assert(parts[0].len() == 1);
                assert(seq!['.', '.'].len() == 2);
            } else {
                assert(parts[k] == names[k - 1]);
            }
        }
    }
    let front = names.take(i);
    assert forall|k: int| 0 <= k < front.len() implies (#[trigger] front[k]).len() > 0 && !front[k].contains('/')
        && front[k] != seq!['.'] && front[k] != seq!['.', '.'] by {
        assert(front[k] == names[k]);
    }
    law_the_components_of_a_path_read_back(front);
    assert(parts.take(i + 1) =~= seq![seq!['/']] + front);
}

/// An entry lies beneath another when the other's path and a slash lead to it;
/// a name that only begins alike does not.
pub proof fn law_an_entry_lies_beneath_by_a_slash(other: Seq<char>, rest: Seq<char>)
    ensures
        is_beneath(other + "/"@ + rest, other),
        rest.len() > 0 && rest[0] != '/' ==> !is_beneath(other + rest, other),
        !is_beneath(other, other),
{
    reveal_strlit("/");
    let p = other + "/"@;
    assert((other + "/"@ + rest).take(p.len() as int) =~= p);
    if rest.len() > 0 && rest[0] != '/' && is_beneath(other + rest, other) {
        assert((other + rest).take(p.len() as int)[other.len() as int] == rest[0]);
        assert(p[other.len() as int] == '/');
    }
}

} // verus!
