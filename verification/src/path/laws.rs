//! What paths promise: their components read back, and one lies within
//! another exactly when its components start with the other's.

use vstd::prelude::*;

use crate::text::{join_with, lemma_split_front, lemma_split_of_join, split_on};

use super::{
    below, is_component, is_rooted, joined, kept_pieces, lies_within, name_of, parent_parts, parts_of, path_text,
    resolved, root_part, up_part,
};

verus! {

/// Whether every one of some names may stand between slashes: it is not
/// empty, holds no slash, and neither stays nor steps up.
pub open spec fn are_names(names: Seq<Seq<char>>) -> bool {
    forall|i: int|
        0 <= i < names.len() ==> (#[trigger] names[i]).len() > 0 && !names[i].contains('/') && names[i] != seq!['.']
            && names[i] != seq!['.', '.']
}

/// The absolute path that leads through some names.
pub open spec fn absolute(names: Seq<Seq<char>>) -> Seq<char> {
    seq!['/'] + join_with(names, seq!['/'])
}

proof fn lemma_kept(pieces: Seq<Seq<char>>)
    requires
        pieces.len() > 0,
        pieces[0].len() == 0,
        are_names(pieces.skip(1)),
    ensures
        kept_pieces(pieces, true) == pieces.skip(1),
    decreases pieces.len(),
{
    if pieces.len() == 1 {
        assert(pieces.drop_last() =~= Seq::<Seq<char>>::empty());
        assert(kept_pieces(pieces.drop_last(), true) =~= Seq::<Seq<char>>::empty());
        assert(pieces.skip(1) =~= Seq::<Seq<char>>::empty());
    } else {
        let front = pieces.drop_last();
        assert(front.skip(1) =~= pieces.skip(1).drop_last());
        assert forall|i: int| 0 <= i < front.skip(1).len() implies (#[trigger] front.skip(1)[i]).len() > 0
            && !front.skip(1)[i].contains('/') && front.skip(1)[i] != seq!['.'] && front.skip(1)[i] != seq![
            '.',
            '.',
        ] by {
            assert(front.skip(1)[i] == pieces.skip(1)[i]);
        }
        lemma_kept(front);
        let last = pieces.skip(1)[pieces.len() - 2];
        assert(last == pieces.last());
        assert(is_component(pieces.last(), pieces.len() - 1, true));
        assert(pieces.skip(1) =~= front.skip(1).push(pieces.last()));
    }
}

/// The components of an absolute path are the root and its names, and those
/// components write the path again.
pub proof fn law_the_components_of_a_path_read_back(names: Seq<Seq<char>>)
    requires
        are_names(names),
    ensures
        parts_of(absolute(names)) == seq![seq!['/']] + names,
        path_text(seq![seq!['/']] + names) == absolute(names),
{
    let s = absolute(names);
    let parts = seq![root_part()] + names;
    assert(parts.skip(1) =~= names);
    assert(s[0] == '/');
    if names.len() == 0 {
        assert(join_with(names, seq!['/']).len() == 0);
        let empty = Seq::<char>::empty();
        assert(s =~= empty.push('/') + empty);
        lemma_split_front(empty, empty, '/');
        crate::text::lemma_split_single(empty, '/');
        let pieces = split_on(s, '/');
        assert(pieces =~= seq![empty, empty]);
        assert(pieces.drop_last() =~= seq![empty]);
        assert(seq![empty].drop_last() =~= Seq::<Seq<char>>::empty());
        assert(kept_pieces(seq![empty].drop_last(), true) =~= Seq::<Seq<char>>::empty());
        assert(kept_pieces(seq![empty], true) =~= Seq::<Seq<char>>::empty());
        assert(kept_pieces(pieces, true) =~= names);
    } else {
        let empty = Seq::<char>::empty();
        let rest = join_with(names, seq!['/']);
        assert(s =~= empty.push('/') + rest);
        lemma_split_front(empty, rest, '/');
        assert forall|i: int| 0 <= i < names.len() implies !(#[trigger] names[i]).contains('/') by {}
        lemma_split_of_join(names, '/');
        let pieces = split_on(s, '/');
        assert(pieces =~= seq![empty] + names);
        assert(pieces.skip(1) =~= names);
        lemma_kept(pieces);
    }
}

proof fn lemma_resolved_plain(names: Seq<Seq<char>>)
    requires
        are_names(names),
    ensures
        resolved(seq![root_part()] + names) == seq![root_part()] + names,
    decreases names.len(),
{
    let parts = seq![root_part()] + names;
    if names.len() == 0 {
        assert(parts =~= seq![root_part()]);
        assert(parts.drop_last() =~= Seq::<Seq<char>>::empty());
        assert(root_part() != up_part()) by {
            assert(root_part().len() == 1 && up_part().len() == 2);
        }
        assert(root_part()[0] != super::here_part()[0]);
    } else {
        let front = names.drop_last();
        assert forall|i: int| 0 <= i < front.len() implies (#[trigger] front[i]).len() > 0 && !front[i].contains('/')
            && front[i] != seq!['.'] && front[i] != seq!['.', '.'] by {
            assert(front[i] == names[i]);
        }
        lemma_resolved_plain(front);
        assert(parts.drop_last() =~= seq![root_part()] + front);
        let last = names[names.len() - 1];
        assert(parts.last() == last);
        assert(last != root_part()) by {
            if last == root_part() {
                assert(last[0] == '/');
            }
        }
        assert(parts =~= (seq![root_part()] + front).push(last));
    }
}

/// An absolute path lies within another exactly when its names start with the
/// other's: a directory whose name only begins alike is another directory.
pub proof fn law_a_path_lies_within_by_its_names(path: Seq<Seq<char>>, home: Seq<Seq<char>>)
    requires
        are_names(path),
        are_names(home),
    ensures
        lies_within(absolute(path), absolute(home)) <==> home.len() <= path.len() && forall|i: int|
            0 <= i < home.len() ==> #[trigger] path[i] == home[i],
{
    law_the_components_of_a_path_read_back(path);
    law_the_components_of_a_path_read_back(home);
    lemma_resolved_plain(path);
    lemma_resolved_plain(home);
    let p = seq![root_part()] + path;
    let h = seq![root_part()] + home;
    if lies_within(absolute(path), absolute(home)) {
        assert forall|i: int| 0 <= i < home.len() implies #[trigger] path[i] == home[i] by {
            assert(h[i + 1] == p[i + 1]);
        }
    }
    if home.len() <= path.len() && forall|i: int| 0 <= i < home.len() ==> #[trigger] path[i] == home[i] {
        assert(h =~= p.take(h.len() as int));
    }
}

/// A component that stays changes nothing, one that steps up takes the name
/// before it away, and stepping up at the root stays there.
pub proof fn law_stepping_up_takes_a_name_away(parts: Seq<Seq<char>>, name: Seq<char>)
    requires
        name != seq!['.'] && name != seq!['.', '.'] && name != seq!['/'],
    ensures
        resolved(parts.push(seq!['.'])) == resolved(parts),
        resolved(parts.push(name).push(seq!['.', '.'])) == resolved(parts),
        resolved(parts.push(name)) == resolved(parts).push(name),
        resolved(seq![seq!['/'], seq!['.', '.']]) == seq![seq!['/']],
{
    let here = seq!['.'];
    let up = seq!['.', '.'];
    assert(here.len() == 1 && up.len() == 2);
    assert(parts.push(here).drop_last() =~= parts);
    assert(parts.push(name).drop_last() =~= parts);
    assert(parts.push(name).push(up).drop_last() =~= parts.push(name));
    let r = resolved(parts).push(name);
    assert(r.drop_last() =~= resolved(parts));
    assert(resolved(parts.push(name)) == r);
    assert(r.last() == name && name != root_part());
    assert(parts.push(name).push(up).last() == up_part());
    assert(resolved(parts.push(name).push(up)) == r.drop_last());
    let root = seq![seq!['/']];
    let climb = seq![seq!['/'], up];
    assert(climb.drop_last() =~= root);
    assert(root.drop_last() =~= Seq::<Seq<char>>::empty());
    assert(seq!['/'][0] != here[0]);
    assert(seq!['/'].len() != up.len());
    assert(resolved(root) =~= root);
    assert(root.last() == root_part());
}

/// The last name of an absolute path, and the names above it.
pub proof fn law_a_path_has_a_name_and_a_parent(names: Seq<Seq<char>>, name: Seq<char>)
    requires
        are_names(names.push(name)),
    ensures
        name_of(absolute(names.push(name))) == Some(name),
        parent_parts(absolute(names.push(name))) == Some(seq![seq!['/']] + names),
        below(absolute(names.push(name)), absolute(names)) == Some(name),
{
    let all = names.push(name);
    assert(all[all.len() - 1] == name);
    assert forall|i: int| 0 <= i < names.len() implies (#[trigger] names[i]).len() > 0 && !names[i].contains('/')
        && names[i] != seq!['.'] && names[i] != seq!['.', '.'] by {
        assert(all[i] == names[i]);
    }
    law_the_components_of_a_path_read_back(all);
    law_the_components_of_a_path_read_back(names);
    let parts = seq![root_part()] + all;
    assert(parts.last() == name);
    assert(name != root_part()) by {
        if name == root_part() {
            assert(name[0] == '/');
        }
    }
    assert(parts.drop_last() =~= seq![root_part()] + names);
    let up = seq![root_part()] + names;
    assert(up =~= parts.take(up.len() as int));
    let rest = parts.skip(up.len() as int);
    assert(rest =~= seq![name]);
    assert(seq![name].drop_last() =~= Seq::<Seq<char>>::empty());
    assert(join_with(seq![name], seq!['/']) =~= name);
}

/// A name is put below a directory with one slash between them.
pub proof fn law_a_name_joins_below_its_directory(names: Seq<Seq<char>>, name: Seq<char>)
    requires
        names.len() > 0,
        are_names(names.push(name)),
    ensures
        joined(absolute(names), name) == absolute(names.push(name)),
{
    let all = names.push(name);
    assert(all.drop_last() =~= names);
    assert(all[all.len() - 1] == name);
    let last = names[names.len() - 1];
    assert(all[names.len() - 1] == last);
    let dir = absolute(names);
    assert(join_with(all, seq!['/']) == join_with(names, seq!['/']) + seq!['/'] + name);
    lemma_ends_with_its_last_name(names);
    assert(!is_rooted(name)) by {
        if is_rooted(name) {
            assert(name.contains(name[0]));
        }
    }
    assert(joined(dir, name) =~= absolute(all));
}

proof fn lemma_ends_with_its_last_name(names: Seq<Seq<char>>)
    requires
        names.len() > 0,
        names.last().len() > 0,
        !names.last().contains('/'),
    ensures
        absolute(names).len() > 1,
        absolute(names).last() != '/',
{
    let last = names.last();
    let text = join_with(names, seq!['/']);
    if names.len() == 1 {
        assert(names.drop_last() =~= Seq::<Seq<char>>::empty());
    }
    assert(text.len() >= last.len());
    assert(text.last() == last.last());
    assert(last.contains(last.last()));
}

} // verus!
