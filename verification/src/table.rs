//! Tables keyed by name and kept in name order.

use vstd::prelude::*;

use crate::order::{chars_lt, lemma_lex_irreflexive, lemma_lex_total, lemma_lex_transitive, lex_lt};
use crate::text::{chars_eq, to_chars};

verus! {

/// Values by name, in the order of the names; no name stands twice.
#[derive(Debug)]
pub struct NameTable<V> {
    entries: Vec<(String, V)>,
}

/// Each name stands strictly before the next.
pub open spec fn names_ascend(names: Seq<Seq<char>>) -> bool {
    forall|i: int, j: int| 0 <= i < j < names.len() ==> lex_lt(#[trigger] names[i], #[trigger] names[j])
}

/// The values of a list of named values, by name.
pub open spec fn by_name<V>(entries: Seq<(Seq<char>, V)>) -> Map<Seq<char>, V>
    decreases entries.len(),
{
    if entries.len() == 0 {
        Map::empty()
    } else {
        by_name(entries.drop_last()).insert(entries.last().0, entries.last().1)
    }
}

proof fn lemma_by_name<V>(entries: Seq<(Seq<char>, V)>)
    requires
        names_ascend(entries.map_values(|e: (Seq<char>, V)| e.0)),
    ensures
        forall|n: Seq<char>| #[trigger]
            by_name(entries).dom().contains(n) <==> exists|i: int| 0 <= i < entries.len() && (#[trigger] entries[i]).0 == n,
        forall|i: int|
            0 <= i < entries.len() ==> by_name(entries).dom().contains((#[trigger] entries[i]).0) && by_name(entries)[entries[i].0]
                == entries[i].1,
        by_name(entries).dom().finite(),
    decreases entries.len(),
{
    if entries.len() > 0 {
        let front = entries.drop_last();
        let names = entries.map_values(|e: (Seq<char>, V)| e.0);
        let front_names = front.map_values(|e: (Seq<char>, V)| e.0);
        assert(front_names == names.drop_last());
        lemma_by_name(front);
        let last = entries.last();
        assert forall|n: Seq<char>| #[trigger] by_name(entries).dom().contains(n) implies exists|i: int|
            0 <= i < entries.len() && (#[trigger] entries[i]).0 == n by {
            if n == last.0 {
                assert(entries[entries.len() - 1].0 == n);
            } else {
                assert(by_name(front).dom().contains(n));
                let i = choose|i: int| 0 <= i < front.len() && (#[trigger] front[i]).0 == n;
                assert(entries[i].0 == n);
            }
        }
        assert forall|i: int| 0 <= i < entries.len() implies by_name(entries).dom().contains((#[trigger] entries[i]).0)
            && by_name(entries)[entries[i].0] == entries[i].1 by {
            if i < entries.len() - 1 {
                assert(front[i] == entries[i]);
                assert(names[i] == entries[i].0);
                assert(names[entries.len() - 1] == last.0);
                assert(lex_lt(entries[i].0, last.0));
                lemma_lex_irreflexive(last.0);
            }
        }
    }
}

/// A table's map holds the names of its listing and their values.
pub proof fn lemma_members<V>(t: &NameTable<V>)
    ensures
        forall|n: Seq<char>| #[trigger]
            t@.dom().contains(n) ==> exists|i: int|
                0 <= i < t.pairs().len() && (#[trigger] t.pairs()[i]).0 == n && t@[n] == t.pairs()[i].1,
        forall|i: int| 0 <= i < t.pairs().len() ==> t@.dom().contains((#[trigger] t.pairs()[i]).0),
{
    lemma_by_name_members(t.pairs());
}

proof fn lemma_by_name_members<V>(entries: Seq<(Seq<char>, V)>)
    ensures
        forall|n: Seq<char>| #[trigger]
            by_name(entries).dom().contains(n) ==> exists|i: int|
                0 <= i < entries.len() && (#[trigger] entries[i]).0 == n && by_name(entries)[n] == entries[i].1,
        forall|i: int| 0 <= i < entries.len() ==> by_name(entries).dom().contains((#[trigger] entries[i]).0),
    decreases entries.len(),
{
    if entries.len() > 0 {
        let front = entries.drop_last();
        lemma_by_name_members(front);
        assert forall|n: Seq<char>| #[trigger] by_name(entries).dom().contains(n) implies exists|i: int|
            0 <= i < entries.len() && (#[trigger] entries[i]).0 == n && by_name(entries)[n] == entries[i].1 by {
            if n == entries.last().0 {
                assert(entries[entries.len() - 1].0 == n);
            } else {
                assert(by_name(front).dom().contains(n));
                let i = choose|i: int|
                    0 <= i < front.len() && (#[trigger] front[i]).0 == n && by_name(front)[n] == front[i].1;
                assert(entries[i] == front[i]);
            }
        }
        assert forall|i: int| 0 <= i < entries.len() implies by_name(entries).dom().contains((#[trigger] entries[i]).0) by {
            if i < entries.len() - 1 {
                assert(front[i] == entries[i]);
            }
        }
    }
}

impl<V> NameTable<V> {
    /// The named values in order.
    pub closed spec fn pairs(&self) -> Seq<(Seq<char>, V)> {
        self.entries@.map_values(|e: (String, V)| (e.0@, e.1))
    }

    /// The names in order.
    pub open spec fn names(&self) -> Seq<Seq<char>> {
        self.pairs().map_values(|e: (Seq<char>, V)| e.0)
    }

    #[verifier::type_invariant]
    closed spec fn in_order(&self) -> bool {
        names_ascend(self.names())
    }

    /// A table with nothing in it.
    pub fn new() -> (t: NameTable<V>)
        ensures
            t@ == Map::<Seq<char>, V>::empty(),
            t.pairs() == Seq::<(Seq<char>, V)>::empty(),
    {
        let t = NameTable { entries: Vec::new() };
        assert(t.pairs() == Seq::<(Seq<char>, V)>::empty());
        t
    }

    /// How many names the table holds.
    pub fn len(&self) -> (n: usize)
        ensures
            n == self.pairs().len(),
            names_ascend(self.names()),
    {
        proof {
            use_type_invariant(self);
        }
        self.entries.len()
    }

    /// The `i`th name and its value.
    pub fn at(&self, i: usize) -> (e: (&String, &V))
        requires
            i < self.pairs().len(),
        ensures
            (e.0@, *e.1) == self.pairs()[i as int],
            self@.dom().contains(e.0@),
            self@[e.0@] == *e.1,
    {
        proof {
            use_type_invariant(self);
            lemma_by_name(self.pairs());
        }
        let e = &self.entries[i];
        assert(self.pairs()[i as int].0 == e.0@);
        (&e.0, &e.1)
    }

    /// Where `name` stands, or where it would.
    fn position(&self, name: &Vec<char>) -> (r: (usize, bool))
        ensures
            r.0 <= self.pairs().len(),
            r.1 ==> r.0 < self.pairs().len() && self.pairs()[r.0 as int].0 == name@,
            forall|j: int| 0 <= j < r.0 ==> lex_lt((#[trigger] self.pairs()[j]).0, name@),
            !r.1 ==> forall|j: int| r.0 <= j < self.pairs().len() ==> lex_lt(name@, (#[trigger] self.pairs()[j]).0),
    {
        proof {
            use_type_invariant(self);
        }
        let ghost p = self.pairs();
        let mut i: usize = 0;
        while i < self.entries.len()
            invariant
                i <= self.entries@.len(),
                p == self.pairs(),
                p.len() == self.entries@.len(),
                names_ascend(self.names()),
                forall|j: int| 0 <= j < i ==> lex_lt((#[trigger] p[j]).0, name@),
            decreases self.entries.len() - i,
        {
            let here = to_chars(self.entries[i].0.as_str());
            assert(p[i as int].0 == here@);
            assert(self.names()[i as int] == here@);
            if !chars_lt(&here, name) {
                proof {
                    lemma_lex_total(here@, name@);
                }
                let found = chars_eq(&here, name);
                if !found {
                    assert forall|j: int| i <= j < p.len() implies lex_lt(name@, (#[trigger] p[j]).0) by {
                        assert(self.names()[j] == p[j].0);
                        if j > i {
                            lemma_lex_transitive(name@, here@, p[j].0);
                        }
                    }
                }
                return (i, found);
            }
            i = i + 1;
        }
        (i, false)
    }

    /// The value of `name`.
    pub fn get(&self, name: &str) -> (r: Option<&V>)
        ensures
            match r {
                Some(v) => self@.dom().contains(name@) && *v == self@[name@],
                None => !self@.dom().contains(name@),
            },
    {
        proof {
            use_type_invariant(self);
            lemma_by_name(self.pairs());
        }
        let key = to_chars(name);
        let (i, found) = self.position(&key);
        if found {
            assert(self.pairs()[i as int] == (self.entries@[i as int].0@, self.entries@[i as int].1));
            Some(&self.entries[i].1)
        } else {
            proof {
                if self@.dom().contains(name@) {
                    let j = choose|j: int| 0 <= j < self.pairs().len() && (#[trigger] self.pairs()[j]).0 == name@;
                    lemma_lex_irreflexive(name@);
                    assert(self.pairs()[j].0 == name@);
                }
            }
            None
        }
    }

    /// Whether the table holds `name`.
    pub fn contains(&self, name: &str) -> (r: bool)
        ensures
            r == self@.dom().contains(name@),
    {
        self.get(name).is_some()
    }

    /// Put `value` under `name`, in place of what stood there.
    pub fn insert(&mut self, name: String, value: V)
        ensures
            final(self)@ == old(self)@.insert(name@, value),
    {
        proof {
            use_type_invariant(&*self);
            lemma_by_name(self.pairs());
        }
        let key = to_chars(name.as_str());
        let (i, found) = self.position(&key);
        let ghost before = self.pairs();
        let mut entries: Vec<(String, V)> = Vec::new();
        std::mem::swap(&mut entries, &mut self.entries);
        let ghost prior = entries@;
        if found {
            entries.set(i, (name, value));
        } else {
            entries.insert(i, (name, value));
        }
        proof {
            let after = entries@.map_values(|e: (String, V)| (e.0@, e.1));
            let names = after.map_values(|e: (Seq<char>, V)| e.0);
            let old_names = before.map_values(|e: (Seq<char>, V)| e.0);
            if found {
                assert(after == before.update(i as int, (name@, value)));
                assert(names == old_names) by {
                    assert(before[i as int].0 == name@);
                    assert(names =~= old_names);
                }
            } else {
                assert(after == before.insert(i as int, (name@, value)));
                assert forall|a: int, b: int| 0 <= a < b < names.len() implies lex_lt(
                    #[trigger] names[a],
                    #[trigger] names[b],
                ) by {
                    let oa = if a < i { a } else { a - 1 };
                    let ob = if b < i { b } else { b - 1 };
                    if a != i {
                        assert(names[a] == old_names[oa]);
                        assert(before[oa].0 == old_names[oa]);
                    }
                    if b != i {
                        assert(names[b] == old_names[ob]);
                        assert(before[ob].0 == old_names[ob]);
                    }
                }
            }
            lemma_by_name(after);
            lemma_by_name(before);
            assert(by_name(after) =~= by_name(before).insert(name@, value)) by {
                assert forall|n: Seq<char>| by_name(after).dom().contains(n) <==> by_name(before).insert(
                    name@,
                    value,
                ).dom().contains(n) by {
                    if by_name(after).dom().contains(n) && n != name@ {
                        let k = choose|k: int| 0 <= k < after.len() && (#[trigger] after[k]).0 == n;
                        let o = if found || k < i { k } else { k - 1 };
                        assert(before[o].0 == n);
                    }
                    if by_name(before).dom().contains(n) && n != name@ {
                        let k = choose|k: int| 0 <= k < before.len() && (#[trigger] before[k]).0 == n;
                        let a = if found || k < i { k } else { k + 1 };
                        assert(after[a].0 == n);
                    }
                    assert(after[i as int].0 == name@);
                }
                assert forall|n: Seq<char>| by_name(after).dom().contains(n) implies by_name(after)[n] == by_name(
                    before,
                ).insert(name@, value)[n] by {
                    let k = choose|k: int| 0 <= k < after.len() && (#[trigger] after[k]).0 == n;
                    if n != name@ {
                        let o = if found || k < i { k } else { k - 1 };
                        assert(before[o] == after[k]);
                    } else {
                        assert(after[i as int].0 == n);
                    }
                }
            }
        }
        self.entries = entries;
    }
}

impl<V> View for NameTable<V> {
    type V = Map<Seq<char>, V>;

    closed spec fn view(&self) -> Map<Seq<char>, V> {
        by_name(self.pairs())
    }
}

} // verus!
