//! Orders and sorting. `sort` is stable: entries that compare equal both
//! ways keep the order they came in.

use vstd::prelude::*;

use crate::text::to_chars;

verus! {

/// A total preorder with a test for it.
pub trait Ranked: Sized {
    spec fn le(self, other: Self) -> bool;

    fn is_le(&self, other: &Self) -> (r: bool)
        ensures
            r == self.le(*other),
    ;

    proof fn le_total(a: Self, b: Self)
        ensures
            a.le(b) || b.le(a),
    ;

    proof fn le_transitive(a: Self, b: Self, c: Self)
        requires
            a.le(b),
            b.le(c),
        ensures
            a.le(c),
    ;
}

/// Any two entries are comparable, and the order is transitive.
pub open spec fn is_order<A>(le: spec_fn(A, A) -> bool) -> bool {
    &&& forall|a: A, b: A| #[trigger] le(a, b) || le(b, a)
    &&& forall|a: A, b: A, c: A| #[trigger] le(a, b) && #[trigger] le(b, c) ==> le(a, c)
}

/// No entry stands before one that it must follow.
pub open spec fn is_sorted<A>(s: Seq<A>, le: spec_fn(A, A) -> bool) -> bool {
    forall|i: int, j: int| 0 <= i < j < s.len() ==> le(#[trigger] s[i], #[trigger] s[j])
}

/// `x` put in front of the first entry it may precede.
pub open spec fn insert_left<A>(s: Seq<A>, x: A, le: spec_fn(A, A) -> bool) -> Seq<A>
    decreases s.len(),
{
    if s.len() == 0 {
        seq![x]
    } else if le(x, s[0]) {
        seq![x] + s
    } else {
        seq![s[0]] + insert_left(s.skip(1), x, le)
    }
}

/// `s` in order, entries of equal rank as they stood.
pub open spec fn sorted_by<A>(s: Seq<A>, le: spec_fn(A, A) -> bool) -> Seq<A>
    decreases s.len(),
{
    if s.len() == 0 {
        s
    } else {
        insert_left(sorted_by(s.skip(1), le), s[0], le)
    }
}

/// The order of a ranked type.
pub open spec fn rank<T: Ranked>() -> spec_fn(T, T) -> bool {
    |a: T, b: T| a.le(b)
}

/// `s` in the order of its type.
pub open spec fn sorted<T: Ranked>(s: Seq<T>) -> Seq<T> {
    sorted_by(s, rank::<T>())
}

/// The order of a ranked type is an order.
pub proof fn lemma_rank<T: Ranked>()
    ensures
        is_order(rank::<T>()),
{
    let le = rank::<T>();
    assert forall|a: T, b: T| #[trigger] le(a, b) || le(b, a) by {
        T::le_total(a, b);
    }
    assert forall|a: T, b: T, c: T| #[trigger] le(a, b) && #[trigger] le(b, c) implies le(a, c) by {
        T::le_transitive(a, b, c);
    }
}

proof fn lemma_insert_left_at<T: Ranked>(s: Seq<T>, x: T, k: int)
    requires
        0 <= k <= s.len(),
        forall|j: int| 0 <= j < k ==> !x.le(#[trigger] s[j]),
        k < s.len() ==> x.le(s[k]),
    ensures
        insert_left(s, x, rank::<T>()) == s.insert(k, x),
    decreases s.len(),
{
    if s.len() == 0 {
        assert(s.insert(0, x) == seq![x]);
    } else if k == 0 {
        assert(s.insert(0, x) == seq![x] + s);
    } else {
        assert(!x.le(s[0]));
        let t = s.skip(1);
        assert forall|j: int| 0 <= j < k - 1 implies !x.le(#[trigger] t[j]) by {
            assert(t[j] == s[j + 1]);
        }
        lemma_insert_left_at(t, x, k - 1);
        assert(seq![s[0]] + t.insert(k - 1, x) == s.insert(k, x));
    }
}

proof fn lemma_insert_left<A>(s: Seq<A>, x: A, le: spec_fn(A, A) -> bool)
    requires
        is_order(le),
        is_sorted(s, le),
    ensures
        is_sorted(insert_left(s, x, le), le),
        insert_left(s, x, le).to_multiset() == s.to_multiset().insert(x),
        insert_left(s, x, le).len() == s.len() + 1,
    decreases s.len(),
{
    broadcast use vstd::seq_lib::group_to_multiset_ensures;

    if s.len() == 0 {
        assert(seq![x] == s.push(x));
    } else if le(x, s[0]) {
        assert(seq![x] + s == s.insert(0, x));
        vstd::seq_lib::to_multiset_insert(s, 0, x);
    } else {
        let t = s.skip(1);
        assert(le(s[0], x));
        lemma_insert_left(t, x, le);
        let r = insert_left(t, x, le);
        assert forall|j: int| 0 <= j < r.len() implies le(s[0], #[trigger] r[j]) by {
            assert(r.to_multiset().count(r[j]) > 0) by {
                assert(r.contains(r[j]));
            }
            if r[j] != x {
                assert(t.to_multiset().count(r[j]) > 0);
                assert(t.contains(r[j]));
                let k = choose|k: int| 0 <= k < t.len() && t[k] == r[j];
                assert(t[k] == s[k + 1]);
            }
        }
        assert(s == seq![s[0]] + t);
        assert(seq![s[0]] + t == t.insert(0, s[0]));
        assert(seq![s[0]] + r == r.insert(0, s[0]));
        vstd::seq_lib::to_multiset_insert(t, 0, s[0]);
        vstd::seq_lib::to_multiset_insert(r, 0, s[0]);
        assert(insert_left(s, x, le).to_multiset() =~= s.to_multiset().insert(x));
    }
}

/// Sorting puts the entries in order, and neither adds nor loses one.
pub proof fn lemma_sorted<A>(s: Seq<A>, le: spec_fn(A, A) -> bool)
    requires
        is_order(le),
    ensures
        is_sorted(sorted_by(s, le), le),
        sorted_by(s, le).to_multiset() == s.to_multiset(),
        sorted_by(s, le).len() == s.len(),
    decreases s.len(),
{
    broadcast use vstd::seq_lib::group_to_multiset_ensures;

    if s.len() > 0 {
        let t = s.skip(1);
        lemma_sorted(t, le);
        lemma_insert_left(sorted_by(t, le), s[0], le);
        assert(s == t.insert(0, s[0]));
        vstd::seq_lib::to_multiset_insert(t, 0, s[0]);
    }
}

/// What is sorted was there.
pub proof fn lemma_sorted_is_there<T: Ranked>(s: Seq<T>, k: int)
    requires
        0 <= k < sorted(s).len(),
    ensures
        exists|j: int| 0 <= j < s.len() && #[trigger] s[j] == sorted(s)[k],
{
    broadcast use vstd::seq_lib::group_to_multiset_ensures;

    lemma_rank::<T>();
    lemma_sorted(s, rank::<T>());
    let x = sorted(s)[k];
    assert(sorted(s).contains(x));
    assert(sorted(s).to_multiset().count(x) > 0);
    assert(s.to_multiset().count(x) > 0);
    assert(s.contains(x));
}

proof fn lemma_insert_mapped<A, B>(
    s: Seq<A>,
    x: A,
    le: spec_fn(A, A) -> bool,
    f: spec_fn(A) -> B,
    le_mapped: spec_fn(B, B) -> bool,
)
    requires
        forall|a: A, b: A| #[trigger] le(a, b) == le_mapped(f(a), f(b)),
    ensures
        insert_left(s, x, le).map_values(f) == insert_left(s.map_values(f), f(x), le_mapped),
    decreases s.len(),
{
    let m = s.map_values(f);
    if s.len() == 0 {
        assert(seq![x].map_values(f) == seq![f(x)]);
    } else if le(x, s[0]) {
        assert(m[0] == f(s[0]));
        assert((seq![x] + s).map_values(f) == seq![f(x)] + m);
    } else {
        let t = s.skip(1);
        assert(m[0] == f(s[0]));
        assert(!le(x, s[0]));
        assert(t.map_values(f) == m.skip(1));
        lemma_insert_mapped(t, x, le, f, le_mapped);
        let r = insert_left(t, x, le);
        assert((seq![s[0]] + r).map_values(f) == seq![f(s[0])] + r.map_values(f));
    }
}

/// Sorting commutes with a mapping that keeps the order.
pub proof fn lemma_sorted_mapped<A, B>(
    s: Seq<A>,
    le: spec_fn(A, A) -> bool,
    f: spec_fn(A) -> B,
    le_mapped: spec_fn(B, B) -> bool,
)
    requires
        forall|a: A, b: A| #[trigger] le(a, b) == le_mapped(f(a), f(b)),
    ensures
        sorted_by(s, le).map_values(f) == sorted_by(s.map_values(f), le_mapped),
    decreases s.len(),
{
    if s.len() > 0 {
        let t = s.skip(1);
        let m = s.map_values(f);
        assert(t.map_values(f) == m.skip(1));
        assert(m[0] == f(s[0]));
        lemma_sorted_mapped(t, le, f, le_mapped);
        lemma_insert_mapped(sorted_by(t, le), s[0], le, f, le_mapped);
    } else {
        assert(s.map_values(f) == Seq::<B>::empty());
    }
}

/// `v` in order.
pub fn sort<T: Ranked>(v: Vec<T>) -> (r: Vec<T>)
    ensures
        r@ == sorted(v@),
{
    let mut rest = v;
    let ghost all = v@;
    let mut r: Vec<T> = Vec::new();
    assert(all.take(all.len() as int) == all);
    assert(all.skip(all.len() as int) == Seq::<T>::empty());
    loop
        invariant
            all == v@,
            rest@ == all.take(rest@.len() as int),
            rest@.len() <= all.len(),
            r@ == sorted(all.skip(rest@.len() as int)),
        decreases rest@.len(),
    {
        match rest.pop() {
            None => {
                assert(all.skip(0) == all);
                return r;
            },
            Some(x) => {
                let mut k: usize = 0;
                while k < r.len() && !x.is_le(&r[k])
                    invariant
                        k <= r.len(),
                        forall|j: int| 0 <= j < k ==> !x.le(#[trigger] r@[j]),
                    decreases r.len() - k,
                {
                    k = k + 1;
                }
                proof {
                    let n = rest@.len() as int;
                    lemma_insert_left_at(r@, x, k as int);
                    assert(all.skip(n)[0] == x);
                    assert(all.skip(n).skip(1) == all.skip(n + 1));
                }
                r.insert(k, x);
            },
        }
    }
}


/// `a` stands strictly before `b` in the order of their characters.
pub open spec fn lex_lt(a: Seq<char>, b: Seq<char>) -> bool
    decreases a.len(),
{
    if b.len() == 0 {
        false
    } else if a.len() == 0 {
        true
    } else if a[0] != b[0] {
        a[0] < b[0]
    } else {
        lex_lt(a.skip(1), b.skip(1))
    }
}

/// `a` stands before `b`, or they are the same.
pub open spec fn lex_le(a: Seq<char>, b: Seq<char>) -> bool {
    a == b || lex_lt(a, b)
}

pub proof fn lemma_lex_irreflexive(a: Seq<char>)
    ensures
        !lex_lt(a, a),
    decreases a.len(),
{
    if a.len() > 0 {
        lemma_lex_irreflexive(a.skip(1));
    }
}

pub proof fn lemma_lex_total(a: Seq<char>, b: Seq<char>)
    ensures
        lex_lt(a, b) || lex_lt(b, a) || a == b,
    decreases a.len(),
{
    if a.len() == 0 || b.len() == 0 {
        assert(a.len() == b.len() ==> a == b);
    } else if a[0] == b[0] {
        lemma_lex_total(a.skip(1), b.skip(1));
        if a.skip(1) == b.skip(1) {
            assert(a == seq![a[0]] + a.skip(1));
            assert(b == seq![b[0]] + b.skip(1));
        }
    }
}

pub proof fn lemma_lex_transitive(a: Seq<char>, b: Seq<char>, c: Seq<char>)
    requires
        lex_lt(a, b),
        lex_lt(b, c),
    ensures
        lex_lt(a, c),
    decreases a.len(),
{
    if a.len() > 0 && a[0] == b[0] && b[0] == c[0] {
        lemma_lex_transitive(a.skip(1), b.skip(1), c.skip(1));
    }
}

/// Whether `a` stands strictly before `b`.
pub fn chars_lt(a: &Vec<char>, b: &Vec<char>) -> (r: bool)
    ensures
        r == lex_lt(a@, b@),
{
    let mut i: usize = 0;
    assert(a@.skip(0) == a@);
    assert(b@.skip(0) == b@);
    while i < a.len() && i < b.len()
        invariant
            i <= a.len(),
            i <= b.len(),
            lex_lt(a@, b@) == lex_lt(a@.skip(i as int), b@.skip(i as int)),
        decreases a.len() - i,
    {
        if a[i] != b[i] {
            return a[i] < b[i];
        }
        assert(a@.skip(i as int).skip(1) == a@.skip(i + 1));
        assert(b@.skip(i as int).skip(1) == b@.skip(i + 1));
        i = i + 1;
    }
    i < b.len()
}

/// Strings rank by their characters.
impl Ranked for String {
    open spec fn le(self, other: Self) -> bool {
        lex_le(self@, other@)
    }

    fn is_le(&self, other: &Self) -> (r: bool) {
        let a = to_chars(self.as_str());
        let b = to_chars(other.as_str());
        let r = !chars_lt(&b, &a);
        proof {
            lemma_lex_total(a@, b@);
            lemma_lex_irreflexive(a@);
            if lex_lt(a@, b@) && lex_lt(b@, a@) {
                lemma_lex_transitive(a@, b@, a@);
            }
        }
        r
    }

    proof fn le_total(a: Self, b: Self) {
        lemma_lex_total(a@, b@);
    }

    proof fn le_transitive(a: Self, b: Self, c: Self) {
        if a@ != b@ && b@ != c@ {
            lemma_lex_transitive(a@, b@, c@);
        }
    }
}

/// Small numbers rank by value.
impl Ranked for u8 {
    open spec fn le(self, other: Self) -> bool {
        self <= other
    }

    fn is_le(&self, other: &Self) -> (r: bool) {
        *self <= *other
    }

    proof fn le_total(a: Self, b: Self) {
    }

    proof fn le_transitive(a: Self, b: Self, c: Self) {
    }
}

} // verus!
