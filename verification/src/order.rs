//! Ordered collections: a set and a table kept in key order, and a stable sort.

use vstd::prelude::*;
use crate::text;

verus! {

/// The views of a list.
pub open spec fn views<T: View>(s: Seq<T>) -> Seq<T::V> {
    s.map_values(|t: T| t@)
}

/// A value whose view is totally ordered.
pub trait Key: View + Sized {
    /// `a` comes strictly before `b`.
    spec fn precedes(a: Self::V, b: Self::V) -> bool;

    proof fn lt_irreflexive(a: Self::V)
        ensures
            !Self::precedes(a, a),
    ;

    proof fn lt_transitive(a: Self::V, b: Self::V, c: Self::V)
        requires
            Self::precedes(a, b),
            Self::precedes(b, c),
        ensures
            Self::precedes(a, c),
    ;

    proof fn lt_total(a: Self::V, b: Self::V)
        ensures
            Self::precedes(a, b) || Self::precedes(b, a) || a == b,
    ;

    /// Whether this value comes before `other`.
    fn before(&self, other: &Self) -> (r: bool)
        ensures
            r == Self::precedes(self@, other@),
    ;

    /// Whether both values are the same.
    fn same(&self, other: &Self) -> (r: bool)
        ensures
            r == (self@ == other@),
    ;

    /// A copy of this value.
    fn copy(&self) -> (r: Self)
        ensures
            r@ == self@,
    ;
}

impl Key for String {
    open spec fn precedes(a: Seq<char>, b: Seq<char>) -> bool {
        text::earlier(a, b)
    }

    proof fn lt_irreflexive(a: Seq<char>) {
        text::lemma_earlier_irreflexive(a);
    }

    proof fn lt_transitive(a: Seq<char>, b: Seq<char>, c: Seq<char>) {
        text::lemma_earlier_transitive(a, b, c);
    }

    proof fn lt_total(a: Seq<char>, b: Seq<char>) {
        text::lemma_earlier_total(a, b);
    }

    fn before(&self, other: &Self) -> bool {
        text::comes_before(self.as_str(), other.as_str())
    }

    fn same(&self, other: &Self) -> bool {
        text::same(self.as_str(), other.as_str())
    }

    fn copy(&self) -> Self {
        self.clone()
    }
}

/// Each member of `s` comes strictly before those behind it.
pub open spec fn increasing<K: Key>(s: Seq<K::V>) -> bool {
    forall|i: int, j: int| 0 <= i < j < s.len() ==> K::precedes(#[trigger] s[i], #[trigger] s[j])
}

/// Two increasing lists with the same members are the same list.
pub proof fn lemma_increasing_unique<K: Key>(a: Seq<K::V>, b: Seq<K::V>)
    requires
        increasing::<K>(a),
        increasing::<K>(b),
        forall|x: K::V| a.contains(x) <==> b.contains(x),
    ensures
        a == b,
    decreases a.len(),
{
    if a.len() == 0 {
        if b.len() > 0 {
            assert(b.contains(b[0]));
        }
        assert(a =~= b);
    } else {
        assert(a.contains(a[0]));
        let j = choose|j: int| 0 <= j < b.len() && b[j] == a[0];
        assert(b.contains(b[0]));
        let i = choose|i: int| 0 <= i < a.len() && a[i] == b[0];
        if j > 0 {
            K::lt_irreflexive(a[0]);
            K::lt_irreflexive(b[0]);
            if i > 0 {
                K::lt_transitive(b[0], b[j], a[i]);
            }
            assert(K::precedes(b[0], b[j]));
            assert(false);
        }
        assert(a[0] == b[0]);
        let a1 = a.skip(1);
        let b1 = b.skip(1);
        assert forall|x: K::V| a1.contains(x) <==> b1.contains(x) by {
            if a1.contains(x) {
                let k = choose|k: int| 0 <= k < a1.len() && a1[k] == x;
                assert(a[k + 1] == x);
                assert(b.contains(x));
                let m = choose|m: int| 0 <= m < b.len() && b[m] == x;
                if m == 0 {
                    K::lt_irreflexive(x);
                    assert(K::precedes(a[0], a[k + 1]));
                }
                assert(b1[m - 1] == x);
            }
            if b1.contains(x) {
                let k = choose|k: int| 0 <= k < b1.len() && b1[k] == x;
                assert(b[k + 1] == x);
                assert(a.contains(x));
                let m = choose|m: int| 0 <= m < a.len() && a[m] == x;
                if m == 0 {
                    K::lt_irreflexive(x);
                    assert(K::precedes(b[0], b[k + 1]));
                }
                assert(a1[m - 1] == x);
            }
        }
        lemma_increasing_unique::<K>(a1, b1);
        assert(a =~= seq![a[0]] + a1);
        assert(b =~= seq![b[0]] + b1);
    }
}

/// Not coming after is transitive.
pub proof fn lemma_not_after_transitive<K: Key>(a: K::V, b: K::V, c: K::V)
    requires
        !K::precedes(b, a),
        !K::precedes(c, b),
    ensures
        !K::precedes(c, a),
{
    if K::precedes(c, a) {
        K::lt_total(a, b);
        K::lt_total(b, c);
        if K::precedes(a, b) {
            K::lt_transitive(c, a, b);
        }
    }
}

/// Of two keys, one does not come after the other.
pub proof fn lemma_not_after_total<K: Key>(a: K::V, b: K::V)
    ensures
        !K::precedes(b, a) || !K::precedes(a, b),
{
    if K::precedes(a, b) && K::precedes(b, a) {
        K::lt_transitive(a, b, a);
        K::lt_irreflexive(a);
    }
}

// ---------------------------------------------------------------------------
// Sets
// ---------------------------------------------------------------------------

/// A set of keys, held in increasing order.
pub struct KeySet<K> {
    pub items: Vec<K>,
}

impl<K: Key> View for KeySet<K> {
    type V = Seq<K::V>;

    open spec fn view(&self) -> Seq<K::V> {
        views(self.items@)
    }
}

impl<K: Key> KeySet<K> {
    /// The members are in order and none occurs twice.
    pub open spec fn wf(self) -> bool {
        increasing::<K>(self@)
    }

    /// The empty set.
    pub fn new() -> (r: Self)
        ensures
            r.wf(),
            r@ == Seq::<K::V>::empty(),
    {
        let r = KeySet { items: Vec::new() };
        assert(r@ =~= Seq::<K::V>::empty());
        r
    }

    /// How many members there are.
    pub fn len(&self) -> (r: usize)
        ensures
            r == self@.len(),
    {
        self.items.len()
    }

    /// Whether there are no members.
    pub fn is_empty(&self) -> (r: bool)
        ensures
            r == (self@.len() == 0),
    {
        self.items.len() == 0
    }

    /// Whether `key` is a member.
    pub fn contains(&self, key: &K) -> (r: bool)
        ensures
            r == self@.contains(key@),
    {
        let mut i: usize = 0;
        while i < self.items.len()
            invariant
                i <= self.items@.len(),
                forall|k: int| 0 <= k < i ==> (#[trigger] self@[k]) != key@,
            decreases self.items@.len() - i,
        {
            assert(self@[i as int] == self.items@[i as int]@);
            if self.items[i].same(key) {
                return true;
            }
            i += 1;
        }
        false
    }

    /// Adds `key`, in its place.
    pub fn insert(&mut self, key: K)
        requires
            old(self).wf(),
        ensures
            final(self).wf(),
            forall|x: K::V| #[trigger]
                final(self)@.contains(x) <==> old(self)@.contains(x) || x == key@,
    {
        let ghost before = self@;
        let ghost k = key@;
        let mut p: usize = 0;
        while p < self.items.len() && self.items[p].before(&key)
            invariant
                p <= self.items@.len(),
                k == key@,
                before == self@,
                *self == *old(self),
                forall|i: int| 0 <= i < p ==> K::precedes(#[trigger] before[i], k),
            decreases self.items@.len() - p,
        {
            assert(before[p as int] == self.items@[p as int]@);
            p += 1;
        }
        if p < self.items.len() && self.items[p].same(&key) {
            assert(before[p as int] == k);
            assert forall|x: K::V| #[trigger] self@.contains(x) <==> before.contains(x) || x == k by {
                if x == k {
                    assert(self@[p as int] == k);
                }
            }
            return;
        }
        self.items.insert(p, key);
        proof {
            let after = self@;
            assert(after =~= before.insert(p as int, k));
            if p < before.len() {
                K::lt_total(before[p as int], k);
                assert(K::precedes(k, before[p as int]));
            }
            assert forall|i: int, j: int| 0 <= i < j < after.len() implies K::precedes(
                #[trigger] after[i],
                #[trigger] after[j],
            ) by {
                if i == p {
                    if j - 1 > p {
                        K::lt_transitive(k, before[p as int], before[j - 1]);
                    }
                }
            }
            assert forall|x: K::V| #[trigger] after.contains(x) <==> before.contains(x) || x == k by {
                if before.contains(x) {
                    let i = choose|i: int| 0 <= i < before.len() && before[i] == x;
                    assert(after[if i < p { i } else { i + 1 }] == x);
                }
                if x == k {
                    assert(after[p as int] == k);
                }
                if after.contains(x) {
                    let i = choose|i: int| 0 <= i < after.len() && after[i] == x;
                    if i < p {
                        assert(before[i] == x);
                    } else if i > p {
                        assert(before[i - 1] == x);
                    }
                }
            }
        }
    }

    /// A copy of the set.
    pub fn copy(&self) -> (r: Self)
        ensures
            r@ == self@,
    {
        let mut items: Vec<K> = Vec::new();
        let mut i: usize = 0;
        while i < self.items.len()
            invariant
                i <= self.items@.len(),
                views(items@) == self@.take(i as int),
            decreases self.items@.len() - i,
        {
            let ghost before = views(items@);
            items.push(self.items[i].copy());
            assert(views(items@) =~= before.push(self@[i as int]));
            assert(self@.take(i as int + 1) =~= self@.take(i as int).push(self@[i as int]));
            i += 1;
        }
        assert(self@.take(self@.len() as int) =~= self@);
        KeySet { items }
    }
}

// ---------------------------------------------------------------------------
// Tables
// ---------------------------------------------------------------------------

/// A table from keys to values, held in increasing order of its keys.
pub struct Table<K, T> {
    pub entries: Vec<(K, T)>,
}

/// The value that a list of entries holds for `k`.
pub open spec fn lookup<A, T>(s: Seq<(A, T)>, k: A) -> Option<T>
    decreases s.len(),
{
    if s.len() == 0 {
        None
    } else if s.last().0 == k {
        Some(s.last().1)
    } else {
        lookup(s.drop_last(), k)
    }
}

/// The keys of a list of entries.
pub open spec fn keys<A, T>(s: Seq<(A, T)>) -> Seq<A> {
    s.map_values(|e: (A, T)| e.0)
}

proof fn lemma_lookup_member<K: Key, T>(s: Seq<(K::V, T)>, k: K::V)
    requires
        increasing::<K>(keys(s)),
    ensures
        lookup(s, k) is Some ==> s.contains((k, lookup(s, k)->0)),
        forall|v: T| #[trigger] s.contains((k, v)) ==> lookup(s, k) == Some(v),
        lookup(s, k) is Some <==> keys(s).contains(k),
    decreases s.len(),
{
    if s.len() > 0 {
        let r = s.drop_last();
        assert(keys(r) =~= keys(s).drop_last());
        lemma_lookup_member::<K, T>(r, k);
        if s.last().0 == k {
            assert(s[s.len() - 1] == (k, s.last().1));
            assert(keys(s)[s.len() - 1] == k);
            assert forall|v: T| #[trigger] s.contains((k, v)) implies lookup(s, k) == Some(v) by {
                let i = choose|i: int| 0 <= i < s.len() && s[i] == (k, v);
                if i < s.len() - 1 {
                    K::lt_irreflexive(k);
                    assert(K::precedes(keys(s)[i], keys(s)[s.len() - 1]));
                }
            }
        } else {
            if lookup(r, k) is Some {
                let i = choose|i: int| 0 <= i < r.len() && r[i] == (k, lookup(r, k)->0);
                assert(s[i] == r[i]);
                assert(keys(s)[i] == k);
            }
            assert forall|v: T| #[trigger] s.contains((k, v)) implies lookup(s, k) == Some(v) by {
                let i = choose|i: int| 0 <= i < s.len() && s[i] == (k, v);
                assert(i < r.len());
                assert(r[i] == (k, v));
                assert(r.contains((k, v)));
            }
            if keys(s).contains(k) {
                let i = choose|i: int| 0 <= i < s.len() && keys(s)[i] == k;
                assert(keys(r)[i] == k);
            }
        }
    }
}

impl<K: Key, T> View for Table<K, T> {
    type V = Seq<(K::V, T)>;

    open spec fn view(&self) -> Seq<(K::V, T)> {
        self.entries@.map_values(|e: (K, T)| (e.0@, e.1))
    }
}

impl<K: Key, T> Table<K, T> {
    /// The keys are in order and none occurs twice.
    pub open spec fn wf(self) -> bool {
        increasing::<K>(keys(self@))
    }

    /// The empty table.
    pub fn new() -> (r: Self)
        ensures
            r.wf(),
            r@ == Seq::<(K::V, T)>::empty(),
    {
        let r = Table { entries: Vec::new() };
        assert(r@ =~= Seq::<(K::V, T)>::empty());
        r
    }

    /// How many entries there are.
    pub fn len(&self) -> (r: usize)
        ensures
            r == self@.len(),
    {
        self.entries.len()
    }

    /// The value held for `key`.
    pub fn get(&self, key: &K) -> (r: Option<&T>)
        ensures
            match r {
                Some(v) => lookup(self@, key@) == Some(*v),
                None => lookup(self@, key@) is None,
            },
    {
        let mut i: usize = self.entries.len();
        assert(self@.take(i as int) =~= self@);
        while i > 0
            invariant
                i <= self.entries@.len(),
                lookup(self@, key@) == lookup(self@.take(i as int), key@),
            decreases i,
        {
            assert(self@.take(i as int).drop_last() =~= self@.take(i - 1));
            assert(self@[i - 1] == (self.entries@[i - 1].0@, self.entries@[i - 1].1));
            if self.entries[i - 1].0.same(key) {
                return Some(&self.entries[i - 1].1);
            }
            i -= 1;
        }
        None
    }

    /// Holds `value` for `key`, in place of what was held before.
    pub fn put(&mut self, key: K, value: T)
        requires
            old(self).wf(),
        ensures
            final(self).wf(),
            forall|k: K::V|
                #[trigger]
                lookup(final(self)@, k) == if k == key@ {
                    Some(value)
                } else {
                    lookup(old(self)@, k)
                },
            forall|k: K::V| #[trigger]
                keys(final(self)@).contains(k) <==> keys(old(self)@).contains(k) || k == key@,
    {
        let ghost before = self@;
        let ghost k0 = key@;
        let mut p: usize = 0;
        while p < self.entries.len() && self.entries[p].0.before(&key)
            invariant
                p <= self.entries@.len(),
                k0 == key@,
                before == self@,
                *self == *old(self),
                forall|i: int| 0 <= i < p ==> K::precedes(#[trigger] keys(before)[i], k0),
            decreases self.entries@.len() - p,
        {
            assert(keys(before)[p as int] == self.entries@[p as int].0@);
            p += 1;
        }
        if p < self.entries.len() && self.entries[p].0.same(&key) {
            assert(before[p as int] == (self.entries@[p as int].0@, self.entries@[p as int].1));
            self.entries.remove(p);
            self.entries.insert(p, (key, value));
            proof {
                assert(self@ =~= before.update(p as int, (k0, value)));
                assert(keys(self@) =~= keys(before));
                lemma_put::<K, T>(before, self@, p as int, k0, value);
            }
            return;
        }
        self.entries.insert(p, (key, value));
        proof {
            let after = self@;
            assert(after =~= before.insert(p as int, (k0, value)));
            let ka = keys(after);
            let kb = keys(before);
            assert(ka =~= kb.insert(p as int, k0));
            if p < before.len() {
                K::lt_total(kb[p as int], k0);
                assert(K::precedes(k0, kb[p as int]));
            }
            assert forall|i: int, j: int| 0 <= i < j < ka.len() implies K::precedes(
                #[trigger] ka[i],
                #[trigger] ka[j],
            ) by {
                if i == p {
                    if j - 1 > p {
                        K::lt_transitive(k0, kb[p as int], kb[j - 1]);
                    }
                }
            }
            lemma_put::<K, T>(before, after, p as int, k0, value);
        }
    }
}

/// A table that differs from another by one entry looks up the same elsewhere.
proof fn lemma_put<K: Key, T>(
    before: Seq<(K::V, T)>,
    after: Seq<(K::V, T)>,
    p: int,
    key: K::V,
    value: T,
)
    requires
        increasing::<K>(keys(before)),
        increasing::<K>(keys(after)),
        (0 <= p < before.len() && before[p].0 == key && after == before.update(p, (key, value)))
            || (0 <= p <= before.len() && after == before.insert(p, (key, value))),
    ensures
        forall|k: K::V|
            #[trigger]
            lookup(after, k) == if k == key {
                Some(value)
            } else {
                lookup(before, k)
            },
        forall|k: K::V| #[trigger]
            keys(after).contains(k) <==> keys(before).contains(k) || k == key,
{
    assert forall|k: K::V|
        #[trigger]
        lookup(after, k) == if k == key {
            Some(value)
        } else {
            lookup(before, k)
        } by {
        lemma_lookup_member::<K, T>(after, k);
        lemma_lookup_member::<K, T>(before, k);
        if k == key {
            assert(after[p] == (key, value));
            assert(after.contains((key, value)));
        } else {
            if lookup(before, k) is Some {
                let v = lookup(before, k)->0;
                let i = choose|i: int| 0 <= i < before.len() && before[i] == (k, v);
                if after == before.update(p, (key, value)) && before[p].0 == key {
                    assert(after[i] == (k, v));
                } else {
                    assert(after[if i < p { i } else { i + 1 }] == (k, v));
                }
                assert(after.contains((k, v)));
            }
            if lookup(after, k) is Some {
                let v = lookup(after, k)->0;
                let i = choose|i: int| 0 <= i < after.len() && after[i] == (k, v);
                if after == before.update(p, (key, value)) && before[p].0 == key {
                    assert(before[i] == (k, v));
                } else {
                    assert(before[if i < p { i } else { i - 1 }] == (k, v));
                }
                assert(before.contains((k, v)));
            }
        }
    }
    assert forall|k: K::V| #[trigger]
        keys(after).contains(k) <==> keys(before).contains(k) || k == key by {
        lemma_lookup_member::<K, T>(after, k);
        lemma_lookup_member::<K, T>(before, k);
        assert(lookup(after, k) is Some <==> lookup(before, k) is Some || k == key);
    }
}

/// What a table holds for a key is what is looked up for it.
pub proof fn lemma_entry_lookup<K: Key, T>(s: Seq<(K::V, T)>, k: K::V)
    requires
        increasing::<K>(keys(s)),
    ensures
        lookup(s, k) is Some ==> s.contains((k, lookup(s, k)->0)),
        forall|v: T| #[trigger] s.contains((k, v)) ==> lookup(s, k) == Some(v),
{
    lemma_lookup_member::<K, T>(s, k);
}

// ---------------------------------------------------------------------------
// Counting by key
// ---------------------------------------------------------------------------

/// How many of a list of marks are `k`.
pub open spec fn marked<A>(marks: Seq<Option<A>>, k: A) -> nat
    decreases marks.len(),
{
    if marks.len() == 0 {
        0
    } else if marks.last() == Some(k) {
        marked(marks.drop_last(), k) + 1
    } else {
        marked(marks.drop_last(), k)
    }
}

/// How many of a list of marks are empty.
pub open spec fn unmarked<A>(marks: Seq<Option<A>>) -> nat
    decreases marks.len(),
{
    if marks.len() == 0 {
        0
    } else if marks.last() is None {
        unmarked(marks.drop_last()) + 1
    } else {
        unmarked(marks.drop_last())
    }
}

/// The numbers of a function, added up over the keys of a list.
pub open spec fn total_over<A>(ks: Seq<A>, f: spec_fn(A) -> nat) -> nat
    decreases ks.len(),
{
    if ks.len() == 0 {
        0
    } else {
        total_over(ks.drop_last(), f) + f(ks.last())
    }
}

/// The numbers of a function, added up over the values of a list of entries.
pub open spec fn total_in<A, T>(s: Seq<(A, T)>, f: spec_fn(T) -> nat) -> nat
    decreases s.len(),
{
    if s.len() == 0 {
        0
    } else {
        total_in(s.drop_last(), f) + f(s.last().1)
    }
}

/// A mark that occurs is counted.
pub proof fn lemma_marked<A>(marks: Seq<Option<A>>, i: int, k: A)
    requires
        0 <= i < marks.len(),
        marks[i] == Some(k),
    ensures
        marked(marks, k) > 0,
    decreases marks.len(),
{
    if i < marks.len() - 1 {
        assert(marks.drop_last()[i] == marks[i]);
        lemma_marked(marks.drop_last(), i, k);
    }
}

proof fn lemma_total_step<A>(ks: Seq<A>, marks: Seq<Option<A>>)
    requires
        ks.no_duplicates(),
        marks.len() > 0,
    ensures
        total_over(ks, |k: A| marked(marks, k)) == total_over(
            ks,
            |k: A| marked(marks.drop_last(), k),
        ) + if marks.last() is Some && ks.contains(marks.last()->0) {
            1nat
        } else {
            0
        },
    decreases ks.len(),
{
    if ks.len() > 0 {
        let front = ks.drop_last();
        assert(front.no_duplicates());
        lemma_total_step(front, marks);
        if marks.last() is Some {
            let k = marks.last()->0;
            if ks.contains(k) && !front.contains(k) {
                let i = choose|i: int| 0 <= i < ks.len() && ks[i] == k;
                if i < front.len() {
                    assert(front[i] == k);
                }
            }
            if front.contains(k) {
                let i = choose|i: int| 0 <= i < front.len() && front[i] == k;
                assert(ks[i] == k);
            }
            if ks.last() == k {
                assert(ks[ks.len() - 1] == k);
                if front.contains(k) {
                    let i = choose|i: int| 0 <= i < front.len() && front[i] == k;
                    assert(ks[i] == ks[ks.len() - 1]);
                }
            }
        }
    }
}

/// Marks counted by key, over keys that none is missing from, are all the marks but
/// the empty ones.
pub proof fn lemma_counted_by_key<A>(ks: Seq<A>, marks: Seq<Option<A>>)
    requires
        ks.no_duplicates(),
        forall|i: int|
            0 <= i < marks.len() && (#[trigger] marks[i]) is Some ==> ks.contains(marks[i]->0),
    ensures
        total_over(ks, |k: A| marked(marks, k)) + unmarked(marks) == marks.len(),
    decreases marks.len(),
{
    if marks.len() == 0 {
        lemma_total_zero(ks, marks);
    } else {
        let front = marks.drop_last();
        assert forall|i: int| 0 <= i < front.len() && (#[trigger] front[i]) is Some implies ks.contains(
            front[i]->0,
        ) by {
            assert(marks[i] == front[i]);
        }
        lemma_counted_by_key(ks, front);
        lemma_total_step(ks, marks);
        assert(marks[marks.len() - 1] == marks.last());
    }
}

proof fn lemma_total_zero<A>(ks: Seq<A>, marks: Seq<Option<A>>)
    requires
        marks.len() == 0,
    ensures
        total_over(ks, |k: A| marked(marks, k)) == 0,
    decreases ks.len(),
{
    if ks.len() > 0 {
        lemma_total_zero(ks.drop_last(), marks);
    }
}

/// Adding up over the values of a table is adding up over its keys.
pub proof fn lemma_total_by_key<A, T>(s: Seq<(A, T)>, f: spec_fn(T) -> nat, g: spec_fn(A) -> nat)
    requires
        forall|i: int| 0 <= i < s.len() ==> f((#[trigger] s[i]).1) == g(s[i].0),
    ensures
        total_in(s, f) == total_over(keys(s), g),
    decreases s.len(),
{
    if s.len() > 0 {
        let front = s.drop_last();
        assert forall|i: int| 0 <= i < front.len() implies f((#[trigger] front[i]).1) == g(front[i].0) by {
            assert(front[i] == s[i]);
        }
        lemma_total_by_key(front, f, g);
        assert(keys(s).drop_last() =~= keys(front));
        assert(keys(s).last() == s.last().0);
        assert(s[s.len() - 1] == s.last());
    }
}

/// The keys of a table occur once each, and are those that a lookup finds.
pub proof fn lemma_keys<K: Key, T>(s: Seq<(K::V, T)>)
    requires
        increasing::<K>(keys(s)),
    ensures
        keys(s).no_duplicates(),
        forall|k: K::V| (#[trigger] lookup(s, k)) is Some <==> keys(s).contains(k),
        forall|i: int|
            0 <= i < s.len() ==> lookup(s, (#[trigger] s[i]).0) == Some(s[i].1),
{
    assert forall|i: int, j: int| 0 <= i < keys(s).len() && 0 <= j < keys(s).len() && i
        != j implies keys(s)[i] != keys(s)[j] by {
        K::lt_irreflexive(keys(s)[i]);
        if i < j {
            assert(K::precedes(keys(s)[i], keys(s)[j]));
        } else {
            assert(K::precedes(keys(s)[j], keys(s)[i]));
        }
    }
    assert forall|k: K::V| (#[trigger] lookup(s, k)) is Some <==> keys(s).contains(k) by {
        lemma_lookup_member::<K, T>(s, k);
    }
    assert forall|i: int| 0 <= i < s.len() implies lookup(s, (#[trigger] s[i]).0) == Some(s[i].1) by {
        lemma_lookup_member::<K, T>(s, s[i].0);
        assert(s.contains((s[i].0, s[i].1)));
    }
}

// ---------------------------------------------------------------------------
// Sorting
// ---------------------------------------------------------------------------

/// A value with a rank, by which lists of it are sorted.
pub trait Ranked: View + Sized {
    /// `a` may stand in front of `b`.
    spec fn ranks(a: Self::V, b: Self::V) -> bool;

    proof fn le_total(a: Self::V, b: Self::V)
        ensures
            Self::ranks(a, b) || Self::ranks(b, a),
    ;

    proof fn le_transitive(a: Self::V, b: Self::V, c: Self::V)
        requires
            Self::ranks(a, b),
            Self::ranks(b, c),
        ensures
            Self::ranks(a, c),
    ;

    /// Whether this value may stand in front of `other`.
    fn may_precede(&self, other: &Self) -> (r: bool)
        ensures
            r == Self::ranks(self@, other@),
    ;
}

impl Ranked for String {
    open spec fn ranks(a: Seq<char>, b: Seq<char>) -> bool {
        !text::earlier(b, a)
    }

    proof fn le_total(a: Seq<char>, b: Seq<char>) {
        lemma_not_after_total::<String>(a, b);
    }

    proof fn le_transitive(a: Seq<char>, b: Seq<char>, c: Seq<char>) {
        lemma_not_after_transitive::<String>(a, b, c);
    }

    fn may_precede(&self, other: &Self) -> bool {
        !text::comes_before(other.as_str(), self.as_str())
    }
}

/// `s` with `x` put in front of the first member that it may precede.
pub open spec fn placed<T: Ranked>(x: T::V, s: Seq<T::V>) -> Seq<T::V>
    decreases s.len(),
{
    if s.len() == 0 {
        seq![x]
    } else if T::ranks(x, s[0]) {
        seq![x] + s
    } else {
        seq![s[0]] + placed::<T>(x, s.skip(1))
    }
}

/// `s` sorted by rank, members of one rank in the order in which they came.
pub open spec fn sorted<T: Ranked>(s: Seq<T::V>) -> Seq<T::V>
    decreases s.len(),
{
    if s.len() == 0 {
        s
    } else {
        placed::<T>(s[0], sorted::<T>(s.skip(1)))
    }
}

proof fn lemma_placed_at<T: Ranked>(x: T::V, s: Seq<T::V>, p: int)
    requires
        0 <= p <= s.len(),
        forall|i: int| 0 <= i < p ==> !T::ranks(x, #[trigger] s[i]),
        p < s.len() ==> T::ranks(x, s[p]),
    ensures
        placed::<T>(x, s) == s.insert(p, x),
    decreases s.len(),
{
    if s.len() == 0 {
        assert(s.insert(p, x) =~= seq![x]);
    } else if p == 0 {
        assert(s.insert(p, x) =~= seq![x] + s);
    } else {
        assert(!T::ranks(x, s[0]));
        assert forall|i: int| 0 <= i < p - 1 implies !T::ranks(x, #[trigger] s.skip(1)[i]) by {
            assert(s.skip(1)[i] == s[i + 1]);
        }
        lemma_placed_at::<T>(x, s.skip(1), p - 1);
        assert(s.insert(p, x) =~= seq![s[0]] + s.skip(1).insert(p - 1, x));
    }
}

/// Sorts a list by rank, keeping members of one rank in order.
pub fn sort_stable<T: Ranked>(v: Vec<T>) -> (r: Vec<T>)
    ensures
        views(r@) == sorted::<T>(views(v@)),
        r@.len() == v@.len(),
{
    let ghost all = views(v@);
    let mut rest = v;
    let mut out: Vec<T> = Vec::new();
    assert(all.skip(all.len() as int) =~= Seq::<T::V>::empty());
    assert(views(out@) =~= Seq::<T::V>::empty());
    while rest.len() > 0
        invariant
            views(rest@) == all.take(rest@.len() as int),
            rest@.len() <= all.len(),
            views(out@) == sorted::<T>(all.skip(rest@.len() as int)),
            out@.len() + rest@.len() == all.len(),
        decreases rest@.len(),
    {
        let ghost n = rest@.len() as int;
        let ghost done = views(out@);
        assert(views(rest@)[n - 1] == rest@[n - 1]@);
        let x = match rest.pop() {
            Some(x) => x,
            None => {
                return out;
            },
        };
        assert(views(rest@) =~= all.take(n - 1));
        assert(x@ == all[n - 1]);
        let ghost xv = x@;
        let mut p: usize = 0;
        while p < out.len() && !x.may_precede(&out[p])
            invariant
                p <= out@.len(),
                xv == x@,
                done == views(out@),
                forall|i: int| 0 <= i < p ==> !T::ranks(xv, #[trigger] done[i]),
            decreases out@.len() - p,
        {
            assert(done[p as int] == out@[p as int]@);
            p += 1;
        }
        proof {
            if p < done.len() {
                assert(done[p as int] == out@[p as int]@);
            }
            lemma_placed_at::<T>(xv, done, p as int);
            let tail = all.skip(n - 1);
            assert(tail[0] == xv);
            assert(tail.skip(1) =~= all.skip(n));
        }
        out.insert(p, x);
        assert(views(out@) =~= done.insert(p as int, xv));
    }
    assert(all.skip(0) =~= all);
    out
}

/// `s` never has a member in front of one that must precede it.
pub open spec fn in_order<T: Ranked>(s: Seq<T::V>) -> bool {
    forall|i: int, j: int| 0 <= i < j < s.len() ==> T::ranks(#[trigger] s[i], #[trigger] s[j])
}

/// The members of `s` that have the rank of `x`, in the order of `s`.
pub open spec fn peers<T: Ranked>(s: Seq<T::V>, x: T::V) -> Seq<T::V>
    decreases s.len(),
{
    if s.len() == 0 {
        s
    } else if T::ranks(x, s[0]) && T::ranks(s[0], x) {
        seq![s[0]] + peers::<T>(s.skip(1), x)
    } else {
        peers::<T>(s.skip(1), x)
    }
}

proof fn lemma_placed<T: Ranked>(x: T::V, s: Seq<T::V>)
    requires
        in_order::<T>(s),
    ensures
        in_order::<T>(placed::<T>(x, s)),
        forall|y: T::V| #[trigger]
            placed::<T>(x, s).contains(y) <==> s.contains(y) || y == x,
        forall|y: T::V| #[trigger]
            peers::<T>(placed::<T>(x, s), y) == peers::<T>(seq![x] + s, y),
        placed::<T>(x, s).to_multiset() == s.to_multiset().insert(x),
    decreases s.len(),
{
    broadcast use vstd::seq_lib::group_to_multiset_ensures;

    let r = placed::<T>(x, s);
    if s.len() == 0 {
        assert(r =~= seq![x] + s);
        assert(r =~= Seq::<T::V>::empty().push(x));
        assert(s =~= Seq::<T::V>::empty());
        assert(r[0] == x);
        assert forall|y: T::V| #[trigger] r.contains(y) <==> s.contains(y) || y == x by {}
    } else if T::ranks(x, s[0]) {
        assert forall|i: int, j: int| 0 <= i < j < r.len() implies T::ranks(
            #[trigger] r[i],
            #[trigger] r[j],
        ) by {
            if i == 0 {
                if j > 1 {
                    T::le_transitive(x, s[0], s[j - 1]);
                }
            }
        }
        assert forall|y: T::V| #[trigger] r.contains(y) <==> s.contains(y) || y == x by {
            assert(r[0] == x);
            if s.contains(y) {
                let i = choose|i: int| 0 <= i < s.len() && s[i] == y;
                assert(r[i + 1] == y);
            }
            if r.contains(y) {
                let i = choose|i: int| 0 <= i < r.len() && r[i] == y;
                if i > 0 {
                    assert(s[i - 1] == y);
                }
            }
        }
        assert(r =~= s.insert(0, x));
        s.insert_ensures(0, x);
    } else {
        T::le_total(x, s[0]);
        let t = s.skip(1);
        assert(in_order::<T>(t)) by {
            assert forall|i: int, j: int| 0 <= i < j < t.len() implies T::ranks(
                #[trigger] t[i],
                #[trigger] t[j],
            ) by {
                assert(t[i] == s[i + 1] && t[j] == s[j + 1]);
            }
        }
        lemma_placed::<T>(x, t);
        let q = placed::<T>(x, t);
        assert forall|y: T::V| #[trigger] r.contains(y) <==> s.contains(y) || y == x by {
            assert(r[0] == s[0]);
            if r.contains(y) {
                let i = choose|i: int| 0 <= i < r.len() && r[i] == y;
                if i > 0 {
                    assert(q[i - 1] == y);
                    assert(q.contains(y));
                    if t.contains(y) {
                        let k = choose|k: int| 0 <= k < t.len() && t[k] == y;
                        assert(s[k + 1] == y);
                    }
                }
            }
            if s.contains(y) || y == x {
                if y != x {
                    let i = choose|i: int| 0 <= i < s.len() && s[i] == y;
                    if i > 0 {
                        assert(t[i - 1] == y);
                        assert(t.contains(y));
                    }
                }
                assert(q.contains(y) <==> t.contains(y) || y == x);
                if q.contains(y) {
                    let k = choose|k: int| 0 <= k < q.len() && q[k] == y;
                    assert(r[k + 1] == y);
                }
            }
        }
        assert forall|i: int, j: int| 0 <= i < j < r.len() implies T::ranks(
            #[trigger] r[i],
            #[trigger] r[j],
        ) by {
            if i == 0 {
                assert(q[j - 1] == r[j]);
                assert(q.contains(r[j]));
                if t.contains(r[j]) {
                    let k = choose|k: int| 0 <= k < t.len() && t[k] == r[j];
                    assert(T::ranks(s[0], s[k + 1]));
                }
            } else {
                assert(q[i - 1] == r[i] && q[j - 1] == r[j]);
            }
        }
        assert forall|y: T::V| #[trigger] peers::<T>(r, y) == peers::<T>(seq![x] + s, y) by {
            assert(r.skip(1) =~= q);
            assert(r[0] == s[0]);
            assert((seq![x] + s).skip(1) =~= s);
            assert((seq![x] + s)[0] == x);
            assert((seq![x] + t).skip(1) =~= t);
            assert((seq![x] + t)[0] == x);
            assert(peers::<T>(q, y) == peers::<T>(seq![x] + t, y));
            let hx = T::ranks(y, x) && T::ranks(x, y);
            let hs = T::ranks(y, s[0]) && T::ranks(s[0], y);
            if hx && hs {
                T::le_transitive(x, y, s[0]);
            }
            assert(!(hx && hs));
            assert(peers::<T>(s, y) == if hs {
                seq![s[0]] + peers::<T>(t, y)
            } else {
                peers::<T>(t, y)
            });
            assert(peers::<T>(seq![x] + t, y) == if hx {
                seq![x] + peers::<T>(t, y)
            } else {
                peers::<T>(t, y)
            });
        }
        assert(r =~= q.insert(0, s[0]));
        q.insert_ensures(0, s[0]);
        assert(s =~= t.insert(0, s[0]));
        t.insert_ensures(0, s[0]);
        assert(r.to_multiset() =~= s.to_multiset().insert(x));
    }
}

/// A sorted list is in order, has the members of the list it came from, and
/// keeps those of one rank in the order in which they came.
pub proof fn lemma_sorted<T: Ranked>(s: Seq<T::V>)
    ensures
        in_order::<T>(sorted::<T>(s)),
        sorted::<T>(s).len() == s.len(),
        sorted::<T>(s).to_multiset() == s.to_multiset(),
        forall|y: T::V| #[trigger] sorted::<T>(s).contains(y) <==> s.contains(y),
        forall|y: T::V| #[trigger] peers::<T>(sorted::<T>(s), y) == peers::<T>(s, y),
    decreases s.len(),
{
    broadcast use vstd::seq_lib::group_to_multiset_ensures;

    if s.len() > 0 {
        let t = s.skip(1);
        lemma_sorted::<T>(t);
        let q = sorted::<T>(t);
        lemma_placed::<T>(s[0], q);
        assert(s =~= t.insert(0, s[0]));
        t.insert_ensures(0, s[0]);
        assert forall|y: T::V| #[trigger] sorted::<T>(s).contains(y) <==> s.contains(y) by {
            assert(sorted::<T>(s).contains(y) <==> q.contains(y) || y == s[0]);
            if t.contains(y) {
                let k = choose|k: int| 0 <= k < t.len() && t[k] == y;
                assert(s[k + 1] == y);
            }
            if s.contains(y) {
                let k = choose|k: int| 0 <= k < s.len() && s[k] == y;
                if k > 0 {
                    assert(t[k - 1] == y);
                }
            }
        }
        assert forall|y: T::V| #[trigger] peers::<T>(sorted::<T>(s), y) == peers::<T>(s, y) by {
            assert(peers::<T>(placed::<T>(s[0], q), y) == peers::<T>(seq![s[0]] + q, y));
            assert((seq![s[0]] + q).skip(1) =~= q);
            assert((seq![s[0]] + q)[0] == s[0]);
            assert(peers::<T>(q, y) == peers::<T>(t, y));
        }
        assert(sorted::<T>(s).len() == sorted::<T>(s).to_multiset().len());
        assert(s.len() == s.to_multiset().len());
    }
}

} // verus!
