//! `LocMap`: a finite map keyed by `Loc`, kept in the order of its keys.
//!
//! An object's attributes and a basket's slots are such maps. Their view is
//! a `Map`; the order in which the entries are visited is a function of that
//! map alone, so that two maps with the same entries are visited, and
//! printed, alike whatever the order in which they were filled.

use crate::loc::Loc;
use vstd::prelude::*;

verus! {

/// The keys come in strictly ascending order.
pub open spec fn ascending<V>(s: Seq<(Loc, V)>) -> bool {
    forall|i: int, j: int| 0 <= i < j < s.len() ==> (#[trigger] s[i]).0.precedes((#[trigger] s[j]).0)
}

/// Some entry of `s` has the key `l`.
pub open spec fn has_key<V>(s: Seq<(Loc, V)>, l: Loc) -> bool {
    exists|i: int| 0 <= i < s.len() && (#[trigger] s[i]).0 == l
}

/// The place of the key `l` in `s`.
pub open spec fn place_of<V>(s: Seq<(Loc, V)>, l: Loc) -> int {
    choose|i: int| 0 <= i < s.len() && (#[trigger] s[i]).0 == l
}

/// The map that a sequence of entries stands for.
pub open spec fn as_map<V>(s: Seq<(Loc, V)>) -> Map<Loc, V> {
    Map::new(|l: Loc| has_key(s, l), |l: Loc| s[place_of(s, l)].1)
}

/// The entries of a map in the order of their keys.
pub open spec fn ordered<V>(m: Map<Loc, V>) -> Seq<(Loc, V)> {
    choose|s: Seq<(Loc, V)>| ascending(s) && as_map(s) == m
}

/// In an ascending sequence each entry is what the map holds under its key.
pub proof fn lemma_as_map_entry<V>(s: Seq<(Loc, V)>, i: int)
    requires
        ascending(s),
        0 <= i < s.len(),
    ensures
        as_map(s).dom().contains(s[i].0),
        as_map(s)[s[i].0] == s[i].1,
        place_of(s, s[i].0) == i,
{
    let l = s[i].0;
    assert(has_key(s, l));
    let p = place_of(s, l);
    if p < i {
        assert(s[p].0.precedes(s[i].0));
    } else if i < p {
        assert(s[i].0.precedes(s[p].0));
    }
}

/// The tail of an ascending sequence stands for the map without the first
/// key.
proof fn lemma_as_map_tail<V>(s: Seq<(Loc, V)>)
    requires
        ascending(s),
        s.len() > 0,
    ensures
        ascending(s.drop_first()),
        as_map(s.drop_first()) == as_map(s).remove(s[0].0),
{
    let t = s.drop_first();
    assert forall|i: int, j: int| 0 <= i < j < t.len() implies (#[trigger] t[i]).0.precedes(
        (#[trigger] t[j]).0,
    ) by {
        assert(t[i] == s[i + 1]);
        assert(t[j] == s[j + 1]);
    }
    let a = as_map(t);
    let b = as_map(s).remove(s[0].0);
    assert forall|l: Loc| a.dom().contains(l) == b.dom().contains(l) by {
        if has_key(t, l) {
            let i = place_of(t, l);
            assert(t[i] == s[i + 1]);
            assert(s[0].0.precedes(s[i + 1].0));
        }
        if has_key(s, l) && l != s[0].0 {
            let i = place_of(s, l);
            assert(t[i - 1] == s[i]);
        }
    }
    assert forall|l: Loc| a.dom().contains(l) implies a[l] == b[l] by {
        let i = place_of(t, l);
        assert(t[i] == s[i + 1]);
        lemma_as_map_entry(t, i);
        lemma_as_map_entry(s, i + 1);
    }
    assert(a =~= b);
}

/// Two ascending sequences that stand for one map are one sequence.
pub proof fn lemma_ascending_unique<V>(a: Seq<(Loc, V)>, b: Seq<(Loc, V)>)
    requires
        ascending(a),
        ascending(b),
        as_map(a) == as_map(b),
    ensures
        a == b,
    decreases a.len(),
{
    let m = as_map(a);
    if a.len() == 0 {
        if b.len() > 0 {
            lemma_as_map_entry(b, 0);
            assert(has_key(a, b[0].0));
        }
        assert(a =~= b);
    } else if b.len() == 0 {
        lemma_as_map_entry(a, 0);
        assert(has_key(b, a[0].0));
    } else {
        lemma_as_map_entry(a, 0);
        lemma_as_map_entry(b, 0);
        assert(has_key(b, a[0].0));
        assert(has_key(a, b[0].0));
        let j = place_of(b, a[0].0);
        let i = place_of(a, b[0].0);
        if i > 0 {
            assert(a[0].0.precedes(a[i].0));
            if j > 0 {
                assert(b[0].0.precedes(b[j].0));
            }
        }
        assert(a[0].0 == b[0].0);
        assert(a[0].1 == b[0].1);
        lemma_as_map_tail(a);
        lemma_as_map_tail(b);
        lemma_ascending_unique(a.drop_first(), b.drop_first());
        assert(a =~= seq![a[0]] + a.drop_first());
        assert(b =~= seq![b[0]] + b.drop_first());
    }
}

/// An ascending sequence is the ordered form of the map it stands for.
pub proof fn lemma_ordered<V>(s: Seq<(Loc, V)>)
    requires
        ascending(s),
    ensures
        ordered(as_map(s)) == s,
{
    let m = as_map(s);
    let t = ordered(m);
    assert(ascending(s) && as_map(s) == m);
    lemma_ascending_unique(s, t);
}

/// What stands for a map stands, value by value, for the map of the values.
pub proof fn lemma_ordered_values<V, W>(s: Seq<(Loc, V)>, f: spec_fn(V) -> W)
    requires
        ascending(s),
    ensures
        ordered(as_map(s).map_values(f)) == s.map_values(|e: (Loc, V)| (e.0, f(e.1))),
        ascending(s.map_values(|e: (Loc, V)| (e.0, f(e.1)))),
{
    let t = s.map_values(|e: (Loc, V)| (e.0, f(e.1)));
    assert forall|i: int, j: int| 0 <= i < j < t.len() implies (#[trigger] t[i]).0.precedes(
        (#[trigger] t[j]).0,
    ) by {
        assert(s[i].0.precedes(s[j].0));
    }
    let a = as_map(t);
    let b = as_map(s).map_values(f);
    assert forall|l: Loc| a.dom().contains(l) == b.dom().contains(l) by {
        if has_key(t, l) {
            let i = place_of(t, l);
            assert(s[i].0 == l);
        }
        if has_key(s, l) {
            let i = place_of(s, l);
            assert(t[i].0 == l);
        }
    }
    assert forall|l: Loc| a.dom().contains(l) implies a[l] == b[l] by {
        let i = place_of(t, l);
        lemma_as_map_entry(t, i);
        lemma_as_map_entry(s, i);
    }
    assert(a =~= b);
    lemma_ordered(t);
}

/// The ordered form of a map that some ascending sequence stands for holds
/// exactly the entries of the map.
pub proof fn lemma_ordered_covers<V>(s: Seq<(Loc, V)>)
    requires
        ascending(s),
    ensures
        ordered(as_map(s)) == s,
        forall|l: Loc| #[trigger] as_map(s).dom().contains(l) <==> has_key(s, l),
        forall|i: int|
            0 <= i < s.len() ==> as_map(s).dom().contains((#[trigger] s[i]).0) && as_map(
                s,
            )[s[i].0] == s[i].1,
{
    lemma_ordered(s);
    assert forall|i: int| 0 <= i < s.len() implies as_map(s).dom().contains((#[trigger] s[i]).0)
        && as_map(s)[s[i].0] == s[i].1 by {
        lemma_as_map_entry(s, i);
    }
}

/// Some ascending sequence stands for the map: it is the view of a `LocMap`.
pub open spec fn listable<V>(m: Map<Loc, V>) -> bool {
    exists|s: Seq<(Loc, V)>| ascending(s) && as_map(s) == m
}

/// The ordered form of a listable map holds exactly the entries of the map.
pub proof fn lemma_listable<V>(m: Map<Loc, V>)
    requires
        listable(m),
    ensures
        ascending(ordered(m)),
        as_map(ordered(m)) == m,
        forall|l: Loc| #[trigger] m.dom().contains(l) <==> has_key(ordered(m), l),
        forall|i: int|
            0 <= i < ordered(m).len() ==> m.dom().contains((#[trigger] ordered(m)[i]).0)
                && m[ordered(m)[i].0] == ordered(m)[i].1,
{
    let s = choose|s: Seq<(Loc, V)>| ascending(s) && as_map(s) == m;
    lemma_ordered_covers(s);
}

/// The number of entries of `s` whose keys come before `l`.
pub open spec fn keys_before<V>(s: Seq<(Loc, V)>, l: Loc) -> int
    decreases s.len(),
{
    if s.len() == 0 || !s[0].0.precedes(l) {
        0
    } else {
        1 + keys_before(s.drop_first(), l)
    }
}

/// In an ascending sequence the keys that come before `l` come first.
pub proof fn lemma_keys_before<V>(s: Seq<(Loc, V)>, l: Loc)
    requires
        ascending(s),
    ensures
        0 <= keys_before(s, l) <= s.len(),
        forall|j: int| 0 <= j < keys_before(s, l) ==> (#[trigger] s[j]).0.precedes(l),
        forall|j: int| keys_before(s, l) <= j < s.len() ==> !(#[trigger] s[j]).0.precedes(l),
    decreases s.len(),
{
    if s.len() > 0 {
        let t = s.drop_first();
        assert forall|i: int, j: int| 0 <= i < j < t.len() implies (#[trigger] t[i]).0.precedes(
            (#[trigger] t[j]).0,
        ) by {
            assert(t[i] == s[i + 1]);
            assert(t[j] == s[j + 1]);
        }
        if s[0].0.precedes(l) {
            lemma_keys_before(t, l);
            assert forall|j: int| 0 <= j < keys_before(s, l) implies (#[trigger] s[j]).0.precedes(
                l,
            ) by {
                if j > 0 {
                    assert(s[j] == t[j - 1]);
                }
            }
            assert forall|j: int| keys_before(s, l) <= j < s.len() implies !(#[trigger] s[j]).0.precedes(
            l) by {
                assert(s[j] == t[j - 1]);
            }
        } else {
            assert forall|j: int| 0 <= j < s.len() implies !(#[trigger] s[j]).0.precedes(l) by {
                if j > 0 {
                    assert(s[0].0.precedes(s[j].0));
                }
            }
        }
    }
}

/// A value put under a key that a listable map holds leaves the map
/// listable, and its ordered form as it was but for that entry.
pub proof fn lemma_listable_update<V>(m: Map<Loc, V>, l: Loc, v: V)
    requires
        listable(m),
        m.dom().contains(l),
    ensures
        listable(m.insert(l, v)),
        0 <= place_of(ordered(m), l) < ordered(m).len(),
        ordered(m)[place_of(ordered(m), l)].0 == l,
        ordered(m.insert(l, v)) == ordered(m).update(place_of(ordered(m), l), (l, v)),
{
    lemma_listable(m);
    let s = ordered(m);
    assert(has_key(s, l));
    let i = place_of(s, l);
    let t = s.update(i, (l, v));
    assert forall|a: int, b: int| 0 <= a < b < t.len() implies (#[trigger] t[a]).0.precedes(
        (#[trigger] t[b]).0,
    ) by {
        assert(s[a].0.precedes(s[b].0));
    }
    assert forall|k: Loc| has_key(t, k) == has_key(s, k) by {
        if has_key(t, k) {
            let p = place_of(t, k);
            assert(s[p].0 == k);
        }
        if has_key(s, k) {
            let p = place_of(s, k);
            assert(t[p].0 == k);
        }
    }
    assert forall|k: Loc| has_key(t, k) implies as_map(t)[k] == m.insert(l, v)[k] by {
        let p = place_of(t, k);
        lemma_as_map_entry(t, p);
        if k != l {
            assert(s[p] == t[p]);
            lemma_as_map_entry(s, p);
        } else {
            lemma_as_map_entry(s, i);
            assert(t[i].0 == l);
            if p < i {
                assert(t[p].0.precedes(t[i].0));
            } else if p > i {
                assert(t[i].0.precedes(t[p].0));
            }
        }
    }
    assert(as_map(t) =~= m.insert(l, v));
    lemma_ordered(t);
}

/// A value put under any key leaves a listable map listable.
pub proof fn lemma_listable_insert<V>(m: Map<Loc, V>, l: Loc, v: V)
    requires
        listable(m),
    ensures
        listable(m.insert(l, v)),
{
    if m.dom().contains(l) {
        lemma_listable_update(m, l, v);
    } else {
        lemma_listable(m);
        let s = ordered(m);
        lemma_keys_before(s, l);
        let i = keys_before(s, l);
        let t = s.insert(i, (l, v));
        assert forall|a: int, b: int| 0 <= a < b < t.len() implies (#[trigger] t[a]).0.precedes(
            (#[trigger] t[b]).0,
        ) by {
            if a < i && b > i {
                assert(s[a].0.precedes(s[b - 1].0));
            } else if a < i && b < i {
                assert(s[a].0.precedes(s[b].0));
            } else if a > i {
                assert(s[a - 1].0.precedes(s[b - 1].0));
            } else if a == i {
                assert(!s[b - 1].0.precedes(l));
                assert(m.dom().contains(s[b - 1].0));
            } else {
                assert(s[a].0.precedes(l));
            }
        }
        assert forall|k: Loc| has_key(t, k) == (has_key(s, k) || k == l) by {
            if has_key(t, k) {
                let p = place_of(t, k);
                if p < i {
                    assert(s[p].0 == k);
                } else if p > i {
                    assert(s[p - 1].0 == k);
                }
            }
            if has_key(s, k) {
                let p = place_of(s, k);
                if p < i {
                    assert(t[p].0 == k);
                } else {
                    assert(t[p + 1].0 == k);
                }
            }
            if k == l {
                assert(t[i].0 == k);
            }
        }
        assert forall|k: Loc| has_key(t, k) implies as_map(t)[k] == m.insert(l, v)[k] by {
            let p = place_of(t, k);
            lemma_as_map_entry(t, p);
            if p < i {
                assert(s[p] == t[p]);
                lemma_as_map_entry(s, p);
            } else if p > i {
                assert(s[p - 1] == t[p]);
                lemma_as_map_entry(s, p - 1);
            }
        }
        assert(as_map(t) =~= m.insert(l, v));
    }
}

/// A finite map from `Loc` to `V`.
pub struct LocMap<V> {
    items: Vec<(Loc, V)>,
}

impl<V> View for LocMap<V> {
    type V = Map<Loc, V>;

    closed spec fn view(&self) -> Map<Loc, V> {
        as_map(self.items@)
    }
}

impl<V> LocMap<V> {
    #[verifier::type_invariant]
    spec fn kept_ascending(self) -> bool {
        ascending(self.items@)
    }

    /// The entries in the order of their keys.
    pub closed spec fn entries(&self) -> Seq<(Loc, V)> {
        self.items@
    }

    /// The empty map.
    pub fn new() -> (r: Self)
        ensures
            r@ == Map::<Loc, V>::empty(),
            r.entries() == Seq::<(Loc, V)>::empty(),
    {
        let r = LocMap { items: Vec::new() };
        assert(r@ =~= Map::<Loc, V>::empty());
        r
    }

    /// The number of entries.
    pub fn len(&self) -> (r: usize)
        ensures
            r == self.entries().len(),
            self.entries() == ordered(self@),
            ascending(self.entries()),
            as_map(self.entries()) == self@,
    {
        proof {
            use_type_invariant(self);
            lemma_ordered(self.items@);
        }
        self.items.len()
    }

    /// Whether there is no entry.
    pub fn is_empty(&self) -> (r: bool)
        ensures
            r == (self@ == Map::<Loc, V>::empty()),
            r == (self.entries().len() == 0),
    {
        proof {
            use_type_invariant(self);
            if self.items@.len() > 0 {
                lemma_as_map_entry(self.items@, 0);
            } else {
                assert(self@ =~= Map::<Loc, V>::empty());
            }
        }
        self.items.len() == 0
    }

    /// The place of `loc` among the entries, or the place where it belongs.
    fn seek(&self, loc: &Loc) -> (i: usize)
        ensures
            i <= self.items@.len(),
            forall|j: int| 0 <= j < i ==> (#[trigger] self.items@[j]).0.precedes(*loc),
            i < self.items@.len() ==> !self.items@[i as int].0.precedes(*loc),
    {
        let mut i: usize = 0;
        while i < self.items.len() && self.items[i].0.before(loc)
            invariant
                i <= self.items@.len(),
                forall|j: int| 0 <= j < i ==> (#[trigger] self.items@[j]).0.precedes(*loc),
            decreases self.items@.len() - i,
        {
            i += 1;
        }
        i
    }

    /// The value under `loc`, if there is one.
    pub fn get(&self, loc: &Loc) -> (r: Option<&V>)
        ensures
            match r {
                Some(v) => self@.dom().contains(*loc) && self@[*loc] == *v,
                None => !self@.dom().contains(*loc),
            },
    {
        proof {
            use_type_invariant(self);
        }
        let i = self.seek(loc);
        if i < self.items.len() && self.items[i].0 == *loc {
            proof {
                lemma_as_map_entry(self.items@, i as int);
            }
            Some(&self.items[i].1)
        } else {
            proof {
                if has_key(self.items@, *loc) {
                    let p = place_of(self.items@, *loc);
                    if p < i {
                        assert(self.items@[p].0.precedes(*loc));
                    } else if p > i {
                        assert(self.items@[i as int].0.precedes(self.items@[p].0));
                    }
                }
            }
            None
        }
    }

    /// Whether there is a value under `loc`.
    pub fn contains_key(&self, loc: &Loc) -> (r: bool)
        ensures
            r == self@.dom().contains(*loc),
    {
        self.get(loc).is_some()
    }

    /// Puts `v` under `loc`, in place of what was there.
    pub fn insert(&mut self, loc: Loc, v: V)
        ensures
            final(self)@ == old(self)@.insert(loc, v),
    {
        proof {
            use_type_invariant(&*self);
        }
        let i = self.seek(&loc);
        let ghost before = self.items@;
        if i < self.items.len() && self.items[i].0 == loc {
            let mut items: Vec<(Loc, V)> = Vec::new();
            core::mem::swap(&mut self.items, &mut items);
            items[i] = (loc, v);
            self.items = items;
            proof {
                let after = self.items@;
                assert forall|a: int, b: int| 0 <= a < b < after.len() implies (
                #[trigger] after[a]).0.precedes((#[trigger] after[b]).0) by {
                    assert(before[a].0.precedes(before[b].0));
                }
                assert forall|l: Loc| has_key(after, l) == (has_key(before, l) || l == loc) by {
                    if has_key(after, l) {
                        let p = place_of(after, l);
                        assert(before[p].0 == l);
                    }
                    if has_key(before, l) {
                        let p = place_of(before, l);
                        assert(after[p].0 == l);
                    }
                    if l == loc {
                        assert(after[i as int].0 == l);
                    }
                }
                assert forall|l: Loc| has_key(after, l) implies as_map(after)[l] == as_map(
                    before,
                ).insert(loc, v)[l] by {
                    let p = place_of(after, l);
                    lemma_as_map_entry(after, p);
                    if l != loc {
                        assert(before[p] == after[p]);
                        lemma_as_map_entry(before, p);
                    }
                }
                assert(as_map(after) =~= as_map(before).insert(loc, v));
            }
        } else {
            let mut items: Vec<(Loc, V)> = Vec::new();
            core::mem::swap(&mut self.items, &mut items);
            items.insert(i, (loc, v));
            self.items = items;
            proof {
                let after = self.items@;
                assert forall|a: int, b: int| 0 <= a < b < after.len() implies (
                #[trigger] after[a]).0.precedes((#[trigger] after[b]).0) by {
                    if a < i && b > i {
                        assert(before[a].0.precedes(before[b - 1].0));
                    } else if a < i && b < i {
                        assert(before[a].0.precedes(before[b].0));
                    } else if a > i {
                        assert(before[a - 1].0.precedes(before[b - 1].0));
                    } else if a == i {
                        if b - 1 > i {
                            assert(before[i as int].0.precedes(before[b - 1].0));
                        }
                    }
                }
                assert forall|l: Loc| has_key(after, l) == (has_key(before, l) || l == loc) by {
                    if has_key(after, l) {
                        let p = place_of(after, l);
                        if p < i {
                            assert(before[p].0 == l);
                        } else if p > i {
                            assert(before[p - 1].0 == l);
                        }
                    }
                    if has_key(before, l) {
                        let p = place_of(before, l);
                        if p < i {
                            assert(after[p].0 == l);
                        } else {
                            assert(after[p + 1].0 == l);
                        }
                    }
                    if l == loc {
                        assert(after[i as int].0 == l);
                    }
                }
                assert forall|l: Loc| has_key(after, l) implies as_map(after)[l] == as_map(
                    before,
                ).insert(loc, v)[l] by {
                    let p = place_of(after, l);
                    lemma_as_map_entry(after, p);
                    if p < i {
                        assert(before[p] == after[p]);
                        lemma_as_map_entry(before, p);
                    } else if p > i {
                        assert(before[p - 1] == after[p]);
                        lemma_as_map_entry(before, p - 1);
                    }
                }
                assert(as_map(after) =~= as_map(before).insert(loc, v));
            }
        }
    }

    /// Shows that the view of the map is listable. Nothing is computed.
    pub fn listed(&self)
        ensures
            listable(self@),
            self.entries() == ordered(self@),
    {
        proof {
            use_type_invariant(self);
            lemma_ordered(self.items@);
        }
    }

    /// The entry at place `i`, counted in the order of the keys.
    pub fn entry(&self, i: usize) -> (r: (&Loc, &V))
        requires
            i < self.entries().len(),
        ensures
            *r.0 == self.entries()[i as int].0,
            *r.1 == self.entries()[i as int].1,
            self@.dom().contains(*r.0),
            self@[*r.0] == *r.1,
            self.entries() == ordered(self@),
            ascending(self.entries()),
            as_map(self.entries()) == self@,
    {
        proof {
            use_type_invariant(self);
            lemma_as_map_entry(self.items@, i as int);
            lemma_ordered(self.items@);
        }
        (&self.items[i].0, &self.items[i].1)
    }
}

} // verus!
