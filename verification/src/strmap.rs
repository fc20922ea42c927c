//! An ordered association map with `String` keys, kept sorted by the
//! lexicographic order of `strs::lex_lt`. Contracts speak about the
//! abstract `Map` from key views to values, plus the key order, which
//! makes iteration deterministic.
use vstd::prelude::*;

use crate::strs::{
    lex_lt, lemma_lex_lt_asymmetric, lemma_lex_lt_total, lemma_lex_lt_transitive, str_eq, str_lt,
};

verus! {

/// Abstract map denoted by an entry sequence; later entries win.
pub open spec fn map_of<V>(s: Seq<(String, V)>) -> Map<Seq<char>, V>
    decreases s.len(),
{
    if s.len() == 0 {
        Map::empty()
    } else {
        map_of(s.drop_last()).insert(s.last().0@, s.last().1)
    }
}

/// The key views of an entry sequence, in entry order.
pub open spec fn keys_of<V>(s: Seq<(String, V)>) -> Seq<Seq<char>> {
    Seq::new(s.len(), |i: int| s[i].0@)
}

/// Entries strictly ascending in key order (hence keys distinct).
pub open spec fn sorted_entries<V>(s: Seq<(String, V)>) -> bool {
    forall|i: int, j: int| 0 <= i < j < s.len() ==> lex_lt(#[trigger] s[i].0@, #[trigger] s[j].0@)
}

pub proof fn lemma_sorted_distinct<V>(s: Seq<(String, V)>)
    requires
        sorted_entries(s),
    ensures
        forall|i: int, j: int| 0 <= i < j < s.len() ==> #[trigger] s[i].0@ != #[trigger] s[j].0@,
{
    assert forall|i: int, j: int| 0 <= i < j < s.len() implies #[trigger] s[i].0@ != #[trigger] s[j].0@ by {
        lemma_lex_lt_asymmetric(s[i].0@, s[j].0@);
    }
}

/// For distinct keys, `map_of` agrees with the entries pointwise.
pub proof fn lemma_map_of_props<V>(s: Seq<(String, V)>)
    requires
        forall|i: int, j: int| 0 <= i < j < s.len() ==> #[trigger] s[i].0@ != #[trigger] s[j].0@,
    ensures
        forall|i: int|
            0 <= i < s.len() ==> map_of(s).contains_key(#[trigger] s[i].0@) && map_of(s)[s[i].0@]
                == s[i].1,
        forall|k: Seq<char>|
            map_of(s).contains_key(k) ==> exists|i: int| 0 <= i < s.len() && #[trigger] s[i].0@ == k,
        map_of(s).dom() =~= keys_of(s).to_set(),
    decreases s.len(),
{
    if s.len() > 0 {
        lemma_map_of_props(s.drop_last());
        assert forall|i: int|
            0 <= i < s.len() implies map_of(s).contains_key(#[trigger] s[i].0@) && map_of(s)[s[i].0@]
            == s[i].1 by {
            if i < s.len() - 1 {
                assert(s.drop_last()[i] == s[i]);
                assert(s[i].0@ != s.last().0@);
            }
        }
        assert forall|k: Seq<char>|
            map_of(s).contains_key(k) implies exists|i: int|
            0 <= i < s.len() && #[trigger] s[i].0@ == k by {
            if k == s.last().0@ {
                assert(s[s.len() - 1].0@ == k);
            } else {
                let i = choose|i: int| 0 <= i < s.drop_last().len() && #[trigger] s.drop_last()[i].0@ == k;
                assert(s[i].0@ == k);
            }
        }
        assert forall|k: Seq<char>| keys_of(s).to_set().contains(k) implies map_of(s).contains_key(
            k,
        ) by {
            let i = choose|i: int| 0 <= i < keys_of(s).len() && keys_of(s)[i] == k;
            assert(s[i].0@ == k);
        }
        assert forall|k: Seq<char>| map_of(s).contains_key(k) implies keys_of(s).to_set().contains(
            k,
        ) by {
            let i = choose|i: int| 0 <= i < s.len() && #[trigger] s[i].0@ == k;
            assert(keys_of(s)[i] == k);
        }
    } else {
        assert(keys_of(s).to_set() =~= Set::<Seq<char>>::empty());
    }
}

/// Splicing a fresh-keyed entry into a sequence inserts into the map.
pub proof fn lemma_map_of_splice<V>(s: Seq<(String, V)>, i: int, p: (String, V))
    requires
        0 <= i <= s.len(),
        forall|j: int| 0 <= j < s.len() ==> #[trigger] s[j].0@ != p.0@,
    ensures
        map_of(s.subrange(0, i) + seq![p] + s.subrange(i, s.len() as int)) == map_of(s).insert(
            p.0@,
            p.1,
        ),
    decreases s.len() - i,
{
    let t = s.subrange(0, i) + seq![p] + s.subrange(i, s.len() as int);
    if i == s.len() {
        assert(t.last() == p);
        assert(t.drop_last() =~= s);
    } else {
        let s2 = s.drop_last();
        lemma_map_of_splice(s2, i, p);
        let t2 = s2.subrange(0, i) + seq![p] + s2.subrange(i, s2.len() as int);
        assert(t.last() == s.last());
        assert(t.drop_last() =~= t2);
        assert(map_of(t) == map_of(t2).insert(s.last().0@, s.last().1));
        assert(map_of(t2) == map_of(s2).insert(p.0@, p.1));
        assert(s[s.len() - 1].0@ != p.0@);
        assert(map_of(s2).insert(p.0@, p.1).insert(s.last().0@, s.last().1) =~= map_of(s2).insert(
            s.last().0@,
            s.last().1,
        ).insert(p.0@, p.1));
    }
}

/// Overwriting the entry that holds a key updates the map at that key.
pub proof fn lemma_map_of_update<V>(s: Seq<(String, V)>, i: int, p: (String, V))
    requires
        0 <= i < s.len(),
        forall|j1: int, j2: int| 0 <= j1 < j2 < s.len() ==> #[trigger] s[j1].0@ != #[trigger] s[j2].0@,
        s[i].0@ == p.0@,
    ensures
        map_of(s.update(i, p)) == map_of(s).insert(p.0@, p.1),
    decreases s.len(),
{
    let t = s.update(i, p);
    if i == s.len() - 1 {
        assert(t.drop_last() =~= s.drop_last());
        assert(map_of(t) == map_of(s.drop_last()).insert(p.0@, p.1));
        assert(map_of(s.drop_last()).insert(s.last().0@, s.last().1).insert(p.0@, p.1) =~= map_of(
            s.drop_last(),
        ).insert(p.0@, p.1));
    } else {
        let s2 = s.drop_last();
        lemma_map_of_update(s2, i, p);
        assert(t.drop_last() =~= s2.update(i, p));
        assert(t.last() == s.last());
        assert(map_of(t) == map_of(s2).insert(p.0@, p.1).insert(s.last().0@, s.last().1));
        assert(s[i].0@ != s[s.len() - 1].0@);
        assert(map_of(s2).insert(p.0@, p.1).insert(s.last().0@, s.last().1) =~= map_of(s2).insert(
            s.last().0@,
            s.last().1,
        ).insert(p.0@, p.1));
        assert(map_of(s).insert(p.0@, p.1) == map_of(s2).insert(s.last().0@, s.last().1).insert(
            p.0@,
            p.1,
        ));
    }
}

/// Removing the entry that holds a key removes the key from the map.
pub proof fn lemma_map_of_remove<V>(s: Seq<(String, V)>, i: int)
    requires
        0 <= i < s.len(),
        forall|j1: int, j2: int| 0 <= j1 < j2 < s.len() ==> #[trigger] s[j1].0@ != #[trigger] s[j2].0@,
    ensures
        map_of(s.remove(i)) == map_of(s).remove(s[i].0@),
    decreases s.len(),
{
    let t = s.remove(i);
    if i == s.len() - 1 {
        assert(t =~= s.drop_last());
        lemma_map_of_props(s.drop_last());
        assert(!map_of(s.drop_last()).contains_key(s[i].0@));
        assert(map_of(s.drop_last()) =~= map_of(s.drop_last()).insert(s.last().0@, s.last().1).remove(
            s[i].0@,
        ));
    } else {
        let s2 = s.drop_last();
        lemma_map_of_remove(s2, i);
        assert(t.drop_last() =~= s2.remove(i));
        assert(t.last() == s.last());
        assert(map_of(t) == map_of(s2).remove(s[i].0@).insert(s.last().0@, s.last().1));
        assert(s[i].0@ != s[s.len() - 1].0@);
        assert(map_of(s2).remove(s[i].0@).insert(s.last().0@, s.last().1) =~= map_of(s2).insert(
            s.last().0@,
            s.last().1,
        ).remove(s[i].0@));
    }
}

/// An association map from `String` keys to values, sorted by key.
#[derive(Debug)]
pub struct StrMap<V> {
    entries: Vec<(String, V)>,
}

impl<V> View for StrMap<V> {
    type V = Seq<(String, V)>;

    closed spec fn view(&self) -> Seq<(String, V)> {
        self.entries@
    }
}

impl<V> StrMap<V> {
    /// The abstract map this structure denotes.
    pub open spec fn as_map(&self) -> Map<Seq<char>, V> {
        map_of(self@)
    }

    /// Key views in entry (ascending) order.
    pub open spec fn keys_seq(&self) -> Seq<Seq<char>> {
        keys_of(self@)
    }

    pub open spec fn wf(&self) -> bool {
        sorted_entries(self@)
    }

    pub proof fn lemma_props(&self)
        requires
            self.wf(),
        ensures
            forall|i: int|
                0 <= i < self@.len() ==> self.as_map().contains_key(#[trigger] self@[i].0@)
                    && self.as_map()[self@[i].0@] == self@[i].1,
            forall|k: Seq<char>|
                self.as_map().contains_key(k) ==> exists|i: int|
                    0 <= i < self@.len() && #[trigger] self@[i].0@ == k,
            self.as_map().dom() =~= self.keys_seq().to_set(),
    {
        lemma_sorted_distinct(self@);
        lemma_map_of_props(self@);
    }

    pub fn new() -> (r: Self)
        ensures
            r@ == Seq::<(String, V)>::empty(),
            r.as_map() == Map::<Seq<char>, V>::empty(),
            r.wf(),
    {
        StrMap { entries: Vec::new() }
    }

    pub fn len(&self) -> (r: usize)
        ensures
            r == self@.len(),
    {
        self.entries.len()
    }

    pub fn key_at(&self, i: usize) -> (r: &String)
        requires
            i < self@.len(),
        ensures
            *r == self@[i as int].0,
    {
        &self.entries[i].0
    }

    pub fn val_at_mut(&mut self, i: usize) -> (r: &mut V)
        requires
            i < old(self)@.len(),
        ensures
            *r == old(self)@[i as int].1,
            final(self)@ == old(self)@.update(i as int, (old(self)@[i as int].0, *final(r))),
    {
        &mut self.entries[i].1
    }

    pub fn val_at(&self, i: usize) -> (r: &V)
        requires
            i < self@.len(),
        ensures
            *r == self@[i as int].1,
    {
        &self.entries[i].1
    }

    /// Index of the entry holding key `k`, when present.
    fn find(&self, k: &str) -> (r: Option<usize>)
        requires
            self.wf(),
        ensures
            match r {
                Some(i) => i < self@.len() && self@[i as int].0@ == k@,
                None => !self.as_map().contains_key(k@),
            },
    {
        proof {
            self.lemma_props();
        }
        let n = self.entries.len();
        let mut i: usize = 0;
        while i < n
            invariant
                n == self@.len(),
                0 <= i <= n,
                forall|j: int| 0 <= j < i ==> #[trigger] self@[j].0@ != k@,
                self.wf(),
                forall|k2: Seq<char>|
                    self.as_map().contains_key(k2) ==> exists|j: int|
                        0 <= j < self@.len() && #[trigger] self@[j].0@ == k2,
            decreases n - i,
        {
            if str_eq(self.entries[i].0.as_str(), k) {
                return Some(i);
            }
            i = i + 1;
        }
        None
    }

    pub fn contains_key(&self, k: &str) -> (r: bool)
        requires
            self.wf(),
        ensures
            r == self.as_map().contains_key(k@),
    {
        proof {
            self.lemma_props();
        }
        match self.find(k) {
            Some(_) => true,
            None => false,
        }
    }

    pub fn get(&self, k: &str) -> (r: Option<&V>)
        requires
            self.wf(),
        ensures
            match r {
                Some(v) => self.as_map().contains_key(k@) && *v == self.as_map()[k@],
                None => !self.as_map().contains_key(k@),
            },
    {
        proof {
            self.lemma_props();
        }
        match self.find(k) {
            Some(i) => Some(&self.entries[i].1),
            None => None,
        }
    }

    pub fn insert(&mut self, k: String, v: V)
        requires
            old(self).wf(),
        ensures
            final(self).wf(),
            final(self).as_map() == old(self).as_map().insert(k@, v),
            old(self).as_map().contains_key(k@) ==> final(self).keys_seq() == old(self).keys_seq(),
            !old(self).as_map().contains_key(k@) ==> final(self).as_map().dom() == old(
                self,
            ).as_map().dom().insert(k@),
            final(self).as_map().dom() == old(self).as_map().dom().insert(k@),
    {
        proof {
            self.lemma_props();
            lemma_sorted_distinct(self@);
        }
        let n = self.entries.len();
        let mut i: usize = 0;
        let mut stop = false;
        while i < n && !stop
            invariant
                n == self@.len(),
                self.wf(),
                0 <= i <= n,
                forall|j: int| 0 <= j < i ==> lex_lt(#[trigger] self@[j].0@, k@),
                stop ==> i < n && !lex_lt(self@[i as int].0@, k@),
            decreases n - i, 1int - (if stop { 1int } else { 0int }),
        {
            if str_lt(self.entries[i].0.as_str(), &k) {
                i = i + 1;
            } else {
                stop = true;
            }
        }
        let ghost s0 = self@;
        proof {
            // k relates strictly to every entry except possibly entry i
            assert forall|j: int| 0 <= j < s0.len() && j != i implies (if j < i {
                lex_lt(s0[j].0@, k@)
            } else {
                lex_lt(k@, s0[j].0@)
            }) by {
                if j > i {
                    assert(!lex_lt(s0[i as int].0@, k@));
                    if s0[i as int].0@ == k@ {
                        assert(lex_lt(k@, s0[j].0@));
                    } else {
                        lemma_lex_lt_total(s0[i as int].0@, k@);
                        lemma_lex_lt_transitive(k@, s0[i as int].0@, s0[j].0@);
                    }
                }
            }
        }
        if i < n && str_eq(self.entries[i].0.as_str(), &k) {
            // replace in place; key order is unchanged
            let ghost kv = s0[i as int];
            self.entries.set(i, (k, v));
            proof {
                assert(self@ =~= s0.update(i as int, self@[i as int]));
                assert(self@[i as int].0@ == s0[i as int].0@);
                assert forall|j: int| 0 <= j < self@.len() implies #[trigger] self@[j].0@ == s0[j].0@
                    by {}
                lemma_map_of_update(s0, i as int, self@[i as int]);
                assert(forall|j1: int, j2: int|
                    0 <= j1 < j2 < self@.len() ==> lex_lt(
                        #[trigger] self@[j1].0@,
                        #[trigger] self@[j2].0@,
                    ));
                self.lemma_props();
                assert(self.keys_seq() =~= old(self).keys_seq());
                assert(self.as_map().dom() =~= old(self).as_map().dom().insert(k@));
            }
        } else {
            proof {
                // k is fresh in s0
                assert forall|j: int| 0 <= j < s0.len() implies #[trigger] s0[j].0@ != k@ by {
                    if j < i {
                        lemma_lex_lt_asymmetric(s0[j].0@, k@);
                        lemma_lex_lt_asymmetric(k@, s0[j].0@);
                    } else if j == i {
                        // either i == n (impossible here) or str_eq returned false
                    } else {
                        lemma_lex_lt_asymmetric(k@, s0[j].0@);
                        lemma_lex_lt_asymmetric(s0[j].0@, k@);
                    }
                }
                if i < n {
                    assert(!lex_lt(s0[i as int].0@, k@));
                    lemma_lex_lt_total(s0[i as int].0@, k@);
                    assert(lex_lt(k@, s0[i as int].0@));
                }
            }
            self.entries.insert(i, (k, v));
            proof {
                assert(self@ =~= s0.subrange(0, i as int) + seq![self@[i as int]] + s0.subrange(
                    i as int,
                    s0.len() as int,
                ));
                lemma_map_of_splice(s0, i as int, self@[i as int]);
                assert forall|j1: int, j2: int|
                    0 <= j1 < j2 < self@.len() implies lex_lt(
                    #[trigger] self@[j1].0@,
                    #[trigger] self@[j2].0@,
                ) by {
                    if j1 < i && j2 < i {
                        assert(self@[j1] == s0[j1] && self@[j2] == s0[j2]);
                    } else if j1 < i && j2 == i {
                        assert(self@[j1] == s0[j1]);
                        assert(self@[j2].0@ == k@);
                    } else if j1 < i && j2 > i {
                        assert(self@[j1] == s0[j1] && self@[j2] == s0[j2 - 1]);
                        assert(j2 - 1 >= i);
                        if j2 - 1 == i {
                            assert(lex_lt(s0[j1].0@, k@));
                            assert(lex_lt(k@, s0[j2 - 1].0@));
                            lemma_lex_lt_transitive(s0[j1].0@, k@, s0[j2 - 1].0@);
                        }
                    } else if j1 == i {
                        assert(self@[j1].0@ == k@);
                        assert(self@[j2] == s0[j2 - 1]);
                        assert(lex_lt(k@, s0[j2 - 1].0@));
                    } else {
                        assert(self@[j1] == s0[j1 - 1] && self@[j2] == s0[j2 - 1]);
                    }
                }
                self.lemma_props();
                assert(self.as_map().dom() =~= old(self).as_map().dom().insert(k@));
            }
        }
    }

    pub fn remove(&mut self, k: &str) -> (r: Option<V>)
        requires
            old(self).wf(),
        ensures
            final(self).wf(),
            final(self).as_map() == old(self).as_map().remove(k@),
            final(self).as_map().dom() == old(self).as_map().dom().remove(k@),
            match r {
                Some(v) => old(self).as_map().contains_key(k@) && v == old(self).as_map()[k@]
                    && final(self)@.len() == old(self)@.len() - 1,
                None => !old(self).as_map().contains_key(k@) && final(self)@ == old(self)@,
            },
    {
        proof {
            self.lemma_props();
            lemma_sorted_distinct(self@);
        }
        let ghost s0 = self@;
        match self.find(k) {
            Some(i) => {
                let (_, v) = self.entries.remove(i);
                proof {
                    lemma_map_of_remove(s0, i as int);
                    assert(self@ =~= s0.remove(i as int));
                    assert forall|j1: int, j2: int|
                        0 <= j1 < j2 < self@.len() implies lex_lt(
                        #[trigger] self@[j1].0@,
                        #[trigger] self@[j2].0@,
                    ) by {
                        let o1 = if j1 < i { j1 } else { j1 + 1 };
                        let o2 = if j2 < i { j2 } else { j2 + 1 };
                        assert(self@[j1] == s0[o1] && self@[j2] == s0[o2]);
                    }
                    self.lemma_props();
                    assert(self.as_map().dom() =~= old(self).as_map().dom().remove(k@));
                }
                Some(v)
            },
            None => {
                proof {
                    assert(self.as_map() =~= self.as_map().remove(k@));
                    assert(self.as_map().dom() =~= self.as_map().dom().remove(k@));
                }
                None
            },
        }
    }
}

} // verus!
