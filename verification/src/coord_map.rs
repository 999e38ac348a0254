//! A map keyed by grid coordinates, backed by an association list with
//! distinct keys. Models the per-coordinate cost and predecessor tables.

use vstd::prelude::*;
use crate::coord::Coord;

verus! {

/// The mathematical map described by an association list: later entries win.
pub open spec fn as_map<V>(s: Seq<(Coord, V)>) -> Map<Coord, V>
    decreases s.len(),
{
    if s.len() == 0 {
        Map::empty()
    } else {
        as_map(s.drop_last()).insert(s.last().0, s.last().1)
    }
}

/// No two entries share a key.
pub open spec fn distinct_keys<V>(s: Seq<(Coord, V)>) -> bool {
    forall|i: int, j: int| 0 <= i < j < s.len() ==> (#[trigger] s[i]).0 != (#[trigger] s[j]).0
}

/// A key is in the map's domain exactly when some entry carries it.
pub proof fn lemma_as_map_dom<V>(s: Seq<(Coord, V)>)
    ensures
        forall|c: Coord|
            as_map(s).dom().contains(c) <==> exists|i: int| 0 <= i < s.len() && (#[trigger] s[i]).0
                == c,
    decreases s.len(),
{
    if s.len() > 0 {
        lemma_as_map_dom(s.drop_last());
        assert forall|c: Coord| as_map(s).dom().contains(c) implies exists|i: int|
            0 <= i < s.len() && (#[trigger] s[i]).0 == c by {
            if c == s.last().0 {
                assert(s[s.len() - 1].0 == c);
            } else {
                assert(as_map(s.drop_last()).dom().contains(c));
                let i = choose|i: int|
                    0 <= i < s.drop_last().len() && (#[trigger] s.drop_last()[i]).0 == c;
                assert(s.drop_last()[i] == s[i]);
                assert(s[i].0 == c);
            }
        }
        assert forall|c: Coord|
            (exists|i: int| 0 <= i < s.len() && (#[trigger] s[i]).0 == c) implies as_map(
            s,
        ).dom().contains(c) by {
            let i = choose|i: int| 0 <= i < s.len() && (#[trigger] s[i]).0 == c;
            if i < s.len() - 1 {
                assert(s.drop_last()[i] == s[i]);
                assert(exists|j: int|
                    0 <= j < s.drop_last().len() && (#[trigger] s.drop_last()[j]).0 == c);
                assert(as_map(s.drop_last()).dom().contains(c));
            } else {
                assert(c == s.last().0);
            }
        }
    }
}

/// With distinct keys, each entry's value is the map's value at its key.
pub proof fn lemma_as_map_value<V>(s: Seq<(Coord, V)>)
    requires
        distinct_keys(s),
    ensures
        forall|i: int|
            0 <= i < s.len() ==> as_map(s).dom().contains((#[trigger] s[i]).0) && as_map(s)[s[i].0]
                == s[i].1,
    decreases s.len(),
{
    lemma_as_map_dom(s);
    if s.len() > 0 {
        assert(distinct_keys(s.drop_last()));
        lemma_as_map_value(s.drop_last());
        assert forall|i: int|
            0 <= i < s.len() implies as_map(s).dom().contains((#[trigger] s[i]).0) && as_map(
            s,
        )[s[i].0] == s[i].1 by {
            if i < s.len() - 1 {
                assert(s.drop_last()[i] == s[i]);
                assert(s[i].0 != s.last().0);
            }
        }
    }
}

/// With distinct keys, the domain is finite and as large as the entry list.
pub proof fn lemma_as_map_card<V>(s: Seq<(Coord, V)>)
    requires
        distinct_keys(s),
    ensures
        as_map(s).dom().finite(),
        as_map(s).dom().len() == s.len(),
    decreases s.len(),
{
    if s.len() > 0 {
        assert(distinct_keys(s.drop_last()));
        lemma_as_map_card(s.drop_last());
        lemma_as_map_dom(s.drop_last());
        assert(!as_map(s.drop_last()).dom().contains(s.last().0)) by {
            if as_map(s.drop_last()).dom().contains(s.last().0) {
                let i = choose|i: int|
                    0 <= i < s.drop_last().len() && (#[trigger] s.drop_last()[i]).0 == s.last().0;
                assert(s[i] == s.drop_last()[i]);
                assert(s[i].0 != s[s.len() - 1].0);
            }
        }
    }
}

/// A coordinate-keyed map with copyable values.
pub struct CoordMap<V> {
    entries: Vec<(Coord, V)>,
}

impl<V> View for CoordMap<V> {
    type V = Map<Coord, V>;

    closed spec fn view(&self) -> Map<Coord, V> {
        as_map(self.entries@)
    }
}

impl<V: Copy> CoordMap<V> {
    /// Structural invariant: the backing list never repeats a key.
    pub closed spec fn wf(self) -> bool {
        distinct_keys(self.entries@)
    }

    /// Number of keys held; equals the domain's size.
    pub closed spec fn key_count(self) -> nat {
        self.entries@.len()
    }

    /// The sequence of keys, in insertion order.
    pub closed spec fn keys_seq(self) -> Seq<Coord> {
        self.entries@.map_values(|e: (Coord, V)| e.0)
    }

    pub proof fn lemma_keys_seq(self)
        requires
            self.wf(),
        ensures
            self.keys_seq().no_duplicates(),
            self.keys_seq().len() == self.key_count(),
            forall|i: int|
                0 <= i < self.keys_seq().len() ==> self@.dom().contains(
                    #[trigger] self.keys_seq()[i],
                ),
    {
        lemma_as_map_dom(self.entries@);
    }

    pub proof fn lemma_dom_len(self)
        requires
            self.wf(),
        ensures
            self@.dom().finite(),
            self@.dom().len() == self.key_count(),
    {
        lemma_as_map_card(self.entries@);
    }

    pub fn new() -> (r: CoordMap<V>)
        ensures
            r@ == Map::<Coord, V>::empty(),
            r.wf(),
            r.key_count() == 0,
    {
        CoordMap { entries: Vec::new() }
    }

    /// Drop every entry.
    pub fn clear(&mut self)
        ensures
            final(self)@ == Map::<Coord, V>::empty(),
            final(self).wf(),
            final(self).key_count() == 0,
    {
        self.entries.clear();
    }

    pub fn len(&self) -> (r: usize)
        ensures
            r == self.key_count(),
    {
        self.entries.len()
    }

    fn find(&self, c: Coord) -> (r: usize)
        ensures
            r <= self.entries@.len(),
            r < self.entries@.len() ==> self.entries@[r as int].0 == c,
            r == self.entries@.len() ==> forall|j: int|
                0 <= j < self.entries@.len() ==> (#[trigger] self.entries@[j]).0 != c,
    {
        let n: usize = self.entries.len();
        let mut i: usize = 0;
        while i < n
            invariant
                0 <= i <= n,
                n == self.entries@.len(),
                forall|j: int| 0 <= j < i ==> (#[trigger] self.entries@[j]).0 != c,
            decreases n - i,
        {
            if self.entries[i].0 == c {
                return i;
            }
            i = i + 1;
        }
        n
    }

    pub fn contains_key(&self, c: Coord) -> (r: bool)
        requires
            self.wf(),
        ensures
            r == self@.dom().contains(c),
    {
        proof {
            lemma_as_map_dom(self.entries@);
        }
        let i = self.find(c);
        i < self.entries.len()
    }

    pub fn get(&self, c: Coord) -> (r: Option<V>)
        requires
            self.wf(),
        ensures
            match r {
                Some(v) => self@.dom().contains(c) && self@[c] == v,
                None => !self@.dom().contains(c),
            },
    {
        proof {
            lemma_as_map_dom(self.entries@);
            lemma_as_map_value(self.entries@);
        }
        let i = self.find(c);
        if i < self.entries.len() {
            Some(self.entries[i].1)
        } else {
            None
        }
    }

    pub fn insert(&mut self, c: Coord, v: V)
        requires
            old(self).wf(),
        ensures
            final(self).wf(),
            final(self)@ == old(self)@.insert(c, v),
            final(self).key_count() == if old(self)@.dom().contains(c) {
                old(self).key_count()
            } else {
                old(self).key_count() + 1
            },
    {
        proof {
            lemma_as_map_dom(self.entries@);
        }
        let i = self.find(c);
        if i < self.entries.len() {
            self.entries.set(i, (c, v));
            proof {
                lemma_as_map_update(old(self).entries@, i as int, (c, v));
            }
        } else {
            self.entries.push((c, v));
            proof {
                assert(self.entries@.drop_last() =~= old(self).entries@);
            }
        }
    }
}

/// Updating the entry that holds key `e.0` updates the map at that key alone.
proof fn lemma_as_map_update<V>(s: Seq<(Coord, V)>, i: int, e: (Coord, V))
    requires
        distinct_keys(s),
        0 <= i < s.len(),
        s[i].0 == e.0,
    ensures
        distinct_keys(s.update(i, e)),
        as_map(s.update(i, e)) == as_map(s).insert(e.0, e.1),
    decreases s.len(),
{
    let t = s.update(i, e);
    assert forall|p: int, q: int| 0 <= p < q < t.len() implies (#[trigger] t[p]).0 != (
    #[trigger] t[q]).0 by {
        assert(s[p].0 != s[q].0);
    }
    if i == s.len() - 1 {
        assert(t.drop_last() =~= s.drop_last());
        assert(as_map(t) =~= as_map(s).insert(e.0, e.1));
    } else {
        assert(t.drop_last() =~= s.drop_last().update(i, e));
        assert(distinct_keys(s.drop_last()));
        assert(s.drop_last()[i] == s[i]);
        lemma_as_map_update(s.drop_last(), i, e);
        assert(t.last() == s.last());
        assert(as_map(t) == as_map(s.drop_last()).insert(e.0, e.1).insert(s.last().0, s.last().1));
        assert(s.last().0 != e.0);
        assert(as_map(s.drop_last()).insert(e.0, e.1).insert(s.last().0, s.last().1) =~= as_map(
            s,
        ).insert(e.0, e.1));
    }
}

} // verus!
