//! The search frontier: a priority-ordered collection of coordinates.
//!
//! Lower priorities pop first. Ties are broken deterministically: among
//! entries of equal priority, the coordinate that entered the frontier
//! first pops first. Pushing a coordinate already present updates its
//! priority in place and keeps its position, so the rule stays stable
//! under decrease-key re-pushes.

use vstd::prelude::*;
use crate::coord::Coord;

verus! {

/// One frontier entry: a coordinate and the priority it was queued with.
#[derive(Clone, Copy, PartialEq, Eq, Structural, Debug)]
pub struct FEntry {
    pub c: Coord,
    pub pri: i64,
}

/// Index of the leftmost entry that carries `c`; the length when none does.
pub open spec fn find_idx(fr: Seq<FEntry>, c: Coord) -> int
    decreases fr.len(),
{
    if fr.len() == 0 {
        0
    } else if fr[0].c == c {
        0
    } else {
        1 + find_idx(fr.drop_first(), c)
    }
}

pub proof fn lemma_find_idx(fr: Seq<FEntry>, c: Coord)
    ensures
        0 <= find_idx(fr, c) <= fr.len(),
        find_idx(fr, c) < fr.len() ==> fr[find_idx(fr, c)].c == c,
        forall|j: int| 0 <= j < find_idx(fr, c) ==> (#[trigger] fr[j]).c != c,
    decreases fr.len(),
{
    if fr.len() > 0 && fr[0].c != c {
        lemma_find_idx(fr.drop_first(), c);
        assert forall|j: int| 0 <= j < find_idx(fr, c) implies (#[trigger] fr[j]).c != c by {
            if j > 0 {
                assert(fr.drop_first()[j - 1] == fr[j]);
            }
        }
    }
}

/// Push with decrease-key semantics: update the entry in place when the
/// coordinate is present, append a new entry otherwise.
pub open spec fn fr_push(fr: Seq<FEntry>, c: Coord, pri: i64) -> Seq<FEntry> {
    let i = find_idx(fr, c);
    if i < fr.len() {
        fr.update(i, FEntry { c, pri })
    } else {
        fr.push(FEntry { c, pri })
    }
}

/// Whether some entry carries `c`.
pub open spec fn fr_has(fr: Seq<FEntry>, c: Coord) -> bool {
    exists|i: int| 0 <= i < fr.len() && (#[trigger] fr[i]).c == c
}

/// Pushing touches membership at the pushed coordinate alone.
pub proof fn lemma_fr_push_has(fr: Seq<FEntry>, c: Coord, pri: i64)
    ensures
        forall|d: Coord| fr_has(fr_push(fr, c, pri), d) <==> fr_has(fr, d) || d == c,
{
    lemma_find_idx(fr, c);
    let fi = find_idx(fr, c);
    let r = fr_push(fr, c, pri);
    assert forall|d: Coord| #[trigger] fr_has(r, d) implies fr_has(fr, d) || d == c by {
        let i = choose|i: int| 0 <= i < r.len() && (#[trigger] r[i]).c == d;
        if i < fr.len() && i != fi {
            assert(fr[i].c == d);
        }
    }
    assert forall|d: Coord| fr_has(fr, d) || d == c implies #[trigger] fr_has(r, d) by {
        if d == c {
            if fi < fr.len() {
                assert(r[fi].c == c);
            } else {
                assert(r[fr.len() as int].c == c);
            }
        } else {
            let i = choose|i: int| 0 <= i < fr.len() && (#[trigger] fr[i]).c == d;
            if i == fi {
                assert(fr[fi].c == c);
            } else {
                assert(r[i].c == d);
            }
        }
    }
}

/// Index of the entry that pops next: the leftmost minimal priority.
pub open spec fn min_idx(fr: Seq<FEntry>) -> int
    decreases fr.len(),
{
    if fr.len() <= 1 {
        0
    } else {
        let m = min_idx(fr.drop_last());
        if fr[fr.len() - 1].pri < fr[m].pri {
            fr.len() - 1
        } else {
            m
        }
    }
}

pub proof fn lemma_min_idx(fr: Seq<FEntry>)
    requires
        fr.len() > 0,
    ensures
        0 <= min_idx(fr) < fr.len(),
        forall|i: int| 0 <= i < fr.len() ==> fr[min_idx(fr)].pri <= (#[trigger] fr[i]).pri,
        forall|i: int| 0 <= i < min_idx(fr) ==> (#[trigger] fr[i]).pri > fr[min_idx(fr)].pri,
    decreases fr.len(),
{
    if fr.len() > 1 {
        lemma_min_idx(fr.drop_last());
        assert(forall|i: int|
            0 <= i < fr.len() - 1 ==> (#[trigger] fr[i]) == fr.drop_last()[i]);
    }
}

/// The not-yet-expanded coordinates awaiting evaluation, keyed by priority.
pub struct Frontier {
    entries: Vec<FEntry>,
}

impl View for Frontier {
    type V = Seq<FEntry>;

    closed spec fn view(&self) -> Seq<FEntry> {
        self.entries@
    }
}

impl Frontier {
    pub fn new() -> (r: Frontier)
        ensures
            r@ == Seq::<FEntry>::empty(),
    {
        let f = Frontier { entries: Vec::new() };
        proof {
            assert(f@ =~= Seq::<FEntry>::empty());
        }
        f
    }

    pub fn clear(&mut self)
        ensures
            final(self)@ == Seq::<FEntry>::empty(),
    {
        self.entries.clear();
        proof {
            assert(self@ =~= Seq::<FEntry>::empty());
        }
    }

    pub fn len(&self) -> (r: usize)
        ensures
            r == self@.len(),
    {
        self.entries.len()
    }

    pub fn is_empty(&self) -> (r: bool)
        ensures
            r == (self@.len() == 0),
    {
        self.entries.len() == 0
    }

    /// The entry at position `i`, oldest first.
    pub fn entry(&self, i: usize) -> (r: FEntry)
        requires
            i < self@.len(),
        ensures
            r == self@[i as int],
    {
        self.entries[i]
    }

    /// Queue `c` at priority `pri`, updating it in place if already queued.
    pub fn push(&mut self, c: Coord, pri: i64)
        ensures
            final(self)@ == fr_push(old(self)@, c, pri),
    {
        proof {
            lemma_find_idx(self@, c);
        }
        let ghost fr = self@;
        let n: usize = self.entries.len();
        let mut i: usize = 0;
        while i < n
            invariant
                0 <= i <= n,
                n == self.entries@.len(),
                self.entries@ == fr,
                fr == old(self)@,
                forall|j: int| 0 <= j < i ==> (#[trigger] fr[j]).c != c,
            decreases n - i,
        {
            if self.entries[i].c == c {
                proof {
                    lemma_find_idx(fr, c);
                    assert(i as int == find_idx(fr, c));
                }
                self.entries.set(i, FEntry { c, pri });
                return ;
            }
            i = i + 1;
        }
        proof {
            assert(find_idx(fr, c) == fr.len());
        }
        self.entries.push(FEntry { c, pri });
    }

    /// Remove and return the next coordinate: leftmost minimal priority.
    pub fn pop_min(&mut self) -> (r: (Coord, i64))
        requires
            old(self)@.len() > 0,
        ensures
            r.0 == old(self)@[min_idx(old(self)@)].c,
            r.1 == old(self)@[min_idx(old(self)@)].pri,
            final(self)@ == old(self)@.remove(min_idx(old(self)@)),
    {
        proof {
            lemma_min_idx(self@);
        }
        let ghost fr = self@;
        let n: usize = self.entries.len();
        let mut best: usize = 0;
        let mut i: usize = 1;
        while i < n
            invariant
                0 <= best < i <= n,
                n == self.entries@.len(),
                self.entries@ == fr,
                fr == old(self)@,
                forall|j: int| 0 <= j < i ==> fr[best as int].pri <= (#[trigger] fr[j]).pri,
                forall|j: int| 0 <= j < best ==> (#[trigger] fr[j]).pri > fr[best as int].pri,
            decreases n - i,
        {
            if self.entries[i].pri < self.entries[best].pri {
                best = i;
            }
            i = i + 1;
        }
        proof {
            assert(best as int == min_idx(fr));
        }
        let e = self.entries[best];
        self.entries.remove(best);
        (e.c, e.pri)
    }
}

} // verus!
