//! The pool of ability pickups that lie on the grid: at most one per cell, taken out when an
//! agent claims it.

use crate::geometry::Pos;
use crate::task::{Booster, BoosterKind};
use vstd::prelude::*;

verus! {

/// The pickups that are left to claim.
pub struct Pool {
    pub entries: Vec<Booster>,
}

/// Some entry lies on `p`.
pub open spec fn has_pos(entries: Seq<Booster>, p: Pos) -> bool {
    exists|i: int| 0 <= i < entries.len() && (#[trigger] entries[i]).pos == p
}

/// The place of an entry that lies on `p`.
pub open spec fn index_of(entries: Seq<Booster>, p: Pos) -> int {
    choose|i: int| 0 <= i < entries.len() && (#[trigger] entries[i]).pos == p
}

/// No two entries lie on the same cell.
pub open spec fn distinct(entries: Seq<Booster>) -> bool {
    forall|i: int, j: int|
        0 <= i < j < entries.len() ==> (#[trigger] entries[i]).pos != (#[trigger] entries[j]).pos
}

/// The pickups by cell.
pub open spec fn pickups(entries: Seq<Booster>) -> Map<Pos, BoosterKind> {
    Map::new(|p: Pos| has_pos(entries, p), |p: Pos| entries[index_of(entries, p)].kind)
}

proof fn lemma_index_of(entries: Seq<Booster>, i: int)
    requires
        distinct(entries),
        0 <= i < entries.len(),
    ensures
        has_pos(entries, entries[i].pos),
        index_of(entries, entries[i].pos) == i,
        pickups(entries).contains_key(entries[i].pos),
        pickups(entries)[entries[i].pos] == entries[i].kind,
{
    let p = entries[i].pos;
    let j = index_of(entries, p);
    assert(0 <= j < entries.len() && entries[j].pos == p);
    if i < j {
        assert(entries[i].pos != entries[j].pos);
    }
    if j < i {
        assert(entries[j].pos != entries[i].pos);
    }
}

/// Every pickup of `a` is a pickup of `b`.
pub open spec fn within(a: Map<Pos, BoosterKind>, b: Map<Pos, BoosterKind>) -> bool {
    forall|p: Pos| #[trigger] a.contains_key(p) ==> b.contains_key(p) && a[p] == b[p]
}

impl View for Pool {
    type V = Map<Pos, BoosterKind>;

    open spec fn view(&self) -> Map<Pos, BoosterKind> {
        pickups(self.entries@)
    }
}

impl Pool {
    /// No two pickups lie on the same cell.
    pub open spec fn wf(&self) -> bool {
        distinct(self.entries@)
    }

    /// The kind of pickup on `pos`, if one lies there.
    pub open spec fn kind_at(&self, pos: Pos) -> Option<BoosterKind> {
        if self@.contains_key(pos) {
            Some(self@[pos])
        } else {
            None
        }
    }

    /// Some pickup of the pool is of kind `kind`.
    pub open spec fn offers(&self, kind: BoosterKind) -> bool {
        exists|p: Pos| self@.contains_key(p) && #[trigger] self@[p] == kind
    }

    /// The pool without pickups.
    pub fn new() -> (r: Pool)
        ensures
            r.wf(),
            r@ == Map::<Pos, BoosterKind>::empty(),
    {
        let r = Pool { entries: Vec::new() };
        assert(r@ =~= Map::<Pos, BoosterKind>::empty());
        r
    }

    fn find(&self, pos: Pos) -> (r: Option<usize>)
        requires
            self.wf(),
        ensures
            match r {
                Some(i) => i < self.entries@.len() && self.entries@[i as int].pos == pos,
                None => !has_pos(self.entries@, pos),
            },
    {
        let n = self.entries.len();
        let mut i: usize = 0;
        while i < n
            invariant
                i <= n,
                n == self.entries@.len(),
                forall|j: int| 0 <= j < i ==> (#[trigger] self.entries@[j]).pos != pos,
            decreases n - i,
        {
            if self.entries[i].pos == pos {
                return Some(i);
            }
            i += 1;
        }
        None
    }

    /// The kind of pickup on `pos`, if one lies there.
    pub fn get(&self, pos: Pos) -> (r: Option<BoosterKind>)
        requires
            self.wf(),
        ensures
            r == self.kind_at(pos),
    {
        match self.find(pos) {
            Some(i) => {
                proof {
                    lemma_index_of(self.entries@, i as int);
                }
                Some(self.entries[i].kind)
            },
            None => None,
        }
    }

    /// Lays a pickup on `pos`, in place of the one that may lie there.
    pub fn insert(&mut self, pos: Pos, kind: BoosterKind)
        requires
            old(self).wf(),
        ensures
            final(self).wf(),
            final(self)@ == old(self)@.insert(pos, kind),
    {
        let ghost before = self.entries@;
        let ghost mut k: int = 0;
        match self.find(pos) {
            Some(i) => {
                self.entries[i] = Booster { pos, kind };
                proof {
                    k = i as int;
                }
            },
            None => {
                self.entries.push(Booster { pos, kind });
                proof {
                    k = before.len() as int;
                }
            },
        }
        proof {
            let after = self.entries@;
            assert(0 <= k < after.len() && after[k] == (Booster { pos, kind }));
            assert(forall|j: int| 0 <= j < before.len() && j != k ==> after[j] == before[j]);
            assert forall|a: int, b: int| 0 <= a < b < after.len() implies (#[trigger] after[a]).pos
                != (#[trigger] after[b]).pos by {
                if a != k && b != k {
                    assert(before[a].pos != before[b].pos);
                } else if a == k {
                    if b < before.len() {
                        assert(before[b].pos != pos);
                    }
                } else {
                    assert(before[a].pos != pos);
                }
            }
            assert(distinct(after));
            assert forall|p: Pos| #[trigger] has_pos(after, p) == (has_pos(before, p) || p == pos) by {
                if has_pos(before, p) && p != pos {
                    let j = index_of(before, p);
                    assert(after[j].pos == p);
                }
                if p == pos {
                    assert(after[k].pos == p);
                }
                if has_pos(after, p) && p != pos {
                    let j = index_of(after, p);
                    assert(before[j].pos == p);
                }
            }
            assert forall|p: Pos| has_pos(after, p) implies #[trigger] pickups(after)[p] == old(
                self,
            )@.insert(pos, kind)[p] by {
                let j = index_of(after, p);
                lemma_index_of(after, j);
                if p != pos {
                    assert(before[j] == after[j]);
                    lemma_index_of(before, j);
                }
            }
            assert(self@ =~= old(self)@.insert(pos, kind));
        }
    }

    /// Claims the pickup on `pos`: takes it out of the pool and hands its kind over. `None`
    /// when no pickup lies there, as after an earlier claim.
    pub fn remove(&mut self, pos: Pos) -> (r: Option<BoosterKind>)
        requires
            old(self).wf(),
        ensures
            final(self).wf(),
            r == old(self).kind_at(pos),
            final(self)@ == old(self)@.remove(pos),
            final(self).kind_at(pos) is None,
    {
        let ghost before = self.entries@;
        match self.find(pos) {
            Some(i) => {
                proof {
                    lemma_index_of(before, i as int);
                }
                let taken = self.entries.remove(i);
                proof {
                    let after = self.entries@;
                    assert(after == before.remove(i as int));
                    assert forall|a: int, b: int| 0 <= a < b < after.len() implies (#[trigger] after[a]).pos
                        != (#[trigger] after[b]).pos by {
                        let a0 = if a < i { a } else { a + 1 };
                        let b0 = if b < i { b } else { b + 1 };
                        assert(after[a] == before[a0]);
                        assert(after[b] == before[b0]);
                    }
                    assert forall|p: Pos| #[trigger] has_pos(after, p) == (has_pos(before, p) && p != pos) by {
                        if has_pos(after, p) {
                            let j = index_of(after, p);
                            let j0 = if j < i { j } else { j + 1 };
                            assert(before[j0].pos == p);
                            if p == pos {
                                lemma_index_of(before, j0);
                            }
                        }
                        if has_pos(before, p) && p != pos {
                            let j0 = index_of(before, p);
                            let j = if j0 < i { j0 } else { j0 - 1 };
                            assert(after[j].pos == p);
                        }
                    }
                    assert forall|p: Pos| has_pos(after, p) implies #[trigger] pickups(after)[p]
                        == pickups(before)[p] by {
                        let j = index_of(after, p);
                        lemma_index_of(after, j);
                        let j0 = if j < i { j } else { j + 1 };
                        assert(before[j0] == after[j]);
                        lemma_index_of(before, j0);
                    }
                    assert(self@ =~= old(self)@.remove(pos));
                }
                Some(taken.kind)
            },
            None => {
                assert(self@ =~= old(self)@.remove(pos));
                None
            },
        }
    }

    /// Whether some pickup of the pool is of kind `booster`.
    pub fn has_booster(&self, booster: BoosterKind) -> (r: bool)
        requires
            self.wf(),
        ensures
            r == self.offers(booster),
    {
        let n = self.entries.len();
        let mut i: usize = 0;
        while i < n
            invariant
                i <= n,
                n == self.entries@.len(),
                self.wf(),
                forall|j: int| 0 <= j < i ==> (#[trigger] self.entries@[j]).kind != booster,
            decreases n - i,
        {
            if self.entries[i].kind == booster {
                proof {
                    lemma_index_of(self.entries@, i as int);
                    assert(self@.contains_key(self.entries@[i as int].pos) && self@[self.entries@[i as int].pos]
                        == booster);
                }
                return true;
            }
            i += 1;
        }
        proof {
            if self.offers(booster) {
                let p = choose|p: Pos| self@.contains_key(p) && #[trigger] self@[p] == booster;
                let j = index_of(self.entries@, p);
                assert(self.entries@[j].kind == booster);
            }
        }
        false
    }
}

/// A pickup can be claimed once: after a claim on `pos` the pool holds nothing there, so the
/// next claim on `pos` finds nothing, whatever happened to other cells in between.
pub proof fn lemma_claim_once(before: Pool, after: Pool, pos: Pos)
    requires
        after@ == before@.remove(pos),
    ensures
        after.kind_at(pos) is None,
        forall|q: Pos| q != pos ==> after.kind_at(q) == before.kind_at(q),
        after@.remove(pos) == after@,
{
    assert(after@.remove(pos) =~= after@);
}

} // verus!
