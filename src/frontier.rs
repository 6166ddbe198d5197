//! The open set of the search: a priority queue with lazy deletion.
//!
//! A cell may be enqueued several times as its cost improves. Instead of a
//! decrease-key operation, the frontier remembers the priority at which each cell
//! was last handed out and drops, when they come up, the entries that are no
//! better than that.
use vstd::prelude::*;

verus! {

/// A queued candidate: (priority, cell index).
pub type Entry = (u128, usize);

/// The order in which entries come out: by priority, then by cell index.
pub open spec fn entry_lt(a: Entry, b: Entry) -> bool {
    a.0 < b.0 || (a.0 == b.0 && a.1 < b.1)
}

/// `e` is stale: its cell was already handed out at a priority no worse than `e`'s.
pub open spec fn stale(finalized: Seq<Option<u128>>, e: Entry) -> bool {
    finalized[e.1 as int] matches Some(v) && v <= e.0
}

/// `e` is the first, in entry order, of the entries of `q` that are not stale.
pub open spec fn first_live(q: Seq<Entry>, finalized: Seq<Option<u128>>, e: Entry) -> bool {
    &&& q.contains(e)
    &&& !stale(finalized, e)
    &&& forall|f: Entry| #[trigger] q.contains(f) && !stale(finalized, f) ==> !entry_lt(f, e)
}

/// What [`Frontier::get_next`] does, from the frontier `a` before the call to `b`
/// after it, returning `r`.
pub open spec fn next_post(a: Frontier, b: Frontier, r: Option<usize>) -> bool {
    let q0 = a.entries();
    let v0 = a.finalized();
    let q1 = b.entries();
    let v1 = b.finalized();
    &&& q1.len() <= q0.len()
    &&& forall|e: Entry| #[trigger] q1.contains(e) ==> q0.contains(e)
    &&& match r {
        None => {
            &&& q1.len() == 0
            &&& v1 == v0
            &&& forall|e: Entry| #[trigger] q0.contains(e) ==> stale(v0, e)
        },
        Some(c) => {
            &&& c < v0.len()
            &&& v1[c as int] is Some
            &&& v1 == v0.update(c as int, v1[c as int])
            &&& first_live(q0, v0, (v1[c as int]->Some_0, c))
            &&& q1.len() < q0.len()
            &&& forall|e: Entry|
                #[trigger] q0.contains(e) && !stale(v0, e) && e != (v1[c as int]->Some_0, c)
                    ==> q1.contains(e)
            &&& forall|e: Entry|
                #[trigger] q0.contains(e) && entry_lt((v1[c as int]->Some_0, c), e) ==> q1.contains(e)
        },
    }
}

/// Cells pending expansion, for cells numbered `0 .. cells`.
pub struct Frontier {
    queue: Vec<Entry>,
    visited: Vec<Option<u128>>,
}

impl Frontier {
    /// The queued entries, duplicates and stale ones included, in no particular order.
    pub closed spec fn entries(self) -> Seq<Entry> {
        self.queue@
    }

    /// For each cell, the priority at which it was last handed out, if ever.
    pub closed spec fn finalized(self) -> Seq<Option<u128>> {
        self.visited@
    }

    /// Every queued entry names a cell of the frontier.
    pub open spec fn wf(self) -> bool {
        forall|e: Entry| #[trigger] self.entries().contains(e) ==> e.1 < self.finalized().len()
    }

    /// An empty frontier for `cells` cells, none handed out yet.
    pub fn new(cells: usize) -> (f: Frontier)
        ensures
            f.wf(),
            f.entries().len() == 0,
            f.finalized() == Seq::new(cells as nat, |i: int| None::<u128>),
    {
        let mut visited: Vec<Option<u128>> = Vec::new();
        let mut i: usize = 0;
        while i < cells
            invariant
                i <= cells,
                visited@ == Seq::new(i as nat, |k: int| None::<u128>),
            decreases cells - i,
        {
            visited.push(None);
            i += 1;
            assert(visited@ =~= Seq::new(i as nat, |k: int| None::<u128>));
        }
        Frontier { queue: Vec::new(), visited }
    }

    /// Adds `cell` at `priority`. Duplicates are not looked for.
    pub fn enqueue(&mut self, cell: usize, priority: u128)
        requires
            old(self).wf(),
            cell < old(self).finalized().len(),
        ensures
            final(self).wf(),
            final(self).entries() == old(self).entries().push((priority, cell)),
            final(self).finalized() == old(self).finalized(),
    {
        self.queue.push((priority, cell));
        proof {
            assert forall|e: Entry| #[trigger] self.entries().contains(e) implies e.1
                < self.finalized().len() by {
                let k = choose|k: int| 0 <= k < self.queue@.len() && self.queue@[k] == e;
                if k < old(self).queue@.len() {
                    assert(old(self).entries().contains(e));
                }
            }
        }
    }

    /// Index of the least entry of the queue.
    fn least(&self) -> (i: usize)
        requires
            self.queue@.len() > 0,
        ensures
            i < self.queue@.len(),
            forall|j: int| 0 <= j < self.queue@.len() ==> !entry_lt(self.queue@[j], self.queue@[i as int]),
    {
        let mut best: usize = 0;
        let mut k: usize = 1;
        while k < self.queue.len()
            invariant
                0 < k <= self.queue@.len(),
                best < k,
                forall|j: int| 0 <= j < k ==> !entry_lt(self.queue@[j], self.queue@[best as int]),
            decreases self.queue@.len() - k,
        {
            let a = self.queue[k];
            let b = self.queue[best];
            if a.0 < b.0 || (a.0 == b.0 && a.1 < b.1) {
                best = k;
            }
            k += 1;
        }
        best
    }

    /// Removes and returns the cell of the least entry that is not stale, and
    /// records that entry's priority as the cell's finalized one. The stale
    /// entries met before it are dropped. `None` once no live entry is left.
    pub fn get_next(&mut self) -> (r: Option<usize>)
        requires
            old(self).wf(),
        ensures
            final(self).wf(),
            next_post(*old(self), *final(self), r),
    {
        let ghost q0 = self.queue@;
        let ghost v0 = self.visited@;
        while self.queue.len() > 0
            invariant
                self.wf(),
                q0 == old(self).queue@,
                v0 == old(self).visited@,
                self.visited@ == v0,
                self.queue@.len() <= q0.len(),
                forall|e: Entry| #[trigger] self.queue@.contains(e) ==> q0.contains(e),
                forall|e: Entry| #[trigger] q0.contains(e) && !stale(v0, e) ==> self.queue@.contains(e),
                forall|e: Entry, f: Entry|
                    #[trigger] q0.contains(e) && !self.queue@.contains(e) && #[trigger] self.queue@.contains(f)
                        ==> !entry_lt(f, e),
            decreases self.queue@.len(),
        {
            let ghost qa = self.queue@;
            assert(forall|f: Entry| qa.contains(f) ==> self.entries().contains(f));
            let i = self.least();
            let e = self.queue.swap_remove(i);
            proof {
                assert(qa[i as int] == e);
                assert(qa.contains(e));
                assert forall|f: Entry| #[trigger] self.queue@.contains(f) implies qa.contains(f) by {
                    let k = choose|k: int| 0 <= k < self.queue@.len() && self.queue@[k] == f;
                    if k == i {
                        assert(qa[qa.len() - 1] == f);
                    } else {
                        assert(qa[k] == f);
                    }
                }
                assert forall|f: Entry| #[trigger] qa.contains(f) && f != e implies self.queue@.contains(f) by {
                    let k = choose|k: int| 0 <= k < qa.len() && qa[k] == f;
                    if k == qa.len() - 1 {
                        assert(self.queue@[i as int] == f);
                    } else {
                        assert(self.queue@[k] == f);
                    }
                }
                assert(q0.contains(e));
                assert forall|x: Entry, f: Entry|
                    #[trigger] q0.contains(x) && !self.queue@.contains(x) && #[trigger] self.queue@.contains(f)
                        implies !entry_lt(f, x) by {
                    assert(qa.contains(f));
                    if qa.contains(x) {
                        assert(x == e);
                        let k = choose|k: int| 0 <= k < qa.len() && qa[k] == f;
                    }
                }
            }
            let is_stale = match self.visited[e.1] {
                Some(v) => v <= e.0,
                None => false,
            };
            if !is_stale {
                self.visited.set(e.1, Some(e.0));
                proof {
                    assert forall|f: Entry| #[trigger] q0.contains(f) && !stale(v0, f) implies !entry_lt(f, e) by {
                        let k = choose|k: int| 0 <= k < qa.len() && qa[k] == f;
                    }
                    assert forall|f: Entry|
                        #[trigger] q0.contains(f) && !stale(v0, f) && f != e implies self.queue@.contains(f) by {
                        assert(qa.contains(f));
                    }
                    assert(first_live(q0, v0, e));
                    assert forall|f: Entry| #[trigger] q0.contains(f) && entry_lt(e, f) implies self.queue@.contains(f) by {
                        if !self.queue@.contains(f) {
                            assert(qa.contains(e));
                        }
                    }
                    assert(self.visited@[e.1 as int] == Some(e.0));
                    assert(self.visited@ =~= v0.update(e.1 as int, self.visited@[e.1 as int]));
                    assert forall|f: Entry| #[trigger] self.entries().contains(f) implies f.1
                        < self.finalized().len() by {
                        assert(qa.contains(f));
                    }
                }
                return Some(e.1);
            }
        }
        proof {
            assert forall|f: Entry| #[trigger] q0.contains(f) implies stale(v0, f) by {
                if !stale(v0, f) {
                    assert(self.queue@.contains(f));
                }
            }
        }
        None
    }
}

/// Once a cell has been handed out at priority `v`, the frontier hands it out
/// again only at a priority strictly below `v`: an older entry no better than
/// `v` is skipped, never processed a second time. Enqueueing leaves the
/// finalized priorities alone, so this holds across any number of calls.
pub proof fn lemma_stale_entry_skipped(a: Frontier, b: Frontier, r: Option<usize>, cell: usize, v: u128)
    requires
        next_post(a, b, r),
        cell < a.finalized().len(),
        a.finalized()[cell as int] == Some(v),
    ensures
        r == Some(cell) ==> (b.finalized()[cell as int] matches Some(p) && p < v),
        r != Some(cell) ==> b.finalized()[cell as int] == Some(v),
{
    if r == Some(cell) {
        let p = b.finalized()[cell as int]->Some_0;
        assert(!stale(a.finalized(), (p, cell)));
    }
}

} // verus!
