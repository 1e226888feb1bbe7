//! The active-link set: the subset of discovered links currently eligible
//! to carry data traffic.
//!
//! Links are named by their index into the startup-discovered link list.
//! The set is a sequence so that round-robin dispatch has a stable order.
//! Its invariant — a link appears at most once, and only discovered links
//! appear — is established by the constructor and preserved by every
//! transition.

use vstd::prelude::*;

verus! {

/// The links currently eligible to carry data, by index into the
/// startup-discovered link list.
#[derive(Debug, Clone)]
pub struct ActiveLinks {
    /// Member links, in dispatch order.
    pub links: Vec<usize>,
    /// Number of startup-discovered links; members are below this bound.
    pub link_count: usize,
}

impl ActiveLinks {
    /// No link appears twice: the uniqueness invariant of the active set.
    pub open spec fn no_duplicates(self) -> bool {
        forall|i: int, j: int| 0 <= i < j < self.links@.len() ==> self.links@[i] != self.links@[j]
    }

    /// The set invariant: no duplicates, and only discovered links.
    pub open spec fn wf(self) -> bool {
        &&& self.no_duplicates()
        &&& forall|i: int| 0 <= i < self.links@.len() ==> self.links@[i] < self.link_count
    }

    /// Whether a link is in the active set.
    pub open spec fn contains_link(self, idx: usize) -> bool {
        self.links@.contains(idx)
    }

    /// The startup state: every discovered link active, in discovery
    /// order.
    pub fn all_active(link_count: usize) -> (r: Self)
        ensures
            r.wf(),
            r.link_count == link_count,
            r.links@.len() == link_count,
            forall|i: int| 0 <= i < link_count ==> r.links@[i] == i,
    {
        let mut links: Vec<usize> = Vec::new();
        let mut i: usize = 0;
        while i < link_count
            invariant
                0 <= i <= link_count,
                links@.len() == i,
                forall|k: int| 0 <= k < i ==> links@[k] == k,
            decreases link_count - i,
        {
            links.push(i);
            i = i + 1;
        }
        ActiveLinks { links, link_count }
    }

    /// How many links are active.
    pub fn len(&self) -> (r: usize)
        ensures
            r == self.links@.len(),
    {
        self.links.len()
    }

    /// Whether a link is in the active set.
    pub fn contains(&self, idx: usize) -> (r: bool)
        ensures
            r == self.contains_link(idx),
    {
        let n = self.links.len();
        let mut i: usize = 0;
        while i < n
            invariant
                n == self.links@.len(),
                0 <= i <= n,
                forall|k: int| 0 <= k < i ==> self.links@[k] != idx,
            decreases n - i,
        {
            if *vstd::slice::slice_index_get(self.links.as_slice(), i) == idx {
                proof {
                    assert(self.links@[i as int] == idx);
                }
                return true;
            }
            i = i + 1;
        }
        proof {
            if self.links@.contains(idx) {
                let k = choose|k: int| 0 <= k < self.links@.len() && self.links@[k] == idx;
                assert(false);
            }
        }
        false
    }

    /// Append a recovered link, keeping the set free of duplicates: a
    /// link already present is left where it is.
    pub fn add_link(&mut self, idx: usize)
        requires
            old(self).wf(),
            idx < old(self).link_count,
        ensures
            final(self).wf(),
            final(self).link_count == old(self).link_count,
            final(self).contains_link(idx),
            final(self).links@ == (if old(self).contains_link(idx) {
                old(self).links@
            } else {
                old(self).links@.push(idx)
            }),
    {
        if !self.contains(idx) {
            self.links.push(idx);
            proof {
                assert(self.links@.last() == idx);
                assert(self.links@.contains(idx));
            }
        }
    }

    /// Remove a failed link from the set; a link not present is ignored.
    pub fn remove_link(&mut self, idx: usize)
        requires
            old(self).wf(),
        ensures
            final(self).wf(),
            final(self).link_count == old(self).link_count,
            !final(self).contains_link(idx),
            forall|q: usize|
                q != idx ==> (final(self).contains_link(q) <==> old(self).contains_link(q)),
            old(self).contains_link(idx) ==> final(self).links@ == old(self).links@.remove(
                old(self).links@.index_of(idx),
            ),
            !old(self).contains_link(idx) ==> final(self).links@ == old(self).links@,
    {
        let n = self.links.len();
        let mut i: usize = 0;
        let mut found = false;
        let mut at: usize = 0;
        while i < n && !found
            invariant
                n == self.links@.len(),
                0 <= i <= n,
                !found ==> forall|k: int| 0 <= k < i ==> self.links@[k] != idx,
                found ==> i < n && self.links@[i as int] == idx && at == i,
            decreases n - i + (if found { 0int } else { 1int }),
        {
            if *vstd::slice::slice_index_get(self.links.as_slice(), i) == idx {
                found = true;
                at = i;
            } else {
                i = i + 1;
            }
        }
        if !found {
            proof {
                if self.links@.contains(idx) {
                    let k = choose|k: int| 0 <= k < self.links@.len() && self.links@[k] == idx;
                    assert(false);
                }
            }
            return ;
        }
        let ghost before = self.links@;
        self.links.remove(at);
        proof {
            let after = self.links@;
            assert(before.contains(idx));
            assert(before.index_of(idx) == at as int) by {
                let k = before.index_of(idx);
                assert(before[k] == idx);
                if k != at as int {
                    assert(before[at as int] == idx);
                    assert(false);
                }
            }
            assert forall|i2: int, j2: int| 0 <= i2 < j2 < after.len() implies after[i2]
                != after[j2] by {
                let oi = if i2 < at as int { i2 } else { i2 + 1 };
                let oj = if j2 < at as int { j2 } else { j2 + 1 };
                assert(after[i2] == before[oi] && after[j2] == before[oj]);
            }
            assert forall|i2: int| 0 <= i2 < after.len() implies after[i2]
                < self.link_count by {
                let oi = if i2 < at as int { i2 } else { i2 + 1 };
                assert(after[i2] == before[oi]);
            }
            assert forall|i2: int| 0 <= i2 < after.len() implies after[i2] != idx by {
                let oi = if i2 < at as int { i2 } else { i2 + 1 };
                assert(after[i2] == before[oi]);
                if oi != at as int {
                    assert(before[oi] != before[at as int]);
                }
            }
            if after.contains(idx) {
                let k = choose|k: int| 0 <= k < after.len() && after[k] == idx;
                assert(false);
            }
            assert forall|q: usize| q != idx && before.contains(q) implies after.contains(
                q,
            ) by {
                let k = choose|k: int| 0 <= k < before.len() && before[k] == q;
                let k2 = if k < at as int { k } else { k - 1 };
                assert(after[k2] == before[k]);
            }
            assert forall|q: usize| q != idx && after.contains(q) implies before.contains(
                q,
            ) by {
                let k = choose|k: int| 0 <= k < after.len() && after[k] == q;
                let oi = if k < at as int { k } else { k + 1 };
                assert(before[oi] == after[k]);
            }
        }
    }

    /// The link the round-robin counter selects, or nothing while the set
    /// is empty.
    pub fn pick(&self, counter: u64) -> (r: Option<usize>)
        ensures
            r is None <==> self.links@.len() == 0,
            r is Some ==> r.unwrap() == self.links@[counter as int % self.links@.len() as int],
    {
        let n = self.links.len();
        if n == 0 {
            None
        } else {
            let at = (counter % (n as u64)) as usize;
            Some(*vstd::slice::slice_index_get(self.links.as_slice(), at))
        }
    }
}

} // verus!
