//! The connection registry: the live set of connection identifiers that
//! broadcasts fan out to.
//!
//! The transport layer owns the delivery handles; the registry decides
//! membership. Keys are unique; iteration order is the order of insertion,
//! though no caller may rely on it. Membership mirrors the open sessions as
//! observed through connect and disconnect events: the registry is
//! update-only, driven by those events.

use vstd::prelude::*;

verus! {

/// The set of currently registered connection identifiers.
pub struct Registry {
    ids: Vec<u64>,
}

impl Registry {
    /// The registered identifiers, in insertion order.
    pub closed spec fn view(&self) -> Seq<u64> {
        self.ids@
    }

    /// Well-formed: no identifier is registered twice.
    pub open spec fn wf(&self) -> bool {
        self@.no_duplicates()
    }

    /// An empty registry: no session is open yet.
    pub fn new() -> (r: Registry)
        ensures
            r@ == Seq::<u64>::empty(),
            r.wf(),
    {
        Registry { ids: Vec::new() }
    }

    /// Whether `id` is currently registered.
    pub fn contains(&self, id: u64) -> (r: bool)
        ensures
            r == self@.contains(id),
    {
        let mut k: usize = 0;
        while k < self.ids.len()
            invariant
                k <= self.ids@.len(),
                forall|m: int| 0 <= m < k ==> self.ids@[m] != id,
            decreases self.ids@.len() - k,
        {
            if self.ids[k] == id {
                return true;
            }
            k = k + 1;
        }
        false
    }

    /// How many connections are registered.
    pub fn len(&self) -> (n: usize)
        ensures
            n == self@.len(),
    {
        self.ids.len()
    }

    /// The registered identifiers, for a broadcast pass. The caller must not
    /// mutate the registry while traversing them.
    pub fn ids(&self) -> (r: &Vec<u64>)
        ensures
            r@ == self@,
    {
        &self.ids
    }

    /// Inserts the entry for `id` on a connect event; registering an already
    /// registered identifier changes nothing.
    pub fn register(&mut self, id: u64)
        requires
            old(self).wf(),
        ensures
            final(self)@ == if old(self)@.contains(id) {
                old(self)@
            } else {
                old(self)@.push(id)
            },
            final(self).wf(),
            final(self)@.contains(id),
    {
        if !self.contains(id) {
            self.ids.push(id);
            proof {
                assert(self@[self@.len() - 1] == id);
            }
        }
    }

    /// Removes the entry for `id` on a disconnect event; removing an absent
    /// identifier is a no-op, not an error.
    pub fn unregister(&mut self, id: u64)
        requires
            old(self).wf(),
        ensures
            final(self)@ == old(self)@.remove_value(id),
            final(self).wf(),
            !final(self)@.contains(id),
    {
        let n: usize = self.ids.len();
        let mut k: usize = 0;
        while k < n
            invariant
                n == self.ids@.len(),
                k <= n,
                forall|m: int| 0 <= m < k ==> self.ids@[m] != id,
                *self == *old(self),
                old(self).wf(),
            decreases n - k,
        {
            if self.ids[k] == id {
                proof {
                    old(self)@.index_of_first_ensures(id);
                    let ix = old(self)@.index_of_first(id)->Some_0;
                    assert(old(self)@[ix] == id);
                    if ix < k as int {
                        assert(old(self)@[ix] != id);
                    }
                    if ix > k as int {
                        assert(old(self)@[k as int] != id);
                    }
                }
                self.ids.remove(k);
                proof {
                    assert(old(self)@.index_of_first(id) == Some(k as int));
                    lemma_remove_keeps_no_duplicates(old(self)@, k as int);
                    assert(!final(self)@.contains(id)) by {
                        if final(self)@.contains(id) {
                            let w = choose|w: int|
                                0 <= w < final(self)@.len() && final(self)@[w] == id;
                            if w < k {
                                assert(old(self)@[w] == id);
                            } else {
                                assert(old(self)@[w + 1] == id);
                            }
                        }
                    }
                }
                return ;
            }
            k = k + 1;
        }
        proof {
            assert(!old(self)@.contains(id));
            old(self)@.index_of_first_ensures(id);
        }
    }
}

/// Removing one position from a duplicate-free sequence keeps it
/// duplicate-free.
proof fn lemma_remove_keeps_no_duplicates(s: Seq<u64>, k: int)
    requires
        0 <= k < s.len(),
        s.no_duplicates(),
    ensures
        s.remove(k).no_duplicates(),
{
    let t = s.remove(k);
    assert forall|a: int, b: int| 0 <= a < b < t.len() implies t[a] != t[b] by {
        if b < k {
            assert(s[a] != s[b]);
        } else if a >= k {
            assert(s[a + 1] != s[b + 1]);
        } else if a < k && b >= k {
            assert(s[a] != s[b + 1]);
        }
    }
}

} // verus!
