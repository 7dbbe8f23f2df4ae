//! Dense integer handles for the readiness poller.
//!
//! Every token registered with the poller comes from here. A token is either
//! in use or on the free list, never both; a live token is never handed out
//! a second time, and freed tokens may be reused.

use vstd::prelude::*;

verus! {

/// The supply of poller tokens: a monotonic counter for fresh handles and a
/// free list of returned ones.
pub struct TokenManager {
    pub used_tokens: Vec<u64>,
    pub free_tokens: Vec<u64>,
    pub next: u64,
}

impl TokenManager {
    /// The allocator's bookkeeping is consistent: no token appears twice in
    /// the used list or the free list, no token is both used and free, and
    /// every recorded token lies below the fresh-token counter.
    pub open spec fn wf(self) -> bool {
        &&& forall|i: int, j: int|
            0 <= i < j < self.used_tokens@.len() ==> self.used_tokens@[i] != self.used_tokens@[j]
        &&& forall|i: int, j: int|
            0 <= i < j < self.free_tokens@.len() ==> self.free_tokens@[i] != self.free_tokens@[j]
        &&& forall|i: int, j: int|
            0 <= i < self.used_tokens@.len() && 0 <= j < self.free_tokens@.len()
                ==> self.used_tokens@[i] != self.free_tokens@[j]
        &&& forall|i: int| 0 <= i < self.used_tokens@.len() ==> self.used_tokens@[i] < self.next
        &&& forall|i: int| 0 <= i < self.free_tokens@.len() ==> self.free_tokens@[i] < self.next
    }

    /// Whether `t` is currently allocated.
    pub open spec fn is_used(self, t: u64) -> bool {
        self.used_tokens@.contains(t)
    }

    /// Whether `t` is on the free list, awaiting reuse.
    pub open spec fn is_free(self, t: u64) -> bool {
        self.free_tokens@.contains(t)
    }

    /// A fresh allocator: nothing used, nothing free.
    pub fn new() -> (r: TokenManager)
        ensures
            r.wf(),
            forall|t: u64| !r.is_used(t),
            forall|t: u64| !r.is_free(t),
            r.next == 0,
    {
        TokenManager { used_tokens: Vec::new(), free_tokens: Vec::new(), next: 0 }
    }

    /// Allocates a token: the most recently freed one when any is waiting
    /// (the counter stands still), otherwise the counter's value, advancing
    /// it by one. The token returned is not in use by anyone else at the
    /// moment it is handed out.
    pub fn allocate_token(&mut self) -> (t: u64)
        requires
            old(self).wf(),
            old(self).next < u64::MAX,
        ensures
            final(self).wf(),
            !old(self).is_used(t),
            final(self).is_used(t),
            forall|u: u64| u != t ==> final(self).is_used(u) == old(self).is_used(u),
            forall|u: u64| final(self).is_free(u) == (old(self).is_free(u) && u != t),
            old(self).free_tokens@.len() > 0 ==> (t == old(self).free_tokens@.last()
                && final(self).free_tokens@ == old(self).free_tokens@.drop_last()
                && final(self).next == old(self).next),
            old(self).free_tokens@.len() == 0 ==> (t == old(self).next
                && final(self).next == old(self).next + 1
                && final(self).free_tokens@ == old(self).free_tokens@),
    {
        let popped = self.free_tokens.pop();
        match popped {
            Some(t) => {
                proof {
                    let of = old(self).free_tokens@;
                    assert(of[of.len() - 1] == t);
                    assert(of.contains(t));
                    assert(!old(self).is_used(t));
                    assert forall|u: u64| self.free_tokens@.contains(u) implies (
                    old(self).is_free(u) && u != t) by {
                        let i = choose|i: int|
                            0 <= i < self.free_tokens@.len() && self.free_tokens@[i] == u;
                        assert(of[i] == u);
                    }
                    assert forall|u: u64| old(self).is_free(u) && u != t implies self.free_tokens@
                        .contains(u) by {
                        let i = choose|i: int| 0 <= i < of.len() && of[i] == u;
                        assert(i != of.len() - 1);
                        assert(self.free_tokens@[i] == u);
                    }
                }
                self.used_tokens.push(t);
                proof {
                    assert forall|u: u64| #[trigger] self.used_tokens@.contains(u) implies (u == t
                        || old(self).is_used(u)) by {
                        let i = choose|i: int|
                            0 <= i < self.used_tokens@.len() && self.used_tokens@[i] == u;
                        if i < self.used_tokens@.len() - 1 {
                            assert(old(self).used_tokens@[i] == u);
                        }
                    }
                    assert forall|u: u64| old(self).is_used(u) implies self.used_tokens@.contains(
                        u,
                    ) by {
                        let i = choose|i: int|
                            0 <= i < old(self).used_tokens@.len() && old(self).used_tokens@[i]
                                == u;
                        assert(self.used_tokens@[i] == u);
                    }
                    assert(self.used_tokens@[self.used_tokens@.len() - 1] == t);
                }
                t
            },
            None => {
                let t = self.next;
                self.next = self.next + 1;
                self.used_tokens.push(t);
                proof {
                    assert(!old(self).is_used(t));
                    assert forall|u: u64| #[trigger] self.used_tokens@.contains(u) implies (u == t
                        || old(self).is_used(u)) by {
                        let i = choose|i: int|
                            0 <= i < self.used_tokens@.len() && self.used_tokens@[i] == u;
                        if i < self.used_tokens@.len() - 1 {
                            assert(old(self).used_tokens@[i] == u);
                        }
                    }
                    assert forall|u: u64| old(self).is_used(u) implies self.used_tokens@.contains(
                        u,
                    ) by {
                        let i = choose|i: int|
                            0 <= i < old(self).used_tokens@.len() && old(self).used_tokens@[i]
                                == u;
                        assert(self.used_tokens@[i] == u);
                    }
                    assert(self.used_tokens@[self.used_tokens@.len() - 1] == t);
                }
                t
            },
        }
    }

    /// Returns a token to the allocator. A token that was in use moves to
    /// the free list; freeing a token that was not in use changes nothing.
    pub fn free_token(&mut self, t: u64)
        requires
            old(self).wf(),
        ensures
            final(self).wf(),
            !final(self).is_used(t),
            final(self).is_free(t) == (old(self).is_used(t) || old(self).is_free(t)),
            forall|u: u64| u != t ==> final(self).is_used(u) == old(self).is_used(u),
            forall|u: u64| u != t ==> final(self).is_free(u) == old(self).is_free(u),
            final(self).free_tokens@ == (if old(self).is_used(t) {
                old(self).free_tokens@.push(t)
            } else {
                old(self).free_tokens@
            }),
            final(self).next == old(self).next,
    {
        let mut idx: usize = 0;
        let n = self.used_tokens.len();
        while idx < n
            invariant
                old(self).wf(),
                n == self.used_tokens@.len(),
                idx <= n,
                forall|k: int| 0 <= k < idx ==> self.used_tokens@[k] != t,
                *self == *old(self),
            decreases n - idx,
        {
            if self.used_tokens[idx] == t {
                proof {
                    assert(old(self).used_tokens@[idx as int] == t);
                    assert(old(self).is_used(t));
                }
                let ghost ou = old(self).used_tokens@;
                let ghost of = old(self).free_tokens@;
                let ghost ii = idx as int;
                self.used_tokens.remove(idx);
                self.free_tokens.push(t);
                proof {
                    let nu = self.used_tokens@;
                    let nf = self.free_tokens@;
                    assert(forall|a: int, b: int| 0 <= a < b < ou.len() ==> ou[a] != ou[b]);
                    assert(forall|a: int, b: int| 0 <= a < b < of.len() ==> of[a] != of[b]);
                    assert(forall|a: int, b: int|
                        0 <= a < ou.len() && 0 <= b < of.len() ==> ou[a] != of[b]);
                    assert(forall|a: int| 0 <= a < ou.len() ==> ou[a] < old(self).next);
                    assert(forall|b: int| 0 <= b < of.len() ==> of[b] < old(self).next);
                    assert(ou[ii] == t);
                    assert(nu.len() == ou.len() - 1);
                    assert(forall|k: int| 0 <= k < ii ==> nu[k] == ou[k]);
                    assert(forall|k: int| ii <= k < nu.len() ==> nu[k] == ou[k + 1]);
                    assert(nf.len() == of.len() + 1);
                    assert(forall|k: int| 0 <= k < of.len() ==> nf[k] == of[k]);
                    assert(nf[of.len() as int] == t);
                    assert forall|u: u64| #[trigger] nu.contains(u) implies (old(self).is_used(u)
                        && u != t) by {
                        let i = choose|i: int| 0 <= i < nu.len() && nu[i] == u;
                        if i < ii {
                            assert(ou[i] == u);
                            assert(ou.contains(u));
                            if u == t {
                                assert(ou[i] == ou[ii]);
                                assert(false);
                            }
                        } else {
                            assert(ou[i + 1] == u);
                            assert(ou.contains(u));
                            if u == t {
                                assert(ou[ii] == ou[i + 1]);
                                assert(false);
                            }
                        }
                    }
                    assert forall|u: u64| old(self).is_used(u) && u != t implies nu.contains(
                        u,
                    ) by {
                        let i = choose|i: int| 0 <= i < ou.len() && ou[i] == u;
                        if i < ii {
                            assert(nu[i] == u);
                        } else {
                            assert(i != ii);
                            assert(nu[i - 1] == u);
                        }
                    }
                    assert forall|u: u64| #[trigger] nf.contains(u) implies (u == t || old(self).is_free(u)) by {
                        let i = choose|i: int| 0 <= i < nf.len() && nf[i] == u;
                        if i < of.len() {
                            assert(of[i] == u);
                            assert(of.contains(u));
                        }
                    }
                    assert forall|u: u64| old(self).is_free(u) implies nf.contains(u) by {
                        let i = choose|i: int| 0 <= i < of.len() && of[i] == u;
                        assert(nf[i] == u);
                    }
                    assert(nf.contains(t));
                    assert forall|j: int| 0 <= j < of.len() implies of[j] != t by {
                        assert(ou[ii] != of[j]);
                    }
                    assert forall|a: int, b: int| 0 <= a < b < nu.len() implies nu[a] != nu[b] by {
                        if b < ii {
                            assert(nu[a] == ou[a] && nu[b] == ou[b]);
                        } else if a < ii {
                            assert(nu[a] == ou[a] && nu[b] == ou[b + 1]);
                        } else {
                            assert(nu[a] == ou[a + 1] && nu[b] == ou[b + 1]);
                        }
                    }
                    assert forall|a: int, b: int| 0 <= a < b < nf.len() implies nf[a] != nf[b] by {
                        if b == of.len() {
                            assert(nf[b] == t && nf[a] == of[a]);
                        }
                    }
                    assert forall|a: int, b: int|
                        0 <= a < nu.len() && 0 <= b < nf.len() implies nu[a] != nf[b] by {
                        assert(nu.contains(nu[a]));
                        if a < ii {
                            assert(nu[a] == ou[a]);
                        } else {
                            assert(nu[a] == ou[a + 1]);
                        }
                        if b < of.len() {
                            assert(nf[b] == of[b]);
                        } else {
                            assert(nf[b] == t);
                        }
                    }
                    assert forall|a: int| 0 <= a < nu.len() implies nu[a] < self.next by {
                        if a < ii {
                            assert(nu[a] == ou[a]);
                        } else {
                            assert(nu[a] == ou[a + 1]);
                        }
                    }
                    assert forall|b: int| 0 <= b < nf.len() implies nf[b] < self.next by {
                        if b < of.len() {
                            assert(nf[b] == of[b]);
                        } else {
                            assert(nf[b] == t && ou[ii] == t);
                        }
                    }
                }
                return ;
            }
            idx = idx + 1;
        }
        proof {
            if self.used_tokens@.contains(t) {
                let i = choose|i: int|
                    0 <= i < self.used_tokens@.len() && self.used_tokens@[i] == t;
                assert(self.used_tokens@[i] != t);
            }
        }
    }
}

} // verus!
