//! The neighbor cache: lazily learned mappings from IPv4 addresses to
//! link-layer addresses, with least-recently-used eviction when the
//! capacity is reached. On a pure-IP medium such as the loopback device
//! the cache is bypassed entirely.

use vstd::prelude::*;

verus! {

/// Least-recently-used first: index 0 is next in line for eviction, the
/// last entry was used most recently.
pub struct NeighborCache {
    entries: Vec<(u32, u64)>,
    capacity: usize,
}

/// The index of the entry for `ip` at or after position `i`, if any.
pub open spec fn spec_find_key(s: Seq<(u32, u64)>, ip: u32, i: int) -> Option<int>
    decreases s.len() - i,
{
    if i < 0 || i >= s.len() {
        None
    } else if s[i].0 == ip {
        Some(i)
    } else {
        spec_find_key(s, ip, i + 1)
    }
}

/// A missing find really means the key is nowhere at or after `i`.
proof fn lemma_find_key_none(s: Seq<(u32, u64)>, ip: u32, i: int)
    requires
        0 <= i,
        spec_find_key(s, ip, i) is None,
    ensures
        forall|j: int| i <= j < s.len() ==> (#[trigger] s[j]).0 != ip,
    decreases s.len() - i,
{
    if 0 <= i < s.len() {
        lemma_find_key_none(s, ip, i + 1);
    }
}

/// A successful find names an entry holding the key.
proof fn lemma_find_key_some(s: Seq<(u32, u64)>, ip: u32, i: int)
    requires
        spec_find_key(s, ip, i) is Some,
    ensures
        spec_find_key(s, ip, i) matches Some(k) && i <= k < s.len() && s[k].0 == ip,
    decreases s.len() - i,
{
    if 0 <= i < s.len() && s[i].0 != ip {
        lemma_find_key_some(s, ip, i + 1);
    }
}

/// Taking the entry for a key out and putting an entry with the same key
/// at the back keeps the keys free of duplicates.
proof fn lemma_unique_after_requeue(s: Seq<(u32, u64)>, k: int, e: (u32, u64))
    requires
        0 <= k < s.len(),
        forall|i: int, j: int| 0 <= i < j < s.len() ==> (#[trigger] s[i]).0 != (#[trigger] s[j]).0,
        e.0 == s[k].0,
    ensures
        forall|i: int, j: int|
            0 <= i < j < s.remove(k).push(e).len() ==> (#[trigger] s.remove(k).push(e)[i]).0 != (
            #[trigger] s.remove(k).push(e)[j]).0,
{
    s.remove_ensures(k);
    let t = s.remove(k).push(e);
    assert forall|i: int, j: int| 0 <= i < j < t.len() implies (#[trigger] t[i]).0 != (
    #[trigger] t[j]).0 by {
        if j < t.len() - 1 {
            assert(t[i] == if i < k {
                s[i]
            } else {
                s[i + 1]
            });
            assert(t[j] == if j < k {
                s[j]
            } else {
                s[j + 1]
            });
        } else {
            assert(t[j] == e);
            assert(t[i] == if i < k {
                s[i]
            } else {
                s[i + 1]
            });
        }
    }
}

impl NeighborCache {
    /// The entries, least recently used first.
    pub closed spec fn entries(&self) -> Seq<(u32, u64)> {
        self.entries@
    }

    /// How many entries the cache can hold before it evicts.
    pub closed spec fn capacity(&self) -> nat {
        self.capacity as nat
    }

    /// Well-formedness: at most `capacity` entries and no duplicate keys.
    pub open spec fn wf(&self) -> bool {
        &&& 1 <= self.capacity()
        &&& self.entries().len() <= self.capacity()
        &&& forall|i: int, j: int|
            0 <= i < j < self.entries().len() ==> (#[trigger] self.entries()[i]).0 != (
            #[trigger] self.entries()[j]).0
    }

    /// An empty cache.
    pub fn new(capacity: usize) -> (c: NeighborCache)
        requires
            1 <= capacity,
        ensures
            c.entries() =~= Seq::<(u32, u64)>::empty(),
            c.capacity() == capacity,
            c.wf(),
    {
        NeighborCache { entries: Vec::new(), capacity }
    }

    /// Look up the link-layer address of `ip`. A hit also marks the entry
    /// as most recently used, moving it to the back; a miss changes
    /// nothing.
    pub fn lookup_and_touch(&mut self, ip: u32) -> (r: Option<u64>)
        requires
            old(self).wf(),
        ensures
            final(self).wf(),
            final(self).capacity() == old(self).capacity(),
            spec_find_key(old(self).entries(), ip, 0) is None ==> r is None && final(self).entries() == old(self).entries(),
            spec_find_key(old(self).entries(), ip, 0) matches Some(k) ==> r == Some(
                old(self).entries()[k].1,
            ) && final(self).entries() == old(self).entries().remove(k).push(
                old(self).entries()[k],
            ),
    {
        let ghost s0 = self.entries@;
        let mut k: usize = 0;
        while k < self.entries.len()
            invariant
                *self == *old(self),
                old(self).wf(),
                k <= s0.len(),
                s0 == self.entries@,
                spec_find_key(s0, ip, 0) == spec_find_key(s0, ip, k as int),
            decreases s0.len() - k,
        {
            if self.entries[k].0 == ip {
                let hit = self.entries.remove(k);
                self.entries.push(hit);
                proof {
                    lemma_find_key_some(s0, ip, 0);
                    lemma_unique_after_requeue(s0, k as int, s0[k as int]);
                }
                return Some(hit.1);
            }
            k = k + 1;
        }
        proof {
            lemma_find_key_none(s0, ip, 0);
        }
        None
    }

    /// Learn or refresh the entry for `ip`. A known key is updated in
    /// place and marked most recently used; a new key is appended, evicting
    /// the least recently used entry if the cache is full.
    pub fn fill(&mut self, ip: u32, link_addr: u64)
        requires
            old(self).wf(),
        ensures
            final(self).wf(),
            final(self).capacity() == old(self).capacity(),
            spec_find_key(old(self).entries(), ip, 0) matches Some(k) ==> final(self).entries()
                == old(self).entries().remove(k).push((ip, link_addr)),
            spec_find_key(old(self).entries(), ip, 0) is None && old(self).entries().len() < old(self).capacity() ==> final(self).entries() == old(self).entries().push((ip, link_addr)),
            spec_find_key(old(self).entries(), ip, 0) is None && old(self).entries().len() >= old(self).capacity() ==> final(self).entries() == old(self).entries().drop_first().push(
                (ip, link_addr),
            ),
    {
        let ghost s0 = self.entries@;
        let mut k: usize = 0;
        while k < self.entries.len()
            invariant
                *self == *old(self),
                old(self).wf(),
                k <= s0.len(),
                s0 == self.entries@,
                spec_find_key(s0, ip, 0) == spec_find_key(s0, ip, k as int),
            decreases s0.len() - k,
        {
            if self.entries[k].0 == ip {
                let _stale = self.entries.remove(k);
                self.entries.push((ip, link_addr));
                proof {
                    lemma_find_key_some(s0, ip, 0);
                    lemma_unique_after_requeue(s0, k as int, (ip, link_addr));
                }
                return ;
            }
            k = k + 1;
        }
        proof {
            lemma_find_key_none(s0, ip, 0);
        }
        if self.entries.len() >= self.capacity {
            let _evicted = self.entries.remove(0);
            self.entries.push((ip, link_addr));
            proof {
                assert(self.entries@ =~= s0.drop_first().push((ip, link_addr)));
                assert forall|a: int, b: int|
                    0 <= a < b < self.entries@.len() implies (#[trigger] self.entries@[a]).0 != (
                #[trigger] self.entries@[b]).0 by {
                    assert(forall|x: int|
                        0 <= x < self.entries@.len() - 1 ==> #[trigger] self.entries@[x] == s0[x
                            + 1]);
                }
            }
        } else {
            self.entries.push((ip, link_addr));
        }
    }
}

} // verus!
