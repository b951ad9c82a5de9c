//! The route table: IPv4 prefixes mapped to next-hop addresses, with
//! longest-prefix-match lookup, first-inserted tie-breaking, and an
//! optional default route.

use vstd::prelude::*;

verus! {

/// An IPv4 network prefix: an address and a prefix length between 0 and 32.
#[derive(Clone, Copy, PartialEq, Eq, Structural, Debug)]
pub struct Ipv4Cidr {
    pub address: u32,
    pub prefix_len: u8,
}

/// The network mask selecting the first `len` bits of an address.
pub open spec fn spec_mask_of(len: u8) -> u32 {
    if len == 0 {
        0u32
    } else {
        (0xFFFF_FFFFu32 << ((32 - len) as u32)) as u32
    }
}

/// Whether `addr` lies inside the prefix: the masked bits agree.
pub open spec fn spec_prefix_contains(p: Ipv4Cidr, addr: u32) -> bool {
    addr & spec_mask_of(p.prefix_len) == p.address & spec_mask_of(p.prefix_len)
}

impl Ipv4Cidr {
    /// A prefix length beyond 32 bits is meaningless for IPv4.
    pub open spec fn wf(self) -> bool {
        self.prefix_len <= 32
    }

    /// Whether `addr` lies inside this prefix.
    pub fn contains(&self, addr: u32) -> (r: bool)
        requires
            self.wf(),
        ensures
            r == spec_prefix_contains(*self, addr),
    {
        let mask: u32 = if self.prefix_len == 0 {
            0u32
        } else {
            0xFFFF_FFFFu32 << ((32 - self.prefix_len) as u32)
        };
        addr & mask == self.address & mask
    }
}

/// A routing entry: every address inside `prefix` is forwarded to `next_hop`.
#[derive(Clone, Copy, PartialEq, Eq, Structural, Debug)]
pub struct Route {
    pub prefix: Ipv4Cidr,
    pub next_hop: u32,
}

/// Failures of route-table operations.
#[derive(Clone, Copy, PartialEq, Eq, Structural, Debug)]
pub enum RouteError {
    /// A route with an identical prefix is already present.
    DuplicatePrefix,
    /// No route contains the address and no default route is set.
    NoRoute,
}

/// Whether index `i` names a route of `s` whose prefix contains `addr`.
pub open spec fn spec_matches_at(s: Seq<Route>, addr: u32, i: int) -> bool {
    0 <= i < s.len() && spec_prefix_contains(s[i].prefix, addr)
}

/// Whether index `i` is the route that longest-prefix-match selects for
/// `addr`: its prefix contains `addr`, no containing prefix is longer, and
/// among equally long containing prefixes it is the first inserted.
pub open spec fn spec_is_best_match(s: Seq<Route>, addr: u32, i: int) -> bool {
    &&& spec_matches_at(s, addr, i)
    &&& forall|j: int|
        spec_matches_at(s, addr, j) ==> s[j].prefix.prefix_len <= s[i].prefix.prefix_len
    &&& forall|j: int|
        spec_matches_at(s, addr, j) && s[j].prefix.prefix_len == s[i].prefix.prefix_len ==> i
            <= j
}

/// An ordered collection of routes plus at most one default route.
pub struct RouteTable {
    routes: Vec<Route>,
    default_route: Option<u32>,
}

impl RouteTable {
    /// The routes, in insertion order.
    pub closed spec fn routes(&self) -> Seq<Route> {
        self.routes@
    }

    /// The default route's next hop, if one is set.
    pub closed spec fn default_route(&self) -> Option<u32> {
        self.default_route
    }

    /// All stored prefixes are well formed.
    pub open spec fn wf(&self) -> bool {
        forall|i: int| 0 <= i < self.routes().len() ==> (#[trigger] self.routes()[i]).prefix.wf()
    }

    /// Whether some route contains `addr` or a default route is set, i.e.
    /// whether `lookup(addr)` succeeds.
    pub open spec fn spec_has_route(&self, addr: u32) -> bool {
        (exists|i: int| spec_matches_at(self.routes(), addr, i)) || self.default_route() is Some
    }

    /// An empty table with no default route.
    pub fn new() -> (t: RouteTable)
        ensures
            t.routes() =~= Seq::<Route>::empty(),
            t.default_route() is None,
            t.wf(),
    {
        RouteTable { routes: Vec::new(), default_route: None }
    }

    /// Add a route. Rejects an identical prefix (same address and length)
    /// rather than replacing it, leaving the table unchanged; otherwise the
    /// route is appended after all existing ones.
    pub fn add_route(&mut self, prefix: Ipv4Cidr, next_hop: u32) -> (r: Result<(), RouteError>)
        requires
            prefix.wf(),
            old(self).wf(),
        ensures
            final(self).wf(),
            final(self).default_route() == old(self).default_route(),
            (exists|i: int|
                0 <= i < old(self).routes().len() && (#[trigger] old(self).routes()[i]).prefix
                    == prefix) ==> r == Err::<(), RouteError>(RouteError::DuplicatePrefix)
                && final(self).routes() == old(self).routes(),
            (forall|i: int|
                0 <= i < old(self).routes().len() ==> (#[trigger] old(self).routes()[i]).prefix
                    != prefix) ==> r == Ok::<(), RouteError>(()) && final(self).routes()
                == old(self).routes().push(Route { prefix, next_hop }),
    {
        let mut i: usize = 0;
        while i < self.routes.len()
            invariant
                *self == *old(self),
                self.wf(),
                i <= self.routes.len(),
                forall|j: int| 0 <= j < i ==> (#[trigger] self.routes@[j]).prefix != prefix,
            decreases self.routes.len() - i,
        {
            if self.routes[i].prefix == prefix {
                return Err(RouteError::DuplicatePrefix);
            }
            i = i + 1;
        }
        self.routes.push(Route { prefix, next_hop });
        Ok(())
    }

    /// Set or replace the default route, used when no prefix contains a
    /// looked-up address.
    pub fn set_default_route(&mut self, next_hop: u32)
        ensures
            final(self).routes() == old(self).routes(),
            final(self).default_route() == Some(next_hop),
    {
        self.default_route = Some(next_hop);
    }

    /// Longest-prefix-match lookup: among the routes whose prefix contains
    /// `addr`, the one with the greatest prefix length wins, ties broken in
    /// favor of the first inserted; with no containing route the default
    /// route answers, and with none set the lookup fails with `NoRoute`.
    pub fn lookup(&self, addr: u32) -> (r: Result<u32, RouteError>)
        requires
            self.wf(),
        ensures
            (exists|i: int| spec_matches_at(self.routes(), addr, i)) ==> exists|i: int|
                spec_is_best_match(self.routes(), addr, i) && r == Ok::<u32, RouteError>(
                    self.routes()[i].next_hop,
                ),
            (forall|i: int| !spec_matches_at(self.routes(), addr, i)) ==> match self
                .default_route() {
                Some(d) => r == Ok::<u32, RouteError>(d),
                None => r == Err::<u32, RouteError>(RouteError::NoRoute),
            },
            r is Ok <==> self.spec_has_route(addr),
    {
        let mut best: usize = 0;
        let mut found: bool = false;
        let mut i: usize = 0;
        while i < self.routes.len()
            invariant
                self.wf(),
                i <= self.routes.len(),
                !found ==> forall|j: int| 0 <= j < i ==> !spec_matches_at(self.routes(), addr, j),
                found ==> best < i && spec_matches_at(self.routes(), addr, best as int),
                found ==> forall|j: int|
                    0 <= j < i && spec_matches_at(self.routes(), addr, j)
                        ==> self.routes()[j].prefix.prefix_len
                        <= self.routes()[best as int].prefix.prefix_len,
                found ==> forall|j: int|
                    0 <= j < i && spec_matches_at(self.routes(), addr, j)
                        && self.routes()[j].prefix.prefix_len
                        == self.routes()[best as int].prefix.prefix_len ==> best <= j,
            decreases self.routes.len() - i,
        {
            let rt = self.routes[i];
            if rt.prefix.contains(addr) {
                if !found || rt.prefix.prefix_len > self.routes[best].prefix.prefix_len {
                    best = i;
                    found = true;
                }
            }
            i = i + 1;
        }
        if found {
            proof {
                assert(spec_is_best_match(self.routes(), addr, best as int));
            }
            Ok(self.routes[best].next_hop)
        } else {
            match self.default_route {
                Some(d) => Ok(d),
                None => Err(RouteError::NoRoute),
            }
        }
    }
}

} // verus!
