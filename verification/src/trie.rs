//! The binary prefix trie: insertion of routes and longest-prefix search.

use vstd::prelude::*;

use crate::addr::addr_bit;
use crate::addr::addr_bits;
use crate::addr::bits_range;
use crate::addr::prefix_bits;
use crate::addr::Ipv4Address;
use crate::lpm::best_match_len;
use crate::lpm::lemma_best_match_len;
use crate::lpm::lookup_spec;

verus! {

/// The two failure modes of the table: an insertion whose prefix length
/// exceeds the 32 bits of an IPv4 address, and a lookup that meets no
/// registered covering prefix.
#[derive(Clone, Copy, Debug, PartialEq, Eq, Structural)]
pub enum TrieError {
    InsertionFailed,
    NoRouteFound,
}

/// A node of the binary trie. The node reached from the root by the bit
/// choices `p` stands for the prefix `p`; when `is_end_node` is set the node
/// terminates a registered prefix and `route` carries its label.
pub struct TrieNode {
    zero: Option<Box<TrieNode>>,
    one: Option<Box<TrieNode>>,
    is_end_node: bool,
    route: Option<String>,
}

/// The view of an optional route as an optional character sequence.
spec fn opt_route_view(o: Option<String>) -> Option<Seq<char>> {
    match o {
        Some(s) => Some(s@),
        None => None,
    }
}

impl TrieNode {
    /// The child slot for one bit value.
    spec fn child(self, b: bool) -> Option<Box<TrieNode>> {
        if b {
            self.one
        } else {
            self.zero
        }
    }

    /// The route registered at prefix `p` below this node, if any.
    spec fn route_at(self, p: Seq<bool>) -> Option<Seq<char>>
        decreases p.len(),
    {
        if p.len() == 0 {
            if self.is_end_node {
                opt_route_view(self.route)
            } else {
                None
            }
        } else {
            match self.child(p[0]) {
                Some(c) => c.route_at(p.drop_first()),
                None => None,
            }
        }
    }

    /// The trie as a map from registered bit prefixes to their routes.
    pub closed spec fn as_route_map(self) -> Map<Seq<bool>, Seq<char>> {
        Map::new(|p: Seq<bool>| self.route_at(p) is Some, |p: Seq<bool>| self.route_at(p).unwrap())
    }

    /// Well-formedness: a node terminates a prefix exactly when it carries a
    /// route, and the same holds throughout both subtrees.
    pub closed spec fn wf(self) -> bool
        decreases self,
    {
        &&& (self.is_end_node <==> self.route is Some)
        &&& (match self.zero {
            Some(c) => c.wf(),
            None => true,
        })
        &&& (match self.one {
            Some(c) => c.wf(),
            None => true,
        })
    }

    /// Creates an empty trie: well formed, with no registered prefix.
    pub fn new() -> (t: TrieNode)
        ensures
            t.wf(),
            t@ == Map::<Seq<bool>, Seq<char>>::empty(),
    {
        let t = TrieNode { zero: None, one: None, is_end_node: false, route: None };
        proof {
            assert forall|p: Seq<bool>| t.route_at(p) is None by {
                if p.len() == 0 {
                } else {
                }
            }
            assert(t@ =~= Map::<Seq<bool>, Seq<char>>::empty());
        }
        t
    }
}

impl TrieNode {
    /// A trie whose view is the empty map registers no prefix at all.
    proof fn lemma_empty_no_routes(self)
        requires
            self@ == Map::<Seq<bool>, Seq<char>>::empty(),
        ensures
            forall|p: Seq<bool>| self.route_at(p) is None,
    {
        assert forall|p: Seq<bool>| self.route_at(p) is None by {
            if self.route_at(p) is Some {
                assert(self.as_route_map().dom().contains(p));
            }
        }
    }

    /// Registers `route` at the prefix formed by bits `depth..mask` of
    /// `addr`, relative to this node; every other prefix below this node is
    /// left as it was.
    fn insert_at(&mut self, addr: &Ipv4Address, route: String, depth: usize, mask: usize)
        requires
            depth <= mask,
            mask <= 32,
            old(self).wf(),
        ensures
            final(self).wf(),
            final(self).route_at(bits_range(*addr, depth as int, mask as int)) == Some(route@),
            forall|p: Seq<bool>|
                p != bits_range(*addr, depth as int, mask as int) ==> final(self).route_at(p)
                    == old(self).route_at(p),
        decreases mask - depth,
    {
        let ghost seg = bits_range(*addr, depth as int, mask as int);
        if depth == mask {
            self.is_end_node = true;
            self.route = Some(route);
            proof {
                assert(seg.len() == 0);
                assert forall|p: Seq<bool>|
                    p != seg implies final(self).route_at(p) == old(self).route_at(p) by {
                    if p.len() == 0 {
                        assert(p =~= seg);
                    }
                }
            }
        } else {
            let b = addr.bit_at(depth);
            proof {
                assert(seg.len() == mask - depth);
                assert(seg[0] == addr_bit(*addr, depth as int));
                assert(seg.drop_first() =~= bits_range(*addr, depth as int + 1, mask as int));
            }
            let ghost child_before = old(self).child(b);
            let mut child: Box<TrieNode> = match (if b {
                self.one.take()
            } else {
                self.zero.take()
            }) {
                Some(c) => c,
                None => Box::new(TrieNode::new()),
            };
            let ghost child_pre = *child;
            proof {
                if child_before is None {
                    child_pre.lemma_empty_no_routes();
                }
            }
            (&mut *child).insert_at(addr, route, depth + 1, mask);
            if b {
                self.one = Some(child);
            } else {
                self.zero = Some(child);
            }
            proof {
                let sub = bits_range(*addr, depth as int + 1, mask as int);
                assert(final(self).child(b) == Some(Box::new(*child)));
                assert(final(self).route_at(seg) == child.route_at(sub));
                assert forall|p: Seq<bool>|
                    p != seg implies final(self).route_at(p) == old(self).route_at(p) by {
                    if p.len() == 0 {
                    } else if p[0] == addr_bit(*addr, depth as int) {
                        let pd = p.drop_first();
                        assert(pd != sub) by {
                            if pd == sub {
                                assert forall|i: int| 0 <= i < p.len() implies p[i] == seg[i] by {
                                    if i > 0 {
                                        assert(p[i] == pd[i - 1]);
                                        assert(seg[i] == sub[i - 1]);
                                    }
                                }
                                assert(p =~= seg);
                            }
                        }
                        assert(final(self).route_at(p) == child.route_at(pd));
                        assert(child.route_at(pd) == child_pre.route_at(pd));
                        match child_before {
                            Some(c0) => {
                                assert(old(self).route_at(p) == c0.route_at(pd));
                            },
                            None => {
                                assert(old(self).route_at(p) is None);
                            },
                        }
                    } else {
                        assert(final(self).child(p[0]) == old(self).child(p[0]));
                    }
                }
            }
        }
    }

    /// Registers `route` for the prefix formed by the first `subnet_mask`
    /// bits of `net_addr`. A prefix length over 32 is rejected with
    /// `InsertionFailed` and leaves the trie untouched; otherwise the route
    /// is registered — overwriting any route previously held at that exact
    /// prefix — and the confirmation names the route that was added.
    pub fn insert(&mut self, net_addr: Ipv4Address, route: String, subnet_mask: usize) -> (r:
        Result<String, TrieError>)
        requires
            old(self).wf(),
        ensures
            final(self).wf(),
            subnet_mask <= 32 ==> (r matches Ok(confirmation) && confirmation@ == route@
                && final(self)@ == old(self)@.insert(
                prefix_bits(net_addr, subnet_mask as int),
                route@,
            )),
            subnet_mask > 32 ==> (r matches Err(e) && e == TrieError::InsertionFailed
                && *final(self) == *old(self)),
    {
        if subnet_mask > 32 {
            return Err(TrieError::InsertionFailed);
        }
        let confirmation = route.clone();
        self.insert_at(&net_addr, route, 0, subnet_mask);
        proof {
            let seg = prefix_bits(net_addr, subnet_mask as int);
            assert forall|p: Seq<bool>|
                #![trigger final(self).as_route_map().dom().contains(p)]
                #![trigger old(self).as_route_map().dom().contains(p)]
                true implies final(self).route_at(p) == (if p == seg {
                Some(route@)
            } else {
                old(self).route_at(p)
            }) by {}
            assert(final(self)@ =~= old(self)@.insert(seg, route@));
        }
        Ok(confirmation)
    }

    /// What a bit-path walk from this node yields: the route of the deepest
    /// termination node met while consuming the bits of `addr` from position
    /// `depth` on, this node itself included.
    spec fn lookup_from(self, addr: Ipv4Address, depth: int) -> Option<Seq<char>>
        recommends
            0 <= depth <= 32,
        decreases 32 - depth,
    {
        let own = if self.is_end_node {
            opt_route_view(self.route)
        } else {
            None
        };
        if depth < 0 || depth >= 32 {
            own
        } else {
            match self.child(addr_bit(addr, depth)) {
                Some(c) => match c.lookup_from(addr, depth + 1) {
                    Some(r) => Some(r),
                    None => own,
                },
                None => own,
            }
        }
    }

    /// The walk finds exactly the deepest registered prefix along the
    /// address's bit path: the returned ghost depth witnesses it.
    proof fn lemma_lookup_from(self, addr: Ipv4Address, depth: int) -> (n: int)
        requires
            0 <= depth <= 32,
        ensures
            self.lookup_from(addr, depth) is Some ==> depth <= n <= 32 && self.route_at(
                bits_range(addr, depth, n),
            ) == self.lookup_from(addr, depth) && (forall|j: int|
                n < j <= 32 ==> self.route_at(bits_range(addr, depth, j)) is None),
            self.lookup_from(addr, depth) is None ==> (forall|j: int|
                depth <= j <= 32 ==> self.route_at(bits_range(addr, depth, j)) is None),
        decreases 32 - depth,
    {
        let own_seg = bits_range(addr, depth, depth);
        assert(own_seg.len() == 0);
        if depth == 32 {
            assert forall|j: int| depth <= j <= 32 implies self.route_at(bits_range(addr, depth, j))
                == self.lookup_from(addr, depth) by {}
            32
        } else {
            let b = addr_bit(addr, depth);
            match self.child(b) {
                None => {
                    assert forall|j: int|
                        depth < j <= 32 implies self.route_at(bits_range(addr, depth, j))
                        is None by {
                        assert(bits_range(addr, depth, j).len() == j - depth);
                        assert(bits_range(addr, depth, j)[0] == b);
                    }
                    depth
                },
                Some(c) => {
                    let n_sub = c.lemma_lookup_from(addr, depth + 1);
                    assert forall|j: int|
                        depth < j <= 32 implies self.route_at(bits_range(addr, depth, j))
                        == c.route_at(bits_range(addr, depth + 1, j)) by {
                        let p = bits_range(addr, depth, j);
                        assert(p.len() == j - depth);
                        assert(p[0] == b);
                        assert(p.drop_first() =~= bits_range(addr, depth + 1, j));
                    }
                    match c.lookup_from(addr, depth + 1) {
                        Some(r) => n_sub,
                        None => depth,
                    }
                },
            }
        }
    }

    /// Recursive search helper: computes the walk that `lookup_from`
    /// describes, cloning the route of the deepest termination node met.
    fn search_from(&self, addr: &Ipv4Address, depth: usize) -> (r: Option<String>)
        requires
            depth <= 32,
        ensures
            opt_route_view(r) == self.lookup_from(*addr, depth as int),
        decreases 32 - depth,
    {
        let deeper: Option<String> = if depth < 32 {
            let b = addr.bit_at(depth);
            let child = if b {
                &self.one
            } else {
                &self.zero
            };
            match child {
                Some(c) => c.search_from(addr, depth + 1),
                None => None,
            }
        } else {
            None
        };
        match deeper {
            Some(route) => Some(route),
            None => {
                if self.is_end_node {
                    match &self.route {
                        Some(s) => Some(s.clone()),
                        None => None,
                    }
                } else {
                    None
                }
            },
        }
    }

    /// Looks up the route for `dst_addr`: the route registered at the
    /// deepest prefix of the address present in the table, or `NoRouteFound`
    /// when no registered prefix covers the address.
    pub fn search(&self, dst_addr: &Ipv4Address) -> (r: Result<String, TrieError>)
        requires
            self.wf(),
        ensures
            match r {
                Ok(route) => lookup_spec(self@, addr_bits(*dst_addr)) == Some(route@),
                Err(e) => e == TrieError::NoRouteFound && lookup_spec(self@, addr_bits(*dst_addr))
                    is None,
            },
    {
        let found = self.search_from(dst_addr, 0);
        proof {
            self.lemma_search_matches_lookup_spec(*dst_addr);
        }
        match found {
            Some(route) => Ok(route),
            None => Err(TrieError::NoRouteFound),
        }
    }

    /// The bit-path walk from the root is exactly a longest-prefix lookup in
    /// the trie's map view.
    proof fn lemma_search_matches_lookup_spec(self, addr: Ipv4Address)
        ensures
            self.lookup_from(addr, 0) == lookup_spec(self@, addr_bits(addr)),
    {
        let bits = addr_bits(addr);
        assert(bits.len() == 32);
        assert forall|j: int| 0 <= j <= 32 implies bits.take(j) == bits_range(addr, 0, j) by {
            crate::addr::lemma_prefix_bits_take(addr, j);
        }
        let n = self.lemma_lookup_from(addr, 0);
        lemma_best_match_len(self@, bits, 32);
        match self.lookup_from(addr, 0) {
            Some(r) => {
                assert(self@.contains_key(bits.take(n)));
                match best_match_len(self@, bits, 32) {
                    Some(nb) => {
                        if nb < n {
                            assert(self@.contains_key(bits.take(n)));
                            assert(false);
                        }
                        if nb > n {
                            assert(self.route_at(bits_range(addr, 0, nb)) is None);
                            assert(!self@.contains_key(bits.take(nb)));
                            assert(false);
                        }
                        assert(self@[bits.take(n)] == r);
                    },
                    None => {
                        assert(false);
                    },
                }
            },
            None => {
                match best_match_len(self@, bits, 32) {
                    Some(nb) => {
                        assert(self.route_at(bits_range(addr, 0, nb)) is None);
                        assert(!self@.contains_key(bits.take(nb)));
                        assert(false);
                    },
                    None => {},
                }
            },
        }
    }
}

impl View for TrieNode {
    type V = Map<Seq<bool>, Seq<char>>;

    open spec fn view(&self) -> Map<Seq<bool>, Seq<char>> {
        self.as_route_map()
    }
}

} // verus!
