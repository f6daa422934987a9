//! The mathematics of longest-prefix match over a map from bit prefixes to
//! routes, independent of any particular table representation.

use vstd::prelude::*;

verus! {

/// The deepest `n` with `0 <= n <= k` such that the first `n` bits of the
/// address form a registered prefix, or `None` if no such depth exists.
pub open spec fn best_match_len(m: Map<Seq<bool>, Seq<char>>, bits: Seq<bool>, k: int) -> Option<
    int,
>
    recommends
        0 <= k <= bits.len(),
    decreases k,
{
    if k <= 0 {
        if m.contains_key(bits.take(0)) {
            Some(0)
        } else {
            None
        }
    } else if m.contains_key(bits.take(k)) {
        Some(k)
    } else {
        best_match_len(m, bits, k - 1)
    }
}

/// What a longest-prefix lookup of `bits` in the table `m` yields: the route
/// registered at the deepest prefix of `bits` present in `m`, if any.
pub open spec fn lookup_spec(m: Map<Seq<bool>, Seq<char>>, bits: Seq<bool>) -> Option<Seq<char>> {
    match best_match_len(m, bits, bits.len() as int) {
        Some(n) => Some(m[bits.take(n)]),
        None => None,
    }
}

/// `best_match_len` is exactly the deepest covering prefix: when it yields a
/// depth, that prefix is registered and no deeper one is; when it yields
/// nothing, no prefix of the address is registered at all.
pub proof fn lemma_best_match_len(m: Map<Seq<bool>, Seq<char>>, bits: Seq<bool>, k: int)
    requires
        0 <= k <= bits.len(),
    ensures
        match best_match_len(m, bits, k) {
            Some(n) => 0 <= n <= k && m.contains_key(bits.take(n)) && (forall|j: int|
                n < j <= k ==> !m.contains_key(bits.take(j))),
            None => forall|j: int| 0 <= j <= k ==> !m.contains_key(bits.take(j)),
        },
    decreases k,
{
    if k > 0 && !m.contains_key(bits.take(k)) {
        lemma_best_match_len(m, bits, k - 1);
    }
}

/// Idempotent overwrite: registering a route at a prefix and then another
/// route at the same prefix leaves the table exactly as if only the second
/// route had been registered there — only the second one is retrievable.
pub proof fn lemma_overwrite(
    m: Map<Seq<bool>, Seq<char>>,
    p: Seq<bool>,
    r1: Seq<char>,
    r2: Seq<char>,
)
    ensures
        m.insert(p, r1).insert(p, r2) == m.insert(p, r2),
{
    assert(m.insert(p, r1).insert(p, r2) =~= m.insert(p, r2));
}

/// Specificity ordering: when two prefixes of the address are registered at
/// depths `n1 < n2`, the lookup result comes from a depth of at least `n2`,
/// so it is never the route registration at the shallower depth `n1`; and
/// when nothing deeper than `n2` is registered, it is exactly the route at
/// `n2`.
pub proof fn lemma_specificity(
    m: Map<Seq<bool>, Seq<char>>,
    bits: Seq<bool>,
    n1: int,
    n2: int,
) -> (n: int)
    requires
        0 <= n1 < n2 <= bits.len(),
        m.contains_key(bits.take(n1)),
        m.contains_key(bits.take(n2)),
    ensures
        n2 <= n <= bits.len(),
        m.contains_key(bits.take(n)),
        lookup_spec(m, bits) == Some(m[bits.take(n)]),
        (forall|j: int| n2 < j <= bits.len() ==> !m.contains_key(bits.take(j))) ==> n == n2,
{
    lemma_best_match_len(m, bits, bits.len() as int);
    match best_match_len(m, bits, bits.len() as int) {
        Some(nb) => {
            assert(nb >= n2) by {
                if nb < n2 {
                    assert(!m.contains_key(bits.take(n2)));
                }
            }
            nb
        },
        None => {
            assert(!m.contains_key(bits.take(n2)));
            assert(false);
            0
        },
    }
}

/// No match means an error: when no prefix of the address is registered,
/// the lookup yields nothing.
pub proof fn lemma_no_match(m: Map<Seq<bool>, Seq<char>>, bits: Seq<bool>)
    requires
        forall|n: int| 0 <= n <= bits.len() ==> !m.contains_key(bits.take(n)),
    ensures
        lookup_spec(m, bits) is None,
{
    lemma_best_match_len(m, bits, bits.len() as int);
}

/// Default route: once the zero-length prefix is registered, every address
/// has a match; and an address under no other registered prefix gets exactly
/// the default route.
pub proof fn lemma_default_route(m: Map<Seq<bool>, Seq<char>>, bits: Seq<bool>)
    requires
        m.contains_key(Seq::empty()),
    ensures
        lookup_spec(m, bits) is Some,
        (forall|n: int| 0 < n <= bits.len() ==> !m.contains_key(bits.take(n))) ==> lookup_spec(
            m,
            bits,
        ) == Some(m[Seq::empty()]),
{
    assert(bits.take(0) =~= Seq::<bool>::empty());
    lemma_best_match_len(m, bits, bits.len() as int);
    match best_match_len(m, bits, bits.len() as int) {
        Some(nb) => {
            if forall|n: int| 0 < n <= bits.len() ==> !m.contains_key(bits.take(n)) {
                assert(nb == 0) by {
                    if nb > 0 {
                        assert(!m.contains_key(bits.take(nb)));
                    }
                }
            }
        },
        None => {
            assert(!m.contains_key(bits.take(0)));
        },
    }
}

/// Exact single-address route: a full-length prefix, registered alone,
/// matches the one address whose bits it is, and no other address of the
/// same width.
pub proof fn lemma_exact_route(m: Map<Seq<bool>, Seq<char>>, p: Seq<bool>, bits: Seq<bool>)
    requires
        m.contains_key(p),
        forall|q: Seq<bool>| m.contains_key(q) ==> q == p,
        bits.len() == p.len(),
    ensures
        lookup_spec(m, p) == Some(m[p]),
        bits != p ==> lookup_spec(m, bits) is None,
{
    assert(p.take(p.len() as int) =~= p);
    lemma_best_match_len(m, p, p.len() as int);
    match best_match_len(m, p, p.len() as int) {
        Some(nb) => {
            assert(m.contains_key(p.take(nb)));
            assert(p.take(nb) == p);
            assert(nb == p.len()) by {
                assert(p.take(nb).len() == nb);
            }
        },
        None => {
            assert(!m.contains_key(p.take(p.len() as int)));
            assert(false);
        },
    }
    if bits != p {
        assert forall|n: int| 0 <= n <= bits.len() implies !m.contains_key(bits.take(n)) by {
            if m.contains_key(bits.take(n)) {
                assert(bits.take(n) == p);
                assert(bits.take(n).len() == n);
                assert(n == bits.len());
                assert(bits.take(n) =~= bits);
            }
        }
        lemma_best_match_len(m, bits, bits.len() as int);
    }
}

} // verus!
