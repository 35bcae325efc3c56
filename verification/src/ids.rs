//! How clients and servers are told apart.

use vstd::prelude::*;

verus! {

/// A client of the daemon.
#[derive(Debug, Clone, Copy, PartialEq, Eq, PartialOrd, Ord, Hash, Structural)]
pub struct ClientId(pub u32);

/// A server of the daemon.
#[derive(Debug, Clone, Copy, PartialEq, Eq, PartialOrd, Ord, Hash, Structural)]
pub struct ServerId(pub u32);

/// The number behind `n`; behind the greatest number the count starts over.
pub open spec fn next_number(n: u32) -> u32 {
    if n == u32::MAX {
        0
    } else {
        (n + 1) as u32
    }
}

impl ClientId {
    /// The next client of a count.
    pub fn new(count: &mut u32) -> (id: ClientId)
        ensures
            id.0 == *old(count),
            *final(count) == next_number(*old(count)),
    {
        let id = ClientId(*count);
        *count = count.wrapping_add(1);
        id
    }
}

impl ServerId {
    /// The next server of a count.
    pub fn new(count: &mut u32) -> (id: ServerId)
        ensures
            id.0 == *old(count),
            *final(count) == next_number(*old(count)),
    {
        let id = ServerId(*count);
        *count = count.wrapping_add(1);
        id
    }
}

/// The count after `k` ids have been taken from it.
pub open spec fn after_taking(n: u32, k: nat) -> u32
    decreases k,
{
    if k == 0 {
        n
    } else {
        next_number(after_taking(n, (k - 1) as nat))
    }
}

/// No id comes twice before every number has been used.
pub proof fn law_ids_are_unique(n: u32, i: nat, j: nat)
    requires
        i < j,
        j - i <= u32::MAX,
    ensures
        after_taking(n, i) != after_taking(n, j),
{
    lemma_after_taking(n, i);
    lemma_after_taking(n, j);
    assert((n + i) % 0x1_0000_0000 != (n + j) % 0x1_0000_0000) by (nonlinear_arith)
        requires
            i < j,
            j - i <= 0xffff_ffff,
    ;
}

proof fn lemma_after_taking(n: u32, k: nat)
    ensures
        after_taking(n, k) == (n + k) % 0x1_0000_0000,
    decreases k,
{
    if k > 0 {
        lemma_after_taking(n, (k - 1) as nat);
    }
}

/// Ids count up one by one, and start over behind the greatest number.
pub proof fn law_ids_count_up(n: u32)
    ensures
        n < u32::MAX ==> next_number(n) == n + 1,
        n == u32::MAX ==> next_number(n) == 0,
{
}

} // verus!
