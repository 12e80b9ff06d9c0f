//! Per-remote connection bookkeeping.
//!
//! The peer keeps one [`Connection`] entry per remote address, stored in
//! a vector whose addresses are pairwise distinct. The entry records
//! when the remote was last heard from (driving the idle timeout), when
//! it was last sent to (driving heartbeats), and the highest sequenced
//! packet number accepted from it.

use crate::address::Address;
use vstd::prelude::*;

verus! {

/// Bookkeeping for one remote address.
#[derive(Debug, Clone, Copy, PartialEq, Eq, Structural)]
pub struct Connection {
    /// The remote this entry is about.
    pub address: Address,
    /// Time of the last validated inbound datagram, in caller clock
    /// milliseconds.
    pub last_received: u64,
    /// Time of the last outbound datagram, in caller clock milliseconds.
    pub last_sent: u64,
    /// Highest sequenced packet number accepted so far; `0` is the
    /// "nothing received yet" sentinel.
    pub last_received_packet_number: u16,
}

/// The index of the entry for `address` in `conns`, or `-1` when there
/// is none; the first match counts.
pub open spec fn spec_conn_index(conns: Seq<Connection>, address: Address) -> int
    decreases conns.len(),
{
    if conns.len() == 0 {
        -1
    } else if conns[0].address == address {
        0
    } else {
        let rest = spec_conn_index(conns.skip(1), address);
        if rest == -1 {
            -1
        } else {
            rest + 1
        }
    }
}

/// There is an entry for `address` in `conns`.
pub open spec fn spec_has_conn(conns: Seq<Connection>, address: Address) -> bool {
    spec_conn_index(conns, address) >= 0
}

/// No two entries are about the same remote address.
pub open spec fn spec_addrs_unique(conns: Seq<Connection>) -> bool {
    forall|i: int, j: int|
        0 <= i < j < conns.len() ==> (#[trigger] conns[i]).address != (#[trigger] conns[j]).address
}

/// What `spec_conn_index` returns: either `-1` and no entry matches, or
/// the index of the first matching entry.
pub proof fn lemma_conn_index_props(conns: Seq<Connection>, address: Address)
    ensures
        spec_conn_index(conns, address) == -1 ==> forall|j: int|
            0 <= j < conns.len() ==> (#[trigger] conns[j]).address != address,
        spec_conn_index(conns, address) != -1 ==> {
            &&& 0 <= spec_conn_index(conns, address) < conns.len()
            &&& conns[spec_conn_index(conns, address)].address == address
            &&& forall|j: int|
                0 <= j < spec_conn_index(conns, address) ==> (#[trigger] conns[j]).address
                    != address
        },
    decreases conns.len(),
{
    if conns.len() == 0 {
    } else if conns[0].address == address {
    } else {
        lemma_conn_index_props(conns.skip(1), address);
        assert forall|j: int| 1 <= j < conns.len() implies conns.skip(1)[j - 1] == (
        #[trigger] conns[j]) by {}
    }
}

/// If the first matching entry is at `i`, the lookup returns `i`.
pub proof fn lemma_conn_index_first(conns: Seq<Connection>, address: Address, i: int)
    requires
        0 <= i < conns.len(),
        conns[i].address == address,
        forall|j: int| 0 <= j < i ==> (#[trigger] conns[j]).address != address,
    ensures
        spec_conn_index(conns, address) == i,
    decreases conns.len(),
{
    if i == 0 {
    } else {
        assert(conns[0].address != address);
        assert forall|j: int| 0 <= j < i - 1 implies (#[trigger] conns.skip(1)[j]).address
            != address by {
            assert(conns.skip(1)[j] == conns[j + 1]);
        }
        lemma_conn_index_first(conns.skip(1), address, i - 1);
    }
}

/// Replacing an entry by one with the same address does not change any
/// lookup.
pub proof fn lemma_conn_index_update(
    conns: Seq<Connection>,
    i: int,
    entry: Connection,
    address: Address,
)
    requires
        0 <= i < conns.len(),
        entry.address == conns[i].address,
    ensures
        spec_conn_index(conns.update(i, entry), address) == spec_conn_index(conns, address),
    decreases conns.len(),
{
    let updated = conns.update(i, entry);
    if conns[0].address == address {
    } else if i == 0 {
        assert(updated.skip(1) =~= conns.skip(1));
    } else {
        assert(updated.skip(1) =~= conns.skip(1).update(i - 1, entry));
        lemma_conn_index_update(conns.skip(1), i - 1, entry, address);
    }
}

/// Two tables with the same addresses in the same positions have the
/// same lookups.
pub proof fn lemma_conn_index_addr_equal(
    first: Seq<Connection>,
    second: Seq<Connection>,
    address: Address,
)
    requires
        first.len() == second.len(),
        forall|i: int|
            0 <= i < first.len() ==> (#[trigger] first[i]).address == (
            #[trigger] second[i]).address,
    ensures
        spec_conn_index(first, address) == spec_conn_index(second, address),
    decreases first.len(),
{
    if first.len() == 0 {
    } else {
        assert(first[0].address == second[0].address);
        assert forall|i: int|
            0 <= i < first.skip(1).len() implies (#[trigger] first.skip(1)[i]).address == (
        #[trigger] second.skip(1)[i]).address by {
            assert(first.skip(1)[i] == first[i + 1]);
            assert(second.skip(1)[i] == second[i + 1]);
        }
        lemma_conn_index_addr_equal(first.skip(1), second.skip(1), address);
    }
}

/// Appending an entry: lookups of already-present addresses are
/// unchanged; the new entry's address is found (at the end when it was
/// absent); all other addresses stay absent.
pub proof fn lemma_conn_index_push(conns: Seq<Connection>, entry: Connection, address: Address)
    ensures
        spec_conn_index(conns, address) >= 0 ==> spec_conn_index(conns.push(entry), address)
            == spec_conn_index(conns, address),
        spec_conn_index(conns, address) == -1 && entry.address == address ==> spec_conn_index(
            conns.push(entry),
            address,
        ) == conns.len(),
        spec_conn_index(conns, address) == -1 && entry.address != address ==> spec_conn_index(
            conns.push(entry),
            address,
        ) == -1,
    decreases conns.len(),
{
    let pushed = conns.push(entry);
    if conns.len() == 0 {
        assert(pushed.len() == 1);
        assert(pushed[0] == entry);
        if entry.address == address {
            assert(spec_conn_index(pushed, address) == 0);
        } else {
            assert(pushed.skip(1) =~= Seq::<Connection>::empty());
            assert(spec_conn_index(pushed.skip(1), address) == -1);
            assert(spec_conn_index(pushed, address) == -1);
        }
    } else if conns[0].address == address {
    } else {
        assert(pushed[0] == conns[0]);
        assert(pushed.skip(1) =~= conns.skip(1).push(entry));
        lemma_conn_index_push(conns.skip(1), entry, address);
        lemma_conn_index_props(conns.skip(1), address);
        lemma_conn_index_props(conns, address);
        let rest = spec_conn_index(conns.skip(1), address);
        let rest_pushed = spec_conn_index(pushed.skip(1), address);
        if rest >= 0 {
            assert(rest_pushed == rest);
        } else if entry.address == address {
            assert(rest_pushed == conns.skip(1).len());
            assert(spec_conn_index(pushed, address) == rest_pushed + 1);
        } else {
            assert(rest_pushed == -1);
        }
    }
}

} // verus!
