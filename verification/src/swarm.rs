//! Coordinator arithmetic: when the swarm is done seeding, when the next
//! announce is due, and which returned peers are worth dialing.

use vstd::prelude::*;

use vstd::seq_lib::*;
use crate::tracker::IpPort;

verus! {

/// Ticks between two announces of the periodic loop.
pub const ANNOUNCE_INTERVAL: usize = 60;

/// How many whole pieces the uploaded subpieces amount to, rounded up.
pub fn seeded_pieces(scount: u32, num_subpieces: usize) -> (r: usize)
    requires
        num_subpieces > 0,
    ensures
        r == ((scount + num_subpieces - 1) / (num_subpieces as int)),
{
    let seeded = (scount as usize) / num_subpieces;
    let rem = (scount as usize) % num_subpieces;
    if rem > 0 {
        proof {
            assert(seeded < usize::MAX && seeded + 1 == (scount + num_subpieces - 1) / (
            num_subpieces as int)) by (nonlinear_arith)
                requires
                    num_subpieces > 0,
                    scount <= u32::MAX <= usize::MAX,
                    seeded == (scount as int) / (num_subpieces as int),
                    rem == (scount as int) % (num_subpieces as int),
                    rem > 0;
        }
        seeded + 1
    } else {
        proof {
            assert(seeded == (scount + num_subpieces - 1) / (num_subpieces as int))
                by (nonlinear_arith)
                requires
                    num_subpieces > 0,
                    seeded == (scount as int) / (num_subpieces as int),
                    (scount as int) % (num_subpieces as int) == 0;
        }
        seeded
    }
}

/// The coordinator exits once the share ratio reaches one in piece units.
pub fn seeding_complete(scount: u32, num_subpieces: usize, num_pieces: usize) -> (r: bool)
    requires
        num_subpieces > 0,
    ensures
        r == (((scount + num_subpieces - 1) / (num_subpieces as int)) >= num_pieces),
{
    let seeded = seeded_pieces(scount, num_subpieces);
    seeded >= num_pieces
}

/// An announce goes out on the first tick, every interval thereafter, and
/// on the tick after a failure reset the counter to one.
pub fn announce_due(counter: usize) -> (r: bool)
    ensures
        r == (counter % ANNOUNCE_INTERVAL == 0 || counter == 1),
{
    counter % ANNOUNCE_INTERVAL == 0 || counter == 1
}

/// The tick counter after one pass of the loop: one on announce failure, so
/// the next tick retries, else one more.
pub fn next_counter(counter: usize, announce_failed: bool) -> (r: usize)
    ensures
        r == (
            if announce_failed {
                1int
            } else if counter == usize::MAX {
                0int
            } else {
                counter + 1
            }
        ),
{
    if announce_failed {
        1
    } else if counter == usize::MAX {
        0
    } else {
        counter + 1
    }
}

/// The peers worth dialing: every announced peer except those advertising
/// our own listening port, which would be this client talking to itself.
pub fn filter_peers(peers: &Vec<IpPort>, our_port: u16) -> (r: Vec<IpPort>)
    ensures
        r@ == peers@.filter(|p: IpPort| p.port != our_port),
{
    let ghost pred = |p: IpPort| p.port != our_port;
    let n = peers.len();
    let mut r: Vec<IpPort> = Vec::new();
    let mut k: usize = 0;
    proof {
        assert(peers@.take(0) =~= Seq::<IpPort>::empty());
        assert(Seq::<IpPort>::empty().filter(pred) =~= Seq::<IpPort>::empty()) by {
            reveal(Seq::filter);
        }
    }
    while k < n
        invariant
            k <= n,
            n == peers@.len(),
            r@ == peers@.take(k as int).filter(pred),
            pred == (|p: IpPort| p.port != our_port),
        decreases n - k,
    {
        let p = peers[k];
        proof {
            let pre = peers@.take(k as int);
            let post = peers@.take(k + 1);
            assert(post.drop_last() =~= pre);
            assert(post.last() == peers@[k as int]);
            reveal(Seq::filter);
            if pred(peers@[k as int]) {
                assert(post.filter(pred) =~= pre.filter(pred).push(peers@[k as int]));
            } else {
                assert(post.filter(pred) =~= pre.filter(pred));
            }
        }
        if p.port != our_port {
            r.push(p);
        }
        k = k + 1;
    }
    proof {
        assert(peers@.take(n as int) =~= peers@);
    }
    r
}

} // verus!
