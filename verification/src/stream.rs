//! The random streams of a zone. Every zone has a few streams of its own,
//! called lanes, each fixed by the zone's coordinates and the lane's number:
//! a PCG-64 generator seeded from the three numbers through a SipHash
//! seeder. A lane is walked once from its start, so what it yields is a
//! function of the zone, the lane and what is asked of it.

use vstd::prelude::*;
use rand::distributions::Uniform;
use rand::seq::SliceRandom;
use rand::Rng;
use rand_pcg::Pcg64;
use rand_seeder::Seeder;
use crate::grid::Position;
use crate::grid::Zone;

verus! {

/// The first `n` numbers that lane `lane` of the zone at (`row`, `col`)
/// yields when it is sampled uniformly from `low..high`.
pub uninterp spec fn stream_draws(
    row: int,
    col: int,
    lane: int,
    n: int,
    low: int,
    high: int,
) -> Seq<u32>;

/// The order in which lane `lane` of the zone at (`row`, `col`) leaves
/// `items` after a shuffle.
pub uninterp spec fn stream_shuffle(row: int, col: int, lane: int, items: Seq<Position>) -> Seq<
    Position,
>;

/// Draws `n` numbers from `low..high`, one after the other from one
/// generator. Calls `Seeder::from` on the zone's coordinates and the lane,
/// `make_rng` for a `Pcg64`, and `Rng::sample_iter` with `Uniform::new`, and
/// collects the first `n` items. Trusted: that there are `n` numbers, that
/// each lies in the range, and that they depend on nothing but the arguments.
#[verifier::external_body]
pub(crate) fn draws_at(zone: Zone, lane: u64, n: usize, low: u32, high: u32) -> (draws: Vec<u32>)
    requires
        low < high,
    ensures
        draws@ == stream_draws(
            zone.row as int,
            zone.col as int,
            lane as int,
            n as int,
            low as int,
            high as int,
        ),
        draws@.len() == n,
        forall|i: int| 0 <= i < draws@.len() ==> low <= #[trigger] draws@[i] < high,
{
    let rng: Pcg64 = Seeder::from((zone.row, zone.col, lane)).make_rng();
    rng.sample_iter(Uniform::new(low, high)).take(n).collect()
}

/// Shuffles `items` in place. Calls `Seeder::from` on the zone's coordinates
/// and the lane, `make_rng` for a `Pcg64`, and hands it to
/// `SliceRandom::shuffle`. Trusted: that the items are rearranged, none lost
/// and none added, and that the new order depends on nothing but the zone,
/// the lane and the old order.
#[verifier::external_body]
pub(crate) fn shuffle_for(zone: Zone, lane: u64, items: &mut Vec<Position>)
    ensures
        final(items)@ == stream_shuffle(
            zone.row as int,
            zone.col as int,
            lane as int,
            old(items)@,
        ),
        final(items)@.to_multiset() == old(items)@.to_multiset(),
{
    let mut rng: Pcg64 = Seeder::from((zone.row, zone.col, lane)).make_rng();
    items.shuffle(&mut rng);
}

} // verus!
