//! The orders in which the walk tries the four sides of each tile, drawn
//! at random or from a seed.

use crate::tile::{is_side, EAST, NORTH, SOUTH, WEST};
use crate::walk::{are_orders, is_order};
use rand::rngs::StdRng;
use rand::seq::SliceRandom;
use rand::SeedableRng;
use vstd::prelude::*;

verus! {

/// What `choose_multiple` of `rand`, asked for as many items as `choices`
/// has, picks from `choices` with a standard generator that was seeded with
/// `seed`. `rand` keeps the stream of its standard generator the same within
/// one version of the crate and not across versions, so this is the pick of
/// the version that the library is built with.
pub uninterp spec fn seeded_pick(choices: Seq<u8>, seed: u64) -> Seq<u8>;

/// The four sides, in the order in which they are offered to the generator.
pub open spec fn all_sides() -> Seq<u8> {
    seq![NORTH, SOUTH, WEST, EAST]
}

/// The seed from which the order of the tile `index` is drawn: `seed` plus
/// `index`, wrapped to 64 bits.
pub open spec fn tile_seed(seed: u64, index: int) -> u64 {
    if seed + index > u64::MAX {
        (seed + index - 0x1_0000_0000_0000_0000) as u64
    } else {
        (seed + index) as u64
    }
}

/// The orders that `seed` gives to a grid of `tiles` tiles.
pub open spec fn seeded_table(seed: u64, tiles: int) -> Seq<Seq<u8>> {
    Seq::new(tiles as nat, |i: int| seeded_pick(all_sides(), tile_seed(seed, i)))
}

/// The orders that a vector of vectors holds.
pub open spec fn table(orders: Seq<Vec<u8>>) -> Seq<Seq<u8>> {
    Seq::new(orders.len(), |i: int| orders[i]@)
}

/// Calls `SliceRandom::choose_multiple` of `rand` on `choices` with the
/// generator of the thread, `rand::thread_rng()`, and asks for as many items
/// as `choices` has. It is believed, not proved, that what comes back holds
/// the items of `choices`, each as often as `choices` holds it, in some order:
/// `rand` samples that many distinct indices of the slice and hands out the
/// items that stand there. Which order comes back is left open. For a
/// slice of more than `u32::MAX` items `rand` samples in another way, which
/// does not take a request for all of them: such slices are left out. The
/// generator of the thread is seeded by the system, and `rand` gives up
/// where the system has no randomness to offer.
#[verifier::external_body]
fn pick_all(choices: &Vec<u8>) -> (picked: Vec<u8>)
    requires
        choices@.len() <= u32::MAX,
    ensures
        picked@.to_multiset() == choices@.to_multiset(),
{
    choices.choose_multiple(&mut rand::thread_rng(), choices.len()).cloned().collect()
}

/// Calls `SliceRandom::choose_multiple` of `rand` on `choices` with a
/// generator that `StdRng::seed_from_u64(seed)` has just made, and asks for
/// as many items as `choices` has. It is believed, not proved, that what
/// comes back depends on `choices` and `seed` alone, since the generator
/// starts from the seed and nothing else feeds it, and that it holds the
/// items of `choices`, each as often as `choices` holds it, in some order.
/// Slices of more than `u32::MAX` items are left out, as for the draw at
/// random.
#[verifier::external_body]
fn pick_all_seeded(choices: &Vec<u8>, seed: u64) -> (picked: Vec<u8>)
    requires
        choices@.len() <= u32::MAX,
    ensures
        picked@ == seeded_pick(choices@, seed),
        picked@.to_multiset() == choices@.to_multiset(),
{
    choices.choose_multiple(&mut StdRng::seed_from_u64(seed), choices.len()).cloned().collect()
}

/// A sequence with the same items as the four sides is an order.
pub proof fn lemma_picked_is_order(picked: Seq<u8>)
    requires
        picked.to_multiset() == all_sides().to_multiset(),
    ensures
        is_order(picked),
{
    let sides = all_sides();
    picked.to_multiset_ensures();
    sides.to_multiset_ensures();
    assert(sides.len() == 4);
    assert(sides[0] == NORTH && sides[1] == SOUTH && sides[2] == WEST && sides[3] == EAST);
    assert(sides.contains(NORTH));
    assert(sides.contains(SOUTH));
    assert(sides.contains(WEST));
    assert(sides.contains(EAST));
    assert(picked.to_multiset().count(NORTH) > 0);
    assert(picked.to_multiset().count(SOUTH) > 0);
    assert(picked.to_multiset().count(WEST) > 0);
    assert(picked.to_multiset().count(EAST) > 0);
    assert forall|j: int| 0 <= j < 4 implies is_side(#[trigger] picked[j]) by {
        assert(picked.contains(picked[j]));
        assert(sides.to_multiset().count(picked[j]) > 0);
        assert(sides.contains(picked[j]));
    }
}

/// A table with one more order is the table with that order at its end, and
/// holds orders alone if it did before and the new one is an order.
proof fn lemma_table_push(orders: Seq<Vec<u8>>, picked: Vec<u8>)
    ensures
        table(orders.push(picked)) == table(orders).push(picked@),
        are_orders(table(orders), orders.len() as int) && is_order(picked@) ==> are_orders(
            table(orders.push(picked)),
            orders.len() as int + 1,
        ),
{
    let before = table(orders);
    let after = table(orders.push(picked));
    assert(after =~= before.push(picked@));
    if are_orders(before, orders.len() as int) && is_order(picked@) {
        assert forall|k: int| 0 <= k < after.len() implies is_order(#[trigger] after[k]) by {
            if k < orders.len() {
                assert(after[k] == before[k]);
            }
        }
    }
}

/// The four sides, as they are offered to the generator.
fn sides() -> (choices: Vec<u8>)
    ensures
        choices@ == all_sides(),
{
    let mut choices: Vec<u8> = Vec::new();
    choices.push(NORTH);
    choices.push(SOUTH);
    choices.push(WEST);
    choices.push(EAST);
    assert(choices@ =~= all_sides());
    choices
}

/// Draws an order at random for each of `tiles` tiles.
pub fn random_orders(tiles: usize) -> (orders: Vec<Vec<u8>>)
    ensures
        are_orders(table(orders@), tiles as int),
{
    let choices = sides();
    let mut orders: Vec<Vec<u8>> = Vec::new();
    let mut i: usize = 0;
    while i < tiles
        invariant
            i <= tiles,
            choices@ == all_sides(),
            are_orders(table(orders@), i as int),
        decreases tiles - i,
    {
        let picked = pick_all(&choices);
        proof {
            lemma_picked_is_order(picked@);
        }
        proof {
            lemma_table_push(orders@, picked);
        }
        orders.push(picked);
        i += 1;
    }
    orders
}

/// Draws from `seed` an order for each of `tiles` tiles: the order of the
/// tile `i` comes from a generator seeded with `seed` plus `i`.
pub fn seeded_orders(seed: u64, tiles: usize) -> (orders: Vec<Vec<u8>>)
    ensures
        table(orders@) == seeded_table(seed, tiles as int),
        are_orders(table(orders@), tiles as int),
{
    let choices = sides();
    let mut orders: Vec<Vec<u8>> = Vec::new();
    let mut i: usize = 0;
    while i < tiles
        invariant
            i <= tiles,
            choices@ == all_sides(),
            are_orders(table(orders@), i as int),
            table(orders@) == seeded_table(seed, i as int),
        decreases tiles - i,
    {
        let picked = pick_all_seeded(&choices, seed.wrapping_add(i as u64));
        proof {
            lemma_picked_is_order(picked@);
        }
        proof {
            lemma_table_push(orders@, picked);
            assert(seeded_table(seed, i + 1) =~= seeded_table(seed, i as int).push(picked@));
        }
        orders.push(picked);
        i += 1;
    }
    orders
}

} // verus!
