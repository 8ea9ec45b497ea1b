//! The random stream: a seeded generator of the crate `rand_pcg`, and the
//! draws that the crate `rand` makes from it. Neither crate is verified;
//! what this module states of their functions is taken on trust. What a draw
//! gives is not stated; that it is fixed by the generator it is made with
//! is, so that a run is fixed by its seed.

use rand::seq::SliceRandom;
use rand::SeedableRng;
use rand_pcg::Pcg64;
use vstd::prelude::*;

verus! {

/// The generator `rand_pcg::Pcg64`. Nothing of its state is visible here.
#[verifier::external_type_specification]
#[verifier::external_body]
pub struct ExPcg64(rand_pcg::Lcg128Xsl64);

/// The generator that `SeedableRng::seed_from_u64` makes of a seed. It
/// depends on the seed alone: the seed's bytes are spread by fixed
/// arithmetic and read in a fixed byte order.
pub uninterp spec fn seeded_stream(seed: u64) -> Pcg64;

/// `SeedableRng::seed_from_u64` for `Pcg64`: the generator that belongs to
/// `seed`. Nothing more is stated of the generator.
#[verifier::external_body]
pub(crate) fn seeded(seed: u64) -> (rng: Pcg64)
    ensures
        rng == seeded_stream(seed),
{
    Pcg64::seed_from_u64(seed)
}

/// What `SliceRandom::choose` draws from a slice of `len` elements, `len`
/// not 0, with the generator `rng`: the index of the element it takes, and
/// the generator as the draw leaves it. Both depend on the generator and on
/// the length alone: the index is computed from what the generator gives
/// out next, and nothing else goes into it.
pub uninterp spec fn chosen(rng: Pcg64, len: nat) -> (nat, Pcg64);

/// The generator as `SliceRandom::shuffle` leaves it after it has shuffled
/// `len` elements with the generator `rng`. It depends on the generator and
/// on the length alone: the shuffle draws one index for each element but
/// the first, whatever the elements are.
pub uninterp spec fn after_shuffle(rng: Pcg64, len: nat) -> Pcg64;

/// `SliceRandom::choose` on a slice: `None` for an empty slice, for which
/// nothing is drawn; else a reference to the element at the index that is
/// drawn, which lies below the length.
#[verifier::external_body]
pub(crate) fn draw_one<'a, T>(items: &'a [T], rng: &mut Pcg64) -> (picked: Option<&'a T>)
    ensures
        items@.len() == 0 ==> picked is None && *final(rng) == *old(rng),
        items@.len() > 0 ==> picked is Some && chosen(*old(rng), items@.len()).0 < items@.len()
            && *picked.unwrap() == items@[chosen(*old(rng), items@.len()).0 as int] && *final(rng)
            == chosen(*old(rng), items@.len()).1,
{
    items.choose(rng)
}

/// `SliceRandom::shuffle` on the elements of a vector: the same elements,
/// each as often as before, in an order that is left open here.
#[verifier::external_body]
pub(crate) fn shuffle<T>(items: &mut Vec<T>, rng: &mut Pcg64)
    ensures
        final(items)@.to_multiset() == old(items)@.to_multiset(),
        *final(rng) == after_shuffle(*old(rng), old(items)@.len()),
{
    items.shuffle(rng)
}

/// The index below `len` that `SliceRandom::choose` draws from `len`
/// elements; `None` where `len` is 0, for which nothing is drawn.
pub fn pick_index(len: usize, rng: &mut Pcg64) -> (picked: Option<usize>)
    ensures
        picked is None <==> len == 0,
        picked matches Some(i) ==> i < len && i == chosen(*old(rng), len as nat).0,
        *final(rng) == if len == 0 {
            *old(rng)
        } else {
            chosen(*old(rng), len as nat).1
        },
{
    let mut indices: Vec<usize> = Vec::new();
    let mut i: usize = 0;
    while i < len
        invariant
            i <= len,
            indices@.len() == i,
            forall|j: int| 0 <= j < i ==> indices@[j] == j,
        decreases len - i,
    {
        indices.push(i);
        i += 1;
    }
    match draw_one(indices.as_slice(), rng) {
        Some(k) => Some(*k),
        None => None,
    }
}

/// The flag that `SliceRandom::choose` draws from the list of `true` and
/// `false`: `true` where it takes the first element.
pub(crate) fn pick_flag(rng: &mut Pcg64) -> (flag: bool)
    ensures
        flag == (chosen(*old(rng), 2).0 == 0),
        *final(rng) == chosen(*old(rng), 2).1,
{
    let flags: Vec<bool> = vec![true, false];
    match draw_one(flags.as_slice(), rng) {
        Some(flag) => *flag,
        None => false,
    }
}

} // verus!
