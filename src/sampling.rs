use rand::Rng;
use vstd::prelude::*;

use crate::bvh::Bvh;

verus! {

/// rand's per-thread generator, carried through opaque.
#[verifier::external_type_specification]
#[verifier::external_body]
pub struct ExThreadRng(rand::rngs::ThreadRng);

/// Relies on rand::Rng::gen_range: the value is drawn from `0..n`; the call
/// panics on an empty range, which `requires` leaves out.
#[verifier::external_body]
fn random_index(rng: &mut rand::rngs::ThreadRng, n: usize) -> (r: usize)
    requires
        n > 0,
    ensures
        r < n,
{
    rng.gen_range(0..n)
}

/// Relies on rand::Rng::gen_ratio: true with probability
/// `numerator / denominator`, always true when the two are equal and never
/// when the numerator is zero; the call panics when the denominator is zero
/// or below the numerator, which `requires` leaves out.
#[verifier::external_body]
fn random_ratio(rng: &mut rand::rngs::ThreadRng, numerator: u32, denominator: u32) -> (r: bool)
    requires
        0 < denominator,
        numerator <= denominator,
    ensures
        numerator == denominator ==> r,
        numerator == 0 ==> !r,
{
    rng.gen_ratio(numerator, denominator)
}

/// Directions drawn uniformly over the hemisphere around a normal.
pub struct Uniform;

/// Directions drawn over the hemisphere around a normal with density
/// proportional to the cosine of their angle to it.
pub struct Cosine;

/// Directions towards points drawn on the emissive primitives, held in
/// their own hierarchy.
pub struct ToLight<'a, G> {
    pub lights: &'a Bvh<G>,
}

/// The even mixture of `Cosine` and `ToLight`, or `Cosine` alone when there
/// are no lights.
pub struct MIS<'a, G> {
    pub to_light: ToLight<'a, G>,
}

/// The strategy a `MIS` draw goes through.
#[derive(Clone, Copy, Debug, PartialEq, Eq, Structural)]
pub enum Strategy {
    Cosine,
    ToLight,
}

impl<'a, G> ToLight<'a, G> {
    pub open spec fn spec_n_lights(&self) -> nat {
        self.lights.spec_objects().len()
    }

    pub fn n_lights(&self) -> (r: usize)
        ensures
            r == self.spec_n_lights(),
    {
        self.lights.get_n_objects()
    }

    /// The light a sample is drawn on: none when there are no lights,
    /// otherwise an index drawn uniformly among them.
    pub fn pick_light(&self, rng: &mut rand::rngs::ThreadRng) -> (r: Option<usize>)
        ensures
            r is None <==> self.spec_n_lights() == 0,
            r is Some ==> r->0 < self.spec_n_lights(),
    {
        let n = self.lights.get_n_objects();
        if n == 0 {
            None
        } else {
            Some(random_index(rng, n))
        }
    }
}

impl<'a, G> MIS<'a, G> {
    /// The probability of drawing through `Cosine`, as a numerator and a
    /// denominator: one half, or one when there are no lights.
    pub fn cosine_probability(&self) -> (r: (u32, u32))
        ensures
            self.to_light.spec_n_lights() == 0 ==> r == (1u32, 1u32),
            self.to_light.spec_n_lights() > 0 ==> r == (1u32, 2u32),
    {
        if self.to_light.n_lights() == 0 {
            (1, 1)
        } else {
            (1, 2)
        }
    }

    /// Draws the strategy of the next sample; with no lights it is always
    /// `Cosine`.
    pub fn pick_strategy(&self, rng: &mut rand::rngs::ThreadRng) -> (r: Strategy)
        ensures
            self.to_light.spec_n_lights() == 0 ==> r == Strategy::Cosine,
    {
        let (numerator, denominator) = self.cosine_probability();
        if random_ratio(rng, numerator, denominator) {
            Strategy::Cosine
        } else {
            Strategy::ToLight
        }
    }
}

} // verus!
