use vstd::prelude::*;

use rand::rngs::StdRng;
use rand::Rng;

verus! {

/// The pseudorandom generator that die values are drawn from. Verus treats a
/// value of it as opaque; rand supplies its behaviour.
#[verifier::external_type_specification]
#[verifier::external_body]
pub struct ExStdRng(StdRng);

/// A source of die values: draws from a pseudorandom generator uniformly in
/// `[1, max]`, as many times as a roll and its explosions need.
pub struct Roller {
    rng: StdRng,
    max: usize,
}

impl Roller {
    /// The number of faces per die; every sample lands in `[1, faces()]`.
    pub closed spec fn faces(self) -> usize {
        self.max
    }

    /// Wraps a generator as a source of dice with `max` faces.
    pub fn new(rng: StdRng, max: usize) -> (r: Roller)
        ensures
            r.faces() == max,
    {
        Roller { rng, max }
    }

    /// Relies on rand's `Rng::gen_range`: it returns a value sampled uniformly
    /// from the given inclusive range, and panics when the range is empty.
    #[verifier::external_body]
    pub fn sample(&mut self) -> (r: usize)
        requires
            old(self).faces() >= 1,
        ensures
            final(self).faces() == old(self).faces(),
            1 <= r <= old(self).faces(),
    {
        let value = self.rng.gen_range(1..=self.max);
        value
    }

    /// Draws `n` die values, in the order the generator produced them.
    pub fn sample_iter(&mut self, n: usize) -> (r: Vec<usize>)
        requires
            old(self).faces() >= 1,
        ensures
            final(self).faces() == old(self).faces(),
            r@.len() == n,
            forall|i: int| 0 <= i < r@.len() ==> 1 <= #[trigger] r@[i] <= old(self).faces(),
    {
        let mut out: Vec<usize> = Vec::new();
        let mut i: usize = 0;
        while i < n
            invariant
                i <= n,
                self.faces() == old(self).faces(),
                self.faces() >= 1,
                out@.len() == i,
                forall|j: int| 0 <= j < out@.len() ==> 1 <= #[trigger] out@[j] <= self.faces(),
            decreases n - i,
        {
            let value = self.sample();
            out.push(value);
            i = i + 1;
        }
        out
    }

    /// Rolls the extra die owed to one exploding die, then keeps rolling while
    /// the newest die also meets or exceeds the threshold. The chain is
    /// open-ended; it stops early only at the point where the vector holding
    /// it could not grow any further.
    pub fn explode(&mut self, threshold: usize) -> (r: Vec<usize>)
        requires
            old(self).faces() >= 1,
        ensures
            final(self).faces() == old(self).faces(),
            r@.len() >= 1,
            forall|i: int| 0 <= i < r@.len() ==> 1 <= #[trigger] r@[i] <= old(self).faces(),
            forall|i: int| 0 <= i < r@.len() - 1 ==> #[trigger] r@[i] >= threshold,
            r@.len() < usize::MAX ==> r@[r@.len() - 1] < threshold,
    {
        let mut out: Vec<usize> = Vec::new();
        let mut value = self.sample();
        out.push(value);
        while value >= threshold && out.len() < usize::MAX
            invariant
                self.faces() == old(self).faces(),
                self.faces() >= 1,
                out@.len() >= 1,
                out@[out@.len() - 1] == value,
                forall|i: int| 0 <= i < out@.len() ==> 1 <= #[trigger] out@[i] <= self.faces(),
                forall|i: int| 0 <= i < out@.len() - 1 ==> #[trigger] out@[i] >= threshold,
            decreases usize::MAX - out@.len(),
        {
            value = self.sample();
            out.push(value);
        }
        out
    }
}

} // verus!
