use rand::Rng;
use vstd::prelude::*;

verus! {

/// A source of uniform choices, handed to the simulation so that a run can
/// be repeated under a fixed sequence.
pub trait RandomSource {
    /// An index in `[0, n)`.
    fn index_below(&mut self, n: usize) -> (r: usize)
        requires
            n > 0,
        ensures
            r < n,
    ;
}

/// Relies on `rand::thread_rng` and `Rng::gen_range(0, n)`, which returns a
/// value in `[0, n)` and panics only where `n == 0`.
#[verifier::external_body]
fn thread_index_below(n: usize) -> (r: usize)
    requires
        n > 0,
    ensures
        r < n,
{
    rand::thread_rng().gen_range(0, n)
}

/// The thread-local generator of `rand`.
pub struct ThreadRandom;

impl RandomSource for ThreadRandom {
    fn index_below(&mut self, n: usize) -> (r: usize) {
        thread_index_below(n)
    }
}

/// Replays a fixed list of numbers, each reduced below the bound asked for,
/// and starts over at the end of the list; with an empty list it always gives 0.
pub struct ScriptedRandom {
    pub values: Vec<usize>,
    pub next: usize,
}

impl ScriptedRandom {
    pub fn new(values: Vec<usize>) -> (r: Self)
        ensures
            r.values@ == values@,
            r.next == 0,
    {
        ScriptedRandom { values, next: 0 }
    }
}

impl RandomSource for ScriptedRandom {
    fn index_below(&mut self, n: usize) -> (r: usize) {
        if self.values.len() == 0 {
            return 0;
        }
        if self.next >= self.values.len() {
            self.next = 0;
        }
        let v = self.values[self.next] % n;
        self.next = self.next + 1;
        v
    }
}

} // verus!
