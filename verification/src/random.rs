//! Sources of the numbers 1, 2 and 3 that refill the board: a seeded
//! generator for reproducible games and the thread's random generator.
use vstd::prelude::*;
use crate::board::Board;
use rand::rngs::ThreadRng;
use rand::Rng;

verus! {

/// The thread-local random generator of `rand`, carried through as it is.
#[verifier::external_type_specification]
#[verifier::external_body]
pub struct ExThreadRng(ThreadRng);

/// A source of tile numbers.
pub trait Random: Sized {
    /// The generator can draw its next number.
    spec fn ready(&self) -> bool;

    /// Drawing from this generator may give `value` and leave it as `next`.
    spec fn draws(&self, next: Self, value: u32) -> bool;

    /// Draws the next tile number, 1, 2 or 3.
    fn new_num(&mut self) -> (value: u32)
        requires
            old(self).ready(),
        ensures
            final(self).ready(),
            1 <= value <= 3,
            old(self).draws(*final(self), value),
    ;

    /// Draws a full board, cell by cell in order.
    fn new_board(&mut self) -> (board: Board)
        requires
            old(self).ready(),
        ensures
            final(self).ready(),
            forall|i: int| 0 <= i < 25 ==> 1 <= #[trigger] board@[i] <= 3,
            exists|states: Seq<Self>|
                {
                    &&& states.len() == 26
                    &&& states[0] == *old(self)
                    &&& states[25] == *final(self)
                    &&& forall|k: int|
                        0 <= k < 25 ==> (#[trigger] states[k]).draws(states[k + 1], board@[k])
                },
    {
        let ghost start = *self;
        let mut board: Board = [0u32; 25];
        let ghost mut states: Seq<Self> = seq![*self];
        let mut i: usize = 0;
        while i < 25
            invariant
                i <= 25,
                self.ready(),
                states.len() == i + 1,
                states[0] == start,
                states[i as int] == *self,
                forall|k: int| 0 <= k < i ==> 1 <= #[trigger] board@[k] <= 3,
                forall|k: int|
                    0 <= k < i ==> (#[trigger] states[k]).draws(states[k + 1], board@[k]),
            decreases 25 - i,
        {
            let value = self.new_num();
            board[i] = value;
            proof {
                states = states.push(*self);
            }
            i = i + 1;
        }
        assert(states[25] == *self);
        board
    }
}

/// Some run of draws from `start` gives `values`, in order, and ends in
/// `end`.
pub open spec fn draw_chain<R: Random>(start: R, values: Seq<u32>, end: R) -> bool {
    exists|states: Seq<R>| is_draw_run(start, values, end, states)
}

/// `states` is the run of generator states while drawing `values`.
pub open spec fn is_draw_run<R: Random>(start: R, values: Seq<u32>, end: R, states: Seq<R>) -> bool {
    &&& states.len() == values.len() + 1
    &&& states[0] == start
    &&& states.last() == end
    &&& forall|k: int| 0 <= k < values.len() ==> (#[trigger] states[k]).draws(states[k + 1], values[k])
}

/// A run of states is a witness of a chain of draws.
pub proof fn lemma_chain_witness<R: Random>(start: R, values: Seq<u32>, end: R, states: Seq<R>)
    requires
        is_draw_run(start, values, end, states),
    ensures
        draw_chain(start, values, end),
{
}

/// The number the seeded generator computes from `seed`.
pub open spec fn lcg_product(seed: u64) -> int {
    (16807 * seed) % 1_924_421_567
}

/// The state of the seeded generator after one draw.
pub open spec fn lcg_next(seed: u64) -> u64 {
    let e = lcg_product(seed);
    if e > 0 {
        e as u64
    } else {
        (e + 3_229_763_266) as u64
    }
}

/// The number the seeded generator draws: its product modulo 3, plus 1.
pub open spec fn lcg_value(seed: u64) -> u32 {
    (lcg_product(seed) % 3 + 1) as u32
}

/// A seeded generator: the seed is multiplied by 16807 modulo 1924421567;
/// the product, or the product plus 3229763266 when it is 0, is the next
/// seed, and the product modulo 3 plus 1 is the number drawn.
impl Random for u64 {
    open spec fn ready(&self) -> bool {
        16807 * *self <= u64::MAX
    }

    open spec fn draws(&self, next: u64, value: u32) -> bool {
        next == lcg_next(*self) && value == lcg_value(*self)
    }

    fn new_num(&mut self) -> (value: u32) {
        let e = (16807 * *self) % 1_924_421_567;
        *self = if e > 0 {
            e
        } else {
            e + 3_229_763_266
        };
        assert(16807 * *self <= u64::MAX);
        ((e % 3) + 1) as u32
    }
}

/// Draws a number in `low..high` with `Rng::gen_range`, which returns a
/// value of the half-open range it is given and panics only on an empty one.
/// Claimed: the result lies in `low..high`; which one comes out is chance.
#[verifier::external_body]
fn thread_draw(rng: &mut ThreadRng, low: u32, high: u32) -> (value: u32)
    requires
        low < high,
    ensures
        low <= value < high,
{
    rng.gen_range(low..high)
}

/// The thread's random generator: every draw is 1, 2 or 3, by chance.
impl Random for ThreadRng {
    open spec fn ready(&self) -> bool {
        true
    }

    open spec fn draws(&self, next: ThreadRng, value: u32) -> bool {
        1 <= value <= 3
    }

    fn new_num(&mut self) -> (value: u32) {
        thread_draw(self, 1, 4)
    }
}

/// Two runs of draws from one seed agree up to step `k`.
proof fn lemma_seeded_runs_agree(
    seed: u64,
    v1: Seq<u32>,
    e1: u64,
    s1: Seq<u64>,
    v2: Seq<u32>,
    e2: u64,
    s2: Seq<u64>,
    k: int,
)
    requires
        is_draw_run(seed, v1, e1, s1),
        is_draw_run(seed, v2, e2, s2),
        v1.len() == v2.len(),
        0 <= k <= v1.len(),
    ensures
        s1[k] == s2[k],
        forall|j: int| 0 <= j < k ==> v1[j] == v2[j],
    decreases k,
{
    if k > 0 {
        lemma_seeded_runs_agree(seed, v1, e1, s1, v2, e2, s2, k - 1);
        assert(s1[k - 1].draws(s1[k], v1[k - 1]));
        assert(s2[k - 1].draws(s2[k], v2[k - 1]));
    }
}

/// The seeded generator is reproducible: the same seed draws the same
/// numbers and ends in the same state.
pub proof fn lemma_seeded_draws_repeat(seed: u64, v1: Seq<u32>, e1: u64, v2: Seq<u32>, e2: u64)
    requires
        draw_chain(seed, v1, e1),
        draw_chain(seed, v2, e2),
        v1.len() == v2.len(),
    ensures
        v1 == v2,
        e1 == e2,
{
    let s1 = choose|s: Seq<u64>| is_draw_run(seed, v1, e1, s);
    let s2 = choose|s: Seq<u64>| is_draw_run(seed, v2, e2, s);
    lemma_seeded_runs_agree(seed, v1, e1, s1, v2, e2, s2, v1.len() as int);
    assert(v1 =~= v2);
}

} // verus!
