//! Pieces, the Modern128 queue, placements, moves and the game state.

use vstd::prelude::*;
use crate::board::{Board, Cell};
use crate::board;
use crate::grid;

verus! {

broadcast use board::lemma_board_len;

pub const POSE_HEIGHT: usize = 14;

pub const POSE_BITS: usize = 84;

pub const MAX_LEGAL_ACTIONS: usize = 22;

pub const DEATH_X: usize = 2;

pub const DEATH_Y: usize = 11;

#[derive(Debug, Clone, Copy, PartialEq, Eq, Hash, Structural)]
pub enum Colour {
    Red,
    Green,
    Blue,
    Yellow,
}

pub open spec fn colour_cell(c: Colour) -> Cell {
    match c {
        Colour::Red => Cell::Red,
        Colour::Green => Cell::Green,
        Colour::Blue => Cell::Blue,
        Colour::Yellow => Cell::Yellow,
    }
}

pub open spec fn colour_number(c: Colour) -> int {
    match c {
        Colour::Red => 0,
        Colour::Green => 1,
        Colour::Blue => 2,
        Colour::Yellow => 3,
    }
}

pub open spec fn colour_from_number(v: int) -> Colour {
    if v == 0 {
        Colour::Red
    } else if v == 1 {
        Colour::Green
    } else if v == 2 {
        Colour::Blue
    } else {
        Colour::Yellow
    }
}

impl Colour {
    pub fn cell(self) -> (r: Cell)
        ensures
            r == colour_cell(self),
    {
        match self {
            Colour::Red => Cell::Red,
            Colour::Green => Cell::Green,
            Colour::Blue => Cell::Blue,
            Colour::Yellow => Cell::Yellow,
        }
    }

    /// The colour's position in `Red, Green, Blue, Yellow`.
    pub fn index(self) -> (r: usize)
        ensures
            r == colour_number(self),
            r < 4,
    {
        match self {
            Colour::Red => 0,
            Colour::Green => 1,
            Colour::Blue => 2,
            Colour::Yellow => 3,
        }
    }

    fn from_index(index: u8) -> (r: Colour)
        requires
            index < 4,
        ensures
            r == colour_from_number(index as int),
    {
        if index == 0 {
            Colour::Red
        } else if index == 1 {
            Colour::Green
        } else if index == 2 {
            Colour::Blue
        } else {
            Colour::Yellow
        }
    }
}

#[derive(Debug, Clone, Copy, PartialEq, Eq, Hash, Structural)]
pub struct Pair {
    pub axis: Colour,
    pub child: Colour,
}

// ----- the Modern128 queue -----
/// One step of the queue's linear congruential generator.
#[verifier::opaque]
pub open spec fn lcg(s: u32) -> u32 {
    vstd::wrapping::u32_specs::wrapping_add(
        vstd::wrapping::u32_specs::wrapping_mul(s, 0x5d58_8b65),
        0x0026_9ec3,
    )
}

/// The generator's state after `n` steps from `seed`.
pub open spec fn rng_state(seed: u32, n: int) -> u32
    decreases n,
{
    if n <= 0 {
        seed
    } else {
        lcg(rng_state(seed, n - 1))
    }
}

/// First position swapped by swap number `k` of a shuffle, drawn from `r`.
/// A shuffle makes 120 swaps between 16-entry blocks, 112 between 32-entry
/// blocks and 96 between 64-entry blocks.
pub open spec fn swap_left(k: int, r: u32) -> int {
    if k < 120 {
        (r >> 28u32) as int + (k / 8) * 16
    } else if k < 232 {
        (r >> 27u32) as int + ((k - 120) / 16) * 32
    } else {
        (r >> 26u32) as int + ((k - 232) / 32) * 64
    }
}

/// Second position swapped by swap number `k`: the same offset rule in the
/// next block.
pub open spec fn swap_right(k: int, r: u32) -> int {
    if k < 120 {
        (r >> 28u32) as int + (k / 8 + 1) * 16
    } else if k < 232 {
        (r >> 27u32) as int + ((k - 120) / 16 + 1) * 32
    } else {
        (r >> 26u32) as int + ((k - 232) / 32 + 1) * 64
    }
}

pub open spec fn swapped(q: Seq<u8>, i: int, j: int) -> Seq<u8> {
    q.update(i, q[j]).update(j, q[i])
}

/// `q` after the first `k` swaps of a shuffle whose draws start after `base`
/// generator steps.
pub open spec fn shuffle_upto(q: Seq<u8>, seed: u32, base: int, k: int) -> Seq<u8>
    decreases k,
{
    if k <= 0 {
        q
    } else {
        let prev = shuffle_upto(q, seed, base, k - 1);
        let r1 = rng_state(seed, base + 2 * k - 1);
        let r2 = rng_state(seed, base + 2 * k);
        swapped(prev, swap_left(k - 1, r1), swap_right(k - 1, r2))
    }
}

pub open spec fn initial_queue(colours: int) -> Seq<u8> {
    Seq::new(256, |i: int| (i % colours) as u8)
}

/// The four-colour colour stream: the shuffled four-colour queue whose first
/// four entries come from the shuffled three-colour queue.
pub open spec fn modern_colours(seed: u32) -> Seq<u8> {
    let three = shuffle_upto(initial_queue(3), seed, 5, 328);
    let four = shuffle_upto(initial_queue(4), seed, 661int, 328);
    Seq::new(256, |i: int| if i < 4 { three[i] } else { four[i] })
}

pub open spec fn modern_queue(seed: u32) -> Seq<Pair> {
    let c = modern_colours(seed);
    Seq::new(
        128,
        |i: int|
            Pair {
                axis: colour_from_number(c[2 * i] as int),
                child: colour_from_number(c[2 * i + 1] as int),
            },
    )
}

proof fn lemma_shift_bounds(r: u32)
    ensures
        r >> 28u32 < 16,
        r >> 27u32 < 32,
        r >> 26u32 < 64,
{
    assert(r >> 28u32 < 16) by (bit_vector);
    assert(r >> 27u32 < 32) by (bit_vector);
    assert(r >> 26u32 < 64) by (bit_vector);
}

proof fn lemma_swap_in_range(k: int, r: u32)
    requires
        0 <= k < 328,
    ensures
        0 <= swap_left(k, r) < 256,
        0 <= swap_right(k, r) < 256,
{
    lemma_shift_bounds(r);
}

proof fn lemma_swapped_multiset(q: Seq<u8>, i: int, j: int)
    requires
        0 <= i < q.len(),
        0 <= j < q.len(),
    ensures
        swapped(q, i, j).to_multiset() =~= q.to_multiset(),
{
    broadcast use vstd::seq_lib::group_to_multiset_ensures;
    broadcast use vstd::multiset::group_multiset_axioms;

    let q1 = q.update(i, q[j]);
    assert(q1[j] == q[j]);
    assert(q1.to_multiset() =~= q.to_multiset().insert(q[j]).remove(q[i]));
    assert(swapped(q, i, j).to_multiset() =~= q1.to_multiset().insert(q[i]).remove(q[j]));
    assert(q.to_multiset().count(q[i]) > 0) by {
        assert(q.contains(q[i]));
    }
}

proof fn lemma_shuffle_keeps_entries(q: Seq<u8>, seed: u32, base: int, k: int, bound: u8)
    requires
        q.len() == 256,
        0 <= k <= 328,
        forall|i: int| 0 <= i < 256 ==> q[i] < bound,
    ensures
        shuffle_upto(q, seed, base, k).len() == 256,
        shuffle_upto(q, seed, base, k).to_multiset() =~= q.to_multiset(),
        forall|i: int| 0 <= i < 256 ==> #[trigger] shuffle_upto(q, seed, base, k)[i] < bound,
    decreases k,
{
    if k > 0 {
        lemma_shuffle_keeps_entries(q, seed, base, k - 1, bound);
        let prev = shuffle_upto(q, seed, base, k - 1);
        let r1 = rng_state(seed, base + 2 * k - 1);
        let r2 = rng_state(seed, base + 2 * k);
        lemma_swap_in_range(k - 1, r1);
        lemma_swap_in_range(k - 1, r2);
        lemma_swapped_multiset(prev, swap_left(k - 1, r1), swap_right(k - 1, r2));
        assert forall|i: int| 0 <= i < 256 implies #[trigger] shuffle_upto(q, seed, base, k)[i]
            < bound by {
            assert(prev[swap_left(k - 1, r1)] < bound);
            assert(prev[swap_right(k - 1, r2)] < bound);
        }
    }
}

proof fn lemma_initial_count(n: int, c: u8)
    requires
        0 <= n <= 256,
        c < 4,
    ensures
        initial_queue(4).take(n).to_multiset().count(c) == (n + 3 - c) / 4,
    decreases n,
{
    broadcast use vstd::seq_lib::group_to_multiset_ensures;
    broadcast use vstd::multiset::group_multiset_axioms;

    if n == 0 {
        assert(initial_queue(4).take(0).to_multiset() =~= vstd::multiset::Multiset::empty()) by {
            assert(initial_queue(4).take(0) =~= Seq::<u8>::empty());
            assert(Seq::<u8>::empty().to_multiset().len() == 0);
        }
    } else {
        lemma_initial_count(n - 1, c);
        assert(initial_queue(4).take(n) =~= initial_queue(4).take(n - 1).push(
            ((n - 1) % 4) as u8,
        ));
    }
}

/// The colour numbers in the first `n` entries of `c`, two per pair.
proof fn lemma_pairs_count(c: Seq<u8>, n: int, colour: int)
    requires
        c.len() == 256,
        forall|i: int| 0 <= i < 256 ==> c[i] < 4,
        0 <= n <= 128,
        0 <= colour < 4,
    ensures
        colour_total(
            Seq::new(
                128,
                |i: int|
                    Pair {
                        axis: colour_from_number(c[2 * i] as int),
                        child: colour_from_number(c[2 * i + 1] as int),
                    },
            ).take(n),
            colour,
        ) == c.take(2 * n).to_multiset().count(colour as u8),
    decreases n,
{
    broadcast use vstd::seq_lib::group_to_multiset_ensures;
    broadcast use vstd::multiset::group_multiset_axioms;

    let pairs = Seq::new(
        128,
        |i: int|
            Pair {
                axis: colour_from_number(c[2 * i] as int),
                child: colour_from_number(c[2 * i + 1] as int),
            },
    );
    if n == 0 {
        assert(c.take(0) =~= Seq::<u8>::empty());
        assert(Seq::<u8>::empty().to_multiset().len() == 0);
        assert(pairs.take(0) =~= Seq::<Pair>::empty());
    } else {
        lemma_pairs_count(c, n - 1, colour);
        assert(pairs.take(n).drop_last() =~= pairs.take(n - 1));
        assert(c.take(2 * n) =~= c.take(2 * n - 2).push(c[2 * n - 2]).push(c[2 * n - 1]));
        assert(colour_number(colour_from_number(c[2 * n - 2] as int)) == c[2 * n - 2]);
        assert(colour_number(colour_from_number(c[2 * n - 1] as int)) == c[2 * n - 1]);
    }
}

/// The Modern queue is balanced: each of the four colours fills between 60
/// and 68 of its 256 puyos (exactly 64 of the shuffled four-colour stream,
/// four of which the three-colour opening replaces).
pub proof fn modern_queue_is_balanced(seed: u32, colour: int)
    requires
        0 <= colour < 4,
    ensures
        60 <= colour_total(modern_queue(seed), colour) <= 68,
{
    broadcast use vstd::seq_lib::group_to_multiset_ensures;
    broadcast use vstd::multiset::group_multiset_axioms;

    let three = shuffle_upto(initial_queue(3), seed, 5, 328);
    let four = shuffle_upto(initial_queue(4), seed, 661int, 328);
    lemma_shuffle_keeps_entries(initial_queue(3), seed, 5, 328, 3);
    lemma_shuffle_keeps_entries(initial_queue(4), seed, 661int, 328, 4);
    let v = colour as u8;
    lemma_initial_count(256, v);
    assert(initial_queue(4).take(256) =~= initial_queue(4));
    assert(four.to_multiset().count(v) == 64);
    let m1 = four.update(0, three[0]);
    let m2 = m1.update(1, three[1]);
    let m3 = m2.update(2, three[2]);
    let m4 = m3.update(3, three[3]);
    assert(m1.to_multiset() =~= four.to_multiset().insert(three[0]).remove(four[0]));
    assert(m2.to_multiset() =~= m1.to_multiset().insert(three[1]).remove(m1[1]));
    assert(m3.to_multiset() =~= m2.to_multiset().insert(three[2]).remove(m2[2]));
    assert(m4.to_multiset() =~= m3.to_multiset().insert(three[3]).remove(m3[3]));
    assert(m4 =~= modern_colours(seed));
    let mc = modern_colours(seed);
    assert forall|i: int| 0 <= i < 256 implies mc[i] < 4 by {
        if i < 4 {
            assert(three[i] < 3);
        } else {
            assert(four[i] < 4);
        }
    }
    lemma_pairs_count(mc, 128, colour);
    assert(modern_queue(seed).take(128) =~= modern_queue(seed));
    assert(mc.take(256) =~= mc);
}

/// The Modern queue opens with three colours: its first two pairs hold no
/// yellow puyo.
pub proof fn modern_queue_opens_with_three_colours(seed: u32)
    ensures
        modern_queue(seed)[0].axis != Colour::Yellow,
        modern_queue(seed)[0].child != Colour::Yellow,
        modern_queue(seed)[1].axis != Colour::Yellow,
        modern_queue(seed)[1].child != Colour::Yellow,
{
    let three = shuffle_upto(initial_queue(3), seed, 5, 328);
    lemma_shuffle_keeps_entries(initial_queue(3), seed, 5, 328, 3);
    assert(three[0] < 3 && three[1] < 3 && three[2] < 3 && three[3] < 3);
}

fn next_random(state: &mut u32, Ghost(seed): Ghost<u32>, Ghost(n): Ghost<int>) -> (r: u32)
    requires
        *old(state) == rng_state(seed, n),
        n >= 0,
    ensures
        *final(state) == rng_state(seed, n + 1),
        r == *final(state),
{
    let a = state.wrapping_mul(0x5d58_8b65);
    let b = a.wrapping_add(0x0026_9ec3);
    assert(b == lcg(*old(state))) by {
        reveal(lcg);
    }
    *state = b;
    b
}

fn swap_entries(q: &mut [u8; 256], i: usize, j: usize)
    requires
        i < 256,
        j < 256,
    ensures
        final(q)@ == swapped(old(q)@, i as int, j as int),
{
    let a = q[i];
    let b = q[j];
    q[i] = b;
    q[j] = a;
}

fn shuffle_modern(
    q: &mut [u8; 256],
    state: &mut u32,
    Ghost(seed): Ghost<u32>,
    Ghost(base): Ghost<int>,
)
    requires
        *old(state) == rng_state(seed, base),
        base >= 0,
        forall|i: int| 0 <= i < 256 ==> old(q)@[i] < 4,
    ensures
        final(q)@ == shuffle_upto(old(q)@, seed, base, 328),
        *final(state) == rng_state(seed, base + 656),
        forall|i: int| 0 <= i < 256 ==> final(q)@[i] < 4,
{
    let ghost q0 = q@;
    let mut k: usize = 0;
    let mut column: usize = 0;
    while column < 15
        invariant
            column <= 15,
            k == column * 8,
            base >= 0,
            q@ == shuffle_upto(q0, seed, base, k as int),
            *state == rng_state(seed, base + 2 * k),
            forall|i: int| 0 <= i < 256 ==> q@[i] < 4,
        decreases 15 - column,
    {
        let mut i: usize = 0;
        while i < 8
            invariant
                column < 15,
                i <= 8,
                k == column * 8 + i,
                base >= 0,
            q@ == shuffle_upto(q0, seed, base, k as int),
                *state == rng_state(seed, base + 2 * k),
                forall|i: int| 0 <= i < 256 ==> q@[i] < 4,
            decreases 8 - i,
        {
            let r1 = next_random(state, Ghost(seed), Ghost(base + 2 * k));
            let r2 = next_random(state, Ghost(seed), Ghost(base + 2 * k + 1));
            proof {
                lemma_shift_bounds(r1);
                lemma_shift_bounds(r2);
                assert(k as int / 8 == column);
            }
            let left = (r1 >> 28) as usize + column * 16;
            let right = (r2 >> 28) as usize + (column + 1) * 16;
            swap_entries(q, left, right);
            k += 1;
            i += 1;
        }
        column += 1;
    }
    let mut column: usize = 0;
    while column < 7
        invariant
            column <= 7,
            k == 120 + column * 16,
            base >= 0,
            q@ == shuffle_upto(q0, seed, base, k as int),
            *state == rng_state(seed, base + 2 * k),
            forall|i: int| 0 <= i < 256 ==> q@[i] < 4,
        decreases 7 - column,
    {
        let mut i: usize = 0;
        while i < 16
            invariant
                column < 7,
                i <= 16,
                k == 120 + column * 16 + i,
                base >= 0,
            q@ == shuffle_upto(q0, seed, base, k as int),
                *state == rng_state(seed, base + 2 * k),
                forall|i: int| 0 <= i < 256 ==> q@[i] < 4,
            decreases 16 - i,
        {
            let r1 = next_random(state, Ghost(seed), Ghost(base + 2 * k));
            let r2 = next_random(state, Ghost(seed), Ghost(base + 2 * k + 1));
            proof {
                lemma_shift_bounds(r1);
                lemma_shift_bounds(r2);
                assert((k as int - 120) / 16 == column);
            }
            let left = (r1 >> 27) as usize + column * 32;
            let right = (r2 >> 27) as usize + (column + 1) * 32;
            swap_entries(q, left, right);
            k += 1;
            i += 1;
        }
        column += 1;
    }
    let mut column: usize = 0;
    while column < 3
        invariant
            column <= 3,
            k == 232 + column * 32,
            base >= 0,
            q@ == shuffle_upto(q0, seed, base, k as int),
            *state == rng_state(seed, base + 2 * k),
            forall|i: int| 0 <= i < 256 ==> q@[i] < 4,
        decreases 3 - column,
    {
        let mut i: usize = 0;
        while i < 32
            invariant
                column < 3,
                i <= 32,
                k == 232 + column * 32 + i,
                base >= 0,
            q@ == shuffle_upto(q0, seed, base, k as int),
                *state == rng_state(seed, base + 2 * k),
                forall|i: int| 0 <= i < 256 ==> q@[i] < 4,
            decreases 32 - i,
        {
            let r1 = next_random(state, Ghost(seed), Ghost(base + 2 * k));
            let r2 = next_random(state, Ghost(seed), Ghost(base + 2 * k + 1));
            proof {
                lemma_shift_bounds(r1);
                lemma_shift_bounds(r2);
                assert((k as int - 232) / 32 == column);
            }
            let left = (r1 >> 26) as usize + column * 64;
            let right = (r2 >> 26) as usize + (column + 1) * 64;
            swap_entries(q, left, right);
            k += 1;
            i += 1;
        }
        column += 1;
    }
}

fn initial_colours(colours: usize) -> (q: [u8; 256])
    requires
        3 <= colours <= 4,
    ensures
        q@ == initial_queue(colours as int),
        forall|i: int| 0 <= i < 256 ==> q@[i] < 4,
{
    let mut q = [0u8; 256];
    let mut i: usize = 0;
    while i < 256
        invariant
            3 <= colours <= 4,
            i <= 256,
            forall|j: int| 0 <= j < i ==> q@[j] == (j % colours as int) as u8,
            forall|j: int| 0 <= j < 256 ==> q@[j] < 4,
        decreases 256 - i,
    {
        q[i] = (i % colours) as u8;
        i += 1;
    }
    assert(q@ =~= initial_queue(colours as int));
    q
}

/// The generator after `n` advances.
pub open spec fn after_advances(g: Modern128, n: nat) -> Modern128
    decreases n,
{
    if n == 0 {
        g
    } else {
        after_advances(g, (n - 1) as nat).advanced_once()
    }
}

/// The 128-pair Modern queue and the position of the current pair.
#[derive(Debug, Clone)]
pub struct Modern128 {
    queue: [Pair; 128],
    cursor: u8,
}

impl Modern128 {
    /// The 128 pairs, in queue order.
    pub closed spec fn pairs(self) -> Seq<Pair> {
        self.queue@
    }

    /// Position of the current pair in the queue.
    pub closed spec fn cursor(self) -> int {
        self.cursor as int
    }

    pub fn new(seed: u32) -> (r: Modern128)
        ensures
            r.pairs() == modern_queue(seed),
            r.cursor() == 0,
    {
        let mut state = seed;
        let mut n: usize = 0;
        while n < 5
            invariant
                n <= 5,
                state == rng_state(seed, n as int),
            decreases 5 - n,
        {
            next_random(&mut state, Ghost(seed), Ghost(n as int));
            n += 1;
        }
        let mut three = initial_colours(3);
        shuffle_modern(&mut three, &mut state, Ghost(seed), Ghost(5int));
        let mut four = initial_colours(4);
        shuffle_modern(&mut four, &mut state, Ghost(seed), Ghost(661int));
        let ghost four_shuffled = four@;
        let mut i: usize = 0;
        while i < 4
            invariant
                i <= 4,
                three@ == shuffle_upto(initial_queue(3), seed, 5, 328),
                four_shuffled == shuffle_upto(initial_queue(4), seed, 661int, 328),
                forall|j: int| 0 <= j < i ==> four@[j] == three@[j],
                forall|j: int| i <= j < 256 ==> four@[j] == four_shuffled[j],
                forall|j: int| 0 <= j < 256 ==> four@[j] < 4,
                forall|j: int| 0 <= j < 256 ==> three@[j] < 4,
            decreases 4 - i,
        {
            four[i] = three[i];
            i += 1;
        }
        assert(four@ =~= modern_colours(seed));
        let mut queue = [Pair { axis: Colour::Red, child: Colour::Red }; 128];
        let mut i: usize = 0;
        while i < 128
            invariant
                i <= 128,
                four@ == modern_colours(seed),
                forall|j: int| 0 <= j < 256 ==> four@[j] < 4,
                forall|j: int| 0 <= j < i ==> queue@[j] == modern_queue(seed)[j],
            decreases 128 - i,
        {
            queue[i] = Pair {
                axis: Colour::from_index(four[i * 2]),
                child: Colour::from_index(four[i * 2 + 1]),
            };
            i += 1;
        }
        assert(queue@ =~= modern_queue(seed));
        Modern128 { queue, cursor: 0 }
    }

    /// The current pair and the next two.
    pub fn visible(&self) -> (r: [Pair; 3])
        ensures
            r@ == seq![
                self.pairs()[self.cursor() % 128],
                self.pairs()[(self.cursor() + 1) % 128],
                self.pairs()[(self.cursor() + 2) % 128],
            ],
    {
        let c = self.cursor as usize;
        let r = [self.queue[c % 128], self.queue[(c + 1) % 128], self.queue[(c + 2) % 128]];
        assert(r@ =~= seq![
            self.pairs()[self.cursor() % 128],
            self.pairs()[(self.cursor() + 1) % 128],
            self.pairs()[(self.cursor() + 2) % 128],
        ]);
        r
    }

    /// The generator one pair on: the same queue, the cursor one place on
    /// round the 128 pairs.
    pub closed spec fn advanced_once(self) -> Modern128 {
        Modern128 { queue: self.queue, cursor: ((self.cursor + 1) % 128) as u8 }
    }

    pub fn advance(&mut self)
        ensures
            final(self).pairs() == old(self).pairs(),
            final(self).cursor() == (old(self).cursor() + 1) % 128,
            *final(self) == old(self).advanced_once(),
    {
        self.cursor = ((self.cursor as u32 + 1) % 128) as u8;
    }

    proof fn lemma_after_advances(g: Modern128, n: nat)
        requires
            g.cursor < 128,
        ensures
            after_advances(g, n).queue == g.queue,
            after_advances(g, n).cursor == (g.cursor + n) % 128,
        decreases n,
    {
        if n > 0 {
            Modern128::lemma_after_advances(g, (n - 1) as nat);
        }
    }

    /// The queue cycles: `n` advances keep the 128 pairs and move the
    /// cursor `n` places round them, so after 128 advances the generator,
    /// and with it the visible window, is back where it started.
    pub proof fn queue_cycles_in_128(g: Modern128, n: nat)
        requires
            g.cursor() < 128,
        ensures
            after_advances(g, n).pairs() == g.pairs(),
            after_advances(g, n).cursor() == (g.cursor() + n) % 128,
            after_advances(g, 128) == g,
    {
        Modern128::lemma_after_advances(g, n);
        Modern128::lemma_after_advances(g, 128);
    }

    pub fn position(&self) -> (r: u8)
        ensures
            r == self.cursor(),
    {
        self.cursor
    }
}


// ----- rotations and placements -----
#[derive(Debug, Clone, Copy, PartialEq, Eq, Hash, Structural)]
pub enum Rotation {
    Right,
    Down,
    Left,
    Up,
}

pub open spec fn rotation_number(r: Rotation) -> int {
    match r {
        Rotation::Right => 0,
        Rotation::Down => 1,
        Rotation::Left => 2,
        Rotation::Up => 3,
    }
}

pub open spec fn rotation_from_number(v: int) -> Rotation {
    if v == 0 {
        Rotation::Right
    } else if v == 1 {
        Rotation::Down
    } else if v == 2 {
        Rotation::Left
    } else {
        Rotation::Up
    }
}

/// Where the child puyo sits relative to the axis puyo.
pub open spec fn rotation_offset(r: Rotation) -> (int, int) {
    match r {
        Rotation::Right => (1, 0),
        Rotation::Down => (0, -1),
        Rotation::Left => (-1, 0),
        Rotation::Up => (0, 1),
    }
}

pub open spec fn rotation_cw(r: Rotation) -> Rotation {
    rotation_from_number((rotation_number(r) + 3) % 4)
}

pub open spec fn rotation_ccw(r: Rotation) -> Rotation {
    rotation_from_number((rotation_number(r) + 1) % 4)
}

pub open spec fn rotation_turn(r: Rotation) -> Rotation {
    rotation_from_number((rotation_number(r) + 2) % 4)
}

/// The wall kick tried when a quarter turn into `r` is blocked.
pub open spec fn rotation_kick(r: Rotation) -> (int, int) {
    match r {
        Rotation::Right => (-1, 0),
        Rotation::Down => (0, 1),
        Rotation::Left => (1, 0),
        Rotation::Up => (0, -1),
    }
}

impl Rotation {
    pub fn index(self) -> (r: usize)
        ensures
            r == rotation_number(self),
            r < 4,
    {
        match self {
            Rotation::Right => 0,
            Rotation::Down => 1,
            Rotation::Left => 2,
            Rotation::Up => 3,
        }
    }

    fn offset(self) -> (r: (i8, i8))
        ensures
            (r.0 as int, r.1 as int) == rotation_offset(self),
    {
        match self {
            Rotation::Right => (1, 0),
            Rotation::Down => (0, -1),
            Rotation::Left => (-1, 0),
            Rotation::Up => (0, 1),
        }
    }

    fn kick(self) -> (r: (i8, i8))
        ensures
            (r.0 as int, r.1 as int) == rotation_kick(self),
    {
        match self {
            Rotation::Right => (-1, 0),
            Rotation::Down => (0, 1),
            Rotation::Left => (1, 0),
            Rotation::Up => (0, -1),
        }
    }

    fn cw(self) -> (r: Rotation)
        ensures
            r == rotation_cw(self),
    {
        match self {
            Rotation::Right => Rotation::Up,
            Rotation::Down => Rotation::Right,
            Rotation::Left => Rotation::Down,
            Rotation::Up => Rotation::Left,
        }
    }

    fn ccw(self) -> (r: Rotation)
        ensures
            r == rotation_ccw(self),
    {
        match self {
            Rotation::Right => Rotation::Down,
            Rotation::Down => Rotation::Left,
            Rotation::Left => Rotation::Up,
            Rotation::Up => Rotation::Right,
        }
    }

    fn turn(self) -> (r: Rotation)
        ensures
            r == rotation_turn(self),
    {
        match self {
            Rotation::Right => Rotation::Left,
            Rotation::Down => Rotation::Up,
            Rotation::Left => Rotation::Right,
            Rotation::Up => Rotation::Down,
        }
    }
}

#[derive(Debug, Clone, Copy, PartialEq, Eq, Hash, Structural)]
pub struct Placement {
    pub axis_column: u8,
    pub rotation: Rotation,
}

/// Placement number `i` of the 22 placements: axis columns 0..=4 turned
/// right, 0..=5 turned down, 1..=5 turned left, 0..=5 turned up.
pub open spec fn placement_at(i: int) -> Placement {
    if i < 5 {
        Placement { axis_column: i as u8, rotation: Rotation::Right }
    } else if i < 11 {
        Placement { axis_column: (i - 5) as u8, rotation: Rotation::Down }
    } else if i < 16 {
        Placement { axis_column: (i - 10) as u8, rotation: Rotation::Left }
    } else {
        Placement { axis_column: (i - 16) as u8, rotation: Rotation::Up }
    }
}

/// The number of a placement among the 22, if it is one of them.
pub open spec fn placement_number(p: Placement) -> Option<int> {
    let x = p.axis_column as int;
    match p.rotation {
        Rotation::Right => if x < 5 {
            Some(x)
        } else {
            None
        },
        Rotation::Down => if x < 6 {
            Some(5 + x)
        } else {
            None
        },
        Rotation::Left => if 1 <= x < 6 {
            Some(10 + x)
        } else {
            None
        },
        Rotation::Up => if x < 6 {
            Some(16 + x)
        } else {
            None
        },
    }
}

fn placement_at_index(i: usize) -> (r: Placement)
    requires
        i < 22,
    ensures
        r == placement_at(i as int),
{
    if i < 5 {
        Placement { axis_column: i as u8, rotation: Rotation::Right }
    } else if i < 11 {
        Placement { axis_column: (i - 5) as u8, rotation: Rotation::Down }
    } else if i < 16 {
        Placement { axis_column: (i - 10) as u8, rotation: Rotation::Left }
    } else {
        Placement { axis_column: (i - 16) as u8, rotation: Rotation::Up }
    }
}

/// Column heights of a field, as `Board::column_heights` gives them.
pub open spec fn heights_of(b: Seq<Cell>) -> Seq<u8> {
    Seq::new(6, |x: int| board::column_height(b, x) as u8)
}

/// Whether placement number `i` is legal for the given column heights.
///
/// With settled columns the pair can always turn on row 13 and cross any
/// column, so only columns at height 12 or 13 restrict the placements, and a
/// full spawn column (column 2) allows none.
pub open spec fn legal_index(h: Seq<u8>, i: int) -> bool {
    &&& h[2] < 13
    &&& if i < 5 {
        h[i] < 13 && h[i + 1] < 13
    } else if i < 11 {
        h[i - 5] < 12
    } else if i < 16 {
        h[i - 10] < 13 && h[i - 11] < 13
    } else {
        h[i - 16] < 12
    }
}

/// The legal placements among the first `n`, in placement order.
pub open spec fn legal_list(h: Seq<u8>, n: int) -> Seq<Placement>
    decreases n,
{
    if n <= 0 {
        Seq::empty()
    } else if legal_index(h, n - 1) {
        legal_list(h, n - 1).push(placement_at(n - 1))
    } else {
        legal_list(h, n - 1)
    }
}

pub open spec fn placement_is_legal(h: Seq<u8>, p: Placement) -> bool {
    match placement_number(p) {
        Some(i) => legal_index(h, i),
        None => false,
    }
}

fn legal_at(heights: &[u8; 6], i: usize) -> (r: bool)
    requires
        i < 22,
    ensures
        r == legal_index(heights@, i as int),
{
    if heights[2] >= 13 {
        false
    } else if i < 5 {
        heights[i] < 13 && heights[i + 1] < 13
    } else if i < 11 {
        heights[i - 5] < 12
    } else if i < 16 {
        heights[i - 10] < 13 && heights[i - 11] < 13
    } else {
        heights[i - 16] < 12
    }
}

/// Allocation-free legal placement list used while expanding search nodes.
#[derive(Debug, Clone, Copy, PartialEq, Eq)]
pub struct LegalPlacements {
    entries: [Placement; 22],
    len: u8,
}

impl LegalPlacements {
    /// The placements held, in order.
    pub closed spec fn placements(self) -> Seq<Placement> {
        self.entries@.take(if self.len <= 22 {
            self.len as int
        } else {
            22
        })
    }

    /// The count is at most the capacity, and the unused slots hold the
    /// first placement, column 0 turned right.
    pub closed spec fn padded(self) -> bool {
        &&& self.len <= 22
        &&& forall|i: int|
            self.len <= i < 22 ==> self.entries@[i] == (Placement { axis_column: 0, rotation: Rotation::Right })
    }

    /// Two padded lists that hold the same placements are the same value.
    pub proof fn lemma_same_placements(a: LegalPlacements, b: LegalPlacements)
        requires
            a.padded(),
            b.padded(),
            a.placements() == b.placements(),
        ensures
            a == b,
    {
        assert(a.placements().len() == a.len);
        assert(a.len == b.len);
        assert forall|i: int| 0 <= i < 22 implies a.entries@[i] == b.entries@[i] by {
            if i < a.len {
                assert(a.placements()[i] == a.entries@[i]);
                assert(b.placements()[i] == b.entries@[i]);
            }
        }
        assert(a.entries@ =~= b.entries@);
        vstd::array::axiom_array_ext_equal(a.entries, b.entries);
    }

    pub fn empty() -> (r: LegalPlacements)
        ensures
            r.placements() == Seq::<Placement>::empty(),
            r.padded(),
    {
        let r = LegalPlacements {
            entries: [Placement { axis_column: 0, rotation: Rotation::Right }; 22],
            len: 0,
        };
        assert(r.placements() =~= Seq::<Placement>::empty());
        r
    }

    pub fn as_slice(&self) -> (r: &[Placement])
        ensures
            r@ == self.placements(),
    {
        let n: usize = if self.len <= 22 {
            self.len as usize
        } else {
            22
        };
        vstd::slice::slice_subrange(self.entries.as_slice(), 0, n)
    }

    pub fn len(&self) -> (r: usize)
        ensures
            r == self.placements().len(),
    {
        if self.len <= 22 {
            self.len as usize
        } else {
            22
        }
    }

    pub fn is_empty(&self) -> (r: bool)
        ensures
            r == (self.placements().len() == 0),
    {
        self.len == 0
    }
}

#[derive(Debug, Clone, Copy, PartialEq, Eq, Structural)]
pub enum Input {
    Left,
    Right,
    Down,
    RotateCw,
    RotateCcw,
    Rotate180,
    HardDrop,
}

#[derive(Debug, Clone, PartialEq, Eq)]
pub struct LegalAction {
    pub placement: Placement,
    pub route: Vec<Input>,
    pub route_frames: u16,
}

/// Reached poses, one 84-bit mask per rotation (in `Rotation` order), with
/// bit `y * 6 + x` for the axis at column `x`, row `y` (row 13 is above the
/// field).
#[derive(Debug, Clone, Copy, PartialEq, Eq)]
pub struct ReachablePoses(pub [u128; 4]);

pub open spec fn bit_set(v: u128, k: int) -> bool {
    (v >> (k as u128)) & 1 == 1
}

impl ReachablePoses {
    pub fn contains(self, x: usize, y: usize, rotation: Rotation) -> (r: bool)
        requires
            y * 6 + x < 128,
        ensures
            r == bit_set(self.0[rotation_number(rotation)], y * 6 + x),
    {
        let k = (y * 6 + x) as u128;
        let v = self.0[rotation.index()];
        proof {
            lemma_single_bit(v, k);
        }
        v & (1u128 << k) != 0
    }
}

proof fn lemma_single_bit(v: u128, k: u128)
    requires
        k < 128,
    ensures
        (v & (1u128 << k) != 0) == ((v >> k) & 1 == 1),
{
    assert((v & (1u128 << k) != 0) == ((v >> k) & 1 == 1)) by (bit_vector)
        requires
            k < 128,
    ;
}

/// Legality read directly from the column heights.
pub fn legal_placements_compact(board: &Board) -> (r: LegalPlacements)
    ensures
        r.placements() == legal_list(heights_of(board@), 22),
        r.padded(),
{
    let heights = board.column_heights();
    assert(heights@ =~= heights_of(board@));
    let mut result = LegalPlacements {
        entries: [Placement { axis_column: 0, rotation: Rotation::Right }; 22],
        len: 0,
    };
    let mut i: usize = 0;
    while i < 22
        invariant
            i <= 22,
            heights@ == heights_of(board@),
            result.len as int == legal_list(heights@, i as int).len(),
            result.len <= i,
            forall|j: int|
                0 <= j < result.len ==> result.entries@[j] == legal_list(heights@, i as int)[j],
            forall|j: int|
                result.len <= j < 22 ==> result.entries@[j] == (Placement {
                    axis_column: 0,
                    rotation: Rotation::Right,
                }),
        decreases 22 - i,
    {
        if legal_at(&heights, i) {
            result.entries[result.len as usize] = placement_at_index(i);
            result.len = result.len + 1;
        }
        i += 1;
    }
    assert(result.placements() =~= legal_list(heights@, 22));
    result
}

pub fn legal_placements(board: &Board) -> (r: Vec<Placement>)
    ensures
        r@ == legal_list(heights_of(board@), 22),
{
    let compact = legal_placements_compact(board);
    vstd::slice::slice_to_vec(compact.as_slice())
}

pub fn is_legal_placement(board: &Board, placement: Placement) -> (r: bool)
    ensures
        r == placement_is_legal(heights_of(board@), placement),
{
    let x = placement.axis_column as usize;
    let index: usize = match placement.rotation {
        Rotation::Right => if x < 5 {
            x
        } else {
            return false;
        },
        Rotation::Down => if x < 6 {
            5 + x
        } else {
            return false;
        },
        Rotation::Left => if 1 <= x && x < 6 {
            10 + x
        } else {
            return false;
        },
        Rotation::Up => if x < 6 {
            16 + x
        } else {
            return false;
        },
    };
    let heights = board.column_heights();
    assert(heights@ =~= heights_of(board@));
    legal_at(&heights, index)
}

// ----- landing -----
/// Where the axis and child puyos land for the given heights, if they fit
/// below the hidden row's top.
pub open spec fn landing(h: Seq<u8>, p: Placement) -> Option<((int, int), (int, int))> {
    let x = p.axis_column as int;
    match p.rotation {
        Rotation::Right => if x + 1 >= 6 {
            None
        } else if h[x] < 13 && h[x + 1] < 13 {
            Some(((x, h[x] as int), (x + 1, h[x + 1] as int)))
        } else {
            None
        },
        Rotation::Left => if x == 0 || x - 1 >= 6 {
            None
        } else if h[x] < 13 && h[x - 1] < 13 {
            Some(((x, h[x] as int), (x - 1, h[x - 1] as int)))
        } else {
            None
        },
        Rotation::Up => if h[x] + 1 >= 13 {
            None
        } else {
            Some(((x, h[x] as int), (x, h[x] + 1)))
        },
        Rotation::Down => if h[x] + 1 >= 13 {
            None
        } else {
            Some(((x, h[x] + 1), (x, h[x] as int)))
        },
    }
}

/// Placements whose landing can be computed: the axis column must be on
/// the field unless the child would be off it anyway.
pub open spec fn landing_defined(p: Placement) -> bool {
    match p.rotation {
        Rotation::Right => true,
        Rotation::Left => p.axis_column != 6,
        _ => p.axis_column < 6,
    }
}

fn landing_cells_with_heights(heights: &[u8; 6], placement: Placement) -> (r: Option<
    ((usize, usize), (usize, usize)),
>)
    requires
        landing_defined(placement),
        forall|x: int| 0 <= x < 6 ==> heights@[x] <= 13,
    ensures
        match landing(heights@, placement) {
            Some(((ax, ay), (cx, cy))) => r == Some(
                ((ax as usize, ay as usize), (cx as usize, cy as usize)),
            ),
            None => r is None,
        },
{
    let x = placement.axis_column as usize;
    match placement.rotation {
        Rotation::Right | Rotation::Left => {
            let child_x = if placement.rotation == Rotation::Right {
                x + 1
            } else {
                if x == 0 {
                    return None;
                }
                x - 1
            };
            if child_x >= 6 {
                return None;
            }
            let axis_y = heights[x] as usize;
            let child_y = heights[child_x] as usize;
            if axis_y < 13 && child_y < 13 {
                Some(((x, axis_y), (child_x, child_y)))
            } else {
                None
            }
        },
        Rotation::Up | Rotation::Down => {
            let bottom = heights[x] as usize;
            if bottom + 1 >= 13 {
                return None;
            }
            if placement.rotation == Rotation::Up {
                Some(((x, bottom), (x, bottom + 1)))
            } else {
                Some(((x, bottom + 1), (x, bottom)))
            }
        },
    }
}

/// The field after dropping `pair` with `placement`, if it lands.
pub open spec fn placed(b: Seq<Cell>, pair: Pair, p: Placement) -> Option<Seq<Cell>> {
    match landing(heights_of(b), p) {
        Some(((ax, ay), (cx, cy))) => Some(
            b.update(ay * 6 + ax, colour_cell(pair.axis)).update(cy * 6 + cx, colour_cell(pair.child)),
        ),
        None => None,
    }
}

/// Drops `pair` onto the field; gives the number of rows between the two
/// landed puyos.
pub fn place_pair(board: &mut Board, pair: Pair, placement: Placement) -> (r: Option<u8>)
    requires
        landing_defined(placement),
    ensures
        match placed(old(board)@, pair, placement) {
            Some(f) => final(board)@ == f && r == Some(
                ({
                    let ((ax, ay), (cx, cy)) = landing(heights_of(old(board)@), placement)->0;
                    (if ay >= cy {
                        ay - cy
                    } else {
                        cy - ay
                    }) as u8
                }),
            ),
            None => r is None && final(board)@ == old(board)@,
        },
{
    let heights = board.column_heights();
    assert(heights@ =~= heights_of(board@));
    match landing_cells_with_heights(&heights, placement) {
        None => None,
        Some(((ax, ay), (cx, cy))) => {
            board.set(ax, ay, pair.axis.cell());
            board.set(cx, cy, pair.child.cell());
            let d = if ay >= cy {
                ay - cy
            } else {
                cy - ay
            };
            Some(d as u8)
        },
    }
}


proof fn lemma_height_upto(b: Seq<Cell>, x: int, k: int)
    requires
        b.len() == 78,
        0 <= x < 6,
        0 <= k <= 13,
    ensures
        0 <= board::column_height_upto(b, x, k) <= k,
        forall|y: int|
            board::column_height_upto(b, x, k) <= y < k ==> #[trigger] b[y * 6 + x] == Cell::Empty,
        board::column_height_upto(b, x, k) > 0 ==> b[(board::column_height_upto(b, x, k) - 1) * 6
            + x] != Cell::Empty,
    decreases k,
{
    if k > 0 {
        lemma_height_upto(b, x, k - 1);
    }
}

proof fn lemma_height_is(b: Seq<Cell>, x: int, k: int, h: int)
    requires
        b.len() == 78,
        0 <= x < 6,
        0 <= h <= k <= 13,
        forall|y: int| h <= y < k ==> #[trigger] b[y * 6 + x] == Cell::Empty,
        h > 0 ==> b[(h - 1) * 6 + x] != Cell::Empty,
    ensures
        board::column_height_upto(b, x, k) == h,
    decreases k,
{
    if k > h {
        assert(b[(k - 1) * 6 + x] == Cell::Empty);
        lemma_height_is(b, x, k - 1, h);
    }
}

/// Filling the lowest empty cell of a column of a settled field keeps it
/// settled, raises that column by one and leaves the other columns alone.
proof fn lemma_fill_top(b: Seq<Cell>, x: int, c: Cell)
    requires
        b.len() == 78,
        0 <= x < 6,
        board::gravity_holds(b),
        board::column_height(b, x) < 13,
        c != Cell::Empty,
    ensures
        ({
            let h = board::column_height(b, x);
            let b2 = b.update(h * 6 + x, c);
            &&& board::gravity_holds(b2)
            &&& board::column_height(b2, x) == h + 1
            &&& forall|x2: int|
                0 <= x2 < 6 && x2 != x ==> #[trigger] board::column_height(b2, x2)
                    == board::column_height(b, x2)
        }),
{
    let h = board::column_height(b, x);
    let b2 = b.update(h * 6 + x, c);
    lemma_height_upto(b, x, 13);
    assert forall|y: int| 0 <= y < h implies #[trigger] b[y * 6 + x] != Cell::Empty by {
        if b[y * 6 + x] == Cell::Empty && y < h - 1 {
            assert(b[(h - 1) * 6 + x] == Cell::Empty);
        }
    }
    assert forall|x3: int, y1: int, y2: int|
        0 <= x3 < 6 && 0 <= y1 < y2 < 13 && #[trigger] b2[y1 * 6 + x3] == Cell::Empty implies #[trigger] b2[y2
        * 6 + x3] == Cell::Empty by {
        if x3 == x {
            assert(y1 > h);
            assert(b[y2 * 6 + x] == Cell::Empty);
        } else {
            assert(b[y1 * 6 + x3] == Cell::Empty);
            assert(b[y2 * 6 + x3] == Cell::Empty);
        }
    }
    assert forall|y: int| h + 1 <= y < 13 implies #[trigger] b2[y * 6 + x] == Cell::Empty by {
        assert(b[y * 6 + x] == Cell::Empty);
    }
    lemma_height_is(b2, x, 13, h + 1);
    assert forall|x2: int|
        0 <= x2 < 6 && x2 != x implies #[trigger] board::column_height(b2, x2) == board::column_height(
        b,
        x2,
    ) by {
        let h2 = board::column_height(b, x2);
        lemma_height_upto(b, x2, 13);
        assert forall|y: int| h2 <= y < 13 implies #[trigger] b2[y * 6 + x2] == Cell::Empty by {
            assert(b[y * 6 + x2] == Cell::Empty);
        }
        if h2 > 0 {
            assert(b2[(h2 - 1) * 6 + x2] == b[(h2 - 1) * 6 + x2]);
        }
        lemma_height_is(b2, x2, 13, h2);
    }
}

/// Dropping a pair onto a settled field keeps it settled.
pub proof fn placing_keeps_gravity(b: Seq<Cell>, pair: Pair, p: Placement)
    requires
        b.len() == 78,
        board::gravity_holds(b),
        landing_defined(p),
        placed(b, pair, p) is Some,
    ensures
        board::gravity_holds(placed(b, pair, p)->0),
{
    let h = heights_of(b);
    let ((ax, ay), (cx, cy)) = landing(h, p)->0;
    let a = colour_cell(pair.axis);
    let c = colour_cell(pair.child);
    let x = p.axis_column as int;
    lemma_height_upto(b, x, 13);
    match p.rotation {
        Rotation::Right | Rotation::Left => {
            lemma_height_upto(b, cx, 13);
            lemma_fill_top(b, ax, a);
            let b1 = b.update(ay * 6 + ax, a);
            lemma_fill_top(b1, cx, c);
        },
        Rotation::Up => {
            lemma_fill_top(b, ax, a);
            let b1 = b.update(ay * 6 + ax, a);
            lemma_fill_top(b1, cx, c);
        },
        Rotation::Down => {
            lemma_fill_top(b, cx, c);
            let b1 = b.update(cy * 6 + cx, c);
            lemma_fill_top(b1, ax, a);
            assert(b.update(ay * 6 + ax, a).update(cy * 6 + cx, c) =~= b1.update(ay * 6 + ax, a));
        },
    }
}

// ----- poses and moves -----
/// Free cells for a falling pair: `free[y * 6 + x]` for rows 0 through 13,
/// where row 13 lies above the field.
pub open spec fn free_at(free: Seq<bool>, x: int, y: int) -> bool {
    0 <= x < 6 && 0 <= y < 14 && free[y * 6 + x]
}

/// The pair with its axis at `(x, y)` turned to `r` fits.
pub open spec fn pose_fits(free: Seq<bool>, x: int, y: int, r: Rotation) -> bool {
    free_at(free, x, y) && free_at(free, x + rotation_offset(r).0, y + rotation_offset(r).1)
}

/// The pose that one input leads to, if the move is possible.
#[verifier::opaque]
pub open spec fn move_pose(free: Seq<bool>, x: int, y: int, r: Rotation, input: Input) -> Option<
    (int, int, Rotation),
> {
    match input {
        Input::Left => if pose_fits(free, x - 1, y, r) {
            Some((x - 1, y, r))
        } else {
            None
        },
        Input::Right => if pose_fits(free, x + 1, y, r) {
            Some((x + 1, y, r))
        } else {
            None
        },
        Input::Down => if pose_fits(free, x, y - 1, r) {
            Some((x, y - 1, r))
        } else {
            None
        },
        Input::RotateCw => quarter_turn(free, x, y, rotation_cw(r)),
        Input::RotateCcw => quarter_turn(free, x, y, rotation_ccw(r)),
        Input::Rotate180 => {
            let t = rotation_turn(r);
            let dy = if t == Rotation::Up {
                -1
            } else if t == Rotation::Down {
                1
            } else {
                0
            };
            if pose_fits(free, x, y + dy, t) {
                Some((x, y + dy, t))
            } else {
                None
            }
        },
        Input::HardDrop => None,
    }
}

/// A quarter turn into `t`: in place if it fits, else with the wall kick.
pub open spec fn quarter_turn(free: Seq<bool>, x: int, y: int, t: Rotation) -> Option<
    (int, int, Rotation),
> {
    if pose_fits(free, x, y, t) {
        Some((x, y, t))
    } else if pose_fits(free, x + rotation_kick(t).0, y + rotation_kick(t).1, t) {
        Some((x + rotation_kick(t).0, y + rotation_kick(t).1, t))
    } else {
        None
    }
}

pub open spec fn pose_index(x: int, y: int, r: Rotation) -> int {
    rotation_number(r) * 84 + y * 6 + x
}

pub open spec fn pose_x(j: int) -> int {
    (j % 84) % 6
}

pub open spec fn pose_y(j: int) -> int {
    (j % 84) / 6
}

pub open spec fn pose_rotation(j: int) -> Rotation {
    rotation_from_number(j / 84)
}

/// The pose number that `input` leads to from pose number `j`.
pub open spec fn step_index(free: Seq<bool>, j: int, input: Input) -> Option<int> {
    match move_pose(free, pose_x(j), pose_y(j), pose_rotation(j), input) {
        Some((x, y, r)) => Some(pose_index(x, y, r)),
        None => None,
    }
}

/// The spawn pose: axis at column 2, row 12, child above it.
pub open spec fn spawn_index() -> int {
    326
}

pub open spec fn spawn_fits(free: Seq<bool>) -> bool {
    pose_fits(free, 2, 12, Rotation::Up)
}

/// Some single move leads from pose number `j` to pose number `k`.
pub open spec fn one_move(free: Seq<bool>, j: int, k: int) -> bool {
    ||| step_index(free, j, Input::Left) == Some(k)
    ||| step_index(free, j, Input::Right) == Some(k)
    ||| step_index(free, j, Input::Down) == Some(k)
    ||| step_index(free, j, Input::RotateCw) == Some(k)
    ||| step_index(free, j, Input::RotateCcw) == Some(k)
    ||| step_index(free, j, Input::Rotate180) == Some(k)
}

/// `path` is a sequence of moves from the spawn pose.
pub open spec fn is_move_path(free: Seq<bool>, path: Seq<int>) -> bool {
    &&& path.len() >= 1
    &&& path[0] == spawn_index()
    &&& spawn_fits(free)
    &&& forall|i: int| 0 <= i < path.len() - 1 ==> #[trigger] one_move(free, path[i], path[i + 1])
}

/// Pose number `j` can be reached from the spawn pose.
#[verifier::opaque]
pub open spec fn pose_reachable(free: Seq<bool>, j: int) -> bool {
    exists|path: Seq<int>| #[trigger] is_move_path(free, path) && path.last() == j
}

/// The pose reached by replaying `inputs` from pose number `j`.
pub open spec fn replay(free: Seq<bool>, j: int, inputs: Seq<Input>) -> Option<int>
    decreases inputs.len(),
{
    if inputs.len() == 0 {
        Some(j)
    } else {
        match step_index(free, j, inputs[0]) {
            Some(k) => replay(free, k, inputs.drop_first()),
            None => None,
        }
    }
}

/// Free cells of a field: empty cells, and the row above the field.
pub open spec fn field_free(b: Seq<Cell>) -> Seq<bool> {
    Seq::new(84, |k: int| k / 6 == 13 || b[k] == Cell::Empty)
}

/// Free cells implied by column heights: everything at or above them.
pub open spec fn heights_free(h: Seq<u8>) -> Seq<bool> {
    Seq::new(84, |k: int| k / 6 >= h[k % 6])
}

#[derive(Debug, Clone, Copy, PartialEq, Eq)]
struct Pose {
    x: i8,
    y: i8,
    rotation: Rotation,
}

fn free_cell(free: &[bool; 84], x: i8, y: i8) -> (r: bool)
    ensures
        r == free_at(free@, x as int, y as int),
{
    x >= 0 && x < 6 && y >= 0 && y < 14 && free[(y as usize) * 6 + x as usize]
}

fn fits(free: &[bool; 84], x: i8, y: i8, r: Rotation) -> (ok: bool)
    requires
        -2 <= x <= 8,
        -2 <= y <= 16,
    ensures
        ok == pose_fits(free@, x as int, y as int, r),
{
    let (dx, dy) = r.offset();
    free_cell(free, x, y) && free_cell(free, x + dx, y + dy)
}

fn turn_into(free: &[bool; 84], pose: Pose, t: Rotation) -> (r: Option<Pose>)
    requires
        0 <= pose.x < 6,
        0 <= pose.y < 14,
    ensures
        match quarter_turn(free@, pose.x as int, pose.y as int, t) {
            Some((x, y, rr)) => r == Some(Pose { x: x as i8, y: y as i8, rotation: rr }),
            None => r is None,
        },
{
    if fits(free, pose.x, pose.y, t) {
        return Some(Pose { rotation: t, ..pose });
    }
    let (kx, ky) = t.kick();
    if fits(free, pose.x + kx, pose.y + ky, t) {
        Some(Pose { x: pose.x + kx, y: pose.y + ky, rotation: t })
    } else {
        None
    }
}

fn transition(free: &[bool; 84], pose: Pose, input: Input) -> (r: Option<Pose>)
    requires
        0 <= pose.x < 6,
        0 <= pose.y < 14,
    ensures
        match move_pose(free@, pose.x as int, pose.y as int, pose.rotation, input) {
            Some((x, y, rr)) => r == Some(Pose { x: x as i8, y: y as i8, rotation: rr }),
            None => r is None,
        },
{
    reveal(move_pose);
    match input {
        Input::Left => {
            if fits(free, pose.x - 1, pose.y, pose.rotation) {
                Some(Pose { x: pose.x - 1, ..pose })
            } else {
                None
            }
        },
        Input::Right => {
            if fits(free, pose.x + 1, pose.y, pose.rotation) {
                Some(Pose { x: pose.x + 1, ..pose })
            } else {
                None
            }
        },
        Input::Down => {
            if fits(free, pose.x, pose.y - 1, pose.rotation) {
                Some(Pose { y: pose.y - 1, ..pose })
            } else {
                None
            }
        },
        Input::RotateCw => turn_into(free, pose, pose.rotation.cw()),
        Input::RotateCcw => turn_into(free, pose, pose.rotation.ccw()),
        Input::Rotate180 => {
            let t = pose.rotation.turn();
            let dy: i8 = match t {
                Rotation::Up => -1,
                Rotation::Down => 1,
                _ => 0,
            };
            if fits(free, pose.x, pose.y + dy, t) {
                Some(Pose { y: pose.y + dy, rotation: t, ..pose })
            } else {
                None
            }
        },
        Input::HardDrop => None,
    }
}


/// A breadth-first search of the poses reachable from the spawn pose.
struct Exploration {
    order: Vec<usize>,
    seen: [bool; 336],
    parent: [usize; 336],
    via: [Input; 336],
    depth: [usize; 336],
}

/// Each reached pose other than the spawn pose records the reached pose it
/// was entered from, the input used, and its distance from the spawn pose.
spec fn links_hold(free: Seq<bool>, e: Exploration) -> bool {
    &&& e.seen@[spawn_index()] ==> e.parent@[spawn_index()] == spawn_index() && e.depth@[spawn_index()]
        == 0
    &&& forall|j: int|
        0 <= j < 336 && #[trigger] e.seen@[j] && j != spawn_index() ==> {
            &&& e.parent@[j] < 336
            &&& e.seen@[e.parent@[j] as int]
            &&& e.parent@[j] != j
            &&& step_index(free, e.parent@[j] as int, e.via@[j]) == Some(j)
            &&& e.depth@[j] == e.depth@[e.parent@[j] as int] + 1
        }
}

#[verifier::opaque]
spec fn search_state(free: Seq<bool>, e: Exploration, index_of: Seq<int>) -> bool {
    &&& free.len() == 84
    &&& spawn_fits(free)
    &&& e.seen@.len() == 336
    &&& e.seen@[spawn_index()]
    &&& grid::count_true(e.seen@) == e.order@.len()
    &&& e.order@.len() <= 336
    &&& index_of.len() == 336
    &&& forall|i: int| 0 <= i < e.order@.len() ==> (#[trigger] e.order@[i]) < 336 && e.seen@[e.order@[i] as int]
    &&& forall|j: int|
        0 <= j < 336 && #[trigger] e.seen@[j] ==> 0 <= index_of[j] < e.order@.len() && e.order@[index_of[j]]
            == j && e.depth@[j] <= index_of[j]
    &&& forall|j: int| 0 <= j < 336 && #[trigger] e.seen@[j] ==> pose_reachable(free, j)
    &&& links_hold(free, e)
}

/// All moves from the pose are already reached.
spec fn expanded(free: Seq<bool>, e: Exploration, j: int) -> bool {
    forall|k: int|
        #[trigger] one_move(free, j, k) ==> 0 <= k < 336 && e.seen@[k]
}

/// The place of each input in the order the search tries them.
pub open spec fn input_rank(i: Input) -> int {
    match i {
        Input::Left => 0,
        Input::Right => 1,
        Input::Down => 2,
        Input::RotateCw => 3,
        Input::RotateCcw => 4,
        Input::Rotate180 => 5,
        Input::HardDrop => 6,
    }
}

/// The input the search tries in place `n`.
pub open spec fn input_of_rank(n: int) -> Input {
    if n == 0 {
        Input::Left
    } else if n == 1 {
        Input::Right
    } else if n == 2 {
        Input::Down
    } else if n == 3 {
        Input::RotateCw
    } else if n == 4 {
        Input::RotateCcw
    } else {
        Input::Rotate180
    }
}

/// Reached pose `k` hangs from the earliest pose of the search order with
/// a move onto it, by the first such move in input order.
spec fn first_link(free: Seq<bool>, e: Exploration, index_of: Seq<int>, k: int) -> bool {
    &&& forall|i: int|
        0 <= i < index_of[e.parent@[k] as int] ==> !#[trigger] one_move(free, e.order@[i] as int, k)
    &&& forall|n: int|
        0 <= n < input_rank(e.via@[k]) ==> #[trigger] step_index(free, e.parent@[k] as int, input_of_rank(n))
            != Some(k)
}

/// Poses enter the search order grouped by the pose they hang from, in the
/// order those left the queue, and by input within a group; the pose at
/// `head` has so far been tried with the inputs before place `rank`.
#[verifier::opaque]
spec fn tree_state(free: Seq<bool>, e: Exploration, index_of: Seq<int>, head: int, rank: int) -> bool {
    &&& e.order@.len() >= 1
    &&& e.order@[0] == spawn_index()
    &&& forall|i: int| 0 <= i < e.order@.len() ==> index_of[#[trigger] e.order@[i] as int] == i
    &&& forall|i: int|
        1 <= i < e.order@.len() ==> 0 <= index_of[e.parent@[#[trigger] e.order@[i] as int] as int] < i
            && (index_of[e.parent@[e.order@[i] as int] as int] < head || (index_of[e.parent@[e.order@[i] as int] as int]
            == head && input_rank(e.via@[e.order@[i] as int]) < rank))
    &&& forall|i: int, i2: int|
        #![trigger e.order@[i], e.order@[i2]]
        1 <= i < i2 < e.order@.len() ==> index_of[e.parent@[e.order@[i] as int] as int]
            < index_of[e.parent@[e.order@[i2] as int] as int] || (e.parent@[e.order@[i] as int]
            == e.parent@[e.order@[i2] as int] && input_rank(e.via@[e.order@[i] as int]) < input_rank(
            e.via@[e.order@[i2] as int],
        ))
    &&& forall|k: int|
        0 <= k < 336 && #[trigger] e.seen@[k] && k != spawn_index() ==> first_link(free, e, index_of, k)
}

proof fn lemma_expanded_grow(free: Seq<bool>, e: Exploration, e2: Exploration, head: int)
    requires
        forall|i: int| 0 <= i < head ==> expanded(free, e, #[trigger] e.order@[i] as int),
        head <= e.order@.len() <= e2.order@.len(),
        forall|i: int| 0 <= i < e.order@.len() ==> e2.order@[i] == e.order@[i],
        forall|i: int| 0 <= i < e.order@.len() ==> (#[trigger] e.order@[i]) < 336 && e.seen@[e.order@[i] as int],
        forall|q: int| 0 <= q < 336 && e.seen@[q] ==> #[trigger] e2.seen@[q],
    ensures
        forall|i: int| 0 <= i < head ==> expanded(free, e2, #[trigger] e2.order@[i] as int),
{
    assert forall|i: int| 0 <= i < head implies expanded(free, e2, #[trigger] e2.order@[i] as int) by {
        let a = e.order@[i] as int;
        assert(e2.order@[i] == e.order@[i]);
        assert(expanded(free, e, a));
        assert(e.seen@[a]);
        assert forall|k: int| #[trigger] one_move(free, a, k) implies 0 <= k < 336 && e2.seen@[k] by {
            assert(e.seen@[k]);
        }
    }
}

proof fn lemma_tree_rank_up(free: Seq<bool>, e: Exploration, index_of: Seq<int>, head: int, rank: int)
    requires
        tree_state(free, e, index_of, head, rank),
    ensures
        tree_state(free, e, index_of, head, rank + 1),
{
    reveal(tree_state);
}

proof fn lemma_tree_next_head(free: Seq<bool>, e: Exploration, index_of: Seq<int>, head: int)
    requires
        tree_state(free, e, index_of, head, 6),
    ensures
        tree_state(free, e, index_of, head + 1, 0),
{
    reveal(tree_state);
}

proof fn lemma_tree_add(
    free: Seq<bool>,
    e: Exploration,
    e2: Exploration,
    index_of: Seq<int>,
    j: int,
    k: int,
    input: Input,
    head: int,
)
    requires
        tree_state(free, e, index_of, head, input_rank(input)),
        search_state(free, e, index_of),
        0 <= head < e.order@.len(),
        e.order@[head] == j,
        0 <= j < 336,
        0 <= k < 336,
        !e.seen@[k],
        input != Input::HardDrop,
        step_index(free, j, input) == Some(k),
        forall|i: int| 0 <= i < head ==> expanded(free, e, #[trigger] e.order@[i] as int),
        forall|n: int|
            0 <= n < input_rank(input) ==> (#[trigger] step_index(free, j, input_of_rank(n)) matches Some(q)
                ==> 0 <= q < 336 && e.seen@[q]),
        e2.seen@ == e.seen@.update(k, true),
        e2.parent@ == e.parent@.update(k, j as usize),
        e2.via@ == e.via@.update(k, input),
        e2.order@ == e.order@.push(k as usize),
    ensures
        tree_state(free, e2, index_of.update(k, e.order@.len() as int), head, input_rank(input) + 1),
{
    reveal(tree_state);
    reveal(search_state);
    let n = e.order@.len() as int;
    let idx2 = index_of.update(k, n);
    let rank = input_rank(input);
    assert(index_of[j] == head);
    assert(e2.order@[0] == e.order@[0]);
    assert forall|i: int| 0 <= i < e2.order@.len() implies idx2[#[trigger] e2.order@[i] as int] == i by {
        if i < n {
            assert(e2.order@[i] == e.order@[i]);
            assert(e.seen@[e.order@[i] as int]);
        }
    }
    assert forall|i: int|
        1 <= i < e2.order@.len() implies 0 <= idx2[e2.parent@[#[trigger] e2.order@[i] as int] as int] < i
            && (idx2[e2.parent@[e2.order@[i] as int] as int] < head || (idx2[e2.parent@[e2.order@[i] as int] as int]
            == head && input_rank(e2.via@[e2.order@[i] as int]) < rank + 1)) by {
        if i < n {
            let a = e.order@[i] as int;
            assert(e2.order@[i] == e.order@[i]);
            assert(e.seen@[a]);
            assert(a != k);
            assert(e.seen@[e.parent@[a] as int]);
        }
    }
    assert forall|i: int, i2: int|
        #![trigger e2.order@[i], e2.order@[i2]]
        1 <= i < i2 < e2.order@.len() implies idx2[e2.parent@[e2.order@[i] as int] as int]
            < idx2[e2.parent@[e2.order@[i2] as int] as int] || (e2.parent@[e2.order@[i] as int]
            == e2.parent@[e2.order@[i2] as int] && input_rank(e2.via@[e2.order@[i] as int]) < input_rank(
            e2.via@[e2.order@[i2] as int],
        )) by {
        let a = e.order@[i] as int;
        assert(e2.order@[i] == e.order@[i]);
        assert(e.seen@[a]);
        assert(a != k);
        assert(e.seen@[e.parent@[a] as int]);
        if i2 < n {
            let b = e.order@[i2] as int;
            assert(e2.order@[i2] == e.order@[i2]);
            assert(e.seen@[b]);
            assert(e.seen@[e.parent@[b] as int]);
            assert(e.order@[i] == e.order@[i] && e.order@[i2] == e.order@[i2]);
        } else {
            assert(e2.order@[i2] as int == k);
            assert(e.order@[i] == e.order@[i]);
            if index_of[e.parent@[a] as int] == head {
                assert(e.order@[index_of[e.parent@[a] as int]] == e.parent@[a]);
            }
        }
    }
    assert forall|q: int| 0 <= q < 336 && #[trigger] e2.seen@[q] && q != spawn_index() implies first_link(
        free,
        e2,
        idx2,
        q,
    ) by {
        if q == k {
            assert forall|i: int| 0 <= i < idx2[e2.parent@[q] as int] implies !#[trigger] one_move(
                free,
                e2.order@[i] as int,
                q,
            ) by {
                assert(e2.order@[i] == e.order@[i]);
                assert(expanded(free, e, e.order@[i] as int));
            }
            assert forall|m: int| 0 <= m < input_rank(e2.via@[q]) implies #[trigger] step_index(
                free,
                e2.parent@[q] as int,
                input_of_rank(m),
            ) != Some(q) by {
                assert(step_index(free, j, input_of_rank(m)) matches Some(x) ==> 0 <= x < 336 && e.seen@[x]);
            }
        } else {
            assert(e.seen@[q]);
            assert(first_link(free, e, index_of, q));
            assert(e.seen@[e.parent@[q] as int]);
            assert forall|i: int| 0 <= i < idx2[e2.parent@[q] as int] implies !#[trigger] one_move(
                free,
                e2.order@[i] as int,
                q,
            ) by {
                assert(e2.order@[i] == e.order@[i]);
            }
        }
    }
}

proof fn lemma_move_result(free: Seq<bool>, j: int, input: Input)
    requires
        free.len() == 84,
        step_index(free, j, input) is Some,
    ensures
        ({
            let k = step_index(free, j, input)->0;
            &&& 0 <= k < 336
            &&& 0 <= pose_x(k) < 6
            &&& 0 <= pose_y(k) < 14
            &&& pose_index(pose_x(k), pose_y(k), pose_rotation(k)) == k
            &&& move_pose(free, pose_x(j), pose_y(j), pose_rotation(j), input) == Some(
                (pose_x(k), pose_y(k), pose_rotation(k)),
            )
        }),
{
    reveal(move_pose);
    let (x, y, r) = move_pose(free, pose_x(j), pose_y(j), pose_rotation(j), input)->0;
    assert(0 <= x < 6 && 0 <= y < 14);
    let k = pose_index(x, y, r);
    assert(k % 84 == y * 6 + x);
    assert(k / 84 == rotation_number(r));
}

proof fn lemma_reachable_step(free: Seq<bool>, j: int, k: int)
    requires
        pose_reachable(free, j),
        one_move(free, j, k),
    ensures
        pose_reachable(free, k),
{
    reveal(pose_reachable);
    let path = choose|path: Seq<int>| #[trigger] is_move_path(free, path) && path.last() == j;
    let ext = path.push(k);
    assert forall|i: int| 0 <= i < ext.len() - 1 implies #[trigger] one_move(free, ext[i], ext[i + 1]) by {
        if i < path.len() - 1 {
            assert(ext[i] == path[i] && ext[i + 1] == path[i + 1]);
        }
    }
    assert(is_move_path(free, ext));
}

proof fn lemma_closed_holds_path(free: Seq<bool>, seen: Seq<bool>, path: Seq<int>, i: int)
    requires
        is_move_path(free, path),
        0 <= i < path.len(),
        seen.len() == 336,
        seen[spawn_index()],
        forall|j: int, k: int|
            0 <= j < 336 && #[trigger] seen[j] && #[trigger] one_move(free, j, k) ==> 0 <= k < 336
                && seen[k],
    ensures
        0 <= path[i] < 336,
        seen[path[i]],
    decreases i,
{
    if i > 0 {
        lemma_closed_holds_path(free, seen, path, i - 1);
        let h = i - 1;
        assert(one_move(free, path[h], path[h + 1]));
    }
}

fn pose_number(p: Pose) -> (j: usize)
    requires
        0 <= p.x < 6,
        0 <= p.y < 14,
    ensures
        j == pose_index(p.x as int, p.y as int, p.rotation),
        j < 336,
{
    p.rotation.index() * 84 + (p.y as usize) * 6 + p.x as usize
}

fn pose_of_number(j: usize) -> (p: Pose)
    requires
        j < 336,
    ensures
        p.x == pose_x(j as int),
        p.y == pose_y(j as int),
        p.rotation == pose_rotation(j as int),
{
    let r = j / 84;
    let rotation = if r == 0 {
        Rotation::Right
    } else if r == 1 {
        Rotation::Down
    } else if r == 2 {
        Rotation::Left
    } else {
        Rotation::Up
    };
    Pose { x: ((j % 84) % 6) as i8, y: ((j % 84) / 6) as i8, rotation }
}

#[verifier::rlimit(60)]
fn discover(
    free: &[bool; 84],
    e: &mut Exploration,
    j: usize,
    input: Input,
    Ghost(index_of): Ghost<Seq<int>>,
    Ghost(head): Ghost<int>,
) -> (r: Ghost<Seq<int>>)
    requires
        j < 336,
        search_state(free@, *old(e), index_of),
        old(e).seen@[j as int],
        input != Input::HardDrop,
        0 <= head < old(e).order@.len(),
        old(e).order@[head] == j,
        tree_state(free@, *old(e), index_of, head, input_rank(input)),
        forall|i: int| 0 <= i < head ==> expanded(free@, *old(e), #[trigger] old(e).order@[i] as int),
        forall|n: int|
            0 <= n < input_rank(input) ==> (#[trigger] step_index(free@, j as int, input_of_rank(n)) matches Some(
                q,
            ) ==> 0 <= q < 336 && old(e).seen@[q]),
    ensures
        search_state(free@, *final(e), r@),
        final(e).order@.len() >= old(e).order@.len(),
        forall|i: int| 0 <= i < old(e).order@.len() ==> final(e).order@[i] == old(e).order@[i],
        forall|q: int| 0 <= q < 336 && old(e).seen@[q] ==> #[trigger] final(e).seen@[q],
        forall|q: int| 0 <= q < 336 && old(e).seen@[q] ==> #[trigger] r@[q] == index_of[q],
        tree_state(free@, *final(e), r@, head, input_rank(input) + 1),
        forall|i: int| 0 <= i < head ==> expanded(free@, *final(e), #[trigger] final(e).order@[i] as int),
        match step_index(free@, j as int, input) {
            Some(k) => 0 <= k < 336 && final(e).seen@[k],
            None => true,
        },
{
    reveal(search_state);
    let ghost g = free@;
    let pose = pose_of_number(j);
    assert(pose_reachable(g, j as int));
    proof {
        lemma_reachable_valid(g, j as int);
    }
    match transition(free, pose, input) {
        None => {
            proof {
                lemma_tree_rank_up(g, *e, index_of, head, input_rank(input));
            }
            Ghost(index_of)
        },
        Some(next) => {
            proof {
                lemma_move_result(g, j as int, input);
            }
            let k = pose_number(next);
            assert(step_index(g, j as int, input) == Some(k as int));
            if e.seen[k] {
                proof {
                    lemma_tree_rank_up(g, *e, index_of, head, input_rank(input));
                }
                Ghost(index_of)
            } else {
                proof {
                    assert(one_move(g, j as int, k as int));
                    lemma_reachable_step(g, j as int, k as int);
                    grid::lemma_count_true_update(e.seen@, k as int);
                    grid::lemma_count_true_bound(e.seen@.update(k as int, true));
                }
                let ghost n = e.order@.len();
                let ghost before = *e;
                e.seen[k] = true;
                e.parent[k] = j;
                e.via[k] = input;
                e.depth[k] = e.depth[j] + 1;
                e.order.push(k);
                let ghost new_index = index_of.update(k as int, n as int);
                proof {
                    lemma_add_pose(g, before, *e, index_of, j as int, k as int, input);
                    lemma_tree_add(g, before, *e, index_of, j as int, k as int, input, head);
                    lemma_expanded_grow(g, before, *e, head);
                }
                Ghost(new_index)
            }
        },
    }
}

proof fn lemma_add_pose(
    free: Seq<bool>,
    e: Exploration,
    e2: Exploration,
    index_of: Seq<int>,
    j: int,
    k: int,
    input: Input,
)
    requires
        search_state(free, e, index_of),
        0 <= j < 336,
        0 <= k < 336,
        e.seen@[j],
        !e.seen@[k],
        step_index(free, j, input) == Some(k),
        pose_reachable(free, k),
        e2.seen@ == e.seen@.update(k, true),
        e2.parent@ == e.parent@.update(k, j as usize),
        e2.via@ == e.via@.update(k, input),
        e2.depth@ == e.depth@.update(k, (e.depth@[j] + 1) as usize),
        e2.order@ == e.order@.push(k as usize),
    ensures
        search_state(free, e2, index_of.update(k, e.order@.len() as int)),
{
    reveal(search_state);
    let n = e.order@.len() as int;
    let idx2 = index_of.update(k, n);
    grid::lemma_count_true_update(e.seen@, k);
    grid::lemma_count_true_bound(e2.seen@);
    assert(k != spawn_index());
    assert(grid::count_true(e2.seen@) == e2.order@.len());
    assert forall|i: int| 0 <= i < e2.order@.len() implies (#[trigger] e2.order@[i]) < 336
        && e2.seen@[e2.order@[i] as int] by {
        if i < n {
            assert(e2.order@[i] == e.order@[i]);
        }
    }
    assert forall|q: int|
        0 <= q < 336 && #[trigger] e2.seen@[q] implies 0 <= idx2[q] < e2.order@.len()
            && e2.order@[idx2[q]] == q && e2.depth@[q] <= idx2[q] by {
        if q != k {
            assert(e2.order@[index_of[q]] == e.order@[index_of[q]]);
        }
    }
    assert(links_hold(free, e2)) by {
        assert forall|q: int|
            0 <= q < 336 && #[trigger] e2.seen@[q] && q != spawn_index() implies {
            &&& e2.parent@[q] < 336
            &&& e2.seen@[e2.parent@[q] as int]
            &&& e2.parent@[q] != q
            &&& step_index(free, e2.parent@[q] as int, e2.via@[q]) == Some(q)
            &&& e2.depth@[q] == e2.depth@[e2.parent@[q] as int] + 1
        } by {
            if q != k {
                assert(e.seen@[q]);
                assert(e.parent@[q] != k);
            }
        }
    }
}

proof fn lemma_reachable_valid(free: Seq<bool>, j: int)
    requires
        free.len() == 84,
        pose_reachable(free, j),
    ensures
        0 <= pose_x(j) < 6,
        0 <= pose_y(j) < 14,
        0 <= j < 336,
{
    reveal(pose_reachable);
    let path = choose|path: Seq<int>| #[trigger] is_move_path(free, path) && path.last() == j;
    if path.len() == 1 {
    } else {
        let i = path.len() - 2;
        assert(one_move(free, path[i], path[i + 1]));
        if step_index(free, path[i], Input::Left) == Some(j) {
            lemma_move_result(free, path[i], Input::Left);
        } else if step_index(free, path[i], Input::Right) == Some(j) {
            lemma_move_result(free, path[i], Input::Right);
        } else if step_index(free, path[i], Input::Down) == Some(j) {
            lemma_move_result(free, path[i], Input::Down);
        } else if step_index(free, path[i], Input::RotateCw) == Some(j) {
            lemma_move_result(free, path[i], Input::RotateCw);
        } else if step_index(free, path[i], Input::RotateCcw) == Some(j) {
            lemma_move_result(free, path[i], Input::RotateCcw);
        } else {
            lemma_move_result(free, path[i], Input::Rotate180);
        }
    }
}


/// The results of the inputs tried so far from pose `j` stay reached as
/// the search goes on.
proof fn lemma_tried_inputs(free: Seq<bool>, e: Exploration, e2: Exploration, j: int, n: int)
    requires
        forall|q: int| 0 <= q < 336 && e.seen@[q] ==> #[trigger] e2.seen@[q],
        forall|m: int|
            0 <= m < n ==> (#[trigger] step_index(free, j, input_of_rank(m)) matches Some(q) ==> 0 <= q < 336
                && e.seen@[q]),
        step_index(free, j, input_of_rank(n)) matches Some(q) ==> 0 <= q < 336 && e2.seen@[q],
    ensures
        forall|m: int|
            0 <= m < n + 1 ==> (#[trigger] step_index(free, j, input_of_rank(m)) matches Some(q) ==> 0 <= q < 336
                && e2.seen@[q]),
{
    assert forall|m: int|
        0 <= m < n + 1 implies (#[trigger] step_index(free, j, input_of_rank(m)) matches Some(q) ==> 0 <= q
            < 336 && e2.seen@[q]) by {
        if m < n {
            if step_index(free, j, input_of_rank(m)) is Some {
                let q = step_index(free, j, input_of_rank(m))->0;
                assert(e.seen@[q]);
            }
        }
    }
}

/// The input the search tries in place `n`.
fn input_at(n: usize) -> (r: Input)
    requires
        n < 6,
    ensures
        r == input_of_rank(n as int),
        input_rank(r) == n,
{
    if n == 0 {
        Input::Left
    } else if n == 1 {
        Input::Right
    } else if n == 2 {
        Input::Down
    } else if n == 3 {
        Input::RotateCw
    } else if n == 4 {
        Input::RotateCcw
    } else {
        Input::Rotate180
    }
}

fn expand_pose(
    free: &[bool; 84],
    e: &mut Exploration,
    j: usize,
    Ghost(index_of): Ghost<Seq<int>>,
    Ghost(head): Ghost<int>,
) -> (r: Ghost<Seq<int>>)
    requires
        j < 336,
        search_state(free@, *old(e), index_of),
        old(e).seen@[j as int],
        0 <= head < old(e).order@.len(),
        old(e).order@[head] == j,
        tree_state(free@, *old(e), index_of, head, 0),
        forall|i: int| 0 <= i < head ==> expanded(free@, *old(e), #[trigger] old(e).order@[i] as int),
    ensures
        search_state(free@, *final(e), r@),
        final(e).order@.len() >= old(e).order@.len(),
        forall|i: int| 0 <= i < old(e).order@.len() ==> final(e).order@[i] == old(e).order@[i],
        forall|q: int| 0 <= q < 336 && old(e).seen@[q] ==> #[trigger] final(e).seen@[q],
        expanded(free@, *final(e), j as int),
        final(e).order@.len() <= 336,
        final(e).seen@.len() == 336,
        forall|i: int|
            0 <= i < final(e).order@.len() ==> (#[trigger] final(e).order@[i]) < 336
                && final(e).seen@[final(e).order@[i] as int],
        tree_state(free@, *final(e), r@, head, 6),
        forall|i: int| 0 <= i < head ==> expanded(free@, *final(e), #[trigger] final(e).order@[i] as int),
{
    let ghost start = *e;
    proof {
        reveal(search_state);
    }
    let mut idx: Ghost<Seq<int>> = Ghost(index_of);
    let mut n: usize = 0;
    while n < 6
        invariant
            j < 336,
            n <= 6,
            search_state(free@, *e, idx@),
            0 <= head < start.order@.len(),
            start.order@[head] == j,
            e.order@.len() >= start.order@.len(),
            forall|i: int| 0 <= i < start.order@.len() ==> e.order@[i] == start.order@[i],
            forall|q: int| 0 <= q < 336 && start.seen@[q] ==> #[trigger] e.seen@[q],
            start.seen@[j as int],
            tree_state(free@, *e, idx@, head, n as int),
            forall|i: int| 0 <= i < head ==> expanded(free@, *e, #[trigger] e.order@[i] as int),
            forall|m: int|
                0 <= m < n ==> (#[trigger] step_index(free@, j as int, input_of_rank(m)) matches Some(q) ==> 0
                    <= q < 336 && e.seen@[q]),
        decreases 6 - n,
    {
        let input = input_at(n);
        let ghost before = *e;
        assert(e.order@[head] == j);
        let r = discover(free, e, j, input, idx, Ghost(head));
        proof {
            lemma_tried_inputs(free@, before, *e, j as int, n as int);
        }
        idx = r;
        n += 1;
    }
    proof {
        reveal(search_state);
        assert(step_index(free@, j as int, input_of_rank(0)) == step_index(free@, j as int, Input::Left));
        assert(step_index(free@, j as int, input_of_rank(1)) == step_index(free@, j as int, Input::Right));
        assert(step_index(free@, j as int, input_of_rank(2)) == step_index(free@, j as int, Input::Down));
        assert(step_index(free@, j as int, input_of_rank(3)) == step_index(free@, j as int, Input::RotateCw));
        assert(step_index(free@, j as int, input_of_rank(4)) == step_index(free@, j as int, Input::RotateCcw));
        assert(step_index(free@, j as int, input_of_rank(5)) == step_index(free@, j as int, Input::Rotate180));
    }
    idx
}

/// Breadth-first search of all poses reachable from the spawn pose.
fn explore(free: &[bool; 84]) -> (res: (Exploration, Ghost<Seq<int>>))
    requires
        spawn_fits(free@),
    ensures
        search_state(free@, res.0, res.1@),
        tree_state(free@, res.0, res.1@, res.0.order@.len() as int, 0),
        res.0.seen@.len() == 336,
        forall|j: int| 0 <= j < 336 ==> res.0.seen@[j] == pose_reachable(free@, j),
        links_hold(free@, res.0),
        forall|i: int| 0 <= i < res.0.order@.len() ==> (#[trigger] res.0.order@[i]) < 336 && res.0.seen@[res.0.order@[i] as int],
        forall|j: int| 0 <= j < 336 && #[trigger] res.0.seen@[j] ==> res.0.depth@[j] < 336,
        res.0.seen@[spawn_index()],
        forall|j: int|
            0 <= j < 336 && #[trigger] res.0.seen@[j] ==> exists|k: int|
                0 <= k < res.0.order@.len() && #[trigger] res.0.order@[k] == j,
        forall|j: int, k: int|
            0 <= j < 336 && #[trigger] res.0.seen@[j] && #[trigger] one_move(free@, j, k) ==> 0 <= k < 336
                && res.0.seen@[k],
{
    let ghost g = free@;
    let mut e = Exploration {
        order: Vec::new(),
        seen: [false; 336],
        parent: [0; 336],
        via: [Input::HardDrop; 336],
        depth: [0; 336],
    };
    proof {
        grid::lemma_count_all_false(e.seen@);
        grid::lemma_count_true_update(e.seen@, 326);
        reveal(pose_reachable);
        assert(is_move_path(g, seq![326int]));
    }
    e.seen[326] = true;
    e.parent[326] = 326;
    e.order.push(326);
    let ghost mut index_of: Seq<int> = Seq::new(336, |j: int| 0);
    proof {
        reveal(search_state);
        reveal(tree_state);
        assert(e.order@[0] == 326);
    }
    let mut head: usize = 0;
    while head < e.order.len()
        invariant
            g == free@,
            search_state(g, e, index_of),
            head <= e.order@.len(),
            e.order@.len() <= 336,
            e.seen@.len() == 336,
            forall|i: int|
                0 <= i < e.order@.len() ==> (#[trigger] e.order@[i]) < 336 && e.seen@[e.order@[i] as int],
            forall|i: int| 0 <= i < head ==> expanded(g, e, #[trigger] e.order@[i] as int),
            tree_state(g, e, index_of, head as int, 0),
        decreases 7 * (336 - e.order@.len()) + (e.order@.len() - head),
    {
        let j = e.order[head];
        let ghost before = e;
        let r = expand_pose(free, &mut e, j, Ghost(index_of), Ghost(head as int));
        proof {
            index_of = r@;
            lemma_tree_next_head(g, e, index_of, head as int);
            assert forall|i: int| 0 <= i < head + 1 implies expanded(g, e, #[trigger] e.order@[i] as int) by {
                if i == head {
                    assert(e.order@[i] == before.order@[i]);
                }
            }
        }
        head += 1;
    }
    proof {
        reveal(search_state);
        assert forall|j: int, k: int|
            0 <= j < 336 && #[trigger] e.seen@[j] && #[trigger] one_move(g, j, k) implies 0 <= k < 336
                && e.seen@[k] by {
            let i = index_of[j];
            assert(expanded(g, e, e.order@[i] as int));
        }
        assert forall|j: int| 0 <= j < 336 && #[trigger] e.seen@[j] implies exists|k: int|
            0 <= k < e.order@.len() && #[trigger] e.order@[k] == j by {
            assert(e.order@[index_of[j]] == j);
        }
        assert forall|j: int| 0 <= j < 336 implies e.seen@[j] == pose_reachable(g, j) by {
            if pose_reachable(g, j) {
                reveal(pose_reachable);
                let path = choose|path: Seq<int>| #[trigger] is_move_path(g, path) && path.last() == j;
                lemma_closed_holds_path(g, e.seen@, path, path.len() - 1);
            }
        }
    }
    (e, Ghost(index_of))
}


/// The reachable poses of one rotation as an 84-bit mask.
pub open spec fn pose_mask(reached: Seq<bool>, r: int, n: int) -> u128
    decreases n,
{
    if n <= 0 {
        0
    } else if reached[r * 84 + n - 1] {
        pose_mask(reached, r, n - 1) | (1u128 << ((n - 1) as u128))
    } else {
        pose_mask(reached, r, n - 1)
    }
}

/// The poses reachable from the spawn pose, by pose number.
pub open spec fn reachable_set(free: Seq<bool>) -> Seq<bool> {
    Seq::new(336, |j: int| spawn_fits(free) && pose_reachable(free, j))
}

fn free_from_heights(heights: &[u8; 6]) -> (f: [bool; 84])
    ensures
        f@ == heights_free(heights@),
{
    let mut f = [false; 84];
    let mut k: usize = 0;
    while k < 84
        invariant
            k <= 84,
            forall|q: int| 0 <= q < k ==> f@[q] == heights_free(heights@)[q],
        decreases 84 - k,
    {
        f[k] = k / 6 >= heights[k % 6] as usize;
        k += 1;
    }
    assert(f@ =~= heights_free(heights@));
    f
}

fn free_from_board(board: &Board) -> (f: [bool; 84])
    ensures
        f@ == field_free(board@),
{
    let mut f = [false; 84];
    let mut k: usize = 0;
    while k < 84
        invariant
            k <= 84,
            forall|q: int| 0 <= q < k ==> f@[q] == field_free(board@)[q],
        decreases 84 - k,
    {
        f[k] = k / 6 == 13 || board.get(k % 6, k / 6) == Cell::Empty;
        k += 1;
    }
    assert(f@ =~= field_free(board@));
    f
}

fn masks_of(seen: &[bool; 336]) -> (r: [u128; 4])
    ensures
        forall|rot: int| 0 <= rot < 4 ==> r@[rot] == pose_mask(seen@, rot, 84),
{
    let mut r = [0u128; 4];
    let mut rot: usize = 0;
    while rot < 4
        invariant
            rot <= 4,
            forall|q: int| 0 <= q < rot ==> r@[q] == pose_mask(seen@, q, 84),
        decreases 4 - rot,
    {
        let mut m: u128 = 0;
        let mut k: usize = 0;
        while k < 84
            invariant
                rot < 4,
                k <= 84,
                m == pose_mask(seen@, rot as int, k as int),
            decreases 84 - k,
        {
            if seen[rot * 84 + k] {
                m = m | (1u128 << (k as u128));
            }
            k += 1;
        }
        r[rot] = m;
        rot += 1;
    }
    r
}

/// Every pose the pair can reach from the spawn pose by moving, turning and
/// soft dropping, with the field given by its column heights.
pub fn reachable_poses(board: &Board) -> (r: ReachablePoses)
    ensures
        forall|rot: int|
            0 <= rot < 4 ==> r.0@[rot] == pose_mask(
                reachable_set(heights_free(heights_of(board@))),
                rot,
                84,
            ),
{
    let heights = board.column_heights();
    assert(heights@ =~= heights_of(board@));
    let free = free_from_heights(&heights);
    if !fits(&free, 2, 12, Rotation::Up) {
        let r = ReachablePoses([0u128; 4]);
        proof {
            assert forall|rot: int| 0 <= rot < 4 implies r.0@[rot] == pose_mask(
                reachable_set(free@),
                rot,
                84,
            ) by {
                lemma_pose_mask_empty(reachable_set(free@), rot, 84);
            }
        }
        return r;
    }
    let (e, _) = explore(&free);
    assert(e.seen@ =~= reachable_set(free@));
    ReachablePoses(masks_of(&e.seen))
}

proof fn lemma_bit_of_or(m: u128, j: u128, k: u128)
    requires
        j < 128,
        k < 128,
    ensures
        ((m | (1u128 << j)) >> k) & 1 == 1 <==> (((m >> k) & 1 == 1) || k == j),
{
    assert(((m | (1u128 << j)) >> k) & 1 == 1 <==> (((m >> k) & 1 == 1) || k == j)) by (bit_vector)
        requires
            j < 128,
            k < 128,
    ;
}

proof fn lemma_pose_mask_bit(s: Seq<bool>, rot: int, n: int, k: int)
    requires
        s.len() == 336,
        0 <= rot < 4,
        0 <= n <= 84,
        0 <= k < 84,
    ensures
        bit_set(pose_mask(s, rot, n), k) == (k < n && s[rot * 84 + k]),
    decreases n,
{
    if n == 0 {
        let kk = k as u128;
        assert((0u128 >> kk) & 1 != 1) by (bit_vector);
    } else {
        lemma_pose_mask_bit(s, rot, n - 1, k);
        let m = pose_mask(s, rot, n - 1);
        if s[rot * 84 + n - 1] {
            lemma_bit_of_or(m, (n - 1) as u128, k as u128);
        }
    }
}

/// `ReachablePoses::contains` reports reachability: a pose's bit in the
/// masks that `reachable_poses` gives is set exactly when the pose can be
/// reached from the spawn pose.
pub proof fn contains_reports_reachability(b: Board, x: int, y: int, r: Rotation)
    requires
        0 <= x < 6,
        0 <= y < 14,
    ensures
        bit_set(
            pose_mask(reachable_set(heights_free(heights_of(b@))), rotation_number(r), 84),
            y * 6 + x,
        ) == reachable_set(heights_free(heights_of(b@)))[pose_index(x, y, r)],
{
    lemma_pose_mask_bit(
        reachable_set(heights_free(heights_of(b@))),
        rotation_number(r),
        84,
        y * 6 + x,
    );
}

proof fn lemma_pose_index(x: int, y: int, r: Rotation)
    requires
        0 <= x < 6,
        0 <= y < 14,
    ensures
        pose_x(pose_index(x, y, r)) == x,
        pose_y(pose_index(x, y, r)) == y,
        pose_rotation(pose_index(x, y, r)) == r,
        0 <= pose_index(x, y, r) < 336,
{
    let j = pose_index(x, y, r);
    assert(j % 84 == y * 6 + x);
    assert(j / 84 == rotation_number(r));
    assert((y * 6 + x) % 6 == x);
    assert((y * 6 + x) / 6 == y);
}

/// Free cells from column heights of at most 13: a cell is free from its
/// column's height up, and the row above the field always is.
proof fn lemma_heights_free_at(h: Seq<u8>, x: int, y: int)
    requires
        h.len() == 6,
        forall|c: int| 0 <= c < 6 ==> h[c] <= 13,
        0 <= x < 6,
        0 <= y < 14,
    ensures
        free_at(heights_free(h), x, y) == (y >= h[x]),
{
    assert((y * 6 + x) / 6 == y);
    assert((y * 6 + x) % 6 == x);
}

/// One move from a reachable pose reaches its result.
proof fn lemma_move_reaches(
    free: Seq<bool>,
    x: int,
    y: int,
    r: Rotation,
    input: Input,
    x2: int,
    y2: int,
    r2: Rotation,
)
    requires
        0 <= x < 6,
        0 <= y < 14,
        0 <= x2 < 6,
        0 <= y2 < 14,
        input != Input::HardDrop,
        pose_reachable(free, pose_index(x, y, r)),
        move_pose(free, x, y, r, input) == Some((x2, y2, r2)),
    ensures
        pose_reachable(free, pose_index(x2, y2, r2)),
{
    lemma_pose_index(x, y, r);
    let j = pose_index(x, y, r);
    let k = pose_index(x2, y2, r2);
    assert(step_index(free, j, input) == Some(k));
    assert(one_move(free, j, k));
    lemma_reachable_step(free, j, k);
}

/// With the spawn pose free, the pair can lie flat on the row above the
/// field and slide to any column there.
proof fn lemma_top_row_reachable(h: Seq<u8>, x: int, r: Rotation)
    requires
        h.len() == 6,
        forall|c: int| 0 <= c < 6 ==> h[c] <= 13,
        h[2] <= 12,
        r == Rotation::Right ==> 0 <= x <= 4,
        r == Rotation::Left ==> 1 <= x <= 5,
        r == Rotation::Right || r == Rotation::Left,
    ensures
        pose_reachable(heights_free(h), pose_index(x, 13, r)),
    decreases if x >= 2 {
        x - 2
    } else {
        2 - x
    },
{
    let free = heights_free(h);
    reveal(move_pose);
    if x == 2 {
        lemma_heights_free_at(h, 2, 12);
        lemma_heights_free_at(h, 2, 13);
        lemma_heights_free_at(h, 1, 13);
        lemma_heights_free_at(h, 3, 13);
        reveal(pose_reachable);
        let spawn = seq![spawn_index()];
        assert(is_move_path(free, spawn));
        assert(spawn.last() == pose_index(2, 12, Rotation::Up));
        assert(pose_reachable(free, pose_index(2, 12, Rotation::Up)));
        assert(move_pose(free, 2, 12, Rotation::Up, Input::Rotate180) == Some(
            (2int, 13int, Rotation::Down),
        ));
        lemma_move_reaches(free, 2, 12, Rotation::Up, Input::Rotate180, 2, 13, Rotation::Down);
        if r == Rotation::Right {
            assert(rotation_cw(Rotation::Down) == Rotation::Right);
            lemma_move_reaches(free, 2, 13, Rotation::Down, Input::RotateCw, 2, 13, Rotation::Right);
        } else {
            assert(rotation_ccw(Rotation::Down) == Rotation::Left);
            lemma_move_reaches(free, 2, 13, Rotation::Down, Input::RotateCcw, 2, 13, Rotation::Left);
        }
    } else if x < 2 {
        lemma_top_row_reachable(h, x + 1, r);
        lemma_heights_free_at(h, x, 13);
        lemma_heights_free_at(h, x + 1, 13);
        if x >= 1 {
            lemma_heights_free_at(h, x - 1, 13);
        }
        lemma_move_reaches(free, x + 1, 13, r, Input::Left, x, 13, r);
    } else {
        lemma_top_row_reachable(h, x - 1, r);
        lemma_heights_free_at(h, x, 13);
        lemma_heights_free_at(h, x - 1, 13);
        if x <= 4 {
            lemma_heights_free_at(h, x + 1, 13);
        }
        lemma_move_reaches(free, x - 1, 13, r, Input::Right, x, 13, r);
    }
}

/// Legality read from the column heights is reachability: a placement is
/// legal exactly when the pair lands with it and some pose with its column
/// and rotation can be reached from the spawn pose.
pub proof fn legality_is_reachability(b: Board, i: int)
    requires
        0 <= i < 22,
    ensures
        legal_index(heights_of(b@), i) <==> (landing(heights_of(b@), placement_at(i)) is Some
            && exists|y: int|
            0 <= y < 14 && #[trigger] reachable_set(heights_free(heights_of(b@)))[pose_index(
                placement_at(i).axis_column as int,
                y,
                placement_at(i).rotation,
            )]),
{
    let h = heights_of(b@);
    let free = heights_free(h);
    let p = placement_at(i);
    let x = p.axis_column as int;
    let r = p.rotation;
    assert forall|c: int| 0 <= c < 6 implies h[c] <= 13 by {
        lemma_height_upto(b@, c, 13);
    }
    if exists|y: int|
        0 <= y < 14 && #[trigger] reachable_set(free)[pose_index(x, y, r)] {
        let y = choose|y: int| 0 <= y < 14 && #[trigger] reachable_set(free)[pose_index(x, y, r)];
        lemma_pose_index(x, y, r);
        assert(spawn_fits(free));
        lemma_heights_free_at(h, 2, 12);
    }
    if legal_index(h, i) {
        lemma_heights_free_at(h, 2, 12);
        lemma_heights_free_at(h, 2, 13);
        reveal(move_pose);
        let y: int = if r == Rotation::Up {
            12
        } else {
            13
        };
        if r == Rotation::Right || r == Rotation::Left {
            lemma_top_row_reachable(h, x, r);
        } else if x <= 4 {
            lemma_top_row_reachable(h, x, Rotation::Right);
            lemma_heights_free_at(h, x, 12);
            lemma_heights_free_at(h, x, 13);
            lemma_heights_free_at(h, x + 1, 13);
            if r == Rotation::Up {
                assert(rotation_cw(Rotation::Right) == Rotation::Up);
                lemma_move_reaches(free, x, 13, Rotation::Right, Input::RotateCw, x, 12, r);
            } else {
                assert(rotation_ccw(Rotation::Right) == Rotation::Down);
                lemma_move_reaches(free, x, 13, Rotation::Right, Input::RotateCcw, x, 13, r);
            }
        } else {
            lemma_top_row_reachable(h, x, Rotation::Left);
            lemma_heights_free_at(h, x, 12);
            lemma_heights_free_at(h, x, 13);
            lemma_heights_free_at(h, x - 1, 13);
            if r == Rotation::Up {
                assert(rotation_ccw(Rotation::Left) == Rotation::Up);
                lemma_move_reaches(free, x, 13, Rotation::Left, Input::RotateCcw, x, 12, r);
            } else {
                assert(rotation_cw(Rotation::Left) == Rotation::Down);
                lemma_move_reaches(free, x, 13, Rotation::Left, Input::RotateCw, x, 13, r);
            }
        }
        lemma_pose_index(x, y, r);
        assert(reachable_set(free)[pose_index(x, y, r)]);
    }
}

proof fn lemma_pose_mask_empty(s: Seq<bool>, rot: int, n: int)
    requires
        forall|j: int| 0 <= j < s.len() ==> !s[j],
        s.len() == 336,
        0 <= rot < 4,
        n <= 84,
    ensures
        pose_mask(s, rot, n) == 0,
    decreases n,
{
    if n > 0 {
        lemma_pose_mask_empty(s, rot, n - 1);
    }
}

/// The moves of a route other than the final hard drop each take two
/// frames.
pub open spec fn frames_of(route: Seq<Input>) -> int
    decreases route.len(),
{
    if route.len() == 0 {
        0
    } else {
        frames_of(route.drop_last()) + if route.last() != Input::HardDrop {
            2int
        } else {
            0int
        }
    }
}

fn route_frame_cost(route: &[Input]) -> (r: u16)
    requires
        route@.len() < 32768,
    ensures
        r == frames_of(route@),
{
    let mut total: u16 = 0;
    let mut i: usize = 0;
    while i < route.len()
        invariant
            i <= route@.len(),
            route@.len() < 32768,
            total == frames_of(route@.take(i as int)),
            total <= 2 * i,
        decreases route@.len() - i,
    {
        assert(route@.take(i + 1).drop_last() =~= route@.take(i as int));
        if route[i] != Input::HardDrop {
            total = total + 2;
        }
        i += 1;
    }
    assert(route@.take(route@.len() as int) =~= route@);
    total
}

/// A pose the pair can reach has the target's axis column and rotation.
pub open spec fn target_reachable(free: Seq<bool>, target: Placement) -> bool {
    spawn_fits(free) && exists|j: int|
        0 <= j < 336 && #[trigger] pose_reachable(free, j) && pose_x(j) == target.axis_column
            && pose_rotation(j) == target.rotation
}

/// `moves` lead from the spawn pose to a pose with the target's axis
/// column and rotation.
pub open spec fn moves_reach(free: Seq<bool>, moves: Seq<Input>, target: Placement) -> bool {
    replay(free, spawn_index(), moves) matches Some(j) && pose_x(j) == target.axis_column
        && pose_rotation(j) == target.rotation
}

/// `route` is a sequence of moves from the spawn pose to a pose with the
/// target's axis column and rotation, followed by a hard drop.
pub open spec fn route_reaches(free: Seq<bool>, route: Seq<Input>, target: Placement) -> bool {
    &&& route.len() >= 1
    &&& route.last() == Input::HardDrop
    &&& moves_reach(free, route.drop_last(), target)
}

/// The route's moves come first, in the order `comes_before`, among all
/// the move sequences that reach the target.
pub open spec fn route_is_first(free: Seq<bool>, route: Seq<Input>, target: Placement) -> bool {
    forall|moves: Seq<Input>| #[trigger] moves_reach(free, moves, target) ==> route.drop_last() == moves
        || comes_before(route.drop_last(), moves)
}

/// No sequence of moves shorter than the route's reaches the target.
pub open spec fn route_is_shortest(free: Seq<bool>, route: Seq<Input>, target: Placement) -> bool {
    forall|moves: Seq<Input>| #[trigger] moves_reach(free, moves, target) ==> route.len() <= moves.len() + 1
}

/// The moves along the search's links from the spawn pose to pose `j`,
/// `n` links deep.
spec fn tree_path(e: Exploration, j: int, n: nat) -> Seq<Input>
    decreases n,
{
    if n == 0 {
        Seq::empty()
    } else {
        tree_path(e, e.parent@[j] as int, (n - 1) as nat).push(e.via@[j])
    }
}

/// The moves along the search's links from the spawn pose to pose `j`.
spec fn path_to(e: Exploration, j: int) -> Seq<Input> {
    tree_path(e, j, e.depth@[j] as nat)
}

proof fn lemma_path_step(free: Seq<bool>, e: Exploration, j: int)
    requires
        links_hold(free, e),
        0 <= j < 336,
        e.seen@[j],
        j != spawn_index(),
    ensures
        path_to(e, j) == path_to(e, e.parent@[j] as int).push(e.via@[j]),
{
}

proof fn lemma_path_len(e: Exploration, j: int, n: nat)
    ensures
        tree_path(e, j, n).len() == n,
    decreases n,
{
    if n > 0 {
        lemma_path_len(e, e.parent@[j] as int, (n - 1) as nat);
    }
}

/// `a` and `b` agree before place `k`, where the input of `a` comes
/// earlier in the order the search tries inputs.
pub open spec fn earlier_at(a: Seq<Input>, b: Seq<Input>, k: int) -> bool {
    &&& 0 <= k < a.len()
    &&& k < b.len()
    &&& a.take(k) == b.take(k)
    &&& input_rank(a[k]) < input_rank(b[k])
}

/// Move sequence `a` comes before `b`: it is shorter, or as long and its
/// first input that differs comes earlier in the order Left, Right, Down,
/// RotateCw, RotateCcw, Rotate180.
pub open spec fn comes_before(a: Seq<Input>, b: Seq<Input>) -> bool {
    ||| a.len() < b.len()
    ||| a.len() == b.len() && exists|k: int| #[trigger] earlier_at(a, b, k)
}

proof fn lemma_before_push(s: Seq<Input>, t: Seq<Input>, x: Input, y: Input)
    requires
        comes_before(s, t),
    ensures
        comes_before(s.push(x), t.push(y)),
{
    if s.len() == t.len() {
        let k = choose|k: int| #[trigger] earlier_at(s, t, k);
        assert(s.push(x).take(k) =~= s.take(k));
        assert(t.push(y).take(k) =~= t.take(k));
        assert(earlier_at(s.push(x), t.push(y), k));
    }
}

proof fn lemma_before_last(s: Seq<Input>, x: Input, y: Input)
    requires
        input_rank(x) < input_rank(y),
    ensures
        comes_before(s.push(x), s.push(y)),
{
    let k = s.len() as int;
    assert(s.push(x).take(k) =~= s);
    assert(s.push(y).take(k) =~= s);
    assert(earlier_at(s.push(x), s.push(y), k));
}

proof fn lemma_before_trans(a: Seq<Input>, b: Seq<Input>, c: Seq<Input>)
    requires
        comes_before(a, b),
        b == c || comes_before(b, c),
    ensures
        comes_before(a, c),
{
    if b != c && a.len() == b.len() && b.len() == c.len() {
        let k1 = choose|k: int| #[trigger] earlier_at(a, b, k);
        let k2 = choose|k: int| #[trigger] earlier_at(b, c, k);
        if k1 < k2 {
            assert(b.take(k1) =~= b.take(k2).take(k1));
            assert(c.take(k1) =~= c.take(k2).take(k1));
            assert(b[k1] == b.take(k2)[k1]);
            assert(c[k1] == c.take(k2)[k1]);
            assert(earlier_at(a, c, k1));
        } else if k2 < k1 {
            assert(a.take(k2) =~= a.take(k1).take(k2));
            assert(b.take(k2) =~= b.take(k1).take(k2));
            assert(a[k2] == a.take(k1)[k2]);
            assert(b[k2] == b.take(k1)[k2]);
            assert(earlier_at(a, c, k2));
        } else {
            assert(earlier_at(a, c, k1));
        }
    }
}

proof fn lemma_replay_push(free: Seq<bool>, j: int, m: Seq<Input>, x: Input)
    ensures
        replay(free, j, m.push(x)) == match replay(free, j, m) {
            Some(q) => step_index(free, q, x),
            None => None,
        },
    decreases m.len(),
{
    let mx = m.push(x);
    if m.len() == 0 {
        assert(mx.drop_first() =~= Seq::<Input>::empty());
        assert(mx[0] == x);
        assert(replay(free, j, m) == Some(j));
        match step_index(free, j, x) {
            Some(k) => {
                assert(replay(free, k, mx.drop_first()) == Some(k));
            },
            None => {},
        }
    } else {
        assert(mx.drop_first() =~= m.drop_first().push(x));
        assert(mx[0] == m[0]);
        match step_index(free, j, m[0]) {
            Some(k) => {
                lemma_replay_push(free, k, m.drop_first(), x);
                assert(replay(free, j, m) == replay(free, k, m.drop_first()));
                assert(replay(free, j, mx) == replay(free, k, mx.drop_first()));
            },
            None => {},
        }
    }
}

/// The search is complete: its facts at the end.
#[verifier::opaque]
spec fn search_done(free: Seq<bool>, e: Exploration, index_of: Seq<int>) -> bool {
    &&& search_state(free, e, index_of)
    &&& tree_state(free, e, index_of, e.order@.len() as int, 0)
    &&& forall|a: int, k: int|
        0 <= a < 336 && #[trigger] e.seen@[a] && #[trigger] one_move(free, a, k) ==> 0 <= k < 336
            && e.seen@[k]
}

proof fn lemma_done_index(free: Seq<bool>, e: Exploration, index_of: Seq<int>, q: int)
    requires
        search_done(free, e, index_of),
        0 <= q < 336,
        e.seen@[q],
    ensures
        0 <= index_of[q] < e.order@.len(),
        e.order@[index_of[q]] as int == q,
        q != spawn_index() ==> first_link(free, e, index_of, q),
        q != spawn_index() ==> e.seen@[e.parent@[q] as int] && 0 <= e.parent@[q] < 336,
        links_hold(free, e),
{
    reveal(search_done);
    reveal(search_state);
    reveal(tree_state);
}

proof fn lemma_done_closed(free: Seq<bool>, e: Exploration, index_of: Seq<int>, a: int, k: int)
    requires
        search_done(free, e, index_of),
        0 <= a < 336,
        e.seen@[a],
        one_move(free, a, k),
    ensures
        0 <= k < 336,
        e.seen@[k],
{
    reveal(search_done);
}

/// Along the search order, the paths of the search's links come in the
/// order `comes_before`.
proof fn lemma_order_paths(free: Seq<bool>, e: Exploration, index_of: Seq<int>, i: int, i2: int)
    requires
        search_done(free, e, index_of),
        0 <= i < i2 < e.order@.len(),
    ensures
        comes_before(path_to(e, e.order@[i] as int), path_to(e, e.order@[i2] as int)),
    decreases i2,
{
    reveal(search_done);
    reveal(search_state);
    reveal(tree_state);
    let a = e.order@[i] as int;
    let b = e.order@[i2] as int;
    assert(index_of[b] == i2);
    assert(e.seen@[b]);
    assert(b != spawn_index());
    lemma_path_step(free, e, b);
    let pb = e.parent@[b] as int;
    lemma_path_len(e, pb, e.depth@[pb] as nat);
    lemma_path_len(e, b, e.depth@[b] as nat);
    if i == 0 {
        assert(a == spawn_index());
        lemma_path_len(e, a, e.depth@[a] as nat);
    } else {
        assert(index_of[a] == i);
        assert(e.seen@[a]);
        assert(a != spawn_index());
        lemma_path_step(free, e, a);
        let pa = e.parent@[a] as int;
        assert(e.seen@[pa] && e.seen@[pb]);
        let ia = index_of[pa];
        let ib = index_of[pb];
        assert(e.order@[i] == e.order@[i] && e.order@[i2] == e.order@[i2]);
        assert(e.order@[ia] as int == pa && e.order@[ib] as int == pb);
        if ia < ib {
            lemma_order_paths(free, e, index_of, ia, ib);
            lemma_before_push(path_to(e, pa), path_to(e, pb), e.via@[a], e.via@[b]);
        } else {
            assert(pa == pb);
            lemma_before_last(path_to(e, pa), e.via@[a], e.via@[b]);
        }
    }
}

/// One more move keeps the path of the search's links no later than the
/// move sequence.
proof fn lemma_path_first_step(
    free: Seq<bool>,
    e: Exploration,
    index_of: Seq<int>,
    m1: Seq<Input>,
    x: Input,
    q1: int,
    q: int,
)
    requires
        search_done(free, e, index_of),
        0 <= q1 < 336,
        e.seen@[q1],
        path_to(e, q1) == m1 || comes_before(path_to(e, q1), m1),
        step_index(free, q1, x) == Some(q),
        x != Input::HardDrop,
    ensures
        0 <= q < 336,
        e.seen@[q],
        path_to(e, q) == m1.push(x) || comes_before(path_to(e, q), m1.push(x)),
{
    assert(one_move(free, q1, q));
    lemma_done_closed(free, e, index_of, q1, q);
    lemma_done_index(free, e, index_of, q);
    lemma_path_len(e, q1, e.depth@[q1] as nat);
    if q == spawn_index() {
        lemma_path_len(e, q, e.depth@[q] as nat);
    } else {
        lemma_path_step(free, e, q);
        let p = e.parent@[q] as int;
        let v = e.via@[q];
        lemma_done_index(free, e, index_of, p);
        lemma_done_index(free, e, index_of, q1);
        let ip = index_of[p];
        let i1 = index_of[q1];
        assert(!(i1 < ip));
        if i1 > ip {
            lemma_order_paths(free, e, index_of, ip, i1);
            lemma_before_trans(path_to(e, p), path_to(e, q1), m1);
        } else {
            assert(q1 == p);
            assert(input_of_rank(input_rank(x)) == x);
            assert(!(input_rank(x) < input_rank(v)));
        }
        lemma_extend_first(path_to(e, p), m1, v, x);
    }
}

/// Extending the earlier of two move sequences by an input no later than
/// the other's keeps it no later.
proof fn lemma_extend_first(pp: Seq<Input>, m1: Seq<Input>, v: Input, x: Input)
    requires
        (pp == m1 && input_rank(v) <= input_rank(x)) || comes_before(pp, m1),
    ensures
        pp.push(v) == m1.push(x) || comes_before(pp.push(v), m1.push(x)),
{
    if comes_before(pp, m1) {
        lemma_before_push(pp, m1, v, x);
    } else if v != x {
        lemma_before_last(m1, v, x);
    }
}

/// The path of the search's links to the pose a move sequence reaches
/// comes no later than that sequence.
proof fn lemma_path_first(free: Seq<bool>, e: Exploration, index_of: Seq<int>, m: Seq<Input>)
    requires
        search_done(free, e, index_of),
        replay(free, spawn_index(), m) is Some,
    ensures
        0 <= replay(free, spawn_index(), m)->0 < 336,
        e.seen@[replay(free, spawn_index(), m)->0],
        path_to(e, replay(free, spawn_index(), m)->0) == m || comes_before(
            path_to(e, replay(free, spawn_index(), m)->0),
            m,
        ),
    decreases m.len(),
{
    if m.len() == 0 {
        reveal(search_done);
        reveal(search_state);
        assert(path_to(e, spawn_index()) =~= m);
    } else {
        let m1 = m.drop_last();
        let x = m.last();
        assert(m1.push(x) =~= m);
        lemma_replay_push(free, spawn_index(), m1, x);
        lemma_path_first(free, e, index_of, m1);
        let q1 = replay(free, spawn_index(), m1)->0;
        if x == Input::HardDrop {
            reveal(move_pose);
        }
        lemma_path_first_step(free, e, index_of, m1, x, q1, replay(free, spawn_index(), m)->0);
    }
}

/// A route that comes first is a shortest one.
proof fn lemma_first_is_shortest(free: Seq<bool>, route: Seq<Input>, target: Placement)
    requires
        route.len() >= 1,
        route_is_first(free, route, target),
    ensures
        route_is_shortest(free, route, target),
{
    assert forall|moves: Seq<Input>| #[trigger] moves_reach(free, moves, target) implies route.len()
        <= moves.len() + 1 by {
        assert(route.drop_last() == moves || comes_before(route.drop_last(), moves));
    }
}

/// The route the search finds comes first, among all the move sequences
/// that reach the target.
proof fn lemma_route_first(free: Seq<bool>, e: Exploration, index_of: Seq<int>, i: int, target: Placement)
    requires
        search_done(free, e, index_of),
        0 <= i < e.order@.len(),
        pose_x(e.order@[i] as int) == target.axis_column,
        pose_rotation(e.order@[i] as int) == target.rotation,
        forall|k: int|
            0 <= k < i ==> !(pose_x(e.order@[k] as int) == target.axis_column && pose_rotation(
                e.order@[k] as int,
            ) == target.rotation),
    ensures
        forall|moves: Seq<Input>| #[trigger] moves_reach(free, moves, target) ==> path_to(e, e.order@[i] as int)
            == moves || comes_before(path_to(e, e.order@[i] as int), moves),
{
    assert forall|moves: Seq<Input>| #[trigger] moves_reach(free, moves, target) implies path_to(
        e,
        e.order@[i] as int,
    ) == moves || comes_before(path_to(e, e.order@[i] as int), moves) by {
        lemma_path_first(free, e, index_of, moves);
        let q = replay(free, spawn_index(), moves)->0;
        reveal(search_done);
        reveal(search_state);
        reveal(tree_state);
        let k = index_of[q];
        assert(e.order@[k] as int == q);
        assert(!(k < i));
        if k > i {
            lemma_order_paths(free, e, index_of, i, k);
            lemma_before_trans(path_to(e, e.order@[i] as int), path_to(e, q), moves);
        }
    }
}

/// One link back towards the spawn pose: the moves from the parent pose
/// are its link's input followed by the moves already collected.
proof fn lemma_route_back(free: Seq<bool>, e: Exploration, index: int, j: int, suffix: Seq<Input>)
    requires
        0 <= index < 336,
        e.seen@[index],
        e.parent@[index] != index,
        links_hold(free, e),
        e.seen@[spawn_index()],
        replay(free, index, suffix) == Some(j),
        path_to(e, j) == path_to(e, index) + suffix,
        suffix.len() + e.depth@[index] == e.depth@[j],
    ensures
        e.parent@[index] < 336,
        e.seen@[e.parent@[index] as int],
        replay(free, e.parent@[index] as int, seq![e.via@[index]] + suffix) == Some(j),
        path_to(e, j) == path_to(e, e.parent@[index] as int) + (seq![e.via@[index]] + suffix),
        (seq![e.via@[index]] + suffix).len() + e.depth@[e.parent@[index] as int] == e.depth@[j],
{
    let s2 = seq![e.via@[index]] + suffix;
    assert(index != spawn_index());
    assert(s2.drop_first() =~= suffix);
    lemma_path_step(free, e, index);
    assert(path_to(e, e.parent@[index] as int) + s2 =~= path_to(e, index) + suffix);
}

#[verifier::rlimit(40)]
fn route_to(e: &Exploration, j: usize, Ghost(free): Ghost<Seq<bool>>) -> (route: Vec<Input>)
    requires
        e.seen@.len() == 336,
        j < 336,
        e.seen@[j as int],
        links_hold(free, *e),
        forall|q: int| 0 <= q < 336 && #[trigger] e.seen@[q] ==> e.depth@[q] < 336,
        e.seen@[spawn_index()],
    ensures
        route@.len() >= 1,
        route@.len() <= 337,
        route@.last() == Input::HardDrop,
        replay(free, spawn_index(), route@.drop_last()) == Some(j as int),
        route@.len() == e.depth@[j as int] + 1,
        route@.drop_last() == path_to(*e, j as int),
{
    let mut back: Vec<Input> = Vec::new();
    let ghost mut suffix: Seq<Input> = Seq::empty();
    let mut index = j;
    while e.parent[index] != index
        invariant
            e.seen@.len() == 336,
            index < 336,
            e.seen@[index as int],
            links_hold(free, *e),
            e.seen@[spawn_index()],
            forall|q: int| 0 <= q < 336 && #[trigger] e.seen@[q] ==> e.depth@[q] < 336,
            replay(free, index as int, suffix) == Some(j as int),
            back@.len() == suffix.len(),
            forall|i: int| 0 <= i < suffix.len() ==> back@[i] == suffix[suffix.len() - 1 - i],
            suffix.len() + e.depth@[index as int] == e.depth@[j as int],
            path_to(*e, j as int) == path_to(*e, index as int) + suffix,
        decreases e.depth@[index as int],
    {
        let input = e.via[index];
        let ghost old_suffix = suffix;
        proof {
            suffix = seq![input] + old_suffix;
            lemma_route_back(free, *e, index as int, j as int, old_suffix);
        }
        back.push(input);
        index = e.parent[index];
    }
    assert(index == spawn_index());
    assert(path_to(*e, j as int) =~= suffix);
    let mut route: Vec<Input> = Vec::new();
    let n = back.len();
    let mut i: usize = 0;
    while i < n
        invariant
            n == back@.len(),
            n == suffix.len(),
            i <= n,
            forall|k: int| 0 <= k < suffix.len() ==> back@[k] == suffix[suffix.len() - 1 - k],
            route@ == suffix.take(i as int),
        decreases n - i,
    {
        route.push(back[n - 1 - i]);
        assert(route@ =~= suffix.take(i + 1));
        i += 1;
    }
    assert(suffix.take(n as int) =~= suffix);
    route.push(Input::HardDrop);
    assert(route@.drop_last() =~= suffix);
    route
}

#[verifier::rlimit(50)]
#[verifier::spinoff_prover]
fn shortest_route(board: &Board, target: Placement) -> (r: Option<Vec<Input>>)
    ensures
        match r {
            Some(route) => route_reaches(field_free(board@), route@, target) && route@.len() <= 337
                && target_reachable(field_free(board@), target) && route_is_shortest(
                field_free(board@),
                route@,
                target,
            ) && route_is_first(field_free(board@), route@, target),
            None => !target_reachable(field_free(board@), target),
        },
{
    let free = free_from_board(board);
    if !fits(&free, 2, 12, Rotation::Up) {
        return None;
    }
    let (e, index_of) = explore(&free);
    assert(search_done(free@, e, index_of@)) by {
        reveal(search_done);
    }
    let mut i: usize = 0;
    while i < e.order.len()
        invariant
            i <= e.order@.len(),
            free@ == field_free(board@),
            e.seen@.len() == 336,
            spawn_fits(free@),
            forall|q: int| 0 <= q < 336 ==> e.seen@[q] == pose_reachable(free@, q),
            forall|k: int| 0 <= k < e.order@.len() ==> (#[trigger] e.order@[k]) < 336 && e.seen@[e.order@[k] as int],
            links_hold(free@, e),
            forall|q: int| 0 <= q < 336 && #[trigger] e.seen@[q] ==> e.depth@[q] < 336,
            e.seen@[spawn_index()],
            forall|q: int|
                0 <= q < 336 && #[trigger] e.seen@[q] ==> exists|k: int|
                    0 <= k < e.order@.len() && #[trigger] e.order@[k] == q,
            forall|k: int|
                0 <= k < i ==> !(pose_x(e.order@[k] as int) == target.axis_column && pose_rotation(
                    e.order@[k] as int,
                ) == target.rotation),
            search_done(free@, e, index_of@),
        decreases e.order@.len() - i,
    {
        let j = e.order[i];
        let pose = pose_of_number(j);
        if pose.x as u8 == target.axis_column && pose.rotation == target.rotation {
            let route = route_to(&e, j, Ghost(free@));
            assert(pose_x(j as int) == target.axis_column);
            assert(route_reaches(free@, route@, target));
            assert(pose_reachable(free@, j as int));
            assert(target_reachable(free@, target));
            proof {
                lemma_route_first(free@, e, index_of@, i as int, target);
                lemma_first_is_shortest(free@, route@, target);
            }
            return Some(route);
        }
        i += 1;
    }
    proof {
        if target_reachable(free@, target) {
            let j = choose|j: int|
                0 <= j < 336 && #[trigger] pose_reachable(free@, j) && pose_x(j) == target.axis_column
                    && pose_rotation(j) == target.rotation;
            assert(e.seen@[j]);
            let k = choose|k: int| 0 <= k < e.order@.len() && #[trigger] e.order@[k] == j;
            assert(!(pose_x(e.order@[k] as int) == target.axis_column && pose_rotation(e.order@[k] as int)
                == target.rotation));
        }
    }
    None
}


/// A legal action: its route leads from the spawn pose to the placement,
/// it is the first such route (shortest, then earliest by input order),
/// and its frame count is that of the route.
pub open spec fn action_ok(b: Seq<Cell>, a: LegalAction) -> bool {
    &&& route_reaches(field_free(b), a.route@, a.placement)
    &&& route_is_shortest(field_free(b), a.route@, a.placement)
    &&& route_is_first(field_free(b), a.route@, a.placement)
    &&& a.route_frames == frames_of(a.route@)
}

proof fn lemma_replay_moves_only(free: Seq<bool>, j: int, moves: Seq<Input>)
    requires
        replay(free, j, moves) is Some,
    ensures
        forall|i: int| 0 <= i < moves.len() ==> #[trigger] moves[i] != Input::HardDrop,
    decreases moves.len(),
{
    if moves.len() > 0 {
        if moves[0] == Input::HardDrop {
            reveal(move_pose);
        }
        let k = step_index(free, j, moves[0])->0;
        lemma_replay_moves_only(free, k, moves.drop_first());
        assert forall|i: int| 0 <= i < moves.len() implies #[trigger] moves[i] != Input::HardDrop by {
            if i > 0 {
                assert(moves[i] == moves.drop_first()[i - 1]);
            }
        }
    }
}

proof fn lemma_frames_of_moves(moves: Seq<Input>)
    requires
        forall|i: int| 0 <= i < moves.len() ==> #[trigger] moves[i] != Input::HardDrop,
    ensures
        frames_of(moves) == 2 * moves.len(),
    decreases moves.len(),
{
    if moves.len() > 0 {
        let rest = moves.drop_last();
        assert forall|i: int| 0 <= i < rest.len() implies #[trigger] rest[i] != Input::HardDrop by {
            assert(rest[i] == moves[i]);
        }
        lemma_frames_of_moves(rest);
    }
}

proof fn lemma_before_asymmetric(a: Seq<Input>, b: Seq<Input>)
    requires
        comes_before(a, b),
    ensures
        !comes_before(b, a),
        a != b,
{
    if a.len() == b.len() {
        let k1 = choose|k: int| #[trigger] earlier_at(a, b, k);
        assert(a[k1] != b[k1]);
        if comes_before(b, a) {
            let k2 = choose|k: int| #[trigger] earlier_at(b, a, k);
            if k1 < k2 {
                assert(a[k1] == a.take(k2)[k1] && b[k1] == b.take(k2)[k1]);
            } else if k2 < k1 {
                assert(a[k2] == a.take(k1)[k2] && b[k2] == b.take(k1)[k2]);
            }
        }
    }
}

/// One route per placement: two legal actions for the same placement on
/// the same field have the same route, and the same frame count, two
/// frames for every move before the drop.
pub proof fn one_route_per_placement(b: Board, a1: LegalAction, a2: LegalAction)
    requires
        action_ok(b@, a1),
        action_ok(b@, a2),
        a1.placement == a2.placement,
    ensures
        a1.route@ == a2.route@,
        a1.route_frames == a2.route_frames,
        a1.route_frames == 2 * (a1.route@.len() - 1),
{
    let free = field_free(b@);
    let m1 = a1.route@.drop_last();
    let m2 = a2.route@.drop_last();
    assert(moves_reach(free, m1, a1.placement));
    assert(moves_reach(free, m2, a2.placement));
    if m1 != m2 {
        assert(comes_before(m1, m2));
        lemma_before_asymmetric(m1, m2);
        assert(comes_before(m2, m1));
    }
    lemma_replay_moves_only(free, spawn_index(), m1);
    lemma_frames_of_moves(m1);
    assert(a1.route@ =~= m1.push(Input::HardDrop));
    assert(a2.route@ =~= m2.push(Input::HardDrop));
}

/// The placements of `list` that some route reaches, in order.
pub open spec fn routed(b: Seq<Cell>, list: Seq<Placement>) -> Seq<Placement>
    decreases list.len(),
{
    if list.len() == 0 {
        Seq::empty()
    } else if target_reachable(field_free(b), list.last()) {
        routed(b, list.drop_last()).push(list.last())
    } else {
        routed(b, list.drop_last())
    }
}

pub fn route_to_placement(board: &Board, placement: Placement) -> (r: Option<LegalAction>)
    ensures
        match r {
            Some(a) => a.placement == placement && action_ok(board@, a),
            None => !(placement_is_legal(heights_of(board@), placement) && target_reachable(
                field_free(board@),
                placement,
            )),
        },
        r is Some ==> placement_is_legal(heights_of(board@), placement) && target_reachable(
            field_free(board@),
            placement,
        ),
{
    if !is_legal_placement(board, placement) {
        return None;
    }
    match shortest_route(board, placement) {
        Some(route) => {
            let route_frames = route_frame_cost(route.as_slice());
            Some(LegalAction { placement, route, route_frames })
        },
        None => None,
    }
}

/// Every legal placement that a route reaches, each with a route.
pub fn legal_actions(board: &Board) -> (r: Vec<LegalAction>)
    ensures
        r@.len() == routed(board@, legal_list(heights_of(board@), 22)).len(),
        forall|i: int|
            0 <= i < r@.len() ==> r@[i].placement == routed(board@, legal_list(heights_of(board@), 22))[i]
                && action_ok(board@, #[trigger] r@[i]),
{
    let compact = legal_placements_compact(board);
    let list = compact.as_slice();
    let ghost all = list@;
    let mut result: Vec<LegalAction> = Vec::new();
    let mut i: usize = 0;
    while i < list.len()
        invariant
            all == list@,
            all == legal_list(heights_of(board@), 22),
            i <= all.len(),
            result@.len() == routed(board@, all.take(i as int)).len(),
            forall|k: int|
                0 <= k < result@.len() ==> result@[k].placement == routed(board@, all.take(i as int))[k]
                    && action_ok(board@, #[trigger] result@[k]),
        decreases all.len() - i,
    {
        let placement = list[i];
        assert(all.take(i + 1).drop_last() =~= all.take(i as int));
        assert(all.take(i + 1).last() == placement);
        let ghost before = result@;
        match shortest_route(board, placement) {
            Some(route) => {
                let route_frames = route_frame_cost(route.as_slice());
                let action = LegalAction { placement, route, route_frames };
                assert(action_ok(board@, action));
                result.push(action);
                assert(routed(board@, all.take(i + 1)) == routed(board@, all.take(i as int)).push(
                    placement,
                ));
                assert forall|k: int| 0 <= k < result@.len() implies result@[k].placement == routed(
                    board@,
                    all.take(i + 1),
                )[k] && action_ok(board@, #[trigger] result@[k]) by {
                    if k < before.len() {
                        assert(result@[k] == before[k]);
                    }
                }
            },
            None => {
                assert(routed(board@, all.take(i + 1)) == routed(board@, all.take(i as int)));
            },
        }
        i += 1;
    }
    assert(all.take(all.len() as int) =~= all);
    result
}


// ----- the game state -----
/// How many of the pair's two puyos have colour number `c`.
pub open spec fn pair_colour_count(p: Pair, c: int) -> int {
    (if colour_number(p.axis) == c {
        1int
    } else {
        0int
    }) + (if colour_number(p.child) == c {
        1int
    } else {
        0int
    })
}

/// How many puyos of colour number `c` the pairs hold.
pub open spec fn colour_total(pairs: Seq<Pair>, c: int) -> int
    decreases pairs.len(),
{
    if pairs.len() == 0 {
        0
    } else {
        colour_total(pairs.drop_last(), c) + pair_colour_count(pairs.last(), c)
    }
}

/// The first `n` pairs dealt from a 128-pair queue, which starts over after
/// its last pair.
pub open spec fn dealt(q: Seq<Pair>, n: int) -> Seq<Pair> {
    Seq::new(n as nat, |i: int| q[i % 128])
}

/// The game is over once the death cell is filled or the spawn pose is
/// blocked.
pub open spec fn game_over(b: Seq<Cell>) -> bool {
    b[DEATH_Y * 6 + DEATH_X] != Cell::Empty || !spawn_fits(field_free(b))
}

proof fn lemma_colour_total_bound(pairs: Seq<Pair>, c: int)
    ensures
        0 <= colour_total(pairs, c) <= 2 * pairs.len(),
    decreases pairs.len(),
{
    if pairs.len() > 0 {
        lemma_colour_total_bound(pairs.drop_last(), c);
    }
}

/// Counts each colour's puyos among the pairs.
fn colour_counts(pairs: &[Pair]) -> (r: [u16; 4])
    requires
        pairs@.len() <= 32767,
    ensures
        forall|c: int| 0 <= c < 4 ==> r@[c] == colour_total(pairs@, c),
{
    let mut result = [0u16; 4];
    let mut i: usize = 0;
    while i < pairs.len()
        invariant
            i <= pairs@.len() <= 32767,
            forall|c: int| 0 <= c < 4 ==> result@[c] == colour_total(pairs@.take(i as int), c),
        decreases pairs@.len() - i,
    {
        let pair = pairs[i];
        proof {
            assert(pairs@.take(i + 1).drop_last() =~= pairs@.take(i as int));
            assert forall|c: int| 0 <= c < 4 implies result@[c] <= 2 * i by {
                lemma_colour_total_bound(pairs@.take(i as int), c);
            }
        }
        let a = pair.axis.index();
        result[a] = result[a] + 1;
        let b = pair.child.index();
        result[b] = result[b] + 1;
        i += 1;
    }
    assert(pairs@.take(pairs@.len() as int) =~= pairs@);
    result
}

/// A game seeded with a queue: the field, the queue, and what has been seen.
#[derive(Debug, Clone)]
pub struct GameState {
    board: Board,
    generator: Modern128,
    placements: u32,
    maximum_chain: u8,
    dead: bool,
    observed_colour_counts: [u16; 4],
}

/// What a player may see of a game: the field, the current pair and the
/// next two, and counts derived from them.
#[derive(Debug, Clone)]
pub struct PublicState {
    pub board: Board,
    pub pieces: [Pair; 3],
    pub queue_position: u8,
    pub estimated_unseen_colour_counts: [u16; 4],
    pub placements: u32,
    pub maximum_chain: u8,
    pub dead: bool,
}

#[derive(Debug, Clone, PartialEq, Eq)]
pub struct StepOutcome {
    pub simulation: board::SimulationSummary,
    pub labels: board::ChainLabels,
    pub split_distance: u8,
    pub dead: bool,
}

#[derive(Debug, Clone, Copy, PartialEq, Eq)]
pub struct FastStepOutcome {
    pub simulation: board::SimulationSummary,
    pub split_distance: u8,
    pub dead: bool,
}

#[derive(Debug, Clone, Copy, PartialEq, Eq, Structural)]
pub enum StepError {
    Terminal,
    IllegalPlacement,
}

impl GameState {
    pub closed spec fn board(self) -> Board {
        self.board
    }

    /// The queue's 128 pairs.
    pub closed spec fn pairs(self) -> Seq<Pair> {
        self.generator.pairs()
    }

    /// Position of the current pair in the queue.
    pub closed spec fn cursor(self) -> int {
        self.generator.cursor()
    }

    pub closed spec fn placements(self) -> u32 {
        self.placements
    }

    pub closed spec fn maximum_chain(self) -> u8 {
        self.maximum_chain
    }

    pub closed spec fn dead(self) -> bool {
        self.dead
    }

    /// Puyos of each colour seen so far, as the current and next pairs were
    /// revealed.
    pub closed spec fn observed(self) -> Seq<u16> {
        self.observed_colour_counts@
    }

    /// The counters can take one more step without overflowing.
    pub open spec fn counters_fit(self) -> bool {
        &&& self.placements() < u32::MAX
        &&& self.observed()[0] <= 65533
        &&& self.observed()[1] <= 65533
        &&& self.observed()[2] <= 65533
        &&& self.observed()[3] <= 65533
    }

    /// The current pair.
    pub open spec fn current_pair(self) -> Pair {
        self.pairs()[self.cursor() % 128]
    }

    /// Why a placement is refused, if it is.
    pub open spec fn refusal(self, placement: Placement) -> Option<StepError> {
        if self.dead() {
            Some(StepError::Terminal)
        } else if !placement_is_legal(heights_of(self.board()@), placement) {
            Some(StepError::IllegalPlacement)
        } else {
            None
        }
    }

    /// `next` is this state once the field `landed` (this state's field with
    /// the current pair dropped) has resolved its chains and the queue has
    /// moved on; `outcome` reports it.
    pub open spec fn finishes(
        self,
        landed: Seq<Cell>,
        next: GameState,
        outcome: FastStepOutcome,
    ) -> bool {
        let sim = board::summary_of(landed);
        &&& outcome.simulation == sim
        &&& next.board()@ == board::chain_final(landed, 1)
        &&& next.pairs() == self.pairs()
        &&& next.cursor() == (self.cursor() + 1) % 128
        &&& next.placements() == self.placements() + 1
        &&& next.maximum_chain() == (if sim.chains > self.maximum_chain() {
            sim.chains
        } else {
            self.maximum_chain()
        })
        &&& next.observed() == Seq::new(
            4,
            |c: int|
                (self.observed()[c] + pair_colour_count(
                    self.pairs()[(self.cursor() + 3) % 128],
                    c,
                )) as u16,
        )
        &&& next.dead() == game_over(next.board()@)
        &&& outcome.dead == next.dead()
    }

    /// The field once the current pair is dropped with `placement`.
    pub open spec fn landed(self, placement: Placement) -> Seq<Cell> {
        placed(self.board()@, self.current_pair(), placement)->0
    }

    /// Rows between the two puyos of the current pair once dropped.
    pub open spec fn split(self, placement: Placement) -> u8 {
        let ((ax, ay), (cx, cy)) = landing(heights_of(self.board()@), placement)->0;
        (if ay >= cy {
            ay - cy
        } else {
            cy - ay
        }) as u8
    }
}

proof fn lemma_legal_lands(b: Seq<Cell>, p: Placement)
    requires
        b.len() == 78,
        placement_is_legal(heights_of(b), p),
    ensures
        landing_defined(p),
        landing(heights_of(b), p) is Some,
{
}

impl GameState {
    pub fn new(seed: u32) -> (r: GameState)
        ensures
            accounting_holds(r),
            r.board()@ == board::empty_field(),
            r.pairs() == modern_queue(seed),
            r.cursor() == 0,
            r.placements() == 0,
            r.maximum_chain() == 0,
            !r.dead(),
            forall|c: int|
                0 <= c < 4 ==> #[trigger] r.observed()[c] == colour_total(dealt(r.pairs(), 3), c),
    {
        let generator = Modern128::new(seed);
        let visible = generator.visible();
        assert(visible@ =~= dealt(generator.pairs(), 3));
        let observed_colour_counts = colour_counts(visible.as_slice());
        GameState {
            board: Board::empty(),
            generator,
            placements: 0,
            maximum_chain: 0,
            dead: false,
            observed_colour_counts,
        }
    }

    /// A new game on the given field; it is over at once if the death cell
    /// is filled.
    pub fn from_board(seed: u32, board: Board) -> (r: GameState)
        ensures
            r.board() == board,
            r.pairs() == modern_queue(seed),
            r.cursor() == 0,
            r.placements() == 0,
            r.maximum_chain() == 0,
            r.dead() == (board@[DEATH_Y * 6 + DEATH_X] != Cell::Empty),
            forall|c: int|
                0 <= c < 4 ==> #[trigger] r.observed()[c] == colour_total(dealt(r.pairs(), 3), c),
    {
        let dead = board.get(DEATH_X, DEATH_Y) != Cell::Empty;
        let generator = Modern128::new(seed);
        let visible = generator.visible();
        assert(visible@ =~= dealt(generator.pairs(), 3));
        let observed_colour_counts = colour_counts(visible.as_slice());
        GameState { board, generator, placements: 0, maximum_chain: 0, dead, observed_colour_counts }
    }

    /// A game on the given field, with the queue moved on by the number of
    /// placements already made (modulo the queue's length).
    pub fn resume(seed: u32, board: Board, placements: u32, maximum_chain: u8) -> (r: GameState)
        ensures
            r.board() == board,
            r.pairs() == modern_queue(seed),
            r.cursor() == placements % 128,
            r.placements() == placements,
            r.maximum_chain() == maximum_chain,
            r.dead() == (board@[DEATH_Y * 6 + DEATH_X] != Cell::Empty),
            forall|c: int|
                0 <= c < 4 ==> #[trigger] r.observed()[c] == colour_total(
                    dealt(r.pairs(), placements % 128 + 3),
                    c,
                ),
    {
        let mut state = Self::from_board(seed, board);
        let ghost q = state.generator.pairs();
        let ghost dead = state.dead;
        let n = placements & 127;
        assert(n == placements % 128) by (bit_vector)
            requires
                n == placements & 127,
        ;
        let mut k: u32 = 0;
        while k < n
            invariant
                k <= n < 128,
                n == placements % 128,
                q == modern_queue(seed),
                state.generator.pairs() == q,
                state.generator.cursor() == k,
                state.board == board,
                state.dead == dead,
                state.placements == 0,
                state.maximum_chain == 0,
                forall|c: int|
                    0 <= c < 4 ==> #[trigger] state.observed()[c] == colour_total(dealt(q, k + 3), c),
            decreases n - k,
        {
            let ghost before = state.observed();
            state.generator.advance();
            let visible = state.generator.visible();
            let revealed = visible[2];
            proof {
                assert(state.observed() == before);
                assert(dealt(q, k + 4).drop_last() =~= dealt(q, k + 3));
                assert(dealt(q, k + 4).last() == revealed);
                assert forall|c: int| 0 <= c < 4 implies state.observed()[c] <= 2 * (k + 3) by {
                    lemma_colour_total_bound(dealt(q, k + 3), c);
                }
            }
            let a = revealed.axis.index();
            state.observed_colour_counts[a] = state.observed_colour_counts[a] + 1;
            let b = revealed.child.index();
            state.observed_colour_counts[b] = state.observed_colour_counts[b] + 1;
            k += 1;
        }
        let ghost seen = state.observed();
        state.placements = placements;
        state.maximum_chain = maximum_chain;
        assert(state.observed() == seen);
        assert(state.pairs() == q);
        state
    }

    /// Whether `step` can count one more placement: see `counters_fit`.
    pub fn counters_fit_now(&self) -> (r: bool)
        ensures
            r == self.counters_fit(),
    {
        self.placements < u32::MAX && self.observed_colour_counts[0] <= 65533
            && self.observed_colour_counts[1] <= 65533 && self.observed_colour_counts[2] <= 65533
            && self.observed_colour_counts[3] <= 65533
    }

    /// What a player may see: the unseen-colour estimate takes each colour's
    /// 64 puyos of a 128-pair cycle less those seen.
    pub fn public_state(&self) -> (r: PublicState)
        ensures
            r.board == self.board(),
            r.pieces@ == seq![
                self.pairs()[self.cursor() % 128],
                self.pairs()[(self.cursor() + 1) % 128],
                self.pairs()[(self.cursor() + 2) % 128],
            ],
            r.queue_position == self.cursor(),
            forall|c: int|
                0 <= c < 4 ==> #[trigger] r.estimated_unseen_colour_counts@[c] == (if self.observed()[c]
                    < 64 {
                    64 - self.observed()[c]
                } else {
                    0
                }),
            r.placements == self.placements(),
            r.maximum_chain == self.maximum_chain(),
            r.dead == self.dead(),
    {
        let o = self.observed_colour_counts;
        PublicState {
            board: self.board,
            pieces: self.generator.visible(),
            queue_position: self.generator.position(),
            estimated_unseen_colour_counts: [
                64u16.saturating_sub(o[0]),
                64u16.saturating_sub(o[1]),
                64u16.saturating_sub(o[2]),
                64u16.saturating_sub(o[3]),
            ],
            placements: self.placements,
            maximum_chain: self.maximum_chain,
            dead: self.dead,
        }
    }

    /// The legal actions on the field; none once the game is over.
    pub fn legal_actions(&self) -> (r: Vec<LegalAction>)
        ensures
            self.dead() ==> r@.len() == 0,
            !self.dead() ==> r@.len() == routed(
                self.board()@,
                legal_list(heights_of(self.board()@), 22),
            ).len(),
            !self.dead() ==> forall|i: int|
                0 <= i < r@.len() ==> r@[i].placement == routed(
                    self.board()@,
                    legal_list(heights_of(self.board()@), 22),
                )[i] && action_ok(self.board()@, #[trigger] r@[i]),
    {
        if self.dead {
            Vec::new()
        } else {
            legal_actions(&self.board)
        }
    }

    /// The legal placements on the field; none once the game is over.
    pub fn legal_placements(&self) -> (r: Vec<Placement>)
        ensures
            r@ == (if self.dead() {
                Seq::empty()
            } else {
                legal_list(heights_of(self.board()@), 22)
            }),
    {
        if self.dead {
            Vec::new()
        } else {
            legal_placements(&self.board)
        }
    }

    /// Drops the current pair with `placement`, resolves the chains, and
    /// moves the queue on; also labels every cell of the landed field.
    pub fn step(&mut self, placement: Placement) -> (r: Result<StepOutcome, StepError>)
        requires
            old(self).refusal(placement) is None ==> old(self).counters_fit(),
        ensures
            match old(self).refusal(placement) {
                Some(e) => r == Err::<StepOutcome, StepError>(e) && *final(self) == *old(self),
                None => match r {
                    Ok(o) => {
                        &&& o.split_distance == old(self).split(placement)
                        &&& old(self).finishes(
                            old(self).landed(placement),
                            *final(self),
                            (FastStepOutcome {
                                simulation: o.simulation,
                                split_distance: o.split_distance,
                                dead: o.dead,
                            }),
                        )
                        &&& board::labels_describe(old(self).landed(placement), o.labels)
                    },
                    Err(_) => false,
                },
            },
    {
        let split_distance = match self.place_current(placement) {
            Ok(d) => d,
            Err(e) => {
                return Err(e);
            },
        };
        let labels = self.board.chain_labels();
        let fast = self.finish_step(split_distance);
        Ok(StepOutcome { simulation: fast.simulation, labels, split_distance, dead: fast.dead })
    }

    /// `step` without the per-cell labels.
    pub fn step_fast(&mut self, placement: Placement) -> (r: Result<FastStepOutcome, StepError>)
        requires
            old(self).refusal(placement) is None ==> old(self).counters_fit(),
        ensures
            match old(self).refusal(placement) {
                Some(e) => r == Err::<FastStepOutcome, StepError>(e) && *final(self) == *old(self),
                None => match r {
                    Ok(o) => o.split_distance == old(self).split(placement) && old(self).finishes(
                        old(self).landed(placement),
                        *final(self),
                        o,
                    ),
                    Err(_) => false,
                },
            },
    {
        let split_distance = match self.place_current(placement) {
            Ok(d) => d,
            Err(e) => {
                return Err(e);
            },
        };
        Ok(self.finish_step(split_distance))
    }

    fn place_current(&mut self, placement: Placement) -> (r: Result<u8, StepError>)
        ensures
            match old(self).refusal(placement) {
                Some(e) => r == Err::<u8, StepError>(e) && *final(self) == *old(self),
                None => {
                    &&& r == Ok::<u8, StepError>(old(self).split(placement))
                    &&& final(self).board@ == old(self).landed(placement)
                    &&& final(self).generator == old(self).generator
                    &&& final(self).placements == old(self).placements
                    &&& final(self).maximum_chain == old(self).maximum_chain
                    &&& final(self).dead == old(self).dead
                    &&& final(self).observed_colour_counts == old(self).observed_colour_counts
                },
            },
    {
        if self.dead {
            return Err(StepError::Terminal);
        }
        if !is_legal_placement(&self.board, placement) {
            return Err(StepError::IllegalPlacement);
        }
        proof {
            lemma_legal_lands(self.board@, placement);
        }
        let visible = self.generator.visible();
        let pair = visible[0];
        match place_pair(&mut self.board, pair, placement) {
            Some(d) => Ok(d),
            None => Err(StepError::IllegalPlacement),
        }
    }

    fn finish_step(&mut self, split_distance: u8) -> (r: FastStepOutcome)
        requires
            old(self).counters_fit(),
        ensures
            old(self).finishes(old(self).board()@, *final(self), r),
            r.split_distance == split_distance,
    {
        let ghost s0 = *self;
        let simulation = self.board.simulate_summary();
        if simulation.chains > self.maximum_chain {
            self.maximum_chain = simulation.chains;
        }
        self.placements = self.placements + 1;
        self.generator.advance();
        let visible = self.generator.visible();
        let revealed = visible[2];
        assert(((s0.cursor() + 1) % 128 + 2) % 128 == (s0.cursor() + 3) % 128);
        let a = revealed.axis.index();
        self.observed_colour_counts[a] = self.observed_colour_counts[a] + 1;
        let b = revealed.child.index();
        self.observed_colour_counts[b] = self.observed_colour_counts[b] + 1;
        assert(self.observed() =~= Seq::new(
            4,
            |c: int|
                (s0.observed()[c] + pair_colour_count(s0.pairs()[(s0.cursor() + 3) % 128], c)) as u16,
        ));
        let free = free_from_board(&self.board);
        self.dead = self.board.get(DEATH_X, DEATH_Y) != Cell::Empty || !fits(
            &free,
            2,
            12,
            Rotation::Up,
        );
        FastStepOutcome { simulation, split_distance, dead: self.dead }
    }
}

/// A step keeps a settled field settled: the pair lands on top of its
/// columns and each chain closes the columns up.
pub proof fn step_keeps_gravity(
    s0: GameState,
    placement: Placement,
    s1: GameState,
    outcome: FastStepOutcome,
)
    requires
        board::gravity_holds(s0.board()@),
        s0.refusal(placement) is None,
        s0.finishes(s0.landed(placement), s1, outcome),
    ensures
        board::gravity_holds(s1.board()@),
{
    lemma_legal_lands(s0.board()@, placement);
    placing_keeps_gravity(s0.board()@, s0.current_pair(), placement);
    board::chain_keeps_gravity(s0.landed(placement), 1);
}

/// A step moves the visible window on by one pair: the old first next pair
/// becomes current and the old second next pair becomes the first next.
pub proof fn step_moves_window_on(
    s0: GameState,
    landed: Seq<Cell>,
    s1: GameState,
    outcome: FastStepOutcome,
)
    requires
        s0.finishes(landed, s1, outcome),
    ensures
        s1.pairs()[s1.cursor() % 128] == s0.pairs()[(s0.cursor() + 1) % 128],
        s1.pairs()[(s1.cursor() + 1) % 128] == s0.pairs()[(s0.cursor() + 2) % 128],
        s1.placements() == s0.placements() + 1,
{
    assert(((s0.cursor() + 1) % 128) % 128 == (s0.cursor() + 1) % 128);
    assert(((s0.cursor() + 1) % 128 + 1) % 128 == (s0.cursor() + 2) % 128);
}

/// `step` and `step_fast` agree: from the same state and placement they
/// report the same simulation, split and end of game, and leave the same
/// field, queue position, counters and observed colours.
pub proof fn step_and_step_fast_agree(
    s0: GameState,
    placement: Placement,
    labelled: GameState,
    with_labels: FastStepOutcome,
    fast: GameState,
    without_labels: FastStepOutcome,
)
    requires
        with_labels.split_distance == s0.split(placement),
        s0.finishes(s0.landed(placement), labelled, with_labels),
        without_labels.split_distance == s0.split(placement),
        s0.finishes(s0.landed(placement), fast, without_labels),
    ensures
        with_labels == without_labels,
        labelled.board()@ == fast.board()@,
        labelled.pairs() == fast.pairs(),
        labelled.cursor() == fast.cursor(),
        labelled.placements() == fast.placements(),
        labelled.maximum_chain() == fast.maximum_chain(),
        labelled.observed() == fast.observed(),
        labelled.dead() == fast.dead(),
{
}

/// The queue accounting that `GameState::new` starts and every step keeps:
/// after `n` placements the current pair is number `n` of the cycle, and
/// the observed colours are those of the first `n + 3` pairs dealt.
pub open spec fn accounting_holds(s: GameState) -> bool {
    let n = s.placements() as int;
    &&& s.cursor() == n % 128
    &&& forall|c: int|
        0 <= c < 4 ==> #[trigger] s.observed()[c] == colour_total(dealt(s.pairs(), n + 3), c)
}

/// A step keeps the queue accounting.
pub proof fn step_keeps_accounting(
    s0: GameState,
    landed: Seq<Cell>,
    s1: GameState,
    outcome: FastStepOutcome,
)
    requires
        accounting_holds(s0),
        s0.counters_fit(),
        s0.finishes(landed, s1, outcome),
    ensures
        accounting_holds(s1),
{
    let n = s0.placements() as int;
    let q = s0.pairs();
    assert(dealt(q, n + 4).drop_last() =~= dealt(q, n + 3));
    assert(dealt(q, n + 4).last() == q[(n + 3) % 128]);
    assert((n % 128 + 1) % 128 == (n + 1) % 128);
    assert((n % 128 + 3) % 128 == (n + 3) % 128);
    assert forall|c: int| 0 <= c < 4 implies #[trigger] s1.observed()[c] == colour_total(
        dealt(s1.pairs(), (s1.placements() as int) + 3),
        c,
    ) by {
        lemma_colour_total_bound(dealt(q, n + 3), c);
    }
}

/// Placement legality reads the heights only through three classes: below
/// row 12, exactly 12, and full.
pub proof fn legality_reads_three_height_classes(h: Seq<u8>, h2: Seq<u8>, n: int)
    requires
        h.len() == 6,
        h2.len() == 6,
        forall|c: int| 0 <= c < 6 ==> ((h[c] < 12) == (h2[c] < 12) && (h[c] < 13) == (h2[c] < 13)),
        n <= 22,
    ensures
        legal_list(h, n) == legal_list(h2, n),
    decreases n,
{
    if n > 0 {
        legality_reads_three_height_classes(h, h2, n - 1);
    }
}

/// The compact legal list reads the heights only through three classes:
/// fields whose columns agree on being below row 12, exactly 12, or full
/// give the same list value, unused slots included.
pub proof fn compact_lists_read_three_height_classes(
    b1: Board,
    b2: Board,
    r1: LegalPlacements,
    r2: LegalPlacements,
)
    requires
        forall|c: int|
            0 <= c < 6 ==> ((heights_of(b1@)[c] < 12) == (heights_of(b2@)[c] < 12) && (heights_of(b1@)[c]
                < 13) == (heights_of(b2@)[c] < 13)),
        r1.placements() == legal_list(heights_of(b1@), 22),
        r1.padded(),
        r2.placements() == legal_list(heights_of(b2@), 22),
        r2.padded(),
    ensures
        r1 == r2,
{
    legality_reads_three_height_classes(heights_of(b1@), heights_of(b2@), 22);
    LegalPlacements::lemma_same_placements(r1, r2);
}

proof fn lemma_placement_number_at(k: int)
    requires
        0 <= k < 22,
    ensures
        placement_number(placement_at(k)) == Some(k),
{
}

proof fn lemma_legal_list_legal(h: Seq<u8>, n: int, i: int)
    requires
        n <= 22,
        0 <= i < legal_list(h, n).len(),
    ensures
        placement_is_legal(h, legal_list(h, n)[i]),
    decreases n,
{
    if n > 0 {
        if legal_index(h, n - 1) && i == legal_list(h, n - 1).len() {
            lemma_placement_number_at(n - 1);
            assert(placement_at(n - 1) == legal_list(h, n)[i]);
        } else {
            lemma_legal_list_legal(h, n - 1, i);
            if legal_index(h, n - 1) {
                assert(legal_list(h, n)[i] == legal_list(h, n - 1)[i]);
            }
        }
    }
}

proof fn lemma_routed_from(b: Seq<Cell>, list: Seq<Placement>, i: int)
    requires
        0 <= i < routed(b, list).len(),
    ensures
        exists|k: int| 0 <= k < list.len() && list[k] == #[trigger] routed(b, list)[i],
    decreases list.len(),
{
    let rest = list.drop_last();
    if target_reachable(field_free(b), list.last()) && i == routed(b, rest).len() {
        assert(list[list.len() - 1] == routed(b, list)[i]);
    } else {
        lemma_routed_from(b, rest, i);
        let k = choose|k: int| 0 <= k < rest.len() && rest[k] == #[trigger] routed(b, rest)[i];
        assert(list[k] == rest[k]);
        if target_reachable(field_free(b), list.last()) {
            assert(routed(b, list)[i] == routed(b, rest)[i]);
        }
    }
}

/// Every route that `legal_actions` materialises replays to its placement:
/// it ends with the one hard drop of the route, every move before it is a
/// real move from the spawn pose that ends at a pose with the placement's
/// column and rotation, it costs two frames a move, and the pair lands with
/// the placement.
pub proof fn materialised_routes_replay(b: Board, a: LegalAction, i: int)
    requires
        0 <= i < routed(b@, legal_list(heights_of(b@), 22)).len(),
        a.placement == routed(b@, legal_list(heights_of(b@), 22))[i],
        action_ok(b@, a),
    ensures
        a.route@.len() >= 1,
        a.route@.last() == Input::HardDrop,
        forall|k: int| 0 <= k < a.route@.len() - 1 ==> #[trigger] a.route@[k] != Input::HardDrop,
        replay(field_free(b@), spawn_index(), a.route@.drop_last()) matches Some(j) && pose_x(j)
            == a.placement.axis_column && pose_rotation(j) == a.placement.rotation,
        a.route_frames == 2 * (a.route@.len() - 1),
        placement_is_legal(heights_of(b@), a.placement),
        landing(heights_of(b@), a.placement) is Some,
{
    let h = heights_of(b@);
    let list = legal_list(h, 22);
    lemma_routed_from(b@, list, i);
    let k = choose|k: int| 0 <= k < list.len() && list[k] == #[trigger] routed(b@, list)[i];
    lemma_legal_list_legal(h, 22, k);
    let n = placement_number(a.placement)->0;
    assert(0 <= n < 22);
    assert(placement_at(n) == a.placement);
    legality_is_reachability(b, n);
    let m = a.route@.drop_last();
    lemma_replay_moves_only(field_free(b@), spawn_index(), m);
    lemma_frames_of_moves(m);
    assert(a.route@ =~= m.push(Input::HardDrop));
    assert forall|k2: int| 0 <= k2 < a.route@.len() - 1 implies #[trigger] a.route@[k2] != Input::HardDrop by {
        assert(a.route@[k2] == m[k2]);
    }
}

} // verus!
