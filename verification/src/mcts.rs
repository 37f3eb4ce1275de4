//! The public-information state that the chance search walks through, and
//! its two kinds of edges: the player's placement and the queue revealing a
//! new pair.

use vstd::prelude::*;
use crate::board::{Board, Cell};
use crate::board;
use crate::game::{Colour, Pair, Placement, PublicState, place_pair};
use crate::game;

verus! {

broadcast use board::lemma_board_len;

/// A decision node's state: what a player knows, without the queue's seed.
#[derive(Debug, Clone, Copy)]
pub struct SearchState {
    pub board: Board,
    pub pieces: [Pair; 3],
    pub estimated_unseen_colour_counts: [u16; 4],
    pub placements: u32,
    pub maximum_chain: u8,
    pub dead: bool,
}

impl<'a> From<&'a PublicState> for SearchState {
    fn from(state: &'a PublicState) -> (r: SearchState) {
        SearchState {
            board: state.board,
            pieces: state.pieces,
            estimated_unseen_colour_counts: state.estimated_unseen_colour_counts,
            placements: state.placements,
            maximum_chain: state.maximum_chain,
            dead: state.dead,
        }
    }
}

impl<'a> vstd::std_specs::convert::FromSpecImpl<&'a PublicState> for SearchState {
    open spec fn obeys_from_spec() -> bool {
        true
    }

    open spec fn from_spec(state: &'a PublicState) -> SearchState {
        SearchState {
            board: state.board,
            pieces: state.pieces,
            estimated_unseen_colour_counts: state.estimated_unseen_colour_counts,
            placements: state.placements,
            maximum_chain: state.maximum_chain,
            dead: state.dead,
        }
    }
}

/// A chance node's state: the current pair has been played and the next
/// pair is not yet known.
#[derive(Debug, Clone, Copy)]
pub struct PendingChance {
    pub board: Board,
    pub known_next: [Pair; 2],
    pub estimated_unseen_colour_counts: [u16; 4],
    pub placements: u32,
    pub maximum_chain: u8,
}

impl SearchState {
    /// Plays the current pair with `placement`: the field after the pair
    /// lands and its chains resolve. `None` on a finished game or where the
    /// pair does not land.
    pub fn play(&self, placement: Placement) -> (r: Option<PendingChance>)
        requires
            game::landing_defined(placement),
            !self.dead ==> self.placements < u32::MAX,
        ensures
            r is None <==> (self.dead || game::placed(self.board@, self.pieces[0], placement) is None),
            r matches Some(p) ==> {
                let landed = game::placed(self.board@, self.pieces[0], placement)->0;
                let chains = board::chain_run(landed, 1).len() as int;
                &&& p.board@ == board::chain_final(landed, 1)
                &&& p.known_next@ == seq![self.pieces[1], self.pieces[2]]
                &&& p.estimated_unseen_colour_counts == self.estimated_unseen_colour_counts
                &&& p.placements == self.placements + 1
                &&& p.maximum_chain == (if chains > self.maximum_chain {
                    chains
                } else {
                    self.maximum_chain as int
                })
            },
    {
        if self.dead {
            return None;
        }
        let mut board = self.board;
        match place_pair(&mut board, self.pieces[0], placement) {
            None => None,
            Some(_) => {
                let chains = board.simulate_chain_count();
                let maximum_chain = if chains > self.maximum_chain {
                    chains
                } else {
                    self.maximum_chain
                };
                let known_next = [self.pieces[1], self.pieces[2]];
                assert(known_next@ =~= seq![self.pieces[1], self.pieces[2]]);
                Some(
                    PendingChance {
                        board,
                        known_next,
                        estimated_unseen_colour_counts: self.estimated_unseen_colour_counts,
                        placements: self.placements + 1,
                        maximum_chain,
                    },
                )
            },
        }
    }

    /// The plain values the baseline evaluation reads: whether the game is
    /// over, the tallest column, the number of filled cells by column
    /// height, and the longest chain capped at 19.
    pub fn baseline_features(&self) -> (r: BaselineFeatures)
        ensures
            r.dead == self.dead,
            r.maximum_height == max_height(game::heights_of(self.board@), 6),
            forall|x: int| 0 <= x < 6 ==> game::heights_of(self.board@)[x] <= r.maximum_height,
            exists|x: int| 0 <= x < 6 && game::heights_of(self.board@)[x] == r.maximum_height,
            r.occupied == height_sum(game::heights_of(self.board@), 6),
            r.chain == (if self.maximum_chain < 19 {
                self.maximum_chain
            } else {
                19
            }),
    {
        let heights = self.board.column_heights();
        assert(heights@ =~= game::heights_of(self.board@));
        let mut maximum_height: u8 = 0;
        let mut occupied: u16 = 0;
        let mut x: usize = 0;
        while x < 6
            invariant
                x <= 6,
                heights@ == game::heights_of(self.board@),
                forall|k: int| 0 <= k < 6 ==> heights@[k] <= 13,
                maximum_height == max_height(heights@, x as int),
                occupied == height_sum(heights@, x as int),
                occupied <= 13 * x,
            decreases 6 - x,
        {
            if heights[x] > maximum_height {
                maximum_height = heights[x];
            }
            occupied = occupied + heights[x] as u16;
            x += 1;
        }
        let chain = if self.maximum_chain < 19 {
            self.maximum_chain
        } else {
            19
        };
        proof {
            tallest_column_bounds_every_column(heights@, 6);
        }
        BaselineFeatures { dead: self.dead, maximum_height, occupied, chain }
    }
}

/// The tallest of the first `n` columns is at least as tall as each of
/// them and is one of them.
pub proof fn tallest_column_bounds_every_column(h: Seq<u8>, n: int)
    requires
        1 <= n <= h.len(),
    ensures
        forall|x: int| 0 <= x < n ==> h[x] <= max_height(h, n),
        exists|x: int| 0 <= x < n && h[x] == max_height(h, n),
    decreases n,
{
    if n > 1 {
        tallest_column_bounds_every_column(h, n - 1);
        let x0 = choose|x: int| 0 <= x < n - 1 && h[x] == max_height(h, n - 1);
        if h[n - 1] > max_height(h, n - 1) {
            assert(h[n - 1] == max_height(h, n));
        } else {
            assert(h[x0] == max_height(h, n));
        }
    } else {
        assert(max_height(h, 0) == 0);
        assert(h[0] == max_height(h, 1));
    }
}

/// The largest of the first `n` heights (zero for none).
pub open spec fn max_height(h: Seq<u8>, n: int) -> u8
    decreases n,
{
    if n <= 0 {
        0
    } else {
        let rest = max_height(h, n - 1);
        if h[n - 1] > rest {
            h[n - 1]
        } else {
            rest
        }
    }
}

/// The sum of the first `n` heights.
pub open spec fn height_sum(h: Seq<u8>, n: int) -> int
    decreases n,
{
    if n <= 0 {
        0
    } else {
        height_sum(h, n - 1) + h[n - 1]
    }
}

/// What the baseline evaluator reads of a state.
#[derive(Debug, Clone, Copy, PartialEq, Eq)]
pub struct BaselineFeatures {
    pub dead: bool,
    pub maximum_height: u8,
    pub occupied: u16,
    pub chain: u8,
}

/// The evaluator that scores states by chain length, headroom and
/// emptiness, with a uniform policy.
#[derive(Debug, Clone, Copy)]
pub struct BaselineEvaluator;

pub open spec fn count_total(c: Seq<u16>) -> int {
    c[0] + c[1] + c[2] + c[3]
}

/// One less, but not below zero.
pub open spec fn less_one(v: u16) -> u16 {
    if v == 0 {
        0
    } else {
        (v - 1) as u16
    }
}

/// The estimate once `pair` has been revealed: a fresh 64-per-colour cycle
/// when fewer than two puyos were left unseen, then one puyo less for each
/// of the pair's two.
pub open spec fn counts_after_reveal(c: Seq<u16>, pair: Pair) -> Seq<u16> {
    let base = if count_total(c) < 2 {
        seq![64u16, 64u16, 64u16, 64u16]
    } else {
        c
    };
    let a = game::colour_number(pair.axis);
    let b = game::colour_number(pair.child);
    let first = base.update(a, less_one(base[a]));
    first.update(b, less_one(first[b]))
}

impl PendingChance {
    /// The decision state once the queue reveals `pair` as the third
    /// visible pair.
    pub fn reveal_next(&self, pair: Pair) -> (r: SearchState)
        ensures
            r.board == self.board,
            r.pieces@ == seq![self.known_next[0], self.known_next[1], pair],
            r.estimated_unseen_colour_counts@ == counts_after_reveal(
                self.estimated_unseen_colour_counts@,
                pair,
            ),
            r.placements == self.placements,
            r.maximum_chain == self.maximum_chain,
            r.dead == (self.board@[game::DEATH_Y * 6 + game::DEATH_X] != Cell::Empty),
    {
        let mut counts = self.estimated_unseen_colour_counts;
        let total = counts[0] as u32 + counts[1] as u32 + counts[2] as u32 + counts[3] as u32;
        if total < 2 {
            counts = [64; 4];
        }
        let ghost base = counts@;
        let a = pair.axis.index();
        counts[a] = counts[a].saturating_sub(1);
        let b = pair.child.index();
        counts[b] = counts[b].saturating_sub(1);
        assert(counts@ =~= counts_after_reveal(self.estimated_unseen_colour_counts@, pair));
        let dead = self.board.get(game::DEATH_X, game::DEATH_Y) != Cell::Empty;
        let pieces = [self.known_next[0], self.known_next[1], pair];
        assert(pieces@ =~= seq![self.known_next[0], self.known_next[1], pair]);
        SearchState {
            board: self.board,
            pieces,
            estimated_unseen_colour_counts: counts,
            placements: self.placements,
            maximum_chain: self.maximum_chain,
            dead,
        }
    }
}

/// A pair the queue may reveal next, with the two counts whose ratio to
/// the total makes its probability: the axis colour's unseen count, and the
/// child colour's once the axis is drawn.
#[derive(Debug, Clone, Copy, PartialEq, Eq, Structural)]
pub struct ChanceWeight {
    pub pair: Pair,
    pub axis_count: u16,
    pub child_count: u16,
}

/// The counts that chance is drawn from: the estimate, or one of each
/// colour when fewer than two puyos are left unseen.
pub open spec fn effective_counts(c: Seq<u16>) -> Seq<u16> {
    if count_total(c) >= 2 {
        c
    } else {
        seq![1u16, 1u16, 1u16, 1u16]
    }
}

/// Candidate `k` (axis colour `k / 4`, child colour `k % 4`), if both of
/// its puyos can still be drawn.
pub open spec fn chance_entry(e: Seq<u16>, k: int) -> Option<ChanceWeight> {
    let a = k / 4;
    let b = k % 4;
    let remaining = e[b] - (if a == b {
        1int
    } else {
        0int
    });
    if e[a] == 0 || remaining == 0 {
        None
    } else {
        Some(
            ChanceWeight {
                pair: Pair { axis: game::colour_from_number(a), child: game::colour_from_number(b) },
                axis_count: e[a],
                child_count: remaining as u16,
            },
        )
    }
}

/// The drawable candidates among the first `n`, in order.
pub open spec fn chance_list(e: Seq<u16>, n: int) -> Seq<ChanceWeight>
    decreases n,
{
    if n <= 0 {
        Seq::empty()
    } else {
        match chance_entry(e, n - 1) {
            Some(w) => chance_list(e, n - 1).push(w),
            None => chance_list(e, n - 1),
        }
    }
}

/// The pairs the queue may reveal after `counts` and their weights, axis
/// colour major; also the total the weights are drawn from.
pub fn chance_weights(counts: [u16; 4]) -> (r: (Vec<ChanceWeight>, u32))
    ensures
        r.0@ == chance_list(effective_counts(counts@), 16),
        r.1 == count_total(effective_counts(counts@)),
{
    let total = counts[0] as u32 + counts[1] as u32 + counts[2] as u32 + counts[3] as u32;
    let effective = if total >= 2 {
        counts
    } else {
        [1u16; 4]
    };
    assert(effective@ =~= effective_counts(counts@));
    let effective_total = effective[0] as u32 + effective[1] as u32 + effective[2] as u32
        + effective[3] as u32;
    let colours = [Colour::Red, Colour::Green, Colour::Blue, Colour::Yellow];
    let mut result: Vec<ChanceWeight> = Vec::new();
    let mut a: usize = 0;
    while a < 4
        invariant
            a <= 4,
            effective@ == effective_counts(counts@),
            colours@ == seq![Colour::Red, Colour::Green, Colour::Blue, Colour::Yellow],
            result@ == chance_list(effective@, (a * 4) as int),
        decreases 4 - a,
    {
        let mut b: usize = 0;
        while b < 4
            invariant
                a < 4,
                b <= 4,
                effective@ == effective_counts(counts@),
                colours@ == seq![Colour::Red, Colour::Green, Colour::Blue, Colour::Yellow],
                result@ == chance_list(effective@, (a * 4 + b) as int),
            decreases 4 - b,
        {
            let k = a * 4 + b;
            assert(k / 4 == a && k % 4 == b);
            if effective[a] != 0 {
                let same: u16 = if a == b {
                    1
                } else {
                    0
                };
                if effective[b] > same {
                    let remaining = effective[b] - same;
                    result.push(
                        ChanceWeight {
                            pair: Pair { axis: colours[a], child: colours[b] },
                            axis_count: effective[a],
                            child_count: remaining,
                        },
                    );
                }
            }
            b += 1;
        }
        a += 1;
    }
    (result, effective_total)
}

} // verus!
