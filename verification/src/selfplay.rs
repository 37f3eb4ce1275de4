//! The integer side of self-play records: field and move encodings, the
//! xorshift generator that samples moves by visit count, the facts recorded
//! for each candidate move, and the labels looked up over later moves.

use vstd::prelude::*;
use crate::board::{Board, Cell};
use crate::board;
use crate::game::{Pair, Placement, Rotation, place_pair, route_to_placement};
use crate::game;

verus! {

broadcast use board::lemma_board_len;

/// Moves ahead over which survival and the longest chain are labelled.
pub const LABEL_HORIZONS: [usize; 4] = [8, 16, 32, 64];

/// The number a record gives a rotation.
pub fn rotation_id(rotation: Rotation) -> (r: u8)
    ensures
        r == game::rotation_number(rotation),
{
    match rotation {
        Rotation::Right => 0,
        Rotation::Down => 1,
        Rotation::Left => 2,
        Rotation::Up => 3,
    }
}

/// The number a record gives a cell.
pub open spec fn cell_code(c: Cell) -> u8 {
    match c {
        Cell::Empty => 0,
        Cell::Garbage => 1,
        Cell::Red => 2,
        Cell::Green => 3,
        Cell::Blue => 4,
        Cell::Yellow => 5,
    }
}

/// The field as 78 cell numbers, floor first, each row left to right.
pub fn encode_board(board: &Board) -> (r: Vec<u8>)
    ensures
        r@ == Seq::new(78, |p: int| cell_code(board@[p])),
{
    let mut cells: Vec<u8> = Vec::new();
    let mut y: usize = 0;
    while y < 13
        invariant
            y <= 13,
            cells@ == Seq::new((y * 6) as nat, |p: int| cell_code(board@[p])),
        decreases 13 - y,
    {
        let mut x: usize = 0;
        while x < 6
            invariant
                y < 13,
                x <= 6,
                cells@ == Seq::new((y * 6 + x) as nat, |p: int| cell_code(board@[p])),
            decreases 6 - x,
        {
            let code: u8 = match board.get(x, y) {
                Cell::Empty => 0,
                Cell::Garbage => 1,
                Cell::Red => 2,
                Cell::Green => 3,
                Cell::Blue => 4,
                Cell::Yellow => 5,
            };
            cells.push(code);
            assert(cells@ =~= Seq::new((y * 6 + x + 1) as nat, |p: int| cell_code(board@[p])));
            x += 1;
        }
        y += 1;
    }
    cells
}

/// One step of the xorshift generator (shifts 13, 7, 17).
pub open spec fn xorshift(s: u64) -> u64 {
    let a = s ^ (s << 13u64);
    let b = a ^ (a >> 7u64);
    b ^ (b << 17u64)
}

/// Advances the generator and gives its new state.
pub fn next_random(state: &mut u64) -> (r: u64)
    ensures
        *final(state) == xorshift(*old(state)),
        r == *final(state),
{
    *state = *state ^ (*state << 13u64);
    *state = *state ^ (*state >> 7u64);
    *state = *state ^ (*state << 17u64);
    *state
}

/// A root move and the visits the search gave it.
#[derive(Debug, Clone, Copy, PartialEq, Eq, Structural)]
pub struct VisitCount {
    pub placement: Placement,
    pub visits: u32,
}

pub open spec fn visit_total(v: Seq<VisitCount>, n: int) -> int
    decreases n,
{
    if n <= 0 {
        0
    } else {
        visit_total(v, n - 1) + v[n - 1].visits
    }
}

/// The move that `choice` falls on when the moves from `i` on are laid out
/// by visit count; the last move when it falls past them all.
pub open spec fn pick_from(v: Seq<VisitCount>, choice: int, i: int) -> Placement
    decreases v.len() - i,
{
    if i >= v.len() {
        v.last().placement
    } else if choice < v[i].visits {
        v[i].placement
    } else {
        pick_from(v, choice - v[i].visits, i + 1)
    }
}

proof fn lemma_visit_total_bound(v: Seq<VisitCount>, n: int)
    requires
        0 <= n <= v.len(),
    ensures
        0 <= visit_total(v, n) <= n * 0xffff_ffff,
    decreases n,
{
    if n > 0 {
        lemma_visit_total_bound(v, n - 1);
    }
}

/// Samples a root move with probability proportional to its visits, from
/// the next draw of the generator.
pub fn sample_visit_action(actions: &[VisitCount], random: &mut u64) -> (r: Placement)
    requires
        actions@.len() >= 1,
        actions@.len() <= u32::MAX,
    ensures
        *final(random) == xorshift(*old(random)),
        r == pick_from(
            actions@,
            *final(random) as int % (if visit_total(actions@, actions@.len() as int) > 0 {
                visit_total(actions@, actions@.len() as int)
            } else {
                1
            }),
            0,
        ),
{
    let mut total: u64 = 0;
    let mut i: usize = 0;
    while i < actions.len()
        invariant
            i <= actions@.len() <= u32::MAX,
            total == visit_total(actions@, i as int),
        decreases actions@.len() - i,
    {
        proof {
            lemma_visit_total_bound(actions@, i as int);
            assert(i * 0xffff_ffff + 0xffff_ffff <= 0xffff_ffff * 0xffff_ffff) by (nonlinear_arith)
                requires
                    i < 0xffff_ffff,
            ;
        }
        total = total + actions[i].visits as u64;
        i += 1;
    }
    let divisor = if total > 0 {
        total
    } else {
        1
    };
    let mut choice = next_random(random) % divisor;
    let mut i: usize = 0;
    while i < actions.len()
        invariant
            i <= actions@.len(),
            actions@.len() >= 1,
            *random == xorshift(*old(random)),
            total == visit_total(actions@, actions@.len() as int),
            divisor == (if total > 0 {
                total
            } else {
                1
            }),
            pick_from(actions@, choice as int, i as int) == pick_from(
                actions@,
                *random as int % divisor as int,
                0,
            ),
        decreases actions@.len() - i,
    {
        if choice < actions[i].visits as u64 {
            return actions[i].placement;
        }
        choice = choice - actions[i].visits as u64;
        i += 1;
    }
    actions[actions.len() - 1].placement
}

/// The largest of the values, zero for none.
pub open spec fn max_of(s: Seq<u8>) -> u8
    decreases s.len(),
{
    if s.len() == 0 {
        0
    } else {
        let rest = max_of(s.drop_last());
        if s.last() > rest {
            s.last()
        } else {
            rest
        }
    }
}

/// Labels of the position at move `ply`, from the chains of the moves that
/// followed it.
#[derive(Debug, Clone, Copy, PartialEq, Eq)]
pub struct HorizonLabels {
    pub survival: [bool; 4],
    pub valid: [bool; 4],
    pub max_chain: [u8; 4],
}

pub open spec fn horizon(i: int) -> int {
    if i == 0 {
        8
    } else if i == 1 {
        16
    } else if i == 2 {
        32
    } else {
        64
    }
}

/// For each horizon: whether the game went on that many moves past `ply`,
/// whether the labels are known (they are once the game has ended), and the
/// longest chain over those moves.
pub fn horizon_labels(chains: &[u8], ply: usize, terminal: bool) -> (r: HorizonLabels)
    requires
        ply <= chains@.len(),
    ensures
        forall|i: int|
            0 <= i < 4 ==> {
                let available = chains@.len() - ply;
                let span = if available < horizon(i) {
                    available
                } else {
                    horizon(i)
                };
                &&& #[trigger] r.survival@[i] == (available >= horizon(i))
                &&& r.valid@[i] == (terminal || available >= horizon(i))
                &&& r.max_chain@[i] == max_of(chains@.subrange(ply as int, ply + span))
            },
{
    let n = chains.len();
    let available = n - ply;
    let mut survival = [false; 4];
    let mut valid = [false; 4];
    let mut max_chain = [0u8; 4];
    let mut i: usize = 0;
    while i < 4
        invariant
            i <= 4,
            n == chains@.len(),
            ply <= n,
            available == n - ply,
            forall|k: int|
                0 <= k < i ==> {
                    let span = if available < horizon(k) {
                        available as int
                    } else {
                        horizon(k)
                    };
                    &&& #[trigger] survival@[k] == (available >= horizon(k))
                    &&& valid@[k] == (terminal || available >= horizon(k))
                    &&& max_chain@[k] == max_of(chains@.subrange(ply as int, ply + span))
                },
        decreases 4 - i,
    {
        let ghost survival_before = survival@;
        let ghost valid_before = valid@;
        let ghost max_before = max_chain@;
        let h = LABEL_HORIZONS[i];
        assert(h == horizon(i as int));
        survival[i] = available >= h;
        valid[i] = terminal || available >= h;
        let span = if available < h {
            available
        } else {
            h
        };
        let mut best: u8 = 0;
        let mut k: usize = 0;
        while k < span
            invariant
                k <= span <= available,
                ply + available == n,
                n == chains@.len(),
                best == max_of(chains@.subrange(ply as int, ply + k)),
            decreases span - k,
        {
            assert(chains@.subrange(ply as int, ply + k + 1).drop_last() =~= chains@.subrange(
                ply as int,
                ply + k,
            ));
            if chains[ply + k] > best {
                best = chains[ply + k];
            }
            k += 1;
        }
        max_chain[i] = best;
        assert forall|j: int| 0 <= j < i implies survival@[j] == survival_before[j] && valid@[j]
            == valid_before[j] && max_chain@[j] == max_before[j] by {}
        i += 1;
    }
    HorizonLabels { survival, valid, max_chain }
}

/// What a self-play record keeps of a candidate move, besides the search's
/// statistics.
#[derive(Debug, Clone, PartialEq, Eq)]
pub struct ActionFacts {
    pub column: u8,
    pub rotation: u8,
    pub axis_colour: u8,
    pub child_colour: u8,
    pub route_frames: u16,
    pub after_board: Vec<u8>,
    pub immediate_chain: u8,
    pub dead: bool,
}

#[derive(Debug, Clone, Copy, PartialEq, Eq, Structural)]
pub enum ActionError {
    /// No route leads to the placement.
    NoRoute,
    /// The pair does not land with the placement.
    CannotPlace,
}

/// The facts of dropping `pair` with `placement`: its route's length in
/// frames, the chain it sets off, the field once that chain has resolved,
/// and whether the death cell is then filled.
pub fn describe_action(board: &Board, pair: Pair, placement: Placement) -> (r: Result<
    ActionFacts,
    ActionError,
>)
    requires
        game::landing_defined(placement),
    ensures
        !(game::placement_is_legal(game::heights_of(board@), placement) && game::target_reachable(
            game::field_free(board@),
            placement,
        )) ==> r == Err::<ActionFacts, ActionError>(ActionError::NoRoute),
        (game::placement_is_legal(game::heights_of(board@), placement) && game::target_reachable(
            game::field_free(board@),
            placement,
        )) ==> match r {
            Ok(f) => {
                let landed = game::placed(board@, pair, placement)->0;
                let settled = board::chain_final(landed, 1);
                &&& game::placed(board@, pair, placement) is Some
                &&& f.column == placement.axis_column
                &&& f.rotation == game::rotation_number(placement.rotation)
                &&& f.axis_colour == game::colour_number(pair.axis)
                &&& f.child_colour == game::colour_number(pair.child)
                &&& exists|route: Seq<game::Input>|
                    game::route_reaches(game::field_free(board@), route, placement)
                        && game::route_is_shortest(game::field_free(board@), route, placement)
                        && game::route_is_first(game::field_free(board@), route, placement)
                        && f.route_frames == game::frames_of(route)
                &&& f.after_board@ == Seq::new(78, |p: int| cell_code(settled[p]))
                &&& f.immediate_chain == board::chain_run(landed, 1).len()
                &&& f.dead == (settled[game::DEATH_Y * 6 + game::DEATH_X] != Cell::Empty)
            },
            Err(e) => e == ActionError::CannotPlace && game::placed(board@, pair, placement) is None,
        },
{
    let route = match route_to_placement(board, placement) {
        Some(route) => route,
        None => {
            return Err(ActionError::NoRoute);
        },
    };
    let mut after = *board;
    if place_pair(&mut after, pair, placement).is_none() {
        return Err(ActionError::CannotPlace);
    }
    let immediate_chain = after.simulate_chain_count();
    let after_board = encode_board(&after);
    let dead = after.get(game::DEATH_X, game::DEATH_Y) != Cell::Empty;
    Ok(
        ActionFacts {
            column: placement.axis_column,
            rotation: rotation_id(placement.rotation),
            axis_colour: pair.axis.index() as u8,
            child_colour: pair.child.index() as u8,
            route_frames: route.route_frames,
            after_board,
            immediate_chain,
            dead,
        },
    )
}

} // verus!
