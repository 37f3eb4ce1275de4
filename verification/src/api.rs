//! The values of the web interface: names of rotations, inputs and colours,
//! rotation and column parsing, request limits, erased-cell lists, and the
//! frame-by-frame resolution of a field.

use vstd::prelude::*;
use crate::board::{Board, Cell, SimulationSummary, StepResult};
use crate::board;
use crate::game::{Colour, Input, Pair, Rotation};

verus! {

broadcast use board::lemma_board_len;

/// `c` is `w` once ASCII upper case is lowered, for a `w` that is not an
/// upper-case letter.
pub open spec fn char_matches(c: char, w: char) -> bool {
    c == w || ('A' <= c <= 'Z' && c as u32 + 32 == w as u32)
}

/// `s` equals the lower-case word `word`, ignoring ASCII case.
pub open spec fn equals_ignoring_case(s: Seq<char>, word: Seq<char>) -> bool {
    s.len() == word.len() && forall|i: int| 0 <= i < s.len() ==> char_matches(s[i], word[i])
}

fn same_ignoring_case(value: &str, word: &str) -> (r: bool)
    ensures
        r == equals_ignoring_case(value@, word@),
{
    let n = value.unicode_len();
    if n != word.unicode_len() {
        return false;
    }
    let mut i: usize = 0;
    while i < n
        invariant
            n == value@.len(),
            n == word@.len(),
            i <= n,
            forall|k: int| 0 <= k < i ==> char_matches(value@[k], word@[k]),
        decreases n - i,
    {
        let c = value.get_char(i);
        let w = word.get_char(i);
        let upper = 'A' <= c && c <= 'Z';
        if !(c == w || (upper && c as u32 + 32 == w as u32)) {
            return false;
        }
        i += 1;
    }
    true
}

/// The rotation a request names: its full name or first letter, in any
/// ASCII case.
pub fn parse_rotation(value: &str) -> (r: Option<Rotation>)
    ensures
        r == (if equals_ignoring_case(value@, "right"@) || equals_ignoring_case(value@, "r"@) {
            Some(Rotation::Right)
        } else if equals_ignoring_case(value@, "down"@) || equals_ignoring_case(value@, "d"@) {
            Some(Rotation::Down)
        } else if equals_ignoring_case(value@, "left"@) || equals_ignoring_case(value@, "l"@) {
            Some(Rotation::Left)
        } else if equals_ignoring_case(value@, "up"@) || equals_ignoring_case(value@, "u"@) {
            Some(Rotation::Up)
        } else {
            None
        }),
{
    if same_ignoring_case(value, "right") || same_ignoring_case(value, "r") {
        Some(Rotation::Right)
    } else if same_ignoring_case(value, "down") || same_ignoring_case(value, "d") {
        Some(Rotation::Down)
    } else if same_ignoring_case(value, "left") || same_ignoring_case(value, "l") {
        Some(Rotation::Left)
    } else if same_ignoring_case(value, "up") || same_ignoring_case(value, "u") {
        Some(Rotation::Up)
    } else {
        None
    }
}

pub fn rotation_name(rotation: Rotation) -> (r: &'static str)
    ensures
        r@ == (match rotation {
            Rotation::Right => "right"@,
            Rotation::Down => "down"@,
            Rotation::Left => "left"@,
            Rotation::Up => "up"@,
        }),
{
    match rotation {
        Rotation::Right => "right",
        Rotation::Down => "down",
        Rotation::Left => "left",
        Rotation::Up => "up",
    }
}

pub fn input_name(input: Input) -> (r: &'static str)
    ensures
        r@ == (match input {
            Input::Left => "left"@,
            Input::Right => "right"@,
            Input::Down => "down"@,
            Input::RotateCw => "rotate_cw"@,
            Input::RotateCcw => "rotate_ccw"@,
            Input::Rotate180 => "rotate_180"@,
            Input::HardDrop => "hard_drop"@,
        }),
{
    match input {
        Input::Left => "left",
        Input::Right => "right",
        Input::Down => "down",
        Input::RotateCw => "rotate_cw",
        Input::RotateCcw => "rotate_ccw",
        Input::Rotate180 => "rotate_180",
        Input::HardDrop => "hard_drop",
    }
}

pub fn colour_name(colour: Colour) -> (r: &'static str)
    ensures
        r@ == (match colour {
            Colour::Red => "red"@,
            Colour::Green => "green"@,
            Colour::Blue => "blue"@,
            Colour::Yellow => "yellow"@,
        }),
{
    match colour {
        Colour::Red => "red",
        Colour::Green => "green",
        Colour::Blue => "blue",
        Colour::Yellow => "yellow",
    }
}

/// A pair by its colours' names.
#[derive(Debug, Clone, Copy, PartialEq, Eq)]
pub struct PairResponse {
    pub axis: &'static str,
    pub child: &'static str,
}

pub fn pair_response(pair: Pair) -> (r: PairResponse)
    ensures
        r.axis@ == colour_name_of(pair.axis),
        r.child@ == colour_name_of(pair.child),
{
    PairResponse { axis: colour_name(pair.axis), child: colour_name(pair.child) }
}

pub open spec fn colour_name_of(colour: Colour) -> Seq<char> {
    match colour {
        Colour::Red => "red"@,
        Colour::Green => "green"@,
        Colour::Blue => "blue"@,
        Colour::Yellow => "yellow"@,
    }
}

/// Search simulations when a request names none.
pub fn default_simulations() -> (r: u32)
    ensures
        r == 800,
{
    800
}

/// Search depth when a request names none.
pub fn default_search_depth() -> (r: u8)
    ensures
        r == 8,
{
    8
}

/// The simulations and depth a search request gets: at least one of each,
/// at most 100000 simulations and a depth of 32.
pub fn search_limits(simulations: u32, max_depth: u8) -> (r: (u32, u8))
    ensures
        r.0 == (if simulations < 1 {
            1
        } else if simulations > 100_000 {
            100_000
        } else {
            simulations
        }),
        r.1 == (if max_depth < 1 {
            1
        } else if max_depth > 32 {
            32
        } else {
            max_depth
        }),
{
    let s = if simulations < 1 {
        1
    } else if simulations > 100_000 {
        100_000
    } else {
        simulations
    };
    let d = if max_depth < 1 {
        1
    } else if max_depth > 32 {
        32
    } else {
        max_depth
    };
    (s, d)
}

/// The axis column of a one-based column number from 1 to 6.
pub fn axis_column(column: u8) -> (r: Option<u8>)
    ensures
        r == (if 1 <= column <= 6 {
            Some((column - 1) as u8)
        } else {
            None
        }),
{
    if column >= 1 && column - 1 < 6 {
        Some(column - 1)
    } else {
        None
    }
}

/// A cell by its top-to-bottom row (0 to 12) and its column.
#[derive(Debug, Clone, Copy, PartialEq, Eq, Structural)]
pub struct CellPosition {
    pub row: u8,
    pub column: u8,
}

/// The cells among the first `n` (in floor-first order) whose bit is set in
/// an erased-cell mask.
pub open spec fn erased_list(mask: u128, n: int) -> Seq<CellPosition>
    decreases n,
{
    if n <= 0 {
        Seq::empty()
    } else {
        let k = n - 1;
        let rest = erased_list(mask, k);
        if mask & (1u128 << (board::plane_bit(k) as u128)) != 0 {
            rest.push(CellPosition { row: (12 - k / 6) as u8, column: (k % 6) as u8 })
        } else {
            rest
        }
    }
}

/// The erased cells of a step's mask, floor row first.
pub fn erased_positions(mask: u128) -> (r: Vec<CellPosition>)
    ensures
        r@ == erased_list(mask, 78),
{
    let mut result: Vec<CellPosition> = Vec::new();
    let mut y: usize = 0;
    while y < 13
        invariant
            y <= 13,
            result@ == erased_list(mask, (y * 6) as int),
        decreases 13 - y,
    {
        let mut x: usize = 0;
        while x < 6
            invariant
                y < 13,
                x <= 6,
                result@ == erased_list(mask, (y * 6 + x) as int),
            decreases 6 - x,
        {
            let k = y * 6 + x;
            assert(k / 6 == y && k % 6 == x);
            let bit = 1u128 << (((x + 1) * 16 + y + 1) as u128);
            if mask & bit != 0 {
                result.push(CellPosition { row: (12 - y) as u8, column: x as u8 });
            }
            x += 1;
        }
        y += 1;
    }
    result
}

/// One frame of a resolution: the field after `chain` chains, with the
/// step that led to it.
#[derive(Debug, Clone, PartialEq, Eq)]
pub struct ChainFrame {
    pub chain: u8,
    pub board: Board,
    pub step: Option<StepResult>,
}

/// The field after `n` steps of the reaction.
pub open spec fn after_steps(b: Seq<Cell>, n: int) -> Seq<Cell>
    decreases n,
{
    if n <= 0 {
        b
    } else {
        board::after_step(after_steps(b, n - 1))
    }
}

/// Resolves the field step by step: the first frame is the field as given,
/// and each chain adds the field after it with its step; the totals are
/// those of the whole reaction.
pub fn chain_frames(initial: &Board) -> (r: (Vec<ChainFrame>, SimulationSummary))
    ensures
        r.0@.len() == board::chain_run(initial@, 1).len() + 1,
        r.0@[0].chain == 0,
        r.0@[0].board == *initial,
        r.0@[0].step is None,
        forall|k: int|
            1 <= k < r.0@.len() ==> {
                &&& #[trigger] r.0@[k].chain == k
                &&& r.0@[k].board@ == after_steps(initial@, k)
                &&& r.0@[k].step == Some(board::chain_run(initial@, 1)[k - 1])
            },
        r.1 == board::summary_of(initial@),
{
    let ghost b0 = initial@;
    let mut board = *initial;
    let mut summary_board = *initial;
    let summary = summary_board.simulate_summary();
    let mut frames: Vec<ChainFrame> = Vec::new();
    frames.push(ChainFrame { chain: 0, board, step: None });
    let mut chain: u32 = 1;
    let mut done = false;
    while chain <= 255 && !done
        invariant
            1 <= chain <= 256,
            board@.len() == 78,
            frames@.len() >= 1,
            frames@[0].chain == 0,
            frames@[0].board == *initial,
            frames@[0].step is None,
            b0 == initial@,
            !done ==> board@ == after_steps(b0, chain - 1),
            !done ==> frames@.len() == chain,
            !done ==> board::chain_run(b0, 1) == board::chain_run(b0, 1).take(chain - 1)
                + board::chain_run(board@, chain as int),
            done ==> frames@.len() == board::chain_run(b0, 1).len() + 1,
            frames@.len() <= board::chain_run(b0, 1).len() + 1,
            forall|k: int|
                1 <= k < frames@.len() ==> {
                    &&& #[trigger] frames@[k].chain == k
                    &&& frames@[k].board@ == after_steps(b0, k)
                    &&& frames@[k].step == Some(board::chain_run(b0, 1)[k - 1])
                },
        decreases 256 - chain,
    {
        let ghost before = board@;
        match board.resolve_step(chain as u8) {
            None => {
                done = true;
                assert(board::chain_run(board@, chain as int) =~= Seq::<StepResult>::empty());
                assert(board::chain_run(b0, 1) =~= board::chain_run(b0, 1).take(chain - 1));
            },
            Some(step) => {
                proof {
                    let run = board::chain_run(b0, 1);
                    let rest = board::chain_run(board@, chain + 1);
                    assert(board::chain_run(before, chain as int) == seq![step] + rest);
                    assert(run[chain - 1] == step) by {
                        assert(run == run.take(chain - 1) + (seq![step] + rest));
                        assert(run.take(chain - 1).len() == chain - 1);
                    }
                    assert(run.take(chain as int) =~= run.take(chain - 1).push(step)) by {
                        assert(run == run.take(chain - 1) + (seq![step] + rest));
                    }
                    assert(run == run.take(chain as int) + rest) by {
                        assert(run == run.take(chain - 1) + (seq![step] + rest));
                        assert(run.take(chain - 1) + (seq![step] + rest) =~= run.take(chain - 1).push(
                            step,
                        ) + rest);
                    }
                }
                frames.push(ChainFrame { chain: chain as u8, board, step: Some(step) });
            },
        }
        chain += 1;
    }
    proof {
        if !done {
            assert(board::chain_run(board@, 256) =~= Seq::<StepResult>::empty());
            assert(board::chain_run(b0, 1) =~= board::chain_run(b0, 1).take(255));
        }
    }
    (frames, summary)
}

} // verus!
