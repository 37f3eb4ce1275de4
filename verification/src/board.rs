//! The Puyo Puyo field and its chain rules.
//!
//! Cells are stored floor-first: position `y * WIDTH + x` holds column `x`
//! of row `y`, with row 0 at the floor. Rows 0 through 11 are visible and can
//! vanish; row 12 is the hidden thirteenth row, which holds and drops puyos
//! but never vanishes.

use vstd::prelude::*;
use crate::grid;

verus! {

#[derive(Debug, Clone, Copy, PartialEq, Eq, Structural, Default)]
pub enum Cell {
    #[default]
    Empty,
    Garbage,
    Red,
    Green,
    Blue,
    Yellow,
}

pub open spec fn is_colour(c: Cell) -> bool {
    c == Cell::Red || c == Cell::Green || c == Cell::Blue || c == Cell::Yellow
}

pub open spec fn cell_from_char(value: char) -> Option<Cell> {
    if value == '.' || value == 'E' || value == 'e' {
        Some(Cell::Empty)
    } else if value == 'O' || value == 'o' {
        Some(Cell::Garbage)
    } else if value == 'R' || value == 'r' {
        Some(Cell::Red)
    } else if value == 'G' || value == 'g' {
        Some(Cell::Green)
    } else if value == 'B' || value == 'b' {
        Some(Cell::Blue)
    } else if value == 'Y' || value == 'y' {
        Some(Cell::Yellow)
    } else {
        None
    }
}

pub open spec fn cell_char(c: Cell) -> char {
    match c {
        Cell::Empty => '.',
        Cell::Garbage => 'O',
        Cell::Red => 'R',
        Cell::Green => 'G',
        Cell::Blue => 'B',
        Cell::Yellow => 'Y',
    }
}

impl Cell {
    pub fn from_char(value: char) -> (r: Option<Cell>)
        ensures
            r == cell_from_char(value),
    {
        match value {
            '.' | 'E' | 'e' => Some(Cell::Empty),
            'O' | 'o' => Some(Cell::Garbage),
            'R' | 'r' => Some(Cell::Red),
            'G' | 'g' => Some(Cell::Green),
            'B' | 'b' => Some(Cell::Blue),
            'Y' | 'y' => Some(Cell::Yellow),
            _ => None,
        }
    }

    pub fn as_char(self) -> (r: char)
        ensures
            r == cell_char(self),
    {
        match self {
            Cell::Empty => '.',
            Cell::Garbage => 'O',
            Cell::Red => 'R',
            Cell::Green => 'G',
            Cell::Blue => 'B',
            Cell::Yellow => 'Y',
        }
    }
}

/// The playing field.
#[derive(Clone, Copy, PartialEq, Eq, Debug)]
pub struct Board {
    cells: [Cell; 78],
}

impl View for Board {
    type V = Seq<Cell>;

    closed spec fn view(&self) -> Seq<Cell> {
        self.cells@
    }
}

impl Default for Board {
    fn default() -> (r: Board)
        ensures
            r@ == empty_field(),
    {
        Board::empty()
    }
}

/// A field always has 78 cells.
pub broadcast proof fn lemma_board_len(b: Board)
    ensures
        #[trigger] b@.len() == 78,
{
}

pub open spec fn empty_field() -> Seq<Cell> {
    Seq::new(78, |p: int| Cell::Empty)
}

pub open spec fn cell_index(x: int, y: int) -> int {
    y * 6 + x
}

// ----- one vanish/drop step -----
/// Cells of colour `c` in the visible rows.
pub open spec fn colour_mask(b: Seq<Cell>, c: Cell) -> Seq<bool> {
    Seq::new(78, |p: int| p < 72 && b[p] == c)
}

/// The visible cell `p` of colour `c` lies in a same-coloured orthogonal
/// group of four or more visible cells.
pub open spec fn vanishes(b: Seq<Cell>, c: Cell, p: int) -> bool {
    colour_mask(b, c)[p] && grid::component_size(colour_mask(b, c), p) >= 4
}

pub open spec fn colour_vanishes(b: Seq<Cell>, c: Cell) -> bool {
    exists|p: int| 0 <= p < 78 && #[trigger] vanishes(b, c, p)
}

pub open spec fn coloured_erased(b: Seq<Cell>) -> Seq<bool> {
    Seq::new(78, |p: int| is_colour(b[p]) && vanishes(b, b[p], p))
}

pub open spec fn has_marked_neighbour(e: Seq<bool>, p: int) -> bool {
    ||| (p >= 6 && e[p - 6])
    ||| (p + 6 < 78 && e[p + 6])
    ||| (p % 6 != 0 && e[p - 1])
    ||| (p % 6 != 5 && e[p + 1])
}

/// Garbage of the visible rows orthogonally next to a vanishing coloured
/// cell; the hidden row never vanishes.
pub open spec fn garbage_erased(b: Seq<Cell>) -> Seq<bool> {
    Seq::new(
        78,
        |p: int| p < 72 && b[p] == Cell::Garbage && has_marked_neighbour(coloured_erased(b), p),
    )
}

pub open spec fn erased_cells(b: Seq<Cell>) -> Seq<bool> {
    Seq::new(78, |p: int| coloured_erased(b)[p] || garbage_erased(b)[p])
}

pub open spec fn bool_count(b: bool) -> nat {
    if b {
        1
    } else {
        0
    }
}

pub open spec fn colours_erased(b: Seq<Cell>) -> nat {
    bool_count(colour_vanishes(b, Cell::Red)) + bool_count(colour_vanishes(b, Cell::Green))
        + bool_count(colour_vanishes(b, Cell::Blue)) + bool_count(colour_vanishes(b, Cell::Yellow))
}

pub open spec fn link_bonus_spec(size: int) -> int {
    if size <= 4 {
        0
    } else if size == 5 {
        2
    } else if size == 6 {
        3
    } else if size == 7 {
        4
    } else if size == 8 {
        5
    } else if size == 9 {
        6
    } else if size == 10 {
        7
    } else {
        10
    }
}

pub open spec fn colour_bonus_spec(colours: int) -> int {
    if colours == 1 {
        0
    } else if colours == 2 {
        3
    } else if colours == 3 {
        6
    } else {
        12
    }
}

pub open spec fn chain_bonus_spec(chain: int) -> int {
    if chain <= 1 {
        0
    } else if chain == 2 {
        8
    } else if chain == 3 {
        16
    } else if chain <= 19 {
        32 * (chain - 3)
    } else {
        512
    }
}

/// The chain bonus table: nothing for the first chain, 8 for the second,
/// doubling to 16 for the third and to 32 for the fourth, then 32 more for
/// each chain up to 512 at chain 19, where it stays; it never falls as the
/// chain grows.
pub proof fn chain_bonus_table(n: int, m: int)
    ensures
        chain_bonus_spec(1) == 0,
        chain_bonus_spec(2) == 8,
        chain_bonus_spec(3) == 2 * chain_bonus_spec(2),
        chain_bonus_spec(4) == 2 * chain_bonus_spec(3),
        4 <= n < 19 ==> chain_bonus_spec(n + 1) == chain_bonus_spec(n) + 32,
        19 <= n ==> chain_bonus_spec(n) == 512,
        1 <= n <= m ==> chain_bonus_spec(n) <= chain_bonus_spec(m),
{
}

/// The first cell of each vanishing group of colour `c` contributes the
/// group's link bonus.
pub open spec fn group_term(b: Seq<Cell>, c: Cell, p: int) -> int {
    if vanishes(b, c, p) && grid::first_of_component(colour_mask(b, c), p) {
        link_bonus_spec(grid::component_size(colour_mask(b, c), p) as int)
    } else {
        0
    }
}

/// The first cell of each vanishing group of colour `c` contributes the
/// group's cells beyond four.
pub open spec fn waste_term(b: Seq<Cell>, c: Cell, p: int) -> int {
    if vanishes(b, c, p) && grid::first_of_component(colour_mask(b, c), p) {
        grid::component_size(colour_mask(b, c), p) - 4
    } else {
        0
    }
}

pub open spec fn group_sum(b: Seq<Cell>, c: Cell, n: int) -> int
    decreases n,
{
    if n <= 0 {
        0
    } else {
        group_sum(b, c, n - 1) + group_term(b, c, n - 1)
    }
}

pub open spec fn waste_sum(b: Seq<Cell>, c: Cell, n: int) -> int
    decreases n,
{
    if n <= 0 {
        0
    } else {
        waste_sum(b, c, n - 1) + waste_term(b, c, n - 1)
    }
}

pub open spec fn group_bonus_of(b: Seq<Cell>) -> int {
    group_sum(b, Cell::Red, 78) + group_sum(b, Cell::Green, 78) + group_sum(b, Cell::Blue, 78)
        + group_sum(b, Cell::Yellow, 78)
}

pub open spec fn waste_of(b: Seq<Cell>) -> int {
    waste_sum(b, Cell::Red, 78) + waste_sum(b, Cell::Green, 78) + waste_sum(b, Cell::Blue, 78)
        + waste_sum(b, Cell::Yellow, 78)
}

pub open spec fn clamp_multiplier(v: int) -> int {
    if v < 1 {
        1
    } else if v > 999 {
        999
    } else {
        v
    }
}

pub open spec fn multiplier_of(b: Seq<Cell>, chain: int) -> int {
    clamp_multiplier(
        chain_bonus_spec(chain) + colour_bonus_spec(colours_erased(b) as int) + group_bonus_of(b),
    )
}

/// Number of marked cells below `p` in its column.
pub open spec fn marked_below(e: Seq<bool>, p: int) -> nat {
    grid::count_true(Seq::new((p / 6) as nat, |y: int| e[y * 6 + p % 6]))
}

/// Farthest any surviving puyo falls when the marked cells are removed.
pub open spec fn max_drop_upto(b: Seq<Cell>, e: Seq<bool>, n: int) -> nat
    decreases n,
{
    if n <= 0 {
        0
    } else {
        let rest = max_drop_upto(b, e, n - 1);
        let here = if b[n - 1] != Cell::Empty && !e[n - 1] {
            marked_below(e, n - 1)
        } else {
            0
        };
        if here > rest {
            here
        } else {
            rest
        }
    }
}

/// Bit of the cell `p` in the three-plane layout: each column is a 16-bit
/// lane (lane `x + 1`), and row `y` is bit `y + 1` of its lane.
pub open spec fn plane_bit(p: int) -> int {
    (p % 6 + 1) * 16 + p / 6 + 1
}

pub open spec fn mask_bits(e: Seq<bool>, n: int) -> u128
    decreases n,
{
    if n <= 0 {
        0
    } else if e[n - 1] {
        mask_bits(e, n - 1) | (1u128 << (plane_bit(n - 1) as u128))
    } else {
        mask_bits(e, n - 1)
    }
}

/// Column `x`, floor first.
pub open spec fn column_of(b: Seq<Cell>, x: int) -> Seq<Cell> {
    Seq::new(13, |y: int| b[y * 6 + x])
}

pub open spec fn kept_of(e: Seq<bool>, x: int) -> Seq<bool> {
    Seq::new(13, |y: int| !e[y * 6 + x])
}

/// The kept cells of a column, in order.
pub open spec fn kept_cells(cells: Seq<Cell>, keep: Seq<bool>) -> Seq<Cell>
    decreases cells.len(),
{
    if cells.len() == 0 {
        Seq::empty()
    } else {
        let rest = kept_cells(cells.drop_last(), keep.drop_last());
        if keep[cells.len() - 1] {
            rest.push(cells.last())
        } else {
            rest
        }
    }
}

/// A column after removing cells: the kept cells slide down in order and
/// empty cells fill the top.
pub open spec fn settled_column(cells: Seq<Cell>, keep: Seq<bool>) -> Seq<Cell> {
    let k = kept_cells(cells, keep);
    k + Seq::new((cells.len() - k.len()) as nat, |i: int| Cell::Empty)
}

/// The field after removing the marked cells from every column.
pub open spec fn remove_cells(b: Seq<Cell>, e: Seq<bool>) -> Seq<Cell> {
    Seq::new(78, |p: int| settled_column(column_of(b, p % 6), kept_of(e, p % 6))[p / 6])
}

pub proof fn lemma_kept_len(cells: Seq<Cell>, keep: Seq<bool>)
    requires
        cells.len() == keep.len(),
    ensures
        kept_cells(cells, keep).len() <= cells.len(),
    decreases cells.len(),
{
    if cells.len() > 0 {
        lemma_kept_len(cells.drop_last(), keep.drop_last());
    }
}


pub open spec fn gravity_holds(b: Seq<Cell>) -> bool {
    forall|x: int, y1: int, y2: int|
        0 <= x < 6 && 0 <= y1 < y2 < 13 && #[trigger] b[y1 * 6 + x] == Cell::Empty ==> #[trigger] b[y2
            * 6 + x] == Cell::Empty
}

/// A column is settled when no occupied cell lies above an empty one.
pub open spec fn settled_seq(s: Seq<Cell>) -> bool {
    forall|i: int, j: int|
        0 <= i < j < s.len() && #[trigger] s[i] == Cell::Empty ==> #[trigger] s[j] == Cell::Empty
}

proof fn lemma_gravity_by_columns(b: Seq<Cell>)
    requires
        b.len() == 78,
    ensures
        gravity_holds(b) <==> forall|x: int| 0 <= x < 6 ==> #[trigger] settled_seq(column_of(b, x)),
{
    if gravity_holds(b) {
        assert forall|x: int| 0 <= x < 6 implies #[trigger] settled_seq(column_of(b, x)) by {
            let col = column_of(b, x);
            assert forall|i: int, j: int|
                0 <= i < j < col.len() && #[trigger] col[i] == Cell::Empty implies #[trigger] col[j]
                == Cell::Empty by {
                assert(b[i * 6 + x] == Cell::Empty);
            }
        }
    }
    if forall|x: int| 0 <= x < 6 ==> #[trigger] settled_seq(column_of(b, x)) {
        assert forall|x: int, y1: int, y2: int|
            0 <= x < 6 && 0 <= y1 < y2 < 13 && #[trigger] b[y1 * 6 + x] == Cell::Empty implies #[trigger] b[y2
            * 6 + x] == Cell::Empty by {
            let col = column_of(b, x);
            assert(settled_seq(col));
            assert(col[y1] == Cell::Empty);
            assert(col[y2] == Cell::Empty);
        }
    }
}

proof fn lemma_kept_all_occupied(cells: Seq<Cell>, keep: Seq<bool>)
    requires
        cells.len() == keep.len(),
        forall|i: int| 0 <= i < cells.len() ==> cells[i] != Cell::Empty,
    ensures
        forall|i: int|
            0 <= i < kept_cells(cells, keep).len() ==> kept_cells(cells, keep)[i] != Cell::Empty,
    decreases cells.len(),
{
    if cells.len() > 0 {
        lemma_kept_all_occupied(cells.drop_last(), keep.drop_last());
    }
}

proof fn lemma_kept_settled(cells: Seq<Cell>, keep: Seq<bool>)
    requires
        cells.len() == keep.len(),
        settled_seq(cells),
    ensures
        settled_seq(kept_cells(cells, keep)),
    decreases cells.len(),
{
    if cells.len() > 0 {
        let front = cells.drop_last();
        assert(settled_seq(front)) by {
            assert forall|i: int, j: int|
                0 <= i < j < front.len() && #[trigger] front[i] == Cell::Empty implies #[trigger] front[j]
                == Cell::Empty by {
                assert(cells[i] == Cell::Empty);
            }
        }
        lemma_kept_settled(front, keep.drop_last());
        let rest = kept_cells(front, keep.drop_last());
        if keep[cells.len() - 1] && cells.last() != Cell::Empty {
            assert forall|i: int| 0 <= i < front.len() implies front[i] != Cell::Empty by {
                if front[i] == Cell::Empty {
                    assert(cells[i] == Cell::Empty);
                    assert(cells[cells.len() - 1] == Cell::Empty);
                }
            }
            lemma_kept_all_occupied(front, keep.drop_last());
            let k = rest.push(cells.last());
            assert forall|i: int, j: int|
                0 <= i < j < k.len() && #[trigger] k[i] == Cell::Empty implies #[trigger] k[j]
                == Cell::Empty by {
                assert(k[i] == rest[i]);
            }
        } else if keep[cells.len() - 1] {
            let k = rest.push(cells.last());
            assert forall|i: int, j: int|
                0 <= i < j < k.len() && #[trigger] k[i] == Cell::Empty implies #[trigger] k[j]
                == Cell::Empty by {
                if j < rest.len() {
                    assert(k[i] == rest[i]);
                    assert(k[j] == rest[j]);
                }
            }
        }
    }
}

proof fn lemma_settled_column_settled(cells: Seq<Cell>, keep: Seq<bool>)
    requires
        cells.len() == keep.len(),
        settled_seq(cells),
    ensures
        settled_seq(settled_column(cells, keep)),
{
    lemma_kept_settled(cells, keep);
    lemma_kept_len(cells, keep);
    let k = kept_cells(cells, keep);
    let s = settled_column(cells, keep);
    assert forall|i: int, j: int|
        0 <= i < j < s.len() && #[trigger] s[i] == Cell::Empty implies #[trigger] s[j] == Cell::Empty by {
        if j < k.len() {
            assert(s[i] == k[i]);
            assert(s[j] == k[j]);
        }
    }
}

/// Removing cells keeps a settled field settled: the columns close up.
pub proof fn removal_keeps_gravity(b: Seq<Cell>, e: Seq<bool>)
    requires
        b.len() == 78,
        e.len() == 78,
        gravity_holds(b),
    ensures
        gravity_holds(remove_cells(b, e)),
{
    let r = remove_cells(b, e);
    lemma_gravity_by_columns(b);
    assert forall|x: int| 0 <= x < 6 implies #[trigger] settled_seq(column_of(r, x)) by {
        let col = column_of(b, x);
        let keep = kept_of(e, x);
        assert(settled_seq(col));
        lemma_settled_column_settled(col, keep);
        lemma_kept_len(col, keep);
        assert(column_of(r, x) =~= settled_column(col, keep)) by {
            assert forall|y: int| 0 <= y < 13 implies #[trigger] column_of(r, x)[y] == settled_column(
                col,
                keep,
            )[y] by {
                assert((y * 6 + x) % 6 == x);
                assert((y * 6 + x) / 6 == y);
            }
        }
    }
    lemma_gravity_by_columns(r);
}

/// A chain reaction keeps a settled field settled.
pub proof fn chain_keeps_gravity(b: Seq<Cell>, chain: int)
    requires
        b.len() == 78,
        gravity_holds(b),
    ensures
        gravity_holds(chain_final(b, chain)),
    decreases 256 - chain,
{
    if 1 <= chain <= 255 {
        if step_outcome(b, chain as u8) is Some {
            removal_keeps_gravity(b, erased_cells(b));
            chain_keeps_gravity(after_step(b), chain + 1);
        }
    }
}

/// Result of one vanish/drop step.
#[derive(Debug, Clone, PartialEq, Eq)]
pub struct StepResult {
    pub chain_index: u8,
    pub score: u32,
    pub colored_erased: u32,
    pub garbage_erased: u32,
    pub colors_erased: u8,
    pub group_bonus: u32,
    pub waste: u32,
    pub max_drop_distance: u8,
    /// Erased cells in the three-plane bit layout (see `plane_bit`).
    pub erased_mask: u128,
}

/// The outcome of one step on field `b` as chain number `chain`, or `None`
/// when nothing vanishes.
pub open spec fn step_outcome(b: Seq<Cell>, chain: u8) -> Option<StepResult> {
    let coloured = grid::count_true(coloured_erased(b));
    let e = erased_cells(b);
    if coloured == 0 {
        None
    } else {
        Some(
            StepResult {
                chain_index: chain,
                score: (10 * coloured * multiplier_of(b, chain as int)) as u32,
                colored_erased: coloured as u32,
                garbage_erased: grid::count_true(garbage_erased(b)) as u32,
                colors_erased: colours_erased(b) as u8,
                group_bonus: group_bonus_of(b) as u32,
                waste: waste_of(b) as u32,
                max_drop_distance: max_drop_upto(b, e, 78) as u8,
                erased_mask: mask_bits(e, 78),
            },
        )
    }
}

/// The field after one step: the erased cells are removed and the columns
/// close up.
pub open spec fn after_step(b: Seq<Cell>) -> Seq<Cell> {
    remove_cells(b, erased_cells(b))
}

pub fn link_bonus(size: u32) -> (r: u32)
    ensures
        r == link_bonus_spec(size as int),
{
    if size <= 4 {
        0
    } else if size == 5 {
        2
    } else if size == 6 {
        3
    } else if size == 7 {
        4
    } else if size == 8 {
        5
    } else if size == 9 {
        6
    } else if size == 10 {
        7
    } else {
        10
    }
}

pub fn color_bonus(colours: u8) -> (r: u32)
    requires
        1 <= colours <= 4,
    ensures
        r == colour_bonus_spec(colours as int),
{
    if colours == 1 {
        0
    } else if colours == 2 {
        3
    } else if colours == 3 {
        6
    } else {
        12
    }
}

pub fn chain_bonus(chain: u8) -> (r: u32)
    requires
        chain >= 1,
    ensures
        r == chain_bonus_spec(chain as int),
        r <= 512,
{
    if chain == 1 {
        0
    } else if chain == 2 {
        8
    } else if chain == 3 {
        16
    } else if chain <= 19 {
        32 * (chain as u32 - 3)
    } else {
        512
    }
}

/// What vanishes in one step.
struct Erasure {
    coloured: [bool; 78],
    erased: [bool; 78],
    coloured_count: u32,
    garbage_count: u32,
    colours: u8,
    group_bonus: u32,
    waste: u32,
}

/// Vanishing cells, presence, link bonus and waste for one colour.
fn colour_groups(cells: &[Cell; 78], c: Cell) -> (r: ([bool; 78], bool, u32, u32))
    requires
        is_colour(c),
    ensures
        forall|p: int| 0 <= p < 78 ==> r.0[p] == vanishes(cells@, c, p),
        r.1 == colour_vanishes(cells@, c),
        r.2 == group_sum(cells@, c, 78),
        r.2 <= 780,
        r.3 == waste_sum(cells@, c, 78),
        r.3 <= 6084,
{
    let ghost b = cells@;
    let mut mask = [false; 78];
    let mut p: usize = 0;
    while p < 78
        invariant
            p <= 78,
            b == cells@,
            forall|q: int| 0 <= q < p ==> mask[q] == (q < 72 && b[q] == c),
        decreases 78 - p,
    {
        let v = p < 72 && cells[p] == c;
        assert(v == (p < 72 && b[p as int] == c));
        mask[p] = v;
        p += 1;
    }
    assert(mask@.len() == 78);
    assert(p == 78);
    assert(forall|q: int| 0 <= q < 78 ==> mask[q] == (q < 72 && b[q] == c));
    assert(forall|q: int| 0 <= q < 78 ==> colour_mask(b, c)[q] == (q < 72 && b[q] == c));
    assert forall|q: int| 0 <= q < 78 implies mask@[q] == colour_mask(b, c)[q] by {
        assert(mask[q] == (q < 72 && b[q] == c));
    }
    assert(colour_mask(b, c).len() == 78);
    assert(mask@ =~= colour_mask(b, c));
    let (sizes, first) = grid::label_components(&mask);
    let mut vanish = [false; 78];
    let mut any = false;
    let mut bonus: u32 = 0;
    let mut waste: u32 = 0;
    let mut p: usize = 0;
    while p < 78
        invariant
            p <= 78,
            b == cells@,
            mask@ == colour_mask(b, c),
            forall|q: int|
                0 <= q < 78 ==> sizes[q] == if mask[q] {
                    grid::component_size(mask@, q)
                } else {
                    0
                },
            forall|q: int| 0 <= q < 78 ==> first[q] == grid::first_of_component(mask@, q),
            forall|q: int| 0 <= q < p ==> vanish[q] == vanishes(b, c, q),
            forall|q: int| p <= q < 78 ==> !vanish[q],
            any == exists|q: int| 0 <= q < p && #[trigger] vanishes(b, c, q),
            bonus == group_sum(b, c, p as int),
            bonus <= 10 * p,
            waste == waste_sum(b, c, p as int),
            waste <= 78 * p,
        decreases 78 - p,
    {
        proof {
            if mask[p as int] {
                grid::lemma_count_true_bound(grid::component_mask(mask@, p as int));
            }
        }
        assert(vanishes(b, c, p as int) == (mask[p as int] && sizes[p as int] >= 4));
        if mask[p] && sizes[p] >= 4 {
            vanish[p] = true;
            any = true;
            if first[p] {
                bonus = bonus + link_bonus(sizes[p] as u32);
                waste = waste + (sizes[p] as u32 - 4);
            }
        }
        p += 1;
    }
    (vanish, any, bonus, waste)
}

fn find_erasure(cells: &[Cell; 78]) -> (r: Erasure)
    ensures
        r.coloured@ == coloured_erased(cells@),
        r.erased@ == erased_cells(cells@),
        r.coloured_count == grid::count_true(coloured_erased(cells@)),
        r.garbage_count == grid::count_true(garbage_erased(cells@)),
        r.colours == colours_erased(cells@),
        r.group_bonus == group_bonus_of(cells@),
        r.waste == waste_of(cells@),
        r.coloured_count <= 78,
        r.garbage_count <= 78,
        r.group_bonus <= 3120,
{
    let ghost b = cells@;
    let (red, red_any, red_bonus, red_waste) = colour_groups(cells, Cell::Red);
    let (green, green_any, green_bonus, green_waste) = colour_groups(cells, Cell::Green);
    let (blue, blue_any, blue_bonus, blue_waste) = colour_groups(cells, Cell::Blue);
    let (yellow, yellow_any, yellow_bonus, yellow_waste) = colour_groups(cells, Cell::Yellow);
    let mut colours: u8 = 0;
    if red_any {
        colours += 1;
    }
    if green_any {
        colours += 1;
    }
    if blue_any {
        colours += 1;
    }
    if yellow_any {
        colours += 1;
    }
    let mut coloured = [false; 78];
    let mut count: u32 = 0;
    let mut p: usize = 0;
    while p < 78
        invariant
            p <= 78,
            b == cells@,
            forall|q: int| 0 <= q < 78 ==> red[q] == vanishes(b, Cell::Red, q),
            forall|q: int| 0 <= q < 78 ==> green[q] == vanishes(b, Cell::Green, q),
            forall|q: int| 0 <= q < 78 ==> blue[q] == vanishes(b, Cell::Blue, q),
            forall|q: int| 0 <= q < 78 ==> yellow[q] == vanishes(b, Cell::Yellow, q),
            forall|q: int| 0 <= q < p ==> coloured[q] == coloured_erased(b)[q],
            count == grid::count_true(coloured_erased(b).take(p as int)),
            count <= p,
        decreases 78 - p,
    {
        let v = red[p] || green[p] || blue[p] || yellow[p];
        proof {
            grid::lemma_count_true_take(coloured_erased(b), p as int);
        }
        coloured[p] = v;
        if v {
            count += 1;
        }
        p += 1;
    }
    proof {
        grid::lemma_count_true_all(coloured_erased(b));
        assert(coloured@ =~= coloured_erased(b));
    }
    let mut erased = [false; 78];
    let mut garbage: u32 = 0;
    let mut p: usize = 0;
    while p < 78
        invariant
            p <= 78,
            b == cells@,
            coloured@ == coloured_erased(b),
            forall|q: int| 0 <= q < p ==> erased[q] == erased_cells(b)[q],
            garbage == grid::count_true(garbage_erased(b).take(p as int)),
            garbage <= p,
        decreases 78 - p,
    {
        let g = p < 72 && cells[p] == Cell::Garbage && ((p >= 6 && coloured[p - 6]) || (p + 6 < 78
            && coloured[p + 6]) || (p % 6 != 0 && coloured[p - 1]) || (p % 6 != 5 && coloured[p + 1]));
        proof {
            grid::lemma_count_true_take(garbage_erased(b), p as int);
        }
        erased[p] = coloured[p] || g;
        if g {
            garbage += 1;
        }
        p += 1;
    }
    proof {
        grid::lemma_count_true_all(garbage_erased(b));
        assert(erased@ =~= erased_cells(b));
    }
    Erasure {
        coloured,
        erased,
        coloured_count: count,
        garbage_count: garbage,
        colours,
        group_bonus: red_bonus + green_bonus + blue_bonus + yellow_bonus,
        waste: red_waste + green_waste + blue_waste + yellow_waste,
    }
}


fn count_marked_below(erased: &[bool; 78], p: usize) -> (n: u8)
    requires
        p < 78,
    ensures
        n == marked_below(erased@, p as int),
        n <= 13,
{
    let x = p % 6;
    let top = p / 6;
    let ghost e = erased@;
    let mut n: u8 = 0;
    let mut y: usize = 0;
    while y < top
        invariant
            e == erased@,
            x == p % 6,
            top == p / 6,
            top <= 12,
            y <= top,
            n == grid::count_true(Seq::new(y as nat, |k: int| e[k * 6 + p % 6])),
            n <= y,
        decreases top - y,
    {
        assert(Seq::new((y + 1) as nat, |k: int| e[k * 6 + p % 6]).drop_last() =~= Seq::new(
            y as nat,
            |k: int| e[k * 6 + p % 6],
        ));
        if erased[y * 6 + x] {
            n += 1;
        }
        y += 1;
    }
    n
}

fn max_drop(cells: &[Cell; 78], erased: &[bool; 78]) -> (d: u8)
    ensures
        d == max_drop_upto(cells@, erased@, 78),
        d <= 13,
{
    let mut best: u8 = 0;
    let mut p: usize = 0;
    while p < 78
        invariant
            p <= 78,
            best == max_drop_upto(cells@, erased@, p as int),
            best <= 13,
        decreases 78 - p,
    {
        if cells[p] != Cell::Empty && !erased[p] {
            let below = count_marked_below(erased, p);
            if below > best {
                best = below;
            }
        }
        p += 1;
    }
    best
}

fn erased_bits(erased: &[bool; 78]) -> (m: u128)
    ensures
        m == mask_bits(erased@, 78),
{
    let mut m: u128 = 0;
    let mut p: usize = 0;
    while p < 78
        invariant
            p <= 78,
            m == mask_bits(erased@, p as int),
        decreases 78 - p,
    {
        if erased[p] {
            let k: u128 = ((p % 6 + 1) * 16 + p / 6 + 1) as u128;
            m = m | (1u128 << k);
        }
        p += 1;
    }
    m
}

proof fn lemma_kept_step(cells: Seq<Cell>, keep: Seq<bool>, y: int)
    requires
        cells.len() == keep.len(),
        0 <= y < cells.len(),
    ensures
        kept_cells(cells.take(y + 1), keep.take(y + 1)) == if keep[y] {
            kept_cells(cells.take(y), keep.take(y)).push(cells[y])
        } else {
            kept_cells(cells.take(y), keep.take(y))
        },
{
    assert(cells.take(y + 1).drop_last() =~= cells.take(y));
    assert(keep.take(y + 1).drop_last() =~= keep.take(y));
}

/// Removes the marked cells and closes up each column.
fn remove_marked(cells: &[Cell; 78], erased: &[bool; 78]) -> (r: [Cell; 78])
    ensures
        r@ == remove_cells(cells@, erased@),
{
    let ghost b = cells@;
    let ghost e = erased@;
    let mut out = [Cell::Empty; 78];
    let mut x: usize = 0;
    while x < 6
        invariant
            b == cells@,
            e == erased@,
            x <= 6,
            forall|p: int| 0 <= p < 78 && p % 6 < x ==> out[p] == remove_cells(b, e)[p],
            forall|p: int| 0 <= p < 78 && p % 6 >= x ==> out[p] == Cell::Empty,
        decreases 6 - x,
    {
        let ghost col = column_of(b, x as int);
        let ghost keep = kept_of(e, x as int);
        let mut dest: usize = 0;
        let mut y: usize = 0;
        while y < 13
            invariant
                b == cells@,
                e == erased@,
                x < 6,
                col == column_of(b, x as int),
                keep == kept_of(e, x as int),
                y <= 13,
                dest == kept_cells(col.take(y as int), keep.take(y as int)).len(),
                dest <= y,
                forall|p: int|
                    0 <= p < 78 && p % 6 == x && p / 6 < dest ==> out[p] == kept_cells(
                        col.take(y as int),
                        keep.take(y as int),
                    )[p / 6],
                forall|p: int| 0 <= p < 78 && p % 6 == x && p / 6 >= dest ==> out[p] == Cell::Empty,
                forall|p: int| 0 <= p < 78 && p % 6 < x ==> out[p] == remove_cells(b, e)[p],
                forall|p: int| 0 <= p < 78 && p % 6 > x ==> out[p] == Cell::Empty,
            decreases 13 - y,
        {
            proof {
                lemma_kept_step(col, keep, y as int);
            }
            if !erased[y * 6 + x] {
                out[dest * 6 + x] = cells[y * 6 + x];
                dest += 1;
            }
            y += 1;
        }
        proof {
            assert(col.take(13) =~= col);
            assert(keep.take(13) =~= keep);
            lemma_kept_len(col, keep);
            assert forall|p: int| 0 <= p < 78 && p % 6 == x implies out[p] == remove_cells(b, e)[p] by {
            }
        }
        x += 1;
    }
    proof {
        assert(out@ =~= remove_cells(b, e));
    }
    out
}

proof fn lemma_count_positive(s: Seq<bool>) -> (i: int)
    requires
        grid::count_true(s) > 0,
    ensures
        0 <= i < s.len(),
        s[i],
    decreases s.len(),
{
    if s.last() {
        (s.len() - 1) as int
    } else {
        lemma_count_positive(s.drop_last())
    }
}

proof fn lemma_some_colour_vanishes(b: Seq<Cell>)
    requires
        b.len() == 78,
        grid::count_true(coloured_erased(b)) > 0,
    ensures
        1 <= colours_erased(b) <= 4,
{
    let p = lemma_count_positive(coloured_erased(b));
    assert(vanishes(b, b[p], p));
}

impl Board {
    pub fn empty() -> (r: Board)
        ensures
            r@ == empty_field(),
    {
        let r = Board { cells: [Cell::Empty; 78] };
        assert(r@ =~= empty_field());
        r
    }

    pub fn get(&self, x: usize, y: usize) -> (c: Cell)
        requires
            x < 6,
            y < 13,
        ensures
            c == self@[cell_index(x as int, y as int)],
    {
        self.cells[y * 6 + x]
    }

    pub fn set(&mut self, x: usize, y: usize, cell: Cell)
        requires
            x < 6,
            y < 13,
        ensures
            final(self)@ == old(self)@.update(cell_index(x as int, y as int), cell),
    {
        self.cells[y * 6 + x] = cell;
    }

    pub fn is_empty(&self) -> (r: bool)
        ensures
            r == (self@ == empty_field()),
    {
        let mut p: usize = 0;
        while p < 78
            invariant
                p <= 78,
                forall|q: int| 0 <= q < p ==> self@[q] == Cell::Empty,
            decreases 78 - p,
        {
            if self.cells[p] != Cell::Empty {
                assert(self@[p as int] != empty_field()[p as int]);
                return false;
            }
            p += 1;
        }
        assert(self@ =~= empty_field());
        true
    }

    /// Resolves one vanish/drop step. `chain_index` is one-based.
    pub fn resolve_step(&mut self, chain_index: u8) -> (r: Option<StepResult>)
        requires
            chain_index >= 1,
        ensures
            r == step_outcome(old(self)@, chain_index),
            r is Some ==> final(self)@ == after_step(old(self)@),
            r is None ==> final(self)@ == old(self)@,
    {
        let (r, _erased) = self.resolve_step_marked(chain_index);
        r
    }

    /// One step, also giving the erased cells.
    fn resolve_step_marked(&mut self, chain_index: u8) -> (r: (Option<StepResult>, [bool; 78]))
        requires
            chain_index >= 1,
        ensures
            r.0 == step_outcome(old(self)@, chain_index),
            r.0 is Some ==> final(self)@ == after_step(old(self)@),
            r.0 is None ==> final(self)@ == old(self)@,
            r.1@ == erased_cells(old(self)@),
    {
        let ghost b = self@;
        let e = find_erasure(&self.cells);
        if e.coloured_count == 0 {
            return (None, e.erased);
        }
        proof {
            lemma_some_colour_vanishes(b);
        }
        let sum = chain_bonus(chain_index) + color_bonus(e.colours) + e.group_bonus;
        let multiplier = if sum < 1 {
            1
        } else if sum > 999 {
            999
        } else {
            sum
        };
        assert(10 * e.coloured_count * multiplier <= 10 * 78 * 999) by (nonlinear_arith)
            requires
                e.coloured_count <= 78,
                multiplier <= 999,
        ;
        let score = 10 * e.coloured_count * multiplier;
        let max_drop_distance = max_drop(&self.cells, &e.erased);
        let erased_mask = erased_bits(&e.erased);
        self.cells = remove_marked(&self.cells, &e.erased);
        (
            Some(
                StepResult {
                    chain_index,
                    score,
                    colored_erased: e.coloured_count,
                    garbage_erased: e.garbage_count,
                    colors_erased: e.colours,
                    group_bonus: e.group_bonus,
                    waste: e.waste,
                    max_drop_distance,
                    erased_mask,
                },
            ),
            e.erased,
        )
    }
}


// ----- whole chains -----
/// The steps of a chain reaction whose first step is chain number `chain`;
/// at most 255 chains are counted.
pub open spec fn chain_run(b: Seq<Cell>, chain: int) -> Seq<StepResult>
    decreases 256 - chain,
{
    if chain < 1 || chain > 255 {
        Seq::empty()
    } else {
        match step_outcome(b, chain as u8) {
            None => Seq::empty(),
            Some(r) => seq![r] + chain_run(after_step(b), chain + 1),
        }
    }
}

/// The field once the chain reaction that starts at chain number `chain`
/// has stopped.
pub open spec fn chain_final(b: Seq<Cell>, chain: int) -> Seq<Cell>
    decreases 256 - chain,
{
    if chain < 1 || chain > 255 {
        b
    } else {
        match step_outcome(b, chain as u8) {
            None => b,
            Some(r) => chain_final(after_step(b), chain + 1),
        }
    }
}

pub open spec fn score_total(steps: Seq<StepResult>) -> int
    decreases steps.len(),
{
    if steps.len() == 0 {
        0
    } else {
        score_total(steps.drop_last()) + steps.last().score
    }
}

pub open spec fn coloured_total(steps: Seq<StepResult>) -> int
    decreases steps.len(),
{
    if steps.len() == 0 {
        0
    } else {
        coloured_total(steps.drop_last()) + steps.last().colored_erased
    }
}

pub open spec fn garbage_total(steps: Seq<StepResult>) -> int
    decreases steps.len(),
{
    if steps.len() == 0 {
        0
    } else {
        garbage_total(steps.drop_last()) + steps.last().garbage_erased
    }
}

pub open spec fn max_drop_total(steps: Seq<StepResult>) -> int
    decreases steps.len(),
{
    if steps.len() == 0 {
        0
    } else {
        let rest = max_drop_total(steps.drop_last());
        if steps.last().max_drop_distance > rest {
            steps.last().max_drop_distance as int
        } else {
            rest
        }
    }
}

pub open spec fn nonempty_count(cells: Seq<Cell>) -> nat
    decreases cells.len(),
{
    if cells.len() == 0 {
        0
    } else {
        nonempty_count(cells.drop_last()) + bool_count(cells.last() != Cell::Empty)
    }
}

/// Number of occupied cells, column by column.
pub open spec fn occupied(b: Seq<Cell>) -> nat {
    nonempty_count(column_of(b, 0)) + nonempty_count(column_of(b, 1)) + nonempty_count(
        column_of(b, 2),
    ) + nonempty_count(column_of(b, 3)) + nonempty_count(column_of(b, 4)) + nonempty_count(
        column_of(b, 5),
    )
}

pub open spec fn removed_nonempty(cells: Seq<Cell>, keep: Seq<bool>) -> nat
    decreases cells.len(),
{
    if cells.len() == 0 {
        0
    } else {
        removed_nonempty(cells.drop_last(), keep.drop_last()) + bool_count(
            !keep[cells.len() - 1] && cells.last() != Cell::Empty,
        )
    }
}

proof fn lemma_nonempty_bound(cells: Seq<Cell>)
    ensures
        nonempty_count(cells) <= cells.len(),
    decreases cells.len(),
{
    if cells.len() > 0 {
        lemma_nonempty_bound(cells.drop_last());
    }
}

proof fn lemma_nonempty_kept(cells: Seq<Cell>, keep: Seq<bool>)
    requires
        cells.len() == keep.len(),
    ensures
        nonempty_count(kept_cells(cells, keep)) + removed_nonempty(cells, keep) == nonempty_count(
            cells,
        ),
    decreases cells.len(),
{
    if cells.len() > 0 {
        lemma_nonempty_kept(cells.drop_last(), keep.drop_last());
        let rest = kept_cells(cells.drop_last(), keep.drop_last());
        if keep[cells.len() - 1] {
            assert(rest.push(cells.last()).drop_last() =~= rest);
        }
    }
}

proof fn lemma_nonempty_pad(k: Seq<Cell>, n: nat)
    ensures
        nonempty_count(k + Seq::new(n, |i: int| Cell::Empty)) == nonempty_count(k),
    decreases n,
{
    if n > 0 {
        let s = k + Seq::new(n, |i: int| Cell::Empty);
        assert(s.drop_last() =~= k + Seq::new((n - 1) as nat, |i: int| Cell::Empty));
        lemma_nonempty_pad(k, (n - 1) as nat);
    }
}

proof fn lemma_removed_positive(cells: Seq<Cell>, keep: Seq<bool>, y: int)
    requires
        cells.len() == keep.len(),
        0 <= y < cells.len(),
        !keep[y],
        cells[y] != Cell::Empty,
    ensures
        removed_nonempty(cells, keep) > 0,
    decreases cells.len(),
{
    if y < cells.len() - 1 {
        lemma_removed_positive(cells.drop_last(), keep.drop_last(), y);
    }
}

/// Removing cells shrinks every column's occupied count by the occupied
/// cells removed from it.
proof fn lemma_column_after_removal(b: Seq<Cell>, e: Seq<bool>, x: int)
    requires
        b.len() == 78,
        e.len() == 78,
        0 <= x < 6,
    ensures
        nonempty_count(column_of(remove_cells(b, e), x)) + removed_nonempty(
            column_of(b, x),
            kept_of(e, x),
        ) == nonempty_count(column_of(b, x)),
{
    let col = column_of(b, x);
    let keep = kept_of(e, x);
    lemma_kept_len(col, keep);
    let k = kept_cells(col, keep);
    assert(column_of(remove_cells(b, e), x) =~= settled_column(col, keep)) by {
        assert forall|y: int| 0 <= y < 13 implies #[trigger] column_of(remove_cells(b, e), x)[y]
            == settled_column(col, keep)[y] by {
            assert((y * 6 + x) % 6 == x);
            assert((y * 6 + x) / 6 == y);
        }
    }
    lemma_nonempty_pad(k, (col.len() - k.len()) as nat);
    lemma_nonempty_kept(col, keep);
}

/// A step that erases something removes at least one occupied cell.
pub proof fn lemma_step_shrinks(b: Seq<Cell>)
    requires
        b.len() == 78,
        grid::count_true(coloured_erased(b)) > 0,
    ensures
        occupied(after_step(b)) < occupied(b),
{
    let e = erased_cells(b);
    let p = lemma_count_positive(coloured_erased(b));
    let x = p % 6;
    let y = p / 6;
    assert(p == y * 6 + x);
    assert(column_of(b, x)[y] != Cell::Empty);
    assert(!kept_of(e, x)[y]);
    lemma_removed_positive(column_of(b, x), kept_of(e, x), y);
    lemma_column_after_removal(b, e, 0);
    lemma_column_after_removal(b, e, 1);
    lemma_column_after_removal(b, e, 2);
    lemma_column_after_removal(b, e, 3);
    lemma_column_after_removal(b, e, 4);
    lemma_column_after_removal(b, e, 5);
}

pub proof fn lemma_occupied_bound(b: Seq<Cell>)
    ensures
        occupied(b) <= 78,
{
    lemma_nonempty_bound(column_of(b, 0));
    lemma_nonempty_bound(column_of(b, 1));
    lemma_nonempty_bound(column_of(b, 2));
    lemma_nonempty_bound(column_of(b, 3));
    lemma_nonempty_bound(column_of(b, 4));
    lemma_nonempty_bound(column_of(b, 5));
}

/// A chain reaction takes at most as many steps as there are occupied
/// cells.
pub proof fn lemma_chain_run_bound(b: Seq<Cell>, chain: int)
    requires
        b.len() == 78,
    ensures
        chain_run(b, chain).len() <= occupied(b),
    decreases 256 - chain,
{
    if chain < 1 || chain > 255 {
    } else {
        match step_outcome(b, chain as u8) {
            None => {},
            Some(r) => {
                lemma_step_shrinks(b);
                lemma_chain_run_bound(after_step(b), chain + 1);
            },
        }
    }
}


#[derive(Debug, Clone, PartialEq, Eq, Default)]
pub struct SimulationResult {
    pub score: u64,
    pub all_clear: bool,
    pub steps: Vec<StepResult>,
}

#[derive(Debug, Clone, Copy, PartialEq, Eq, Default)]
pub struct SimulationSummary {
    pub score: u64,
    pub chains: u8,
    pub colored_erased: u32,
    pub garbage_erased: u32,
    pub max_drop_distance: u8,
    pub all_clear: bool,
}

impl SimulationResult {
    pub fn chains(&self) -> (n: usize)
        ensures
            n == self.steps@.len(),
    {
        self.steps.len()
    }
}

/// The summary of the chain reaction on field `b`.
pub open spec fn summary_of(b: Seq<Cell>) -> SimulationSummary {
    let steps = chain_run(b, 1);
    SimulationSummary {
        score: score_total(steps) as u64,
        chains: steps.len() as u8,
        colored_erased: coloured_total(steps) as u32,
        garbage_erased: garbage_total(steps) as u32,
        max_drop_distance: max_drop_total(steps) as u8,
        all_clear: chain_final(b, 1) == empty_field(),
    }
}

proof fn lemma_step_bounds(b: Seq<Cell>, chain: u8)
    requires
        b.len() == 78,
        chain >= 1,
        step_outcome(b, chain) is Some,
    ensures
        step_outcome(b, chain)->0.score <= 779220,
        step_outcome(b, chain)->0.colored_erased <= 78,
        step_outcome(b, chain)->0.garbage_erased <= 78,
        step_outcome(b, chain)->0.max_drop_distance <= 13,
{
    grid::lemma_count_true_bound(coloured_erased(b));
    grid::lemma_count_true_bound(garbage_erased(b));
    let n = grid::count_true(coloured_erased(b));
    let m = multiplier_of(b, chain as int);
    assert(10 * n * m <= 779220) by (nonlinear_arith)
        requires
            n <= 78,
            1 <= m <= 999,
    ;
    lemma_max_drop_bound(b, erased_cells(b), 78);
}

proof fn lemma_max_drop_bound(b: Seq<Cell>, e: Seq<bool>, n: int)
    requires
        0 <= n <= 78,
    ensures
        max_drop_upto(b, e, n) <= 13,
    decreases n,
{
    if n > 0 {
        lemma_max_drop_bound(b, e, n - 1);
        let p = n - 1;
        grid::lemma_count_true_bound(Seq::new((p / 6) as nat, |y: int| e[y * 6 + p % 6]));
    }
}

/// Every step of a chain reaction stays within the per-step bounds.
proof fn lemma_run_steps_bounded(b: Seq<Cell>, chain: int)
    requires
        b.len() == 78,
        chain >= 1,
    ensures
        forall|i: int|
            0 <= i < chain_run(b, chain).len() ==> {
                let s = #[trigger] chain_run(b, chain)[i];
                &&& s.score <= 779220
                &&& s.colored_erased <= 78
                &&& s.garbage_erased <= 78
                &&& s.max_drop_distance <= 13
            },
    decreases 256 - chain,
{
    if chain <= 255 {
        match step_outcome(b, chain as u8) {
            None => {},
            Some(r) => {
                lemma_step_bounds(b, chain as u8);
                lemma_run_steps_bounded(after_step(b), chain + 1);
                let rest = chain_run(after_step(b), chain + 1);
                assert forall|i: int| 0 < i < chain_run(b, chain).len() implies #[trigger] chain_run(
                    b,
                    chain,
                )[i] == rest[i - 1] by {}
            },
        }
    }
}

/// Totals of steps that each stay within the per-step bounds.
proof fn lemma_totals_bounded(steps: Seq<StepResult>)
    requires
        forall|i: int|
            0 <= i < steps.len() ==> {
                let s = #[trigger] steps[i];
                &&& s.score <= 779220
                &&& s.colored_erased <= 78
                &&& s.garbage_erased <= 78
                &&& s.max_drop_distance <= 13
            },
    ensures
        0 <= score_total(steps) <= 779220 * steps.len(),
        0 <= coloured_total(steps) <= 78 * steps.len(),
        0 <= garbage_total(steps) <= 78 * steps.len(),
        0 <= max_drop_total(steps) <= 13,
    decreases steps.len(),
{
    if steps.len() > 0 {
        let rest = steps.drop_last();
        assert forall|i: int| 0 <= i < rest.len() implies #[trigger] rest[i] == steps[i] by {}
        lemma_totals_bounded(rest);
        let last = steps[steps.len() - 1];
        assert(last == steps.last());
    }
}

/// Counting chains alone and resolving them with every total agree: the
/// count that `simulate_chain_count` gives is the `chains` that
/// `simulate_summary` gives, and both leave the field `chain_final(b, 1)`.
pub proof fn chain_count_agrees_with_summary(b: Board)
    ensures
        summary_of(b@).chains == chain_run(b@, 1).len(),
{
    lemma_occupied_bound(b@);
    lemma_chain_run_bound(b@, 1);
}

proof fn lemma_final_is_stable(b: Seq<Cell>, c: int)
    requires
        b.len() == 78,
        1 <= c,
        c + chain_run(b, c).len() <= 255,
    ensures
        chain_final(b, c).len() == 78,
        forall|k: u8| #[trigger] step_outcome(chain_final(b, c), k) is None,
    decreases 256 - c,
{
    match step_outcome(b, c as u8) {
        None => {},
        Some(r) => {
            assert(chain_run(b, c).len() == 1 + chain_run(after_step(b), c + 1).len());
            lemma_final_is_stable(after_step(b), c + 1);
        },
    }
}

/// A chain reaction ends on a stable field: no group vanishes on the field
/// that `simulate` leaves, so resolving it again finds no step and leaves it
/// as it is.
pub proof fn simulation_ends_stable(b: Board)
    ensures
        forall|k: u8| #[trigger] step_outcome(chain_final(b@, 1), k) is None,
        chain_run(chain_final(b@, 1), 1).len() == 0,
        chain_final(chain_final(b@, 1), 1) == chain_final(b@, 1),
{
    lemma_chain_run_bound(b@, 1);
    lemma_occupied_bound(b@);
    lemma_final_is_stable(b@, 1);
    assert(step_outcome(chain_final(b@, 1), 1u8) is None);
}

/// The totals of `simulate_summary` are those of the steps that `simulate`
/// lists, and both report an all clear exactly when the final field is
/// empty.
pub proof fn summary_agrees_with_steps(b: Board)
    ensures
        summary_of(b@).score == score_total(chain_run(b@, 1)),
        summary_of(b@).chains == chain_run(b@, 1).len(),
        summary_of(b@).colored_erased == coloured_total(chain_run(b@, 1)),
        summary_of(b@).garbage_erased == garbage_total(chain_run(b@, 1)),
        summary_of(b@).max_drop_distance == max_drop_total(chain_run(b@, 1)),
        summary_of(b@).all_clear == (chain_final(b@, 1) == empty_field()),
{
    lemma_occupied_bound(b@);
    lemma_chain_run_bound(b@, 1);
    lemma_run_steps_bounded(b@, 1);
    lemma_totals_bounded(chain_run(b@, 1));
}

/// The hidden thirteenth row never vanishes: no puyo there, coloured or
/// garbage, is erased by a step.
pub proof fn hidden_row_never_vanishes(b: Board, p: int)
    requires
        72 <= p < 78,
    ensures
        !coloured_erased(b@)[p],
        !garbage_erased(b@)[p],
        !erased_cells(b@)[p],
{
}

/// The chain count of the labels is the chain count of the simulation.
pub proof fn labels_count_the_chains(b: Board, l: ChainLabels)
    requires
        labels_describe(b@, l),
    ensures
        l.chains == summary_of(b@).chains,
{
    chain_count_agrees_with_summary(b);
}

/// Reading a cell gives back what was last written there, and a write
/// leaves every other cell as it was.
pub proof fn get_after_set(b: Board, x: int, y: int, c: Cell, x2: int, y2: int)
    requires
        0 <= x < 6,
        0 <= y < 13,
        0 <= x2 < 6,
        0 <= y2 < 13,
    ensures
        b@.update(cell_index(x, y), c)[cell_index(x2, y2)] == (if x == x2 && y == y2 {
            c
        } else {
            b@[cell_index(x2, y2)]
        }),
{
}

impl Board {
    /// Resolves all chains until stable.
    pub fn simulate(&mut self) -> (r: SimulationResult)
        ensures
            r.steps@ == chain_run(old(self)@, 1),
            final(self)@ == chain_final(old(self)@, 1),
            r.score == score_total(r.steps@),
            r.all_clear == (final(self)@ == empty_field()),
    {
        let ghost b0 = self@;
        let mut steps: Vec<StepResult> = Vec::new();
        let mut score: u64 = 0;
        let mut chain: u32 = 1;
        let mut done = false;
        while chain <= 255 && !done
            invariant
                1 <= chain <= 256,
                self@.len() == 78,
                chain_run(b0, 1) == steps@ + if done {
                    Seq::empty()
                } else {
                    chain_run(self@, chain as int)
                },
                chain_final(b0, 1) == chain_final(self@, chain as int),
                done ==> chain_final(self@, chain as int) == self@,
                score == score_total(steps@),
                score <= 779220 * steps@.len(),
                steps@.len() < chain,
            decreases 256 - chain,
        {
            let ghost before = self@;
            let ghost before_steps = steps@;
            match self.resolve_step(chain as u8) {
                None => {
                    done = true;
                    chain += 1;
                },
                Some(step) => {
                    proof {
                        lemma_step_bounds(before, chain as u8);
                        assert((before_steps + seq![step]).drop_last() =~= before_steps);
                        assert(before_steps + (seq![step] + chain_run(self@, chain + 1)) =~= (
                        before_steps + seq![step]) + chain_run(self@, chain + 1));
                    }
                    score = score + step.score as u64;
                    steps.push(step);
                    assert(steps@.drop_last() =~= before_steps);
                    chain += 1;
                },
            }
        }
        proof {
            if !done {
                assert(steps@ + chain_run(self@, chain as int) =~= steps@);
            } else {
                assert(steps@ + Seq::<StepResult>::empty() =~= steps@);
            }
        }
        let all_clear = self.is_empty();
        SimulationResult { score, all_clear, steps }
    }

    /// Resolves all chains, keeping only totals.
    pub fn simulate_summary(&mut self) -> (r: SimulationSummary)
        ensures
            r == summary_of(old(self)@),
            final(self)@ == chain_final(old(self)@, 1),
    {
        let ghost b0 = self@;
        let ghost mut steps: Seq<StepResult> = Seq::empty();
        let mut result = SimulationSummary {
            score: 0,
            chains: 0,
            colored_erased: 0,
            garbage_erased: 0,
            max_drop_distance: 0,
            all_clear: false,
        };
        let mut chain: u32 = 1;
        let mut done = false;
        while chain <= 255 && !done
            invariant
                1 <= chain <= 256,
                self@.len() == 78,
                chain_run(b0, 1) == steps + if done {
                    Seq::empty()
                } else {
                    chain_run(self@, chain as int)
                },
                chain_final(b0, 1) == chain_final(self@, chain as int),
                done ==> chain_final(self@, chain as int) == self@,
                result.score == score_total(steps),
                result.score <= 779220 * steps.len(),
                result.chains == steps.len(),
                result.colored_erased == coloured_total(steps),
                result.colored_erased <= 78 * steps.len(),
                result.garbage_erased == garbage_total(steps),
                result.garbage_erased <= 78 * steps.len(),
                result.max_drop_distance == max_drop_total(steps),
                result.max_drop_distance <= 13,
                steps.len() < chain,
            decreases 256 - chain,
        {
            let ghost before = self@;
            let ghost before_steps = steps;
            match self.resolve_step(chain as u8) {
                None => {
                    done = true;
                    chain += 1;
                },
                Some(step) => {
                    proof {
                        lemma_step_bounds(before, chain as u8);
                        steps = steps.push(step);
                        assert(steps.drop_last() =~= before_steps);
                        assert(before_steps + (seq![step] + chain_run(self@, chain + 1)) =~= steps
                            + chain_run(self@, chain + 1));
                    }
                    result.score = result.score + step.score as u64;
                    result.chains = result.chains + 1;
                    result.colored_erased = result.colored_erased + step.colored_erased;
                    result.garbage_erased = result.garbage_erased + step.garbage_erased;
                    if step.max_drop_distance > result.max_drop_distance {
                        result.max_drop_distance = step.max_drop_distance;
                    }
                    chain += 1;
                },
            }
        }
        proof {
            if !done {
                assert(steps + chain_run(self@, chain as int) =~= steps);
            } else {
                assert(steps + Seq::<StepResult>::empty() =~= steps);
            }
        }
        result.all_clear = self.is_empty();
        result
    }

    fn resolve_chain_step(&mut self) -> (r: bool)
        ensures
            r == (grid::count_true(coloured_erased(old(self)@)) > 0),
            r ==> final(self)@ == after_step(old(self)@),
            !r ==> final(self)@ == old(self)@,
    {
        let e = find_erasure(&self.cells);
        if e.coloured_count == 0 {
            return false;
        }
        self.cells = remove_marked(&self.cells, &e.erased);
        true
    }

    /// Counts the chains of the reaction, keeping no other totals.
    pub fn simulate_chain_count(&mut self) -> (r: u8)
        ensures
            r == chain_run(old(self)@, 1).len(),
            final(self)@ == chain_final(old(self)@, 1),
    {
        let ghost b0 = self@;
        proof {
            lemma_occupied_bound(b0);
            lemma_chain_run_bound(b0, 1);
        }
        let mut chains: u8 = 0;
        loop
            invariant
                self@.len() == 78,
                chains + occupied(self@) <= occupied(b0),
                occupied(b0) <= 78,
                chain_run(b0, 1).len() == chains + chain_run(self@, chains + 1).len(),
                chain_final(b0, 1) == chain_final(self@, chains + 1),
            ensures
                grid::count_true(coloured_erased(self@)) == 0,
                chain_run(b0, 1).len() == chains + chain_run(self@, chains + 1).len(),
                chain_final(b0, 1) == chain_final(self@, chains + 1),
            decreases occupied(self@),
        {
            let ghost before = self@;
            if !self.resolve_chain_step() {
                break;
            }
            proof {
                lemma_step_shrinks(before);
                lemma_occupied_bound(self@);
                assert(step_outcome(before, (chains + 1) as u8) is Some);
            }
            chains = chains.saturating_add(1);
        }
        proof {
            assert(step_outcome(self@, (chains + 1) as u8) is None);
        }
        chains
    }
}


/// Cells of colour `c` anywhere on the field, the hidden row included.
pub open spec fn field_colour_mask(b: Seq<Cell>, c: Cell) -> Seq<bool> {
    Seq::new(78, |p: int| b[p] == c)
}

/// Size of the same-colour orthogonal group holding each coloured cell;
/// empty and garbage cells get zero.
pub open spec fn component_labels(b: Seq<Cell>) -> Seq<u8> {
    Seq::new(
        78,
        |p: int|
            if is_colour(b[p]) {
                grid::component_size(field_colour_mask(b, b[p]), p) as u8
            } else {
                0u8
            },
    )
}

/// Height of column `x` counting only its lowest `k` rows: one more than
/// the highest occupied row among them, or zero.
pub open spec fn column_height_upto(b: Seq<Cell>, x: int, k: int) -> int
    decreases k,
{
    if k <= 0 {
        0
    } else if b[(k - 1) * 6 + x] != Cell::Empty {
        k
    } else {
        column_height_upto(b, x, k - 1)
    }
}

pub open spec fn column_height(b: Seq<Cell>, x: int) -> int {
    column_height_upto(b, x, 13)
}

/// The cell at column `x`, row `y` is occupied while a cell below it in the
/// same column is empty.
pub open spec fn floating_at(b: Seq<Cell>, x: int, y: int) -> bool {
    &&& b[y * 6 + x] != Cell::Empty
    &&& exists|y0: int| 0 <= y0 < y && #[trigger] b[y0 * 6 + x] == Cell::Empty
}

/// `(x, y)` comes before `(x2, y2)` when scanning columns left to right and
/// each column floor upwards.
pub open spec fn scan_before(x: int, y: int, x2: int, y2: int) -> bool {
    x < x2 || (x == x2 && y < y2)
}

#[derive(Debug, Clone, PartialEq, Eq)]
pub enum ParseBoardError {
    WrongRowCount { actual: usize },
    WrongColumnCount { row: usize, actual: usize },
    InvalidCell { row: usize, column: usize, value: char },
    FloatingCell { row: usize, column: usize },
}

/// The gravity check: `Ok` for a settled field, else the first floating
/// cell in scan order, reported with its top-to-bottom row and its column,
/// both one-based.
pub open spec fn gravity_check(b: Seq<Cell>) -> Result<(), ParseBoardError> {
    if exists|x: int, y: int| 0 <= x < 6 && 0 <= y < 13 && #[trigger] floating_at(b, x, y) {
        let (x, y) = choose|x: int, y: int|
            0 <= x < 6 && 0 <= y < 13 && #[trigger] floating_at(b, x, y) && forall|x2: int, y2: int|
                0 <= x2 < 6 && 0 <= y2 < 13 && #[trigger] scan_before(x2, y2, x, y) ==> !floating_at(
                    b,
                    x2,
                    y2,
                );
        Err(ParseBoardError::FloatingCell { row: (13 - y) as usize, column: (x + 1) as usize })
    } else {
        Ok(())
    }
}

impl Board {
    /// Size of the same-colour orthogonal component containing each cell.
    /// Empty and garbage cells are labelled zero.
    pub fn connected_component_sizes(&self) -> (r: [u8; 78])
        ensures
            r@ == component_labels(self@),
    {
        let ghost b = self@;
        let mut result = [0u8; 78];
        let colours = [Cell::Red, Cell::Green, Cell::Blue, Cell::Yellow];
        let mut k: usize = 0;
        while k < 4
            invariant
                b == self@,
                k <= 4,
                colours@ == seq![Cell::Red, Cell::Green, Cell::Blue, Cell::Yellow],
                forall|p: int|
                    0 <= p < 78 ==> #[trigger] result[p] == if is_colour(b[p]) && exists|j: int|
                        0 <= j < k && colours@[j] == b[p] {
                        component_labels(b)[p]
                    } else {
                        0u8
                    },
            decreases 4 - k,
        {
            let c = colours[k];
            let mut mask = [false; 78];
            let mut p: usize = 0;
            while p < 78
                invariant
                    p <= 78,
                    b == self@,
                    forall|q: int| 0 <= q < p ==> mask[q] == (b[q] == c),
                decreases 78 - p,
            {
                let v = self.cells[p] == c;
                mask[p] = v;
                p += 1;
            }
            assert forall|q: int| 0 <= q < 78 implies mask@[q] == field_colour_mask(b, c)[q] by {
                assert(mask[q] == (b[q] == c));
            }
            assert(field_colour_mask(b, c).len() == 78);
            assert(mask@ =~= field_colour_mask(b, c));
            let (sizes, _first) = grid::label_components(&mask);
            let mut p: usize = 0;
            while p < 78
                invariant
                    p <= 78,
                    b == self@,
                    k < 4,
                    c == colours@[k as int],
                    colours@ == seq![Cell::Red, Cell::Green, Cell::Blue, Cell::Yellow],
                    mask@ == field_colour_mask(b, c),
                    forall|q: int|
                        0 <= q < 78 ==> sizes[q] == if mask[q] {
                            grid::component_size(mask@, q)
                        } else {
                            0
                        },
                    forall|q: int|
                        0 <= q < 78 ==> #[trigger] result[q] == if is_colour(b[q]) && (exists|j: int|
                            0 <= j < k && colours@[j] == b[q] || (q < p && b[q] == c)) {
                            component_labels(b)[q]
                        } else {
                            0u8
                        },
                decreases 78 - p,
            {
                if mask[p] {
                    result[p] = sizes[p];
                }
                p += 1;
            }
            assert forall|q: int| 0 <= q < 78 implies #[trigger] result[q] == if is_colour(b[q])
                && exists|j: int| 0 <= j < k + 1 && colours@[j] == b[q] {
                component_labels(b)[q]
            } else {
                0u8
            } by {
                if exists|j: int| 0 <= j < k + 1 && colours@[j] == b[q] {
                    let j = choose|j: int| 0 <= j < k + 1 && colours@[j] == b[q];
                    if j == k {
                    } else {
                        assert(exists|j: int| 0 <= j < k && colours@[j] == b[q]);
                    }
                }
            }
            k += 1;
        }
        assert forall|p: int| 0 <= p < 78 implies result@[p] == component_labels(b)[p] by {
            if is_colour(b[p]) {
                if b[p] == Cell::Red {
                    assert(colours@[0] == b[p]);
                } else if b[p] == Cell::Green {
                    assert(colours@[1] == b[p]);
                } else if b[p] == Cell::Blue {
                    assert(colours@[2] == b[p]);
                } else {
                    assert(colours@[3] == b[p]);
                }
            }
        }
        assert(result@ =~= component_labels(b));
        result
    }

    /// Height of each column: one more than its highest occupied row.
    pub fn column_heights(&self) -> (r: [u8; 6])
        ensures
            forall|x: int| 0 <= x < 6 ==> r[x] as int == column_height(self@, x),
            forall|x: int| 0 <= x < 6 ==> r[x] <= 13,
    {
        let mut r = [0u8; 6];
        let mut x: usize = 0;
        while x < 6
            invariant
                x <= 6,
                forall|x2: int| 0 <= x2 < x ==> r[x2] as int == column_height(self@, x2),
                forall|x2: int| 0 <= x2 < x ==> r[x2] <= 13,
            decreases 6 - x,
        {
            let mut k: usize = 0;
            let mut h: u8 = 0;
            while k < 13
                invariant
                    x < 6,
                    k <= 13,
                    h as int == column_height_upto(self@, x as int, k as int),
                    h <= k,
                decreases 13 - k,
            {
                if self.cells[k * 6 + x] != Cell::Empty {
                    h = (k + 1) as u8;
                }
                k += 1;
            }
            r[x] = h;
            x += 1;
        }
        r
    }

    pub fn validate_gravity(&self) -> (r: Result<(), ParseBoardError>)
        ensures
            r == gravity_check(self@),
    {
        let ghost b = self@;
        let mut x: usize = 0;
        while x < 6
            invariant
                b == self@,
                x <= 6,
                forall|x2: int, y2: int|
                    0 <= x2 < x && 0 <= y2 < 13 ==> !#[trigger] floating_at(b, x2, y2),
            decreases 6 - x,
        {
            let mut found_empty = false;
            let mut y: usize = 0;
            while y < 13
                invariant
                    b == self@,
                    x < 6,
                    y <= 13,
                    found_empty == exists|y0: int| 0 <= y0 < y && #[trigger] b[y0 * 6 + x] == Cell::Empty,
                    forall|x2: int, y2: int|
                        0 <= x2 < x && 0 <= y2 < 13 ==> !#[trigger] floating_at(b, x2, y2),
                    forall|y2: int| 0 <= y2 < y ==> !#[trigger] floating_at(b, x as int, y2),
                decreases 13 - y,
            {
                if self.cells[y * 6 + x] == Cell::Empty {
                    found_empty = true;
                } else if found_empty {
                    proof {
                        assert(floating_at(b, x as int, y as int));
                        assert forall|x2: int, y2: int|
                            0 <= x2 < 6 && 0 <= y2 < 13 && #[trigger] scan_before(
                                x2,
                                y2,
                                x as int,
                                y as int,
                            ) implies !floating_at(b, x2, y2) by {}
                        let (cx, cy) = choose|cx: int, cy: int|
                            0 <= cx < 6 && 0 <= cy < 13 && #[trigger] floating_at(b, cx, cy) && forall|
                                x2: int,
                                y2: int,
                            |
                                0 <= x2 < 6 && 0 <= y2 < 13 && #[trigger] scan_before(x2, y2, cx, cy)
                                    ==> !floating_at(b, x2, y2);
                        if scan_before(cx, cy, x as int, y as int) {
                        } else if scan_before(x as int, y as int, cx, cy) {
                        } else {
                        }
                    }
                    return Err(ParseBoardError::FloatingCell { row: 13 - y, column: x + 1 });
                }
                y += 1;
            }
            x += 1;
        }
        Ok(())
    }
}


/// The field whose row `y` (floor first), column `x` is `cells[y][x]`.
pub open spec fn field_of_cells(cells: Seq<[Cell; 6]>) -> Seq<Cell> {
    Seq::new(78, |p: int| cells[p / 6][p % 6])
}

impl Board {
    /// Builds a field from floor-first rows and checks that nothing floats.
    pub fn from_cells(cells: [[Cell; 6]; 13]) -> (r: Result<Board, ParseBoardError>)
        ensures
            match gravity_check(field_of_cells(cells@)) {
                Ok(()) => r matches Ok(b) && b@ == field_of_cells(cells@),
                Err(e) => r == Err::<Board, ParseBoardError>(e),
            },
    {
        let mut board = Board::empty();
        let mut y: usize = 0;
        while y < 13
            invariant
                y <= 13,
                board@.len() == 78,
                forall|p: int| 0 <= p < 78 && p / 6 < y ==> board@[p] == field_of_cells(cells@)[p],
            decreases 13 - y,
        {
            let row = cells[y];
            let mut x: usize = 0;
            while x < 6
                invariant
                    y < 13,
                    x <= 6,
                    row == cells@[y as int],
                    board@.len() == 78,
                    forall|p: int|
                        0 <= p < 78 && (p / 6 < y || (p / 6 == y && p % 6 < x)) ==> board@[p]
                            == field_of_cells(cells@)[p],
                decreases 6 - x,
            {
                board.set(x, y, row[x]);
                x += 1;
            }
            y += 1;
        }
        assert(board@ =~= field_of_cells(cells@));
        match board.validate_gravity() {
            Ok(()) => Ok(board),
            Err(e) => Err(e),
        }
    }

    /// Top-to-bottom rows.
    pub fn rows(&self) -> (r: [[Cell; 6]; 13])
        ensures
            forall|top: int, x: int|
                0 <= top < 13 && 0 <= x < 6 ==> r[top][x] == self@[(12 - top) * 6 + x],
    {
        let mut result = [[Cell::Empty; 6]; 13];
        let mut top: usize = 0;
        while top < 13
            invariant
                top <= 13,
                forall|t: int, x: int|
                    0 <= t < top && 0 <= x < 6 ==> result[t][x] == self@[(12 - t) * 6 + x],
            decreases 13 - top,
        {
            let mut row = [Cell::Empty; 6];
            let mut x: usize = 0;
            while x < 6
                invariant
                    top < 13,
                    x <= 6,
                    forall|x2: int| 0 <= x2 < x ==> row[x2] == self@[(12 - top) * 6 + x2],
                decreases 6 - x,
            {
                row[x] = self.get(x, 12 - top);
                x += 1;
            }
            result[top] = row;
            top += 1;
        }
        result
    }
}


/// Dense per-cell supervision of a chain reaction, indexed by position
/// `y * 6 + x` of the starting field.
#[derive(Debug, Clone, PartialEq, Eq)]
pub struct ChainLabels {
    pub vanish_step: [u8; 78],
    pub fall_distance: [u8; 78],
    pub component_size: [u8; 78],
    pub chains: u8,
}

/// What happens to the puyo at position `p` from chain number `chain` on:
/// the chain number in which it vanishes (zero if it survives), and how
/// many rows it falls before that.
pub open spec fn track(b: Seq<Cell>, chain: int, p: int) -> (int, int)
    decreases 256 - chain,
{
    if chain < 1 || chain > 255 {
        (0, 0)
    } else {
        match step_outcome(b, chain as u8) {
            None => (0, 0),
            Some(_) => {
                let e = erased_cells(b);
                if e[p] {
                    (chain, 0)
                } else {
                    let d = marked_below(e, p) as int;
                    let rest = track(after_step(b), chain + 1, p - 6 * d);
                    (rest.0, rest.1 + d)
                }
            },
        }
    }
}

/// Occupied cells below row `y` of column `x`.
pub open spec fn occupied_below(b: Seq<Cell>, x: int, y: int) -> nat {
    grid::count_true(Seq::new(y as nat, |t: int| b[t * 6 + x] != Cell::Empty))
}

/// The row of the puyo at `o` counted among the puyos of its column, bottom
/// up: where it would stand with its column closed up. On a settled field
/// this is its own row.
pub open spec fn compact_row(b: Seq<Cell>, o: int) -> int {
    occupied_below(b, o % 6, o / 6) as int
}

/// The position of the puyo at `o` counted among the puyos of its column.
pub open spec fn compact_pos(b: Seq<Cell>, o: int) -> int {
    compact_row(b, o) * 6 + o % 6
}

/// What `Board::chain_labels` gives for field `b`: the chain count, the
/// group sizes, zero labels for empty cells, and for each puyo the chain in
/// which it vanishes and how far it falls through the compactions, the puyo
/// being followed from its place among the puyos of its column (on a
/// settled field, its own cell).
pub open spec fn labels_describe(b: Seq<Cell>, l: ChainLabels) -> bool {
    &&& l.chains == chain_run(b, 1).len()
    &&& l.component_size@ == component_labels(b)
    &&& forall|p: int|
        0 <= p < 78 && b[p] == Cell::Empty ==> l.vanish_step@[p] == 0 && l.fall_distance@[p] == 0
    &&& forall|p: int|
        0 <= p < 78 && b[p] != Cell::Empty ==> #[trigger] l.vanish_step@[p] == track(
            b,
            1,
            compact_pos(b, p),
        ).0 && l.fall_distance@[p] == track(b, 1, compact_pos(b, p)).1
}

proof fn lemma_occupied_step(b: Seq<Cell>, x: int, y: int)
    requires
        0 <= x < 6,
        0 <= y,
    ensures
        occupied_below(b, x, y + 1) == occupied_below(b, x, y) + if b[y * 6 + x] != Cell::Empty {
            1nat
        } else {
            0nat
        },
        occupied_below(b, x, y) <= y,
        compact_row(b, y * 6 + x) == occupied_below(b, x, y),
{
    let s = Seq::new((y + 1) as nat, |t: int| b[t * 6 + x] != Cell::Empty);
    assert(s.drop_last() =~= Seq::new(y as nat, |t: int| b[t * 6 + x] != Cell::Empty));
    grid::lemma_count_true_bound(Seq::new(y as nat, |t: int| b[t * 6 + x] != Cell::Empty));
    assert((y * 6 + x) % 6 == x && (y * 6 + x) / 6 == y);
}

/// On a settled field every puyo already stands at its place among the
/// puyos of its column.
pub proof fn lemma_settled_compact(b: Seq<Cell>, p: int)
    requires
        b.len() == 78,
        gravity_holds(b),
        0 <= p < 78,
        b[p] != Cell::Empty,
    ensures
        compact_pos(b, p) == p,
{
    let x = p % 6;
    let y = p / 6;
    lemma_gravity_by_columns(b);
    assert(settled_seq(column_of(b, x)));
    let s = Seq::new(y as nat, |t: int| b[t * 6 + x] != Cell::Empty);
    assert forall|t: int| 0 <= t < y implies s[t] by {
        assert(column_of(b, x)[y] != Cell::Empty);
        assert(column_of(b, x)[y] == b[p]);
        assert(column_of(b, x)[t] == b[t * 6 + x]);
    }
    grid::lemma_count_true_all_true(s);
}

/// Erased cells below row `s` of column `x`.
spec fn below(e: Seq<bool>, x: int, s: int) -> nat {
    grid::count_true(Seq::new(s as nat, |y: int| e[y * 6 + x]))
}

proof fn lemma_below_step(e: Seq<bool>, x: int, s: int)
    requires
        0 <= x < 6,
        0 <= s,
    ensures
        below(e, x, s + 1) == below(e, x, s) + if e[s * 6 + x] {
            1nat
        } else {
            0nat
        },
        below(e, x, s) <= s,
        marked_below(e, s * 6 + x) == below(e, x, s),
{
    let f = Seq::new((s + 1) as nat, |y: int| e[y * 6 + x]);
    assert(f.drop_last() =~= Seq::new(s as nat, |y: int| e[y * 6 + x]));
    grid::lemma_count_true_bound(Seq::new(s as nat, |y: int| e[y * 6 + x]));
    assert((s * 6 + x) / 6 == s);
    assert((s * 6 + x) % 6 == x);
    assert(Seq::new(((s * 6 + x) / 6) as nat, |y: int| e[y * 6 + (s * 6 + x) % 6]) =~= Seq::new(
        s as nat,
        |y: int| e[y * 6 + x],
    ));
}

/// The puyo that started at `o` is tracked at compacted row `s` of column
/// `x`, still alive, and has fallen no further than its row allows.
spec fn tracked_ok(b0: Seq<Cell>, o: int, s: int, vanish: Seq<u8>, fall: Seq<u8>, x: int) -> bool {
    &&& 0 <= o < 78
    &&& o % 6 == x
    &&& b0[o] != Cell::Empty
    &&& vanish[o] == 0
    &&& s + fall[o] <= compact_row(b0, o)
    &&& compact_row(b0, o) <= o / 6
}

/// Column `x` tracks `len` distinct starting puyos, bottom up.
spec fn column_tracked(
    b0: Seq<Cell>,
    origins: Seq<usize>,
    len: int,
    vanish: Seq<u8>,
    fall: Seq<u8>,
    x: int,
) -> bool {
    &&& 0 <= len <= 13
    &&& forall|s: int|
        0 <= s < len ==> #[trigger] tracked_ok(b0, origins[s * 6 + x] as int, s, vanish, fall, x)
    &&& forall|s1: int, s2: int|
        0 <= s1 < s2 < len ==> #[trigger] origins[s1 * 6 + x] != #[trigger] origins[s2 * 6 + x]
}

/// The alive puyo `o` of column `x` is tracked at row
/// `compact_row(b0, o) - fall[o]` of its column at chain `c`, and its whole
/// history is that fall followed by what happens to it from there.
spec fn follows(
    b0: Seq<Cell>,
    origins: Seq<usize>,
    len: int,
    fall: Seq<u8>,
    b: Seq<Cell>,
    c: int,
    x: int,
    o: int,
) -> bool {
    let s = compact_row(b0, o) - fall[o];
    &&& 0 <= s < len
    &&& origins[s * 6 + x] == o
    &&& track(b0, 1, compact_pos(b0, o)) == (track(b, c, s * 6 + x).0, fall[o] + track(b, c, s * 6
        + x).1)
}

/// Every tracked row holds its puyo exactly where its fall so far put it,
/// and every alive puyo of column `x` is tracked.
spec fn column_follows(
    b0: Seq<Cell>,
    origins: Seq<usize>,
    len: int,
    vanish: Seq<u8>,
    fall: Seq<u8>,
    b: Seq<Cell>,
    c: int,
    x: int,
) -> bool {
    &&& forall|s: int|
        0 <= s < len ==> compact_row(b0, #[trigger] origins[s * 6 + x] as int) == s + fall[origins[s * 6
            + x] as int]
    &&& forall|o: int|
        0 <= o < 78 && o % 6 == x && b0[o] != Cell::Empty && #[trigger] vanish[o] == 0 ==> follows(
            b0,
            origins,
            len,
            fall,
            b,
            c,
            x,
            o,
        )
}

spec fn label_ok(b0: Seq<Cell>, vanish: Seq<u8>, fall: Seq<u8>, o: int) -> bool {
    &&& b0[o] == Cell::Empty ==> vanish[o] == 0 && fall[o] == 0
    &&& fall[o] <= o / 6
    &&& b0[o] != Cell::Empty && vanish[o] != 0 ==> track(b0, 1, compact_pos(b0, o)) == (
        vanish[o] as int,
        fall[o] as int,
    )
}

spec fn labels_ok(b0: Seq<Cell>, vanish: Seq<u8>, fall: Seq<u8>) -> bool {
    forall|o: int| 0 <= o < 78 ==> #[trigger] label_ok(b0, vanish, fall, o)
}

/// Where the puyo tracked at row `t` of a column stands while the column is
/// relabelled up to row `next` with `dest` puyos kept so far.
spec fn row_progress(
    o0: Seq<usize>,
    e: Seq<bool>,
    x: int,
    t: int,
    next: int,
    dest: int,
    origins: Seq<usize>,
    vanish: Seq<u8>,
    fall: Seq<u8>,
    v0: Seq<u8>,
    f0: Seq<u8>,
    chain: u8,
) -> bool {
    let o = o0[t * 6 + x] as int;
    &&& t < next && e[t * 6 + x] ==> vanish[o] == chain && fall[o] == f0[o]
    &&& t < next && !e[t * 6 + x] ==> {
        &&& vanish[o] == 0
        &&& fall[o] == f0[o] + below(e, x, t)
        &&& t - below(e, x, t) < dest
        &&& origins[(t - below(e, x, t)) * 6 + x] == o
    }
    &&& t >= next ==> vanish[o] == v0[o] && fall[o] == f0[o]
}

/// Moves the tracked puyos of column `x` through one step: erased ones get
/// their chain number, kept ones slide down over the erased cells below them.
#[verifier::rlimit(60)]
fn relabel_column(
    origins: &mut [usize; 78],
    lengths: &mut [usize; 6],
    vanish: &mut [u8; 78],
    fall: &mut [u8; 78],
    erased: &[bool; 78],
    x: usize,
    chain: u8,
    Ghost(b0): Ghost<Seq<Cell>>,
    Ghost(b): Ghost<Seq<Cell>>,
)
    requires
        x < 6,
        1 <= chain <= 255,
        b0.len() == 78,
        b.len() == 78,
        erased@ == erased_cells(b),
        step_outcome(b, chain) is Some,
        forall|x2: int| 0 <= x2 < 6 ==> old(lengths)@[x2] <= 13,
        column_tracked(b0, old(origins)@, old(lengths)@[x as int] as int, old(vanish)@, old(fall)@, x as int),
        labels_ok(b0, old(vanish)@, old(fall)@),
        column_follows(
            b0,
            old(origins)@,
            old(lengths)@[x as int] as int,
            old(vanish)@,
            old(fall)@,
            b,
            chain as int,
            x as int,
        ),
    ensures
        forall|x2: int| 0 <= x2 < 6 ==> final(lengths)@[x2] <= 13,
        column_tracked(
            b0,
            final(origins)@,
            final(lengths)@[x as int] as int,
            final(vanish)@,
            final(fall)@,
            x as int,
        ),
        labels_ok(b0, final(vanish)@, final(fall)@),
        column_follows(
            b0,
            final(origins)@,
            final(lengths)@[x as int] as int,
            final(vanish)@,
            final(fall)@,
            after_step(b),
            chain + 1,
            x as int,
        ),
        forall|q: int| 0 <= q < 78 && q % 6 != x ==> final(origins)@[q] == old(origins)@[q],
        forall|x2: int| 0 <= x2 < 6 && x2 != x ==> final(lengths)@[x2] == old(lengths)@[x2],
        forall|o: int|
            0 <= o < 78 && o % 6 != x ==> final(vanish)@[o] == old(vanish)@[o] && final(fall)@[o]
                == old(fall)@[o],
{
    let ghost o0 = origins@;
    let ghost v0 = vanish@;
    let ghost f0 = fall@;
    let ghost e = erased@;
    let ghost xi = x as int;
    let old_length = lengths[x];
    let ghost len0 = old_length as int;
    let ghost mut src: Seq<int> = Seq::empty();
    let mut destination: usize = 0;
    let mut source: usize = 0;
    while source < old_length
        invariant
            x < 6,
            xi == x,
            1 <= chain <= 255,
            b0.len() == 78,
            e == erased@,
            old_length == len0,
            len0 <= 13,
            destination <= source <= len0,
            destination == source - below(e, xi, source as int),
            src.len() == destination,
            column_tracked(b0, o0, len0, v0, f0, xi),
            labels_ok(b0, v0, f0),
            forall|x2: int| 0 <= x2 < 6 ==> lengths@[x2] <= 13,
            forall|x2: int| 0 <= x2 < 6 ==> lengths@[x2] == old(lengths)@[x2],
            forall|q: int| 0 <= q < 78 && q % 6 != x ==> origins@[q] == o0[q],
            forall|t: int| source <= t < len0 ==> origins@[t * 6 + x] == #[trigger] o0[t * 6 + x],
            forall|d: int|
                0 <= d < destination ==> {
                    let t = #[trigger] src[d];
                    &&& 0 <= t < source
                    &&& !e[t * 6 + xi]
                    &&& t - below(e, xi, t) == d
                    &&& origins@[d * 6 + x] == o0[t * 6 + x]
                },
            forall|d1: int, d2: int| 0 <= d1 < d2 < destination ==> #[trigger] src[d1] < #[trigger] src[d2],
            forall|t: int|
                0 <= t < len0 ==> #[trigger] row_progress(
                    o0,
                    e,
                    xi,
                    t,
                    source as int,
                    destination as int,
                    origins@,
                    vanish@,
                    fall@,
                    v0,
                    f0,
                    chain,
                ),
            forall|o: int|
                0 <= o < 78 && (o % 6 != x || forall|t: int|
                    0 <= t < len0 ==> #[trigger] o0[t * 6 + x] != o) ==> vanish@[o] == v0[o]
                    && fall@[o] == f0[o],
        decreases len0 - source,
    {
        let origin = origins[source * 6 + x];
        let ghost t0 = source as int;
        let ghost o_before = origins@;
        let ghost v_before = vanish@;
        let ghost f_before = fall@;
        proof {
            lemma_below_step(e, xi, t0);
            assert(tracked_ok(b0, o0[t0 * 6 + xi] as int, t0, v0, f0, xi));
            assert(origin == o0[t0 * 6 + x]);
            assert forall|t: int| 0 <= t < len0 && t != t0 implies #[trigger] o0[t * 6 + x] != origin by {
                if t < t0 {
                    assert(o0[t * 6 + xi] != o0[t0 * 6 + xi]);
                } else {
                    assert(o0[t0 * 6 + xi] != o0[t * 6 + xi]);
                }
            }
            assert(row_progress(
                o0,
                e,
                xi,
                t0,
                t0,
                destination as int,
                o_before,
                v_before,
                f_before,
                v0,
                f0,
                chain,
            ));
        }
        if erased[source * 6 + x] {
            vanish[origin] = chain;
            proof {
                let oo = o0[t0 * 6 + xi] as int;
                assert(oo == origin);
                assert(vanish@[oo] == chain);
                assert(fall@[oo] == f_before[oo]);
                assert(f_before[oo] == f0[oo]);
                assert(e[t0 * 6 + xi]);
                assert(row_progress(
                    o0,
                    e,
                    xi,
                    t0,
                    t0 + 1,
                    destination as int,
                    origins@,
                    vanish@,
                    fall@,
                    v0,
                    f0,
                    chain,
                ));
                assert forall|t: int| 0 <= t < len0 implies #[trigger] row_progress(
                    o0,
                    e,
                    xi,
                    t,
                    t0 + 1,
                    destination as int,
                    origins@,
                    vanish@,
                    fall@,
                    v0,
                    f0,
                    chain,
                ) by {
                    assert(tracked_ok(b0, o0[t * 6 + xi] as int, t, v0, f0, xi));
                    assert(row_progress(
                        o0,
                        e,
                        xi,
                        t,
                        t0,
                        destination as int,
                        o_before,
                        v_before,
                        f_before,
                        v0,
                        f0,
                        chain,
                    ));
                    if t != t0 {
                        assert(o0[t * 6 + x] != origin);
                        let o = o0[t * 6 + xi] as int;
                        assert(o != origin as int);
                        assert(vanish@[o] == v_before[o]);
                        assert(fall@[o] == f_before[o]);
                        if t < t0 {
                            if e[t * 6 + xi] {
                                assert(v_before[o] == chain);
                            } else {
                                assert(v_before[o] == 0);
                            }
                        } else {
                            assert(v_before[o] == v0[o]);
                            assert(f_before[o] == f0[o]);
                        }
                    }
                }
            }
        } else {
            let d = (source - destination) as u8;
            fall[origin] = fall[origin] + d;
            origins[destination * 6 + x] = origin;
            proof {
                src = src.push(t0);
                assert forall|t: int| 0 <= t < len0 implies #[trigger] row_progress(
                    o0,
                    e,
                    xi,
                    t,
                    t0 + 1,
                    destination + 1,
                    origins@,
                    vanish@,
                    fall@,
                    v0,
                    f0,
                    chain,
                ) by {
                    assert(tracked_ok(b0, o0[t * 6 + xi] as int, t, v0, f0, xi));
                    assert(row_progress(
                        o0,
                        e,
                        xi,
                        t,
                        t0,
                        destination as int,
                        o_before,
                        v_before,
                        f_before,
                        v0,
                        f0,
                        chain,
                    ));
                    let o = o0[t * 6 + xi] as int;
                    lemma_below_step(e, xi, t);
                    if t != t0 {
                        assert(o0[t * 6 + x] != origin);
                        assert(o != origin as int);
                        assert(vanish@[o] == v_before[o]);
                        assert(fall@[o] == f_before[o]);
                        if t < t0 && !e[t * 6 + xi] {
                            assert((t - below(e, xi, t)) * 6 + x != destination * 6 + x);
                            assert(origins@[(t - below(e, xi, t)) * 6 + x] == o_before[(t - below(
                                e,
                                xi,
                                t,
                            )) * 6 + x]);
                        }
                    } else {
                        assert(o == origin as int);
                        assert(t - below(e, xi, t) == destination);
                        assert(fall@[o] == f0[o] + below(e, xi, t));
                        assert(origins@[(t - below(e, xi, t)) * 6 + x] == o);
                    }
                }
            }
            destination += 1;
        }
        source += 1;
    }
    proof {
        lemma_below_step(e, xi, len0);
    }
    lengths[x] = destination;
    let ghost len1 = destination as int;
    proof {
        let o1 = origins@;
        let v1 = vanish@;
        let f1 = fall@;
        assert(source == len0);
        // where each tracked puyo of the column went
        assert forall|t: int| 0 <= t < len0 implies {
            let o = #[trigger] o0[t * 6 + xi] as int;
            &&& 0 <= o < 78
            &&& o % 6 == xi
            &&& b0[o] != Cell::Empty
            &&& v0[o] == 0
            &&& t + f0[o] <= compact_row(b0, o)
            &&& compact_row(b0, o) <= o / 6
            &&& below(e, xi, t) <= t
            &&& e[t * 6 + xi] ==> v1[o] == chain && f1[o] == f0[o]
            &&& !e[t * 6 + xi] ==> v1[o] == 0 && f1[o] == f0[o] + below(e, xi, t) && t - below(
                e,
                xi,
                t,
            ) < len1 && o1[(t - below(e, xi, t)) * 6 + xi] == o
        } by {
            assert(tracked_ok(b0, o0[t * 6 + xi] as int, t, v0, f0, xi));
            assert(row_progress(o0, e, xi, t, len0, len1, o1, v1, f1, v0, f0, chain));
            lemma_below_step(e, xi, t);
        }
        // the kept puyos, in their new rows
        assert forall|d: int| 0 <= d < len1 implies #[trigger] tracked_ok(
            b0,
            o1[d * 6 + xi] as int,
            d,
            v1,
            f1,
            xi,
        ) by {
            let t = src[d];
            assert(o1[d * 6 + xi] == o0[t * 6 + xi]);
            let o = o0[t * 6 + xi] as int;
            assert(0 <= o < 78 && t + f0[o] <= compact_row(b0, o));
        }
        assert forall|d1: int, d2: int| 0 <= d1 < d2 < len1 implies #[trigger] o1[d1 * 6 + xi]
            != #[trigger] o1[d2 * 6 + xi] by {
            let t1 = src[d1];
            let t2 = src[d2];
            assert(t1 < t2);
            assert(o1[d1 * 6 + xi] == o0[t1 * 6 + xi]);
            assert(o1[d2 * 6 + xi] == o0[t2 * 6 + xi]);
            assert(o0[t1 * 6 + xi] != o0[t2 * 6 + xi]);
        }
        assert(column_tracked(b0, o1, len1, v1, f1, xi));
        // every label stays consistent
        assert forall|o: int| 0 <= o < 78 implies #[trigger] label_ok(b0, v1, f1, o) by {
            assert(label_ok(b0, v0, f0, o));
            if o % 6 == x && exists|t: int| 0 <= t < len0 && #[trigger] o0[t * 6 + x] == o {
                let t = choose|t: int| 0 <= t < len0 && #[trigger] o0[t * 6 + x] == o;
                assert(o0[t * 6 + xi] == o);
                if e[t * 6 + xi] {
                    assert(column_follows(b0, o0, len0, v0, f0, b, chain as int, xi));
                    assert(compact_row(b0, o0[t * 6 + xi] as int) == t + f0[o0[t * 6 + xi] as int]);
                    assert(follows(b0, o0, len0, f0, b, chain as int, xi, o));
                    assert(compact_row(b0, o) - f0[o] == t);
                }
            }
        }
        {
            assert(column_follows(b0, o0, len0, v0, f0, b, chain as int, xi));
            assert forall|d: int| 0 <= d < len1 implies compact_row(b0, #[trigger] o1[d * 6 + xi] as int)
                == d + f1[o1[d * 6 + xi] as int] by {
                let t = src[d];
                assert(o1[d * 6 + xi] == o0[t * 6 + xi]);
                assert(compact_row(b0, o0[t * 6 + xi] as int) == t + f0[o0[t * 6 + xi] as int]);
            }
            assert forall|o: int|
                0 <= o < 78 && o % 6 == xi && b0[o] != Cell::Empty && #[trigger] v1[o] == 0 implies follows(
                b0,
                o1,
                len1,
                f1,
                after_step(b),
                chain + 1,
                xi,
                o,
            ) by {
                if o % 6 == x && exists|t: int| 0 <= t < len0 && #[trigger] o0[t * 6 + x] == o {
                    let t = choose|t: int| 0 <= t < len0 && #[trigger] o0[t * 6 + x] == o;
                    assert(o0[t * 6 + xi] == o);
                    assert(!e[t * 6 + xi]);
                    assert(v0[o] == 0);
                    assert(compact_row(b0, o0[t * 6 + xi] as int) == t + f0[o0[t * 6 + xi] as int]);
                    assert(follows(b0, o0, len0, f0, b, chain as int, xi, o));
                    assert(compact_row(b0, o) - f0[o] == t);
                    let q = t * 6 + xi;
                    let m = below(e, xi, t) as int;
                    lemma_below_step(e, xi, t);
                    assert(marked_below(e, q) == m);
                    assert(q - 6 * m == (t - m) * 6 + xi);
                    assert(compact_row(b0, o) - f1[o] == t - m);
                } else {
                    assert(v1[o] == v0[o]);
                    assert(f1[o] == f0[o]);
                    assert(follows(b0, o0, len0, f0, b, chain as int, xi, o));
                    let t = compact_row(b0, o) - f0[o];
                    assert(o0[t * 6 + x] == o);
                }
            }
        }
    }
}

proof fn lemma_kept_count(cells: Seq<Cell>, keep: Seq<bool>)
    requires
        cells.len() == keep.len(),
    ensures
        kept_cells(cells, keep).len() == grid::count_true(keep),
    decreases cells.len(),
{
    if cells.len() > 0 {
        lemma_kept_count(cells.drop_last(), keep.drop_last());
    }
}

/// A kept cell lands at the index given by the kept cells before it.
proof fn lemma_kept_index(cells: Seq<Cell>, keep: Seq<bool>, y: int)
    requires
        cells.len() == keep.len(),
        0 <= y < cells.len(),
        keep[y],
    ensures
        grid::count_true(keep.take(y)) < kept_cells(cells, keep).len(),
        kept_cells(cells, keep)[grid::count_true(keep.take(y)) as int] == cells[y],
    decreases cells.len(),
{
    let front = cells.drop_last();
    let kfront = keep.drop_last();
    lemma_kept_count(front, kfront);
    if y == cells.len() - 1 {
        assert(keep.take(y) =~= kfront);
    } else {
        lemma_kept_index(front, kfront, y);
        assert(keep.take(y) =~= kfront.take(y));
    }
}

proof fn lemma_count_split(e: Seq<bool>, x: int, y: int)
    requires
        0 <= y,
    ensures
        grid::count_true(Seq::new(y as nat, |i: int| !e[i * 6 + x])) + grid::count_true(
            Seq::new(y as nat, |i: int| e[i * 6 + x]),
        ) == y,
    decreases y,
{
    if y > 0 {
        lemma_count_split(e, x, y - 1);
        assert(Seq::new(y as nat, |i: int| !e[i * 6 + x]).drop_last() =~= Seq::new(
            (y - 1) as nat,
            |i: int| !e[i * 6 + x],
        ));
        assert(Seq::new(y as nat, |i: int| e[i * 6 + x]).drop_last() =~= Seq::new(
            (y - 1) as nat,
            |i: int| e[i * 6 + x],
        ));
    }
}

/// A puyo that is not erased slides down by the erased cells below it and
/// keeps its colour.
proof fn lemma_survivor_slides(b: Seq<Cell>, q: int)
    requires
        b.len() == 78,
        0 <= q < 78,
        !erased_cells(b)[q],
    ensures
        0 <= q - 6 * marked_below(erased_cells(b), q),
        (q - 6 * marked_below(erased_cells(b), q)) % 6 == q % 6,
        after_step(b)[q - 6 * marked_below(erased_cells(b), q)] == b[q],
{
    let e = erased_cells(b);
    let x = q % 6;
    let y = q / 6;
    assert(q == y * 6 + x);
    lemma_below_step(e, x, y);
    let m = below(e, x, y) as int;
    let keep = kept_of(e, x);
    let col = column_of(b, x);
    assert(keep.take(y) =~= Seq::new(y as nat, |i: int| !e[i * 6 + x]));
    lemma_count_split(e, x, y);
    assert(keep[y]);
    lemma_kept_index(col, keep, y);
    lemma_kept_len(col, keep);
    let k = kept_cells(col, keep);
    assert(grid::count_true(keep.take(y)) == y - m);
    let p2 = (y - m) * 6 + x;
    assert(p2 == q - 6 * m);
    assert(p2 % 6 == x);
    assert(p2 / 6 == y - m);
    assert(settled_column(col, keep)[y - m] == k[y - m]);
}

/// Following a surviving puyo through the rest of a reaction.
proof fn lemma_track_identity(b: Seq<Cell>, c: int, q: int)
    requires
        b.len() == 78,
        0 <= q < 78,
        track(b, c, q).0 == 0,
    ensures
        0 <= q - 6 * track(b, c, q).1,
        chain_final(b, c)[q - 6 * track(b, c, q).1] == b[q],
    decreases 256 - c,
{
    if 1 <= c <= 255 && step_outcome(b, c as u8) is Some {
        let e = erased_cells(b);
        assert(!e[q]);
        lemma_survivor_slides(b, q);
        let d = marked_below(e, q) as int;
        let q2 = q - 6 * d;
        assert(q2 < 78);
        lemma_track_identity(after_step(b), c + 1, q2);
    }
}

/// Labels follow each puyo: on a settled field, a puyo that never vanishes
/// ends `fall_distance` rows below where it started, unchanged.
pub proof fn surviving_puyos_keep_their_cells(b: Board, l: ChainLabels, p: int)
    requires
        labels_describe(b@, l),
        gravity_holds(b@),
        0 <= p < 78,
        b@[p] != Cell::Empty,
        l.vanish_step@[p] == 0,
    ensures
        0 <= p - 6 * l.fall_distance@[p],
        chain_final(b@, 1)[p - 6 * l.fall_distance@[p]] == b@[p],
{
    lemma_settled_compact(b@, p);
    assert(l.vanish_step@[p] == track(b@, 1, p).0);
    lemma_track_identity(b@, 1, p);
}

/// How many of the indices `0..n` satisfy `g`.
pub open spec fn count_upto(g: spec_fn(int) -> bool, n: int) -> nat {
    grid::count_true(Seq::new(n as nat, g))
}

/// Column `x` of a field predicate, indexed by row.
pub open spec fn column_fn(f: spec_fn(int) -> bool, x: int) -> spec_fn(int) -> bool {
    |y: int| f(y * 6 + x)
}

/// Cells among the lowest `n` rows of column `x` where `f` holds.
pub open spec fn column_count(f: spec_fn(int) -> bool, x: int, n: int) -> nat {
    count_upto(column_fn(f, x), n)
}

/// Cells of the whole field where `f` holds, counted column by column.
pub open spec fn field_count(f: spec_fn(int) -> bool) -> nat {
    column_count(f, 0, 13) + column_count(f, 1, 13) + column_count(f, 2, 13) + column_count(f, 3, 13)
        + column_count(f, 4, 13) + column_count(f, 5, 13)
}

/// A mask read as a predicate on indices.
pub open spec fn mask_fn(e: Seq<bool>) -> spec_fn(int) -> bool {
    |p: int| e[p]
}

/// The kept entries of a column, each asked of `q` by its index among the
/// kept ones.
pub open spec fn kept_index_fn(keep: Seq<bool>, q: spec_fn(int) -> bool) -> spec_fn(int) -> bool {
    |y: int| keep[y] && q(grid::count_true(keep.take(y)) as int)
}

proof fn lemma_count_push(g: spec_fn(int) -> bool, n: int)
    requires
        0 <= n,
    ensures
        count_upto(g, n + 1) == count_upto(g, n) + if g(n) {
            1nat
        } else {
            0nat
        },
{
    assert(Seq::new((n + 1) as nat, g).drop_last() =~= Seq::new(n as nat, g));
}

proof fn lemma_column_push(f: spec_fn(int) -> bool, x: int, r: int)
    requires
        1 <= r,
    ensures
        column_count(f, x, r) == column_count(f, x, r - 1) + if f((r - 1) * 6 + x) {
            1nat
        } else {
            0nat
        },
{
    lemma_count_push(column_fn(f, x), r - 1);
}

/// Counting row by row and column by column agree.
proof fn lemma_count_by_columns(f: spec_fn(int) -> bool, r: int)
    requires
        0 <= r <= 13,
    ensures
        count_upto(f, 6 * r) == column_count(f, 0, r) + column_count(f, 1, r) + column_count(f, 2, r)
            + column_count(f, 3, r) + column_count(f, 4, r) + column_count(f, 5, r),
    decreases r,
{
    if r > 0 {
        lemma_count_by_columns(f, r - 1);
        let b = 6 * (r - 1);
        lemma_count_push(f, b);
        lemma_count_push(f, b + 1);
        lemma_count_push(f, b + 2);
        lemma_count_push(f, b + 3);
        lemma_count_push(f, b + 4);
        lemma_count_push(f, b + 5);
        lemma_column_push(f, 0, r);
        lemma_column_push(f, 1, r);
        lemma_column_push(f, 2, r);
        lemma_column_push(f, 3, r);
        lemma_column_push(f, 4, r);
        lemma_column_push(f, 5, r);
        assert(b + 6 == 6 * r);
    }
}

/// Counting the kept entries of a column by their index among the kept
/// ones.
proof fn lemma_reindex_kept(keep: Seq<bool>, q: spec_fn(int) -> bool, n: int)
    requires
        0 <= n <= keep.len(),
    ensures
        count_upto(kept_index_fn(keep, q), n) == count_upto(q, grid::count_true(keep.take(n)) as int),
    decreases n,
{
    if n > 0 {
        lemma_reindex_kept(keep, q, n - 1);
        lemma_count_push(kept_index_fn(keep, q), n - 1);
        grid::lemma_count_true_take(keep, n - 1);
        if keep[n - 1] {
            lemma_count_push(q, grid::count_true(keep.take(n - 1)) as int);
        }
    }
}

/// Entries that are all false add nothing to a count.
proof fn lemma_count_false_tail(g: spec_fn(int) -> bool, k: int, n: int)
    requires
        0 <= k <= n,
        forall|i: int| k <= i < n ==> !#[trigger] g(i),
    ensures
        count_upto(g, n) == count_upto(g, k),
    decreases n - k,
{
    if n > k {
        lemma_count_false_tail(g, k, n - 1);
        lemma_count_push(g, n - 1);
    }
}

proof fn lemma_count_disjoint(
    a: spec_fn(int) -> bool,
    b: spec_fn(int) -> bool,
    ab: spec_fn(int) -> bool,
    n: int,
)
    requires
        0 <= n,
        forall|i: int| 0 <= i < n ==> #[trigger] ab(i) == (a(i) || b(i)) && !(a(i) && b(i)),
    ensures
        count_upto(ab, n) == count_upto(a, n) + count_upto(b, n),
    decreases n,
{
    if n > 0 {
        lemma_count_disjoint(a, b, ab, n - 1);
        lemma_count_push(ab, n - 1);
        lemma_count_push(a, n - 1);
        lemma_count_push(b, n - 1);
        assert(ab(n - 1) == (a(n - 1) || b(n - 1)));
    }
}

/// A puyo vanishes, if at all, no earlier than the chain it is followed
/// from.
proof fn lemma_track_range(b: Seq<Cell>, c: int, p: int)
    ensures
        track(b, c, p).0 == 0 || (c <= track(b, c, p).0 <= 255),
    decreases 256 - c,
{
    if 1 <= c <= 255 && step_outcome(b, c as u8) is Some {
        let e = erased_cells(b);
        if !e[p] {
            let d = marked_below(e, p) as int;
            lemma_track_range(after_step(b), c + 1, p - 6 * d);
        }
    }
}

/// The puyos that vanish in chain `k` and are followed from chain `c`.
pub open spec fn vanishing_in(b: Seq<Cell>, c: int, k: int) -> spec_fn(int) -> bool {
    |p: int| b[p] != Cell::Empty && track(b, c, p).0 == k
}

/// Following the puyos of a column through one step keeps their count.
proof fn lemma_column_shift(b: Seq<Cell>, c: int, k: int, x: int)
    requires
        b.len() == 78,
        1 <= c < k,
        c <= 255,
        step_outcome(b, c as u8) is Some,
        0 <= x < 6,
    ensures
        column_count(vanishing_in(b, c, k), x, 13) == column_count(
            vanishing_in(after_step(b), c + 1, k),
            x,
            13,
        ),
{
    let e = erased_cells(b);
    let b2 = after_step(b);
    let keep = kept_of(e, x);
    let col = column_of(b, x);
    let q = column_fn(vanishing_in(b2, c + 1, k), x);
    let left = Seq::new(13nat, column_fn(vanishing_in(b, c, k), x));
    let mid = Seq::new(13nat, kept_index_fn(keep, q));
    assert(left =~= mid) by {
        assert forall|y: int| 0 <= y < 13 implies #[trigger] left[y] == mid[y] by {
            let p = y * 6 + x;
            assert(p % 6 == x && p / 6 == y);
            lemma_below_step(e, x, y);
            lemma_count_split(e, x, y);
            assert(keep.take(y) =~= Seq::new(y as nat, |i: int| !e[i * 6 + x]));
            if !e[p] {
                lemma_survivor_slides(b, p);
                let m = marked_below(e, p) as int;
                assert(p - 6 * m == (y - m) * 6 + x);
            }
        }
    }
    lemma_reindex_kept(keep, q, 13);
    lemma_kept_count(col, keep);
    lemma_kept_len(col, keep);
    let kk = grid::count_true(keep.take(13)) as int;
    assert(keep.take(13) =~= keep);
    assert forall|i: int| kk <= i < 13 implies !#[trigger] q(i) by {
        let p2 = i * 6 + x;
        assert(p2 % 6 == x && p2 / 6 == i);
        assert(b2[p2] == settled_column(col, keep)[i]);
    }
    lemma_count_false_tail(q, kk, 13);
}

/// The puyos that vanish in the chain they are followed from are the
/// erased cells of that step.
proof fn lemma_column_base(b: Seq<Cell>, c: int, x: int)
    requires
        b.len() == 78,
        1 <= c <= 255,
        step_outcome(b, c as u8) is Some,
        0 <= x < 6,
    ensures
        column_count(vanishing_in(b, c, c), x, 13) == column_count(mask_fn(erased_cells(b)), x, 13),
{
    let e = erased_cells(b);
    let left = Seq::new(13nat, column_fn(vanishing_in(b, c, c), x));
    let right = Seq::new(13nat, column_fn(mask_fn(e), x));
    assert(left =~= right) by {
        assert forall|y: int| 0 <= y < 13 implies #[trigger] left[y] == right[y] by {
            let p = y * 6 + x;
            if !e[p] {
                let m = marked_below(e, p) as int;
                lemma_track_range(after_step(b), c + 1, p - 6 * m);
            }
        }
    }
}

proof fn lemma_erased_count(b: Seq<Cell>)
    requires
        b.len() == 78,
    ensures
        grid::count_true(erased_cells(b)) == grid::count_true(coloured_erased(b))
            + grid::count_true(garbage_erased(b)),
{
    let a = mask_fn(coloured_erased(b));
    let g = mask_fn(garbage_erased(b));
    let ab = mask_fn(erased_cells(b));
    lemma_count_disjoint(a, g, ab, 78);
    assert(erased_cells(b) =~= Seq::new(78nat, ab));
    assert(coloured_erased(b) =~= Seq::new(78nat, a));
    assert(garbage_erased(b) =~= Seq::new(78nat, g));
}

/// The puyos followed from chain `c` that vanish in chain `k` are as many
/// as the cells step `k` erases.
proof fn lemma_vanishing_count(b: Seq<Cell>, c: int, k: int)
    requires
        b.len() == 78,
        1 <= c <= k,
        k - c < chain_run(b, c).len(),
    ensures
        field_count(vanishing_in(b, c, k)) == chain_run(b, c)[k - c].colored_erased
            + chain_run(b, c)[k - c].garbage_erased,
    decreases k - c,
{
    let s = step_outcome(b, c as u8);
    assert(c <= 255 && s is Some);
    if k == c {
        lemma_column_base(b, c, 0);
        lemma_column_base(b, c, 1);
        lemma_column_base(b, c, 2);
        lemma_column_base(b, c, 3);
        lemma_column_base(b, c, 4);
        lemma_column_base(b, c, 5);
        let f = mask_fn(erased_cells(b));
        lemma_count_by_columns(f, 13);
        assert(Seq::new(78nat, f) =~= erased_cells(b));
        lemma_erased_count(b);
        grid::lemma_count_true_bound(coloured_erased(b));
        grid::lemma_count_true_bound(garbage_erased(b));
    } else {
        lemma_column_shift(b, c, k, 0);
        lemma_column_shift(b, c, k, 1);
        lemma_column_shift(b, c, k, 2);
        lemma_column_shift(b, c, k, 3);
        lemma_column_shift(b, c, k, 4);
        lemma_column_shift(b, c, k, 5);
        lemma_vanishing_count(after_step(b), c + 1, k);
        assert(chain_run(b, c)[k - c] == chain_run(after_step(b), c + 1)[k - c - 1]);
    }
}

/// The cells that carry chain label `k`.
pub open spec fn label_fn(l: ChainLabels, k: int) -> spec_fn(int) -> bool {
    |p: int| l.vanish_step@[p] == k
}

/// Labels are determined by the field they describe: two label sets that
/// both describe the same field are equal, so the labels a game step
/// reports are those `chain_labels` gives for the field the pair landed on.
pub proof fn labels_are_determined(b: Board, l1: ChainLabels, l2: ChainLabels)
    requires
        labels_describe(b@, l1),
        labels_describe(b@, l2),
    ensures
        l1 == l2,
{
    assert forall|p: int| 0 <= p < 78 implies l1.vanish_step@[p] == l2.vanish_step@[p]
        && l1.fall_distance@[p] == l2.fall_distance@[p] by {
        if b@[p] != Cell::Empty {
            assert(l1.vanish_step@[p] == track(b@, 1, compact_pos(b@, p)).0);
            assert(l2.vanish_step@[p] == track(b@, 1, compact_pos(b@, p)).0);
        }
    }
    assert(l1.vanish_step@ =~= l2.vanish_step@);
    assert(l1.fall_distance@ =~= l2.fall_distance@);
    assert(l1.component_size@ =~= l2.component_size@);
    vstd::array::axiom_array_ext_equal(l1.vanish_step, l2.vanish_step);
    vstd::array::axiom_array_ext_equal(l1.fall_distance, l2.fall_distance);
    vstd::array::axiom_array_ext_equal(l1.component_size, l2.component_size);
}

/// Labels count each step's erasures: on a settled field, the puyos
/// labelled with chain `k` are exactly as many as the cells that step `k`
/// erases, coloured and garbage together.
pub proof fn labels_count_each_step(b: Board, l: ChainLabels, k: int)
    requires
        labels_describe(b@, l),
        gravity_holds(b@),
        1 <= k <= chain_run(b@, 1).len(),
    ensures
        count_upto(label_fn(l, k), 78) == chain_run(b@, 1)[k - 1].colored_erased + chain_run(
            b@,
            1,
        )[k - 1].garbage_erased,
{
    let f = label_fn(l, k);
    lemma_vanishing_count(b@, 1, k);
    lemma_count_by_columns(f, 13);
    assert forall|x: int| 0 <= x < 6 implies #[trigger] column_count(f, x, 13) == column_count(
        vanishing_in(b@, 1, k),
        x,
        13,
    ) by {
        let left = Seq::new(13nat, column_fn(f, x));
        let right = Seq::new(13nat, column_fn(vanishing_in(b@, 1, k), x));
        assert(left =~= right) by {
            assert forall|y: int| 0 <= y < 13 implies #[trigger] left[y] == right[y] by {
                let p = y * 6 + x;
                if b@[p] != Cell::Empty {
                    lemma_settled_compact(b@, p);
                    assert(l.vanish_step@[p] == track(b@, 1, p).0);
                }
            }
        }
    }
}

impl Board {
    /// Per-cell labels of the chain reaction: the chain in which each
    /// starting puyo vanishes (zero if it survives or the cell is empty),
    /// how far it falls through every compaction, and the size of its
    /// same-colour group on the starting field.
    #[verifier::rlimit(40)]
    pub fn chain_labels(&self) -> (r: ChainLabels)
        ensures
            labels_describe(self@, r),
    {
        let ghost b0 = self@;
        let mut board = *self;
        let mut origins = [0usize; 78];
        let mut lengths = [0usize; 6];
        let mut vanish_step = [0u8; 78];
        let mut fall_distance = [0u8; 78];
        let mut x: usize = 0;
        while x < 6
            invariant
                x <= 6,
                b0 == self@,
                vanish_step@ == Seq::new(78, |p: int| 0u8),
                fall_distance@ == Seq::new(78, |p: int| 0u8),
                forall|x2: int| 0 <= x2 < 6 ==> lengths@[x2] <= 13,
                forall|x2: int| x <= x2 < 6 ==> lengths@[x2] == 0,
                forall|x2: int|
                    0 <= x2 < x ==> column_tracked(
                        b0,
                        origins@,
                        lengths@[x2] as int,
                        vanish_step@,
                        fall_distance@,
                        x2,
                    ),
                forall|x2: int|
                    0 <= x2 < x ==> column_follows(
                        b0,
                        origins@,
                        lengths@[x2] as int,
                        vanish_step@,
                        fall_distance@,
                        b0,
                        1,
                        x2,
                    ),
            decreases 6 - x,
        {
            let ghost before = origins@;
            let ghost lengths_before = lengths@;
            let mut y: usize = 0;
            while y < 13
                invariant
                    x < 6,
                    y <= 13,
                    b0 == self@,
                    vanish_step@ == Seq::new(78, |p: int| 0u8),
                    fall_distance@ == Seq::new(78, |p: int| 0u8),
                    lengths@[x as int] <= y,
                    forall|x2: int| 0 <= x2 < 6 ==> lengths@[x2] <= 13,
                    forall|x2: int| x < x2 < 6 ==> lengths@[x2] == 0,
                    forall|x2: int| 0 <= x2 < 6 && x2 != x ==> lengths@[x2] == lengths_before[x2],
                    forall|q: int| 0 <= q < 78 && q % 6 != x ==> origins@[q] == before[q],
                    forall|s: int|
                        0 <= s < lengths@[x as int] ==> #[trigger] tracked_ok(
                            b0,
                            origins@[s * 6 + x] as int,
                            s,
                            vanish_step@,
                            fall_distance@,
                            x as int,
                        ),
                    forall|s: int|
                        0 <= s < lengths@[x as int] ==> (#[trigger] origins@[s * 6 + x]) / 6 < y,
                    forall|s1: int, s2: int|
                        0 <= s1 < s2 < lengths@[x as int] ==> #[trigger] origins@[s1 * 6 + x]
                            < #[trigger] origins@[s2 * 6 + x],
                    forall|s: int|
                        0 <= s < lengths@[x as int] ==> compact_row(b0, #[trigger] origins@[s * 6 + x] as int)
                            == s,
                    lengths@[x as int] == occupied_below(b0, x as int, y as int),
                    forall|t: int|
                        0 <= t < y && #[trigger] b0[t * 6 + x] != Cell::Empty ==> occupied_below(
                            b0,
                            x as int,
                            t,
                        ) < lengths@[x as int] && origins@[occupied_below(b0, x as int, t) * 6 + x] == t * 6
                            + x,
                decreases 13 - y,
            {
                proof {
                    assert forall|s: int| 0 <= s < lengths@[x as int] implies #[trigger] tracked_ok(
                        b0,
                        origins@[s * 6 + x] as int,
                        s,
                        vanish_step@,
                        fall_distance@,
                        x as int,
                    ) && origins@[s * 6 + x] / 6 < y + 1 by {
                        assert(tracked_ok(
                            b0,
                            origins@[s * 6 + x] as int,
                            s,
                            vanish_step@,
                            fall_distance@,
                            x as int,
                        ));
                    }
                }
                proof {
                    lemma_occupied_step(b0, x as int, y as int);
                }
                if self.cells[y * 6 + x] != Cell::Empty {
                    let len = lengths[x];
                    proof {
                        assert((y * 6 + x) / 6 == y);
                        assert((y * 6 + x) % 6 == x);
                    }
                    let ghost o_prev = origins@;
                    origins[len * 6 + x] = y * 6 + x;
                    lengths[x] = len + 1;
                    proof {
                        assert forall|s: int| 0 <= s < len implies #[trigger] origins@[s * 6 + x] == o_prev[s
                            * 6 + x] by {
                            assert(s * 6 + x != len * 6 + x);
                        }
                        assert forall|s: int| 0 <= s <= len implies #[trigger] tracked_ok(
                            b0,
                            origins@[s * 6 + x] as int,
                            s,
                            vanish_step@,
                            fall_distance@,
                            x as int,
                        ) && origins@[s * 6 + x] / 6 < y + 1 by {
                            if s < len {
                                assert(tracked_ok(
                                    b0,
                                    o_prev[s * 6 + x] as int,
                                    s,
                                    vanish_step@,
                                    fall_distance@,
                                    x as int,
                                ));
                            }
                        }
                        assert forall|s1: int, s2: int| 0 <= s1 < s2 <= len implies #[trigger] origins@[s1
                            * 6 + x] < #[trigger] origins@[s2 * 6 + x] by {
                            if s2 < len {
                                assert(o_prev[s1 * 6 + x] < o_prev[s2 * 6 + x]);
                            } else {
                                let v = o_prev[s1 * 6 + x] as int;
                                assert(tracked_ok(
                                    b0,
                                    o_prev[s1 * 6 + x] as int,
                                    s1,
                                    vanish_step@,
                                    fall_distance@,
                                    x as int,
                                ));
                                assert(v / 6 < y);
                                assert(v < y * 6);
                            }
                        }
                        assert forall|s: int| 0 <= s <= len implies compact_row(
                            b0,
                            #[trigger] origins@[s * 6 + x] as int,
                        ) == s by {
                            if s < len {
                                assert(origins@[s * 6 + x] == o_prev[s * 6 + x]);
                            }
                        }
                        assert forall|t: int|
                            0 <= t < y + 1 && #[trigger] b0[t * 6 + x] != Cell::Empty implies occupied_below(
                            b0,
                            x as int,
                            t,
                        ) < len + 1 && origins@[occupied_below(b0, x as int, t) * 6 + x] == t * 6 + x by {
                            if t < y {
                                assert(origins@[occupied_below(b0, x as int, t) * 6 + x] == o_prev[occupied_below(
                                    b0,
                                    x as int,
                                    t,
                                ) * 6 + x]);
                            }
                        }
                    }
                }
                y += 1;
            }
            proof {
                let len = lengths@[x as int] as int;
                assert forall|s1: int, s2: int| 0 <= s1 < s2 < len implies #[trigger] origins@[s1 * 6
                    + x] != #[trigger] origins@[s2 * 6 + x] by {}
                assert(column_tracked(b0, origins@, len, vanish_step@, fall_distance@, x as int));
                {
                    assert forall|o: int|
                        0 <= o < 78 && o % 6 == x && b0[o] != Cell::Empty && #[trigger] vanish_step@[o]
                            == 0 implies follows(
                        b0,
                        origins@,
                        len,
                        fall_distance@,
                        b0,
                        1,
                        x as int,
                        o,
                    ) by {
                        let t = o / 6;
                        assert(o == t * 6 + x);
                        assert(b0[t * 6 + x] != Cell::Empty);
                        assert(compact_row(b0, o) == occupied_below(b0, x as int, t));
                    }
                    assert forall|s: int| 0 <= s < len implies compact_row(
                        b0,
                        #[trigger] origins@[s * 6 + x] as int,
                    ) == s + fall_distance@[origins@[s * 6 + x] as int] by {}
                }
                assert forall|x2: int| 0 <= x2 < x implies column_tracked(
                    b0,
                    origins@,
                    lengths@[x2] as int,
                    vanish_step@,
                    fall_distance@,
                    x2,
                ) by {
                    assert(lengths@[x2] == lengths_before[x2]);
                    assert(column_tracked(
                        b0,
                        before,
                        lengths_before[x2] as int,
                        vanish_step@,
                        fall_distance@,
                        x2,
                    ));
                    assert forall|s: int| 0 <= s < lengths@[x2] implies #[trigger] origins@[s * 6 + x2] == before[s
                        * 6 + x2] by {
                        assert((s * 6 + x2) % 6 == x2);
                    }
                    assert forall|s1: int, s2: int|
                        0 <= s1 < s2 < lengths@[x2] implies #[trigger] origins@[s1 * 6 + x2]
                        != #[trigger] origins@[s2 * 6 + x2] by {
                        assert(before[s1 * 6 + x2] != before[s2 * 6 + x2]);
                        assert(origins@[s1 * 6 + x2] == before[s1 * 6 + x2]);
                        assert(origins@[s2 * 6 + x2] == before[s2 * 6 + x2]);
                    }
                }
                {
                    assert forall|x2: int| 0 <= x2 < x implies column_follows(
                        b0,
                        origins@,
                        lengths@[x2] as int,
                        vanish_step@,
                        fall_distance@,
                        b0,
                        1,
                        x2,
                    ) by {
                        assert(lengths@[x2] == lengths_before[x2]);
                        assert(column_follows(
                            b0,
                            before,
                            lengths_before[x2] as int,
                            vanish_step@,
                            fall_distance@,
                            b0,
                            1,
                            x2,
                        ));
                        assert forall|q: int| 0 <= q < 78 && q % 6 == x2 implies origins@[q]
                            == before[q] by {}
                        assert forall|s: int| 0 <= s < lengths@[x2] implies compact_row(
                            b0,
                            #[trigger] origins@[s * 6 + x2] as int,
                        ) == s + fall_distance@[origins@[s * 6 + x2] as int] by {
                            assert((s * 6 + x2) % 6 == x2);
                            assert(compact_row(b0, before[s * 6 + x2] as int) == s + fall_distance@[before[s
                                * 6 + x2] as int]);
                        }
                        assert forall|o: int|
                            0 <= o < 78 && o % 6 == x2 && b0[o] != Cell::Empty
                                && #[trigger] vanish_step@[o] == 0 implies follows(
                            b0,
                            origins@,
                            lengths@[x2] as int,
                            fall_distance@,
                            b0,
                            1,
                            x2,
                            o,
                        ) by {
                            assert(follows(
                                b0,
                                before,
                                lengths@[x2] as int,
                                fall_distance@,
                                b0,
                                1,
                                x2,
                                o,
                            ));
                            let s = compact_row(b0, o) - fall_distance@[o];
                            assert((s * 6 + x2) % 6 == x2);
                        }
                    }
                }
            }
            x += 1;
        }
        proof {
            assert forall|o: int| 0 <= o < 78 implies #[trigger] label_ok(
                b0,
                vanish_step@,
                fall_distance@,
                o,
            ) by {}
        }
        let component_size = self.connected_component_sizes();
        let mut chains: u8 = 0;
        let mut chain: u32 = 1;
        while chain <= 255
            invariant
                1 <= chain <= 256,
                b0 == self@,
                board@.len() == 78,
                chains == chain - 1,
                chain_run(b0, 1).len() == chains + chain_run(board@, chain as int).len(),
                forall|x2: int| 0 <= x2 < 6 ==> lengths@[x2] <= 13,
                forall|x2: int|
                    0 <= x2 < 6 ==> column_tracked(
                        b0,
                        origins@,
                        lengths@[x2] as int,
                        vanish_step@,
                        fall_distance@,
                        x2,
                    ),
                labels_ok(b0, vanish_step@, fall_distance@),
                forall|x2: int|
                    0 <= x2 < 6 ==> column_follows(
                        b0,
                        origins@,
                        lengths@[x2] as int,
                        vanish_step@,
                        fall_distance@,
                        board@,
                        chain as int,
                        x2,
                    ),
            ensures
                chain_run(b0, 1).len() == chains,
                forall|q: int| #[trigger] track(board@, chain as int, q) == (0int, 0int),
            decreases 256 - chain,
        {
            let ghost before = board@;
            let (step, erased) = board.resolve_step_marked(chain as u8);
            if step.is_none() {
                proof {
                    assert(chain_run(before, chain as int) =~= Seq::<StepResult>::empty());
                }
                break;
            }
            chains = chain as u8;
            let mut x: usize = 0;
            while x < 6
                invariant
                    x <= 6,
                    1 <= chain <= 255,
                    b0.len() == 78,
                    before.len() == 78,
                    erased@ == erased_cells(before),
                    step_outcome(before, chain as u8) is Some,
                    forall|x2: int| 0 <= x2 < 6 ==> lengths@[x2] <= 13,
                    forall|x2: int|
                        0 <= x2 < 6 ==> column_tracked(
                            b0,
                            origins@,
                            lengths@[x2] as int,
                            vanish_step@,
                            fall_distance@,
                            x2,
                        ),
                    labels_ok(b0, vanish_step@, fall_distance@),
                    forall|x2: int|
                        0 <= x2 < x ==> column_follows(
                            b0,
                            origins@,
                            lengths@[x2] as int,
                            vanish_step@,
                            fall_distance@,
                            after_step(before),
                            chain + 1,
                            x2,
                        ),
                    forall|x2: int|
                        x <= x2 < 6 ==> column_follows(
                            b0,
                            origins@,
                            lengths@[x2] as int,
                            vanish_step@,
                            fall_distance@,
                            before,
                            chain as int,
                            x2,
                        ),
                decreases 6 - x,
            {
                let ghost o_before = origins@;
                let ghost l_before = lengths@;
                let ghost v_before = vanish_step@;
                let ghost f_before = fall_distance@;
                relabel_column(
                    &mut origins,
                    &mut lengths,
                    &mut vanish_step,
                    &mut fall_distance,
                    &erased,
                    x,
                    chain as u8,
                    Ghost(b0),
                    Ghost(before),
                );
                proof {
                    lemma_other_columns(
                        b0,
                        o_before,
                        l_before,
                        v_before,
                        f_before,
                        origins@,
                        lengths@,
                        vanish_step@,
                        fall_distance@,
                        x as int,
                        before,
                        chain as int,
                        after_step(before),
                        chain + 1,
                    );
                }
                x += 1;
            }
            proof {
                assert(chain_run(before, chain as int) =~= seq![step->0] + chain_run(
                    board@,
                    chain + 1,
                ));
            }
            chain += 1;
        }
        proof {
            assert forall|p: int|
                0 <= p < 78 && b0[p] == Cell::Empty implies vanish_step@[p] == 0 && fall_distance@[p]
                == 0 by {
                assert(label_ok(b0, vanish_step@, fall_distance@, p));
            }
            {
                assert forall|p: int| 0 <= p < 78 && b0[p] != Cell::Empty implies #[trigger] vanish_step@[p]
                    == track(b0, 1, compact_pos(b0, p)).0 && fall_distance@[p] == track(
                    b0,
                    1,
                    compact_pos(b0, p),
                ).1 by {
                    assert(label_ok(b0, vanish_step@, fall_distance@, p));
                    if vanish_step@[p] == 0 {
                        let x2 = p % 6;
                        assert(column_follows(
                            b0,
                            origins@,
                            lengths@[x2] as int,
                            vanish_step@,
                            fall_distance@,
                            board@,
                            chain as int,
                            x2,
                        ));
                        assert(follows(
                            b0,
                            origins@,
                            lengths@[x2] as int,
                            fall_distance@,
                            board@,
                            chain as int,
                            x2,
                            p,
                        ));
                        let s = compact_row(b0, p) - fall_distance@[p];
                        assert(track(board@, chain as int, s * 6 + x2) == (0int, 0int));
                    }
                }
            }
        }
        ChainLabels { vanish_step, fall_distance, component_size, chains }
    }
}

/// Relabelling one column leaves the other columns' tracking as it was.
proof fn lemma_other_columns(
    b0: Seq<Cell>,
    o1: Seq<usize>,
    l1: Seq<usize>,
    v1: Seq<u8>,
    f1: Seq<u8>,
    o2: Seq<usize>,
    l2: Seq<usize>,
    v2: Seq<u8>,
    f2: Seq<u8>,
    x: int,
    b: Seq<Cell>,
    c: int,
    b_next: Seq<Cell>,
    c_next: int,
)
    requires
        0 <= x < 6,
        o1.len() == 78,
        o2.len() == 78,
        v1.len() == 78,
        v2.len() == 78,
        f1.len() == 78,
        f2.len() == 78,
        forall|q: int| 0 <= q < 78 && q % 6 != x ==> o2[q] == o1[q],
        forall|x2: int| 0 <= x2 < 6 && x2 != x ==> l2[x2] == l1[x2],
        forall|o: int| 0 <= o < 78 && o % 6 != x ==> v2[o] == v1[o] && f2[o] == f1[o],
        forall|x2: int| 0 <= x2 < 6 ==> l1[x2] <= 13,
        forall|x2: int|
            0 <= x2 < 6 ==> column_tracked(b0, o1, l1[x2] as int, v1, f1, x2),
        column_tracked(b0, o2, l2[x] as int, v2, f2, x),
        forall|x2: int|
            0 <= x2 < x ==> column_follows(b0, o1, l1[x2] as int, v1, f1, b_next, c_next, x2),
        forall|x2: int|
            x < x2 < 6 ==> column_follows(b0, o1, l1[x2] as int, v1, f1, b, c, x2),
        column_follows(b0, o2, l2[x] as int, v2, f2, b_next, c_next, x),
    ensures
        forall|x2: int| 0 <= x2 < 6 ==> column_tracked(b0, o2, l2[x2] as int, v2, f2, x2),
        forall|x2: int|
            0 <= x2 <= x ==> column_follows(b0, o2, l2[x2] as int, v2, f2, b_next, c_next, x2),
        forall|x2: int|
            x < x2 < 6 ==> column_follows(b0, o2, l2[x2] as int, v2, f2, b, c, x2),
{
    assert forall|x2: int| 0 <= x2 < 6 implies column_tracked(b0, o2, l2[x2] as int, v2, f2, x2) by {
        if x2 != x {
            assert(column_tracked(b0, o1, l1[x2] as int, v1, f1, x2));
            assert forall|s: int| 0 <= s < l2[x2] implies #[trigger] tracked_ok(
                b0,
                o2[s * 6 + x2] as int,
                s,
                v2,
                f2,
                x2,
            ) by {
                assert((s * 6 + x2) % 6 == x2);
                assert(tracked_ok(b0, o1[s * 6 + x2] as int, s, v1, f1, x2));
            }
            assert forall|s1: int, s2: int| 0 <= s1 < s2 < l2[x2] implies #[trigger] o2[s1 * 6 + x2]
                != #[trigger] o2[s2 * 6 + x2] by {
                assert((s1 * 6 + x2) % 6 == x2);
                assert((s2 * 6 + x2) % 6 == x2);
                assert(o1[s1 * 6 + x2] != o1[s2 * 6 + x2]);
            }
        }
    }
    {
        assert forall|x2: int| 0 <= x2 < 6 && x2 != x implies (if x2 < x {
            column_follows(b0, o2, l2[x2] as int, v2, f2, b_next, c_next, x2)
        } else {
            column_follows(b0, o2, l2[x2] as int, v2, f2, b, c, x2)
        }) by {
            let bb = if x2 < x {
                b_next
            } else {
                b
            };
            let cc = if x2 < x {
                c_next
            } else {
                c
            };
            assert(column_follows(b0, o1, l1[x2] as int, v1, f1, bb, cc, x2));
            assert forall|s: int| 0 <= s < l2[x2] implies compact_row(b0, #[trigger] o2[s * 6 + x2] as int)
                == s + f2[o2[s * 6 + x2] as int] by {
                assert((s * 6 + x2) % 6 == x2);
                assert(compact_row(b0, o1[s * 6 + x2] as int) == s + f1[o1[s * 6 + x2] as int]);
                assert(tracked_ok(b0, o1[s * 6 + x2] as int, s, v1, f1, x2));
            }
            assert forall|o: int|
                0 <= o < 78 && o % 6 == x2 && b0[o] != Cell::Empty && #[trigger] v2[o] == 0 implies follows(
                b0,
                o2,
                l2[x2] as int,
                f2,
                bb,
                cc,
                x2,
                o,
            ) by {
                assert(v1[o] == 0);
                assert(follows(b0, o1, l1[x2] as int, f1, bb, cc, x2, o));
                let s = compact_row(b0, o) - f1[o];
                assert((s * 6 + x2) % 6 == x2);
            }
        }
    }
}

} // verus!
