use std::collections::VecDeque;

use puyo::game::{
    legal_actions, legal_placements, reachable_poses, Colour, GameState, Input, Modern128, Pair,
    Placement, ReachablePoses, Rotation, MAX_LEGAL_ACTIONS, POSE_HEIGHT,
};
use puyo::{Board, Cell, HEIGHT, WIDTH};

const ALL_COLOURS: [Colour; 4] = [Colour::Red, Colour::Green, Colour::Blue, Colour::Yellow];

const ALL_ROTATIONS: [Rotation; 4] = [Rotation::Right, Rotation::Down, Rotation::Left, Rotation::Up];

const ROTATION_KICKS: [(i8, i8); 4] = [(-1, 0), (0, 1), (1, 0), (0, -1)];

fn colour_id(colour: Colour) -> u8 {
    match colour {
        Colour::Red => 0,
        Colour::Green => 1,
        Colour::Blue => 2,
        Colour::Yellow => 3,
    }
}

fn rotation_id(rotation: Rotation) -> usize {
    match rotation {
        Rotation::Right => 0,
        Rotation::Down => 1,
        Rotation::Left => 2,
        Rotation::Up => 3,
    }
}

fn all_placements() -> Vec<Placement> {
    let mut result = Vec::new();
    for x in 0..5 {
        result.push(Placement { axis_column: x, rotation: Rotation::Right });
    }
    for x in 0..6 {
        result.push(Placement { axis_column: x, rotation: Rotation::Down });
    }
    for x in 1..6 {
        result.push(Placement { axis_column: x, rotation: Rotation::Left });
    }
    for x in 0..6 {
        result.push(Placement { axis_column: x, rotation: Rotation::Up });
    }
    result
}

#[derive(Debug, Clone, Copy, PartialEq, Eq)]
struct Pose {
    x: i8,
    y: i8,
    rotation: Rotation,
}

const SPAWN: Pose = Pose { x: 2, y: 12, rotation: Rotation::Up };

impl Pose {
    fn bit(self) -> u128 {
        1u128 << (self.y as usize * WIDTH + self.x as usize)
    }
}

fn offset(rotation: Rotation) -> (i8, i8) {
    match rotation {
        Rotation::Right => (1, 0),
        Rotation::Down => (0, -1),
        Rotation::Left => (-1, 0),
        Rotation::Up => (0, 1),
    }
}

fn cw(rotation: Rotation) -> Rotation {
    ALL_ROTATIONS[(rotation_id(rotation) + 3) & 3]
}

fn ccw(rotation: Rotation) -> Rotation {
    ALL_ROTATIONS[(rotation_id(rotation) + 1) & 3]
}

fn turn(rotation: Rotation) -> Rotation {
    ALL_ROTATIONS[(rotation_id(rotation) + 2) & 3]
}

fn valid_falling_cell(board: &Board, x: i8, y: i8) -> bool {
    x >= 0
        && x < WIDTH as i8
        && y >= 0
        && y < POSE_HEIGHT as i8
        && (y == HEIGHT as i8 || board.get(x as usize, y as usize) == Cell::Empty)
}

fn valid_pose(board: &Board, pose: Pose) -> bool {
    let (dx, dy) = offset(pose.rotation);
    valid_falling_cell(board, pose.x, pose.y) && valid_falling_cell(board, pose.x + dx, pose.y + dy)
}

fn transition(board: &Board, pose: Pose, input: Input) -> Option<Pose> {
    match input {
        Input::Left | Input::Right | Input::Down => {
            let (dx, dy) = match input {
                Input::Left => (-1, 0),
                Input::Right => (1, 0),
                _ => (0, -1),
            };
            let next = Pose { x: pose.x + dx, y: pose.y + dy, ..pose };
            if valid_pose(board, next) { Some(next) } else { None }
        }
        Input::RotateCw | Input::RotateCcw => {
            let rotation = if input == Input::RotateCw { cw(pose.rotation) } else { ccw(pose.rotation) };
            let direct = Pose { rotation, ..pose };
            if valid_pose(board, direct) {
                return Some(direct);
            }
            let (dx, dy) = ROTATION_KICKS[rotation_id(rotation)];
            let kicked = Pose { x: pose.x + dx, y: pose.y + dy, rotation };
            if valid_pose(board, kicked) { Some(kicked) } else { None }
        }
        Input::Rotate180 => {
            let rotation = turn(pose.rotation);
            let dy = match rotation {
                Rotation::Up => -1,
                Rotation::Down => 1,
                _ => 0,
            };
            let next = Pose { y: pose.y + dy, rotation, ..pose };
            if valid_pose(board, next) { Some(next) } else { None }
        }
        Input::HardDrop => None,
    }
}

/// Where the pair lands for the given heights, if it fits.
fn landing_cells_with_heights(
    heights: &[u8; WIDTH],
    placement: Placement,
) -> Option<[(usize, usize); 2]> {
    let x = usize::from(placement.axis_column);
    match placement.rotation {
        Rotation::Right | Rotation::Left => {
            let child_x = if placement.rotation == Rotation::Right {
                x + 1
            } else {
                x.checked_sub(1)?
            };
            if child_x >= WIDTH {
                return None;
            }
            let axis_y = usize::from(heights[x]);
            let child_y = usize::from(heights[child_x]);
            if axis_y < HEIGHT && child_y < HEIGHT {
                Some([(x, axis_y), (child_x, child_y)])
            } else {
                None
            }
        }
        Rotation::Up | Rotation::Down => {
            let bottom = usize::from(heights[x]);
            if bottom + 1 >= HEIGHT {
                return None;
            }
            if placement.rotation == Rotation::Up {
                Some([(x, bottom), (x, bottom + 1)])
            } else {
                Some([(x, bottom + 1), (x, bottom)])
            }
        }
    }
}

fn colour_ids(pairs: [Pair; 3]) -> [u8; 6] {
    [
        colour_id(pairs[0].axis),
        colour_id(pairs[0].child),
        colour_id(pairs[1].axis),
        colour_id(pairs[1].child),
        colour_id(pairs[2].axis),
        colour_id(pairs[2].child),
    ]
}

fn next_random(state: &mut u64) -> u64 {
    *state ^= *state << 13;
    *state ^= *state >> 7;
    *state ^= *state << 17;
    *state
}

#[test]
fn modern_queue_is_deterministic_balanced_and_initially_three_colour() {
    for seed in [0, 1, 0x1234_5678, u32::MAX] {
        let mut left = Modern128::new(seed);
        let mut right = Modern128::new(seed);
        let initial = colour_ids(left.visible());
        assert!(initial[..4].iter().copied().max().unwrap() <= 2);
        let mut counts = [0u16; 4];
        for _ in 0..128 {
            assert_eq!(left.visible(), right.visible());
            let pair = left.visible()[0];
            counts[colour_id(pair.axis) as usize] += 1;
            counts[colour_id(pair.child) as usize] += 1;
            left.advance();
            right.advance();
        }
        // Four overwritten entries can perturb the otherwise exact 64 count.
        assert!(counts.iter().all(|&count| (60..=68).contains(&count)));
        assert_eq!(left.position(), 0);
    }
}

#[test]
fn modern_queue_matches_independent_cpp_golden_prefixes() {
    let cases = [
        (0, "00202323011121120003113221330223"),
        (1, "01211123310322221121033310331223"),
        (0x1234_5678, "21221133311031211223323330132223"),
        (u32::MAX, "12220123012330211103111121223230"),
    ];
    for (seed, expected) in cases {
        let mut generator = Modern128::new(seed);
        let mut actual = String::new();
        for _ in 0..16 {
            let pair = generator.visible()[0];
            actual.push(char::from(b'0' + colour_id(pair.axis)));
            actual.push(char::from(b'0' + colour_id(pair.child)));
            generator.advance();
        }
        assert_eq!(actual, expected, "seed={seed:#010x}");
    }
}

#[test]
fn empty_board_has_all_twenty_two_placements() {
    let actions = legal_actions(&Board::empty());
    assert_eq!(actions.len(), MAX_LEGAL_ACTIONS);
    assert!(
        actions
            .iter()
            .all(|action| action.route.last() == Some(&Input::HardDrop))
    );
}

fn reference_legal_placements(board: &Board) -> Vec<Placement> {
    let heights = board.column_heights();
    let reached = reachable_poses(board);
    all_placements()
        .into_iter()
        .filter(|&placement| {
            landing_cells_with_heights(&heights, placement).is_some()
                && (0..POSE_HEIGHT).any(|y| {
                    reached.contains(usize::from(placement.axis_column), y, placement.rotation)
                })
        })
        .collect()
}

#[test]
fn direct_legality_matches_reachability_for_every_top_profile() {
    // Heights below 12 are equivalent for placement legality. Exhaust all
    // 3^6 combinations of low, row-12 occupied, and completely full.
    for encoded in 0..3usize.pow(WIDTH as u32) {
        let mut value = encoded;
        let mut board = Board::empty();
        for x in 0..WIDTH {
            let height = [0, HEIGHT - 1, HEIGHT][value % 3];
            value /= 3;
            for y in 0..height {
                board.set(x, y, Colour::Red.cell());
            }
        }
        assert_eq!(
            legal_placements(&board),
            reference_legal_placements(&board),
            "top profile={encoded}"
        );
    }
}

#[test]
fn one_hundred_thousand_direct_legality_results_match_reachability() {
    let mut random = 0xa409_3822_299f_31d0u64;
    for case in 0..100_000 {
        let mut board = Board::empty();
        for x in 0..WIDTH {
            let height = (next_random(&mut random) % (HEIGHT as u64 + 1)) as usize;
            for y in 0..height {
                board.set(x, y, Colour::Red.cell());
            }
        }
        assert_eq!(
            legal_placements(&board),
            reference_legal_placements(&board),
            "case={case} heights={:?}",
            board.column_heights()
        );
    }
}

fn scalar_reachable(board: &Board) -> ReachablePoses {
    if !valid_pose(board, SPAWN) {
        return ReachablePoses([0; 4]);
    }
    let mut result = [0u128; 4];
    result[rotation_id(Rotation::Up)] = SPAWN.bit();
    let mut queue = VecDeque::from([SPAWN]);
    while let Some(pose) = queue.pop_front() {
        for input in [
            Input::Left,
            Input::Right,
            Input::Down,
            Input::RotateCw,
            Input::RotateCcw,
            Input::Rotate180,
        ] {
            let Some(next) = transition(board, pose, input) else {
                continue;
            };
            let slot = &mut result[rotation_id(next.rotation)];
            if *slot & next.bit() != 0 {
                continue;
            }
            *slot |= next.bit();
            queue.push_back(next);
        }
    }
    ReachablePoses(result)
}

#[test]
fn bit_reachability_matches_scalar_bfs_on_adversarial_boards() {
    let mut random = 0x243f_6a88_85a3_08d3u64;
    for case in 0..10_000 {
        let mut board = Board::empty();
        for x in 0..WIDTH {
            let height = (next_random(&mut random) % 13) as usize;
            for y in 0..height {
                board.set(x, y, ALL_COLOURS[(next_random(&mut random) & 3) as usize].cell());
            }
        }
        let fast = reachable_poses(&board);
        let slow = scalar_reachable(&board);
        assert_eq!(fast.0, slow.0, "case={case}");
    }
}

#[test]
fn every_materialised_route_replays_to_its_placement() {
    let mut random = 0x1319_8a2e_0370_7344u64;
    for case in 0..1_000 {
        let mut board = Board::empty();
        for x in 0..WIDTH {
            let height = (next_random(&mut random) % 11) as usize;
            for y in 0..height {
                board.set(x, y, ALL_COLOURS[(next_random(&mut random) & 3) as usize].cell());
            }
        }
        for action in legal_actions(&board) {
            let mut pose = SPAWN;
            for &input in &action.route[..action.route.len() - 1] {
                pose = transition(&board, pose, input)
                    .unwrap_or_else(|| panic!("invalid route case={case} input={input:?}"));
            }
            assert_eq!(action.route.last(), Some(&Input::HardDrop));
            assert_eq!(pose.x, action.placement.axis_column as i8, "case={case}");
            assert_eq!(pose.rotation, action.placement.rotation, "case={case}");
            assert!(landing_cells_with_heights(&board.column_heights(), action.placement).is_some());
        }
    }
}

#[test]
fn game_step_advances_only_public_window_and_preserves_gravity() {
    let mut game = GameState::new(42);
    let before = game.public_state();
    let action = game.legal_actions()[0].placement;
    let outcome = game.step(action).unwrap();
    let after = game.public_state();
    assert_eq!(before.pieces[1], after.pieces[0]);
    assert_eq!(before.pieces[2], after.pieces[1]);
    assert_eq!(after.queue_position, 1);
    assert_eq!(after.placements, 1);
    assert!(after.board.validate_gravity().is_ok());
    assert_eq!(outcome.simulation.chains, outcome.labels.chains);
}

#[test]
fn fast_step_matches_labelled_step() {
    let mut labelled = GameState::new(0xdead_beef);
    let mut fast = labelled.clone();
    for _ in 0..32 {
        let Some(placement) = labelled.legal_placements().first().copied() else {
            break;
        };
        let with_labels = labelled.step(placement).unwrap();
        let without_labels = fast.step_fast(placement).unwrap();
        assert_eq!(with_labels.simulation, without_labels.simulation);
        assert_eq!(with_labels.split_distance, without_labels.split_distance);
        assert_eq!(with_labels.dead, without_labels.dead);
        assert_eq!(labelled.public_state().board, fast.public_state().board);
        if with_labels.dead {
            break;
        }
    }
}
