use puyo::api::{
    axis_column, chain_frames, colour_name, default_search_depth, default_simulations,
    erased_positions, input_name, pair_response, parse_rotation, rotation_name, search_limits,
    CellPosition,
};
use puyo::board::{chain_bonus, color_bonus, link_bonus};
use puyo::falling::{
    apply_control, hard_drop, rotate_180, rotate_ccw, rotate_cw, try_rotate, valid, valid_pose,
    Control, Falling,
};
use puyo::game::{
    is_legal_placement, legal_actions, legal_placements_compact, place_pair, reachable_poses, route_to_placement,
    Colour, GameState, Input, LegalPlacements, Modern128, Pair, Placement, Rotation, StepError,
};
use puyo::mcts::{chance_weights, BaselineEvaluator, PendingChance, SearchState};
use puyo::selfplay::{
    describe_action, encode_board, horizon_labels, next_random, rotation_id, sample_visit_action,
    ActionError, VisitCount, LABEL_HORIZONS,
};
use puyo::{Board, Cell, ParseBoardError, HEIGHT, WIDTH};

fn board_of_columns(columns: &[&str; WIDTH]) -> Board {
    let mut board = Board::empty();
    for (x, column) in columns.iter().enumerate() {
        for (y, value) in column.chars().enumerate() {
            board.set(x, y, Cell::from_char(value).unwrap());
        }
    }
    board
}

fn empty_rows() -> Vec<&'static str> {
    vec!["......"; HEIGHT]
}

fn xorshift(mut state: u64) -> u64 {
    state ^= state << 13;
    state ^= state >> 7;
    state ^= state << 17;
    state
}

/// A column of twelve puyos in four repeating colours, with no group of
/// four: it fills the death cell when placed in column 2.
fn death_column_board() -> Board {
    let colours = [Cell::Red, Cell::Green, Cell::Blue, Cell::Yellow];
    let mut board = Board::empty();
    for y in 0..12 {
        board.set(2, y, colours[y % 4]);
    }
    board
}

/// Column 2 filled to the top of the hidden row: the spawn cell is blocked.
fn full_column_board() -> Board {
    let mut board = death_column_board();
    board.set(2, 12, Cell::Red);
    board
}

#[test]
fn cell_characters_round_trip() {
    for cell in [Cell::Empty, Cell::Garbage, Cell::Red, Cell::Green, Cell::Blue, Cell::Yellow] {
        assert_eq!(Cell::from_char(cell.as_char()), Some(cell));
    }
    assert_eq!(Cell::from_char('e'), Some(Cell::Empty));
    assert_eq!(Cell::from_char('y'), Some(Cell::Yellow));
    assert_eq!(Cell::from_char('x'), None);
}

#[test]
fn parse_reports_each_error() {
    assert_eq!(Board::parse("......"), Err(ParseBoardError::WrongRowCount { actual: 1 }));
    let mut rows = empty_rows();
    rows[0] = ".....";
    assert_eq!(
        Board::parse(&rows.join("/")),
        Err(ParseBoardError::WrongColumnCount { row: 1, actual: 5 })
    );
    let mut rows = empty_rows();
    rows[0] = "..X...";
    assert_eq!(
        Board::parse(&rows.join("/")),
        Err(ParseBoardError::InvalidCell { row: 1, column: 3, value: 'X' })
    );
    let mut rows = empty_rows();
    rows[10] = "R.....";
    assert_eq!(
        Board::parse(&rows.join("/")),
        Err(ParseBoardError::FloatingCell { row: 11, column: 1 })
    );
}

#[test]
fn parse_accepts_newlines_and_surrounding_space() {
    let mut rows = empty_rows();
    rows[12] = "RG....";
    let text = format!("  {}  \r\n", rows.join("\r\n"));
    let board = Board::parse(&text).unwrap();
    assert_eq!(board.get(0, 0), Cell::Red);
    assert_eq!(board.get(1, 0), Cell::Green);
    assert_eq!(board.to_string(), rows.join("\n"));
}

#[test]
fn empty_board_text_is_thirteen_empty_rows() {
    assert_eq!(Board::empty().to_string(), empty_rows().join("\n"));
    assert!(Board::empty().is_empty());
}

#[test]
fn from_cells_and_rows_agree() {
    let mut cells = [[Cell::Empty; WIDTH]; HEIGHT];
    cells[0][0] = Cell::Blue;
    cells[1][0] = Cell::Garbage;
    let board = Board::from_cells(cells).unwrap();
    let rows = board.rows();
    assert_eq!(rows[12][0], Cell::Blue);
    assert_eq!(rows[11][0], Cell::Garbage);
    let mut floating = [[Cell::Empty; WIDTH]; HEIGHT];
    floating[2][4] = Cell::Red;
    assert_eq!(
        Board::from_cells(floating),
        Err(ParseBoardError::FloatingCell { row: 11, column: 5 })
    );
}

#[test]
fn get_gives_back_what_set_wrote() {
    let mut board = Board::empty();
    board.set(3, 7, Cell::Yellow);
    assert_eq!(board.get(3, 7), Cell::Yellow);
    assert_eq!(board.get(2, 7), Cell::Empty);
    assert_eq!(board.get(3, 6), Cell::Empty);
}

#[test]
fn column_heights_count_occupied_rows() {
    let board = board_of_columns(&["RRRBG", "RBBBG", "GGG", "", "", ""]);
    assert_eq!(board.column_heights(), [5, 5, 3, 0, 0, 0]);
}

#[test]
fn bonus_tables() {
    assert_eq!(link_bonus(4), 0);
    assert_eq!(link_bonus(5), 2);
    assert_eq!(link_bonus(10), 7);
    assert_eq!(link_bonus(11), 10);
    assert_eq!(color_bonus(1), 0);
    assert_eq!(color_bonus(4), 12);
    assert_eq!(chain_bonus(1), 0);
    assert_eq!(chain_bonus(2), 8);
    assert_eq!(chain_bonus(19), 512);
    assert_eq!(chain_bonus(40), 512);
}

#[test]
fn two_chain_scores_follow_the_formula() {
    let mut board = board_of_columns(&["RRRBG", "RBBBG", "GGG", "", "", ""]);
    let mut summary_board = board;
    let result = board.simulate();
    assert_eq!(result.steps.len(), 2);
    assert_eq!(result.steps[0].score, 240);
    assert_eq!(result.steps[0].colors_erased, 2);
    assert_eq!(result.steps[1].score, 500);
    assert_eq!(result.steps[1].group_bonus, 2);
    assert_eq!(result.score, 740);
    let summary = summary_board.simulate_summary();
    assert_eq!(summary.score, 740);
    assert_eq!(summary.chains, 2);
    assert_eq!(summary.colored_erased, 13);
    assert!(summary.all_clear);
    let mut count_board = board_of_columns(&["RRRBG", "RBBBG", "GGG", "", "", ""]);
    assert_eq!(count_board.simulate_chain_count(), 2);
    assert_eq!(count_board, summary_board);
}

#[test]
fn labels_trace_each_puyo() {
    let board = board_of_columns(&["RRRBG", "RBBBG", "GGG", "", "", ""]);
    let labels = board.chain_labels();
    assert_eq!(labels.chains, 2);
    assert_eq!(labels.vanish_step[0], 1);
    assert_eq!(labels.vanish_step[3 * WIDTH], 1);
    assert_eq!(labels.vanish_step[4 * WIDTH], 2);
    assert_eq!(labels.fall_distance[4 * WIDTH], 4);
    assert_eq!(labels.vanish_step[2], 2);
    assert_eq!(labels.fall_distance[2], 0);
    assert_eq!(labels.component_size[0], 4);
    assert_eq!(labels.vanish_step[5], 0);
}

#[test]
fn surviving_puyo_ends_where_its_labels_say() {
    let board = board_of_columns(&["RRRRBY", "G", "", "", "", ""]);
    let labels = board.chain_labels();
    let mut settled = board;
    settled.simulate();
    for (index, original) in [(4 * WIDTH, Cell::Blue), (5 * WIDTH, Cell::Yellow)] {
        assert_eq!(labels.vanish_step[index], 0);
        assert_eq!(labels.fall_distance[index], 4);
        assert_eq!(settled.get(0, index / WIDTH - 4), original);
    }
    assert_eq!(settled.get(1, 0), Cell::Green);
}

#[test]
fn hidden_row_colours_stay_put() {
    let mut board = board_of_columns(&["BGBGBGBGBGRRR", "BGBGBGBGBGBGR", "", "", "", ""]);
    assert!(board.resolve_step(1).is_none());
}

#[test]
fn step_errors_leave_the_game_unchanged() {
    let mut game = GameState::new(3);
    let before = game.public_state();
    let illegal = Placement { axis_column: 5, rotation: Rotation::Right };
    assert_eq!(game.step(illegal), Err(StepError::IllegalPlacement));
    let after = game.public_state();
    assert_eq!(after.board, before.board);
    assert_eq!(after.queue_position, before.queue_position);
    assert_eq!(after.placements, 0);

    let mut dead = GameState::from_board(3, death_column_board());
    assert!(dead.public_state().dead);
    assert!(dead.legal_actions().is_empty());
    assert!(dead.legal_placements().is_empty());
    let legal = Placement { axis_column: 0, rotation: Rotation::Up };
    assert_eq!(dead.step_fast(legal), Err(StepError::Terminal));
}

#[test]
fn resume_moves_the_queue_on() {
    let game = GameState::resume(11, Board::empty(), 133, 4);
    let public = game.public_state();
    assert_eq!(public.queue_position, 5);
    assert_eq!(public.placements, 133);
    assert_eq!(public.maximum_chain, 4);
    let mut generator = Modern128::new(11);
    for _ in 0..5 {
        generator.advance();
    }
    assert_eq!(public.pieces, generator.visible());
    let mut counts = [0u16; 4];
    let mut dealt = Modern128::new(11);
    for _ in 0..8 {
        let pair = dealt.visible()[0];
        counts[pair.axis.index()] += 1;
        counts[pair.child.index()] += 1;
        dealt.advance();
    }
    for colour in 0..4 {
        assert_eq!(public.estimated_unseen_colour_counts[colour], 64 - counts[colour]);
    }
}

#[test]
fn a_step_keeps_the_field_settled_and_counts_it() {
    let mut game = GameState::new(9);
    for _ in 0..20 {
        let public = game.public_state();
        if public.dead {
            break;
        }
        assert!(game.counters_fit_now());
        let placement = game.legal_placements()[0];
        let outcome = game.step_fast(placement).unwrap();
        let after = game.public_state();
        assert!(after.board.validate_gravity().is_ok());
        assert_eq!(after.pieces[0], public.pieces[1]);
        assert_eq!(after.pieces[1], public.pieces[2]);
        assert_eq!(after.placements, public.placements + 1);
        assert!(after.maximum_chain >= outcome.simulation.chains);
    }
}

#[test]
fn queue_balance_holds_for_more_seeds() {
    for seed in [7u32, 99, 0xabcd_ef01] {
        let mut generator = Modern128::new(seed);
        let first = generator.visible();
        for pair in &first[..2] {
            assert_ne!(pair.axis, Colour::Yellow);
            assert_ne!(pair.child, Colour::Yellow);
        }
        let mut counts = [0u16; 4];
        for _ in 0..128 {
            let pair = generator.visible()[0];
            counts[pair.axis.index()] += 1;
            counts[pair.child.index()] += 1;
            generator.advance();
        }
        assert!(counts.iter().all(|&count| (60..=68).contains(&count)));
        assert_eq!(counts.iter().sum::<u16>(), 256);
    }
}

#[test]
fn reachability_on_an_empty_field() {
    let reached = reachable_poses(&Board::empty());
    assert!(reached.contains(2, 12, Rotation::Up));
    assert!(reached.contains(0, 0, Rotation::Up));
    assert!(reached.contains(5, 0, Rotation::Left));
    assert!(!reached.contains(5, 0, Rotation::Right));
    assert!(!reached.contains(0, 13, Rotation::Up));
    let blocked = reachable_poses(&full_column_board());
    assert_eq!(blocked.0, [0; 4]);
}

#[test]
fn placement_legality_and_lists() {
    let empty = Board::empty();
    assert_eq!(legal_placements_compact(&empty).len(), 22);
    assert!(LegalPlacements::empty().is_empty());
    assert!(is_legal_placement(&empty, Placement { axis_column: 4, rotation: Rotation::Right }));
    assert!(!is_legal_placement(&empty, Placement { axis_column: 5, rotation: Rotation::Right }));
    assert!(!is_legal_placement(&empty, Placement { axis_column: 0, rotation: Rotation::Left }));
    assert!(!is_legal_placement(&empty, Placement { axis_column: 6, rotation: Rotation::Up }));
    assert_eq!(legal_placements_compact(&full_column_board()).len(), 0);
    assert!(legal_placements_compact(&death_column_board()).len() > 0);
    let compact = legal_placements_compact(&empty);
    assert_eq!(compact.as_slice()[0], Placement { axis_column: 0, rotation: Rotation::Right });
    assert_eq!(compact.as_slice()[21], Placement { axis_column: 5, rotation: Rotation::Up });
}

#[test]
fn routes_end_with_a_hard_drop_and_count_frames() {
    let empty = Board::empty();
    for placement in legal_placements_compact(&empty).as_slice() {
        let action = route_to_placement(&empty, *placement).unwrap();
        assert_eq!(action.route.last(), Some(&Input::HardDrop));
        assert_eq!(usize::from(action.route_frames), 2 * (action.route.len() - 1));
    }
    let illegal = Placement { axis_column: 5, rotation: Rotation::Right };
    assert!(route_to_placement(&empty, illegal).is_none());
}

#[test]
fn place_pair_lands_on_the_columns() {
    let pair = Pair { axis: Colour::Red, child: Colour::Blue };
    let mut board = Board::empty();
    assert_eq!(place_pair(&mut board, pair, Placement { axis_column: 0, rotation: Rotation::Up }), Some(1));
    assert_eq!(board.get(0, 0), Cell::Red);
    assert_eq!(board.get(0, 1), Cell::Blue);
    assert_eq!(place_pair(&mut board, pair, Placement { axis_column: 0, rotation: Rotation::Down }), Some(1));
    assert_eq!(board.get(0, 3), Cell::Red);
    assert_eq!(board.get(0, 2), Cell::Blue);
    assert_eq!(place_pair(&mut board, pair, Placement { axis_column: 0, rotation: Rotation::Right }), Some(4));
    assert_eq!(board.get(0, 4), Cell::Red);
    assert_eq!(board.get(1, 0), Cell::Blue);
    let mut full = full_column_board();
    assert_eq!(place_pair(&mut full, pair, Placement { axis_column: 2, rotation: Rotation::Up }), None);
}

#[test]
fn falling_pair_moves() {
    let empty = Board::empty();
    let spawn = Falling::spawn();
    assert_eq!(spawn, Falling { x: 2, y: 13, rotation: Rotation::Up });
    assert_eq!(spawn.cells(), [(2, 13), (2, 14)]);
    assert!(!valid_pose(&empty, spawn));
    assert!(valid(&empty, 0, 13));
    assert!(!valid(&empty, 6, 0));
    let dropped = apply_control(&empty, spawn, Control::SoftDrop);
    assert_eq!(dropped.y, 12);
    assert_eq!(apply_control(&empty, spawn, Control::Left), spawn);
    assert_eq!(rotate_cw(Rotation::Up), Rotation::Right);
    assert_eq!(rotate_ccw(Rotation::Up), Rotation::Left);
    assert_eq!(rotate_180(Rotation::Left), Rotation::Right);
    assert_eq!(
        try_rotate(&empty, spawn, Rotation::Right),
        Some(Falling { x: 2, y: 13, rotation: Rotation::Right })
    );
    let landed = hard_drop(&empty, spawn);
    assert_eq!(landed, Falling { x: 2, y: 0, rotation: Rotation::Up });
    assert_eq!(landed.placement(), Placement { axis_column: 2, rotation: Rotation::Up });
    let turned = apply_control(&empty, dropped, Control::RotateCw);
    assert_eq!(turned.rotation, Rotation::Right);
    assert_eq!(hard_drop(&empty, turned).y, 0);
}

#[test]
fn self_play_encodings() {
    let mut board = Board::empty();
    board.set(0, 0, Cell::Red);
    board.set(1, 0, Cell::Garbage);
    board.set(0, 1, Cell::Yellow);
    let encoded = encode_board(&board);
    assert_eq!(encoded.len(), 78);
    assert_eq!(&encoded[..8], &[2, 1, 0, 0, 0, 0, 5, 0]);
    assert_eq!(rotation_id(Rotation::Right), 0);
    assert_eq!(rotation_id(Rotation::Up), 3);
    let mut state = 0x9e37_79b9_7f4a_7c15u64;
    let expected = xorshift(0x9e37_79b9_7f4a_7c15);
    assert_eq!(next_random(&mut state), expected);
    assert_eq!(state, expected);
    assert_eq!(LABEL_HORIZONS, [8, 16, 32, 64]);
}

#[test]
fn sampling_follows_visit_counts() {
    let a = Placement { axis_column: 0, rotation: Rotation::Up };
    let b = Placement { axis_column: 1, rotation: Rotation::Up };
    let c = Placement { axis_column: 2, rotation: Rotation::Up };
    let only_b = [
        VisitCount { placement: a, visits: 0 },
        VisitCount { placement: b, visits: 5 },
        VisitCount { placement: c, visits: 0 },
    ];
    let mut random = 1u64;
    for _ in 0..20 {
        assert_eq!(sample_visit_action(&only_b, &mut random), b);
    }
    let none = [VisitCount { placement: a, visits: 0 }, VisitCount { placement: c, visits: 0 }];
    assert_eq!(sample_visit_action(&none, &mut random), c);
    let mut state = 42u64;
    let draw = xorshift(42) % 10;
    let split = [VisitCount { placement: a, visits: 3 }, VisitCount { placement: b, visits: 7 }];
    let expected = if draw < 3 { a } else { b };
    assert_eq!(sample_visit_action(&split, &mut state), expected);
}

#[test]
fn horizon_labels_look_ahead() {
    let chains: Vec<u8> = (0..20).map(|i| (i % 5) as u8).collect();
    let labels = horizon_labels(&chains, 4, false);
    assert_eq!(labels.survival, [true, true, false, false]);
    assert_eq!(labels.valid, [true, true, false, false]);
    assert_eq!(labels.max_chain, [4, 4, 4, 4]);
    let terminal = horizon_labels(&chains, 18, true);
    assert_eq!(terminal.survival, [false; 4]);
    assert_eq!(terminal.valid, [true; 4]);
    assert_eq!(terminal.max_chain, [4, 4, 4, 4]);
    let end = horizon_labels(&chains, 20, true);
    assert_eq!(end.max_chain, [0; 4]);
}

#[test]
fn action_descriptions() {
    let pair = Pair { axis: Colour::Green, child: Colour::Blue };
    let facts =
        describe_action(&Board::empty(), pair, Placement { axis_column: 0, rotation: Rotation::Up })
            .unwrap();
    assert_eq!(facts.column, 0);
    assert_eq!(facts.rotation, 3);
    assert_eq!(facts.axis_colour, 1);
    assert_eq!(facts.child_colour, 2);
    assert_eq!(facts.route_frames % 2, 0);
    assert_eq!(facts.after_board[0], 3);
    assert_eq!(facts.after_board[6], 4);
    assert_eq!(facts.immediate_chain, 0);
    assert!(!facts.dead);
    let blocked = describe_action(
        &full_column_board(),
        pair,
        Placement { axis_column: 0, rotation: Rotation::Up },
    );
    assert_eq!(blocked, Err(ActionError::NoRoute));
}

#[test]
fn api_names_and_parsing() {
    assert_eq!(parse_rotation("Right"), Some(Rotation::Right));
    assert_eq!(parse_rotation("r"), Some(Rotation::Right));
    assert_eq!(parse_rotation("DOWN"), Some(Rotation::Down));
    assert_eq!(parse_rotation("L"), Some(Rotation::Left));
    assert_eq!(parse_rotation("up"), Some(Rotation::Up));
    assert_eq!(parse_rotation("upward"), None);
    assert_eq!(parse_rotation(""), None);
    assert_eq!(rotation_name(Rotation::Left), "left");
    assert_eq!(input_name(Input::RotateCcw), "rotate_ccw");
    assert_eq!(input_name(Input::HardDrop), "hard_drop");
    assert_eq!(colour_name(Colour::Yellow), "yellow");
    let names = pair_response(Pair { axis: Colour::Red, child: Colour::Green });
    assert_eq!((names.axis, names.child), ("red", "green"));
    assert_eq!(default_simulations(), 800);
    assert_eq!(default_search_depth(), 8);
    assert_eq!(search_limits(0, 0), (1, 1));
    assert_eq!(search_limits(200_000, 99), (100_000, 32));
    assert_eq!(search_limits(50, 5), (50, 5));
    assert_eq!(axis_column(0), None);
    assert_eq!(axis_column(1), Some(0));
    assert_eq!(axis_column(6), Some(5));
    assert_eq!(axis_column(7), None);
}

#[test]
fn erased_positions_list_the_step() {
    let mut board = board_of_columns(&["RRRR", "", "", "", "", ""]);
    let step = board.resolve_step(1).unwrap();
    assert_eq!(
        erased_positions(step.erased_mask),
        vec![
            CellPosition { row: 12, column: 0 },
            CellPosition { row: 11, column: 0 },
            CellPosition { row: 10, column: 0 },
            CellPosition { row: 9, column: 0 },
        ]
    );
}

#[test]
fn chain_frames_show_every_step() {
    let initial = board_of_columns(&["RRRBG", "RBBBG", "GGG", "", "", ""]);
    let (frames, summary) = chain_frames(&initial);
    assert_eq!(frames.len(), 3);
    assert_eq!(frames[0].chain, 0);
    assert_eq!(frames[0].board, initial);
    assert!(frames[0].step.is_none());
    assert_eq!(frames[1].chain, 1);
    assert_eq!(frames[1].step.as_ref().unwrap().score, 240);
    assert_eq!(frames[2].step.as_ref().unwrap().score, 500);
    assert!(frames[2].board.is_empty());
    let mut copy = initial;
    assert_eq!(summary, copy.simulate_summary());
}

#[test]
fn search_state_edges() {
    let game = GameState::new(5);
    let public = game.public_state();
    let state = SearchState::from(&public);
    assert_eq!(state.pieces, public.pieces);
    assert_eq!(state.estimated_unseen_colour_counts, public.estimated_unseen_colour_counts);
    let placement = Placement { axis_column: 0, rotation: Rotation::Up };
    let pending: PendingChance = state.play(placement).unwrap();
    assert_eq!(pending.placements, 1);
    assert_eq!(pending.known_next, [public.pieces[1], public.pieces[2]]);
    assert_eq!(pending.board.get(0, 0), public.pieces[0].axis.cell());
    let revealed_pair = Pair { axis: Colour::Red, child: Colour::Red };
    let next = pending.reveal_next(revealed_pair);
    assert_eq!(next.pieces, [public.pieces[1], public.pieces[2], revealed_pair]);
    let mut expected = public.estimated_unseen_colour_counts;
    expected[0] = expected[0].saturating_sub(2);
    assert_eq!(next.estimated_unseen_colour_counts, expected);
    assert!(!next.dead);

    let exhausted = PendingChance { estimated_unseen_colour_counts: [1, 0, 0, 0], ..pending };
    let fresh = exhausted.reveal_next(Pair { axis: Colour::Blue, child: Colour::Green });
    assert_eq!(fresh.estimated_unseen_colour_counts, [64, 63, 63, 64]);

    let dead = SearchState { dead: true, ..state };
    assert!(dead.play(placement).is_none());
    let features = state.baseline_features();
    assert_eq!((features.maximum_height, features.occupied, features.chain), (0, 0, 0));
    assert!(!features.dead);
    let _evaluator = BaselineEvaluator;
}

#[test]
fn chance_weights_enumerate_drawable_pairs() {
    let (weights, total) = chance_weights([64, 64, 64, 64]);
    assert_eq!(total, 256);
    assert_eq!(weights.len(), 16);
    assert_eq!(weights[0].pair, Pair { axis: Colour::Red, child: Colour::Red });
    assert_eq!((weights[0].axis_count, weights[0].child_count), (64, 63));
    assert_eq!((weights[1].axis_count, weights[1].child_count), (64, 64));
    let (few, few_total) = chance_weights([0, 0, 1, 0]);
    assert_eq!(few_total, 4);
    assert_eq!(few.len(), 12);
    assert!(few.iter().all(|weight| weight.pair.axis != weight.pair.child));
    let (skewed, _) = chance_weights([0, 3, 0, 1]);
    assert_eq!(skewed.len(), 3);
    assert_eq!(skewed[0].pair, Pair { axis: Colour::Green, child: Colour::Green });
    assert_eq!(skewed[0].child_count, 2);
}

#[test]
fn labels_count_the_cells_each_step_erases() {
    let board = board_of_columns(&["RRRBG", "RBBBG", "GGG", "", "", ""]);
    let labels = board.chain_labels();
    let mut field = board;
    let mut chain = 1u8;
    while let Some(step) = field.resolve_step(chain) {
        let labelled = labels.vanish_step.iter().filter(|&&c| c == chain).count();
        assert_eq!(labelled, (step.colored_erased + step.garbage_erased) as usize);
        chain += 1;
    }
    assert_eq!(chain, 3);
    assert_eq!(labels.vanish_step.iter().filter(|&&c| c == 1).count(), 8);
    assert_eq!(labels.vanish_step.iter().filter(|&&c| c == 2).count(), 5);
}

#[test]
fn routes_are_as_short_as_the_moves_allow() {
    let empty = Board::empty();
    let spawn = Placement { axis_column: 2, rotation: Rotation::Up };
    let action = route_to_placement(&empty, spawn).unwrap();
    assert_eq!(action.route, vec![Input::HardDrop]);
    assert_eq!(action.route_frames, 0);
    let far_left = Placement { axis_column: 0, rotation: Rotation::Up };
    let action = route_to_placement(&empty, far_left).unwrap();
    assert_eq!(action.route, vec![Input::Left, Input::Left, Input::HardDrop]);
    assert_eq!(action.route_frames, 4);
    let turned = Placement { axis_column: 2, rotation: Rotation::Down };
    let action = route_to_placement(&empty, turned).unwrap();
    assert_eq!(action.route, vec![Input::Rotate180, Input::HardDrop]);
    assert_eq!(action.route_frames, 2);
    let right_edge = Placement { axis_column: 5, rotation: Rotation::Left };
    let action = route_to_placement(&empty, right_edge).unwrap();
    assert_eq!(
        action.route,
        vec![Input::Right, Input::Right, Input::Right, Input::RotateCw, Input::HardDrop]
    );
    assert_eq!(action.route_frames, 8);
}

#[test]
fn each_placement_has_one_route() {
    let board = board_of_columns(&["RGBY", "", "GG", "BYRGBYRG", "", "Y"]);
    let actions = legal_actions(&board);
    assert!(!actions.is_empty());
    for action in &actions {
        let again = route_to_placement(&board, action.placement).unwrap();
        assert_eq!(again, *action);
        assert_eq!(usize::from(action.route_frames), 2 * (action.route.len() - 1));
    }
}

#[test]
fn hidden_row_garbage_never_vanishes() {
    let rows = "O...../R...../R...../R...../R...../B...../G...../B...../G...../B...../G...../B...../G.....";
    let mut board = Board::parse(rows).unwrap();
    let step = board.resolve_step(1).unwrap();
    assert_eq!(step.colored_erased, 4);
    assert_eq!(step.garbage_erased, 0);
    assert_eq!(step.erased_mask & (1u128 << (16 + 12 + 1)), 0);
    assert_eq!(board.get(0, 8), Cell::Garbage);
}

#[test]
fn parse_errors_read_as_messages() {
    assert_eq!(
        ParseBoardError::WrongRowCount { actual: 2 }.message(),
        "expected 13 rows, got 2"
    );
    assert_eq!(
        ParseBoardError::WrongColumnCount { row: 3, actual: 105 }.message(),
        "row 3 must contain 6 cells, got 105"
    );
    assert_eq!(
        ParseBoardError::InvalidCell { row: 1, column: 2, value: 'x' }.message(),
        "invalid cell 'x' at row 1, column 2"
    );
    assert_eq!(
        ParseBoardError::InvalidCell { row: 10, column: 0, value: '\n' }.message(),
        "invalid cell '\\n' at row 10, column 0"
    );
    assert_eq!(
        ParseBoardError::FloatingCell { row: 12, column: 6 }.message(),
        "floating cell at row 12, column 6"
    );
}

#[test]
fn queue_comes_round_after_128_pairs() {
    let mut generator = Modern128::new(17);
    let first = generator.visible();
    for step in 1..=128u32 {
        generator.advance();
        assert_eq!(u32::from(generator.position()), step % 128);
    }
    assert_eq!(generator.visible(), first);
}

#[test]
fn simulation_leaves_a_stable_field() {
    let mut board = board_of_columns(&["RRRBG", "RBBBG", "GGG", "", "", ""]);
    let first = board.simulate();
    assert_eq!(first.steps.len(), 2);
    let settled = board;
    let second = board.simulate();
    assert!(second.steps.is_empty());
    assert_eq!(second.score, 0);
    assert_eq!(second.all_clear, first.all_clear);
    assert_eq!(board, settled);
}

#[test]
fn compact_lists_depend_on_three_height_classes() {
    let low = board_of_columns(&["R", "GG", "", "BYB", "", "Y"]);
    let lower = board_of_columns(&["", "", "RGB", "", "R", ""]);
    assert_eq!(legal_placements_compact(&low), legal_placements_compact(&lower));
    assert_eq!(
        legal_placements_compact(&low),
        legal_placements_compact(&Board::empty())
    );
}

#[test]
fn labels_follow_puyos_by_their_place_in_the_column() {
    let mut board = Board::empty();
    board.set(0, 0, Cell::Red);
    for y in 2..6 {
        board.set(0, y, Cell::Red);
    }
    let labels = board.chain_labels();
    assert_eq!(labels.chains, 1);
    assert_eq!(labels.vanish_step[0], 0);
    assert_eq!(labels.vanish_step[2 * WIDTH], 0);
    assert_eq!(labels.fall_distance[2 * WIDTH], 0);
    for y in 3..6 {
        assert_eq!(labels.vanish_step[y * WIDTH], 1);
    }
}

#[test]
fn default_cell_is_empty() {
    assert_eq!(Cell::default(), Cell::Empty);
}
