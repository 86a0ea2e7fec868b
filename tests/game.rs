use azul_engine::bag::Bag;
use azul_engine::board::{BonusTypes, Board, Grid};
use azul_engine::bowl::Bowl;
use azul_engine::codec::{parse_move, FromAzulFEN, ParseGameStateError, ParseMoveError};
use azul_engine::game_move::{IllegalMoveError, Move, Row};
use azul_engine::gamestate::GameState;
use azul_engine::protocol::{Protocol, ProtocolFormat};

fn empty_grid() -> Grid {
    [[None; 5]; 5]
}

fn tile_counts(g: &GameState) -> [usize; 5] {
    let mut counts = [0usize; 5];
    for t in g.bag().items() {
        counts[*t] += 1;
    }
    for bowl in g.bowls() {
        for t in bowl.tiles() {
            counts[*t] += 1;
        }
    }
    for board in g.boards() {
        for t in board.get_active_tiles() {
            counts[t] += 1;
        }
    }
    counts
}

fn scored_board(score: usize, full_rows: usize) -> Board {
    let mut placed = empty_grid();
    for r in 0..full_rows {
        for c in 0..5 {
            placed[r][c] = Some(Board::get_tile_type_at_pos(r, c));
        }
    }
    Board::builder().placed(placed).score(score).build()
}

fn game_with(boards: Vec<Board>, bowls: Vec<Vec<usize>>, first: Option<usize>) -> GameState {
    GameState::builder()
        .active_player(0)
        .boards(boards)
        .bowls(bowls.into_iter().map(Bowl::from_tiles).collect())
        .bag(Bag::from_items(vec![0, 1, 2, 3, 4]))
        .first_token_owner(first)
        .build()
}

#[test]
fn new_game_has_full_supply() {
    let g = GameState::new(2);
    assert_eq!(g.boards().len(), 2);
    assert_eq!(g.bowls().len(), 6);
    assert_eq!(g.bag().items().len(), 100);
    assert_eq!(tile_counts(&g), [20; 5]);
    assert!(g.round_over());
    assert!(g.get_valid_moves().is_empty());
}

#[test]
fn setup_fills_each_pool_but_the_centre() {
    let mut g = GameState::new(3);
    g.setup_next_round();
    assert_eq!(g.bowls().len(), 8);
    assert!(g.bowls()[0].tiles().is_empty());
    for bowl in &g.bowls()[1..] {
        assert_eq!(bowl.tiles().len(), 4);
        let mut sorted = bowl.tiles().clone();
        sorted.sort();
        assert_eq!(&sorted, bowl.tiles());
    }
    assert_eq!(g.bag().items().len(), 100 - 28);
    assert_eq!(tile_counts(&g), [20; 5]);
    assert!(!g.round_over());
    assert!(!g.get_valid_moves().is_empty());
}

#[test]
fn tiles_are_never_created() {
    let mut g = GameState::new(2);
    g.setup_next_round();
    let mut rounds = 0;
    while !g.is_game_over() && rounds < 40 {
        while !g.round_over() {
            let moves = g.get_valid_moves();
            assert!(!moves.is_empty());
            let m = moves[moves.len() / 2];
            assert_eq!(g.make_move(&m), Ok(()));
            let counts = tile_counts(&g);
            for c in counts {
                assert!(c <= 20);
            }
        }
        assert!(g.get_valid_moves().is_empty());
        g.setup_next_round();
        let counts = tile_counts(&g);
        for c in counts {
            assert!(c <= 20);
        }
        rounds += 1;
    }
}

#[test]
fn first_centre_pick_takes_the_token_and_a_penalty() {
    let mut g = game_with(
        vec![Board::new(), Board::new()],
        vec![vec![1, 1, 2], vec![0, 3], vec![], vec![], vec![], vec![]],
        None,
    );
    let m = Move { bowl: 0, tile_type: 1, row: Row::Wall(1) };
    assert_eq!(g.make_move(&m), Ok(()));
    assert_eq!(g.first_token_owner(), Some(0));
    assert_eq!(g.boards()[0].penalties(), 1);
    assert_eq!(g.boards()[0].holds()[1][1], Some(1));
    assert_eq!(g.bowls()[0].tiles(), &vec![2]);
    assert_eq!(g.active_player(), 1);
    let m = Move { bowl: 0, tile_type: 2, row: Row::Wall(0) };
    assert_eq!(g.make_move(&m), Ok(()));
    assert_eq!(g.first_token_owner(), Some(0));
    assert_eq!(g.boards()[1].penalties(), 0);
    assert_eq!(g.active_player(), 0);
}

#[test]
fn first_centre_pick_to_the_floor_also_pays() {
    let mut g = game_with(
        vec![Board::new(), Board::new()],
        vec![vec![4, 4], vec![], vec![], vec![], vec![], vec![]],
        None,
    );
    let m = Move { bowl: 0, tile_type: 4, row: Row::Floor };
    assert_eq!(g.make_move(&m), Ok(()));
    assert_eq!(g.boards()[0].penalties(), 3);
}

#[test]
fn remainder_goes_to_the_centre() {
    let mut g = game_with(
        vec![Board::new(), Board::new()],
        vec![vec![3], vec![0, 1, 1, 4], vec![], vec![], vec![], vec![]],
        None,
    );
    let m = Move { bowl: 1, tile_type: 1, row: Row::Wall(4) };
    assert_eq!(g.make_move(&m), Ok(()));
    assert!(g.bowls()[1].tiles().is_empty());
    assert_eq!(g.bowls()[0].tiles(), &vec![0, 3, 4]);
    assert_eq!(g.first_token_owner(), None);
    assert_eq!(g.boards()[0].penalties(), 0);
}

#[test]
fn illegal_move_changes_nothing() {
    let mut g = game_with(
        vec![Board::new(), Board::new()],
        vec![vec![], vec![0, 1], vec![], vec![], vec![], vec![]],
        None,
    );
    let before = g.get_azul_fen();
    assert_eq!(g.make_move(&Move { bowl: 1, tile_type: 2, row: Row::Floor }), Err(IllegalMoveError));
    assert_eq!(g.make_move(&Move { bowl: 9, tile_type: 0, row: Row::Floor }), Err(IllegalMoveError));
    assert_eq!(g.make_move(&Move { bowl: 1, tile_type: 0, row: Row::Wall(5) }), Err(IllegalMoveError));
    assert_eq!(g.get_azul_fen(), before);
}

#[test]
fn legal_moves_in_order() {
    let g = game_with(
        vec![Board::new(), Board::new()],
        vec![vec![], vec![0, 2], vec![], vec![], vec![], vec![]],
        None,
    );
    let moves = g.get_valid_moves();
    assert_eq!(moves.len(), 12);
    assert_eq!(moves[0], Move { bowl: 1, tile_type: 0, row: Row::Wall(0) });
    assert_eq!(moves[5], Move { bowl: 1, tile_type: 0, row: Row::Floor });
    assert_eq!(moves[6], Move { bowl: 1, tile_type: 2, row: Row::Wall(0) });
}

#[test]
fn no_legal_moves_iff_round_over() {
    let g = game_with(
        vec![Board::new(), Board::new()],
        vec![vec![], vec![], vec![], vec![], vec![], vec![]],
        None,
    );
    assert!(g.round_over());
    assert!(g.get_valid_moves().is_empty());
    let g = game_with(
        vec![Board::new(), Board::new()],
        vec![vec![], vec![], vec![], vec![], vec![], vec![3]],
        None,
    );
    assert!(!g.round_over());
    assert!(!g.get_valid_moves().is_empty());
}

#[test]
fn winner_by_score_then_rows() {
    let g = game_with(
        vec![scored_board(10, 0), scored_board(15, 1), scored_board(15, 2)],
        vec![vec![]; 8],
        None,
    );
    assert_eq!(g.get_winner(), 2);
    assert!(g.is_game_over());
}

#[test]
fn winner_tie_goes_to_lowest_index() {
    let g = game_with(
        vec![scored_board(3, 0), scored_board(9, 1), scored_board(9, 1)],
        vec![vec![]; 8],
        None,
    );
    assert_eq!(g.get_winner(), 1);
    let g = game_with(vec![Board::new(), Board::new()], vec![vec![]; 6], None);
    assert_eq!(g.get_winner(), 0);
    assert!(!g.is_game_over());
}

#[test]
fn next_round_starts_with_token_holder() {
    let mut g = game_with(
        vec![Board::new(), Board::new()],
        vec![vec![], vec![], vec![], vec![], vec![], vec![]],
        Some(1),
    );
    g.setup_next_round();
    assert_eq!(g.active_player(), 1);
    assert_eq!(g.first_token_owner(), None);
    for bowl in &g.bowls()[1..] {
        assert_eq!(bowl.tiles().len(), 4);
    }
}

#[test]
fn fen_of_a_known_state() {
    let mut placed = empty_grid();
    placed[2][2] = Some(0);
    let mut holds = empty_grid();
    holds[1][0] = Some(4);
    holds[1][1] = Some(4);
    let bonuses = BonusTypes { rows: [false, false, false, false, true], columns: [false; 5], tile_types: [false; 5] };
    let b0 = Board::builder().placed(placed).holds(holds).bonuses(bonuses).score(7).penalties(1).build();
    let g = GameState::builder()
        .active_player(1)
        .boards(vec![b0, Board::new()])
        .bowls(vec![
            Bowl::from_tiles(vec![0, 0, 2]),
            Bowl::new(),
            Bowl::from_tiles(vec![1, 1, 3, 4]),
            Bowl::new(),
            Bowl::new(),
            Bowl::new(),
        ])
        .bag(Bag::from_items(vec![0, 3, 4]))
        .first_token_owner(None)
        .build();
    let fen = g.get_azul_fen();
    assert_eq!(
        fen,
        "5/5/2-2/5/5 0042000000 00001 00000 00000 7 1 ; 5/5/5/5/5 0000000000 00000 00000 00000 0 0 ; | 002 - 1134 - - - | 034 | 1 -\n"
    );
    let back = GameState::from_azul_fen(&fen).unwrap();
    assert_eq!(back.get_azul_fen(), fen);
    assert_eq!(back.boards()[0].score(), 7);
    assert_eq!(back.boards()[0].holds()[1][1], Some(4));
    assert_eq!(back.boards()[0].placed()[2][2], Some(0));
    assert_eq!(back.active_player(), 1);
    assert_eq!(back.bag().items(), &vec![0, 3, 4]);
}

#[test]
fn round_trip_through_a_game() {
    let mut g = GameState::new(3);
    g.setup_next_round();
    for _ in 0..30 {
        if g.round_over() {
            g.setup_next_round();
        }
        let fen = g.get_azul_fen();
        let back = GameState::from_azul_fen(&fen).unwrap();
        assert_eq!(back.get_azul_fen(), fen);
        assert_eq!(back.get_valid_moves(), g.get_valid_moves());
        for i in 0..3 {
            assert_eq!(back.boards()[i].get_score(), g.boards()[i].get_score());
        }
        let moves = g.get_valid_moves();
        let m = moves[moves.len() - 1];
        g.make_move(&m).unwrap();
    }
}

#[test]
fn malformed_fen_is_rejected() {
    let good = "5/5/5/5/5 0000000000 00000 00000 00000 0 0 ; | - - - - | 01 | 0 -\n";
    assert!(GameState::from_azul_fen(good).is_ok());
    let trimmed = good.trim();
    assert_eq!(GameState::from_azul_fen(trimmed).unwrap().get_azul_fen(), good);
    let bad = [
        "",
        "garbage",
        "5/5/5/5/5 0000000000 0000 00000 00000 0 0 ; | - - - - | 01 | 0 -\n",
        "5/5/5/5/5 0000000000 00000 00000 00000 x 0 ; | - - - - | 01 | 0 -\n",
        "5/5/5/5/5 0000000000 00000 00000 00000 0 0 ; | - - - - | 01 | 1 -\n",
        "5/5/5/5/5 0000000000 00000 00000 00000 0 0 ; | - - - | 01 | 0 -\n",
        "5/5/5/5/4 0000000000 00000 00000 00000 0 0 ; | - - - - | 01 | 0 -\n",
        "5/5/5/5/5 0000000000 00000 00000 00000 0 0 ; | - - - - | 07 | 0 -\n",
        "5/5/5/5/5 0300000000 00000 00000 00000 0 0 ; | - - - - | 01 | 0 -\n",
        "5/5/5/5/5 0000000000 00000 00000 00000 00 0 ; | - - - - | 01 | 0 -\n",
        "5/5/5/5/5 0000000000 00000 00000 00000 0 0 ; | - - - - | 01 | 0 3\n",
        "| - - - - | 01 | 0 -\n",
        "5/5/5/5/5 0000000000 00000 00000 00000 0 0 ; | 10 - - - | 01 | 0 -\n",
        "5/5/5/5/5 0000000000 00000 00000 00000 0 0 ; | - - - - | 01 | 0 -\n\n",
    ];
    for text in bad {
        assert_eq!(GameState::from_azul_fen(text).err(), Some(ParseGameStateError), "{:?}", text);
    }
}

#[test]
fn board_and_bowl_records() {
    let b = Board::from_board_fen("-4/5/5/5/5 1100000000 00000 00000 00000 12 3").unwrap();
    assert_eq!(b.placed()[0][0], Some(0));
    assert_eq!(b.holds()[0][0], Some(1));
    assert_eq!(b.get_score(), 12);
    assert_eq!(b.penalties(), 3);
    assert_eq!(b.fmt_uci_like(), "-4/5/5/5/5 1100000000 00000 00000 00000 12 3 ;");
    assert!(Board::from_board_fen("5/5/5/5/5 0000000000 00000 00000 00000 1").is_err());
    let w = Bowl::from_bowl_fen("0134").unwrap();
    assert_eq!(w.tiles(), &vec![0, 1, 3, 4]);
    assert_eq!(w.fmt_uci_like(), "0134");
    assert!(Bowl::from_bowl_fen("-").unwrap().tiles().is_empty());
    assert!(Bowl::from_bowl_fen("19").is_err());
}

#[test]
fn move_text() {
    assert_eq!(parse_move("040102"), Ok(Move { bowl: 4, tile_type: 1, row: Row::Wall(1) }));
    assert_eq!(parse_move("000000"), Ok(Move { bowl: 0, tile_type: 0, row: Row::Floor }));
    assert_eq!(parse_move("120305"), Ok(Move { bowl: 12, tile_type: 3, row: Row::Wall(4) }));
    assert_eq!(parse_move("04010"), Err(ParseMoveError));
    assert_eq!(parse_move("0401020"), Err(ParseMoveError));
    assert_eq!(parse_move("0401a2"), Err(ParseMoveError));
    assert_eq!(parse_move("+40102"), Err(ParseMoveError));
}

#[test]
fn bowl_operations() {
    let mut w = Bowl::new();
    w.fill(vec![3, 0, 3, 1]);
    assert_eq!(w.tiles(), &vec![0, 1, 3, 3]);
    assert_eq!(w.get_tile_types(), vec![0, 1, 3]);
    w.extend(&vec![2, 0]);
    assert_eq!(w.tiles(), &vec![0, 0, 1, 2, 3, 3]);
    let (take, keep) = w.take_tiles(3);
    assert_eq!(take, vec![3, 3]);
    assert_eq!(keep, vec![0, 0, 1, 2]);
    assert!(w.tiles().is_empty());
    assert!(w.get_tile_types().is_empty());
}

#[test]
fn bag_draws_from_the_end() {
    let mut bag = Bag::from_items(vec![1, 2, 3]);
    assert_eq!(bag.draw(2), vec![3, 2]);
    assert_eq!(bag.draw(5), vec![1]);
    assert_eq!(bag.draw(1), Vec::<usize>::new());
    assert_eq!(bag.next(), None);
    let mut shuffled = Bag::new(vec![0, 1, 2, 3, 4, 5, 6, 7]);
    let mut items = shuffled.draw(8);
    items.sort();
    assert_eq!(items, vec![0, 1, 2, 3, 4, 5, 6, 7]);
    shuffled.restock(vec![4, 4, 1]);
    let mut items = shuffled.items().clone();
    items.sort();
    assert_eq!(items, vec![1, 4, 4]);
}

#[test]
fn renderings() {
    let g = game_with(vec![Board::new(), Board::new()], vec![vec![1, 2]; 6], None);
    let human = g.fmt_protocol(Protocol::Human);
    assert!(human.contains("player 0 (active)"));
    assert!(human.contains("0: 12 | "));
    assert_eq!(g.fmt_protocol(Protocol::UCILike), g.get_azul_fen());
}

#[test]
fn row_text() {
    assert_eq!(Row::Floor.fmt_text(), "-");
    assert_eq!(Row::Wall(3).fmt_text(), "3");
}

#[test]
fn record_readers_reject_non_canonical_text() {
    for text in ["", "-xyz", "19", "10", "0a", " 1"] {
        assert!(Bowl::from_bowl_fen(text).is_err(), "{:?}", text);
    }
    let bad_boards = [
        "5/5/5/5/5 0000000000 00200 00000 00000 0 0",
        "5/5/5/5/5 000000000 00000 00000 00000 0 0",
        "5/5/5/5/5 0300000000 00000 00000 00000 0 0",
        "5/5/5/5 0000000000 00000 00000 00000 0 0",
        "5/5/5/5/5/5 0000000000 00000 00000 00000 0 0",
        "5/5/5/5/5 0000000000 00000 00000 00000 01 0",
        "5/5/5/5/5 0000000000 00000 00000 00000 0 0 ;",
        "5/5/5/5/5  0000000000 00000 00000 00000 0 0",
    ];
    for text in bad_boards {
        assert!(Board::from_board_fen(text).is_err(), "{:?}", text);
        assert!(<Board as FromAzulFEN>::from_azul_fen(text).is_err(), "{:?}", text);
    }
}

#[test]
fn trait_readers_round_trip() {
    let text = "2-1-/-4/5/5/5 0012000000 10000 00000 00000 9 2";
    let b = <Board as FromAzulFEN>::from_azul_fen(text).unwrap();
    let mut record = b.fmt_uci_like();
    assert!(record.ends_with(" ;"));
    record.truncate(record.len() - 2);
    assert_eq!(record, text);
    let w = <Bowl as FromAzulFEN>::from_azul_fen("0024").unwrap();
    assert_eq!(w.tiles(), &vec![0, 0, 2, 4]);
    let line = "5/5/5/5/5 0000000000 00000 00000 00000 0 0 ; | - 1 - - | 03 | 0 -\n";
    let g = <GameState as FromAzulFEN>::from_azul_fen(line).unwrap();
    assert_eq!(g.get_azul_fen(), line);
}

#[test]
fn human_board_layout() {
    let mut holds = empty_grid();
    holds[1][0] = Some(3);
    let mut placed = empty_grid();
    placed[0][2] = Some(2);
    let b = Board::builder().holds(holds).placed(placed).score(12).penalties(1).build();
    let mut expected = String::new();
    for r in 0..5 {
        expected.push_str(&(r + 1).to_string());
        expected.push_str(&"  ".repeat(5 - r));
        for h in 0..=r {
            expected.push_str(if r == 1 && h == 0 { "3 " } else { ". " });
        }
        expected.push_str(" | ");
        for c in 0..5 {
            expected.push_str(if r == 0 && c == 2 { "2 " } else { ". " });
        }
        expected.push('\n');
    }
    expected.push_str("score: 12\npenalties: 1\n\n");
    assert_eq!(b.fmt_human(), expected);
    assert_eq!(Bowl::from_tiles(vec![0, 4]).fmt_human(), "04");
    assert_eq!(Bowl::new().fmt_human(), "-");
}

#[test]
fn pools_are_drawn_from_the_end_of_the_bag() {
    let bag: Vec<usize> = (0..30).map(|i| (i * 7) % 5).collect();
    let mut g = GameState::builder()
        .active_player(0)
        .boards(vec![Board::new(), Board::new()])
        .bowls((0..6).map(|_| Bowl::new()).collect())
        .bag(Bag::from_items(bag.clone()))
        .first_token_owner(None)
        .build();
    g.setup_next_round();
    assert_eq!(g.bag().items(), &bag[..10].to_vec());
    for k in 1..6 {
        let end = 30 - 4 * (k - 1);
        let mut expected = bag[end - 4..end].to_vec();
        expected.sort();
        assert_eq!(g.bowls()[k].tiles(), &expected);
    }
}
