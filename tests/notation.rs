use chess_notation::fen::{fen, parse_fen};
use chess_notation::model::{Color, File, Piece, PieceKind, Position, Rank, Square, SquareContent};
use chess_notation::pgn::PgnGame;
use chess_notation::san::{parse_algebraic_turn, parse_turn, AlgebraicTurn, Annotation, Mark, Side, TurnError};
use chess_notation::{game_from_pgn, replay_game, serialize_position_sequence};

const START: &str = "rnbqkbnr/pppppppp/8/8/8/8/PPPPPPPP/RNBQKBNR w KQkq - 0 1";

fn tokens(list: &[&str]) -> Vec<String> {
    list.iter().map(|t| t.to_string()).collect()
}

fn fens(start: &str, list: &[&str]) -> Result<Vec<String>, String> {
    replay_game(start, &tokens(list)).map(|ps| ps.into_iter().map(fen).collect())
}

#[test]
fn starting_fen_is_default_position() {
    assert_eq!(parse_fen(START).unwrap(), Position::default());
    assert_eq!(fen(Position::default()), START);
}

#[test]
fn board_only_fen_gets_default_fields() {
    let p = parse_fen("rnbqkbnr/pppppppp/8/8/8/8/PPPPPPPP/RNBQKBNR").unwrap();
    assert_eq!(p, Position::default());
}

#[test]
fn fen_round_trip_on_examples() {
    for s in [
        START,
        "rnbqkbnr/pppppppp/8/8/4P3/8/PPPP1PPP/RNBQKBNR b KQkq e3 0 1",
        "r3k2r/8/8/8/8/8/8/R4RK1 b kq - 1 1",
        "8/8/8/8/8/8/8/8 w - - 4294967295 4294967295",
        "4k3/8/8/3pP3/8/8/8/4K3 w Kq d6 12 40",
    ] {
        assert_eq!(fen(parse_fen(s).unwrap()), s);
    }
}

#[test]
fn malformed_fens_are_rejected() {
    for s in [
        "",
        "rnbqkbnr/pppppppp/8/8/8/8/PPPPPPPP",
        "rnbqkbnr/pppppppp/8/8/8/8/PPPPPPPP/RNBQKBN w KQkq - 0 1",
        "rnbqkbnr/pppppppp/9/8/8/8/PPPPPPPP/RNBQKBNR w KQkq - 0 1",
        "rnbqkbnr/pppppppp/8/8/8/8/PPPPPPPP/RNBQKBNX w KQkq - 0 1",
        "rnbqkbnr/pppppppp/8/8/8/8/PPPPPPPP/RNBQKBNR x KQkq - 0 1",
        "rnbqkbnr/pppppppp/8/8/8/8/PPPPPPPP/RNBQKBNR w KQkq - 0",
        "rnbqkbnr/pppppppp/8/8/8/8/PPPPPPPP/RNBQKBNR w QK - 0 1",
        "rnbqkbnr/pppppppp/8/8/8/8/PPPPPPPP/RNBQKBNR w KQkq e 0 1",
        "rnbqkbnr/pppppppp/8/8/8/8/PPPPPPPP/RNBQKBNR w KQkq - 0 4294967296",
        "rnbqkbnr/pppppppp/8/8/8/8/PPPPPPPP/RNBQKBNR w KQkq - 0 1 extra",
    ] {
        let r = parse_fen(s);
        assert!(r.is_err(), "{s}");
        assert!(r.unwrap_err().starts_with("invalid FEN: "));
    }
}

#[test]
fn e4_from_the_start() {
    let out = fens(START, &["e4"]).unwrap();
    assert_eq!(out[1], "rnbqkbnr/pppppppp/8/8/4P3/8/PPPP1PPP/RNBQKBNR b KQkq e3 0 1");
}

#[test]
fn opening_sequence_gives_distinct_positions() {
    let out = fens(START, &["e4", "e5", "Nf3", "Nc6", "Bb5"]).unwrap();
    assert_eq!(out.len(), 6);
    for i in 0..out.len() {
        for j in 0..i {
            assert_ne!(out[i], out[j]);
        }
    }
    assert_eq!(out[5], "r1bqkbnr/pppp1ppp/2n5/1B2p3/4P3/5N2/PPPP1PPP/RNBQK2R b KQkq - 3 3");
}

#[test]
fn queen_takes_f7_is_legal() {
    let out = fens(START, &["e4", "e5", "Qh5", "Nc6", "Qxf7"]).unwrap();
    assert_eq!(out[5], "r1bqkbnr/pppp1Qpp/2n5/4p3/4P3/8/PPPP1PPP/RNB1KBNR b KQkq - 0 3");
}

#[test]
fn missing_piece_is_illegal_with_move_number() {
    let err = replay_game(START, &tokens(&["e4", "e5", "Nf3", "Nc6", "Bb5", "a6", "Rd4"])).unwrap_err();
    assert_eq!(err, "illegal move: 4. Rd4");
    let err = replay_game(START, &tokens(&["e4", "e5", "Nf3", "Nc6", "Bb5", "a6", "Ba4", "Qe3"])).unwrap_err();
    assert_eq!(err, "illegal move: 4... Qe3");
}

#[test]
fn unparseable_token_names_the_token() {
    let err = replay_game(START, &tokens(&["e4", "zz9"])).unwrap_err();
    assert_eq!(err, "invalid SAN: 1... zz9");
}

#[test]
fn rook_disambiguation() {
    let start = "4k3/8/8/8/8/8/8/R4RK1 w - - 0 1";
    assert_eq!(fens(start, &["Rad1"]).unwrap()[1], "4k3/8/8/8/8/8/8/3R1RK1 b - - 1 1");
    assert_eq!(fens(start, &["Rfd1"]).unwrap()[1], "4k3/8/8/8/8/8/8/R2R2K1 b - - 1 1");
    assert_eq!(replay_game(start, &tokens(&["Rd1"])).unwrap_err(), "ambiguous move: 1. Rd1");
}

#[test]
fn direct_ambiguity_error_value() {
    let p = parse_fen("4k3/8/8/8/8/8/8/R4RK1 w - - 0 1").unwrap();
    let t = parse_algebraic_turn("Rd1").unwrap();
    assert_eq!(t.apply(0, &p), Err(TurnError::AmbiguousMove { turn_index: 0, turn: t }));
    let t = parse_algebraic_turn("Ra8").unwrap();
    assert!(t.apply(0, &p).is_ok());
    let t = parse_algebraic_turn("Qd1").unwrap();
    assert_eq!(t.apply(0, &p), Err(TurnError::IllegalMove { turn_index: 0, turn: t }));
}

#[test]
fn castling_kingside_and_queenside() {
    let start = "r3k2r/8/8/8/8/8/8/R3K2R w KQkq - 0 1";
    assert_eq!(fens(start, &["O-O"]).unwrap()[1], "r3k2r/8/8/8/8/8/8/R4RK1 b kq - 1 1");
    assert_eq!(fens(start, &["0-0-0"]).unwrap()[1], "r3k2r/8/8/8/8/8/8/2KR3R b kq - 1 1");
    assert_eq!(fens(start, &["O-O", "O-O-O"]).unwrap()[2], "2kr3r/8/8/8/8/8/8/R4RK1 w - - 2 2");
}

#[test]
fn castling_refused() {
    // An occupied square between king and rook.
    assert!(replay_game("r3k2r/8/8/8/8/8/8/R3KB1R w KQkq - 0 1", &tokens(&["O-O"])).is_err());
    assert!(replay_game("r3k2r/8/8/8/8/8/8/R3K1NR w KQkq - 0 1", &tokens(&["O-O"])).is_err());
    // The right is gone.
    assert_eq!(
        replay_game("r3k2r/8/8/8/8/8/8/R3K2R w Qkq - 0 1", &tokens(&["O-O"])).unwrap_err(),
        "illegal move: 1. 0-0"
    );
    // The king is not at home.
    assert!(replay_game("r3k2r/8/8/8/8/8/8/R4K1R w KQkq - 0 1", &tokens(&["O-O"])).is_err());
    // After the rook has moved and come back.
    assert!(replay_game("r3k2r/8/8/8/8/8/8/R3K2R w KQkq - 0 1", &tokens(&["Rh2", "a6", "Rh1", "a5", "O-O"])).is_err());
}

#[test]
fn en_passant_capture_and_expiry() {
    let start = "4k3/8/8/8/3p4/8/4P3/4K3 w - - 0 1";
    let out = fens(start, &["e4", "dxe3"]).unwrap();
    assert_eq!(out[1], "4k3/8/8/8/3pP3/8/8/4K3 b - e3 0 1");
    assert_eq!(out[2], "4k3/8/8/8/8/4p3/8/4K3 w - - 0 2");
    let out = fens(start, &["e4", "Kd7"]).unwrap();
    assert_eq!(out[2], "8/3k4/8/8/3pP3/8/8/4K3 w - - 1 2");
    assert!(replay_game(start, &tokens(&["e4", "Kd7", "Kd2", "dxe3"])).is_err());
}

#[test]
fn pinned_piece_cannot_move() {
    let start = "4k3/4r3/8/8/8/8/4B3/4K3 w - - 0 1";
    assert_eq!(replay_game(start, &tokens(&["Bd3"])).unwrap_err(), "illegal move: 1. Bd3");
    assert!(replay_game(start, &tokens(&["Kd2"])).is_ok());
    assert!(replay_game(start, &tokens(&["Bf1"])).is_err());
    // Once the king has left the file, the bishop is free.
    assert!(replay_game(start, &tokens(&["Kd1", "Kd8", "Bd3"])).is_ok());
}

#[test]
fn promotion_forms() {
    let start = "8/4P3/8/8/8/8/8/k3K3 w - - 0 1";
    for t in ["e8=Q", "e8Q", "e8/Q", "e8(Q)"] {
        assert_eq!(fens(start, &[t]).unwrap()[1], "4Q3/8/8/8/8/8/8/k3K3 b - - 0 1");
    }
    assert_eq!(fens(start, &["e8=N"]).unwrap()[1], "4N3/8/8/8/8/8/8/k3K3 b - - 0 1");
}

#[test]
fn san_parse_and_print() {
    for t in ["e4", "Nf3", "exd5", "Nbd7", "R1a3", "Qh4xe1", "e8=Q", "Bxe5", "0-0", "0-0-0", "3e4"] {
        assert_eq!(parse_algebraic_turn(t).unwrap().to_san(), t);
    }
    assert_eq!(parse_algebraic_turn("O-O").unwrap(), AlgebraicTurn::Castle(Side::King));
    assert_eq!(parse_algebraic_turn("exd5:").is_err(), true);
    assert_eq!(parse_algebraic_turn("e8(Q)").unwrap().to_san(), "e8=Q");
    assert_eq!(parse_algebraic_turn("Nb:d7").unwrap().to_san(), "Nbxd7");
    assert_eq!(parse_algebraic_turn("B\u{d7}e5").unwrap().to_san(), "Bxe5");
    assert_eq!(
        parse_algebraic_turn("Nbd7").unwrap(),
        AlgebraicTurn::Normal {
            destination_file: File::D,
            destination_rank: Rank::Seven,
            piece: PieceKind::Knight,
            departure_file: Some(File::B),
            departure_rank: None,
            capture: false,
            promotion: None,
        }
    );
    for bad in ["", "e", "e9", "i4", "Pe4", "e4e", "xx4", "e8(Q", "Zf3"] {
        assert!(parse_algebraic_turn(bad).is_err(), "{bad}");
    }
}

#[test]
fn san_marks_and_annotations() {
    let t = parse_turn("Qxf7#").unwrap();
    assert_eq!(t.mark, Some(Mark::Checkmate));
    assert_eq!(t.annotation, None);
    let t = parse_turn("e4!!").unwrap();
    assert_eq!(t.annotation, Some(Annotation::Brilliant));
    let t = parse_turn("Nf3+?!").unwrap();
    assert_eq!(t.annotation, Some(Annotation::Dubious));
    assert_eq!(t.mark, Some(Mark::Check));
    assert_eq!(parse_turn("O-O+").unwrap().turn, AlgebraicTurn::Castle(Side::King));
    assert_eq!(parse_turn("d4?").unwrap().annotation, Some(Annotation::Mistake));
    assert_eq!(parse_turn("d4!?").unwrap().annotation, Some(Annotation::Interesting));
    assert_eq!(parse_turn("d4??").unwrap().annotation, Some(Annotation::Blunder));
    assert_eq!(parse_turn("d4!").unwrap().annotation, Some(Annotation::Good));
}

#[test]
fn square_and_piece_helpers() {
    assert_eq!(Square::new(File::E, Rank::Four).name(), "e4");
    assert_eq!(Square::new(File::A, Rank::One).transpose(), Square::new(File::H, Rank::Eight));
    assert_eq!(Square::all().len(), 64);
    assert_eq!(File::new(8), None);
    assert_eq!(Rank::new(3), Some(Rank::Four));
    assert_eq!(Color::White.en_passant_target_rank(), Rank::Six);
    assert_eq!(Color::Black.en_passant_capture_rank(), Rank::Four);
    let p = Piece::new(Color::White, PieceKind::Queen);
    assert_eq!(p.flip(), Piece::new(Color::Black, PieceKind::Queen));
    assert!(SquareContent::Piece(p).is(p));
    assert!(SquareContent::Empty.is_empty());
    let inverted = Position::default().invert();
    assert_eq!(fen(inverted), "rnbqkbnr/pppppppp/8/8/8/8/PPPPPPPP/RNBQKBNR b KQkq - 0 1");
}

#[test]
fn pgn_default_start() {
    let pgn = "[Event \"Casual\"]\n[White \"A \\\"quoted\\\" name\"]\n\n1. e4 e5 2. Nf3 {a comment} Nc6 $1 3. Bb5 ; rest of line\n (Bc4 Bc5 ) a6 1-0\n";
    let positions = game_from_pgn(pgn).unwrap();
    assert_eq!(positions.len(), 7);
    assert_eq!(fen(positions[0]), START);
    assert_eq!(fen(positions[6]), "r1bqkbnr/1ppp1ppp/p1n5/1B2p3/4P3/5N2/PPPP1PPP/RNBQK2R w KQkq - 0 4");
    let game = PgnGame::parse(pgn).unwrap();
    assert_eq!(game.len(), 6);
    let game: PgnGame = pgn.parse().unwrap();
    assert_eq!(game.turns[5].turn, "a6".parse::<AlgebraicTurn>().unwrap());
}

#[test]
fn pgn_set_up_uses_fen_tag() {
    let pgn = "[SetUp \"1\"]\n[FEN \"4k3/8/8/8/8/8/4P3/4K3 w - - 0 1\"]\n1. e4 *";
    let positions = game_from_pgn(pgn).unwrap();
    assert_eq!(fen(positions[0]), "4k3/8/8/8/8/8/4P3/4K3 w - - 0 1");
    assert_eq!(fen(positions[1]), "4k3/8/8/8/4P3/8/8/4K3 b - e3 0 1");
}

#[test]
fn pgn_fen_without_set_up_is_rejected() {
    assert!(game_from_pgn("[FEN \"4k3/8/8/8/8/8/4P3/4K3 w - - 0 1\"]\n1. e4 *").is_err());
    assert!(game_from_pgn("[SetUp \"0\"]\n[FEN \"4k3/8/8/8/8/8/4P3/4K3 w - - 0 1\"]\n1. e4 *").is_err());
    assert!(game_from_pgn("[SetUp \"1\"]\n1. e4 *").is_err());
    assert!(game_from_pgn("[SetUp \"2\"]\n1. e4 *").is_err());
    assert!(game_from_pgn("[SetUp \"0\"]\n1. e4 *").is_ok());
}

#[test]
fn pgn_malformed_documents() {
    assert!(game_from_pgn("1. e4 e5").is_err());
    assert!(game_from_pgn("1. e4 2. e5 *").is_err());
    assert!(game_from_pgn("1. e4 {open comment *").is_err());
    assert!(game_from_pgn("[A \"x\"]\n[A \"y\"]\n*").is_err());
    assert!(game_from_pgn("[A \"x\n\"]\n*").is_err());
    assert!(game_from_pgn("[A \"\\n\"]\n*").is_err());
    assert!(game_from_pgn("1. e4 * 1. d4 *").is_err());
    assert!(game_from_pgn("1. e4 $256 *").is_err());
    assert!(game_from_pgn("1. e4 (1. d4 *").is_err());
    assert!(game_from_pgn("1. e4 e5 1/2-1/2").is_ok());
    assert!(game_from_pgn("1... e4 0-1").is_ok());
    assert!(game_from_pgn("1 e4 *").is_err());
    let castled = game_from_pgn("1. e4 e5 2. Nf3 Nc6 3. Bc4 Bc5 4. 0-0 *").unwrap();
    assert_eq!(fen(castled[7]), "r1bqk1nr/pppp1ppp/2n5/2b1p3/2B1P3/5N2/PPPP1PPP/RNBQ1RK1 b kq - 5 4");
    assert_eq!(game_from_pgn("*").unwrap().len(), 1);
    assert_eq!(game_from_pgn("1. e4 e5 2. Ke3 *").unwrap_err(), "illegal move: 2. Ke3");
}

#[test]
fn serialized_sequence_joins_with_nul() {
    let ps = replay_game(START, &tokens(&["e4"])).unwrap();
    let text = serialize_position_sequence(&ps);
    assert_eq!(text, format!("{}\0{}", START, "rnbqkbnr/pppppppp/8/8/4P3/8/PPPP1PPP/RNBQKBNR b KQkq e3 0 1"));
}

#[test]
fn corner_moves_clear_castling() {
    let start = "r3k2r/8/8/8/8/8/8/Q3K2R w KQkq - 0 1";
    assert_eq!(fens(start, &["Qa2"]).unwrap()[1], "r3k2r/8/8/8/8/8/Q7/4K2R b Kkq - 1 1");
    assert_eq!(fens(start, &["Rh2"]).unwrap()[1], "r3k2r/8/8/8/8/8/7R/Q3K3 b Qkq - 1 1");
    assert_eq!(fens(start, &["Kd2"]).unwrap()[1], "r3k2r/8/8/8/8/8/3K4/Q6R b kq - 1 1");
    assert_eq!(fens(start, &["Qb1", "Rh7"]).unwrap()[2], "r3k3/7r/8/8/8/8/8/1Q2K2R w Kq - 2 2");
}

#[test]
fn names_and_values() {
    assert_eq!(File::values().len(), 8);
    assert_eq!(Rank::values()[7], Rank::Eight);
    assert_eq!(PieceKind::values()[0], PieceKind::Pawn);
    assert_eq!(Mark::Checkmate.name(), "#");
    assert_eq!(Annotation::Interesting.name(), "!?");
    assert_eq!(File::G.name(), "g");
    assert_eq!(Rank::Two.name(), "2");
    let white = Piece::new(Color::White, PieceKind::Rook);
    assert_eq!(SquareContent::Piece(white).map(|p| p.flip()), SquareContent::Piece(white.flip()));
    assert_eq!(SquareContent::Empty.map(|p| p.flip()), SquareContent::Empty);
    assert_eq!(File::C.mirror(), File::F);
    assert_eq!(Rank::Three.mirror(), Rank::Six);
}

#[test]
fn error_messages_name_the_ply() {
    let e = TurnError::IllegalMove { turn_index: 23, turn: parse_algebraic_turn("Nf3").unwrap() };
    assert_eq!(e.message(), "illegal move: 12... Nf3");
    let e = TurnError::AmbiguousMove { turn_index: 22, turn: parse_algebraic_turn("e8=Q").unwrap() };
    assert_eq!(e.message(), "ambiguous move: 12. e8=Q");
}

#[test]
fn moving_a_captured_queen_is_illegal_at_move_four() {
    let list = ["e4", "e5", "Qh5", "Nc6", "Qxf7", "Kxf7", "Qe2"];
    let err = replay_game(START, &tokens(&list)).unwrap_err();
    assert_eq!(err, "illegal move: 4. Qe2");
    assert!(replay_game(START, &tokens(&list[..6])).is_ok());
}

#[test]
fn from_str_matches_the_parsers() {
    assert_eq!("Xe4".parse::<AlgebraicTurn>().unwrap_err(), "invalid SAN: Xe4");
    assert_eq!("e:d5".parse::<AlgebraicTurn>().unwrap(), parse_algebraic_turn("exd5").unwrap());
    assert_eq!("e4+".parse::<chess_notation::san::AnnotatedAlgebraicTurn>().unwrap(), parse_turn("e4+").unwrap());
    assert!("[FEN \"4k3/8/8/8/8/8/8/4K3 w - - 0 1\"] *".parse::<PgnGame>().is_err());
    let g: PgnGame = "[SetUp \"1\"] [FEN \"4k3/8/8/8/8/8/8/4K3 w - - 0 1\"] 1. Kd2 *".parse().unwrap();
    assert_eq!(fen(g.starting_position), "4k3/8/8/8/8/8/8/4K3 w - - 0 1");
    assert_eq!(g.turns.len(), 1);
}

#[test]
fn replay_errors_name_their_cause() {
    assert_eq!(replay_game("8/8/8", &tokens(&["e4"])).unwrap_err(), "invalid FEN: 8/8/8");
    assert_eq!(game_from_pgn("1. e4 e5 2. Ke3 *").unwrap_err(), "illegal move: 2. Ke3");
}

#[test]
fn en_passant_square_occupied_gives_one_capture() {
    // A knight stands on the en passant square: exd6 is a plain capture, not ambiguous.
    let start = "4k3/8/3n4/4P3/8/8/8/4K3 w - d6 0 1";
    assert_eq!(fens(start, &["exd6"]).unwrap()[1], "4k3/8/3P4/8/8/8/8/4K3 b - - 0 1");
}

#[test]
fn only_home_corners_clear_castling() {
    // A white rook leaving h8 keeps white's castlings.
    let start = "4k2R/8/8/8/8/8/8/R3K2R w KQ - 0 1";
    assert_eq!(fens(start, &["Rh8h7"]).unwrap()[1], "4k3/7R/8/8/8/8/8/R3K2R b KQ - 1 1");
}

#[test]
fn no_move_lands_on_an_own_piece() {
    assert!(replay_game(START, &tokens(&["Nd2"])).is_err());
    assert!(replay_game(START, &tokens(&["Qxd2"])).is_err());
    assert!(replay_game("4k3/8/8/8/8/8/3P4/4K3 w - - 0 1", &tokens(&["Kd2"])).is_err());
}

#[test]
fn halfmove_restarts_on_any_capture() {
    let start = "4k3/8/8/8/8/5p2/8/4K1N1 w - - 7 20";
    assert_eq!(fens(start, &["Nf3"]).unwrap()[1], "4k3/8/8/8/8/5N2/8/4K3 b - - 0 20");
    assert_eq!(fens(start, &["Nh3"]).unwrap()[1], "4k3/8/8/8/8/5p1N/8/4K3 b - - 8 20");
}

#[test]
fn pgn_glyphs_and_comments_anywhere() {
    let pgn = "{intro} [Event \"x\"] ; note\n [Site {here} \"y\" ]\n$3 1. e4 $1 $14 e5 *";
    let positions = game_from_pgn(pgn).unwrap();
    assert_eq!(positions.len(), 3);
    assert!(game_from_pgn("1. e4 $ *").is_err());
}
