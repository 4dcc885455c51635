//! Turns in standard algebraic notation: their meaning, how they apply to a
//! position, and their text.
use vstd::prelude::*;
use crate::model::{
    Color, File, Rank, Square, Piece, PieceKind, SquareContent, Position,
    to_absolute,
};
use crate::model::{file_of_char, rank_of_char, kind_of_char};
use crate::text::{to_chars, push_decimal, decimal_text};
use crate::moves::{
    pawn_double, local_file_of, local_rank_of, Move, valid_moves, is_pseudo_move, spec_apply_move, king_attacked, is_king_attacked,
    incremented,
};

verus! {

/// The side of a castling.
#[derive(Debug, Clone, Copy, PartialEq, Eq, Structural)]
pub enum Side {
    King,
    Queen,
}

/// What a SAN token asks for, before it is resolved against a position.
#[derive(Debug, Clone, Copy, PartialEq, Eq, Structural)]
pub enum AlgebraicTurn {
    Normal {
        destination_file: File,
        destination_rank: Rank,
        piece: PieceKind,
        departure_file: Option<File>,
        departure_rank: Option<Rank>,
        capture: bool,
        promotion: Option<PieceKind>,
    },
    Castle(Side),
}

/// Why a turn could not be applied. Both carry the index of the ply (0 for
/// white's first move) and the turn.
#[derive(Debug, Clone, Copy, PartialEq, Eq, Structural)]
pub enum TurnError {
    /// No legal move matches the turn.
    IllegalMove { turn_index: usize, turn: AlgebraicTurn },
    /// More than one legal move matches the turn.
    AmbiguousMove { turn_index: usize, turn: AlgebraicTurn },
}

/// The index of the home rank of a color.
pub open spec fn home_rank(c: Color) -> int {
    to_absolute(c, 0)
}

/// The square of a file index on the home rank of a color.
pub open spec fn home_square(c: Color, f: int) -> Square {
    crate::model::square_at(f, home_rank(c))
}

/// Whether the side to play may castle on `side`: the castling is still
/// available, king and rook stand on their home squares and every square
/// between them is empty.
pub open spec fn castle_allowed(p: Position, side: Side) -> bool {
    let c = p.active;
    let king = SquareContent::Piece(Piece { color: c, kind: PieceKind::King });
    let rook = SquareContent::Piece(Piece { color: c, kind: PieceKind::Rook });
    let at = |f: int| p.board.at_square(home_square(c, f));
    match side {
        Side::King => p.castling_availabilities.spec_kingside_for(c) && at(4) == king && at(5) is Empty
            && at(6) is Empty && at(7) == rook,
        Side::Queen => p.castling_availabilities.spec_queenside_for(c) && at(0) == rook && at(1) is Empty
            && at(2) is Empty && at(3) is Empty && at(4) == king,
    }
}

/// The position after the side to play castles on `side`: king and rook
/// change places on the home rank (king to `g`, rook to `f` on the kingside;
/// king to `c`, rook to `d` on the queenside), both castlings of that color
/// are lost, there is no en passant target, the halfmove counter grows by one
/// and the fullmove counter grows after black.
pub open spec fn spec_castle(p: Position, side: Side) -> Position {
    let c = p.active;
    let king = SquareContent::Piece(Piece { color: c, kind: PieceKind::King });
    let rook = SquareContent::Piece(Piece { color: c, kind: PieceKind::Rook });
    let b = p.board;
    let board = match side {
        Side::King => b.spec_set(home_square(c, 4), SquareContent::Empty).spec_set(home_square(c, 5), rook).spec_set(
            home_square(c, 6),
            king,
        ).spec_set(home_square(c, 7), SquareContent::Empty),
        Side::Queen => b.spec_set(home_square(c, 0), SquareContent::Empty).spec_set(home_square(c, 2), king).spec_set(
            home_square(c, 3),
            rook,
        ).spec_set(home_square(c, 4), SquareContent::Empty),
    };
    Position {
        board,
        active: c.spec_flip(),
        castling_availabilities: p.castling_availabilities.spec_remove_for(c),
        en_passant_target_file: None,
        halfmove: incremented(p.halfmove),
        fullmove: p.spec_next_fullmove(),
    }
}

impl AlgebraicTurn {
    /// A pseudo-legal move that this (normal) turn describes and that does not
    /// leave the mover's king attacked.
    pub open spec fn is_candidate(self, p: Position, m: Move) -> bool {
        match self {
            AlgebraicTurn::Normal {
                destination_file,
                destination_rank,
                piece,
                departure_file,
                departure_rank,
                capture,
                promotion,
            } => {
                &&& is_pseudo_move(p, piece, m)
                &&& m.to == (Square { file: destination_file, rank: destination_rank })
                &&& (departure_file is None || m.from.file == departure_file.unwrap())
                &&& (departure_rank is None || m.from.rank == departure_rank.unwrap())
                &&& !king_attacked(spec_apply_move(p, m, piece, promotion), p.active)
            },
            AlgebraicTurn::Castle(_) => false,
        }
    }

    /// The position that a candidate move leads to.
    pub open spec fn after(self, p: Position, m: Move) -> Position {
        match self {
            AlgebraicTurn::Normal { piece, promotion, .. } => spec_apply_move(p, m, piece, promotion),
            AlgebraicTurn::Castle(side) => spec_castle(p, side),
        }
    }

    /// Exactly one candidate move exists.
    pub open spec fn has_unique_candidate(self, p: Position) -> bool {
        &&& exists|m: Move| self.is_candidate(p, m)
        &&& forall|m1: Move, m2: Move| self.is_candidate(p, m1) && self.is_candidate(p, m2) ==> m1 == m2
    }

    /// What applying this turn, the ply of index `turn_index`, to `p` gives.
    pub open spec fn outcome(self, turn_index: usize, p: Position) -> Result<Position, TurnError> {
        match self {
            AlgebraicTurn::Castle(side) => if castle_allowed(p, side) {
                Ok(spec_castle(p, side))
            } else {
                Err(TurnError::IllegalMove { turn_index, turn: self })
            },
            AlgebraicTurn::Normal { .. } => if self.has_unique_candidate(p) {
                Ok(self.after(p, choose|m: Move| self.is_candidate(p, m)))
            } else if exists|m: Move| self.is_candidate(p, m) {
                Err(TurnError::AmbiguousMove { turn_index, turn: self })
            } else {
                Err(TurnError::IllegalMove { turn_index, turn: self })
            },
        }
    }

    /// Applies this turn, the ply of index `turn_index`, to a position.
    ///
    /// A normal turn succeeds when exactly one legal move matches it, and the
    /// result is the position after that move; it is illegal when none does and
    /// ambiguous when two or more do. A castling succeeds when it is allowed.
    #[verifier::rlimit(40)]
    pub fn apply(self, turn_index: usize, initial_position: &Position) -> (r: Result<Position, TurnError>)
        ensures
            r == self.outcome(turn_index, *initial_position),
            self is Normal ==> {
                &&& r is Ok <==> self.has_unique_candidate(*initial_position)
                &&& r is Ok ==> forall|m: Move| #[trigger] self.is_candidate(*initial_position, m)
                    ==> r.unwrap() == self.after(*initial_position, m)
                &&& r == Err::<Position, TurnError>(TurnError::IllegalMove { turn_index, turn: self })
                    <==> !exists|m: Move| self.is_candidate(*initial_position, m)
                &&& r == Err::<Position, TurnError>(TurnError::AmbiguousMove { turn_index, turn: self })
                    <==> exists|m1: Move, m2: Move| self.is_candidate(*initial_position, m1)
                        && self.is_candidate(*initial_position, m2) && m1 != m2
            },
            self matches AlgebraicTurn::Castle(side) ==> r == if castle_allowed(*initial_position, side) {
                Ok(spec_castle(*initial_position, side))
            } else {
                Err(TurnError::IllegalMove { turn_index, turn: self })
            },
    {
        match self {
            AlgebraicTurn::Normal {
                destination_file,
                destination_rank,
                piece,
                departure_file,
                departure_rank,
                capture,
                promotion,
            } => {
                let p = initial_position;
                let moves = valid_moves(p, piece);
                let mut found: Option<(Move, Position)> = None;
                let mut i: usize = 0;
                while i < moves.len()
                    invariant
                        self == (AlgebraicTurn::Normal {
                            destination_file,
                            destination_rank,
                            piece,
                            departure_file,
                            departure_rank,
                            capture,
                            promotion,
                        }),
                        i <= moves@.len(),
                        *p == *initial_position,
                        forall|m: Move| #[trigger] moves@.contains(m) <==> is_pseudo_move(*p, piece, m),
                        found is None ==> forall|t: int| 0 <= t < i ==> !self.is_candidate(*p, #[trigger] moves@[t]),
                        moves@.no_duplicates(),
                        found matches Some((m0, q0)) ==> {
                            &&& exists|k: int| 0 <= k < i && moves@[k] == m0
                            &&& self.is_candidate(*p, m0)
                            &&& q0 == self.after(*p, m0)
                            &&& forall|t: int| 0 <= t < i && self.is_candidate(*p, #[trigger] moves@[t]) ==> moves@[t] == m0
                        },
                    decreases moves@.len() - i,
                {
                    let m = moves[i];
                    proof {
                        assert(moves@.contains(m));
                    }
                    let matches = m.to.file == destination_file && m.to.rank == destination_rank && match departure_file {
                        None => true,
                        Some(f) => m.from.file == f,
                    } && match departure_rank {
                        None => true,
                        Some(k) => m.from.rank == k,
                    };
                    let mut cand = false;
                    let mut q = *p;
                    if matches {
                        q = m.apply(p, piece, promotion);
                        cand = !is_king_attacked(&q, p.active);
                    }
                    proof {
                        assert(cand == self.is_candidate(*p, m));
                        assert(cand ==> q == self.after(*p, m));
                    }
                    if cand {
                        match found {
                            None => {
                                found = Some((m, q));
                            },
                            Some((m0, _)) => {
                                proof {
                                    let k = choose|k: int| 0 <= k < i && moves@[k] == m0;
                                    assert(moves@[k] != moves@[i as int]);
                                    assert(self.is_candidate(*p, m0));
                                    assert(self.is_candidate(*p, m));
                                    assert(!self.has_unique_candidate(*p));
                                    assert(exists|m1: Move, m2: Move| self.is_candidate(*p, m1) && self.is_candidate(*p, m2) && m1 != m2);
                                    assert(exists|m1: Move| self.is_candidate(*p, m1));
                                }
                                return Err(TurnError::AmbiguousMove { turn_index, turn: self });
                            },
                        }
                    }
                    i = i + 1;
                }
                match found {
                    None => {
                        proof {
                            assert forall|m: Move| !self.is_candidate(*p, m) by {
                                if self.is_candidate(*p, m) {
                                    assert(moves@.contains(m));
                                    let t = choose|t: int| 0 <= t < moves@.len() && moves@[t] == m;
                                    assert(!self.is_candidate(*p, moves@[t]));
                                }
                            }
                        }
                        Err(TurnError::IllegalMove { turn_index, turn: self })
                    },
                    Some((m0, q0)) => {
                        proof {
                            assert forall|m: Move| self.is_candidate(*p, m) implies m == m0 by {
                                assert(moves@.contains(m));
                                let t = choose|t: int| 0 <= t < moves@.len() && moves@[t] == m;
                                assert(self.is_candidate(*p, moves@[t]));
                            }
                            let c = choose|m: Move| self.is_candidate(*p, m);
                            assert(c == m0);
                        }
                        Ok(q0)
                    },
                }
            },
            AlgebraicTurn::Castle(side) => castle(self, side, turn_index, initial_position),
        }
    }
}

fn castle(turn: AlgebraicTurn, side: Side, turn_index: usize, p: &Position) -> (r: Result<Position, TurnError>)
    ensures
        r == if castle_allowed(*p, side) {
            Ok(spec_castle(*p, side))
        } else {
            Err(TurnError::IllegalMove { turn_index, turn })
        },
{
    let c = p.active;
    let rank = match c {
        Color::White => Rank::One,
        Color::Black => Rank::Eight,
    };
    let king = Piece::new(c, PieceKind::King);
    let rook = Piece::new(c, PieceKind::Rook);
    let allowed = match side {
        Side::King => p.castling_availabilities.kingside_for(c) && p.at(Square::new(File::E, rank)).is(king)
            && p.at(Square::new(File::F, rank)).is_empty() && p.at(Square::new(File::G, rank)).is_empty()
            && p.at(Square::new(File::H, rank)).is(rook),
        Side::Queen => p.castling_availabilities.queenside_for(c) && p.at(Square::new(File::A, rank)).is(rook)
            && p.at(Square::new(File::B, rank)).is_empty() && p.at(Square::new(File::C, rank)).is_empty()
            && p.at(Square::new(File::D, rank)).is_empty() && p.at(Square::new(File::E, rank)).is(king),
    };
    if !allowed {
        return Err(TurnError::IllegalMove { turn_index, turn });
    }
    let mut board = p.board;
    match side {
        Side::King => {
            board.set(Square::new(File::E, rank), SquareContent::Empty);
            board.set(Square::new(File::F, rank), SquareContent::Piece(rook));
            board.set(Square::new(File::G, rank), SquareContent::Piece(king));
            board.set(Square::new(File::H, rank), SquareContent::Empty);
        },
        Side::Queen => {
            board.set(Square::new(File::A, rank), SquareContent::Empty);
            board.set(Square::new(File::C, rank), SquareContent::Piece(king));
            board.set(Square::new(File::D, rank), SquareContent::Piece(rook));
            board.set(Square::new(File::E, rank), SquareContent::Empty);
        },
    }
    Ok(Position {
        board,
        active: c.flip(),
        castling_availabilities: p.castling_availabilities.remove_for(c),
        en_passant_target_file: None,
        halfmove: p.halfmove.saturating_add(1),
        fullmove: p.next_fullmove(),
    })
}

/// The kind that a SAN piece letter names; pawns have no letter.
pub open spec fn piece_letter(c: char) -> Option<PieceKind> {
    if c == 'P' {
        None
    } else {
        kind_of_char(c)
    }
}

pub open spec fn is_capture_char(c: char) -> bool {
    c == 'x' || c == ':' || c == '\u{d7}'
}

/// Strips a promotion suffix: `(Q)`, or a kind letter after an optional `=` or
/// `/`. `None` when a parenthesised suffix is malformed.
pub open spec fn strip_promotion(s: Seq<char>) -> Option<(Seq<char>, Option<PieceKind>)> {
    let n = s.len();
    if n >= 1 && s.last() == ')' {
        if n >= 3 && s[n - 3] == '(' && kind_of_char(s[n - 2]) is Some {
            Some((s.take(n - 3), kind_of_char(s[n - 2])))
        } else {
            None
        }
    } else if n >= 1 && kind_of_char(s.last()) is Some {
        let rest = s.drop_last();
        if rest.len() >= 1 && (rest.last() == '=' || rest.last() == '/') {
            Some((rest.drop_last(), kind_of_char(s.last())))
        } else {
            Some((rest, kind_of_char(s.last())))
        }
    } else {
        Some((s, None))
    }
}

/// The turn that a SAN token without check or annotation marks denotes,
/// read from its end: promotion, destination rank and file, capture mark,
/// departure rank, departure file, piece letter; nothing may be left.
pub open spec fn spec_parse_algebraic(s: Seq<char>) -> Option<AlgebraicTurn> {
    if s == seq!['0', '-', '0'] || s == seq!['O', '-', 'O'] {
        Some(AlgebraicTurn::Castle(Side::King))
    } else if s == seq!['0', '-', '0', '-', '0'] || s == seq!['O', '-', 'O', '-', 'O'] {
        Some(AlgebraicTurn::Castle(Side::Queen))
    } else {
        match strip_promotion(s) {
            None => None,
            Some((s1, promotion)) => parse_destination_and_rest(s1, promotion),
        }
    }
}

/// The normal turn that `s1`, stripped of its promotion suffix, denotes.
pub open spec fn parse_destination_and_rest(s1: Seq<char>, promotion: Option<PieceKind>) -> Option<AlgebraicTurn> {
                let n = s1.len();
                if n >= 2 && rank_of_char(s1[n - 1]) is Some && file_of_char(s1[n - 2]) is Some {
                    let s2 = s1.take(n - 2);
                    let capture = s2.len() >= 1 && is_capture_char(s2.last());
                    let s3 = if capture { s2.drop_last() } else { s2 };
                    let departure_rank = if s3.len() >= 1 { rank_of_char(s3.last()) } else { None };
                    let s4 = if departure_rank is Some { s3.drop_last() } else { s3 };
                    let departure_file = if s4.len() >= 1 { file_of_char(s4.last()) } else { None };
                    let s5 = if departure_file is Some { s4.drop_last() } else { s4 };
                    let piece = if s5.len() >= 1 { piece_letter(s5.last()) } else { None };
                    let s6 = if piece is Some { s5.drop_last() } else { s5 };
                    if s6.len() == 0 {
                        Some(AlgebraicTurn::Normal {
                            destination_file: file_of_char(s1[n - 2]).unwrap(),
                            destination_rank: rank_of_char(s1[n - 1]).unwrap(),
                            piece: match piece {
                                Some(k) => k,
                                None => PieceKind::Pawn,
                            },
                            departure_file,
                            departure_rank,
                            capture,
                            promotion,
                        })
                    } else {
                        None
                    }
                } else {
                    None
                }
}

pub open spec fn piece_text(piece: PieceKind) -> Seq<char> {
    if piece == PieceKind::Pawn {
        Seq::<char>::empty()
    } else {
        seq![piece.spec_char()]
    }
}

pub open spec fn file_text(f: Option<File>) -> Seq<char> {
    match f {
        Some(f) => seq![f.spec_char()],
        None => Seq::<char>::empty(),
    }
}

pub open spec fn rank_text(r: Option<Rank>) -> Seq<char> {
    match r {
        Some(r) => seq![r.spec_char()],
        None => Seq::<char>::empty(),
    }
}

pub open spec fn capture_text(capture: bool) -> Seq<char> {
    if capture {
        seq!['x']
    } else {
        Seq::<char>::empty()
    }
}

pub open spec fn promotion_text(promotion: Option<PieceKind>) -> Seq<char> {
    match promotion {
        Some(k) => seq!['=', k.spec_char()],
        None => Seq::<char>::empty(),
    }
}

/// The canonical SAN text of a turn.
pub open spec fn san_text(t: AlgebraicTurn) -> Seq<char> {
    match t {
        AlgebraicTurn::Normal {
            destination_file,
            destination_rank,
            piece,
            departure_file,
            departure_rank,
            capture,
            promotion,
        } => piece_text(piece) + file_text(departure_file) + rank_text(departure_rank) + capture_text(capture)
            + seq![destination_file.spec_char(), destination_rank.spec_char()] + promotion_text(promotion),
        AlgebraicTurn::Castle(Side::King) => seq!['0', '-', '0'],
        AlgebraicTurn::Castle(Side::Queen) => seq!['0', '-', '0', '-', '0'],
    }
}

proof fn lemma_take_last(s: Seq<char>, n: int)
    requires
        1 <= n <= s.len(),
    ensures
        s.take(n).drop_last() == s.take(n - 1),
        s.take(n).last() == s[n - 1],
        s.take(n).len() == n,
{
    assert(s.take(n).drop_last() =~= s.take(n - 1));
}

fn chars_equal(s: &[char], n: usize, t: &str) -> (r: bool)
    requires
        n <= s@.len(),
    ensures
        r == (s@.take(n as int) == t@),
{
    let tc = to_chars(t);
    if tc.len() != n {
        proof {
            assert(s@.take(n as int).len() != t@.len());
        }
        return false;
    }
    let mut i: usize = 0;
    while i < n
        invariant
            n <= s@.len(),
            tc@ == t@,
            t@.len() == n,
            i <= n,
            forall|k: int| 0 <= k < i ==> s@[k] == t@[k],
        decreases n - i,
    {
        if s[i] != tc[i] {
            proof {
                assert(s@.take(n as int)[i as int] != t@[i as int]);
            }
            return false;
        }
        i = i + 1;
    }
    proof {
        assert(s@.take(n as int) =~= t@);
    }
    true
}

/// Strips the promotion suffix of the first `n` characters of `s`; the new
/// length and the promotion, or `None` for a malformed suffix.
#[verifier::rlimit(40)]
fn strip_promotion_prefix(s: &[char], n: usize) -> (r: Option<(usize, Option<PieceKind>)>)
    requires
        n <= s@.len(),
    ensures
        match r {
            None => strip_promotion(s@.take(n as int)) is None,
            Some((k, promotion)) => k <= n && strip_promotion(s@.take(n as int)) == Some((s@.take(k as int), promotion)),
        },
{
    let ghost t = s@.take(n as int);
    proof {
        if n >= 1 {
            lemma_take_last(s@, n as int);
        }
    }
    if n >= 1 && s[n - 1] == ')' {
        if n >= 3 && s[n - 3] == '(' {
            match PieceKind::from_char(s[n - 2]) {
                Some(k) => {
                    proof {
                        assert(t.take(t.len() - 3) =~= s@.take(n - 3));
                    }
                    Some((n - 3, Some(k)))
                },
                None => None,
            }
        } else {
            None
        }
    } else if n >= 1 {
        match PieceKind::from_char(s[n - 1]) {
            Some(k) => {
                if n >= 2 && (s[n - 2] == '=' || s[n - 2] == '/') {
                    proof {
                        lemma_take_last(s@, n - 1);
                    }
                    Some((n - 2, Some(k)))
                } else {
                    Some((n - 1, Some(k)))
                }
            },
            None => Some((n, None)),
        }
    } else {
        Some((n, None))
    }
}

/// Parses the first `n` characters of `s`, stripped of their promotion
/// suffix, as a normal turn.
#[verifier::rlimit(40)]
fn parse_destination_prefix(s: &[char], n: usize, promotion: Option<PieceKind>) -> (r: Option<AlgebraicTurn>)
    requires
        n <= s@.len(),
    ensures
        r == parse_destination_and_rest(s@.take(n as int), promotion),
{
    let ghost s1 = s@.take(n as int);
    let mut n = n;
    if n < 2 {
        return None;
    }
    let destination_rank = match Rank::from_char(s[n - 1]) {
        Some(r) => r,
        None => return None,
    };
    let destination_file = match File::from_char(s[n - 2]) {
        Some(f) => f,
        None => return None,
    };
    n = n - 2;
    proof {
        assert(s1.take(s1.len() - 2) =~= s@.take(n as int));
    }
    let capture = n >= 1 && (s[n - 1] == 'x' || s[n - 1] == ':' || s[n - 1] == '\u{d7}');
    if capture {
        proof {
            lemma_take_last(s@, n as int);
        }
        n = n - 1;
    }
    let mut departure_rank: Option<Rank> = None;
    if n >= 1 {
        departure_rank = Rank::from_char(s[n - 1]);
        proof {
            lemma_take_last(s@, n as int);
        }
        if departure_rank.is_some() {
            n = n - 1;
        }
    }
    let mut departure_file: Option<File> = None;
    if n >= 1 {
        departure_file = File::from_char(s[n - 1]);
        proof {
            lemma_take_last(s@, n as int);
        }
        if departure_file.is_some() {
            n = n - 1;
        }
    }
    let mut piece: Option<PieceKind> = None;
    if n >= 1 {
        if s[n - 1] != 'P' {
            piece = PieceKind::from_char(s[n - 1]);
        }
        proof {
            lemma_take_last(s@, n as int);
        }
        if piece.is_some() {
            n = n - 1;
        }
    }
    if n != 0 {
        return None;
    }
    Some(AlgebraicTurn::Normal {
        destination_file,
        destination_rank,
        piece: match piece {
            Some(k) => k,
            None => PieceKind::Pawn,
        },
        departure_file,
        departure_rank,
        capture,
        promotion,
    })
}

/// Parses the first `n` characters of `s` as a turn without marks.
fn parse_algebraic_prefix(s: &[char], n: usize) -> (r: Option<AlgebraicTurn>)
    requires
        n <= s@.len(),
    ensures
        r == spec_parse_algebraic(s@.take(n as int)),
{
    proof {
        reveal_strlit("0-0");
        reveal_strlit("O-O");
        reveal_strlit("0-0-0");
        reveal_strlit("O-O-O");
        assert("0-0"@ =~= seq!['0', '-', '0']);
        assert("O-O"@ =~= seq!['O', '-', 'O']);
        assert("0-0-0"@ =~= seq!['0', '-', '0', '-', '0']);
        assert("O-O-O"@ =~= seq!['O', '-', 'O', '-', 'O']);
    }
    if chars_equal(s, n, "0-0") || chars_equal(s, n, "O-O") {
        return Some(AlgebraicTurn::Castle(Side::King));
    }
    if chars_equal(s, n, "0-0-0") || chars_equal(s, n, "O-O-O") {
        return Some(AlgebraicTurn::Castle(Side::Queen));
    }
    match strip_promotion_prefix(s, n) {
        None => None,
        Some((k, promotion)) => parse_destination_prefix(s, k, promotion),
    }
}

/// The error text for a token that is not SAN.
pub open spec fn invalid_san_text(source: Seq<char>) -> Seq<char> {
    seq!['i', 'n', 'v', 'a', 'l', 'i', 'd', ' ', 'S', 'A', 'N', ':', ' '] + source
}

fn invalid_san(source: &str) -> (r: String)
    ensures
        r@ == invalid_san_text(source@),
{
    proof {
        reveal_strlit("invalid SAN: ");
    }
    let mut r = String::from_str("invalid SAN: ");
    r.append(source);
    r
}

/// Parses one SAN token without check or annotation marks. The error names
/// the token.
pub fn parse_algebraic_turn(source: &str) -> (r: Result<AlgebraicTurn, String>)
    ensures
        r is Ok <==> spec_parse_algebraic(source@) is Some,
        r is Ok ==> r.unwrap() == spec_parse_algebraic(source@).unwrap(),
        r matches Err(e) ==> e@ == invalid_san_text(source@),
{
    let chars = to_chars(source);
    proof {
        assert(chars@.take(chars@.len() as int) == chars@);
    }
    match parse_algebraic_prefix(chars.as_slice(), chars.len()) {
        Some(t) => Ok(t),
        None => Err(invalid_san(source)),
    }
}

/// The text before the destination: piece letter, departure, capture mark.
fn san_head(piece: PieceKind, departure_file: Option<File>, departure_rank: Option<Rank>, capture: bool) -> (r: String)
    ensures
        r@ == piece_text(piece) + file_text(departure_file) + rank_text(departure_rank) + capture_text(capture),
{
    proof {
        reveal_strlit("x");
    }
    let mut r = String::new();
    if piece != PieceKind::Pawn {
        r.append(piece.name());
    }
    let ghost t1 = piece_text(piece);
    assert(r@ =~= t1);
    if let Some(f) = departure_file {
        r.append(f.name());
    }
    let ghost t2 = t1 + file_text(departure_file);
    assert(r@ =~= t2);
    if let Some(k) = departure_rank {
        r.append(k.name());
    }
    let ghost t3 = t2 + rank_text(departure_rank);
    assert(r@ =~= t3);
    if capture {
        r.append("x");
    }
    assert(r@ =~= t3 + capture_text(capture));
    r
}

fn push_promotion(r: &mut String, promotion: Option<PieceKind>)
    ensures
        final(r)@ == old(r)@ + promotion_text(promotion),
{
    proof {
        reveal_strlit("=");
    }
    if let Some(k) = promotion {
        r.append("=");
        r.append(k.name());
    }
    assert(r@ =~= old(r)@ + promotion_text(promotion));
}

impl AlgebraicTurn {
    /// The canonical SAN text of this turn: piece letter (none for a pawn),
    /// departure file and rank when given, `x` for a capture, destination, and
    /// `=` with the promotion kind; castlings are `0-0` and `0-0-0`.
    pub fn to_san(&self) -> (r: String)
        ensures
            r@ == san_text(*self),
    {
        proof {
            reveal_strlit("0-0");
            reveal_strlit("0-0-0");
            assert("0-0"@ =~= seq!['0', '-', '0']);
            assert("0-0-0"@ =~= seq!['0', '-', '0', '-', '0']);
        }
        match *self {
            AlgebraicTurn::Normal {
                destination_file,
                destination_rank,
                piece,
                departure_file,
                departure_rank,
                capture,
                promotion,
            } => {
                let mut r = san_head(piece, departure_file, departure_rank, capture);
                let ghost t4 = r@;
                r.append(destination_file.name());
                r.append(destination_rank.name());
                push_promotion(&mut r, promotion);
                proof {
                    assert(r@ =~= t4 + seq![destination_file.spec_char(), destination_rank.spec_char()] + promotion_text(promotion));
                }
                r
            },
            AlgebraicTurn::Castle(Side::King) => String::from_str("0-0"),
            AlgebraicTurn::Castle(Side::Queen) => String::from_str("0-0-0"),
        }
    }
}

/// A check mark after a move.
#[derive(Debug, Clone, Copy, PartialEq, Eq, Structural)]
pub enum Mark {
    /// `+`
    Check,
    /// `#`
    Checkmate,
}

impl Mark {
    /// The character of this mark.
    pub fn name(self) -> (r: &'static str)
        ensures
            r@ == match self {
                Mark::Check => seq!['+'],
                Mark::Checkmate => seq!['#'],
            },
    {
        proof {
            reveal_strlit("+");
            reveal_strlit("#");
        }
        match self {
            Mark::Check => "+",
            Mark::Checkmate => "#",
        }
    }
}

/// A move-quality annotation after a move.
#[derive(Debug, Clone, Copy, PartialEq, Eq, Structural)]
pub enum Annotation {
    /// `??`
    Blunder,
    /// `?`
    Mistake,
    /// `?!`
    Dubious,
    /// `!?`
    Interesting,
    /// `!`
    Good,
    /// `!!`
    Brilliant,
}

impl Annotation {
    /// The text of this annotation.
    pub fn name(self) -> (r: &'static str)
        ensures
            r@ == match self {
                Annotation::Blunder => seq!['?', '?'],
                Annotation::Mistake => seq!['?'],
                Annotation::Dubious => seq!['?', '!'],
                Annotation::Interesting => seq!['!', '?'],
                Annotation::Good => seq!['!'],
                Annotation::Brilliant => seq!['!', '!'],
            },
    {
        proof {
            reveal_strlit("??");
            reveal_strlit("?");
            reveal_strlit("?!");
            reveal_strlit("!?");
            reveal_strlit("!");
            reveal_strlit("!!");
        }
        let r = match self {
            Annotation::Blunder => "??",
            Annotation::Mistake => "?",
            Annotation::Dubious => "?!",
            Annotation::Interesting => "!?",
            Annotation::Good => "!",
            Annotation::Brilliant => "!!",
        };
        proof {
            assert("??"@ =~= seq!['?', '?']);
            assert("?!"@ =~= seq!['?', '!']);
            assert("!?"@ =~= seq!['!', '?']);
            assert("!!"@ =~= seq!['!', '!']);
        }
        r
    }
}

/// A turn with its optional check mark and annotation, which are kept for
/// display only.
#[derive(Debug, Clone, Copy, PartialEq, Eq, Structural)]
pub struct AnnotatedAlgebraicTurn {
    pub turn: AlgebraicTurn,
    pub mark: Option<Mark>,
    pub annotation: Option<Annotation>,
}

/// Strips a trailing annotation, two-character ones first.
pub open spec fn strip_annotation(s: Seq<char>) -> (Seq<char>, Option<Annotation>) {
    let n = s.len();
    if n >= 2 && s[n - 2] == '?' && s[n - 1] == '?' {
        (s.take(n - 2), Some(Annotation::Blunder))
    } else if n >= 2 && s[n - 2] == '?' && s[n - 1] == '!' {
        (s.take(n - 2), Some(Annotation::Dubious))
    } else if n >= 2 && s[n - 2] == '!' && s[n - 1] == '?' {
        (s.take(n - 2), Some(Annotation::Interesting))
    } else if n >= 2 && s[n - 2] == '!' && s[n - 1] == '!' {
        (s.take(n - 2), Some(Annotation::Brilliant))
    } else if n >= 1 && s[n - 1] == '?' {
        (s.take(n - 1), Some(Annotation::Mistake))
    } else if n >= 1 && s[n - 1] == '!' {
        (s.take(n - 1), Some(Annotation::Good))
    } else {
        (s, None)
    }
}

/// Strips a trailing check mark.
pub open spec fn strip_mark(s: Seq<char>) -> (Seq<char>, Option<Mark>) {
    let n = s.len();
    if n >= 1 && s[n - 1] == '+' {
        (s.take(n - 1), Some(Mark::Check))
    } else if n >= 1 && s[n - 1] == '#' {
        (s.take(n - 1), Some(Mark::Checkmate))
    } else {
        (s, None)
    }
}

/// The annotated turn that a SAN token denotes: annotation, then check mark,
/// stripped from the end, then the turn.
pub open spec fn spec_parse_turn(s: Seq<char>) -> Option<AnnotatedAlgebraicTurn> {
    let (s1, annotation) = strip_annotation(s);
    let (s2, mark) = strip_mark(s1);
    match spec_parse_algebraic(s2) {
        Some(turn) => Some(AnnotatedAlgebraicTurn { turn, mark, annotation }),
        None => None,
    }
}

/// Strips the annotation of the first `n` characters of `s`.
fn strip_annotation_prefix(s: &[char], n: usize) -> (r: (usize, Option<Annotation>))
    requires
        n <= s@.len(),
    ensures
        r.0 <= n,
        strip_annotation(s@.take(n as int)) == (s@.take(r.0 as int), r.1),
{
    let ghost t = s@.take(n as int);
    let mut k = n;
    let mut annotation: Option<Annotation> = None;
    if n >= 2 && s[n - 2] == '?' && s[n - 1] == '?' {
        annotation = Some(Annotation::Blunder);
        k = n - 2;
    } else if n >= 2 && s[n - 2] == '?' && s[n - 1] == '!' {
        annotation = Some(Annotation::Dubious);
        k = n - 2;
    } else if n >= 2 && s[n - 2] == '!' && s[n - 1] == '?' {
        annotation = Some(Annotation::Interesting);
        k = n - 2;
    } else if n >= 2 && s[n - 2] == '!' && s[n - 1] == '!' {
        annotation = Some(Annotation::Brilliant);
        k = n - 2;
    } else if n >= 1 && s[n - 1] == '?' {
        annotation = Some(Annotation::Mistake);
        k = n - 1;
    } else if n >= 1 && s[n - 1] == '!' {
        annotation = Some(Annotation::Good);
        k = n - 1;
    }
    proof {
        assert(t.take(k as int) =~= s@.take(k as int));
    }
    (k, annotation)
}

/// Strips the check mark of the first `k` characters of `s`.
fn strip_mark_prefix(s: &[char], k: usize) -> (r: (usize, Option<Mark>))
    requires
        k <= s@.len(),
    ensures
        r.0 <= k,
        strip_mark(s@.take(k as int)) == (s@.take(r.0 as int), r.1),
{
    let ghost t1 = s@.take(k as int);
    let mut mark: Option<Mark> = None;
    let mut j = k;
    if k >= 1 && s[k - 1] == '+' {
        mark = Some(Mark::Check);
        j = k - 1;
    } else if k >= 1 && s[k - 1] == '#' {
        mark = Some(Mark::Checkmate);
        j = k - 1;
    }
    proof {
        assert(t1.take(j as int) =~= s@.take(j as int));
    }
    (j, mark)
}

/// Parses the first `n` characters of `s` as an annotated SAN token.
pub fn parse_turn_prefix(s: &[char], n: usize) -> (r: Option<AnnotatedAlgebraicTurn>)
    requires
        n <= s@.len(),
    ensures
        r == spec_parse_turn(s@.take(n as int)),
{
    let (k, annotation) = strip_annotation_prefix(s, n);
    let (j, mark) = strip_mark_prefix(s, k);
    match parse_algebraic_prefix(s, j) {
        Some(turn) => Some(AnnotatedAlgebraicTurn { turn, mark, annotation }),
        None => None,
    }
}

/// Parses one SAN token, with optional check mark and annotation. The error
/// names the token.
pub fn parse_turn(s: &str) -> (r: Result<AnnotatedAlgebraicTurn, String>)
    ensures
        r is Ok <==> spec_parse_turn(s@) is Some,
        r is Ok ==> r.unwrap() == spec_parse_turn(s@).unwrap(),
        r matches Err(e) ==> e@ == invalid_san_text(s@),
{
    let chars = to_chars(s);
    proof {
        assert(chars@.take(chars@.len() as int) == chars@);
    }
    match parse_turn_prefix(chars.as_slice(), chars.len()) {
        Some(t) => Ok(t),
        None => Err(invalid_san(s)),
    }
}

impl AnnotatedAlgebraicTurn {
    /// Applies the turn; the marks play no part.
    pub fn apply(self, turn_index: usize, position: &Position) -> (r: Result<Position, TurnError>)
        ensures
            r == self.turn.outcome(turn_index, *position),
            self.turn is Normal ==> {
                &&& r is Ok <==> self.turn.has_unique_candidate(*position)
                &&& r is Ok ==> forall|m: Move| #[trigger] self.turn.is_candidate(*position, m)
                    ==> r.unwrap() == self.turn.after(*position, m)
                &&& r == Err::<Position, TurnError>(TurnError::IllegalMove { turn_index, turn: self.turn })
                    <==> !exists|m: Move| self.turn.is_candidate(*position, m)
                &&& r == Err::<Position, TurnError>(TurnError::AmbiguousMove { turn_index, turn: self.turn })
                    <==> exists|m1: Move, m2: Move| self.turn.is_candidate(*position, m1)
                        && self.turn.is_candidate(*position, m2) && m1 != m2
            },
            self.turn matches AlgebraicTurn::Castle(side) ==> r == if castle_allowed(*position, side) {
                Ok(spec_castle(*position, side))
            } else {
                Err(TurnError::IllegalMove { turn_index, turn: self.turn })
            },
    {
        self.turn.apply(turn_index, position)
    }
}

/// How a ply is written in a message: the move number, one period for white
/// or three for black, a space and the turn, as in `12. Nf3` or `12... Nf6`.
pub open spec fn indexed_text(turn_index: nat, turn: AlgebraicTurn) -> Seq<char> {
    ply_text(turn_index) + san_text(turn)
}

/// The move number of a ply, then one period for white or three for black,
/// then a space, as in `12. ` or `12... `.
pub open spec fn ply_text(turn_index: nat) -> Seq<char> {
    decimal_text(turn_index / 2 + 1) + (if turn_index % 2 == 0 { seq!['.'] } else { seq!['.', '.', '.'] }) + seq![' ']
}

/// The error text for a token of ply `turn_index` that is not SAN, as in
/// `invalid SAN: 2... zz9`.
pub open spec fn invalid_ply_text(turn_index: nat, token: Seq<char>) -> Seq<char> {
    seq!['i', 'n', 'v', 'a', 'l', 'i', 'd', ' ', 'S', 'A', 'N', ':', ' '] + ply_text(turn_index) + token
}

/// Appends the move number and side marker of a ply.
fn push_ply(r: &mut String, turn_index: usize)
    ensures
        final(r)@ == old(r)@ + ply_text(turn_index as nat),
{
    proof {
        reveal_strlit(".");
        reveal_strlit("...");
        reveal_strlit(" ");
    }
    let ghost head = r@;
    push_decimal(r, (turn_index / 2 + 1) as u64);
    if turn_index % 2 == 0 {
        r.append(".");
    } else {
        r.append("...");
    }
    r.append(" ");
    proof {
        assert(r@ =~= head + ply_text(turn_index as nat));
    }
}

/// The error text for a token of ply `turn_index` that is not SAN.
pub fn invalid_ply(turn_index: usize, token: &str) -> (r: String)
    ensures
        r@ == invalid_ply_text(turn_index as nat, token@),
{
    proof {
        reveal_strlit("invalid SAN: ");
    }
    let mut r = String::from_str("invalid SAN: ");
    push_ply(&mut r, turn_index);
    r.append(token);
    proof {
        assert(r@ =~= invalid_ply_text(turn_index as nat, token@));
    }
    r
}

/// The text of a turn error: `illegal move: ` or `ambiguous move: `, then
/// the ply as `indexed_text` writes it.
pub open spec fn message_text(e: TurnError) -> Seq<char> {
    match e {
        TurnError::IllegalMove { turn_index, turn } => seq!['i', 'l', 'l', 'e', 'g', 'a', 'l'] + seq![
            ' ',
            'm',
            'o',
            'v',
            'e',
            ':',
            ' ',
        ] + indexed_text(turn_index as nat, turn),
        TurnError::AmbiguousMove { turn_index, turn } => seq!['a', 'm', 'b', 'i', 'g', 'u', 'o', 'u', 's'] + seq![
            ' ',
            'm',
            'o',
            'v',
            'e',
            ':',
            ' ',
        ] + indexed_text(turn_index as nat, turn),
    }
}

impl TurnError {
    /// The text of this error, such as `illegal move: 4. Qxf7`.
    pub fn message(&self) -> (r: String)
        ensures
            r@ == message_text(*self),
    {
        proof {
            reveal_strlit("illegal move: ");
            reveal_strlit("ambiguous move: ");
            reveal_strlit(".");
            reveal_strlit("...");
            reveal_strlit(" ");
        }
        let (mut r, turn_index, turn) = match *self {
            TurnError::IllegalMove { turn_index, turn } => (String::from_str("illegal move: "), turn_index, turn),
            TurnError::AmbiguousMove { turn_index, turn } => (String::from_str("ambiguous move: "), turn_index, turn),
        };
        let ghost head = r@;
        push_ply(&mut r, turn_index);
        let text = turn.to_san();
        r.append(text.as_str());
        proof {
            assert(r@ =~= head + indexed_text(turn_index as nat, turn));
            assert(head =~= match *self {
                TurnError::IllegalMove { .. } => seq!['i', 'l', 'l', 'e', 'g', 'a', 'l'] + seq![' ', 'm', 'o', 'v', 'e', ':', ' '],
                TurnError::AmbiguousMove { .. } => seq!['a', 'm', 'b', 'i', 'g', 'u', 'o', 'u', 's'] + seq![' ', 'm', 'o', 'v', 'e', ':', ' '],
            });
        }
        r
    }
}

/// Castling is refused when the castling is no longer available, when the
/// king is not on its home square, or (kingside) when the `f` or `g` square
/// of the home rank is occupied. After a castling, neither castling of that
/// color remains, and king and rook stand on `g` and `f` (kingside) or `c` and
/// `d` (queenside) of the home rank.
pub proof fn lemma_castling_rules(p: Position, side: Side, turn_index: usize)
    ensures
        ({
            let c = p.active;
            let king = SquareContent::Piece(Piece { color: c, kind: PieceKind::King });
            let at = |f: int| p.board.at_square(home_square(c, f));
            (side == Side::King && (!p.castling_availabilities.spec_kingside_for(c) || at(4) != king || at(5) is Piece
                || at(6) is Piece)) ==> AlgebraicTurn::Castle(side).outcome(turn_index, p) is Err
        }),
        ({
            let c = p.active;
            let king = SquareContent::Piece(Piece { color: c, kind: PieceKind::King });
            let at = |f: int| p.board.at_square(home_square(c, f));
            (side == Side::Queen && (!p.castling_availabilities.spec_queenside_for(c) || at(4) != king))
                ==> AlgebraicTurn::Castle(side).outcome(turn_index, p) is Err
        }),
        AlgebraicTurn::Castle(side).outcome(turn_index, p) matches Ok(q) ==> {
            let c = p.active;
            let king = SquareContent::Piece(Piece { color: c, kind: PieceKind::King });
            let rook = SquareContent::Piece(Piece { color: c, kind: PieceKind::Rook });
            &&& !q.castling_availabilities.spec_kingside_for(c)
            &&& !q.castling_availabilities.spec_queenside_for(c)
            &&& side == Side::King ==> q.board.at_square(home_square(c, 6)) == king && q.board.at_square(home_square(c, 5))
                == rook
            &&& side == Side::Queen ==> q.board.at_square(home_square(c, 2)) == king && q.board.at_square(
                home_square(c, 3),
            ) == rook
        },
{
    let c = p.active;
    let king = SquareContent::Piece(Piece { color: c, kind: PieceKind::King });
    let rook = SquareContent::Piece(Piece { color: c, kind: PieceKind::Rook });
    let b = p.board;
    match side {
        Side::King => {
            let b1 = b.spec_set(home_square(c, 4), SquareContent::Empty);
            let b2 = b1.spec_set(home_square(c, 5), rook);
            let b3 = b2.spec_set(home_square(c, 6), king);
            crate::model::lemma_spec_set(b, home_square(c, 4), SquareContent::Empty);
            crate::model::lemma_spec_set(b1, home_square(c, 5), rook);
            crate::model::lemma_spec_set(b2, home_square(c, 6), king);
            crate::model::lemma_spec_set(b3, home_square(c, 7), SquareContent::Empty);
        },
        Side::Queen => {
            let b1 = b.spec_set(home_square(c, 0), SquareContent::Empty);
            let b2 = b1.spec_set(home_square(c, 2), king);
            let b3 = b2.spec_set(home_square(c, 3), rook);
            crate::model::lemma_spec_set(b, home_square(c, 0), SquareContent::Empty);
            crate::model::lemma_spec_set(b1, home_square(c, 2), king);
            crate::model::lemma_spec_set(b2, home_square(c, 3), rook);
            crate::model::lemma_spec_set(b3, home_square(c, 4), SquareContent::Empty);
        },
    }
}

/// A normal turn that succeeds never leaves the mover's king attacked by a
/// pseudo-legal move of the opponent.
pub proof fn lemma_king_safety(t: AlgebraicTurn, turn_index: usize, p: Position)
    requires
        t is Normal,
        t.outcome(turn_index, p) is Ok,
    ensures
        !king_attacked(t.outcome(turn_index, p).unwrap(), p.active),
{
    let m = choose|m: Move| t.is_candidate(p, m);
    assert(t.is_candidate(p, m));
}

/// The en passant target lasts one ply: after a successful turn it is set
/// only when that turn was a pawn's two-square first move, which records the
/// skipped file.
pub proof fn lemma_en_passant_expires(t: AlgebraicTurn, turn_index: usize, p: Position)
    requires
        t.outcome(turn_index, p) is Ok,
        t.outcome(turn_index, p).unwrap().en_passant_target_file is Some,
    ensures
        t matches AlgebraicTurn::Normal { piece, .. } && piece == PieceKind::Pawn,
        forall|m: Move| #[trigger] t.is_candidate(p, m) ==> pawn_double(
            p,
            local_file_of(p, m.from),
            local_rank_of(p, m.from),
            local_file_of(p, m.to),
            local_rank_of(p, m.to),
            m.en_passant_metadata,
        ),
{
    if t is Normal {
        let m = choose|m: Move| t.is_candidate(p, m);
        assert(t.is_candidate(p, m));
        assert forall|m2: Move| #[trigger] t.is_candidate(p, m2) implies pawn_double(
            p,
            local_file_of(p, m2.from),
            local_rank_of(p, m2.from),
            local_file_of(p, m2.to),
            local_rank_of(p, m2.to),
            m2.en_passant_metadata,
        ) by {
            assert(m2 == m);
        }
    }
}


proof fn lemma_char_names(f: File, r: Rank, k: PieceKind)
    ensures
        file_of_char(f.spec_char()) == Some(f),
        rank_of_char(r.spec_char()) == Some(r),
        kind_of_char(k.spec_char()) == Some(k),
        rank_of_char(f.spec_char()) is None,
        kind_of_char(f.spec_char()) is None,
        file_of_char(k.spec_char()) is None,
        rank_of_char(k.spec_char()) is None,
        kind_of_char(r.spec_char()) is None,
        !is_capture_char(r.spec_char()),
        !is_capture_char(f.spec_char()),
        !is_capture_char(k.spec_char()),
        k.spec_char() != ')',
        r.spec_char() != ')',
{
    match f {
        File::A => {},
        File::B => {},
        File::C => {},
        File::D => {},
        File::E => {},
        File::F => {},
        File::G => {},
        File::H => {},
    }
    match r {
        Rank::One => {},
        Rank::Two => {},
        Rank::Three => {},
        Rank::Four => {},
        Rank::Five => {},
        Rank::Six => {},
        Rank::Seven => {},
        Rank::Eight => {},
    }
}

/// The text before the destination of a normal turn.
pub open spec fn san_head_text(piece: PieceKind, departure_file: Option<File>, departure_rank: Option<Rank>, capture: bool) -> Seq<char> {
    piece_text(piece) + file_text(departure_file) + rank_text(departure_rank) + capture_text(capture)
}

/// Reading the text before the destination back gives its parts.
#[verifier::rlimit(40)]
proof fn lemma_head_parse(piece: PieceKind, departure_file: Option<File>, departure_rank: Option<Rank>, capture: bool)
    ensures
        ({
            let s2 = san_head_text(piece, departure_file, departure_rank, capture);
            let cap = s2.len() >= 1 && is_capture_char(s2.last());
            let s3 = if cap { s2.drop_last() } else { s2 };
            let dr = if s3.len() >= 1 { rank_of_char(s3.last()) } else { None };
            let s4 = if dr is Some { s3.drop_last() } else { s3 };
            let df = if s4.len() >= 1 { file_of_char(s4.last()) } else { None };
            let s5 = if df is Some { s4.drop_last() } else { s4 };
            let pc = if s5.len() >= 1 { piece_letter(s5.last()) } else { None };
            let s6 = if pc is Some { s5.drop_last() } else { s5 };
            &&& cap == capture
            &&& dr == departure_rank
            &&& df == departure_file
            &&& (match pc {
                Some(k) => k,
                None => PieceKind::Pawn,
            }) == piece
            &&& s6.len() == 0
        }),
{
    let p = piece_text(piece);
    let f = file_text(departure_file);
    let r = rank_text(departure_rank);
    let x = capture_text(capture);
    let s2 = p + f + r + x;
    let s3 = p + f + r;
    let s4 = p + f;
    lemma_char_names(File::A, Rank::One, piece);
    if let Some(ff) = departure_file {
        lemma_char_names(ff, Rank::One, piece);
    }
    if let Some(rr) = departure_rank {
        lemma_char_names(File::A, rr, piece);
        if let Some(ff) = departure_file {
            lemma_char_names(ff, rr, piece);
        }
    }
    if capture {
        assert(s2.drop_last() =~= s3);
    } else {
        assert(s2 =~= s3);
    }
    if departure_rank is Some {
        assert(s3.drop_last() =~= s4);
        assert(s3.last() == departure_rank.unwrap().spec_char());
    } else {
        assert(s3 =~= s4);
    }
    if departure_file is Some {
        assert(s4.drop_last() =~= p);
        assert(s4.last() == departure_file.unwrap().spec_char());
    } else {
        assert(s4 =~= p);
    }
    if piece != PieceKind::Pawn {
        assert(p.drop_last() =~= Seq::<char>::empty());
    }
}

proof fn lemma_not_castle_text(s: Seq<char>)
    requires
        s.len() >= 1,
        s.last() != '0',
        s.last() != 'O',
    ensures
        s != seq!['0', '-', '0'],
        s != seq!['O', '-', 'O'],
        s != seq!['0', '-', '0', '-', '0'],
        s != seq!['O', '-', 'O', '-', 'O'],
{
    if s == seq!['0', '-', '0'] || s == seq!['O', '-', 'O'] {
        assert(s.last() == s[2]);
    }
    if s == seq!['0', '-', '0', '-', '0'] || s == seq!['O', '-', 'O', '-', 'O'] {
        assert(s.last() == s[4]);
    }
}

#[verifier::rlimit(60)]
proof fn lemma_normal_round_trip(
    destination_file: File,
    destination_rank: Rank,
    piece: PieceKind,
    departure_file: Option<File>,
    departure_rank: Option<Rank>,
    capture: bool,
    promotion: Option<PieceKind>,
)
    ensures
        ({
            let t = AlgebraicTurn::Normal {
                destination_file,
                destination_rank,
                piece,
                departure_file,
                departure_rank,
                capture,
                promotion,
            };
            spec_parse_algebraic(san_text(t)) == Some(t)
        }),
{
    let t = AlgebraicTurn::Normal {
        destination_file,
        destination_rank,
        piece,
        departure_file,
        departure_rank,
        capture,
        promotion,
    };
    let head = san_head_text(piece, departure_file, departure_rank, capture);
    let s1 = head + seq![destination_file.spec_char(), destination_rank.spec_char()];
    let s = s1 + promotion_text(promotion);
    assert(san_text(t) =~= s);
    lemma_char_names(destination_file, destination_rank, PieceKind::Pawn);
    lemma_head_parse(piece, departure_file, departure_rank, capture);
    assert(s1.take(s1.len() - 2) =~= head);
    match promotion {
        Some(k) => {
            lemma_char_names(destination_file, destination_rank, k);
            assert(s.last() == k.spec_char());
            assert(s.drop_last().drop_last() =~= s1);
            assert(s.drop_last().last() == '=');
            assert(strip_promotion(s) == Some((s1, promotion)));
            lemma_not_castle_text(s);
        },
        None => {
            assert(s =~= s1);
            assert(s.last() == destination_rank.spec_char());
            assert(strip_promotion(s) == Some((s1, promotion)));
            lemma_not_castle_text(s);
        },
    }
}

/// SAN round trip: parsing the canonical text of a turn gives the turn back,
/// so printing a turn parsed from canonical text gives that text again.
pub proof fn lemma_san_round_trip(t: AlgebraicTurn)
    ensures
        spec_parse_algebraic(san_text(t)) == Some(t),
{
    match t {
        AlgebraicTurn::Castle(side) => {
            assert(seq!['0', '-', '0'] != seq!['O', '-', 'O']) by {
                assert(seq!['0', '-', '0'][0] != seq!['O', '-', 'O'][0]);
            }
        },
        AlgebraicTurn::Normal {
            destination_file,
            destination_rank,
            piece,
            departure_file,
            departure_rank,
            capture,
            promotion,
        } => {
            lemma_normal_round_trip(
                destination_file,
                destination_rank,
                piece,
                departure_file,
                departure_rank,
                capture,
                promotion,
            );
        },
    }
}


impl std::str::FromStr for AlgebraicTurn {
    type Err = String;

    fn from_str(source: &str) -> (r: Result<AlgebraicTurn, String>)
        ensures
            r is Ok <==> spec_parse_algebraic(source@) is Some,
            r is Ok ==> r.unwrap() == spec_parse_algebraic(source@).unwrap(),
            r matches Err(e) ==> e@ == invalid_san_text(source@),
    {
        parse_algebraic_turn(source)
    }
}

impl std::str::FromStr for AnnotatedAlgebraicTurn {
    type Err = String;

    fn from_str(source: &str) -> (r: Result<AnnotatedAlgebraicTurn, String>)
        ensures
            r is Ok <==> spec_parse_turn(source@) is Some,
            r is Ok ==> r.unwrap() == spec_parse_turn(source@).unwrap(),
            r matches Err(e) ==> e@ == invalid_san_text(source@),
    {
        parse_turn(source)
    }
}

} // verus!
