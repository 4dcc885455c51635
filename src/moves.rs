//! Pseudo-legal move generation, in the frame of the side to play.
use vstd::prelude::*;
use crate::model::{
    CastlingAvailabilities, Color, File, Rank, Square, Piece, PieceKind, SquareContent, Position, file_at, rank_at,
    square_at, to_absolute,
};

verus! {

/// What a move means for en passant.
#[derive(Debug, Clone, Copy, PartialEq, Eq, Structural)]
pub enum EnPassantMetadata {
    /// Nothing to report.
    Nothing,
    /// A pawn advanced two squares, skipping a square of this file.
    SkipFile(File),
    /// A pawn captured en passant the pawn standing on this file.
    EnPassantCaptureFile(File),
}

impl EnPassantMetadata {
    /// The skipped file of a two-square pawn move.
    pub fn skip_file(self) -> (r: Option<File>)
        ensures
            r == match self {
                EnPassantMetadata::SkipFile(f) => Some(f),
                _ => None,
            },
    {
        match self {
            EnPassantMetadata::SkipFile(f) => Some(f),
            _ => None,
        }
    }

    /// The file of the pawn taken en passant.
    pub fn en_passant_capture_file(self) -> (r: Option<File>)
        ensures
            r == match self {
                EnPassantMetadata::EnPassantCaptureFile(f) => Some(f),
                _ => None,
            },
    {
        match self {
            EnPassantMetadata::EnPassantCaptureFile(f) => Some(f),
            _ => None,
        }
    }
}

/// A pseudo-legal move, in absolute squares.
#[derive(Debug, Clone, Copy, PartialEq, Eq, Structural)]
pub struct Move {
    pub from: Square,
    pub to: Square,
    pub en_passant_metadata: EnPassantMetadata,
    /// Whether this move takes away the mover's kingside castling.
    pub removes_kingside_castling_ability: bool,
    /// Whether this move takes away the mover's queenside castling.
    pub removes_queenside_castling_ability: bool,
}

/// A square in the frame of one color: that color's pawns move towards higher
/// local ranks. Black's frame is white's turned by half a turn.
#[derive(Debug, Clone, Copy, PartialEq, Eq, Structural)]
pub struct LocalSquare {
    pub color: Color,
    pub local_file: File,
    pub local_rank: Rank,
}

/// A file or rank index of the board.
pub open spec fn on_board(i: int) -> bool {
    0 <= i < 8
}

impl LocalSquare {
    /// The local file index.
    pub open spec fn lf(self) -> int {
        self.local_file.spec_index()
    }

    /// The local rank index.
    pub open spec fn lr(self) -> int {
        self.local_rank.spec_index()
    }

    /// The absolute square that this local square stands for.
    pub open spec fn spec_absolute(self) -> Square {
        square_at(to_absolute(self.color, self.lf()), to_absolute(self.color, self.lr()))
    }

    /// The local square of `color` that stands for an absolute square.
    pub fn from_absolute(color: Color, square: Square) -> (r: LocalSquare)
        ensures
            r.color == color,
            r.lf() == to_absolute(color, square.file.spec_index()),
            r.lr() == to_absolute(color, square.rank.spec_index()),
            r.spec_absolute() == square,
    {
        let local = match color {
            Color::White => square,
            Color::Black => square.transpose(),
        };
        proof {
            lemma_square_indices(square);
        }
        LocalSquare { color, local_file: local.file, local_rank: local.rank }
    }

    /// The absolute square that this local square stands for.
    pub fn to_absolute(self) -> (r: Square)
        ensures
            r == self.spec_absolute(),
    {
        let local = Square::new(self.local_file, self.local_rank);
        let r = match self.color {
            Color::White => local,
            Color::Black => local.transpose(),
        };
        proof {
            lemma_square_indices(local);
            lemma_square_indices(r);
        }
        r
    }

    /// The local square `df` files to the right and `dr` ranks forward, if it
    /// is on the board.
    pub fn step(self, df: i8, dr: i8) -> (r: Option<LocalSquare>)
        requires
            -2 <= df <= 2,
            -2 <= dr <= 2,
        ensures
            r.is_some() <==> on_board(self.lf() + df) && on_board(self.lr() + dr),
            r.is_some() ==> r.unwrap().color == self.color && r.unwrap().lf() == self.lf() + df
                && r.unwrap().lr() == self.lr() + dr,
    {
        let f = self.local_file.index() as i8 + df;
        let k = self.local_rank.index() as i8 + dr;
        if f < 0 || k < 0 {
            return None;
        }
        match (File::new(f as usize), Rank::new(k as usize)) {
            (Some(local_file), Some(local_rank)) => Some(
                LocalSquare { color: self.color, local_file, local_rank },
            ),
            _ => None,
        }
    }

    /// One rank towards the opponent.
    pub fn forward(self) -> (r: Option<LocalSquare>)
        ensures
            r == (if on_board(self.lr() + 1) {
                Some(LocalSquare { local_rank: rank_at(self.lr() + 1), ..self })
            } else {
                None
            }),
    {
        match Rank::new(self.local_rank.index() + 1) {
            Some(local_rank) => Some(LocalSquare { local_rank, ..self }),
            None => None,
        }
    }

    /// One rank towards the own side.
    pub fn backward(self) -> (r: Option<LocalSquare>)
        ensures
            r == (if on_board(self.lr() - 1) {
                Some(LocalSquare { local_rank: rank_at(self.lr() - 1), ..self })
            } else {
                None
            }),
    {
        let i = self.local_rank.index();
        if i == 0 {
            return None;
        }
        match Rank::new(i - 1) {
            Some(local_rank) => Some(LocalSquare { local_rank, ..self }),
            None => None,
        }
    }

    /// One file to the left, as the color sees the board.
    pub fn left(self) -> (r: Option<LocalSquare>)
        ensures
            r == (if on_board(self.lf() - 1) {
                Some(LocalSquare { local_file: file_at(self.lf() - 1), ..self })
            } else {
                None
            }),
    {
        let i = self.local_file.index();
        if i == 0 {
            return None;
        }
        match File::new(i - 1) {
            Some(local_file) => Some(LocalSquare { local_file, ..self }),
            None => None,
        }
    }

    /// One file to the right, as the color sees the board.
    pub fn right(self) -> (r: Option<LocalSquare>)
        ensures
            r == (if on_board(self.lf() + 1) {
                Some(LocalSquare { local_file: file_at(self.lf() + 1), ..self })
            } else {
                None
            }),
    {
        match File::new(self.local_file.index() + 1) {
            Some(local_file) => Some(LocalSquare { local_file, ..self }),
            None => None,
        }
    }

    /// One step diagonally forward and to the left.
    pub fn forward_left(self) -> (r: Option<LocalSquare>)
        ensures
            r == (if on_board(self.lr() + 1) && on_board(self.lf() - 1) {
                Some(LocalSquare { local_file: file_at(self.lf() - 1), local_rank: rank_at(self.lr() + 1), ..self })
            } else {
                None
            }),
    {
        match self.forward() {
            Some(s) => s.left(),
            None => None,
        }
    }

    /// One step diagonally forward and to the right.
    pub fn forward_right(self) -> (r: Option<LocalSquare>)
        ensures
            r == (if on_board(self.lr() + 1) && on_board(self.lf() + 1) {
                Some(LocalSquare { local_file: file_at(self.lf() + 1), local_rank: rank_at(self.lr() + 1), ..self })
            } else {
                None
            }),
    {
        match self.forward() {
            Some(s) => s.right(),
            None => None,
        }
    }

    /// One step diagonally backward and to the left.
    pub fn backward_left(self) -> (r: Option<LocalSquare>)
        ensures
            r == (if on_board(self.lr() - 1) && on_board(self.lf() - 1) {
                Some(LocalSquare { local_file: file_at(self.lf() - 1), local_rank: rank_at(self.lr() - 1), ..self })
            } else {
                None
            }),
    {
        match self.backward() {
            Some(s) => s.left(),
            None => None,
        }
    }

    /// One step diagonally backward and to the right.
    pub fn backward_right(self) -> (r: Option<LocalSquare>)
        ensures
            r == (if on_board(self.lr() - 1) && on_board(self.lf() + 1) {
                Some(LocalSquare { local_file: file_at(self.lf() + 1), local_rank: rank_at(self.lr() - 1), ..self })
            } else {
                None
            }),
    {
        match self.backward() {
            Some(s) => s.right(),
            None => None,
        }
    }
}

/// A square is the square of its own indices, and its indices lie on the board.
pub proof fn lemma_square_indices(sq: Square)
    ensures
        square_at(sq.file.spec_index(), sq.rank.spec_index()) == sq,
        on_board(sq.file.spec_index()),
        on_board(sq.rank.spec_index()),
{
}

/// The content of the square at coordinates of the frame of the side to play.
pub open spec fn local_at(p: Position, lf: int, lr: int) -> SquareContent {
    p.board.at(to_absolute(p.active, lf), to_absolute(p.active, lr))
}

/// The file index of a square in the frame of the side to play.
pub open spec fn local_file_of(p: Position, sq: Square) -> int {
    to_absolute(p.active, sq.file.spec_index())
}

/// The rank index of a square in the frame of the side to play.
pub open spec fn local_rank_of(p: Position, sq: Square) -> int {
    to_absolute(p.active, sq.rank.spec_index())
}

pub open spec fn sgn(x: int) -> int {
    if x > 0 {
        1
    } else if x < 0 {
        -1
    } else {
        0
    }
}

pub open spec fn abs(x: int) -> int {
    if x < 0 {
        -x
    } else {
        x
    }
}

/// `k` steps along a coordinate whose direction is `d`.
pub open spec fn offset(k: int, d: int) -> int {
    if d > 0 {
        k
    } else if d < 0 {
        -k
    } else {
        0
    }
}

/// The number of king steps between two squares on a line.
pub open spec fn distance(ff: int, fr: int, tf: int, tr: int) -> int {
    if abs(tf - ff) > abs(tr - fr) {
        abs(tf - ff)
    } else {
        abs(tr - fr)
    }
}

/// The square `j` steps from `(ff, fr)` in the direction `(df, dr)`, local frame.
pub open spec fn ray_at(p: Position, ff: int, fr: int, df: int, dr: int, j: int) -> SquareContent {
    local_at(p, ff + offset(j, df), fr + offset(j, dr))
}

/// `(tf, tr)` lies on a file, a rank or a diagonal through `(ff, fr)`, and every
/// square strictly between the two is empty (local frame).
pub open spec fn slides(p: Position, ff: int, fr: int, tf: int, tr: int) -> bool {
    let df = sgn(tf - ff);
    let dr = sgn(tr - fr);
    let k = distance(ff, fr, tf, tr);
    &&& k >= 1
    &&& tf == ff + offset(k, df)
    &&& tr == fr + offset(k, dr)
    &&& forall|j: int| 1 <= j < k ==> (#[trigger] ray_at(p, ff, fr, df, dr, j)) is Empty
}

/// A pawn's step forward to an empty square (local frame).
pub open spec fn pawn_single(p: Position, ff: int, fr: int, tf: int, tr: int, md: EnPassantMetadata) -> bool {
    tf == ff && tr == fr + 1 && local_at(p, tf, tr) is Empty && md is Nothing
}

/// A pawn's first move, two squares forward over an empty square to an empty
/// square, which records the file of the skipped square (local frame).
pub open spec fn pawn_double(p: Position, ff: int, fr: int, tf: int, tr: int, md: EnPassantMetadata) -> bool {
    tf == ff && fr == 1 && tr == 3 && local_at(p, ff, 2) is Empty && local_at(p, tf, tr) is Empty
        && md == EnPassantMetadata::SkipFile(file_at(to_absolute(p.active, tf)))
}

/// A pawn's diagonal step forward onto an occupied square (local frame).
pub open spec fn pawn_capture(p: Position, ff: int, fr: int, tf: int, tr: int, md: EnPassantMetadata) -> bool {
    abs(tf - ff) == 1 && tr == fr + 1 && local_at(p, tf, tr) is Piece && md is Nothing
}

/// A pawn's diagonal step forward onto the empty en passant target square
/// (local frame).
pub open spec fn pawn_en_passant(p: Position, ff: int, fr: int, tf: int, tr: int, md: EnPassantMetadata) -> bool {
    let file = file_at(to_absolute(p.active, tf));
    abs(tf - ff) == 1 && tr == fr + 1 && tr == 5 && p.en_passant_target_file == Some(file) && local_at(p, tf, tr) is Empty
        && md == EnPassantMetadata::EnPassantCaptureFile(file)
}

/// A pawn move of the side to play from `(ff, fr)` to `(tf, tr)`, local frame.
pub open spec fn pawn_step(p: Position, ff: int, fr: int, tf: int, tr: int, md: EnPassantMetadata) -> bool {
    ||| pawn_single(p, ff, fr, tf, tr, md)
    ||| pawn_double(p, ff, fr, tf, tr, md)
    ||| pawn_capture(p, ff, fr, tf, tr, md)
    ||| pawn_en_passant(p, ff, fr, tf, tr, md)
}

/// Where a piece of a kind may go from `(ff, fr)`, local frame, before the
/// safety of the king is considered.
pub open spec fn reaches(p: Position, kind: PieceKind, ff: int, fr: int, tf: int, tr: int, md: EnPassantMetadata) -> bool {
    match kind {
        PieceKind::Pawn => pawn_step(p, ff, fr, tf, tr, md),
        PieceKind::Knight => md is Nothing && ((abs(tf - ff) == 1 && abs(tr - fr) == 2) || (abs(tf - ff) == 2
            && abs(tr - fr) == 1)),
        PieceKind::Bishop => md is Nothing && tf != ff && tr != fr && slides(p, ff, fr, tf, tr),
        PieceKind::Rook => md is Nothing && (tf == ff || tr == fr) && slides(p, ff, fr, tf, tr),
        PieceKind::Queen => md is Nothing && slides(p, ff, fr, tf, tr),
        PieceKind::King => md is Nothing && abs(tf - ff) <= 1 && abs(tr - fr) <= 1 && (tf != ff || tr != fr),
    }
}

/// Whether a move by `color` of a kind from a square takes away its kingside
/// castling: any king move, and a rook or queen move from the `h` corner of
/// that color's home rank.
pub open spec fn clears_kingside(kind: PieceKind, color: Color, from: Square) -> bool {
    kind is King || ((kind is Rook || kind is Queen) && from.file == File::H && from.rank.spec_index() == to_absolute(
        color,
        0,
    ))
}

/// Whether a move by `color` of a kind from a square takes away its queenside
/// castling: any king move, and a rook or queen move from the `a` corner of
/// that color's home rank.
pub open spec fn clears_queenside(kind: PieceKind, color: Color, from: Square) -> bool {
    kind is King || ((kind is Rook || kind is Queen) && from.file == File::A && from.rank.spec_index() == to_absolute(
        color,
        0,
    ))
}

/// A pseudo-legal move of a piece of this kind of the side to play: it obeys
/// the piece's movement and does not land on a piece of the mover's own
/// color, but may leave the mover's king attacked. Castling is not a move of
/// this kind.
pub open spec fn is_pseudo_move(p: Position, kind: PieceKind, m: Move) -> bool {
    reach_move(p, kind, m) && !lands_on_own(p, m)
}

/// The move arrives on a square that holds a piece of the side to play.
pub open spec fn lands_on_own(p: Position, m: Move) -> bool {
    p.board.at_square(m.to) matches SquareContent::Piece(q) && q.color == p.active
}

/// A move of a piece of this kind of the side to play by the piece's movement
/// alone: it may also arrive on a piece of the mover's own color.
pub open spec fn reach_move(p: Position, kind: PieceKind, m: Move) -> bool {
    &&& p.board.at_square(m.from) == SquareContent::Piece(Piece { color: p.active, kind })
    &&& m.removes_kingside_castling_ability == clears_kingside(kind, p.active, m.from)
    &&& m.removes_queenside_castling_ability == clears_queenside(kind, p.active, m.from)
    &&& reaches(
        p,
        kind,
        local_file_of(p, m.from),
        local_rank_of(p, m.from),
        local_file_of(p, m.to),
        local_rank_of(p, m.to),
        m.en_passant_metadata,
    )
}

/// A move along the ray from `dep` in direction `(df, dr)`.
#[verifier::opaque]
pub open spec fn ray_move(p: Position, dep: LocalSquare, df: int, dr: int, ks: bool, qs: bool, m: Move) -> bool {
    let tf = local_file_of(p, m.to);
    let tr = local_rank_of(p, m.to);
    &&& m.from == dep.spec_absolute()
    &&& m.en_passant_metadata is Nothing
    &&& m.removes_kingside_castling_ability == ks
    &&& m.removes_queenside_castling_ability == qs
    &&& sgn(tf - dep.lf()) == df
    &&& sgn(tr - dep.lr()) == dr
    &&& slides(p, dep.lf(), dep.lr(), tf, tr)
}

/// Local coordinates of the absolute square of a local square of the side to play.
pub proof fn lemma_local_of_absolute(p: Position, s: LocalSquare)
    requires
        s.color == p.active,
    ensures
        local_file_of(p, s.spec_absolute()) == s.lf(),
        local_rank_of(p, s.spec_absolute()) == s.lr(),
        local_at(p, s.lf(), s.lr()) == p.board.at_square(s.spec_absolute()),
{
}

pub proof fn lemma_push_contains<A>(s: Seq<A>, x: A, y: A)
    ensures
        s.push(x).contains(y) <==> (s.contains(y) || x == y),
{
    if s.push(x).contains(y) {
        let i = choose|i: int| 0 <= i < s.push(x).len() && s.push(x)[i] == y;
        if i < s.len() {
            assert(s[i] == y);
        }
    }
    if s.contains(y) {
        let i = choose|i: int| 0 <= i < s.len() && s[i] == y;
        assert(s.push(x)[i] == y);
    }
    if x == y {
        assert(s.push(x)[s.len() as int] == y);
    }
}

fn make_move(dep: LocalSquare, dest: LocalSquare, md: EnPassantMetadata, ks: bool, qs: bool) -> (r: Move)
    ensures
        r == (Move {
            from: dep.spec_absolute(),
            to: dest.spec_absolute(),
            en_passant_metadata: md,
            removes_kingside_castling_ability: ks,
            removes_queenside_castling_ability: qs,
        }),
{
    Move {
        from: dep.to_absolute(),
        to: dest.to_absolute(),
        en_passant_metadata: md,
        removes_kingside_castling_ability: ks,
        removes_queenside_castling_ability: qs,
    }
}

/// Two moves along one ray at the same distance are the same move.
proof fn lemma_ray_unique(p: Position, dep: LocalSquare, df: int, dr: int, ks: bool, qs: bool, m1: Move, m2: Move)
    requires
        ray_move(p, dep, df, dr, ks, qs, m1),
        ray_move(p, dep, df, dr, ks, qs, m2),
        distance(dep.lf(), dep.lr(), local_file_of(p, m1.to), local_rank_of(p, m1.to))
            == distance(dep.lf(), dep.lr(), local_file_of(p, m2.to), local_rank_of(p, m2.to)),
    ensures
        m1 == m2,
{
    reveal(ray_move);
    lemma_square_indices(m1.to);
    lemma_square_indices(m2.to);
}

/// The square `n + 1` steps along a ray whose first `n` squares are empty is
/// reached by the ray.
proof fn lemma_ray_next(p: Position, dep: LocalSquare, df: int, dr: int, ks: bool, qs: bool, n: int, d: LocalSquare, m: Move)
    requires
        dep.color == p.active,
        d.color == p.active,
        -1 <= df <= 1,
        -1 <= dr <= 1,
        df != 0 || dr != 0,
        0 <= n,
        d.lf() == dep.lf() + offset(n + 1, df),
        d.lr() == dep.lr() + offset(n + 1, dr),
        forall|j: int| 1 <= j <= n ==> (#[trigger] ray_at(p, dep.lf(), dep.lr(), df, dr, j)) is Empty,
        m == (Move {
            from: dep.spec_absolute(),
            to: d.spec_absolute(),
            en_passant_metadata: EnPassantMetadata::Nothing,
            removes_kingside_castling_ability: ks,
            removes_queenside_castling_ability: qs,
        }),
    ensures
        ray_move(p, dep, df, dr, ks, qs, m),
        distance(dep.lf(), dep.lr(), local_file_of(p, m.to), local_rank_of(p, m.to)) == n + 1,
        ray_at(p, dep.lf(), dep.lr(), df, dr, n + 1) == p.board.at_square(d.spec_absolute()),
{
    reveal(ray_move);
    lemma_local_of_absolute(p, d);
}

/// Along a ray, no move goes past an occupied square.
proof fn lemma_ray_blocked(p: Position, dep: LocalSquare, df: int, dr: int, ks: bool, qs: bool, n: int, m: Move)
    requires
        0 <= n,
        ray_at(p, dep.lf(), dep.lr(), df, dr, n + 1) is Piece,
        ray_move(p, dep, df, dr, ks, qs, m),
    ensures
        distance(dep.lf(), dep.lr(), local_file_of(p, m.to), local_rank_of(p, m.to)) <= n + 1,
{
    reveal(ray_move);
    let k = distance(dep.lf(), dep.lr(), local_file_of(p, m.to), local_rank_of(p, m.to));
    if k > n + 1 {
        assert(ray_at(p, dep.lf(), dep.lr(), df, dr, n + 1) is Empty);
    }
}

/// Along a ray, no move goes past the edge of the board.
proof fn lemma_ray_edge(p: Position, dep: LocalSquare, df: int, dr: int, ks: bool, qs: bool, n: int, m: Move)
    requires
        dep.color == p.active,
        0 <= n,
        !(on_board(dep.lf() + offset(n + 1, df)) && on_board(dep.lr() + offset(n + 1, dr))),
        ray_move(p, dep, df, dr, ks, qs, m),
    ensures
        distance(dep.lf(), dep.lr(), local_file_of(p, m.to), local_rank_of(p, m.to)) <= n,
{
    reveal(ray_move);
    lemma_square_indices(m.to);
}

/// A move along a ray goes at least one step.
proof fn lemma_ray_positive(p: Position, dep: LocalSquare, df: int, dr: int, ks: bool, qs: bool, m: Move)
    requires
        ray_move(p, dep, df, dr, ks, qs, m),
    ensures
        distance(dep.lf(), dep.lr(), local_file_of(p, m.to), local_rank_of(p, m.to)) >= 1,
{
    reveal(ray_move);
}

/// The moves of a ray up to distance `n`, after those of `start`.
pub open spec fn ray_prefix(p: Position, dep: LocalSquare, df: int, dr: int, ks: bool, qs: bool, start: Seq<Move>, s: Seq<Move>, n: int) -> bool {
    forall|m: Move| #[trigger] s.contains(m) <==> (start.contains(m) || (ray_move(p, dep, df, dr, ks, qs, m)
        && distance(dep.lf(), dep.lr(), local_file_of(p, m.to), local_rank_of(p, m.to)) <= n))
}

pub open spec fn ray_all(p: Position, dep: LocalSquare, df: int, dr: int, ks: bool, qs: bool, start: Seq<Move>, s: Seq<Move>) -> bool {
    forall|m: Move| #[trigger] s.contains(m) <==> (start.contains(m) || ray_move(p, dep, df, dr, ks, qs, m))
}

#[verifier::rlimit(60)]
proof fn lemma_ray_push(p: Position, dep: LocalSquare, df: int, dr: int, ks: bool, qs: bool, start: Seq<Move>, s: Seq<Move>, s2: Seq<Move>, n: int, d: LocalSquare, m: Move)
    requires
        dep.color == p.active,
        d.color == p.active,
        -1 <= df <= 1,
        -1 <= dr <= 1,
        df != 0 || dr != 0,
        0 <= n,
        d.lf() == dep.lf() + offset(n + 1, df),
        d.lr() == dep.lr() + offset(n + 1, dr),
        forall|j: int| 1 <= j <= n ==> (#[trigger] ray_at(p, dep.lf(), dep.lr(), df, dr, j)) is Empty,
        m == (Move {
            from: dep.spec_absolute(),
            to: d.spec_absolute(),
            en_passant_metadata: EnPassantMetadata::Nothing,
            removes_kingside_castling_ability: ks,
            removes_queenside_castling_ability: qs,
        }),
        ray_prefix(p, dep, df, dr, ks, qs, start, s, n),
        forall|x: Move| #[trigger] s2.contains(x) <==> (s.contains(x) || x == m),
    ensures
        ray_prefix(p, dep, df, dr, ks, qs, start, s2, n + 1),
        ray_at(p, dep.lf(), dep.lr(), df, dr, n + 1) == p.board.at_square(d.spec_absolute()),
        p.board.at_square(d.spec_absolute()) is Piece ==> ray_all(p, dep, df, dr, ks, qs, start, s2),
{
    lemma_ray_next(p, dep, df, dr, ks, qs, n, d, m);
    assert forall|m2: Move| #[trigger] s2.contains(m2) <==> (start.contains(m2) || (ray_move(p, dep, df, dr, ks, qs, m2)
        && distance(dep.lf(), dep.lr(), local_file_of(p, m2.to), local_rank_of(p, m2.to)) <= n + 1)) by {
        if ray_move(p, dep, df, dr, ks, qs, m2)
            && distance(dep.lf(), dep.lr(), local_file_of(p, m2.to), local_rank_of(p, m2.to)) == n + 1 {
            lemma_ray_unique(p, dep, df, dr, ks, qs, m, m2);
        }
    }
    if p.board.at_square(d.spec_absolute()) is Piece {
        assert forall|m2: Move| #[trigger] s2.contains(m2) <==> (start.contains(m2) || ray_move(p, dep, df, dr, ks, qs, m2)) by {
            if ray_move(p, dep, df, dr, ks, qs, m2) {
                lemma_ray_blocked(p, dep, df, dr, ks, qs, n, m2);
            }
        }
    }
}

proof fn lemma_ray_stop(p: Position, dep: LocalSquare, df: int, dr: int, ks: bool, qs: bool, start: Seq<Move>, s: Seq<Move>, n: int)
    requires
        dep.color == p.active,
        0 <= n,
        !(on_board(dep.lf() + offset(n + 1, df)) && on_board(dep.lr() + offset(n + 1, dr))),
        ray_prefix(p, dep, df, dr, ks, qs, start, s, n),
    ensures
        ray_all(p, dep, df, dr, ks, qs, start, s),
{
    assert forall|m2: Move| #[trigger] s.contains(m2) <==> (start.contains(m2) || ray_move(p, dep, df, dr, ks, qs, m2)) by {
        if ray_move(p, dep, df, dr, ks, qs, m2) {
            lemma_ray_edge(p, dep, df, dr, ks, qs, n, m2);
        }
    }
}

/// Appends the moves along one ray: square after square until the edge of the
/// board, or up to and including the first occupied square.
#[verifier::rlimit(60)]
fn push_ray(p: &Position, dep: LocalSquare, df: i8, dr: i8, ks: bool, qs: bool, moves: &mut Vec<Move>)
    requires
        old(moves)@.no_duplicates(),
        dep.color == p.active,
        -1 <= df <= 1,
        -1 <= dr <= 1,
        df != 0 || dr != 0,
    ensures
        final(moves)@.no_duplicates(),
        ray_all(*p, dep, df as int, dr as int, ks, qs, old(moves)@, final(moves)@),
{
    let ghost start = moves@;
    let mut cur = dep;
    let mut n: usize = 0;
    proof {
        assert forall|m: Move| #[trigger] moves@.contains(m) <==> (start.contains(m) || (ray_move(*p, dep, df as int, dr as int, ks, qs, m)
            && distance(dep.lf(), dep.lr(), local_file_of(*p, m.to), local_rank_of(*p, m.to)) <= 0)) by {
            if ray_move(*p, dep, df as int, dr as int, ks, qs, m) {
                lemma_ray_positive(*p, dep, df as int, dr as int, ks, qs, m);
            }
        }
    }
    loop
        invariant_except_break
            cur.color == p.active,
            n <= 7,
            cur.lf() == dep.lf() + offset(n as int, df as int),
            cur.lr() == dep.lr() + offset(n as int, dr as int),
            forall|j: int| 1 <= j <= n ==> (#[trigger] ray_at(*p, dep.lf(), dep.lr(), df as int, dr as int, j)) is Empty,
            ray_prefix(*p, dep, df as int, dr as int, ks, qs, start, moves@, n as int),
        invariant
            dep.color == p.active,
            -1 <= df <= 1,
            -1 <= dr <= 1,
            df != 0 || dr != 0,
            moves@.no_duplicates(),
        ensures
            ray_all(*p, dep, df as int, dr as int, ks, qs, start, moves@),
        decreases 7 - n,
    {
        match cur.step(df, dr) {
            None => {
                proof {
                    lemma_ray_stop(*p, dep, df as int, dr as int, ks, qs, start, moves@, n as int);
                }
                break;
            },
            Some(d) => {
                let m = make_move(dep, d, EnPassantMetadata::Nothing, ks, qs);
                let ghost before = moves@;
                push_when(moves, true, m);
                proof {
                    lemma_ray_push(*p, dep, df as int, dr as int, ks, qs, start, before, moves@, n as int, d, m);
                }
                if p.at(d.to_absolute()).is_occupied() {
                    break;
                }
                cur = d;
                n = n + 1;
            },
        }
    }
}

/// All moves of `old` and the moves of `new` whose departure is `from`.
pub open spec fn adds_from(p: Position, kind: PieceKind, from: Square, old: Seq<Move>, new: Seq<Move>) -> bool {
    forall|m: Move| #[trigger] new.contains(m) <==> (old.contains(m) || (m.from == from && reach_move(p, kind, m)))
}

/// A move of one fixed displacement `(df, dr)` from `dep`, local frame.
pub open spec fn jump_move(p: Position, dep: LocalSquare, df: int, dr: int, ks: bool, qs: bool, m: Move) -> bool {
    &&& m.from == dep.spec_absolute()
    &&& local_file_of(p, m.to) == dep.lf() + df
    &&& local_rank_of(p, m.to) == dep.lr() + dr
    &&& m.en_passant_metadata is Nothing
    &&& m.removes_kingside_castling_ability == ks
    &&& m.removes_queenside_castling_ability == qs
}

/// Whether the moves hold `m`.
fn holds(moves: &Vec<Move>, m: Move) -> (r: bool)
    ensures
        r == moves@.contains(m),
{
    let mut i: usize = 0;
    while i < moves.len()
        invariant
            i <= moves@.len(),
            forall|k: int| 0 <= k < i ==> moves@[k] != m,
        decreases moves@.len() - i,
    {
        if moves[i] == m {
            proof {
                assert(moves@[i as int] == m);
            }
            return true;
        }
        i = i + 1;
    }
    false
}

/// Appends `m` when `cond` holds and the moves do not hold it yet.
fn push_when(moves: &mut Vec<Move>, cond: bool, m: Move)
    requires
        old(moves)@.no_duplicates(),
    ensures
        final(moves)@.no_duplicates(),
        forall|x: Move| #[trigger] final(moves)@.contains(x) <==> (old(moves)@.contains(x) || (cond && x == m)),
{
    if cond && !holds(moves, m) {
        proof {
            assert forall|x: Move| #[trigger] moves@.push(m).contains(x) <==> (moves@.contains(x) || x == m) by {
                lemma_push_contains(moves@, m, x);
            }
            assert forall|a: int, b: int| 0 <= a < b < moves@.push(m).len() implies moves@.push(m)[a] != moves@.push(m)[b] by {
                if b == moves@.len() {
                    assert(moves@[a] != m);
                }
            }
        }
        moves.push(m);
    }
}

/// Appends the move of displacement `(df, dr)` from `dep`, if it stays on the board.
fn push_jump(p: &Position, dep: LocalSquare, df: i8, dr: i8, ks: bool, qs: bool, moves: &mut Vec<Move>)
    requires
        old(moves)@.no_duplicates(),
        dep.color == p.active,
        -2 <= df <= 2,
        -2 <= dr <= 2,
    ensures
        final(moves)@.no_duplicates(),
        forall|x: Move| #[trigger] final(moves)@.contains(x) <==> (old(moves)@.contains(x) || jump_move(*p, dep, df as int, dr as int, ks, qs, x)),
{
    match dep.step(df, dr) {
        Some(d) => {
            let m = make_move(dep, d, EnPassantMetadata::Nothing, ks, qs);
            proof {
                lemma_local_of_absolute(*p, d);
                assert forall|x: Move| jump_move(*p, dep, df as int, dr as int, ks, qs, x) implies x == m by {
                    lemma_square_indices(x.to);
                }
            }
            push_when(moves, true, m);
        },
        None => {
            proof {
                assert forall|x: Move| !jump_move(*p, dep, df as int, dr as int, ks, qs, x) by {
                    lemma_square_indices(x.to);
                }
            }
        },
    }
}

#[verifier::rlimit(40)]
proof fn lemma_knight_jumps(p: Position, dep: LocalSquare, m: Move)
    requires
        dep.color == p.active,
        p.board.at_square(dep.spec_absolute()) == SquareContent::Piece(Piece { color: p.active, kind: PieceKind::Knight }),
    ensures
        (m.from == dep.spec_absolute() && reach_move(p, PieceKind::Knight, m)) <==> (jump_move(p, dep, -1, 2, false, false, m) || jump_move(p, dep, 1, 2, false, false, m) || jump_move(p, dep, -1, -2, false, false, m) || jump_move(p, dep, 1, -2, false, false, m) || jump_move(p, dep, -2, 1, false, false, m) || jump_move(p, dep, 2, 1, false, false, m) || jump_move(p, dep, -2, -1, false, false, m) || jump_move(p, dep, 2, -1, false, false, m)),
{
    lemma_local_of_absolute(p, dep);
}

fn push_knight(p: &Position, dep: LocalSquare, moves: &mut Vec<Move>)
    requires
        old(moves)@.no_duplicates(),
        dep.color == p.active,
        p.board.at_square(dep.spec_absolute()) == SquareContent::Piece(Piece { color: p.active, kind: PieceKind::Knight }),
    ensures
        final(moves)@.no_duplicates(),
        adds_from(*p, PieceKind::Knight, dep.spec_absolute(), old(moves)@, final(moves)@),
{
    let ghost start = moves@;
    push_jump(p, dep, -1, 2, false, false, moves);
    push_jump(p, dep, 1, 2, false, false, moves);
    push_jump(p, dep, -1, -2, false, false, moves);
    push_jump(p, dep, 1, -2, false, false, moves);
    push_jump(p, dep, -2, 1, false, false, moves);
    push_jump(p, dep, 2, 1, false, false, moves);
    push_jump(p, dep, -2, -1, false, false, moves);
    push_jump(p, dep, 2, -1, false, false, moves);
    proof {
        assert forall|x: Move| #[trigger] moves@.contains(x) <==> (start.contains(x) || (x.from == dep.spec_absolute() && reach_move(*p, PieceKind::Knight, x))) by {
            lemma_knight_jumps(*p, dep, x);
        }
    }
}

#[verifier::rlimit(40)]
proof fn lemma_king_jumps(p: Position, dep: LocalSquare, m: Move)
    requires
        dep.color == p.active,
        p.board.at_square(dep.spec_absolute()) == SquareContent::Piece(Piece { color: p.active, kind: PieceKind::King }),
    ensures
        (m.from == dep.spec_absolute() && reach_move(p, PieceKind::King, m)) <==> (jump_move(p, dep, 0, 1, true, true, m) || jump_move(p, dep, 0, -1, true, true, m) || jump_move(p, dep, -1, 0, true, true, m) || jump_move(p, dep, 1, 0, true, true, m) || jump_move(p, dep, -1, 1, true, true, m) || jump_move(p, dep, 1, 1, true, true, m) || jump_move(p, dep, -1, -1, true, true, m) || jump_move(p, dep, 1, -1, true, true, m)),
{
    lemma_local_of_absolute(p, dep);
}

fn push_king(p: &Position, dep: LocalSquare, moves: &mut Vec<Move>)
    requires
        old(moves)@.no_duplicates(),
        dep.color == p.active,
        p.board.at_square(dep.spec_absolute()) == SquareContent::Piece(Piece { color: p.active, kind: PieceKind::King }),
    ensures
        final(moves)@.no_duplicates(),
        adds_from(*p, PieceKind::King, dep.spec_absolute(), old(moves)@, final(moves)@),
{
    let ghost start = moves@;
    push_jump(p, dep, 0, 1, true, true, moves);
    push_jump(p, dep, 0, -1, true, true, moves);
    push_jump(p, dep, -1, 0, true, true, moves);
    push_jump(p, dep, 1, 0, true, true, moves);
    push_jump(p, dep, -1, 1, true, true, moves);
    push_jump(p, dep, 1, 1, true, true, moves);
    push_jump(p, dep, -1, -1, true, true, moves);
    push_jump(p, dep, 1, -1, true, true, moves);
    proof {
        assert forall|x: Move| #[trigger] moves@.contains(x) <==> (start.contains(x) || (x.from == dep.spec_absolute() && reach_move(*p, PieceKind::King, x))) by {
            lemma_king_jumps(*p, dep, x);
        }
    }
}

/// The moves of a sliding piece from `dep` are the moves along its rays.
#[verifier::rlimit(40)]
proof fn lemma_slide_rays(p: Position, kind: PieceKind, dep: LocalSquare, ks: bool, qs: bool, m: Move)
    requires
        dep.color == p.active,
        p.board.at_square(dep.spec_absolute()) == SquareContent::Piece(Piece { color: p.active, kind }),
        kind is Bishop || kind is Rook || kind is Queen,
        ks == clears_kingside(kind, p.active, dep.spec_absolute()),
        qs == clears_queenside(kind, p.active, dep.spec_absolute()),
    ensures
        (m.from == dep.spec_absolute() && reach_move(p, kind, m)) <==> (
            (!(kind is Bishop) && (ray_move(p, dep, 0, 1, ks, qs, m) || ray_move(p, dep, 0, -1, ks, qs, m)
                || ray_move(p, dep, -1, 0, ks, qs, m) || ray_move(p, dep, 1, 0, ks, qs, m)))
            || (!(kind is Rook) && (ray_move(p, dep, -1, 1, ks, qs, m) || ray_move(p, dep, 1, 1, ks, qs, m)
                || ray_move(p, dep, -1, -1, ks, qs, m) || ray_move(p, dep, 1, -1, ks, qs, m)))),
{
    reveal(ray_move);
    lemma_local_of_absolute(p, dep);
}

#[verifier::rlimit(40)]
fn push_slides(p: &Position, dep: LocalSquare, kind: PieceKind, moves: &mut Vec<Move>)
    requires
        old(moves)@.no_duplicates(),
        dep.color == p.active,
        p.board.at_square(dep.spec_absolute()) == SquareContent::Piece(Piece { color: p.active, kind }),
        kind is Bishop || kind is Rook || kind is Queen,
    ensures
        final(moves)@.no_duplicates(),
        adds_from(*p, kind, dep.spec_absolute(), old(moves)@, final(moves)@),
{
    let from = dep.to_absolute();
    let home = match p.active {
        Color::White => Rank::One,
        Color::Black => Rank::Eight,
    };
    let corner = from.rank == home;
    let heavy = kind == PieceKind::Rook || kind == PieceKind::Queen;
    let ks = heavy && corner && from.file == File::H;
    let qs = heavy && corner && from.file == File::A;
    let ghost start = moves@;
    let ghost s1 = moves@;
    if kind != PieceKind::Bishop {
        push_ray(p, dep, 0, 1, ks, qs, moves);
        push_ray(p, dep, 0, -1, ks, qs, moves);
        push_ray(p, dep, -1, 0, ks, qs, moves);
        push_ray(p, dep, 1, 0, ks, qs, moves);
    }
    proof {
        s1 = moves@;
    }
    if kind != PieceKind::Rook {
        push_ray(p, dep, -1, 1, ks, qs, moves);
        push_ray(p, dep, 1, 1, ks, qs, moves);
        push_ray(p, dep, -1, -1, ks, qs, moves);
        push_ray(p, dep, 1, -1, ks, qs, moves);
    }
    proof {
        assert forall|x: Move| #[trigger] moves@.contains(x) <==> (start.contains(x) || (x.from == from && reach_move(*p, kind, x))) by {
            lemma_slide_rays(*p, kind, dep, ks, qs, x);
        }
    }
}

/// A pawn move from `dep` with no castling effect, of one of the shapes above.
pub open spec fn pawn_move_from(p: Position, dep: LocalSquare, x: Move, shape: spec_fn(Position, int, int, int, int, EnPassantMetadata) -> bool) -> bool {
    &&& x.from == dep.spec_absolute()
    &&& !x.removes_kingside_castling_ability
    &&& !x.removes_queenside_castling_ability
    &&& shape(p, dep.lf(), dep.lr(), local_file_of(p, x.to), local_rank_of(p, x.to), x.en_passant_metadata)
}

#[verifier::rlimit(40)]
fn push_pawn_forward(p: &Position, dep: LocalSquare, moves: &mut Vec<Move>)
    requires
        old(moves)@.no_duplicates(),
        dep.color == p.active,
    ensures
        final(moves)@.no_duplicates(),
        forall|x: Move| #[trigger] final(moves)@.contains(x) <==> (old(moves)@.contains(x)
            || pawn_move_from(*p, dep, x, |p: Position, ff: int, fr: int, tf: int, tr: int, md: EnPassantMetadata| pawn_single(p, ff, fr, tf, tr, md))
            || pawn_move_from(*p, dep, x, |p: Position, ff: int, fr: int, tf: int, tr: int, md: EnPassantMetadata| pawn_double(p, ff, fr, tf, tr, md))),
{
    let ghost start = moves@;
    if let Some(d) = dep.forward() {
        let m = make_move(dep, d, EnPassantMetadata::Nothing, false, false);
        let empty1 = p.at(d.to_absolute()).is_empty();
        push_when(moves, empty1, m);
        proof {
            lemma_local_of_absolute(*p, d);
        }
        if let Some(d2) = d.forward() {
            let sk = d.to_absolute();
            let m2 = make_move(dep, d2, EnPassantMetadata::SkipFile(sk.file), false, false);
            let cond = dep.local_rank == Rank::Two && empty1 && p.at(d2.to_absolute()).is_empty();
            push_when(moves, cond, m2);
            proof {
                lemma_local_of_absolute(*p, d2);
                assert forall|x: Move| #[trigger] moves@.contains(x) <==> (start.contains(x)
                    || pawn_move_from(*p, dep, x, |p: Position, ff: int, fr: int, tf: int, tr: int, md: EnPassantMetadata| pawn_single(p, ff, fr, tf, tr, md))
                    || pawn_move_from(*p, dep, x, |p: Position, ff: int, fr: int, tf: int, tr: int, md: EnPassantMetadata| pawn_double(p, ff, fr, tf, tr, md))) by {
                    lemma_square_indices(x.to);
                }
            }
        } else {
            proof {
                assert forall|x: Move| #[trigger] moves@.contains(x) <==> (start.contains(x)
                    || pawn_move_from(*p, dep, x, |p: Position, ff: int, fr: int, tf: int, tr: int, md: EnPassantMetadata| pawn_single(p, ff, fr, tf, tr, md))
                    || pawn_move_from(*p, dep, x, |p: Position, ff: int, fr: int, tf: int, tr: int, md: EnPassantMetadata| pawn_double(p, ff, fr, tf, tr, md))) by {
                    lemma_square_indices(x.to);
                }
            }
        }
    } else {
        proof {
            assert forall|x: Move| #[trigger] moves@.contains(x) <==> (start.contains(x)
                || pawn_move_from(*p, dep, x, |p: Position, ff: int, fr: int, tf: int, tr: int, md: EnPassantMetadata| pawn_single(p, ff, fr, tf, tr, md))
                || pawn_move_from(*p, dep, x, |p: Position, ff: int, fr: int, tf: int, tr: int, md: EnPassantMetadata| pawn_double(p, ff, fr, tf, tr, md))) by {
                lemma_square_indices(x.to);
            }
        }
    }
}

/// Appends the diagonal pawn moves towards local file `dep.lf() + df`.
#[verifier::rlimit(40)]
fn push_pawn_diagonal(p: &Position, dep: LocalSquare, df: i8, moves: &mut Vec<Move>)
    requires
        old(moves)@.no_duplicates(),
        dep.color == p.active,
        df == -1 || df == 1,
    ensures
        final(moves)@.no_duplicates(),
        forall|x: Move| #[trigger] final(moves)@.contains(x) <==> (old(moves)@.contains(x)
            || (local_file_of(*p, x.to) == dep.lf() + df && (pawn_move_from(*p, dep, x, |p: Position, ff: int, fr: int, tf: int, tr: int, md: EnPassantMetadata| pawn_capture(p, ff, fr, tf, tr, md))
            || pawn_move_from(*p, dep, x, |p: Position, ff: int, fr: int, tf: int, tr: int, md: EnPassantMetadata| pawn_en_passant(p, ff, fr, tf, tr, md))))),
{
    let ghost start = moves@;
    match dep.step(df, 1) {
        Some(d) => {
            let to = d.to_absolute();
            let m1 = make_move(dep, d, EnPassantMetadata::Nothing, false, false);
            push_when(moves, p.at(to).is_occupied(), m1);
            let ep = d.local_rank == Rank::Six && p.at(to).is_empty() && match p.en_passant_target_file {
                Some(f) => f == to.file,
                None => false,
            };
            let m2 = make_move(dep, d, EnPassantMetadata::EnPassantCaptureFile(to.file), false, false);
            push_when(moves, ep, m2);
            proof {
                lemma_local_of_absolute(*p, d);
                assert forall|x: Move| #[trigger] moves@.contains(x) <==> (start.contains(x)
                    || (local_file_of(*p, x.to) == dep.lf() + df && (pawn_move_from(*p, dep, x, |p: Position, ff: int, fr: int, tf: int, tr: int, md: EnPassantMetadata| pawn_capture(p, ff, fr, tf, tr, md))
                    || pawn_move_from(*p, dep, x, |p: Position, ff: int, fr: int, tf: int, tr: int, md: EnPassantMetadata| pawn_en_passant(p, ff, fr, tf, tr, md))))) by {
                    lemma_square_indices(x.to);
                }
            }
        },
        None => {
            proof {
                assert forall|x: Move| #[trigger] moves@.contains(x) <==> (start.contains(x)
                    || (local_file_of(*p, x.to) == dep.lf() + df && (pawn_move_from(*p, dep, x, |p: Position, ff: int, fr: int, tf: int, tr: int, md: EnPassantMetadata| pawn_capture(p, ff, fr, tf, tr, md))
                    || pawn_move_from(*p, dep, x, |p: Position, ff: int, fr: int, tf: int, tr: int, md: EnPassantMetadata| pawn_en_passant(p, ff, fr, tf, tr, md))))) by {
                    lemma_square_indices(x.to);
                }
            }
        },
    }
}

#[verifier::rlimit(40)]
proof fn lemma_pawn_shapes(p: Position, dep: LocalSquare, m: Move)
    requires
        dep.color == p.active,
        p.board.at_square(dep.spec_absolute()) == SquareContent::Piece(Piece { color: p.active, kind: PieceKind::Pawn }),
    ensures
        (m.from == dep.spec_absolute() && reach_move(p, PieceKind::Pawn, m)) <==> (
            pawn_move_from(p, dep, m, |p: Position, ff: int, fr: int, tf: int, tr: int, md: EnPassantMetadata| pawn_single(p, ff, fr, tf, tr, md))
            || pawn_move_from(p, dep, m, |p: Position, ff: int, fr: int, tf: int, tr: int, md: EnPassantMetadata| pawn_double(p, ff, fr, tf, tr, md))
            || (local_file_of(p, m.to) == dep.lf() - 1 && (pawn_move_from(p, dep, m, |p: Position, ff: int, fr: int, tf: int, tr: int, md: EnPassantMetadata| pawn_capture(p, ff, fr, tf, tr, md))
                || pawn_move_from(p, dep, m, |p: Position, ff: int, fr: int, tf: int, tr: int, md: EnPassantMetadata| pawn_en_passant(p, ff, fr, tf, tr, md))))
            || (local_file_of(p, m.to) == dep.lf() + 1 && (pawn_move_from(p, dep, m, |p: Position, ff: int, fr: int, tf: int, tr: int, md: EnPassantMetadata| pawn_capture(p, ff, fr, tf, tr, md))
                || pawn_move_from(p, dep, m, |p: Position, ff: int, fr: int, tf: int, tr: int, md: EnPassantMetadata| pawn_en_passant(p, ff, fr, tf, tr, md))))),
{
    lemma_local_of_absolute(p, dep);
}

fn push_pawn(p: &Position, dep: LocalSquare, moves: &mut Vec<Move>)
    requires
        old(moves)@.no_duplicates(),
        dep.color == p.active,
        p.board.at_square(dep.spec_absolute()) == SquareContent::Piece(Piece { color: p.active, kind: PieceKind::Pawn }),
    ensures
        final(moves)@.no_duplicates(),
        adds_from(*p, PieceKind::Pawn, dep.spec_absolute(), old(moves)@, final(moves)@),
{
    let ghost start = moves@;
    push_pawn_forward(p, dep, moves);
    push_pawn_diagonal(p, dep, -1, moves);
    push_pawn_diagonal(p, dep, 1, moves);
    proof {
        assert forall|x: Move| #[trigger] moves@.contains(x) <==> (start.contains(x) || (x.from == dep.spec_absolute() && reach_move(*p, PieceKind::Pawn, x))) by {
            lemma_pawn_shapes(*p, dep, x);
        }
    }
}

/// The index of a square in the order of `Square::all`.
pub open spec fn square_order(sq: Square) -> int {
    sq.file.spec_index() * 8 + sq.rank.spec_index()
}

/// Every pseudo-legal move of the pieces of one kind of the side to play,
/// each once: a move is in the result if and only if it is pseudo-legal. Castling is not
/// among them, and a move may leave the mover's own king attacked.
#[verifier::rlimit(40)]
pub fn valid_moves(position: &Position, piece_kind: PieceKind) -> (r: Vec<Move>)
    ensures
        forall|m: Move| #[trigger] r@.contains(m) <==> is_pseudo_move(*position, piece_kind, m),
        r@.no_duplicates(),
{
    let squares = Square::all();
    let piece = Piece::new(position.active, piece_kind);
    let mut moves: Vec<Move> = Vec::new();
    let mut i: usize = 0;
    while i < 64
        invariant
            i <= 64,
            squares@.len() == 64,
            forall|k: int| 0 <= k < 64 ==> #[trigger] squares@[k] == square_at(k / 8, k % 8),
            piece == (Piece { color: position.active, kind: piece_kind }),
            moves@.no_duplicates(),
            forall|m: Move| #[trigger] moves@.contains(m) <==> (reach_move(*position, piece_kind, m) && square_order(m.from) < i),
        decreases 64 - i,
    {
        let sq = squares[i];
        let dep = LocalSquare::from_absolute(position.active, sq);
        let ghost before = moves@;
        if position.at(sq).is(piece) {
            match piece_kind {
                PieceKind::Pawn => push_pawn(position, dep, &mut moves),
                PieceKind::Knight => push_knight(position, dep, &mut moves),
                PieceKind::King => push_king(position, dep, &mut moves),
                _ => push_slides(position, dep, piece_kind, &mut moves),
            }
        }
        proof {
            assert(square_order(sq) == i) by {
                lemma_square_indices(sq);
            }
            assert forall|m: Move| #[trigger] moves@.contains(m) <==> (reach_move(*position, piece_kind, m) && square_order(m.from) < i + 1) by {
                lemma_square_indices(m.from);
                if square_order(m.from) == i {
                    assert(m.from == sq);
                }
            }
        }
        i = i + 1;
    }
    proof {
        assert forall|m: Move| #[trigger] moves@.contains(m) <==> reach_move(*position, piece_kind, m) by {
            lemma_square_indices(m.from);
        }
    }
    let mut r: Vec<Move> = Vec::new();
    let mut j: usize = 0;
    while j < moves.len()
        invariant
            j <= moves@.len(),
            moves@.no_duplicates(),
            forall|m: Move| #[trigger] moves@.contains(m) <==> reach_move(*position, piece_kind, m),
            r@.no_duplicates(),
            forall|m: Move| #[trigger] r@.contains(m) <==> (exists|k: int| 0 <= k < j && moves@[k] == m) && !lands_on_own(*position, m),
        decreases moves@.len() - j,
    {
        let m = moves[j];
        let own = match position.at(m.to) {
            SquareContent::Piece(q) => q.color == position.active,
            SquareContent::Empty => false,
        };
        let ghost before = r@;
        proof {
            assert(!before.contains(m)) by {
                if before.contains(m) {
                    let k = choose|k: int| 0 <= k < j && moves@[k] == m;
                    assert(moves@[k] == moves@[j as int]);
                }
            }
        }
        if !own {
            r.push(m);
        }
        proof {
            assert forall|x: Move| #[trigger] r@.contains(x) <==> (exists|k: int| 0 <= k < j + 1 && moves@[k] == x) && !lands_on_own(*position, x) by {
                lemma_push_contains(before, m, x);
                if exists|k: int| 0 <= k < j + 1 && moves@[k] == x {
                    let k = choose|k: int| 0 <= k < j + 1 && moves@[k] == x;
                    if k < j {
                        assert(exists|k2: int| 0 <= k2 < j && moves@[k2] == x);
                    }
                }
                if exists|k: int| 0 <= k < j && moves@[k] == x {
                    let k = choose|k: int| 0 <= k < j && moves@[k] == x;
                    assert(0 <= k < j + 1 && moves@[k] == x);
                }
                if x == m {
                    assert(moves@[j as int] == x);
                }
            }
            assert forall|a: int, b: int| 0 <= a < b < r@.len() implies r@[a] != r@[b] by {
                if !own && b == before.len() {
                    assert(before.contains(before[a]));
                }
            }
        }
        j = j + 1;
    }
    proof {
        assert forall|m: Move| #[trigger] r@.contains(m) <==> is_pseudo_move(*position, piece_kind, m) by {
            if moves@.contains(m) {
                let k = choose|k: int| 0 <= k < moves@.len() && moves@[k] == m;
                assert(0 <= k < j && moves@[k] == m);
            }
            if exists|k: int| 0 <= k < j && moves@[k] == m {
                let k = choose|k: int| 0 <= k < j && moves@[k] == m;
                assert(moves@.contains(moves@[k]));
            }
        }
    }
    r
}

/// The castling availabilities after a move of `color` that takes away the
/// castlings that its flags name.
pub open spec fn spec_after_castling_flags(ca: CastlingAvailabilities, color: Color, ks: bool, qs: bool) -> CastlingAvailabilities {
    let ca1 = if ks {
        match color {
            Color::White => CastlingAvailabilities { white_kingside: false, ..ca },
            Color::Black => CastlingAvailabilities { black_kingside: false, ..ca },
        }
    } else {
        ca
    };
    if qs {
        match color {
            Color::White => CastlingAvailabilities { white_queenside: false, ..ca1 },
            Color::Black => CastlingAvailabilities { black_queenside: false, ..ca1 },
        }
    } else {
        ca1
    }
}

/// A counter grown by one, saturating at `u32::MAX`.
pub open spec fn incremented(n: u32) -> u32 {
    if n < u32::MAX {
        (n + 1) as u32
    } else {
        u32::MAX
    }
}

/// The position after the side to play makes move `m` with a piece of kind
/// `piece`: the departure square is emptied, the arrival square gets the
/// piece (or the promotion kind), a pawn taken en passant is removed, the
/// castlings that the move's flags name are lost, the halfmove counter
/// restarts on a capture or pawn move and grows otherwise, the fullmove
/// counter grows after black, and the other color is to play.
pub open spec fn spec_apply_move(p: Position, m: Move, piece: PieceKind, promotion: Option<PieceKind>) -> Position {
    let c = p.active;
    let kind = match promotion {
        Some(k) => k,
        None => piece,
    };
    let b1 = p.board.spec_set(m.from, SquareContent::Empty);
    let b2 = b1.spec_set(m.to, SquareContent::Piece(Piece { color: c, kind }));
    let b3 = match m.en_passant_metadata {
        EnPassantMetadata::EnPassantCaptureFile(f) => b2.spec_set(
            Square { file: f, rank: rank_at(to_absolute(c, 4)) },
            SquareContent::Empty,
        ),
        _ => b2,
    };
    Position {
        board: b3,
        active: c.spec_flip(),
        castling_availabilities: spec_after_castling_flags(
            p.castling_availabilities,
            c,
            m.removes_kingside_castling_ability,
            m.removes_queenside_castling_ability,
        ),
        en_passant_target_file: match m.en_passant_metadata {
            EnPassantMetadata::SkipFile(f) => Some(f),
            _ => None,
        },
        halfmove: if p.board.at_square(m.to) is Piece || piece == PieceKind::Pawn {
            0
        } else {
            incremented(p.halfmove)
        },
        fullmove: p.spec_next_fullmove(),
    }
}

impl Move {
    /// The position after the side to play makes this move with a piece of
    /// kind `piece`, promoting to `promotion` if given.
    pub fn apply(self, position: &Position, piece: PieceKind, promotion: Option<PieceKind>) -> (r: Position)
        ensures
            r == spec_apply_move(*position, self, piece, promotion),
    {
        let mut board = position.board;
        board.set(self.from, SquareContent::Empty);
        let kind = match promotion {
            Some(k) => k,
            None => piece,
        };
        board.set(self.to, SquareContent::Piece(Piece::new(position.active, kind)));
        if let Some(f) = self.en_passant_metadata.en_passant_capture_file() {
            board.set(Square::new(f, position.active.en_passant_capture_rank()), SquareContent::Empty);
        }
        let mut ca = position.castling_availabilities;
        if self.removes_kingside_castling_ability {
            match position.active {
                Color::White => ca.white_kingside = false,
                Color::Black => ca.black_kingside = false,
            }
        }
        if self.removes_queenside_castling_ability {
            match position.active {
                Color::White => ca.white_queenside = false,
                Color::Black => ca.black_queenside = false,
            }
        }
        let halfmove = if position.at(self.to).is_occupied() || piece == PieceKind::Pawn {
            0
        } else {
            position.halfmove.saturating_add(1)
        };
        Position {
            board,
            active: position.active.flip(),
            castling_availabilities: ca,
            en_passant_target_file: self.en_passant_metadata.skip_file(),
            halfmove,
            fullmove: position.next_fullmove(),
        }
    }
}

/// Some pseudo-legal move of the side to play in `q` arrives on a square that
/// holds the king of `color`.
pub open spec fn king_attacked(q: Position, color: Color) -> bool {
    exists|kind: PieceKind, m: Move|
        #[trigger] is_pseudo_move(q, kind, m) && q.board.at_square(m.to) == SquareContent::Piece(
            Piece { color, kind: PieceKind::King },
        )
}

/// Whether some pseudo-legal move of the side to play in `q` arrives on the
/// king of `color`.
#[verifier::rlimit(40)]
pub fn is_king_attacked(q: &Position, color: Color) -> (r: bool)
    ensures
        r == king_attacked(*q, color),
{
    let king = Piece::new(color, PieceKind::King);
    let kinds = PieceKind::values();
    let mut i: usize = 0;
    while i < 6
        invariant
            i <= 6,
            kinds@ == seq![
                PieceKind::Pawn,
                PieceKind::Knight,
                PieceKind::Bishop,
                PieceKind::Rook,
                PieceKind::Queen,
                PieceKind::King,
            ],
            king == (Piece { color, kind: PieceKind::King }),
            forall|k: int, m: Move| 0 <= k < i && #[trigger] is_pseudo_move(*q, kinds@[k], m)
                ==> q.board.at_square(m.to) != SquareContent::Piece(king),
        decreases 6 - i,
    {
        let kind = kinds[i];
        let moves = valid_moves(q, kind);
        let mut j: usize = 0;
        while j < moves.len()
            invariant
                i < 6,
                kinds@ == seq![
                    PieceKind::Pawn,
                    PieceKind::Knight,
                    PieceKind::Bishop,
                    PieceKind::Rook,
                    PieceKind::Queen,
                    PieceKind::King,
                ],
                king == (Piece { color, kind: PieceKind::King }),
                kind == kinds@[i as int],
                j <= moves@.len(),
                forall|m: Move| #[trigger] moves@.contains(m) <==> is_pseudo_move(*q, kind, m),
                forall|t: int| 0 <= t < j ==> q.board.at_square(#[trigger] moves@[t].to) != SquareContent::Piece(king),
            decreases moves@.len() - j,
        {
            if q.at(moves[j].to).is(king) {
                proof {
                    assert(moves@.contains(moves@[j as int]));
                    assert(is_pseudo_move(*q, kind, moves@[j as int]));
                }
                return true;
            }
            j = j + 1;
        }
        proof {
            assert forall|m: Move| #[trigger] is_pseudo_move(*q, kind, m) implies q.board.at_square(m.to) != SquareContent::Piece(king) by {
                assert(moves@.contains(m));
                let t = choose|t: int| 0 <= t < moves@.len() && moves@[t] == m;
                assert(q.board.at_square(moves@[t].to) != SquareContent::Piece(king));
            }
        }
        i = i + 1;
    }
    proof {
        assert forall|kind: PieceKind, m: Move| #[trigger] is_pseudo_move(*q, kind, m)
            implies q.board.at_square(m.to) != SquareContent::Piece(king) by {
            let k: int = match kind {
                PieceKind::Pawn => 0,
                PieceKind::Knight => 1,
                PieceKind::Bishop => 2,
                PieceKind::Rook => 3,
                PieceKind::Queen => 4,
                PieceKind::King => 5,
            };
            assert(kinds@[k] == kind);
        }
    }
    false
}

/// With an en passant target on file `f`, a pawn of the side to play that
/// stands on the fifth rank of its own frame, on a file next to `f`, may move
/// diagonally onto the empty target square of `f` as an en passant capture; that move removes the pawn
/// that stands on file `f` of the capture rank.
pub proof fn lemma_en_passant_capture(p: Position, m: Move, promotion: Option<PieceKind>)
    requires
        p.en_passant_target_file is Some,
        p.board.at_square(m.from) == SquareContent::Piece(Piece { color: p.active, kind: PieceKind::Pawn }),
        local_rank_of(p, m.from) == 4,
        abs(local_file_of(p, m.from) - to_absolute(p.active, p.en_passant_target_file.unwrap().spec_index())) == 1,
        m.to == (Square { file: p.en_passant_target_file.unwrap(), rank: rank_at(to_absolute(p.active, 5)) }),
        p.board.at_square(m.to) is Empty,
        m.en_passant_metadata == EnPassantMetadata::EnPassantCaptureFile(p.en_passant_target_file.unwrap()),
        !m.removes_kingside_castling_ability,
        !m.removes_queenside_castling_ability,
    ensures
        is_pseudo_move(p, PieceKind::Pawn, m),
        spec_apply_move(p, m, PieceKind::Pawn, promotion).board.at_square(
            Square { file: p.en_passant_target_file.unwrap(), rank: rank_at(to_absolute(p.active, 4)) },
        ) is Empty,
{
    let f = p.en_passant_target_file.unwrap();
    let c = p.active;
    let kind = match promotion {
        Some(k) => k,
        None => PieceKind::Pawn,
    };
    let b1 = p.board.spec_set(m.from, SquareContent::Empty);
    let b2 = b1.spec_set(m.to, SquareContent::Piece(Piece { color: c, kind }));
    let sq = Square { file: f, rank: rank_at(to_absolute(c, 4)) };
    crate::model::lemma_spec_set(b2, sq, SquareContent::Empty);
    lemma_square_indices(sq);
    lemma_square_indices(m.to);
}

} // verus!
