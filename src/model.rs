//! Coordinates, pieces, boards and positions.
use vstd::prelude::*;

verus! {

/// A column of the board, from `a` to `h`.
#[derive(Debug, Clone, Copy, PartialEq, Eq, Structural)]
pub enum File {
    A,
    B,
    C,
    D,
    E,
    F,
    G,
    H,
}

/// The file with the given index (`a` is 0).
pub open spec fn file_at(i: int) -> File {
    if i <= 0 {
        File::A
    } else if i == 1 {
        File::B
    } else if i == 2 {
        File::C
    } else if i == 3 {
        File::D
    } else if i == 4 {
        File::E
    } else if i == 5 {
        File::F
    } else if i == 6 {
        File::G
    } else {
        File::H
    }
}

impl File {
    pub open spec fn spec_index(self) -> int {
        match self {
            File::A => 0,
            File::B => 1,
            File::C => 2,
            File::D => 3,
            File::E => 4,
            File::F => 5,
            File::G => 6,
            File::H => 7,
        }
    }

    /// The letter that names this file.
    pub open spec fn spec_char(self) -> char {
        match self {
            File::A => 'a',
            File::B => 'b',
            File::C => 'c',
            File::D => 'd',
            File::E => 'e',
            File::F => 'f',
            File::G => 'g',
            File::H => 'h',
        }
    }

    pub fn new(index: usize) -> (r: Option<File>)
        ensures
            r.is_some() <==> index < 8,
            r.is_some() ==> r.unwrap() == file_at(index as int),
    {
        match index {
            0 => Some(File::A),
            1 => Some(File::B),
            2 => Some(File::C),
            3 => Some(File::D),
            4 => Some(File::E),
            5 => Some(File::F),
            6 => Some(File::G),
            7 => Some(File::H),
            _ => None,
        }
    }

    pub fn index(self) -> (r: usize)
        ensures
            r as int == self.spec_index(),
            file_at(r as int) == self,
    {
        match self {
            File::A => 0,
            File::B => 1,
            File::C => 2,
            File::D => 3,
            File::E => 4,
            File::F => 5,
            File::G => 6,
            File::H => 7,
        }
    }

    /// The file at the same distance from the other edge of the board.
    pub fn mirror(self) -> (r: File)
        ensures
            r.spec_index() == 7 - self.spec_index(),
            r == file_at(7 - self.spec_index()),
    {
        match self {
            File::A => File::H,
            File::B => File::G,
            File::C => File::F,
            File::D => File::E,
            File::E => File::D,
            File::F => File::C,
            File::G => File::B,
            File::H => File::A,
        }
    }

    /// The one-letter name of this file.
    pub fn name(self) -> (r: &'static str)
        ensures
            r@ == seq![self.spec_char()],
    {
        proof {
            reveal_strlit("a");
            reveal_strlit("b");
            reveal_strlit("c");
            reveal_strlit("d");
            reveal_strlit("e");
            reveal_strlit("f");
            reveal_strlit("g");
            reveal_strlit("h");
        }
        match self {
            File::A => "a",
            File::B => "b",
            File::C => "c",
            File::D => "d",
            File::E => "e",
            File::F => "f",
            File::G => "g",
            File::H => "h",
        }
    }

    /// The eight files, from `a` to `h`.
    pub fn values() -> (r: Vec<File>)
        ensures
            r@.len() == 8,
            forall|i: int| 0 <= i < 8 ==> #[trigger] r@[i] == file_at(i),
    {
        let r = vec![File::A, File::B, File::C, File::D, File::E, File::F, File::G, File::H];
        proof {
            assert(r@ =~= seq![File::A, File::B, File::C, File::D, File::E, File::F, File::G, File::H]);
        }
        r
    }

    /// The file named by a letter, if any.
    pub fn from_char(c: char) -> (r: Option<File>)
        ensures
            r == file_of_char(c),
    {
        match c {
            'a' => Some(File::A),
            'b' => Some(File::B),
            'c' => Some(File::C),
            'd' => Some(File::D),
            'e' => Some(File::E),
            'f' => Some(File::F),
            'g' => Some(File::G),
            'h' => Some(File::H),
            _ => None,
        }
    }
}

/// The file that a letter names, if any.
pub open spec fn file_of_char(c: char) -> Option<File> {
    if 'a' <= c <= 'h' {
        Some(file_at(c as int - 'a' as int))
    } else {
        None
    }
}

/// A row of the board, from `1` to `8`.
#[derive(Debug, Clone, Copy, PartialEq, Eq, Structural)]
pub enum Rank {
    One,
    Two,
    Three,
    Four,
    Five,
    Six,
    Seven,
    Eight,
}

/// The rank with the given index (`1` is 0).
pub open spec fn rank_at(i: int) -> Rank {
    if i <= 0 {
        Rank::One
    } else if i == 1 {
        Rank::Two
    } else if i == 2 {
        Rank::Three
    } else if i == 3 {
        Rank::Four
    } else if i == 4 {
        Rank::Five
    } else if i == 5 {
        Rank::Six
    } else if i == 6 {
        Rank::Seven
    } else {
        Rank::Eight
    }
}

/// The rank that a digit names, if any.
pub open spec fn rank_of_char(c: char) -> Option<Rank> {
    if '1' <= c <= '8' {
        Some(rank_at(c as int - '1' as int))
    } else {
        None
    }
}

impl Rank {
    pub open spec fn spec_index(self) -> int {
        match self {
            Rank::One => 0,
            Rank::Two => 1,
            Rank::Three => 2,
            Rank::Four => 3,
            Rank::Five => 4,
            Rank::Six => 5,
            Rank::Seven => 6,
            Rank::Eight => 7,
        }
    }

    /// The digit that names this rank.
    pub open spec fn spec_char(self) -> char {
        match self {
            Rank::One => '1',
            Rank::Two => '2',
            Rank::Three => '3',
            Rank::Four => '4',
            Rank::Five => '5',
            Rank::Six => '6',
            Rank::Seven => '7',
            Rank::Eight => '8',
        }
    }

    pub fn new(index: usize) -> (r: Option<Rank>)
        ensures
            r.is_some() <==> index < 8,
            r.is_some() ==> r.unwrap() == rank_at(index as int),
    {
        match index {
            0 => Some(Rank::One),
            1 => Some(Rank::Two),
            2 => Some(Rank::Three),
            3 => Some(Rank::Four),
            4 => Some(Rank::Five),
            5 => Some(Rank::Six),
            6 => Some(Rank::Seven),
            7 => Some(Rank::Eight),
            _ => None,
        }
    }

    pub fn index(self) -> (r: usize)
        ensures
            r as int == self.spec_index(),
            rank_at(r as int) == self,
    {
        match self {
            Rank::One => 0,
            Rank::Two => 1,
            Rank::Three => 2,
            Rank::Four => 3,
            Rank::Five => 4,
            Rank::Six => 5,
            Rank::Seven => 6,
            Rank::Eight => 7,
        }
    }

    /// The rank at the same distance from the other edge of the board.
    pub fn mirror(self) -> (r: Rank)
        ensures
            r.spec_index() == 7 - self.spec_index(),
            r == rank_at(7 - self.spec_index()),
    {
        match self {
            Rank::One => Rank::Eight,
            Rank::Two => Rank::Seven,
            Rank::Three => Rank::Six,
            Rank::Four => Rank::Five,
            Rank::Five => Rank::Four,
            Rank::Six => Rank::Three,
            Rank::Seven => Rank::Two,
            Rank::Eight => Rank::One,
        }
    }

    /// The one-digit name of this rank.
    pub fn name(self) -> (r: &'static str)
        ensures
            r@ == seq![self.spec_char()],
    {
        proof {
            reveal_strlit("1");
            reveal_strlit("2");
            reveal_strlit("3");
            reveal_strlit("4");
            reveal_strlit("5");
            reveal_strlit("6");
            reveal_strlit("7");
            reveal_strlit("8");
        }
        match self {
            Rank::One => "1",
            Rank::Two => "2",
            Rank::Three => "3",
            Rank::Four => "4",
            Rank::Five => "5",
            Rank::Six => "6",
            Rank::Seven => "7",
            Rank::Eight => "8",
        }
    }

    /// The eight ranks, from `1` to `8`.
    pub fn values() -> (r: Vec<Rank>)
        ensures
            r@.len() == 8,
            forall|i: int| 0 <= i < 8 ==> #[trigger] r@[i] == rank_at(i),
    {
        let r = vec![Rank::One, Rank::Two, Rank::Three, Rank::Four, Rank::Five, Rank::Six, Rank::Seven, Rank::Eight];
        proof {
            assert(r@ =~= seq![Rank::One, Rank::Two, Rank::Three, Rank::Four, Rank::Five, Rank::Six, Rank::Seven, Rank::Eight]);
        }
        r
    }

    /// The rank named by a digit, if any.
    pub fn from_char(c: char) -> (r: Option<Rank>)
        ensures
            r == rank_of_char(c),
    {
        match c {
            '1' => Some(Rank::One),
            '2' => Some(Rank::Two),
            '3' => Some(Rank::Three),
            '4' => Some(Rank::Four),
            '5' => Some(Rank::Five),
            '6' => Some(Rank::Six),
            '7' => Some(Rank::Seven),
            '8' => Some(Rank::Eight),
            _ => None,
        }
    }
}

/// A square of the board, named by its file and rank.
#[derive(Debug, Clone, Copy, PartialEq, Eq, Structural)]
pub struct Square {
    pub file: File,
    pub rank: Rank,
}

impl Square {
    /// The 64 squares, file by file, each file from rank 1 to rank 8.
    pub fn all() -> (r: Vec<Square>)
        ensures
            r@.len() == 64,
            forall|i: int|
                0 <= i < 64 ==> #[trigger] r@[i] == square_at(i / 8, i % 8),
    {
        let mut r: Vec<Square> = Vec::new();
        let mut f: usize = 0;
        while f < 8
            invariant
                f <= 8,
                r@.len() == 8 * f,
                forall|i: int| 0 <= i < 8 * f ==> #[trigger] r@[i] == square_at(i / 8, i % 8),
            decreases 8 - f,
        {
            let file = File::new(f).unwrap();
            let mut k: usize = 0;
            while k < 8
                invariant
                    f < 8,
                    k <= 8,
                    file == file_at(f as int),
                    r@.len() == 8 * f + k,
                    forall|i: int|
                        0 <= i < 8 * f + k ==> #[trigger] r@[i] == square_at(i / 8, i % 8),
                decreases 8 - k,
            {
                let rank = Rank::new(k).unwrap();
                r.push(Square { file, rank });
                k = k + 1;
            }
            f = f + 1;
        }
        r
    }

    pub fn new(file: File, rank: Rank) -> (r: Square)
        ensures
            r.file == file,
            r.rank == rank,
    {
        Square { file, rank }
    }

    pub fn file(self) -> (r: File)
        ensures
            r == self.file,
    {
        self.file
    }

    pub fn rank(self) -> (r: Rank)
        ensures
            r == self.rank,
    {
        self.rank
    }

    /// The same square seen from the other player's side of the board.
    pub fn transpose(self) -> (r: Square)
        ensures
            r.file.spec_index() == 7 - self.file.spec_index(),
            r.rank.spec_index() == 7 - self.rank.spec_index(),
    {
        Square { file: self.file.mirror(), rank: self.rank.mirror() }
    }

    /// The two-character name of this square, such as `e4`.
    pub fn name(self) -> (r: String)
        ensures
            r@ == seq![self.file.spec_char(), self.rank.spec_char()],
    {
        let mut r = String::from_str(self.file.name());
        r.append(self.rank.name());
        r
    }
}

/// The square at the given file and rank indices.
pub open spec fn square_at(f: int, r: int) -> Square {
    Square { file: file_at(f), rank: rank_at(r) }
}

/// One of the two players.
#[derive(Debug, Clone, Copy, PartialEq, Eq, Structural)]
pub enum Color {
    White,
    Black,
}

impl Color {
    pub open spec fn spec_flip(self) -> Color {
        match self {
            Color::White => Color::Black,
            Color::Black => Color::White,
        }
    }

    pub fn flip(self) -> (r: Color)
        ensures
            r == self.spec_flip(),
    {
        match self {
            Color::White => Color::Black,
            Color::Black => Color::White,
        }
    }

    /// The rank that pawns of this color move to when they capture en passant.
    pub fn en_passant_target_rank(self) -> (r: Rank)
        ensures
            r.spec_index() == to_absolute(self, 5),
    {
        match self {
            Color::White => Rank::Six,
            Color::Black => Rank::Three,
        }
    }

    /// The rank on which pawns of the other color can be captured en passant.
    pub fn en_passant_capture_rank(self) -> (r: Rank)
        ensures
            r.spec_index() == to_absolute(self, 4),
    {
        match self {
            Color::White => Rank::Five,
            Color::Black => Rank::Four,
        }
    }
}

/// Converts a coordinate (a file or rank index) of a color's own frame, in which
/// that color plays from rank index 0 upwards, to the board's frame; the
/// conversion is its own inverse.
pub open spec fn to_absolute(color: Color, i: int) -> int {
    match color {
        Color::White => i,
        Color::Black => 7 - i,
    }
}

/// The kind of a piece.
#[derive(Debug, Clone, Copy, PartialEq, Eq, Structural)]
pub enum PieceKind {
    Pawn,
    Knight,
    Bishop,
    Rook,
    Queen,
    King,
}

/// The kind of piece that an uppercase letter names, if any.
pub open spec fn kind_of_char(c: char) -> Option<PieceKind> {
    if c == 'P' {
        Some(PieceKind::Pawn)
    } else if c == 'N' {
        Some(PieceKind::Knight)
    } else if c == 'B' {
        Some(PieceKind::Bishop)
    } else if c == 'R' {
        Some(PieceKind::Rook)
    } else if c == 'Q' {
        Some(PieceKind::Queen)
    } else if c == 'K' {
        Some(PieceKind::King)
    } else {
        None
    }
}

impl PieceKind {
    /// The uppercase letter that names this kind.
    pub open spec fn spec_char(self) -> char {
        match self {
            PieceKind::Pawn => 'P',
            PieceKind::Knight => 'N',
            PieceKind::Bishop => 'B',
            PieceKind::Rook => 'R',
            PieceKind::Queen => 'Q',
            PieceKind::King => 'K',
        }
    }

    /// The six kinds, pawn first.
    pub fn values() -> (r: Vec<PieceKind>)
        ensures
            r@ == seq![
                PieceKind::Pawn,
                PieceKind::Knight,
                PieceKind::Bishop,
                PieceKind::Rook,
                PieceKind::Queen,
                PieceKind::King,
            ],
    {
        vec![
            PieceKind::Pawn,
            PieceKind::Knight,
            PieceKind::Bishop,
            PieceKind::Rook,
            PieceKind::Queen,
            PieceKind::King,
        ]
    }

    /// The kind that an uppercase letter names, if any.
    pub fn from_char(c: char) -> (r: Option<PieceKind>)
        ensures
            r == kind_of_char(c),
    {
        match c {
            'P' => Some(PieceKind::Pawn),
            'N' => Some(PieceKind::Knight),
            'B' => Some(PieceKind::Bishop),
            'R' => Some(PieceKind::Rook),
            'Q' => Some(PieceKind::Queen),
            'K' => Some(PieceKind::King),
            _ => None,
        }
    }

    /// The one-letter uppercase name of this kind.
    pub fn name(self) -> (r: &'static str)
        ensures
            r@ == seq![self.spec_char()],
    {
        proof {
            reveal_strlit("P");
            reveal_strlit("N");
            reveal_strlit("B");
            reveal_strlit("R");
            reveal_strlit("Q");
            reveal_strlit("K");
        }
        match self {
            PieceKind::Pawn => "P",
            PieceKind::Knight => "N",
            PieceKind::Bishop => "B",
            PieceKind::Rook => "R",
            PieceKind::Queen => "Q",
            PieceKind::King => "K",
        }
    }
}

/// A piece: a color and a kind.
#[derive(Debug, Clone, Copy, PartialEq, Eq, Structural)]
pub struct Piece {
    pub color: Color,
    pub kind: PieceKind,
}

impl Piece {
    pub fn new(color: Color, kind: PieceKind) -> (r: Piece)
        ensures
            r == (Piece { color, kind }),
    {
        Piece { color, kind }
    }

    /// The piece of the same kind and the other color.
    pub fn flip(self) -> (r: Piece)
        ensures
            r == (Piece { color: self.color.spec_flip(), kind: self.kind }),
    {
        Piece { color: self.color.flip(), kind: self.kind }
    }
}

/// What stands on a square.
#[derive(Debug, Clone, Copy, PartialEq, Eq, Structural)]
pub enum SquareContent {
    Empty,
    Piece(Piece),
}

impl SquareContent {
    pub open spec fn spec_flip(self) -> SquareContent {
        match self {
            SquareContent::Empty => SquareContent::Empty,
            SquareContent::Piece(p) => SquareContent::Piece(
                Piece { color: p.color.spec_flip(), kind: p.kind },
            ),
        }
    }

    pub fn is_empty(self) -> (r: bool)
        ensures
            r <==> self is Empty,
    {
        match self {
            SquareContent::Empty => true,
            SquareContent::Piece(_) => false,
        }
    }

    pub fn is_occupied(self) -> (r: bool)
        ensures
            r <==> self is Piece,
    {
        !self.is_empty()
    }

    /// Whether the square holds exactly this piece.
    pub fn is(self, piece: Piece) -> (r: bool)
        ensures
            r <==> self == SquareContent::Piece(piece),
    {
        match self {
            SquareContent::Empty => false,
            SquareContent::Piece(p) => p == piece,
        }
    }

    /// The same content with `f` applied to the piece, if any.
    pub fn map<F: Fn(Piece) -> Piece>(self, f: F) -> (r: SquareContent)
        requires
            forall|p: Piece| #[trigger] f.requires((p,)),
        ensures
            self is Empty ==> r is Empty,
            self matches SquareContent::Piece(p) ==> r matches SquareContent::Piece(q) && f.ensures((p,), q),
    {
        match self {
            SquareContent::Empty => SquareContent::Empty,
            SquareContent::Piece(p) => SquareContent::Piece(f(p)),
        }
    }

    /// The same content with the piece, if any, of the other color.
    pub fn flip(self) -> (r: SquareContent)
        ensures
            r == self.spec_flip(),
    {
        match self {
            SquareContent::Empty => SquareContent::Empty,
            SquareContent::Piece(p) => SquareContent::Piece(p.flip()),
        }
    }
}


/// An 8 by 8 grid of square contents, stored rank by rank.
#[derive(Debug, Clone, Copy, PartialEq, Eq)]
pub struct Board {
    /// `squares[r][f]` is the square of rank index `r` and file index `f`.
    pub squares: [[SquareContent; 8]; 8],
}

impl Board {
    /// The content of the square at file index `f` and rank index `r`.
    pub open spec fn at(self, f: int, r: int) -> SquareContent {
        self.squares[r][f]
    }

    pub open spec fn at_square(self, sq: Square) -> SquareContent {
        self.at(sq.file.spec_index(), sq.rank.spec_index())
    }

    /// Two boards hold the same content on every square.
    pub open spec fn same_as(self, other: Board) -> bool {
        forall|f: int, r: int| 0 <= f < 8 && 0 <= r < 8 ==> #[trigger] self.at(f, r) == other.at(f, r)
    }

    pub fn new(squares: [[SquareContent; 8]; 8]) -> (r: Board)
        ensures
            r.squares == squares,
    {
        Board { squares }
    }

    /// The board with no piece on it.
    pub fn empty() -> (r: Board)
        ensures
            forall|f: int, r2: int| 0 <= f < 8 && 0 <= r2 < 8 ==> #[trigger] r.at(f, r2) is Empty,
    {
        let row: [SquareContent; 8] = [SquareContent::Empty; 8];
        let r = Board { squares: [row; 8] };
        r
    }

    pub fn get(&self, sq: Square) -> (r: SquareContent)
        ensures
            r == self.at_square(sq),
    {
        self.squares[sq.rank.index()][sq.file.index()]
    }

    /// The board with one square's content replaced.
    pub open spec fn spec_set(self, sq: Square, content: SquareContent) -> Board {
        let r = sq.rank.spec_index();
        Board {
            squares: vstd::array::spec_array_update(
                self.squares,
                r,
                vstd::array::spec_array_update(self.squares[r], sq.file.spec_index(), content),
            ),
        }
    }

    pub fn set(&mut self, sq: Square, content: SquareContent)
        ensures
            *final(self) == old(self).spec_set(sq, content),
    {
        let ghost before = *self;
        let ri = sq.rank.index();
        let mut row = self.squares[ri];
        row[sq.file.index()] = content;
        self.squares[ri] = row;
        proof {
            lemma_spec_set(before, sq, content);
            lemma_board_ext(*self, before.spec_set(sq, content));
        }
    }

    /// The board mirrored along its horizontal axis: rank 1 swaps with rank 8.
    pub fn mirror(&self) -> (r: Board)
        ensures
            forall|f: int, r2: int| 0 <= f < 8 && 0 <= r2 < 8 ==> #[trigger] r.at(f, r2) == self.at(f, 7 - r2),
    {
        let mut squares = self.squares;
        let mut i: usize = 0;
        while i < 8
            invariant
                i <= 8,
                forall|f: int, r2: int| 0 <= f < 8 && 0 <= r2 < i ==> #[trigger] squares[r2][f] == self.squares[7 - r2][f],
            decreases 8 - i,
        {
            squares[i] = self.squares[7 - i];
            i = i + 1;
        }
        Board { squares }
    }

    /// The board with the color of every piece changed.
    pub fn flip(&self) -> (r: Board)
        ensures
            forall|f: int, r2: int| 0 <= f < 8 && 0 <= r2 < 8 ==> #[trigger] r.at(f, r2) == self.at(f, r2).spec_flip(),
    {
        let mut squares = self.squares;
        let mut i: usize = 0;
        while i < 8
            invariant
                i <= 8,
                forall|f: int, r2: int| 0 <= f < 8 && 0 <= r2 < i ==> #[trigger] squares[r2][f] == self.squares[r2][f].spec_flip(),
            decreases 8 - i,
        {
            let mut row = self.squares[i];
            let mut j: usize = 0;
            while j < 8
                invariant
                    i < 8,
                    j <= 8,
                    forall|f: int| 0 <= f < j ==> #[trigger] row[f] == self.squares[i as int][f].spec_flip(),
                    forall|f: int| j <= f < 8 ==> #[trigger] row[f] == self.squares[i as int][f],
                decreases 8 - j,
            {
                row[j] = row[j].flip();
                j = j + 1;
            }
            squares[i] = row;
            i = i + 1;
        }
        Board { squares }
    }
}

/// Which castlings each player may still make.
#[derive(Debug, Clone, Copy, PartialEq, Eq, Structural)]
pub struct CastlingAvailabilities {
    pub white_kingside: bool,
    pub white_queenside: bool,
    pub black_kingside: bool,
    pub black_queenside: bool,
}

impl CastlingAvailabilities {
    pub open spec fn spec_kingside_for(self, color: Color) -> bool {
        match color {
            Color::White => self.white_kingside,
            Color::Black => self.black_kingside,
        }
    }

    pub open spec fn spec_queenside_for(self, color: Color) -> bool {
        match color {
            Color::White => self.white_queenside,
            Color::Black => self.black_queenside,
        }
    }

    pub open spec fn spec_remove_for(self, color: Color) -> CastlingAvailabilities {
        match color {
            Color::White => CastlingAvailabilities {
                white_kingside: false,
                white_queenside: false,
                ..self
            },
            Color::Black => CastlingAvailabilities {
                black_kingside: false,
                black_queenside: false,
                ..self
            },
        }
    }

    /// Every castling still available.
    pub fn all() -> (r: CastlingAvailabilities)
        ensures
            r == (CastlingAvailabilities {
                white_kingside: true,
                white_queenside: true,
                black_kingside: true,
                black_queenside: true,
            }),
    {
        CastlingAvailabilities {
            white_kingside: true,
            white_queenside: true,
            black_kingside: true,
            black_queenside: true,
        }
    }

    /// The availabilities with the two players' roles swapped.
    pub fn flip(self) -> (r: CastlingAvailabilities)
        ensures
            r == (CastlingAvailabilities {
                white_kingside: self.black_kingside,
                white_queenside: self.black_queenside,
                black_kingside: self.white_kingside,
                black_queenside: self.white_queenside,
            }),
    {
        CastlingAvailabilities {
            white_kingside: self.black_kingside,
            white_queenside: self.black_queenside,
            black_kingside: self.white_kingside,
            black_queenside: self.white_queenside,
        }
    }

    pub fn kingside_for(self, color: Color) -> (r: bool)
        ensures
            r == self.spec_kingside_for(color),
    {
        match color {
            Color::White => self.white_kingside,
            Color::Black => self.black_kingside,
        }
    }

    pub fn queenside_for(self, color: Color) -> (r: bool)
        ensures
            r == self.spec_queenside_for(color),
    {
        match color {
            Color::White => self.white_queenside,
            Color::Black => self.black_queenside,
        }
    }

    /// The availabilities with both castlings of one color removed.
    pub fn remove_for(self, color: Color) -> (r: CastlingAvailabilities)
        ensures
            r == self.spec_remove_for(color),
    {
        match color {
            Color::White => CastlingAvailabilities {
                white_kingside: false,
                white_queenside: false,
                ..self
            },
            Color::Black => CastlingAvailabilities {
                black_kingside: false,
                black_queenside: false,
                ..self
            },
        }
    }
}

/// A position: the board and the state of the game.
#[derive(Debug, Clone, Copy, PartialEq, Eq)]
pub struct Position {
    pub board: Board,
    /// The color that plays next.
    pub active: Color,
    pub castling_availabilities: CastlingAvailabilities,
    /// The file of the square that a pawn skipped on the previous move; the
    /// rank follows from `active`.
    pub en_passant_target_file: Option<File>,
    /// Plies since the last capture or pawn move.
    pub halfmove: u32,
    /// Starts at 1 and grows after each move of black.
    pub fullmove: u32,
}

/// The content of a square in the standard starting position.
pub open spec fn starting_content(f: int, r: int) -> SquareContent {
    if r == 1 {
        SquareContent::Piece(Piece { color: Color::White, kind: PieceKind::Pawn })
    } else if r == 6 {
        SquareContent::Piece(Piece { color: Color::Black, kind: PieceKind::Pawn })
    } else if r == 0 {
        SquareContent::Piece(Piece { color: Color::White, kind: back_rank_kind(f) })
    } else if r == 7 {
        SquareContent::Piece(Piece { color: Color::Black, kind: back_rank_kind(f) })
    } else {
        SquareContent::Empty
    }
}

/// The kind of piece that starts on a file of a back rank.
pub open spec fn back_rank_kind(f: int) -> PieceKind {
    if f == 0 || f == 7 {
        PieceKind::Rook
    } else if f == 1 || f == 6 {
        PieceKind::Knight
    } else if f == 2 || f == 5 {
        PieceKind::Bishop
    } else if f == 3 {
        PieceKind::Queen
    } else {
        PieceKind::King
    }
}

impl Position {
    /// A position with this board and the state of a game's start: white to
    /// play, every castling available, no en passant, counters 0 and 1.
    pub open spec fn spec_default_with_board(board: Board) -> Position {
        Position {
            board,
            active: Color::White,
            castling_availabilities: CastlingAvailabilities {
                white_kingside: true,
                white_queenside: true,
                black_kingside: true,
                black_queenside: true,
            },
            en_passant_target_file: None,
            halfmove: 0,
            fullmove: 1,
        }
    }

    pub open spec fn spec_next_fullmove(self) -> u32 {
        if self.active == Color::Black {
            if self.fullmove < u32::MAX {
                (self.fullmove + 1) as u32
            } else {
                u32::MAX
            }
        } else {
            self.fullmove
        }
    }

    pub fn default_with_board(board: Board) -> (r: Position)
        ensures
            r == Position::spec_default_with_board(board),
    {
        Position {
            board,
            active: Color::White,
            castling_availabilities: CastlingAvailabilities::all(),
            en_passant_target_file: None,
            halfmove: 0,
            fullmove: 1,
        }
    }

    pub fn at(&self, square: Square) -> (r: SquareContent)
        ensures
            r == self.board.at_square(square),
    {
        self.board.get(square)
    }

    /// The fullmove number after the active color plays: one more after a move
    /// of black (the counter saturates at `u32::MAX`).
    pub fn next_fullmove(&self) -> (r: u32)
        ensures
            r == self.spec_next_fullmove(),
    {
        if self.active == Color::Black {
            self.fullmove.saturating_add(1)
        } else {
            self.fullmove
        }
    }

    /// The position seen from the other side: the board mirrored, every piece,
    /// the castling rights and the side to play swapped between the colors.
    pub fn invert(&self) -> (r: Position)
        ensures
            forall|f: int, r2: int| 0 <= f < 8 && 0 <= r2 < 8 ==> #[trigger] r.board.at(f, r2) == self.board.at(f, 7 - r2).spec_flip(),
            r.active == self.active.spec_flip(),
            r.castling_availabilities == (CastlingAvailabilities {
                white_kingside: self.castling_availabilities.black_kingside,
                white_queenside: self.castling_availabilities.black_queenside,
                black_kingside: self.castling_availabilities.white_kingside,
                black_queenside: self.castling_availabilities.white_queenside,
            }),
            r.en_passant_target_file == match self.en_passant_target_file {
                None => None,
                Some(f) => Some(file_at(7 - f.spec_index())),
            },
            r.halfmove == self.halfmove,
            r.fullmove == self.fullmove,
    {
        let ep = match self.en_passant_target_file {
            None => None,
            Some(f) => Some(f.mirror()),
        };
        Position {
            board: self.board.mirror().flip(),
            active: self.active.flip(),
            castling_availabilities: self.castling_availabilities.flip(),
            en_passant_target_file: ep,
            halfmove: self.halfmove,
            fullmove: self.fullmove,
        }
    }
}

impl Default for Position {
    /// The standard starting position.
    fn default() -> (r: Position)
        ensures
            r == Position::spec_default_with_board(r.board),
            forall|f: int, r2: int| 0 <= f < 8 && 0 <= r2 < 8 ==> #[trigger] r.board.at(f, r2) == starting_content(f, r2),
    {
        let wp = SquareContent::Piece(Piece::new(Color::White, PieceKind::Pawn));
        let wn = SquareContent::Piece(Piece::new(Color::White, PieceKind::Knight));
        let wb = SquareContent::Piece(Piece::new(Color::White, PieceKind::Bishop));
        let wr = SquareContent::Piece(Piece::new(Color::White, PieceKind::Rook));
        let wq = SquareContent::Piece(Piece::new(Color::White, PieceKind::Queen));
        let wk = SquareContent::Piece(Piece::new(Color::White, PieceKind::King));
        let bp = SquareContent::Piece(Piece::new(Color::Black, PieceKind::Pawn));
        let bn = SquareContent::Piece(Piece::new(Color::Black, PieceKind::Knight));
        let bb = SquareContent::Piece(Piece::new(Color::Black, PieceKind::Bishop));
        let br = SquareContent::Piece(Piece::new(Color::Black, PieceKind::Rook));
        let bq = SquareContent::Piece(Piece::new(Color::Black, PieceKind::Queen));
        let bk = SquareContent::Piece(Piece::new(Color::Black, PieceKind::King));
        let e = SquareContent::Empty;
        let board = Board::new(
            [
                [wr, wn, wb, wq, wk, wb, wn, wr],
                [wp, wp, wp, wp, wp, wp, wp, wp],
                [e, e, e, e, e, e, e, e],
                [e, e, e, e, e, e, e, e],
                [e, e, e, e, e, e, e, e],
                [e, e, e, e, e, e, e, e],
                [bp, bp, bp, bp, bp, bp, bp, bp],
                [br, bn, bb, bq, bk, bb, bn, br],
            ],
        );
        Position::default_with_board(board)
    }
}


/// What `spec_set` changes: the one square, and no other.
pub proof fn lemma_spec_set(b: Board, sq: Square, content: SquareContent)
    ensures
        forall|f: int, r: int|
            0 <= f < 8 && 0 <= r < 8 ==> #[trigger] b.spec_set(sq, content).at(f, r) == if f == sq.file.spec_index()
                && r == sq.rank.spec_index() {
                content
            } else {
                b.at(f, r)
            },
{
    broadcast use vstd::array::group_array_axioms;
    let r = sq.rank.spec_index();
    let row = vstd::array::spec_array_update(b.squares[r], sq.file.spec_index(), content);
    assert(row@ == b.squares[r]@.update(sq.file.spec_index(), content));
    assert(b.spec_set(sq, content).squares@ == b.squares@.update(r, row));
}

/// Boards with the same content on every square are equal.
pub proof fn lemma_board_ext(b1: Board, b2: Board)
    requires
        b1.same_as(b2),
    ensures
        b1 == b2,
{
    broadcast use vstd::array::group_array_axioms;
    assert forall|r: int| 0 <= r < 8 implies b1.squares[r] == b2.squares[r] by {
        assert forall|f: int| 0 <= f < 8 implies b1.squares[r][f] == b2.squares[r][f] by {
            assert(b1.at(f, r) == b2.at(f, r));
        }
        assert(b1.squares[r] =~= b2.squares[r]);
    }
    assert(b1.squares =~= b2.squares);
}

} // verus!
