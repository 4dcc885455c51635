//! Forsyth–Edwards Notation: a position as one line of text.
use vstd::prelude::*;
use crate::model::{
    Board, CastlingAvailabilities, Color, File, Rank, Square, Piece, PieceKind, SquareContent, Position,
    file_at, rank_at, file_of_char, rank_of_char, to_absolute,
};
use crate::text::{
    join, lemma_split_join, no_leading_zero, lemma_numeral_canonical, free_of, lemma_split_concat, lemma_split_single, lemma_decimal_round_trip, to_chars, push_decimal, decimal_text, split, split_on, views, digit_char, digit_value, spec_parse_u32,
    parse_u32,
};

verus! {

/// The piece that a FEN letter names: uppercase for white, lowercase for black.
pub open spec fn fen_piece(c: char) -> Option<Piece> {
    let w = |kind: PieceKind| Some(Piece { color: Color::White, kind });
    let b = |kind: PieceKind| Some(Piece { color: Color::Black, kind });
    if c == 'P' {
        w(PieceKind::Pawn)
    } else if c == 'N' {
        w(PieceKind::Knight)
    } else if c == 'B' {
        w(PieceKind::Bishop)
    } else if c == 'R' {
        w(PieceKind::Rook)
    } else if c == 'Q' {
        w(PieceKind::Queen)
    } else if c == 'K' {
        w(PieceKind::King)
    } else if c == 'p' {
        b(PieceKind::Pawn)
    } else if c == 'n' {
        b(PieceKind::Knight)
    } else if c == 'b' {
        b(PieceKind::Bishop)
    } else if c == 'r' {
        b(PieceKind::Rook)
    } else if c == 'q' {
        b(PieceKind::Queen)
    } else if c == 'k' {
        b(PieceKind::King)
    } else {
        None
    }
}

/// The FEN letter of a piece.
pub open spec fn fen_char(p: Piece) -> char {
    match (p.color, p.kind) {
        (Color::White, PieceKind::Pawn) => 'P',
        (Color::White, PieceKind::Knight) => 'N',
        (Color::White, PieceKind::Bishop) => 'B',
        (Color::White, PieceKind::Rook) => 'R',
        (Color::White, PieceKind::Queen) => 'Q',
        (Color::White, PieceKind::King) => 'K',
        (Color::Black, PieceKind::Pawn) => 'p',
        (Color::Black, PieceKind::Knight) => 'n',
        (Color::Black, PieceKind::Bishop) => 'b',
        (Color::Black, PieceKind::Rook) => 'r',
        (Color::Black, PieceKind::Queen) => 'q',
        (Color::Black, PieceKind::King) => 'k',
    }
}

pub open spec fn is_run_digit(c: char) -> bool {
    '1' <= c <= '8'
}

/// The squares, from file `a` on, that one rank of a FEN board describes:
/// a digit stands for that many empty squares, a letter for a piece. `None`
/// for any other character.
pub open spec fn rank_squares(t: Seq<char>) -> Option<Seq<SquareContent>>
    decreases t.len(),
{
    if t.len() == 0 {
        Some(Seq::<SquareContent>::empty())
    } else {
        match rank_squares(t.drop_last()) {
            None => None,
            Some(prev) => {
                let c = t.last();
                if is_run_digit(c) {
                    Some(prev + Seq::new(digit_value(c), |i: int| SquareContent::Empty))
                } else if fen_piece(c) is Some {
                    Some(prev.push(SquareContent::Piece(fen_piece(c).unwrap())))
                } else {
                    None
                }
            },
        }
    }
}

/// A FEN board field: eight ranks separated by `/`, rank 8 first, each
/// describing exactly eight squares.
pub open spec fn valid_board_text(t: Seq<char>) -> bool {
    let ranks = split(t, '/');
    ranks.len() == 8 && forall|i: int|
        0 <= i < 8 ==> (#[trigger] rank_squares(ranks[i])) is Some && rank_squares(ranks[i]).unwrap().len() == 8
}

/// The content that a valid FEN board field gives to file `f` of rank `r`.
pub open spec fn board_text_at(t: Seq<char>, f: int, r: int) -> SquareContent {
    rank_squares(split(t, '/')[7 - r]).unwrap()[f]
}

/// The castling availabilities that a FEN castling field names: `-`, or some
/// of `K`, `Q`, `k`, `q` in that order.
pub open spec fn castling_of(t: Seq<char>) -> Option<CastlingAvailabilities> {
    let n = t.len();
    let wk = 0 < n && t[0] == 'K';
    let k1: int = if wk { 1 } else { 0 };
    let wq = k1 < n && t[k1] == 'Q';
    let k2: int = if wq { k1 + 1 } else { k1 };
    let bk = k2 < n && t[k2] == 'k';
    let k3: int = if bk { k2 + 1 } else { k2 };
    let bq = k3 < n && t[k3] == 'q';
    let k4: int = if bq { k3 + 1 } else { k3 };
    if t == seq!['-'] {
        Some(
            CastlingAvailabilities {
                white_kingside: false,
                white_queenside: false,
                black_kingside: false,
                black_queenside: false,
            },
        )
    } else if n > 0 && k4 == n {
        Some(
            CastlingAvailabilities {
                white_kingside: wk,
                white_queenside: wq,
                black_kingside: bk,
                black_queenside: bq,
            },
        )
    } else {
        None
    }
}

/// The en passant file that a FEN field names: `-`, or a square, of which
/// the file is kept.
pub open spec fn en_passant_of(t: Seq<char>) -> Option<Option<File>> {
    if t == seq!['-'] {
        Some(None)
    } else if t.len() == 2 && file_of_char(t[0]) is Some && rank_of_char(t[1]) is Some {
        Some(file_of_char(t[0]))
    } else {
        None
    }
}

pub open spec fn color_of(t: Seq<char>) -> Option<Color> {
    if t == seq!['w'] {
        Some(Color::White)
    } else if t == seq!['b'] {
        Some(Color::Black)
    } else {
        None
    }
}

/// A well-formed FEN text: a board field alone, or six fields separated by
/// single spaces.
pub open spec fn valid_fen(s: Seq<char>) -> bool {
    let fields = split(s, ' ');
    &&& valid_board_text(fields[0])
    &&& fields.len() == 1 || (fields.len() == 6 && color_of(fields[1]) is Some && castling_of(fields[2]) is Some
        && en_passant_of(fields[3]) is Some && spec_parse_u32(fields[4]) is Some && spec_parse_u32(
        fields[5],
    ) is Some)
}

/// `p` is the position that the well-formed FEN text `s` describes; a board
/// field alone gives the state of a game's start.
pub open spec fn fen_describes(s: Seq<char>, p: Position) -> bool {
    let fields = split(s, ' ');
    &&& forall|f: int, r: int| 0 <= f < 8 && 0 <= r < 8 ==> #[trigger] p.board.at(f, r) == board_text_at(fields[0], f, r)
    &&& if fields.len() == 1 {
        p == Position::spec_default_with_board(p.board)
    } else {
        &&& p.active == color_of(fields[1]).unwrap()
        &&& p.castling_availabilities == castling_of(fields[2]).unwrap()
        &&& p.en_passant_target_file == en_passant_of(fields[3]).unwrap()
        &&& p.halfmove == spec_parse_u32(fields[4]).unwrap()
        &&& p.fullmove == spec_parse_u32(fields[5]).unwrap()
    }
}

fn fen_piece_exec(c: char) -> (r: Option<Piece>)
    ensures
        r == fen_piece(c),
{
    match c {
        'P' => Some(Piece::new(Color::White, PieceKind::Pawn)),
        'N' => Some(Piece::new(Color::White, PieceKind::Knight)),
        'B' => Some(Piece::new(Color::White, PieceKind::Bishop)),
        'R' => Some(Piece::new(Color::White, PieceKind::Rook)),
        'Q' => Some(Piece::new(Color::White, PieceKind::Queen)),
        'K' => Some(Piece::new(Color::White, PieceKind::King)),
        'p' => Some(Piece::new(Color::Black, PieceKind::Pawn)),
        'n' => Some(Piece::new(Color::Black, PieceKind::Knight)),
        'b' => Some(Piece::new(Color::Black, PieceKind::Bishop)),
        'r' => Some(Piece::new(Color::Black, PieceKind::Rook)),
        'q' => Some(Piece::new(Color::Black, PieceKind::Queen)),
        'k' => Some(Piece::new(Color::Black, PieceKind::King)),
        _ => None,
    }
}

/// The squares of one FEN rank, or `None` for a character that is neither a
/// digit from 1 to 8 nor a piece letter.
fn parse_rank(t: &[char]) -> (r: Option<Vec<SquareContent>>)
    ensures
        match r {
            Some(v) => rank_squares(t@) == Some(v@),
            None => rank_squares(t@) is None,
        },
{
    let mut v: Vec<SquareContent> = Vec::new();
    let mut i: usize = 0;
    while i < t.len()
        invariant
            i <= t@.len(),
            rank_squares(t@.take(i as int)) == Some(v@),
        decreases t@.len() - i,
    {
        let c = t[i];
        proof {
            assert(t@.take(i + 1).drop_last() =~= t@.take(i as int));
        }
        if '1' <= c && c <= '8' {
            let n = (c as u32 - '0' as u32) as usize;
            let ghost before = v@;
            let mut k: usize = 0;
            while k < n
                invariant
                    k <= n,
                    n <= 8,
                    v@ == before + Seq::new(k as nat, |j: int| SquareContent::Empty),
                decreases n - k,
            {
                v.push(SquareContent::Empty);
                k = k + 1;
                proof {
                    assert(v@ =~= before + Seq::new(k as nat, |j: int| SquareContent::Empty));
                }
            }
        } else {
            match fen_piece_exec(c) {
                Some(p) => v.push(SquareContent::Piece(p)),
                None => {
                    proof {
                        lemma_rank_squares_none(t@, i as int + 1);
                    }
                    return None;
                },
            }
        }
        i = i + 1;
    }
    proof {
        assert(t@.take(t@.len() as int) == t@);
    }
    Some(v)
}

/// A rank text whose prefix has no meaning has none either.
proof fn lemma_rank_squares_none(t: Seq<char>, k: int)
    requires
        0 <= k <= t.len(),
        rank_squares(t.take(k)) is None,
    ensures
        rank_squares(t) is None,
    decreases t.len() - k,
{
    if k < t.len() {
        assert(t.take(k + 1).drop_last() =~= t.take(k));
        lemma_rank_squares_none(t, k + 1);
    } else {
        assert(t.take(k) =~= t);
    }
}

/// Parses a FEN board field.
#[verifier::rlimit(40)]
fn parse_board(t: &[char]) -> (r: Option<Board>)
    ensures
        r is Some <==> valid_board_text(t@),
        r is Some ==> forall|f: int, k: int| 0 <= f < 8 && 0 <= k < 8 ==> #[trigger] r.unwrap().at(f, k) == board_text_at(t@, f, k),
{
    let ranks = split_on(t, '/');
    proof {
        assert(ranks@.len() == split(t@, '/').len());
    }
    if ranks.len() != 8 {
        return None;
    }
    let mut board = Board::empty();
    let mut i: usize = 0;
    while i < 8
        invariant
            i <= 8,
            ranks@.len() == 8,
            views(ranks@) == split(t@, '/'),
            forall|j: int| 0 <= j < i ==> (#[trigger] rank_squares(split(t@, '/')[j])) is Some && rank_squares(
                split(t@, '/')[j],
            ).unwrap().len() == 8,
            forall|f: int, k: int| 0 <= f < 8 && 7 - i < k < 8 ==> #[trigger] board.at(f, k) == board_text_at(t@, f, k),
        decreases 8 - i,
    {
        proof {
            assert(views(ranks@)[i as int] == ranks@[i as int]@);
        }
        let row = match parse_rank(ranks[i].as_slice()) {
            Some(row) => row,
            None => return None,
        };
        if row.len() != 8 {
            return None;
        }
        let rank = Rank::new(7 - i).unwrap();
        let mut f: usize = 0;
        while f < 8
            invariant
                i < 8,
                f <= 8,
                row@.len() == 8,
                rank_squares(split(t@, '/')[i as int]) == Some(row@),
                rank == rank_at(7 - i),
                forall|g: int, k: int| 0 <= g < 8 && 7 - i < k < 8 ==> #[trigger] board.at(g, k) == board_text_at(t@, g, k),
                forall|g: int| 0 <= g < f ==> #[trigger] board.at(g, 7 - i) == board_text_at(t@, g, 7 - i),
            decreases 8 - f,
        {
            let ghost before = board;
            board.set(Square::new(File::new(f).unwrap(), rank), row[f]);
            proof {
                crate::model::lemma_spec_set(before, Square { file: file_at(f as int), rank }, row@[f as int]);
            }
            f = f + 1;
        }
        i = i + 1;
    }
    Some(board)
}

fn parse_castling(t: &[char]) -> (r: Option<CastlingAvailabilities>)
    ensures
        r == castling_of(t@),
{
    let n = t.len();
    if n == 1 && t[0] == '-' {
        proof {
            assert(t@ =~= seq!['-']);
        }
        return Some(
            CastlingAvailabilities {
                white_kingside: false,
                white_queenside: false,
                black_kingside: false,
                black_queenside: false,
            },
        );
    }
    proof {
        if t@ == seq!['-'] {
            assert(t@.len() == 1);
        }
    }
    let wk = 0 < n && t[0] == 'K';
    let k1: usize = if wk { 1 } else { 0 };
    let wq = k1 < n && t[k1] == 'Q';
    let k2: usize = if wq { k1 + 1 } else { k1 };
    let bk = k2 < n && t[k2] == 'k';
    let k3: usize = if bk { k2 + 1 } else { k2 };
    let bq = k3 < n && t[k3] == 'q';
    let k4: usize = if bq { k3 + 1 } else { k3 };
    if n > 0 && k4 == n {
        Some(
            CastlingAvailabilities {
                white_kingside: wk,
                white_queenside: wq,
                black_kingside: bk,
                black_queenside: bq,
            },
        )
    } else {
        None
    }
}

fn parse_en_passant(t: &[char]) -> (r: Option<Option<File>>)
    ensures
        r == en_passant_of(t@),
{
    if t.len() == 1 && t[0] == '-' {
        proof {
            assert(t@ =~= seq!['-']);
        }
        return Some(None);
    }
    proof {
        if t@ == seq!['-'] {
            assert(t@.len() == 1);
        }
    }
    if t.len() == 2 {
        match (File::from_char(t[0]), Rank::from_char(t[1])) {
            (Some(f), Some(_)) => Some(Some(f)),
            _ => None,
        }
    } else {
        None
    }
}

fn parse_color(t: &[char]) -> (r: Option<Color>)
    ensures
        r == color_of(t@),
{
    if t.len() == 1 && t[0] == 'w' {
        proof {
            assert(t@ =~= seq!['w']);
        }
        Some(Color::White)
    } else if t.len() == 1 && t[0] == 'b' {
        proof {
            assert(t@ =~= seq!['b']);
        }
        Some(Color::Black)
    } else {
        proof {
            if t@ == seq!['w'] || t@ == seq!['b'] {
                assert(t@.len() == 1);
            }
        }
        None
    }
}

/// The error text for a text that is not FEN.
pub open spec fn invalid_fen_text(fen: Seq<char>) -> Seq<char> {
    seq!['i', 'n', 'v', 'a', 'l', 'i', 'd', ' ', 'F', 'E', 'N', ':', ' '] + fen
}

fn invalid_fen(fen: &str) -> (r: String)
    ensures
        r@ == invalid_fen_text(fen@),
{
    proof {
        reveal_strlit("invalid FEN: ");
    }
    let mut r = String::from_str("invalid FEN: ");
    r.append(fen);
    r
}

/// Parses Forsyth–Edwards Notation into a position. A text that holds the
/// board field alone gives white to play, every castling, no en passant and
/// counters 0 and 1; any other text must hold all six fields.
pub fn parse_fen(fen: &str) -> (r: Result<Position, String>)
    ensures
        r is Ok <==> valid_fen(fen@),
        r is Ok ==> fen_describes(fen@, r.unwrap()),
        r matches Err(e) ==> e@ == invalid_fen_text(fen@),
{
    let chars = to_chars(fen);
    match parse_fen_chars(chars.as_slice()) {
        Some(p) => Ok(p),
        None => Err(invalid_fen(fen)),
    }
}

/// Parses FEN given as characters; `None` when it is not well formed.
#[verifier::rlimit(40)]
pub fn parse_fen_chars(chars: &[char]) -> (r: Option<Position>)
    ensures
        r is Some <==> valid_fen(chars@),
        r is Some ==> fen_describes(chars@, r.unwrap()),
{
    let fields = split_on(chars, ' ');
    proof {
        assert(fields@.len() == split(chars@, ' ').len());
        crate::text::lemma_split_nonempty(chars@, ' ');
        assert(views(fields@)[0] == fields@[0]@);
    }
    let board = match parse_board(fields[0].as_slice()) {
        Some(b) => b,
        None => return None,
    };
    if fields.len() == 1 {
        return Some(Position::default_with_board(board));
    }
    if fields.len() != 6 {
        return None;
    }
    proof {
        assert(views(fields@)[1] == fields@[1]@);
        assert(views(fields@)[2] == fields@[2]@);
        assert(views(fields@)[3] == fields@[3]@);
        assert(views(fields@)[4] == fields@[4]@);
        assert(views(fields@)[5] == fields@[5]@);
    }
    let active = parse_color(fields[1].as_slice());
    let castling = parse_castling(fields[2].as_slice());
    let en_passant = parse_en_passant(fields[3].as_slice());
    let halfmove = parse_u32(fields[4].as_slice());
    let fullmove = parse_u32(fields[5].as_slice());
    match (active, castling, en_passant, halfmove, fullmove) {
        (Some(active), Some(castling_availabilities), Some(en_passant_target_file), Some(halfmove), Some(fullmove)) => {
            Some(Position { board, active, castling_availabilities, en_passant_target_file, halfmove, fullmove })
        },
        _ => None,
    }
}

/// The FEN text of the empty-square run `e`, if any.
pub open spec fn run_text(e: int) -> Seq<char> {
    if e > 0 {
        seq![digit_char(e as nat)]
    } else {
        Seq::<char>::empty()
    }
}

/// The FEN text of files `f` to `h` of rank `r`, after a run of `e` empty
/// squares.
pub open spec fn row_from(b: Board, r: int, f: int, e: int) -> Seq<char>
    decreases 8 - f,
{
    if f >= 8 {
        run_text(e)
    } else {
        match b.at(f, r) {
            SquareContent::Empty => row_from(b, r, f + 1, e + 1),
            SquareContent::Piece(p) => run_text(e) + seq![fen_char(p)] + row_from(b, r, f + 1, 0),
        }
    }
}

/// The FEN text of ranks `r` down to 1, separated by `/`.
pub open spec fn ranks_text(b: Board, r: int) -> Seq<char>
    decreases r,
{
    if r <= 0 {
        row_from(b, 0, 0, 0)
    } else {
        row_from(b, r, 0, 0) + seq!['/'] + ranks_text(b, r - 1)
    }
}

pub open spec fn castling_text(ca: CastlingAvailabilities) -> Seq<char> {
    let t = (if ca.white_kingside { seq!['K'] } else { Seq::<char>::empty() }) + (if ca.white_queenside {
        seq!['Q']
    } else {
        Seq::<char>::empty()
    }) + (if ca.black_kingside { seq!['k'] } else { Seq::<char>::empty() }) + (if ca.black_queenside {
        seq!['q']
    } else {
        Seq::<char>::empty()
    });
    if t.len() == 0 {
        seq!['-']
    } else {
        t
    }
}

pub open spec fn color_text(c: Color) -> Seq<char> {
    match c {
        Color::White => seq!['w'],
        Color::Black => seq!['b'],
    }
}

/// The en passant field: the skipped square, on the rank that the side to
/// play captures onto, or `-`.
pub open spec fn en_passant_text(p: Position) -> Seq<char> {
    match p.en_passant_target_file {
        None => seq!['-'],
        Some(f) => seq![f.spec_char(), rank_at(to_absolute(p.active, 5)).spec_char()],
    }
}

/// The FEN text of a position.
pub open spec fn fen_text(p: Position) -> Seq<char> {
    ranks_text(p.board, 7) + seq![' '] + color_text(p.active) + seq![' '] + castling_text(p.castling_availabilities)
        + seq![' '] + en_passant_text(p) + seq![' '] + decimal_text(p.halfmove as nat) + seq![' '] + decimal_text(
        p.fullmove as nat,
    )
}

fn fen_piece_str(p: Piece) -> (r: &'static str)
    ensures
        r@ == seq![fen_char(p)],
{
    proof {
        reveal_strlit("P");
        reveal_strlit("N");
        reveal_strlit("B");
        reveal_strlit("R");
        reveal_strlit("Q");
        reveal_strlit("K");
        reveal_strlit("p");
        reveal_strlit("n");
        reveal_strlit("b");
        reveal_strlit("r");
        reveal_strlit("q");
        reveal_strlit("k");
    }
    match (p.color, p.kind) {
        (Color::White, PieceKind::Pawn) => "P",
        (Color::White, PieceKind::Knight) => "N",
        (Color::White, PieceKind::Bishop) => "B",
        (Color::White, PieceKind::Rook) => "R",
        (Color::White, PieceKind::Queen) => "Q",
        (Color::White, PieceKind::King) => "K",
        (Color::Black, PieceKind::Pawn) => "p",
        (Color::Black, PieceKind::Knight) => "n",
        (Color::Black, PieceKind::Bishop) => "b",
        (Color::Black, PieceKind::Rook) => "r",
        (Color::Black, PieceKind::Queen) => "q",
        (Color::Black, PieceKind::King) => "k",
    }
}

fn push_run(s: &mut String, e: u64)
    requires
        e <= 8,
    ensures
        final(s)@ == old(s)@ + run_text(e as int),
{
    if e > 0 {
        push_decimal(s, e);
    } else {
        assert(s@ =~= old(s)@ + run_text(e as int));
    }
}

fn push_row(s: &mut String, b: &Board, r: usize)
    requires
        r < 8,
    ensures
        final(s)@ == old(s)@ + row_from(*b, r as int, 0, 0),
{
    let ghost start = s@;
    let rank = Rank::new(r).unwrap();
    let mut f: usize = 0;
    let mut e: u64 = 0;
    while f < 8
        invariant
            f <= 8,
            e <= f,
            r < 8,
            rank == rank_at(r as int),
            s@ + row_from(*b, r as int, f as int, e as int) == start + row_from(*b, r as int, 0, 0),
        decreases 8 - f,
    {
        match b.get(Square::new(File::new(f).unwrap(), rank)) {
            SquareContent::Empty => {
                e = e + 1;
            },
            SquareContent::Piece(p) => {
                let ghost before = s@;
                push_run(s, e);
                s.append(fen_piece_str(p));
                proof {
                    assert(before + row_from(*b, r as int, f as int, e as int) =~= s@ + row_from(*b, r as int, f + 1, 0));
                }
                e = 0;
            },
        }
        f = f + 1;
    }
    push_run(s, e);
    proof {
        assert(s@ =~= start + row_from(*b, r as int, 0, 0));
    }
}

/// Converts a position to Forsyth–Edwards Notation.
#[verifier::rlimit(40)]
pub fn fen(position: Position) -> (r: String)
    ensures
        r@ == fen_text(position),
{
    proof {
        reveal_strlit(" ");
        reveal_strlit("w");
        reveal_strlit("b");
    }
    let mut s = fen_board(&position.board);
    s.append(" ");
    s.append(match position.active {
        Color::White => "w",
        Color::Black => "b",
    });
    s.append(" ");
    push_castling(&mut s, position.castling_availabilities);
    s.append(" ");
    push_en_passant(&mut s, &position);
    s.append(" ");
    push_decimal(&mut s, position.halfmove as u64);
    s.append(" ");
    push_decimal(&mut s, position.fullmove as u64);
    proof {
        assert(s@ =~= fen_text(position));
    }
    s
}

fn push_castling(s: &mut String, ca: CastlingAvailabilities)
    ensures
        final(s)@ == old(s)@ + castling_text(ca),
{
    proof {
        reveal_strlit("-");
        reveal_strlit("K");
        reveal_strlit("Q");
        reveal_strlit("k");
        reveal_strlit("q");
    }
    let ghost head = s@;
    if ca.white_kingside {
        s.append("K");
    }
    if ca.white_queenside {
        s.append("Q");
    }
    if ca.black_kingside {
        s.append("k");
    }
    if ca.black_queenside {
        s.append("q");
    }
    if !(ca.white_kingside || ca.white_queenside || ca.black_kingside || ca.black_queenside) {
        s.append("-");
    }
    proof {
        assert(s@ =~= head + castling_text(ca));
    }
}

fn push_en_passant(s: &mut String, position: &Position)
    ensures
        final(s)@ == old(s)@ + en_passant_text(*position),
{
    proof {
        reveal_strlit("-");
    }
    match position.en_passant_target_file {
        None => s.append("-"),
        Some(f) => {
            s.append(f.name());
            s.append(position.active.en_passant_target_rank().name());
        },
    }
    assert(s@ =~= old(s)@ + en_passant_text(*position));
}

/// The FEN board field: the ranks from 8 down to 1, separated by `/`.
fn fen_board(b: &Board) -> (r: String)
    ensures
        r@ == ranks_text(*b, 7),
{
    proof {
        reveal_strlit("/");
        assert("/"@ =~= seq!['/']);
    }
    let mut s = String::new();
    let mut i: usize = 0;
    while i < 8
        invariant
            i <= 8,
            i <= 7 ==> s@ + ranks_text(*b, 7 - i) == ranks_text(*b, 7),
            i == 8 ==> s@ == ranks_text(*b, 7),
        decreases 8 - i,
    {
        let ghost before = s@;
        push_row(&mut s, b, 7 - i);
        if i != 7 {
            proof {
                reveal_strlit("/");
                assert("/"@ =~= seq!['/']);
            }
            s.append("/");
            proof {
                assert(ranks_text(*b, 7 - i) == row_from(*b, 7 - i, 0, 0) + seq!['/'] + ranks_text(*b, 7 - i - 1));
                assert(s@ + ranks_text(*b, 7 - i - 1) =~= before + ranks_text(*b, 7 - i));
            }
        } else {
            proof {
                assert(s@ =~= before + ranks_text(*b, 0));
            }
        }
        i = i + 1;
    }
    s
}


/// A FEN text describes at most one position.
pub proof fn lemma_fen_describes_unique(s: Seq<char>, p1: Position, p2: Position)
    requires
        fen_describes(s, p1),
        fen_describes(s, p2),
    ensures
        p1 == p2,
{
    crate::model::lemma_board_ext(p1.board, p2.board);
}


/// The squares of two rank texts one after the other.
proof fn lemma_rank_squares_concat(x: Seq<char>, y: Seq<char>)
    requires
        rank_squares(x) is Some,
        rank_squares(y) is Some,
    ensures
        rank_squares(x + y) == Some(rank_squares(x).unwrap() + rank_squares(y).unwrap()),
    decreases y.len(),
{
    if y.len() == 0 {
        assert(x + y =~= x);
        assert(rank_squares(x).unwrap() + rank_squares(y).unwrap() =~= rank_squares(x).unwrap());
    } else {
        assert((x + y).drop_last() =~= x + y.drop_last());
        lemma_rank_squares_concat(x, y.drop_last());
        let sx = rank_squares(x).unwrap();
        let sy = rank_squares(y.drop_last()).unwrap();
        let c = y.last();
        if is_run_digit(c) {
            assert(sx + sy + Seq::new(digit_value(c), |i: int| SquareContent::Empty) =~= sx + (sy + Seq::new(
                digit_value(c),
                |i: int| SquareContent::Empty,
            )));
        } else {
            assert((sx + sy).push(SquareContent::Piece(fen_piece(c).unwrap())) =~= sx + sy.push(
                SquareContent::Piece(fen_piece(c).unwrap()),
            ));
        }
    }
}

/// Every character of a rank text is a run digit or a piece letter.
pub open spec fn rank_chars(t: Seq<char>) -> bool {
    forall|i: int| 0 <= i < t.len() ==> is_run_digit(#[trigger] t[i]) || fen_piece(t[i]) is Some
}

proof fn lemma_fen_char(p: Piece)
    ensures
        fen_piece(fen_char(p)) == Some(p),
        !is_run_digit(fen_char(p)),
{
}

proof fn lemma_single_char(c: char)
    ensures
        seq![c].drop_last() == Seq::<char>::empty(),
        seq![c].last() == c,
{
    assert(seq![c].drop_last() =~= Seq::<char>::empty());
}

/// The text of files `f` to `h` of a rank, after `e` empty squares before
/// `f`, describes exactly the squares from file `f - e` on.
#[verifier::rlimit(40)]
proof fn lemma_row_from(b: Board, r: int, f: int, e: int)
    requires
        0 <= r < 8,
        0 <= e <= f <= 8,
        forall|j: int| f - e <= j < f ==> (#[trigger] b.at(j, r)) is Empty,
    ensures
        rank_squares(row_from(b, r, f, e)) == Some(Seq::new((8 - (f - e)) as nat, |i: int| b.at(f - e + i, r))),
        rank_chars(row_from(b, r, f, e)),
    decreases 8 - f,
{
    let expected = Seq::new((8 - (f - e)) as nat, |i: int| b.at(f - e + i, r));
    if f >= 8 {
        if e > 0 {
            lemma_single_char(digit_char(e as nat));
            assert(digit_value(digit_char(e as nat)) == e);
            assert(Seq::<SquareContent>::empty() + Seq::new(e as nat, |i: int| SquareContent::Empty) =~= expected);
        } else {
            assert(expected =~= Seq::<SquareContent>::empty());
        }
    } else {
        match b.at(f, r) {
            SquareContent::Empty => {
                lemma_row_from(b, r, f + 1, e + 1);
            },
            SquareContent::Piece(p) => {
                lemma_row_from(b, r, f + 1, 0);
                let head = run_text(e);
                let rest = row_from(b, r, f + 1, 0);
                let pc = seq![fen_char(p)];
                lemma_fen_char(p);
                lemma_single_char(fen_char(p));
                assert(rank_squares(pc) == Some(seq![SquareContent::Piece(p)])) by {
                    lemma_single_char(fen_char(p));
                    lemma_fen_char(p);
                    assert(rank_squares(pc.drop_last()) == Some(Seq::<SquareContent>::empty()));
                    assert(Seq::<SquareContent>::empty().push(SquareContent::Piece(p)) =~= seq![SquareContent::Piece(p)]);
                }
                let run = Seq::new(e as nat, |i: int| SquareContent::Empty);
                assert(rank_squares(head) == Some(run)) by {
                    if e > 0 {
                        lemma_single_char(digit_char(e as nat));
                        assert(digit_value(digit_char(e as nat)) == e);
                        assert(head.drop_last() == Seq::<char>::empty());
                        assert(rank_squares(head.drop_last()) == Some(Seq::<SquareContent>::empty()));
                        assert(Seq::<SquareContent>::empty() + run =~= run);
                    } else {
                        assert(run =~= Seq::<SquareContent>::empty());
                    }
                }
                lemma_rank_squares_concat(head, pc);
                lemma_rank_squares_concat(head + pc, rest);
                let tail = Seq::new((8 - (f + 1)) as nat, |i: int| b.at(f + 1 + i, r));
                assert(run + seq![SquareContent::Piece(p)] + tail =~= expected);
                assert forall|i: int| 0 <= i < row_from(b, r, f, e).len() implies is_run_digit(
                    #[trigger] row_from(b, r, f, e)[i],
                ) || fen_piece(row_from(b, r, f, e)[i]) is Some by {
                    let t = head + pc + rest;
                    assert(row_from(b, r, f, e) == t);
                    if i >= head.len() + 1 {
                        assert(t[i] == rest[i - head.len() - 1]);
                    }
                }
            },
        }
    }
}


proof fn lemma_row_text(b: Board, r: int)
    requires
        0 <= r < 8,
    ensures
        rank_squares(row_from(b, r, 0, 0)) == Some(Seq::new(8, |i: int| b.at(i, r))),
        free_of(row_from(b, r, 0, 0), '/'),
        free_of(row_from(b, r, 0, 0), ' '),
{
    lemma_row_from(b, r, 0, 0);
    let t = row_from(b, r, 0, 0);
    assert(Seq::new(8, |i: int| b.at(0 + i, r)) =~= Seq::new(8, |i: int| b.at(i, r)));
    assert forall|i: int| 0 <= i < t.len() implies t[i] != '/' && t[i] != ' ' by {
        assert(is_run_digit(t[i]) || fen_piece(t[i]) is Some);
    }
}

/// The ranks of a board text split at `/`, rank `r` first.
proof fn lemma_ranks_split(b: Board, r: int)
    requires
        0 <= r < 8,
    ensures
        split(ranks_text(b, r), '/') == Seq::new((r + 1) as nat, |i: int| row_from(b, r - i, 0, 0)),
        free_of(ranks_text(b, r), ' '),
    decreases r,
{
    lemma_row_text(b, r);
    if r == 0 {
        lemma_split_single(row_from(b, 0, 0, 0), '/');
        assert(seq![row_from(b, 0, 0, 0)] =~= Seq::new(1, |i: int| row_from(b, 0 - i, 0, 0)));
    } else {
        lemma_ranks_split(b, r - 1);
        lemma_split_concat(row_from(b, r, 0, 0), ranks_text(b, r - 1), '/');
        assert(seq![row_from(b, r, 0, 0)] + Seq::new(r as nat, |i: int| row_from(b, r - 1 - i, 0, 0)) =~= Seq::new(
            (r + 1) as nat,
            |i: int| row_from(b, r - i, 0, 0),
        ));
        let t = ranks_text(b, r);
        let row = row_from(b, r, 0, 0);
        let rest = ranks_text(b, r - 1);
        assert forall|i: int| 0 <= i < t.len() implies t[i] != ' ' by {
            assert(t == row + seq!['/'] + rest);
            if i > row.len() {
                assert(t[i] == rest[i - row.len() - 1]);
            }
        }
    }
}

/// The board text of a board is well formed and describes that board.
proof fn lemma_board_text(b: Board)
    ensures
        valid_board_text(ranks_text(b, 7)),
        forall|f: int, r: int| 0 <= f < 8 && 0 <= r < 8 ==> #[trigger] board_text_at(ranks_text(b, 7), f, r) == b.at(f, r),
        free_of(ranks_text(b, 7), ' '),
{
    lemma_ranks_split(b, 7);
    let ranks = split(ranks_text(b, 7), '/');
    assert forall|i: int| 0 <= i < 8 implies (#[trigger] rank_squares(ranks[i])) is Some && rank_squares(
        ranks[i],
    ).unwrap().len() == 8 by {
        lemma_row_text(b, 7 - i);
    }
    assert forall|f: int, r: int| 0 <= f < 8 && 0 <= r < 8 implies #[trigger] board_text_at(ranks_text(b, 7), f, r)
        == b.at(f, r) by {
        lemma_row_text(b, r);
        assert(ranks[7 - r] == row_from(b, r, 0, 0));
    }
}


#[verifier::rlimit(40)]
proof fn lemma_castling_text(ca: CastlingAvailabilities)
    ensures
        castling_of(castling_text(ca)) == Some(ca),
        free_of(castling_text(ca), ' '),
{
    if ca.white_kingside && ca.white_queenside && ca.black_kingside && ca.black_queenside {
        assert(castling_text(ca) =~= seq!['K', 'Q', 'k', 'q']);
    }
    if ca.white_kingside && ca.white_queenside && ca.black_kingside && !ca.black_queenside {
        assert(castling_text(ca) =~= seq!['K', 'Q', 'k']);
    }
    if ca.white_kingside && ca.white_queenside && !ca.black_kingside && ca.black_queenside {
        assert(castling_text(ca) =~= seq!['K', 'Q', 'q']);
    }
    if ca.white_kingside && ca.white_queenside && !ca.black_kingside && !ca.black_queenside {
        assert(castling_text(ca) =~= seq!['K', 'Q']);
    }
    if ca.white_kingside && !ca.white_queenside && ca.black_kingside && ca.black_queenside {
        assert(castling_text(ca) =~= seq!['K', 'k', 'q']);
    }
    if ca.white_kingside && !ca.white_queenside && ca.black_kingside && !ca.black_queenside {
        assert(castling_text(ca) =~= seq!['K', 'k']);
    }
    if ca.white_kingside && !ca.white_queenside && !ca.black_kingside && ca.black_queenside {
        assert(castling_text(ca) =~= seq!['K', 'q']);
    }
    if ca.white_kingside && !ca.white_queenside && !ca.black_kingside && !ca.black_queenside {
        assert(castling_text(ca) =~= seq!['K']);
    }
    if !ca.white_kingside && ca.white_queenside && ca.black_kingside && ca.black_queenside {
        assert(castling_text(ca) =~= seq!['Q', 'k', 'q']);
    }
    if !ca.white_kingside && ca.white_queenside && ca.black_kingside && !ca.black_queenside {
        assert(castling_text(ca) =~= seq!['Q', 'k']);
    }
    if !ca.white_kingside && ca.white_queenside && !ca.black_kingside && ca.black_queenside {
        assert(castling_text(ca) =~= seq!['Q', 'q']);
    }
    if !ca.white_kingside && ca.white_queenside && !ca.black_kingside && !ca.black_queenside {
        assert(castling_text(ca) =~= seq!['Q']);
    }
    if !ca.white_kingside && !ca.white_queenside && ca.black_kingside && ca.black_queenside {
        assert(castling_text(ca) =~= seq!['k', 'q']);
    }
    if !ca.white_kingside && !ca.white_queenside && ca.black_kingside && !ca.black_queenside {
        assert(castling_text(ca) =~= seq!['k']);
    }
    if !ca.white_kingside && !ca.white_queenside && !ca.black_kingside && ca.black_queenside {
        assert(castling_text(ca) =~= seq!['q']);
    }
    if !ca.white_kingside && !ca.white_queenside && !ca.black_kingside && !ca.black_queenside {
        assert(castling_text(ca) =~= seq!['-']);
    }
}

proof fn lemma_en_passant_text(p: Position)
    ensures
        en_passant_of(en_passant_text(p)) == Some(p.en_passant_target_file),
        free_of(en_passant_text(p), ' '),
{
    match p.en_passant_target_file {
        None => {},
        Some(f) => {
            let t = en_passant_text(p);
            assert(t.len() == 2);
            assert(t != seq!['-']);
            assert(file_of_char(f.spec_char()) == Some(f)) by {
                match f {
                    File::A => {},
                    File::B => {},
                    File::C => {},
                    File::D => {},
                    File::E => {},
                    File::F => {},
                    File::G => {},
                    File::H => {},
                }
            }
        },
    }
}

proof fn lemma_counter_text(n: u32)
    ensures
        spec_parse_u32(decimal_text(n as nat)) == Some(n),
        free_of(decimal_text(n as nat), ' '),
{
    lemma_decimal_round_trip(n as nat);
    let t = decimal_text(n as nat);
    assert forall|i: int| 0 <= i < t.len() implies t[i] != ' ' by {
        assert(crate::text::is_digit(t[i]));
    }
}

proof fn lemma_reassociate(b: Seq<char>, c: Seq<char>, k: Seq<char>, e: Seq<char>, h: Seq<char>, f: Seq<char>)
    ensures
        b + seq![' '] + c + seq![' '] + k + seq![' '] + e + seq![' '] + h + seq![' '] + f == b + seq![' '] + (c + seq![' ']
            + (k + seq![' '] + (e + seq![' '] + (h + seq![' '] + f)))),
{
    assert(b + seq![' '] + c + seq![' '] + k + seq![' '] + e + seq![' '] + h + seq![' '] + f =~= b + seq![' '] + (c
        + seq![' '] + (k + seq![' '] + (e + seq![' '] + (h + seq![' '] + f)))));
}

/// The six fields of the FEN text of a position.
#[verifier::rlimit(40)]
proof fn lemma_fen_fields(p: Position)
    ensures
        split(fen_text(p), ' ') == seq![
            ranks_text(p.board, 7),
            color_text(p.active),
            castling_text(p.castling_availabilities),
            en_passant_text(p),
            decimal_text(p.halfmove as nat),
            decimal_text(p.fullmove as nat),
        ],
{
    let b = ranks_text(p.board, 7);
    let c = color_text(p.active);
    let k = castling_text(p.castling_availabilities);
    let e = en_passant_text(p);
    let h = decimal_text(p.halfmove as nat);
    let f = decimal_text(p.fullmove as nat);
    let sp = seq![' '];
    lemma_ranks_split(p.board, 7);
    lemma_castling_text(p.castling_availabilities);
    lemma_en_passant_text(p);
    lemma_counter_text(p.halfmove);
    lemma_counter_text(p.fullmove);
    assert(free_of(c, ' '));
    lemma_reassociate(b, c, k, e, h, f);
    let t5 = h + sp + f;
    let t4 = e + sp + t5;
    let t3 = k + sp + t4;
    let t2 = c + sp + t3;
    lemma_split_single(f, ' ');
    lemma_split_concat(h, f, ' ');
    lemma_split_concat(e, t5, ' ');
    lemma_split_concat(k, t4, ' ');
    lemma_split_concat(c, t3, ' ');
    lemma_split_concat(b, t2, ' ');
    assert(split(fen_text(p), ' ') =~= seq![b, c, k, e, h, f]);
}

/// FEN round trip: the text of any position is well-formed FEN that
/// describes exactly that position, so parsing it gives the position back and
/// printing that gives the same text again.
pub proof fn lemma_fen_round_trip(p: Position)
    ensures
        valid_fen(fen_text(p)),
        fen_describes(fen_text(p), p),
        forall|q: Position| #[trigger] fen_describes(fen_text(p), q) ==> q == p && fen_text(q) == fen_text(p),
{
    lemma_fen_fields(p);
    lemma_board_text(p.board);
    lemma_castling_text(p.castling_availabilities);
    lemma_en_passant_text(p);
    lemma_counter_text(p.halfmove);
    lemma_counter_text(p.fullmove);
    assert(color_of(color_text(p.active)) == Some(p.active)) by {
        assert(seq!['b'][0] != seq!['w'][0]);
    }
    assert forall|q: Position| #[trigger] fen_describes(fen_text(p), q) implies q == p && fen_text(q) == fen_text(p) by {
        lemma_fen_describes_unique(fen_text(p), p, q);
    }
}


/// No two run digits of a rank text stand next to each other.
pub open spec fn maximal_runs(t: Seq<char>) -> bool {
    forall|i: int| 0 <= i < t.len() - 1 ==> !(is_run_digit(#[trigger] t[i]) && is_run_digit(t[i + 1]))
}

/// The en passant field in canonical form: `-`, or a square on the rank that
/// pawns of `c` capture onto.
pub open spec fn canonical_en_passant(t: Seq<char>, c: Color) -> bool {
    t == seq!['-'] || (t.len() == 2 && t[1] == rank_at(to_absolute(c, 5)).spec_char())
}

/// A canonical FEN text: well formed, with all six fields, maximal runs of
/// empty squares in every rank, the en passant square (if any) on the rank of
/// the side to play, and counters without leading zeros. (Well-formed
/// castling fields are already canonical: `-`, or some of `KQkq` in order.)
pub open spec fn canonical_fen(s: Seq<char>) -> bool {
    let fields = split(s, ' ');
    &&& valid_fen(s)
    &&& fields.len() == 6
    &&& forall|i: int| 0 <= i < 8 ==> maximal_runs(#[trigger] split(fields[0], '/')[i])
    &&& canonical_en_passant(fields[3], color_of(fields[1]).unwrap())
    &&& no_leading_zero(fields[4])
    &&& no_leading_zero(fields[5])
}

/// When a concatenation describes squares, so do its two parts.
proof fn lemma_rank_squares_parts(x: Seq<char>, y: Seq<char>)
    requires
        rank_squares(x + y) is Some,
    ensures
        rank_squares(x) is Some,
        rank_squares(y) is Some,
    decreases y.len(),
{
    if y.len() == 0 {
        assert(x + y =~= x);
    } else {
        assert((x + y).drop_last() =~= x + y.drop_last());
        lemma_rank_squares_parts(x, y.drop_last());
        assert((x + y).last() == y.last());
    }
}

proof fn lemma_fen_piece_char(c: char)
    requires
        fen_piece(c) is Some,
    ensures
        fen_char(fen_piece(c).unwrap()) == c,
        !is_run_digit(c),
{
}

/// The squares of a one-character rank text.
proof fn lemma_rank_squares_single(c: char)
    ensures
        rank_squares(seq![c]) == if is_run_digit(c) {
            Some(Seq::new(digit_value(c), |i: int| SquareContent::Empty))
        } else if fen_piece(c) is Some {
            Some(seq![SquareContent::Piece(fen_piece(c).unwrap())])
        } else {
            None::<Seq<SquareContent>>
        },
{
    lemma_single_char(c);
    assert(rank_squares(Seq::<char>::empty()) == Some(Seq::<SquareContent>::empty()));
    assert(Seq::<SquareContent>::empty() + Seq::new(digit_value(c), |i: int| SquareContent::Empty) =~= Seq::new(
        digit_value(c),
        |i: int| SquareContent::Empty,
    ));
    assert(Seq::<SquareContent>::empty().push(SquareContent::Piece(fen_piece(c).unwrap())) =~= seq![
        SquareContent::Piece(fen_piece(c).unwrap()),
    ]);
}

/// Empty squares from file `f` on only lengthen the pending run.
proof fn lemma_row_empties(b: Board, r: int, f: int, e: int, k: int)
    requires
        0 <= k,
        f + k <= 8,
        forall|j: int| f <= j < f + k ==> (#[trigger] b.at(j, r)) is Empty,
    ensures
        row_from(b, r, f, e) == row_from(b, r, f + k, e + k),
    decreases k,
{
    if k > 0 {
        lemma_row_empties(b, r, f + 1, e + 1, k - 1);
    }
}

/// A rank text with maximal runs is the text that the board prints for the
/// squares it describes, from file `f0` on.
proof fn lemma_row_canonical(b: Board, r: int, t: Seq<char>, f0: int)
    requires
        0 <= r < 8,
        0 <= f0 <= 8,
        rank_squares(t) is Some,
        f0 + rank_squares(t).unwrap().len() == 8,
        forall|j: int| 0 <= j < rank_squares(t).unwrap().len() ==> b.at(f0 + j, r) == #[trigger] rank_squares(t).unwrap()[j],
        maximal_runs(t),
    ensures
        row_from(b, r, f0, 0) == t,
    decreases t.len(),
{
    if t.len() == 0 {
        assert(t =~= Seq::<char>::empty());
    } else {
        let c = t[0];
        let u = t.subrange(1, t.len() as int);
        assert(t =~= seq![c] + u);
        lemma_rank_squares_parts(seq![c], u);
        lemma_rank_squares_concat(seq![c], u);
        lemma_rank_squares_single(c);
        let sq = rank_squares(t).unwrap();
        let su = rank_squares(u).unwrap();
        assert(maximal_runs(u)) by {
            assert forall|i: int| 0 <= i < u.len() - 1 implies !(is_run_digit(#[trigger] u[i]) && is_run_digit(u[i + 1])) by {
                assert(u[i] == t[i + 1] && u[i + 1] == t[i + 2]);
            }
        }
        if is_run_digit(c) {
            let d = digit_value(c) as int;
            assert forall|j: int| f0 <= j < f0 + d implies (#[trigger] b.at(j, r)) is Empty by {
                assert(sq[j - f0] == SquareContent::Empty);
            }
            lemma_row_empties(b, r, f0, 0, d);
            assert(digit_char(d as nat) == c);
            if u.len() == 0 {
                assert(t =~= seq![c]);
            } else {
                let c2 = u[0];
                let w = u.subrange(1, u.len() as int);
                assert(u =~= seq![c2] + w);
                assert(c2 == t[1]);
                assert(!is_run_digit(c2));
                lemma_rank_squares_parts(seq![c2], w);
                lemma_rank_squares_concat(seq![c2], w);
                lemma_rank_squares_single(c2);
                lemma_fen_piece_char(c2);
                let p = fen_piece(c2).unwrap();
                assert(b.at(f0 + d, r) == sq[d]);
                assert(sq[d] == SquareContent::Piece(p));
                let sw = rank_squares(w).unwrap();
                assert forall|j: int| 0 <= j < sw.len() implies b.at(f0 + d + 1 + j, r) == #[trigger] sw[j] by {
                    assert(sq[d + 1 + j] == sw[j]);
                }
                assert(maximal_runs(w)) by {
                    assert forall|i: int| 0 <= i < w.len() - 1 implies !(is_run_digit(#[trigger] w[i]) && is_run_digit(w[i + 1])) by {
                        assert(w[i] == t[i + 2] && w[i + 1] == t[i + 3]);
                    }
                }
                lemma_row_canonical(b, r, w, f0 + d + 1);
                assert(t =~= seq![c] + seq![c2] + w);
            }
        } else {
            lemma_fen_piece_char(c);
            let p = fen_piece(c).unwrap();
            assert(b.at(f0, r) == sq[0]);
            assert forall|j: int| 0 <= j < su.len() implies b.at(f0 + 1 + j, r) == #[trigger] su[j] by {
                assert(sq[1 + j] == su[j]);
            }
            lemma_row_canonical(b, r, u, f0 + 1);
        }
    }
}



/// A well-formed castling field is the text of the castlings it names.
proof fn lemma_castling_canonical(t: Seq<char>)
    requires
        castling_of(t) is Some,
    ensures
        castling_text(castling_of(t).unwrap()) == t,
{
    let ca = castling_of(t).unwrap();
    lemma_castling_text(ca);
    if t != seq!['-'] {
        assert(t.len() <= 4);
        if t.len() == 1 {
            assert(t =~= seq![t[0]]);
        } else if t.len() == 2 {
            assert(t =~= seq![t[0], t[1]]);
        } else if t.len() == 3 {
            assert(t =~= seq![t[0], t[1], t[2]]);
        } else if t.len() == 4 {
            assert(t =~= seq![t[0], t[1], t[2], t[3]]);
        }
    }
    assert(castling_text(ca) =~= t);
}

proof fn lemma_file_char(c: char)
    requires
        file_of_char(c) is Some,
    ensures
        file_of_char(c).unwrap().spec_char() == c,
{
    assert('a' <= c <= 'h');
    if c == 'a' {} else if c == 'b' {} else if c == 'c' {} else if c == 'd' {} else if c == 'e' {} else if c == 'f' {}
    else if c == 'g' {} else {
        assert(c == 'h');
    }
}

/// FEN round trip from the text: a position that a canonical FEN text
/// describes (the one `parse_fen` returns) prints as that same text, so
/// `fen(parse_fen(s))` is `s`.
pub proof fn lemma_fen_print_parse(s: Seq<char>, q: Position)
    requires
        canonical_fen(s),
        fen_describes(s, q),
    ensures
        fen_text(q) == s,
{
    let fields = split(s, ' ');
    let board = fields[0];
    let ranks = split(board, '/');
    let b = q.board;
    // The board field.
    lemma_ranks_split(b, 7);
    assert forall|i: int| 0 <= i < 8 implies #[trigger] ranks[i] == row_from(b, 7 - i, 0, 0) by {
        assert(rank_squares(ranks[i]) is Some && rank_squares(ranks[i]).unwrap().len() == 8);
        assert forall|j: int| 0 <= j < rank_squares(ranks[i]).unwrap().len() implies b.at(0 + j, 7 - i)
            == #[trigger] rank_squares(ranks[i]).unwrap()[j] by {
            assert(b.at(j, 7 - i) == board_text_at(board, j, 7 - i));
        }
        assert(maximal_runs(ranks[i]));
        lemma_row_canonical(b, 7 - i, ranks[i], 0);
    }
    assert(split(ranks_text(b, 7), '/') =~= ranks);
    lemma_split_join(ranks_text(b, 7), '/');
    lemma_split_join(board, '/');
    assert(ranks_text(b, 7) == board);
    // The other fields.
    assert(color_text(q.active) == fields[1]) by {
        assert(seq!['b'][0] != seq!['w'][0]);
    }
    lemma_castling_canonical(fields[2]);
    assert(en_passant_text(q) == fields[3]) by {
        let t = fields[3];
        if t != seq!['-'] {
            lemma_file_char(t[0]);
            assert(en_passant_text(q) =~= t);
        }
    }
    lemma_numeral_canonical(fields[4]);
    lemma_numeral_canonical(fields[5]);
    // The whole text.
    lemma_fen_fields(q);
    assert(split(fen_text(q), ' ') =~= fields);
    lemma_split_join(fen_text(q), ' ');
    lemma_split_join(s, ' ');
}


proof fn lemma_row_maximal(b: Board, r: int, f: int, e: int)
    ensures
        maximal_runs(row_from(b, r, f, e)),
    decreases 8 - f,
{
    if f < 8 {
        match b.at(f, r) {
            SquareContent::Empty => {
                lemma_row_maximal(b, r, f + 1, e + 1);
            },
            SquareContent::Piece(p) => {
                lemma_row_maximal(b, r, f + 1, 0);
                lemma_fen_char(p);
                let head = run_text(e) + seq![fen_char(p)];
                let rest = row_from(b, r, f + 1, 0);
                let t = head + rest;
                assert(row_from(b, r, f, e) == t);
                assert forall|i: int| 0 <= i < t.len() - 1 implies !(is_run_digit(#[trigger] t[i]) && is_run_digit(t[i + 1])) by {
                    if i >= head.len() {
                        assert(t[i] == rest[i - head.len()] && t[i + 1] == rest[i + 1 - head.len()]);
                    } else if i == head.len() - 1 {
                        assert(t[i] == fen_char(p));
                    } else {
                        assert(t[i + 1] == fen_char(p));
                    }
                }
            },
        }
    }
}

proof fn lemma_decimal_no_leading_zero(n: nat)
    ensures
        no_leading_zero(decimal_text(n)),
        n >= 1 ==> decimal_text(n)[0] != '0',
    decreases n,
{
    if n >= 10 {
        lemma_decimal_no_leading_zero(n / 10);
        assert(decimal_text(n)[0] == decimal_text(n / 10)[0]);
    }
}

/// The text that `fen` prints for any position is canonical FEN.
pub proof fn lemma_fen_text_canonical(p: Position)
    ensures
        canonical_fen(fen_text(p)),
{
    lemma_fen_round_trip(p);
    lemma_fen_fields(p);
    lemma_ranks_split(p.board, 7);
    let ranks = split(ranks_text(p.board, 7), '/');
    assert forall|i: int| 0 <= i < 8 implies maximal_runs(#[trigger] ranks[i]) by {
        lemma_row_maximal(p.board, 7 - i, 0, 0);
    }
    assert(color_of(color_text(p.active)) == Some(p.active)) by {
        assert(seq!['b'][0] != seq!['w'][0]);
    }
    lemma_decimal_no_leading_zero(p.halfmove as nat);
    lemma_decimal_no_leading_zero(p.fullmove as nat);
}

} // verus!
