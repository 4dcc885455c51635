//! A chess rules and notation engine: positions, pseudo-legal move generation,
//! check filtering, and the FEN, SAN and PGN notations.
use vstd::prelude::*;

pub mod text;
pub mod model;
pub mod moves;
pub mod san;
pub mod fen;
pub mod pgn;

use crate::model::Position;
use crate::san::{AnnotatedAlgebraicTurn, TurnError, spec_parse_turn, parse_turn, invalid_ply_text, invalid_ply, message_text};
use crate::fen::{parse_fen, valid_fen, fen_describes, fen_text, fen, invalid_fen_text};
use crate::pgn::{PgnGame, spec_parse_pgn, tags_consistent, starts_from};

verus! {

/// The position after the first `k` turns from `start`, or the error of the
/// first turn that fails.
pub open spec fn position_after(start: Position, turns: Seq<AnnotatedAlgebraicTurn>, k: int) -> Result<Position, TurnError>
    decreases k,
{
    if k <= 0 {
        Ok(start)
    } else {
        match position_after(start, turns, k - 1) {
            Err(e) => Err(e),
            Ok(p) => turns[k - 1].turn.outcome((k - 1) as usize, p),
        }
    }
}

/// Once a replay fails, it fails with the same error at every later length.
proof fn lemma_failure_persists(start: Position, turns: Seq<AnnotatedAlgebraicTurn>, k: int, n: int)
    requires
        0 <= k <= n,
        position_after(start, turns, k) is Err,
    ensures
        position_after(start, turns, n) == position_after(start, turns, k),
    decreases n - k,
{
    if k < n {
        lemma_failure_persists(start, turns, k, n - 1);
    }
}

/// Applies the turns one after the other from `start`, ply index 0 first.
/// The result holds `start` and every position reached, or the error of the
/// first turn that fails.
pub fn replay(start: Position, turns: &Vec<AnnotatedAlgebraicTurn>) -> (r: Result<Vec<Position>, TurnError>)
    ensures
        r is Ok <==> position_after(start, turns@, turns@.len() as int) is Ok,
        r matches Ok(ps) ==> ps@.len() == turns@.len() + 1 && forall|i: int|
            0 <= i <= turns@.len() ==> position_after(start, turns@, i) == Ok::<Position, TurnError>(#[trigger] ps@[i]),
        r matches Err(e) ==> position_after(start, turns@, turns@.len() as int) == Err::<Position, TurnError>(e),
{
    let mut positions: Vec<Position> = Vec::new();
    positions.push(start);
    let mut current = start;
    let mut i: usize = 0;
    while i < turns.len()
        invariant
            i <= turns@.len(),
            positions@.len() == i + 1,
            positions@[i as int] == current,
            forall|k: int| 0 <= k <= i ==> position_after(start, turns@, k) == Ok::<Position, TurnError>(#[trigger] positions@[k]),
        decreases turns@.len() - i,
    {
        match turns[i].apply(i, &current) {
            Ok(next) => {
                positions.push(next);
                current = next;
            },
            Err(e) => {
                proof {
                    lemma_failure_persists(start, turns@, i + 1, turns@.len() as int);
                }
                return Err(e);
            },
        }
        i = i + 1;
    }
    Ok(positions)
}

/// The views of a sequence of strings.
pub open spec fn texts(v: Seq<String>) -> Seq<Seq<char>> {
    v.map_values(|t: String| t@)
}

/// The position after parsing and applying the first `k` SAN tokens from
/// `start`, or the error text of the first token that does not parse or
/// whose turn fails.
pub open spec fn position_after_tokens(start: Position, tokens: Seq<Seq<char>>, k: int) -> Result<Position, Seq<char>>
    decreases k,
{
    if k <= 0 {
        Ok(start)
    } else {
        match position_after_tokens(start, tokens, k - 1) {
            Err(e) => Err(e),
            Ok(p) => match spec_parse_turn(tokens[k - 1]) {
                None => Err(invalid_ply_text((k - 1) as nat, tokens[k - 1])),
                Some(t) => match t.turn.outcome((k - 1) as usize, p) {
                    Ok(q) => Ok(q),
                    Err(e) => Err(message_text(e)),
                },
            },
        }
    }
}

proof fn lemma_tokens_failure_persists(start: Position, tokens: Seq<Seq<char>>, k: int, n: int)
    requires
        0 <= k <= n,
        position_after_tokens(start, tokens, k) is Err,
    ensures
        position_after_tokens(start, tokens, n) == position_after_tokens(start, tokens, k),
    decreases n - k,
{
    if k < n {
        lemma_tokens_failure_persists(start, tokens, k, n - 1);
    }
}

/// Replays SAN tokens from the position of a FEN text. The result holds the
/// starting position and every position reached; the error names the FEN
/// text, the token that does not parse, or the ply that fails.
pub fn replay_game(starting_position: &str, turns: &Vec<String>) -> (r: Result<Vec<Position>, String>)
    ensures
        r is Ok <==> valid_fen(starting_position@) && forall|p: Position| #[trigger] fen_describes(starting_position@, p)
            ==> position_after_tokens(p, texts(turns@), turns@.len() as int) is Ok,
        r matches Ok(ps) ==> ps@.len() == turns@.len() + 1 && fen_describes(starting_position@, ps@[0]) && forall|i: int|
            0 <= i <= turns@.len() ==> position_after_tokens(ps@[0], texts(turns@), i) == Ok::<Position, Seq<char>>(#[trigger] ps@[i]),
        r matches Err(e) ==> if valid_fen(starting_position@) {
            forall|p: Position| #[trigger] fen_describes(starting_position@, p)
                ==> position_after_tokens(p, texts(turns@), turns@.len() as int) == Err::<Position, Seq<char>>(e@)
        } else {
            e@ == invalid_fen_text(starting_position@)
        },
{
    let start = match parse_fen(starting_position) {
        Ok(p) => p,
        Err(e) => return Err(e),
    };
    let mut positions: Vec<Position> = Vec::new();
    positions.push(start);
    let mut current = start;
    let mut i: usize = 0;
    proof {
        assert forall|p: Position| #[trigger] fen_describes(starting_position@, p) implies p == start by {
            crate::fen::lemma_fen_describes_unique(starting_position@, p, start);
        }
    }
    while i < turns.len()
        invariant
            i <= turns@.len(),
            positions@.len() == i + 1,
            positions@[0] == start,
            fen_describes(starting_position@, start),
            valid_fen(starting_position@),
            forall|p: Position| #[trigger] fen_describes(starting_position@, p) ==> p == start,
            positions@[i as int] == current,
            forall|k: int| 0 <= k <= i ==> position_after_tokens(start, texts(turns@), k) == Ok::<Position, Seq<char>>(#[trigger] positions@[k]),
        decreases turns@.len() - i,
    {
        proof {
            assert(texts(turns@)[i as int] == turns@[i as int]@);
        }
        let turn = match parse_turn(turns[i].as_str()) {
            Ok(t) => t,
            Err(_) => {
                let e = invalid_ply(i, turns[i].as_str());
                proof {
                    assert(position_after_tokens(start, texts(turns@), i + 1) == Err::<Position, Seq<char>>(e@));
                    lemma_tokens_failure_persists(start, texts(turns@), i + 1, turns@.len() as int);
                }
                return Err(e);
            },
        };
        match turn.apply(i, &current) {
            Ok(next) => {
                positions.push(next);
                current = next;
            },
            Err(e) => {
                let text = e.message();
                proof {
                    assert(position_after_tokens(start, texts(turns@), i + 1) == Err::<Position, Seq<char>>(text@));
                    lemma_tokens_failure_persists(start, texts(turns@), i + 1, turns@.len() as int);
                }
                return Err(text);
            },
        }
        i = i + 1;
    }
    Ok(positions)
}

/// Reads a PGN document and replays its turns. The result holds the starting
/// position and every position reached.
pub fn game_from_pgn(pgn: &str) -> (r: Result<Vec<Position>, String>)
    ensures
        r is Ok <==> spec_parse_pgn(pgn@) is Some && tags_consistent(spec_parse_pgn(pgn@).unwrap().0) && forall|p: Position|
            #[trigger] starts_from(spec_parse_pgn(pgn@).unwrap().0, p) ==> position_after(
                p,
                spec_parse_pgn(pgn@).unwrap().1,
                spec_parse_pgn(pgn@).unwrap().1.len() as int,
            ) is Ok,
        r matches Ok(ps) ==> starts_from(spec_parse_pgn(pgn@).unwrap().0, ps@[0]) && ps@.len() == spec_parse_pgn(pgn@).unwrap().1.len() + 1
            && forall|i: int| 0 <= i < ps@.len() ==> position_after(ps@[0], spec_parse_pgn(pgn@).unwrap().1, i) == Ok::<Position, TurnError>(#[trigger] ps@[i]),
        r matches Err(e) ==> spec_parse_pgn(pgn@) is Some && tags_consistent(spec_parse_pgn(pgn@).unwrap().0) ==> forall|p: Position|
            #[trigger] starts_from(spec_parse_pgn(pgn@).unwrap().0, p) ==> (position_after(
                p,
                spec_parse_pgn(pgn@).unwrap().1,
                spec_parse_pgn(pgn@).unwrap().1.len() as int,
            ) matches Err(te) && e@ == message_text(te)),
{
    let game = match PgnGame::parse(pgn) {
        Ok(g) => g,
        Err(e) => return Err(e),
    };
    proof {
        let tags = spec_parse_pgn(pgn@).unwrap().0;
        assert forall|p: Position| #[trigger] starts_from(tags, p) implies p == game.starting_position by {
            crate::pgn::lemma_starts_from_unique(tags, p, game.starting_position);
        }
    }
    match replay(game.starting_position, &game.turns) {
        Ok(ps) => Ok(ps),
        Err(e) => Err(e.message()),
    }
}

/// The FEN texts of the positions, each after a NUL character but the first.
pub open spec fn fen_sequence(ps: Seq<Position>) -> Seq<char>
    decreases ps.len(),
{
    if ps.len() == 0 {
        Seq::<char>::empty()
    } else if ps.len() == 1 {
        fen_text(ps[0])
    } else {
        fen_sequence(ps.drop_last()) + seq!['\0'] + fen_text(ps.last())
    }
}

/// Joins the FEN texts of the positions with NUL characters.
pub fn serialize_position_sequence(positions: &Vec<Position>) -> (r: String)
    ensures
        r@ == fen_sequence(positions@),
{
    let mut r = String::new();
    let mut i: usize = 0;
    while i < positions.len()
        invariant
            i <= positions@.len(),
            r@ == fen_sequence(positions@.take(i as int)),
        decreases positions@.len() - i,
    {
        proof {
            reveal_strlit("\0");
            assert(positions@.take(i + 1).drop_last() =~= positions@.take(i as int));
        }
        if i > 0 {
            r.append("\0");
        }
        let text = fen(positions[i]);
        r.append(text.as_str());
        proof {
            assert(positions@.take(i + 1).last() == positions@[i as int]);
            if i == 0 {
                assert(r@ =~= fen_sequence(positions@.take(1)));
            } else {
                assert(r@ =~= fen_sequence(positions@.take(i + 1)));
            }
        }
        i = i + 1;
    }
    proof {
        assert(positions@.take(positions@.len() as int) == positions@);
    }
    r
}

} // verus!
