//! Portable Game Notation: a tag pair section and a movetext section.
use vstd::prelude::*;
use crate::model::Position;
use crate::san::{AnnotatedAlgebraicTurn, parse_turn_prefix, spec_parse_turn};
use crate::fen::{parse_fen_chars, valid_fen, fen_describes};
use crate::text::{to_chars, is_digit, digits_value};

verus! {

/// A white space character: one with the Unicode `White_Space` property.
pub open spec fn is_white_space(c: char) -> bool {
    ('\u{9}' <= c <= '\u{d}') || c == ' ' || c == '\u{85}' || c == '\u{a0}' || c == '\u{1680}' || ('\u{2000}' <= c
        <= '\u{200a}') || c == '\u{2028}' || c == '\u{2029}' || c == '\u{202f}' || c == '\u{205f}' || c == '\u{3000}'
}

pub fn is_whitespace(c: char) -> (r: bool)
    ensures
        r == is_white_space(c),
{
    ('\u{9}' <= c && c <= '\u{d}') || c == ' ' || c == '\u{85}' || c == '\u{a0}' || c == '\u{1680}' || ('\u{2000}'
        <= c && c <= '\u{200a}') || c == '\u{2028}' || c == '\u{2029}' || c == '\u{202f}' || c == '\u{205f}' || c
        == '\u{3000}'
}

/// The index of the first character at or after `i` that is not white space.
pub open spec fn white_space_end(s: Seq<char>, i: int) -> int
    decreases s.len() - i,
{
    if 0 <= i < s.len() && is_white_space(s[i]) {
        white_space_end(s, i + 1)
    } else {
        i
    }
}

pub open spec fn is_tag_name_char(c: char) -> bool {
    ('a' <= c <= 'z') || ('A' <= c <= 'Z') || ('0' <= c <= '9') || c == '_'
}

pub open spec fn is_tag_name_start(c: char) -> bool {
    ('a' <= c <= 'z') || ('A' <= c <= 'Z') || ('0' <= c <= '9')
}

/// A game: where it starts, and its turns, not yet applied.
#[derive(Debug, Clone)]
pub struct PgnGame {
    pub starting_position: Position,
    /// The successive turns, without comments, glyphs or variations.
    pub turns: Vec<AnnotatedAlgebraicTurn>,
}

impl PgnGame {
    /// The number of plies of the game.
    pub fn len(&self) -> (r: usize)
        ensures
            r == self.turns@.len(),
    {
        self.turns.len()
    }
}

/// A tag pair: its name and its value.
#[derive(Debug, Clone)]
pub struct TagPair {
    pub name: Vec<char>,
    pub value: Vec<char>,
}

/// A tag pair as text: its name and its value.
pub type Tag = (Seq<char>, Seq<char>);

pub open spec fn tags_view(tags: Seq<TagPair>) -> Seq<Tag> {
    tags.map_values(|t: TagPair| (t.name@, t.value@))
}

/// The value of the tag of this name, if one is present.
pub open spec fn tag_value(tags: Seq<Tag>, name: Seq<char>) -> Option<Seq<char>> {
    if exists|i: int| 0 <= i < tags.len() && tags[i].0 == name {
        Some(tags[choose|i: int| 0 <= i < tags.len() && tags[i].0 == name].1)
    } else {
        None
    }
}

/// No two tags share a name.
pub open spec fn distinct_names(tags: Seq<Tag>) -> bool {
    forall|i: int, j: int| 0 <= i < j < tags.len() ==> tags[i].0 != tags[j].0
}

pub open spec fn set_up_name() -> Seq<char> {
    seq!['S', 'e', 't', 'U', 'p']
}

pub open spec fn fen_name() -> Seq<char> {
    seq!['F', 'E', 'N']
}

/// Where a game with these tags starts: with `SetUp` valued `1`, at the
/// position of its `FEN` tag, which must be present and valid; with `SetUp`
/// absent or valued `0`, at the standard starting position, and then no `FEN`
/// tag may be present; any other `SetUp` value is refused.
pub open spec fn starts_from(tags: Seq<Tag>, p: Position) -> bool {
    let set_up = tag_value(tags, set_up_name());
    let fen = tag_value(tags, fen_name());
    if set_up == Some(seq!['1']) {
        fen is Some && valid_fen(fen.unwrap()) && fen_describes(fen.unwrap(), p)
    } else {
        (set_up is None || set_up == Some(seq!['0'])) && fen is None && p == Position::spec_default_with_board(p.board)
            && forall|f: int, r: int| 0 <= f < 8 && 0 <= r < 8 ==> #[trigger] p.board.at(f, r) == crate::model::starting_content(f, r)
    }
}

/// Whether these tags name a starting position.
pub open spec fn tags_consistent(tags: Seq<Tag>) -> bool {
    let set_up = tag_value(tags, set_up_name());
    let fen = tag_value(tags, fen_name());
    if set_up == Some(seq!['1']) {
        fen is Some && valid_fen(fen.unwrap())
    } else {
        (set_up is None || set_up == Some(seq!['0'])) && fen is None
    }
}

fn chars_are(v: &Vec<char>, t: &str) -> (r: bool)
    ensures
        r == (v@ == t@),
{
    let tc = to_chars(t);
    if v.len() != tc.len() {
        return false;
    }
    let mut i: usize = 0;
    while i < v.len()
        invariant
            tc@ == t@,
            v@.len() == tc@.len(),
            i <= v@.len(),
            forall|k: int| 0 <= k < i ==> v@[k] == tc@[k],
        decreases v@.len() - i,
    {
        if v[i] != tc[i] {
            return false;
        }
        i = i + 1;
    }
    proof {
        assert(v@ =~= tc@);
    }
    true
}

/// The value of the tag of this name, if any.
fn find_tag(tags: &Vec<TagPair>, name: &str) -> (r: Option<Vec<char>>)
    requires
        distinct_names(tags_view(tags@)),
    ensures
        match r {
            Some(v) => tag_value(tags_view(tags@), name@) == Some(v@),
            None => tag_value(tags_view(tags@), name@) is None,
        },
{
    let mut i: usize = 0;
    while i < tags.len()
        invariant
            i <= tags@.len(),
            distinct_names(tags_view(tags@)),
            forall|k: int| 0 <= k < i ==> tags_view(tags@)[k].0 != name@,
        decreases tags@.len() - i,
    {
        if chars_are(&tags[i].name, name) {
            let v = tags[i].value.clone();
            proof {
                let tv = tags_view(tags@);
                assert(tv[i as int].0 == name@);
                let j = choose|j: int| 0 <= j < tv.len() && tv[j].0 == name@;
                assert(j == i);
                assert(v@ == tv[i as int].1);
            }
            return Some(v);
        }
        proof {
            assert(tags_view(tags@)[i as int].0 == tags@[i as int].name@);
        }
        i = i + 1;
    }
    None
}

/// The starting position that the tags name. The error says why there is
/// none.
pub fn starting_position_from_tags(tags: &Vec<TagPair>) -> (r: Result<Position, String>)
    requires
        distinct_names(tags_view(tags@)),
    ensures
        r is Ok <==> tags_consistent(tags_view(tags@)),
        r is Ok ==> starts_from(tags_view(tags@), r.unwrap()),
{
    proof {
        reveal_strlit("SetUp");
        reveal_strlit("FEN");
        reveal_strlit("1");
        reveal_strlit("0");
        assert("SetUp"@ =~= set_up_name());
        assert("FEN"@ =~= fen_name());
        assert("1"@ =~= seq!['1']);
        assert("0"@ =~= seq!['0']);
    }
    let set_up = find_tag(tags, "SetUp");
    let fen = find_tag(tags, "FEN");
    let one = match &set_up {
        Some(v) => chars_are(v, "1"),
        None => false,
    };
    let zero = match &set_up {
        Some(v) => chars_are(v, "0"),
        None => false,
    };
    if one {
        match fen {
            None => Err(String::from_str("invalid PGN: missing FEN tag (SetUp tag is set to \"1\")")),
            Some(f) => match parse_fen_chars(f.as_slice()) {
                Some(p) => Ok(p),
                None => Err(String::from_str("invalid PGN: invalid FEN tag")),
            },
        }
    } else if set_up.is_none() || zero {
        if fen.is_some() {
            Err(String::from_str("invalid PGN: FEN tag without SetUp tag set to \"1\""))
        } else {
            Ok(Position::default())
        }
    } else {
        Err(String::from_str("invalid PGN: illegal value for tag SetUp"))
    }
}

/// The index of the first `c` at or after `i`, or the length if there is none.
pub open spec fn find_from(s: Seq<char>, i: int, c: char) -> int
    decreases s.len() - i,
{
    if i < 0 || i >= s.len() {
        s.len() as int
    } else if s[i] == c {
        i
    } else {
        find_from(s, i + 1, c)
    }
}

/// Skips one comment at `i`: `;` to the end of the line, or `{` to the next
/// `}`. `Some(i)` when no comment starts there; `None` for an unclosed brace.
pub open spec fn skip_comment(s: Seq<char>, i: int) -> Option<int> {
    if 0 <= i < s.len() && s[i] == ';' {
        let k = find_from(s, i, '\n');
        if k < s.len() { Some(k + 1) } else { Some(s.len() as int) }
    } else if 0 <= i < s.len() && s[i] == '{' {
        let k = find_from(s, i, '}');
        if k < s.len() { Some(k + 1) } else { None }
    } else {
        Some(i)
    }
}

/// Skips white space and comments from `i`.
pub open spec fn skip_space(s: Seq<char>, i: int) -> Option<int>
    decreases s.len() - i,
{
    let j = white_space_end(s, i);
    match skip_comment(s, j) {
        None => None,
        Some(k) => if i < k && k <= s.len() { skip_space(s, k) } else { Some(k) },
    }
}

/// The end of a run of tag name characters from `i`; `None` when the run
/// reaches the end of the text.
pub open spec fn tag_name_end(s: Seq<char>, i: int) -> Option<int>
    decreases s.len() - i,
{
    if i < 0 || i >= s.len() {
        None
    } else if is_tag_name_char(s[i]) {
        tag_name_end(s, i + 1)
    } else {
        Some(i)
    }
}

pub open spec fn is_ascii_control(c: char) -> bool {
    c <= '\u{1f}' || c == '\u{7f}'
}

/// The rest of a string token from `i`, after `acc` was read: its value and
/// the index after the closing quote. Only `\"` and `\\` may be escaped, and
/// control characters are refused.
pub open spec fn string_rest(s: Seq<char>, i: int, acc: Seq<char>) -> Option<(Seq<char>, int)>
    decreases s.len() - i,
{
    if i < 0 || i >= s.len() || is_ascii_control(s[i]) {
        None
    } else if s[i] == '\\' {
        if i + 1 < s.len() && (s[i + 1] == '"' || s[i + 1] == '\\') {
            string_rest(s, i + 2, acc.push(s[i + 1]))
        } else {
            None
        }
    } else if s[i] == '"' {
        Some((acc, i + 1))
    } else {
        string_rest(s, i + 1, acc.push(s[i]))
    }
}

/// A tag pair whose `[` stands just before `i`: name, value, and the index
/// after the closing `]`. White space and comments may stand between its
/// tokens.
pub open spec fn tag_pair(s: Seq<char>, i: int) -> Option<(Tag, int)> {
    match skip_space(s, i) {
        None => None,
        Some(a) => match tag_name_end(s, a) {
            None => None,
            Some(e) => if e > a && is_tag_name_start(s[a]) {
                match skip_space(s, e) {
                    Some(j) => if j < s.len() && s[j] == '"' {
                        match string_rest(s, j + 1, Seq::<char>::empty()) {
                            None => None,
                            Some((value, k)) => match skip_space(s, k) {
                                Some(l) => if l < s.len() && s[l] == ']' {
                                    Some(((s.subrange(a, e), value), l + 1))
                                } else {
                                    None
                                },
                                None => None,
                            },
                        }
                    } else {
                        None
                    },
                    None => None,
                }
            } else {
                None
            },
        },
    }
}

pub open spec fn has_name(tags: Seq<Tag>, name: Seq<char>) -> bool {
    exists|k: int| 0 <= k < tags.len() && tags[k].0 == name
}

/// The tag pair section from `i`, after the tags `acc`: the tags and the
/// index where the section ends, white space and comments skipped. A name
/// may not repeat.
pub open spec fn tag_section(s: Seq<char>, i: int, acc: Seq<Tag>) -> Option<(Seq<Tag>, int)>
    decreases s.len() - i,
{
    match skip_space(s, i) {
        None => None,
        Some(j) => if 0 <= j < s.len() && s[j] == '[' {
            match tag_pair(s, j + 1) {
                None => None,
                Some((t, k)) => if has_name(acc, t.0) {
                    None
                } else if i < k <= s.len() {
                    tag_section(s, k, acc.push(t))
                } else {
                    None
                },
            }
        } else {
            Some((acc, j))
        },
    }
}

/// The end of a run of decimal digits from `i`; `None` when the run reaches
/// the end of the text.
pub open spec fn digits_end(s: Seq<char>, i: int) -> Option<int>
    decreases s.len() - i,
{
    if i < 0 || i >= s.len() {
        None
    } else if is_digit(s[i]) {
        digits_end(s, i + 1)
    } else {
        Some(i)
    }
}

/// An integer token at `i`: its value and its end.
pub open spec fn integer_token(s: Seq<char>, i: int) -> Option<(nat, int)> {
    match digits_end(s, i) {
        Some(e) => if e > i { Some((digits_value(s.subrange(i, e)), e)) } else { None },
        None => None,
    }
}

/// The index after a run of periods.
pub open spec fn periods_end(s: Seq<char>, i: int) -> int
    decreases s.len() - i,
{
    if 0 <= i < s.len() && s[i] == '.' {
        periods_end(s, i + 1)
    } else {
        i
    }
}

/// The index of the first white space character at or after `i`, or the
/// length.
pub open spec fn token_end(s: Seq<char>, i: int) -> int
    decreases s.len() - i,
{
    if i < 0 || i >= s.len() {
        s.len() as int
    } else if is_white_space(s[i]) {
        i
    } else {
        token_end(s, i + 1)
    }
}

pub open spec fn starts_with_at(s: Seq<char>, i: int, t: Seq<char>) -> bool {
    0 <= i && i + t.len() <= s.len() && s.subrange(i, i + t.len()) == t
}

/// A game termination marker at `i`: its length.
pub open spec fn termination_marker(s: Seq<char>, i: int) -> Option<int> {
    if starts_with_at(s, i, seq!['1', '-', '0']) || starts_with_at(s, i, seq!['0', '-', '1']) {
        Some(3)
    } else if starts_with_at(s, i, seq!['1', '/', '2', '-', '1', '/', '2']) {
        Some(7)
    } else if starts_with_at(s, i, seq!['*']) {
        Some(1)
    } else {
        None
    }
}

/// An element sequence ends before a termination marker or a `)`.
pub open spec fn at_sequence_end(s: Seq<char>, i: int) -> bool {
    termination_marker(s, i) is Some || starts_with_at(s, i, seq![')'])
}

/// One move element at `j`: an optional move number (an integer and one or
/// more periods), which must be the number of the coming move, then a SAN
/// token. The turn and the index after the token.
pub open spec fn move_element(s: Seq<char>, j: int, count: nat) -> Option<(AnnotatedAlgebraicTurn, int)> {
    let after_number: Option<int> = match integer_token(s, j) {
        Some((n, e)) => {
            let w = white_space_end(s, e);
            if periods_end(s, w) == w {
                Some(j)
            } else if n == count / 2 + 1 {
                skip_space(s, periods_end(s, w))
            } else {
                None
            }
        },
        None => Some(j),
    };
    match after_number {
        None => None,
        Some(k) => {
            let e = token_end(s, k);
            if e > k && spec_parse_turn(s.subrange(k, e)) is Some {
                Some((spec_parse_turn(s.subrange(k, e)).unwrap(), e))
            } else {
                None
            }
        },
    }
}

/// The element sequence from `i`, after the turns `turns`: the turns and the
/// index where it ends. Its elements are moves, numeric annotation glyphs
/// (`$` and an integer from 0 to 255) and variations in parentheses; glyphs
/// and variations are read and dropped.
pub open spec fn element_sequence(s: Seq<char>, i: int, turns: Seq<AnnotatedAlgebraicTurn>) -> Option<(Seq<AnnotatedAlgebraicTurn>, int)>
    decreases s.len() - i,
{
    match skip_space(s, i) {
        None => None,
        Some(j) => if at_sequence_end(s, j) {
            Some((turns, j))
        } else if !(i <= j < s.len()) {
            None
        } else if s[j] == '(' {
            match element_sequence(s, j + 1, Seq::empty()) {
                None => None,
                Some((_, k)) => match skip_space(s, k) {
                    Some(l) => if i <= l < s.len() && s[l] == ')' { element_sequence(s, l + 1, turns) } else { None },
                    None => None,
                },
            }
        } else if s[j] == '$' {
            match integer_token(s, j + 1) {
                Some((g, m)) => if g <= 255 && i < m <= s.len() { element_sequence(s, m, turns) } else { None },
                None => None,
            }
        } else {
            match move_element(s, j, turns.len()) {
                Some((t, k)) => if i < k <= s.len() { element_sequence(s, k, turns.push(t)) } else { None },
                None => None,
            }
        },
    }
}

/// A PGN document: its tags, and its turns followed by exactly one game
/// termination marker, and nothing after but white space and comments.
pub open spec fn spec_parse_pgn(s: Seq<char>) -> Option<(Seq<Tag>, Seq<AnnotatedAlgebraicTurn>)> {
    match tag_section(s, 0, Seq::empty()) {
        None => None,
        Some((tags, i)) => match element_sequence(s, i, Seq::empty()) {
            None => None,
            Some((turns, j)) => match termination_marker(s, j) {
                None => None,
                Some(n) => match skip_space(s, j + n) {
                    Some(e) => if e == s.len() { Some((tags, turns)) } else { None },
                    None => None,
                },
            },
        },
    }
}

fn eat_whitespace(s: &[char], i: usize) -> (r: usize)
    requires
        i <= s@.len(),
    ensures
        r == white_space_end(s@, i as int),
        i <= r <= s@.len(),
{
    let mut j = i;
    while j < s.len() && is_whitespace(s[j])
        invariant
            i <= j <= s@.len(),
            white_space_end(s@, j as int) == white_space_end(s@, i as int),
        decreases s@.len() - j,
    {
        j = j + 1;
    }
    j
}

fn find_char(s: &[char], i: usize, c: char) -> (r: usize)
    requires
        i <= s@.len(),
    ensures
        r == find_from(s@, i as int, c),
        i <= r <= s@.len(),
{
    let mut j = i;
    while j < s.len() && s[j] != c
        invariant
            i <= j <= s@.len(),
            find_from(s@, j as int, c) == find_from(s@, i as int, c),
        decreases s@.len() - j,
    {
        j = j + 1;
    }
    j
}

fn eat_comment(s: &[char], i: usize) -> (r: Option<usize>)
    requires
        i <= s@.len(),
    ensures
        match r {
            Some(k) => skip_comment(s@, i as int) == Some(k as int) && i <= k <= s@.len(),
            None => skip_comment(s@, i as int) is None,
        },
{
    if i < s.len() && s[i] == ';' {
        let k = find_char(s, i, '\n');
        if k < s.len() { Some(k + 1) } else { Some(s.len()) }
    } else if i < s.len() && s[i] == '{' {
        let k = find_char(s, i, '}');
        if k < s.len() { Some(k + 1) } else { None }
    } else {
        Some(i)
    }
}

/// Skips white space and comments; `None` for an unclosed brace comment.
fn advance(s: &[char], i: usize) -> (r: Option<usize>)
    requires
        i <= s@.len(),
    ensures
        match r {
            Some(k) => skip_space(s@, i as int) == Some(k as int) && i <= k <= s@.len(),
            None => skip_space(s@, i as int) is None,
        },
    decreases s@.len() - i,
{
    let j = eat_whitespace(s, i);
    match eat_comment(s, j) {
        None => None,
        Some(k) => if i < k { advance(s, k) } else { Some(k) },
    }
}

fn read_tag_name_end(s: &[char], i: usize) -> (r: Option<usize>)
    requires
        i <= s@.len(),
    ensures
        match r {
            Some(k) => tag_name_end(s@, i as int) == Some(k as int) && i <= k < s@.len(),
            None => tag_name_end(s@, i as int) is None,
        },
{
    let mut j = i;
    while j < s.len()
        invariant
            i <= j <= s@.len(),
            tag_name_end(s@, j as int) == tag_name_end(s@, i as int),
        decreases s@.len() - j,
    {
        let c = s[j];
        if !(('a' <= c && c <= 'z') || ('A' <= c && c <= 'Z') || ('0' <= c && c <= '9') || c == '_') {
            return Some(j);
        }
        j = j + 1;
    }
    None
}

/// Reads a string token whose opening quote stands just before `i`.
fn parse_string(s: &[char], i: usize) -> (r: Option<(Vec<char>, usize)>)
    requires
        i <= s@.len(),
    ensures
        match r {
            Some((v, k)) => string_rest(s@, i as int, Seq::empty()) == Some((v@, k as int)) && i < k <= s@.len(),
            None => string_rest(s@, i as int, Seq::empty()) is None,
        },
{
    let mut value: Vec<char> = Vec::new();
    let mut j = i;
    while j < s.len()
        invariant
            i <= j <= s@.len(),
            string_rest(s@, j as int, value@) == string_rest(s@, i as int, Seq::empty()),
        decreases s@.len() - j,
    {
        let c = s[j];
        if c <= '\u{1f}' || c == '\u{7f}' {
            return None;
        }
        if c == '\\' {
            if j + 1 < s.len() && (s[j + 1] == '"' || s[j + 1] == '\\') {
                value.push(s[j + 1]);
                j = j + 2;
            } else {
                return None;
            }
        } else if c == '"' {
            return Some((value, j + 1));
        } else {
            value.push(c);
            j = j + 1;
        }
    }
    None
}

#[verifier::rlimit(40)]
fn parse_tag_pair(s: &[char], i: usize) -> (r: Option<(TagPair, usize)>)
    requires
        i <= s@.len(),
    ensures
        match r {
            Some((t, k)) => tag_pair(s@, i as int) == Some(((t.name@, t.value@), k as int)) && i < k <= s@.len(),
            None => tag_pair(s@, i as int) is None,
        },
{
    let a = match advance(s, i) {
        Some(a) => a,
        None => return None,
    };
    let e = match read_tag_name_end(s, a) {
        Some(e) => e,
        None => return None,
    };
    if e == a {
        return None;
    }
    let c = s[a];
    if !(('a' <= c && c <= 'z') || ('A' <= c && c <= 'Z') || ('0' <= c && c <= '9')) {
        return None;
    }
    let j = match advance(s, e) {
        Some(j) => j,
        None => return None,
    };
    if !(j < s.len() && s[j] == '"') {
        return None;
    }
    let (value, k) = match parse_string(s, j + 1) {
        Some(x) => x,
        None => return None,
    };
    let l = match advance(s, k) {
        Some(l) => l,
        None => return None,
    };
    if !(l < s.len() && s[l] == ']') {
        return None;
    }
    let name = slice_vec(s, a, e);
    Some((TagPair { name, value }, l + 1))
}

fn slice_vec(s: &[char], i: usize, e: usize) -> (r: Vec<char>)
    requires
        i <= e <= s@.len(),
    ensures
        r@ == s@.subrange(i as int, e as int),
{
    let mut r: Vec<char> = Vec::new();
    let mut k = i;
    while k < e
        invariant
            i <= k <= e,
            e <= s@.len(),
            r@ == s@.subrange(i as int, k as int),
        decreases e - k,
    {
        r.push(s[k]);
        proof {
            assert(s@.subrange(i as int, k + 1) =~= s@.subrange(i as int, k as int).push(s@[k as int]));
        }
        k = k + 1;
    }
    r
}

fn contains_name(tags: &Vec<TagPair>, name: &Vec<char>) -> (r: bool)
    ensures
        r == has_name(tags_view(tags@), name@),
{
    let mut k: usize = 0;
    while k < tags.len()
        invariant
            k <= tags@.len(),
            forall|j: int| 0 <= j < k ==> tags_view(tags@)[j].0 != name@,
        decreases tags@.len() - k,
    {
        if vec_equal(&tags[k].name, name) {
            proof {
                assert(tags_view(tags@)[k as int].0 == name@);
            }
            return true;
        }
        proof {
            assert(tags_view(tags@)[k as int].0 == tags@[k as int].name@);
        }
        k = k + 1;
    }
    false
}

fn vec_equal(a: &Vec<char>, b: &Vec<char>) -> (r: bool)
    ensures
        r == (a@ == b@),
{
    if a.len() != b.len() {
        return false;
    }
    let mut i: usize = 0;
    while i < a.len()
        invariant
            a@.len() == b@.len(),
            i <= a@.len(),
            forall|k: int| 0 <= k < i ==> a@[k] == b@[k],
        decreases a@.len() - i,
    {
        if a[i] != b[i] {
            return false;
        }
        i = i + 1;
    }
    proof {
        assert(a@ =~= b@);
    }
    true
}

/// Parses the tag pair section.
#[verifier::rlimit(40)]
fn parse_tag_pair_section(s: &[char]) -> (r: Option<(Vec<TagPair>, usize)>)
    ensures
        match r {
            Some((tags, k)) => tag_section(s@, 0, Seq::empty()) == Some((tags_view(tags@), k as int)) && k <= s@.len(),
            None => tag_section(s@, 0, Seq::empty()) is None,
        },
{
    let mut tags: Vec<TagPair> = Vec::new();
    let mut i: usize = 0;
    proof {
        assert(tags_view(tags@) =~= Seq::<Tag>::empty());
    }
    loop
        invariant
            i <= s@.len(),
            tag_section(s@, i as int, tags_view(tags@)) == tag_section(s@, 0, Seq::empty()),
        decreases s@.len() - i,
    {
        let j = match advance(s, i) {
            Some(j) => j,
            None => return None,
        };
        if !(j < s.len() && s[j] == '[') {
            return Some((tags, j));
        }
        let (t, k) = match parse_tag_pair(s, j + 1) {
            Some(x) => x,
            None => return None,
        };
        if contains_name(&tags, &t.name) {
            return None;
        }
        let ghost before = tags@;
        tags.push(t);
        proof {
            assert(tags_view(tags@) =~= tags_view(before).push((t.name@, t.value@)));
        }
        i = k;
    }
}

/// A count, saturated at `u64::MAX`.
pub open spec fn saturated(n: nat) -> u64 {
    if n <= u64::MAX {
        n as u64
    } else {
        u64::MAX
    }
}

/// Reads an integer token at `i`; its value saturates at `u64::MAX`.
fn parse_integer(s: &[char], i: usize) -> (r: Option<(u64, usize)>)
    requires
        i <= s@.len(),
    ensures
        match r {
            Some((v, e)) => integer_token(s@, i as int) matches Some((n, e2)) && e2 == e && v == saturated(n) && i < e
                <= s@.len(),
            None => integer_token(s@, i as int) is None,
        },
{
    let mut j = i;
    let mut v: u64 = 0;
    while j < s.len() && '0' <= s[j] && s[j] <= '9'
        invariant
            i <= j <= s@.len(),
            digits_end(s@, j as int) == digits_end(s@, i as int),
            forall|k: int| i <= k < j ==> is_digit(#[trigger] s@[k]),
            v == saturated(digits_value(s@.subrange(i as int, j as int))),
        decreases s@.len() - j,
    {
        let d = (s[j] as u32 - '0' as u32) as u64;
        let ghost dv = digits_value(s@.subrange(i as int, j as int));
        proof {
            assert(s@.subrange(i as int, j + 1).drop_last() =~= s@.subrange(i as int, j as int));
            assert(digits_value(s@.subrange(i as int, j + 1)) == dv * 10 + d);
        }
        if v == u64::MAX {
            proof {
                assert(dv * 10 + d >= dv) by (nonlinear_arith);
            }
        } else {
            v = match v.checked_mul(10) {
                Some(w) => match w.checked_add(d) {
                    Some(x) => x,
                    None => u64::MAX,
                },
                None => u64::MAX,
            };
        }
        j = j + 1;
    }
    if j >= s.len() || j == i {
        return None;
    }
    Some((v, j))
}

fn eat_periods(s: &[char], i: usize) -> (r: usize)
    requires
        i <= s@.len(),
    ensures
        r == periods_end(s@, i as int),
        i <= r <= s@.len(),
{
    let mut j = i;
    while j < s.len() && s[j] == '.'
        invariant
            i <= j <= s@.len(),
            periods_end(s@, j as int) == periods_end(s@, i as int),
        decreases s@.len() - j,
    {
        j = j + 1;
    }
    j
}

fn read_token_end(s: &[char], i: usize) -> (r: usize)
    requires
        i <= s@.len(),
    ensures
        r == token_end(s@, i as int),
        i <= r <= s@.len(),
{
    let mut j = i;
    while j < s.len() && !is_whitespace(s[j])
        invariant
            i <= j <= s@.len(),
            token_end(s@, j as int) == token_end(s@, i as int),
        decreases s@.len() - j,
    {
        j = j + 1;
    }
    j
}

fn starts_with_here(s: &[char], i: usize, t: &str) -> (r: bool)
    requires
        i <= s@.len(),
    ensures
        r == starts_with_at(s@, i as int, t@),
{
    let tc = to_chars(t);
    if tc.len() > s.len() - i {
        return false;
    }
    let mut k: usize = 0;
    while k < tc.len()
        invariant
            tc@ == t@,
            i + tc@.len() <= usize::MAX,
            i + tc@.len() <= s@.len(),
            k <= tc@.len(),
            forall|m: int| 0 <= m < k ==> s@[i + m] == tc@[m],
            i <= s@.len(),
        decreases tc@.len() - k,
    {
        if s[i + k] != tc[k] {
            proof {
                assert(s@.subrange(i as int, i + t@.len())[k as int] != t@[k as int]);
            }
            return false;
        }
        k = k + 1;
    }
    proof {
        assert(s@.subrange(i as int, i + t@.len()) =~= t@);
    }
    true
}

fn read_termination_marker(s: &[char], i: usize) -> (r: Option<usize>)
    requires
        i <= s@.len(),
    ensures
        match r {
            Some(n) => termination_marker(s@, i as int) == Some(n as int) && i + n <= s@.len(),
            None => termination_marker(s@, i as int) is None,
        },
{
    proof {
        reveal_strlit("1-0");
        reveal_strlit("0-1");
        reveal_strlit("1/2-1/2");
        reveal_strlit("*");
        assert("1-0"@ =~= seq!['1', '-', '0']);
        assert("0-1"@ =~= seq!['0', '-', '1']);
        assert("1/2-1/2"@ =~= seq!['1', '/', '2', '-', '1', '/', '2']);
        assert("*"@ =~= seq!['*']);
    }
    if starts_with_here(s, i, "1-0") || starts_with_here(s, i, "0-1") {
        Some(3)
    } else if starts_with_here(s, i, "1/2-1/2") {
        Some(7)
    } else if starts_with_here(s, i, "*") {
        Some(1)
    } else {
        None
    }
}

fn is_sequence_end(s: &[char], i: usize) -> (r: bool)
    requires
        i <= s@.len(),
    ensures
        r == at_sequence_end(s@, i as int),
{
    proof {
        reveal_strlit(")");
        assert(")"@ =~= seq![')']);
    }
    read_termination_marker(s, i).is_some() || starts_with_here(s, i, ")")
}

/// Reads one move element at `j`.
#[verifier::rlimit(40)]
fn parse_move_element(s: &[char], j: usize, count: usize) -> (r: Option<(AnnotatedAlgebraicTurn, usize)>)
    requires
        j <= s@.len(),
    ensures
        match r {
            Some((t, k)) => move_element(s@, j as int, count as nat) == Some((t, k as int)) && k <= s@.len(),
            None => move_element(s@, j as int, count as nat) is None,
        },
{
    let k = match parse_integer(s, j) {
        Some((n, e)) => {
            let w = eat_whitespace(s, e);
            let q = eat_periods(s, w);
            if q == w {
                j
            } else {
                if n != (count / 2 + 1) as u64 {
                    return None;
                }
                match advance(s, q) {
                    Some(k) => k,
                    None => return None,
                }
            }
        },
        None => j,
    };
    let e = read_token_end(s, k);
    if e == k {
        return None;
    }
    let token = slice_vec(s, k, e);
    proof {
        assert(token@.take(token@.len() as int) == token@);
    }
    let turn = match parse_turn_prefix(token.as_slice(), token.len()) {
        Some(t) => t,
        None => return None,
    };
    Some((turn, e))
}

/// Reads an element sequence from `start`, after the turns `turns`.
#[verifier::rlimit(40)]
fn parse_element_sequence(s: &[char], start: usize, acc: Vec<AnnotatedAlgebraicTurn>) -> (r: Option<(Vec<AnnotatedAlgebraicTurn>, usize)>)
    requires
        start <= s@.len(),
    ensures
        match r {
            Some((t, k)) => element_sequence(s@, start as int, acc@) == Some((t@, k as int)) && start <= k <= s@.len(),
            None => element_sequence(s@, start as int, acc@) is None,
        },
    decreases s@.len() - start,
{
    let ghost old_turns = acc@;
    let mut turns = acc;
    let mut i = start;
    loop
        invariant
            start <= i <= s@.len(),
            old_turns == acc@,
            element_sequence(s@, i as int, turns@) == element_sequence(s@, start as int, old_turns),
        decreases s@.len() - i,
    {
        let j = match advance(s, i) {
            Some(j) => j,
            None => {
                proof {
                    assert(element_sequence(s@, i as int, turns@) is None);
                }
                return None;
            },
        };
        if is_sequence_end(s, j) {
            proof {
                assert(skip_space(s@, i as int) == Some(j as int));
                assert(element_sequence(s@, i as int, turns@) == Some((turns@, j as int)));
            }
            return Some((turns, j));
        }
        if j >= s.len() {
            return None;
        }
        if s[j] == '(' {
            let k = match parse_element_sequence(s, j + 1, Vec::new()) {
                Some((_, k)) => k,
                None => return None,
            };
            let l = match advance(s, k) {
                Some(l) => l,
                None => return None,
            };
            if l < s.len() && s[l] == ')' {
                i = l + 1;
            } else {
                return None;
            }
        } else if s[j] == '$' {
            match parse_integer(s, j + 1) {
                Some((g, m)) => {
                    if g > 255 {
                        return None;
                    }
                    i = m;
                },
                None => return None,
            }
        } else {
            let (t, k) = match parse_move_element(s, j, turns.len()) {
                Some(x) => x,
                None => {
                    proof {
                        assert(element_sequence(s@, i as int, turns@) is None);
                    }
                    return None;
                },
            };
            if k <= i {
                return None;
            }
            turns.push(t);
            i = k;
        }
    }
}

/// The tags of a tag section have distinct names.
proof fn lemma_tag_section_distinct(s: Seq<char>, i: int, acc: Seq<Tag>)
    requires
        distinct_names(acc),
        tag_section(s, i, acc) is Some,
    ensures
        distinct_names(tag_section(s, i, acc).unwrap().0),
    decreases s.len() - i,
{
    let j = skip_space(s, i).unwrap();
    if 0 <= j < s.len() && s[j] == '[' {
        let (t, k) = tag_pair(s, j + 1).unwrap();
        assert(!has_name(acc, t.0));
        let next = acc.push(t);
        assert forall|a: int, b: int| 0 <= a < b < next.len() implies next[a].0 != next[b].0 by {
            if b == acc.len() {
                assert(!(0 <= a < acc.len() && acc[a].0 == t.0));
            }
        }
        lemma_tag_section_distinct(s, k, next);
    }
}

impl PgnGame {
    /// Parses a PGN document holding one game. The turns are not applied.
    #[verifier::rlimit(40)]
    pub fn parse(text: &str) -> (r: Result<PgnGame, String>)
        ensures
            r is Ok <==> (spec_parse_pgn(text@) is Some && tags_consistent(spec_parse_pgn(text@).unwrap().0)),
            r is Ok ==> r.unwrap().turns@ == spec_parse_pgn(text@).unwrap().1 && starts_from(
                spec_parse_pgn(text@).unwrap().0,
                r.unwrap().starting_position,
            ),
    {
        let chars = to_chars(text);
        let s = chars.as_slice();
        let (tags, i) = match parse_tag_pair_section(s) {
            Some(x) => x,
            None => return Err(String::from_str("invalid PGN: malformed tag pair section")),
        };
        let (turns, j) = match parse_element_sequence(s, i, Vec::new()) {
            Some(x) => x,
            None => return Err(String::from_str("invalid PGN: malformed movetext")),
        };
        let n = match read_termination_marker(s, j) {
            Some(n) => n,
            None => return Err(String::from_str("invalid PGN: game does not terminate properly")),
        };
        let e = match advance(s, j + n) {
            Some(e) => e,
            None => return Err(String::from_str("invalid PGN: unmatched opening curly brace")),
        };
        if e != s.len() {
            return Err(String::from_str("the PGN function accepts a single PGN game"));
        }
        proof {
            assert(distinct_names(Seq::<Tag>::empty()));
            lemma_tag_section_distinct(s@, 0, Seq::empty());
        }
        match starting_position_from_tags(&tags) {
            Ok(starting_position) => Ok(PgnGame { starting_position, turns }),
            Err(message) => Err(message),
        }
    }
}


/// Tags name at most one starting position.
pub proof fn lemma_starts_from_unique(tags: Seq<Tag>, p1: Position, p2: Position)
    requires
        starts_from(tags, p1),
        starts_from(tags, p2),
    ensures
        p1 == p2,
{
    let set_up = tag_value(tags, set_up_name());
    if set_up == Some(seq!['1']) {
        crate::fen::lemma_fen_describes_unique(tag_value(tags, fen_name()).unwrap(), p1, p2);
    } else {
        crate::model::lemma_board_ext(p1.board, p2.board);
    }
}


/// Where a parsed game starts: with `SetUp` valued `1`, at the position that
/// its `FEN` tag describes; and a game with a `FEN` tag whose `SetUp` is not
/// `1` names no starting position, so that its parse fails.
pub proof fn lemma_set_up_rules(s: Seq<char>, p: Position)
    requires
        spec_parse_pgn(s) is Some,
    ensures
        ({
            let tags = spec_parse_pgn(s).unwrap().0;
            tag_value(tags, set_up_name()) == Some(seq!['1']) && starts_from(tags, p) ==> fen_describes(
                tag_value(tags, fen_name()).unwrap(),
                p,
            )
        }),
        ({
            let tags = spec_parse_pgn(s).unwrap().0;
            tag_value(tags, fen_name()) is Some && tag_value(tags, set_up_name()) != Some(seq!['1']) ==> !tags_consistent(
                tags,
            )
        }),
{
}


impl std::str::FromStr for PgnGame {
    type Err = String;

    fn from_str(text: &str) -> (r: Result<PgnGame, String>)
        ensures
            r is Ok <==> (spec_parse_pgn(text@) is Some && tags_consistent(spec_parse_pgn(text@).unwrap().0)),
            r is Ok ==> r.unwrap().turns@ == spec_parse_pgn(text@).unwrap().1 && starts_from(
                spec_parse_pgn(text@).unwrap().0,
                r.unwrap().starting_position,
            ),
    {
        PgnGame::parse(text)
    }
}

} // verus!
