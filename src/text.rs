//! Text helpers: characters of a string, and decimal numbers.
use vstd::prelude::*;

verus! {

/// The characters of a string, one by one.
pub fn to_chars(s: &str) -> (r: Vec<char>)
    ensures
        r@ == s@,
{
    let n = s.unicode_len();
    let mut r: Vec<char> = Vec::new();
    let mut i: usize = 0;
    while i < n
        invariant
            n == s@.len(),
            i <= n,
            r@ == s@.take(i as int),
        decreases n - i,
    {
        r.push(s.get_char(i));
        proof {
            assert(s@.take(i + 1) == s@.take(i as int).push(s@[i as int]));
        }
        i = i + 1;
    }
    proof {
        assert(s@.take(n as int) == s@);
    }
    r
}

/// The decimal digit character of a number below ten.
pub open spec fn digit_char(d: nat) -> char {
    (('0' as int) + d) as char
}

pub open spec fn is_digit(c: char) -> bool {
    '0' <= c <= '9'
}

pub open spec fn digit_value(c: char) -> nat {
    ((c as int) - ('0' as int)) as nat
}

/// The decimal numeral of a number, without leading zeros.
pub open spec fn decimal_text(n: nat) -> Seq<char>
    decreases n,
{
    if n < 10 {
        seq![digit_char(n)]
    } else {
        decimal_text(n / 10).push(digit_char(n % 10))
    }
}

/// The number that a sequence of decimal digits denotes.
pub open spec fn digits_value(s: Seq<char>) -> nat
    decreases s.len(),
{
    if s.len() == 0 {
        0
    } else {
        digits_value(s.drop_last()) * 10 + digit_value(s.last())
    }
}

/// A nonempty sequence of decimal digits.
pub open spec fn all_digits(s: Seq<char>) -> bool {
    s.len() > 0 && forall|i: int| 0 <= i < s.len() ==> is_digit(#[trigger] s[i])
}

/// The `u32` that a sequence of decimal digits denotes, if it is one and fits.
pub open spec fn spec_parse_u32(s: Seq<char>) -> Option<u32> {
    if all_digits(s) && digits_value(s) <= u32::MAX {
        Some(digits_value(s) as u32)
    } else {
        None
    }
}

fn digit_str(d: u64) -> (r: &'static str)
    requires
        d < 10,
    ensures
        r@ == seq![digit_char(d as nat)],
{
    proof {
        reveal_strlit("0");
        reveal_strlit("1");
        reveal_strlit("2");
        reveal_strlit("3");
        reveal_strlit("4");
        reveal_strlit("5");
        reveal_strlit("6");
        reveal_strlit("7");
        reveal_strlit("8");
        reveal_strlit("9");
    }
    match d {
        0 => "0",
        1 => "1",
        2 => "2",
        3 => "3",
        4 => "4",
        5 => "5",
        6 => "6",
        7 => "7",
        8 => "8",
        _ => "9",
    }
}

/// Appends the decimal numeral of `n`.
pub fn push_decimal(s: &mut String, n: u64)
    ensures
        final(s)@ == old(s)@ + decimal_text(n as nat),
    decreases n,
{
    if n >= 10 {
        push_decimal(s, n / 10);
    }
    s.append(digit_str(n % 10));
    proof {
        if n >= 10 {
            assert(old(s)@ + decimal_text(n as nat) == old(s)@ + decimal_text((n / 10) as nat) + seq![digit_char((n % 10) as nat)]);
        }
    }
}

/// Parses decimal digits into a `u32`: `None` when the text is empty, holds
/// another character, or names a number above `u32::MAX`.
pub fn parse_u32(s: &[char]) -> (r: Option<u32>)
    ensures
        r == spec_parse_u32(s@),
{
    if s.len() == 0 {
        return None;
    }
    let mut v: u64 = 0;
    let mut i: usize = 0;
    while i < s.len()
        invariant
            i <= s@.len(),
            v == digits_value(s@.take(i as int)),
            v <= u32::MAX,
            forall|k: int| 0 <= k < i ==> is_digit(#[trigger] s@[k]),
        decreases s@.len() - i,
    {
        let c = s[i];
        if !('0' <= c && c <= '9') {
            return None;
        }
        let d = (c as u32 - '0' as u32) as u64;
        proof {
            assert(s@.take(i + 1).drop_last() == s@.take(i as int));
        }
        let w = v * 10 + d;
        if w > u32::MAX as u64 {
            proof {
                lemma_digits_value_grows(s@, i as int + 1);
            }
            return None;
        }
        v = w;
        i = i + 1;
    }
    proof {
        assert(s@.take(s@.len() as int) == s@);
    }
    Some(v as u32)
}

/// A longer run of digits denotes at least as much as its prefix.
proof fn lemma_digits_value_grows(s: Seq<char>, k: int)
    requires
        0 <= k <= s.len(),
    ensures
        digits_value(s.take(k)) <= digits_value(s),
    decreases s.len() - k,
{
    if k < s.len() {
        lemma_digits_value_grows(s, k + 1);
        assert(s.take(k + 1).drop_last() == s.take(k));
    } else {
        assert(s.take(k) == s);
    }
}

/// The numeral of a number denotes that number.
pub proof fn lemma_decimal_round_trip(n: nat)
    ensures
        all_digits(decimal_text(n)),
        digits_value(decimal_text(n)) == n,
    decreases n,
{
    if n >= 10 {
        lemma_decimal_round_trip(n / 10);
        let t = decimal_text(n);
        assert(n == (n / 10) * 10 + n % 10) by (nonlinear_arith);
        assert(digit_value(digit_char(n % 10)) == n % 10);
        assert(t.last() == digit_char(n % 10));
        assert(digits_value(t) == digits_value(t.drop_last()) * 10 + digit_value(t.last()));
        assert(t.drop_last() == decimal_text(n / 10));
        assert forall|i: int| 0 <= i < t.len() implies is_digit(#[trigger] t[i]) by {
            if i < t.len() - 1 {
                assert(t[i] == decimal_text(n / 10)[i]);
            }
        }
    } else {
        assert(digit_value(digit_char(n)) == n);
        assert(decimal_text(n).drop_last() =~= Seq::<char>::empty());
        assert(digits_value(Seq::<char>::empty()) == 0);
        assert(digits_value(decimal_text(n)) == digits_value(decimal_text(n).drop_last()) * 10 + digit_value(decimal_text(n).last()));
    }
}


/// The pieces of `s` between occurrences of `sep`: one more piece than there
/// are separators, some of them possibly empty.
pub open spec fn split(s: Seq<char>, sep: char) -> Seq<Seq<char>>
    decreases s.len(),
{
    if s.len() == 0 {
        seq![Seq::<char>::empty()]
    } else {
        let prev = split(s.drop_last(), sep);
        if s.last() == sep {
            prev.push(Seq::<char>::empty())
        } else {
            prev.update(prev.len() - 1, prev.last().push(s.last()))
        }
    }
}

pub open spec fn views(v: Seq<Vec<char>>) -> Seq<Seq<char>> {
    v.map_values(|x: Vec<char>| x@)
}

pub proof fn lemma_split_nonempty(s: Seq<char>, sep: char)
    ensures
        split(s, sep).len() >= 1,
    decreases s.len(),
{
    if s.len() > 0 {
        lemma_split_nonempty(s.drop_last(), sep);
    }
}

/// Splits `s` at each occurrence of `sep`.
pub fn split_on(s: &[char], sep: char) -> (r: Vec<Vec<char>>)
    ensures
        views(r@) == split(s@, sep),
{
    let mut done: Vec<Vec<char>> = Vec::new();
    let mut cur: Vec<char> = Vec::new();
    let mut i: usize = 0;
    proof {
        assert(s@.take(0) =~= Seq::<char>::empty());
        assert(views(done@).push(cur@) =~= split(s@.take(0), sep));
    }
    while i < s.len()
        invariant
            i <= s@.len(),
            views(done@).push(cur@) == split(s@.take(i as int), sep),
        decreases s@.len() - i,
    {
        let c = s[i];
        proof {
            assert(s@.take(i + 1).drop_last() =~= s@.take(i as int));
            lemma_split_nonempty(s@.take(i as int), sep);
        }
        if c == sep {
            let piece = cur;
            done.push(piece);
            cur = Vec::new();
            proof {
                assert(views(done@) =~= split(s@.take(i as int), sep));
                assert(views(done@).push(cur@) =~= split(s@.take(i + 1), sep));
            }
        } else {
            let ghost before = cur@;
            cur.push(c);
            proof {
                assert(views(done@).push(cur@) =~= split(s@.take(i + 1), sep));
            }
        }
        i = i + 1;
    }
    done.push(cur);
    proof {
        assert(s@.take(s@.len() as int) == s@);
        assert(views(done@) =~= split(s@, sep));
    }
    done
}


/// No character of `a` is `sep`.
pub open spec fn free_of(a: Seq<char>, sep: char) -> bool {
    forall|i: int| 0 <= i < a.len() ==> a[i] != sep
}

/// A text without the separator is a single piece.
pub proof fn lemma_split_single(a: Seq<char>, sep: char)
    requires
        free_of(a, sep),
    ensures
        split(a, sep) == seq![a],
    decreases a.len(),
{
    if a.len() > 0 {
        lemma_split_single(a.drop_last(), sep);
        assert(a.drop_last().push(a.last()) =~= a);
        assert(seq![a.drop_last()].update(0, a.drop_last().push(a.last())) =~= seq![a]);
    } else {
        assert(a =~= Seq::<char>::empty());
    }
}

/// Splitting a text whose first separator follows `a` gives `a`, then the
/// pieces of the rest.
pub proof fn lemma_split_concat(a: Seq<char>, b: Seq<char>, sep: char)
    requires
        free_of(a, sep),
    ensures
        split(a + seq![sep] + b, sep) == seq![a] + split(b, sep),
    decreases b.len(),
{
    let t = a + seq![sep] + b;
    if b.len() == 0 {
        assert(t.drop_last() =~= a);
        lemma_split_single(a, sep);
        assert(split(b, sep) =~= seq![Seq::<char>::empty()]);
        assert(seq![a].push(Seq::<char>::empty()) =~= seq![a] + split(b, sep));
    } else {
        lemma_split_concat(a, b.drop_last(), sep);
        assert(t.drop_last() =~= a + seq![sep] + b.drop_last());
        lemma_split_nonempty(b.drop_last(), sep);
        let prev = split(b.drop_last(), sep);
        if b.last() == sep {
            assert((seq![a] + prev).push(Seq::<char>::empty()) =~= seq![a] + prev.push(Seq::<char>::empty()));
        } else {
            let whole = seq![a] + prev;
            assert(whole.update(whole.len() - 1, whole.last().push(b.last())) =~= seq![a] + prev.update(
                prev.len() - 1,
                prev.last().push(b.last()),
            ));
        }
    }
}


/// The pieces joined again, with `sep` between two pieces.
pub open spec fn join(parts: Seq<Seq<char>>, sep: char) -> Seq<char>
    decreases parts.len(),
{
    if parts.len() <= 1 {
        if parts.len() == 1 { parts[0] } else { Seq::<char>::empty() }
    } else {
        join(parts.drop_last(), sep) + seq![sep] + parts.last()
    }
}

/// Joining the pieces of a split gives the text back.
pub proof fn lemma_split_join(s: Seq<char>, sep: char)
    ensures
        join(split(s, sep), sep) == s,
    decreases s.len(),
{
    if s.len() == 0 {
        assert(join(split(s, sep), sep) =~= s);
    } else {
        lemma_split_join(s.drop_last(), sep);
        lemma_split_nonempty(s.drop_last(), sep);
        let prev = split(s.drop_last(), sep);
        if s.last() == sep {
            let ps = prev.push(Seq::<char>::empty());
            assert(ps.drop_last() =~= prev);
            assert(join(ps, sep) =~= s);
        } else {
            let ps = prev.update(prev.len() - 1, prev.last().push(s.last()));
            if prev.len() == 1 {
                assert(ps.len() == 1);
                assert(join(ps, sep) == ps[0]);
                assert(join(prev, sep) == prev[0]);
                assert(ps[0] == s.drop_last().push(s.last()));
                assert(s.drop_last().push(s.last()) =~= s);
            } else {
                assert(ps.drop_last() =~= prev.drop_last());
                assert(join(ps, sep) =~= join(prev.drop_last(), sep) + seq![sep] + prev.last().push(s.last()));
                assert(join(prev, sep) == join(prev.drop_last(), sep) + seq![sep] + prev.last());
                assert(s.drop_last().push(s.last()) =~= s);
                assert(join(ps, sep) =~= join(prev, sep).push(s.last()));
            }
        }
    }
}

/// A numeral without leading zeros: one digit, or a first digit other than
/// `0`.
pub open spec fn no_leading_zero(t: Seq<char>) -> bool {
    t.len() == 1 || (t.len() > 1 && t[0] != '0')
}

proof fn lemma_digits_value_positive(t: Seq<char>)
    requires
        all_digits(t),
        t[0] != '0',
    ensures
        digits_value(t) >= 1,
    decreases t.len(),
{
    if t.len() > 1 {
        let u = t.drop_last();
        assert(u[0] == t[0]);
        assert forall|i: int| 0 <= i < u.len() implies is_digit(#[trigger] u[i]) by {
            assert(u[i] == t[i]);
        }
        lemma_digits_value_positive(u);
    }
}

/// A numeral without leading zeros is the numeral of its value.
pub proof fn lemma_numeral_canonical(t: Seq<char>)
    requires
        all_digits(t),
        no_leading_zero(t),
    ensures
        decimal_text(digits_value(t)) == t,
    decreases t.len(),
{
    if t.len() == 1 {
        assert(t.drop_last() =~= Seq::<char>::empty());
        assert(is_digit(t[0]));
        assert(digits_value(Seq::<char>::empty()) == 0);
        assert(t.last() == t[0]);
        assert(digits_value(t) == digit_value(t[0]));
        assert(digit_char(digit_value(t[0])) == t[0]);
        assert(decimal_text(digit_value(t[0])) == seq![digit_char(digit_value(t[0]))]);
        assert(decimal_text(digits_value(t)) =~= t);
    } else {
        let u = t.drop_last();
        assert(u[0] == t[0]);
        assert forall|i: int| 0 <= i < u.len() implies is_digit(#[trigger] u[i]) by {
            assert(u[i] == t[i]);
        }
        lemma_numeral_canonical(u);
        lemma_digits_value_positive(u);
        let v = digits_value(t);
        let d = digit_value(t.last());
        assert(is_digit(t[t.len() - 1]));
        assert(v == digits_value(u) * 10 + d);
        assert(v / 10 == digits_value(u) && v % 10 == d) by (nonlinear_arith)
            requires v == digits_value(u) * 10 + d, d < 10;
        assert(digit_char(d) == t.last());
        assert(decimal_text(v) =~= t);
    }
}

} // verus!
