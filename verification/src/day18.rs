//! The lagoon-digging puzzle: each instruction line carries a direction
//! and a distance, twice over — once as plain text, once packed into the
//! trailing colour code, whose five hex digits are the distance and whose
//! last digit names the direction.

use vstd::prelude::*;

verus! {

#[derive(Debug, Clone, Copy, PartialEq, Eq, Structural)]
pub enum Direction {
    Up,
    Down,
    Left,
    Right,
}

/// Spaces and tabs separate the tokens of an instruction line.
pub open spec fn is_ws(c: char) -> bool {
    c == ' ' || c == '\t'
}

/// The first position at or after `i` holding a non-blank character (the
/// line's end when only blanks remain).
pub open spec fn skip_ws(s: Seq<char>, i: int) -> int
    decreases s.len() - i when 0 <= i <= s.len()
{
    if i < 0 || i >= s.len() {
        s.len() as int
    } else if is_ws(s[i]) {
        skip_ws(s, i + 1)
    } else {
        i
    }
}

/// The end of the token starting at `i`: the next blank, or the line's end.
pub open spec fn token_end(s: Seq<char>, i: int) -> int
    decreases s.len() - i when 0 <= i <= s.len()
{
    if i < 0 || i >= s.len() {
        s.len() as int
    } else if is_ws(s[i]) {
        i
    } else {
        token_end(s, i + 1)
    }
}

/// The position right after the last non-blank character.
pub open spec fn rtrim(s: Seq<char>) -> int
    decreases s.len(),
{
    if s.len() == 0 {
        0
    } else if is_ws(s.last()) {
        rtrim(s.drop_last())
    } else {
        s.len() as int
    }
}

/// The start of the token that ends at `e`.
pub open spec fn token_start(s: Seq<char>, e: int) -> int
    decreases e when 0 <= e <= s.len()
{
    if e <= 0 {
        0
    } else if is_ws(s[e - 1]) {
        e
    } else {
        token_start(s, e - 1)
    }
}

/// The direction a single character names: U, D, L, R on the plain lines;
/// 3, 1, 2, 0 in the colour codes.
pub open spec fn dir_of_char(c: char) -> Option<Direction> {
    if c == 'U' || c == '3' {
        Some(Direction::Up)
    } else if c == 'D' || c == '1' {
        Some(Direction::Down)
    } else if c == 'L' || c == '2' {
        Some(Direction::Left)
    } else if c == 'R' || c == '0' {
        Some(Direction::Right)
    } else {
        None
    }
}

pub open spec fn is_digit(c: char) -> bool {
    '0' <= c <= '9'
}

pub open spec fn digit_val(c: char) -> int {
    c as u32 - 48
}

/// The decimal value of a digit sequence.
pub open spec fn decimal_val(s: Seq<char>) -> int
    decreases s.len(),
{
    if s.len() == 0 {
        0
    } else {
        decimal_val(s.drop_last()) * 10 + digit_val(s.last())
    }
}

/// Lower-case hexadecimal digits, as the colour codes use.
pub open spec fn is_hex_digit(c: char) -> bool {
    ('0' <= c <= '9') || ('a' <= c <= 'f')
}

pub open spec fn hex_digit_val(c: char) -> int {
    if '0' <= c <= '9' {
        c as u32 - 48
    } else {
        c as u32 - 87
    }
}

/// The value of a hexadecimal digit sequence.
pub open spec fn hex_val(s: Seq<char>) -> int
    decreases s.len(),
{
    if s.len() == 0 {
        0
    } else {
        hex_val(s.drop_last()) * 16 + hex_digit_val(s.last())
    }
}

proof fn lemma_decimal_val_nonneg(s: Seq<char>)
    requires
        forall|k: int| 0 <= k < s.len() ==> is_digit(#[trigger] s[k]),
    ensures
        decimal_val(s) >= 0,
    decreases s.len(),
{
    if s.len() > 0 {
        assert(forall|k: int| 0 <= k < s.len() - 1 ==> s.drop_last()[k] == s[k]);
        lemma_decimal_val_nonneg(s.drop_last());
    }
}

proof fn lemma_decimal_val_prefix(s: Seq<char>, a: int, k: int, e: int)
    requires
        0 <= a <= k <= e <= s.len(),
        forall|t: int| a <= t < e ==> is_digit(#[trigger] s[t]),
    ensures
        decimal_val(s.subrange(a, k)) <= decimal_val(s.subrange(a, e)),
    decreases e - k,
{
    if k < e {
        assert(s.subrange(a, k + 1).drop_last() =~= s.subrange(a, k));
        assert(forall|t: int|
            0 <= t < s.subrange(a, k).len() ==> s.subrange(a, k)[t] == s[a + t]);
        lemma_decimal_val_nonneg(s.subrange(a, k));
        assert(decimal_val(s.subrange(a, k + 1)) >= decimal_val(s.subrange(a, k)));
        lemma_decimal_val_prefix(s, a, k + 1, e);
    }
}

/// One digging instruction.
#[derive(Debug, Clone, Copy, PartialEq, Eq, Structural)]
pub struct Instruction {
    pub direction: Direction,
    pub distance: i64,
}

fn blank(c: char) -> (r: bool)
    ensures
        r == is_ws(c),
{
    c == ' ' || c == '\t'
}

/// The index of the first non-blank character at or after `from`.
fn scan_skip_ws(input: &str, from: usize) -> (r: usize)
    requires
        from <= input@.len(),
    ensures
        r == skip_ws(input@, from as int),
        from <= r <= input@.len(),
{
    let n = input.unicode_len();
    let mut i: usize = from;
    while i < n && blank(input.get_char(i))
        invariant
            from <= i <= n,
            n == input@.len(),
            skip_ws(input@, from as int) == skip_ws(input@, i as int),
        decreases n - i,
    {
        i = i + 1;
    }
    i
}

/// The index right after the token starting at `from`.
fn scan_token_end(input: &str, from: usize) -> (r: usize)
    requires
        from <= input@.len(),
    ensures
        r == token_end(input@, from as int),
        from <= r <= input@.len(),
{
    let n = input.unicode_len();
    let mut i: usize = from;
    while i < n && !blank(input.get_char(i))
        invariant
            from <= i <= n,
            n == input@.len(),
            token_end(input@, from as int) == token_end(input@, i as int),
        decreases n - i,
    {
        i = i + 1;
    }
    i
}

fn dir_of(c: char) -> (r: Option<Direction>)
    ensures
        r == dir_of_char(c),
{
    if c == 'U' || c == '3' {
        Some(Direction::Up)
    } else if c == 'D' || c == '1' {
        Some(Direction::Down)
    } else if c == 'L' || c == '2' {
        Some(Direction::Left)
    } else if c == 'R' || c == '0' {
        Some(Direction::Right)
    } else {
        None
    }
}

impl Instruction {
    /// Parse a plain instruction line: a one-character direction token,
    /// blanks, then a decimal distance token.  The line must have that
    /// shape, and the distance must fit.
    pub fn parse_part1(input: &str) -> (r: Instruction)
        requires
            ({
                let s = input@;
                let d0 = skip_ws(s, 0);
                let d1 = token_end(s, d0);
                let n0 = skip_ws(s, d1);
                let n1 = token_end(s, n0);
                &&& d0 < s.len()
                &&& d1 == d0 + 1
                &&& dir_of_char(s[d0]) is Some
                &&& n0 < s.len()
                &&& (forall|k: int| n0 <= k < n1 ==> is_digit(#[trigger] s[k]))
                &&& decimal_val(s.subrange(n0, n1)) <= i64::MAX
            }),
        ensures
            ({
                let s = input@;
                let d0 = skip_ws(s, 0);
                let n0 = skip_ws(s, token_end(s, d0));
                let n1 = token_end(s, n0);
                &&& r.direction == dir_of_char(s[d0])->0
                &&& r.distance == decimal_val(s.subrange(n0, n1))
            }),
    {
        let ghost s = input@;
        let d0 = scan_skip_ws(input, 0);
        let c = input.get_char(d0);
        let direction = dir_of(c).unwrap();
        let d1 = scan_token_end(input, d0);
        let n0 = scan_skip_ws(input, d1);
        let n1 = scan_token_end(input, n0);
        let ghost full = s.subrange(n0 as int, n1 as int);
        let mut distance: i64 = 0;
        let mut k: usize = n0;
        while k < n1
            invariant
                n0 <= k <= n1 <= input@.len(),
                input@ == s,
                full == s.subrange(n0 as int, n1 as int),
                forall|t: int| n0 <= t < n1 ==> is_digit(#[trigger] s[t]),
                decimal_val(full) <= i64::MAX,
                distance == decimal_val(s.subrange(n0 as int, k as int)),
                distance >= 0,
            decreases n1 - k,
        {
            let c2 = input.get_char(k);
            proof {
                assert(is_digit(s[k as int]));
                assert(s.subrange(n0 as int, k + 1).drop_last() =~= s.subrange(
                    n0 as int,
                    k as int,
                ));
                assert(s.subrange(n0 as int, k + 1).last() == s[k as int]);
                lemma_decimal_val_prefix(s, n0 as int, k + 1, n1 as int);
                assert(forall|t: int|
                    0 <= t < s.subrange(n0 as int, k + 1).len() ==> #[trigger] s.subrange(
                        n0 as int,
                        k + 1,
                    )[t] == s[n0 + t]);
                lemma_decimal_val_nonneg(s.subrange(n0 as int, k + 1));
            }
            distance = distance * 10 + (c2 as u32 as i64 - 48);
            k = k + 1;
        }
        Instruction { direction, distance }
    }

    /// Parse the colour code of an instruction line: its last token, nine
    /// characters long, holds five hex digits of distance starting at its
    /// third character, then one digit naming the direction.
    pub fn parse_part2(input: &str) -> (r: Instruction)
        requires
            ({
                let s = input@;
                let e = rtrim(s);
                let b = token_start(s, e);
                &&& e - b == 9
                &&& (forall|k: int| b + 2 <= k < b + 7 ==> is_hex_digit(#[trigger] s[k]))
                &&& dir_of_char(s[b + 7]) is Some
            }),
        ensures
            ({
                let s = input@;
                let e = rtrim(s);
                let b = token_start(s, e);
                &&& r.direction == dir_of_char(s[b + 7])->0
                &&& r.distance == hex_val(s.subrange(b + 2, b + 7))
            }),
    {
        let ghost s = input@;
        let n = input.unicode_len();
        proof {
            assert(input@.take(n as int) =~= input@);
        }
        let mut e: usize = n;
        while e > 0 && blank(input.get_char(e - 1))
            invariant
                0 <= e <= n,
                n == input@.len(),
                rtrim(input@) == rtrim(input@.take(e as int)),
            decreases e,
        {
            proof {
                assert(input@.take(e as int).drop_last() =~= input@.take(e - 1));
                assert(input@.take(e as int).last() == input@[e - 1]);
            }
            e = e - 1;
        }
        proof {
            if e > 0 {
                assert(input@.take(e as int).last() == input@[e - 1]);
            }
            assert(rtrim(input@.take(e as int)) == e);
        }
        let mut b: usize = e;
        while b > 0 && !blank(input.get_char(b - 1))
            invariant
                0 <= b <= e <= n,
                n == input@.len(),
                e == rtrim(input@),
                token_start(input@, e as int) == token_start(input@, b as int),
            decreases b,
        {
            b = b - 1;
        }
        proof {
            assert(token_start(input@, b as int) == b);
        }
        // the five hex digits of the distance
        let mut distance: i64 = 0;
        let mut k: usize = b + 2;
        while k < b + 7
            invariant
                b + 2 <= k <= b + 7,
                b + 9 == e <= n,
                n == input@.len(),
                input@ == s,
                b == token_start(s, rtrim(s)),
                e == rtrim(s),
                forall|t: int| b + 2 <= t < b + 7 ==> is_hex_digit(#[trigger] s[t]),
                distance == hex_val(s.subrange(b + 2, k as int)),
                0 <= distance < 0x100000,
            decreases b + 7 - k,
        {
            let c2 = input.get_char(k);
            proof {
                assert(is_hex_digit(s[k as int]));
                assert(s.subrange(b + 2, k + 1).drop_last() =~= s.subrange(b + 2, k as int));
                assert(s.subrange(b + 2, k + 1).last() == s[k as int]);
                assert(s.subrange(b + 2, k as int).len() <= 4);
                lemma_hex_small(s.subrange(b + 2, k as int));
            }
            let d = if c2 <= '9' {
                c2 as u32 as i64 - 48
            } else {
                c2 as u32 as i64 - 87
            };
            distance = distance * 16 + d;
            k = k + 1;
        }
        let dc = input.get_char(b + 7);
        let direction = dir_of(dc).unwrap();
        Instruction { direction, distance }
    }
}

/// A short hex number is bounded by sixteen to its number of digits.
proof fn lemma_hex_small(s: Seq<char>)
    requires
        forall|k: int| 0 <= k < s.len() ==> is_hex_digit(#[trigger] s[k]),
    ensures
        0 <= hex_val(s),
        s.len() <= 1 ==> hex_val(s) < 0x10,
        s.len() <= 2 ==> hex_val(s) < 0x100,
        s.len() <= 3 ==> hex_val(s) < 0x1000,
        s.len() <= 4 ==> hex_val(s) < 0x10000,
        s.len() <= 5 ==> hex_val(s) < 0x100000,
    decreases s.len(),
{
    if s.len() > 0 {
        assert(forall|k: int| 0 <= k < s.len() - 1 ==> s.drop_last()[k] == s[k]);
        lemma_hex_small(s.drop_last());
    }
}

} // verus!
