//! Coordinate codec: conversion between human-readable cell labels
//! (column letter plus 1-based row, e.g. `"B3"`), zero-based `(row, column)`
//! coordinates, and flat row-major grid indices.

use crate::MazeError;
use vstd::prelude::*;

verus! {

/// A zero-based (row, column) cell position.
#[derive(Clone, Copy, Debug, PartialEq, Eq, Structural)]
pub struct Coord {
    pub row: usize,
    pub col: usize,
}

/// The flat row-major grid index of a coordinate in a grid of the given width.
pub open spec fn pos_of(c: Coord, width: usize) -> int {
    c.row * width + c.col
}

/// The coordinate whose flat row-major grid index is `pos` in a grid of the
/// given width.
pub open spec fn coord_of(pos: usize, width: usize) -> Coord {
    Coord {
        row: (pos as int / width as int) as usize,
        col: (pos as int % width as int) as usize,
    }
}

/// The character for a single decimal digit value.
pub open spec fn digit_char(d: nat) -> char {
    ((d + 48) as char)
}

/// The numeric value of a decimal digit character.
pub open spec fn digit_val(c: char) -> nat {
    (c as nat - 48) as nat
}

/// Whether a character is a decimal digit.
pub open spec fn is_digit(c: char) -> bool {
    48 <= c as int <= 57
}

/// Whether a character is an uppercase ASCII letter.
pub open spec fn is_upper(c: char) -> bool {
    65 <= c as int <= 90
}

/// The decimal digits of `n`, most significant first, without leading zeros.
pub open spec fn dec_digits(n: nat) -> Seq<char>
    decreases n,
{
    if n < 10 {
        seq![digit_char(n)]
    } else {
        dec_digits(n / 10).push(digit_char(n % 10))
    }
}

/// The value of a run of decimal digit characters.
pub open spec fn dec_val(s: Seq<char>) -> nat
    decreases s.len(),
{
    if s.len() == 0 {
        0
    } else {
        dec_val(s.drop_last()) * 10 + digit_val(s.last())
    }
}

/// A well-formed cell label: a single uppercase ASCII letter, then a
/// non-empty run of decimal digits.
pub open spec fn wf_label(s: Seq<char>) -> bool {
    &&& s.len() >= 2
    &&& is_upper(s[0])
    &&& forall|i: int| 1 <= i < s.len() ==> is_digit(s[i])
}

/// The 1-based row number written in a label's digit run.
pub open spec fn label_row_val(s: Seq<char>) -> nat {
    dec_val(s.skip(1))
}

/// The coordinate a well-formed label denotes: zero-based row and column.
pub open spec fn label_coord(s: Seq<char>) -> Coord {
    Coord { row: (label_row_val(s) - 1) as usize, col: (s[0] as int - 65) as usize }
}

/// What parsing a label yields: the denoted coordinate, or `None` where the
/// label is rejected (not well formed, row zero, or row out of machine range).
pub open spec fn parse_spec(s: Seq<char>) -> Option<Coord> {
    if wf_label(s) && 1 <= label_row_val(s) <= usize::MAX {
        Some(label_coord(s))
    } else {
        None
    }
}

/// The label of a coordinate: its column letter (A = 0), then its 1-based
/// row number in decimal.
pub open spec fn label_of(c: Coord) -> Seq<char> {
    seq![((c.col + 65) as char)] + dec_digits((c.row + 1) as nat)
}

impl Coord {
    /// Flat row-major index of this coordinate: `row * width + col`.
    pub fn to_pos(&self, width: usize) -> (r: usize)
        requires
            pos_of(*self, width) <= usize::MAX,
        ensures
            r == pos_of(*self, width),
    {
        self.row * width + self.col
    }

    /// The coordinate at flat index `pos`: `(pos / width, pos % width)`.
    pub fn from_pos(pos: usize, width: usize) -> (r: Coord)
        requires
            width >= 1,
        ensures
            r == coord_of(pos, width),
    {
        let col = pos % width;
        let row = pos / width;
        Coord { row, col }
    }

    /// Parse a cell label such as `"B3"`: one uppercase ASCII letter for the
    /// column, then a 1-based decimal row number. Rejects anything else,
    /// including a row of zero and a row too large for the machine.
    pub fn parse(s: &str) -> (r: Result<Coord, MazeError>)
        ensures
            match parse_spec(s@) {
                Some(c) => r == Ok::<Coord, MazeError>(c),
                None => r == Err::<Coord, MazeError>(MazeError::MalformedCell),
            },
    {
        let len = s.unicode_len();
        if len < 2 {
            return Err(MazeError::MalformedCell);
        }
        let c0 = s.get_char(0);
        let code0 = c0 as u32;
        if !(65 <= code0 && code0 <= 90) {
            return Err(MazeError::MalformedCell);
        }
        let mut row: usize = 0;
        let mut i: usize = 1;
        while i < len
            invariant
                1 <= i <= len,
                len == s@.len(),
                is_upper(s@[0]),
                forall|j: int| 1 <= j < i ==> is_digit(s@[j]),
                row == dec_val(s@.subrange(1, i as int)),
            decreases len - i,
        {
            let c = s.get_char(i);
            let code = c as u32;
            if !(48 <= code && code <= 57) {
                return Err(MazeError::MalformedCell);
            }
            let d = (code - 48) as usize;
            proof {
                assert(s@.subrange(1, i + 1).drop_last() =~= s@.subrange(1, i as int));
                assert(s@.subrange(1, i + 1).last() == s@[i as int]);
            }
            if row > (usize::MAX - d) / 10 {
                proof {
                    lemma_dec_val_prefix_grows(s@, i + 1, s@.len() as int);
                    assert(s@.skip(1) =~= s@.subrange(1, s@.len() as int));
                }
                return Err(MazeError::MalformedCell);
            }
            row = row * 10 + d;
            i += 1;
        }
        proof {
            assert(s@.skip(1) =~= s@.subrange(1, s@.len() as int));
        }
        if row == 0 {
            return Err(MazeError::MalformedCell);
        }
        Ok(Coord { row: row - 1, col: (code0 - 65) as usize })
    }
}

/// The characters of a byte sequence read back to front.
pub open spec fn bytes_rev_chars(b: Seq<u8>) -> Seq<char> {
    Seq::new(b.len(), |i: int| b[b.len() - 1 - i] as char)
}

/// Relies on String::from_utf8: bytes that are all ASCII are valid UTF-8 and
/// decode to the string whose characters are exactly those bytes.
#[verifier::external_body]
pub(crate) fn ascii_bytes_to_string(bytes: Vec<u8>) -> (r: String)
    requires
        forall|i: int| 0 <= i < bytes@.len() ==> bytes@[i] < 128,
    ensures
        r@.len() == bytes@.len(),
        forall|i: int| 0 <= i < bytes@.len() ==> r@[i] == (#[trigger] bytes@[i]) as char,
{
    String::from_utf8(bytes).unwrap_or_default()
}

impl Coord {
    /// Render this coordinate as a cell label: the column letter (A = 0)
    /// followed by the 1-based row number in decimal.
    pub fn format(&self) -> (r: String)
        requires
            self.col < 26,
            self.row < usize::MAX,
        ensures
            r@ == label_of(*self),
    {
        let ghost big_n: nat = (self.row + 1) as nat;
        let mut tmp: Vec<u8> = Vec::new();
        let mut n: usize = self.row + 1;
        while n > 0
            invariant
                forall|j: int| 0 <= j < tmp@.len() ==> 48 <= #[trigger] tmp@[j] <= 57,
                n > 0 ==> dec_digits(big_n) =~= dec_digits(n as nat) + bytes_rev_chars(tmp@),
                n == 0 ==> dec_digits(big_n) =~= bytes_rev_chars(tmp@),
            decreases n,
        {
            let d = n % 10;
            tmp.push(48 + d as u8);
            proof {
                assert(bytes_rev_chars(tmp@) =~= seq![digit_char(d as nat)] + bytes_rev_chars(
                    tmp@.drop_last(),
                ));
            }
            n = n / 10;
        }
        let mut bytes: Vec<u8> = Vec::new();
        bytes.push(65 + self.col as u8);
        let mut i: usize = tmp.len();
        while i > 0
            invariant
                i <= tmp@.len(),
                forall|j: int| 0 <= j < tmp@.len() ==> 48 <= #[trigger] tmp@[j] <= 57,
                dec_digits(big_n) =~= bytes_rev_chars(tmp@),
                bytes@.len() == 1 + (tmp@.len() - i),
                bytes@[0] == 65 + self.col,
                forall|j: int|
                    1 <= j < bytes@.len() ==> bytes@[j] == tmp@[tmp@.len() - j],
            decreases i,
        {
            i -= 1;
            bytes.push(tmp[i]);
        }
        proof {
            let lbl = label_of(*self);
            assert(dec_digits(big_n).len() == tmp@.len());
            assert(lbl.len() == bytes@.len());
            assert forall|j: int| 0 <= j < bytes@.len() implies bytes@[j] as char == lbl[j] by {
                if j >= 1 {
                    assert(lbl[j] == dec_digits(big_n)[j - 1]);
                    assert(dec_digits(big_n)[j - 1] == bytes_rev_chars(tmp@)[j - 1]);
                    assert(bytes_rev_chars(tmp@)[j - 1] == tmp@[tmp@.len() - j] as char);
                }
            }
            assert(forall|j: int| 0 <= j < bytes@.len() ==> bytes@[j] < 128);
        }
        let r = ascii_bytes_to_string(bytes);
        proof {
            assert(r@ =~= label_of(*self));
        }
        r
    }
}

/// The digits of a number read back as that number; they are all digit
/// characters and never start with a zero.
proof fn lemma_dec_digits_val(n: nat)
    ensures
        dec_digits(n).len() >= 1,
        dec_val(dec_digits(n)) == n,
        forall|i: int| 0 <= i < dec_digits(n).len() ==> is_digit(#[trigger] dec_digits(n)[i]),
        n >= 1 ==> dec_digits(n)[0] != '0',
    decreases n,
{
    if n < 10 {
        assert(dec_digits(n) =~= seq![digit_char(n)]);
        assert(dec_digits(n).drop_last() =~= Seq::<char>::empty());
        assert(dec_digits(n).last() == digit_char(n));
        assert(dec_val(dec_digits(n)) == dec_val(Seq::<char>::empty()) * 10 + digit_val(
            digit_char(n),
        ));
    } else {
        lemma_dec_digits_val(n / 10);
        let prefix = dec_digits(n / 10);
        let whole = dec_digits(n);
        assert(whole == prefix.push(digit_char(n % 10)));
        assert(whole.drop_last() =~= prefix);
        assert(dec_val(whole) == dec_val(prefix) * 10 + digit_val(digit_char(n % 10)));
        assert(dec_val(whole) == (n / 10) * 10 + n % 10);
        assert((n / 10) * 10 + n % 10 == n) by {
            vstd::arithmetic::div_mod::lemma_fundamental_div_mod(n as int, 10);
        }
    }
}

/// A digit run that does not start with `'0'` denotes a positive number.
proof fn lemma_dec_val_pos(s: Seq<char>)
    requires
        s.len() >= 1,
        forall|i: int| 0 <= i < s.len() ==> is_digit(#[trigger] s[i]),
        s[0] != '0',
    ensures
        dec_val(s) >= 1,
    decreases s.len(),
{
    if s.len() == 1 {
        assert(dec_val(s) == dec_val(s.drop_last()) * 10 + digit_val(s.last()));
        assert(s.last() == s[0]);
    } else {
        lemma_dec_val_pos(s.drop_last());
    }
}

/// Rendering the value of a digit run without leading zeros gives back the
/// same run.
proof fn lemma_dec_digits_of_val(s: Seq<char>)
    requires
        s.len() >= 1,
        forall|i: int| 0 <= i < s.len() ==> is_digit(#[trigger] s[i]),
        s[0] != '0',
    ensures
        dec_digits(dec_val(s)) =~= s,
    decreases s.len(),
{
    if s.len() == 1 {
        assert(dec_val(s) == dec_val(s.drop_last()) * 10 + digit_val(s.last()));
        assert(dec_val(s) == digit_val(s[0]));
        assert(dec_digits(dec_val(s)) =~= seq![digit_char(digit_val(s[0]))]);
        assert(digit_char(digit_val(s[0])) == s[0]);
    } else {
        let rest = s.drop_last();
        let d = digit_val(s.last());
        lemma_dec_digits_of_val(rest);
        lemma_dec_val_pos(rest);
        let v = dec_val(s);
        assert(v == dec_val(rest) * 10 + d);
        assert(v >= 10 && d < 10);
        assert(v / 10 == dec_val(rest) && v % 10 == d) by {
            vstd::arithmetic::div_mod::lemma_fundamental_div_mod_converse(
                v as int,
                10,
                dec_val(rest) as int,
                d as int,
            );
        }
        assert(dec_digits(v) == dec_digits(dec_val(rest)).push(digit_char(d)));
        assert(digit_char(d) == s.last());
        assert(dec_digits(v) =~= s);
    }
}

/// Law: formatting any coordinate that fits a grid (column below 26) and
/// parsing the label back yields the same coordinate.
pub proof fn lemma_format_parse_round_trip(c: Coord)
    requires
        c.col < 26,
        c.row < usize::MAX,
    ensures
        parse_spec(label_of(c)) == Some(c),
{
    let s = label_of(c);
    let n = (c.row + 1) as nat;
    lemma_dec_digits_val(n);
    assert(s[0] == ((c.col + 65) as char));
    assert(is_upper(s[0]));
    assert(s.skip(1) =~= dec_digits(n));
    assert(forall|i: int| 1 <= i < s.len() ==> is_digit(#[trigger] s[i]));
    assert(wf_label(s));
    assert(label_row_val(s) == n);
    assert(label_coord(s).row == c.row);
    assert(label_coord(s).col == c.col);
}

/// Law: a label that parses, and whose digit run has no leading zero, is
/// exactly the label of the parsed coordinate. (A label with a leading zero,
/// such as one written with `"01"` for row one, parses but re-renders without
/// the zero.)
pub proof fn lemma_parse_format_round_trip(s: Seq<char>, c: Coord)
    requires
        parse_spec(s) == Some(c),
        s[1] != '0',
    ensures
        label_of(c) =~= s,
{
    let digits = s.skip(1);
    assert(digits.len() == s.len() - 1 >= 1);
    assert(forall|i: int| 0 <= i < digits.len() ==> is_digit(#[trigger] digits[i]));
    assert(digits[0] == s[1]);
    lemma_dec_digits_of_val(digits);
    assert(dec_digits((c.row + 1) as nat) =~= digits);
    assert(((c.col + 65) as char) == s[0]);
    assert(label_of(c) =~= seq![s[0]] + digits);
    assert(seq![s[0]] + digits =~= s);
}

/// The value of a digit run is no larger over a prefix than over the whole:
/// appending digit characters can only grow the denoted number.
proof fn lemma_dec_val_prefix_grows(s: Seq<char>, i: int, j: int)
    requires
        1 <= i <= j <= s.len(),
    ensures
        dec_val(s.subrange(1, i)) <= dec_val(s.subrange(1, j)),
    decreases j - i,
{
    if i < j {
        lemma_dec_val_prefix_grows(s, i, j - 1);
        assert(s.subrange(1, j).drop_last() =~= s.subrange(1, j - 1));
        assert(dec_val(s.subrange(1, j)) == dec_val(s.subrange(1, j - 1)) * 10 + digit_val(
            s.subrange(1, j).last(),
        ));
    }
}

/// Law: for every position `pos` in `[0, width * height)`, converting the
/// flat index to a coordinate and back yields the same index, and the
/// coordinate lies inside the grid.
pub proof fn lemma_pos_round_trip(pos: usize, width: usize, height: usize)
    requires
        width >= 1,
        pos < width * height,
    ensures
        pos_of(coord_of(pos, width), width) == pos,
        coord_of(pos, width).row < height,
        coord_of(pos, width).col < width,
{
    let w = width as int;
    let q = pos as int / w;
    let r = pos as int % w;
    vstd::arithmetic::div_mod::lemma_fundamental_div_mod(pos as int, w);
    vstd::arithmetic::div_mod::lemma_div_nonincreasing(pos as int, w);
    vstd::arithmetic::div_mod::lemma_div_pos_is_pos(pos as int, w);
    assert(0 <= q <= usize::MAX);
    assert(0 <= r < w);
    let rr = coord_of(pos, width).row;
    let cc = coord_of(pos, width).col;
    assert(rr == q && cc == r);
    assert(rr * width + cc == pos) by (nonlinear_arith)
        requires
            pos as int == w * q + r,
            rr == q,
            cc == r,
            w == width as int,
    {}
    assert(q < height) by (nonlinear_arith)
        requires
            pos as int == w * q + r,
            0 <= r < w,
            pos < width * height,
            w == width,
            w >= 1,
            q >= 0,
    {}
}

/// Converting a coordinate with an in-range column to a flat index and back
/// yields the same coordinate.
pub proof fn lemma_coord_round_trip(c: Coord, width: usize)
    requires
        width >= 1,
        c.col < width,
        pos_of(c, width) <= usize::MAX,
    ensures
        coord_of(pos_of(c, width) as usize, width) == c,
{
    vstd::arithmetic::div_mod::lemma_fundamental_div_mod_converse(
        pos_of(c, width),
        width as int,
        c.row as int,
        c.col as int,
    );
}

} // verus!
