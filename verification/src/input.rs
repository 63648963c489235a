//! Reading a move typed by a player: a line holding a row and a column,
//! separated by a single space, or a column alone in games with gravity.

use vstd::prelude::*;
use crate::text::{
    decimal_text, digit_text, free_of, lemma_split_on_piece, lemma_split_on_single, split_on,
};

verus! {

/// What a line of input says about a move.
#[derive(Clone, Copy, Debug, Eq, Hash, PartialEq, Structural)]
pub enum MoveInput {
    /// Two non-negative integers: a row and a column.
    Coordinates {
        /// The row entered first.
        row: usize,
        /// The column entered second.
        column: usize,
    },
    /// Two pieces, at least one of which is not a non-negative integer.
    NotNumbers,
    /// Not exactly two pieces.
    WrongCount,
}

/// What a line of input says about a column to drop a stone in.
#[derive(Clone, Copy, Debug, Eq, Hash, PartialEq, Structural)]
pub enum ColumnInput {
    /// A non-negative integer: the column.
    Column(usize),
    /// One piece that is not a non-negative integer.
    NotNumber,
    /// Not exactly one piece.
    WrongCount,
}

/// The characters that count as white space (the Unicode `White_Space` property).
pub open spec fn is_white_space(c: char) -> bool {
    let n = c as u32;
    ||| 0x09 <= n <= 0x0D
    ||| n == 0x20
    ||| n == 0x85
    ||| n == 0xA0
    ||| n == 0x1680
    ||| 0x2000 <= n <= 0x200A
    ||| n == 0x2028
    ||| n == 0x2029
    ||| n == 0x202F
    ||| n == 0x205F
    ||| n == 0x3000
}

/// `s` without its leading white space.
pub open spec fn trim_start(s: Seq<char>) -> Seq<char>
    decreases s.len(),
{
    if s.len() > 0 && is_white_space(s[0]) {
        trim_start(s.drop_first())
    } else {
        s
    }
}

/// `s` without its trailing white space.
pub open spec fn trim_end(s: Seq<char>) -> Seq<char>
    decreases s.len(),
{
    if s.len() > 0 && is_white_space(s.last()) {
        trim_end(s.drop_last())
    } else {
        s
    }
}

/// `s` without leading and trailing white space.
pub open spec fn trim(s: Seq<char>) -> Seq<char> {
    trim_end(trim_start(s))
}

/// The pieces of `s` between single spaces; consecutive spaces give empty
/// pieces, and the empty text is one empty piece.
pub open spec fn split_spaces(s: Seq<char>) -> Seq<Seq<char>> {
    split_on(s, ' ')
}

/// `c` is one of `0` to `9`.
pub open spec fn is_digit(c: char) -> bool {
    '0' <= c <= '9'
}

/// The number written by the decimal digits `s`.
pub open spec fn digits_value(s: Seq<char>) -> nat
    decreases s.len(),
{
    if s.len() == 0 {
        0
    } else {
        digits_value(s.drop_last()) * 10 + ((s.last() as u32) - ('0' as u32)) as nat
    }
}

/// `s` without a leading `+`, if it has one.
pub open spec fn unsigned_digits(s: Seq<char>) -> Seq<char> {
    if s.len() > 0 && s[0] == '+' {
        s.drop_first()
    } else {
        s
    }
}

/// Every character of `s` is a decimal digit.
pub open spec fn all_digits(s: Seq<char>) -> bool {
    forall|i: int| 0 <= i < s.len() ==> is_digit(#[trigger] s[i])
}

/// The non-negative integer written by `s`: an optional `+` and at least one
/// decimal digit, with a value that fits in a `usize`.
pub open spec fn parse_usize(s: Seq<char>) -> Option<usize> {
    let digits = unsigned_digits(s);
    if digits.len() > 0 && all_digits(digits) && digits_value(digits) <= usize::MAX {
        Some(digits_value(digits) as usize)
    } else {
        None
    }
}

/// What the line `line` says about a move: the trimmed line is split at
/// single spaces; two pieces that are both numbers give coordinates.
pub open spec fn move_input(line: Seq<char>) -> MoveInput {
    let pieces = split_spaces(trim(line));
    if pieces.len() != 2 {
        MoveInput::WrongCount
    } else {
        match (parse_usize(pieces[0]), parse_usize(pieces[1])) {
            (Some(row), Some(column)) => MoveInput::Coordinates { row, column },
            _ => MoveInput::NotNumbers,
        }
    }
}

/// Whether `c` is white space.
fn white_space(c: char) -> (b: bool)
    ensures
        b == is_white_space(c),
{
    let n = c as u32;
    (0x09 <= n && n <= 0x0D) || n == 0x20 || n == 0x85 || n == 0xA0 || n == 0x1680 || (0x2000 <= n
        && n <= 0x200A) || n == 0x2028 || n == 0x2029 || n == 0x202F || n == 0x205F || n == 0x3000
}

proof fn lemma_digits_value_grows(s: Seq<char>, j: int)
    requires
        0 <= j <= s.len(),
        all_digits(s),
    ensures
        digits_value(s.take(j)) <= digits_value(s),
    decreases s.len() - j,
{
    if j < s.len() {
        lemma_digits_value_grows(s, j + 1);
        assert(s.take(j + 1).drop_last() =~= s.take(j));
    } else {
        assert(s.take(j) =~= s);
    }
}

/// Reads the number that `piece` writes, as [`parse_usize`] says.
fn parse_piece(piece: &[char]) -> (value: Option<usize>)
    ensures
        value == parse_usize(piece@),
{
    let ghost s = piece@;
    let mut i: usize = 0;
    if piece.len() > 0 && piece[0] == '+' {
        i = 1;
    }
    let ghost digits = unsigned_digits(s);
    let start = i;
    assert(digits =~= s.subrange(start as int, s.len() as int));
    if i == piece.len() {
        return None;
    }
    let mut value: usize = 0;
    while i < piece.len()
        invariant
            start <= i <= piece@.len(),
            s == piece@,
            digits == s.subrange(start as int, s.len() as int),
            digits == unsigned_digits(s),
            forall|j: int| 0 <= j < i - start ==> is_digit(#[trigger] digits[j]),
            value == digits_value(digits.take(i - start)),
        decreases piece@.len() - i,
    {
        let c = piece[i];
        if !('0' <= c && c <= '9') {
            assert(digits[i - start] == c);
            assert(!is_digit(digits[i - start]));
            return None;
        }
        let d = (c as u32) - ('0' as u32);
        let ghost next = digits.take(i - start + 1);
        assert(next.drop_last() =~= digits.take(i - start));
        let ghost grown = digits_value(next);
        assert(grown == value * 10 + d);
        if value > (usize::MAX - d as usize) / 10 {
            proof {
                assert(grown > usize::MAX) by (nonlinear_arith)
                    requires
                        value > (usize::MAX - d as usize) / 10,
                        grown == value * 10 + d,
                        d <= 9,
                ;
                if all_digits(digits) {
                    lemma_digits_value_grows(digits, i - start + 1);
                }
            }
            return None;
        }
        value = value * 10 + d as usize;
        i += 1;
    }
    assert(digits.take(i - start) =~= digits);
    Some(value)
}

/// The contents of a list of pieces.
pub open spec fn pieces_view(pieces: Seq<Vec<char>>) -> Seq<Seq<char>> {
    pieces.map_values(|piece: Vec<char>| piece@)
}

/// The pieces of a line: white space trimmed from both ends, then split at single spaces.
fn split_line(line: &str) -> (pieces: Vec<Vec<char>>)
    ensures
        pieces_view(pieces@) == split_spaces(trim(line@)),
{
    let n = line.unicode_len();
    let mut chars: Vec<char> = Vec::new();
    let mut i: usize = 0;
    while i < n
        invariant
            i <= n,
            n == line@.len(),
            chars@ == line@.take(i as int),
        decreases n - i,
    {
        chars.push(line.get_char(i));
        i += 1;
        assert(chars@ =~= line@.take(i as int));
    }
    assert(chars@ =~= line@);
    let ghost s = line@;
    // leading white space
    let mut start: usize = 0;
    assert(s.subrange(0, n as int) =~= s);
    while start < n && white_space(chars[start])
        invariant
            start <= n,
            n == s.len(),
            chars@ == s,
            trim_start(s) == trim_start(s.subrange(start as int, n as int)),
        decreases n - start,
    {
        assert(s.subrange(start as int, n as int).drop_first() =~= s.subrange(start + 1, n as int));
        start += 1;
    }
    assert(trim_start(s) == s.subrange(start as int, n as int));
    // trailing white space
    let mut end: usize = n;
    while end > start && white_space(chars[end - 1])
        invariant
            start <= end <= n,
            n == s.len(),
            chars@ == s,
            trim(s) == trim_end(s.subrange(start as int, end as int)),
        decreases end,
    {
        assert(s.subrange(start as int, end as int).drop_last() =~= s.subrange(start as int, end - 1));
        end -= 1;
    }
    let ghost t = s.subrange(start as int, end as int);
    assert(trim(s) == t);
    // pieces between single spaces
    let mut done: Vec<Vec<char>> = Vec::new();
    let mut current: Vec<char> = Vec::new();
    let mut i: usize = start;
    assert(t.take(0) =~= Seq::<char>::empty());
    assert(pieces_view(done@).push(current@) =~= seq![Seq::<char>::empty()]);
    while i < end
        invariant
            start <= i <= end <= n,
            n == s.len(),
            chars@ == s,
            t == s.subrange(start as int, end as int),
            split_spaces(t.take(i - start)) == pieces_view(done@).push(current@),
        decreases end - i,
    {
        let c = chars[i];
        let ghost k = i - start;
        assert(t.take(k + 1).drop_last() =~= t.take(k));
        assert(t.take(k + 1).last() == c);
        let ghost before_done = done@;
        let ghost before_current = current@;
        if c == ' ' {
            let piece = current;
            done.push(piece);
            current = Vec::new();
            assert(pieces_view(done@) =~= pieces_view(before_done).push(before_current));
            assert(pieces_view(done@).push(current@) =~= pieces_view(before_done).push(before_current).push(Seq::empty()));
        } else {
            current.push(c);
            assert(pieces_view(done@).push(current@) =~= pieces_view(before_done).push(before_current).update(
                before_done.len() as int,
                before_current.push(c),
            ));
        }
        i += 1;
    }
    assert(t.take(end - start) =~= t);
    let ghost before_done = done@;
    done.push(current);
    assert(pieces_view(done@) =~= pieces_view(before_done).push(current@));
    done
}

/// Reads a move from a line of input: trims white space from both ends, splits at single
/// spaces, and reads two pieces as a row and a column.
pub fn parse_move(line: &str) -> (input: MoveInput)
    ensures
        input == move_input(line@),
{
    let pieces = split_line(line);
    assert(pieces@.len() == pieces_view(pieces@).len());
    if pieces.len() != 2 {
        return MoveInput::WrongCount;
    }
    assert(pieces_view(pieces@)[0] == pieces@[0]@);
    assert(pieces_view(pieces@)[1] == pieces@[1]@);
    let row = parse_piece(pieces[0].as_slice());
    let column = parse_piece(pieces[1].as_slice());
    match (row, column) {
        (Some(row), Some(column)) => MoveInput::Coordinates { row, column },
        _ => MoveInput::NotNumbers,
    }
}

/// What the line `line` says about a column to drop a stone in: the trimmed
/// line must be one piece, and a number.
pub open spec fn column_input(line: Seq<char>) -> ColumnInput {
    let pieces = split_spaces(trim(line));
    if pieces.len() != 1 {
        ColumnInput::WrongCount
    } else {
        match parse_usize(pieces[0]) {
            Some(column) => ColumnInput::Column(column),
            None => ColumnInput::NotNumber,
        }
    }
}

/// Reads a column from a line of input: trims white space from both ends and reads what is
/// left, which must hold no space, as a column.
pub fn parse_column(line: &str) -> (input: ColumnInput)
    ensures
        input == column_input(line@),
{
    let pieces = split_line(line);
    assert(pieces@.len() == pieces_view(pieces@).len());
    if pieces.len() != 1 {
        return ColumnInput::WrongCount;
    }
    assert(pieces_view(pieces@)[0] == pieces@[0]@);
    match parse_piece(pieces[0].as_slice()) {
        Some(column) => ColumnInput::Column(column),
        None => ColumnInput::NotNumber,
    }
}
/// The decimal digit `d` is one digit character of value `d`.
proof fn lemma_digit_text(d: nat)
    requires
        d < 10,
    ensures
        digit_text(d).len() == 1,
        is_digit(digit_text(d)[0]),
        (digit_text(d)[0] as u32) - ('0' as u32) == d,
{
    reveal_strlit("0");
    reveal_strlit("1");
    reveal_strlit("2");
    reveal_strlit("3");
    reveal_strlit("4");
    reveal_strlit("5");
    reveal_strlit("6");
    reveal_strlit("7");
    reveal_strlit("8");
    reveal_strlit("9");
}

/// The decimal text of `n` is a non-empty run of digits whose value is `n`.
proof fn lemma_decimal_digits(n: nat)
    ensures
        decimal_text(n).len() > 0,
        all_digits(decimal_text(n)),
        digits_value(decimal_text(n)) == n,
    decreases n,
{
    if n < 10 {
        let s = decimal_text(n);
        lemma_digit_text(n);
        assert(s.drop_last() =~= Seq::<char>::empty());
        assert(digits_value(Seq::<char>::empty()) == 0);
        assert(s.last() == s[0]);
        assert(digits_value(s) == digits_value(s.drop_last()) * 10 + ((s.last() as u32) - ('0' as u32)) as nat);
    } else {
        let a = decimal_text(n / 10);
        let b = digit_text(n % 10);
        lemma_decimal_digits(n / 10);
        lemma_digit_text(n % 10);
        assert(decimal_text(n) == a + b);
        assert((a + b).drop_last() =~= a);
        assert((a + b).last() == b[0]);
        assert forall|i: int| 0 <= i < (a + b).len() implies is_digit(#[trigger] (a + b)[i]) by {
            if i < a.len() {
                assert((a + b)[i] == a[i]);
            }
        }
        assert(digits_value(a + b) == digits_value(a) * 10 + (n % 10));
        assert((n / 10) * 10 + n % 10 == n);
    }
}

/// Every number reads back from its decimal text: for every `n: usize`,
/// [`parse_usize`] of the decimal digits of `n` is `n`.
pub proof fn lemma_parse_decimal(n: usize)
    ensures
        parse_usize(decimal_text(n as nat)) == Some(n),
{
    lemma_decimal_digits(n as nat);
    let s = decimal_text(n as nat);
    assert(is_digit(s[0]));
    assert(unsigned_digits(s) == s);
}

/// A move typed as two numbers in decimal separated by one space is read as
/// those numbers: for every `row` and `column`, the line holding the decimal
/// text of `row`, a space and the decimal text of `column` gives
/// [`MoveInput::Coordinates`] with that row and column.
pub proof fn lemma_move_of_decimals(row: usize, column: usize)
    ensures
        move_input(decimal_text(row as nat) + seq![' '] + decimal_text(column as nat))
            == (MoveInput::Coordinates { row, column }),
{
    let a = decimal_text(row as nat);
    let b = decimal_text(column as nat);
    let line = a + seq![' '] + b;
    lemma_decimal_digits(row as nat);
    lemma_decimal_digits(column as nat);
    lemma_parse_decimal(row);
    lemma_parse_decimal(column);
    assert(is_digit(a[0]));
    assert(line[0] == a[0]);
    assert(is_digit(b[b.len() - 1]));
    assert(line.last() == b[b.len() - 1]);
    assert(trim_start(line) == line);
    assert(trim_end(line) == line);
    assert(free_of(a, ' '));
    assert(free_of(b, ' '));
    lemma_split_on_single(a, ' ');
    lemma_split_on_piece(a, b, ' ');
    assert(split_spaces(trim(line)) =~= seq![a, b]);
}

/// A column typed as a number in decimal is read as that number.
pub proof fn lemma_column_of_decimal(column: usize)
    ensures
        column_input(decimal_text(column as nat)) == ColumnInput::Column(column),
{
    let a = decimal_text(column as nat);
    lemma_decimal_digits(column as nat);
    lemma_parse_decimal(column);
    assert(is_digit(a[0]));
    assert(is_digit(a[a.len() - 1]));
    assert(trim_start(a) == a);
    assert(trim_end(a) == a);
    assert(free_of(a, ' '));
    lemma_split_on_single(a, ' ');
}

} // verus!
