//! The textual form of the input and of the output: decimal numbers on a
//! line, separated by single spaces.

use vstd::prelude::*;

verus! {

/// The byte that separates two numbers on a line.
pub const SPACE: u8 = 32;

/// The byte that ends a line.
pub const NEWLINE: u8 = 10;

/// The sign that may stand before the digits of a number.
pub const PLUS: u8 = 43;

/// The digit zero; the other nine digits follow it.
pub const DIGIT_ZERO: u8 = 48;

/// `b` is one of the ten decimal digits.
pub open spec fn is_digit(b: u8) -> bool {
    DIGIT_ZERO <= b <= DIGIT_ZERO + 9
}

/// Every byte of `text` is a decimal digit.
pub open spec fn all_digits(text: Seq<u8>) -> bool {
    forall|i: int| 0 <= i < text.len() ==> is_digit(#[trigger] text[i])
}

/// The number that a digit stands for.
pub open spec fn digit_value(b: u8) -> nat {
    if is_digit(b) {
        (b - DIGIT_ZERO) as nat
    } else {
        0
    }
}

/// The number that a run of digits stands for, the most significant first.
pub open spec fn decimal_value(digits: Seq<u8>) -> nat
    decreases digits.len(),
{
    if digits.len() == 0 {
        0
    } else {
        10 * decimal_value(digits.drop_last()) + digit_value(digits.last())
    }
}

/// `text` without the sign that may lead it.
pub open spec fn unsigned_part(text: Seq<u8>) -> Seq<u8> {
    if text.len() > 0 && text[0] == PLUS {
        text.skip(1)
    } else {
        text
    }
}

/// The number that `text` denotes: an optional plus sign and then one or
/// more digits, nothing else, with a value that fits the machine word.
pub open spec fn number_of(text: Seq<u8>) -> Option<usize> {
    let digits = unsigned_part(text);
    if digits.len() > 0 && all_digits(digits) && decimal_value(digits) <= usize::MAX {
        Some(decimal_value(digits) as usize)
    } else {
        None
    }
}

/// The digits of `n`, the most significant first, without leading zeros.
pub open spec fn decimal_digits(n: nat) -> Seq<u8>
    decreases n,
{
    if n < 10 {
        seq![(DIGIT_ZERO + n) as u8]
    } else {
        decimal_digits(n / 10).push((DIGIT_ZERO + n % 10) as u8)
    }
}

/// A run of digits is worth at least as much as any of its beginnings.
proof fn lemma_value_grows_with_length(digits: Seq<u8>, k: int)
    requires
        0 <= k <= digits.len(),
    ensures
        decimal_value(digits.take(k)) <= decimal_value(digits),
    decreases digits.len(),
{
    if k == digits.len() {
        assert(digits.take(k) =~= digits);
    } else {
        assert(digits.take(k) =~= digits.drop_last().take(k));
        lemma_value_grows_with_length(digits.drop_last(), k);
    }
}

/// What `decimal_digits` writes, `number_of` reads back.
pub proof fn lemma_digits_denote_their_number(n: nat)
    ensures
        decimal_digits(n).len() > 0,
        all_digits(decimal_digits(n)),
        decimal_value(decimal_digits(n)) == n,
        n <= usize::MAX ==> number_of(decimal_digits(n)) == Some(n as usize),
    decreases n,
{
    let d = decimal_digits(n);
    if n < 10 {
        assert(decimal_value(d.drop_last()) == 0);
    } else {
        lemma_digits_denote_their_number(n / 10);
        assert(d.drop_last() =~= decimal_digits(n / 10));
    }
}

/// Reads a number: an optional plus sign and then one or more digits.
/// Anything else, and a value too large for the machine word, gives `None`.
pub fn parse_number(text: &[u8]) -> (r: Option<usize>)
    ensures
        r == number_of(text@),
{
    let n: usize = text.len();
    let start: usize = if n > 0 && text[0] == PLUS {
        1
    } else {
        0
    };
    if start == n {
        return None;
    }
    let ghost digits = unsigned_part(text@);
    let mut value: usize = 0;
    let mut i: usize = start;
    while i < n
        invariant
            start <= i <= n,
            n == text@.len(),
            digits == unsigned_part(text@),
            digits == text@.skip(start as int),
            all_digits(digits.take(i - start)),
            value == decimal_value(digits.take(i - start)),
        decreases n - i,
    {
        let b: u8 = text[i];
        if b < DIGIT_ZERO || b > DIGIT_ZERO + 9 {
            assert(!is_digit(digits[i - start]));
            return None;
        }
        let ghost longer = digits.take(i + 1 - start);
        proof {
            assert(longer.drop_last() =~= digits.take(i - start));
            lemma_value_grows_with_length(digits, i + 1 - start);
        }
        let shifted = match value.checked_mul(10) {
            Some(shifted) => shifted,
            None => {
                return None;
            },
        };
        value = match shifted.checked_add((b - DIGIT_ZERO) as usize) {
            Some(sum) => sum,
            None => {
                return None;
            },
        };
        i += 1;
    }
    proof {
        assert(digits.take(n - start) =~= digits);
    }
    Some(value)
}

/// Appends the digits of `value` to `out`.
pub fn push_decimal(out: &mut Vec<u8>, value: usize)
    ensures
        final(out)@ == old(out)@ + decimal_digits(value as nat),
{
    let mut reversed: Vec<u8> = Vec::new();
    let mut rest: usize = value;
    loop
        invariant_except_break
            decimal_digits(value as nat) == decimal_digits(rest as nat) + reversed@.reverse(),
        ensures
            decimal_digits(value as nat) == reversed@.reverse(),
        decreases rest,
    {
        let digit: u8 = DIGIT_ZERO + (rest % 10) as u8;
        reversed.push(digit);
        if rest < 10 {
            break ;
        }
        rest = rest / 10;
    }
    let ghost before = out@;
    let mut k: usize = reversed.len();
    while k > 0
        invariant
            k <= reversed@.len(),
            out@ == before + reversed@.reverse().take(reversed@.len() - k),
        decreases k,
    {
        k -= 1;
        out.push(reversed[k]);
    }
}

/// The pieces of `line` between its spaces, in order. A line without a
/// space is one piece, and two spaces in a row hold an empty piece.
pub open spec fn fields(line: Seq<u8>) -> Seq<Seq<u8>>
    decreases line.len(),
{
    if line.len() == 0 {
        seq![Seq::<u8>::empty()]
    } else {
        let before = fields(line.drop_last());
        if line.last() == SPACE {
            before.push(Seq::<u8>::empty())
        } else {
            before.drop_last().push(before.last().push(line.last()))
        }
    }
}

/// The numbers on `line`, if every piece between its spaces is a number.
pub open spec fn numbers_of(line: Seq<u8>) -> Option<Seq<usize>> {
    let pieces = fields(line);
    if forall|k: int| 0 <= k < pieces.len() ==> number_of(#[trigger] pieces[k]) is Some {
        Some(pieces.map_values(|piece: Seq<u8>| number_of(piece).unwrap()))
    } else {
        None
    }
}

/// The values as digits, each but the first after a space.
pub open spec fn joined(values: Seq<usize>) -> Seq<u8>
    decreases values.len(),
{
    if values.len() == 0 {
        Seq::<u8>::empty()
    } else if values.len() == 1 {
        decimal_digits(values[0] as nat)
    } else {
        joined(values.drop_last()) + seq![SPACE] + decimal_digits(values.last() as nat)
    }
}

/// The line that shows `values`: the values joined, then the end of line.
pub open spec fn rendered(values: Seq<usize>) -> Seq<u8> {
    joined(values).push(NEWLINE)
}

/// A piece that a space has closed stays as it is however the line goes on.
proof fn lemma_closed_fields_stay(line: Seq<u8>, j: int, k: int)
    requires
        0 <= j <= line.len(),
        0 <= k < fields(line.take(j)).len() - 1,
    ensures
        k < fields(line).len() - 1,
        fields(line)[k] == fields(line.take(j))[k],
    decreases line.len() - j,
{
    if j == line.len() {
        assert(line.take(j) =~= line);
    } else {
        assert(line.drop_last().take(j) =~= line.take(j));
        lemma_closed_fields_stay(line.drop_last(), j, k);
    }
}

/// A piece without a space that follows a space is the last piece.
proof fn lemma_fields_of_extension(line: Seq<u8>, piece: Seq<u8>)
    requires
        forall|i: int| 0 <= i < piece.len() ==> #[trigger] piece[i] != SPACE,
    ensures
        fields(line + seq![SPACE] + piece) == fields(line).push(piece),
        fields(piece) == seq![piece],
    decreases piece.len(),
{
    let whole = line + seq![SPACE] + piece;
    if piece.len() == 0 {
        assert(piece =~= Seq::<u8>::empty());
        assert(whole.drop_last() =~= line);
    } else {
        let shorter = piece.drop_last();
        lemma_fields_of_extension(line, shorter);
        assert(whole.drop_last() =~= line + seq![SPACE] + shorter);
        assert(shorter.push(piece.last()) =~= piece);
    }
}

/// The pieces of joined values are the digits of each value.
proof fn lemma_fields_of_joined(values: Seq<usize>)
    requires
        values.len() > 0,
    ensures
        fields(joined(values)) == values.map_values(|v: usize| decimal_digits(v as nat)),
    decreases values.len(),
{
    let digits = decimal_digits(values.last() as nat);
    lemma_digits_denote_their_number(values.last() as nat);
    if values.len() == 1 {
        lemma_fields_of_extension(Seq::<u8>::empty(), digits);
    } else {
        lemma_fields_of_joined(values.drop_last());
        lemma_fields_of_extension(joined(values.drop_last()), digits);
    }
}

/// What is written for one or more values reads back as these values.
pub proof fn lemma_joined_reads_back(values: Seq<usize>)
    requires
        values.len() > 0,
    ensures
        numbers_of(joined(values)) == Some(values),
{
    let pieces = fields(joined(values));
    lemma_fields_of_joined(values);
    assert forall|k: int| 0 <= k < pieces.len() implies number_of(#[trigger] pieces[k]) == Some(values[k]) by {
        lemma_digits_denote_their_number(values[k] as nat);
    }
}

/// Reads the numbers on a line. They are separated by single spaces; if any
/// piece between two spaces is not a number, the line is not read.
pub fn parse_numbers(line: &[u8]) -> (r: Option<Vec<usize>>)
    ensures
        match r {
            Some(numbers) => numbers_of(line@) == Some(numbers@),
            None => numbers_of(line@) is None,
        },
{
    let n: usize = line.len();
    let mut numbers: Vec<usize> = Vec::new();
    let mut start: usize = 0;
    let mut i: usize = 0;
    while i < n
        invariant
            start <= i <= n,
            n == line@.len(),
            fields(line@.take(i as int)).len() == numbers@.len() + 1,
            fields(line@.take(i as int)).last() == line@.subrange(start as int, i as int),
            forall|k: int|
                0 <= k < numbers@.len() ==> number_of(#[trigger] fields(line@.take(i as int))[k]) == Some(
                    numbers@[k],
                ),
        decreases n - i,
    {
        proof {
            assert(line@.take(i + 1).drop_last() =~= line@.take(i as int));
        }
        if line[i] == SPACE {
            match parse_number(&line[start..i]) {
                Some(number) => {
                    numbers.push(number);
                },
                None => {
                    proof {
                        lemma_closed_fields_stay(line@, i + 1, numbers@.len() as int);
                    }
                    return None;
                },
            }
            start = i + 1;
        } else {
            proof {
                assert(line@.subrange(start as int, i + 1) =~= line@.subrange(start as int, i as int).push(
                    line@[i as int],
                ));
            }
        }
        i += 1;
    }
    proof {
        assert(line@.take(n as int) =~= line@);
    }
    match parse_number(&line[start..n]) {
        Some(number) => {
            numbers.push(number);
            Some(numbers)
        },
        None => None,
    }
}

/// Writes the values on one line, separated by single spaces.
pub fn render(values: &Vec<usize>) -> (line: Vec<u8>)
    ensures
        line@ == rendered(values@),
{
    let mut line: Vec<u8> = Vec::new();
    let mut i: usize = 0;
    while i < values.len()
        invariant
            i <= values@.len(),
            line@ == joined(values@.take(i as int)),
        decreases values@.len() - i,
    {
        proof {
            assert(values@.take(i + 1).drop_last() =~= values@.take(i as int));
        }
        if i > 0 {
            line.push(SPACE);
        }
        push_decimal(&mut line, values[i]);
        proof {
            if i > 0 {
                assert(line@ =~= joined(values@.take(i as int)) + seq![SPACE] + decimal_digits(
                    values@[i as int] as nat,
                ));
            }
        }
        i += 1;
    }
    proof {
        assert(values@.take(values@.len() as int) =~= values@);
    }
    line.push(NEWLINE);
    line
}

} // verus!
