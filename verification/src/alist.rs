//! The text format in which a code description is exchanged.
//!
//! The text is a sequence of lines, each a sequence of decimal numbers
//! separated by blanks:
//!
//! ```text
//! N M
//! dv dc
//! (the degree of each bit)
//! (the degree of each check)
//! (for each of the M checks, one line: the bits incident to it, counted from 1)
//! ```
//!
//! The two lines of degrees are read and not used. Lines without a number at
//! the end of the text are ignored.

use crate::code::{rows_of, CodeError, LDPCCode};
use crate::graph::TannerGraph;
use crate::incidence::{regular_description, tanner_graph_of};
use vstd::prelude::*;

verus! {

/// The byte that ends a line.
pub const NEWLINE: u8 = 10;

/// The byte separates words within a line: a space, a tab, a carriage
/// return, a vertical tab or a form feed.
pub open spec fn is_blank(byte: u8) -> bool {
    byte == 32 || byte == 9 || byte == 13 || byte == 11 || byte == 12
}

/// The byte is a decimal digit.
pub open spec fn is_digit(byte: u8) -> bool {
    48 <= byte <= 57
}

/// The lines of a text: what stands between its line ends.
pub open spec fn lines_of(text: Seq<u8>) -> Seq<Seq<u8>>
    decreases text.len(),
{
    if text.len() == 0 {
        seq![Seq::empty()]
    } else {
        let before = lines_of(text.drop_last());
        if text.last() == NEWLINE {
            before.push(Seq::empty())
        } else {
            before.drop_last().push(before.last().push(text.last()))
        }
    }
}

/// The words of a line: its longest runs of bytes that are not blank.
pub open spec fn words_of(line: Seq<u8>) -> Seq<Seq<u8>>
    decreases line.len(),
{
    if line.len() == 0 {
        Seq::empty()
    } else {
        let before = words_of(line.drop_last());
        if is_blank(line.last()) {
            before
        } else if line.len() >= 2 && !is_blank(line[line.len() - 2]) {
            before.drop_last().push(before.last().push(line.last()))
        } else {
            before.push(seq![line.last()])
        }
    }
}

/// The number that a word of digits denotes in base ten.
pub open spec fn decimal_value(word: Seq<u8>) -> int
    decreases word.len(),
{
    if word.len() == 0 {
        0
    } else {
        10 * decimal_value(word.drop_last()) + (word.last() - 48)
    }
}

/// The word is made of digits only.
pub open spec fn all_digits(word: Seq<u8>) -> bool {
    forall|t: int| 0 <= t < word.len() ==> is_digit(#[trigger] word[t])
}

/// The word is a number that the machine can hold: one digit or more, and a
/// value of at most `usize::MAX`.
pub open spec fn is_number(word: Seq<u8>) -> bool {
    &&& word.len() > 0
    &&& all_digits(word)
    &&& decimal_value(word) <= usize::MAX
}

/// The numbers that the words of a line denote, where every word is a number.
pub open spec fn numbers_of(line: Seq<u8>) -> Option<Seq<usize>> {
    let words = words_of(line);
    if forall|k: int| 0 <= k < words.len() ==> is_number(#[trigger] words[k]) {
        Some(Seq::new(words.len(), |k: int| decimal_value(words[k]) as usize))
    } else {
        None
    }
}

/// The numbers of every line of a text, where every word of the text is a
/// number.
pub open spec fn table_of(text: Seq<u8>) -> Option<Seq<Seq<usize>>> {
    let lines = lines_of(text);
    if forall|r: int| 0 <= r < lines.len() ==> numbers_of(#[trigger] lines[r]) is Some {
        Some(Seq::new(lines.len(), |r: int| numbers_of(lines[r]).unwrap()))
    } else {
        None
    }
}

/// The table without the rows that hold no number at its end.
pub open spec fn without_empty_tail(table: Seq<Seq<usize>>) -> Seq<Seq<usize>>
    decreases table.len(),
{
    if table.len() > 0 && table.last().len() == 0 {
        without_empty_tail(table.drop_last())
    } else {
        table
    }
}

/// The table has the layout of a code description: two numbers in each of
/// its first two rows, two more rows, then one row for each of the checks
/// that its first row announces, with no bit counted from less than 1.
pub open spec fn laid_out(table: Seq<Seq<usize>>) -> bool {
    &&& table.len() >= 4
    &&& table[0].len() == 2
    &&& table[1].len() == 2
    &&& table.len() == table[0][1] + 4
    &&& forall|r: int, k: int|
        4 <= r < table.len() && 0 <= k < table[r].len() ==> (#[trigger] table[r][k]) >= 1
}

/// The incidence lists that a table holds: its rows from the fifth on, every
/// bit counted from 0.
pub open spec fn listed_checks(table: Seq<Seq<usize>>) -> Seq<Seq<usize>> {
    Seq::new(
        (table.len() - 4) as nat,
        |c: int| Seq::new(table[c + 4].len(), |j: int| (table[c + 4][j] - 1) as usize),
    )
}

/// The Tanner graph that a text describes, where it describes a regular code.
pub open spec fn described_graph(text: Seq<u8>) -> Option<TannerGraph> {
    match table_of(text) {
        None => None,
        Some(full) => {
            let table = without_empty_tail(full);
            if laid_out(table) && regular_description(
                table[0][0] as nat,
                table[0][1] as nat,
                table[1][0] as nat,
                table[1][1] as nat,
                listed_checks(table),
            ) {
                Some(
                    tanner_graph_of(
                        table[0][0] as nat,
                        table[0][1] as nat,
                        table[1][0] as nat,
                        table[1][1] as nat,
                        listed_checks(table),
                    ),
                )
            } else {
                None
            }
        },
    }
}

/// A word of digits denotes no negative number, and no smaller one when
/// another digit follows.
proof fn lemma_decimal_value_grows(word: Seq<u8>)
    requires
        all_digits(word),
    ensures
        0 <= decimal_value(word),
        word.len() > 0 ==> decimal_value(word.drop_last()) <= decimal_value(word),
    decreases word.len(),
{
    if word.len() > 0 {
        assert forall|t: int| 0 <= t < word.drop_last().len() implies is_digit(
            #[trigger] word.drop_last()[t],
        ) by {}
        lemma_decimal_value_grows(word.drop_last());
    }
}

/// A word that is no number is no number either with another byte behind it,
/// unless it was empty.
proof fn lemma_longer_word_is_no_number(word: Seq<u8>, byte: u8)
    requires
        word.len() > 0,
        !is_number(word),
    ensures
        !is_number(word.push(byte)),
{
    let longer = word.push(byte);
    assert(longer.drop_last() =~= word);
    if all_digits(longer) {
        assert forall|t: int| 0 <= t < word.len() implies is_digit(#[trigger] word[t]) by {}
        lemma_decimal_value_grows(longer);
    }
}

/// No word of a line is empty, and the last word ends with the last byte of
/// the line where that is not blank.
proof fn lemma_words_are_not_empty(line: Seq<u8>)
    ensures
        forall|k: int| 0 <= k < words_of(line).len() ==> (#[trigger] words_of(line)[k]).len() > 0,
        line.len() > 0 && !is_blank(line.last()) ==> words_of(line).len() > 0,
    decreases line.len(),
{
    if line.len() > 0 {
        let before = words_of(line.drop_last());
        lemma_words_are_not_empty(line.drop_last());
    }
}

/// A word that is no number among the words of the first `i` bytes of a
/// line leaves a word that is no number among the words of the whole line.
proof fn lemma_bad_word_stays(line: Seq<u8>, i: int, k: int)
    requires
        0 <= i <= line.len(),
        0 <= k < words_of(line.take(i)).len(),
        !is_number(words_of(line.take(i))[k]),
    ensures
        numbers_of(line) is None,
    decreases line.len() - i,
{
    if i == line.len() {
        assert(line.take(i) =~= line);
    } else {
        let shorter = line.take(i);
        let longer = line.take(i + 1);
        assert(longer.drop_last() =~= shorter);
        lemma_words_are_not_empty(shorter);
        if !is_blank(longer.last()) && longer.len() >= 2 && !is_blank(longer[longer.len() - 2])
            && k == words_of(shorter).len() - 1 {
            lemma_longer_word_is_no_number(words_of(shorter)[k], longer.last());
        }
        lemma_bad_word_stays(line, i + 1, k);
    }
}

/// Reads the numbers of a line. There is no result where a word is not a
/// number: where it holds a byte that is no digit, or denotes more than the
/// machine can hold.
pub fn parse_numbers(line: &[u8]) -> (numbers: Option<Vec<usize>>)
    ensures
        numbers is Some <==> numbers_of(line@) is Some,
        numbers matches Some(found) ==> found@ == numbers_of(line@).unwrap(),
{
    let ghost bytes = line@;
    let mut found: Vec<usize> = Vec::new();
    let mut current: usize = 0;
    let mut in_word = false;
    let mut i: usize = 0;
    while i < line.len()
        invariant
            i <= line.len(),
            bytes == line@,
            in_word <==> i > 0 && !is_blank(bytes[i - 1]),
            words_of(bytes.take(i as int)).len() == found.len() + if in_word {
                1int
            } else {
                0int
            },
            forall|k: int|
                0 <= k < found.len() ==> is_number(#[trigger] words_of(bytes.take(i as int))[k])
                    && decimal_value(words_of(bytes.take(i as int))[k]) == found[k],
            in_word ==> is_number(words_of(bytes.take(i as int)).last()) && decimal_value(
                words_of(bytes.take(i as int)).last(),
            ) == current,
        decreases line.len() - i,
    {
        let ghost shorter = bytes.take(i as int);
        let ghost longer = bytes.take(i + 1);
        let ghost before = words_of(shorter);
        let byte = line[i];
        proof {
            assert(longer.drop_last() =~= shorter);
            lemma_words_are_not_empty(longer);
        }
        if byte == 32 || byte == 9 || byte == 13 || byte == 11 || byte == 12 {
            if in_word {
                found.push(current);
                in_word = false;
            }
        } else if byte < 48 || byte > 57 {
            proof {
                let k = words_of(longer).len() - 1;
                lemma_bad_word_stays(bytes, i + 1, k);
            }
            return None;
        } else {
            let digit = (byte - 48) as usize;
            if in_word {
                let ghost word = before.last().push(byte);
                proof {
                    assert(word.drop_last() =~= before.last());
                }
                let tenfold = current.checked_mul(10);
                let next = match tenfold {
                    Some(product) => product.checked_add(digit),
                    None => None,
                };
                match next {
                    Some(value) => {
                        current = value;
                    },
                    None => {
                        proof {
                            lemma_bad_word_stays(bytes, i + 1, words_of(longer).len() - 1);
                        }
                        return None;
                    },
                }
            } else {
                proof {
                    assert(decimal_value(seq![byte]) == digit) by {
                        reveal_with_fuel(decimal_value, 2);
                    }
                }
                current = digit;
                in_word = true;
            }
        }
        i += 1;
    }
    if in_word {
        found.push(current);
    }
    proof {
        assert(bytes.take(i as int) =~= bytes);
    }
    Some(found)
}

/// Cuts a text into its lines.
pub fn split_lines(text: &[u8]) -> (lines: Vec<Vec<u8>>)
    ensures
        rows_of(lines@) == lines_of(text@),
{
    let mut lines: Vec<Vec<u8>> = Vec::new();
    lines.push(Vec::new());
    let mut i: usize = 0;
    while i < text.len()
        invariant
            i <= text.len(),
            lines.len() > 0,
            rows_of(lines@) == lines_of(text@.take(i as int)),
        decreases text.len() - i,
    {
        assert(text@.take(i + 1).drop_last() =~= text@.take(i as int));
        let byte = text[i];
        if byte == NEWLINE {
            lines.push(Vec::new());
        } else {
            let last = lines.len() - 1;
            lines[last].push(byte);
        }
        i += 1;
    }
    assert(text@.take(i as int) =~= text@);
    lines
}

impl LDPCCode {
    /// Loads a code from the text of its description. A text with a missing
    /// field or one too many, with a word that is no number, with a bit
    /// counted from 0, or whose description is not that of a regular code is
    /// refused.
    #[verifier::loop_isolation(false)]
    pub fn from_alist(text: &[u8]) -> (res: Result<LDPCCode, CodeError>)
        ensures
            res is Ok <==> described_graph(text@) is Some,
            res matches Ok(code) ==> code@ == described_graph(text@).unwrap(),
    {
        let lines = split_lines(text);
        let ghost line_seqs = lines_of(text@);
        let mut table: Vec<Vec<usize>> = Vec::new();
        let mut r: usize = 0;
        while r < lines.len()
            invariant
                r <= lines.len(),
                line_seqs == lines_of(text@),
                rows_of(lines@) == line_seqs,
                table.len() == r,
                forall|k: int|
                    0 <= k < r ==> numbers_of(#[trigger] line_seqs[k]) == Some(table[k]@),
            decreases lines.len() - r,
        {
            assert(line_seqs[r as int] == lines[r as int]@);
            match parse_numbers(lines[r].as_slice()) {
                Some(numbers) => {
                    table.push(numbers);
                },
                None => {
                    return Err(CodeError::MalformedCode);
                },
            }
            r += 1;
        }
        let ghost full = table_of(text@).unwrap();
        assert(rows_of(table@) =~= full);
        while table.len() > 0 && table[table.len() - 1].len() == 0
            invariant
                without_empty_tail(rows_of(table@)) == without_empty_tail(full),
            decreases table.len(),
        {
            let ghost before = rows_of(table@);
            table.pop();
            assert(rows_of(table@) =~= before.drop_last());
        }
        let ghost trimmed = without_empty_tail(full);
        if table.len() < 4 {
            return Err(CodeError::MalformedCode);
        }
        if table[0].len() != 2 || table[1].len() != 2 {
            return Err(CodeError::MalformedCode);
        }
        let n = table[0][0];
        let m = table[0][1];
        let dv = table[1][0];
        let dc = table[1][1];
        if table.len() - 4 != m {
            return Err(CodeError::MalformedCode);
        }
        let mut checks: Vec<Vec<usize>> = Vec::new();
        let mut c: usize = 0;
        while c < m
            invariant
                c <= m,
                table.len() == m + 4,
                rows_of(table@) == trimmed,
                checks.len() == c,
                forall|a: int, k: int|
                    4 <= a < c + 4 && 0 <= k < trimmed[a].len() ==> (#[trigger] trimmed[a][k]) >= 1,
                forall|a: int|
                    0 <= a < c ==> (#[trigger] checks[a])@ == Seq::new(
                        trimmed[a + 4].len(),
                        |j: int| (trimmed[a + 4][j] - 1) as usize,
                    ),
            decreases m - c,
        {
            let width = table[c + 4].len();
            let mut row: Vec<usize> = Vec::new();
            let mut j: usize = 0;
            while j < width
                invariant
                    j <= width,
                    c < m,
                    table.len() == m + 4,
                    width == table[c + 4].len(),
                    trimmed[c + 4] == table[c + 4]@,
                    forall|k: int| 0 <= k < j ==> (#[trigger] trimmed[c + 4][k]) >= 1,
                    row@ == Seq::new(j as nat, |k: int| (trimmed[c + 4][k] - 1) as usize),
                decreases width - j,
            {
                let bit = table[c + 4][j];
                if bit == 0 {
                    return Err(CodeError::MalformedCode);
                }
                row.push(bit - 1);
                j += 1;
            }
            checks.push(row);
            c += 1;
        }
        assert(rows_of(checks@) =~= listed_checks(trimmed));
        LDPCCode::new(n, m, dv, dc, checks)
    }
}

} // verus!
