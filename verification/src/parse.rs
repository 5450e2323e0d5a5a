//! The text form of an instance: the capacity on the first line, then one
//! item type per line as value, weight, setup cost and setup time.

use vstd::prelude::*;
use vstd::string::StringSliceAdditionalSpecFns;
use vstd::utf8::encode_utf8;
use crate::error::{CeError, LineFault};
use crate::item::{Item, ItemWithSetup};
use crate::setups::KnapsackWithSetups;

verus! {

/// The three bytes are the UTF-8 form of a white space character that takes
/// three: U+1680, U+2000 to U+200A, U+2028, U+2029, U+202F, U+205F or U+3000.
pub open spec fn is_wide_space(a: u8, b: u8, c: u8) -> bool {
    ||| a == 0xE1 && b == 0x9A && c == 0x80
    ||| a == 0xE2 && b == 0x80 && (0x80 <= c <= 0x8A || c == 0xA8 || c == 0xA9 || c == 0xAF)
    ||| a == 0xE2 && b == 0x81 && c == 0x9F
    ||| a == 0xE3 && b == 0x80 && c == 0x80
}

/// The number of bytes of the white space character that begins at `at`, or
/// 0 where none begins there. White space is every character that Unicode
/// gives the property White_Space, in its UTF-8 form: U+0009 to U+000D and
/// U+0020 in one byte, U+0085 and U+00A0 in two, the others in three.
pub open spec fn space_at(text: Seq<u8>, at: int) -> int {
    if at < 0 || at >= text.len() {
        0
    } else if text[at] == 32 || 9 <= text[at] <= 13 {
        1
    } else if at + 1 < text.len() && text[at] == 0xC2 && (text[at + 1] == 0x85 || text[at + 1]
        == 0xA0) {
        2
    } else if at + 2 < text.len() && is_wide_space(text[at], text[at + 1], text[at + 2]) {
        3
    } else {
        0
    }
}

/// The byte is an ASCII digit.
pub open spec fn is_digit(b: u8) -> bool {
    48 <= b <= 57
}

/// The bytes after the last line feed of `text`.
pub open spec fn open_line(text: Seq<u8>) -> Seq<u8>
    decreases text.len(),
{
    if text.len() == 0 || text.last() == 10 {
        Seq::empty()
    } else {
        open_line(text.drop_last()).push(text.last())
    }
}

/// The lines of `text` that a line feed ends, in their order.
pub open spec fn closed_lines(text: Seq<u8>) -> Seq<Seq<u8>>
    decreases text.len(),
{
    if text.len() == 0 {
        Seq::empty()
    } else if text.last() == 10 {
        closed_lines(text.drop_last()).push(open_line(text.drop_last()))
    } else {
        closed_lines(text.drop_last())
    }
}

/// The lines of a text: what stands between its line feeds; what follows the
/// last line feed is a line if it is not empty.
pub open spec fn lines_of(text: Seq<u8>) -> Seq<Seq<u8>> {
    if open_line(text).len() > 0 {
        closed_lines(text).push(open_line(text))
    } else {
        closed_lines(text)
    }
}

/// Where the field that begins at `from` ends: at the next white space
/// character, or at the end of the line.
pub open spec fn field_end(line: Seq<u8>, from: int) -> int
    decreases line.len() - from,
{
    if from < 0 || from >= line.len() || space_at(line, from) > 0 {
        from
    } else {
        field_end(line, from + 1)
    }
}

/// The fields of the line from position `from` on: the runs of bytes between
/// white space characters.
pub open spec fn fields_from(line: Seq<u8>, from: int) -> Seq<Seq<u8>>
    decreases line.len() - from,
{
    if from < 0 || from >= line.len() {
        Seq::empty()
    } else if space_at(line, from) > 0 {
        fields_from(line, from + space_at(line, from))
    } else if from < field_end(line, from) <= line.len() {
        seq![line.subrange(from, field_end(line, from))] + fields_from(
            line,
            field_end(line, from),
        )
    } else {
        Seq::empty()
    }
}

/// The fields of a line.
pub open spec fn fields_of(line: Seq<u8>) -> Seq<Seq<u8>> {
    fields_from(line, 0)
}

/// What the vectors hold, one by one.
pub open spec fn parts_view(parts: Seq<Vec<u8>>) -> Seq<Seq<u8>> {
    Seq::new(parts.len(), |i: int| parts[i]@)
}

/// The number that decimal digits stand for.
pub open spec fn digits_value(digits: Seq<u8>) -> nat
    decreases digits.len(),
{
    if digits.len() == 0 {
        0
    } else {
        digits_value(digits.drop_last()) * 10 + (digits.last() - 48) as nat
    }
}

/// Every byte is a digit.
pub open spec fn all_digits(bytes: Seq<u8>) -> bool {
    forall|i: int| 0 <= i < bytes.len() ==> is_digit(#[trigger] bytes[i])
}

/// The field without a plus sign in front.
pub open spec fn unsigned(field: Seq<u8>) -> Seq<u8> {
    if field.len() > 0 && field[0] == 43 {
        field.subrange(1, field.len() as int)
    } else {
        field
    }
}

/// The number that decimal digits stand for, where there is a digit, every
/// byte is one, and the number fits in 64 bits.
pub open spec fn digits_number(digits: Seq<u8>) -> Option<u64> {
    if digits.len() > 0 && all_digits(digits) && digits_value(digits) <= u64::MAX {
        Some(digits_value(digits) as u64)
    } else {
        None
    }
}

/// The number that a field stands for: decimal digits, at least one, with or
/// without a plus sign in front, that make a number the machine can hold.
pub open spec fn number_of(field: Seq<u8>) -> Option<usize> {
    let digits = unsigned(field);
    if digits.len() > 0 && all_digits(digits) && digits_value(digits) <= usize::MAX {
        Some(digits_value(digits) as usize)
    } else {
        None
    }
}

/// The numbers of the first `upto` fields, or the first field among them that
/// is no number.
pub open spec fn numbers_upto(fields: Seq<Seq<u8>>, upto: int) -> Result<Seq<usize>, LineFault>
    decreases upto,
{
    if upto <= 0 {
        Ok(Seq::empty())
    } else {
        match numbers_upto(fields, upto - 1) {
            Err(fault) => Err(fault),
            Ok(numbers) => match number_of(fields[upto - 1]) {
                None => Err(LineFault::NotANumber { field: (upto - 1) as usize }),
                Some(number) => Ok(numbers.push(number)),
            },
        }
    }
}

/// The numbers on a line, or the first field that is no number.
pub open spec fn numbers_of(line: Seq<u8>) -> Result<Seq<usize>, LineFault> {
    numbers_upto(fields_of(line), fields_of(line).len() as int)
}

/// The numbers on a line that must hold `wanted` of them.
pub open spec fn counted_numbers(line: Seq<u8>, wanted: int) -> Result<Seq<usize>, LineFault> {
    match numbers_of(line) {
        Err(fault) => Err(fault),
        Ok(numbers) => if numbers.len() != wanted {
            Err(LineFault::FieldCount { found: numbers.len() as usize })
        } else {
            Ok(numbers)
        },
    }
}

/// The item type that a line describes: its value, weight, setup cost and
/// setup time, in this order.
pub open spec fn parsed_item(id: usize, line: Seq<u8>) -> Result<ItemWithSetup, LineFault> {
    match counted_numbers(line, 4) {
        Err(fault) => Err(fault),
        Ok(numbers) => Ok(
            ItemWithSetup {
                item: Item { id, value: numbers[0], weight: numbers[1] },
                setup_cost: numbers[2],
                setup_time: numbers[3],
            },
        ),
    }
}

/// The item types that the lines from the second to line `upto` describe, or
/// the first fault among them. An item type's identifier is its place among
/// the item types.
pub open spec fn parsed_items(lines: Seq<Seq<u8>>, upto: int) -> Result<Seq<ItemWithSetup>, CeError>
    decreases upto,
{
    if upto <= 1 {
        Ok(Seq::empty())
    } else {
        match parsed_items(lines, upto - 1) {
            Err(error) => Err(error),
            Ok(items) => match parsed_item((upto - 2) as usize, lines[upto - 1]) {
                Err(fault) => Err(CeError::Input { line: (upto - 1) as usize, fault }),
                Ok(item) => Ok(items.push(item)),
            },
        }
    }
}

/// The capacity and the item types that a text describes, or its first fault.
pub open spec fn parsed_instance(text: Seq<u8>) -> Result<(usize, Seq<ItemWithSetup>), CeError> {
    let lines = lines_of(text);
    if lines.len() == 0 {
        Err(CeError::Input { line: 0, fault: LineFault::Missing })
    } else {
        match counted_numbers(lines[0], 1) {
            Err(fault) => Err(CeError::Input { line: 0, fault }),
            Ok(numbers) => match parsed_items(lines, lines.len() as int) {
                Err(error) => Err(error),
                Ok(items) => Ok((numbers[0], items)),
            },
        }
    }
}

/// Digits stand for no less than the digits before them do.
pub proof fn lemma_digits_grow(digits: Seq<u8>, upto: int)
    requires
        all_digits(digits),
        0 <= upto <= digits.len(),
    ensures
        digits_value(digits.take(upto)) <= digits_value(digits),
    decreases digits.len(),
{
    if upto < digits.len() {
        let shorter = digits.drop_last();
        assert(shorter.take(upto) =~= digits.take(upto));
        assert(is_digit(digits[digits.len() - 1]));
        lemma_digits_grow(shorter, upto);
    } else {
        assert(digits.take(upto) =~= digits);
    }
}

/// The first field that is no number is the fault of the line, whatever
/// follows it.
proof fn lemma_first_fault_stays(fields: Seq<Seq<u8>>, at: int, upto: int)
    requires
        at <= upto,
        numbers_upto(fields, at) is Err,
    ensures
        numbers_upto(fields, upto) == numbers_upto(fields, at),
    decreases upto - at,
{
    if at < upto {
        lemma_first_fault_stays(fields, at, upto - 1);
    }
}

/// The first faulty line is the fault of the text, whatever follows it.
proof fn lemma_first_error_stays(lines: Seq<Seq<u8>>, at: int, upto: int)
    requires
        at <= upto,
        parsed_items(lines, at) is Err,
    ensures
        parsed_items(lines, upto) == parsed_items(lines, at),
    decreases upto - at,
{
    if at < upto {
        lemma_first_error_stays(lines, at, upto - 1);
    }
}

/// A field ends after where it begins, and within the line.
proof fn lemma_field_end(line: Seq<u8>, from: int)
    requires
        0 <= from < line.len(),
        space_at(line, from) == 0,
    ensures
        from < field_end(line, from) <= line.len(),
    decreases line.len() - from,
{
    if from + 1 < line.len() && space_at(line, from + 1) == 0 {
        lemma_field_end(line, from + 1);
    } else {
        assert(field_end(line, from + 1) == from + 1);
    }
}

/// The number of bytes of the white space character that begins at `at`, or
/// 0 where none begins there.
pub fn space_len(text: &[u8], at: usize) -> (width: usize)
    ensures
        width == space_at(text@, at as int),
        at + width <= text@.len() || width == 0,
{
    let n = text.len();
    if at >= n {
        return 0;
    }
    let a = text[at];
    if a == 32 || (9 <= a && a <= 13) {
        return 1;
    }
    if n - at >= 2 && a == 0xC2 && (text[at + 1] == 0x85 || text[at + 1] == 0xA0) {
        return 2;
    }
    if n - at >= 3 {
        let b = text[at + 1];
        let c = text[at + 2];
        let wide = (a == 0xE1 && b == 0x9A && c == 0x80) || (a == 0xE2 && b == 0x80 && ((0x80 <= c
            && c <= 0x8A) || c == 0xA8 || c == 0xA9 || c == 0xAF)) || (a == 0xE2 && b == 0x81 && c
            == 0x9F) || (a == 0xE3 && b == 0x80 && c == 0x80);
        if wide {
            return 3;
        }
    }
    0
}

/// Cuts a text into its lines.
pub fn split_lines(text: &[u8]) -> (lines: Vec<Vec<u8>>)
    ensures
        parts_view(lines@) == lines_of(text@),
{
    let mut lines: Vec<Vec<u8>> = Vec::new();
    let mut current: Vec<u8> = Vec::new();
    let mut i: usize = 0;
    while i < text.len()
        invariant
            i <= text@.len(),
            parts_view(lines@) == closed_lines(text@.take(i as int)),
            current@ == open_line(text@.take(i as int)),
        decreases text.len() - i,
    {
        let b = text[i];
        proof {
            assert(text@.take(i + 1).drop_last() =~= text@.take(i as int));
            assert(text@.take(i + 1).last() == b);
        }
        if b == 10 {
            let ghost before = parts_view(lines@);
            lines.push(current);
            proof {
                assert(parts_view(lines@) =~= before.push(open_line(text@.take(i as int))));
            }
            current = Vec::new();
        } else {
            current.push(b);
        }
        i += 1;
    }
    proof {
        assert(text@.take(i as int) =~= text@);
    }
    if current.len() > 0 {
        let ghost before = parts_view(lines@);
        let ghost last = current@;
        lines.push(current);
        proof {
            assert(parts_view(lines@) =~= before.push(last));
        }
    }
    lines
}

/// Cuts a line into its fields.
pub fn split_fields(line: &[u8]) -> (fields: Vec<Vec<u8>>)
    ensures
        parts_view(fields@) == fields_of(line@),
{
    let mut fields: Vec<Vec<u8>> = Vec::new();
    let mut i: usize = 0;
    while i < line.len()
        invariant
            i <= line@.len(),
            fields_of(line@) == parts_view(fields@) + fields_from(line@, i as int),
        decreases line.len() - i,
    {
        let width = space_len(line, i);
        if width > 0 {
            i += width;
        } else {
            let start = i;
            let mut field: Vec<u8> = Vec::new();
            proof {
                lemma_field_end(line@, start as int);
            }
            while i < line.len() && space_len(line, i) == 0
                invariant
                    start <= i <= line@.len(),
                    field@ == line@.subrange(start as int, i as int),
                    field_end(line@, start as int) == field_end(line@, i as int),
                decreases line.len() - i,
            {
                field.push(line[i]);
                proof {
                    assert(line@.subrange(start as int, i + 1) =~= line@.subrange(
                        start as int,
                        i as int,
                    ).push(line@[i as int]));
                }
                i += 1;
            }
            let ghost before = parts_view(fields@);
            let ghost found = field@;
            fields.push(field);
            proof {
                assert(i == field_end(line@, start as int));
                assert(parts_view(fields@) =~= before.push(found));
                assert(before + (seq![found] + fields_from(line@, i as int)) =~= before.push(
                    found,
                ) + fields_from(line@, i as int));
            }
        }
    }
    proof {
        assert(parts_view(fields@) + Seq::<Seq<u8>>::empty() =~= parts_view(fields@));
    }
    fields
}

/// Reads the number that the digits from position `start` on stand for.
pub fn read_digits(text: &Vec<u8>, start: usize) -> (number: Option<u64>)
    requires
        start <= text@.len(),
    ensures
        number == digits_number(text@.subrange(start as int, text@.len() as int)),
{
    let ghost digits = text@.subrange(start as int, text@.len() as int);
    if start == text.len() {
        return None;
    }
    let mut total: u64 = 0;
    let mut i: usize = start;
    while i < text.len()
        invariant
            start <= i <= text@.len(),
            start < text@.len(),
            digits == text@.subrange(start as int, text@.len() as int),
            all_digits(digits.take(i - start)),
            total == digits_value(digits.take(i - start)),
        decreases text.len() - i,
    {
        let b = text[i];
        proof {
            assert(digits[i - start] == b);
            assert(digits.take(i - start + 1).drop_last() =~= digits.take(i - start));
            assert(digits.take(i - start + 1).last() == b);
        }
        if b < 48 || b > 57 {
            assert(!is_digit(digits[i - start]));
            return None;
        }
        let next = match total.checked_mul(10) {
            Some(tenfold) => tenfold.checked_add((b - 48) as u64),
            None => None,
        };
        match next {
            Some(next) => {
                total = next;
            },
            None => {
                proof {
                    if all_digits(digits) {
                        lemma_digits_grow(digits, i - start + 1);
                    }
                }
                return None;
            },
        }
        i += 1;
    }
    proof {
        assert(digits.take(i - start) =~= digits);
    }
    Some(total)
}

/// Reads the number that a field stands for.
pub fn parse_number(field: &Vec<u8>) -> (number: Option<usize>)
    ensures
        number == number_of(field@),
{
    let start: usize = if field.len() > 0 && field[0] == 43 {
        1
    } else {
        0
    };
    proof {
        assert(field@.subrange(start as int, field@.len() as int) =~= unsigned(field@));
    }
    match read_digits(field, start) {
        Some(number) => {
            if number <= usize::MAX as u64 {
                Some(number as usize)
            } else {
                None
            }
        },
        None => None,
    }
}

/// Reads the numbers on a line that must hold `wanted` of them.
pub fn parse_numbers(line: &[u8], wanted: usize) -> (numbers: Result<Vec<usize>, LineFault>)
    ensures
        match counted_numbers(line@, wanted as int) {
            Ok(found) => numbers matches Ok(read) && read@ == found,
            Err(fault) => numbers == Err::<Vec<usize>, LineFault>(fault),
        },
{
    let fields = split_fields(line);
    let ghost cut = fields_of(line@);
    let mut numbers: Vec<usize> = Vec::new();
    let mut k: usize = 0;
    while k < fields.len()
        invariant
            k <= fields@.len(),
            parts_view(fields@) == cut,
            cut == fields_of(line@),
            numbers_upto(cut, k as int) == Ok::<Seq<usize>, LineFault>(numbers@),
        decreases fields.len() - k,
    {
        assert(cut[k as int] == fields@[k as int]@);
        match parse_number(&fields[k]) {
            Some(number) => {
                numbers.push(number);
            },
            None => {
                proof {
                    assert(numbers_upto(cut, k + 1) == Err::<Seq<usize>, LineFault>(
                        LineFault::NotANumber { field: k },
                    ));
                    lemma_first_fault_stays(cut, k + 1, cut.len() as int);
                }
                return Err(LineFault::NotANumber { field: k });
            },
        }
        k += 1;
    }
    if numbers.len() != wanted {
        return Err(LineFault::FieldCount { found: numbers.len() });
    }
    Ok(numbers)
}

impl ItemWithSetup {
    /// Reads an item type from a line of four numbers: value, weight, setup
    /// cost and setup time.
    pub fn from_string(id: usize, data: String) -> (read: Result<ItemWithSetup, LineFault>)
        ensures
            read == parsed_item(id, encode_utf8(data@)),
    {
        Self::from_line(id, data.as_str().as_bytes())
    }

    /// Reads an item type from the bytes of a line.
    pub fn from_line(id: usize, line: &[u8]) -> (read: Result<ItemWithSetup, LineFault>)
        ensures
            read == parsed_item(id, line@),
    {
        match parse_numbers(line, 4) {
            Err(fault) => Err(fault),
            Ok(numbers) => Ok(
                ItemWithSetup::new(id, numbers[0], numbers[1], numbers[2], numbers[3]),
            ),
        }
    }
}

/// Reads an instance from the text that describes it.
pub fn read_kps_instance(contents: &str) -> (read: Result<KnapsackWithSetups, CeError>)
    ensures
        match parsed_instance(contents.spec_bytes()) {
            Ok((capacity, items)) => read matches Ok(instance) && instance.wf()
                && instance.capacity == capacity && instance.items@ == items,
            Err(error) => read matches Err(told) && told == error,
        },
{
    let text = contents.as_bytes();
    let lines = split_lines(text);
    let ghost cut = lines_of(text@);
    if lines.len() == 0 {
        return Err(CeError::Input { line: 0, fault: LineFault::Missing });
    }
    assert(cut[0] == lines@[0]@);
    let capacity = match parse_numbers(lines[0].as_slice(), 1) {
        Err(fault) => {
            return Err(CeError::Input { line: 0, fault });
        },
        Ok(numbers) => numbers[0],
    };
    let mut items: Vec<ItemWithSetup> = Vec::new();
    let mut k: usize = 1;
    while k < lines.len()
        invariant
            1 <= k <= lines@.len(),
            parts_view(lines@) == cut,
            cut == lines_of(contents.spec_bytes()),
            counted_numbers(cut[0], 1) is Ok,
            parsed_items(cut, k as int) == Ok::<Seq<ItemWithSetup>, CeError>(items@),
            items@.len() == k - 1,
        decreases lines.len() - k,
    {
        assert(cut[k as int] == lines@[k as int]@);
        match ItemWithSetup::from_line(k - 1, lines[k].as_slice()) {
            Err(fault) => {
                proof {
                    assert(parsed_items(cut, k + 1) == Err::<Seq<ItemWithSetup>, CeError>(
                        CeError::Input { line: k, fault },
                    ));
                    lemma_first_error_stays(cut, k + 1, cut.len() as int);
                }
                return Err(CeError::Input { line: k, fault });
            },
            Ok(item) => {
                items.push(item);
            },
        }
        k += 1;
    }
    Ok(KnapsackWithSetups::new(items, capacity))
}

} // verus!
