//! The outline file: one line per cell, integers separated by commas, two for
//! each point.

use vstd::prelude::*;

verus! {

/// What is wrong with a line.
#[derive(Debug, Clone, Copy, PartialEq, Eq, Structural)]
pub enum OutlineFault {
    /// An entry is not a whole number that fits in 32 bits.
    MalformedInteger,
    /// The line holds an odd count of numbers.
    OddCount,
}

/// Why the outlines could not be read: the first faulty line, counted from
/// zero, and its fault.
#[derive(Debug, Clone, Copy, PartialEq, Eq, Structural)]
pub struct OutlineError {
    pub line: usize,
    pub fault: OutlineFault,
}

/// The pieces of `s` between the separators; a separator at the end leaves an
/// empty last piece.
pub open spec fn split(s: Seq<u8>, sep: u8) -> Seq<Seq<u8>>
    decreases s.len(),
{
    if s.len() == 0 {
        seq![Seq::<u8>::empty()]
    } else {
        let rest = split(s.drop_last(), sep);
        if s.last() == sep {
            rest.push(Seq::<u8>::empty())
        } else {
            rest.update(rest.len() - 1, rest.last().push(s.last()))
        }
    }
}

/// The lines of the text: its pieces between line feeds, without the empty
/// piece that follows a final line feed.
pub open spec fn lines_of(text: Seq<u8>) -> Seq<Seq<u8>> {
    let pieces = split(text, 10);
    if pieces.last().len() == 0 {
        pieces.drop_last()
    } else {
        pieces
    }
}

/// Blank, tab, line feed, vertical tab, form feed or carriage return.
pub open spec fn is_space(b: u8) -> bool {
    b == 32 || (9 <= b && b <= 13)
}

/// `s` without the white space at its start.
pub open spec fn trim_start(s: Seq<u8>) -> Seq<u8>
    decreases s.len(),
{
    if s.len() > 0 && is_space(s[0]) {
        trim_start(s.drop_first())
    } else {
        s
    }
}

/// `s` without the white space at its end.
pub open spec fn trim_end(s: Seq<u8>) -> Seq<u8>
    decreases s.len(),
{
    if s.len() > 0 && is_space(s.last()) {
        trim_end(s.drop_last())
    } else {
        s
    }
}

/// `s` without the white space at either end.
pub open spec fn trimmed(s: Seq<u8>) -> Seq<u8> {
    trim_end(trim_start(s))
}

/// A decimal digit.
pub open spec fn is_digit(b: u8) -> bool {
    48 <= b && b <= 57
}

/// Every byte is a decimal digit.
pub open spec fn all_digits(s: Seq<u8>) -> bool {
    forall|i: int| 0 <= i < s.len() ==> is_digit(#[trigger] s[i])
}

/// The number that the digits write.
pub open spec fn digits_value(s: Seq<u8>) -> int
    decreases s.len(),
{
    if s.len() == 0 {
        0
    } else {
        digits_value(s.drop_last()) * 10 + (s.last() - 48)
    }
}

/// The number that the entry writes: an optional `+` or `-`, then one digit or
/// more, with a value that fits in 32 bits. `None` for any other entry.
pub open spec fn number_of(entry: Seq<u8>) -> Option<i32> {
    let negative = entry.len() > 0 && entry[0] == 45;
    let signed = entry.len() > 0 && (entry[0] == 45 || entry[0] == 43);
    let body = if signed {
        entry.drop_first()
    } else {
        entry
    };
    let value = if negative {
        -digits_value(body)
    } else {
        digits_value(body)
    };
    if body.len() == 0 || !all_digits(body) || value < i32::MIN || value > i32::MAX {
        None
    } else {
        Some(value as i32)
    }
}

/// The numbers of the first `n` entries, in order; entries that are empty
/// once trimmed are passed over. `None` when one of them writes no number.
pub open spec fn numbers_of(entries: Seq<Seq<u8>>, n: int) -> Option<Seq<i32>>
    decreases n,
{
    if n <= 0 {
        Some(Seq::<i32>::empty())
    } else {
        match numbers_of(entries, n - 1) {
            None => None,
            Some(numbers) => {
                let entry = trimmed(entries[n - 1]);
                if entry.len() == 0 {
                    Some(numbers)
                } else {
                    match number_of(entry) {
                        None => None,
                        Some(v) => Some(numbers.push(v)),
                    }
                }
            },
        }
    }
}

/// The numbers two by two: `x`, then `y`.
pub open spec fn pairs_of(numbers: Seq<i32>) -> Seq<(i32, i32)> {
    Seq::new((numbers.len() / 2) as nat, |k: int| (numbers[2 * k], numbers[2 * k + 1]))
}

/// The points that a line writes, or its fault. A malformed entry counts
/// before an odd count.
pub open spec fn parsed_line(line: Seq<u8>) -> Result<Seq<(i32, i32)>, OutlineFault> {
    let entries = split(line, 44);
    match numbers_of(entries, entries.len() as int) {
        None => Err(OutlineFault::MalformedInteger),
        Some(numbers) => if numbers.len() % 2 != 0 {
            Err(OutlineFault::OddCount)
        } else {
            Ok(pairs_of(numbers))
        },
    }
}

/// The bytes of each piece.
pub open spec fn bytes_of(pieces: Seq<Vec<u8>>) -> Seq<Seq<u8>> {
    Seq::new(pieces.len(), |i: int| pieces[i]@)
}

/// The pieces of the bytes between the separators.
fn split_bytes(text: &Vec<u8>, sep: u8) -> (pieces: Vec<Vec<u8>>)
    ensures
        bytes_of(pieces@) == split(text@, sep),
        pieces.len() >= 1,
{
    let mut pieces: Vec<Vec<u8>> = Vec::new();
    let mut current: Vec<u8> = Vec::new();
    let mut i: usize = 0;
    assert(text@.subrange(0, 0) =~= Seq::<u8>::empty());
    assert(bytes_of(pieces@).push(current@) =~= seq![Seq::<u8>::empty()]);
    while i < text.len()
        invariant
            i <= text.len(),
            bytes_of(pieces@).push(current@) == split(text@.subrange(0, i as int), sep),
        decreases text.len() - i,
    {
        let b = text[i];
        let ghost prefix = text@.subrange(0, i as int);
        let ghost longer = text@.subrange(0, i + 1);
        let ghost before = bytes_of(pieces@).push(current@);
        proof {
            assert(longer.drop_last() =~= prefix);
            assert(longer.last() == b);
        }
        if b == sep {
            pieces.push(current);
            current = Vec::new();
            proof {
                assert(bytes_of(pieces@) =~= before);
                assert(bytes_of(pieces@).push(current@) =~= before.push(Seq::<u8>::empty()));
            }
        } else {
            let ghost old_current = current@;
            current.push(b);
            proof {
                assert(before.last() == old_current);
                assert(bytes_of(pieces@).push(current@) =~= before.update(
                    before.len() - 1,
                    old_current.push(b),
                ));
            }
        }
        i += 1;
    }
    proof {
        assert(text@.subrange(0, text.len() as int) =~= text@);
    }
    let ghost before = bytes_of(pieces@).push(current@);
    pieces.push(current);
    proof {
        assert(bytes_of(pieces@) =~= before);
    }
    pieces
}

/// Whether the byte is white space.
fn byte_is_space(b: u8) -> (r: bool)
    ensures
        r == is_space(b),
{
    b == 32 || (9 <= b && b <= 13)
}

/// The entry without the white space at either end.
fn trim(entry: &Vec<u8>) -> (out: Vec<u8>)
    ensures
        out@ == trimmed(entry@),
{
    let n = entry.len();
    let mut a: usize = 0;
    assert(entry@.subrange(0, n as int) =~= entry@);
    while a < n && byte_is_space(entry[a])
        invariant
            a <= n,
            n == entry.len(),
            trim_start(entry@) == trim_start(entry@.subrange(a as int, n as int)),
        decreases n - a,
    {
        assert(entry@.subrange(a as int, n as int).drop_first() =~= entry@.subrange(
            a + 1,
            n as int,
        ));
        a += 1;
    }
    let ghost rest = entry@.subrange(a as int, n as int);
    assert(trim_start(entry@) == rest);
    let mut b: usize = n;
    while b > a && byte_is_space(entry[b - 1])
        invariant
            a <= b <= n,
            n == entry.len(),
            rest == entry@.subrange(a as int, n as int),
            trim_end(rest) == trim_end(entry@.subrange(a as int, b as int)),
        decreases b,
    {
        assert(entry@.subrange(a as int, b as int).drop_last() =~= entry@.subrange(
            a as int,
            b - 1,
        ));
        b -= 1;
    }
    assert(trim_end(rest) == entry@.subrange(a as int, b as int));
    let mut out: Vec<u8> = Vec::new();
    let mut i: usize = a;
    while i < b
        invariant
            a <= i <= b,
            b <= entry.len(),
            out@ == entry@.subrange(a as int, i as int),
        decreases b - i,
    {
        out.push(entry[i]);
        assert(out@ =~= entry@.subrange(a as int, i + 1));
        i += 1;
    }
    out
}

/// Digits write at least what their first digits write.
proof fn lemma_digits_grow(s: Seq<u8>, i: int)
    requires
        all_digits(s),
        0 <= i <= s.len(),
    ensures
        0 <= digits_value(s.subrange(0, i)) <= digits_value(s),
    decreases s.len() - i,
{
    if i == s.len() {
        assert(s.subrange(0, i) =~= s);
        lemma_digits_nonnegative(s);
    } else {
        lemma_digits_grow(s, i + 1);
        let longer = s.subrange(0, i + 1);
        assert(longer.drop_last() =~= s.subrange(0, i));
        assert(is_digit(s[i]));
        assert(longer.last() == s[i]);
        lemma_digits_nonnegative(s.subrange(0, i));
    }
}

proof fn lemma_digits_nonnegative(s: Seq<u8>)
    requires
        all_digits(s),
    ensures
        0 <= digits_value(s),
    decreases s.len(),
{
    if s.len() > 0 {
        assert(is_digit(s[s.len() - 1]));
        assert forall|i: int| 0 <= i < s.drop_last().len() implies is_digit(
            #[trigger] s.drop_last()[i],
        ) by {
            assert(s.drop_last()[i] == s[i]);
        }
        lemma_digits_nonnegative(s.drop_last());
    }
}

/// The number that a trimmed entry writes.
fn parse_number(entry: &Vec<u8>) -> (value: Option<i32>)
    ensures
        value == number_of(entry@),
{
    let n = entry.len();
    if n == 0 {
        return None;
    }
    let negative = entry[0] == 45;
    let start: usize = if entry[0] == 45 || entry[0] == 43 {
        1
    } else {
        0
    };
    let ghost body = if start == 1 {
        entry@.drop_first()
    } else {
        entry@
    };
    assert(body =~= entry@.subrange(start as int, n as int));
    if start == n {
        return None;
    }
    let mut acc: i64 = 0;
    let mut i: usize = start;
    assert(body.subrange(0, 0) =~= Seq::<u8>::empty());
    while i < n
        invariant
            start <= i <= n,
            n == entry.len(),
            n > 0,
            negative == (entry@[0] == 45),
            start == if entry@[0] == 45 || entry@[0] == 43 {
                1int
            } else {
                0int
            },
            body == if start == 1 {
                entry@.drop_first()
            } else {
                entry@
            },
            body == entry@.subrange(start as int, n as int),
            all_digits(body.subrange(0, i - start)),
            acc == digits_value(body.subrange(0, i - start)),
            0 <= acc <= 2147483648,
        decreases n - i,
    {
        let b = entry[i];
        let ghost prefix = body.subrange(0, i - start);
        let ghost longer = body.subrange(0, i - start + 1);
        proof {
            assert(longer.drop_last() =~= prefix);
            assert(longer.last() == b);
            assert(body[i - start] == b);
        }
        if b < 48 || b > 57 {
            return None;
        }
        let next: i64 = acc * 10 + (b as i64 - 48);
        proof {
            assert forall|x: int| 0 <= x < longer.len() implies is_digit(#[trigger] longer[x]) by {
                if x < prefix.len() {
                    assert(prefix[x] == longer[x]);
                }
            }
        }
        if next > 2147483648 {
            proof {
                if all_digits(body) {
                    lemma_digits_grow(body, i - start + 1);
                }
            }
            return None;
        }
        acc = next;
        i += 1;
    }
    proof {
        assert(body.subrange(0, n - start) =~= body);
    }
    if negative {
        Some((-acc) as i32)
    } else if acc > 2147483647 {
        None
    } else {
        Some(acc as i32)
    }
}

/// The points that one line writes, or its fault.
fn parse_line(line: &Vec<u8>) -> (result: Result<Vec<(i32, i32)>, OutlineFault>)
    ensures
        match result {
            Ok(points) => parsed_line(line@) == Ok::<Seq<(i32, i32)>, OutlineFault>(points@),
            Err(fault) => parsed_line(line@) == Err::<Seq<(i32, i32)>, OutlineFault>(fault),
        },
{
    let entries = split_bytes(line, 44);
    let ghost all = split(line@, 44);
    let mut numbers: Vec<i32> = Vec::new();
    let mut t: usize = 0;
    while t < entries.len()
        invariant
            t <= entries.len(),
            all == split(line@, 44),
            bytes_of(entries@) == all,
            numbers_of(all, t as int) == Some(numbers@),
        decreases entries.len() - t,
    {
        assert(all[t as int] == entries@[t as int]@);
        let entry = trim(&entries[t]);
        if entry.len() > 0 {
            match parse_number(&entry) {
                None => {
                    proof {
                        lemma_numbers_stay_none(all, t + 1, all.len() as int);
                    }
                    return Err(OutlineFault::MalformedInteger);
                },
                Some(v) => {
                    numbers.push(v);
                },
            }
        }
        t += 1;
    }
    assert(all.len() == entries.len());
    if numbers.len() % 2 != 0 {
        return Err(OutlineFault::OddCount);
    }
    let mut points: Vec<(i32, i32)> = Vec::new();
    let mut k: usize = 0;
    while k < numbers.len() / 2
        invariant
            k <= numbers.len() / 2,
            points.len() == k,
            forall|x: int|
                0 <= x < k ==> #[trigger] points@[x] == (numbers@[2 * x], numbers@[2 * x + 1]),
        decreases numbers.len() / 2 - k,
    {
        points.push((numbers[2 * k], numbers[2 * k + 1]));
        k += 1;
    }
    proof {
        assert(points@ =~= pairs_of(numbers@));
    }
    Ok(points)
}

/// Once an entry writes no number, the line has no numbers however many
/// entries follow.
proof fn lemma_numbers_stay_none(entries: Seq<Seq<u8>>, n: int, m: int)
    requires
        numbers_of(entries, n) is None,
        n <= m,
    ensures
        numbers_of(entries, m) is None,
    decreases m - n,
{
    if n < m {
        lemma_numbers_stay_none(entries, n, m - 1);
    }
}

/// What `parse_outlines` owes for the first `count` lines.
pub open spec fn cells_of(cells: Seq<Vec<(i32, i32)>>, lines: Seq<Seq<u8>>, count: int) -> bool {
    &&& cells.len() == count
    &&& forall|i: int|
        0 <= i < count ==> parsed_line(#[trigger] lines[i]) == Ok::<Seq<(i32, i32)>, OutlineFault>(
            cells[i]@,
        )
}

/// Reads the outlines from the text of an outline file: for each line the
/// points of one cell. The entries of a line are separated by commas; white
/// space around an entry and empty entries do not count; the numbers are
/// taken two by two as `x` and `y`. Fails at the first line that holds a
/// malformed number or an odd count of numbers.
pub fn parse_outlines(text: &Vec<u8>) -> (result: Result<Vec<Vec<(i32, i32)>>, OutlineError>)
    ensures
        match result {
            Ok(cells) => cells_of(cells@, lines_of(text@), lines_of(text@).len() as int),
            Err(e) => {
                &&& e.line < lines_of(text@).len()
                &&& parsed_line(lines_of(text@)[e.line as int]) == Err::<
                    Seq<(i32, i32)>,
                    OutlineFault,
                >(e.fault)
                &&& forall|i: int| 0 <= i < e.line ==> parsed_line(#[trigger] lines_of(text@)[i]) is Ok
            },
        },
{
    let mut lines = split_bytes(text, 10);
    let ghost pieces = split(text@, 10);
    assert(pieces.last() == lines@[lines.len() - 1]@);
    if lines[lines.len() - 1].len() == 0 {
        lines.pop();
    }
    let ghost all = lines_of(text@);
    assert(bytes_of(lines@) =~= all);
    let mut cells: Vec<Vec<(i32, i32)>> = Vec::new();
    let mut i: usize = 0;
    while i < lines.len()
        invariant
            i <= lines.len(),
            all == lines_of(text@),
            bytes_of(lines@) == all,
            cells_of(cells@, all, i as int),
        decreases lines.len() - i,
    {
        assert(all[i as int] == lines@[i as int]@);
        match parse_line(&lines[i]) {
            Ok(points) => {
                let ghost done = cells@;
                cells.push(points);
                proof {
                    assert forall|x: int| 0 <= x < i + 1 implies parsed_line(#[trigger] all[x])
                        == Ok::<Seq<(i32, i32)>, OutlineFault>(cells@[x]@) by {
                        if x < i {
                            assert(cells@[x] == done[x]);
                        }
                    }
                }
            },
            Err(fault) => {
                return Err(OutlineError { line: i, fault });
            },
        }
        i += 1;
    }
    assert(all.len() == lines.len());
    Ok(cells)
}

} // verus!
