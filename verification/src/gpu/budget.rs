//! How much of a device's memory to use, and which device it is.

use vstd::prelude::*;

verus! {

/// A character has the property `White_Space` of Unicode.
pub open spec fn white_space(c: char) -> bool {
    ||| '\u{9}' <= c <= '\u{d}'
    ||| c == ' '
    ||| c == '\u{85}'
    ||| c == '\u{a0}'
    ||| c == '\u{1680}'
    ||| '\u{2000}' <= c <= '\u{200a}'
    ||| '\u{2028}' <= c <= '\u{2029}'
    ||| c == '\u{202f}'
    ||| c == '\u{205f}'
    ||| c == '\u{3000}'
}

/// Whether a character is white space.
fn is_white_space(c: char) -> (r: bool)
    ensures
        r == white_space(c),
{
    let code: u32 = c as u32;
    (0x9 <= code && code <= 0xD) || code == 0x20 || code == 0x85 || code == 0xA0 || code == 0x1680
        || (0x2000 <= code && code <= 0x200A) || (0x2028 <= code && code <= 0x2029) || code
        == 0x202F || code == 0x205F || code == 0x3000
}

/// Why no budget could be found.
#[derive(Debug)]
pub enum BudgetResolverError {
    /// There is no device of this number.
    NoDevice(u32),
    /// The management library could not be used.
    NvmlUnavailable(String),
    /// The memory of the device could not be read.
    MemoryInfo(String),
}

/// Four fifths of the free bytes, rounded down.
pub open spec fn headroom(free: u64) -> u64 {
    (free * 4 / 5) as u64
}

/// Finds the budget: the given one, or four fifths of the bytes that are free on the device. The
/// device is only asked if no budget is given.
pub fn resolve_budget<F: FnOnce(u32) -> Result<u64, BudgetResolverError>>(
    explicit: Option<u64>,
    device_index: u32,
    free_bytes: F,
) -> (r: Result<u64, BudgetResolverError>)
    requires
        explicit is None ==> call_requires(free_bytes, (device_index,)),
    ensures
        explicit matches Some(b) ==> r == Ok::<u64, BudgetResolverError>(b),
        explicit is None ==> exists|asked: Result<u64, BudgetResolverError>| #[trigger]
            call_ensures(free_bytes, (device_index,), asked) && r == budget_from(asked),
{
    match explicit {
        Some(b) => Ok(b),
        None => {
            let asked: Result<u64, BudgetResolverError> = free_bytes(device_index);
            budget_of(asked)
        },
    }
}

/// The budget that the answer of a device gives.
pub open spec fn budget_from(asked: Result<u64, BudgetResolverError>) -> Result<
    u64,
    BudgetResolverError,
> {
    match asked {
        Ok(free) => Ok(headroom(free)),
        Err(e) => Err(e),
    }
}

/// Takes four fifths of what is free.
pub fn budget_of(asked: Result<u64, BudgetResolverError>) -> (r: Result<u64, BudgetResolverError>)
    ensures
        r == budget_from(asked),
{
    match asked {
        Ok(free) => Ok((free as u128 * 4 / 5) as u64),
        Err(e) => Err(e),
    }
}

/// Text without the white space before it.
pub open spec fn without_leading(s: Seq<char>) -> Seq<char>
    decreases s.len(),
{
    if s.len() == 0 || !white_space(s[0]) {
        s
    } else {
        without_leading(s.drop_first())
    }
}

/// Text without the white space after it.
pub open spec fn without_trailing(s: Seq<char>) -> Seq<char>
    decreases s.len(),
{
    if s.len() == 0 || !white_space(s.last()) {
        s
    } else {
        without_trailing(s.drop_last())
    }
}

/// Text without the white space around it.
pub open spec fn trimmed(s: Seq<char>) -> Seq<char> {
    without_trailing(without_leading(s))
}

/// Where the first comma stands, or the length of the text.
pub open spec fn first_comma(s: Seq<char>) -> int
    decreases s.len(),
{
    if s.len() == 0 || s[0] == ',' {
        0
    } else {
        1 + first_comma(s.drop_first())
    }
}

/// Number `index` of the parts between commas.
pub open spec fn part(s: Seq<char>, index: int) -> Option<Seq<char>>
    decreases index,
{
    if index <= 0 {
        Some(s.take(first_comma(s)))
    } else if first_comma(s) >= s.len() {
        None
    } else {
        part(s.skip(first_comma(s) + 1), index - 1)
    }
}

/// A decimal digit.
pub open spec fn is_digit(c: char) -> bool {
    '0' <= c <= '9'
}

/// The number that digits stand for, the highest first.
pub open spec fn decimal(digits: Seq<char>) -> int
    decreases digits.len(),
{
    if digits.len() == 0 {
        0
    } else {
        10 * decimal(digits.drop_last()) + (digits.last() as int - '0' as int)
    }
}

/// The digits of a number, behind the sign that it may have.
pub open spec fn digits_of(s: Seq<char>) -> Seq<char> {
    if s.len() > 0 && s[0] == '+' {
        s.drop_first()
    } else {
        s
    }
}

/// The number that a text stands for: digits, with or without a plus sign, of a value that fits.
pub open spec fn parsed(s: Seq<char>) -> Option<u32> {
    let digits = digits_of(s);
    if digits.len() > 0 && (forall|i: int| 0 <= i < digits.len() ==> is_digit(#[trigger] digits[i]))
        && decimal(digits) <= u32::MAX {
        Some(decimal(digits) as u32)
    } else {
        None
    }
}

/// The number of a device where a mask of visible devices may be set: the entry of the mask, or the
/// number itself if there is no mask or no number in that entry.
pub open spec fn unmasked(mask: Option<Seq<char>>, cuda_idx: u32) -> u32 {
    match mask {
        None => cuda_idx,
        Some(text) => if trimmed(text).len() == 0 {
            cuda_idx
        } else {
            match part(trimmed(text), cuda_idx as int) {
                None => cuda_idx,
                Some(entry) => match parsed(trimmed(entry)) {
                    None => cuda_idx,
                    Some(index) => index,
                },
            }
        },
    }
}

/// Where the trimmed text stands.
fn trim(s: &[char], from: usize, to: usize) -> (r: (usize, usize))
    requires
        from <= to <= s@.len(),
    ensures
        from <= r.0 <= r.1 <= to,
        s@.subrange(r.0 as int, r.1 as int) == trimmed(s@.subrange(from as int, to as int)),
{
    let mut a: usize = from;
    while a < to && is_white_space(s[a])
        invariant
            from <= a <= to <= s@.len(),
            without_leading(s@.subrange(from as int, to as int)) == without_leading(
                s@.subrange(a as int, to as int),
            ),
        decreases to - a,
    {
        assert(s@.subrange(a as int, to as int).drop_first() =~= s@.subrange(a + 1, to as int));
        a = a + 1;
    }
    let ghost front = s@.subrange(a as int, to as int);
    assert(without_leading(front) == front);
    let mut b: usize = to;
    while a < b && is_white_space(s[b - 1])
        invariant
            a <= b <= to <= s@.len(),
            without_trailing(front) == without_trailing(s@.subrange(a as int, b as int)),
        decreases b - a,
    {
        assert(s@.subrange(a as int, b as int).drop_last() =~= s@.subrange(a as int, b - 1));
        b = b - 1;
    }
    (a, b)
}

/// Where the first comma stands between two positions, or the end.
fn find_comma(s: &[char], from: usize, to: usize) -> (at: usize)
    requires
        from <= to <= s@.len(),
    ensures
        from <= at <= to,
        at == from + first_comma(s@.subrange(from as int, to as int)),
        at < to ==> s@[at as int] == ',',
{
    let mut at: usize = from;
    while at < to && s[at] != ','
        invariant
            from <= at <= to <= s@.len(),
            first_comma(s@.subrange(from as int, to as int)) == at - from + first_comma(
                s@.subrange(at as int, to as int),
            ),
        decreases to - at,
    {
        assert(s@.subrange(at as int, to as int).drop_first() =~= s@.subrange(at + 1, to as int));
        at = at + 1;
    }
    at
}

/// Reads a number.
fn parse(s: &[char], from: usize, to: usize) -> (r: Option<u32>)
    requires
        from <= to <= s@.len(),
    ensures
        r == parsed(s@.subrange(from as int, to as int)),
{
    let ghost text = s@.subrange(from as int, to as int);
    let start: usize = if from < to && s[from] == '+' {
        from + 1
    } else {
        from
    };
    let ghost digits = s@.subrange(start as int, to as int);
    proof {
        if start > from {
            assert(digits =~= text.drop_first());
        }
        assert(digits == digits_of(text));
    }
    if start == to {
        return None;
    }
    let mut value: u64 = 0;
    let mut i: usize = start;
    assert(digits.take(0) =~= Seq::<char>::empty());
    while i < to
        invariant
            start <= i <= to <= s@.len(),
            text == s@.subrange(from as int, to as int),
            digits == s@.subrange(start as int, to as int),
            digits == digits_of(text),
            value <= u32::MAX,
            value == decimal(digits.take(i - start)),
            forall|j: int| 0 <= j < i - start ==> is_digit(#[trigger] digits[j]),
        decreases to - i,
    {
        let c: char = s[i];
        assert(digits[i - start] == c);
        if c < '0' || c > '9' {
            return None;
        }
        value = 10 * value + (c as u64 - '0' as u64);
        proof {
            let next = digits.take(i + 1 - start);
            assert(next.drop_last() =~= digits.take(i - start));
            assert(next.last() == c);
            assert forall|j: int| 0 <= j < i + 1 - start implies is_digit(#[trigger] digits[j]) by {
                if j == i - start {
                    assert(digits[j] == c);
                }
            }
        }
        if value > u32::MAX as u64 {
            proof {
                if forall|j: int| 0 <= j < digits.len() ==> is_digit(#[trigger] digits[j]) {
                    lemma_decimal_grows(digits, i + 1 - start);
                }
            }
            return None;
        }
        i = i + 1;
    }
    assert(digits.take(digits.len() as int) =~= digits);
    Some(value as u32)
}

/// More digits make no smaller number.
proof fn lemma_decimal_grows(digits: Seq<char>, n: int)
    requires
        0 <= n <= digits.len(),
        forall|i: int| 0 <= i < digits.len() ==> is_digit(#[trigger] digits[i]),
    ensures
        0 <= decimal(digits.take(n)) <= decimal(digits),
    decreases digits.len(),
{
    if n == digits.len() {
        assert(digits.take(n) =~= digits);
        if digits.len() > 0 {
            let front = digits.drop_last();
            assert(digits[digits.len() - 1] == digits.last());
            assert forall|i: int| 0 <= i < front.len() implies is_digit(#[trigger] front[i]) by {
                assert(front[i] == digits[i]);
            }
            lemma_decimal_grows(front, front.len() as int);
            assert(front.take(front.len() as int) =~= front);
        }
    } else {
        let front = digits.drop_last();
        assert(digits[digits.len() - 1] == digits.last());
        assert forall|i: int| 0 <= i < front.len() implies is_digit(#[trigger] front[i]) by {
            assert(front[i] == digits[i]);
        }
        lemma_decimal_grows(front, n);
        assert(front.take(n) =~= digits.take(n));
    }
}

/// Finds the number of a device for the management library, which does not know of the mask.
pub fn nvml_index_for_cuda_device(mask: Option<&[char]>, cuda_idx: u32) -> (r: u32)
    ensures
        r == unmasked(
            match mask {
                None => None,
                Some(text) => Some(text@),
            },
            cuda_idx,
        ),
{
    let text: &[char] = match mask {
        None => {
            return cuda_idx;
        },
        Some(text) => text,
    };
    assert(text@.subrange(0, text@.len() as int) =~= text@);
    let (mut from, to): (usize, usize) = trim(text, 0, text.len());
    let ghost whole = trimmed(text@);
    if from == to {
        return cuda_idx;
    }
    let mut left: u32 = cuda_idx;
    loop
        invariant
            from <= to <= text@.len(),
            whole == trimmed(text@),
            whole.len() > 0,
            left <= cuda_idx,
            mask == Some(text),
            part(whole, cuda_idx as int) == part(
                text@.subrange(from as int, to as int),
                left as int,
            ),
        decreases left,
    {
        let comma: usize = find_comma(text, from, to);
        let ghost here = text@.subrange(from as int, to as int);
        if left == 0 {
            assert(text@.subrange(from as int, comma as int) =~= here.take(first_comma(here)));
            let (a, b): (usize, usize) = trim(text, from, comma);
            return match parse(text, a, b) {
                None => cuda_idx,
                Some(index) => index,
            };
        }
        if comma == to {
            return cuda_idx;
        }
        assert(text@.subrange(comma + 1, to as int) =~= here.skip(first_comma(here) + 1));
        from = comma + 1;
        left = left - 1;
    }
}

/// The larger of the peak so far and what is used now.
pub fn raise_peak(peak: u64, used: u64) -> (r: u64)
    ensures
        r == (if used > peak {
            used
        } else {
            peak
        }),
{
    if used > peak {
        used
    } else {
        peak
    }
}

/// The headroom is the most bytes that are no more than four fifths of what is free.
pub proof fn headroom_is_four_fifths(free: u64)
    ensures
        5 * headroom(free) <= 4 * free < 5 * (headroom(free) + 1),
{
}

/// Trimming takes off white space alone, on both sides, and leaves none at the ends.
pub proof fn trimming_takes_off_white_space(s: Seq<char>) -> (at: (int, int))
    ensures
        0 <= at.0 <= at.1 <= s.len(),
        trimmed(s) == s.subrange(at.0, at.1),
        forall|i: int| 0 <= i < at.0 ==> white_space(#[trigger] s[i]),
        forall|i: int| at.1 <= i < s.len() ==> white_space(#[trigger] s[i]),
        trimmed(s).len() > 0 ==> !white_space(trimmed(s)[0]) && !white_space(trimmed(s).last()),
{
    let from = lemma_leading(s);
    let rest = s.skip(from);
    let to = lemma_trailing(rest);
    assert(trimmed(s) =~= s.subrange(from, from + to));
    assert forall|i: int| from + to <= i < s.len() implies white_space(#[trigger] s[i]) by {
        assert(s[i] == rest[i - from]);
    }
    (from, from + to)
}

/// What goes off the front is white space.
proof fn lemma_leading(s: Seq<char>) -> (n: int)
    ensures
        0 <= n <= s.len(),
        without_leading(s) == s.skip(n),
        forall|i: int| 0 <= i < n ==> white_space(#[trigger] s[i]),
        n < s.len() ==> !white_space(s[n]),
    decreases s.len(),
{
    if s.len() == 0 || !white_space(s[0]) {
        assert(s.skip(0) =~= s);
        0
    } else {
        let n = lemma_leading(s.drop_first());
        assert(s.drop_first().skip(n) =~= s.skip(n + 1));
        assert forall|i: int| 0 <= i < n + 1 implies white_space(#[trigger] s[i]) by {
            if i > 0 {
                assert(s[i] == s.drop_first()[i - 1]);
            }
        }
        n + 1
    }
}

/// What goes off the end is white space.
proof fn lemma_trailing(s: Seq<char>) -> (n: int)
    ensures
        0 <= n <= s.len(),
        without_trailing(s) == s.take(n),
        forall|i: int| n <= i < s.len() ==> white_space(#[trigger] s[i]),
        n > 0 ==> !white_space(s[n - 1]),
    decreases s.len(),
{
    if s.len() == 0 || !white_space(s.last()) {
        assert(s.take(s.len() as int) =~= s);
        s.len() as int
    } else {
        let n = lemma_trailing(s.drop_last());
        assert(s.drop_last().take(n) =~= s.take(n));
        assert forall|i: int| n <= i < s.len() implies white_space(#[trigger] s[i]) by {
            if i < s.len() - 1 {
                assert(s[i] == s.drop_last()[i]);
            }
        }
        n
    }
}

/// The parts of a text are the runs between its commas: joined again, with a comma between two, they
/// make up the text, and none holds a comma. There are as many as commas and one more.
pub proof fn parts_are_the_runs_between_commas(parts: Seq<Seq<char>>, index: nat)
    requires
        0 < parts.len(),
        forall|i: int, j: int|
            0 <= i < parts.len() && 0 <= j < parts[i].len() ==> #[trigger] parts[i][j] != ',',
    ensures
        part(comma_joined(parts), index as int) == (if index < parts.len() {
            Some(parts[index as int])
        } else {
            None
        }),
    decreases index,
{
    let s = comma_joined(parts);
    let first = parts[0];
    let rest = parts.drop_first();
    if parts.len() == 1 {
        assert(s == first);
        lemma_first_comma(s, first.len() as int);
        assert(s.take(first.len() as int) =~= first);
    } else {
        let tail = comma_joined(rest);
        assert(s[first.len() as int] == ',');
        assert forall|j: int| 0 <= j < first.len() implies #[trigger] s[j] != ',' by {
            assert(s[j] == parts[0][j]);
        }
        lemma_first_comma(s, first.len() as int);
        assert(s.take(first.len() as int) =~= first);
        assert(s.skip(first.len() as int + 1) =~= tail);
        if index > 0 {
            assert forall|i: int, j: int|
                0 <= i < rest.len() && 0 <= j < rest[i].len() implies #[trigger] rest[i][j] != ',' by {
                assert(rest[i][j] == parts[i + 1][j]);
            }
            parts_are_the_runs_between_commas(rest, (index - 1) as nat);
        }
    }
}

/// Texts joined with commas.
pub open spec fn comma_joined(parts: Seq<Seq<char>>) -> Seq<char>
    decreases parts.len(),
{
    if parts.len() == 0 {
        Seq::empty()
    } else if parts.len() == 1 {
        parts[0]
    } else {
        parts[0] + seq![','] + comma_joined(parts.drop_first())
    }
}

/// Where the first comma stands.
proof fn lemma_first_comma(s: Seq<char>, at: int)
    requires
        0 <= at <= s.len(),
        forall|i: int| 0 <= i < at ==> #[trigger] s[i] != ',',
        at < s.len() ==> s[at] == ',',
    ensures
        first_comma(s) == at,
    decreases s.len(),
{
    if at > 0 {
        let rest = s.drop_first();
        assert(s[0] != ',');
        assert forall|i: int| 0 <= i < at - 1 implies #[trigger] rest[i] != ',' by {
            assert(rest[i] == s[i + 1]);
        }
        lemma_first_comma(rest, at - 1);
    }
}

/// The digits of a number, the highest first.
pub open spec fn written(n: nat) -> Seq<char>
    decreases n,
{
    let digit = ('0' as u32 + n % 10) as char;
    if n < 10 {
        seq![digit]
    } else {
        written(n / 10).push(digit)
    }
}

/// A number that is written in decimal digits is read back, with or without a plus sign before it.
pub proof fn written_numbers_are_read_back(n: u32)
    ensures
        parsed(written(n as nat)) == Some(n),
        parsed(seq!['+'] + written(n as nat)) == Some(n),
{
    lemma_written(n as nat);
    let digits = written(n as nat);
    assert(is_digit(digits[0]));
    assert((seq!['+'] + digits).drop_first() =~= digits);
}

/// Written numbers are digits that stand for the number.
proof fn lemma_written(n: nat)
    ensures
        written(n).len() > 0,
        forall|i: int| 0 <= i < written(n).len() ==> is_digit(#[trigger] written(n)[i]),
        decimal(written(n)) == n,
    decreases n,
{
    let digit = ('0' as u32 + n % 10) as char;
    assert(is_digit(digit) && digit as int - '0' as int == n % 10);
    if n < 10 {
        assert(written(n).drop_last() =~= Seq::<char>::empty());
        assert(decimal(Seq::<char>::empty()) == 0);
    } else {
        lemma_written(n / 10);
        assert(written(n).drop_last() =~= written(n / 10));
    }
}

/// Text that is no number is not read as one: a text with a character that is neither a digit nor a
/// plus sign at its beginning, or without digits.
pub proof fn other_texts_are_no_numbers(s: Seq<char>, i: int)
    requires
        0 <= i < s.len(),
        !is_digit(s[i]),
        i > 0 || s[0] != '+',
    ensures
        parsed(s) is None,
        parsed(Seq::<char>::empty()) is None,
        parsed(seq!['+']) is None,
{
    assert(seq!['+'].drop_first().len() == 0);
    if s[0] == '+' {
        assert(s.drop_first()[i - 1] == s[i]);
    } else {
        assert(digits_of(s)[i] == s[i]);
    }
}

/// A mask of numbers names the devices: the device of number `cuda_idx` is the one whose number
/// stands in that place of the mask, and the number itself past the mask's end or without a mask.
pub proof fn masks_number_the_devices(numbers: Seq<u32>, cuda_idx: u32)
    requires
        0 < numbers.len(),
    ensures
        unmasked(
            Some(comma_joined(numbers.map_values(|n: u32| written(n as nat)))),
            cuda_idx,
        ) == (if cuda_idx < numbers.len() {
            numbers[cuda_idx as int]
        } else {
            cuda_idx
        }),
        unmasked(None, cuda_idx) == cuda_idx,
{
    let parts = numbers.map_values(|n: u32| written(n as nat));
    let text = comma_joined(parts);
    assert forall|i: int| 0 <= i < parts.len() implies (#[trigger] parts[i]).len() > 0 && (forall|
        j: int,
    |
        0 <= j < parts[i].len() ==> is_digit(#[trigger] parts[i][j])) by {
        lemma_written(numbers[i] as nat);
    }
    assert forall|i: int, j: int|
        0 <= i < parts.len() && 0 <= j < parts[i].len() implies #[trigger] parts[i][j] != ',' by {
        assert(is_digit(parts[i][j]));
    }
    lemma_joined_ends(parts);
    lemma_trim_nothing(text);
    parts_are_the_runs_between_commas(parts, cuda_idx as nat);
    if cuda_idx < numbers.len() {
        let n = numbers[cuda_idx as int];
        let entry = parts[cuda_idx as int];
        lemma_written(n as nat);
        assert(is_digit(entry[0]) && is_digit(entry[entry.len() - 1]));
        lemma_trim_nothing(entry);
        written_numbers_are_read_back(n);
    }
}

/// Runs of digits that are joined begin and end with a digit.
proof fn lemma_joined_ends(parts: Seq<Seq<char>>)
    requires
        0 < parts.len(),
        forall|i: int|
            0 <= i < parts.len() ==> (#[trigger] parts[i]).len() > 0 && (forall|j: int|
                0 <= j < parts[i].len() ==> is_digit(#[trigger] parts[i][j])),
    ensures
        comma_joined(parts).len() > 0,
        is_digit(comma_joined(parts)[0]),
        is_digit(comma_joined(parts).last()),
    decreases parts.len(),
{
    assert(parts[0].len() > 0);
    assert(is_digit(parts[0][0]) && is_digit(parts[0][parts[0].len() - 1]));
    if parts.len() > 1 {
        let rest = parts.drop_first();
        assert forall|i: int| 0 <= i < rest.len() implies (#[trigger] rest[i]).len() > 0 && (forall|
            j: int,
        |
            0 <= j < rest[i].len() ==> is_digit(#[trigger] rest[i][j])) by {
            assert(rest[i] == parts[i + 1]);
        }
        lemma_joined_ends(rest);
        assert(comma_joined(parts).last() == comma_joined(rest).last());
    }
}

/// Text that begins and ends with a digit has nothing trimmed off.
proof fn lemma_trim_nothing(s: Seq<char>)
    requires
        s.len() > 0,
        is_digit(s[0]),
        is_digit(s.last()),
    ensures
        trimmed(s) == s,
{
    assert(!white_space(s[0]) && !white_space(s.last()));
}

/// A device that answers gives a budget of four fifths of its free bytes, rounded down; one that does
/// not gives its error.
pub proof fn budgets_are_four_fifths_of_what_is_free(free: u64, e: BudgetResolverError)
    ensures
        budget_from(Ok(free)) is Ok,
        5 * budget_from(Ok(free))->Ok_0 <= 4 * free < 5 * (budget_from(Ok(free))->Ok_0 + 1),
        budget_from(Err(e)) == Err::<u64, BudgetResolverError>(e),
{
}

/// White space are these characters and no others: tab to carriage return, the space, the next line,
/// the spaces that do not break, those of Ogham and of ideographs, the typographic and the
/// mathematical spaces, and the separators of lines and paragraphs.
pub proof fn white_space_has_twenty_five_characters(c: char)
    ensures
        white_space(c) <==> seq![
            9u32,
            10,
            11,
            12,
            13,
            32,
            133,
            160,
            5760,
            8192,
            8193,
            8194,
            8195,
            8196,
            8197,
            8198,
            8199,
            8200,
            8201,
            8202,
            8232,
            8233,
            8239,
            8287,
            12288,
        ].contains(c as u32),
{
    let all = seq![
        9u32,
        10,
        11,
        12,
        13,
        32,
        133,
        160,
        5760,
        8192,
        8193,
        8194,
        8195,
        8196,
        8197,
        8198,
        8199,
        8200,
        8201,
        8202,
        8232,
        8233,
        8239,
        8287,
        12288,
    ];
    let x = c as u32;
    assert(all[0] == 9 && all[1] == 10 && all[2] == 11 && all[3] == 12 && all[4] == 13);
    assert(all[5] == 32 && all[6] == 133 && all[7] == 160 && all[8] == 5760 && all[9] == 8192);
    assert(all[10] == 8193 && all[11] == 8194 && all[12] == 8195 && all[13] == 8196);
    assert(all[14] == 8197 && all[15] == 8198 && all[16] == 8199 && all[17] == 8200);
    assert(all[18] == 8201 && all[19] == 8202 && all[20] == 8232 && all[21] == 8233);
    assert(all[22] == 8239 && all[23] == 8287 && all[24] == 12288);
}

} // verus!
