//! Little-endian numbers in byte strings.

use vstd::bytes::{u32_from_le_bytes, u32_to_le_bytes, u64_from_le_bytes, u64_to_le_bytes};
use vstd::prelude::*;
use vstd::slice::slice_subrange;

use crate::math::layout;

verus! {

/// The four bytes of a number, the lowest first.
pub open spec fn le32(x: u32) -> Seq<u8> {
    vstd::bytes::spec_u32_to_le_bytes(x)
}

/// The eight bytes of a number, the lowest first.
pub open spec fn le64(x: u64) -> Seq<u8> {
    vstd::bytes::spec_u64_to_le_bytes(x)
}

/// A byte string starts at `at` with a part.
pub open spec fn has_at(bytes: Seq<u8>, at: int, part: Seq<u8>) -> bool {
    at + part.len() <= bytes.len() && bytes.subrange(at, at + part.len()) == part
}

/// The number whose four bytes stand at `at`.
pub open spec fn u32_at(bytes: Seq<u8>, at: int) -> u32 {
    vstd::bytes::spec_u32_from_le_bytes(bytes.subrange(at, at + 4))
}

/// The number whose eight bytes stand at `at`.
pub open spec fn u64_at(bytes: Seq<u8>, at: int) -> u64 {
    vstd::bytes::spec_u64_from_le_bytes(bytes.subrange(at, at + 8))
}

/// The `count` numbers of eight bytes each that stand from `at` on.
pub open spec fn words_at(bytes: Seq<u8>, at: int, count: int) -> Seq<u64> {
    Seq::new(count as nat, |i: int| u64_at(bytes, at + 8 * i))
}

/// Rows of `width` bytes each, one after the other.
pub open spec fn table(rows: Seq<Seq<u8>>, width: int) -> Seq<u8> {
    Seq::new((rows.len() * width) as nat, |t: int| rows[t / width][t % width])
}

/// The bytes of numbers, one after the other.
pub open spec fn run32(values: Seq<u32>) -> Seq<u8> {
    table(values.map_values(|x: u32| le32(x)), 4)
}

/// The bytes of numbers, one after the other.
pub open spec fn run64(values: Seq<u64>) -> Seq<u8> {
    table(values.map_values(|x: u64| le64(x)), 8)
}

/// Numbers and their bytes determine each other.
pub proof fn lemma_numbers()
    ensures
        forall|x: u32| (#[trigger] le32(x)).len() == 4,
        forall|x: u64| (#[trigger] le64(x)).len() == 8,
        forall|bytes: Seq<u8>, at: int|
            0 <= at && at + 4 <= bytes.len() ==> le32(#[trigger] u32_at(bytes, at))
                == bytes.subrange(at, at + 4),
        forall|bytes: Seq<u8>, at: int|
            0 <= at && at + 8 <= bytes.len() ==> le64(#[trigger] u64_at(bytes, at))
                == bytes.subrange(at, at + 8),
        forall|bytes: Seq<u8>, at: int, x: u64| #[trigger]
            has_at(bytes, at, le64(x)) ==> u64_at(bytes, at) == x,
        forall|bytes: Seq<u8>, at: int, x: u32| #[trigger]
            has_at(bytes, at, le32(x)) ==> u32_at(bytes, at) == x,
        forall|x: u32, y: u32| #[trigger] le32(x) == #[trigger] le32(y) ==> x == y,
        forall|x: u64, y: u64| #[trigger] le64(x) == #[trigger] le64(y) ==> x == y,
{
    vstd::bytes::lemma_auto_spec_u32_to_from_le_bytes();
    vstd::bytes::lemma_auto_spec_u64_to_from_le_bytes();
    assert forall|bytes: Seq<u8>, at: int, x: u64| #[trigger]
        has_at(bytes, at, le64(x)) implies u64_at(bytes, at) == x by {
        assert(le64(x).len() == 8);
    }
    assert forall|bytes: Seq<u8>, at: int, x: u32| #[trigger]
        has_at(bytes, at, le32(x)) implies u32_at(bytes, at) == x by {
        assert(le32(x).len() == 4);
    }
    assert forall|x: u32, y: u32| #[trigger] le32(x) == #[trigger] le32(y) implies x == y by {
        assert(le32(x).len() == 4 && le32(y).len() == 4);
    }
    assert forall|x: u64, y: u64| #[trigger] le64(x) == #[trigger] le64(y) implies x == y by {
        assert(le64(x).len() == 8 && le64(y).len() == 8);
    }
}

/// One more row is appended to the bytes.
pub proof fn lemma_table_push(rows: Seq<Seq<u8>>, row: Seq<u8>, width: int)
    requires
        0 <= width,
        row.len() == width,
    ensures
        table(rows.push(row), width) == table(rows, width) + row,
{
    let more = rows.push(row);
    assert((rows.len() + 1) * width == rows.len() * width + width) by (nonlinear_arith);
    assert(0 <= rows.len() * width) by (nonlinear_arith)
        requires
            0 <= width,
    ;
    assert forall|t: int| 0 <= t < more.len() * width implies #[trigger] table(more, width)[t] == (
    table(rows, width) + row)[t] by {
        if t < rows.len() * width {
            assert(width > 0) by (nonlinear_arith)
                requires
                    0 <= t < rows.len() * width,
                    0 <= width,
            ;
            layout::lemma_row_major(t, rows.len() as int, width);
        } else {
            layout::lemma_entry_in_range(
                rows.len() as int,
                t - rows.len() * width,
                more.len() as int,
                width,
            );
        }
    }
    assert(table(more, width) =~= table(rows, width) + row);
}

/// Rows can be read off their bytes.
pub proof fn lemma_table_rows(rows: Seq<Seq<u8>>, width: int, i: int)
    requires
        0 <= width,
        0 <= i < rows.len(),
        rows[i].len() == width,
    ensures
        0 <= i * width,
        i * width + width <= table(rows, width).len(),
        table(rows, width).subrange(i * width, i * width + width) == rows[i],
{
    assert(0 <= i * width && i * width + width <= rows.len() * width) by (nonlinear_arith)
        requires
            0 <= width,
            0 <= i < rows.len(),
    ;
    let part = table(rows, width).subrange(i * width, i * width + width);
    assert forall|j: int| 0 <= j < width implies #[trigger] part[j] == rows[i][j] by {
        layout::lemma_entry_in_range(i, j, rows.len() as int, width);
        assert(part[j] == table(rows, width)[i * width + j]);
    }
    assert(part =~= rows[i]);
}

/// Tables of as many rows of one width are equal only if the rows are.
pub proof fn lemma_table_injective(a: Seq<Seq<u8>>, b: Seq<Seq<u8>>, width: int)
    requires
        0 <= width,
        a.len() == b.len(),
        forall|i: int| 0 <= i < a.len() ==> (#[trigger] a[i]).len() == width,
        forall|i: int| 0 <= i < b.len() ==> (#[trigger] b[i]).len() == width,
        table(a, width) == table(b, width),
    ensures
        a == b,
{
    assert forall|i: int| 0 <= i < a.len() implies a[i] == b[i] by {
        lemma_table_rows(a, width, i);
        lemma_table_rows(b, width, i);
    }
    assert(a =~= b);
}

/// The bytes of a text.
pub open spec fn text_bytes(text: Seq<char>) -> Seq<u8> {
    vstd::utf8::encode_utf8(text)
}

/// The byte strings of a list.
pub open spec fn contents(parts: Seq<Vec<u8>>) -> Seq<Seq<u8>> {
    parts.map_values(|part: Vec<u8>| part@)
}

/// A text as bytes.
pub fn text(s: &str) -> (r: Vec<u8>)
    ensures
        r@ == text_bytes(s@),
{
    let mut r: Vec<u8> = Vec::new();
    r.extend_from_slice(s.as_bytes());
    assert(r@ =~= text_bytes(s@));
    r
}

/// A number as bytes.
pub fn number(x: u64) -> (r: Vec<u8>)
    ensures
        r@ == le64(x),
{
    u64_to_le_bytes(x)
}

/// A copy of bytes.
pub fn copy(part: &[u8]) -> (r: Vec<u8>)
    ensures
        r@ == part@,
{
    let mut r: Vec<u8> = Vec::new();
    r.extend_from_slice(part);
    assert(r@ =~= part@);
    r
}

/// Appends the four bytes of a number.
pub fn put_u32(out: &mut Vec<u8>, x: u32)
    ensures
        final(out)@ == old(out)@ + le32(x),
{
    let bytes: Vec<u8> = u32_to_le_bytes(x);
    out.extend_from_slice(&bytes);
}

/// Appends the eight bytes of a number.
pub fn put_u64(out: &mut Vec<u8>, x: u64)
    ensures
        final(out)@ == old(out)@ + le64(x),
{
    let bytes: Vec<u8> = u64_to_le_bytes(x);
    out.extend_from_slice(&bytes);
}

/// Appends the bytes of numbers, one after the other.
pub fn put_u32s(out: &mut Vec<u8>, values: &[u32])
    ensures
        final(out)@ == old(out)@ + run32(values@),
{
    let ghost start = out@;
    assert(run32(values@.take(0)) =~= Seq::<u8>::empty());
    for i in 0..values.len()
        invariant
            out@ == start + run32(values@.take(i as int)),
    {
        proof {
            lemma_numbers();
            let rows = values@.take(i as int).map_values(|x: u32| le32(x));
            lemma_table_push(rows, le32(values@[i as int]), 4);
            assert(values@.take(i + 1).map_values(|x: u32| le32(x)) =~= rows.push(
                le32(values@[i as int]),
            ));
        }
        put_u32(out, values[i]);
    }
    assert(values@.take(values@.len() as int) =~= values@);
}

/// Appends the bytes of numbers, one after the other.
pub fn put_u64s(out: &mut Vec<u8>, values: &[u64])
    ensures
        final(out)@ == old(out)@ + run64(values@),
{
    let ghost start = out@;
    assert(run64(values@.take(0)) =~= Seq::<u8>::empty());
    for i in 0..values.len()
        invariant
            out@ == start + run64(values@.take(i as int)),
    {
        proof {
            lemma_numbers();
            let rows = values@.take(i as int).map_values(|x: u64| le64(x));
            lemma_table_push(rows, le64(values@[i as int]), 8);
            assert(values@.take(i + 1).map_values(|x: u64| le64(x)) =~= rows.push(
                le64(values@[i as int]),
            ));
        }
        put_u64(out, values[i]);
    }
    assert(values@.take(values@.len() as int) =~= values@);
}

/// Reads a number of four bytes at `at`, if that many are left.
pub fn get_u32(bytes: &[u8], at: usize) -> (r: Option<u32>)
    requires
        at <= bytes@.len(),
    ensures
        r == (if at + 4 <= bytes@.len() {
            Some(u32_at(bytes@, at as int))
        } else {
            None
        }),
{
    if bytes.len() - at < 4 {
        return None;
    }
    Some(u32_from_le_bytes(slice_subrange(bytes, at, at + 4)))
}

/// Reads a number of eight bytes at `at`, if that many are left.
pub fn get_u64(bytes: &[u8], at: usize) -> (r: Option<u64>)
    requires
        at <= bytes@.len(),
    ensures
        r == (if at + 8 <= bytes@.len() {
            Some(u64_at(bytes@, at as int))
        } else {
            None
        }),
{
    if bytes.len() - at < 8 {
        return None;
    }
    Some(u64_from_le_bytes(slice_subrange(bytes, at, at + 8)))
}

/// Reads 32 bytes at `at`, if that many are left.
pub fn get_seed(bytes: &[u8], at: usize) -> (r: Option<[u8; 32]>)
    requires
        at <= bytes@.len(),
    ensures
        r is Some <==> at + 32 <= bytes@.len(),
        r matches Some(seed) ==> seed@ == bytes@.subrange(at as int, at + 32),
{
    if bytes.len() - at < 32 {
        return None;
    }
    let mut seed: [u8; 32] = [0u8; 32];
    for i in 0..32
        invariant
            at + 32 <= bytes@.len(),
            bytes.len() == bytes@.len(),
            forall|j: int| 0 <= j < i ==> #[trigger] seed@[j] == bytes@[at + j],
    {
        seed[i] = bytes[at + i];
    }
    assert(seed@ =~= bytes@.subrange(at as int, at + 32));
    Some(seed)
}

/// Reads `count` numbers of four bytes each at `at`, if that many are left.
pub fn get_u32s(bytes: &[u8], at: usize, count: usize) -> (r: Option<Vec<u32>>)
    requires
        at <= bytes@.len(),
    ensures
        r is Some <==> at + 4 * count <= bytes@.len(),
        r matches Some(values) ==> values@.len() == count && has_at(
            bytes@,
            at as int,
            run32(values@),
        ),
{
    if (bytes.len() - at) / 4 < count {
        return None;
    }
    let mut values: Vec<u32> = Vec::with_capacity(count);
    assert(bytes@.subrange(at as int, at as int) =~= run32(values@));
    for i in 0..count
        invariant
            at + 4 * count <= bytes@.len(),
            bytes.len() == bytes@.len(),
            values@.len() == i,
            bytes@.subrange(at as int, at + 4 * i) == run32(values@),
    {
        let ghost before = values@;
        let x: u32 = u32_from_le_bytes(slice_subrange(bytes, at + 4 * i, at + 4 * i + 4));
        values.push(x);
        proof {
            lemma_numbers();
            assert(x == u32_at(bytes@, at + 4 * i));
            let rows = before.map_values(|y: u32| le32(y));
            lemma_table_push(rows, le32(x), 4);
            assert(values@.map_values(|y: u32| le32(y)) =~= rows.push(le32(x)));
            assert(bytes@.subrange(at as int, at + 4 * (i + 1)) =~= bytes@.subrange(
                at as int,
                at + 4 * i,
            ) + bytes@.subrange(at + 4 * i, at + 4 * i + 4));
        }
    }
    assert(run32(values@).len() == 4 * count);
    Some(values)
}

/// Reads `count` numbers of eight bytes each at `at`, if that many are left.
pub fn get_u64s(bytes: &[u8], at: usize, count: usize) -> (r: Option<Vec<u64>>)
    requires
        at <= bytes@.len(),
    ensures
        r is Some <==> at + 8 * count <= bytes@.len(),
        r matches Some(values) ==> values@ == words_at(bytes@, at as int, count as int),
        r matches Some(values) ==> has_at(bytes@, at as int, run64(values@)),
{
    if (bytes.len() - at) / 8 < count {
        return None;
    }
    let mut values: Vec<u64> = Vec::with_capacity(count);
    assert(bytes@.subrange(at as int, at as int) =~= run64(values@));
    for i in 0..count
        invariant
            at + 8 * count <= bytes@.len(),
            bytes.len() == bytes@.len(),
            values@ == words_at(bytes@, at as int, i as int),
            bytes@.subrange(at as int, at + 8 * i) == run64(values@),
    {
        let ghost before = values@;
        let x: u64 = u64_from_le_bytes(slice_subrange(bytes, at + 8 * i, at + 8 * i + 8));
        values.push(x);
        proof {
            lemma_numbers();
            assert(x == u64_at(bytes@, at + 8 * i));
            assert(values@ =~= words_at(bytes@, at as int, i + 1));
            let rows = before.map_values(|y: u64| le64(y));
            lemma_table_push(rows, le64(x), 8);
            assert(values@.map_values(|y: u64| le64(y)) =~= rows.push(le64(x)));
            assert(bytes@.subrange(at as int, at + 8 * (i + 1)) =~= bytes@.subrange(
                at as int,
                at + 8 * i,
            ) + bytes@.subrange(at + 8 * i, at + 8 * i + 8));
        }
    }
    assert(run64(values@).len() == 8 * count);
    Some(values)
}

/// The numbers that are read where numbers were written.
pub proof fn lemma_words_of_run(bytes: Seq<u8>, at: int, values: Seq<u64>)
    requires
        0 <= at,
        has_at(bytes, at, run64(values)),
    ensures
        words_at(bytes, at, values.len() as int) == values,
{
    lemma_numbers();
    let rows = values.map_values(|x: u64| le64(x));
    assert forall|i: int| 0 <= i < values.len() implies #[trigger] u64_at(bytes, at + 8 * i)
        == values[i] by {
        lemma_table_rows(rows, 8, i);
        assert(bytes.subrange(at + 8 * i, at + 8 * i + 8) =~= bytes.subrange(
            at,
            at + run64(values).len(),
        ).subrange(i * 8, i * 8 + 8));
        assert(has_at(bytes, at + 8 * i, le64(values[i])));
    }
    assert(words_at(bytes, at, values.len() as int) =~= values);
}

/// Numbers can be read back off their bytes.
pub proof fn runs_are_injective(a: Seq<u64>, b: Seq<u64>)
    requires
        run64(a) == run64(b),
    ensures
        a == b,
{
    lemma_numbers();
    let ra = a.map_values(|x: u64| le64(x));
    let rb = b.map_values(|x: u64| le64(x));
    assert(a.len() == b.len()) by {
        assert(run64(a).len() == a.len() * 8);
        assert(run64(b).len() == b.len() * 8);
    }
    lemma_table_injective(ra, rb, 8);
    assert forall|i: int| 0 <= i < a.len() implies a[i] == b[i] by {
        assert(ra[i] == rb[i]);
        assert(le64(a[i]) == le64(b[i]));
    }
    assert(a =~= b);
}

/// Numbers can be read back off their bytes.
pub proof fn runs_of_words_are_injective(a: Seq<u32>, b: Seq<u32>)
    requires
        run32(a) == run32(b),
    ensures
        a == b,
{
    lemma_numbers();
    let ra = a.map_values(|x: u32| le32(x));
    let rb = b.map_values(|x: u32| le32(x));
    assert(a.len() == b.len()) by {
        assert(run32(a).len() == a.len() * 4);
        assert(run32(b).len() == b.len() * 4);
    }
    lemma_table_injective(ra, rb, 4);
    assert forall|i: int| 0 <= i < a.len() implies a[i] == b[i] by {
        assert(ra[i] == rb[i]);
        assert(le32(a[i]) == le32(b[i]));
    }
    assert(a =~= b);
}

/// Numbers stand in their bytes one after the other, four bytes each.
pub proof fn runs_of_words_hold_each_word(values: Seq<u32>, i: int)
    requires
        0 <= i < values.len(),
    ensures
        run32(values).len() == 4 * values.len(),
        run32(values).subrange(4 * i, 4 * i + 4) == vstd::bytes::spec_u32_to_le_bytes(values[i]),
        vstd::bytes::spec_u32_from_le_bytes(run32(values).subrange(4 * i, 4 * i + 4)) == values[i],
{
    lemma_numbers();
    let rows = values.map_values(|x: u32| le32(x));
    assert(rows[i].len() == 4);
    lemma_table_rows(rows, 4, i);
    assert(has_at(run32(values), 4 * i, le32(values[i])));
}

/// Numbers stand in their bytes one after the other, eight bytes each.
pub proof fn runs_hold_each_number(values: Seq<u64>, i: int)
    requires
        0 <= i < values.len(),
    ensures
        run64(values).len() == 8 * values.len(),
        run64(values).subrange(8 * i, 8 * i + 8) == vstd::bytes::spec_u64_to_le_bytes(values[i]),
        vstd::bytes::spec_u64_from_le_bytes(run64(values).subrange(8 * i, 8 * i + 8)) == values[i],
{
    lemma_numbers();
    let rows = values.map_values(|x: u64| le64(x));
    assert(rows[i].len() == 8);
    lemma_table_rows(rows, 8, i);
    assert(has_at(run64(values), 8 * i, le64(values[i])));
}

/// Numbers that are read from bytes are those whose bytes stand there, one after the other.
pub proof fn words_are_read_in_place(bytes: Seq<u8>, at: int, count: nat, i: int)
    requires
        0 <= at,
        at + 8 * count <= bytes.len(),
        0 <= i < count,
    ensures
        words_at(bytes, at, count as int).len() == count,
        vstd::bytes::spec_u64_to_le_bytes(words_at(bytes, at, count as int)[i]) == bytes.subrange(
            at + 8 * i,
            at + 8 * i + 8,
        ),
{
    lemma_numbers();
    assert(le64(u64_at(bytes, at + 8 * i)) == bytes.subrange(at + 8 * i, at + 8 * i + 8));
}

/// The byte strings of a list stand in the order of the list, each with all its bytes.
pub proof fn contents_hold_every_byte(parts: Seq<Vec<u8>>, i: int, j: int)
    requires
        0 <= i < parts.len(),
        0 <= j < parts[i]@.len(),
    ensures
        contents(parts).len() == parts.len(),
        contents(parts)[i].len() == parts[i]@.len(),
        contents(parts)[i][j] == parts[i]@[j],
{
}

/// The bytes of a text are its UTF-8 encoding: decoding gives the text back, so that different texts
/// have different bytes.
pub proof fn bytes_of_a_text_decode_to_it(text: Seq<char>, other: Seq<char>)
    ensures
        vstd::utf8::valid_utf8(text_bytes(text)),
        vstd::utf8::decode_utf8(text_bytes(text)) == text,
        text_bytes(text) == text_bytes(other) <==> text == other,
{
    vstd::utf8::encode_utf8_valid_utf8(text);
    vstd::utf8::encode_utf8_decode_utf8(text);
    vstd::utf8::encode_utf8_decode_utf8(other);
}

} // verus!
