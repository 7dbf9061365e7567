//! Reading one record of three fields, a key and two coordinates, out of a
//! `csv::ByteRecord`.

use vstd::prelude::*;
use vstd::slice::*;
use vstd::string::StringSliceAdditionalSpecFns;
use vstd::utf8::{decode_utf8, valid_utf8, encode_utf8_decode_utf8};

verus! {

/// A record of the `csv` crate: a row of byte-string fields.
#[verifier::external_type_specification]
#[verifier::external_body]
pub struct ExByteRecord(csv::ByteRecord);

/// The fields of a record, in order, each as its bytes.
pub uninterp spec fn record_fields(r: csv::ByteRecord) -> Seq<Seq<u8>>;

/// `ByteRecord::get`: the bytes of field `i`, or nothing if the record has no
/// such field.
#[verifier::external_body]
fn field<'a>(record: &'a csv::ByteRecord, i: usize) -> (res: Option<&'a [u8]>)
    ensures
        res is Some <==> i < record_fields(*record).len(),
        res matches Some(f) ==> f@ == record_fields(*record)[i as int],
{
    record.get(i)
}

/// `str::from_utf8`: the bytes as text if they are well-formed UTF-8, nothing
/// otherwise. The text is the very same bytes.
#[verifier::external_body]
fn text_of<'a>(bytes: &'a [u8]) -> (res: Option<&'a str>)
    ensures
        res is Some <==> valid_utf8(bytes@),
        res matches Some(s) ==> s.spec_bytes() == bytes@,
{
    std::str::from_utf8(bytes).ok()
}

pub const MINUS: u8 = 45;

pub const PLUS: u8 = 43;

pub const ZERO: u8 = 48;

pub const NINE: u8 = 57;

/// Every byte is an ASCII digit.
pub open spec fn all_digits(d: Seq<u8>) -> bool {
    forall|i: int| 0 <= i < d.len() ==> ZERO <= #[trigger] d[i] <= NINE
}

/// The number that a string of digits writes in base ten.
pub open spec fn digits_value(d: Seq<u8>) -> nat
    decreases d.len(),
{
    if d.len() == 0 {
        0
    } else {
        (digits_value(d.drop_last()) * 10 + (d.last() - ZERO)) as nat
    }
}

/// The `i32` that `s` writes in base ten: an optional `+` or `-`, then one or
/// more digits and nothing else, the whole within the range of `i32`.
pub open spec fn decimal_i32(s: Seq<u8>) -> Option<int> {
    let signed = s.len() > 0 && (s[0] == MINUS || s[0] == PLUS);
    let d = if signed {
        s.subrange(1, s.len() as int)
    } else {
        s
    };
    let v = if s.len() > 0 && s[0] == MINUS {
        -(digits_value(d) as int)
    } else {
        digits_value(d) as int
    };
    if d.len() > 0 && all_digits(d) && i32::MIN <= v <= i32::MAX {
        Some(v)
    } else {
        None
    }
}

/// What a record's fields give: the key and the two coordinates, if there are
/// at least three fields, the first is text and the next two write an `i32`
/// each. Fields past the third are not looked at.
pub open spec fn parsed(fields: Seq<Seq<u8>>) -> Option<(Seq<char>, int, int)> {
    if fields.len() >= 3 && valid_utf8(fields[0]) && decimal_i32(fields[1]) is Some && decimal_i32(
        fields[2],
    ) is Some {
        Some((decode_utf8(fields[0]), decimal_i32(fields[1])->0, decimal_i32(fields[2])->0))
    } else {
        None
    }
}

/// A string of digits is worth at least as much as any of its beginnings.
pub proof fn lemma_digits_grow(d: Seq<u8>, i: int)
    requires
        0 <= i <= d.len(),
        all_digits(d),
    ensures
        digits_value(d.take(i)) <= digits_value(d),
    decreases d.len() - i,
{
    if i < d.len() {
        lemma_digits_grow(d, i + 1);
        assert(d.take(i + 1).drop_last() =~= d.take(i));
        assert(d.take(i + 1).last() == d[i]);
    } else {
        assert(d.take(i) =~= d);
    }
}

/// Reads an `i32` written in base ten.
pub fn parse_i32(bytes: &[u8]) -> (res: Option<i32>)
    ensures
        res matches Some(v) ==> decimal_i32(bytes@) == Some(v as int),
        res is None ==> decimal_i32(bytes@) is None,
{
    let n: usize = bytes.len();
    if n == 0 {
        return None;
    }
    let negative: bool = bytes[0] == MINUS;
    let start: usize = if bytes[0] == MINUS || bytes[0] == PLUS {
        1
    } else {
        0
    };
    if start == n {
        return None;
    }
    let ghost d = bytes@.subrange(start as int, n as int);
    assert(start == 0 ==> d =~= bytes@);
    let mut acc: i64 = 0;
    let mut i: usize = start;
    assert(d.take(0) =~= Seq::<u8>::empty());
    while i < n
        invariant
            start <= i <= n,
            n == bytes@.len(),
            n > 0,
            start <= 1,
            start == 1 <==> (bytes@[0] == MINUS || bytes@[0] == PLUS),
            start == 0 ==> d == bytes@,
            d == bytes@.subrange(start as int, n as int),
            0 <= acc <= 0x8000_0000,
            acc == digits_value(d.take(i - start)),
            all_digits(d.take(i - start)),
        decreases n - i,
    {
        let b: u8 = bytes[i];
        proof {
            assert(d.take(i - start + 1).drop_last() =~= d.take(i - start));
            assert(d.take(i - start + 1).last() == b);
        }
        if b < ZERO || b > NINE {
            assert(!all_digits(d)) by {
                assert(d[i - start] == b);
            }
            return None;
        }
        acc = acc * 10 + (b - ZERO) as i64;
        if acc > 0x8000_0000 {
            proof {
                if all_digits(d) {
                    lemma_digits_grow(d, i - start + 1);
                }
            }
            return None;
        }
        i += 1;
    }
    assert(d.take(n - start) =~= d);
    if negative {
        Some((-acc) as i32)
    } else if acc > 0x7fff_ffff {
        None
    } else {
        Some(acc as i32)
    }
}

/// Reads the key and the two coordinates off the first three fields of a
/// record.
pub fn parse_line<'a>(record: &'a csv::ByteRecord) -> (res: Option<(&'a str, i32, i32)>)
    ensures
        res matches Some(row) ==> parsed(record_fields(*record)) == Some(
            (row.0@, row.1 as int, row.2 as int),
        ),
        res is None ==> parsed(record_fields(*record)) is None,
{
    let key: &str = match field(record, 0) {
        Some(f) => match text_of(f) {
            Some(s) => s,
            None => {
                return None;
            },
        },
        None => {
            return None;
        },
    };
    let start: i32 = match field(record, 1) {
        Some(f) => match parse_i32(f) {
            Some(v) => v,
            None => {
                return None;
            },
        },
        None => {
            return None;
        },
    };
    let end: i32 = match field(record, 2) {
        Some(f) => match parse_i32(f) {
            Some(v) => v,
            None => {
                return None;
            },
        },
        None => {
            return None;
        },
    };
    proof {
        encode_utf8_decode_utf8(key@);
    }
    Some((key, start, end))
}

} // verus!
