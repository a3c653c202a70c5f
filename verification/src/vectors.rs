//! Vectors as they are stored and searched: their bytes, and the rows of a partition.
//!
//! Single precision numbers stand here as their bit patterns.

use crate::bits;
use crate::chars;
use crate::embeddings::EmbeddingSpace;
use crate::error::{Error, ErrorView};
use crate::ordering;
use crate::ranking;
use crate::ranking::{Scored, TopList};
use crate::storage;
use crate::types;
use crate::types::{RecordKey, RecordKind};
use std::collections::HashSet;
use vstd::prelude::*;

verus! {

// ── Bytes ─────────────────────────────────────────────────────────────

/// A vector as it is stored: each value by itself, or one byte for each and a common scale.
#[derive(Debug)]
pub enum StoredVector {
    Singles(Vec<u32>),
    Quantized { scale: u32, codes: Vec<i8> },
}

/// The name of the encoding of a stored vector.
pub open spec fn encoding_of(vector: StoredVector) -> Seq<char> {
    match vector {
        StoredVector::Singles(_) => "f32"@,
        StoredVector::Quantized { .. } => "sq8"@,
    }
}

/// The number of values of a stored vector.
pub open spec fn vector_len(vector: StoredVector) -> nat {
    match vector {
        StoredVector::Singles(values) => values@.len(),
        StoredVector::Quantized { codes, .. } => codes@.len(),
    }
}

/// The four bytes of a single, the lowest first.
pub open spec fn single_bytes(bits: u32) -> Seq<u8> {
    seq![
        (bits % 256) as u8,
        (bits / 256 % 256) as u8,
        (bits / 65_536 % 256) as u8,
        (bits / 16_777_216) as u8,
    ]
}

/// The single whose bytes stand at a place.
pub open spec fn single_at(bytes: Seq<u8>, at: int) -> int {
    bytes[at] + 256 * bytes[at + 1] + 65_536 * bytes[at + 2] + 16_777_216 * bytes[at + 3]
}

/// The byte of a code: its two's complement.
pub open spec fn code_byte(code: i8) -> int {
    if code < 0 {
        code + 256
    } else {
        code as int
    }
}

/// The bytes of all values, in order.
pub open spec fn singles_bytes(values: Seq<u32>) -> Seq<u8>
    decreases values.len(),
{
    if values.len() == 0 {
        Seq::empty()
    } else {
        singles_bytes(values.drop_last()) + single_bytes(values.last())
    }
}

/// The bytes of a stored vector: those of its values, or those of its scale and a byte for each code.
pub open spec fn vector_bytes(vector: StoredVector) -> Seq<u8> {
    match vector {
        StoredVector::Singles(values) => singles_bytes(values@),
        StoredVector::Quantized { scale, codes } => single_bytes(scale) + Seq::new(
            codes@.len(),
            |i: int| code_byte(codes@[i]) as u8,
        ),
    }
}

fn push_single(bytes: &mut Vec<u8>, bits: u32)
    ensures
        final(bytes)@ == old(bytes)@ + single_bytes(bits),
{
    let ghost before = bytes@;
    bytes.push((bits % 256) as u8);
    bytes.push((bits / 256 % 256) as u8);
    bytes.push((bits / 65_536 % 256) as u8);
    bytes.push((bits / 16_777_216) as u8);
    assert(bytes@ == before + single_bytes(bits));
}

fn read_single(bytes: &Vec<u8>, at: usize) -> (out: u32)
    requires
        at + 4 <= bytes.len(),
    ensures
        out == single_at(bytes@, at as int),
        out == bytes@[at as int] + 0x100 * bytes@[at + 1] + 0x1_0000 * bytes@[at + 2] + 0x100_0000 * bytes@[at + 3],
{
    bytes[at] as u32 + 256 * (bytes[at + 1] as u32) + 65_536 * (bytes[at + 2] as u32) + 16_777_216 * (bytes[at + 3] as u32)
}

/// The bytes spell the vector: each number in four bytes, the lowest first; the codes of a quantized
/// vector in one byte each, behind its scale.
pub open spec fn bytes_spell(vector: StoredVector, bytes: Seq<u8>) -> bool {
    match vector {
        StoredVector::Singles(values) => {
            &&& bytes.len() == 4 * values@.len()
            &&& forall|i: int|
                0 <= i < values@.len() ==> (#[trigger] values@[i]) as int == bytes[4 * i] + 0x100 * bytes[4 * i + 1] + 0x1_0000 * bytes[4 * i + 2]
                    + 0x100_0000 * bytes[4 * i + 3]
        },
        StoredVector::Quantized { scale, codes } => {
            &&& bytes.len() == 4 + codes@.len()
            &&& scale as int == bytes[0] + 0x100 * bytes[1] + 0x1_0000 * bytes[2] + 0x100_0000 * bytes[3]
            &&& forall|i: int|
                0 <= i < codes@.len() ==> {
                    let c = (#[trigger] codes@[i]) as int;
                    bytes[4 + i] as int == (if c >= 0 { c } else { c + 0x100 })
                }
        },
    }
}

/// What is written for a vector spells it.
pub proof fn bytes_are_spelled(vector: StoredVector)
    ensures
        bytes_spell(vector, vector_bytes(vector)),
{
    let bytes = vector_bytes(vector);
    match vector {
        StoredVector::Singles(values) => {
            singles_are_read_back(values@);
            assert forall|i: int| 0 <= i < values@.len() implies (#[trigger] values@[i]) as int == bytes[4 * i] + 0x100 * bytes[4 * i + 1]
                + 0x1_0000 * bytes[4 * i + 2] + 0x100_0000 * bytes[4 * i + 3] by {
                assert(single_at(bytes, 4 * i) == values@[i] as int);
            }
        },
        StoredVector::Quantized { scale, codes } => {
            assert(bytes.subrange(0, 4) == single_bytes(scale));
            single_is_read_back(bytes, 0, scale);
            assert forall|i: int| 0 <= i < codes@.len() implies ({
                let c = (#[trigger] codes@[i]) as int;
                bytes[4 + i] as int == (if c >= 0 { c } else { c + 0x100 })
            }) by {
                assert(bytes[4 + i] == code_byte(codes@[i]) as u8);
            }
        },
    }
}

/// The bytes under which a vector is stored.
pub fn encode_values(vector: &StoredVector) -> (out: Vec<u8>)
    ensures
        out@ == vector_bytes(*vector),
        bytes_spell(*vector, out@),
{
    proof {
        bytes_are_spelled(*vector);
    }
    let mut out: Vec<u8> = Vec::new();
    match vector {
        StoredVector::Singles(values) => {
            let mut i: usize = 0;
            while i < values.len()
                invariant
                    i <= values.len(),
                    out@ == singles_bytes(values@.take(i as int)),
                decreases values.len() - i,
            {
                push_single(&mut out, values[i]);
                assert(values@.take(i + 1).drop_last() == values@.take(i as int));
                i = i + 1;
            }
            assert(values@.take(values@.len() as int) == values@);
        },
        StoredVector::Quantized { scale, codes } => {
            push_single(&mut out, *scale);
            let ghost all = Seq::new(codes@.len(), |i: int| code_byte(codes@[i]) as u8);
            assert(out@ == single_bytes(*scale) + all.take(0));
            let mut i: usize = 0;
            while i < codes.len()
                invariant
                    i <= codes.len(),
                    all == Seq::new(codes@.len(), |i: int| code_byte(codes@[i]) as u8),
                    out@ == single_bytes(*scale) + all.take(i as int),
                decreases codes.len() - i,
            {
                let code: i8 = codes[i];
                let byte: u8 = if code < 0 {
                    (code as i16 + 256) as u8
                } else {
                    code as u8
                };
                out.push(byte);
                assert(all.take(i + 1) == all.take(i as int).push(byte));
                assert(out@ == single_bytes(*scale) + all.take(i + 1));
                i = i + 1;
            }
            assert(all.take(all.len() as int) == all);
        },
    }
    out
}

/// Why stored bytes are no vector of an encoding and a dimension, if they are not.
pub open spec fn bytes_error(len: nat, dimension: int, encoding: Seq<char>) -> Option<ErrorView> {
    if encoding == "f32"@ {
        if len != 4 * dimension {
            Some(ErrorView::InvalidVector("stored vector dimension mismatch"@))
        } else {
            None
        }
    } else if encoding == "sq8"@ {
        if len != dimension + 4 {
            Some(ErrorView::InvalidVector("stored vector dimension mismatch"@))
        } else {
            None
        }
    } else {
        Some(ErrorView::Validation("unknown encoding "@ + encoding))
    }
}

/// A vector that holds what stands in the bytes.
pub open spec fn holds_bytes(vector: StoredVector, bytes: Seq<u8>) -> bool {
    match vector {
        StoredVector::Singles(values) => {
            &&& bytes.len() == 4 * values@.len()
            &&& forall|i: int| 0 <= i < values@.len() ==> (#[trigger] values@[i]) as int == single_at(bytes, 4 * i)
        },
        StoredVector::Quantized { scale, codes } => {
            &&& bytes.len() == codes@.len() + 4
            &&& scale as int == single_at(bytes, 0)
            &&& forall|i: int| 0 <= i < codes@.len() ==> code_byte(#[trigger] codes@[i]) == bytes[i + 4] as int
        },
    }
}

/// The scale and the codes of a quantized vector.
pub fn decode_sq8(bytes: &Vec<u8>, dimension: usize) -> (out: Result<(u32, Vec<i8>), Error>)
    ensures
        storage::refused(out, bytes_error(bytes@.len(), dimension as int, "sq8"@)),
        out matches Ok(found) ==> holds_bytes(StoredVector::Quantized { scale: found.0, codes: found.1 }, bytes@),
{
    proof {
        encodings_differ();
    }
    if bytes.len() < 4 || bytes.len() - 4 != dimension {
        return Err(Error::InvalidVector("stored vector dimension mismatch".to_owned()));
    }
    let scale: u32 = read_single(bytes, 0);
    let mut codes: Vec<i8> = Vec::new();
    let mut i: usize = 4;
    while i < bytes.len()
        invariant
            4 <= i <= bytes.len(),
            codes@.len() == i - 4,
            forall|k: int| 0 <= k < codes@.len() ==> code_byte(#[trigger] codes@[k]) == bytes@[k + 4] as int,
        decreases bytes.len() - i,
    {
        let byte: u8 = bytes[i];
        let code: i8 = if byte < 128 {
            byte as i8
        } else {
            (byte as i16 - 256) as i8
        };
        codes.push(code);
        i = i + 1;
    }
    Ok((scale, codes))
}

/// Reads a stored vector. Its length has to be that of the encoding.
pub fn decode_values(bytes: &Vec<u8>, dimension: usize, encoding: &str) -> (out: Result<StoredVector, Error>)
    ensures
        storage::refused(out, bytes_error(bytes@.len(), dimension as int, encoding@)),
        out matches Ok(vector) ==> {
            &&& encoding_of(vector) == encoding@
            &&& vector_len(vector) == dimension
            &&& holds_bytes(vector, bytes@)
            &&& bytes_spell(vector, bytes@)
        },
        out is Ok <==> encoding@ == "f32"@ && bytes@.len() == 4 * dimension || encoding@ == "sq8"@ && bytes@.len() == dimension + 4,
{
    proof {
        encodings_differ();
    }
    if ordering::same_text(encoding, "f32") {
        if bytes.len() % 4 != 0 || bytes.len() / 4 != dimension {
            return Err(Error::InvalidVector("stored vector dimension mismatch".to_owned()));
        }
        let mut values: Vec<u32> = Vec::new();
        let mut i: usize = 0;
        while i < dimension
            invariant
                i <= dimension,
                bytes.len() == 4 * dimension,
                values@.len() == i,
                forall|k: int| 0 <= k < values@.len() ==> (#[trigger] values@[k]) as int == single_at(bytes@, 4 * k),
            decreases dimension - i,
        {
            values.push(read_single(bytes, 4 * i));
            i = i + 1;
        }
        return Ok(StoredVector::Singles(values));
    }
    if ordering::same_text(encoding, "sq8") {
        return match decode_sq8(bytes, dimension) {
            Ok((scale, codes)) => Ok(StoredVector::Quantized { scale, codes }),
            Err(error) => Err(error),
        };
    }
    Err(Error::Validation(chars::concat("unknown encoding ", encoding)))
}

proof fn encodings_differ()
    ensures
        "f32"@ != "sq8"@,
{
    reveal_strlit("f32");
    reveal_strlit("sq8");
    assert("f32"@[0] == 'f');
    assert("sq8"@[0] == 's');
}

proof fn single_is_read_back(bytes: Seq<u8>, at: int, bits: u32)
    requires
        0 <= at,
        at + 4 <= bytes.len(),
        bytes.subrange(at, at + 4) == single_bytes(bits),
    ensures
        single_at(bytes, at) == bits,
{
    let part = bytes.subrange(at, at + 4);
    assert(part[0] == bytes[at]);
    assert(part[1] == bytes[at + 1]);
    assert(part[2] == bytes[at + 2]);
    assert(part[3] == bytes[at + 3]);
}

proof fn singles_are_read_back(values: Seq<u32>)
    ensures
        singles_bytes(values).len() == 4 * values.len(),
        forall|i: int| 0 <= i < values.len() ==> single_at(singles_bytes(values), 4 * i) == (#[trigger] values[i]),
    decreases values.len(),
{
    if values.len() > 0 {
        let before = values.drop_last();
        singles_are_read_back(before);
        let all = singles_bytes(values);
        let n = before.len() as int;
        assert(all.subrange(4 * n, 4 * n + 4) == single_bytes(values.last()));
        single_is_read_back(all, 4 * n, values.last());
        assert forall|i: int| 0 <= i < values.len() implies single_at(all, 4 * i) == (#[trigger] values[i]) by {
            if i < n {
                assert(before[i] == values[i]);
                assert(single_at(all, 4 * i) == single_at(singles_bytes(before), 4 * i));
            }
        }
    }
}

/// What is stored is what is read back: the bytes of a vector are accepted for its encoding and its
/// length, and any vector of that encoding that holds them has the same values.
pub proof fn vector_is_read_back(vector: StoredVector, read: StoredVector)
    requires
        encoding_of(read) == encoding_of(vector),
        holds_bytes(read, vector_bytes(vector)),
    ensures
        bytes_error(vector_bytes(vector).len(), vector_len(vector) as int, encoding_of(vector)) is None,
        match (vector, read) {
            (StoredVector::Singles(a), StoredVector::Singles(b)) => a@ == b@,
            (
                StoredVector::Quantized { scale: s, codes: a },
                StoredVector::Quantized { scale: t, codes: b },
            ) => s == t && a@ == b@,
            _ => false,
        },
{
    encodings_differ();
    let bytes = vector_bytes(vector);
    match (vector, read) {
        (StoredVector::Singles(a), StoredVector::Singles(b)) => {
            singles_are_read_back(a@);
            assert forall|i: int| 0 <= i < a@.len() implies a@[i] == b@[i] by {
                assert(b@[i] as int == single_at(bytes, 4 * i));
            }
            assert(a@ == b@);
        },
        (StoredVector::Quantized { scale: s, codes: a }, StoredVector::Quantized { scale: t, codes: b }) => {
            assert(bytes.subrange(0, 4) == single_bytes(s));
            single_is_read_back(bytes, 0, s);
            assert forall|i: int| 0 <= i < a@.len() implies a@[i] == b@[i] by {
                assert(bytes[i + 4] == code_byte(a@[i]) as u8);
                assert(code_byte(b@[i]) == bytes[i + 4] as int);
            }
            assert(a@ == b@);
        },
        _ => {},
    }
}

// ── The integer product ───────────────────────────────────────────────

/// The sum of the products of the first `n` codes.
pub open spec fn code_product(left: Seq<i8>, right: Seq<i8>, n: int) -> int
    decreases n,
{
    if n <= 0 {
        0
    } else {
        code_product(left, right, n - 1) + left[n - 1] * right[n - 1]
    }
}

/// How many codes a product may have so that it fits.
pub const MAX_CODES: usize = 131_071;

proof fn product_bounds(a: i8, b: i8)
    ensures
        -16_384 <= a * b <= 16_384,
{
    assert(-16_384 <= a * b <= 16_384) by (nonlinear_arith)
        requires
            -128 <= a <= 127,
            -128 <= b <= 127,
    ;
}

proof fn code_product_bounds(left: Seq<i8>, right: Seq<i8>, n: int)
    requires
        0 <= n,
    ensures
        -16_384 * n <= code_product(left, right, n) <= 16_384 * n,
    decreases n,
{
    if n > 0 {
        code_product_bounds(left, right, n - 1);
        product_bounds(left[n - 1], right[n - 1]);
    }
}

fn code_times(a: i8, b: i8) -> (out: i32)
    ensures
        out == a * b,
        -16_384 <= out <= 16_384,
{
    proof {
        product_bounds(a, b);
    }
    (a as i32) * (b as i32)
}

/// The product of two lists of codes is the sum of the products of their members, whichever comes
/// first; behind the first `n` nothing counts.
pub proof fn products_add_up(left: Seq<i8>, right: Seq<i8>, n: int)
    requires
        0 <= n <= left.len(),
        n <= right.len(),
    ensures
        code_product(left, right, n) == code_product(right, left, n),
        n > 0 ==> code_product(left, right, n) - code_product(left, right, n - 1) == left[n - 1] * right[n - 1],
        n == 0 ==> code_product(left, right, n) == 0,
        (forall|i: int| 0 <= i < n ==> #[trigger] left[i] == right[i]) ==> code_product(left, right, n) >= 0,
    decreases n,
{
    if n > 0 {
        products_add_up(left, right, n - 1);
        let a = left[n - 1] as int;
        let b = right[n - 1] as int;
        assert(a * b == b * a) by (nonlinear_arith);
        assert(a == b ==> a * b >= 0) by (nonlinear_arith);
    }
}

/// The product of two rows of codes, over the length that they share.
pub fn dot_codes_scalar(left: &Vec<i8>, right: &Vec<i8>) -> (out: i32)
    requires
        left@.len() <= MAX_CODES || right@.len() <= MAX_CODES,
    ensures
        out == code_product(left@, right@, if left@.len() <= right@.len() { left@.len() as int } else { right@.len() as int }),
{
    let n: usize = if left.len() <= right.len() {
        left.len()
    } else {
        right.len()
    };
    let mut total: i32 = 0;
    let mut i: usize = 0;
    while i < n
        invariant
            i <= n,
            n <= left@.len(),
            n <= right@.len(),
            n <= MAX_CODES,
            total == code_product(left@, right@, i as int),
        decreases n - i,
    {
        proof {
            code_product_bounds(left@, right@, i as int);
        }
        total = total + code_times(left[i], right[i]);
        i = i + 1;
    }
    total
}

/// The product of two rows of codes of the same length, sixteen codes at a time.
pub fn dot_codes(left: &Vec<i8>, right: &Vec<i8>) -> (out: i32)
    requires
        left@.len() == right@.len(),
        left@.len() <= MAX_CODES,
    ensures
        out == code_product(left@, right@, left@.len() as int),
{
    let n: usize = left.len();
    let mut total: i32 = 0;
    let mut i: usize = 0;
    while n - i >= 16
        invariant
            i <= n,
            n == left@.len(),
            n == right@.len(),
            n <= MAX_CODES,
            total == code_product(left@, right@, i as int),
        decreases n - i,
    {
        let mut block: i32 = 0;
        let mut k: usize = 0;
        while k < 16
            invariant
                k <= 16,
                i + 16 <= n,
                n == left@.len(),
                n == right@.len(),
                total == code_product(left@, right@, i as int),
                -16_384 * k <= block <= 16_384 * k,
                total + block == code_product(left@, right@, i + k),
            decreases 16 - k,
        {
            block = block + code_times(left[i + k], right[i + k]);
            k = k + 1;
        }
        proof {
            code_product_bounds(left@, right@, i + 16);
        }
        total = total + block;
        i = i + 16;
    }
    while i < n
        invariant
            i <= n,
            n == left@.len(),
            n == right@.len(),
            n <= MAX_CODES,
            total == code_product(left@, right@, i as int),
        decreases n - i,
    {
        proof {
            code_product_bounds(left@, right@, i as int);
        }
        total = total + code_times(left[i], right[i]);
        i = i + 1;
    }
    total
}

// ── Partitions ────────────────────────────────────────────────────────

/// What is kept of a vector's record. `note` is the note that a chunk belongs to, else zero.
#[derive(Debug)]
pub struct VectorRow {
    pub key: RecordKey,
    pub kind: RecordKind,
    pub tags: Vec<String>,
    pub note: i64,
    pub fingerprint: String,
}

/// A row of the vector file as it was read. The tags are stored as JSON; where they cannot be read,
/// the reason stands in their place.
#[derive(Debug)]
pub struct StoredRow {
    pub id: i64,
    pub kind_code: i64,
    pub bytes: Vec<u8>,
    pub tags: Result<Vec<String>, String>,
    pub note: i64,
    pub fingerprint: String,
}

/// The values that decide whether a vector is usable are finite.
pub open spec fn finite_vector(vector: StoredVector) -> bool {
    match vector {
        StoredVector::Singles(values) => all_finite(values@),
        StoredVector::Quantized { scale, .. } => bits::single_finite(scale),
    }
}

/// All values in stored bytes are finite numbers; of a quantized vector, its scale is.
pub open spec fn finite_bytes(bytes: Seq<u8>, quantized: bool) -> bool {
    if quantized {
        bits::single_finite(single_at(bytes, 0) as u32)
    } else {
        forall|i: int| 0 <= i < bytes.len() / 4 ==> bits::single_finite((#[trigger] single_at(bytes, 4 * i)) as u32)
    }
}

/// The encoding that the rows of a space are read in: quantized where the space says so, else plain.
pub open spec fn row_encoding(encoding: Seq<char>) -> Seq<char> {
    if encoding == "sq8"@ {
        "sq8"@
    } else {
        "f32"@
    }
}

/// Why a row cannot be used, if it cannot.
pub open spec fn row_error(row: StoredRow, dimension: int, encoding: Seq<char>) -> Option<ErrorView> {
    if types::kind_of_code(row.kind_code) is None {
        Some(ErrorView::InvalidVector("invalid stored record kind"@))
    } else if row.tags is Err {
        Some(ErrorView::Json(row.tags->Err_0@))
    } else if bytes_error(row.bytes@.len(), dimension, row_encoding(encoding)) is Some {
        bytes_error(row.bytes@.len(), dimension, row_encoding(encoding))
    } else if !finite_bytes(row.bytes@, encoding == "sq8"@) {
        Some(ErrorView::InvalidVector("stored vector contains nonfinite values"@))
    } else {
        None
    }
}

/// A row and its vector are what was stored.
pub open spec fn row_is(stored: StoredRow, encoding: Seq<char>, row: VectorRow, vector: StoredVector) -> bool {
    &&& row.key.id == stored.id
    &&& types::kind_of_code(stored.kind_code) == Some(row.kind)
    &&& stored.tags is Ok
    &&& row.tags == stored.tags->Ok_0
    &&& row.note == stored.note
    &&& row.fingerprint == stored.fingerprint
    &&& encoding_of(vector) == row_encoding(encoding)
    &&& holds_bytes(vector, stored.bytes@)
}

/// The error of the first row that cannot be used.
pub open spec fn first_row_error(rows: Seq<StoredRow>, dimension: int, encoding: Seq<char>) -> Option<ErrorView>
    decreases rows.len(),
{
    if rows.len() == 0 {
        None
    } else {
        match row_error(rows[0], dimension, encoding) {
            Some(error) => Some(error),
            None => first_row_error(rows.drop_first(), dimension, encoding),
        }
    }
}

/// All values are finite.
pub open spec fn all_finite(values: Seq<u32>) -> bool {
    forall|i: int| 0 <= i < values.len() ==> bits::single_finite(#[trigger] values[i])
}

fn are_finite(values: &Vec<u32>) -> (out: bool)
    ensures
        out == all_finite(values@),
        out <==> forall|i: int| 0 <= i < values@.len() ==> (#[trigger] values@[i]) % 0x8000_0000 < 0x7F80_0000,
{
    let mut i: usize = 0;
    while i < values.len()
        invariant
            i <= values.len(),
            forall|k: int| 0 <= k < i ==> bits::single_finite(#[trigger] values@[k]),
        decreases values.len() - i,
    {
        if !bits::is_single_finite(values[i]) {
            return false;
        }
        i = i + 1;
    }
    true
}

fn is_finite(vector: &StoredVector) -> (out: bool)
    ensures
        out == finite_vector(*vector),
        *vector matches StoredVector::Quantized { scale, .. } ==> (out <==> scale % 0x8000_0000 < 0x7F80_0000),
{
    match vector {
        StoredVector::Singles(values) => are_finite(values),
        StoredVector::Quantized { scale, .. } => bits::is_single_finite(*scale),
    }
}

proof fn finite_where_bytes_are(vector: StoredVector, bytes: Seq<u8>)
    requires
        holds_bytes(vector, bytes),
    ensures
        finite_vector(vector) == finite_bytes(bytes, vector is Quantized),
{
    match vector {
        StoredVector::Singles(values) => {
            if finite_vector(vector) {
                assert forall|i: int| 0 <= i < bytes.len() / 4 implies bits::single_finite((#[trigger] single_at(bytes, 4 * i)) as u32) by {
                    assert(values@[i] as int == single_at(bytes, 4 * i));
                }
            } else if finite_bytes(bytes, false) {
                assert forall|i: int| 0 <= i < values@.len() implies bits::single_finite(#[trigger] values@[i]) by {
                    assert(values@[i] as int == single_at(bytes, 4 * i));
                }
            }
        },
        StoredVector::Quantized { .. } => {},
    }
}

/// A stored row is sound where its kind is one, its tags could be read, and its bytes are those of a
/// vector of the space, all of it finite.
pub proof fn sound_rows_pass(row: StoredRow, dimension: int, encoding: Seq<char>)
    ensures
        row_error(row, dimension, encoding) is None <==> 0 <= row.kind_code <= 5 && row.tags is Ok && row.bytes@.len() == (if encoding == "sq8"@ {
            dimension + 4
        } else {
            4 * dimension
        }) && finite_bytes(row.bytes@, encoding == "sq8"@),
{
    reveal_strlit("sq8");
    reveal_strlit("f32");
    assert("sq8"@[0] != "f32"@[0]);
}

/// Rows are refused for the first that is not sound, and taken where all are.
pub proof fn first_bad_row_counts(rows: Seq<StoredRow>, dimension: int, encoding: Seq<char>)
    ensures
        first_row_error(rows, dimension, encoding) is None <==> forall|i: int|
            0 <= i < rows.len() ==> row_error(#[trigger] rows[i], dimension, encoding) is None,
        first_row_error(rows, dimension, encoding) is Some ==> exists|i: int|
            0 <= i < rows.len() && row_error(#[trigger] rows[i], dimension, encoding) == first_row_error(rows, dimension, encoding) && forall|j: int|
                0 <= j < i ==> row_error(#[trigger] rows[j], dimension, encoding) is None,
    decreases rows.len(),
{
    if rows.len() > 0 {
        let rest = rows.drop_first();
        first_bad_row_counts(rest, dimension, encoding);
        if row_error(rows[0], dimension, encoding) is None {
            assert forall|i: int| 0 < i < rows.len() implies #[trigger] rows[i] == rest[i - 1] by {}
            assert forall|i: int| 0 <= i < rest.len() implies #[trigger] rest[i] == rows[i + 1] by {}
            if first_row_error(rest, dimension, encoding) is Some {
                let k = choose|k: int|
                    0 <= k < rest.len() && row_error(#[trigger] rest[k], dimension, encoding) == first_row_error(rest, dimension, encoding)
                        && forall|j: int| 0 <= j < k ==> row_error(#[trigger] rest[j], dimension, encoding) is None;
                assert(row_error(rows[k + 1], dimension, encoding) == first_row_error(rows, dimension, encoding));
                assert forall|j: int| 0 <= j < k + 1 implies row_error(#[trigger] rows[j], dimension, encoding) is None by {
                    if j > 0 {
                        assert(rest[j - 1] == rows[j]);
                    }
                }
            }
        }
    }
}

/// Reads one row of the vector file.
pub fn read_row(stored: StoredRow, space: &EmbeddingSpace) -> (out: Result<(VectorRow, StoredVector), Error>)
    ensures
        storage::refused(out, row_error(stored, space.dimension as int, space.encoding@)),
        out matches Ok(found) ==> row_is(stored, space.encoding@, found.0, found.1),
        out matches Ok(found) ==> found.0.key.id == stored.id && found.0.note == stored.note && found.0.fingerprint == stored.fingerprint
            && types::kind_code(found.0.kind) == stored.kind_code,
        out is Ok <==> 0 <= stored.kind_code <= 5 && stored.tags is Ok && stored.bytes@.len() == (if space.encoding@ == "sq8"@ {
            space.dimension + 4
        } else {
            4 * space.dimension
        }) && finite_bytes(stored.bytes@, space.encoding@ == "sq8"@),
{
    proof {
        encodings_differ();
    }
    let kind = match RecordKind::from_code(stored.kind_code) {
        Some(kind) => kind,
        None => return Err(Error::InvalidVector("invalid stored record kind".to_owned())),
    };
    let tags = match stored.tags {
        Ok(tags) => tags,
        Err(message) => return Err(Error::Json(message)),
    };
    let encoding: &str = if ordering::same_text(space.encoding.as_str(), "sq8") {
        "sq8"
    } else {
        "f32"
    };
    let vector = match decode_values(&stored.bytes, space.dimension, encoding) {
        Ok(vector) => vector,
        Err(error) => return Err(error),
    };
    let usable = is_finite(&vector);
    proof {
        finite_where_bytes_are(vector, stored.bytes@);
    }
    if !usable {
        return Err(Error::InvalidVector("stored vector contains nonfinite values".to_owned()));
    }
    Ok((VectorRow { key: RecordKey::new(stored.id), kind, tags, note: stored.note, fingerprint: stored.fingerprint }, vector))
}

/// The vectors of one space, namespace and scope.
#[derive(Debug)]
pub struct Partition {
    pub rows: Vec<VectorRow>,
    pub vectors: Vec<StoredVector>,
}

/// The members that a search is limited to. Empty lists limit nothing.
#[derive(Debug)]
pub struct VectorFilter {
    pub kinds: Vec<RecordKind>,
    pub tags: Vec<String>,
    pub note_ids: Vec<i64>,
    /// The only records that may be found, where that is known beforehand.
    pub allowed: Option<HashSet<i64>>,
}

/// A row takes part: it is allowed, belongs to one of the notes, is of one of the kinds and has all
/// the tags. A row that is no chunk belongs to note zero, so a limit to notes leaves it out.
pub open spec fn takes_part(row: VectorRow, filter: VectorFilter) -> bool {
    &&& filter.allowed is Some ==> (filter.allowed->0)@.contains(row.key.id)
    &&& filter.note_ids@.len() == 0 || filter.note_ids@.contains(row.note)
    &&& filter.kinds@.len() == 0 || filter.kinds@.contains(row.kind)
    &&& forall|i: int| 0 <= i < filter.tags@.len() ==> chars::texts(row.tags@).contains(#[trigger] filter.tags@[i]@)
}

/// The places of the rows that take part, in order.
pub open spec fn places(rows: Seq<VectorRow>, filter: VectorFilter) -> Seq<usize>
    decreases rows.len(),
{
    if rows.len() == 0 {
        Seq::empty()
    } else {
        let before = places(rows.drop_last(), filter);
        if takes_part(rows.last(), filter) {
            before.push((rows.len() - 1) as usize)
        } else {
            before
        }
    }
}

/// A score between minus one and one, by its place in the order of doubles. What is no number stays.
pub open spec fn clamped(bits: u64) -> int {
    if bits::no_number(bits) {
        bits::order_of(bits)
    } else if bits::order_of(bits) > bits::order_of(bits::ONE_BITS) {
        bits::order_of(bits::ONE_BITS)
    } else if bits::order_of(bits) < -1 - bits::order_of(bits::ONE_BITS) {
        -1 - bits::order_of(bits::ONE_BITS)
    } else {
        bits::order_of(bits)
    }
}

/// The score of each row at the given places, as candidates.
pub open spec fn row_candidates(rows: Seq<VectorRow>, at: Seq<usize>, scores: Seq<u64>) -> Seq<Scored> {
    Seq::new(at.len(), |i: int| Scored { id: rows[at[i] as int].key.id, score: clamped(scores[i]) as i64 })
}

impl Partition {
    /// Each row has its vector.
    pub open spec fn wf(self) -> bool {
        self.rows@.len() == self.vectors@.len()
    }

    /// Takes the rows of a partition, in the order in which they were read. A partition without rows
    /// is none; the first row that cannot be used refuses the whole.
    pub fn load(stored: Vec<StoredRow>, space: &EmbeddingSpace) -> (out: Result<Option<Partition>, Error>)
        ensures
            storage::refused(out, first_row_error(stored@, space.dimension as int, space.encoding@)),
            out matches Ok(found) ==> {
                &&& (found is None <==> stored@.len() == 0)
                &&& found matches Some(p) ==> {
                    &&& p.wf()
                    &&& p.rows@.len() == stored@.len()
                    &&& forall|i: int|
                        0 <= i < stored@.len() ==> row_is(#[trigger] stored@[i], space.encoding@, p.rows@[i], p.vectors@[i])
                }
            },
    {
        let ghost all = stored@;
        let mut rest = stored;
        let mut rows: Vec<VectorRow> = Vec::new();
        let mut vectors: Vec<StoredVector> = Vec::new();
        assert(all.skip(0) == all);
        while rest.len() > 0
            invariant
                all == stored@,
                rows@.len() == vectors@.len(),
                rows@.len() + rest@.len() == all.len(),
                rest@ == all.skip(rows@.len() as int),
                first_row_error(rest@, space.dimension as int, space.encoding@) == first_row_error(all, space.dimension as int, space.encoding@),
                forall|i: int| 0 <= i < rows@.len() ==> row_is(#[trigger] all[i], space.encoding@, rows@[i], vectors@[i]),
            decreases rest.len(),
        {
            let ghost before = rest@;
            let stored_row = rest.remove(0);
            assert(before[0] == all[rows@.len() as int]);
            assert(rest@ == before.drop_first());
            assert(rest@ == all.skip(rows@.len() as int + 1));
            match read_row(stored_row, space) {
                Ok((row, vector)) => {
                    rows.push(row);
                    vectors.push(vector);
                },
                Err(error) => return Err(error),
            }
        }
        if rows.len() == 0 {
            Ok(None)
        } else {
            Ok(Some(Partition { rows, vectors }))
        }
    }

    /// Whether a row takes part in a search.
    pub fn matches(row: &VectorRow, filter: &VectorFilter) -> (out: bool)
        ensures
            out == takes_part(*row, *filter),
            filter.allowed is None && filter.note_ids@.len() == 0 && filter.kinds@.len() == 0 && filter.tags@.len() == 0 ==> out,
            out ==> (filter.allowed matches Some(ids) ==> ids@.contains(row.key.id)),
            out && filter.note_ids@.len() > 0 ==> filter.note_ids@.contains(row.note),
            out && filter.kinds@.len() > 0 ==> filter.kinds@.contains(row.kind),
            out ==> forall|i: int| 0 <= i < filter.tags@.len() ==> chars::texts(row.tags@).contains(#[trigger] filter.tags@[i]@),
            !out ==> {
                ||| filter.allowed matches Some(ids) && !ids@.contains(row.key.id)
                ||| filter.note_ids@.len() > 0 && !filter.note_ids@.contains(row.note)
                ||| filter.kinds@.len() > 0 && !filter.kinds@.contains(row.kind)
                ||| exists|i: int| 0 <= i < filter.tags@.len() && !chars::texts(row.tags@).contains(#[trigger] filter.tags@[i]@)
            },
    {
        if let Some(allowed) = &filter.allowed {
            if !allowed.contains(&row.key.id) {
                return false;
            }
        }
        if filter.note_ids.len() > 0 && !types::has_id(&filter.note_ids, row.note) {
            return false;
        }
        if filter.kinds.len() > 0 && !types::has_kind(&filter.kinds, row.kind) {
            return false;
        }
        let mut i: usize = 0;
        while i < filter.tags.len()
            invariant
                i <= filter.tags.len(),
                forall|k: int| 0 <= k < i ==> chars::texts(row.tags@).contains(#[trigger] filter.tags@[k]@),
            decreases filter.tags.len() - i,
        {
            if !ordering::holds(&row.tags, filter.tags[i].as_str()) {
                return false;
            }
            i = i + 1;
        }
        true
    }

    /// The places of the rows that are to be scored.
    pub fn matching(&self, filter: &VectorFilter) -> (out: Vec<usize>)
        ensures
            out@ == places(self.rows@, *filter),
    {
        let mut out: Vec<usize> = Vec::new();
        let mut i: usize = 0;
        while i < self.rows.len()
            invariant
                i <= self.rows.len(),
                out@ == places(self.rows@.take(i as int), *filter),
            decreases self.rows.len() - i,
        {
            assert(self.rows@.take(i + 1).drop_last() == self.rows@.take(i as int));
            assert(self.rows@.take(i + 1).last() == self.rows@[i as int]);
            if Partition::matches(&self.rows[i], filter) {
                out.push(i);
            }
            i = i + 1;
        }
        assert(self.rows@.take(self.rows@.len() as int) == self.rows@);
        out
    }

    /// The best of the scored rows. `at` are the places of the rows and `scores` the bit patterns of
    /// their scores. Among equal scores the smaller ids are kept, where the two zeros are equal, so
    /// the order of the rows does not matter; what is kept stands in the total order of scores.
    pub fn search(&self, at: &Vec<usize>, scores: &Vec<u64>, limit: usize) -> (out: Vec<Scored>)
        requires
            at@.len() == scores@.len(),
            forall|i: int| 0 <= i < at@.len() ==> (#[trigger] at@[i]) < self.rows@.len(),
        ensures
            out@ == ranking::ranked(ranking::kept(row_candidates(self.rows@, at@, scores@), limit as int)),
    {
        let mut top = TopList::new(limit);
        let ghost all = row_candidates(self.rows@, at@, scores@);
        let mut i: usize = 0;
        assert(all.take(0) == Seq::<Scored>::empty());
        while i < at.len()
            invariant
                i <= at.len(),
                at@.len() == scores@.len(),
                forall|i: int| 0 <= i < at@.len() ==> (#[trigger] at@[i]) < self.rows@.len(),
                all == row_candidates(self.rows@, at@, scores@),
                top.wf(),
                top.limit() == limit,
                top.seen() == all.take(i as int),
            decreases at.len() - i,
        {
            let place: usize = at[i];
            let candidate = Scored { id: self.rows[place].key.id, score: clamp_score(scores[i]) };
            top.retain(candidate);
            assert(all.take(i + 1) == all.take(i as int).push(all[i as int]));
            i = i + 1;
        }
        assert(all.take(all.len() as int) == all);
        top.finish()
    }
}

fn clamp_score(bits: u64) -> (out: i64)
    ensures
        out == clamped(bits),
        bits::no_number(bits) ==> out == bits::order_of(bits),
        !bits::no_number(bits) ==> bits::order_of(0xbff0_0000_0000_0000u64) <= out <= bits::order_of(0x3ff0_0000_0000_0000u64),
        bits::order_of(0xbff0_0000_0000_0000u64) <= bits::order_of(bits) <= bits::order_of(0x3ff0_0000_0000_0000u64) ==> out == bits::order_of(bits),
        !bits::no_number(bits) && bits::order_of(bits) > bits::order_of(0x3ff0_0000_0000_0000u64) ==> out == bits::order_of(0x3ff0_0000_0000_0000u64),
        !bits::no_number(bits) && bits::order_of(bits) < bits::order_of(0xbff0_0000_0000_0000u64) ==> out == bits::order_of(0xbff0_0000_0000_0000u64),
{
    let key: i64 = bits::order_key(bits);
    let one: i64 = bits::order_key(bits::ONE_BITS);
    let number = bits <= bits::INFINITY_BITS || (bits::SIGN_BIT <= bits && bits - bits::SIGN_BIT <= bits::INFINITY_BITS);
    if !number {
        key
    } else if key > one {
        one
    } else if key < -1 - one {
        -1 - one
    } else {
        key
    }
}

/// Keeping takes no two different scores for the same but the two zeros.
pub proof fn only_zeros_are_kept_alike(a: u64, b: u64)
    requires
        ranking::level(bits::order_of(a) as i64) == ranking::level(bits::order_of(b) as i64),
    ensures
        a == b || (a == 0 && b == bits::SIGN_BIT) || (a == bits::SIGN_BIT && b == 0),
{
}

/// The order in which rows were read does not matter: the same scored rows give the same result.
pub proof fn row_order_does_not_matter(
    a: Seq<VectorRow>,
    at_a: Seq<usize>,
    scores_a: Seq<u64>,
    b: Seq<VectorRow>,
    at_b: Seq<usize>,
    scores_b: Seq<u64>,
    limit: int,
)
    requires
        row_candidates(a, at_a, scores_a).to_multiset() == row_candidates(b, at_b, scores_b).to_multiset(),
    ensures
        ranking::ranked(ranking::kept(row_candidates(a, at_a, scores_a), limit)) == ranking::ranked(
            ranking::kept(row_candidates(b, at_b, scores_b), limit),
        ),
{
    ranking::keeping_is_unique(row_candidates(a, at_a, scores_a), row_candidates(b, at_b, scores_b), limit);
}

/// Only rows that take part are scored, each at most once.
pub proof fn places_take_part(rows: Seq<VectorRow>, filter: VectorFilter)
    requires
        rows.len() <= usize::MAX,
    ensures
        forall|i: int|
            0 <= i < places(rows, filter).len() ==> (#[trigger] places(rows, filter)[i]) < rows.len() && takes_part(
                rows[places(rows, filter)[i] as int],
                filter,
            ),
        forall|i: int, j: int|
            0 <= i < j < places(rows, filter).len() ==> (#[trigger] places(rows, filter)[i]) < (#[trigger] places(rows, filter)[j]),
        forall|k: int|
            0 <= k < rows.len() && takes_part(#[trigger] rows[k], filter) ==> places(rows, filter).contains(k as usize),
    decreases rows.len(),
{
    if rows.len() > 0 {
        let before = places(rows.drop_last(), filter);
        let all = places(rows, filter);
        places_take_part(rows.drop_last(), filter);
        assert forall|i: int| 0 <= i < all.len() implies (#[trigger] all[i]) < rows.len() && takes_part(rows[all[i] as int], filter) by {
            if i < before.len() {
                assert(before[i] == all[i]);
                assert(rows.drop_last()[all[i] as int] == rows[all[i] as int]);
            }
        }
        assert forall|i: int, j: int| 0 <= i < j < all.len() implies (#[trigger] all[i]) < (#[trigger] all[j]) by {
            assert(before[i] == all[i]);
            if j < before.len() {
                assert(before[j] == all[j]);
            }
        }
        assert forall|k: int| 0 <= k < rows.len() && takes_part(#[trigger] rows[k], filter) implies all.contains(k as usize) by {
            if k < rows.len() - 1 {
                assert(rows.drop_last()[k] == rows[k]);
                assert(before.contains(k as usize));
                let at = choose|at: int| 0 <= at < before.len() && before[at] == k as usize;
                assert(all[at] == k as usize);
            } else {
                assert(all[all.len() - 1] == k as usize);
            }
        }
    }
}

} // verus!
