//! Typed integer values and arrays with their serialized form: a descriptor
//! byte holding a length nibble and a type nibble, an optional extended
//! count, then little-endian payload bytes.

use vstd::prelude::*;

use crate::error::DecodeError;
use crate::num::read_u8;
use vstd::arithmetic::div_mod::lemma_div_denominator;
use vstd::arithmetic::div_mod::lemma_fundamental_div_mod;
use vstd::arithmetic::div_mod::lemma_mod_bound;

verus! {

/// Type-nibble code of 8-bit integers.
pub const TYPE_INT8: u8 = 1;

/// Type-nibble code of 16-bit integers.
pub const TYPE_INT16: u8 = 2;

/// Type-nibble code of 32-bit integers.
pub const TYPE_INT32: u8 = 3;

/// An 8-bit typed integer: a plain value or one of the reserved raw codes.
#[derive(Clone, Copy, Debug, PartialEq, Eq, Structural)]
pub enum Int8 {
    /// An ordinary value.
    Value(i8),
    /// The "missing" sentinel, raw `-128`.
    Missing,
    /// The "end of vector" sentinel, raw `-127`.
    EndOfVector,
    /// A reserved raw code in `-126..=-121`.
    Reserved(i8),
}

/// A 16-bit typed integer.
#[derive(Clone, Copy, Debug, PartialEq, Eq, Structural)]
pub enum Int16 {
    /// An ordinary value.
    Value(i16),
    /// The "missing" sentinel, raw `-32768`.
    Missing,
    /// The "end of vector" sentinel, raw `-32767`.
    EndOfVector,
    /// A reserved raw code in `-32766..=-32761`.
    Reserved(i16),
}

/// A 32-bit typed integer.
#[derive(Clone, Copy, Debug, PartialEq, Eq, Structural)]
pub enum Int32 {
    /// An ordinary value.
    Value(i32),
    /// The "missing" sentinel, raw `-2147483648`.
    Missing,
    /// The "end of vector" sentinel, raw `-2147483647`.
    EndOfVector,
    /// A reserved raw code in `-2147483646..=-2147483641`.
    Reserved(i32),
}

/// Classifies a raw 8-bit code.
pub open spec fn int8_from_raw(n: i8) -> Int8 {
    if n == -128 {
        Int8::Missing
    } else if n == -127 {
        Int8::EndOfVector
    } else if -126 <= n <= -121 {
        Int8::Reserved(n)
    } else {
        Int8::Value(n)
    }
}

/// The raw 8-bit code of a typed integer.
pub open spec fn int8_to_raw(v: Int8) -> i8 {
    match v {
        Int8::Value(n) => n,
        Int8::Missing => -128i8,
        Int8::EndOfVector => -127i8,
        Int8::Reserved(n) => n,
    }
}

/// Whether the typed integer is the classification of its own raw code.
pub open spec fn int8_canonical(v: Int8) -> bool {
    int8_from_raw(int8_to_raw(v)) == v
}

/// Classifies a raw 16-bit code.
pub open spec fn int16_from_raw(n: i16) -> Int16 {
    if n == -32768 {
        Int16::Missing
    } else if n == -32767 {
        Int16::EndOfVector
    } else if -32766 <= n <= -32761 {
        Int16::Reserved(n)
    } else {
        Int16::Value(n)
    }
}

/// The raw 16-bit code of a typed integer.
pub open spec fn int16_to_raw(v: Int16) -> i16 {
    match v {
        Int16::Value(n) => n,
        Int16::Missing => -32768i16,
        Int16::EndOfVector => -32767i16,
        Int16::Reserved(n) => n,
    }
}

/// Whether the typed integer is the classification of its own raw code.
pub open spec fn int16_canonical(v: Int16) -> bool {
    int16_from_raw(int16_to_raw(v)) == v
}

/// Classifies a raw 32-bit code.
pub open spec fn int32_from_raw(n: i32) -> Int32 {
    if n == -2147483648 {
        Int32::Missing
    } else if n == -2147483647 {
        Int32::EndOfVector
    } else if -2147483646 <= n <= -2147483641 {
        Int32::Reserved(n)
    } else {
        Int32::Value(n)
    }
}

/// The raw 32-bit code of a typed integer.
pub open spec fn int32_to_raw(v: Int32) -> i32 {
    match v {
        Int32::Value(n) => n,
        Int32::Missing => -2147483648i32,
        Int32::EndOfVector => -2147483647i32,
        Int32::Reserved(n) => n,
    }
}

/// Whether the typed integer is the classification of its own raw code.
pub open spec fn int32_canonical(v: Int32) -> bool {
    int32_from_raw(int32_to_raw(v)) == v
}

/// A typed value: an optional scalar or an array, in each integer width.
#[derive(Clone, Debug, PartialEq)]
pub enum Value {
    /// An optional 8-bit scalar; `None` encodes with length nibble 0.
    Int8(Option<Int8>),
    /// An array of raw 8-bit values.
    Int8Array(Vec<i8>),
    /// An optional 16-bit scalar.
    Int16(Option<Int16>),
    /// An array of raw 16-bit values.
    Int16Array(Vec<i16>),
    /// An optional 32-bit scalar.
    Int32(Option<Int32>),
    /// An array of raw 32-bit values.
    Int32Array(Vec<i32>),
}

/// The mathematical shadow of `Value`, with sequences for arrays.
pub ghost enum ValueView {
    /// An optional 8-bit scalar.
    Int8(Option<Int8>),
    /// An array of raw 8-bit values.
    Int8Array(Seq<i8>),
    /// An optional 16-bit scalar.
    Int16(Option<Int16>),
    /// An array of raw 16-bit values.
    Int16Array(Seq<i16>),
    /// An optional 32-bit scalar.
    Int32(Option<Int32>),
    /// An array of raw 32-bit values.
    Int32Array(Seq<i32>),
}

impl Value {
    /// The mathematical view of this value.
    pub open spec fn view_spec(self) -> ValueView {
        match self {
            Value::Int8(v) => ValueView::Int8(v),
            Value::Int8Array(vs) => ValueView::Int8Array(vs@),
            Value::Int16(v) => ValueView::Int16(v),
            Value::Int16Array(vs) => ValueView::Int16Array(vs@),
            Value::Int32(v) => ValueView::Int32(v),
            Value::Int32Array(vs) => ValueView::Int32Array(vs@),
        }
    }
}

/// The mathematical view of an optional value.
pub open spec fn opt_view(v: Option<Value>) -> Option<ValueView> {
    match v {
        None => None,
        Some(x) => Some(x.view_spec()),
    }
}

/// The two little-endian bytes of a 16-bit value.
pub open spec fn i16_le(v: i16) -> Seq<u8> {
    seq![((v as u16) & 0xFF) as u8, (((v as u16) >> 8u16) & 0xFF) as u8]
}

/// The four little-endian bytes of a 32-bit value.
pub open spec fn i32_le(v: i32) -> Seq<u8> {
    seq![
        ((v as u32) & 0xFF) as u8,
        (((v as u32) >> 8u32) & 0xFF) as u8,
        (((v as u32) >> 16u32) & 0xFF) as u8,
        (((v as u32) >> 24u32) & 0xFF) as u8,
    ]
}

/// The 16-bit pattern of two little-endian bytes.
pub open spec fn le16_raw(b0: u8, b1: u8) -> u16 {
    (b0 as u16) | ((b1 as u16) << 8u16)
}

/// The 32-bit pattern of four little-endian bytes.
pub open spec fn le32_raw(b0: u8, b1: u8, b2: u8, b3: u8) -> u32 {
    (b0 as u32) | ((b1 as u32) << 8u32) | ((b2 as u32) << 16u32) | ((b3 as u32) << 24u32)
}

/// The unsigned value of two little-endian bytes.
pub open spec fn le16_val(b0: u8, b1: u8) -> int {
    b0 + 0x100 * b1
}

/// The unsigned value of four little-endian bytes.
pub open spec fn le32_val(b0: u8, b1: u8, b2: u8, b3: u8) -> int {
    b0 + 0x100 * b1 + 0x1_0000 * b2 + 0x100_0000 * b3
}

/// The bytes of a whole 16-bit array.
pub open spec fn i16s_le(vs: Seq<i16>) -> Seq<u8>
    decreases vs.len(),
{
    if vs.len() == 0 {
        Seq::empty()
    } else {
        i16s_le(vs.drop_last()) + i16_le(vs.last())
    }
}

/// The bytes of a whole 32-bit array.
pub open spec fn i32s_le(vs: Seq<i32>) -> Seq<u8>
    decreases vs.len(),
{
    if vs.len() == 0 {
        Seq::empty()
    } else {
        i32s_le(vs.drop_last()) + i32_le(vs.last())
    }
}

/// The extended count written after a descriptor whose length nibble is 15.
pub open spec fn count_bytes(n: int) -> Seq<u8> {
    if n <= 0x7F {
        seq![0x11u8, n as u8]
    } else if n <= 0x7FFF {
        seq![0x12u8, (n % 0x100) as u8, (n / 0x100) as u8]
    } else {
        seq![
            0x13u8,
            (n % 0x100) as u8,
            ((n / 0x100) % 0x100) as u8,
            ((n / 0x1_0000) % 0x100) as u8,
            (n / 0x100_0000) as u8,
        ]
    }
}

/// The descriptor of `n` items of the given type code: one byte when `n`
/// fits the length nibble, else nibble 15 followed by a typed count.
pub open spec fn type_descriptor(code: u8, n: int) -> Seq<u8> {
    if n < 15 {
        seq![(n * 16 + code) as u8]
    } else {
        seq![(0xF0 + code) as u8] + count_bytes(n)
    }
}

/// The serialized form of an optional value.
pub open spec fn value_bytes(v: Option<ValueView>) -> Seq<u8> {
    match v {
        None => seq![0x00u8],
        Some(ValueView::Int8(None)) => type_descriptor(TYPE_INT8, 0),
        Some(ValueView::Int8(Some(x))) => type_descriptor(TYPE_INT8, 1).push(
            int8_to_raw(x) as u8,
        ),
        Some(ValueView::Int8Array(vs)) => type_descriptor(TYPE_INT8, vs.len() as int)
            + vs.map_values(|x: i8| x as u8),
        Some(ValueView::Int16(None)) => type_descriptor(TYPE_INT16, 0),
        Some(ValueView::Int16(Some(x))) => type_descriptor(TYPE_INT16, 1) + i16_le(
            int16_to_raw(x),
        ),
        Some(ValueView::Int16Array(vs)) => type_descriptor(TYPE_INT16, vs.len() as int) + i16s_le(
            vs,
        ),
        Some(ValueView::Int32(None)) => type_descriptor(TYPE_INT32, 0),
        Some(ValueView::Int32(Some(x))) => type_descriptor(TYPE_INT32, 1) + i32_le(
            int32_to_raw(x),
        ),
        Some(ValueView::Int32Array(vs)) => type_descriptor(TYPE_INT32, vs.len() as int) + i32s_le(
            vs,
        ),
    }
}

/// Whether a value round-trips through its serialized form: scalars carry
/// canonical typed integers, and arrays have at least two elements (shorter
/// arrays decode as scalars) and an encodable length.
pub open spec fn value_encodable(v: Option<ValueView>) -> bool {
    match v {
        None => true,
        Some(ValueView::Int8(None)) => true,
        Some(ValueView::Int8(Some(x))) => int8_canonical(x),
        Some(ValueView::Int8Array(vs)) => 2 <= vs.len() <= 0x7FFF_FFFF,
        Some(ValueView::Int16(None)) => true,
        Some(ValueView::Int16(Some(x))) => int16_canonical(x),
        Some(ValueView::Int16Array(vs)) => 2 <= vs.len() <= 0x7FFF_FFFF,
        Some(ValueView::Int32(None)) => true,
        Some(ValueView::Int32(Some(x))) => int32_canonical(x),
        Some(ValueView::Int32Array(vs)) => 2 <= vs.len() <= 0x7FFF_FFFF,
    }
}

/// Parses the count of a descriptor byte `d` at position `i` (just past the
/// descriptor): the length nibble itself, or an extended typed count.
pub open spec fn parse_count(s: Seq<u8>, d: u8, i: int) -> Option<(int, int)> {
    let n0 = (d / 16) as int;
    if n0 < 15 {
        Some((n0, i))
    } else if i < s.len() && s[i] == 0x11 {
        if i + 2 <= s.len() && s[i + 1] < 0x80 {
            Some((s[i + 1] as int, i + 2))
        } else {
            None
        }
    } else if i < s.len() && s[i] == 0x12 {
        if i + 3 <= s.len() && le16_val(s[i + 1], s[i + 2]) < 0x8000 {
            Some((le16_val(s[i + 1], s[i + 2]), i + 3))
        } else {
            None
        }
    } else if i < s.len() && s[i] == 0x13 {
        if i + 5 <= s.len() && le32_val(s[i + 1], s[i + 2], s[i + 3], s[i + 4]) < 0x8000_0000 {
            Some((le32_val(s[i + 1], s[i + 2], s[i + 3], s[i + 4]), i + 5))
        } else {
            None
        }
    } else {
        None
    }
}

/// Parses an 8-bit payload of `n` items at `j`.
pub open spec fn parse_int8_body(s: Seq<u8>, n: int, j: int) -> Option<(ValueView, int)> {
    if n == 0 {
        Some((ValueView::Int8(None), j))
    } else if n == 1 {
        if j + 1 <= s.len() {
            Some((ValueView::Int8(Some(int8_from_raw(s[j] as i8))), j + 1))
        } else {
            None
        }
    } else {
        if j + n <= s.len() {
            Some((ValueView::Int8Array(s.subrange(j, j + n).map_values(|b: u8| b as i8)), j + n))
        } else {
            None
        }
    }
}

/// Parses a 16-bit payload of `n` items at `j`.
pub open spec fn parse_int16_body(s: Seq<u8>, n: int, j: int) -> Option<(ValueView, int)> {
    if n == 0 {
        Some((ValueView::Int16(None), j))
    } else if n == 1 {
        if j + 2 <= s.len() {
            Some(
                (
                    ValueView::Int16(Some(int16_from_raw(le16_raw(s[j], s[j + 1]) as i16))),
                    j + 2,
                ),
            )
        } else {
            None
        }
    } else {
        if j + 2 * n <= s.len() {
            Some(
                (
                    ValueView::Int16Array(
                        Seq::new(n as nat, |k: int| le16_raw(s[j + 2 * k], s[j + 2 * k + 1]) as i16),
                    ),
                    j + 2 * n,
                ),
            )
        } else {
            None
        }
    }
}

/// Parses a 32-bit payload of `n` items at `j`.
pub open spec fn parse_int32_body(s: Seq<u8>, n: int, j: int) -> Option<(ValueView, int)> {
    if n == 0 {
        Some((ValueView::Int32(None), j))
    } else if n == 1 {
        if j + 4 <= s.len() {
            Some(
                (
                    ValueView::Int32(
                        Some(int32_from_raw(le32_raw(s[j], s[j + 1], s[j + 2], s[j + 3]) as i32)),
                    ),
                    j + 4,
                ),
            )
        } else {
            None
        }
    } else {
        if j + 4 * n <= s.len() {
            Some(
                (
                    ValueView::Int32Array(
                        Seq::new(
                            n as nat,
                            |k: int|
                                le32_raw(
                                    s[j + 4 * k],
                                    s[j + 4 * k + 1],
                                    s[j + 4 * k + 2],
                                    s[j + 4 * k + 3],
                                ) as i32,
                        ),
                    ),
                    j + 4 * n,
                ),
            )
        } else {
            None
        }
    }
}

/// Parses one serialized optional value at `i`: the value and the index just
/// past it, or `None` where the bytes are not a valid encoding.
pub open spec fn parse_value(s: Seq<u8>, i: int) -> Option<(Option<ValueView>, int)> {
    if !(0 <= i < s.len()) {
        None
    } else if s[i] == 0x00 {
        Some((None, i + 1))
    } else {
        let d = s[i];
        let ty = d % 16;
        match parse_count(s, d, i + 1) {
            None => None,
            Some((n, j)) => {
                let body = if ty == TYPE_INT8 {
                    parse_int8_body(s, n, j)
                } else if ty == TYPE_INT16 {
                    parse_int16_body(s, n, j)
                } else if ty == TYPE_INT32 {
                    parse_int32_body(s, n, j)
                } else {
                    None
                };
                match body {
                    None => None,
                    Some((v, j2)) => Some((Some(v), j2)),
                }
            },
        }
    }
}

impl Int8 {
    /// The raw 8-bit code of this typed integer.
    pub fn to_raw(self) -> (r: i8)
        ensures
            r == int8_to_raw(self),
    {
        match self {
            Int8::Value(n) => n,
            Int8::Missing => -128,
            Int8::EndOfVector => -127,
            Int8::Reserved(n) => n,
        }
    }

    /// Classifies a raw 8-bit code.
    pub fn from_raw(n: i8) -> (r: Int8)
        ensures
            r == int8_from_raw(n),
    {
        if n == -128 {
            Int8::Missing
        } else if n == -127 {
            Int8::EndOfVector
        } else if -126 <= n && n <= -121 {
            Int8::Reserved(n)
        } else {
            Int8::Value(n)
        }
    }
}

impl Int16 {
    /// The raw 16-bit code of this typed integer.
    pub fn to_raw(self) -> (r: i16)
        ensures
            r == int16_to_raw(self),
    {
        match self {
            Int16::Value(n) => n,
            Int16::Missing => -32768,
            Int16::EndOfVector => -32767,
            Int16::Reserved(n) => n,
        }
    }

    /// Classifies a raw 16-bit code.
    pub fn from_raw(n: i16) -> (r: Int16)
        ensures
            r == int16_from_raw(n),
    {
        if n == -32768 {
            Int16::Missing
        } else if n == -32767 {
            Int16::EndOfVector
        } else if -32766 <= n && n <= -32761 {
            Int16::Reserved(n)
        } else {
            Int16::Value(n)
        }
    }
}

impl Int32 {
    /// The raw 32-bit code of this typed integer.
    pub fn to_raw(self) -> (r: i32)
        ensures
            r == int32_to_raw(self),
    {
        match self {
            Int32::Value(n) => n,
            Int32::Missing => -2147483648,
            Int32::EndOfVector => -2147483647,
            Int32::Reserved(n) => n,
        }
    }

    /// Classifies a raw 32-bit code.
    pub fn from_raw(n: i32) -> (r: Int32)
        ensures
            r == int32_from_raw(n),
    {
        if n == -2147483648 {
            Int32::Missing
        } else if n == -2147483647 {
            Int32::EndOfVector
        } else if -2147483646 <= n && n <= -2147483641 {
            Int32::Reserved(n)
        } else {
            Int32::Value(n)
        }
    }
}

/// Appends the descriptor of `n` items of the given type code.
fn write_type(buf: &mut Vec<u8>, code: u8, n: usize)
    requires
        1 <= code <= 3,
        n <= 0x7FFF_FFFF,
    ensures
        final(buf)@ == old(buf)@ + type_descriptor(code, n as int),
{
    if n < 15 {
        buf.push((n as u8) * 16 + code);
        proof {
            assert(buf@ =~= old(buf)@ + type_descriptor(code, n as int));
        }
    } else {
        buf.push(0xF0 + code);
        if n <= 0x7F {
            buf.push(0x11);
            buf.push(n as u8);
        } else if n <= 0x7FFF {
            buf.push(0x12);
            buf.push((n % 0x100) as u8);
            buf.push((n / 0x100) as u8);
        } else {
            buf.push(0x13);
            buf.push((n % 0x100) as u8);
            buf.push(((n / 0x100) % 0x100) as u8);
            buf.push(((n / 0x1_0000) % 0x100) as u8);
            buf.push((n / 0x100_0000) as u8);
        }
        proof {
            assert(buf@ =~= old(buf)@ + type_descriptor(code, n as int));
        }
    }
}

/// Writes the "missing" marker: a zero descriptor.
pub fn write_missing(buf: &mut Vec<u8>)
    ensures
        final(buf)@ == old(buf)@ + value_bytes(None),
{
    buf.push(0x00);
    proof {
        assert(buf@ =~= old(buf)@ + value_bytes(None));
    }
}

/// Writes an optional 8-bit scalar.
pub fn write_int8(buf: &mut Vec<u8>, value: Option<Int8>)
    ensures
        final(buf)@ == old(buf)@ + value_bytes(Some(ValueView::Int8(value))),
{
    match value {
        None => {
            write_type(buf, TYPE_INT8, 0);
        },
        Some(v) => {
            write_type(buf, TYPE_INT8, 1);
            buf.push(v.to_raw() as u8);
        },
    }
    proof {
        assert(buf@ =~= old(buf)@ + value_bytes(Some(ValueView::Int8(value))));
    }
}

/// Writes an 8-bit array: descriptor, then one byte per element.
pub fn write_int8_array(buf: &mut Vec<u8>, values: &[i8])
    requires
        values@.len() <= 0x7FFF_FFFF,
    ensures
        final(buf)@ == old(buf)@ + value_bytes(Some(ValueView::Int8Array(values@))),
{
    write_type(buf, TYPE_INT8, values.len());
    let ghost head = buf@;
    let mut i: usize = 0;
    while i < values.len()
        invariant
            i <= values@.len(),
            buf@ == head + values@.subrange(0, i as int).map_values(|x: i8| x as u8),
        decreases values@.len() - i,
    {
        buf.push(values[i] as u8);
        i = i + 1;
        proof {
            assert(buf@ =~= head + values@.subrange(0, i as int).map_values(|x: i8| x as u8));
        }
    }
    proof {
        assert(values@.subrange(0, values@.len() as int) =~= values@);
        assert(buf@ =~= old(buf)@ + value_bytes(Some(ValueView::Int8Array(values@))));
    }
}

/// Writes an optional 16-bit scalar.
pub fn write_int16(buf: &mut Vec<u8>, value: Option<Int16>)
    ensures
        final(buf)@ == old(buf)@ + value_bytes(Some(ValueView::Int16(value))),
{
    match value {
        None => {
            write_type(buf, TYPE_INT16, 0);
        },
        Some(v) => {
            write_type(buf, TYPE_INT16, 1);
            let raw = v.to_raw() as u16;
            proof {
                assert((raw & 0xFF) < 0x100 && ((raw >> 8u16) & 0xFF) < 0x100) by (bit_vector);
            }
            buf.push((raw & 0xFF) as u8);
            buf.push(((raw >> 8) & 0xFF) as u8);
        },
    }
    proof {
        assert(buf@ =~= old(buf)@ + value_bytes(Some(ValueView::Int16(value))));
    }
}

/// Writes a 16-bit array: descriptor, then two little-endian bytes per
/// element.
pub fn write_int16_array(buf: &mut Vec<u8>, values: &[i16])
    requires
        values@.len() <= 0x7FFF_FFFF,
    ensures
        final(buf)@ == old(buf)@ + value_bytes(Some(ValueView::Int16Array(values@))),
{
    write_type(buf, TYPE_INT16, values.len());
    let ghost head = buf@;
    let mut i: usize = 0;
    while i < values.len()
        invariant
            i <= values@.len(),
            buf@ == head + i16s_le(values@.subrange(0, i as int)),
        decreases values@.len() - i,
    {
        let raw = values[i] as u16;
        proof {
            assert((raw & 0xFF) < 0x100 && ((raw >> 8u16) & 0xFF) < 0x100) by (bit_vector);
        }
        buf.push((raw & 0xFF) as u8);
        buf.push(((raw >> 8) & 0xFF) as u8);
        i = i + 1;
        proof {
            let sub = values@.subrange(0, i as int);
            assert(sub.drop_last() =~= values@.subrange(0, i - 1));
            assert(buf@ =~= head + i16s_le(sub));
        }
    }
    proof {
        assert(values@.subrange(0, values@.len() as int) =~= values@);
        assert(buf@ =~= old(buf)@ + value_bytes(Some(ValueView::Int16Array(values@))));
    }
}

/// Writes an optional 32-bit scalar.
pub fn write_int32(buf: &mut Vec<u8>, value: Option<Int32>)
    ensures
        final(buf)@ == old(buf)@ + value_bytes(Some(ValueView::Int32(value))),
{
    match value {
        None => {
            write_type(buf, TYPE_INT32, 0);
        },
        Some(v) => {
            write_type(buf, TYPE_INT32, 1);
            let raw = v.to_raw() as u32;
            proof {
                assert((raw & 0xFF) < 0x100 && ((raw >> 8u32) & 0xFF) < 0x100 && ((raw >> 16u32)
                    & 0xFF) < 0x100 && ((raw >> 24u32) & 0xFF) < 0x100) by (bit_vector);
            }
            buf.push((raw & 0xFF) as u8);
            buf.push(((raw >> 8) & 0xFF) as u8);
            buf.push(((raw >> 16) & 0xFF) as u8);
            buf.push(((raw >> 24) & 0xFF) as u8);
        },
    }
    proof {
        assert(buf@ =~= old(buf)@ + value_bytes(Some(ValueView::Int32(value))));
    }
}

/// Writes a 32-bit array: descriptor, then four little-endian bytes per
/// element.
pub fn write_int32_array(buf: &mut Vec<u8>, values: &[i32])
    requires
        values@.len() <= 0x7FFF_FFFF,
    ensures
        final(buf)@ == old(buf)@ + value_bytes(Some(ValueView::Int32Array(values@))),
{
    write_type(buf, TYPE_INT32, values.len());
    let ghost head = buf@;
    let mut i: usize = 0;
    while i < values.len()
        invariant
            i <= values@.len(),
            buf@ == head + i32s_le(values@.subrange(0, i as int)),
        decreases values@.len() - i,
    {
        let raw = values[i] as u32;
        proof {
            assert((raw & 0xFF) < 0x100 && ((raw >> 8u32) & 0xFF) < 0x100 && ((raw >> 16u32)
                & 0xFF) < 0x100 && ((raw >> 24u32) & 0xFF) < 0x100) by (bit_vector);
        }
        buf.push((raw & 0xFF) as u8);
        buf.push(((raw >> 8) & 0xFF) as u8);
        buf.push(((raw >> 16) & 0xFF) as u8);
        buf.push(((raw >> 24) & 0xFF) as u8);
        i = i + 1;
        proof {
            let sub = values@.subrange(0, i as int);
            assert(sub.drop_last() =~= values@.subrange(0, i - 1));
            assert(buf@ =~= head + i32s_le(sub));
        }
    }
    proof {
        assert(values@.subrange(0, values@.len() as int) =~= values@);
        assert(buf@ =~= old(buf)@ + value_bytes(Some(ValueView::Int32Array(values@))));
    }
}

/// Writes an optional value in its serialized form.
pub fn write_value(buf: &mut Vec<u8>, value: Option<Value>)
    requires
        match value {
            Some(Value::Int8Array(ref vs)) => vs@.len() <= 0x7FFF_FFFF,
            Some(Value::Int16Array(ref vs)) => vs@.len() <= 0x7FFF_FFFF,
            Some(Value::Int32Array(ref vs)) => vs@.len() <= 0x7FFF_FFFF,
            _ => true,
        },
    ensures
        final(buf)@ == old(buf)@ + value_bytes(opt_view(value)),
{
    match value {
        None => write_missing(buf),
        Some(Value::Int8(v)) => write_int8(buf, v),
        Some(Value::Int8Array(vs)) => write_int8_array(buf, vs.as_slice()),
        Some(Value::Int16(v)) => write_int16(buf, v),
        Some(Value::Int16Array(vs)) => write_int16_array(buf, vs.as_slice()),
        Some(Value::Int32(v)) => write_int32(buf, v),
        Some(Value::Int32Array(vs)) => write_int32_array(buf, vs.as_slice()),
    }
}

/// Reads one serialized optional value, the inverse of `write_value`.
pub fn read_value(src: &[u8], pos: &mut usize) -> (r: Result<Option<Value>, DecodeError>)
    ensures
        match r {
            Ok(v) => parse_value(src@, *old(pos) as int) == Some(
                (opt_view(v), *final(pos) as int),
            ),
            Err(_) => parse_value(src@, *old(pos) as int) is None,
        },
{
    let ghost i0 = *pos as int;
    let d = read_u8(src, pos)?;
    if d == 0x00 {
        return Ok(None);
    }
    let ty = d % 16;
    let n0 = d / 16;

    let n: usize;
    if n0 < 15 {
        n = n0 as usize;
    } else {
        let c = read_u8(src, pos)?;
        if c == 0x11 {
            let b = read_u8(src, pos)?;
            if b >= 0x80 {
                return Err(DecodeError::CorruptStream);
            }
            n = b as usize;
        } else if c == 0x12 {
            let b0 = read_u8(src, pos)?;
            let b1 = read_u8(src, pos)?;
            let v: usize = b0 as usize + 0x100 * (b1 as usize);
            if v >= 0x8000 {
                return Err(DecodeError::CorruptStream);
            }
            n = v;
        } else if c == 0x13 {
            let b0 = read_u8(src, pos)?;
            let b1 = read_u8(src, pos)?;
            let b2 = read_u8(src, pos)?;
            let b3 = read_u8(src, pos)?;
            let v: u32 = b0 as u32 + 0x100 * (b1 as u32) + 0x1_0000 * (b2 as u32) + 0x100_0000 * (
            b3 as u32);
            if v >= 0x8000_0000 {
                return Err(DecodeError::CorruptStream);
            }
            n = v as usize;
        } else {
            return Err(DecodeError::CorruptStream);
        }
    }
    let ghost j = *pos as int;
    proof {
        assert(parse_count(src@, d, i0 + 1) == Some((n as int, j)));
    }

    if ty == TYPE_INT8 {
        if n == 0 {
            return Ok(Some(Value::Int8(None)));
        }
        if n == 1 {
            let b = read_u8(src, pos)?;
            return Ok(Some(Value::Int8(Some(Int8::from_raw(b as i8)))));
        }
        if n > src.len() - *pos {
            return Err(DecodeError::Truncated);
        }
        let mut out: Vec<i8> = Vec::new();
        let mut k: usize = 0;
        while k < n
            invariant
                0 <= j,
                k <= n,
                *pos == j + k,
                j + n <= src@.len(),
                out@ == src@.subrange(j, j + k).map_values(|b: u8| b as i8),
            decreases n - k,
        {
            let b = src[*pos];
            out.push(b as i8);
            *pos = *pos + 1;
            k = k + 1;
            proof {
                assert(src@.subrange(j, j + k) =~= src@.subrange(j, j + k - 1).push(
                    src@[j + k - 1],
                ));
                assert(out@ =~= src@.subrange(j, j + k).map_values(|b: u8| b as i8));
            }
        }
        return Ok(Some(Value::Int8Array(out)));
    }

    if ty == TYPE_INT16 {
        if n == 0 {
            return Ok(Some(Value::Int16(None)));
        }
        if n == 1 {
            if src.len() - *pos < 2 {
                return Err(DecodeError::Truncated);
            }
            let b0 = src[*pos];
            let b1 = src[*pos + 1];
            *pos = *pos + 2;
            let raw = (b0 as u16) | ((b1 as u16) << 8);
            return Ok(Some(Value::Int16(Some(Int16::from_raw(raw as i16)))));
        }
        if n > (src.len() - *pos) / 2 {
            return Err(DecodeError::Truncated);
        }
        let ghost target = Seq::new(
            n as nat,
            |k: int| le16_raw(src@[j + 2 * k], src@[j + 2 * k + 1]) as i16,
        );
        let mut out: Vec<i16> = Vec::new();
        let mut k: usize = 0;
        while k < n
            invariant
                0 <= j,
                k <= n,
                *pos == j + 2 * k,
                j + 2 * n <= src@.len(),
                target == Seq::new(
                    n as nat,
                    |k: int| le16_raw(src@[j + 2 * k], src@[j + 2 * k + 1]) as i16,
                ),
                out@ == target.subrange(0, k as int),
            decreases n - k,
        {
            let b0 = src[*pos];
            let b1 = src[*pos + 1];
            *pos = *pos + 2;
            let raw = (b0 as u16) | ((b1 as u16) << 8);
            out.push(raw as i16);
            k = k + 1;
            proof {
                assert(out@ =~= target.subrange(0, k as int));
            }
        }
        proof {
            assert(out@ =~= target);
        }
        return Ok(Some(Value::Int16Array(out)));
    }

    if ty == TYPE_INT32 {
        if n == 0 {
            return Ok(Some(Value::Int32(None)));
        }
        if n == 1 {
            if src.len() - *pos < 4 {
                return Err(DecodeError::Truncated);
            }
            let b0 = src[*pos];
            let b1 = src[*pos + 1];
            let b2 = src[*pos + 2];
            let b3 = src[*pos + 3];
            *pos = *pos + 4;
            let raw = (b0 as u32) | ((b1 as u32) << 8) | ((b2 as u32) << 16) | ((b3 as u32) << 24);
            return Ok(Some(Value::Int32(Some(Int32::from_raw(raw as i32)))));
        }
        if n > (src.len() - *pos) / 4 {
            return Err(DecodeError::Truncated);
        }
        let ghost target = Seq::new(
            n as nat,
            |k: int|
                le32_raw(
                    src@[j + 4 * k],
                    src@[j + 4 * k + 1],
                    src@[j + 4 * k + 2],
                    src@[j + 4 * k + 3],
                ) as i32,
        );
        let mut out: Vec<i32> = Vec::new();
        let mut k: usize = 0;
        while k < n
            invariant
                0 <= j,
                k <= n,
                *pos == j + 4 * k,
                j + 4 * n <= src@.len(),
                target == Seq::new(
                    n as nat,
                    |k: int|
                        le32_raw(
                            src@[j + 4 * k],
                            src@[j + 4 * k + 1],
                            src@[j + 4 * k + 2],
                            src@[j + 4 * k + 3],
                        ) as i32,
                ),
                out@ == target.subrange(0, k as int),
            decreases n - k,
        {
            let b0 = src[*pos];
            let b1 = src[*pos + 1];
            let b2 = src[*pos + 2];
            let b3 = src[*pos + 3];
            *pos = *pos + 4;
            let raw = (b0 as u32) | ((b1 as u32) << 8) | ((b2 as u32) << 16) | ((b3 as u32) << 24);
            out.push(raw as i32);
            k = k + 1;
            proof {
                assert(out@ =~= target.subrange(0, k as int));
            }
        }
        proof {
            assert(out@ =~= target);
        }
        return Ok(Some(Value::Int32Array(out)));
    }

    Err(DecodeError::CorruptStream)
}



proof fn lemma_i8_cast_roundtrip(v: i8)
    ensures
        (v as u8) as i8 == v,
{
    assert((v as u8) as i8 == v) by (bit_vector);
}

proof fn lemma_i16_cast_roundtrip(v: i16)
    ensures
        le16_raw(i16_le(v)[0], i16_le(v)[1]) as i16 == v,
{
    let b0 = ((v as u16) & 0xFF) as u8;
    let b1 = (((v as u16) >> 8u16) & 0xFF) as u8;
    assert(((b0 as u16) | ((b1 as u16) << 8u16)) as i16 == v) by (bit_vector)
        requires
            b0 == ((v as u16) & 0xFF) as u8,
            b1 == (((v as u16) >> 8u16) & 0xFF) as u8,
    ;
}

proof fn lemma_i32_cast_roundtrip(v: i32)
    ensures
        le32_raw(i32_le(v)[0], i32_le(v)[1], i32_le(v)[2], i32_le(v)[3]) as i32 == v,
{
    let b0 = ((v as u32) & 0xFF) as u8;
    let b1 = (((v as u32) >> 8u32) & 0xFF) as u8;
    let b2 = (((v as u32) >> 16u32) & 0xFF) as u8;
    let b3 = (((v as u32) >> 24u32) & 0xFF) as u8;
    assert(((b0 as u32) | ((b1 as u32) << 8u32) | ((b2 as u32) << 16u32) | ((b3 as u32) << 24u32))
        as i32 == v) by (bit_vector)
        requires
            b0 == ((v as u32) & 0xFF) as u8,
            b1 == (((v as u32) >> 8u32) & 0xFF) as u8,
            b2 == (((v as u32) >> 16u32) & 0xFF) as u8,
            b3 == (((v as u32) >> 24u32) & 0xFF) as u8,
    ;
}

proof fn lemma_count_bytes_value(n: int)
    requires
        0 <= n <= 0x7FFF_FFFF,
    ensures
        ({
            let cb = count_bytes(n);
            &&& (cb[0] == 0x11 && cb.len() == 2 && cb[1] < 0x80 && cb[1] == n) || (cb[0] == 0x12
                && cb.len() == 3 && le16_val(cb[1], cb[2]) == n && n < 0x8000) || (cb[0] == 0x13
                && cb.len() == 5 && le32_val(cb[1], cb[2], cb[3], cb[4]) == n && n < 0x8000_0000)
        }),
{
    if n <= 0x7F {
    } else if n <= 0x7FFF {
        lemma_fundamental_div_mod(n, 0x100);
        lemma_mod_bound(n, 0x100);
    } else {
        lemma_fundamental_div_mod(n, 0x100);
        lemma_mod_bound(n, 0x100);
        lemma_fundamental_div_mod(n / 0x100, 0x100);
        lemma_mod_bound(n / 0x100, 0x100);
        lemma_div_denominator(n, 0x100, 0x100);
        lemma_fundamental_div_mod(n / 0x1_0000, 0x100);
        lemma_mod_bound(n / 0x1_0000, 0x100);
        lemma_div_denominator(n, 0x1_0000, 0x100);
        assert(n / 0x100_0000 <= 0x7F) by {
            assert(n / 0x100_0000 * 0x100_0000 <= n) by (nonlinear_arith)
                requires
                    0 <= n,
            ;
        }
    }
}

proof fn lemma_descriptor_parses(code: u8, m: int, rest: Seq<u8>)
    requires
        1 <= code <= 3,
        0 <= m <= 0x7FFF_FFFF,
    ensures
        ({
            let s = type_descriptor(code, m) + rest;
            &&& s[0] != 0
            &&& s[0] % 16 == code
            &&& parse_count(s, s[0], 1) == Some((m, type_descriptor(code, m).len() as int))
        }),
{
    let s = type_descriptor(code, m) + rest;
    if m < 15 {
        let v = m * 16 + code;
        assert(0 <= v < 256);
        assert(s[0] == v as u8);
        assert(v as u8 == v);
        assert(v % 16 == code && v / 16 == m) by (nonlinear_arith)
            requires
                0 <= m,
                0 < code < 16,
                v == m * 16 + code,
        ;
    } else {
        let d = (0xF0 + code) as u8;
        assert(s[0] == d);
        assert(d % 16 == code && d / 16 == 15) by (nonlinear_arith)
            requires
                1 <= code <= 3,
                d == 0xF0 + code,
        ;
        lemma_count_bytes_value(m);
        let cb = count_bytes(m);
        assert(forall|t: int| 0 <= t < cb.len() ==> s[1 + t] == #[trigger] cb[t]);
    }
}

proof fn lemma_i16s_le_len(vs: Seq<i16>)
    ensures
        i16s_le(vs).len() == 2 * vs.len(),
    decreases vs.len(),
{
    if vs.len() > 0 {
        lemma_i16s_le_len(vs.drop_last());
    }
}

proof fn lemma_i16s_le_index(vs: Seq<i16>, k: int)
    requires
        0 <= k < vs.len(),
    ensures
        i16s_le(vs)[2 * k] == i16_le(vs[k])[0],
        i16s_le(vs)[2 * k + 1] == i16_le(vs[k])[1],
    decreases vs.len(),
{
    lemma_i16s_le_len(vs.drop_last());
    if k == vs.len() - 1 {
    } else {
        lemma_i16s_le_index(vs.drop_last(), k);
    }
}

proof fn lemma_i32s_le_len(vs: Seq<i32>)
    ensures
        i32s_le(vs).len() == 4 * vs.len(),
    decreases vs.len(),
{
    if vs.len() > 0 {
        lemma_i32s_le_len(vs.drop_last());
    }
}

proof fn lemma_i32s_le_index(vs: Seq<i32>, k: int)
    requires
        0 <= k < vs.len(),
    ensures
        i32s_le(vs)[4 * k] == i32_le(vs[k])[0],
        i32s_le(vs)[4 * k + 1] == i32_le(vs[k])[1],
        i32s_le(vs)[4 * k + 2] == i32_le(vs[k])[2],
        i32s_le(vs)[4 * k + 3] == i32_le(vs[k])[3],
    decreases vs.len(),
{
    lemma_i32s_le_len(vs.drop_last());
    if k == vs.len() - 1 {
    } else {
        lemma_i32s_le_index(vs.drop_last(), k);
    }
}

/// Law: decoding inverts encoding. Every encodable optional value parses
/// back from its own serialized bytes, consuming them exactly.
pub proof fn lemma_value_round_trip(v: Option<ValueView>)
    requires
        value_encodable(v),
    ensures
        parse_value(value_bytes(v), 0) == Some((v, value_bytes(v).len() as int)),
{
    let s = value_bytes(v);
    match v {
        None => {},
        Some(ValueView::Int8(ov)) => {
            match ov {
                None => {
                    lemma_descriptor_parses(TYPE_INT8, 0, Seq::empty());
                    assert(s =~= type_descriptor(TYPE_INT8, 0) + Seq::<u8>::empty());
                },
                Some(x) => {
                    let raw = int8_to_raw(x);
                    lemma_descriptor_parses(TYPE_INT8, 1, seq![raw as u8]);
                    lemma_i8_cast_roundtrip(raw);
                    assert(s =~= type_descriptor(TYPE_INT8, 1) + seq![raw as u8]);
                },
            }
        },
        Some(ValueView::Int8Array(vs)) => {
            let m = vs.len() as int;
            let payload = vs.map_values(|x: i8| x as u8);
            lemma_descriptor_parses(TYPE_INT8, m, payload);
            let dl = type_descriptor(TYPE_INT8, m).len() as int;
            assert(s.subrange(dl, dl + m) =~= payload);
            assert forall|k: int| 0 <= k < m implies payload.map_values(|b: u8| b as i8)[k]
                == vs[k] by {
                lemma_i8_cast_roundtrip(vs[k]);
            }
            assert(s.subrange(dl, dl + m).map_values(|b: u8| b as i8) =~= vs);
        },
        Some(ValueView::Int16(ov)) => {
            match ov {
                None => {
                    lemma_descriptor_parses(TYPE_INT16, 0, Seq::empty());
                    assert(s =~= type_descriptor(TYPE_INT16, 0) + Seq::<u8>::empty());
                },
                Some(x) => {
                    let raw = int16_to_raw(x);
                    lemma_descriptor_parses(TYPE_INT16, 1, i16_le(raw));
                    lemma_i16_cast_roundtrip(raw);
                    let dl = type_descriptor(TYPE_INT16, 1).len() as int;
                    assert(s[dl] == i16_le(raw)[0] && s[dl + 1] == i16_le(raw)[1]);
                },
            }
        },
        Some(ValueView::Int16Array(vs)) => {
            let m = vs.len() as int;
            let payload = i16s_le(vs);
            lemma_i16s_le_len(vs);
            lemma_descriptor_parses(TYPE_INT16, m, payload);
            let dl = type_descriptor(TYPE_INT16, m).len() as int;
            let parsed = Seq::new(
                m as nat,
                |k: int| le16_raw(s[dl + 2 * k], s[dl + 2 * k + 1]) as i16,
            );
            assert forall|k: int| 0 <= k < m implies parsed[k] == vs[k] by {
                lemma_i16s_le_index(vs, k);
                assert(s[dl + 2 * k] == payload[2 * k]);
                assert(s[dl + 2 * k + 1] == payload[2 * k + 1]);
                lemma_i16_cast_roundtrip(vs[k]);
            }
            assert(parsed =~= vs);
        },
        Some(ValueView::Int32(ov)) => {
            match ov {
                None => {
                    lemma_descriptor_parses(TYPE_INT32, 0, Seq::empty());
                    assert(s =~= type_descriptor(TYPE_INT32, 0) + Seq::<u8>::empty());
                },
                Some(x) => {
                    let raw = int32_to_raw(x);
                    lemma_descriptor_parses(TYPE_INT32, 1, i32_le(raw));
                    lemma_i32_cast_roundtrip(raw);
                    let dl = type_descriptor(TYPE_INT32, 1).len() as int;
                    assert(s[dl] == i32_le(raw)[0] && s[dl + 1] == i32_le(raw)[1] && s[dl + 2]
                        == i32_le(raw)[2] && s[dl + 3] == i32_le(raw)[3]);
                },
            }
        },
        Some(ValueView::Int32Array(vs)) => {
            let m = vs.len() as int;
            let payload = i32s_le(vs);
            lemma_i32s_le_len(vs);
            lemma_descriptor_parses(TYPE_INT32, m, payload);
            let dl = type_descriptor(TYPE_INT32, m).len() as int;
            let parsed = Seq::new(
                m as nat,
                |k: int|
                    le32_raw(
                        s[dl + 4 * k],
                        s[dl + 4 * k + 1],
                        s[dl + 4 * k + 2],
                        s[dl + 4 * k + 3],
                    ) as i32,
            );
            assert forall|k: int| 0 <= k < m implies parsed[k] == vs[k] by {
                lemma_i32s_le_index(vs, k);
                assert(s[dl + 4 * k] == payload[4 * k]);
                assert(s[dl + 4 * k + 1] == payload[4 * k + 1]);
                assert(s[dl + 4 * k + 2] == payload[4 * k + 2]);
                assert(s[dl + 4 * k + 3] == payload[4 * k + 3]);
                lemma_i32_cast_roundtrip(vs[k]);
            }
            assert(parsed =~= vs);
        },
    }
}

} // verus!
