//! Reading little-endian fields from a byte buffer.

use super::error::{TdmsError, TdmsFault};
use super::value::{PropertyModel, PropertyValue, TdmsTimestamp};
use super::{dtype, value};
use crate::text;
use vstd::prelude::*;
use vstd::utf8;

verus! {

/// The number that little-endian bytes stand for.
pub open spec fn le_nat(s: Seq<u8>) -> nat
    decreases s.len(),
{
    if s.len() == 0 {
        0
    } else {
        s[0] as nat + 256 * le_nat(s.drop_first())
    }
}

/// The signed number with the same `2^bits` pattern as `n`, where `half` is
/// `2^(bits - 1)`.
pub open spec fn signed(n: nat, half: int) -> int {
    if n < half {
        n as int
    } else {
        n - 2 * half
    }
}

/// The `n` bytes from `pos` on.
pub open spec fn bytes_at(buf: Seq<u8>, pos: int, n: int) -> Result<Seq<u8>, TdmsFault> {
    if pos + n > buf.len() {
        Err(TdmsFault::Eof(pos))
    } else {
        Ok(buf.subrange(pos, pos + n))
    }
}

/// The number in the `n` bytes from `pos` on.
pub open spec fn nat_at(buf: Seq<u8>, pos: int, n: int) -> Result<nat, TdmsFault> {
    match bytes_at(buf, pos, n) {
        Ok(b) => Ok(le_nat(b)),
        Err(e) => Err(e),
    }
}

/// The text at `pos`: its length in bytes as a 32-bit number, and its UTF-8
/// bytes. With it comes the position behind it.
pub open spec fn text_at(buf: Seq<u8>, pos: int) -> Result<(Seq<char>, int), TdmsFault> {
    match nat_at(buf, pos, 4) {
        Err(e) => Err(e),
        Ok(n) => match bytes_at(buf, pos + 4, n as int) {
            Err(e) => Err(e),
            Ok(b) => if utf8::valid_utf8(b) {
                Ok((utf8::decode_utf8(b), pos + 4 + n))
            } else {
                Err(TdmsFault::Malformed("non-UTF8 string"@))
            },
        },
    }
}

/// Where the reading of a text at `pos` stops that cannot be had: at the field
/// that is cut short, or behind bytes that are not UTF-8.
pub open spec fn text_stop(buf: Seq<u8>, pos: int) -> int {
    match nat_at(buf, pos, 4) {
        Err(_) => pos,
        Ok(n) => match bytes_at(buf, pos + 4, n as int) {
            Err(_) => pos + 4,
            Ok(_) => pos + 4 + n,
        },
    }
}

/// Where the reading of a property value at `pos` stops that cannot be had. A
/// type that is not read takes no bytes.
pub open spec fn property_stop(buf: Seq<u8>, pos: int, code: u32) -> int {
    if code == dtype::STRING {
        text_stop(buf, pos)
    } else if code == dtype::TIMESTAMP && nat_at(buf, pos, 8) is Ok {
        pos + 8
    } else {
        pos
    }
}

/// How many bytes a property value of a fixed-size type takes; `None` for
/// text and for codes that are no property type.
pub open spec fn property_width(code: u32) -> Option<int> {
    if code == dtype::VOID {
        Some(0)
    } else if code == dtype::BOOL || code == dtype::I8 || code == dtype::U8 {
        Some(1)
    } else if code == dtype::I16 || code == dtype::U16 {
        Some(2)
    } else if code == dtype::I32 || code == dtype::U32 || code == dtype::F32 {
        Some(4)
    } else if code == dtype::I64 || code == dtype::U64 || code == dtype::F64 {
        Some(8)
    } else {
        None
    }
}

/// The property value that the number `n` stands for, of a fixed-size type
/// that is no timestamp.
pub open spec fn fixed_property(code: u32, n: nat) -> PropertyModel {
    if code == dtype::VOID {
        PropertyModel::Void
    } else if code == dtype::BOOL {
        PropertyModel::Bool(n != 0)
    } else if code == dtype::I8 {
        PropertyModel::I8(signed(n, 0x80) as i8)
    } else if code == dtype::I16 {
        PropertyModel::I16(signed(n, 0x8000) as i16)
    } else if code == dtype::I32 {
        PropertyModel::I32(signed(n, 0x8000_0000) as i32)
    } else if code == dtype::I64 {
        PropertyModel::I64(signed(n, 0x8000_0000_0000_0000) as i64)
    } else if code == dtype::U8 {
        PropertyModel::U8(n as u8)
    } else if code == dtype::U16 {
        PropertyModel::U16(n as u16)
    } else if code == dtype::U32 {
        PropertyModel::U32(n as u32)
    } else if code == dtype::U64 {
        PropertyModel::U64(n as u64)
    } else if code == dtype::F32 {
        PropertyModel::F32(n as u32)
    } else {
        PropertyModel::F64(n as u64)
    }
}

/// The timestamp whose fraction and seconds stand in these two numbers.
pub open spec fn timestamp_of(fraction: nat, seconds: nat) -> TdmsTimestamp {
    TdmsTimestamp {
        us_since_epoch: value::micros_of_raw(
            fraction as u64,
            signed(seconds, 0x8000_0000_0000_0000) as i64,
        ) as i64,
    }
}

/// The property value of type `code` at `pos`, and the position behind it.
/// `path` names the object in an error.
pub open spec fn property_at(buf: Seq<u8>, pos: int, code: u32, path: Seq<char>) -> Result<
    (PropertyModel, int),
    TdmsFault,
> {
    if code == dtype::STRING {
        match text_at(buf, pos) {
            Err(e) => Err(e),
            Ok((s, next)) => Ok((PropertyModel::Text(s), next)),
        }
    } else if code == dtype::TIMESTAMP {
        match nat_at(buf, pos, 8) {
            Err(e) => Err(e),
            Ok(fraction) => match nat_at(buf, pos + 8, 8) {
                Err(e) => Err(e),
                Ok(seconds) => Ok(
                    (PropertyModel::Timestamp(timestamp_of(fraction, seconds)), pos + 16),
                ),
            },
        }
    } else {
        match property_width(code) {
            None => Err(TdmsFault::UnsupportedDataType(code, path)),
            Some(w) => match nat_at(buf, pos, w) {
                Err(e) => Err(e),
                Ok(n) => Ok((fixed_property(code, n), pos + w)),
            },
        }
    }
}

/// A number of `w` bytes is below `256^w`, for the widths that occur.
pub proof fn lemma_le_nat_bound(s: Seq<u8>)
    ensures
        s.len() == 1 ==> le_nat(s) == s[0],
        s.len() == 2 ==> le_nat(s) == s[0] + 256 * s[1],
        s.len() == 4 ==> le_nat(s) == s[0] + 0x100 * s[1] + 0x1_0000 * s[2] + 0x100_0000 * s[3],
        s.len() == 8 ==> le_nat(s) == s[0] + 0x100 * s[1] + 0x1_0000 * s[2] + 0x100_0000 * s[3]
            + 0x1_0000_0000 * s[4] + 0x100_0000_0000 * s[5] + 0x1_0000_0000_0000 * s[6]
            + 0x100_0000_0000_0000 * s[7],
{
    reveal_with_fuel(le_nat, 9);
    if s.len() > 0 {
        let t = s.drop_first();
        if s.len() == 2 {
            assert(t[0] == s[1]);
        }
        if s.len() == 4 || s.len() == 8 {
            assert(t[0] == s[1]);
            assert(t.drop_first()[0] == s[2]);
            assert(t.drop_first().drop_first()[0] == s[3]);
        }
        if s.len() == 8 {
            let u = t.drop_first().drop_first();
            assert(u.drop_first()[0] == s[4]);
            assert(u.drop_first().drop_first()[0] == s[5]);
            assert(u.drop_first().drop_first().drop_first()[0] == s[6]);
            assert(u.drop_first().drop_first().drop_first().drop_first()[0] == s[7]);
        }
    }
}

/// Two little-endian bytes as a number.
pub fn le_u16(b: &[u8]) -> (r: u16)
    requires
        b@.len() == 2,
    ensures
        r == le_nat(b@),
{
    proof {
        lemma_le_nat_bound(b@);
    }
    b[0] as u16 + 0x100 * b[1] as u16
}

/// Four little-endian bytes as a number.
pub fn le_u32(b: &[u8]) -> (r: u32)
    requires
        b@.len() == 4,
    ensures
        r == le_nat(b@),
{
    proof {
        lemma_le_nat_bound(b@);
    }
    b[0] as u32 + 0x100 * b[1] as u32 + 0x1_0000 * b[2] as u32 + 0x100_0000 * b[3] as u32
}

/// Eight little-endian bytes as a number.
pub fn le_u64(b: &[u8]) -> (r: u64)
    requires
        b@.len() == 8,
    ensures
        r == le_nat(b@),
{
    proof {
        lemma_le_nat_bound(b@);
    }
    b[0] as u64 + 0x100 * b[1] as u64 + 0x1_0000 * b[2] as u64 + 0x100_0000 * b[3] as u64
        + 0x1_0000_0000 * b[4] as u64 + 0x100_0000_0000 * b[5] as u64 + 0x1_0000_0000_0000
        * b[6] as u64 + 0x100_0000_0000_0000 * b[7] as u64
}

/// The signed byte with the same bits.
pub fn sign_u8(n: u8) -> (r: i8)
    ensures
        r == signed(n as nat, 0x80),
{
    let r: i8 = n as i8;
    assert(n < 0x80 ==> (n as i8) == n) by (bit_vector);
    assert(n >= 0x80 ==> (n as i8) == n - 0x100) by (bit_vector);
    r
}

/// The signed 16-bit number with the same bits.
pub fn sign_u16(n: u16) -> (r: i16)
    ensures
        r == signed(n as nat, 0x8000),
{
    assert(n < 0x8000 ==> (n as i16) == n) by (bit_vector);
    assert(n >= 0x8000 ==> (n as i16) == n - 0x1_0000) by (bit_vector);
    n as i16
}

/// The signed 32-bit number with the same bits.
pub fn sign_u32(n: u32) -> (r: i32)
    ensures
        r == signed(n as nat, 0x8000_0000),
{
    assert(n < 0x8000_0000 ==> (n as i32) == n) by (bit_vector);
    assert(n >= 0x8000_0000 ==> (n as i32) == n - 0x1_0000_0000) by (bit_vector);
    n as i32
}

/// The signed 64-bit number with the same bits.
pub fn sign_u64(n: u64) -> (r: i64)
    ensures
        r == signed(n as nat, 0x8000_0000_0000_0000),
{
    assert(n < 0x8000_0000_0000_0000 ==> (n as i64) == n) by (bit_vector);
    assert(n >= 0x8000_0000_0000_0000 ==> (n as i64) == n - 0x1_0000_0000_0000_0000)
        by (bit_vector);
    n as i64
}

/// A position in a byte buffer.
pub struct Cursor<'a> {
    pub buf: &'a [u8],
    pub pos: usize,
}

impl<'a> Cursor<'a> {
    /// The position is not behind the end.
    pub open spec fn wf(&self) -> bool {
        self.pos <= self.buf@.len()
    }

    /// Whether the cursor went from `from` to position `next` of one buffer.
    pub open spec fn moved(&self, from: &Self, next: int) -> bool {
        &&& self.buf@ == from.buf@
        &&& self.pos == next
        &&& self.wf()
    }

    /// Starts at the beginning of `buf`.
    pub fn new(buf: &'a [u8]) -> (r: Self)
        ensures
            r.buf@ == buf@,
            r.pos == 0,
            r.wf(),
    {
        Cursor { buf, pos: 0 }
    }

    /// Takes the next `n` bytes.
    pub fn read_bytes(&mut self, n: usize) -> (r: Result<&'a [u8], TdmsError>)
        requires
            old(self).wf(),
        ensures
            match bytes_at(old(self).buf@, old(self).pos as int, n as int) {
                Ok(b) => (r matches Ok(s) && s@ == b) && final(self).moved(
                    old(self),
                    old(self).pos + n,
                ),
                Err(e) => (r matches Err(x) && x@ == e) && final(self).moved(
                    old(self),
                    old(self).pos as int,
                ),
            },
    {
        if n > self.buf.len() - self.pos {
            return Err(TdmsError::Eof(self.pos));
        }
        let end: usize = self.pos + n;
        let out: &'a [u8] = vstd::slice::slice_subrange(self.buf, self.pos, end);
        self.pos = end;
        Ok(out)
    }

    /// Takes a 32-bit number.
    pub fn read_u32(&mut self) -> (r: Result<u32, TdmsError>)
        requires
            old(self).wf(),
        ensures
            match nat_at(old(self).buf@, old(self).pos as int, 4) {
                Ok(n) => (r matches Ok(v) && v == n) && final(self).moved(
                    old(self),
                    old(self).pos + 4,
                ),
                Err(e) => (r matches Err(x) && x@ == e) && final(self).moved(
                    old(self),
                    old(self).pos as int,
                ),
            },
    {
        let b: &[u8] = self.read_bytes(4)?;
        Ok(le_u32(b))
    }

    /// Takes a 64-bit number.
    pub fn read_u64(&mut self) -> (r: Result<u64, TdmsError>)
        requires
            old(self).wf(),
        ensures
            match nat_at(old(self).buf@, old(self).pos as int, 8) {
                Ok(n) => (r matches Ok(v) && v == n) && final(self).moved(
                    old(self),
                    old(self).pos + 8,
                ),
                Err(e) => (r matches Err(x) && x@ == e) && final(self).moved(
                    old(self),
                    old(self).pos as int,
                ),
            },
    {
        let b: &[u8] = self.read_bytes(8)?;
        Ok(le_u64(b))
    }

    /// Takes a signed 32-bit number.
    pub fn read_i32(&mut self) -> (r: Result<i32, TdmsError>)
        requires
            old(self).wf(),
        ensures
            match nat_at(old(self).buf@, old(self).pos as int, 4) {
                Ok(n) => (r matches Ok(v) && v == signed(n, 0x8000_0000)) && final(self).moved(
                    old(self),
                    old(self).pos + 4,
                ),
                Err(e) => (r matches Err(x) && x@ == e) && final(self).moved(
                    old(self),
                    old(self).pos as int,
                ),
            },
    {
        let n: u32 = self.read_u32()?;
        Ok(sign_u32(n))
    }

    /// Takes a signed 64-bit number.
    pub fn read_i64(&mut self) -> (r: Result<i64, TdmsError>)
        requires
            old(self).wf(),
        ensures
            match nat_at(old(self).buf@, old(self).pos as int, 8) {
                Ok(n) => (r matches Ok(v) && v == signed(n, 0x8000_0000_0000_0000)) && final(self).moved(old(self), old(self).pos + 8),
                Err(e) => (r matches Err(x) && x@ == e) && final(self).moved(
                    old(self),
                    old(self).pos as int,
                ),
            },
    {
        let n: u64 = self.read_u64()?;
        Ok(sign_u64(n))
    }

    /// Takes a text with its length in front.
    pub fn read_string(&mut self) -> (r: Result<String, TdmsError>)
        requires
            old(self).wf(),
        ensures
            match text_at(old(self).buf@, old(self).pos as int) {
                Ok((s, next)) => (r matches Ok(v) && v@ == s) && final(self).moved(
                    old(self),
                    next,
                ),
                Err(e) => (r matches Err(x) && x@ == e) && final(self).moved(
                    old(self),
                    text_stop(old(self).buf@, old(self).pos as int),
                ),
            },
    {
        let len: u32 = self.read_u32()?;
        let bytes: &[u8] = self.read_bytes(len as usize)?;
        match text::utf8_text(bytes) {
            Some(s) => Ok(s.to_owned()),
            None => Err(TdmsError::Malformed("non-UTF8 string".to_owned())),
        }
    }

    /// Takes a property value of type `code`.
    pub fn read_property_value(&mut self, code: u32, path: &str) -> (r: Result<
        PropertyValue,
        TdmsError,
    >)
        requires
            old(self).wf(),
        ensures
            match property_at(old(self).buf@, old(self).pos as int, code, path@) {
                Ok((p, next)) => (r matches Ok(v) && v@ == p) && final(self).moved(
                    old(self),
                    next,
                ),
                Err(e) => (r matches Err(x) && x@ == e) && final(self).moved(
                    old(self),
                    property_stop(old(self).buf@, old(self).pos as int, code),
                ),
            },
    {
        let ghost buf = self.buf@;
        let ghost at = self.pos as int;
        if code == dtype::VOID {
            proof {
                assert(bytes_at(buf, at, 0) == Ok::<Seq<u8>, TdmsFault>(buf.subrange(at, at)));
            }
            Ok(PropertyValue::Void)
        } else if code == dtype::BOOL {
            let b: &[u8] = self.read_bytes(1)?;
            proof {
                lemma_le_nat_bound(b@);
            }
            Ok(PropertyValue::Bool(b[0] != 0))
        } else if code == dtype::I8 {
            let b: &[u8] = self.read_bytes(1)?;
            proof {
                lemma_le_nat_bound(b@);
            }
            Ok(PropertyValue::I8(sign_u8(b[0])))
        } else if code == dtype::I16 {
            let b: &[u8] = self.read_bytes(2)?;
            Ok(PropertyValue::I16(sign_u16(le_u16(b))))
        } else if code == dtype::I32 {
            Ok(PropertyValue::I32(self.read_i32()?))
        } else if code == dtype::I64 {
            Ok(PropertyValue::I64(self.read_i64()?))
        } else if code == dtype::U8 {
            let b: &[u8] = self.read_bytes(1)?;
            proof {
                lemma_le_nat_bound(b@);
            }
            Ok(PropertyValue::U8(b[0]))
        } else if code == dtype::U16 {
            let b: &[u8] = self.read_bytes(2)?;
            Ok(PropertyValue::U16(le_u16(b)))
        } else if code == dtype::U32 {
            Ok(PropertyValue::U32(self.read_u32()?))
        } else if code == dtype::U64 {
            Ok(PropertyValue::U64(self.read_u64()?))
        } else if code == dtype::F32 {
            Ok(PropertyValue::F32(self.read_u32()?))
        } else if code == dtype::F64 {
            Ok(PropertyValue::F64(self.read_u64()?))
        } else if code == dtype::STRING {
            Ok(PropertyValue::String(self.read_string()?))
        } else if code == dtype::TIMESTAMP {
            let fraction: u64 = self.read_u64()?;
            let seconds: i64 = self.read_i64()?;
            Ok(PropertyValue::Timestamp(TdmsTimestamp::from_raw(fraction, seconds)))
        } else {
            Err(TdmsError::UnsupportedDataType(code, path.to_owned()))
        }
    }
}

} // verus!
