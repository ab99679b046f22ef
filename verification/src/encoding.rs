//! The binary form of values and documents: a tag byte, then a payload.

use crate::bytes;
use crate::bytes::le_bytes;
use crate::bytes::le_value;
use crate::bytes::push_le;
use crate::bytes::read_le;
use crate::document;
use crate::document::Document;
use crate::document::DocumentView;
use crate::document::Value;
use crate::document::ValueView;
use crate::document::distinct;
use crate::document::doc_insert;
use crate::document::fields_view;
use crate::document::proper;
use crate::document::values_view;
use crate::float::Float;
use crate::node::copy_range;
use crate::text::nat_text;
use crate::text::push_number;
use crate::text::string_from_utf8;
use vstd::arithmetic::power::pow;
use vstd::prelude::*;
use vstd::utf8::decode_utf8;
use vstd::utf8::encode_utf8;
use vstd::utf8::valid_utf8;

verus! {

/// All the ways decoding can fail.
#[derive(Debug, Clone, Copy, PartialEq, Eq, Structural)]
pub enum DecodeError {
    /// The bytes end before the value does.
    UnexpectedEof,
    /// A tag byte belongs to no kind of value.
    InvalidTag(u8),
    /// The bytes of a string are not valid UTF-8.
    InvalidUtf8,
}

/// What went wrong, in words.
pub open spec fn decode_error_text(error: DecodeError) -> Seq<char> {
    match error {
        DecodeError::UnexpectedEof => "unexpected end of input"@,
        DecodeError::InvalidTag(tag) => "invalid value tag: "@ + nat_text(tag as nat),
        DecodeError::InvalidUtf8 => "invalid utf-8 in string"@,
    }
}

impl DecodeError {
    /// What went wrong, in words.
    pub fn message(&self) -> (text: String)
        ensures
            text@ == decode_error_text(*self),
    {
        match self {
            DecodeError::UnexpectedEof => "unexpected end of input".to_owned(),
            DecodeError::InvalidTag(tag) => {
                let mut text = "invalid value tag: ".to_owned();
                push_number(&mut text, *tag as u64);
                text
            },
            DecodeError::InvalidUtf8 => "invalid utf-8 in string".to_owned(),
        }
    }
}

/// The 64 bits of a signed integer.
pub open spec fn int_bits(n: i64) -> nat {
    if n >= 0 {
        n as nat
    } else {
        (n + 0x1_0000_0000_0000_0000) as nat
    }
}

/// The signed integer with these 64 bits.
pub open spec fn bits_int(bits: nat) -> i64 {
    if bits < 0x8000_0000_0000_0000 {
        bits as i64
    } else {
        (bits - 0x1_0000_0000_0000_0000) as i64
    }
}

/// A string behind the number of its bytes, of which 32 bits are kept.
pub open spec fn string_bytes(s: Seq<char>) -> Seq<u8> {
    le_bytes(encode_utf8(s).len(), 4) + encode_utf8(s)
}

/// The binary form of a value.
pub open spec fn value_bytes(value: ValueView) -> Seq<u8>
    decreases value,
{
    match value {
        ValueView::Null => seq![0u8],
        ValueView::Bool(b) => seq![
            1u8,
            if b {
                1u8
            } else {
                0u8
            },
        ],
        ValueView::Int(n) => seq![2u8] + le_bytes(int_bits(n), 8),
        ValueView::Float(f) => seq![3u8] + le_bytes(f.0 as nat, 8),
        ValueView::Str(s) => seq![4u8] + string_bytes(s),
        ValueView::Array(items) => seq![5u8] + le_bytes(items.len(), 4) + items_bytes(items),
        ValueView::Document(doc) => seq![6u8] + le_bytes(doc.len(), 4) + fields_bytes(doc),
    }
}

/// The values one after the other.
pub open spec fn items_bytes(items: Seq<ValueView>) -> Seq<u8>
    decreases items,
{
    if items.len() == 0 {
        Seq::empty()
    } else {
        value_bytes(items[0]) + items_bytes(items.drop_first())
    }
}

/// Names and values one after the other.
pub open spec fn fields_bytes(doc: DocumentView) -> Seq<u8>
    decreases doc,
{
    if doc.len() == 0 {
        Seq::empty()
    } else {
        string_bytes(doc[0].0) + value_bytes(doc[0].1) + fields_bytes(doc.drop_first())
    }
}

/// The binary form of a document: the number of fields, of which 32 bits are
/// kept, and the fields.
pub open spec fn document_bytes(doc: DocumentView) -> Seq<u8> {
    le_bytes(doc.len(), 4) + fields_bytes(doc)
}

/// What is read from some position on, and the position behind it.
pub type Decoded<Content> = Result<(Content, int), DecodeError>;

/// Reads `n` bytes as a number.
pub open spec fn decode_number(bytes: Seq<u8>, pos: int, n: int) -> Decoded<nat> {
    if pos + n <= bytes.len() {
        Ok((le_value(bytes.subrange(pos, pos + n)), pos + n))
    } else {
        Err(DecodeError::UnexpectedEof)
    }
}

/// Reads a string.
pub open spec fn decode_string(bytes: Seq<u8>, pos: int) -> Decoded<Seq<char>> {
    match decode_number(bytes, pos, 4) {
        Ok((len, start)) => {
            let text = bytes.subrange(start, start + len);
            if start + len > bytes.len() {
                Err(DecodeError::UnexpectedEof)
            } else if !valid_utf8(text) {
                Err(DecodeError::InvalidUtf8)
            } else {
                Ok((decode_utf8(text), start + len))
            }
        },
        Err(error) => Err(error),
    }
}

/// Reads a value.
pub open spec fn decode_value(bytes: Seq<u8>, pos: int) -> Decoded<ValueView>
    decreases bytes.len() - pos, 0int, 0int,
{
    if pos >= bytes.len() {
        Err(DecodeError::UnexpectedEof)
    } else {
        let tag = bytes[pos];
        if tag == 0 {
            Ok((ValueView::Null, pos + 1))
        } else if tag == 1 {
            match decode_number(bytes, pos + 1, 1) {
                Ok((b, next)) => Ok((ValueView::Bool(b != 0), next)),
                Err(error) => Err(error),
            }
        } else if tag == 2 {
            match decode_number(bytes, pos + 1, 8) {
                Ok((bits, next)) => Ok((ValueView::Int(bits_int(bits)), next)),
                Err(error) => Err(error),
            }
        } else if tag == 3 {
            match decode_number(bytes, pos + 1, 8) {
                Ok((bits, next)) => Ok((ValueView::Float(Float(bits as u64)), next)),
                Err(error) => Err(error),
            }
        } else if tag == 4 {
            match decode_string(bytes, pos + 1) {
                Ok((s, next)) => Ok((ValueView::Str(s), next)),
                Err(error) => Err(error),
            }
        } else if tag == 5 {
            match decode_number(bytes, pos + 1, 4) {
                Ok((count, start)) => match decode_items(bytes, start, count) {
                    Ok((items, next)) => Ok((ValueView::Array(items), next)),
                    Err(error) => Err(error),
                },
                Err(error) => Err(error),
            }
        } else if tag == 6 {
            match decode_number(bytes, pos + 1, 4) {
                Ok((count, start)) => match decode_fields(bytes, start, count, Seq::empty()) {
                    Ok((doc, next)) => Ok((ValueView::Document(doc), next)),
                    Err(error) => Err(error),
                },
                Err(error) => Err(error),
            }
        } else {
            Err(DecodeError::InvalidTag(tag))
        }
    }
}

/// Reads `count` values.
pub open spec fn decode_items(bytes: Seq<u8>, pos: int, count: nat) -> Decoded<Seq<ValueView>>
    decreases bytes.len() - pos, 1int, count,
{
    if count == 0 {
        Ok((Seq::empty(), pos))
    } else {
        match decode_value(bytes, pos) {
            Ok((item, next)) => if pos < next <= bytes.len() {
                match decode_items(bytes, next, (count - 1) as nat) {
                    Ok((rest, end)) => Ok((seq![item] + rest, end)),
                    Err(error) => Err(error),
                }
            } else {
                Err(DecodeError::UnexpectedEof)
            },
            Err(error) => Err(error),
        }
    }
}

/// Reads `count` fields and adds them to `doc`.
pub open spec fn decode_fields(
    bytes: Seq<u8>,
    pos: int,
    count: nat,
    doc: DocumentView,
) -> Decoded<DocumentView>
    decreases bytes.len() - pos, 1int, count,
{
    if count == 0 {
        Ok((doc, pos))
    } else {
        match decode_string(bytes, pos) {
            Ok((key, start)) => match decode_value(bytes, start) {
                Ok((value, next)) => if start < next <= bytes.len() {
                    decode_fields(bytes, next, (count - 1) as nat, doc_insert(doc, key, value))
                } else {
                    Err(DecodeError::UnexpectedEof)
                },
                Err(error) => Err(error),
            },
            Err(error) => Err(error),
        }
    }
}

/// Reads a document.
pub open spec fn decode_document(bytes: Seq<u8>, pos: int) -> Decoded<DocumentView> {
    match decode_number(bytes, pos, 4) {
        Ok((count, start)) => decode_fields(bytes, start, count, Seq::empty()),
        Err(error) => Err(error),
    }
}

/// The document that some bytes start with.
pub open spec fn document_of(bytes: Seq<u8>) -> Result<DocumentView, DecodeError> {
    match decode_document(bytes, 0) {
        Ok((doc, _)) => Ok(doc),
        Err(error) => Err(error),
    }
}

/// A value takes at least one byte and ends inside the bytes.
proof fn lemma_value_ends(bytes: Seq<u8>, pos: int)
    requires
        0 <= pos,
    ensures
        decode_value(bytes, pos) matches Ok((_, next)) ==> pos < next <= bytes.len(),
    decreases bytes.len() - pos, 0int, 0int,
{
    if pos < bytes.len() {
        let tag = bytes[pos];
        if tag == 5 || tag == 6 {
            match decode_number(bytes, pos + 1, 4) {
                Ok((count, start)) => {
                    if tag == 5 {
                        lemma_items_end(bytes, start, count);
                    } else {
                        lemma_fields_end(bytes, start, count, Seq::empty());
                    }
                },
                Err(_) => {},
            }
        }
    }
}

proof fn lemma_items_end(bytes: Seq<u8>, pos: int, count: nat)
    requires
        0 <= pos <= bytes.len(),
    ensures
        decode_items(bytes, pos, count) matches Ok((_, end)) ==> pos <= end <= bytes.len(),
    decreases bytes.len() - pos, 1int, count,
{
    if count > 0 {
        lemma_value_ends(bytes, pos);
        match decode_value(bytes, pos) {
            Ok((_, next)) => {
                lemma_items_end(bytes, next, (count - 1) as nat);
            },
            Err(_) => {},
        }
    }
}

proof fn lemma_fields_end(bytes: Seq<u8>, pos: int, count: nat, doc: DocumentView)
    requires
        0 <= pos <= bytes.len(),
    ensures
        decode_fields(bytes, pos, count, doc) matches Ok((_, end)) ==> pos <= end <= bytes.len(),
    decreases bytes.len() - pos, 1int, count,
{
    if count > 0 {
        match decode_string(bytes, pos) {
            Ok((key, start)) => {
                lemma_value_ends(bytes, start);
                match decode_value(bytes, start) {
                    Ok((value, next)) => {
                        lemma_fields_end(
                            bytes,
                            next,
                            (count - 1) as nat,
                            doc_insert(doc, key, value),
                        );
                    },
                    Err(_) => {},
                }
            },
            Err(_) => {},
        }
    }
}

/// A position in a list of bytes that are read one after the other.
pub struct Cursor<'a> {
    bytes: &'a [u8],
    pos: usize,
}

impl<'a> Cursor<'a> {
    /// The bytes that are read.
    pub closed spec fn data(&self) -> Seq<u8> {
        self.bytes@
    }

    /// The position of the next byte.
    pub closed spec fn at(&self) -> int {
        self.pos as int
    }

    /// The position is not behind the end.
    pub open spec fn inv(&self) -> bool {
        0 <= self.at() <= self.data().len()
    }

    /// Starts at the first byte.
    pub fn new(bytes: &'a [u8]) -> (cursor: Self)
        ensures
            cursor.inv(),
            cursor.data() == bytes@,
            cursor.at() == 0,
    {
        Cursor { bytes, pos: 0 }
    }

    /// Reads the next `n` bytes, at most eight, as a number.
    fn read_number(&mut self, n: usize) -> (result: Result<u64, DecodeError>)
        requires
            old(self).inv(),
            n <= 8,
        ensures
            final(self).inv(),
            final(self).data() == old(self).data(),
            match decode_number(old(self).data(), old(self).at(), n as int) {
                Ok((value, next)) => {
                    &&& result matches Ok(read)
                    &&& read == value
                    &&& final(self).at() == next
                },
                Err(error) => {
                    &&& result == Err::<u64, DecodeError>(error)
                    &&& final(self).at() == old(self).at()
                },
            },
    {
        let len: usize = self.bytes.len();
        if n > len - self.pos {
            return Err(DecodeError::UnexpectedEof);
        }
        let value: u64 = read_le(self.bytes, self.pos, n);
        self.pos = self.pos + n;
        Ok(value)
    }

    /// Reads one byte.
    pub fn read_u8(&mut self) -> (result: Result<u8, DecodeError>)
        requires
            old(self).inv(),
        ensures
            final(self).inv(),
            final(self).data() == old(self).data(),
            match result {
                Ok(byte) => {
                    &&& old(self).at() < old(self).data().len()
                    &&& byte == old(self).data()[old(self).at()]
                    &&& final(self).at() == old(self).at() + 1
                },
                Err(error) => {
                    &&& old(self).at() == old(self).data().len()
                    &&& error == DecodeError::UnexpectedEof
                    &&& final(self).at() == old(self).at()
                },
            },
    {
        if self.pos >= self.bytes.len() {
            return Err(DecodeError::UnexpectedEof);
        }
        let byte: u8 = self.bytes[self.pos];
        self.pos = self.pos + 1;
        Ok(byte)
    }

    /// Reads a number of 32 bits.
    pub fn read_u32(&mut self) -> (result: Result<u32, DecodeError>)
        requires
            old(self).inv(),
        ensures
            final(self).inv(),
            final(self).data() == old(self).data(),
            match decode_number(old(self).data(), old(self).at(), 4) {
                Ok((value, next)) => {
                    &&& result matches Ok(read)
                    &&& read == value
                    &&& final(self).at() == next
                },
                Err(error) => {
                    &&& result == Err::<u32, DecodeError>(error)
                    &&& final(self).at() == old(self).at()
                },
            },
    {
        proof {
            if self.at() + 4 <= self.data().len() {
                bytes::law_le_bytes_of_value(self.data().subrange(self.at(), self.at() + 4));
                bytes::lemma_byte_ranges();
            }
        }
        match self.read_number(4) {
            Ok(value) => Ok(value as u32),
            Err(error) => Err(error),
        }
    }

    /// Reads a signed integer of 64 bits.
    pub fn read_i64(&mut self) -> (result: Result<i64, DecodeError>)
        requires
            old(self).inv(),
        ensures
            final(self).inv(),
            final(self).data() == old(self).data(),
            match decode_number(old(self).data(), old(self).at(), 8) {
                Ok((bits, next)) => {
                    &&& result == Ok::<i64, DecodeError>(bits_int(bits))
                    &&& final(self).at() == next
                },
                Err(error) => {
                    &&& result == Err::<i64, DecodeError>(error)
                    &&& final(self).at() == old(self).at()
                },
            },
    {
        match self.read_number(8) {
            Ok(bits) => {
                if bits < 0x8000_0000_0000_0000 {
                    Ok(bits as i64)
                } else {
                    let rest: u64 = 0xffff_ffff_ffff_ffff - bits;
                    Ok(-1 - rest as i64)
                }
            },
            Err(error) => Err(error),
        }
    }

    /// Reads a floating-point number.
    pub fn read_float(&mut self) -> (result: Result<Float, DecodeError>)
        requires
            old(self).inv(),
        ensures
            final(self).inv(),
            final(self).data() == old(self).data(),
            match decode_number(old(self).data(), old(self).at(), 8) {
                Ok((bits, next)) => {
                    &&& result == Ok::<Float, DecodeError>(Float(bits as u64))
                    &&& final(self).at() == next
                },
                Err(error) => {
                    &&& result == Err::<Float, DecodeError>(error)
                    &&& final(self).at() == old(self).at()
                },
            },
    {
        match self.read_number(8) {
            Ok(bits) => Ok(Float(bits)),
            Err(error) => Err(error),
        }
    }

    /// Reads a string. Where its bytes are missing the position is behind the
    /// length, and where they are not valid UTF-8 it is behind them.
    pub fn read_string(&mut self) -> (result: Result<String, DecodeError>)
        requires
            old(self).inv(),
        ensures
            final(self).inv(),
            final(self).data() == old(self).data(),
            match decode_string(old(self).data(), old(self).at()) {
                Ok((s, next)) => {
                    &&& result matches Ok(read)
                    &&& read@ == s
                    &&& final(self).at() == next
                },
                Err(error) => {
                    &&& result == Err::<String, DecodeError>(error)
                    &&& final(self).at() == match decode_number(old(self).data(), old(self).at(), 4) {
                        Ok((len, start)) => if error == DecodeError::InvalidUtf8 {
                            start + len
                        } else {
                            start
                        },
                        Err(_) => old(self).at(),
                    }
                },
            },
    {
        let len: u32 = match self.read_u32() {
            Ok(len) => len,
            Err(error) => {
                return Err(error);
            },
        };
        let total: usize = self.bytes.len();
        if len as u64 > (total - self.pos) as u64 {
            return Err(DecodeError::UnexpectedEof);
        }
        let end: usize = self.pos + len as usize;
        let text = copy_range(self.bytes, self.pos, end);
        self.pos = end;
        match string_from_utf8(text) {
            Some(s) => Ok(s),
            None => Err(DecodeError::InvalidUtf8),
        }
    }
}

/// The 64 bits of a signed integer.
fn bits_of(n: i64) -> (bits: u64)
    ensures
        bits == int_bits(n),
{
    if n >= 0 {
        n as u64
    } else {
        let rest: u64 = (-1 - n) as u64;
        0xffff_ffff_ffff_ffff - rest
    }
}

/// Appends a string.
fn encode_string(s: &str, buf: &mut Vec<u8>)
    ensures
        final(buf)@ == old(buf)@ + string_bytes(s@),
{
    let bytes = s.as_bytes();
    let ghost before = buf@;
    push_le(buf, bytes.len() as u64, 4);
    buf.extend_from_slice(bytes);
    assert(buf@ =~= before + string_bytes(s@));
}

impl Value {
    /// Appends the binary form of the value.
    pub fn encode(&self, buf: &mut Vec<u8>)
        ensures
            final(buf)@ == old(buf)@ + value_bytes(self.view()),
        decreases self,
    {
        broadcast use Value::lemma_view;

        let ghost before = buf@;
        match self {
            Value::Null => {
                buf.push(0);
            },
            Value::Bool(b) => {
                buf.push(1);
                buf.push(
                    if *b {
                        1
                    } else {
                        0
                    },
                );
            },
            Value::Int(n) => {
                buf.push(2);
                push_le(buf, bits_of(*n), 8);
            },
            Value::Float(f) => {
                buf.push(3);
                push_le(buf, f.to_bits(), 8);
            },
            Value::Str(s) => {
                buf.push(4);
                encode_string(s.as_str(), buf);
            },
            Value::Array(items) => {
                buf.push(5);
                push_le(buf, items.len() as u64, 4);
                let ghost head = buf@;
                let ghost all = values_view(items@);
                let mut i: usize = 0;
                assert(all.skip(0) =~= all);
                while i < items.len()
                    invariant
                        i <= items@.len(),
                        all == values_view(items@),
                        buf@ + items_bytes(all.skip(i as int)) == head + items_bytes(all),
                        decreases_to!(self => items),
                    decreases items@.len() - i,
                {
                    let ghost sofar = buf@;
                    let ghost rest = items_bytes(all.skip(i + 1));
                    proof {
                        assert(all.skip(i as int).drop_first() =~= all.skip(i + 1));
                        assert(all.skip(i as int)[0] == items@[i as int].view());
                    }
                    items[i].encode(buf);
                    assert(sofar + (value_bytes(items@[i as int].view()) + rest) =~= buf@ + rest);
                    i += 1;
                }
                assert(all.skip(i as int) =~= Seq::empty());
                assert(buf@ =~= head + items_bytes(all));
            },
            Value::Document(doc) => {
                buf.push(6);
                doc.encode(buf);
            },
        }
        assert(buf@ =~= before + value_bytes(self.view()));
    }

    /// Reads a value.
    pub fn decode(cursor: &mut Cursor) -> (result: Result<Value, DecodeError>)
        requires
            old(cursor).inv(),
        ensures
            final(cursor).inv(),
            final(cursor).data() == old(cursor).data(),
            match decode_value(old(cursor).data(), old(cursor).at()) {
                Ok((value, next)) => {
                    &&& result matches Ok(read)
                    &&& read.view() == value
                    &&& final(cursor).at() == next
                },
                Err(error) => result matches Err(reason) && reason == error,
            },
        decreases old(cursor).data().len() - old(cursor).at(), 0int,
    {
        broadcast use Value::lemma_view;

        let ghost data = cursor.data();
        let ghost start = cursor.at();
        let tag: u8 = match cursor.read_u8() {
            Ok(tag) => tag,
            Err(error) => {
                return Err(error);
            },
        };
        if tag == 0 {
            Ok(Value::Null)
        } else if tag == 1 {
            match cursor.read_u8() {
                Ok(byte) => {
                    proof {
                        let one = data.subrange(start + 1, start + 2);
                        reveal_with_fuel(le_value, 2);
                        assert(one.drop_first() =~= Seq::empty());
                        assert(le_value(one) == byte);
                    }
                    Ok(Value::Bool(byte != 0))
                },
                Err(error) => Err(error),
            }
        } else if tag == 2 {
            match cursor.read_i64() {
                Ok(n) => Ok(Value::Int(n)),
                Err(error) => Err(error),
            }
        } else if tag == 3 {
            match cursor.read_float() {
                Ok(f) => Ok(Value::Float(f)),
                Err(error) => Err(error),
            }
        } else if tag == 4 {
            match cursor.read_string() {
                Ok(s) => Ok(Value::Str(s)),
                Err(error) => Err(error),
            }
        } else if tag == 5 {
            let count: u32 = match cursor.read_u32() {
                Ok(count) => count,
                Err(error) => {
                    return Err(error);
                },
            };
            let ghost first = cursor.at();
            let mut items: Vec<Value> = Vec::new();
            let mut i: u32 = 0;
            proof {
                assert(values_view(items@) =~= Seq::empty());
                match decode_items(data, first, count as nat) {
                    Ok((all, _)) => {
                        assert(values_view(items@) + all =~= all);
                    },
                    Err(_) => {},
                }
            }
            while i < count
                invariant
                    i <= count,
                    cursor.inv(),
                    cursor.data() == data,
                    data == old(cursor).data(),
                    start == old(cursor).at(),
                    cursor.at() > start,
                    decode_value(data, start) == (match decode_items(data, first, count as nat) {
                        Ok((all, end)) => Ok((ValueView::Array(all), end)),
                        Err(error) => Err(error),
                    }),
                    decode_items(data, first, count as nat) == (match decode_items(
                        data,
                        cursor.at(),
                        (count - i) as nat,
                    ) {
                        Ok((rest, end)) => Ok((values_view(items@) + rest, end)),
                        Err(error) => Err(error),
                    }),
                decreases count - i,
            {
                let ghost here = cursor.at();
                let ghost sofar = values_view(items@);
                proof {
                    lemma_value_ends(data, here);
                }
                match Value::decode(cursor) {
                    Ok(item) => {
                        let ghost view = item.view();
                        items.push(item);
                        proof {
                            assert(values_view(items@) =~= sofar.push(view));
                            match decode_items(data, cursor.at(), (count - i - 1) as nat) {
                                Ok((rest, end)) => {
                                    assert(sofar + (seq![view] + rest) =~= values_view(items@)
                                        + rest);
                                },
                                Err(_) => {},
                            }
                        }
                    },
                    Err(error) => {
                        return Err(error);
                    },
                }
                i += 1;
            }
            assert(values_view(items@) + Seq::<ValueView>::empty() =~= values_view(items@));
            Ok(Value::Array(items))
        } else if tag == 6 {
            match Document::decode(cursor) {
                Ok(doc) => Ok(Value::Document(doc)),
                Err(error) => Err(error),
            }
        } else {
            Err(DecodeError::InvalidTag(tag))
        }
    }
}

impl Document {
    /// Appends the binary form of the document.
    fn encode(&self, buf: &mut Vec<u8>)
        ensures
            final(buf)@ == old(buf)@ + document_bytes(self.view()),
        decreases self,
    {
        let ghost before = buf@;
        let fields = self.iter();
        let ghost all = self.view();
        push_le(buf, fields.len() as u64, 4);
        let ghost head = buf@;
        let mut i: usize = 0;
        assert(all.skip(0) =~= all);
        while i < fields.len()
            invariant
                i <= fields@.len(),
                all == fields_view(fields@),
                buf@ + fields_bytes(all.skip(i as int)) == head + fields_bytes(all),
                decreases_to!(self => fields@),
            decreases fields@.len() - i,
        {
            let ghost sofar = buf@;
            let ghost rest = fields_bytes(all.skip(i + 1));
            let ghost field = all[i as int];
            proof {
                assert(all.skip(i as int).drop_first() =~= all.skip(i + 1));
                assert(all.skip(i as int)[0] == field);
            }
            encode_string(fields[i].0.as_str(), buf);
            fields[i].1.encode(buf);
            assert(sofar + (string_bytes(field.0) + value_bytes(field.1) + rest) =~= buf@ + rest);
            i += 1;
        }
        assert(all.skip(i as int) =~= Seq::empty());
        assert(buf@ =~= before + document_bytes(self.view()));
    }

    /// Reads a document.
    fn decode(cursor: &mut Cursor) -> (result: Result<Document, DecodeError>)
        requires
            old(cursor).inv(),
        ensures
            final(cursor).inv(),
            final(cursor).data() == old(cursor).data(),
            match decode_document(old(cursor).data(), old(cursor).at()) {
                Ok((doc, next)) => {
                    &&& result matches Ok(read)
                    &&& read.view() == doc
                    &&& final(cursor).at() == next
                },
                Err(error) => result matches Err(reason) && reason == error,
            },
        decreases old(cursor).data().len() - old(cursor).at(), 1int,
    {
        let ghost data = cursor.data();
        let ghost start = cursor.at();
        let count: u32 = match cursor.read_u32() {
            Ok(count) => count,
            Err(error) => {
                return Err(error);
            },
        };
        let mut doc = Document::new();
        let mut i: u32 = 0;
        while i < count
            invariant
                i <= count,
                cursor.inv(),
                cursor.data() == data,
                data == old(cursor).data(),
                start == old(cursor).at(),
                cursor.at() > start,
                decode_document(data, start) == decode_fields(
                    data,
                    cursor.at(),
                    (count - i) as nat,
                    doc.view(),
                ),
            decreases count - i,
        {
            let key = match cursor.read_string() {
                Ok(key) => key,
                Err(error) => {
                    return Err(error);
                },
            };
            proof {
                lemma_value_ends(data, cursor.at());
            }
            match Value::decode(cursor) {
                Ok(value) => {
                    doc.put(key, value);
                },
                Err(error) => {
                    return Err(error);
                },
            }
            i += 1;
        }
        Ok(doc)
    }

    /// The binary form of the document.
    pub fn to_bytes(&self) -> (bytes: Vec<u8>)
        ensures
            bytes@ == document_bytes(self.view()),
    {
        let mut buf: Vec<u8> = Vec::new();
        self.encode(&mut buf);
        assert(buf@ =~= document_bytes(self.view()));
        buf
    }

    /// The document that `bytes` start with.
    pub fn from_bytes(bytes: &[u8]) -> (result: Result<Document, DecodeError>)
        ensures
            match document_of(bytes@) {
                Ok(doc) => result matches Ok(read) && read.view() == doc,
                Err(error) => result matches Err(reason) && reason == error,
            },
    {
        let mut cursor = Cursor::new(bytes);
        Document::decode(&mut cursor)
    }
}

/// The number of bytes of a string fits in 32 bits.
pub open spec fn short_string(s: Seq<char>) -> bool {
    encode_utf8(s).len() < 0x1_0000_0000
}

/// Every length in the value fits in 32 bits.
pub open spec fn small(value: ValueView) -> bool
    decreases value,
{
    match value {
        ValueView::Str(s) => short_string(s),
        ValueView::Array(items) => {
            &&& items.len() < 0x1_0000_0000
            &&& forall|i: int| 0 <= i < items.len() ==> small(#[trigger] items[i])
        },
        ValueView::Document(doc) => {
            &&& doc.len() < 0x1_0000_0000
            &&& forall|i: int|
                0 <= i < doc.len() ==> short_string((#[trigger] doc[i]).0) && small(doc[i].1)
        },
        _ => true,
    }
}

/// A number that was written is read back.
proof fn lemma_number_round_trip(bytes: Seq<u8>, pos: int, value: nat, n: nat)
    requires
        0 <= pos,
        pos + n <= bytes.len(),
        value < bytes::byte_range(n),
        bytes.subrange(pos, pos + n) == le_bytes(value, n),
    ensures
        decode_number(bytes, pos, n as int) == Ok::<(nat, int), DecodeError>((value, pos + n)),
{
    bytes::law_le_round_trip(value, n);
}

/// A string that was written is read back.
proof fn lemma_string_round_trip(bytes: Seq<u8>, pos: int, s: Seq<char>)
    requires
        0 <= pos,
        short_string(s),
        pos + string_bytes(s).len() <= bytes.len(),
        bytes.subrange(pos, pos + string_bytes(s).len()) == string_bytes(s),
    ensures
        decode_string(bytes, pos) == Ok::<(Seq<char>, int), DecodeError>(
            (s, pos + string_bytes(s).len()),
        ),
{
    let text = encode_utf8(s);
    let all = bytes.subrange(pos, pos + string_bytes(s).len());
    bytes::lemma_byte_ranges();
    bytes::lemma_le_bytes_len(text.len(), 4);
    assert(bytes.subrange(pos, pos + 4) =~= all.subrange(0, 4));
    assert(all.subrange(0, 4) =~= le_bytes(text.len(), 4));
    lemma_number_round_trip(bytes, pos, text.len(), 4);
    assert(bytes.subrange(pos + 4, pos + 4 + text.len()) =~= all.subrange(
        4,
        4 + text.len() as int,
    ));
    assert(all.subrange(4, 4 + text.len() as int) =~= text);
    vstd::utf8::encode_utf8_valid_utf8(s);
    vstd::utf8::encode_utf8_decode_utf8(s);
}

/// A value that was written is read back.
pub proof fn law_value_round_trip(bytes: Seq<u8>, pos: int, value: ValueView)
    requires
        0 <= pos,
        proper(value),
        small(value),
        pos + value_bytes(value).len() <= bytes.len(),
        bytes.subrange(pos, pos + value_bytes(value).len()) == value_bytes(value),
    ensures
        decode_value(bytes, pos) == Ok::<(ValueView, int), DecodeError>(
            (value, pos + value_bytes(value).len()),
        ),
    decreases value,
{
    let len = value_bytes(value).len() as int;
    let all = bytes.subrange(pos, pos + len);
    bytes::lemma_byte_ranges();
    assert(len > 0);
    assert(bytes[pos] == all[0]);
    match value {
        ValueView::Null => {},
        ValueView::Bool(b) => {
            let one = bytes.subrange(pos + 1, pos + 2);
            reveal_with_fuel(le_value, 2);
            assert(one.drop_first() =~= Seq::empty());
            assert(one[0] == all[1]);
        },
        ValueView::Int(n) => {
            bytes::lemma_le_bytes_len(int_bits(n), 8);
            assert(bytes.subrange(pos + 1, pos + 9) =~= all.subrange(1, 9));
            assert(all.subrange(1, 9) =~= le_bytes(int_bits(n), 8));
            lemma_number_round_trip(bytes, pos + 1, int_bits(n), 8);
        },
        ValueView::Float(f) => {
            bytes::lemma_le_bytes_len(f.0 as nat, 8);
            assert(bytes.subrange(pos + 1, pos + 9) =~= all.subrange(1, 9));
            assert(all.subrange(1, 9) =~= le_bytes(f.0 as nat, 8));
            lemma_number_round_trip(bytes, pos + 1, f.0 as nat, 8);
        },
        ValueView::Str(s) => {
            let text = string_bytes(s);
            assert(bytes.subrange(pos + 1, pos + 1 + text.len()) =~= all.subrange(
                1,
                1 + text.len() as int,
            ));
            assert(all.subrange(1, 1 + text.len() as int) =~= text);
            lemma_string_round_trip(bytes, pos + 1, s);
        },
        ValueView::Array(items) => {
            let body = items_bytes(items);
            bytes::lemma_le_bytes_len(items.len(), 4);
            assert(bytes.subrange(pos + 1, pos + 5) =~= all.subrange(1, 5));
            assert(all.subrange(1, 5) =~= le_bytes(items.len(), 4));
            lemma_number_round_trip(bytes, pos + 1, items.len(), 4);
            assert(bytes.subrange(pos + 5, pos + 5 + body.len()) =~= all.subrange(
                5,
                5 + body.len() as int,
            ));
            assert(all.subrange(5, 5 + body.len() as int) =~= body);
            lemma_items_round_trip(bytes, pos + 5, items);
        },
        ValueView::Document(doc) => {
            let body = fields_bytes(doc);
            bytes::lemma_le_bytes_len(doc.len(), 4);
            assert(bytes.subrange(pos + 1, pos + 5) =~= all.subrange(1, 5));
            assert(all.subrange(1, 5) =~= le_bytes(doc.len(), 4));
            lemma_number_round_trip(bytes, pos + 1, doc.len(), 4);
            assert(bytes.subrange(pos + 5, pos + 5 + body.len()) =~= all.subrange(
                5,
                5 + body.len() as int,
            ));
            assert(all.subrange(5, 5 + body.len() as int) =~= body);
            assert(Seq::<(Seq<char>, ValueView)>::empty() + doc =~= doc);
            lemma_fields_round_trip(bytes, pos + 5, Seq::empty(), doc);
        },
    }
}

proof fn lemma_items_round_trip(bytes: Seq<u8>, pos: int, items: Seq<ValueView>)
    requires
        0 <= pos,
        forall|i: int| 0 <= i < items.len() ==> proper(#[trigger] items[i]) && small(items[i]),
        pos + items_bytes(items).len() <= bytes.len(),
        bytes.subrange(pos, pos + items_bytes(items).len()) == items_bytes(items),
    ensures
        decode_items(bytes, pos, items.len()) == Ok::<(Seq<ValueView>, int), DecodeError>(
            (items, pos + items_bytes(items).len()),
        ),
    decreases items,
{
    if items.len() == 0 {
        assert(items =~= Seq::empty());
    } else {
        let rest = items.drop_first();
        let first = value_bytes(items[0]);
        let others = items_bytes(rest);
        let all = bytes.subrange(pos, pos + items_bytes(items).len());
        let next = pos + first.len();
        assert(bytes.subrange(pos, next) =~= all.subrange(0, first.len() as int));
        assert(all.subrange(0, first.len() as int) =~= first);
        assert(bytes.subrange(next, next + others.len()) =~= all.subrange(
            first.len() as int,
            all.len() as int,
        ));
        assert(all.subrange(first.len() as int, all.len() as int) =~= others);
        law_value_round_trip(bytes, pos, items[0]);
        lemma_value_ends(bytes, pos);
        assert forall|i: int| 0 <= i < rest.len() implies proper(#[trigger] rest[i]) && small(
            rest[i],
        ) by {
            assert(rest[i] == items[i + 1]);
        }
        lemma_items_round_trip(bytes, next, rest);
        assert(seq![items[0]] + rest =~= items);
    }
}

proof fn lemma_fields_round_trip(
    bytes: Seq<u8>,
    pos: int,
    before: DocumentView,
    doc: DocumentView,
)
    requires
        0 <= pos,
        distinct(before + doc),
        forall|i: int|
            0 <= i < doc.len() ==> proper((#[trigger] doc[i]).1) && small(doc[i].1)
                && short_string(doc[i].0),
        pos + fields_bytes(doc).len() <= bytes.len(),
        bytes.subrange(pos, pos + fields_bytes(doc).len()) == fields_bytes(doc),
    ensures
        decode_fields(bytes, pos, doc.len(), before) == Ok::<(DocumentView, int), DecodeError>(
            (before + doc, pos + fields_bytes(doc).len()),
        ),
    decreases doc,
{
    if doc.len() == 0 {
        assert(before + doc =~= before);
    } else {
        let rest = doc.drop_first();
        let (key, value) = doc[0];
        let name = string_bytes(key);
        let first = value_bytes(value);
        let others = fields_bytes(rest);
        let all = bytes.subrange(pos, pos + fields_bytes(doc).len());
        let start = pos + name.len();
        let next = start + first.len();
        assert(bytes.subrange(pos, start) =~= all.subrange(0, name.len() as int));
        assert(all.subrange(0, name.len() as int) =~= name);
        assert(bytes.subrange(start, next) =~= all.subrange(
            name.len() as int,
            (name.len() + first.len()) as int,
        ));
        assert(all.subrange(name.len() as int, (name.len() + first.len()) as int) =~= first);
        assert(bytes.subrange(next, next + others.len()) =~= all.subrange(
            (name.len() + first.len()) as int,
            all.len() as int,
        ));
        assert(all.subrange((name.len() + first.len()) as int, all.len() as int) =~= others);
        lemma_string_round_trip(bytes, pos, key);
        law_value_round_trip(bytes, start, value);
        lemma_value_ends(bytes, start);
        let longer = before.push(doc[0]);
        assert forall|j: int| 0 <= j < before.len() implies (#[trigger] before[j]).0 != key by {
            assert((before + doc)[j].0 != (before + doc)[before.len() as int].0);
        }
        document::lemma_first_field(before, key, before.len() as int, value);
        assert(longer + rest =~= before + doc);
        assert forall|i: int| 0 <= i < rest.len() implies proper((#[trigger] rest[i]).1) && small(
            rest[i].1,
        ) && short_string(rest[i].0) by {
            assert(rest[i] == doc[i + 1]);
        }
        lemma_fields_round_trip(bytes, next, longer, rest);
    }
}

/// A document that was written is read back, whatever follows it. Its names
/// must not repeat, and its lengths must fit in 32 bits.
pub proof fn law_document_round_trip(doc: DocumentView, more: Seq<u8>)
    requires
        proper(ValueView::Document(doc)),
        small(ValueView::Document(doc)),
    ensures
        document_of(document_bytes(doc) + more) == Ok::<DocumentView, DecodeError>(doc),
        decode_document(document_bytes(doc) + more, 0) == Ok::<(DocumentView, int), DecodeError>(
            (doc, document_bytes(doc).len() as int),
        ),
{
    let all = document_bytes(doc) + more;
    let body = fields_bytes(doc);
    bytes::lemma_byte_ranges();
    bytes::lemma_le_bytes_len(doc.len(), 4);
    assert(all.subrange(0, 4) =~= le_bytes(doc.len(), 4));
    lemma_number_round_trip(all, 0, doc.len(), 4);
    assert(all.subrange(4, 4 + body.len() as int) =~= body);
    assert(Seq::<(Seq<char>, ValueView)>::empty() + doc =~= doc);
    lemma_fields_round_trip(all, 4, Seq::empty(), doc);
}

/// What is read from the start of some bytes is read from all of them, unless
/// the bytes end too early.
proof fn lemma_value_of_prefix(bytes: Seq<u8>, cut: int, pos: int)
    requires
        0 <= pos,
        0 <= cut <= bytes.len(),
    ensures
        ({
            let part = decode_value(bytes.take(cut), pos);
            part == Err::<(ValueView, int), DecodeError>(DecodeError::UnexpectedEof) || part
                == decode_value(bytes, pos)
        }),
    decreases cut - pos, 0int, 0int,
{
    let head = bytes.take(cut);
    if pos < cut {
        assert(head[pos] == bytes[pos]);
        lemma_number_of_prefix(bytes, cut, pos + 1, 1);
        lemma_number_of_prefix(bytes, cut, pos + 1, 8);
        lemma_number_of_prefix(bytes, cut, pos + 1, 4);
        lemma_string_of_prefix(bytes, cut, pos + 1);
        let tag = bytes[pos];
        match decode_number(head, pos + 1, 4) {
            Ok((count, start)) => {
                if tag == 5 {
                    lemma_items_of_prefix(bytes, cut, start, count);
                } else if tag == 6 {
                    lemma_fields_of_prefix(bytes, cut, start, count, Seq::empty());
                }
            },
            Err(_) => {},
        }
    }
}

proof fn lemma_number_of_prefix(bytes: Seq<u8>, cut: int, pos: int, n: int)
    requires
        0 <= pos,
        0 <= n,
        0 <= cut <= bytes.len(),
    ensures
        ({
            let part = decode_number(bytes.take(cut), pos, n);
            part == Err::<(nat, int), DecodeError>(DecodeError::UnexpectedEof) || part
                == decode_number(bytes, pos, n)
        }),
{
    if pos + n <= cut {
        assert(bytes.take(cut).subrange(pos, pos + n) =~= bytes.subrange(pos, pos + n));
    }
}

proof fn lemma_string_of_prefix(bytes: Seq<u8>, cut: int, pos: int)
    requires
        0 <= pos,
        0 <= cut <= bytes.len(),
    ensures
        ({
            let part = decode_string(bytes.take(cut), pos);
            part == Err::<(Seq<char>, int), DecodeError>(DecodeError::UnexpectedEof) || part
                == decode_string(bytes, pos)
        }),
{
    lemma_number_of_prefix(bytes, cut, pos, 4);
    match decode_number(bytes.take(cut), pos, 4) {
        Ok((len, start)) => {
            if start + len <= cut {
                assert(bytes.take(cut).subrange(start, start + len) =~= bytes.subrange(
                    start,
                    start + len,
                ));
            }
        },
        Err(_) => {},
    }
}

proof fn lemma_items_of_prefix(bytes: Seq<u8>, cut: int, pos: int, count: nat)
    requires
        0 <= pos,
        0 <= cut <= bytes.len(),
    ensures
        ({
            let part = decode_items(bytes.take(cut), pos, count);
            part == Err::<(Seq<ValueView>, int), DecodeError>(DecodeError::UnexpectedEof) || part
                == decode_items(bytes, pos, count)
        }),
    decreases cut - pos, 1int, count,
{
    let head = bytes.take(cut);
    if count > 0 {
        lemma_value_of_prefix(bytes, cut, pos);
        lemma_value_ends(head, pos);
        match decode_value(head, pos) {
            Ok((item, next)) => {
                lemma_items_of_prefix(bytes, cut, next, (count - 1) as nat);
            },
            Err(_) => {},
        }
    }
}

proof fn lemma_fields_of_prefix(
    bytes: Seq<u8>,
    cut: int,
    pos: int,
    count: nat,
    doc: DocumentView,
)
    requires
        0 <= pos,
        0 <= cut <= bytes.len(),
    ensures
        ({
            let part = decode_fields(bytes.take(cut), pos, count, doc);
            part == Err::<(DocumentView, int), DecodeError>(DecodeError::UnexpectedEof) || part
                == decode_fields(bytes, pos, count, doc)
        }),
    decreases cut - pos, 1int, count,
{
    let head = bytes.take(cut);
    if count > 0 {
        lemma_string_of_prefix(bytes, cut, pos);
        match decode_string(head, pos) {
            Ok((key, start)) => {
                lemma_value_of_prefix(bytes, cut, start);
                lemma_value_ends(head, start);
                match decode_value(head, start) {
                    Ok((value, next)) => {
                        lemma_fields_of_prefix(
                            bytes,
                            cut,
                            next,
                            (count - 1) as nat,
                            doc_insert(doc, key, value),
                        );
                    },
                    Err(_) => {},
                }
            },
            Err(_) => {},
        }
    }
}

/// A document that was cut short is not read as a document: its end is
/// missing.
pub proof fn law_truncation_is_noticed(doc: DocumentView, cut: int)
    requires
        proper(ValueView::Document(doc)),
        small(ValueView::Document(doc)),
        0 <= cut < document_bytes(doc).len(),
    ensures
        document_of(document_bytes(doc).take(cut)) == Err::<DocumentView, DecodeError>(
            DecodeError::UnexpectedEof,
        ),
{
    let all = document_bytes(doc);
    let head = all.take(cut);
    law_document_round_trip(doc, Seq::empty());
    assert(all + Seq::<u8>::empty() =~= all);
    lemma_number_of_prefix(all, cut, 0, 4);
    match decode_number(head, 0, 4) {
        Ok((count, start)) => {
            lemma_fields_of_prefix(all, cut, start, count, Seq::empty());
            lemma_fields_end(head, start, count, Seq::empty());
        },
        Err(_) => {},
    }
}

/// No document that was read has two fields with the same name, however deep
/// inside.
pub proof fn law_decoded_is_proper(bytes: Seq<u8>)
    ensures
        document_of(bytes) matches Ok(doc) ==> proper(ValueView::Document(doc)),
{
    match decode_number(bytes, 0, 4) {
        Ok((count, start)) => {
            lemma_decoded_fields_proper(bytes, start, count, Seq::empty());
        },
        Err(_) => {},
    }
}

proof fn lemma_decoded_value_proper(bytes: Seq<u8>, pos: int)
    requires
        0 <= pos,
    ensures
        decode_value(bytes, pos) matches Ok((value, _)) ==> proper(value),
    decreases bytes.len() - pos, 0int, 0int,
{
    if pos < bytes.len() {
        let tag = bytes[pos];
        match decode_number(bytes, pos + 1, 4) {
            Ok((count, start)) => {
                if tag == 5 {
                    lemma_decoded_items_proper(bytes, start, count);
                } else if tag == 6 {
                    lemma_decoded_fields_proper(bytes, start, count, Seq::empty());
                }
            },
            Err(_) => {},
        }
    }
}

proof fn lemma_decoded_items_proper(bytes: Seq<u8>, pos: int, count: nat)
    requires
        0 <= pos,
    ensures
        decode_items(bytes, pos, count) matches Ok((items, _)) ==> forall|i: int|
            0 <= i < items.len() ==> proper(#[trigger] items[i]),
    decreases bytes.len() - pos, 1int, count,
{
    if count > 0 {
        lemma_decoded_value_proper(bytes, pos);
        lemma_value_ends(bytes, pos);
        match decode_value(bytes, pos) {
            Ok((item, next)) => {
                lemma_decoded_items_proper(bytes, next, (count - 1) as nat);
            },
            Err(_) => {},
        }
    }
}

proof fn lemma_decoded_fields_proper(bytes: Seq<u8>, pos: int, count: nat, doc: DocumentView)
    requires
        0 <= pos,
        proper(ValueView::Document(doc)),
    ensures
        decode_fields(bytes, pos, count, doc) matches Ok((read, _)) ==> proper(
            ValueView::Document(read),
        ),
    decreases bytes.len() - pos, 1int, count,
{
    if count > 0 {
        match decode_string(bytes, pos) {
            Ok((key, start)) => {
                lemma_decoded_value_proper(bytes, start);
                lemma_value_ends(bytes, start);
                match decode_value(bytes, start) {
                    Ok((value, next)) => {
                        document::law_names_stay_distinct(doc, key, value);
                        lemma_decoded_fields_proper(
                            bytes,
                            next,
                            (count - 1) as nat,
                            doc_insert(doc, key, value),
                        );
                    },
                    Err(_) => {},
                }
            },
            Err(_) => {},
        }
    }
}

/// The binary form of each kind of value, byte by byte: a tag, then the
/// contents. Numbers have their least significant byte first, and a string,
/// a list and a document begin with their length.
pub proof fn law_layout_of_values(
    n: i64,
    f: Float,
    s: Seq<char>,
    items: Seq<ValueView>,
    doc: DocumentView,
)
    ensures
        value_bytes(ValueView::Null) =~= seq![0u8],
        value_bytes(ValueView::Bool(false)) =~= seq![1u8, 0u8],
        value_bytes(ValueView::Bool(true)) =~= seq![1u8, 1u8],
        value_bytes(ValueView::Int(n)).len() == 9,
        value_bytes(ValueView::Int(n))[0] == 2,
        forall|i: nat|
            i < 8 ==> #[trigger] value_bytes(ValueView::Int(n))[1 + i as int] == ((n
                + 0x1_0000_0000_0000_0000) % 0x1_0000_0000_0000_0000 / pow(256, i)) % 256,
        value_bytes(ValueView::Float(f)).len() == 9,
        value_bytes(ValueView::Float(f))[0] == 3,
        forall|i: nat|
            i < 8 ==> #[trigger] value_bytes(ValueView::Float(f))[1 + i as int] == (f.0 as int
                / pow(256, i)) % 256,
        value_bytes(ValueView::Str(s)) =~= seq![4u8] + le_bytes(encode_utf8(s).len(), 4)
            + encode_utf8(s),
        value_bytes(ValueView::Array(items)) =~= seq![5u8] + le_bytes(items.len(), 4) + Seq::new(
            items.len(),
            |i: int| value_bytes(items[i]),
        ).flatten(),
        value_bytes(ValueView::Document(doc)) =~= seq![6u8] + document_bytes(doc),
        document_bytes(doc) =~= le_bytes(doc.len(), 4) + Seq::new(
            doc.len(),
            |i: int|
                le_bytes(encode_utf8(doc[i].0).len(), 4) + encode_utf8(doc[i].0) + value_bytes(
                    doc[i].1,
                ),
        ).flatten(),
{
    let a = value_bytes(ValueView::Int(n));
    let b = value_bytes(ValueView::Float(f));
    bytes::lemma_le_bytes_len(int_bits(n), 8);
    bytes::lemma_le_bytes_len(f.0 as nat, 8);
    assert(int_bits(n) == (n + 0x1_0000_0000_0000_0000) % 0x1_0000_0000_0000_0000);
    assert forall|i: nat| i < 8 implies #[trigger] a[1 + i as int] == ((n
        + 0x1_0000_0000_0000_0000) % 0x1_0000_0000_0000_0000 / pow(256, i)) % 256 by {
        bytes::law_le_byte(int_bits(n), 8, i);
        assert(a[1 + i as int] == le_bytes(int_bits(n), 8)[i as int]);
    }
    assert forall|i: nat| i < 8 implies #[trigger] b[1 + i as int] == (f.0 as int / pow(256, i))
        % 256 by {
        bytes::law_le_byte(f.0 as nat, 8, i);
        assert(b[1 + i as int] == le_bytes(f.0 as nat, 8)[i as int]);
    }
    lemma_items_flat(items);
    lemma_fields_flat(doc);
}

proof fn lemma_items_flat(items: Seq<ValueView>)
    ensures
        items_bytes(items) == Seq::new(items.len(), |i: int| value_bytes(items[i])).flatten(),
    decreases items.len(),
{
    let parts = Seq::new(items.len(), |i: int| value_bytes(items[i]));
    if items.len() > 0 {
        let rest = items.drop_first();
        lemma_items_flat(rest);
        assert(parts.drop_first() =~= Seq::new(rest.len(), |i: int| value_bytes(rest[i])));
    }
}

proof fn lemma_fields_flat(doc: DocumentView)
    ensures
        fields_bytes(doc) == Seq::new(
            doc.len(),
            |i: int|
                le_bytes(encode_utf8(doc[i].0).len(), 4) + encode_utf8(doc[i].0) + value_bytes(
                    doc[i].1,
                ),
        ).flatten(),
    decreases doc.len(),
{
    let parts = Seq::new(
        doc.len(),
        |i: int|
            le_bytes(encode_utf8(doc[i].0).len(), 4) + encode_utf8(doc[i].0) + value_bytes(
                doc[i].1,
            ),
    );
    if doc.len() > 0 {
        let rest = doc.drop_first();
        lemma_fields_flat(rest);
        assert(parts.drop_first() =~= Seq::new(
            rest.len(),
            |i: int|
                le_bytes(encode_utf8(rest[i].0).len(), 4) + encode_utf8(rest[i].0) + value_bytes(
                    rest[i].1,
                ),
        ));
    }
}

/// What cannot be decoded: nothing where the bytes end, a tag that belongs to
/// no kind of value, a string whose bytes are cut off or no text.
pub proof fn law_damage_is_reported(bytes: Seq<u8>, pos: int)
    requires
        0 <= pos,
    ensures
        pos >= bytes.len() ==> decode_value(bytes, pos) == Err::<(ValueView, int), DecodeError>(
            DecodeError::UnexpectedEof,
        ),
        pos < bytes.len() && bytes[pos] > 6 ==> decode_value(bytes, pos) == Err::<
            (ValueView, int),
            DecodeError,
        >(DecodeError::InvalidTag(bytes[pos])),
        pos < bytes.len() && bytes[pos] == 4 && pos + 5 <= bytes.len() ==> {
            let len = le_value(bytes.subrange(pos + 1, pos + 5));
            &&& pos + 5 + len > bytes.len() ==> decode_value(bytes, pos) == Err::<
                (ValueView, int),
                DecodeError,
            >(DecodeError::UnexpectedEof)
            &&& pos + 5 + len <= bytes.len() && !valid_utf8(
                bytes.subrange(pos + 5, pos + 5 + len),
            ) ==> decode_value(bytes, pos) == Err::<(ValueView, int), DecodeError>(
                DecodeError::InvalidUtf8,
            )
        },
{
}

} // verus!
