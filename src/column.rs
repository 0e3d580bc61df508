//! Column schema, typed items and the codec of a single field.
use vstd::prelude::*;
use vstd::string::StrSliceExecFns;

verus! {

/// The scalar type of a column.
#[derive(Clone, Copy, Debug, PartialEq, Eq, Structural)]
pub enum ColumnType {
    U32,
    Float32,
    Text,
}

/// A named, typed column of a schema.
pub struct Column {
    pub name: String,
    pub col_type: ColumnType,
}

/// A decoded scalar value.
///
/// `Float32` holds the IEEE-754 single-precision bit pattern of the value, so that
/// encoding and decoding are exact on every value, NaNs included.
#[derive(Clone, Debug, PartialEq)]
pub enum Item {
    U32(u32),
    Float32(u32),
    Text(String),
}

/// The mathematical value of an `Item`.
pub enum ItemV {
    U32(u32),
    Float32(u32),
    Text(Seq<char>),
}

impl View for Item {
    type V = ItemV;

    open spec fn view(&self) -> ItemV {
        match self {
            Item::U32(n) => ItemV::U32(*n),
            Item::Float32(b) => ItemV::Float32(*b),
            Item::Text(s) => ItemV::Text(s@),
        }
    }
}

/// Why a field or a chunk could not be decoded.
#[derive(Clone, Copy, Debug, PartialEq, Eq, Structural)]
pub enum DecodeError {
    /// A fixed-width field was given a span of another length than 4 bytes.
    FieldWidth,
    /// The length table does not hold a whole number of rows.
    PartialRow,
    /// A field's span runs past the end of the data buffer.
    OutOfBounds,
}

/// Width in bytes of the fixed-width types.
pub const FIXED_WIDTH: usize = 4;

/// Largest byte length of one field: lengths are stored in one byte each.
pub const MAX_FIELD_LEN: usize = 255;

/// The view of a decoding result.
pub open spec fn item_result_view(r: Result<Item, DecodeError>) -> Result<ItemV, DecodeError> {
    match r {
        Ok(it) => Ok(it@),
        Err(e) => Err(e),
    }
}

/// Big-endian bytes of a 32-bit word.
pub open spec fn be_bytes(n: u32) -> Seq<u8> {
    seq![(n >> 24u32) as u8, (n >> 16u32) as u8, (n >> 8u32) as u8, n as u8]
}

/// The 32-bit word whose big-endian bytes are the first four of `b`.
pub open spec fn be_value(b: Seq<u8>) -> u32
    recommends
        b.len() >= 4,
{
    ((b[0] as u32) << 24u32) | ((b[1] as u32) << 16u32) | ((b[2] as u32) << 8u32) | (b[3] as u32)
}

/// Text is stored one byte per character.
pub open spec fn text_bytes(s: Seq<char>) -> Seq<u8> {
    s.map_values(|c: char| (c as u32) as u8)
}

/// Each byte is read back as the character with that code point.
pub open spec fn text_of_bytes(b: Seq<u8>) -> Seq<char> {
    b.map_values(|x: u8| x as char)
}

/// The encoded bytes of one item.
pub open spec fn field_bytes(it: ItemV) -> Seq<u8> {
    match it {
        ItemV::U32(n) => be_bytes(n),
        ItemV::Float32(b) => be_bytes(b),
        ItemV::Text(s) => text_bytes(s),
    }
}

/// A text value that the format can hold: at most 255 characters, each a single byte.
pub open spec fn text_fits(s: Seq<char>) -> bool {
    &&& s.len() <= MAX_FIELD_LEN
    &&& forall|i: int| 0 <= i < s.len() ==> (#[trigger] s[i] as u32) < 256
}

/// The item is of type `t` and within that type's bounds.
pub open spec fn item_fits(t: ColumnType, it: ItemV) -> bool {
    match (t, it) {
        (ColumnType::U32, ItemV::U32(_)) => true,
        (ColumnType::Float32, ItemV::Float32(_)) => true,
        (ColumnType::Text, ItemV::Text(s)) => text_fits(s),
        _ => false,
    }
}

/// What decoding the span `b` as a field of type `t` gives.
pub open spec fn decode_field(t: ColumnType, b: Seq<u8>) -> Result<ItemV, DecodeError> {
    match t {
        ColumnType::U32 => if b.len() == FIXED_WIDTH {
            Ok(ItemV::U32(be_value(b)))
        } else {
            Err(DecodeError::FieldWidth)
        },
        ColumnType::Float32 => if b.len() == FIXED_WIDTH {
            Ok(ItemV::Float32(be_value(b)))
        } else {
            Err(DecodeError::FieldWidth)
        },
        ColumnType::Text => Ok(ItemV::Text(text_of_bytes(b))),
    }
}

/// Reading back the big-endian bytes of a word gives the word.
pub proof fn lemma_be_round_trip(n: u32)
    ensures
        be_value(be_bytes(n)) == n,
{
    assert(((((n >> 24u32) as u8) as u32) << 24u32) | ((((n >> 16u32) as u8) as u32) << 16u32)
        | ((((n >> 8u32) as u8) as u32) << 8u32) | ((n as u8) as u32) == n) by (bit_vector);
}

/// A character of code point below 256 survives a trip through one byte.
proof fn lemma_byte_char(c: char)
    requires
        (c as u32) < 256,
    ensures
        (((c as u32) as u8) as char) == c,
{
    let y = (c as u32) as u8;
    assert(y as u32 == c as u32);
    assert((y as char) as u32 == y as u32);
}

/// Decoding the encoding of an item of type `t` within its bounds gives the item back.
pub proof fn lemma_field_round_trip(t: ColumnType, it: ItemV)
    requires
        item_fits(t, it),
    ensures
        decode_field(t, field_bytes(it)) == Ok::<ItemV, DecodeError>(it),
        field_bytes(it).len() <= MAX_FIELD_LEN,
{
    match it {
        ItemV::U32(n) => lemma_be_round_trip(n),
        ItemV::Float32(b) => lemma_be_round_trip(b),
        ItemV::Text(s) => {
            let back = text_of_bytes(text_bytes(s));
            assert forall|i: int| 0 <= i < s.len() implies back[i] == s[i] by {
                let c = s[i];
                assert(text_bytes(s)[i] == (c as u32) as u8);
                lemma_byte_char(c);
            }
            assert(back =~= s);
        },
    }
}

/// Relies on byteorder's `BigEndian::read_u32`: the first four bytes as a big-endian word.
#[verifier::external_body]
fn read_be_u32(b: &[u8]) -> (r: u32)
    requires
        b@.len() >= 4,
    ensures
        r == be_value(b@),
{
    <byteorder::BigEndian as byteorder::ByteOrder>::read_u32(b)
}

/// Relies on bytes' `BufMut::put_u32` for `Vec<u8>`: appends the big-endian bytes.
#[verifier::external_body]
fn put_be_u32(buf: &mut Vec<u8>, n: u32)
    requires
        old(buf)@.len() + 4 <= isize::MAX,
    ensures
        final(buf)@ == old(buf)@ + be_bytes(n),
{
    bytes::BufMut::put_u32(buf, n)
}

/// Relies on `String::push`: appends one character.
#[verifier::external_body]
pub(crate) fn push_char(s: &mut String, c: char)
    ensures
        final(s)@ == old(s)@.push(c),
{
    s.push(c)
}

impl Column {
    /// A copy of this column.
    pub fn duplicate(&self) -> (r: Column)
        ensures
            r == *self,
    {
        Column { name: self.name.clone(), col_type: self.col_type }
    }

    /// Decodes one field of this column from exactly the span `bytes`.
    pub fn read(&self, bytes: &[u8]) -> (r: Result<Item, DecodeError>)
        ensures
            item_result_view(r) == decode_field(self.col_type, bytes@),
    {
        match self.col_type {
            ColumnType::U32 => {
                if bytes.len() != FIXED_WIDTH {
                    return Err(DecodeError::FieldWidth);
                }
                Ok(Item::U32(read_be_u32(bytes)))
            },
            ColumnType::Float32 => {
                if bytes.len() != FIXED_WIDTH {
                    return Err(DecodeError::FieldWidth);
                }
                Ok(Item::Float32(read_be_u32(bytes)))
            },
            ColumnType::Text => {
                let mut s = String::new();
                let mut i: usize = 0;
                while i < bytes.len()
                    invariant
                        i <= bytes@.len(),
                        s@ =~= text_of_bytes(bytes@).take(i as int),
                    decreases bytes@.len() - i,
                {
                    push_char(&mut s, bytes[i] as char);
                    i = i + 1;
                }
                assert(s@ =~= text_of_bytes(bytes@));
                Ok(Item::Text(s))
            },
        }
    }
}

/// Whether `it` is a value of type `t` that the format can hold.
pub fn item_fits_exec(t: ColumnType, it: &Item) -> (r: bool)
    ensures
        r == item_fits(t, it@),
{
    match it {
        Item::U32(_) => t == ColumnType::U32,
        Item::Float32(_) => t == ColumnType::Float32,
        Item::Text(s) => {
            if t != ColumnType::Text {
                return false;
            }
            let n = s.as_str().unicode_len();
            if n > MAX_FIELD_LEN {
                return false;
            }
            let mut i: usize = 0;
            while i < n
                invariant
                    it@ == ItemV::Text(s@),
                    t == ColumnType::Text,
                    n == s@.len(),
                    i <= n,
                    forall|j: int| 0 <= j < i ==> (#[trigger] s@[j] as u32) < 256,
                decreases n - i,
            {
                let c = s.as_str().get_char(i);
                if (c as u32) >= 256 {
                    assert((s@[i as int] as u32) >= 256);
                    return false;
                }
                i = i + 1;
            }
            true
        },
    }
}

/// Appends the encoded bytes of `it` to `data` and returns their number.
pub(crate) fn append_item(it: &Item, data: &mut Vec<u8>) -> (n: usize)
    requires
        old(data)@.len() + MAX_FIELD_LEN <= isize::MAX,
        it@ matches ItemV::Text(s) ==> text_fits(s),
    ensures
        final(data)@ == old(data)@ + field_bytes(it@),
        n == field_bytes(it@).len(),
        n <= MAX_FIELD_LEN,
{
    match it {
        Item::U32(v) => {
            put_be_u32(data, *v);
            FIXED_WIDTH
        },
        Item::Float32(b) => {
            put_be_u32(data, *b);
            FIXED_WIDTH
        },
        Item::Text(s) => {
            let n = s.as_str().unicode_len();
            let ghost start = data@;
            let mut i: usize = 0;
            while i < n
                invariant
                    n == s@.len(),
                    n <= MAX_FIELD_LEN,
                    i <= n,
                    start.len() + MAX_FIELD_LEN <= isize::MAX,
                    data@ =~= start + text_bytes(s@).take(i as int),
                decreases n - i,
            {
                let c = s.as_str().get_char(i);
                data.push((c as u32) as u8);
                i = i + 1;
            }
            assert(text_bytes(s@).take(n as int) =~= text_bytes(s@));
            n
        },
    }
}

} // verus!
