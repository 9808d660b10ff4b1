//! The typed values of a record, and the type tags that say how each one is stored.

use vstd::prelude::*;
use crate::error::{Error, FormatError, refines, underrun};
use vstd::string::StringExecFns;
use crate::reader::{Reader, be_int, be_uint, decode_lossy, lossy_utf8};
use crate::varint::{as_signed64, varint};

verus! {

/// A value of a column, as a mathematical object.
pub enum Value {
    Null,
    /// A signed integer of at most 64 bits.
    Integer(int),
    /// The 64 bits of an IEEE 754 number.
    Float64(u64),
    /// The integer 0, for which no byte is stored.
    Zero,
    /// The integer 1, for which no byte is stored.
    One,
    Blob(Seq<u8>),
    Text(Seq<char>),
}

/// A decoded value of one column of one row.
#[derive(Debug, PartialEq, Eq)]
pub enum Record {
    Null,
    Integer(i64),
    /// The 64 bits of an IEEE 754 number, as stored.
    Float64(u64),
    Zero,
    One,
    Blob(Vec<u8>),
    Text(String),
}

impl View for Record {
    type V = Value;

    open spec fn view(&self) -> Value {
        match self {
            Record::Null => Value::Null,
            Record::Integer(i) => Value::Integer(*i as int),
            Record::Float64(bits) => Value::Float64(*bits),
            Record::Zero => Value::Zero,
            Record::One => Value::One,
            Record::Blob(bytes) => Value::Blob(bytes@),
            Record::Text(text) => Value::Text(text@),
        }
    }
}

impl DeepView for Record {
    type V = Value;

    open spec fn deep_view(&self) -> Value {
        self@
    }
}

/// The values of a row, as mathematical objects.
pub open spec fn values_of(row: Seq<Record>) -> Seq<Value> {
    row.map_values(|r: Record| r@)
}

impl Clone for Record {
    fn clone(&self) -> (r: Self)
        ensures
            r@ == self@,
    {
        match self {
            Record::Null => Record::Null,
            Record::Integer(i) => Record::Integer(*i),
            Record::Float64(bits) => Record::Float64(*bits),
            Record::Zero => Record::Zero,
            Record::One => Record::One,
            Record::Blob(bytes) => Record::Blob(bytes.clone()),
            Record::Text(text) => Record::Text(text.clone()),
        }
    }
}

/// The character of a decimal digit.
pub open spec fn digit_char(d: nat) -> char {
    if d == 0 {
        '0'
    } else if d == 1 {
        '1'
    } else if d == 2 {
        '2'
    } else if d == 3 {
        '3'
    } else if d == 4 {
        '4'
    } else if d == 5 {
        '5'
    } else if d == 6 {
        '6'
    } else if d == 7 {
        '7'
    } else if d == 8 {
        '8'
    } else {
        '9'
    }
}

/// The decimal digits of `n`, without leading zeros.
pub open spec fn digits_of(n: nat) -> Seq<char>
    decreases n,
{
    if n < 10 {
        seq![digit_char(n)]
    } else {
        digits_of(n / 10).push(digit_char(n % 10))
    }
}

/// The decimal form of `n`, with a minus sign where it is negative.
pub open spec fn decimal(n: int) -> Seq<char> {
    if n < 0 {
        seq!['-'] + digits_of((-n) as nat)
    } else {
        digits_of(n as nat)
    }
}

impl Value {
    /// The text that stands for the value in a line of output. A missing value has the
    /// empty text and a blob the text that its bytes spell. The text of a floating-point
    /// number is not made here.
    pub open spec fn text(&self) -> Option<Seq<char>> {
        match self {
            Value::Null => Some(Seq::empty()),
            Value::Integer(n) => Some(decimal(*n)),
            Value::Float64(_) => None,
            Value::Zero => Some(seq!['0']),
            Value::One => Some(seq!['1']),
            Value::Blob(bytes) => Some(lossy_utf8(*bytes)),
            Value::Text(text) => Some(*text),
        }
    }
}

/// The text of one decimal digit.
fn digit_text(d: u64) -> (text: &'static str)
    requires
        d < 10,
    ensures
        text@ == seq![digit_char(d as nat)],
{
    proof {
        reveal_strlit("0");
        reveal_strlit("1");
        reveal_strlit("2");
        reveal_strlit("3");
        reveal_strlit("4");
        reveal_strlit("5");
        reveal_strlit("6");
        reveal_strlit("7");
        reveal_strlit("8");
        reveal_strlit("9");
    }
    let text = if d == 0 {
        "0"
    } else if d == 1 {
        "1"
    } else if d == 2 {
        "2"
    } else if d == 3 {
        "3"
    } else if d == 4 {
        "4"
    } else if d == 5 {
        "5"
    } else if d == 6 {
        "6"
    } else if d == 7 {
        "7"
    } else if d == 8 {
        "8"
    } else {
        "9"
    };
    assert(text@ =~= seq![digit_char(d as nat)]);
    text
}

/// Appends the decimal digits of `n` to `out`.
fn push_digits(n: u64, out: &mut String)
    ensures
        final(out)@ == old(out)@ + digits_of(n as nat),
    decreases n,
{
    if n >= 10 {
        push_digits(n / 10, out);
    }
    out.append(digit_text(n % 10));
    assert(final(out)@ =~= old(out)@ + digits_of(n as nat));
}

/// The decimal form of `n`.
pub fn decimal_text(n: i64) -> (text: String)
    ensures
        text@ == decimal(n as int),
{
    let mut out = String::new();
    if n < 0 {
        proof {
            reveal_strlit("-");
        }
        out.append("-");
        assert(out@ =~= seq!['-']);
        let magnitude: u64 = if n == i64::MIN {
            0x8000_0000_0000_0000
        } else {
            (-n) as u64
        };
        push_digits(magnitude, &mut out);
    } else {
        push_digits(n as u64, &mut out);
        assert(out@ =~= digits_of(n as nat));
    }
    out
}

impl Record {
    /// The text that stands for the value in a line of output, where the value has one.
    pub fn to_text(&self) -> (text: Option<String>)
        ensures
            match self@.text() {
                Some(t) => text is Some && text->0@ == t,
                None => text is None,
            },
    {
        match self {
            Record::Null => Some(String::new()),
            Record::Integer(n) => Some(decimal_text(*n)),
            Record::Float64(_) => None,
            Record::Zero => Some(decimal_text(0)),
            Record::One => Some(decimal_text(1)),
            Record::Blob(bytes) => Some(decode_lossy(bytes.as_slice())),
            Record::Text(text) => Some(text.clone()),
        }
    }

    /// The text of a text value.
    pub fn unwrap_string(&self) -> (s: &String)
        requires
            self is Text,
        ensures
            self@ == Value::Text(s@),
    {
        match self {
            Record::Text(s) => s,
            _ => vstd::pervasive::unreached(),
        }
    }
}

/// How one value of a record is stored: what a type tag of the record header says.
#[derive(Debug, Clone, Copy, PartialEq, Eq, Structural)]
pub enum RecordFormat {
    Null,
    /// A big-endian two's-complement integer of so many bytes.
    TwoCompInt(u8),
    Float64,
    Zero,
    One,
    /// Raw bytes, of the given number.
    Blob(u64),
    /// Text, of the given number of bytes.
    String(u64),
}

impl RecordFormat {
    /// The format that the type tag `tag` stands for. The tags 10 and 11 are reserved and
    /// stand for none, as does a negative number.
    pub open spec fn of_tag(tag: int) -> Option<RecordFormat> {
        if tag < 0 || tag == 10 || tag == 11 || tag > i64::MAX {
            None
        } else if tag == 0 {
            Some(RecordFormat::Null)
        } else if tag <= 4 {
            Some(RecordFormat::TwoCompInt(tag as u8))
        } else if tag == 5 {
            Some(RecordFormat::TwoCompInt(6))
        } else if tag == 6 {
            Some(RecordFormat::TwoCompInt(8))
        } else if tag == 7 {
            Some(RecordFormat::Float64)
        } else if tag == 8 {
            Some(RecordFormat::Zero)
        } else if tag == 9 {
            Some(RecordFormat::One)
        } else if tag % 2 == 0 {
            Some(RecordFormat::Blob(((tag - 12) / 2) as u64))
        } else {
            Some(RecordFormat::String(((tag - 13) / 2) as u64))
        }
    }

    /// The number of bytes that a value of this format takes in the record.
    pub open spec fn stored_len(&self) -> nat {
        match self {
            RecordFormat::Blob(len) | RecordFormat::String(len) => *len as nat,
            RecordFormat::Float64 => 8,
            RecordFormat::Null | RecordFormat::Zero | RecordFormat::One => 0,
            RecordFormat::TwoCompInt(n) => *n as nat,
        }
    }

    /// Whether values of this format can be decoded: an integer has at most eight bytes.
    pub open spec fn decodable(&self) -> bool {
        self matches RecordFormat::TwoCompInt(n) ==> n <= 8
    }

    /// The value that the first `stored_len` bytes of `bytes` hold in this format.
    pub open spec fn value_in(&self, bytes: Seq<u8>) -> Value {
        let stored = bytes.take(self.stored_len() as int);
        match self {
            RecordFormat::Null => Value::Null,
            RecordFormat::TwoCompInt(_) => Value::Integer(be_int(stored)),
            RecordFormat::Float64 => Value::Float64(be_uint(stored) as u64),
            RecordFormat::Zero => Value::Zero,
            RecordFormat::One => Value::One,
            RecordFormat::Blob(_) => Value::Blob(stored),
            RecordFormat::String(_) => Value::Text(lossy_utf8(stored)),
        }
    }

    /// Decodes the value of this format at the start of `bytes`.
    pub open spec fn decode(&self, bytes: Seq<u8>) -> Result<Value, Error> {
        if !self.decodable() {
            Err(Error::Format(FormatError::UnsupportedTypeTag))
        } else if bytes.len() < self.stored_len() {
            Err(underrun())
        } else {
            Ok(self.value_in(bytes))
        }
    }

    /// The format that a type tag of a record header stands for.
    pub fn from(v: i64) -> (r: Result<Self, Error>)
        ensures
            r == match Self::of_tag(v as int) {
                Some(format) => Ok::<Self, Error>(format),
                None => Err(Error::Format(FormatError::UnsupportedTypeTag)),
            },
    {
        if v < 0 || v == 10 || v == 11 {
            Err(Error::Format(FormatError::UnsupportedTypeTag))
        } else if v == 0 {
            Ok(Self::Null)
        } else if v <= 4 {
            Ok(Self::TwoCompInt(v as u8))
        } else if v == 5 {
            Ok(Self::TwoCompInt(6))
        } else if v == 6 {
            Ok(Self::TwoCompInt(8))
        } else if v == 7 {
            Ok(Self::Float64)
        } else if v == 8 {
            Ok(Self::Zero)
        } else if v == 9 {
            Ok(Self::One)
        } else if v % 2 == 0 {
            Ok(Self::Blob(((v - 12) / 2) as u64))
        } else {
            Ok(Self::String(((v - 13) / 2) as u64))
        }
    }

    /// The number of bytes that a value of this format takes in the record.
    pub fn byte_len(&self) -> (n: u64)
        ensures
            n == self.stored_len(),
    {
        match self {
            Self::Blob(len) | Self::String(len) => *len,
            Self::Float64 => 8,
            Self::Null | Self::Zero | Self::One => 0,
            Self::TwoCompInt(n) => *n as u64,
        }
    }

    /// Decodes the value of this format at the cursor; the cursor moves past it. On
    /// failure the cursor stays where it is.
    pub fn pop_value(&self, reader: &mut Reader<'_, u8>) -> (r: Result<Record, Error>)
        ensures
            refines(r, self.decode(old(reader).remaining())),
            r is Ok ==> final(reader).advanced_from(old(reader), self.stored_len()),
            r is Err ==> *final(reader) == *old(reader),
    {
        let avail = reader.len();
        let ghost bytes = reader.remaining();
        match self {
            Self::Null => Ok(Record::Null),
            Self::Zero => Ok(Record::Zero),
            Self::One => Ok(Record::One),
            Self::TwoCompInt(n) => {
                if *n > 8 {
                    return Err(Error::Format(FormatError::UnsupportedTypeTag));
                }
                let v = reader.pop_signed(*n as usize)?;
                Ok(Record::Integer(v))
            },
            Self::Float64 => {
                let bits = reader.pop_fixed(8)?;
                Ok(Record::Float64(bits))
            },
            Self::Blob(len) => {
                if *len > avail as u64 {
                    return Err(Error::Format(FormatError::BufferUnderrun));
                }
                let blob = reader.pop_bytes(*len as usize)?;
                Ok(Record::Blob(blob))
            },
            Self::String(len) => {
                if *len > avail as u64 {
                    return Err(Error::Format(FormatError::BufferUnderrun));
                }
                let text = reader.pop_str(*len as usize)?;
                Ok(Record::Text(text))
            },
        }
    }
}

/// Each type tag stands for the value kind and the stored length of the format's table:
/// 0 for null, 1 to 6 for integers of 1, 2, 3, 4, 6 and 8 bytes, 7 for a float of 8 bytes,
/// 8 and 9 for the constants 0 and 1, an even tag from 12 on for a blob and an odd tag from
/// 13 on for text, each of half of what the tag exceeds 12 or 13 by. The tags 10 and 11
/// stand for nothing.
pub proof fn lemma_type_tags(tag: int, bytes: Seq<u8>)
    requires
        0 <= tag <= i64::MAX,
    ensures
        tag == 10 || tag == 11 <==> RecordFormat::of_tag(tag) is None,
        RecordFormat::of_tag(tag) matches Some(format) ==> {
            &&& format.decodable()
            &&& tag == 0 ==> format.stored_len() == 0 && format.value_in(bytes) is Null
            &&& tag == 1 ==> format.stored_len() == 1 && format.value_in(bytes) is Integer
            &&& tag == 2 ==> format.stored_len() == 2 && format.value_in(bytes) is Integer
            &&& tag == 3 ==> format.stored_len() == 3 && format.value_in(bytes) is Integer
            &&& tag == 4 ==> format.stored_len() == 4 && format.value_in(bytes) is Integer
            &&& tag == 5 ==> format.stored_len() == 6 && format.value_in(bytes) is Integer
            &&& tag == 6 ==> format.stored_len() == 8 && format.value_in(bytes) is Integer
            &&& tag == 7 ==> format.stored_len() == 8 && format.value_in(bytes) is Float64
            &&& tag == 8 ==> format.stored_len() == 0 && format.value_in(bytes) is Zero
            &&& tag == 9 ==> format.stored_len() == 0 && format.value_in(bytes) is One
            &&& tag >= 12 && tag % 2 == 0 ==> format.stored_len() == (tag - 12) / 2
                && format.value_in(bytes) is Blob
            &&& tag >= 13 && tag % 2 == 1 ==> format.stored_len() == (tag - 13) / 2
                && format.value_in(bytes) is Text
            &&& bytes.len() >= format.stored_len() ==> format.decode(bytes) == Ok::<Value, Error>(
                format.value_in(bytes),
            )
            &&& bytes.len() < format.stored_len() ==> format.decode(bytes) == Err::<Value, Error>(
                underrun(),
            )
        },
{
}

/// The formats that the first `n` type tags of `bytes` stand for, and the number of
/// bytes that these tags take. Each tag is a variable-length integer.
pub open spec fn read_formats(bytes: Seq<u8>, n: nat) -> Result<(Seq<RecordFormat>, nat), Error>
    decreases n,
{
    if n == 0 {
        Ok((Seq::empty(), 0))
    } else {
        match read_formats(bytes, (n - 1) as nat) {
            Err(e) => Err(e),
            Ok((formats, at)) => match varint(bytes.skip(at as int)) {
                None => Err(underrun()),
                Some((tag, len)) => match RecordFormat::of_tag(as_signed64(tag)) {
                    None => Err(Error::Format(FormatError::UnsupportedTypeTag)),
                    Some(format) => Ok((formats.push(format), at + len)),
                },
            },
        }
    }
}

/// The values that `bytes` hold in the given formats, one after the other, and the
/// number of bytes that they take.
pub open spec fn read_values(formats: Seq<RecordFormat>, bytes: Seq<u8>) -> Result<
    (Seq<Value>, nat),
    Error,
>
    decreases formats.len(),
{
    if formats.len() == 0 {
        Ok((Seq::empty(), 0))
    } else {
        match read_values(formats.drop_last(), bytes) {
            Err(e) => Err(e),
            Ok((values, at)) => match formats.last().decode(bytes.skip(at as int)) {
                Err(e) => Err(e),
                Ok(value) => Ok((values.push(value), at + formats.last().stored_len())),
            },
        }
    }
}

/// The values of the record of `columns` columns that `payload` holds: the length of the
/// record header, one type tag for each column, and then the values in the same order.
pub open spec fn read_record(payload: Seq<u8>, columns: nat) -> Result<Seq<Value>, Error> {
    match varint(payload) {
        None => Err(underrun()),
        Some((_, header)) => match read_formats(payload.skip(header as int), columns) {
            Err(e) => Err(e),
            Ok((formats, tags)) => match read_values(
                formats,
                payload.skip((header + tags) as int),
            ) {
                Err(e) => Err(e),
                Ok((values, _)) => Ok(values),
            },
        },
    }
}

proof fn lemma_read_formats_failed(bytes: Seq<u8>, k: nat, n: nat)
    requires
        k <= n,
        read_formats(bytes, k) is Err,
    ensures
        read_formats(bytes, n) == read_formats(bytes, k),
    decreases n,
{
    if k < n {
        lemma_read_formats_failed(bytes, k, (n - 1) as nat);
    }
}

proof fn lemma_read_values_failed(formats: Seq<RecordFormat>, bytes: Seq<u8>, k: int)
    requires
        0 <= k <= formats.len(),
        read_values(formats.take(k), bytes) is Err,
    ensures
        read_values(formats, bytes) == read_values(formats.take(k), bytes),
    decreases formats.len(),
{
    if k < formats.len() {
        assert(formats.drop_last().take(k) =~= formats.take(k));
        lemma_read_values_failed(formats.drop_last(), bytes, k);
    } else {
        assert(formats.take(k) =~= formats);
    }
}

/// A record holds one value for each of its columns.
pub proof fn lemma_read_record_len(payload: Seq<u8>, columns: nat)
    requires
        read_record(payload, columns) is Ok,
    ensures
        read_record(payload, columns)->Ok_0.len() == columns,
{
    let header = varint(payload)->Some_0.1;
    let bytes = payload.skip(header as int);
    lemma_read_formats_len(bytes, columns);
    let (formats, tags) = read_formats(bytes, columns)->Ok_0;
    lemma_read_values_len(formats, payload.skip((header + tags) as int));
}

proof fn lemma_read_formats_len(bytes: Seq<u8>, n: nat)
    requires
        read_formats(bytes, n) is Ok,
    ensures
        read_formats(bytes, n)->Ok_0.0.len() == n,
    decreases n,
{
    if n > 0 {
        lemma_read_formats_len(bytes, (n - 1) as nat);
    }
}

proof fn lemma_read_values_len(formats: Seq<RecordFormat>, bytes: Seq<u8>)
    requires
        read_values(formats, bytes) is Ok,
    ensures
        read_values(formats, bytes)->Ok_0.0.len() == formats.len(),
    decreases formats.len(),
{
    if formats.len() > 0 {
        lemma_read_values_len(formats.drop_last(), bytes);
    }
}

/// Decodes the record of `columns` columns that `payload` holds.
pub fn decode_record(payload: &[u8], columns: usize) -> (r: Result<Vec<Record>, Error>)
    ensures
        match read_record(payload@, columns as nat) {
            Ok(values) => r is Ok && values_of(r->Ok_0@) == values && r->Ok_0@.len() == columns,
            Err(e) => r == Err::<Vec<Record>, Error>(e),
        },
{
    let mut reader = Reader::new(payload);
    assert(reader.remaining() =~= payload@);
    let _header_len = reader.pop_varint()?;
    let ghost header = varint(payload@)->Some_0.1;
    let ghost bytes = payload@.skip(header as int);
    let mut formats: Vec<RecordFormat> = Vec::new();
    let mut i: usize = 0;
    let ghost mut at: nat = 0;
    while i < columns
        invariant
            i <= columns,
            formats@.len() == i,
            varint(payload@) is Some,
            varint(payload@)->Some_0.1 == header,
            reader.buffer() == payload@,
            reader.position() == header + at,
            reader.position() <= payload@.len(),
            bytes == payload@.skip(header as int),
            read_formats(bytes, i as nat) == Ok::<(Seq<RecordFormat>, nat), Error>((formats@, at)),
        decreases columns - i,
    {
        assert(reader.remaining() =~= bytes.skip(at as int));
        let tag = match reader.pop_varint() {
            Ok(tag) => tag,
            Err(e) => {
                proof {
                    lemma_read_formats_failed(bytes, (i + 1) as nat, columns as nat);
                }
                return Err(e);
            },
        };
        let format = match RecordFormat::from(tag) {
            Ok(format) => format,
            Err(e) => {
                proof {
                    lemma_read_formats_failed(bytes, (i + 1) as nat, columns as nat);
                }
                return Err(e);
            },
        };
        proof {
            at = at + varint(bytes.skip(at as int))->Some_0.1;
        }
        formats.push(format);
        i = i + 1;
    }
    let ghost tags = at;
    let ghost body = payload@.skip((header + tags) as int);
    let mut values: Vec<Record> = Vec::new();
    let mut k: usize = 0;
    proof {
        at = 0;
        assert(formats@.take(0) =~= Seq::<RecordFormat>::empty());
        assert(values_of(values@) =~= Seq::<Value>::empty());
    }
    while k < formats.len()
        invariant
            k <= formats@.len(),
            formats@.len() == columns,
            varint(payload@) is Some,
            varint(payload@)->Some_0.1 == header,
            bytes == payload@.skip(header as int),
            read_formats(bytes, columns as nat) == Ok::<(Seq<RecordFormat>, nat), Error>(
                (formats@, tags),
            ),
            reader.buffer() == payload@,
            reader.position() == header + tags + at,
            reader.position() <= payload@.len(),
            body == payload@.skip((header + tags) as int),
            values@.len() == k,
            read_values(formats@.take(k as int), body) == Ok::<(Seq<Value>, nat), Error>(
                (values_of(values@), at),
            ),
        decreases formats@.len() - k,
    {
        assert(reader.remaining() =~= body.skip(at as int));
        assert(formats@.take(k + 1).drop_last() =~= formats@.take(k as int));
        let value = match formats[k].pop_value(&mut reader) {
            Ok(value) => value,
            Err(e) => {
                proof {
                    lemma_read_values_failed(formats@, body, k + 1);
                }
                return Err(e);
            },
        };
        proof {
            at = at + formats@[k as int].stored_len();
        }
        let ghost before = values_of(values@);
        let ghost added = value@;
        values.push(value);
        assert(values_of(values@) =~= before.push(added));
        k = k + 1;
    }
    assert(formats@.take(k as int) =~= formats@);
    Ok(values)
}

/// The line of output that a row makes: the texts of its values with a bar between one
/// and the next. A row that holds a value without a text has no line.
pub open spec fn line(row: Seq<Value>) -> Option<Seq<char>>
    decreases row.len(),
{
    if row.len() == 0 {
        Some(Seq::empty())
    } else {
        match (line(row.drop_last()), row.last().text()) {
            (Some(before), Some(text)) => Some(
                if row.len() == 1 {
                    text
                } else {
                    before + seq!['|'] + text
                },
            ),
            _ => None,
        }
    }
}

proof fn lemma_line_undone(row: Seq<Value>, k: int)
    requires
        0 <= k <= row.len(),
        line(row.take(k)) is None,
    ensures
        line(row) is None,
    decreases row.len(),
{
    if k < row.len() {
        assert(row.drop_last().take(k) =~= row.take(k));
        lemma_line_undone(row.drop_last(), k);
    } else {
        assert(row.take(k) =~= row);
    }
}

/// The line of output that a row makes.
pub fn line_of(row: &Vec<Record>) -> (text: Option<String>)
    ensures
        match line(values_of(row@)) {
            Some(t) => text is Some && text->0@ == t,
            None => text is None,
        },
{
    let ghost values = values_of(row@);
    let mut out = String::new();
    let mut k: usize = 0;
    proof {
        assert(values.take(0) =~= Seq::<Value>::empty());
    }
    while k < row.len()
        invariant
            k <= row@.len(),
            values == values_of(row@),
            line(values.take(k as int)) == Some(out@),
        decreases row@.len() - k,
    {
        proof {
            assert(values.take(k + 1).drop_last() =~= values.take(k as int));
            assert(values.take(k + 1).last() == row@[k as int]@);
        }
        let Some(text) = row[k].to_text() else {
            proof {
                lemma_line_undone(values, k + 1);
            }
            return None;
        };
        if k > 0 {
            proof {
                reveal_strlit("|");
            }
            let ghost before = out@;
            out.append("|");
            assert(out@ =~= before + seq!['|']);
        }
        let ghost before = out@;
        out.append(text.as_str());
        assert(k == 0 ==> out@ =~= text@);
        k = k + 1;
    }
    assert(values.take(k as int) =~= values);
    Some(out)
}

} // verus!
