//! The wire codec: byte strings with a two-byte big-endian length in front.

use crate::status::{Error, StatusCode};
use byteorder::{BigEndian, ByteOrder};
use vstd::prelude::*;
use vstd::slice::*;

verus! {

/// The greatest length of a key on the wire.
pub const MAX_KEY_LEN: usize = 256;

/// The greatest length of a value on the wire.
pub const MAX_VALUE_LEN: usize = 4096;

/// The two bytes that carry `n`, the high byte first.
pub open spec fn spec_u16_be(n: u16) -> Seq<u8> {
    seq![(n / 256) as u8, (n % 256) as u8]
}

/// The number that two bytes carry, the high byte first.
pub open spec fn spec_u16_from_be(high: u8, low: u8) -> u16 {
    (high * 256 + low) as u16
}

/// A byte string as it stands on the wire: its length in two bytes, then
/// its bytes.
pub open spec fn frame(bytes: Seq<u8>) -> Seq<u8>
    recommends
        bytes.len() <= u16::MAX,
{
    spec_u16_be(bytes.len() as u16) + bytes
}

/// What stands at the start of an input that should hold an item.
pub enum Parsed<T> {
    /// The input ends before the item does.
    Truncated,
    /// A length in the item is over its limit.
    TooLong,
    /// The item, and the number of bytes that it takes up.
    Complete { value: T, consumed: nat },
}

/// Reads a framed string of at most `max` bytes off the start of `input`.
pub open spec fn parse_frame(input: Seq<u8>, max: nat) -> Parsed<Seq<u8>> {
    if input.len() < 2 {
        Parsed::Truncated
    } else {
        let len = spec_u16_from_be(input[0], input[1]) as nat;
        if len > max {
            Parsed::TooLong
        } else if input.len() < 2 + len {
            Parsed::Truncated
        } else {
            Parsed::Complete { value: input.subrange(2, 2 + len as int), consumed: 2 + len }
        }
    }
}

/// The two bytes of a number carry that number.
pub proof fn lemma_u16_be_round_trip(n: u16)
    ensures
        spec_u16_be(n).len() == 2,
        spec_u16_from_be(spec_u16_be(n)[0], spec_u16_be(n)[1]) == n,
{
}

/// The number that two bytes carry is carried by those two bytes.
pub proof fn lemma_u16_be_bytes_round_trip(high: u8, low: u8)
    ensures
        spec_u16_be(spec_u16_from_be(high, low)) == seq![high, low],
{
    assert(spec_u16_be(spec_u16_from_be(high, low)) =~= seq![high, low]);
}

/// A framed string that was read off an input stands at the start of that
/// input as it is framed again.
pub proof fn lemma_frame_of_parsed(input: Seq<u8>, max: nat)
    requires
        parse_frame(input, max) is Complete,
    ensures
        frame(parse_frame(input, max)->value) == input.take(
            parse_frame(input, max)->consumed as int,
        ),
        parse_frame(input, max)->value.len() <= max,
        parse_frame(input, max)->consumed == 2 + parse_frame(input, max)->value.len(),
        parse_frame(input, max)->consumed <= input.len(),
{
    lemma_u16_be_bytes_round_trip(input[0], input[1]);
    let value = parse_frame(input, max)->value;
    assert(frame(value) =~= input.take(2 + value.len() as int));
}

/// A framed string within the limit is read back whole, whatever follows it.
pub proof fn lemma_frame_round_trip(bytes: Seq<u8>, rest: Seq<u8>, max: nat)
    requires
        bytes.len() <= max <= u16::MAX,
    ensures
        parse_frame(frame(bytes) + rest, max) == (Parsed::Complete {
            value: bytes,
            consumed: 2 + bytes.len(),
        }),
        (frame(bytes) + rest).skip(2 + bytes.len() as int) == rest,
        frame(bytes).len() == 2 + bytes.len(),
{
    let input = frame(bytes) + rest;
    lemma_u16_be_round_trip(bytes.len() as u16);
    assert(input[0] == spec_u16_be(bytes.len() as u16)[0]);
    assert(input[1] == spec_u16_be(bytes.len() as u16)[1]);
    assert(input.subrange(2, 2 + bytes.len() as int) =~= bytes);
    assert(input.skip(2 + bytes.len() as int) =~= rest);
}

/// What is read of a framed string that is all there does not depend on
/// what follows it.
pub proof fn lemma_frame_ignores_rest(input: Seq<u8>, rest: Seq<u8>, max: nat)
    requires
        !(parse_frame(input, max) is Truncated),
    ensures
        parse_frame(input + rest, max) == parse_frame(input, max),
{
    let longer = input + rest;
    assert(longer[0] == input[0]);
    assert(longer[1] == input[1]);
    if parse_frame(input, max) is Complete {
        let len = spec_u16_from_be(input[0], input[1]) as int;
        assert(longer.subrange(2, 2 + len) =~= input.subrange(2, 2 + len));
    }
}

/// Two bytes of a length and as many bytes as they say are a framed
/// string, which is read back whole.
pub proof fn lemma_frame_of_parts(header: Seq<u8>, body: Seq<u8>, max: nat)
    requires
        header.len() == 2,
        spec_u16_from_be(header[0], header[1]) == body.len(),
        body.len() <= max,
    ensures
        header + body == frame(body),
        parse_frame(header + body, max) == (Parsed::Complete {
            value: body,
            consumed: 2 + body.len(),
        }),
{
    lemma_u16_be_bytes_round_trip(header[0], header[1]);
    assert(header =~= seq![header[0], header[1]]);
    assert(header + body =~= frame(body));
    let input = header + body;
    assert(input[0] == header[0]);
    assert(input[1] == header[1]);
    assert(input.subrange(2, 2 + body.len() as int) =~= body);
}

/// `byteorder::ByteOrder::write_u16` for `BigEndian`: the result holds the
/// two bytes of `n`, the high byte first.
#[verifier::external_body]
fn u16_to_be(n: u16) -> (bytes: Vec<u8>)
    ensures
        bytes@ == spec_u16_be(n),
{
    let mut buf = [0u8; 2];
    BigEndian::write_u16(&mut buf, n);
    buf.to_vec()
}

/// `byteorder::ByteOrder::read_u16` for `BigEndian`: the number carried by
/// the first two bytes of `buf`, the high byte first. It panics on a
/// shorter slice, which `requires` leaves out.
#[verifier::external_body]
fn u16_from_be(buf: &[u8]) -> (n: u16)
    requires
        buf@.len() >= 2,
    ensures
        n == spec_u16_from_be(buf@[0], buf@[1]),
{
    BigEndian::read_u16(buf)
}

/// The length that the two bytes in front of a framed string give.
pub fn frame_length(header: &[u8]) -> (len: usize)
    requires
        header@.len() >= 2,
    ensures
        len == spec_u16_from_be(header@[0], header@[1]),
{
    u16_from_be(header) as usize
}

/// Appends `bytes`, framed, to `out`; `max` is the limit on its length.
fn write_framed(out: &mut Vec<u8>, bytes: &[u8], max: usize) -> (written: Option<usize>)
    requires
        max <= MAX_VALUE_LEN,
    ensures
        bytes@.len() <= max ==> written == Some((2 + bytes@.len()) as usize) && final(out)@
            == old(out)@ + frame(bytes@),
        bytes@.len() > max ==> written.is_none() && final(out)@ == old(out)@,
{
    if bytes.len() > max {
        return None;
    }
    let header = u16_to_be(bytes.len() as u16);
    out.extend_from_slice(header.as_slice());
    out.extend_from_slice(bytes);
    assert(out@ =~= old(out)@ + frame(bytes@));
    Some(2 + bytes.len())
}

/// Writes keys and values to a sink of bytes.
pub trait WriteKVExt {
    /// Every byte written to the sink so far.
    spec fn written(&self) -> Seq<u8>;

    /// Appends a key, framed, and returns the number of bytes written. A
    /// key over `MAX_KEY_LEN` is refused and nothing is written.
    fn write_key(&mut self, key: &[u8]) -> (result: Result<usize, Error>)
        ensures
            key@.len() <= MAX_KEY_LEN ==> result.is_ok() && result.unwrap() == 2 + key@.len()
                && final(self).written() == old(self).written() + frame(key@),
            key@.len() > MAX_KEY_LEN ==> result.is_err() && result.unwrap_err().code
                == StatusCode::IOError && final(self).written() == old(self).written(),
    ;

    /// Appends a value, framed, and returns the number of bytes written. A
    /// value over `MAX_VALUE_LEN` is refused and nothing is written.
    fn write_value(&mut self, value: &[u8]) -> (result: Result<usize, Error>)
        ensures
            value@.len() <= MAX_VALUE_LEN ==> result.is_ok() && result.unwrap() == 2
                + value@.len() && final(self).written() == old(self).written() + frame(value@),
            value@.len() > MAX_VALUE_LEN ==> result.is_err() && result.unwrap_err().code
                == StatusCode::IOError && final(self).written() == old(self).written(),
    ;
}

impl WriteKVExt for Vec<u8> {
    open spec fn written(&self) -> Seq<u8> {
        self@
    }

    fn write_key(&mut self, key: &[u8]) -> (result: Result<usize, Error>) {
        match write_framed(self, key, MAX_KEY_LEN) {
            Some(written) => Ok(written),
            None => Err(Error::new(StatusCode::IOError, "key length exceeds the limit")),
        }
    }

    fn write_value(&mut self, value: &[u8]) -> (result: Result<usize, Error>) {
        match write_framed(self, value, MAX_VALUE_LEN) {
            Some(written) => Ok(written),
            None => Err(Error::new(StatusCode::IOError, "value length exceeds the limit")),
        }
    }
}

/// A source of bytes: a slice that is read from its start to its end.
#[derive(Clone, Copy)]
pub struct ByteReader<'a> {
    data: &'a [u8],
    pos: usize,
    truncated: bool,
}

impl<'a> ByteReader<'a> {
    #[verifier::type_invariant]
    spec fn in_bounds(self) -> bool {
        self.pos <= self.data@.len()
    }

    /// The bytes not yet read.
    pub closed spec fn remaining(&self) -> Seq<u8> {
        self.data@.skip(self.pos as int)
    }

    /// The number of bytes read so far.
    pub closed spec fn spec_position(&self) -> usize {
        self.pos
    }

    /// Whether the last read asked for more bytes than were left.
    pub closed spec fn spec_is_truncated(&self) -> bool {
        self.truncated
    }

    /// A reader at the start of `data`.
    pub fn new(data: &'a [u8]) -> (reader: ByteReader<'a>)
        ensures
            reader.remaining() == data@,
            reader.spec_position() == 0,
            !reader.spec_is_truncated(),
    {
        ByteReader { data, pos: 0, truncated: false }
    }

    /// The number of bytes read so far.
    #[verifier::when_used_as_spec(spec_position)]
    pub fn position(&self) -> (position: usize)
        ensures
            position == self.spec_position(),
    {
        self.pos
    }

    /// Whether the last read asked for more bytes than were left.
    #[verifier::when_used_as_spec(spec_is_truncated)]
    pub fn is_truncated(&self) -> (truncated: bool)
        ensures
            truncated == self.spec_is_truncated(),
    {
        self.truncated
    }

    /// The number of bytes not yet read.
    pub fn available(&self) -> (count: usize)
        ensures
            count == self.remaining().len(),
    {
        proof {
            use_type_invariant(self);
        }
        self.data.len() - self.pos
    }

    /// Reads the next `len` bytes. Where fewer are left, nothing is read,
    /// the reader is marked as truncated and the read fails; a read that
    /// succeeds takes the mark off.
    pub fn read_exact(&mut self, len: usize) -> (result: Result<Vec<u8>, Error>)
        ensures
            len <= old(self).remaining().len() ==> {
                &&& result.is_ok()
                &&& result.unwrap()@ == old(self).remaining().take(len as int)
                &&& final(self).remaining() == old(self).remaining().skip(len as int)
                &&& final(self).spec_position() == old(self).spec_position() + len
                &&& !final(self).spec_is_truncated()
            },
            len > old(self).remaining().len() ==> {
                &&& result.is_err()
                &&& result.unwrap_err().code == StatusCode::IOError
                &&& final(self).remaining() == old(self).remaining()
                &&& final(self).spec_position() == old(self).spec_position()
                &&& final(self).spec_is_truncated()
            },
    {
        proof {
            use_type_invariant(&*self);
        }
        if len > self.data.len() - self.pos {
            self.truncated = true;
            return Err(Error::new(StatusCode::IOError, "unexpected end of input"));
        }
        let bytes = slice_to_vec(slice_subrange(self.data, self.pos, self.pos + len));
        assert(bytes@ =~= self.remaining().take(len as int));
        assert(self.data@.skip(self.pos + len) =~= self.remaining().skip(len as int));
        self.pos = self.pos + len;
        self.truncated = false;
        Ok(bytes)
    }

    /// Reads the next byte. Where none is left, the reader is marked as
    /// truncated and the read fails.
    pub fn read_u8(&mut self) -> (result: Result<u8, Error>)
        ensures
            old(self).remaining().len() > 0 ==> {
                &&& result.is_ok()
                &&& result.unwrap() == old(self).remaining()[0]
                &&& final(self).remaining() == old(self).remaining().skip(1)
                &&& final(self).spec_position() == old(self).spec_position() + 1
                &&& !final(self).spec_is_truncated()
            },
            old(self).remaining().len() == 0 ==> {
                &&& result.is_err()
                &&& result.unwrap_err().code == StatusCode::IOError
                &&& final(self).remaining() == old(self).remaining()
                &&& final(self).spec_position() == old(self).spec_position()
                &&& final(self).spec_is_truncated()
            },
    {
        proof {
            use_type_invariant(&*self);
        }
        if self.pos >= self.data.len() {
            self.truncated = true;
            return Err(Error::new(StatusCode::IOError, "unexpected end of input"));
        }
        let byte = self.data[self.pos];
        assert(self.data@.skip(self.pos + 1) =~= self.remaining().skip(1));
        self.pos = self.pos + 1;
        self.truncated = false;
        Ok(byte)
    }

    /// Reads a framed string of at most `max` bytes.
    fn read_framed(&mut self, max: usize) -> (result: Result<Vec<u8>, Error>)
        ensures
            frame_was_read(
                old(self).remaining(),
                max as nat,
                result,
                final(self).remaining(),
                final(self).spec_is_truncated(),
            ),
            result.is_ok() ==> final(self).spec_position() == old(self).spec_position() + 2
                + result.unwrap()@.len(),
    {
        let ghost input = self.remaining();
        let header = self.read_exact(2)?;
        let len = frame_length(header.as_slice());
        if len > max {
            return Err(Error::new(StatusCode::IOError, "length exceeds the limit"));
        }
        let bytes = self.read_exact(len)?;
        assert(bytes@ =~= input.subrange(2, 2 + len as int));
        assert(self.remaining() =~= input.skip(2 + len as int));
        Ok(bytes)
    }
}

/// What a read of a framed string does: `before` and `after` are the bytes
/// not yet read, `is_short` says whether the reader is marked as
/// truncated after it.
pub open spec fn frame_was_read(
    before: Seq<u8>,
    max: nat,
    result: Result<Vec<u8>, Error>,
    after: Seq<u8>,
    is_short: bool,
) -> bool {
    match parse_frame(before, max) {
        Parsed::Complete { value, consumed } => {
            &&& result.is_ok()
            &&& result.unwrap()@ == value
            &&& after == before.skip(consumed as int)
            &&& !is_short
        },
        Parsed::TooLong => {
            &&& result.is_err()
            &&& result.unwrap_err().code == StatusCode::IOError
            &&& !is_short
        },
        Parsed::Truncated => {
            &&& result.is_err()
            &&& result.unwrap_err().code == StatusCode::IOError
            &&& is_short
        },
    }
}

/// Reads keys and values from a source of bytes.
pub trait ReadKVExt {
    /// The bytes that the source has yet to give.
    spec fn unread(&self) -> Seq<u8>;

    /// Whether the source ran out of bytes in its last read.
    spec fn ran_short(&self) -> bool;

    /// Reads a framed key. It fails where the source ends before the key
    /// does, or where the length in front is over `MAX_KEY_LEN`.
    fn read_key(&mut self) -> (result: Result<Vec<u8>, Error>)
        ensures
            frame_was_read(
                old(self).unread(),
                MAX_KEY_LEN as nat,
                result,
                final(self).unread(),
                final(self).ran_short(),
            ),
    ;

    /// Reads a framed value. It fails where the source ends before the
    /// value does, or where the length in front is over `MAX_VALUE_LEN`.
    fn read_value(&mut self) -> (result: Result<Vec<u8>, Error>)
        ensures
            frame_was_read(
                old(self).unread(),
                MAX_VALUE_LEN as nat,
                result,
                final(self).unread(),
                final(self).ran_short(),
            ),
    ;
}

impl<'a> ReadKVExt for ByteReader<'a> {
    open spec fn unread(&self) -> Seq<u8> {
        self.remaining()
    }

    open spec fn ran_short(&self) -> bool {
        self.spec_is_truncated()
    }

    fn read_key(&mut self) -> (result: Result<Vec<u8>, Error>)
        ensures
            result.is_ok() ==> final(self).spec_position() == old(self).spec_position() + 2
                + result.unwrap()@.len(),
    {
        self.read_framed(MAX_KEY_LEN)
    }

    fn read_value(&mut self) -> (result: Result<Vec<u8>, Error>)
        ensures
            result.is_ok() ==> final(self).spec_position() == old(self).spec_position() + 2
                + result.unwrap()@.len(),
    {
        self.read_framed(MAX_VALUE_LEN)
    }
}

} // verus!
