//! Requests: the action tag and the messages that a client sends.

use crate::ext::{
    frame, lemma_frame_of_parsed, lemma_frame_round_trip, parse_frame, ByteReader, Parsed,
    ReadKVExt, WriteKVExt, MAX_KEY_LEN, MAX_VALUE_LEN,
};
use crate::status::{Error, StatusCode};
use crate::types::{Key, Value};
use vstd::prelude::*;

verus! {

/// The tag that labels a request: one byte in front of it on the wire.
#[derive(Debug, Copy, Clone, PartialEq, Eq, Structural)]
pub enum Action {
    Put,
    Get,
    Delete,
    Scan,
    Ping,
    /// A one-way probe: the server reads it and answers nothing.
    NoResponse,
    /// Stands for every byte that names no other action.
    Unknown,
}

impl Action {
    /// The byte that carries this tag.
    pub open spec fn spec_to_u8(self) -> u8 {
        match self {
            Action::Put => 0,
            Action::Get => 1,
            Action::Delete => 2,
            Action::Scan => 3,
            Action::Ping => 4,
            Action::NoResponse => 5,
            Action::Unknown => 255,
        }
    }

    /// The tag that a byte carries.
    pub open spec fn spec_from_u8(value: u8) -> Action {
        if value == 0 {
            Action::Put
        } else if value == 1 {
            Action::Get
        } else if value == 2 {
            Action::Delete
        } else if value == 3 {
            Action::Scan
        } else if value == 4 {
            Action::Ping
        } else if value == 5 {
            Action::NoResponse
        } else {
            Action::Unknown
        }
    }

    /// The byte that carries this tag.
    pub fn to_u8(self) -> (byte: u8)
        ensures
            byte == self.spec_to_u8(),
    {
        match self {
            Action::Put => 0,
            Action::Get => 1,
            Action::Delete => 2,
            Action::Scan => 3,
            Action::Ping => 4,
            Action::NoResponse => 5,
            Action::Unknown => 255,
        }
    }
}

impl From<u8> for Action {
    /// Decodes a tag; a byte that names no action gives `Unknown`.
    fn from(value: u8) -> (action: Action) {
        match value {
            0 => Action::Put,
            1 => Action::Get,
            2 => Action::Delete,
            3 => Action::Scan,
            4 => Action::Ping,
            5 => Action::NoResponse,
            _ => Action::Unknown,
        }
    }
}

impl vstd::std_specs::convert::FromSpecImpl<u8> for Action {
    open spec fn obeys_from_spec() -> bool {
        true
    }

    open spec fn from_spec(value: u8) -> Action {
        Action::spec_from_u8(value)
    }
}

/// Every tag comes back from the byte that carries it.
pub proof fn lemma_action_byte_round_trip(action: Action)
    ensures
        Action::spec_from_u8(action.spec_to_u8()) == action,
{
}

/// The key that stands for "no lower bound": `MAX_KEY_LEN` zero bytes.
pub open spec fn spec_min_key() -> Seq<u8> {
    Seq::new(MAX_KEY_LEN as nat, |i: int| 0u8)
}

/// The key that stands for "no upper bound": `MAX_KEY_LEN` bytes `0xff`.
pub open spec fn spec_max_key() -> Seq<u8> {
    Seq::new(MAX_KEY_LEN as nat, |i: int| 0xffu8)
}

/// `MAX_KEY_LEN` bytes, each of them `fill`.
fn sentinel_key(fill: u8) -> (key: Vec<u8>)
    ensures
        key@ == Seq::new(MAX_KEY_LEN as nat, |i: int| fill),
{
    let mut key: Vec<u8> = Vec::new();
    while key.len() < MAX_KEY_LEN
        invariant
            key@.len() <= MAX_KEY_LEN,
            forall|i: int| 0 <= i < key@.len() ==> key@[i] == fill,
        decreases MAX_KEY_LEN - key@.len(),
    {
        key.push(fill);
    }
    assert(key@ =~= Seq::new(MAX_KEY_LEN as nat, |i: int| fill));
    key
}

/// The key that stands for "no lower bound".
pub fn min_key() -> (key: Vec<u8>)
    ensures
        key@ == spec_min_key(),
{
    sentinel_key(0)
}

/// The key that stands for "no upper bound".
pub fn max_key() -> (key: Vec<u8>)
    ensures
        key@ == spec_max_key(),
{
    sentinel_key(0xff)
}

/// Whether `bytes` are `MAX_KEY_LEN` bytes, each of them `fill`.
fn is_sentinel_key(bytes: &[u8], fill: u8) -> (same: bool)
    ensures
        same == (bytes@ == Seq::new(MAX_KEY_LEN as nat, |i: int| fill)),
{
    if bytes.len() != MAX_KEY_LEN {
        return false;
    }
    let mut i: usize = 0;
    while i < bytes.len()
        invariant
            i <= bytes@.len(),
            bytes@.len() == MAX_KEY_LEN,
            forall|j: int| 0 <= j < i ==> bytes@[j] == fill,
        decreases bytes@.len() - i,
    {
        if bytes[i] != fill {
            assert(Seq::new(MAX_KEY_LEN as nat, |i: int| fill)[i as int] == fill);
            return false;
        }
        i += 1;
    }
    assert(bytes@ =~= Seq::new(MAX_KEY_LEN as nat, |i: int| fill));
    true
}

/// A request as plain values: the bytes of its keys and values.
pub enum RequestView {
    Put(Seq<u8>, Seq<u8>),
    Get(Seq<u8>),
    Delete(Seq<u8>),
    Scan { lower_bound: Option<Seq<u8>>, upper_bound: Option<Seq<u8>> },
    Ping,
    NoResponse,
    Unknown,
}

/// The bytes of a bound, where there is one.
pub open spec fn bound_view(bound: Option<Key>) -> Option<Seq<u8>> {
    match bound {
        Some(key) => Some(key@),
        None => None,
    }
}

/// The key that carries a bound on the wire: the bound itself, or the
/// sentinel where there is none.
pub open spec fn bound_on_wire(bound: Option<Seq<u8>>, sentinel: Seq<u8>) -> Seq<u8> {
    match bound {
        Some(key) => key,
        None => sentinel,
    }
}

/// The bound that a key on the wire carries: none where the key is the
/// sentinel.
pub open spec fn bound_off_wire(key: Seq<u8>, sentinel: Seq<u8>) -> Option<Seq<u8>> {
    if key == sentinel {
        None
    } else {
        Some(key)
    }
}

impl RequestView {
    /// The action that labels this request.
    pub open spec fn action(self) -> Action {
        match self {
            RequestView::Put(_, _) => Action::Put,
            RequestView::Get(_) => Action::Get,
            RequestView::Delete(_) => Action::Delete,
            RequestView::Scan { .. } => Action::Scan,
            RequestView::Ping => Action::Ping,
            RequestView::NoResponse => Action::NoResponse,
            RequestView::Unknown => Action::Unknown,
        }
    }

    /// Whether every key and value of this request is within its limit.
    pub open spec fn within_limits(self) -> bool {
        match self {
            RequestView::Put(key, value) => key.len() <= MAX_KEY_LEN && value.len()
                <= MAX_VALUE_LEN,
            RequestView::Get(key) => key.len() <= MAX_KEY_LEN,
            RequestView::Delete(key) => key.len() <= MAX_KEY_LEN,
            RequestView::Scan { lower_bound, upper_bound } => bound_on_wire(
                lower_bound,
                spec_min_key(),
            ).len() <= MAX_KEY_LEN && bound_on_wire(upper_bound, spec_max_key()).len()
                <= MAX_KEY_LEN,
            _ => true,
        }
    }

    /// What follows the tag on the wire.
    pub open spec fn payload(self) -> Seq<u8> {
        match self {
            RequestView::Put(key, value) => frame(key) + frame(value),
            RequestView::Get(key) => frame(key),
            RequestView::Delete(key) => frame(key),
            RequestView::Scan { lower_bound, upper_bound } => frame(
                bound_on_wire(lower_bound, spec_min_key()),
            ) + frame(bound_on_wire(upper_bound, spec_max_key())),
            _ => Seq::empty(),
        }
    }

    /// The request on the wire: its tag, then its payload.
    pub open spec fn encoding(self) -> Seq<u8> {
        seq![self.action().spec_to_u8()] + self.payload()
    }

    /// Whether a scan of this request names a bound that is a sentinel,
    /// which the wire cannot tell from no bound.
    pub open spec fn names_sentinel(self) -> bool {
        match self {
            RequestView::Scan { lower_bound, upper_bound } => lower_bound == Some(spec_min_key())
                || upper_bound == Some(spec_max_key()),
            _ => false,
        }
    }
}

/// A request, as a client builds it and a server reads it.
#[derive(Debug)]
pub enum Request {
    Put(Key, Value),
    Get(Key),
    Delete(Key),
    Scan { lower_bound: Option<Key>, upper_bound: Option<Key> },
    Ping,
    NoResponse,
    Unknown,
}

impl View for Request {
    type V = RequestView;

    open spec fn view(&self) -> RequestView {
        match *self {
            Request::Put(key, value) => RequestView::Put(key@, value@),
            Request::Get(key) => RequestView::Get(key@),
            Request::Delete(key) => RequestView::Delete(key@),
            Request::Scan { lower_bound, upper_bound } => RequestView::Scan {
                lower_bound: bound_view(lower_bound),
                upper_bound: bound_view(upper_bound),
            },
            Request::Ping => RequestView::Ping,
            Request::NoResponse => RequestView::NoResponse,
            Request::Unknown => RequestView::Unknown,
        }
    }
}

/// Reads two framed strings, one after the other, off the start of `input`.
pub open spec fn parse_pair(input: Seq<u8>, max_first: nat, max_second: nat) -> Parsed<
    (Seq<u8>, Seq<u8>),
> {
    match parse_frame(input, max_first) {
        Parsed::Complete { value: first, consumed: n } => match parse_frame(
            input.skip(n as int),
            max_second,
        ) {
            Parsed::Complete { value: second, consumed: m } => Parsed::Complete {
                value: (first, second),
                consumed: n + m,
            },
            Parsed::Truncated => Parsed::Truncated,
            Parsed::TooLong => Parsed::TooLong,
        },
        Parsed::Truncated => Parsed::Truncated,
        Parsed::TooLong => Parsed::TooLong,
    }
}

/// Reads a request off the start of `input`.
pub open spec fn parse_request(input: Seq<u8>) -> Parsed<RequestView> {
    if input.len() == 0 {
        Parsed::Truncated
    } else {
        let body = input.skip(1);
        match Action::spec_from_u8(input[0]) {
            Action::Put => match parse_pair(body, MAX_KEY_LEN as nat, MAX_VALUE_LEN as nat) {
                Parsed::Complete { value, consumed } => Parsed::Complete {
                    value: RequestView::Put(value.0, value.1),
                    consumed: 1 + consumed,
                },
                Parsed::Truncated => Parsed::Truncated,
                Parsed::TooLong => Parsed::TooLong,
            },
            Action::Get => match parse_frame(body, MAX_KEY_LEN as nat) {
                Parsed::Complete { value, consumed } => Parsed::Complete {
                    value: RequestView::Get(value),
                    consumed: 1 + consumed,
                },
                Parsed::Truncated => Parsed::Truncated,
                Parsed::TooLong => Parsed::TooLong,
            },
            Action::Delete => match parse_frame(body, MAX_KEY_LEN as nat) {
                Parsed::Complete { value, consumed } => Parsed::Complete {
                    value: RequestView::Delete(value),
                    consumed: 1 + consumed,
                },
                Parsed::Truncated => Parsed::Truncated,
                Parsed::TooLong => Parsed::TooLong,
            },
            Action::Scan => match parse_pair(body, MAX_KEY_LEN as nat, MAX_KEY_LEN as nat) {
                Parsed::Complete { value, consumed } => Parsed::Complete {
                    value: RequestView::Scan {
                        lower_bound: bound_off_wire(value.0, spec_min_key()),
                        upper_bound: bound_off_wire(value.1, spec_max_key()),
                    },
                    consumed: 1 + consumed,
                },
                Parsed::Truncated => Parsed::Truncated,
                Parsed::TooLong => Parsed::TooLong,
            },
            Action::Ping => Parsed::Complete { value: RequestView::Ping, consumed: 1 },
            Action::NoResponse => Parsed::Complete { value: RequestView::NoResponse, consumed: 1 },
            Action::Unknown => Parsed::Complete { value: RequestView::Unknown, consumed: 1 },
        }
    }
}

/// Two framed strings within their limits are read back, whatever
/// follows them.
pub proof fn lemma_pair_round_trip(
    first: Seq<u8>,
    second: Seq<u8>,
    rest: Seq<u8>,
    max_first: nat,
    max_second: nat,
)
    requires
        first.len() <= max_first <= u16::MAX,
        second.len() <= max_second <= u16::MAX,
    ensures
        parse_pair(frame(first) + frame(second) + rest, max_first, max_second) == (
        Parsed::Complete { value: (first, second), consumed: 4 + first.len() + second.len() }),
{
    let input = frame(first) + frame(second) + rest;
    assert(input =~= frame(first) + (frame(second) + rest));
    lemma_frame_round_trip(first, frame(second) + rest, max_first);
    lemma_frame_round_trip(second, rest, max_second);
}

/// Two framed strings that were read off an input stand at the start of
/// that input as they are framed again.
pub proof fn lemma_pair_of_parsed(input: Seq<u8>, max_first: nat, max_second: nat)
    requires
        parse_pair(input, max_first, max_second) is Complete,
    ensures
        frame(parse_pair(input, max_first, max_second)->value.0) + frame(
            parse_pair(input, max_first, max_second)->value.1,
        ) == input.take(parse_pair(input, max_first, max_second)->consumed as int),
        parse_pair(input, max_first, max_second)->value.0.len() <= max_first,
        parse_pair(input, max_first, max_second)->value.1.len() <= max_second,
        parse_pair(input, max_first, max_second)->consumed <= input.len(),
{
    lemma_frame_of_parsed(input, max_first);
    let n = parse_frame(input, max_first)->consumed as int;
    lemma_frame_of_parsed(input.skip(n), max_second);
    let m = parse_frame(input.skip(n), max_second)->consumed as int;
    assert(input.take(n + m) =~= input.take(n) + input.skip(n).take(m));
}

/// What is read of two framed strings that are all there does not depend
/// on what follows them.
pub proof fn lemma_pair_ignores_rest(
    input: Seq<u8>,
    rest: Seq<u8>,
    max_first: nat,
    max_second: nat,
)
    requires
        !(parse_pair(input, max_first, max_second) is Truncated),
    ensures
        parse_pair(input + rest, max_first, max_second) == parse_pair(
            input,
            max_first,
            max_second,
        ),
{
    crate::ext::lemma_frame_ignores_rest(input, rest, max_first);
    if parse_frame(input, max_first) is Complete {
        lemma_frame_of_parsed(input, max_first);
        let n = parse_frame(input, max_first)->consumed as int;
        assert((input + rest).skip(n) =~= input.skip(n) + rest);
        crate::ext::lemma_frame_ignores_rest(input.skip(n), rest, max_second);
    }
}

proof fn lemma_tagged_frame_round_trip(tag: u8, key: Seq<u8>, rest: Seq<u8>)
    requires
        key.len() <= MAX_KEY_LEN,
    ensures
        (seq![tag] + frame(key) + rest)[0] == tag,
        parse_frame((seq![tag] + frame(key) + rest).skip(1), MAX_KEY_LEN as nat) == (
        Parsed::Complete { value: key, consumed: 2 + key.len() }),
        (seq![tag] + frame(key)).len() == 3 + key.len(),
{
    let input = seq![tag] + frame(key) + rest;
    assert(input.skip(1) =~= frame(key) + rest);
    lemma_frame_round_trip(key, rest, MAX_KEY_LEN as nat);
}

proof fn lemma_tagged_pair_round_trip(
    tag: u8,
    first: Seq<u8>,
    second: Seq<u8>,
    rest: Seq<u8>,
    max_second: nat,
)
    requires
        first.len() <= MAX_KEY_LEN,
        second.len() <= max_second <= u16::MAX,
    ensures
        (seq![tag] + (frame(first) + frame(second)) + rest)[0] == tag,
        parse_pair(
            (seq![tag] + (frame(first) + frame(second)) + rest).skip(1),
            MAX_KEY_LEN as nat,
            max_second,
        ) == (Parsed::Complete {
            value: (first, second),
            consumed: 4 + first.len() + second.len(),
        }),
        (seq![tag] + (frame(first) + frame(second))).len() == 5 + first.len() + second.len(),
{
    let input = seq![tag] + (frame(first) + frame(second)) + rest;
    assert(input.skip(1) =~= frame(first) + frame(second) + rest);
    lemma_pair_round_trip(first, second, rest, MAX_KEY_LEN as nat, max_second);
    lemma_frame_round_trip(first, rest, MAX_KEY_LEN as nat);
    lemma_frame_round_trip(second, rest, max_second);
}

/// Round trip: a request within the limits that names no sentinel as a
/// bound is read back from its encoding as it was, whatever follows it.
pub proof fn lemma_request_round_trip(request: RequestView, rest: Seq<u8>)
    requires
        request.within_limits(),
        !(request is Unknown),
        !request.names_sentinel(),
    ensures
        parse_request(request.encoding() + rest) == (Parsed::Complete {
            value: request,
            consumed: request.encoding().len(),
        }),
{
    match request {
        RequestView::Put(key, value) => {
            lemma_tagged_pair_round_trip(0, key, value, rest, MAX_VALUE_LEN as nat);
        },
        RequestView::Get(key) => {
            lemma_tagged_frame_round_trip(1, key, rest);
        },
        RequestView::Delete(key) => {
            lemma_tagged_frame_round_trip(2, key, rest);
        },
        RequestView::Scan { lower_bound, upper_bound } => {
            let lower = bound_on_wire(lower_bound, spec_min_key());
            let upper = bound_on_wire(upper_bound, spec_max_key());
            lemma_tagged_pair_round_trip(3, lower, upper, rest, MAX_KEY_LEN as nat);
            assert(bound_off_wire(lower, spec_min_key()) == lower_bound);
            assert(bound_off_wire(upper, spec_max_key()) == upper_bound);
        },
        RequestView::Ping => {
            assert((request.encoding() + rest)[0] == 4);
            assert(request.encoding().len() == 1);
        },
        RequestView::NoResponse => {
            assert((request.encoding() + rest)[0] == 5);
            assert(request.encoding().len() == 1);
        },
        RequestView::Unknown => {},
    }
}

/// Round trip of the bytes: a request that was read off an input, and
/// whose action is known, encodes to the bytes that it was read from.
pub proof fn lemma_request_bytes_round_trip(input: Seq<u8>)
    requires
        parse_request(input) is Complete,
        !(parse_request(input)->value is Unknown),
    ensures
        parse_request(input)->value.within_limits(),
        parse_request(input)->consumed <= input.len(),
        parse_request(input)->value.encoding() == input.take(
            parse_request(input)->consumed as int,
        ),
{
    let body = input.skip(1);
    let request = parse_request(input)->value;
    let consumed = parse_request(input)->consumed as int;
    assert(Action::spec_from_u8(input[0]) == request.action());
    assert(request.action().spec_to_u8() == input[0]);
    match request {
        RequestView::Put(key, value) => {
            lemma_pair_of_parsed(body, MAX_KEY_LEN as nat, MAX_VALUE_LEN as nat);
        },
        RequestView::Get(key) => {
            lemma_frame_of_parsed(body, MAX_KEY_LEN as nat);
        },
        RequestView::Delete(key) => {
            lemma_frame_of_parsed(body, MAX_KEY_LEN as nat);
        },
        RequestView::Scan { lower_bound, upper_bound } => {
            lemma_pair_of_parsed(body, MAX_KEY_LEN as nat, MAX_KEY_LEN as nat);
        },
        _ => {},
    }
    assert(input.take(consumed) =~= seq![input[0]] + body.take(consumed - 1));
}

/// A request that is read takes up at least one of the bytes that are
/// there.
pub proof fn lemma_request_size(input: Seq<u8>)
    requires
        parse_request(input) is Complete,
    ensures
        1 <= parse_request(input)->consumed <= input.len(),
{
    let body = input.skip(1);
    match Action::spec_from_u8(input[0]) {
        Action::Put => {
            lemma_pair_of_parsed(body, MAX_KEY_LEN as nat, MAX_VALUE_LEN as nat);
        },
        Action::Get => {
            lemma_frame_of_parsed(body, MAX_KEY_LEN as nat);
        },
        Action::Delete => {
            lemma_frame_of_parsed(body, MAX_KEY_LEN as nat);
        },
        Action::Scan => {
            lemma_pair_of_parsed(body, MAX_KEY_LEN as nat, MAX_KEY_LEN as nat);
        },
        _ => {},
    }
}

impl Request {
    /// Appends the request to `writer` as it stands on the wire and returns
    /// the number of bytes written. A request with a key or a value over its
    /// limit is refused and nothing is written. `Unknown` is never sent.
    pub fn write_to(self, writer: &mut Vec<u8>) -> (result: Result<usize, Error>)
        requires
            !(self is Unknown),
        ensures
            self@.within_limits() ==> result.is_ok() && result.unwrap() == self@.encoding().len()
                && final(writer)@ == old(writer)@ + self@.encoding(),
            !self@.within_limits() ==> result.is_err() && result.unwrap_err().code
                == StatusCode::IOError && final(writer)@ == old(writer)@,
    {
        let mut counter: usize = 1;
        match self {
            Request::Put(key, value) => {
                if key.len() > MAX_KEY_LEN || value.len() > MAX_VALUE_LEN {
                    return Err(Error::new(StatusCode::IOError, "request exceeds the limits"));
                }
                writer.push(Action::Put.to_u8());
                counter += writer.write_key(key.as_slice())?;
                counter += writer.write_value(value.as_slice())?;
                assert(writer@ =~= old(writer)@ + self@.encoding());
            },
            Request::Get(key) => {
                if key.len() > MAX_KEY_LEN {
                    return Err(Error::new(StatusCode::IOError, "request exceeds the limits"));
                }
                writer.push(Action::Get.to_u8());
                counter += writer.write_key(key.as_slice())?;
                assert(writer@ =~= old(writer)@ + self@.encoding());
            },
            Request::Delete(key) => {
                if key.len() > MAX_KEY_LEN {
                    return Err(Error::new(StatusCode::IOError, "request exceeds the limits"));
                }
                writer.push(Action::Delete.to_u8());
                counter += writer.write_key(key.as_slice())?;
                assert(writer@ =~= old(writer)@ + self@.encoding());
            },
            Request::Scan { lower_bound, upper_bound } => {
                let lower_key = match lower_bound {
                    Some(key) => key.into_bytes(),
                    None => min_key(),
                };
                let upper_key = match upper_bound {
                    Some(key) => key.into_bytes(),
                    None => max_key(),
                };
                if lower_key.len() > MAX_KEY_LEN || upper_key.len() > MAX_KEY_LEN {
                    return Err(Error::new(StatusCode::IOError, "request exceeds the limits"));
                }
                writer.push(Action::Scan.to_u8());
                counter += writer.write_key(lower_key.as_slice())?;
                counter += writer.write_key(upper_key.as_slice())?;
                assert(writer@ =~= old(writer)@ + self@.encoding());
            },
            Request::Ping => {
                writer.push(Action::Ping.to_u8());
                assert(writer@ =~= old(writer)@ + self@.encoding());
            },
            Request::NoResponse => {
                writer.push(Action::NoResponse.to_u8());
                assert(writer@ =~= old(writer)@ + self@.encoding());
            },
            Request::Unknown => unreached(),
        }
        Ok(counter)
    }

    /// Reads one request off `reader`. A byte that names no action gives
    /// `Unknown`. The read fails where the input ends before the request
    /// does, which marks the reader as truncated, and where a length in
    /// the request is over its limit.
    pub fn read_from(reader: &mut ByteReader) -> (result: Result<Request, Error>)
        ensures
            match parse_request(old(reader).remaining()) {
                Parsed::Complete { value, consumed } => {
                    &&& result.is_ok()
                    &&& result.unwrap()@ == value
                    &&& final(reader).remaining() == old(reader).remaining().skip(consumed as int)
                    &&& final(reader).spec_position() == old(reader).spec_position() + consumed
                    &&& !final(reader).spec_is_truncated()
                },
                Parsed::TooLong => {
                    &&& result.is_err()
                    &&& result.unwrap_err().code == StatusCode::IOError
                    &&& !final(reader).spec_is_truncated()
                },
                Parsed::Truncated => {
                    &&& result.is_err()
                    &&& result.unwrap_err().code == StatusCode::IOError
                    &&& final(reader).spec_is_truncated()
                },
            },
    {
        let ghost input = reader.remaining();
        let action = Action::from(reader.read_u8()?);
        match action {
            Action::Put => {
                let key = reader.read_key()?;
                let value = reader.read_value()?;
                assert(reader.remaining() =~= input.skip(
                    1 + 2 + key@.len() as int + 2 + value@.len() as int,
                ));
                Ok(Request::Put(Key::new(key), value))
            },
            Action::Get => {
                let key = reader.read_key()?;
                assert(reader.remaining() =~= input.skip(1 + 2 + key@.len() as int));
                Ok(Request::Get(Key::new(key)))
            },
            Action::Delete => {
                let key = reader.read_key()?;
                assert(reader.remaining() =~= input.skip(1 + 2 + key@.len() as int));
                Ok(Request::Delete(Key::new(key)))
            },
            Action::Scan => {
                let lower_bound = reader.read_key()?;
                let upper_bound = reader.read_key()?;
                assert(reader.remaining() =~= input.skip(
                    1 + 2 + lower_bound@.len() as int + 2 + upper_bound@.len() as int,
                ));
                let lower_absent = is_sentinel_key(lower_bound.as_slice(), 0);
                let upper_absent = is_sentinel_key(upper_bound.as_slice(), 0xff);
                Ok(
                    Request::Scan {
                        lower_bound: if lower_absent {
                            None
                        } else {
                            Some(Key::new(lower_bound))
                        },
                        upper_bound: if upper_absent {
                            None
                        } else {
                            Some(Key::new(upper_bound))
                        },
                    },
                )
            },
            Action::Ping => Ok(Request::Ping),
            Action::NoResponse => Ok(Request::NoResponse),
            Action::Unknown => Ok(Request::Unknown),
        }
    }
}

} // verus!
