//! The client's side of a connection: requests sent over a transport and
//! the answers read from it.

use crate::ext::{frame_length, parse_frame, ByteReader, Parsed, MAX_KEY_LEN, MAX_VALUE_LEN};
use crate::request::{bound_view, Action, Request, RequestView};
use crate::response::{
    entries_only, items_view, lemma_entries_push, lemma_entries_then, parse_response, parse_step,
    whole_answer, ItemView, ParsedResponse, Response, ResponseView, Step,
};
use crate::server::failure_code;
use crate::status::{Error, StatusCode};
use crate::types::{Entry, Key, Value};
use vstd::prelude::*;

verus! {

/// A stream of bytes to and from a peer.
///
/// The functions `modelled`, `sent`, `received` and `failures` are the
/// transport's model: the bytes that it has taken and given so far, and
/// the number of its calls that have failed. A transport written outside
/// verified code leaves them as they are here, and nothing is then claimed
/// of it. What a transport hands back is checked by the connection that
/// uses it.
pub trait Transport {
    /// Whether `sent` and `received` record what this transport has taken
    /// and given.
    open spec fn modelled(&self) -> bool {
        false
    }

    /// Every byte that was handed to the transport by a call that
    /// succeeded.
    open spec fn sent(&self) -> Seq<u8> {
        Seq::empty()
    }

    /// Every byte that the transport has given.
    open spec fn received(&self) -> Seq<u8> {
        Seq::empty()
    }

    /// The number of calls of the transport that have failed.
    open spec fn failures(&self) -> nat {
        0
    }

    /// Sends all of `bytes`, or fails.
    fn send(&mut self, bytes: &[u8]) -> (result: Result<(), Error>)
        ensures
            final(self).modelled() == old(self).modelled(),
            old(self).modelled() ==> final(self).received() == old(self).received(),
            old(self).modelled() && result.is_ok() ==> {
                &&& final(self).sent() == old(self).sent() + bytes@
                &&& final(self).failures() == old(self).failures()
            },
            old(self).modelled() && result.is_err() ==> final(self).failures() == old(
                self,
            ).failures() + 1,
    ;

    /// Receives the next `len` bytes, or fails.
    fn receive(&mut self, len: usize) -> (result: Result<Vec<u8>, Error>)
        ensures
            final(self).modelled() == old(self).modelled(),
            old(self).modelled() ==> final(self).sent() == old(self).sent(),
            old(self).modelled() && result.is_ok() ==> {
                &&& result.unwrap()@.len() == len
                &&& final(self).received() == old(self).received() + result.unwrap()@
                &&& final(self).failures() == old(self).failures()
            },
            old(self).modelled() && result.is_err() ==> {
                &&& final(self).received() == old(self).received()
                &&& final(self).failures() == old(self).failures() + 1
            },
    ;
}

/// A transport in memory: it keeps what is sent and gives the bytes that
/// it was made with, in their order.
pub struct MemoryTransport {
    outgoing: Vec<u8>,
    incoming: Vec<u8>,
    given: Ghost<Seq<u8>>,
    failed: Ghost<nat>,
}

impl MemoryTransport {
    /// The bytes that the transport has yet to give.
    pub closed spec fn unread(&self) -> Seq<u8> {
        self.incoming@
    }

    /// The bytes that were sent.
    pub closed spec fn spec_outgoing(&self) -> Seq<u8> {
        self.outgoing@
    }

    /// The bytes that the transport has given.
    pub closed spec fn spec_given(&self) -> Seq<u8> {
        self.given@
    }

    /// The number of reads that asked for more than was left.
    pub closed spec fn spec_failed(&self) -> nat {
        self.failed@
    }

    /// A transport that will give `incoming`.
    pub fn new(incoming: Vec<u8>) -> (transport: MemoryTransport)
        ensures
            transport.unread() == incoming@,
            transport.sent() == Seq::<u8>::empty(),
            transport.received() == Seq::<u8>::empty(),
            transport.failures() == 0,
    {
        MemoryTransport {
            outgoing: Vec::new(),
            incoming,
            given: Ghost(Seq::empty()),
            failed: Ghost(0),
        }
    }

    /// The bytes that were sent.
    pub fn outgoing(&self) -> (bytes: &[u8])
        ensures
            bytes@ == self.sent(),
    {
        self.outgoing.as_slice()
    }

    /// The number of bytes that the transport has yet to give.
    pub fn remaining(&self) -> (count: usize)
        ensures
            count == self.unread().len(),
    {
        self.incoming.len()
    }
}

impl Transport for MemoryTransport {
    open spec fn modelled(&self) -> bool {
        true
    }

    open spec fn sent(&self) -> Seq<u8> {
        self.spec_outgoing()
    }

    open spec fn received(&self) -> Seq<u8> {
        self.spec_given()
    }

    open spec fn failures(&self) -> nat {
        self.spec_failed()
    }

    /// Keeps `bytes`; it never fails.
    fn send(&mut self, bytes: &[u8]) -> (result: Result<(), Error>)
        ensures
            result.is_ok(),
            final(self).unread() == old(self).unread(),
    {
        self.outgoing.extend_from_slice(bytes);
        assert(self.outgoing@ =~= old(self).outgoing@ + bytes@);
        Ok(())
    }

    /// Gives the next `len` bytes; it fails, and gives nothing, where
    /// fewer are left.
    fn receive(&mut self, len: usize) -> (result: Result<Vec<u8>, Error>)
        ensures
            len <= old(self).unread().len() ==> {
                &&& result.is_ok()
                &&& result.unwrap()@ == old(self).unread().take(len as int)
                &&& final(self).unread() == old(self).unread().skip(len as int)
            },
            len > old(self).unread().len() ==> {
                &&& result.is_err()
                &&& result.unwrap_err().code == StatusCode::IOError
                &&& final(self).unread() == old(self).unread()
            },
    {
        if len > self.incoming.len() {
            proof {
                self.failed@ = self.failed@ + 1;
            }
            return Err(Error::new(StatusCode::IOError, "unexpected end of input"));
        }
        let mut bytes = self.incoming.split_off(len);
        core::mem::swap(&mut bytes, &mut self.incoming);
        proof {
            self.given@ = self.given@ + bytes@;
        }
        assert(bytes@ =~= old(self).incoming@.take(len as int));
        assert(self.incoming@ =~= old(self).incoming@.skip(len as int));
        Ok(bytes)
    }
}

/// The code of the error that the answer to a put, a delete or a ping
/// means, where it means one: any status but `OK`.
pub open spec fn done_meaning(response: ResponseView) -> Option<StatusCode> {
    match response {
        ResponseView::Status(StatusCode::OK) => None,
        ResponseView::Status(code) => Some(code),
        _ => None,
    }
}

/// What the answer to a get means: the value found, no value for
/// `NotFound`, or the code of an error for any other status.
pub open spec fn get_meaning(response: ResponseView) -> Result<Option<Seq<u8>>, StatusCode> {
    match response {
        ResponseView::SingleValue(value) => Ok(Some(value)),
        ResponseView::Status(StatusCode::NotFound) => Ok(None),
        ResponseView::Status(code) => Err(code),
        ResponseView::Scanner(_) => Ok(None),
    }
}

/// What the answer to a scan means: the items of the stream, or the code
/// of an error for a status.
pub open spec fn scan_meaning(response: ResponseView) -> Result<Seq<ItemView>, StatusCode> {
    match response {
        ResponseView::Scanner(items) => Ok(items),
        ResponseView::Status(code) => Err(code),
        ResponseView::SingleValue(_) => Ok(Seq::empty()),
    }
}

/// What the answer to a put, a delete or a ping means: `OK` is success,
/// any other status is an error with that status as its code.
pub fn done_reply(response: Response, message: &str) -> (result: Result<(), Error>)
    requires
        response is Status,
    ensures
        failure_code(result) == done_meaning(response@),
        result.is_err() ==> result.unwrap_err().message@ == message@,
{
    match response {
        Response::Status(StatusCode::OK) => Ok(()),
        Response::Status(code) => Err(Error::new(code, message)),
        _ => unreached(),
    }
}

/// What the answer to a get means: a value is the value found,
/// `NotFound` is no value, and any other status is an error with that
/// status as its code.
pub fn get_reply(response: Response) -> (result: Result<Option<Value>, Error>)
    requires
        !(response is Scanner),
    ensures
        match get_meaning(response@) {
            Ok(Some(value)) => result.is_ok() && result.unwrap().is_some()
                && result.unwrap().unwrap()@ == value,
            Ok(None) => result.is_ok() && result.unwrap().is_none(),
            Err(code) => result.is_err() && result.unwrap_err().code == code
                && result.unwrap_err().message@ == "get request error"@,
        },
{
    match response {
        Response::Status(StatusCode::NotFound) => Ok(None),
        Response::Status(code) => Err(Error::new(code, "get request error")),
        Response::SingleValue(value) => Ok(Some(value)),
        Response::Scanner(_) => unreached(),
    }
}

/// What the answer to a scan means: a stream is its items, and a status
/// is an error with that status as its code.
pub fn scan_reply(response: Response) -> (result: Result<Vec<Result<Entry, Error>>, Error>)
    requires
        !(response is SingleValue),
    ensures
        match scan_meaning(response@) {
            Ok(items) => result.is_ok() && items_view(result.unwrap()@) == items,
            Err(code) => result.is_err() && result.unwrap_err().code == code
                && result.unwrap_err().message@ == "scan request error"@,
        },
        response matches Response::Scanner(items) ==> result == Ok::<
            Vec<Result<Entry, Error>>,
            Error,
        >(items),
{
    match response {
        Response::Status(status) => Err(Error::new(status, "scan request error")),
        Response::Scanner(items) => Ok(items),
        Response::SingleValue(_) => unreached(),
    }
}

/// What is made of the bytes of the answer to a request with the given
/// action: the response that they are read as, or the code of the error
/// with which the reading fails.
pub open spec fn answer_read(answer: Seq<u8>, action: Action) -> Result<ResponseView, StatusCode> {
    match parse_response(answer, action) {
        ParsedResponse::Complete { value, consumed, clean, truncated } => Ok(value),
        ParsedResponse::UnknownAction => Err(StatusCode::UnknownAction),
        ParsedResponse::Truncated => Err(StatusCode::IOError),
        ParsedResponse::TooLong => Err(StatusCode::IOError),
    }
}

/// The code of the error in which a put, a delete or a ping ends, if it
/// does, where `answer` are the bytes that answer it.
pub open spec fn done_outcome(answer: Seq<u8>, action: Action) -> Option<StatusCode> {
    match answer_read(answer, action) {
        Ok(response) => done_meaning(response),
        Err(code) => Some(code),
    }
}

/// How a get ends where `answer` are the bytes that answer it.
pub open spec fn get_outcome(answer: Seq<u8>) -> Result<Option<Seq<u8>>, StatusCode> {
    match answer_read(answer, Action::Get) {
        Ok(response) => get_meaning(response),
        Err(code) => Err(code),
    }
}

/// How a scan ends where `answer` are the bytes that answer it.
pub open spec fn scan_outcome(answer: Seq<u8>) -> Result<Seq<ItemView>, StatusCode> {
    match answer_read(answer, Action::Scan) {
        Ok(response) => scan_meaning(response),
        Err(code) => Err(code),
    }
}

/// Whether no call of a transport has failed since it was as `before`.
pub open spec fn unfailed<T: Transport>(before: T, after: T) -> bool {
    after.failures() == before.failures()
}

/// The bytes that a transport has given since it was as `before`.
pub open spec fn answer_since<T: Transport>(before: T, after: T) -> Seq<u8> {
    after.received().skip(before.received().len() as int)
}

/// A round trip in which no call of the transport failed: the request
/// went out as it stands on the wire, and what the transport has given
/// since is one answer to it and no more.
pub open spec fn exchanged<T: Transport>(before: T, after: T, request: RequestView) -> bool {
    &&& unfailed(before, after)
    &&& after.sent() == before.sent() + request.encoding()
    &&& before.received().len() <= after.received().len()
    &&& after.received().take(before.received().len() as int) == before.received()
    &&& whole_answer(answer_since(before, after), request.action())
}

/// Whether `frame` is a framed string of at most `max` bytes and nothing
/// else.
pub open spec fn is_frame(frame: Seq<u8>, max: nat) -> bool {
    parse_frame(frame, max) == (Parsed::Complete { value: frame.skip(2), consumed: frame.len() })
}

/// Whether `bytes` are the start of the answer to a scan that says `OK`:
/// the `OK` byte, and behind it entries that are all there.
pub open spec fn is_scan_so_far(bytes: Seq<u8>) -> bool {
    bytes.len() >= 1 && bytes[0] == 0 && entries_only(bytes.skip(1))
}

/// The start of the answer to a scan with a status other than `OK` behind
/// it is one whole answer.
proof fn lemma_scan_ended(so_far: Seq<u8>, status: u8)
    requires
        is_scan_so_far(so_far),
        status != 0,
    ensures
        whole_answer(so_far.push(status), Action::Scan),
{
    let entries = so_far.skip(1);
    let end = seq![status];
    let bytes = so_far.push(status);
    assert(bytes.skip(1) =~= entries + end);
    assert(bytes[0] == 0);
    lemma_entries_then(entries, end);
    assert(end[0] == status);
    assert(!(parse_step(end) is Entry));
}

/// The start of the answer to a scan with an entry behind it whose key
/// has a length over the limit: the reading of it stops at that length.
proof fn lemma_scan_broken_at_key(so_far: Seq<u8>, key_frame: Seq<u8>)
    requires
        is_scan_so_far(so_far),
        parse_frame(key_frame, MAX_KEY_LEN as nat) is TooLong,
    ensures
        whole_answer(so_far.push(0) + key_frame, Action::Scan),
{
    let entries = so_far.skip(1);
    let tail = seq![0u8] + key_frame;
    let bytes = so_far.push(0) + key_frame;
    assert(bytes.skip(1) =~= entries + tail);
    assert(bytes[0] == 0);
    lemma_entries_then(entries, tail);
    assert(tail[0] == 0);
    assert(tail.skip(1) =~= key_frame);
    assert(parse_step(tail) == Step::Failure {
        code: StatusCode::IOError,
        truncated: false,
        clean: false,
    });
}

/// The start of the answer to a scan with an entry behind it whose value
/// has a length over the limit: the reading of it stops at that length.
proof fn lemma_scan_broken_at_value(so_far: Seq<u8>, key_frame: Seq<u8>, value_frame: Seq<u8>)
    requires
        is_scan_so_far(so_far),
        is_frame(key_frame, MAX_KEY_LEN as nat),
        parse_frame(value_frame, MAX_VALUE_LEN as nat) is TooLong,
    ensures
        whole_answer(so_far.push(0) + key_frame + value_frame, Action::Scan),
{
    let entries = so_far.skip(1);
    let tail = seq![0u8] + key_frame + value_frame;
    let bytes = so_far.push(0) + key_frame + value_frame;
    assert(bytes.skip(1) =~= entries + tail);
    assert(bytes[0] == 0);
    lemma_entries_then(entries, tail);
    assert(tail[0] == 0);
    assert(tail.skip(1) =~= key_frame + value_frame);
    crate::ext::lemma_frame_ignores_rest(key_frame, value_frame, MAX_KEY_LEN as nat);
    assert((key_frame + value_frame).skip(key_frame.len() as int) =~= value_frame);
    assert(parse_step(tail) == Step::Failure {
        code: StatusCode::IOError,
        truncated: false,
        clean: false,
    });
}

/// The start of the answer to a scan with one more entry behind it is the
/// start of the answer still.
proof fn lemma_scan_grown(so_far: Seq<u8>, key_frame: Seq<u8>, value_frame: Seq<u8>)
    requires
        is_scan_so_far(so_far),
        is_frame(key_frame, MAX_KEY_LEN as nat),
        is_frame(value_frame, MAX_VALUE_LEN as nat),
    ensures
        is_scan_so_far(so_far.push(0) + key_frame + value_frame),
{
    let entries = so_far.skip(1);
    let entry = seq![0u8] + key_frame + value_frame;
    let bytes = so_far.push(0) + key_frame + value_frame;
    assert(bytes.skip(1) =~= entries + entry);
    assert(bytes[0] == 0);
    assert(entry[0] == 0);
    assert(entry.skip(1) =~= key_frame + value_frame);
    crate::ext::lemma_frame_ignores_rest(key_frame, value_frame, MAX_KEY_LEN as nat);
    assert((key_frame + value_frame).skip(key_frame.len() as int) =~= value_frame);
    assert(parse_step(entry) is Entry);
    assert(parse_step(entry)->consumed == entry.len());
    lemma_entries_push(entries, entry);
}

/// The start of the answer to a scan, with nothing behind it, is read as
/// a stream that the input ends before: it is no more than one answer.
proof fn lemma_scan_unended(so_far: Seq<u8>)
    requires
        is_scan_so_far(so_far),
    ensures
        whole_answer(so_far, Action::Scan),
{
    let entries = so_far.skip(1);
    lemma_entries_then(entries, Seq::<u8>::empty());
    assert(entries + Seq::<u8>::empty() =~= entries);
}

/// A connection to a server over a transport.
///
/// What a call does is stated for a modelled transport. A request over
/// the limits of the wire is refused before anything is sent. Otherwise,
/// where no call of the transport fails, the request goes out as it
/// stands on the wire and the call ends as the answer says; where a call
/// of the transport fails, so does the call of the connection.
pub struct Connection<T: Transport> {
    inner: T,
}

impl<T: Transport> Connection<T> {
    /// The transport that the connection uses.
    pub closed spec fn transport(&self) -> T {
        self.inner
    }

    /// A connection over `connection`.
    pub fn new(connection: T) -> (made: Connection<T>)
        ensures
            made.transport() == connection,
    {
        Connection { inner: connection }
    }

    /// The transport, given up by the connection.
    pub fn into_inner(self) -> (transport: T)
        ensures
            transport == self.transport(),
    {
        self.inner
    }

    /// Receives `len` bytes and checks that it got that many.
    fn receive_exact(&mut self, len: usize) -> (result: Result<Vec<u8>, Error>)
        ensures
            final(self).transport().modelled() == old(self).transport().modelled(),
            result.is_ok() ==> result.unwrap()@.len() == len,
            old(self).transport().modelled() ==> ({
                let before = old(self).transport();
                let after = final(self).transport();
                &&& after.sent() == before.sent()
                &&& result.is_ok() ==> after.received() == before.received() + result.unwrap()@
                &&& result.is_ok() ==> unfailed(before, after)
                &&& result.is_err() ==> after.failures() == before.failures() + 1
            }),
    {
        let bytes = self.inner.receive(len)?;
        if bytes.len() != len {
            return Err(
                Error::new(StatusCode::IOError, "the transport gave a wrong count of bytes"),
            );
        }
        Ok(bytes)
    }

    /// Receives a framed string of at most `max` bytes and appends it, as
    /// it stands on the wire, to `into`. Where the length in front is over
    /// `max`, the two bytes of the length are appended and nothing more is
    /// received: `false` is returned, and the reading of the answer will
    /// fail on that length.
    fn receive_frame(&mut self, max: usize, into: &mut Vec<u8>) -> (result: Result<bool, Error>)
        requires
            max <= MAX_VALUE_LEN,
            old(into)@.len() + 2 + max <= usize::MAX,
        ensures
            final(self).transport().modelled() == old(self).transport().modelled(),
            old(into)@.len() <= final(into)@.len() <= old(into)@.len() + 2 + max,
            final(into)@.take(old(into)@.len() as int) == old(into)@,
            result.is_ok() ==> ({
                let appended = final(into)@.skip(old(into)@.len() as int);
                if result.unwrap() {
                    is_frame(appended, max as nat)
                } else {
                    appended.len() == 2 && parse_frame(appended, max as nat) is TooLong
                }
            }),
            old(self).transport().modelled() ==> ({
                let before = old(self).transport();
                let after = final(self).transport();
                &&& after.sent() == before.sent()
                &&& result.is_err() ==> after.failures() > before.failures()
                &&& result.is_ok() ==> unfailed(before, after)
                &&& result.is_ok() ==> after.received() == before.received() + final(into)@.skip(
                    old(into)@.len() as int,
                )
            }),
    {
        let header = self.receive_exact(2)?;
        let len = frame_length(header.as_slice());
        into.extend_from_slice(header.as_slice());
        if len > max {
            proof {
                assert(into@ =~= old(into)@ + header@);
                assert(into@.skip(old(into)@.len() as int) =~= header@);
                assert(into@.take(old(into)@.len() as int) =~= old(into)@);
            }
            return Ok(false);
        }
        let ghost with_header = into@;
        let body = match self.receive_exact(len) {
            Ok(body) => body,
            Err(error) => {
                assert(into@.take(old(into)@.len() as int) =~= old(into)@);
                return Err(error);
            },
        };
        into.extend_from_slice(body.as_slice());
        proof {
            let frame = header@ + body@;
            assert(into@ =~= old(into)@ + frame);
            assert(into@.skip(old(into)@.len() as int) =~= frame);
            assert(into@.take(old(into)@.len() as int) =~= old(into)@);
            assert(frame.skip(2) =~= body@);
            crate::ext::lemma_frame_of_parts(header@, body@, max as nat);
            if old(self).transport().modelled() {
                assert(self.transport().received() =~= old(self).transport().received() + frame);
            }
        }
        Ok(true)
    }

    /// Receives the bytes of the answer to a request with the given
    /// action: the status, and after `OK` the value of a get or the
    /// stream of a scan up to the status that ends it. It stops at a
    /// length over its limit, on which the reading of the answer fails.
    fn receive_response(&mut self, action: Action) -> (result: Result<Vec<u8>, Error>)
        ensures
            final(self).transport().modelled() == old(self).transport().modelled(),
            result.is_ok() ==> whole_answer(result.unwrap()@, action),
            old(self).transport().modelled() ==> ({
                let before = old(self).transport();
                let after = final(self).transport();
                &&& after.sent() == before.sent()
                &&& result.is_err() ==> after.failures() > before.failures()
                &&& result.is_ok() ==> unfailed(before, after)
                &&& result.is_ok() ==> after.received() == before.received() + result.unwrap()@
            }),
    {
        let ghost start = self.transport().received();
        let ghost failures = self.transport().failures();
        let ghost modelled = self.transport().modelled();
        let mut bytes = self.receive_exact(1)?;
        if bytes[0] != StatusCode::OK.to_u8() {
            return Ok(bytes);
        }
        match action {
            Action::Get => {
                let ghost before = bytes@;
                let whole = self.receive_frame(MAX_VALUE_LEN, &mut bytes)?;
                proof {
                    let appended = bytes@.skip(1);
                    assert(bytes@ =~= before + appended);
                    assert(start + before + appended =~= start + bytes@);
                }
            },
            Action::Scan => {
                let room: usize = 5 + MAX_KEY_LEN + MAX_VALUE_LEN;
                proof {
                    assert(bytes@.skip(1) =~= Seq::<u8>::empty());
                }
                while bytes.len() < usize::MAX - room
                    invariant
                        action == Action::Scan,
                        room == 5 + MAX_KEY_LEN + MAX_VALUE_LEN,
                        is_scan_so_far(bytes@),
                        self.transport().modelled() == modelled,
                        modelled == old(self).transport().modelled(),
                        modelled ==> self.transport().sent() == old(self).transport().sent(),
                        modelled ==> self.transport().received() == start + bytes@,
                        modelled ==> self.transport().failures() == failures,
                        start == old(self).transport().received(),
                        failures == old(self).transport().failures(),
                    decreases usize::MAX - bytes@.len(),
                {
                    let ghost so_far = bytes@;
                    let status = self.receive_exact(1)?;
                    bytes.push(status[0]);
                    let ghost with_status = bytes@;
                    proof {
                        assert(with_status =~= so_far + status@);
                        assert(start + so_far + status@ =~= start + with_status);
                    }
                    if status[0] != StatusCode::OK.to_u8() {
                        proof {
                            lemma_scan_ended(so_far, status@[0]);
                        }
                        return Ok(bytes);
                    }
                    let whole_key = self.receive_frame(MAX_KEY_LEN, &mut bytes)?;
                    let ghost with_key = bytes@;
                    let ghost key_frame = with_key.skip(with_status.len() as int);
                    proof {
                        assert(with_key =~= with_status + key_frame);
                        assert(start + with_status + key_frame =~= start + with_key);
                    }
                    if !whole_key {
                        proof {
                            lemma_scan_broken_at_key(so_far, key_frame);
                        }
                        return Ok(bytes);
                    }
                    let whole_value = self.receive_frame(MAX_VALUE_LEN, &mut bytes)?;
                    let ghost value_frame = bytes@.skip(with_key.len() as int);
                    proof {
                        assert(bytes@ =~= with_key + value_frame);
                        assert(start + with_key + value_frame =~= start + bytes@);
                    }
                    if !whole_value {
                        proof {
                            lemma_scan_broken_at_value(so_far, key_frame, value_frame);
                        }
                        return Ok(bytes);
                    }
                    proof {
                        lemma_scan_grown(so_far, key_frame, value_frame);
                    }
                }
                proof {
                    lemma_scan_unended(bytes@);
                }
            },
            _ => {},
        }
        Ok(bytes)
    }

    /// Sends a request and reads the answer to it.
    fn round_trip(&mut self, request: Request, action: Action) -> (result: Result<Response, Error>)
        requires
            !(request is Unknown),
            action == request@.action(),
            action != Action::NoResponse,
        ensures
            final(self).transport().modelled() == old(self).transport().modelled(),
            !request@.within_limits() ==> result.is_err() && result.unwrap_err().code
                == StatusCode::IOError && final(self).transport() == old(self).transport(),
            result.is_ok() ==> match action {
                Action::Get => !(result.unwrap() is Scanner),
                Action::Scan => !(result.unwrap() is SingleValue),
                _ => result.unwrap() is Status,
            },
            old(self).transport().modelled() && request@.within_limits() ==> ({
                let before = old(self).transport();
                let after = final(self).transport();
                if unfailed(before, after) {
                    &&& exchanged(before, after, request@)
                    &&& match answer_read(answer_since(before, after), action) {
                        Ok(response) => result.is_ok() && result.unwrap()@ == response,
                        Err(code) => result.is_err() && result.unwrap_err().code == code,
                    }
                } else {
                    result.is_err()
                }
            }),
    {
        let ghost start = self.transport().received();
        let mut outgoing: Vec<u8> = Vec::new();
        request.write_to(&mut outgoing)?;
        assert(outgoing@ =~= request@.encoding());
        self.inner.send(outgoing.as_slice())?;
        let incoming = self.receive_response(action)?;
        let mut reader = ByteReader::new(incoming.as_slice());
        let result = Response::read_from(&mut reader, action);
        proof {
            if old(self).transport().modelled() {
                let after = self.transport().received();
                assert(after.skip(start.len() as int) =~= incoming@);
                assert(after.take(start.len() as int) =~= start);
            }
        }
        result
    }

    /// Stores `value` under `key` on the server: success is the answer
    /// `OK`, and any other status is an error with that status as its
    /// code.
    pub fn set(&mut self, key: Key, value: Value) -> (result: Result<(), Error>)
        ensures
            final(self).transport().modelled() == old(self).transport().modelled(),
            !RequestView::Put(key@, value@).within_limits() ==> result.is_err()
                && result.unwrap_err().code == StatusCode::IOError && final(self).transport()
                == old(self).transport(),
            old(self).transport().modelled() && RequestView::Put(key@, value@).within_limits()
                ==> ({
                let before = old(self).transport();
                let after = final(self).transport();
                if unfailed(before, after) {
                    &&& exchanged(before, after, RequestView::Put(key@, value@))
                    &&& failure_code(result) == done_outcome(
                        answer_since(before, after),
                        Action::Put,
                    )
                } else {
                    result.is_err()
                }
            }),
    {
        let response = self.round_trip(Request::Put(key, value), Action::Put)?;
        done_reply(response, "set request error")
    }

    /// Removes what the server stores under `key`: success is the answer
    /// `OK`, and any other status is an error with that status as its
    /// code.
    pub fn delete(&mut self, key: Key) -> (result: Result<(), Error>)
        ensures
            final(self).transport().modelled() == old(self).transport().modelled(),
            !RequestView::Delete(key@).within_limits() ==> result.is_err()
                && result.unwrap_err().code == StatusCode::IOError && final(self).transport()
                == old(self).transport(),
            old(self).transport().modelled() && RequestView::Delete(key@).within_limits() ==> ({
                let before = old(self).transport();
                let after = final(self).transport();
                if unfailed(before, after) {
                    &&& exchanged(before, after, RequestView::Delete(key@))
                    &&& failure_code(result) == done_outcome(
                        answer_since(before, after),
                        Action::Delete,
                    )
                } else {
                    result.is_err()
                }
            }),
    {
        let response = self.round_trip(Request::Delete(key), Action::Delete)?;
        done_reply(response, "delete request error")
    }

    /// The value that the server stores under `key`: the value of the
    /// answer, or `None` for the answer `NotFound`; any other status is
    /// an error with that status as its code.
    pub fn get(&mut self, key: Key) -> (result: Result<Option<Value>, Error>)
        ensures
            final(self).transport().modelled() == old(self).transport().modelled(),
            !RequestView::Get(key@).within_limits() ==> result.is_err()
                && result.unwrap_err().code == StatusCode::IOError && final(self).transport()
                == old(self).transport(),
            old(self).transport().modelled() && RequestView::Get(key@).within_limits() ==> ({
                let before = old(self).transport();
                let after = final(self).transport();
                if unfailed(before, after) {
                    &&& exchanged(before, after, RequestView::Get(key@))
                    &&& match get_outcome(answer_since(before, after)) {
                        Ok(Some(value)) => result.is_ok() && result.unwrap().is_some()
                            && result.unwrap().unwrap()@ == value,
                        Ok(None) => result.is_ok() && result.unwrap().is_none(),
                        Err(code) => result.is_err() && result.unwrap_err().code == code,
                    }
                } else {
                    result.is_err()
                }
            }),
    {
        let response = self.round_trip(Request::Get(key), Action::Get)?;
        get_reply(response)
    }

    /// The items of a scan of the server between the bounds, read to the
    /// end of their stream; a status in place of the stream is an error
    /// with that status as its code.
    pub fn scan(&mut self, lower_bound: Option<Key>, upper_bound: Option<Key>) -> (result: Result<
        Vec<Result<Entry, Error>>,
        Error,
    >)
        ensures
            final(self).transport().modelled() == old(self).transport().modelled(),
            !scan_view(lower_bound, upper_bound).within_limits() ==> result.is_err()
                && result.unwrap_err().code == StatusCode::IOError && final(self).transport()
                == old(self).transport(),
            old(self).transport().modelled() && scan_view(lower_bound, upper_bound).within_limits()
                ==> ({
                let before = old(self).transport();
                let after = final(self).transport();
                if unfailed(before, after) {
                    &&& exchanged(before, after, scan_view(lower_bound, upper_bound))
                    &&& match scan_outcome(answer_since(before, after)) {
                        Ok(items) => result.is_ok() && items_view(result.unwrap()@) == items,
                        Err(code) => result.is_err() && result.unwrap_err().code == code,
                    }
                } else {
                    result.is_err()
                }
            }),
    {
        let response = self.round_trip(Request::Scan { lower_bound, upper_bound }, Action::Scan)?;
        scan_reply(response)
    }

    /// Asks the server whether it is there: success is the answer `OK`,
    /// and any other status is an error with that status as its code.
    pub fn ping(&mut self) -> (result: Result<(), Error>)
        ensures
            final(self).transport().modelled() == old(self).transport().modelled(),
            old(self).transport().modelled() ==> ({
                let before = old(self).transport();
                let after = final(self).transport();
                if unfailed(before, after) {
                    &&& exchanged(before, after, RequestView::Ping)
                    &&& failure_code(result) == done_outcome(
                        answer_since(before, after),
                        Action::Ping,
                    )
                } else {
                    result.is_err()
                }
            }),
    {
        let response = self.round_trip(Request::Ping, Action::Ping)?;
        done_reply(response, "ping error")
    }

    /// Sends the one-way probe, to which the server answers nothing: the
    /// call fails where the transport cannot send, and only there.
    pub fn no_response(&mut self) -> (result: Result<(), Error>)
        ensures
            final(self).transport().modelled() == old(self).transport().modelled(),
            old(self).transport().modelled() ==> ({
                let before = old(self).transport();
                let after = final(self).transport();
                &&& after.received() == before.received()
                &&& result.is_ok() <==> unfailed(before, after)
                &&& result.is_ok() ==> after.sent() == before.sent()
                    + RequestView::NoResponse.encoding()
            }),
    {
        let mut outgoing: Vec<u8> = Vec::new();
        let _ = Request::NoResponse.write_to(&mut outgoing);
        assert(outgoing@ =~= RequestView::NoResponse.encoding());
        self.inner.send(outgoing.as_slice())
    }
}

/// A scan between the bounds, as plain values.
pub open spec fn scan_view(lower_bound: Option<Key>, upper_bound: Option<Key>) -> RequestView {
    RequestView::Scan { lower_bound: bound_view(lower_bound), upper_bound: bound_view(upper_bound) }
}

/// The manager of a pool of connections to one server: it knows the
/// server's address and how to tell a connection that still works from
/// one that does not.
#[derive(Debug)]
pub struct BronzeConnManager {
    db_addr: String,
}

impl BronzeConnManager {
    /// The address of the server.
    pub closed spec fn spec_db_addr(&self) -> Seq<char> {
        self.db_addr@
    }

    /// A manager of connections to the server at `addr`.
    pub fn new(addr: &str) -> (manager: BronzeConnManager)
        ensures
            manager.spec_db_addr() == addr@,
    {
        BronzeConnManager { db_addr: addr.to_owned() }
    }

    /// The address of the server.
    pub fn db_addr(&self) -> (addr: &str)
        ensures
            addr@ == self.spec_db_addr(),
    {
        self.db_addr.as_str()
    }

    /// Whether a connection still works: it does where the server answers
    /// a ping with `OK`.
    pub fn is_valid<T: Transport>(&self, conn: &mut Connection<T>) -> (result: Result<(), Error>)
        ensures
            final(conn).transport().modelled() == old(conn).transport().modelled(),
            old(conn).transport().modelled() ==> ({
                let before = old(conn).transport();
                let after = final(conn).transport();
                if unfailed(before, after) {
                    &&& exchanged(before, after, RequestView::Ping)
                    &&& failure_code(result) == done_outcome(
                        answer_since(before, after),
                        Action::Ping,
                    )
                } else {
                    result.is_err()
                }
            }),
    {
        conn.ping()
    }

    /// Whether a connection is broken: it is where the one-way probe
    /// cannot be sent.
    pub fn has_broken<T: Transport>(&self, conn: &mut Connection<T>) -> (broken: bool)
        ensures
            final(conn).transport().modelled() == old(conn).transport().modelled(),
            old(conn).transport().modelled() ==> ({
                let before = old(conn).transport();
                let after = final(conn).transport();
                &&& after.received() == before.received()
                &&& broken <==> !unfailed(before, after)
                &&& !broken ==> after.sent() == before.sent() + RequestView::NoResponse.encoding()
            }),
    {
        match conn.no_response() {
            Ok(_) => false,
            Err(_) => true,
        }
    }
}

} // verus!
