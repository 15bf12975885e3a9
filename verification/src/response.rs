//! Responses: the messages that a server sends, and the stream of entries
//! that answers a scan.

use crate::ext::{
    frame, lemma_frame_round_trip, parse_frame, ByteReader, Parsed, ReadKVExt, WriteKVExt,
    MAX_KEY_LEN, MAX_VALUE_LEN,
};
use crate::request::{lemma_pair_round_trip, parse_pair, Action};
use crate::status::{Error, StatusCode};
use crate::types::{Entry, Key, Value};
use vstd::prelude::*;

verus! {

/// One item of a scan as plain values: the bytes of a key and of its
/// value, or the code of the failure that ends the scan.
pub type ItemView = Result<(Seq<u8>, Seq<u8>), StatusCode>;

/// The plain values of one item of a scan.
pub open spec fn item_view(item: Result<Entry, Error>) -> ItemView {
    match item {
        Ok(entry) => Ok((entry.0@, entry.1@)),
        Err(error) => Err(error.code),
    }
}

/// The plain values of the items of a scan.
pub open spec fn items_view(items: Seq<Result<Entry, Error>>) -> Seq<ItemView> {
    items.map_values(|item: Result<Entry, Error>| item_view(item))
}

/// The code that an item puts on the wire in front of it: `OK` before an
/// entry that is within the limits, `IOError` in place of an entry that is
/// not, and its own code for a failure.
pub open spec fn item_status(item: ItemView) -> StatusCode {
    match item {
        Ok((key, value)) => if key.len() <= MAX_KEY_LEN && value.len() <= MAX_VALUE_LEN {
            StatusCode::OK
        } else {
            StatusCode::IOError
        },
        Err(code) => code,
    }
}

/// Whether an item is an entry that goes on the wire.
pub open spec fn item_is_sent(item: ItemView) -> bool {
    item is Ok && item_status(item) == StatusCode::OK
}

/// The stream of a scan on the wire: each entry behind an `OK` byte, up to
/// the first item that is not sent, whose code ends the stream; `Complete`
/// ends a stream in which every item is sent.
pub open spec fn stream_encoding(items: Seq<ItemView>) -> Seq<u8>
    decreases items.len(),
{
    if items.len() == 0 {
        seq![StatusCode::Complete.spec_to_u8()]
    } else if item_is_sent(items[0]) {
        seq![StatusCode::OK.spec_to_u8()] + frame(items[0]->Ok_0.0) + frame(items[0]->Ok_0.1)
            + stream_encoding(items.skip(1))
    } else {
        seq![item_status(items[0]).spec_to_u8()]
    }
}

/// The index of the first item that is not sent, or the number of items
/// where every item is sent.
pub open spec fn first_unsent(items: Seq<ItemView>) -> int
    decreases items.len(),
{
    if items.len() == 0 {
        0
    } else if item_is_sent(items[0]) {
        1 + first_unsent(items.skip(1))
    } else {
        0
    }
}

/// A response as plain values.
pub enum ResponseView {
    Status(StatusCode),
    SingleValue(Seq<u8>),
    Scanner(Seq<ItemView>),
}

impl ResponseView {
    /// The response on the wire. A value over the limit is not sent.
    pub open spec fn encoding(self) -> Seq<u8> {
        match self {
            ResponseView::Status(status) => seq![status.spec_to_u8()],
            ResponseView::SingleValue(value) => if value.len() <= MAX_VALUE_LEN {
                seq![StatusCode::OK.spec_to_u8()] + frame(value)
            } else {
                Seq::empty()
            },
            ResponseView::Scanner(items) => seq![StatusCode::OK.spec_to_u8()] + stream_encoding(
                items,
            ),
        }
    }

    /// The code of the failure that stops the writing of this response,
    /// where there is one.
    pub open spec fn failure(self) -> Option<StatusCode> {
        match self {
            ResponseView::Status(_) => None,
            ResponseView::SingleValue(value) => if value.len() <= MAX_VALUE_LEN {
                None
            } else {
                Some(StatusCode::IOError)
            },
            ResponseView::Scanner(items) => if first_unsent(items) < items.len() {
                Some(item_status(items[first_unsent(items)]))
            } else {
                None
            },
        }
    }
}

/// A response, as a server builds it and a client reads it.
#[derive(Debug)]
pub enum Response {
    /// The outcome of a request that returns no data, or a failure.
    Status(StatusCode),
    /// The value found by a get.
    SingleValue(Value),
    /// The items of a scan, in the order in which they are sent.
    Scanner(Vec<Result<Entry, Error>>),
}

impl View for Response {
    type V = ResponseView;

    open spec fn view(&self) -> ResponseView {
        match *self {
            Response::Status(status) => ResponseView::Status(status),
            Response::SingleValue(value) => ResponseView::SingleValue(value@),
            Response::Scanner(items) => ResponseView::Scanner(items_view(items@)),
        }
    }
}

impl Response {
    /// Appends the response to `writer` as it stands on the wire and
    /// returns the number of bytes written. The items of a scan are written
    /// up to the first that is a failure or an entry over the limits: its
    /// code ends the stream, and the call fails with it. A single value
    /// over the limit is refused and nothing is written.
    pub fn write_to(self, writer: &mut Vec<u8>) -> (result: Result<usize, Error>)
        ensures
            final(writer)@ == old(writer)@ + self@.encoding(),
            match self@.failure() {
                None => result.is_ok() && result.unwrap() == self@.encoding().len(),
                Some(code) => result.is_err() && result.unwrap_err().code == code,
            },
            self matches Response::Scanner(items) ==> result.is_err() ==> {
                let stop = first_unsent(items_view(items@));
                items@[stop] is Err ==> result.unwrap_err() == items@[stop]->Err_0
            },
    {
        let start = writer.len();
        match self {
            Response::Status(status) => {
                writer.push(status.to_u8());
                assert(writer@ =~= old(writer)@ + self@.encoding());
            },
            Response::SingleValue(value) => {
                if value.len() > MAX_VALUE_LEN {
                    assert(writer@ =~= old(writer)@ + self@.encoding());
                    return Err(Error::new(StatusCode::IOError, "value length exceeds the limit"));
                }
                writer.push(StatusCode::OK.to_u8());
                writer.write_value(value.as_slice())?;
                assert(writer@ =~= old(writer)@ + self@.encoding());
            },
            Response::Scanner(items) => {
                let ghost view = items_view(items@);
                writer.push(StatusCode::OK.to_u8());
                let mut i: usize = 0;
                assert(view.skip(0) =~= view);
                while i < items.len()
                    invariant
                        i <= items@.len(),
                        view == items_view(items@),
                        self == Response::Scanner(items),
                        first_unsent(view) == i + first_unsent(view.skip(i as int)),
                        writer@ + stream_encoding(view.skip(i as int)) == old(writer)@
                            + self@.encoding(),
                        writer@.len() >= start,
                        start == old(writer)@.len(),
                    decreases items@.len() - i,
                {
                    let ghost rest = view.skip(i as int);
                    assert(rest[0] == view[i as int]);
                    assert(rest.skip(1) =~= view.skip(i + 1));
                    let ghost before = writer@;
                    match &items[i] {
                        Ok(entry) => {
                            if entry.0.len() > MAX_KEY_LEN || entry.1.len() > MAX_VALUE_LEN {
                                writer.push(StatusCode::IOError.to_u8());
                                assert(writer@ =~= before + stream_encoding(rest));
                                return Err(
                                    Error::new(StatusCode::IOError, "entry exceeds the limits"),
                                );
                            }
                            writer.push(StatusCode::OK.to_u8());
                            writer.write_key(entry.0.as_slice())?;
                            writer.write_value(entry.1.as_slice())?;
                            assert(writer@ + stream_encoding(view.skip(i + 1)) =~= before
                                + stream_encoding(rest));
                        },
                        Err(error) => {
                            writer.push(error.code.to_u8());
                            assert(writer@ =~= before + stream_encoding(rest));
                            assert(!item_is_sent(rest[0]));
                            assert(first_unsent(view) == i);
                            assert(items@[i as int] == Err::<Entry, Error>(*error));
                            return Err(error.clone());
                        },
                    }
                    i += 1;
                }
                let ghost before = writer@;
                writer.push(StatusCode::Complete.to_u8());
                assert(writer@ =~= before + stream_encoding(view.skip(i as int)));
            },
        }
        Ok(writer.len() - start)
    }
}

/// What stands at the start of the stream of a scan.
pub enum Step {
    /// An entry behind an `OK` byte, and the bytes that the two take up.
    Entry { key: Seq<u8>, value: Seq<u8>, consumed: nat },
    /// The `Complete` byte: the clean end of the stream.
    End,
    /// The end of the stream by a failure. `truncated` says that the input
    /// ends before the item does; `clean` says that the failure is a code
    /// that the sender wrote, which takes up one byte.
    Failure { code: StatusCode, truncated: bool, clean: bool },
}

/// Reads one step off the start of `input`.
pub open spec fn parse_step(input: Seq<u8>) -> Step {
    if input.len() == 0 {
        Step::Failure { code: StatusCode::IOError, truncated: true, clean: false }
    } else {
        match StatusCode::spec_from_u8(input[0]) {
            StatusCode::OK => match parse_pair(
                input.skip(1),
                MAX_KEY_LEN as nat,
                MAX_VALUE_LEN as nat,
            ) {
                Parsed::Complete { value, consumed } => Step::Entry {
                    key: value.0,
                    value: value.1,
                    consumed: 1 + consumed,
                },
                Parsed::Truncated => Step::Failure {
                    code: StatusCode::IOError,
                    truncated: true,
                    clean: false,
                },
                Parsed::TooLong => Step::Failure {
                    code: StatusCode::IOError,
                    truncated: false,
                    clean: false,
                },
            },
            StatusCode::Complete => Step::End,
            code => Step::Failure { code, truncated: false, clean: true },
        }
    }
}

/// The stream of a scan as it is read: its items, of which a failure is
/// the last; the bytes that it takes up, where it ends in a byte that the
/// sender wrote (`clean`); and whether the input ends before it does.
pub struct Stream {
    pub items: Seq<ItemView>,
    pub consumed: nat,
    pub clean: bool,
    pub truncated: bool,
}

/// Reads the stream of a scan off the start of `input`: entries up to the
/// `Complete` byte or to the first failure, which is the last item.
pub open spec fn parse_stream(input: Seq<u8>) -> Stream
    decreases input.len(),
{
    match parse_step(input) {
        Step::Entry { key, value, consumed } => {
            if 0 < consumed <= input.len() {
                let rest = parse_stream(input.skip(consumed as int));
                Stream {
                    items: seq![Ok((key, value))] + rest.items,
                    consumed: consumed + rest.consumed,
                    clean: rest.clean,
                    truncated: rest.truncated,
                }
            } else {
                Stream { items: Seq::empty(), consumed: 0, clean: false, truncated: false }
            }
        },
        Step::End => Stream { items: Seq::empty(), consumed: 1, clean: true, truncated: false },
        Step::Failure { code, truncated, clean } => Stream {
            items: seq![Err(code)],
            consumed: 1,
            clean,
            truncated,
        },
    }
}

/// An entry that is read takes up at least five of the bytes that are
/// there.
pub proof fn lemma_entry_size(input: Seq<u8>)
    requires
        parse_step(input) is Entry,
    ensures
        5 <= parse_step(input)->consumed <= input.len(),
        parse_step(input)->consumed == 5 + parse_step(input)->key.len() + parse_step(
            input,
        )->value.len(),
{
}

/// A stream that ends cleanly takes up at least one of the bytes that are
/// there.
pub proof fn lemma_stream_size(input: Seq<u8>)
    requires
        parse_stream(input).clean,
    ensures
        1 <= parse_stream(input).consumed <= input.len(),
        !parse_stream(input).truncated,
    decreases input.len(),
{
    if parse_step(input) is Entry {
        lemma_entry_size(input);
        lemma_stream_size(input.skip(parse_step(input)->consumed as int));
    }
}

/// Reads the items of a scan off a reader, one at a time, and stops for
/// good at the end of the stream or at the first failure.
#[derive(Debug)]
pub struct ReaderIter {
    complete: bool,
    err_occurred: bool,
}

impl ReaderIter {
    /// Whether the `Complete` byte was read.
    pub closed spec fn is_complete(&self) -> bool {
        self.complete
    }

    /// Whether a failure was read.
    pub closed spec fn has_failed(&self) -> bool {
        self.err_occurred
    }

    /// Whether the stream has ended, either way.
    pub open spec fn finished(&self) -> bool {
        self.is_complete() || self.has_failed()
    }

    /// An iterator at the start of a stream.
    pub fn new() -> (iter: ReaderIter)
        ensures
            !iter.is_complete(),
            !iter.has_failed(),
    {
        ReaderIter { complete: false, err_occurred: false }
    }

    /// Reads the next item off `reader`, unless the stream has ended. The
    /// `Complete` byte ends the stream with no item; a failure is an item,
    /// the last one.
    pub fn next(&mut self, reader: &mut ByteReader) -> (item: Option<Result<Entry, Error>>)
        ensures
            old(self).finished() ==> item.is_none() && *final(self) == *old(self) && *final(reader)
                == *old(reader),
            !old(self).finished() ==> match parse_step(old(reader).remaining()) {
                Step::Entry { key, value, consumed } => {
                    &&& item == Some(Ok::<Entry, Error>(item.unwrap().unwrap()))
                    &&& item_view(item.unwrap()) == Ok::<(Seq<u8>, Seq<u8>), StatusCode>(
                        (key, value),
                    )
                    &&& !final(self).finished()
                    &&& advanced(*old(reader), *final(reader), consumed)
                },
                Step::End => {
                    &&& item.is_none()
                    &&& final(self).finished()
                    &&& advanced(*old(reader), *final(reader), 1)
                },
                Step::Failure { code, truncated, clean } => {
                    &&& item.is_some()
                    &&& item_view(item.unwrap()) == Err::<(Seq<u8>, Seq<u8>), StatusCode>(code)
                    &&& final(self).finished()
                    &&& clean ==> advanced(*old(reader), *final(reader), 1)
                    &&& final(reader).spec_is_truncated() == truncated
                },
            },
    {
        if self.complete || self.err_occurred {
            return None;
        }
        match self.read_entry(reader) {
            Ok(entry) => Some(Ok(entry)),
            Err(error) => {
                if self.complete {
                    None
                } else {
                    Some(Err(error))
                }
            },
        }
    }

    /// Reads one step off `reader`: an entry, or the end of the stream as
    /// an error, which is `Complete` at the clean end.
    pub fn read_entry(&mut self, reader: &mut ByteReader) -> (result: Result<Entry, Error>)
        requires
            !old(self).finished(),
        ensures
            match parse_step(old(reader).remaining()) {
                Step::Entry { key, value, consumed } => {
                    &&& result.is_ok()
                    &&& result.unwrap().0@ == key
                    &&& result.unwrap().1@ == value
                    &&& !final(self).finished()
                    &&& advanced(*old(reader), *final(reader), consumed)
                },
                Step::End => {
                    &&& result.is_err()
                    &&& result.unwrap_err().code == StatusCode::Complete
                    &&& final(self).is_complete()
                    &&& advanced(*old(reader), *final(reader), 1)
                },
                Step::Failure { code, truncated, clean } => {
                    &&& result.is_err()
                    &&& result.unwrap_err().code == code
                    &&& final(self).has_failed()
                    &&& !final(self).is_complete()
                    &&& clean ==> advanced(*old(reader), *final(reader), 1)
                    &&& final(reader).spec_is_truncated() == truncated
                },
            },
    {
        let ghost input = reader.remaining();
        let byte = match reader.read_u8() {
            Ok(byte) => byte,
            Err(error) => {
                self.err_occurred = true;
                return Err(error);
            },
        };
        match StatusCode::from(byte) {
            StatusCode::OK => {
                let key = match reader.read_key() {
                    Ok(key) => key,
                    Err(error) => {
                        self.err_occurred = true;
                        return Err(error);
                    },
                };
                let value = match reader.read_value() {
                    Ok(value) => value,
                    Err(error) => {
                        self.err_occurred = true;
                        return Err(error);
                    },
                };
                assert(reader.remaining() =~= input.skip(
                    1 + 2 + key@.len() as int + 2 + value@.len() as int,
                ));
                Ok((Key::new(key), value))
            },
            StatusCode::Complete => {
                self.complete = true;
                Err(Error::new(StatusCode::Complete, "complete"))
            },
            code => {
                self.err_occurred = true;
                Err(Error::new(code, "some error"))
            },
        }
    }
}

/// A reader has read `consumed` bytes and nothing else has changed.
pub open spec fn advanced(before: ByteReader, after: ByteReader, consumed: nat) -> bool {
    &&& after.remaining() == before.remaining().skip(consumed as int)
    &&& after.spec_position() == before.spec_position() + consumed
    &&& !after.spec_is_truncated()
}

/// What stands at the start of an input that should hold the response to
/// a request.
pub enum ParsedResponse {
    /// The input ends before the response does.
    Truncated,
    /// The length of the value is over its limit.
    TooLong,
    /// The response says `OK` to a request whose action is `Unknown`.
    UnknownAction,
    /// The response; the bytes that it takes up, where it ends in a byte
    /// that the sender wrote (`clean`); and whether the input ends before
    /// the stream of a scan does.
    Complete { value: ResponseView, consumed: nat, clean: bool, truncated: bool },
}

/// Reads the response to a request with the given action off the start of
/// `input`. A status other than `OK` is the whole response. After `OK`, a
/// get is answered by a value, a scan by a stream of items, and a put, a
/// delete or a ping by nothing more.
pub open spec fn parse_response(input: Seq<u8>, action: Action) -> ParsedResponse {
    if input.len() == 0 {
        ParsedResponse::Truncated
    } else if StatusCode::spec_from_u8(input[0]) != StatusCode::OK {
        ParsedResponse::Complete {
            value: ResponseView::Status(StatusCode::spec_from_u8(input[0])),
            consumed: 1,
            clean: true,
            truncated: false,
        }
    } else {
        match action {
            Action::Get => match parse_frame(input.skip(1), MAX_VALUE_LEN as nat) {
                Parsed::Complete { value, consumed } => ParsedResponse::Complete {
                    value: ResponseView::SingleValue(value),
                    consumed: 1 + consumed,
                    clean: true,
                    truncated: false,
                },
                Parsed::Truncated => ParsedResponse::Truncated,
                Parsed::TooLong => ParsedResponse::TooLong,
            },
            Action::Scan => ParsedResponse::Complete {
                value: ResponseView::Scanner(parse_stream(input.skip(1)).items),
                consumed: 1 + parse_stream(input.skip(1)).consumed,
                clean: parse_stream(input.skip(1)).clean,
                truncated: parse_stream(input.skip(1)).truncated,
            },
            Action::Unknown => ParsedResponse::UnknownAction,
            _ => ParsedResponse::Complete {
                value: ResponseView::Status(StatusCode::OK),
                consumed: 1,
                clean: true,
                truncated: false,
            },
        }
    }
}

impl Response {
    /// Reads the response to a request with the given action off `reader`.
    /// The stream of a scan is read to its end: a failure in it, or an
    /// input that ends before it does, is its last item. No response is
    /// read for `NoResponse`.
    pub fn read_from(reader: &mut ByteReader, request_action: Action) -> (result: Result<
        Response,
        Error,
    >)
        requires
            request_action != Action::NoResponse,
        ensures
            match parse_response(old(reader).remaining(), request_action) {
                ParsedResponse::Truncated => {
                    &&& result.is_err()
                    &&& result.unwrap_err().code == StatusCode::IOError
                    &&& final(reader).spec_is_truncated()
                },
                ParsedResponse::TooLong => {
                    &&& result.is_err()
                    &&& result.unwrap_err().code == StatusCode::IOError
                    &&& !final(reader).spec_is_truncated()
                },
                ParsedResponse::UnknownAction => {
                    &&& result.is_err()
                    &&& result.unwrap_err().code == StatusCode::UnknownAction
                    &&& advanced(*old(reader), *final(reader), 1)
                },
                ParsedResponse::Complete { value, consumed, clean, truncated } => {
                    &&& result.is_ok()
                    &&& result.unwrap()@ == value
                    &&& clean ==> advanced(*old(reader), *final(reader), consumed)
                    &&& final(reader).spec_is_truncated() == truncated
                },
            },
    {
        let ghost input = reader.remaining();
        match StatusCode::from(reader.read_u8()?) {
            StatusCode::OK => match request_action {
                Action::Get => {
                    let value = reader.read_value()?;
                    assert(reader.remaining() =~= input.skip(1 + 2 + value@.len() as int));
                    Ok(Response::SingleValue(value))
                },
                Action::Delete | Action::Put | Action::Ping => Ok(Response::Status(StatusCode::OK)),
                Action::Scan => {
                    let items = read_stream(reader);
                    proof {
                        let stream = parse_stream(input.skip(1));
                        if stream.clean {
                            lemma_stream_size(input.skip(1));
                            assert(reader.remaining() =~= input.skip(1 + stream.consumed as int));
                        }
                    }
                    Ok(Response::Scanner(items))
                },
                Action::Unknown => Err(
                    Error::new(StatusCode::UnknownAction, "unknown action: Unknown"),
                ),
                Action::NoResponse => unreached(),
            },
            code => Ok(Response::Status(code)),
        }
    }
}

/// Reads the stream of a scan off `reader` to its end.
pub fn read_stream(reader: &mut ByteReader) -> (items: Vec<Result<Entry, Error>>)
    ensures
        items_view(items@) == parse_stream(old(reader).remaining()).items,
        parse_stream(old(reader).remaining()).clean ==> advanced(
            *old(reader),
            *final(reader),
            parse_stream(old(reader).remaining()).consumed,
        ),
        final(reader).spec_is_truncated() == parse_stream(old(reader).remaining()).truncated,
{
    let ghost input = reader.remaining();
    let ghost whole = parse_stream(input);
    let ghost start = reader.spec_position();
    let mut iter = ReaderIter::new();
    let mut items: Vec<Result<Entry, Error>> = Vec::new();
    proof {
        if whole.clean {
            lemma_stream_size(input);
        }
    }
    assert(input.skip(0) =~= input);
    assert(items_view(items@) =~= Seq::<ItemView>::empty());
    assert(Seq::<ItemView>::empty() + whole.items =~= whole.items);
    loop
        invariant_except_break
            !iter.finished(),
            whole == parse_stream(input),
            start <= reader.spec_position() <= start + input.len(),
            reader.remaining() == input.skip(reader.spec_position() - start),
            whole.items == items_view(items@) + parse_stream(reader.remaining()).items,
            whole.consumed == reader.spec_position() - start + parse_stream(
                reader.remaining(),
            ).consumed,
            whole.clean == parse_stream(reader.remaining()).clean,
            whole.truncated == parse_stream(reader.remaining()).truncated,
        ensures
            items_view(items@) == whole.items,
            whole.clean ==> reader.remaining() == input.skip(whole.consumed as int)
                && reader.spec_position() == start + whole.consumed,
            reader.spec_is_truncated() == whole.truncated,
        decreases reader.remaining().len(),
    {
        let ghost before = reader.remaining();
        let ghost collected = items_view(items@);
        proof {
            if parse_step(before) is Entry {
                lemma_entry_size(before);
            }
        }
        match iter.next(reader) {
            Some(item) => {
                items.push(item);
                assert(items_view(items@) =~= collected.push(item_view(item)));
                if iter.complete || iter.err_occurred {
                    assert(whole.items =~= items_view(items@));
                    assert(whole.clean ==> before.skip(1) =~= input.skip(whole.consumed as int));
                    break ;
                }
                proof {
                    let consumed = parse_step(before)->consumed as int;
                    assert(before.skip(consumed) =~= input.skip(
                        reader.spec_position() - start,
                    ));
                    assert(whole.items =~= items_view(items@) + parse_stream(
                        reader.remaining(),
                    ).items);
                }
            },
            None => {
                assert(whole.items =~= items_view(items@));
                assert(before.skip(1) =~= input.skip(whole.consumed as int));
                break ;
            },
        }
    }
    items
}

/// Round trip of a status: it is read back from its encoding, whatever
/// follows it, where it is not `OK` or the request was a put, a delete or
/// a ping.
pub proof fn lemma_status_round_trip(status: StatusCode, action: Action, rest: Seq<u8>)
    requires
        status != StatusCode::OK || action == Action::Put || action == Action::Delete || action
            == Action::Ping,
    ensures
        parse_response(ResponseView::Status(status).encoding() + rest, action) == (
        ParsedResponse::Complete {
            value: ResponseView::Status(status),
            consumed: 1,
            clean: true,
            truncated: false,
        }),
        ResponseView::Status(status).encoding().len() == 1,
        ResponseView::Status(status).failure().is_none(),
{
    let input = ResponseView::Status(status).encoding() + rest;
    assert(input[0] == status.spec_to_u8());
}

/// Round trip of a value: the answer to a get is read back from its
/// encoding, whatever follows it, where the value is within the limit.
pub proof fn lemma_single_value_round_trip(value: Seq<u8>, rest: Seq<u8>)
    requires
        value.len() <= MAX_VALUE_LEN,
    ensures
        parse_response(ResponseView::SingleValue(value).encoding() + rest, Action::Get) == (
        ParsedResponse::Complete {
            value: ResponseView::SingleValue(value),
            consumed: 3 + value.len(),
            clean: true,
            truncated: false,
        }),
        ResponseView::SingleValue(value).encoding().len() == 3 + value.len(),
        ResponseView::SingleValue(value).failure().is_none(),
{
    let input = ResponseView::SingleValue(value).encoding() + rest;
    assert(input[0] == 0);
    assert(input.skip(1) =~= frame(value) + rest);
    lemma_frame_round_trip(value, rest, MAX_VALUE_LEN as nat);
}

/// What a reader makes of the stream that was written for `items`: the
/// entries before the first item that is not sent, and then the code of
/// that item as a failure.
pub open spec fn items_as_read(items: Seq<ItemView>) -> Seq<ItemView> {
    let stop = first_unsent(items);
    if stop < items.len() {
        items.take(stop).push(Err(item_status(items[stop])))
    } else {
        items
    }
}

/// An entry within the limits, written behind an `OK` byte, is read back
/// as one step, whatever follows it.
pub proof fn lemma_entry_round_trip(key: Seq<u8>, value: Seq<u8>, after: Seq<u8>)
    requires
        key.len() <= MAX_KEY_LEN,
        value.len() <= MAX_VALUE_LEN,
    ensures
        parse_step(seq![0u8] + frame(key) + frame(value) + after) == (Step::Entry {
            key,
            value,
            consumed: 5 + key.len() + value.len(),
        }),
        (seq![0u8] + frame(key) + frame(value) + after).skip(
            5 + key.len() as int + value.len() as int,
        ) == after,
        (seq![0u8] + frame(key) + frame(value)).len() == 5 + key.len() + value.len(),
{
    let input = seq![0u8] + frame(key) + frame(value) + after;
    assert(input[0] == 0);
    assert(input.skip(1) =~= frame(key) + frame(value) + after);
    lemma_pair_round_trip(key, value, after, MAX_KEY_LEN as nat, MAX_VALUE_LEN as nat);
    lemma_frame_round_trip(key, after, MAX_KEY_LEN as nat);
    lemma_frame_round_trip(value, after, MAX_VALUE_LEN as nat);
    assert(input.skip(5 + key.len() as int + value.len() as int) =~= after);
}

/// What is read of a stream that starts with an entry that is sent: that
/// entry, then what is read of the rest.
proof fn lemma_items_as_read_step(items: Seq<ItemView>)
    requires
        items.len() > 0,
        item_is_sent(items[0]),
    ensures
        0 <= first_unsent(items.skip(1)) <= items.skip(1).len(),
        first_unsent(items) == 1 + first_unsent(items.skip(1)),
        first_unsent(items) < items.len() ==> items[first_unsent(items)] == items.skip(
            1,
        )[first_unsent(items.skip(1))],
        items_as_read(items) == seq![items[0]] + items_as_read(items.skip(1)),
{
    let tail = items.skip(1);
    lemma_first_unsent_bound(tail);
    let stop = first_unsent(tail);
    if stop < tail.len() {
        assert(items.take(stop + 1) =~= seq![items[0]] + tail.take(stop));
        assert(items_as_read(items) =~= seq![items[0]] + items_as_read(tail));
    } else {
        assert(items =~= seq![items[0]] + tail);
    }
}

/// The first item that is not sent lies within the items or at their end.
pub proof fn lemma_first_unsent_bound(items: Seq<ItemView>)
    ensures
        0 <= first_unsent(items) <= items.len(),
    decreases items.len(),
{
    if items.len() > 0 && item_is_sent(items[0]) {
        lemma_first_unsent_bound(items.skip(1));
    }
}

/// A code other than `OK` and `Complete` that stands in a stream is read
/// as a failure, which ends the stream.
proof fn lemma_failure_round_trip(code: StatusCode, rest: Seq<u8>)
    requires
        code != StatusCode::OK,
        code != StatusCode::Complete,
    ensures
        parse_stream(seq![code.spec_to_u8()] + rest) == (Stream {
            items: seq![Err::<(Seq<u8>, Seq<u8>), StatusCode>(code)],
            consumed: 1,
            clean: true,
            truncated: false,
        }),
{
    let input = seq![code.spec_to_u8()] + rest;
    assert(input[0] == code.spec_to_u8());
    crate::status::lemma_status_byte_round_trip(code);
    assert(parse_step(input) == Step::Failure { code, truncated: false, clean: true });
}

/// The `Complete` byte is read as the clean end of a stream.
proof fn lemma_end_round_trip(rest: Seq<u8>)
    ensures
        parse_stream(seq![5u8] + rest) == (Stream {
            items: Seq::<ItemView>::empty(),
            consumed: 1,
            clean: true,
            truncated: false,
        }),
{
    let input = seq![5u8] + rest;
    assert(input[0] == 5);
    assert(parse_step(input) == Step::End);
}

/// What is read of an entry that is followed by a stream: the entry, and
/// then what is read of that stream.
proof fn lemma_entry_then_stream(key: Seq<u8>, value: Seq<u8>, after: Seq<u8>)
    requires
        key.len() <= MAX_KEY_LEN,
        value.len() <= MAX_VALUE_LEN,
    ensures
        parse_stream(seq![0u8] + frame(key) + frame(value) + after) == (Stream {
            items: seq![Ok::<(Seq<u8>, Seq<u8>), StatusCode>((key, value))] + parse_stream(
                after,
            ).items,
            consumed: 5 + key.len() + value.len() + parse_stream(after).consumed,
            clean: parse_stream(after).clean,
            truncated: parse_stream(after).truncated,
        }),
{
    let input = seq![0u8] + frame(key) + frame(value) + after;
    lemma_entry_round_trip(key, value, after);
    assert(input.len() >= 5 + key.len() + value.len());
}

/// Round trip of a scan: the stream written for `items` is read back as
/// the entries up to the first item that is not sent, followed by that
/// item's code, whatever follows the stream. The code of a failure among
/// the items must be neither `OK` nor `Complete`, which on the wire mean
/// an entry and the clean end.
pub proof fn lemma_stream_round_trip(items: Seq<ItemView>, rest: Seq<u8>)
    requires
        first_unsent(items) < items.len() ==> item_status(items[first_unsent(items)])
            != StatusCode::OK && item_status(items[first_unsent(items)]) != StatusCode::Complete,
    ensures
        parse_stream(stream_encoding(items) + rest) == (Stream {
            items: items_as_read(items),
            consumed: stream_encoding(items).len(),
            clean: true,
            truncated: false,
        }),
    decreases items.len(),
{
    if items.len() == 0 {
        assert(stream_encoding(items) =~= seq![5u8]);
        lemma_end_round_trip(rest);
        assert(items_as_read(items) =~= Seq::<ItemView>::empty());
    } else if item_is_sent(items[0]) {
        let key = items[0]->Ok_0.0;
        let value = items[0]->Ok_0.1;
        let tail = items.skip(1);
        let after = stream_encoding(tail) + rest;
        assert(stream_encoding(items) + rest =~= seq![0u8] + frame(key) + frame(value) + after);
        assert(stream_encoding(items).len() == 5 + key.len() + value.len() + stream_encoding(
            tail,
        ).len()) by {
            lemma_entry_round_trip(key, value, after);
            assert(stream_encoding(items) =~= seq![0u8] + frame(key) + frame(value)
                + stream_encoding(tail));
        }
        lemma_items_as_read_step(items);
        lemma_stream_round_trip(tail, rest);
        lemma_entry_then_stream(key, value, after);
        assert(items[0] == Ok::<(Seq<u8>, Seq<u8>), StatusCode>((key, value)));
    } else {
        let code = item_status(items[0]);
        assert(first_unsent(items) == 0);
        assert(stream_encoding(items) =~= seq![code.spec_to_u8()]);
        lemma_failure_round_trip(code, rest);
        assert(items.take(0) =~= Seq::<ItemView>::empty());
        assert(items_as_read(items) =~= seq![Err::<(Seq<u8>, Seq<u8>), StatusCode>(code)]);
    }
}

/// What is read of a step that is all there does not depend on what
/// follows it.
pub proof fn lemma_step_ignores_rest(input: Seq<u8>, rest: Seq<u8>)
    requires
        !(parse_step(input) matches Step::Failure { truncated: true, .. }),
    ensures
        parse_step(input + rest) == parse_step(input),
{
    let longer = input + rest;
    assert(longer[0] == input[0]);
    assert(longer.skip(1) =~= input.skip(1) + rest);
    if StatusCode::spec_from_u8(input[0]) == StatusCode::OK {
        crate::request::lemma_pair_ignores_rest(
            input.skip(1),
            rest,
            MAX_KEY_LEN as nat,
            MAX_VALUE_LEN as nat,
        );
    }
}

/// Whether `bytes` are entries of a stream, each behind its `OK` byte and
/// all there, and nothing else.
pub open spec fn entries_only(bytes: Seq<u8>) -> bool
    decreases bytes.len(),
{
    bytes.len() == 0 || (parse_step(bytes) matches Step::Entry { key, value, consumed } && 0
        < consumed <= bytes.len() && entries_only(bytes.skip(consumed as int)))
}

/// Entries that are followed by more of a stream are read first, and
/// then what follows them.
pub proof fn lemma_entries_then(bytes: Seq<u8>, rest: Seq<u8>)
    requires
        entries_only(bytes),
    ensures
        parse_stream(bytes + rest).consumed == bytes.len() + parse_stream(rest).consumed,
        parse_stream(bytes + rest).clean == parse_stream(rest).clean,
        parse_stream(bytes + rest).truncated == parse_stream(rest).truncated,
    decreases bytes.len(),
{
    if bytes.len() == 0 {
        assert(bytes + rest =~= rest);
    } else {
        let consumed = parse_step(bytes)->consumed as int;
        lemma_step_ignores_rest(bytes, rest);
        assert((bytes + rest).skip(consumed) =~= bytes.skip(consumed) + rest);
        lemma_entries_then(bytes.skip(consumed), rest);
    }
}

/// Entries with one more entry behind them are entries still.
pub proof fn lemma_entries_push(bytes: Seq<u8>, entry: Seq<u8>)
    requires
        entries_only(bytes),
        parse_step(entry) is Entry,
        parse_step(entry)->consumed == entry.len(),
    ensures
        entries_only(bytes + entry),
    decreases bytes.len(),
{
    if bytes.len() == 0 {
        assert(bytes + entry =~= entry);
        assert(entry.skip(entry.len() as int) =~= Seq::<u8>::empty());
        assert(entries_only(entry.skip(entry.len() as int)));
    } else {
        let consumed = parse_step(bytes)->consumed as int;
        lemma_step_ignores_rest(bytes, entry);
        assert((bytes + entry).skip(consumed) =~= bytes.skip(consumed) + entry);
        lemma_entries_push(bytes.skip(consumed), entry);
    }
}

/// Whether `bytes` are one answer to a request with the given action and
/// no more: they do not end before the answer does, and where the answer
/// ends in a byte that the sender wrote, it takes up all of them.
pub open spec fn whole_answer(bytes: Seq<u8>, action: Action) -> bool {
    match parse_response(bytes, action) {
        ParsedResponse::Complete { value, consumed, clean, truncated } => clean ==> consumed
            == bytes.len(),
        ParsedResponse::Truncated => false,
        _ => true,
    }
}

} // verus!
