//! The server's side of a connection: requests are read one after the
//! other, handed to the engine and answered, until the input ends or a
//! request fails.

use crate::engine::{answers_scan, Engine, Scanner};
use crate::ext::{frame, ByteReader, Parsed, MAX_VALUE_LEN};
use crate::request::{parse_request, Request, RequestView};
use crate::response::{
    advanced, first_unsent, item_status, items_view, stream_encoding, ItemView, Response,
    ResponseView,
};
use crate::status::{Error, StatusCode};
use crate::types::Value;
use vstd::prelude::*;

verus! {

/// How a turn of the connection ended where it did not fail.
#[derive(Debug, Copy, Clone, PartialEq, Eq, Structural)]
pub enum Turn {
    /// A request was read and handled; the next one may be read.
    Handled,
    /// The input ends before the next request does: the client has closed
    /// the connection, or the rest of the request is yet to come.
    EndOfInput,
}

/// The code of the error of a result, where it is one.
pub open spec fn failure_code<T>(result: Result<T, Error>) -> Option<StatusCode> {
    match result {
        Ok(_) => None,
        Err(error) => Some(error.code),
    }
}

/// The code of the failure that stops the writing of a scan's items,
/// where there is one.
pub open spec fn scan_failure(items: Seq<ItemView>) -> Option<StatusCode> {
    if first_unsent(items) < items.len() {
        Some(item_status(items[first_unsent(items)]))
    } else {
        None
    }
}

/// What handling a request does: `before` and `after` are the contents of
/// the engine, `written` are the bytes of the answer, and `failed` is the
/// code of the error in which the handling ended, if it did, which closes
/// the connection. `reliable` says that the engine never fails.
///
/// A failure of the engine is answered by the status `EngineError` before
/// the error is handed on. A request whose action is unknown is answered
/// by `UnknownAction` and fails. `NoResponse` is answered by nothing.
pub open spec fn handles(
    request: RequestView,
    reliable: bool,
    before: Map<Seq<u8>, Seq<u8>>,
    after: Map<Seq<u8>, Seq<u8>>,
    written: Seq<u8>,
    failed: Option<StatusCode>,
) -> bool {
    let engine_failed = !reliable && failed.is_some() && written == seq![
        StatusCode::EngineError.spec_to_u8(),
    ];
    match request {
        RequestView::Get(key) => {
            ||| engine_failed && after == before
            ||| {
                &&& after == before
                &&& before.contains_key(key)
                &&& before[key].len() <= MAX_VALUE_LEN
                &&& written == seq![StatusCode::OK.spec_to_u8()] + frame(before[key])
                &&& failed.is_none()
            }
            ||| {
                &&& after == before
                &&& before.contains_key(key)
                &&& before[key].len() > MAX_VALUE_LEN
                &&& written == Seq::<u8>::empty()
                &&& failed == Some(StatusCode::IOError)
            }
            ||| {
                &&& after == before
                &&& !before.contains_key(key)
                &&& written == seq![StatusCode::NotFound.spec_to_u8()]
                &&& failed.is_none()
            }
        },
        RequestView::Put(key, value) => {
            ||| engine_failed
            ||| {
                &&& after == before.insert(key, value)
                &&& written == seq![StatusCode::OK.spec_to_u8()]
                &&& failed.is_none()
            }
        },
        RequestView::Delete(key) => {
            ||| engine_failed
            ||| {
                &&& after == before.remove(key)
                &&& written == seq![StatusCode::OK.spec_to_u8()]
                &&& failed.is_none()
            }
        },
        RequestView::Scan { lower_bound, upper_bound } => {
            ||| engine_failed && after == before
            ||| exists|items: Seq<ItemView>|
                {
                    &&& after == before
                    &&& #[trigger] answers_scan(items, before, lower_bound, upper_bound)
                    &&& written == seq![StatusCode::OK.spec_to_u8()] + stream_encoding(items)
                    &&& failed == scan_failure(items)
                }
        },
        RequestView::Ping => {
            &&& after == before
            &&& written == seq![StatusCode::OK.spec_to_u8()]
            &&& failed.is_none()
        },
        RequestView::NoResponse => {
            &&& after == before
            &&& written == Seq::<u8>::empty()
            &&& failed.is_none()
        },
        RequestView::Unknown => {
            &&& after == before
            &&& written == seq![StatusCode::UnknownAction.spec_to_u8()]
            &&& failed == Some(StatusCode::UnknownAction)
        },
    }
}

/// A get that follows a put of the same key, with an engine that never
/// fails, is answered by the value that was put, where that value is
/// within the limit of the wire.
pub proof fn lemma_get_after_put(
    key: Seq<u8>,
    value: Seq<u8>,
    before: Map<Seq<u8>, Seq<u8>>,
    between: Map<Seq<u8>, Seq<u8>>,
    after: Map<Seq<u8>, Seq<u8>>,
    first: Seq<u8>,
    second: Seq<u8>,
    first_failed: Option<StatusCode>,
    second_failed: Option<StatusCode>,
)
    requires
        value.len() <= MAX_VALUE_LEN,
        handles(RequestView::Put(key, value), true, before, between, first, first_failed),
        handles(RequestView::Get(key), true, between, after, second, second_failed),
    ensures
        first == seq![StatusCode::OK.spec_to_u8()],
        first_failed.is_none(),
        second == seq![StatusCode::OK.spec_to_u8()] + frame(value),
        second_failed.is_none(),
        after == before.insert(key, value),
{
}

/// A get that follows a delete of the same key, with an engine that
/// never fails, is answered by `NotFound`.
pub proof fn lemma_get_after_delete(
    key: Seq<u8>,
    before: Map<Seq<u8>, Seq<u8>>,
    between: Map<Seq<u8>, Seq<u8>>,
    after: Map<Seq<u8>, Seq<u8>>,
    first: Seq<u8>,
    second: Seq<u8>,
    first_failed: Option<StatusCode>,
    second_failed: Option<StatusCode>,
)
    requires
        handles(RequestView::Delete(key), true, before, between, first, first_failed),
        handles(RequestView::Get(key), true, between, after, second, second_failed),
    ensures
        first == seq![StatusCode::OK.spec_to_u8()],
        first_failed.is_none(),
        second == seq![StatusCode::NotFound.spec_to_u8()],
        second_failed.is_none(),
        after == before.remove(key),
{
}

/// A ping is answered by `OK`, whatever the engine holds and whether or
/// not it may fail, and leaves the engine as it was.
pub proof fn lemma_ping_is_answered_by_ok(
    reliable: bool,
    before: Map<Seq<u8>, Seq<u8>>,
    after: Map<Seq<u8>, Seq<u8>>,
    written: Seq<u8>,
    failed: Option<StatusCode>,
)
    requires
        handles(RequestView::Ping, reliable, before, after, written, failed),
    ensures
        written == seq![StatusCode::OK.spec_to_u8()],
        failed.is_none(),
        after == before,
{
}

/// A request whose action is unknown is answered by `UnknownAction` and
/// closes the connection: nothing that follows it in the input is served.
pub proof fn lemma_unknown_action_closes(
    input: Seq<u8>,
    reliable: bool,
    before: Map<Seq<u8>, Seq<u8>>,
    after: Map<Seq<u8>, Seq<u8>>,
    written: Seq<u8>,
    failed: Option<StatusCode>,
)
    requires
        input.len() > 0,
        crate::request::Action::spec_from_u8(input[0]) == crate::request::Action::Unknown,
        serves(input, reliable, before, after, written, failed),
    ensures
        written == seq![StatusCode::UnknownAction.spec_to_u8()],
        failed == Some(StatusCode::UnknownAction),
        after == before,
{
    assert(parse_request(input) == Parsed::Complete { value: RequestView::Unknown, consumed: 1 });
}

/// Hands on the result of a call of the engine. Where it is an error,
/// the status `EngineError` is written to `output` first, so that the
/// client is told before the connection is closed.
pub fn deal_engine_err<T>(output: &mut Vec<u8>, result: Result<T, Error>) -> (handed: Result<
    T,
    Error,
>)
    ensures
        handed == result,
        result.is_ok() ==> final(output)@ == old(output)@,
        result.is_err() ==> final(output)@ == old(output)@ + seq![
            StatusCode::EngineError.spec_to_u8(),
        ],
{
    match result {
        Ok(value) => Ok(value),
        Err(error) => {
            let _ = Response::Status(StatusCode::EngineError).write_to(output);
            Err(error)
        },
    }
}

/// Answers a get with what the engine found: the value, `NotFound` where
/// there is none, or `EngineError` where the engine failed. A value over
/// the limit of the wire cannot be sent: nothing is written, and the
/// answer fails.
pub fn answer_get(found: Result<Option<Value>, Error>, output: &mut Vec<u8>) -> (result: Result<
    (),
    Error,
>)
    ensures
        match found {
            Err(error) => final(output)@ == old(output)@ + seq![
                StatusCode::EngineError.spec_to_u8(),
            ] && result == Err::<(), Error>(error),
            Ok(Some(value)) => if value@.len() <= MAX_VALUE_LEN {
                final(output)@ == old(output)@ + (seq![StatusCode::OK.spec_to_u8()] + frame(
                    value@,
                )) && result.is_ok()
            } else {
                final(output)@ == old(output)@ && failure_code(result) == Some(
                    StatusCode::IOError,
                )
            },
            Ok(None) => final(output)@ == old(output)@ + seq![StatusCode::NotFound.spec_to_u8()]
                && result.is_ok(),
        },
{
    match deal_engine_err(output, found)? {
        Some(data) => {
            let ghost value = data@;
            let written = Response::SingleValue(data).write_to(output);
            assert(ResponseView::SingleValue(value).encoding() == if value.len() <= MAX_VALUE_LEN {
                seq![StatusCode::OK.spec_to_u8()] + frame(value)
            } else {
                Seq::empty()
            });
            assert(old(output)@ + Seq::<u8>::empty() =~= old(output)@);
            match written {
                Ok(_) => Ok(()),
                Err(error) => Err(error),
            }
        },
        None => {
            let _ = Response::Status(StatusCode::NotFound).write_to(output);
            Ok(())
        },
    }
}

/// Answers a put or a delete with what the engine did: `OK`, or
/// `EngineError` where the engine failed.
pub fn answer_done(done: Result<(), Error>, output: &mut Vec<u8>) -> (result: Result<(), Error>)
    ensures
        result == done,
        final(output)@ == old(output)@ + seq![
            if done.is_ok() {
                StatusCode::OK.spec_to_u8()
            } else {
                StatusCode::EngineError.spec_to_u8()
            },
        ],
{
    deal_engine_err(output, done)?;
    let _ = Response::Status(StatusCode::OK).write_to(output);
    Ok(())
}

/// Answers a scan with the items of the engine's scanner, or with
/// `EngineError` where the engine failed. The items are written up to the
/// first that is a failure or an entry over the limits of the wire: its
/// code ends the stream, and the answer fails with it.
pub fn answer_scan<S: Scanner>(scanned: Result<S, Error>, output: &mut Vec<u8>) -> (result: Result<
    (),
    Error,
>)
    ensures
        match scanned {
            Err(error) => final(output)@ == old(output)@ + seq![
                StatusCode::EngineError.spec_to_u8(),
            ] && result == Err::<(), Error>(error),
            Ok(scanner) => exists|items: Seq<ItemView>|
                {
                    &&& scanner.modelled() ==> items == scanner.pending()
                    &&& final(output)@ == old(output)@ + (seq![StatusCode::OK.spec_to_u8()]
                        + stream_encoding(items))
                    &&& failure_code(result) == #[trigger] scan_failure(items)
                },
        },
{
    let mut scanner = deal_engine_err(output, scanned)?;
    let items = scanner.iter();
    let ghost given = items_view(items@);
    let result = match Response::Scanner(items).write_to(output) {
        Ok(_) => Ok(()),
        Err(error) => Err(error),
    };
    proof {
        lemma_appended(
            old(output)@,
            seq![StatusCode::OK.spec_to_u8()] + stream_encoding(given),
            output@,
        );
        assert(failure_code(result) == scan_failure(given));
    }
    result
}

/// Handles one request: calls the engine and appends the answer to
/// `output`. An error closes the connection.
pub fn dispatch<T: Engine>(request: Request, engine: &mut T, output: &mut Vec<u8>) -> (result:
    Result<(), Error>)
    ensures
        old(output)@.len() <= final(output)@.len(),
        final(output)@.take(old(output)@.len() as int) == old(output)@,
        final(engine).never_fails() == old(engine).never_fails(),
        final(engine).modelled() == old(engine).modelled(),
        old(engine).modelled() ==> handles(
            request@,
            old(engine).never_fails(),
            old(engine).contents(),
            final(engine).contents(),
            final(output)@.skip(old(output)@.len() as int),
            failure_code(result),
        ),
{
    let ghost start = output@;
    let ghost before = engine.contents();
    match request {
        Request::Get(key) => {
            let found = engine.get(key);
            let ghost outcome = found;
            let result = answer_get(found, output);
            proof {
                match outcome {
                    Err(_) => lemma_appended(start, seq![3u8], output@),
                    Ok(Some(value)) => if value@.len() <= MAX_VALUE_LEN {
                        lemma_appended(start, seq![0u8] + frame(value@), output@)
                    } else {
                        lemma_appended(start, Seq::empty(), output@)
                    },
                    Ok(None) => lemma_appended(start, seq![4u8], output@),
                }
            }
            result
        },
        Request::Put(key, value) => {
            let done = engine.set(key, value);
            let result = answer_done(done, output);
            proof {
                lemma_appended(start, seq![if done.is_ok() { 0u8 } else { 3u8 }], output@);
            }
            result
        },
        Request::Delete(key) => {
            let done = engine.delete(key);
            let result = answer_done(done, output);
            proof {
                lemma_appended(start, seq![if done.is_ok() { 0u8 } else { 3u8 }], output@);
            }
            result
        },
        Request::Scan { lower_bound, upper_bound } => {
            let scanned = engine.scan(lower_bound, upper_bound);
            let ghost outcome = scanned;
            let result = answer_scan(scanned, output);
            proof {
                match outcome {
                    Err(_) => lemma_appended(start, seq![3u8], output@),
                    Ok(scanner) => {
                        if old(engine).modelled() {
                            let items = scanner.pending();
                            lemma_appended(start, seq![0u8] + stream_encoding(items), output@);
                            assert(answers_scan(
                                items,
                                before,
                                crate::request::bound_view(lower_bound),
                                crate::request::bound_view(upper_bound),
                            ));
                        } else {
                            assert(start.len() <= output@.len());
                            assert(output@.take(start.len() as int) =~= start);
                        }
                    },
                }
            }
            result
        },
        Request::Ping => {
            let _ = Response::Status(StatusCode::OK).write_to(output);
            proof {
                lemma_appended(start, seq![0u8], output@);
            }
            Ok(())
        },
        Request::NoResponse => {
            proof {
                lemma_appended(start, Seq::empty(), output@);
            }
            Ok(())
        },
        Request::Unknown => {
            let _ = Response::Status(StatusCode::UnknownAction).write_to(output);
            proof {
                lemma_appended(start, seq![2u8], output@);
            }
            Err(Error::new(StatusCode::UnknownAction, "unknown action"))
        },
    }
}

/// What was appended to a sequence is what stands in the result behind
/// the sequence, which stands at the start of the result.
proof fn lemma_appended(start: Seq<u8>, tail: Seq<u8>, whole: Seq<u8>)
    requires
        whole =~= start + tail,
    ensures
        whole.skip(start.len() as int) == tail,
        whole.take(start.len() as int) == start,
        start.len() <= whole.len(),
{
    assert(whole.skip(start.len() as int) =~= tail);
    assert(whole.take(start.len() as int) =~= start);
}

/// One turn of a connection: reads the next request off `reader`, hands
/// it to the engine and appends the answer to `output`.
///
/// Where the input ends before the request does, nothing is done and the
/// turn reports the end of the input. A request with a length over its
/// limit fails, and nothing is answered. Any error closes the connection.
pub fn handle_request<T: Engine>(
    reader: &mut ByteReader,
    engine: &mut T,
    output: &mut Vec<u8>,
) -> (result: Result<Turn, Error>)
    ensures
        old(output)@.len() <= final(output)@.len(),
        final(output)@.take(old(output)@.len() as int) == old(output)@,
        final(engine).never_fails() == old(engine).never_fails(),
        final(engine).modelled() == old(engine).modelled(),
        match parse_request(old(reader).remaining()) {
            Parsed::Truncated => {
                &&& result == Ok::<Turn, Error>(Turn::EndOfInput)
                &&& final(output)@ == old(output)@
                &&& *final(engine) == *old(engine)
                &&& *final(reader) == *old(reader)
            },
            Parsed::TooLong => {
                &&& result.is_err()
                &&& result.unwrap_err().code == StatusCode::IOError
                &&& final(output)@ == old(output)@
                &&& *final(engine) == *old(engine)
            },
            Parsed::Complete { value, consumed } => {
                &&& advanced(*old(reader), *final(reader), consumed)
                &&& result.is_ok() ==> result.unwrap() == Turn::Handled
                &&& old(engine).modelled() ==> handles(
                    value,
                    old(engine).never_fails(),
                    old(engine).contents(),
                    final(engine).contents(),
                    final(output)@.skip(old(output)@.len() as int),
                    failure_code(result),
                )
            },
        },
{
    let start = *reader;
    match Request::read_from(reader) {
        Ok(request) => match dispatch(request, engine, output) {
            Ok(_) => Ok(Turn::Handled),
            Err(error) => Err(error),
        },
        Err(error) => {
            assert(output@.take(output@.len() as int) =~= output@);
            if reader.is_truncated() {
                *reader = start;
                Ok(Turn::EndOfInput)
            } else {
                Err(error)
            }
        },
    }
}

/// What serving an input does: the requests in it are handled one after
/// the other, each from the contents that the one before it left, up to
/// the end of the input or to the first that fails. `before` and `after`
/// are the contents of the engine, `written` are the answers in their
/// order, and `failed` is the code of the error that closed the
/// connection, if one did. An input that ends in the middle of a request
/// is served up to that request, and is no failure.
pub open spec fn serves(
    input: Seq<u8>,
    reliable: bool,
    before: Map<Seq<u8>, Seq<u8>>,
    after: Map<Seq<u8>, Seq<u8>>,
    written: Seq<u8>,
    failed: Option<StatusCode>,
) -> bool
    decreases input.len(),
{
    match parse_request(input) {
        Parsed::Truncated => after == before && written == Seq::<u8>::empty() && failed.is_none(),
        Parsed::TooLong => after == before && written == Seq::<u8>::empty() && failed == Some(
            StatusCode::IOError,
        ),
        Parsed::Complete { value, consumed } => {
            ||| failed.is_some() && handles(value, reliable, before, after, written, failed)
            ||| 0 < consumed <= input.len() && exists|middle: Map<Seq<u8>, Seq<u8>>, cut: int|
                {
                    &&& 0 <= cut <= written.len()
                    &&& #[trigger] handles(
                        value,
                        reliable,
                        before,
                        middle,
                        written.take(cut),
                        None,
                    )
                    &&& serves(
                        input.skip(consumed as int),
                        reliable,
                        middle,
                        after,
                        written.skip(cut),
                        failed,
                    )
                }
        },
    }
}

/// Serving goes on after a request that was handled without failure: what
/// is served of the whole input is the answer to that request followed by
/// what is served of the rest.
proof fn lemma_serves_step(
    input: Seq<u8>,
    reliable: bool,
    before: Map<Seq<u8>, Seq<u8>>,
    middle: Map<Seq<u8>, Seq<u8>>,
    first: Seq<u8>,
    after: Map<Seq<u8>, Seq<u8>>,
    rest: Seq<u8>,
    failed: Option<StatusCode>,
)
    requires
        parse_request(input) is Complete,
        handles(parse_request(input)->value, reliable, before, middle, first, None),
        serves(
            input.skip(parse_request(input)->consumed as int),
            reliable,
            middle,
            after,
            rest,
            failed,
        ),
    ensures
        serves(input, reliable, before, after, first + rest, failed),
{
    crate::request::lemma_request_size(input);
    let written = first + rest;
    let cut = first.len() as int;
    assert(written.take(cut) =~= first);
    assert(written.skip(cut) =~= rest);
}

/// Serves a connection: handles the requests in the input one after the
/// other and appends their answers to `output`, until the input ends or a
/// request fails. The reader is left at the first byte that was not
/// handled, which is the start of a request that is yet to come in full.
pub fn handle_client<T: Engine>(
    reader: &mut ByteReader,
    engine: &mut T,
    output: &mut Vec<u8>,
) -> (result: Result<(), Error>)
    ensures
        old(output)@.len() <= final(output)@.len(),
        final(output)@.take(old(output)@.len() as int) == old(output)@,
        final(engine).never_fails() == old(engine).never_fails(),
        final(engine).modelled() == old(engine).modelled(),
        old(engine).modelled() ==> serves(
            old(reader).remaining(),
            old(engine).never_fails(),
            old(engine).contents(),
            final(engine).contents(),
            final(output)@.skip(old(output)@.len() as int),
            failure_code(result),
        ),
        result.is_ok() ==> {
            &&& old(reader).spec_position() <= final(reader).spec_position()
            &&& final(reader).remaining() == old(reader).remaining().skip(
                final(reader).spec_position() - old(reader).spec_position(),
            )
            &&& parse_request(final(reader).remaining()) is Truncated
        },
{
    let ghost input = reader.remaining();
    let ghost start = reader.spec_position();
    let ghost first = engine.contents();
    let ghost reliable = engine.never_fails();
    let ghost modelled = engine.modelled();
    let ghost begun = output@;
    proof {
        assert(input.skip(0) =~= input);
        assert(output@.skip(begun.len() as int) =~= Seq::<u8>::empty());
        assert(output@.take(begun.len() as int) =~= begun);
        assert forall|after: Map<Seq<u8>, Seq<u8>>, tail: Seq<u8>, failed: Option<StatusCode>|
            #[trigger] serves(input, reliable, first, after, tail, failed) implies serves(
            input,
            reliable,
            first,
            after,
            Seq::<u8>::empty() + tail,
            failed,
        ) by {
            assert(Seq::<u8>::empty() + tail =~= tail);
        }
    }
    loop
        invariant
            engine.never_fails() == reliable,
            engine.modelled() == modelled,
            modelled == old(engine).modelled(),
            reliable == old(engine).never_fails(),
            begun == old(output)@,
            begun.len() <= output@.len(),
            output@.take(begun.len() as int) == begun,
            start == old(reader).spec_position(),
            input == old(reader).remaining(),
            first == old(engine).contents(),
            start <= reader.spec_position() <= start + input.len(),
            reader.remaining() == input.skip(reader.spec_position() - start),
            modelled ==> forall|
                after: Map<Seq<u8>, Seq<u8>>,
                tail: Seq<u8>,
                failed: Option<StatusCode>,
            | #[trigger]
                serves(reader.remaining(), reliable, engine.contents(), after, tail, failed)
                    ==> serves(
                    input,
                    reliable,
                    first,
                    after,
                    output@.skip(begun.len() as int) + tail,
                    failed,
                ),
        decreases reader.remaining().len(),
    {
        let ghost rest = reader.remaining();
        let ghost contents = engine.contents();
        let ghost answered = output@.skip(begun.len() as int);
        let ghost written = output@;
        let ghost position = reader.spec_position();
        proof {
            if parse_request(rest) is Complete {
                crate::request::lemma_request_size(rest);
            }
        }
        let turn = handle_request(reader, engine, output);
        let ghost answer = output@.skip(written.len() as int);
        proof {
            assert(output@.take(begun.len() as int) =~= begun) by {
                assert(output@.take(written.len() as int).take(begun.len() as int)
                    =~= output@.take(begun.len() as int));
            }
            assert(output@.skip(begun.len() as int) =~= answered + answer) by {
                assert(output@ =~= written + answer);
                assert(written =~= begun + answered);
            }
        }
        match turn {
            Ok(Turn::Handled) => {
                proof {
                    let consumed = parse_request(rest)->consumed as int;
                    assert(rest.skip(consumed) =~= input.skip(reader.spec_position() - start));
                    if modelled {
                        assert forall|
                            after: Map<Seq<u8>, Seq<u8>>,
                            tail: Seq<u8>,
                            failed: Option<StatusCode>,
                        | #[trigger]
                            serves(
                                reader.remaining(),
                                reliable,
                                engine.contents(),
                                after,
                                tail,
                                failed,
                            ) implies serves(
                            input,
                            reliable,
                            first,
                            after,
                            output@.skip(begun.len() as int) + tail,
                            failed,
                        ) by {
                            lemma_serves_step(
                                rest,
                                reliable,
                                contents,
                                engine.contents(),
                                answer,
                                after,
                                tail,
                                failed,
                            );
                            assert(serves(
                                input,
                                reliable,
                                first,
                                after,
                                answered + (answer + tail),
                                failed,
                            ));
                            assert(answered + (answer + tail) =~= output@.skip(
                                begun.len() as int,
                            ) + tail);
                        }
                    }
                }
            },
            Ok(Turn::EndOfInput) => {
                proof {
                    if modelled {
                        assert(serves(
                            rest,
                            reliable,
                            contents,
                            contents,
                            Seq::<u8>::empty(),
                            None,
                        ));
                        assert(answered + Seq::<u8>::empty() =~= output@.skip(begun.len() as int));
                    }
                }
                return Ok(());
            },
            Err(error) => {
                proof {
                    if modelled {
                        assert(failure_code(turn) == Some(error.code));
                        if parse_request(rest) is TooLong {
                            assert(answer =~= Seq::<u8>::empty());
                        }
                        assert(serves(
                            rest,
                            reliable,
                            contents,
                            engine.contents(),
                            answer,
                            Some(error.code),
                        ));
                    }
                }
                return Err(error);
            },
        }
    }
}

/// A server: an engine, and the handling of connections to it.
pub struct Server<T: Engine> {
    engine: T,
}

impl<T: Engine> Server<T> {
    /// The engine that the server answers from.
    pub closed spec fn spec_engine(&self) -> T {
        self.engine
    }

    /// A server that answers from `engine`.
    pub fn new(engine: T) -> (server: Server<T>)
        ensures
            server.spec_engine() == engine,
    {
        Server { engine }
    }

    /// The engine that the server answers from.
    pub fn engine(&self) -> (engine: &T)
        ensures
            *engine == self.spec_engine(),
    {
        &self.engine
    }

    /// The engine, given up by the server.
    pub fn into_engine(self) -> (engine: T)
        ensures
            engine == self.spec_engine(),
    {
        self.engine
    }

    /// Serves a connection from this server's engine: handles the requests
    /// in the input and appends their answers to `output`, until the input
    /// ends or a request fails.
    pub fn handle(&mut self, reader: &mut ByteReader, output: &mut Vec<u8>) -> (result: Result<
        (),
        Error,
    >)
        ensures
            old(output)@.len() <= final(output)@.len(),
            final(output)@.take(old(output)@.len() as int) == old(output)@,
            final(self).spec_engine().never_fails() == old(self).spec_engine().never_fails(),
            final(self).spec_engine().modelled() == old(self).spec_engine().modelled(),
            old(self).spec_engine().modelled() ==> serves(
                old(reader).remaining(),
                old(self).spec_engine().never_fails(),
                old(self).spec_engine().contents(),
                final(self).spec_engine().contents(),
                final(output)@.skip(old(output)@.len() as int),
                failure_code(result),
            ),
            result.is_ok() ==> {
                &&& old(reader).spec_position() <= final(reader).spec_position()
                &&& final(reader).remaining() == old(reader).remaining().skip(
                    final(reader).spec_position() - old(reader).spec_position(),
                )
                &&& parse_request(final(reader).remaining()) is Truncated
            },
    {
        handle_client(reader, &mut self.engine, output)
    }
}

} // verus!
