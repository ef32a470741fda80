//! The request handler: from the bytes of a request to the bytes of the
//! answer, by way of an engine.
use crate::contract::message::KvContractMessage;
use crate::contract::message::MessageView;
use crate::contract::message::RESPONSE_ERR;
use crate::contract::message::RESPONSE_NO_CONTENT;
use crate::contract::message::RESPONSE_WITH_CONTENT;
use crate::contract::message::Request;
use crate::contract::message::RequestView;
use crate::engines::engine::KvsEngine;
use crate::engines::engine::Owed;
use crate::engines::command::CommandView;
use crate::engines::engine::cannot_store;
use crate::engines::errors::KvError;
use crate::engines::kvs::KvStore;
use crate::server_common::ServerError;
use vstd::prelude::*;
use vstd::utf8::encode_utf8;

verus! {

/// The answer that carries `content`.
pub open spec fn content_reply(content: Seq<char>) -> MessageView {
    MessageView { operate_type: RESPONSE_WITH_CONTENT, param: seq![("content"@, content)] }
}

/// The answer that carries nothing.
pub open spec fn no_content_reply() -> MessageView {
    MessageView { operate_type: RESPONSE_NO_CONTENT, param: Seq::empty() }
}

/// The answer that reports an error described by `reason`.
pub open spec fn error_reply(reason: Seq<char>) -> MessageView {
    MessageView { operate_type: RESPONSE_ERR, param: seq![("reason"@, reason)] }
}

/// The answer to a request to get a value, given what the engine returned.
pub open spec fn reply_to_get(result: Result<Option<String>, KvError>) -> MessageView {
    match result {
        Ok(Some(value)) => content_reply(value@),
        Ok(None) => no_content_reply(),
        Err(e) => error_reply(e.message_spec()),
    }
}

/// The answer to a request to set or remove, given what the engine returned.
pub open spec fn reply_to_update(result: Result<(), KvError>) -> MessageView {
    match result {
        Ok(_) => no_content_reply(),
        Err(e) => error_reply(e.message_spec()),
    }
}

/// Whether `reply` answers `request`, given the engine before and after:
/// success is answered only where the engine has done what was asked, and
/// every other answer reports an error of the engine. Where the engine owes
/// success, the answer is the success; where it owes a refusal, the answer
/// reports that refusal, and the engine holds what it held.
pub open spec fn answers<E: KvsEngine>(
    before: E,
    after: E,
    request: RequestView,
    reply: MessageView,
) -> bool {
    &&& match request {
        RequestView::Get { key } => {
            &&& after == before
            &&& {
                ||| before.contents().contains_key(key) && reply == content_reply(
                    before.contents()[key],
                )
                ||| !before.contents().contains_key(key) && reply == no_content_reply()
                ||| exists|e: KvError| reply == error_reply(e.message_spec())
            }
        },
        RequestView::Put { key, value } => {
            ||| reply == no_content_reply() && after.contents() == before.contents().insert(
                key,
                value,
            )
            ||| exists|e: KvError| reply == error_reply(e.message_spec())
        },
        RequestView::Remove { key } => {
            ||| reply == no_content_reply() && before.contents().contains_key(key)
                && after.contents() == before.contents().remove(key)
            ||| reply == error_reply((KvError::KeyNotFound).message_spec())
                && !before.contents().contains_key(key) && after.contents() == before.contents()
            ||| exists|e: KvError| !(e is KeyNotFound) && reply == error_reply(e.message_spec())
        },
    }
    &&& match before.owes(request) {
        Some(Owed::Success) => reply.operate_type != RESPONSE_ERR,
        Some(Owed::Refusal { text }) => reply == error_reply(text) && after.contents()
            == before.contents(),
        None => true,
    }
}

/// The answer to a request to get a value, given what the engine returned.
pub fn get_response(result: Result<Option<String>, KvError>) -> (reply: KvContractMessage)
    ensures
        reply@ == reply_to_get(result),
{
    match result {
        Ok(Some(value)) => KvContractMessage::response_content(value),
        Ok(None) => KvContractMessage::response_no_content(),
        Err(e) => KvContractMessage::response_err(e.message()),
    }
}

/// The answer to a request to set or remove, given what the engine returned.
pub fn update_response(result: Result<(), KvError>) -> (reply: KvContractMessage)
    ensures
        reply@ == reply_to_update(result),
{
    match result {
        Ok(_) => KvContractMessage::response_no_content(),
        Err(e) => KvContractMessage::response_err(e.message()),
    }
}

/// A server: an engine behind the wire protocol.
pub struct Server<E> {
    engine: E,
}

impl<E: KvsEngine> Server<E> {
    /// The engine of the server.
    pub closed spec fn engine_spec(&self) -> E {
        self.engine
    }

    /// A server on `engine`.
    pub fn new(engine: E) -> (server: Server<E>)
        ensures
            server.engine_spec() == engine,
    {
        Server { engine }
    }

    /// The engine of the server.
    pub fn engine(&self) -> (engine: &E)
        ensures
            *engine == self.engine_spec(),
    {
        &self.engine
    }

    /// Asks `engine` what `request` asks for and returns the answer.
    pub fn query_db(request: Request, engine: &mut E) -> (reply: KvContractMessage)
        requires
            old(engine).sound(),
        ensures
            final(engine).sound(),
            answers(*old(engine), *final(engine), request@, reply@),
    {
        match request {
            Request::Get { key } => {
                let result = engine.get(key.to_owned());
                get_response(result)
            },
            Request::Put { key, value } => {
                let result = engine.set(key.to_owned(), value.to_owned());
                update_response(result)
            },
            Request::Remove { key } => {
                let result = engine.remove(key.to_owned());
                update_response(result)
            },
        }
    }

    /// Answers the request that `raw` holds: the bytes to send back. Bytes
    /// that hold no request are answered with the error `BadRequest`, and the
    /// engine is left alone.
    pub fn handle_request(raw: &[u8], engine: &mut E) -> (bytes: Vec<u8>)
        requires
            old(engine).sound(),
        ensures
            final(engine).sound(),
            exists|reply: MessageView| #[trigger]
                encode_utf8(reply.text()) == bytes@ && match handled(raw@) {
                    Some(request) => answers(*old(engine), *final(engine), request, reply),
                    None => *final(engine) == *old(engine) && reply == error_reply(
                        (ServerError::BadRequest).message_spec(),
                    ),
                },
    {
        let reply = match KvContractMessage::parse(raw) {
            Ok(message) => match message.to_request() {
                Some(request) => Self::query_db(request, engine),
                None => KvContractMessage::response_err(ServerError::BadRequest.message()),
            },
            Err(_) => KvContractMessage::response_err(ServerError::BadRequest.message()),
        };
        let ghost view = reply@;
        let bytes = reply.into_binary();
        assert(encode_utf8(view.text()) == bytes@);
        bytes
    }

    /// Answers the request that `raw` holds with the server's own engine.
    pub fn serve(&mut self, raw: &[u8]) -> (bytes: Vec<u8>)
        requires
            old(self).engine_spec().sound(),
        ensures
            final(self).engine_spec().sound(),
            exists|reply: MessageView| #[trigger]
                encode_utf8(reply.text()) == bytes@ && match handled(raw@) {
                    Some(request) => answers(
                        old(self).engine_spec(),
                        final(self).engine_spec(),
                        request,
                        reply,
                    ),
                    None => final(self).engine_spec() == old(self).engine_spec() && reply
                        == error_reply((ServerError::BadRequest).message_spec()),
                },
    {
        Self::handle_request(raw, &mut self.engine)
    }
}

/// The request that `raw` holds, if it holds one.
pub open spec fn handled(raw: Seq<u8>) -> Option<RequestView> {
    match MessageView::parse(raw) {
        Some(message) => message.request(),
        None => None,
    }
}

/// The answer of the log-structured store to `request`.
pub open spec fn store_reply(store: KvStore, request: RequestView) -> MessageView {
    match request {
        RequestView::Get { key } => if store.contents().contains_key(key) {
            content_reply(store.contents()[key])
        } else {
            no_content_reply()
        },
        RequestView::Put { key, value } => if (CommandView::Put { key, value }).storable() {
            no_content_reply()
        } else {
            error_reply(cannot_store())
        },
        RequestView::Remove { key } => if !store.contents().contains_key(key) {
            error_reply((KvError::KeyNotFound).message_spec())
        } else if (CommandView::Rm { key }).storable() {
            no_content_reply()
        } else {
            error_reply(cannot_store())
        },
    }
}

/// What the log-structured store holds after `request`.
pub open spec fn store_contents(store: KvStore, request: RequestView) -> Map<Seq<char>, Seq<char>> {
    match request {
        RequestView::Get { .. } => store.contents(),
        RequestView::Put { key, value } => if (CommandView::Put { key, value }).storable() {
            store.contents().insert(key, value)
        } else {
            store.contents()
        },
        RequestView::Remove { key } => if store.contents().contains_key(key) && (CommandView::Rm {
            key,
        }).storable() {
            store.contents().remove(key)
        } else {
            store.contents()
        },
    }
}

/// Behind the server, the log-structured store leaves nothing open: what is
/// answered to a request, and what the store holds afterwards, follow from
/// the request and from what the store held.
pub proof fn law_store_answers(
    before: KvStore,
    after: KvStore,
    request: RequestView,
    reply: MessageView,
)
    requires
        before.wf(),
        answers(before, after, request, reply),
    ensures
        reply == store_reply(before, request),
        after.contents() == store_contents(before, request),
{
}

} // verus!
