//! Messages and their two readings, as a request and as a response.
use crate::contract::errors::Error;
use crate::json::find;
use crate::json::json_object_members;
use crate::json::json_string_text;
use crate::json::json_string_value;
use crate::json::json_u8_value;
use crate::json::lemma_lookup_single;
use crate::json::lookup;
use crate::json::pairs_view;
use crate::json::parse_members;
use crate::json::parse_string;
use crate::json::parse_u8;
use crate::json::quote;
use vstd::prelude::*;
use vstd::string::StringExecFns;
use vstd::utf8::encode_utf8;

verus! {

/// The operation number of a request to get a value.
pub const GET: u8 = 0;

/// The operation number of a request to set a value.
pub const PUT: u8 = 1;

/// The operation number of a request to remove a key.
pub const REMOVE: u8 = 2;

/// The operation number of a response that carries a value.
pub const RESPONSE_WITH_CONTENT: u8 = 253;

/// The operation number of a response that carries nothing.
pub const RESPONSE_NO_CONTENT: u8 = 254;

/// The operation number of a response that reports an error.
pub const RESPONSE_ERR: u8 = 255;

/// A message: an operation number and named string parameters.
#[derive(Debug, Clone, PartialEq, Eq)]
pub struct KvContractMessage {
    /// What the message asks for or answers.
    pub operate_type: u8,
    /// The parameters, each a name with its value.
    pub param: Vec<(String, String)>,
}

/// A message read as a request.
#[derive(Debug, PartialEq, Eq)]
pub enum Request<'a> {
    /// Get the value of `key`.
    Get { key: &'a str },
    /// Set `key` to `value`.
    Put { key: &'a str, value: &'a str },
    /// Remove `key`.
    Remove { key: &'a str },
}

/// A message read as a response.
#[derive(Debug, PartialEq, Eq)]
pub enum Response<'a> {
    /// The operation succeeded and there is nothing to say.
    NoContent,
    /// The operation succeeded with `content`.
    Content { content: &'a str },
    /// The operation failed because of `reason`.
    Error { reason: &'a str },
}

/// A message as plain mathematical values.
pub struct MessageView {
    pub operate_type: u8,
    pub param: Seq<(Seq<char>, Seq<char>)>,
}

/// A request as plain mathematical values.
pub enum RequestView {
    Get { key: Seq<char> },
    Put { key: Seq<char>, value: Seq<char> },
    Remove { key: Seq<char> },
}

/// A response as plain mathematical values.
pub enum ResponseView {
    NoContent,
    Content { content: Seq<char> },
    Error { reason: Seq<char> },
}

impl View for KvContractMessage {
    type V = MessageView;

    open spec fn view(&self) -> MessageView {
        MessageView {
            operate_type: self.operate_type,
            param: pairs_view(self.param@),
        }
    }
}

impl<'a> View for Request<'a> {
    type V = RequestView;

    open spec fn view(&self) -> RequestView {
        match *self {
            Request::Get { key } => RequestView::Get { key: key@ },
            Request::Put { key, value } => RequestView::Put { key: key@, value: value@ },
            Request::Remove { key } => RequestView::Remove { key: key@ },
        }
    }
}

impl<'a> View for Response<'a> {
    type V = ResponseView;

    open spec fn view(&self) -> ResponseView {
        match *self {
            Response::NoContent => ResponseView::NoContent,
            Response::Content { content } => ResponseView::Content { content: content@ },
            Response::Error { reason } => ResponseView::Error { reason: reason@ },
        }
    }
}

impl MessageView {
    /// The request that the message stands for, if it is one: the operation
    /// number names the request, and the parameters it needs must be there.
    pub open spec fn request(self) -> Option<RequestView> {
        if self.operate_type == PUT {
            match (lookup(self.param, "key"@), lookup(self.param, "value"@)) {
                (Some(key), Some(value)) => Some(RequestView::Put { key, value }),
                _ => None,
            }
        } else if self.operate_type == GET {
            match lookup(self.param, "key"@) {
                Some(key) => Some(RequestView::Get { key }),
                None => None,
            }
        } else if self.operate_type == REMOVE {
            match lookup(self.param, "key"@) {
                Some(key) => Some(RequestView::Remove { key }),
                None => None,
            }
        } else {
            None
        }
    }

    /// The response that the message stands for, if it is one.
    pub open spec fn response(self) -> Option<ResponseView> {
        if self.operate_type == RESPONSE_NO_CONTENT {
            Some(ResponseView::NoContent)
        } else if self.operate_type == RESPONSE_WITH_CONTENT {
            match lookup(self.param, "content"@) {
                Some(content) => Some(ResponseView::Content { content }),
                None => None,
            }
        } else if self.operate_type == RESPONSE_ERR {
            match lookup(self.param, "reason"@) {
                Some(reason) => Some(ResponseView::Error { reason }),
                None => None,
            }
        } else {
            None
        }
    }
}

/// The text of one decimal digit.
pub open spec fn digit_text(digit: u8) -> Seq<char> {
    if digit == 0 {
        "0"@
    } else if digit == 1 {
        "1"@
    } else if digit == 2 {
        "2"@
    } else if digit == 3 {
        "3"@
    } else if digit == 4 {
        "4"@
    } else if digit == 5 {
        "5"@
    } else if digit == 6 {
        "6"@
    } else if digit == 7 {
        "7"@
    } else if digit == 8 {
        "8"@
    } else {
        "9"@
    }
}

/// The decimal text of `n`, without leading zeros.
pub open spec fn decimal_text(n: u8) -> Seq<char> {
    if n < 10 {
        digit_text(n)
    } else if n < 100 {
        digit_text(n / 10) + digit_text(n % 10)
    } else {
        digit_text(n / 100) + digit_text((n / 10) % 10) + digit_text(n % 10)
    }
}

/// The text of the parameters as the members of a JSON object: each name and
/// value as a JSON string with a colon between them, and commas between the
/// members.
pub open spec fn params_text(param: Seq<(Seq<char>, Seq<char>)>) -> Seq<char>
    decreases param.len(),
{
    if param.len() == 0 {
        Seq::empty()
    } else {
        let member = json_string_text(param.last().0) + ":"@ + json_string_text(param.last().1);
        if param.len() == 1 {
            member
        } else {
            params_text(param.drop_last()) + ","@ + member
        }
    }
}

/// The values of the members `entries` read as JSON strings, if each of them
/// is one.
pub open spec fn string_members(entries: Seq<(Seq<char>, Seq<char>)>) -> Option<
    Seq<(Seq<char>, Seq<char>)>,
>
    decreases entries.len(),
{
    if entries.len() == 0 {
        Some(Seq::empty())
    } else {
        match (
            string_members(entries.drop_last()),
            json_string_value(encode_utf8(entries.last().1)),
        ) {
            (Some(front), Some(value)) => Some(front.push((entries.last().0, value))),
            _ => None,
        }
    }
}

impl MessageView {
    /// The JSON text of the message.
    pub open spec fn text(self) -> Seq<char> {
        "{\"operate_type\":"@ + decimal_text(self.operate_type) + ",\"param\":{"@ + params_text(
            self.param,
        ) + "}}"@
    }

    /// The message that `raw` holds, if it holds one: a JSON object with a
    /// member `operate_type` that is a number below 256 and a member `param`
    /// that is an object of strings.
    pub open spec fn parse(raw: Seq<u8>) -> Option<MessageView> {
        match json_object_members(raw) {
            Some(members) => match (lookup(members, "operate_type"@), lookup(members, "param"@)) {
                (Some(number), Some(object)) => match (
                    json_u8_value(encode_utf8(number)),
                    json_object_members(encode_utf8(object)),
                ) {
                    (Some(operate_type), Some(entries)) => match string_members(entries) {
                        Some(param) => Some(MessageView { operate_type, param }),
                        None => None,
                    },
                    _ => None,
                },
                _ => None,
            },
            None => None,
        }
    }
}

/// The text of the decimal digit `digit`.
fn digit_str(digit: u8) -> (text: &'static str)
    requires
        digit < 10,
    ensures
        text@ == digit_text(digit),
{
    if digit == 0 {
        "0"
    } else if digit == 1 {
        "1"
    } else if digit == 2 {
        "2"
    } else if digit == 3 {
        "3"
    } else if digit == 4 {
        "4"
    } else if digit == 5 {
        "5"
    } else if digit == 6 {
        "6"
    } else if digit == 7 {
        "7"
    } else if digit == 8 {
        "8"
    } else {
        "9"
    }
}

/// Appends the decimal text of `n` to `text`.
fn append_decimal(text: &mut String, n: u8)
    ensures
        final(text)@ == old(text)@ + decimal_text(n),
{
    if n >= 100 {
        text.append(digit_str(n / 100));
    }
    if n >= 10 {
        text.append(digit_str((n / 10) % 10));
    }
    text.append(digit_str(n % 10));
}

/// A message with the single parameter `name`, set to `value`.
fn with_one_param(operate_type: u8, name: &str, value: String) -> (message: KvContractMessage)
    ensures
        message@ == (MessageView { operate_type, param: seq![(name@, value@)] }),
{
    let mut param: Vec<(String, String)> = Vec::new();
    param.push((String::from_str(name), value));
    let message = KvContractMessage { operate_type, param };
    assert(message@.param == seq![(name@, value@)]);
    message
}

impl KvContractMessage {
    /// The request to get the value of `key`.
    pub fn get(key: String) -> (message: KvContractMessage)
        ensures
            message@ == (MessageView { operate_type: GET, param: seq![("key"@, key@)] }),
            message@.request() == Some(RequestView::Get { key: key@ }),
    {
        proof {
            lemma_lookup_single("key"@, key@);
        }
        with_one_param(GET, "key", key)
    }

    /// The request to set `key` to `value`.
    pub fn put(key: String, value: String) -> (message: KvContractMessage)
        ensures
            message@ == (MessageView {
                operate_type: PUT,
                param: seq![("key"@, key@), ("value"@, value@)],
            }),
            message@.request() == Some(RequestView::Put { key: key@, value: value@ }),
    {
        let mut param: Vec<(String, String)> = Vec::new();
        param.push((String::from_str("key"), key));
        param.push((String::from_str("value"), value));
        let message = KvContractMessage { operate_type: PUT, param };
        proof {
            let pairs = seq![("key"@, key@), ("value"@, value@)];
            assert(message@.param == pairs);
            reveal_strlit("key");
            reveal_strlit("value");
            assert("key"@ != "value"@) by {
                assert("key"@.len() != "value"@.len());
            }
            assert(pairs.drop_first() == seq![("value"@, value@)]);
            lemma_lookup_single("value"@, value@);
            assert(lookup(pairs, "key"@) == Some(key@));
            assert(lookup(pairs, "value"@) == Some(value@));
        }
        message
    }

    /// The request to remove `key`.
    pub fn remove(key: String) -> (message: KvContractMessage)
        ensures
            message@ == (MessageView { operate_type: REMOVE, param: seq![("key"@, key@)] }),
            message@.request() == Some(RequestView::Remove { key: key@ }),
    {
        proof {
            lemma_lookup_single("key"@, key@);
        }
        with_one_param(REMOVE, "key", key)
    }

    /// The response that reports success and carries nothing.
    pub fn response_no_content() -> (message: KvContractMessage)
        ensures
            message@ == (MessageView { operate_type: RESPONSE_NO_CONTENT, param: Seq::empty() }),
            message@.response() == Some(ResponseView::NoContent),
    {
        let message = KvContractMessage { operate_type: RESPONSE_NO_CONTENT, param: Vec::new() };
        assert(message@.param == Seq::<(Seq<char>, Seq<char>)>::empty());
        message
    }

    /// The response that reports the error `reason`.
    pub fn response_err(reason: String) -> (message: KvContractMessage)
        ensures
            message@ == (MessageView {
                operate_type: RESPONSE_ERR,
                param: seq![("reason"@, reason@)],
            }),
            message@.response() == Some(ResponseView::Error { reason: reason@ }),
    {
        proof {
            lemma_lookup_single("reason"@, reason@);
        }
        with_one_param(RESPONSE_ERR, "reason", reason)
    }

    /// The response that reports success with `content`.
    pub fn response_content(content: String) -> (message: KvContractMessage)
        ensures
            message@ == (MessageView {
                operate_type: RESPONSE_WITH_CONTENT,
                param: seq![("content"@, content@)],
            }),
            message@.response() == Some(ResponseView::Content { content: content@ }),
    {
        proof {
            lemma_lookup_single("content"@, content@);
        }
        with_one_param(RESPONSE_WITH_CONTENT, "content", content)
    }

    /// Reads a message from the bytes of one whole transmission.
    #[verifier::loop_isolation(false)]
    pub fn parse(raw: &[u8]) -> (r: Result<KvContractMessage, Error>)
        ensures
            MessageView::parse(raw@) == match r {
                Ok(message) => Some(message@),
                Err(_) => None,
            },
    {
        let members = match parse_members(raw) {
            Ok(members) => members,
            Err(_) => {
                return Err(Error::MalformedBinary);
            },
        };
        let number = match find(&members, "operate_type") {
            Some(number) => number,
            None => {
                return Err(Error::MalformedBinary);
            },
        };
        let object = match find(&members, "param") {
            Some(object) => object,
            None => {
                return Err(Error::MalformedBinary);
            },
        };
        let operate_type = match parse_u8(number.as_str().as_bytes()) {
            Ok(operate_type) => operate_type,
            Err(_) => {
                return Err(Error::MalformedBinary);
            },
        };
        let entries = match parse_members(object.as_str().as_bytes()) {
            Ok(entries) => entries,
            Err(_) => {
                return Err(Error::MalformedBinary);
            },
        };
        let ghost texts = pairs_view(entries@);
        let mut param: Vec<(String, String)> = Vec::new();
        let mut i: usize = 0;
        assert(texts.take(0) == Seq::<(Seq<char>, Seq<char>)>::empty());
        while i < entries.len()
            invariant
                i <= entries.len(),
                texts == pairs_view(entries@),
                string_members(texts.take(i as int)) == Some(pairs_view(param@)),
            decreases entries.len() - i,
        {
            proof {
                assert(texts.take(i + 1).drop_last() == texts.take(i as int));
                assert(texts.take(i + 1).last() == texts[i as int]);
            }
            match parse_string(entries[i].1.as_str().as_bytes()) {
                Ok(value) => {
                    let ghost before = pairs_view(param@);
                    param.push((entries[i].0.clone(), value));
                    assert(pairs_view(param@) == before.push((texts[i as int].0, value@)));
                },
                Err(_) => {
                    proof {
                        lemma_string_members_prefix(texts, i + 1);
                    }
                    return Err(Error::MalformedBinary);
                },
            }
            i = i + 1;
        }
        assert(texts.take(i as int) == texts);
        Ok(KvContractMessage { operate_type, param })
    }

    /// The bytes to transmit for the message: its JSON text.
    pub fn into_binary(self) -> (bytes: Vec<u8>)
        ensures
            bytes@ == encode_utf8(self@.text()),
    {
        let mut text = String::from_str("{\"operate_type\":");
        append_decimal(&mut text, self.operate_type);
        text.append(",\"param\":{");
        let ghost head = text@;
        let ghost pairs = pairs_view(self.param@);
        let mut i: usize = 0;
        assert(pairs.take(0) == Seq::<(Seq<char>, Seq<char>)>::empty());
        while i < self.param.len()
            invariant
                i <= self.param.len(),
                pairs == pairs_view(self.param@),
                text@ == head + params_text(pairs.take(i as int)),
            decreases self.param.len() - i,
        {
            proof {
                assert(pairs.take(i + 1).drop_last() == pairs.take(i as int));
                assert(pairs.take(i + 1).last() == pairs[i as int]);
            }
            if i > 0 {
                text.append(",");
            }
            let name = quote(self.param[i].0.as_str());
            text.append(name.as_str());
            text.append(":");
            let value = quote(self.param[i].1.as_str());
            text.append(value.as_str());
            i = i + 1;
        }
        assert(pairs.take(i as int) == pairs);
        text.append("}}");
        text.as_str().as_bytes_vec()
    }

    /// Reads the message as a request; `None` if it is none.
    pub fn to_request(&self) -> (r: Option<Request<'_>>)
        ensures
            self@.request() == match r {
                Some(request) => Some(request@),
                None => None,
            },
    {
        if self.operate_type == PUT {
            match find(&self.param, "key") {
                Some(key) => match find(&self.param, "value") {
                    Some(value) => Some(Request::Put { key: key.as_str(), value: value.as_str() }),
                    None => None,
                },
                None => None,
            }
        } else if self.operate_type == GET {
            match find(&self.param, "key") {
                Some(key) => Some(Request::Get { key: key.as_str() }),
                None => None,
            }
        } else if self.operate_type == REMOVE {
            match find(&self.param, "key") {
                Some(key) => Some(Request::Remove { key: key.as_str() }),
                None => None,
            }
        } else {
            None
        }
    }

    /// Reads the message as a response; `None` if it is none.
    pub fn to_response(&self) -> (r: Option<Response<'_>>)
        ensures
            self@.response() == match r {
                Some(response) => Some(response@),
                None => None,
            },
    {
        if self.operate_type == RESPONSE_NO_CONTENT {
            Some(Response::NoContent)
        } else if self.operate_type == RESPONSE_WITH_CONTENT {
            match find(&self.param, "content") {
                Some(content) => Some(Response::Content { content: content.as_str() }),
                None => None,
            }
        } else if self.operate_type == RESPONSE_ERR {
            match find(&self.param, "reason") {
                Some(reason) => Some(Response::Error { reason: reason.as_str() }),
                None => None,
            }
        } else {
            None
        }
    }
}

/// If some member among the first `n` is no JSON string, the members as a
/// whole are not all strings.
proof fn lemma_string_members_prefix(entries: Seq<(Seq<char>, Seq<char>)>, n: int)
    requires
        0 <= n <= entries.len(),
        string_members(entries.take(n)) is None,
    ensures
        string_members(entries) is None,
    decreases entries.len() - n,
{
    if n < entries.len() {
        assert(entries.take(n + 1).drop_last() == entries.take(n));
        lemma_string_members_prefix(entries, n + 1);
    } else {
        assert(entries.take(n) == entries);
    }
}

} // verus!
