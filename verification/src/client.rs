//! The client's side of a conversation: what to send for a command, and what
//! to tell the user about the answer.
use crate::contract::message::KvContractMessage;
use crate::contract::message::MessageView;
use crate::contract::message::RequestView;
use crate::contract::message::Response;
use crate::contract::message::ResponseView;
use vstd::prelude::*;
use vstd::string::StringExecFns;

verus! {

/// The kind of a command.
#[derive(Debug, Clone, Copy, PartialEq, Eq, Structural)]
pub enum Operate {
    Get,
    Put,
    Rm,
}

/// A command of the user.
#[derive(Debug, Clone, PartialEq, Eq)]
pub enum ClientOpt {
    /// Set `key` to `value`.
    Put { key: String, value: String },
    /// Print the value of `key`.
    Get { key: String },
    /// Remove `key`.
    Rm { key: String },
}

/// What the user is told: a line of text, if any, where it goes, and the
/// code with which the program ends.
#[derive(Debug, Clone, PartialEq, Eq)]
pub struct Report {
    /// The line to print.
    pub line: Option<String>,
    /// Whether the line goes to the error stream.
    pub is_error: bool,
    /// The code with which the program ends.
    pub exit_code: u8,
}

/// A report as plain mathematical values.
pub struct ReportView {
    pub line: Option<Seq<char>>,
    pub is_error: bool,
    pub exit_code: u8,
}

impl View for Report {
    type V = ReportView;

    open spec fn view(&self) -> ReportView {
        ReportView {
            line: match self.line {
                Some(line) => Some(line@),
                None => None,
            },
            is_error: self.is_error,
            exit_code: self.exit_code,
        }
    }
}

impl ClientOpt {
    /// The kind of the command.
    pub open spec fn operate_spec(self) -> Operate {
        match self {
            ClientOpt::Put { .. } => Operate::Put,
            ClientOpt::Get { .. } => Operate::Get,
            ClientOpt::Rm { .. } => Operate::Rm,
        }
    }

    /// The request that the command stands for.
    pub open spec fn request_spec(self) -> RequestView {
        match self {
            ClientOpt::Put { key, value } => RequestView::Put { key: key@, value: value@ },
            ClientOpt::Get { key } => RequestView::Get { key: key@ },
            ClientOpt::Rm { key } => RequestView::Remove { key: key@ },
        }
    }

    /// The kind of the command.
    pub fn to_operate(&self) -> (operate: Operate)
        ensures
            operate == self.operate_spec(),
    {
        match self {
            ClientOpt::Put { .. } => Operate::Put,
            ClientOpt::Get { .. } => Operate::Get,
            ClientOpt::Rm { .. } => Operate::Rm,
        }
    }

    /// The message to send for the command.
    pub fn message(self) -> (message: KvContractMessage)
        ensures
            message@.request() == Some(self.request_spec()),
            message@ == match self {
                ClientOpt::Put { key, value } => MessageView {
                    operate_type: crate::contract::message::PUT,
                    param: seq![("key"@, key@), ("value"@, value@)],
                },
                ClientOpt::Get { key } => MessageView {
                    operate_type: crate::contract::message::GET,
                    param: seq![("key"@, key@)],
                },
                ClientOpt::Rm { key } => MessageView {
                    operate_type: crate::contract::message::REMOVE,
                    param: seq![("key"@, key@)],
                },
            },
    {
        match self {
            ClientOpt::Put { key, value } => KvContractMessage::put(key, value),
            ClientOpt::Get { key } => KvContractMessage::get(key),
            ClientOpt::Rm { key } => KvContractMessage::remove(key),
        }
    }
}

/// What the user is told about the answer `response` to a command of the
/// kind `operate`: the value that was asked for; `Key not found` where a
/// value was asked for and there is none; nothing where a write succeeded;
/// and the reason, on the error stream and with the exit code 1, where the
/// server reports an error.
pub open spec fn report_spec(operate: Operate, response: ResponseView) -> ReportView {
    match response {
        ResponseView::NoContent => ReportView {
            line: if operate == Operate::Get {
                Some("Key not found"@)
            } else {
                None
            },
            is_error: false,
            exit_code: 0,
        },
        ResponseView::Content { content } => ReportView {
            line: Some(content),
            is_error: false,
            exit_code: 0,
        },
        ResponseView::Error { reason } => ReportView {
            line: Some(reason),
            is_error: true,
            exit_code: 1,
        },
    }
}

/// What the user is told about the answer `response` to a command of the
/// kind `operate`.
pub fn report(operate: Operate, response: Response) -> (told: Report)
    ensures
        told@ == report_spec(operate, response@),
{
    match response {
        Response::NoContent => {
            let line = match operate {
                Operate::Get => Some(String::from_str("Key not found")),
                _ => None,
            };
            Report { line, is_error: false, exit_code: 0 }
        },
        Response::Content { content } => Report {
            line: Some(content.to_owned()),
            is_error: false,
            exit_code: 0,
        },
        Response::Error { reason } => Report {
            line: Some(reason.to_owned()),
            is_error: true,
            exit_code: 1,
        },
    }
}

} // verus!
