//! Commands and their records.
//!
//! A command is what the log stores for one write. Its record is one line of
//! JSON text followed by a newline: `{"Put":{"key":K,"value":V}}` or
//! `{"Rm":{"key":K}}`, with `K` and `V` as JSON strings.
use crate::engines::errors::KvError;
use crate::json::find;
use crate::json::json_object_members;
use crate::json::json_string_text;
use crate::json::json_string_value;
use crate::json::lookup;
use crate::json::parse_members;
use crate::json::parse_string;
use crate::json::quote;
use vstd::prelude::*;
use vstd::string::StringExecFns;
use vstd::utf8::encode_utf8;

verus! {

/// The byte that ends a record.
pub const NEWLINE: u8 = 10;

/// One write to the store.
#[derive(Debug, Clone, PartialEq, Eq)]
pub enum KvCommand {
    /// `key` is set to `value`.
    Put { key: String, value: String },
    /// `key` is removed.
    Rm { key: String },
}

/// A command as plain mathematical values.
pub enum CommandView {
    Put { key: Seq<char>, value: Seq<char> },
    Rm { key: Seq<char> },
}

impl View for KvCommand {
    type V = CommandView;

    open spec fn view(&self) -> CommandView {
        match self {
            KvCommand::Put { key, value } => CommandView::Put { key: key@, value: value@ },
            KvCommand::Rm { key } => CommandView::Rm { key: key@ },
        }
    }
}

impl CommandView {
    /// The key that the command writes.
    pub open spec fn key(self) -> Seq<char> {
        match self {
            CommandView::Put { key, .. } => key,
            CommandView::Rm { key } => key,
        }
    }

    /// The value that the key has after the command, if it has one.
    pub open spec fn value(self) -> Option<Seq<char>> {
        match self {
            CommandView::Put { value, .. } => Some(value),
            CommandView::Rm { .. } => None,
        }
    }

    /// The JSON text of the command.
    pub open spec fn text(self) -> Seq<char> {
        match self {
            CommandView::Put { key, value } => "{\"Put\":{\"key\":"@ + json_string_text(key)
                + ",\"value\":"@ + json_string_text(value) + "}}"@,
            CommandView::Rm { key } => "{\"Rm\":{\"key\":"@ + json_string_text(key) + "}}"@,
        }
    }

    /// The record of the command: its text and a newline.
    pub open spec fn record(self) -> Seq<u8> {
        encode_utf8(self.text()).push(NEWLINE)
    }

    /// The command read from the fields `fields` of a record tagged `tag`.
    pub open spec fn from_fields(tag: Seq<char>, fields: Seq<(Seq<char>, Seq<char>)>) -> Option<
        CommandView,
    > {
        match lookup(fields, "key"@) {
            Some(key_text) => match json_string_value(encode_utf8(key_text)) {
                Some(key) => if tag == "Put"@ {
                    match lookup(fields, "value"@) {
                        Some(value_text) => match json_string_value(encode_utf8(value_text)) {
                            Some(value) => Some(CommandView::Put { key, value }),
                            None => None,
                        },
                        None => None,
                    }
                } else if tag == "Rm"@ {
                    Some(CommandView::Rm { key })
                } else {
                    None
                },
                None => None,
            },
            None => None,
        }
    }

    /// The command that the record `record` holds, if it holds one: a JSON
    /// object with the single member `Put` or `Rm`, itself an object whose
    /// members `key` and, for `Put`, `value` are strings.
    pub open spec fn parse(record: Seq<u8>) -> Option<CommandView> {
        match json_object_members(record) {
            Some(members) => if members.len() == 1 {
                match json_object_members(encode_utf8(members[0].1)) {
                    Some(fields) => CommandView::from_fields(members[0].0, fields),
                    None => None,
                }
            } else {
                None
            },
            None => None,
        }
    }

    /// Whether the log can hold the command: its record fits a locator, has
    /// no newline but its last byte, and reads back as the command.
    pub open spec fn storable(self) -> bool {
        &&& self.record().len() <= u32::MAX
        &&& forall|i: int| 0 <= i < self.record().len() - 1 ==> self.record()[i] != NEWLINE
        &&& CommandView::parse(self.record()) == Some(self)
    }
}

impl KvCommand {
    /// The command that sets `key` to `value`.
    pub fn set(key: String, value: String) -> (command: KvCommand)
        ensures
            command@ == (CommandView::Put { key: key@, value: value@ }),
    {
        KvCommand::Put { key, value }
    }

    /// The command that removes `key`.
    pub fn remove(key: String) -> (command: KvCommand)
        ensures
            command@ == (CommandView::Rm { key: key@ }),
    {
        KvCommand::Rm { key }
    }

    /// The key that the command writes.
    pub fn key(&self) -> (key: &str)
        ensures
            key@ == self@.key(),
    {
        match self {
            KvCommand::Put { key, .. } => key.as_str(),
            KvCommand::Rm { key } => key.as_str(),
        }
    }

    /// The record of the command.
    pub fn encode(&self) -> (record: Vec<u8>)
        ensures
            record@ == self@.record(),
    {
        let text = match self {
            KvCommand::Put { key, value } => {
                let mut text = String::from_str("{\"Put\":{\"key\":");
                let key_text = quote(key.as_str());
                text.append(key_text.as_str());
                text.append(",\"value\":");
                let value_text = quote(value.as_str());
                text.append(value_text.as_str());
                text.append("}}");
                text
            },
            KvCommand::Rm { key } => {
                let mut text = String::from_str("{\"Rm\":{\"key\":");
                let key_text = quote(key.as_str());
                text.append(key_text.as_str());
                text.append("}}");
                text
            },
        };
        let mut record = text.as_str().as_bytes_vec();
        record.push(NEWLINE);
        record
    }

    /// Reads the command that `record` holds.
    pub fn decode(record: &[u8]) -> (r: Result<KvCommand, KvError>)
        ensures
            CommandView::parse(record@) == match r {
                Ok(command) => Some(command@),
                Err(_) => None,
            },
            r matches Err(e) ==> e is FailToParseFile,
    {
        let members = match parse_members(record) {
            Ok(members) => members,
            Err(reason) => {
                return Err(KvError::FailToParseFile { reason });
            },
        };
        if members.len() != 1 {
            return Err(
                KvError::FailToParseFile {
                    reason: String::from_str("a record holds exactly one command"),
                },
            );
        }
        let fields = match parse_members(members[0].1.as_str().as_bytes()) {
            Ok(fields) => fields,
            Err(reason) => {
                return Err(KvError::FailToParseFile { reason });
            },
        };
        let key = match find(&fields, "key") {
            Some(text) => match parse_string(text.as_str().as_bytes()) {
                Ok(key) => key,
                Err(reason) => {
                    return Err(KvError::FailToParseFile { reason });
                },
            },
            None => {
                return Err(
                    KvError::FailToParseFile { reason: String::from_str("missing field `key`") },
                );
            },
        };
        if members[0].0 == String::from_str("Put") {
            match find(&fields, "value") {
                Some(text) => match parse_string(text.as_str().as_bytes()) {
                    Ok(value) => Ok(KvCommand::Put { key, value }),
                    Err(reason) => Err(KvError::FailToParseFile { reason }),
                },
                None => Err(
                    KvError::FailToParseFile { reason: String::from_str("missing field `value`") },
                ),
            }
        } else if members[0].0 == String::from_str("Rm") {
            Ok(KvCommand::Rm { key })
        } else {
            Err(
                KvError::FailToParseFile {
                    reason: String::from_str("unknown variant, expected `Put` or `Rm`"),
                },
            )
        }
    }

    /// Whether two commands are the same.
    pub fn same(&self, other: &KvCommand) -> (same: bool)
        ensures
            same == (self@ == other@),
    {
        match (self, other) {
            (KvCommand::Put { key, value }, KvCommand::Put { key: k, value: v }) => *key == *k
                && *value == *v,
            (KvCommand::Rm { key }, KvCommand::Rm { key: k }) => *key == *k,
            _ => false,
        }
    }

    /// The record of the command, if the log can hold it.
    pub fn encode_checked(&self) -> (r: Option<Vec<u8>>)
        ensures
            match r {
                Some(record) => record@ == self@.record() && self@.storable(),
                None => !self@.storable(),
            },
    {
        let record = self.encode();
        if record.len() > u32::MAX as usize {
            return None;
        }
        let mut i: usize = 0;
        while i + 1 < record.len()
            invariant
                i < record.len(),
                record@ == self@.record(),
                forall|j: int| 0 <= j < i ==> record@[j] != NEWLINE,
            decreases record.len() - i,
        {
            if record[i] == NEWLINE {
                return None;
            }
            i = i + 1;
        }
        match KvCommand::decode(record.as_slice()) {
            Ok(read) => if read.same(self) {
                Some(record)
            } else {
                None
            },
            Err(_) => None,
        }
    }
}

} // verus!
