//! What every engine offers, and the guard of an engine's directory.
use crate::contract::message::RequestView;
use crate::engines::command::CommandView;
use crate::engines::errors::KvError;
use crate::engines::errors::Result;
use crate::engines::kvs::KvStore;
use crate::text::lowercase;
use crate::text::lowercase_text;
use crate::engines::kvs::value_view;
use vstd::prelude::*;

verus! {

/// What an engine is sure to do with a request: carry it out, or refuse it
/// with an error that describes itself by `text`.
pub enum Owed {
    Success,
    Refusal { text: Seq<char> },
}

/// A key-value store.
///
/// An engine is described by the map from keys to values that it holds. The
/// contracts say what a call that succeeds has done to that map. When a call
/// succeeds is the engine's own affair, unless the engine says what it owes.
/// An engine that says nothing of itself is never sound, so that nothing is
/// claimed of it.
pub trait KvsEngine: Sized {
    /// Whether the engine is fit for use and holds what `contents` says.
    open spec fn sound(&self) -> bool {
        false
    }

    /// What the engine holds.
    open spec fn contents(&self) -> Map<Seq<char>, Seq<char>> {
        Map::empty()
    }

    /// What the engine is sure to do with `request`, if it is sure of
    /// anything.
    open spec fn owes(&self, request: RequestView) -> Option<Owed> {
        None
    }

    /// The value of `key`, or `None` if the engine does not hold the key.
    fn get(&self, key: String) -> (r: Result<Option<String>>)
        requires
            self.sound(),
        ensures
            r matches Ok(value) ==> value_view(value) == self.contents().get(key@),
            keeps_word(self.owes(RequestView::Get { key: key@ }), r),
    ;

    /// Sets `key` to `value`.
    fn set(&mut self, key: String, value: String) -> (r: Result<()>)
        requires
            old(self).sound(),
        ensures
            final(self).sound(),
            r is Ok ==> final(self).contents() == old(self).contents().insert(key@, value@),
            keeps_word(old(self).owes(RequestView::Put { key: key@, value: value@ }), r),
            old(self).owes(RequestView::Put { key: key@, value: value@ }) is Some && r is Err
                ==> final(self).contents() == old(self).contents(),
    ;

    /// Removes `key`. The error is `KeyNotFound` only if the engine did not
    /// hold the key, and then nothing has changed.
    fn remove(&mut self, key: String) -> (r: Result<()>)
        requires
            old(self).sound(),
        ensures
            final(self).sound(),
            r is Ok ==> old(self).contents().contains_key(key@) && final(self).contents() == old(
                self,
            ).contents().remove(key@),
            r matches Err(e) && e is KeyNotFound ==> !old(self).contents().contains_key(key@)
                && final(self).contents() == old(self).contents(),
            keeps_word(old(self).owes(RequestView::Remove { key: key@ }), r),
            old(self).owes(RequestView::Remove { key: key@ }) is Some && r is Err ==> final(self).contents() == old(self).contents(),
    ;
}

/// Whether the result `r` is what was owed: success where success was owed,
/// and where a refusal was owed, an error that describes itself by the text
/// of the refusal.
pub open spec fn keeps_word<T>(owed: Option<Owed>, r: Result<T>) -> bool {
    match owed {
        Some(Owed::Success) => r is Ok,
        Some(Owed::Refusal { text }) => r matches Err(e) && e.message_spec() == text,
        None => true,
    }
}

/// The text by which the error of a record that cannot be stored describes
/// itself.
pub open spec fn cannot_store() -> Seq<char> {
    "other exception: "@ + "the record cannot be stored"@
}

impl KvsEngine for KvStore {
    open spec fn sound(&self) -> bool {
        self.wf()
    }

    open spec fn contents(&self) -> Map<Seq<char>, Seq<char>> {
        KvStore::contents(self)
    }

    /// The store answers every request in one way: it gets whatever is
    /// asked for; it sets a key unless the log cannot hold the record; and it
    /// removes a key unless it does not hold the key or the log cannot hold
    /// the record.
    open spec fn owes(&self, request: RequestView) -> Option<Owed> {
        match request {
            RequestView::Get { .. } => Some(Owed::Success),
            RequestView::Put { key, value } => if (CommandView::Put { key, value }).storable() {
                Some(Owed::Success)
            } else {
                Some(Owed::Refusal { text: cannot_store() })
            },
            RequestView::Remove { key } => if !KvStore::contents(self).contains_key(key) {
                Some(Owed::Refusal { text: (KvError::KeyNotFound).message_spec() })
            } else if (CommandView::Rm { key }).storable() {
                Some(Owed::Success)
            } else {
                Some(Owed::Refusal { text: cannot_store() })
            },
        }
    }

    fn get(&self, key: String) -> (r: Result<Option<String>>) {
        KvStore::get(self, key)
    }

    fn set(&mut self, key: String, value: String) -> (r: Result<()>) {
        KvStore::set(self, key, value)
    }

    fn remove(&mut self, key: String) -> (r: Result<()>) {
        KvStore::remove(self, key)
    }
}

/// Guards a directory against an engine of another kind. `marker` is what
/// the directory's engine marker holds, or `None` if the directory has no
/// marker yet, in which case it is taken to hold `engine_name`. The guard
/// passes if the marker, in lower case, is `engine_name`; the result then
/// tells whether the marker is still to be written.
pub fn check_engine(marker: Option<&str>, engine_name: &str) -> (r: Result<bool>)
    ensures
        match r {
            Ok(write) => write == marker is None && lowercase_text(
                match marker {
                    Some(held) => held@,
                    None => engine_name@,
                },
            ) == engine_name@,
            Err(e) => e is IllegalWorkingDirectory && lowercase_text(
                match marker {
                    Some(held) => held@,
                    None => engine_name@,
                },
            ) != engine_name@,
        },
{
    let held = match marker {
        Some(held) => held,
        None => engine_name,
    };
    let lower = lowercase(held);
    if lower == engine_name.to_owned() {
        Ok(marker.is_none())
    } else {
        Err(KvError::IllegalWorkingDirectory)
    }
}

} // verus!
