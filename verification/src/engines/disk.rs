//! Keeping files in step with the segments.
//!
//! The store holds its segments in memory, and whoever runs it on disk keeps
//! one file for each. This module says what is to be done to the files so
//! that they hold what the segments hold: which bytes to append to which
//! file, which file to cut back and which to delete.
use crate::engines::model::Log;
use vstd::prelude::*;

verus! {

/// One thing to do to the files.
#[derive(Debug, Clone, PartialEq, Eq)]
pub enum DiskAction {
    /// Append `bytes` to the file of `epoch`; the file is made if it is not
    /// there.
    Append { epoch: u64, bytes: Vec<u8> },
    /// Cut the file of `epoch` back to `length` bytes.
    Truncate { epoch: u64, length: usize },
    /// Delete the file of `epoch`.
    Remove { epoch: u64 },
}

/// One thing to do to the files, as plain mathematical values.
pub enum DiskActionView {
    Append { epoch: u64, bytes: Seq<u8> },
    Truncate { epoch: u64, length: nat },
    Remove { epoch: u64 },
}

impl View for DiskAction {
    type V = DiskActionView;

    open spec fn view(&self) -> DiskActionView {
        match self {
            DiskAction::Append { epoch, bytes } => DiskActionView::Append {
                epoch: *epoch,
                bytes: bytes@,
            },
            DiskAction::Truncate { epoch, length } => DiskActionView::Truncate {
                epoch: *epoch,
                length: *length as nat,
            },
            DiskAction::Remove { epoch } => DiskActionView::Remove { epoch: *epoch },
        }
    }
}

/// The views of a list of actions.
pub open spec fn actions_view(actions: Seq<DiskAction>) -> Seq<DiskActionView> {
    Seq::new(actions.len(), |i: int| actions[i]@)
}

/// The files, each under its epoch, after `action` was done to `files`.
pub open spec fn perform(files: Log, action: DiskActionView) -> Log {
    match action {
        DiskActionView::Append { epoch, bytes } => files.insert(
            epoch,
            if files.contains_key(epoch) {
                files[epoch] + bytes
            } else {
                bytes
            },
        ),
        DiskActionView::Truncate { epoch, length } => if files.contains_key(epoch) {
            files.insert(epoch, files[epoch].take(length as int))
        } else {
            files
        },
        DiskActionView::Remove { epoch } => files.remove(epoch),
    }
}

/// The files after `actions` were done to `files`, in order.
pub open spec fn perform_all(files: Log, actions: Seq<DiskActionView>) -> Log
    decreases actions.len(),
{
    if actions.len() == 0 {
        files
    } else {
        perform(perform_all(files, actions.drop_last()), actions.last())
    }
}

/// The length that `lengths`, a list of epochs with the lengths of their
/// files, gives first for `epoch`.
pub open spec fn length_of(lengths: Seq<(u64, usize)>, epoch: u64) -> Option<usize>
    decreases lengths.len(),
{
    if lengths.len() == 0 {
        None
    } else if lengths[0].0 == epoch {
        Some(lengths[0].1)
    } else {
        length_of(lengths.drop_first(), epoch)
    }
}

/// What brings the files up to the segments of `epochs`: for each epoch in
/// turn, the bytes that its file lacks are appended; a file that is longer
/// than its segment is cut back; a file that is as long is left alone.
pub open spec fn appends(log: Log, epochs: Seq<u64>, lengths: Seq<(u64, usize)>) -> Seq<
    DiskActionView,
>
    decreases epochs.len(),
{
    if epochs.len() == 0 {
        Seq::empty()
    } else {
        match append_for(log, epochs.last(), lengths) {
            Some(action) => appends(log, epochs.drop_last(), lengths).push(action),
            None => appends(log, epochs.drop_last(), lengths),
        }
    }
}

/// What rids the files of the segments that are gone: each file in `lengths`
/// whose epoch has no segment is deleted, in turn.
pub open spec fn removes(log: Log, lengths: Seq<(u64, usize)>) -> Seq<DiskActionView>
    decreases lengths.len(),
{
    if lengths.len() == 0 {
        Seq::empty()
    } else if log.contains_key(lengths.last().0) {
        removes(log, lengths.drop_last())
    } else {
        removes(log, lengths.drop_last()).push(DiskActionView::Remove { epoch: lengths.last().0 })
    }
}

/// What brings the files in step with the segments.
pub open spec fn sync_plan(log: Log, epochs: Seq<u64>, lengths: Seq<(u64, usize)>) -> Seq<
    DiskActionView,
> {
    appends(log, epochs, lengths) + removes(log, lengths)
}

/// Whether `lengths` lists the files: each file once or more, with its
/// length, and nothing else.
pub open spec fn lists(lengths: Seq<(u64, usize)>, files: Log) -> bool {
    &&& forall|i: int|
        0 <= i < lengths.len() ==> files.contains_key((#[trigger] lengths[i]).0)
            && files[lengths[i].0].len() == lengths[i].1
    &&& forall|epoch: u64| #[trigger] files.contains_key(epoch) ==> is_listed(lengths, epoch)
}

/// Whether the files can be brought in step with the segments by appending
/// and cutting back: where a file and a segment share an epoch, the shorter
/// of the two is the beginning of the longer.
pub open spec fn can_sync(files: Log, log: Log) -> bool {
    forall|epoch: u64| #[trigger]
        files.contains_key(epoch) && log.contains_key(epoch) ==> if files[epoch].len()
            <= log[epoch].len() {
            files[epoch] == log[epoch].take(files[epoch].len() as int)
        } else {
            log[epoch] == files[epoch].take(log[epoch].len() as int)
        }
}

/// Whether `epochs` names each segment of `log` once, and nothing else.
pub open spec fn names_segments(epochs: Seq<u64>, log: Log) -> bool {
    &&& forall|i: int| 0 <= i < epochs.len() ==> log.contains_key(#[trigger] epochs[i])
    &&& forall|epoch: u64| log.contains_key(epoch) ==> epochs.contains(epoch)
    &&& forall|i: int, j: int| 0 <= i < j < epochs.len() ==> epochs[i] != epochs[j]
}

/// Doing one list of actions after another is doing the two in one.
pub proof fn lemma_perform_all_add(
    files: Log,
    first: Seq<DiskActionView>,
    second: Seq<DiskActionView>,
)
    ensures
        perform_all(files, first + second) == perform_all(perform_all(files, first), second),
    decreases second.len(),
{
    if second.len() == 0 {
        assert(first + second == first);
    } else {
        lemma_perform_all_add(files, first, second.drop_last());
        assert((first + second).drop_last() == first + second.drop_last());
        assert((first + second).last() == second.last());
    }
}

/// The first length that a list gives for an epoch is one that it lists.
proof fn lemma_length_of(lengths: Seq<(u64, usize)>, epoch: u64)
    ensures
        match length_of(lengths, epoch) {
            Some(length) => exists|i: int|
                0 <= i < lengths.len() && #[trigger] lengths[i] == (epoch, length),
            None => forall|i: int| 0 <= i < lengths.len() ==> (#[trigger] lengths[i]).0 != epoch,
        },
    decreases lengths.len(),
{
    if lengths.len() > 0 {
        if lengths[0].0 == epoch {
            assert(lengths[0] == (epoch, lengths[0].1));
        } else {
            let rest = lengths.drop_first();
            lemma_length_of(rest, epoch);
            match length_of(rest, epoch) {
                Some(length) => {
                    let i = choose|i: int| 0 <= i < rest.len() && #[trigger] rest[i] == (epoch, length);
                    assert(lengths[i + 1] == rest[i]);
                },
                None => {
                    assert forall|i: int| 0 <= i < lengths.len() implies (
                    #[trigger] lengths[i]).0 != epoch by {
                        if i > 0 {
                            assert(rest[i - 1] == lengths[i]);
                        }
                    }
                },
            }
        }
    }
}

/// The epoch whose file `action` is about.
pub open spec fn epoch_of(action: DiskActionView) -> u64 {
    match action {
        DiskActionView::Append { epoch, .. } => epoch,
        DiskActionView::Truncate { epoch, .. } => epoch,
        DiskActionView::Remove { epoch } => epoch,
    }
}

/// An action leaves the files of the other epochs as they are.
proof fn lemma_perform_others(files: Log, action: DiskActionView, epoch: u64)
    requires
        epoch != epoch_of(action),
    ensures
        perform(files, action).contains_key(epoch) <==> files.contains_key(epoch),
        files.contains_key(epoch) ==> perform(files, action)[epoch] == files[epoch],
{
}

/// What is to be done to the file of `epoch`, if anything.
pub open spec fn append_for(log: Log, epoch: u64, lengths: Seq<(u64, usize)>) -> Option<
    DiskActionView,
> {
    match length_of(lengths, epoch) {
        None => Some(DiskActionView::Append { epoch, bytes: log[epoch] }),
        Some(length) => if length < log[epoch].len() {
            Some(DiskActionView::Append { epoch, bytes: log[epoch].skip(length as int) })
        } else if length > log[epoch].len() {
            Some(DiskActionView::Truncate { epoch, length: log[epoch].len() })
        } else {
            None
        },
    }
}

/// What is done to the file of an epoch brings it up to the segment.
proof fn lemma_append_for(files: Log, log: Log, epoch: u64, lengths: Seq<(u64, usize)>)
    requires
        lists(lengths, files),
        can_sync(files, log),
        log.contains_key(epoch),
    ensures
        match append_for(log, epoch, lengths) {
            Some(action) => epoch_of(action) == epoch && perform(files, action).contains_key(epoch)
                && perform(files, action)[epoch] == log[epoch],
            None => files.contains_key(epoch) && files[epoch] == log[epoch],
        },
{
    lemma_length_of(lengths, epoch);
    match length_of(lengths, epoch) {
        None => {
            assert(!files.contains_key(epoch));
        },
        Some(length) => {
            let i = choose|i: int| 0 <= i < lengths.len() && #[trigger] lengths[i] == (epoch, length);
            assert(files.contains_key(lengths[i].0));
            if length < log[epoch].len() {
                assert(log[epoch].take(length as int) + log[epoch].skip(length as int)
                    == log[epoch]);
            } else if length == log[epoch].len() {
                assert(log[epoch].take(length as int) == log[epoch]);
            }
        },
    }
}

/// After the appending, the files of the epochs named hold their segments,
/// and the other files are as they were.
proof fn lemma_appends(files: Log, log: Log, epochs: Seq<u64>, lengths: Seq<(u64, usize)>)
    requires
        lists(lengths, files),
        can_sync(files, log),
        forall|i: int| 0 <= i < epochs.len() ==> log.contains_key(#[trigger] epochs[i]),
        forall|i: int, j: int| 0 <= i < j < epochs.len() ==> epochs[i] != epochs[j],
    ensures
        forall|epoch: u64|
            epochs.contains(epoch) ==> #[trigger] perform_all(
                files,
                appends(log, epochs, lengths),
            ).contains_key(epoch) && perform_all(files, appends(log, epochs, lengths))[epoch]
                == log[epoch],
        forall|epoch: u64|
            !epochs.contains(epoch) ==> (#[trigger] perform_all(
                files,
                appends(log, epochs, lengths),
            ).contains_key(epoch) <==> files.contains_key(epoch)) && (files.contains_key(epoch)
                ==> perform_all(files, appends(log, epochs, lengths))[epoch] == files[epoch]),
    decreases epochs.len(),
{
    if epochs.len() > 0 {
        let front = epochs.drop_last();
        let last = epochs.last();
        let before = perform_all(files, appends(log, front, lengths));
        let after = perform_all(files, appends(log, epochs, lengths));
        assert forall|i: int| 0 <= i < front.len() implies log.contains_key(#[trigger] front[i]) by {
            assert(front[i] == epochs[i]);
        }
        assert forall|i: int, j: int| 0 <= i < j < front.len() implies front[i] != front[j] by {
            assert(front[i] == epochs[i] && front[j] == epochs[j]);
        }
        lemma_appends(files, log, front, lengths);
        assert(!front.contains(last)) by {
            if front.contains(last) {
                let i = choose|i: int| 0 <= i < front.len() && front[i] == last;
                assert(epochs[i] == epochs[epochs.len() - 1]);
            }
        }
        assert(log.contains_key(epochs[epochs.len() - 1]));
        assert(before.contains_key(last) <==> files.contains_key(last));
        assert(files.contains_key(last) ==> before[last] == files[last]);
        lemma_append_for(files, log, last, lengths);
        let step = append_for(log, last, lengths);
        assert(after == match step {
            Some(action) => perform(before, action),
            None => before,
        }) by {
            if step is Some {
                assert(appends(log, epochs, lengths).drop_last() == appends(log, front, lengths));
            }
        }
        assert(after.contains_key(last) && after[last] == log[last]);
        assert forall|epoch: u64| epochs.contains(epoch) implies #[trigger] after.contains_key(
            epoch,
        ) && after[epoch] == log[epoch] by {
            if epoch != last {
                let i = choose|i: int| 0 <= i < epochs.len() && epochs[i] == epoch;
                assert(front[i] == epoch);
                assert(front.contains(epoch));
                assert(perform_all(files, appends(log, front, lengths)).contains_key(epoch));
                assert(before[epoch] == log[epoch]);
                if let Some(action) = step {
                    lemma_perform_others(before, action, epoch);
                }
            }
        }
        assert forall|epoch: u64| !epochs.contains(epoch) implies (#[trigger] after.contains_key(
            epoch,
        ) <==> files.contains_key(epoch)) && (files.contains_key(epoch) ==> after[epoch]
            == files[epoch]) by {
            assert(epoch != last) by {
                assert(epochs[epochs.len() - 1] == last);
            }
            assert(!front.contains(epoch)) by {
                if front.contains(epoch) {
                    let i = choose|i: int| 0 <= i < front.len() && front[i] == epoch;
                    assert(epochs[i] == epoch);
                }
            }
            assert(before.contains_key(epoch) <==> files.contains_key(epoch));
            if let Some(action) = step {
                lemma_perform_others(before, action, epoch);
            }
        }
    }
}

/// Whether `lengths` lists `epoch`.
pub open spec fn is_listed(lengths: Seq<(u64, usize)>, epoch: u64) -> bool {
    exists|i: int| 0 <= i < lengths.len() && (#[trigger] lengths[i]).0 == epoch
}

/// After the deleting, the files whose epochs have a segment are as they
/// were, and of the others those that were listed are gone.
proof fn lemma_removes(files: Log, log: Log, lengths: Seq<(u64, usize)>)
    ensures
        forall|epoch: u64|
            log.contains_key(epoch) ==> (#[trigger] perform_all(
                files,
                removes(log, lengths),
            ).contains_key(epoch) <==> files.contains_key(epoch)) && (files.contains_key(epoch)
                ==> perform_all(files, removes(log, lengths))[epoch] == files[epoch]),
        forall|epoch: u64|
            !log.contains_key(epoch) ==> (#[trigger] perform_all(
                files,
                removes(log, lengths),
            ).contains_key(epoch) <==> files.contains_key(epoch) && !is_listed(lengths, epoch)),
    decreases lengths.len(),
{
    if lengths.len() > 0 {
        let front = lengths.drop_last();
        let gone = lengths.last().0;
        lemma_removes(files, log, front);
        let before = perform_all(files, removes(log, front));
        let after = perform_all(files, removes(log, lengths));
        assert(after == if log.contains_key(gone) {
            before
        } else {
            perform(before, DiskActionView::Remove { epoch: gone })
        }) by {
            if !log.contains_key(gone) {
                assert(removes(log, lengths).drop_last() == removes(log, front));
            }
        }
        assert forall|epoch: u64| is_listed(lengths, epoch) <==> is_listed(front, epoch) || epoch
            == gone by {
            if is_listed(lengths, epoch) {
                let i = choose|i: int| 0 <= i < lengths.len() && (#[trigger] lengths[i]).0 == epoch;
                if i < front.len() {
                    assert(front[i].0 == epoch);
                }
            }
            if is_listed(front, epoch) {
                let i = choose|i: int| 0 <= i < front.len() && (#[trigger] front[i]).0 == epoch;
                assert(lengths[i].0 == epoch);
            }
            if epoch == gone {
                assert(lengths[lengths.len() - 1].0 == epoch);
            }
        }
        assert forall|epoch: u64| log.contains_key(epoch) implies (#[trigger] after.contains_key(
            epoch,
        ) <==> files.contains_key(epoch)) && (files.contains_key(epoch) ==> after[epoch]
            == files[epoch]) by {
            assert(before.contains_key(epoch) <==> files.contains_key(epoch));
        }
        assert forall|epoch: u64| !log.contains_key(epoch) implies (#[trigger] after.contains_key(
            epoch,
        ) <==> files.contains_key(epoch) && !is_listed(lengths, epoch)) by {
            assert(before.contains_key(epoch) <==> files.contains_key(epoch) && !is_listed(
                front,
                epoch,
            ));
        }
    } else {
        assert forall|epoch: u64| !is_listed(lengths, epoch) by {}
    }
}

/// The plan does what it is for: if the files are those that `lengths`
/// lists, and each of them begins as its segment does, then after the
/// actions of the plan the files hold exactly what the segments hold.
pub proof fn law_sync(files: Log, log: Log, epochs: Seq<u64>, lengths: Seq<(u64, usize)>)
    requires
        lists(lengths, files),
        can_sync(files, log),
        names_segments(epochs, log),
    ensures
        perform_all(files, sync_plan(log, epochs, lengths)) == log,
{
    let synced = perform_all(files, appends(log, epochs, lengths));
    let done = perform_all(files, sync_plan(log, epochs, lengths));
    lemma_perform_all_add(files, appends(log, epochs, lengths), removes(log, lengths));
    lemma_appends(files, log, epochs, lengths);
    lemma_removes(synced, log, lengths);
    assert forall|epoch: u64| done.contains_key(epoch) <==> log.contains_key(epoch) by {
        if log.contains_key(epoch) {
            assert(epochs.contains(epoch));
            assert(synced.contains_key(epoch));
        } else {
            assert(!epochs.contains(epoch)) by {
                if epochs.contains(epoch) {
                    let i = choose|i: int| 0 <= i < epochs.len() && epochs[i] == epoch;
                }
            }
            if done.contains_key(epoch) {
                assert(synced.contains_key(epoch));
                assert(files.contains_key(epoch));
                assert(is_listed(lengths, epoch));
            }
        }
    }
    assert forall|epoch: u64| log.contains_key(epoch) implies done[epoch] == log[epoch] by {
        assert(epochs.contains(epoch));
        assert(synced.contains_key(epoch));
    }
    assert(done =~= log);
}

/// The length that `lengths` gives first for `epoch`.
pub fn find_length(lengths: &Vec<(u64, usize)>, epoch: u64) -> (r: Option<usize>)
    ensures
        r == length_of(lengths@, epoch),
{
    let mut i: usize = 0;
    assert(lengths@.skip(0) == lengths@);
    while i < lengths.len()
        invariant
            i <= lengths.len(),
            length_of(lengths@, epoch) == length_of(lengths@.skip(i as int), epoch),
        decreases lengths.len() - i,
    {
        if lengths[i].0 == epoch {
            return Some(lengths[i].1);
        }
        assert(lengths@.skip(i as int).drop_first() == lengths@.skip(i + 1));
        i = i + 1;
    }
    None
}

} // verus!
