//! The store as mathematics: a log of segments, an index over it, and the
//! map from keys to values that the two stand for.
use crate::engines::command::CommandView;
use crate::engines::index::install;
use crate::engines::locator::Locator;
use crate::engines::segment::is_complete;
use crate::engines::segment::is_line;
use crate::engines::segment::is_readable;
use crate::engines::segment::is_record;
use crate::engines::segment::lemma_records_after_append;
use vstd::prelude::*;

verus! {

/// A log: the bytes of each segment under its epoch.
pub type Log = Map<u64, Seq<u8>>;

/// Whether `locator` names a record of `log`.
pub open spec fn names_record(log: Log, locator: Locator) -> bool {
    log.contains_key(locator.epoch) && is_record(
        log[locator.epoch],
        locator.offset as int,
        locator.end(),
    )
}

/// The command that the record at `locator` holds.
pub open spec fn command_at(log: Log, locator: Locator) -> CommandView {
    CommandView::parse(
        log[locator.epoch].subrange(locator.offset as int, locator.end()),
    ).unwrap()
}

/// Whether every segment of `log` is complete and readable.
pub open spec fn log_wf(log: Log) -> bool {
    forall|epoch: u64| #[trigger]
        log.contains_key(epoch) ==> is_complete(log[epoch]) && is_readable(log[epoch])
}

/// Whether `index` is the index of `log`: it holds the key of every record,
/// and for each key the locator of the record of that key which comes last,
/// by epoch and then by offset.
pub open spec fn index_matches(log: Log, index: Map<Seq<char>, Locator>) -> bool {
    &&& forall|key: Seq<char>| #[trigger]
        index.contains_key(key) ==> names_record(log, index[key]) && command_at(
            log,
            index[key],
        ).key() == key
    &&& forall|locator: Locator| #[trigger]
        names_record(log, locator) ==> index.contains_key(command_at(log, locator).key())
            && !index[command_at(log, locator).key()].before(locator)
}

/// What the store holds: each key whose last record is a `Put`, with the
/// value of that record.
pub open spec fn contents(log: Log, index: Map<Seq<char>, Locator>) -> Map<Seq<char>, Seq<char>> {
    Map::new(
        |key: Seq<char>| index.contains_key(key) && command_at(log, index[key]).value() is Some,
        |key: Seq<char>| command_at(log, index[key]).value().unwrap(),
    )
}

/// The locator of a line appended to the segment of `epoch`.
pub open spec fn appended_at(log: Log, epoch: u64, line: Seq<u8>) -> Locator {
    Locator { epoch, offset: log[epoch].len() as u64, length: line.len() as u32 }
}

/// The log after `line` was appended to the segment of `epoch`.
pub open spec fn append(log: Log, epoch: u64, line: Seq<u8>) -> Log {
    log.insert(epoch, log[epoch] + line)
}

/// Appending a readable line to a segment adds one record to the log, at the
/// end of that segment, and changes no other.
pub proof fn lemma_append_records(log: Log, epoch: u64, line: Seq<u8>, locator: Locator)
    requires
        log_wf(log),
        log.contains_key(epoch),
        is_line(line),
        line.len() <= u32::MAX,
        log[epoch].len() <= u64::MAX,
        CommandView::parse(line) is Some,
    ensures
        log_wf(append(log, epoch, line)),
        names_record(append(log, epoch, line), locator) <==> names_record(log, locator) || locator
            == appended_at(log, epoch, line),
        names_record(log, locator) ==> command_at(append(log, epoch, line), locator) == command_at(
            log,
            locator,
        ),
        command_at(append(log, epoch, line), appended_at(log, epoch, line)) == CommandView::parse(
            line,
        ).unwrap(),
{
    let after = append(log, epoch, line);
    let data = log[epoch];
    let new = appended_at(log, epoch, line);
    lemma_records_after_append(data, line, locator.offset as int, locator.end());
    lemma_records_after_append(data, line, new.offset as int, new.end());
    assert forall|e: u64| #[trigger] after.contains_key(e) implies is_complete(after[e])
        && is_readable(after[e]) by {
        if e == epoch {
            assert forall|start: int, end: int| #[trigger]
                is_record(after[e], start, end) implies end - start <= u32::MAX
                && CommandView::parse(after[e].subrange(start, end)) is Some by {
                lemma_records_after_append(data, line, start, end);
                if is_record(data, start, end) {
                    assert(is_readable(data));
                }
            }
        } else {
            assert(log.contains_key(e));
        }
    }
}

/// Appending a readable line and offering its locator to the index keeps the
/// index the index of the log.
pub proof fn lemma_append_keeps_index(
    log: Log,
    index: Map<Seq<char>, Locator>,
    epoch: u64,
    line: Seq<u8>,
)
    requires
        log_wf(log),
        index_matches(log, index),
        log.contains_key(epoch),
        is_line(line),
        line.len() <= u32::MAX,
        log[epoch].len() <= u64::MAX,
        CommandView::parse(line) is Some,
    ensures
        log_wf(append(log, epoch, line)),
        index_matches(
            append(log, epoch, line),
            install(index, CommandView::parse(line).unwrap().key(), appended_at(log, epoch, line)),
        ),
{
    let after = append(log, epoch, line);
    let new = appended_at(log, epoch, line);
    let command = CommandView::parse(line).unwrap();
    let installed = install(index, command.key(), new);
    lemma_append_records(log, epoch, line, new);
    assert forall|key: Seq<char>| #[trigger] installed.contains_key(key) implies names_record(
        after,
        installed[key],
    ) && command_at(after, installed[key]).key() == key by {
        if installed[key] != new {
            assert(index.contains_key(key));
            lemma_append_records(log, epoch, line, index[key]);
        }
    }
    assert forall|locator: Locator| #[trigger] names_record(after, locator) implies
        installed.contains_key(command_at(after, locator).key()) && !installed[command_at(
        after,
        locator,
    ).key()].before(locator) by {
        lemma_append_records(log, epoch, line, locator);
        if locator != new {
            assert(names_record(log, locator));
            let key = command_at(log, locator).key();
            if key == command.key() {
                assert(index.contains_key(key));
                assert(names_record(log, index[key]));
            }
        } else {
            if index.contains_key(command.key()) {
                assert(names_record(log, index[command.key()]));
            }
        }
    }
}

/// What a map from keys to values holds after `command`.
pub open spec fn apply(map: Map<Seq<char>, Seq<char>>, command: CommandView) -> Map<
    Seq<char>,
    Seq<char>,
> {
    match command {
        CommandView::Put { key, value } => map.insert(key, value),
        CommandView::Rm { key } => map.remove(key),
    }
}

/// Appending a readable line and offering its locator to the index applies
/// the command of the line to what the store holds, unless the index keeps a
/// locator of a later epoch for the key: then nothing changes.
pub proof fn lemma_append_contents(
    log: Log,
    index: Map<Seq<char>, Locator>,
    epoch: u64,
    line: Seq<u8>,
)
    requires
        log_wf(log),
        index_matches(log, index),
        log.contains_key(epoch),
        is_line(line),
        line.len() <= u32::MAX,
        log[epoch].len() <= u64::MAX,
        CommandView::parse(line) is Some,
    ensures
        ({
            let command = CommandView::parse(line).unwrap();
            let installed = install(index, command.key(), appended_at(log, epoch, line));
            contents(append(log, epoch, line), installed) == if index.contains_key(command.key())
                && index[command.key()].epoch > epoch {
                contents(log, index)
            } else {
                apply(contents(log, index), command)
            }
        }),
{
    let after = append(log, epoch, line);
    let new = appended_at(log, epoch, line);
    let command = CommandView::parse(line).unwrap();
    let installed = install(index, command.key(), new);
    let expected = if index.contains_key(command.key()) && index[command.key()].epoch > epoch {
        contents(log, index)
    } else {
        apply(contents(log, index), command)
    };
    lemma_append_records(log, epoch, line, new);
    assert forall|key: Seq<char>| index.contains_key(key) implies command_at(after, index[key])
        == command_at(log, index[key]) by {
        lemma_append_records(log, epoch, line, index[key]);
    }
    assert(contents(after, installed) =~= expected);
}

/// An empty segment adds no record: the index stays the index of the log and
/// the store holds what it held.
pub proof fn lemma_add_segment(log: Log, index: Map<Seq<char>, Locator>, epoch: u64)
    requires
        log_wf(log),
        index_matches(log, index),
        !log.contains_key(epoch),
    ensures
        log_wf(log.insert(epoch, Seq::empty())),
        index_matches(log.insert(epoch, Seq::empty()), index),
        contents(log.insert(epoch, Seq::empty()), index) == contents(log, index),
        forall|locator: Locator|
            names_record(log.insert(epoch, Seq::empty()), locator) <==> names_record(log, locator),
        forall|locator: Locator|
            names_record(log, locator) ==> command_at(log.insert(epoch, Seq::empty()), locator)
                == command_at(log, locator),
{
    let after = log.insert(epoch, Seq::<u8>::empty());
    assert forall|e: u64| #[trigger] after.contains_key(e) implies is_complete(after[e])
        && is_readable(after[e]) by {
        if e != epoch {
            assert(log.contains_key(e));
        }
    }
    assert forall|key: Seq<char>| #[trigger] index.contains_key(key) implies names_record(
        after,
        index[key],
    ) && command_at(after, index[key]).key() == key by {
        assert(names_record(log, index[key]));
    }
    assert forall|locator: Locator| #[trigger] names_record(after, locator) implies
        index.contains_key(command_at(after, locator).key()) && !index[command_at(
        after,
        locator,
    ).key()].before(locator) by {
        assert(names_record(log, locator));
    }
    assert(contents(after, index) =~= contents(log, index)) by {
        assert forall|key: Seq<char>| index.contains_key(key) implies command_at(after, index[key])
            == command_at(log, index[key]) by {
            assert(names_record(log, index[key]));
        }
    }
}

/// Dropping the segments below `tail`, none of which the index points into,
/// keeps the index the index of the log and what the store holds.
pub proof fn lemma_drop_segments(log: Log, index: Map<Seq<char>, Locator>, tail: u64)
    requires
        log_wf(log),
        index_matches(log, index),
        forall|key: Seq<char>| index.contains_key(key) ==> index[key].epoch >= tail,
    ensures
        log_wf(log.restrict(Set::new(|epoch: u64| epoch >= tail))),
        index_matches(log.restrict(Set::new(|epoch: u64| epoch >= tail)), index),
        contents(log.restrict(Set::new(|epoch: u64| epoch >= tail)), index) == contents(log, index),
{
    let after = log.restrict(Set::new(|epoch: u64| epoch >= tail));
    assert forall|e: u64| #[trigger] after.contains_key(e) implies is_complete(after[e])
        && is_readable(after[e]) by {
        assert(log.contains_key(e));
    }
    assert forall|key: Seq<char>| #[trigger] index.contains_key(key) implies names_record(
        after,
        index[key],
    ) && command_at(after, index[key]).key() == key by {
        assert(names_record(log, index[key]));
    }
    assert forall|locator: Locator| #[trigger] names_record(after, locator) implies
        index.contains_key(command_at(after, locator).key()) && !index[command_at(
        after,
        locator,
    ).key()].before(locator) by {
        assert(names_record(log, locator));
    }
    assert(contents(after, index) =~= contents(log, index)) by {
        assert forall|key: Seq<char>| index.contains_key(key) implies command_at(after, index[key])
            == command_at(log, index[key]) by {
            assert(names_record(log, index[key]));
        }
    }
}

/// The index of a log is unique: the log determines it.
pub proof fn lemma_index_unique(
    log: Log,
    first: Map<Seq<char>, Locator>,
    second: Map<Seq<char>, Locator>,
)
    requires
        index_matches(log, first),
        index_matches(log, second),
    ensures
        first == second,
{
    assert forall|key: Seq<char>| first.contains_key(key) implies second.contains_key(key)
        && second[key] == first[key] by {
        assert(names_record(log, first[key]));
        assert(second.contains_key(key));
        assert(names_record(log, second[key]));
    }
    assert forall|key: Seq<char>| second.contains_key(key) implies first.contains_key(key) by {
        assert(names_record(log, second[key]));
    }
    assert(first =~= second);
}

/// A record is a line.
pub proof fn lemma_record_is_line(data: Seq<u8>, start: int, end: int)
    requires
        is_record(data, start, end),
    ensures
        is_line(data.subrange(start, end)),
{
    let line = data.subrange(start, end);
    assert forall|i: int| 0 <= i < line.len() - 1 implies line[i] != crate::engines::command::NEWLINE by {
        assert(line[i] == data[start + i]);
    }
    assert(line[line.len() - 1] == data[end - 1]);
}

/// A compaction under way: the epoch that receives the copies, and the keys
/// still to copy, each with the locator that it had when compaction began.
pub struct CompactionView {
    pub epoch: u64,
    pub pending: Seq<(Seq<char>, Locator)>,
}

/// Whether `pending` holds each key of `index` once, with its locator.
pub open spec fn covers(pending: Seq<(Seq<char>, Locator)>, index: Map<Seq<char>, Locator>) -> bool {
    &&& pending.len() == index.dom().len()
    &&& forall|key: Seq<char>| #[trigger]
        index.contains_key(key) ==> pending.contains((key, index[key]))
}

/// Whether `entry` may wait for its copy: its locator still names a record of
/// its key, in an epoch before the copies, and the index either still holds
/// that locator or holds one written since compaction began.
pub open spec fn is_pending(
    log: Log,
    index: Map<Seq<char>, Locator>,
    epoch: u64,
    entry: (Seq<char>, Locator),
) -> bool {
    &&& names_record(log, entry.1)
    &&& command_at(log, entry.1).key() == entry.0
    &&& entry.1.epoch < epoch
    &&& index.contains_key(entry.0)
    &&& (index[entry.0] == entry.1 || index[entry.0].epoch > epoch)
}

/// The invariant of a compaction under way: the segment for the copies
/// exists, every entry may wait, no key waits twice, and every key whose
/// locator lies before the copies waits.
pub open spec fn compaction_wf(
    log: Log,
    index: Map<Seq<char>, Locator>,
    compaction: CompactionView,
) -> bool {
    &&& log.contains_key(compaction.epoch)
    &&& forall|i: int|
        0 <= i < compaction.pending.len() ==> is_pending(
            log,
            index,
            compaction.epoch,
            #[trigger] compaction.pending[i],
        )
    &&& forall|i: int, j: int|
        0 <= i < j < compaction.pending.len() ==> (#[trigger] compaction.pending[i]).0 != (
        #[trigger] compaction.pending[j]).0
    &&& forall|key: Seq<char>| #[trigger]
        index.contains_key(key) && index[key].epoch < compaction.epoch
            ==> compaction.pending.contains((key, index[key]))
}

/// A write to an epoch after the copies keeps the invariant of the
/// compaction.
pub proof fn lemma_write_keeps_compaction(
    log: Log,
    index: Map<Seq<char>, Locator>,
    compaction: CompactionView,
    epoch: u64,
    line: Seq<u8>,
)
    requires
        log_wf(log),
        index_matches(log, index),
        compaction_wf(log, index, compaction),
        log.contains_key(epoch),
        epoch > compaction.epoch,
        is_line(line),
        line.len() <= u32::MAX,
        log[epoch].len() <= u64::MAX,
        CommandView::parse(line) is Some,
    ensures
        compaction_wf(
            append(log, epoch, line),
            install(index, CommandView::parse(line).unwrap().key(), appended_at(log, epoch, line)),
            compaction,
        ),
{
    let after = append(log, epoch, line);
    let new = appended_at(log, epoch, line);
    let key = CommandView::parse(line).unwrap().key();
    let installed = install(index, key, new);
    assert forall|i: int| 0 <= i < compaction.pending.len() implies is_pending(
        after,
        installed,
        compaction.epoch,
        #[trigger] compaction.pending[i],
    ) by {
        lemma_append_records(log, epoch, line, compaction.pending[i].1);
    }
}

/// Copying the record of the first waiting entry into the segment for the
/// copies, and offering the copy's locator to the index, keeps the log and
/// the index sound, lets the other entries wait on, and changes nothing of
/// what the store holds.
pub proof fn lemma_copy(log: Log, index: Map<Seq<char>, Locator>, compaction: CompactionView)
    requires
        log_wf(log),
        index_matches(log, index),
        compaction_wf(log, index, compaction),
        compaction.pending.len() > 0,
        log[compaction.epoch].len() <= u64::MAX,
    ensures
        ({
            let entry = compaction.pending[0];
            let line = log[entry.1.epoch].subrange(entry.1.offset as int, entry.1.end());
            let after = append(log, compaction.epoch, line);
            let installed = install(index, entry.0, appended_at(log, compaction.epoch, line));
            &&& is_line(line)
            &&& line.len() == entry.1.length
            &&& CommandView::parse(line) is Some
            &&& CommandView::parse(line).unwrap().key() == entry.0
            &&& log_wf(after)
            &&& index_matches(after, installed)
            &&& contents(after, installed) == contents(log, index)
            &&& compaction_wf(
                after,
                installed,
                CompactionView { epoch: compaction.epoch, pending: compaction.pending.drop_first() },
            )
        }),
{
    let entry = compaction.pending[0];
    let data = log[entry.1.epoch];
    let line = data.subrange(entry.1.offset as int, entry.1.end());
    let epoch = compaction.epoch;
    let after = append(log, epoch, line);
    let new = appended_at(log, epoch, line);
    let installed = install(index, entry.0, new);
    let rest = CompactionView { epoch, pending: compaction.pending.drop_first() };
    assert(is_pending(log, index, epoch, entry));
    lemma_record_is_line(data, entry.1.offset as int, entry.1.end());
    assert(is_readable(data));
    let command = CommandView::parse(line).unwrap();
    lemma_append_keeps_index(log, index, epoch, line);
    lemma_append_contents(log, index, epoch, line);
    lemma_append_records(log, epoch, line, new);
    assert(contents(after, installed) == contents(log, index)) by {
        if !(index[entry.0].epoch > epoch) {
            assert(index[entry.0] == entry.1);
            assert(apply(contents(log, index), command) =~= contents(log, index));
        }
    }
    assert forall|i: int| 0 <= i < rest.pending.len() implies is_pending(
        after,
        installed,
        epoch,
        #[trigger] rest.pending[i],
    ) by {
        let waiting = compaction.pending[i + 1];
        assert(rest.pending[i] == waiting);
        assert(is_pending(log, index, epoch, waiting));
        assert(waiting.0 != entry.0);
        lemma_append_records(log, epoch, line, waiting.1);
    }
    assert forall|i: int, j: int| 0 <= i < j < rest.pending.len() implies (
    #[trigger] rest.pending[i]).0 != (#[trigger] rest.pending[j]).0 by {
        assert(rest.pending[i] == compaction.pending[i + 1]);
        assert(rest.pending[j] == compaction.pending[j + 1]);
    }
    assert forall|key: Seq<char>| #[trigger]
        installed.contains_key(key) && installed[key].epoch < epoch implies rest.pending.contains(
        (key, installed[key]),
    ) by {
        assert(key != entry.0);
        assert(index.contains_key(key) && index[key] == installed[key]);
        assert(compaction.pending.contains((key, index[key])));
        let i = choose|i: int|
            0 <= i < compaction.pending.len() && compaction.pending[i] == (key, index[key]);
        assert(i > 0);
        assert(rest.pending[i - 1] == compaction.pending[i]);
    }
}

/// When nothing waits any more, the index points into no epoch before the
/// copies.
pub proof fn lemma_compaction_done(
    log: Log,
    index: Map<Seq<char>, Locator>,
    compaction: CompactionView,
)
    requires
        compaction_wf(log, index, compaction),
        compaction.pending.len() == 0,
    ensures
        forall|key: Seq<char>| index.contains_key(key) ==> index[key].epoch >= compaction.epoch,
{
    assert forall|key: Seq<char>| index.contains_key(key) implies index[key].epoch
        >= compaction.epoch by {
        if index[key].epoch < compaction.epoch {
            assert(compaction.pending.contains((key, index[key])));
        }
    }
}

} // verus!
