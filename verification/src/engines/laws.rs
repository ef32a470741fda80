//! What holds of the store whatever is done with it.
use crate::engines::command::CommandView;
use crate::engines::command::NEWLINE;
use crate::engines::kvs::KvStore;
use crate::engines::kvs::can_open;
use crate::engines::kvs::opened_log;
use crate::engines::disk::can_sync;
use crate::engines::disk::lists;
use crate::engines::disk::perform_all;
use crate::engines::disk::sync_plan;
use crate::engines::index::install;
use crate::engines::locator::Locator;
use crate::engines::model::append;
use crate::engines::model::appended_at;
use crate::engines::model::apply;
use crate::engines::model::contents;
use crate::engines::model::index_matches;
use crate::engines::model::lemma_append_contents;
use crate::engines::model::lemma_append_keeps_index;
use crate::engines::model::log_wf;
use crate::engines::model::Log;
use crate::engines::segment::is_line;
use crate::engines::segment::is_record;
use crate::engines::segment::lemma_records_of_prefix;
use crate::engines::model::lemma_index_unique;
use crate::engines::model::names_record;
use crate::engines::segment::Segment;
use crate::engines::segment::complete_len;
use crate::engines::segment::epochs_rise;
use crate::engines::segment::is_complete;
use crate::engines::segment::is_readable;
use crate::engines::segment::lemma_complete_len;
use crate::engines::segment::lemma_complete_len_is;
use crate::engines::segment::lemma_log_of;
use crate::engines::segment::log_of;
use vstd::prelude::*;

verus! {

/// What a map from keys to values holds after `commands`, in order.
pub open spec fn apply_all(map: Map<Seq<char>, Seq<char>>, commands: Seq<CommandView>) -> Map<
    Seq<char>,
    Seq<char>,
>
    decreases commands.len(),
{
    if commands.len() == 0 {
        map
    } else {
        apply(apply_all(map, commands.drop_last()), commands.last())
    }
}

/// Reading one's writes: once a key is set to a value, the store holds that
/// value under the key, and goes on holding it through any writes to other
/// keys.
pub proof fn law_read_your_writes(
    held: Map<Seq<char>, Seq<char>>,
    key: Seq<char>,
    value: Seq<char>,
    later: Seq<CommandView>,
)
    requires
        forall|i: int| 0 <= i < later.len() ==> (#[trigger] later[i]).key() != key,
    ensures
        apply_all(apply(held, CommandView::Put { key, value }), later).get(key) == Some(value),
    decreases later.len(),
{
    if later.len() > 0 {
        let front = later.drop_last();
        assert forall|i: int| 0 <= i < front.len() implies (#[trigger] front[i]).key() != key by {
            assert(front[i] == later[i]);
        }
        law_read_your_writes(held, key, value, front);
        assert(later[later.len() - 1].key() != key);
    }
}

/// The last write wins: of two values set under one key, the store holds
/// the second.
pub proof fn law_last_write_wins(
    held: Map<Seq<char>, Seq<char>>,
    key: Seq<char>,
    first: Seq<char>,
    second: Seq<char>,
)
    ensures
        apply(
            apply(held, CommandView::Put { key, value: first }),
            CommandView::Put { key, value: second },
        ).get(key) == Some(second),
{
}

/// A key that was set and then removed is gone: the store holds nothing
/// under it, which is when a further removal fails with `KeyNotFound`.
pub proof fn law_removed_key_is_gone(
    held: Map<Seq<char>, Seq<char>>,
    key: Seq<char>,
    value: Seq<char>,
)
    ensures
        !apply(apply(held, CommandView::Put { key, value }), CommandView::Rm { key }).contains_key(
            key,
        ),
        apply(apply(held, CommandView::Put { key, value }), CommandView::Rm { key }).get(key)
            is None,
{
}

/// The commands of `commands` that write `key`, in their order.
pub open spec fn on_key(commands: Seq<CommandView>, key: Seq<char>) -> Seq<CommandView>
    decreases commands.len(),
{
    if commands.len() == 0 {
        Seq::empty()
    } else if commands.last().key() == key {
        on_key(commands.drop_last(), key).push(commands.last())
    } else {
        on_key(commands.drop_last(), key)
    }
}

/// What the store holds under a key is the work of the writes to that key
/// alone, in their order: writes to other keys, wherever they fall between
/// them, change nothing of it.
pub proof fn law_key_sees_own_writes(
    held: Map<Seq<char>, Seq<char>>,
    commands: Seq<CommandView>,
    key: Seq<char>,
)
    ensures
        apply_all(held, commands).get(key) == apply_all(held, on_key(commands, key)).get(key),
    decreases commands.len(),
{
    if commands.len() > 0 {
        law_key_sees_own_writes(held, commands.drop_last(), key);
        if commands.last().key() == key {
            let own = on_key(commands.drop_last(), key).push(commands.last());
            assert(own.drop_last() == on_key(commands.drop_last(), key));
            assert(own.last() == commands.last());
        }
    }
}

/// Writers that work on keys of their own do not disturb one another:
/// however their writes are interleaved, as long as each key's writes keep
/// their order, the store holds the same under every key.
pub proof fn law_interleaving(
    held: Map<Seq<char>, Seq<char>>,
    one: Seq<CommandView>,
    other: Seq<CommandView>,
    key: Seq<char>,
)
    requires
        on_key(one, key) == on_key(other, key),
    ensures
        apply_all(held, one).get(key) == apply_all(held, other).get(key),
{
    law_key_sees_own_writes(held, one, key);
    law_key_sees_own_writes(held, other, key);
}

/// A write leaves the other keys alone: the store holds under any key but
/// the one written what it held before.
pub proof fn law_write_leaves_other_keys(
    before: &KvStore,
    after: &KvStore,
    command: CommandView,
    key: Seq<char>,
)
    requires
        before.wf(),
        KvStore::wrote(before, after, command),
        command.key() != key,
    ensures
        after.contents().get(key) == before.contents().get(key),
{
}

/// Compaction changes nothing of what the store holds: not when it begins
/// with a write, and at none of its steps.
pub proof fn law_compaction_keeps_contents(before: &KvStore, after: &KvStore)
    requires
        before.wf(),
        before.compaction() is Some,
        KvStore::stepped(before, after),
    ensures
        after.contents() == before.contents(),
        forall|key: Seq<char>| after.contents().get(key) == before.contents().get(key),
{
}

/// The count of dead bytes never falls between compactions: a write that
/// begins no compaction leaves it at least as large as it was, and a write
/// that begins one sets it to zero.
pub proof fn law_dead_bytes_grow(before: &KvStore, after: &KvStore, command: CommandView)
    requires
        before.wf(),
        KvStore::wrote(before, after, command),
    ensures
        after.reclaimable() >= before.reclaimable() || (after.reclaimable() == 0
            && before.compaction() is None && after.compaction() is Some),
{
}

/// Every locator of the index lies in an epoch between the tail epoch and the
/// active epoch and names a record of a segment that the store still has.
pub proof fn law_locators_in_range(store: &KvStore, key: Seq<char>)
    requires
        store.wf(),
        store.index().contains_key(key),
    ensures
        store.tail() <= store.index()[key].epoch <= store.active(),
        names_record(store.log(), store.index()[key]),
{
}

/// Closing and opening again changes nothing: a store can be opened on the
/// segments of any store, and a store opened on them has the same log, the
/// same index and holds the same values under the same keys.
pub proof fn law_reopen(store: &KvStore, segments: Seq<Segment>, reopened: &KvStore)
    requires
        store.wf(),
        epochs_rise(segments),
        log_of(segments) == store.log(),
        reopened.wf(),
        reopened.log() == opened_log(segments),
    ensures
        can_open(segments),
        reopened.log() == store.log(),
        reopened.index() == store.index(),
        reopened.contents() == store.contents(),
{
    lemma_log_of(segments);
    assert(segments.len() > 0) by {
        assert(store.log().contains_key(store.active()));
    }
    assert(store.log().contains_key(segments[0].epoch));
    assert forall|i: int| 0 <= i < segments.len() implies is_readable(
        (#[trigger] segments[i]).data@,
    ) by {
        assert(store.log().contains_key(segments[i].epoch));
    }
    assert(opened_log(segments) =~= store.log()) by {
        assert forall|epoch: u64| store.log().contains_key(epoch) implies opened_log(
            segments,
        )[epoch] == store.log()[epoch] by {
            lemma_complete_len(store.log()[epoch]);
            assert(store.log()[epoch].take(store.log()[epoch].len() as int) == store.log()[epoch]);
        }
    }
    lemma_index_unique(store.log(), store.index(), reopened.index());
}

/// The records of `commands`, one after the other: what a segment holds after
/// these commands were written to it.
pub open spec fn records_of(commands: Seq<CommandView>) -> Seq<u8>
    decreases commands.len(),
{
    if commands.len() == 0 {
        Seq::empty()
    } else {
        records_of(commands.drop_last()) + commands.last().record()
    }
}

/// A crash loses whole records only, and only the last ones: cut at any
/// length, a segment that held the records of a sequence of writes holds,
/// once the unfinished line at its end is left out, the records of the first
/// so many of them. The write that the cut fell into is absent as a whole.
pub proof fn law_truncation_yields_prefix(commands: Seq<CommandView>, cut: int) -> (kept: int)
    requires
        forall|i: int| 0 <= i < commands.len() ==> (#[trigger] commands[i]).storable(),
        0 <= cut <= records_of(commands).len(),
    ensures
        0 <= kept <= commands.len(),
        records_of(commands).take(cut).take(complete_len(records_of(commands).take(cut)))
            == records_of(commands.take(kept)),
        records_of(commands.take(kept)).len() <= cut,
        kept < commands.len() ==> cut < records_of(commands.take(kept + 1)).len(),
    decreases commands.len(),
{
    let whole = records_of(commands);
    if commands.len() == 0 {
        assert(commands.take(0) == commands);
        assert(whole.take(cut).take(complete_len(whole.take(cut))) == whole);
        0
    } else {
        let front = commands.drop_last();
        let head = records_of(front);
        let record = commands.last().record();
        assert(commands.last().storable());
        assert forall|i: int| 0 <= i < front.len() implies (#[trigger] front[i]).storable() by {
            assert(front[i] == commands[i]);
        }
        lemma_records_complete(front);
        if cut == whole.len() {
            lemma_records_complete(commands);
            assert(whole.take(cut) == whole);
            lemma_complete_len(whole);
            assert(commands.take(commands.len() as int) == commands);
            commands.len() as int
        } else if cut <= head.len() {
            assert(whole.take(cut) == head.take(cut));
            let kept = law_truncation_yields_prefix(front, cut);
            assert(front.take(kept) == commands.take(kept));
            if kept < front.len() {
                assert(front.take(kept + 1) == commands.take(kept + 1));
            } else {
                assert(commands.take(kept + 1) == commands);
            }
            kept
        } else {
            let cut_off = whole.take(cut);
            assert(cut_off.take(head.len() as int) == head);
            assert forall|i: int| head.len() <= i < cut_off.len() implies cut_off[i]
                != NEWLINE by {
                assert(cut_off[i] == record[i - head.len()]);
            }
            lemma_complete_len_is(cut_off, head.len() as int);
            assert(commands.take(commands.len() - 1) == front);
            assert(commands.take(commands.len() as int) == commands);
            commands.len() - 1
        }
    }
}

/// The records of writes that the log can hold end with a newline.
proof fn lemma_records_complete(commands: Seq<CommandView>)
    requires
        forall|i: int| 0 <= i < commands.len() ==> (#[trigger] commands[i]).storable(),
    ensures
        is_complete(records_of(commands)),
{
    if commands.len() > 0 {
        let record = commands.last().record();
        assert(commands[commands.len() - 1].storable());
        assert(records_of(commands).last() == record.last());
    }
}

/// The log of a store with the single segment of `epoch`, to which
/// `commands` were written in order.
pub open spec fn log_of_writes(epoch: u64, commands: Seq<CommandView>) -> Log {
    Map::<u64, Seq<u8>>::empty().insert(epoch, records_of(commands))
}

/// The index of a store with the single segment of `epoch`, to which
/// `commands` were written in order.
pub open spec fn index_of_writes(epoch: u64, commands: Seq<CommandView>) -> Map<
    Seq<char>,
    Locator,
>
    decreases commands.len(),
{
    if commands.len() == 0 {
        Map::empty()
    } else {
        index_of_writes(epoch, commands.drop_last()).insert(
            commands.last().key(),
            Locator {
                epoch,
                offset: records_of(commands.drop_last()).len() as u64,
                length: commands.last().record().len() as u32,
            },
        )
    }
}

/// Writes to a single segment make a sound log with the index of the
/// writes, and a store on them holds what the writes leave, applied in
/// order to the empty map.
pub proof fn lemma_writes(epoch: u64, commands: Seq<CommandView>)
    requires
        forall|i: int| 0 <= i < commands.len() ==> (#[trigger] commands[i]).storable(),
        records_of(commands).len() <= u64::MAX,
    ensures
        log_wf(log_of_writes(epoch, commands)),
        index_matches(log_of_writes(epoch, commands), index_of_writes(epoch, commands)),
        contents(log_of_writes(epoch, commands), index_of_writes(epoch, commands)) == apply_all(
            Map::empty(),
            commands,
        ),
    decreases commands.len(),
{
    let log = log_of_writes(epoch, commands);
    let index = index_of_writes(epoch, commands);
    if commands.len() == 0 {
        assert(contents(log, index) =~= Map::<Seq<char>, Seq<char>>::empty());
    } else {
        let front = commands.drop_last();
        let record = commands.last().record();
        let before = log_of_writes(epoch, front);
        let held = index_of_writes(epoch, front);
        assert(commands[commands.len() - 1].storable());
        assert forall|i: int| 0 <= i < front.len() implies (#[trigger] front[i]).storable() by {
            assert(front[i] == commands[i]);
        }
        lemma_writes(epoch, front);
        assert(is_line(record)) by {
            assert(record.last() == NEWLINE);
        }
        lemma_append_keeps_index(before, held, epoch, record);
        lemma_append_contents(before, held, epoch, record);
        assert(append(before, epoch, record) =~= log);
        if held.contains_key(commands.last().key()) {
            assert(names_record(before, held[commands.last().key()]));
        }
        assert(install(held, commands.last().key(), appended_at(before, epoch, record)) == index);
    }
}

/// A crash loses whole writes only, and only the last ones: if the segment
/// of a store that took a sequence of writes is cut at any length, a store
/// can be opened on what is left, and it holds what the first so many of the
/// writes leave. The write that the cut fell into is absent as a whole.
pub proof fn law_crash_yields_prefix(
    commands: Seq<CommandView>,
    cut: int,
    segments: Seq<Segment>,
    reopened: &KvStore,
) -> (kept: int)
    requires
        forall|i: int| 0 <= i < commands.len() ==> (#[trigger] commands[i]).storable(),
        0 <= cut <= records_of(commands).len() <= u64::MAX,
        segments.len() == 1,
        segments[0].epoch > 0,
        segments[0].data@ == records_of(commands).take(cut),
        reopened.wf(),
        reopened.log() == opened_log(segments),
    ensures
        0 <= kept <= commands.len(),
        records_of(commands.take(kept)).len() <= cut,
        kept < commands.len() ==> cut < records_of(commands.take(kept + 1)).len(),
        can_open(segments),
        reopened.log() == log_of_writes(segments[0].epoch, commands.take(kept)),
        reopened.contents() == apply_all(Map::empty(), commands.take(kept)),
{
    let epoch = segments[0].epoch;
    let whole = records_of(commands);
    let data = whole.take(cut);
    let kept = law_truncation_yields_prefix(commands, cut);
    let survivors = commands.take(kept);
    lemma_writes(epoch, commands);
    assert(log_of_writes(epoch, commands).contains_key(epoch));
    assert(is_readable(whole));
    assert(is_readable(data)) by {
        assert forall|start: int, end: int| #[trigger] is_record(data, start, end) implies end
            - start <= u32::MAX && CommandView::parse(data.subrange(start, end)) is Some by {
            lemma_records_of_prefix(whole, cut, start, end);
        }
    }
    lemma_log_of(segments);
    assert(can_open(segments));
    assert forall|i: int| 0 <= i < survivors.len() implies (#[trigger] survivors[i]).storable() by {
        assert(survivors[i] == commands[i]);
    }
    assert(reopened.log() =~= log_of_writes(epoch, survivors)) by {
        assert(log_of(segments).contains_key(segments[0].epoch));
        assert forall|e: u64| log_of(segments).contains_key(e) implies e == epoch by {
            let i = choose|i: int| 0 <= i < segments.len() && (#[trigger] segments[i]).epoch == e;
        }
    }
    lemma_writes(epoch, survivors);
    lemma_index_unique(reopened.log(), reopened.index(), index_of_writes(epoch, survivors));
    kept
}

/// The files follow the store: if the files are those that `lengths` lists,
/// and each of them begins as its segment does, then after the actions that
/// the store asks for they hold exactly what the segments hold.
pub proof fn law_files_follow(store: &KvStore, files: Log, lengths: Seq<(u64, usize)>)
    requires
        store.wf(),
        lists(lengths, files),
        can_sync(files, store.log()),
    ensures
        perform_all(files, sync_plan(store.log(), store.epoch_list(), lengths)) == store.log(),
{
    store.lemma_epoch_list();
    crate::engines::disk::law_sync(files, store.log(), store.epoch_list(), lengths);
}

/// Files that held the segments before a write can be brought in step with
/// the segments after it: a write only appends to a segment and starts new
/// ones.
pub proof fn law_write_can_sync(before: &KvStore, after: &KvStore, command: CommandView)
    requires
        before.wf(),
        KvStore::wrote(before, after, command),
    ensures
        can_sync(before.log(), after.log()),
{
    let epoch = before.active();
    let grown = before.log()[epoch] + command.record();
    assert(grown.take(before.log()[epoch].len() as int) == before.log()[epoch]);
    assert forall|e: u64| #[trigger]
        before.log().contains_key(e) && after.log().contains_key(e) implies if before.log()[e].len()
        <= after.log()[e].len() {
        before.log()[e] == after.log()[e].take(before.log()[e].len() as int)
    } else {
        after.log()[e] == before.log()[e].take(after.log()[e].len() as int)
    } by {
        if e != epoch {
            assert(after.log()[e] == before.log()[e]);
            assert(before.log()[e].take(before.log()[e].len() as int) == before.log()[e]);
        }
    }
}

/// Files that held the segments before a step of compaction can be brought
/// in step with the segments after it: a step only appends to a segment, or
/// drops segments.
pub proof fn law_step_can_sync(before: &KvStore, after: &KvStore)
    requires
        before.wf(),
        before.compaction() is Some,
        KvStore::stepped(before, after),
    ensures
        can_sync(before.log(), after.log()),
{
    let compaction = before.compaction().unwrap();
    assert forall|e: u64| #[trigger]
        before.log().contains_key(e) && after.log().contains_key(e) implies if before.log()[e].len()
        <= after.log()[e].len() {
        before.log()[e] == after.log()[e].take(before.log()[e].len() as int)
    } else {
        after.log()[e] == before.log()[e].take(after.log()[e].len() as int)
    } by {
        if compaction.pending.len() > 0 && e == compaction.epoch {
            let entry = compaction.pending[0];
            let record = before.log()[entry.1.epoch].subrange(
                entry.1.offset as int,
                entry.1.end(),
            );
            assert((before.log()[e] + record).take(before.log()[e].len() as int)
                == before.log()[e]);
        } else {
            assert(after.log()[e] == before.log()[e]);
            assert(before.log()[e].take(before.log()[e].len() as int) == before.log()[e]);
        }
    }
}

/// The files on which a store was opened can be brought in step with its
/// segments: opening only leaves out the unfinished ends of the files.
pub proof fn law_open_can_sync(segments: Seq<Segment>)
    requires
        epochs_rise(segments),
        segments.len() > 0,
    ensures
        can_sync(log_of(segments), opened_log(segments)),
{
    assert forall|e: u64| #[trigger]
        log_of(segments).contains_key(e) && opened_log(segments).contains_key(e) implies if log_of(
        segments,
    )[e].len() <= opened_log(segments)[e].len() {
        log_of(segments)[e] == opened_log(segments)[e].take(log_of(segments)[e].len() as int)
    } else {
        opened_log(segments)[e] == log_of(segments)[e].take(opened_log(segments)[e].len() as int)
    } by {
        let data = log_of(segments)[e];
        lemma_complete_len(data);
        if complete_len(data) == data.len() {
            assert(data.take(data.len() as int) == data);
        }
    }
}

} // verus!
