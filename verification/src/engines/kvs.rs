//! The log-structured engine.
//!
//! The store keeps its segments in memory. Whoever runs it on disk writes
//! each segment to a file of its own and hands the bytes of those files back
//! when the store is opened again.
use crate::engines::command::CommandView;
use crate::engines::command::KvCommand;
use crate::engines::command::NEWLINE;
use crate::engines::disk::actions_view;
use crate::engines::disk::append_for;
use crate::engines::disk::appends;
use crate::engines::disk::find_length;
use crate::engines::disk::lists;
use crate::engines::disk::names_segments;
use crate::engines::disk::removes;
use crate::engines::disk::sync_plan;
use crate::engines::disk::DiskAction;
use crate::engines::errors::KvError;
use crate::engines::errors::Result;
use crate::engines::index::Index;
use crate::engines::index::IndexEntry;
use crate::engines::index::dead_length;
use crate::engines::index::install;
use crate::engines::index::live_total;
use crate::engines::locator::Locator;
use crate::engines::model::CompactionView;
use crate::engines::model::Log;
use crate::engines::model::append;
use crate::engines::model::appended_at;
use crate::engines::model::apply;
use crate::engines::model::command_at;
use crate::engines::model::compaction_wf;
use crate::engines::model::contents;
use crate::engines::model::covers;
use crate::engines::model::index_matches;
use crate::engines::model::lemma_add_segment;
use crate::engines::model::lemma_append_contents;
use crate::engines::model::lemma_append_keeps_index;
use crate::engines::model::lemma_compaction_done;
use crate::engines::model::lemma_copy;
use crate::engines::model::lemma_drop_segments;
use crate::engines::model::lemma_record_is_line;
use crate::engines::model::lemma_write_keeps_compaction;
use crate::engines::model::log_wf;
use crate::engines::model::names_record;
use crate::engines::segment::Segment;
use crate::engines::segment::SegmentSet;
use crate::engines::segment::complete_len;
use crate::engines::segment::epochs_rise;
use crate::engines::segment::is_complete;
use crate::engines::segment::is_line;
use crate::engines::segment::is_readable;
use crate::engines::segment::is_record;
use crate::engines::segment::lemma_complete_len_is;
use crate::engines::segment::lemma_log_of;
use crate::engines::segment::lemma_readable_from_prefix;
use crate::engines::segment::log_of;
use crate::engines::segment::total_bytes;
use crate::engines::segment::total_size;
use crate::engines::space::lemma_pending_bytes_first;
use crate::engines::space::lemma_size_after_drop;
use crate::engines::space::lemma_size_below_all;
use crate::engines::space::lemma_size_below_grown;
use crate::engines::space::lemma_size_below_push;
use crate::engines::space::pending_bytes;
use crate::engines::space::size_below;
use vstd::prelude::*;
use vstd::string::StringExecFns;

verus! {

/// The number of dead bytes beyond which a write starts a compaction, unless
/// the store was opened with another.
pub const DEFAULT_THRESHOLD: u64 = 8388608;

/// A compaction under way.
struct Compaction {
    epoch: u64,
    snapshot: Vec<IndexEntry>,
    next: usize,
}

impl View for Compaction {
    type V = CompactionView;

    closed spec fn view(&self) -> CompactionView {
        CompactionView { epoch: self.epoch, pending: pending_of(self.snapshot@, self.next as int) }
    }
}

/// The entries of `snapshot` from `next` on, as keys with their locators.
spec fn pending_of(snapshot: Seq<IndexEntry>, next: int) -> Seq<(Seq<char>, Locator)> {
    Seq::new(
        (snapshot.len() - next) as nat,
        |i: int| (snapshot[next + i].key@, snapshot[next + i].locator),
    )
}

/// The bytes that wait for their copy are the bytes that the waiting entries
/// point at.
proof fn lemma_pending_of_snapshot(snapshot: Seq<IndexEntry>, next: int)
    requires
        0 <= next <= snapshot.len(),
    ensures
        pending_bytes(pending_of(snapshot, next)) == live_total(snapshot.skip(next)),
    decreases snapshot.len(),
{
    if next == snapshot.len() {
        assert(snapshot.skip(next) == Seq::<IndexEntry>::empty());
        assert(pending_of(snapshot, next) == Seq::<(Seq<char>, Locator)>::empty());
    } else {
        let front = snapshot.drop_last();
        lemma_pending_of_snapshot(front, next);
        assert(pending_of(snapshot, next).drop_last() == pending_of(front, next));
        assert(snapshot.skip(next).drop_last() == front.skip(next));
    }
}

/// The store.
pub struct KvStore {
    segments: SegmentSet,
    index: Index,
    active_epoch: u64,
    tail_epoch: u64,
    reclaimable_bytes: u64,
    threshold: u64,
    compaction: Option<Compaction>,
}

/// The sum of `bytes` and the length `dead`, if there is one, held at the
/// largest number that fits.
pub open spec fn credited(bytes: u64, dead: Option<u32>) -> u64 {
    match dead {
        Some(length) => if bytes + length > u64::MAX {
            u64::MAX
        } else {
            (bytes + length) as u64
        },
        None => bytes,
    }
}

/// The sum of `bytes` and the length `dead`, if there is one, held at the
/// largest number that fits.
fn credit(bytes: u64, dead: Option<u32>) -> (sum: u64)
    ensures
        sum == credited(bytes, dead),
{
    match dead {
        Some(length) => if bytes > u64::MAX - length as u64 {
            u64::MAX
        } else {
            bytes + length as u64
        },
        None => bytes,
    }
}

/// An optional string as an `Option` of plain values.
pub open spec fn value_view(value: Option<String>) -> Option<Seq<char>> {
    match value {
        Some(v) => Some(v@),
        None => None,
    }
}

/// Whether the records that `index` points at fit the segments of `set`: in
/// each epoch they fill no more bytes than the segment has.
spec fn space_wf(set: &SegmentSet, index: &Index) -> bool {
    forall|epoch: u64| #[trigger]
        index.live(epoch) <= if set@.contains_key(epoch) {
            set@[epoch].len()
        } else {
            0
        }
}

/// The bytes of `set` that no record that `index` points at fills, held at
/// the largest number that fits.
spec fn dead_in(set: &SegmentSet, index: &Index) -> int {
    if total_size(set.sizes()) - index.live_bytes() > u64::MAX {
        u64::MAX as int
    } else {
        total_size(set.sizes()) - index.live_bytes()
    }
}

/// Whether a store can be opened on `segments`: their epochs rise strictly
/// from an epoch above zero, and every record in them holds a command and is
/// short enough for a locator.
pub open spec fn can_open(segments: Seq<Segment>) -> bool {
    &&& epochs_rise(segments)
    &&& segments.len() > 0 ==> segments[0].epoch > 0
    &&& forall|i: int| 0 <= i < segments.len() ==> is_readable((#[trigger] segments[i]).data@)
}

/// The log of a store opened on `segments`: each segment without the
/// unfinished line at its end, if it has one; a single empty segment of epoch
/// 1 where there is none.
pub open spec fn opened_log(segments: Seq<Segment>) -> Log {
    if segments.len() == 0 {
        Map::<u64, Seq<u8>>::empty().insert(1, Seq::empty())
    } else {
        Map::new(
            |epoch: u64| log_of(segments).contains_key(epoch),
            |epoch: u64| log_of(segments)[epoch].take(complete_len(log_of(segments)[epoch])),
        )
    }
}

/// The active epoch of a store opened on `segments`: the epoch of the last
/// segment, or 1 where there is none.
pub open spec fn opened_active(segments: Seq<Segment>) -> u64 {
    if segments.len() == 0 {
        1
    } else {
        segments.last().epoch
    }
}

/// The tail epoch of a store opened on `segments`: the epoch of the first
/// segment if there are several, and the epoch before the active one
/// otherwise.
pub open spec fn opened_tail(segments: Seq<Segment>) -> u64 {
    if segments.len() > 1 {
        segments[0].epoch
    } else {
        (opened_active(segments) - 1) as u64
    }
}

/// Replays `data` into the empty segment of `epoch`: appends each whole line
/// of `data` and offers its locator to the index. Fails at the first line
/// that is no record.
fn replay_segment(
    set: &mut SegmentSet,
    index: &mut Index,
    reclaimable: &mut u64,
    epoch: u64,
    data: &Vec<u8>,
) -> (r: Result<()>)
    requires
        old(set).wf(),
        old(index).wf(),
        log_wf(old(set)@),
        index_matches(old(set)@, old(index)@),
        old(set)@.contains_key(epoch),
        old(set)@[epoch].len() == 0,
        space_wf(old(set), old(index)),
        *old(reclaimable) == dead_in(old(set), old(index)),
    ensures
        match r {
            Ok(_) => {
                &&& final(set).wf()
                &&& final(index).wf()
                &&& space_wf(final(set), final(index))
                &&& *final(reclaimable) == dead_in(final(set), final(index))
                &&& log_wf(final(set)@)
                &&& index_matches(final(set)@, final(index)@)
                &&& final(set)@ == old(set)@.insert(epoch, data@.take(complete_len(data@)))
                &&& is_readable(data@)
            },
            Err(e) => !is_readable(data@) && e is FailToParseFile,
        },
{
    let ghost log0 = set@;
    let mut pos: usize = 0;
    let mut scan: usize = 0;
    assert(data@.take(0) == Seq::<u8>::empty());
    assert(set@[epoch] == Seq::<u8>::empty());
    assert(set@ =~= log0.insert(epoch, data@.take(0)));
    while scan < data.len()
        invariant
            pos <= scan <= data.len(),
            set.wf(),
            index.wf(),
            log_wf(set@),
            index_matches(set@, index@),
            space_wf(set, index),
            *reclaimable == dead_in(set, index),
            is_complete(data@.take(pos as int)),
            forall|i: int| pos <= i < scan ==> data@[i] != NEWLINE,
            set@ == log0.insert(epoch, data@.take(pos as int)),
        decreases data.len() - scan,
    {
        if data[scan] == NEWLINE {
            let end = scan + 1;
            proof {
                assert(is_record(data@, pos as int, end as int)) by {
                    if pos > 0 {
                        assert(data@.take(pos as int).last() == data@[pos - 1]);
                    }
                }
                lemma_record_is_line(data@, pos as int, end as int);
            }
            if end - pos > u32::MAX as usize {
                return Err(
                    KvError::FailToParseFile {
                        reason: String::from_str("the record is too long"),
                    },
                );
            }
            let line = vstd::slice::slice_subrange(data.as_slice(), pos, end);
            let command = match KvCommand::decode(line) {
                Ok(command) => command,
                Err(e) => {
                    return Err(e);
                },
            };
            proof {
                set.lemma_lengths();
                lemma_append_keeps_index(set@, index@, epoch, line@);
                assert(data@.take(pos as int) + line@ == data@.take(end as int));
            }
            let ghost before = set@;
            let ghost live0 = *index;
            let offset = match set.append(epoch, line) {
                Some(offset) => offset,
                None => {
                    return Ok(());
                },
            };
            let locator = Locator { epoch, offset, length: (end - pos) as u32 };
            let dead = index.compare_or_install(command.key().to_owned(), locator);
            proof {
                assert forall|e: u64| #[trigger]
                    index.live(e) <= if set@.contains_key(e) {
                        set@[e].len()
                    } else {
                        0
                    } by {
                    assert(live0.live(e) <= if before.contains_key(e) {
                        before[e].len()
                    } else {
                        0
                    });
                }
            }
            *reclaimable = credit(*reclaimable, dead);
            assert(set@ =~= log0.insert(epoch, data@.take(end as int)));
            pos = end;
        }
        scan = scan + 1;
    }
    proof {
        lemma_complete_len_is(data@, pos as int);
        assert(is_readable(set@[epoch]));
        lemma_readable_from_prefix(data@);
    }
    Ok(())
}

impl KvStore {
    /// The bytes of the segments, each under its epoch.
    pub closed spec fn log(&self) -> Log {
        self.segments@
    }

    /// The index: the locator of the last record of each key.
    pub closed spec fn index(&self) -> Map<Seq<char>, Locator> {
        self.index@
    }

    /// The epoch that takes the writes.
    pub closed spec fn active(&self) -> u64 {
        self.active_epoch
    }

    /// The lowest epoch that the index may point into.
    pub closed spec fn tail(&self) -> u64 {
        self.tail_epoch
    }

    /// The bytes of the records that were superseded since the last
    /// compaction began.
    pub closed spec fn reclaimable(&self) -> u64 {
        self.reclaimable_bytes
    }

    /// The number of dead bytes beyond which a write starts a compaction.
    pub closed spec fn limit(&self) -> u64 {
        self.threshold
    }

    /// The bytes that the segments hold in all.
    pub closed spec fn disk_bytes(&self) -> nat {
        total_size(self.segments.sizes())
    }

    /// The bytes that the segments of the epochs below `epoch` hold.
    pub closed spec fn bytes_below(&self, epoch: u64) -> nat {
        size_below(self.segments.sizes(), epoch)
    }

    /// The bytes of the records that the index points at.
    pub closed spec fn live_bytes(&self) -> nat {
        self.index.live_bytes()
    }

    /// The bytes of the segments that no record that the index points at
    /// fills, held at the largest number that fits.
    pub open spec fn dead_bytes(&self) -> int {
        if self.disk_bytes() - self.live_bytes() > u64::MAX {
            u64::MAX as int
        } else {
            self.disk_bytes() - self.live_bytes()
        }
    }

    /// The compaction under way, if there is one.
    pub closed spec fn compaction(&self) -> Option<CompactionView> {
        match self.compaction {
            Some(compaction) => Some(compaction@),
            None => None,
        }
    }

    /// The invariant of the parts that the store is made of.
    pub closed spec fn parts_wf(&self) -> bool {
        &&& self.segments.wf()
        &&& self.index.wf()
        &&& space_wf(&self.segments, &self.index)
        &&& match self.compaction {
            Some(compaction) => compaction.next <= compaction.snapshot@.len(),
            None => true,
        }
    }

    /// What the store holds: the keys with their values.
    pub open spec fn contents(&self) -> Map<Seq<char>, Seq<char>> {
        contents(self.log(), self.index())
    }

    /// The invariant of the store: every segment is complete and readable,
    /// the index is the index of the log, the active epoch has a segment,
    /// every segment has an epoch above zero between the tail epoch and the
    /// active epoch, and a compaction under way copies into the epoch just
    /// before the active one.
    pub open spec fn wf(&self) -> bool {
        &&& self.parts_wf()
        &&& log_wf(self.log())
        &&& index_matches(self.log(), self.index())
        &&& self.log().contains_key(self.active())
        &&& forall|epoch: u64| #[trigger]
            self.log().contains_key(epoch) ==> 0 < epoch && self.tail() <= epoch <= self.active()
        &&& match self.compaction() {
            Some(compaction) => compaction.epoch + 1 == self.active() && compaction_wf(
                self.log(),
                self.index(),
                compaction,
            ),
            None => true,
        }
    }

    /// The epoch that takes the writes.
    pub fn active_epoch(&self) -> (epoch: u64)
        ensures
            epoch == self.active(),
    {
        self.active_epoch
    }

    /// The lowest epoch that the index may point into.
    pub fn tail_epoch(&self) -> (epoch: u64)
        ensures
            epoch == self.tail(),
    {
        self.tail_epoch
    }

    /// The bytes of the records that were superseded since the last
    /// compaction began.
    pub fn reclaimable_bytes(&self) -> (bytes: u64)
        ensures
            bytes == self.reclaimable(),
    {
        self.reclaimable_bytes
    }

    /// Whether a compaction is under way.
    pub fn compaction_pending(&self) -> (pending: bool)
        ensures
            pending == self.compaction() is Some,
    {
        self.compaction.is_some()
    }

    /// A copy of the segments, in the order of their epochs.
    pub fn export(&self) -> (segments: Vec<Segment>)
        requires
            self.wf(),
        ensures
            epochs_rise(segments@),
            log_of(segments@) == self.log(),
            total_bytes(segments@) == self.disk_bytes(),
    {
        self.segments.export()
    }

    /// The epochs of the segments, in rising order.
    pub fn epochs(&self) -> (epochs: Vec<u64>)
        requires
            self.wf(),
        ensures
            epochs@ == self.epoch_list(),
            forall|epoch: u64| self.log().contains_key(epoch) <==> epochs@.contains(epoch),
            forall|i: int, j: int| 0 <= i < j < epochs@.len() ==> epochs@[i] < epochs@[j],
    {
        let epochs = self.segments.epochs();
        proof {
            self.segments.lemma_sizes();
            assert(epochs@ =~= self.epoch_list());
            assert forall|i: int, j: int| 0 <= i < j < epochs@.len() implies epochs@[i]
                < epochs@[j] by {
                assert(self.segments.sizes()[i].0 < self.segments.sizes()[j].0);
            }
        }
        epochs
    }

    /// The epochs of the segments, in rising order.
    pub closed spec fn epoch_list(&self) -> Seq<u64> {
        Seq::new(self.segments.sizes().len(), |i: int| self.segments.sizes()[i].0)
    }

    /// The list of epochs names each segment once.
    pub proof fn lemma_epoch_list(&self)
        requires
            self.wf(),
        ensures
            names_segments(self.epoch_list(), self.log()),
    {
        self.segments.lemma_sizes();
        let epochs = self.epoch_list();
        let sizes = self.segments.sizes();
        assert forall|i: int| 0 <= i < epochs.len() implies self.log().contains_key(
            #[trigger] epochs[i],
        ) by {
            assert(self.log().contains_key(sizes[i].0));
        }
        assert forall|epoch: u64| self.log().contains_key(epoch) implies epochs.contains(epoch) by {
            let i = choose|i: int| 0 <= i < sizes.len() && (#[trigger] sizes[i]).0 == epoch;
            assert(epochs[i] == epoch);
        }
        assert forall|i: int, j: int| 0 <= i < j < epochs.len() implies epochs[i] != epochs[j] by {
            assert(sizes[i].0 < sizes[j].0);
        }
    }

    /// The epochs with the lengths of their segments: what lists the files
    /// once they hold what the segments hold.
    pub fn segment_lengths(&self) -> (lengths: Vec<(u64, usize)>)
        requires
            self.wf(),
        ensures
            lists(lengths@, self.log()),
            lengths@.len() == self.epoch_list().len(),
            forall|i: int| 0 <= i < lengths@.len() ==> (#[trigger] lengths@[i]).0 == self.epoch_list()[i],
    {
        let epochs = self.segments.epochs();
        let mut lengths: Vec<(u64, usize)> = Vec::new();
        let mut i: usize = 0;
        proof {
            self.segments.lemma_sizes();
        }
        while i < epochs.len()
            invariant
                self.wf(),
                i <= epochs.len(),
                epochs@.len() == self.segments.sizes().len(),
                forall|j: int|
                    0 <= j < epochs@.len() ==> epochs@[j] == (#[trigger] self.segments.sizes()[j]).0,
                forall|j: int|
                    0 <= j < self.segments.sizes().len() ==> self.log().contains_key(
                        (#[trigger] self.segments.sizes()[j]).0,
                    ) && self.log()[self.segments.sizes()[j].0].len() == self.segments.sizes()[j].1,
                lengths@.len() == i,
                forall|j: int|
                    0 <= j < i ==> (#[trigger] lengths@[j]).0 == epochs@[j] && lengths@[j].1
                        == self.log()[epochs@[j]].len(),
            decreases epochs.len() - i,
        {
            assert(self.log().contains_key(self.segments.sizes()[i as int].0));
            let length = match self.segments.len_of(epochs[i]) {
                Some(length) => length,
                None => 0,
            };
            lengths.push((epochs[i], length));
            i = i + 1;
        }
        proof {
            assert forall|j: int| 0 <= j < lengths@.len() implies self.log().contains_key(
                (#[trigger] lengths@[j]).0,
            ) && self.log()[lengths@[j].0].len() == lengths@[j].1 by {
                assert(self.log().contains_key(self.segments.sizes()[j].0));
            }
            assert forall|epoch: u64| #[trigger]
                self.log().contains_key(epoch) implies crate::engines::disk::is_listed(
                lengths@,
                epoch,
            ) by {
                let j = choose|j: int|
                    0 <= j < self.segments.sizes().len() && (#[trigger] self.segments.sizes()[j]).0
                        == epoch;
                assert(lengths@[j].0 == epoch);
            }
            assert forall|j: int| 0 <= j < lengths@.len() implies (#[trigger] lengths@[j]).0
                == self.epoch_list()[j] by {
                assert(epochs@[j] == self.segments.sizes()[j].0);
            }
        }
        lengths
    }

    /// What is to be done to the files, which `lengths` lists by epoch and
    /// length, so that they hold what the segments hold.
    pub fn sync_actions(&self, lengths: &Vec<(u64, usize)>) -> (actions: Vec<DiskAction>)
        requires
            self.wf(),
        ensures
            actions_view(actions@) == sync_plan(self.log(), self.epoch_list(), lengths@),
    {
        let epochs = self.segments.epochs();
        let ghost list = self.epoch_list();
        let mut actions: Vec<DiskAction> = Vec::new();
        let mut i: usize = 0;
        proof {
            self.segments.lemma_sizes();
            assert(epochs@ =~= list);
            assert(list.take(0) == Seq::<u64>::empty());
            assert(actions_view(actions@) =~= appends(self.log(), list.take(0), lengths@));
        }
        while i < epochs.len()
            invariant
                self.wf(),
                i <= epochs.len(),
                epochs@ == list,
                forall|j: int| 0 <= j < list.len() ==> self.log().contains_key(#[trigger] list[j]),
                actions_view(actions@) == appends(self.log(), list.take(i as int), lengths@),
            decreases epochs.len() - i,
        {
            let epoch = epochs[i];
            let ghost done = actions_view(actions@);
            proof {
                assert(list.take(i + 1).drop_last() == list.take(i as int));
                assert(list.take(i + 1).last() == epoch);
                assert(self.log().contains_key(list[i as int]));
            }
            let held = find_length(lengths, epoch);
            let whole = match self.segments.len_of(epoch) {
                Some(whole) => whole,
                None => 0,
            };
            match held {
                None => {
                    if let Some(bytes) = self.segments.tail_of(epoch, 0) {
                        assert(self.log()[epoch].skip(0) == self.log()[epoch]);
                        actions.push(
                            DiskAction::Append { epoch, bytes: vstd::slice::slice_to_vec(bytes) },
                        );
                    }
                },
                Some(length) => {
                    if length < whole {
                        if let Some(bytes) = self.segments.tail_of(epoch, length) {
                            actions.push(
                                DiskAction::Append {
                                    epoch,
                                    bytes: vstd::slice::slice_to_vec(bytes),
                                },
                            );
                        }
                    } else if length > whole {
                        actions.push(DiskAction::Truncate { epoch, length: whole });
                    }
                },
            }
            proof {
                match append_for(self.log(), epoch, lengths@) {
                    Some(action) => {
                        assert(actions_view(actions@) =~= done.push(action));
                    },
                    None => {
                        assert(actions_view(actions@) =~= done);
                    },
                }
            }
            i = i + 1;
        }
        let ghost appended = actions_view(actions@);
        let mut j: usize = 0;
        proof {
            assert(list.take(i as int) == list);
            assert(lengths@.take(0) == Seq::<(u64, usize)>::empty());
            assert(appended + removes(self.log(), lengths@.take(0)) == appended);
        }
        while j < lengths.len()
            invariant
                self.wf(),
                j <= lengths.len(),
                appended == appends(self.log(), list, lengths@),
                actions_view(actions@) == appended + removes(self.log(), lengths@.take(j as int)),
            decreases lengths.len() - j,
        {
            let ghost done = actions_view(actions@);
            proof {
                assert(lengths@.take(j + 1).drop_last() == lengths@.take(j as int));
                assert(lengths@.take(j + 1).last() == lengths@[j as int]);
            }
            if !self.segments.contains(lengths[j].0) {
                actions.push(DiskAction::Remove { epoch: lengths[j].0 });
                assert(actions_view(actions@) =~= done.push(
                    crate::engines::disk::DiskActionView::Remove { epoch: lengths@[j as int].0 },
                ));
                assert(done.push(
                    crate::engines::disk::DiskActionView::Remove { epoch: lengths@[j as int].0 },
                ) =~= appended + removes(self.log(), lengths@.take(j + 1)));
            } else {
                assert(actions_view(actions@) =~= done);
            }
            j = j + 1;
        }
        assert(lengths@.take(j as int) == lengths@);
        actions
    }

    /// The command of the last record of `key`, if the key has a record.
    fn current(&self, key: &str) -> (r: Option<KvCommand>)
        requires
            self.wf(),
        ensures
            match r {
                Some(command) => self.index().contains_key(key@) && command@ == command_at(
                    self.log(),
                    self.index()[key@],
                ),
                None => !self.index().contains_key(key@),
            },
    {
        match self.index.lookup(key) {
            Some(locator) => {
                assert(names_record(self.log(), locator));
                assert(crate::engines::segment::is_readable(self.log()[locator.epoch]));
                match self.segments.read(locator) {
                    Some(record) => match KvCommand::decode(record) {
                        Ok(command) => Some(command),
                        Err(_) => None,
                    },
                    None => None,
                }
            },
            None => None,
        }
    }

    /// The value of `key`, if the store holds the key.
    pub fn get(&self, key: String) -> (r: Result<Option<String>>)
        requires
            self.wf(),
        ensures
            r matches Ok(value) && value_view(value) == self.contents().get(key@),
    {
        match self.current(key.as_str()) {
            Some(KvCommand::Put { value, .. }) => Ok(Some(value)),
            _ => Ok(None),
        }
    }

    /// Whether `after` is `before` after `command` was written: its record
    /// stands at the end of the segment that was active, the index points at
    /// it, the dead bytes are counted, and a compaction has begun if none was
    /// under way and the dead bytes went beyond the limit.
    pub open spec fn wrote(before: &KvStore, after: &KvStore, command: CommandView) -> bool {
        let record = command.record();
        let epoch = before.active();
        let log = append(before.log(), epoch, record);
        let locator = appended_at(before.log(), epoch, record);
        let dead = credited(before.reclaimable(), dead_length(before.index(), command.key(), locator));
        &&& after.index() == before.index().insert(command.key(), locator)
        &&& after.contents() == apply(before.contents(), command)
        &&& after.tail() == before.tail()
        &&& after.limit() == before.limit()
        &&& after.disk_bytes() == before.disk_bytes() + record.len()
        &&& if before.compaction() is None && dead > before.limit() && epoch <= u64::MAX - 2 {
            &&& after.log() == log.insert((epoch + 1) as u64, Seq::empty()).insert(
                (epoch + 2) as u64,
                Seq::empty(),
            )
            &&& after.active() == epoch + 2
            &&& after.reclaimable() == 0
            &&& after.compaction() matches Some(compaction) && compaction.epoch == epoch + 1
                && covers(compaction.pending, after.index())
        } else {
            &&& after.log() == log
            &&& after.active() == epoch
            &&& after.reclaimable() == dead
            &&& after.compaction() == before.compaction()
            &&& forall|below: u64|
                below <= epoch ==> #[trigger] after.bytes_below(below) == before.bytes_below(below)
        }
    }

    /// Whether `after` is in the state of `before`.
    pub open spec fn unchanged(before: &KvStore, after: &KvStore) -> bool {
        &&& after.log() == before.log()
        &&& after.index() == before.index()
        &&& after.active() == before.active()
        &&& after.tail() == before.tail()
        &&& after.reclaimable() == before.reclaimable()
        &&& after.limit() == before.limit()
        &&& after.compaction() == before.compaction()
        &&& after.disk_bytes() == before.disk_bytes()
        &&& after.live_bytes() == before.live_bytes()
    }

    /// Begins a compaction: the active epoch moves on by two, the epoch in
    /// between is to take the copies, the count of dead bytes starts anew, and
    /// every key of the index waits for its copy.
    fn begin_compaction(&mut self)
        requires
            old(self).wf(),
            old(self).compaction() is None,
            old(self).active() <= u64::MAX - 2,
        ensures
            final(self).wf(),
            final(self).log() == old(self).log().insert(
                (old(self).active() + 1) as u64,
                Seq::empty(),
            ).insert((old(self).active() + 2) as u64, Seq::empty()),
            final(self).index() == old(self).index(),
            final(self).contents() == old(self).contents(),
            final(self).active() == old(self).active() + 2,
            final(self).tail() == old(self).tail(),
            final(self).limit() == old(self).limit(),
            final(self).reclaimable() == 0,
            final(self).compaction() matches Some(compaction) && compaction.epoch == old(
                self,
            ).active() + 1 && covers(compaction.pending, old(self).index()) && pending_bytes(
                compaction.pending,
            ) == old(self).live_bytes(),
            final(self).disk_bytes() == old(self).disk_bytes(),
            final(self).live_bytes() == old(self).live_bytes(),
            final(self).bytes_below((old(self).active() + 1) as u64) == old(self).disk_bytes(),
    {
        let prior = self.active_epoch;
        let ghost log0 = self.segments@;
        let ghost log1 = log0.insert((prior + 1) as u64, Seq::<u8>::empty());
        let ghost log2 = log1.insert((prior + 2) as u64, Seq::<u8>::empty());
        proof {
            lemma_add_segment(log0, self.index@, (prior + 1) as u64);
            lemma_add_segment(log1, self.index@, (prior + 2) as u64);
            self.segments.lemma_sizes();
            let sizes = self.segments.sizes();
            assert forall|i: int| 0 <= i < sizes.len() implies (#[trigger] sizes[i]).0 < prior
                + 1 by {
                assert(log0.contains_key(sizes[i].0));
            }
            lemma_size_below_all(sizes, (prior + 1) as u64);
            lemma_size_below_push(sizes, ((prior + 1) as u64, 0nat), (prior + 1) as u64);
            lemma_size_below_push(
                sizes.push(((prior + 1) as u64, 0nat)),
                ((prior + 2) as u64, 0nat),
                (prior + 1) as u64,
            );
            let longer = sizes.push(((prior + 1) as u64, 0nat));
            let longest = longer.push(((prior + 2) as u64, 0nat));
            assert(longer.drop_last() == sizes);
            assert(longest.drop_last() == longer);
            assert(total_size(longer) == total_size(sizes));
            assert(total_size(longest) == total_size(sizes));
        }
        self.segments.add(prior + 1);
        self.segments.add(prior + 2);
        self.active_epoch = prior + 2;
        self.reclaimable_bytes = 0;
        let snapshot = self.index.snapshot();
        let compaction = Compaction { epoch: prior + 1, snapshot, next: 0 };
        proof {
            self.index.lemma_keys();
            let view = compaction@;
            assert forall|i: int| 0 <= i < view.pending.len() implies crate::engines::model::is_pending(
                log2,
                self.index@,
                view.epoch,
                #[trigger] view.pending[i],
            ) by {
                let key = self.index.keys()[i];
                assert(self.index@.contains_key(key));
                assert(names_record(log0, self.index@[key]));
            }
            assert forall|i: int, j: int| 0 <= i < j < view.pending.len() implies (
            #[trigger] view.pending[i]).0 != (#[trigger] view.pending[j]).0 by {
                assert(self.index.keys()[i] != self.index.keys()[j]);
            }
            assert forall|key: Seq<char>| #[trigger]
                self.index@.contains_key(key) && self.index@[key].epoch
                    < view.epoch implies view.pending.contains((key, self.index@[key])) by {
                assert(self.index.keys().contains(key));
                let i = choose|i: int|
                    0 <= i < self.index.keys().len() && self.index.keys()[i] == key;
                assert(view.pending[i] == (key, self.index@[key]));
            }
            self.index.lemma_len();
            lemma_pending_of_snapshot(compaction.snapshot@, 0);
            assert(compaction.snapshot@.skip(0) == compaction.snapshot@);
        }
        self.compaction = Some(compaction);
    }

    /// Appends `record`, which holds `command`, to the active segment, offers
    /// its locator to the index and counts the dead bytes.
    fn write(&mut self, key: String, record: Vec<u8>, Ghost(command): Ghost<CommandView>)
        requires
            old(self).wf(),
            command.storable(),
            record@ == command.record(),
            key@ == command.key(),
        ensures
            final(self).wf(),
            KvStore::wrote(old(self), final(self), command),
    {
        let epoch = self.active_epoch;
        let ghost log0 = self.segments@;
        let ghost index0 = self.index@;
        proof {
            self.segments.lemma_lengths();
            assert(is_line(record@)) by {
                assert(record@.last() == crate::engines::command::NEWLINE);
            }
            lemma_append_keeps_index(log0, index0, epoch, record@);
            lemma_append_contents(log0, index0, epoch, record@);
            if index0.contains_key(key@) {
                assert(names_record(log0, index0[key@]));
            }
            if let Some(compaction) = self.compaction() {
                lemma_write_keeps_compaction(log0, index0, compaction, epoch, record@);
            }
            assert forall|e: u64| #[trigger]
                append(log0, epoch, record@).contains_key(e) implies 0 < e && self.tail() <= e
                <= self.active() by {
                assert(log0.contains_key(e));
            }
        }
        let ghost sizes0 = self.segments.sizes();
        let offset = match self.segments.append(epoch, record.as_slice()) {
            Some(offset) => offset,
            None => {
                return;
            },
        };
        let locator = Locator { epoch, offset, length: record.len() as u32 };
        let dead = self.index.compare_or_install(key, locator);
        proof {
            assert forall|e: u64| #[trigger]
                self.index.live(e) <= if self.segments@.contains_key(e) {
                    self.segments@[e].len()
                } else {
                    0
                } by {
                assert(old(self).index.live(e) <= if log0.contains_key(e) {
                    log0[e].len()
                } else {
                    0
                });
            }
        }
        self.reclaimable_bytes = credit(self.reclaimable_bytes, dead);
        if self.compaction.is_none() && self.reclaimable_bytes > self.threshold && epoch
            <= u64::MAX - 2 {
            self.begin_compaction();
        } else {
            assert forall|below: u64| below <= epoch implies #[trigger] self.bytes_below(below)
                == old(self).bytes_below(below) by {
                lemma_size_below_grown(sizes0, epoch, record@.len(), below);
            }
        }
    }

    /// Sets `key` to `value`. Fails, and changes nothing, exactly when the
    /// log cannot hold the record of the command.
    pub fn set(&mut self, key: String, value: String) -> (r: Result<()>)
        requires
            old(self).wf(),
        ensures
            final(self).wf(),
            r is Ok <==> (CommandView::Put { key: key@, value: value@ }).storable(),
            r is Ok ==> KvStore::wrote(
                old(self),
                final(self),
                CommandView::Put { key: key@, value: value@ },
            ) && final(self).contents() == old(self).contents().insert(key@, value@),
            r matches Err(e) ==> KvStore::unchanged(old(self), final(self)) && e.is_other(
                "the record cannot be stored"@,
            ),
    {
        let command = KvCommand::set(key.clone(), value);
        match command.encode_checked() {
            Some(record) => {
                self.write(key, record, Ghost(command@));
                Ok(())
            },
            None => Err(
                KvError::Other { reason: String::from_str("the record cannot be stored") },
            ),
        }
    }

    /// Removes `key`. Fails with `KeyNotFound`, and changes nothing, when the
    /// store does not hold the key; fails otherwise, and changes nothing,
    /// exactly when the log cannot hold the record of the command.
    pub fn remove(&mut self, key: String) -> (r: Result<()>)
        requires
            old(self).wf(),
        ensures
            final(self).wf(),
            r is Ok <==> old(self).contents().contains_key(key@) && (CommandView::Rm {
                key: key@,
            }).storable(),
            r is Ok ==> KvStore::wrote(old(self), final(self), CommandView::Rm { key: key@ })
                && final(self).contents() == old(self).contents().remove(key@),
            r is Err ==> KvStore::unchanged(old(self), final(self)),
            r matches Err(e) ==> if old(self).contents().contains_key(key@) {
                e.is_other("the record cannot be stored"@)
            } else {
                e is KeyNotFound
            },
    {
        match self.current(key.as_str()) {
            Some(KvCommand::Put { .. }) => {},
            _ => {
                return Err(KvError::KeyNotFound);
            },
        }
        let command = KvCommand::remove(key.clone());
        match command.encode_checked() {
            Some(record) => {
                self.write(key, record, Ghost(command@));
                Ok(())
            },
            None => Err(
                KvError::Other { reason: String::from_str("the record cannot be stored") },
            ),
        }
    }

    /// The steps that a compaction under way still takes: one for each
    /// waiting key and one to finish.
    pub open spec fn steps_left(&self) -> nat {
        match self.compaction() {
            Some(compaction) => compaction.pending.len() + 1,
            None => 0,
        }
    }

    /// Whether `after` is `before` after one step of its compaction: the
    /// record of the first waiting key was copied to the end of the segment
    /// for the copies and its locator offered to the index; or, when no key
    /// waited any more, the tail epoch moved up to the epoch of the copies
    /// and the segments below it were dropped.
    pub open spec fn stepped(before: &KvStore, after: &KvStore) -> bool {
        let compaction = before.compaction().unwrap();
        &&& after.active() == before.active()
        &&& after.limit() == before.limit()
        &&& after.contents() == before.contents()
        &&& if compaction.pending.len() > 0 {
            let entry = compaction.pending[0];
            let record = before.log()[entry.1.epoch].subrange(
                entry.1.offset as int,
                entry.1.end(),
            );
            let locator = appended_at(before.log(), compaction.epoch, record);
            &&& after.log() == append(before.log(), compaction.epoch, record)
            &&& after.index() == install(before.index(), entry.0, locator)
            &&& after.reclaimable() == credited(
                before.reclaimable(),
                dead_length(before.index(), entry.0, locator),
            )
            &&& after.tail() == before.tail()
            &&& after.compaction() == Some(
                CompactionView {
                    epoch: compaction.epoch,
                    pending: compaction.pending.drop_first(),
                },
            )
            &&& after.disk_bytes() == before.disk_bytes() + entry.1.length
            &&& after.bytes_below(compaction.epoch) == before.bytes_below(compaction.epoch)
        } else {
            &&& after.log() == before.log().restrict(
                Set::new(|epoch: u64| epoch >= compaction.epoch),
            )
            &&& after.index() == before.index()
            &&& after.reclaimable() == before.reclaimable()
            &&& after.tail() == compaction.epoch
            &&& after.compaction() is None
            &&& after.disk_bytes() + before.bytes_below(compaction.epoch) == before.disk_bytes()
        }
    }

    /// Copies the record at `source`, which belongs to the first waiting key
    /// `key`, to the segment of `epoch`, which takes the copies, and offers
    /// the locator of the copy to the index.
    fn copy_next(&mut self, epoch: u64, key: String, source: Locator)
        requires
            old(self).wf(),
            old(self).compaction() matches Some(compaction) && compaction.epoch == epoch
                && compaction.pending.len() > 0 && compaction.pending[0] == (key@, source),
        ensures
            final(self).wf(),
            KvStore::stepped(old(self), final(self)),
    {
        let ghost log0 = self.segments@;
        let ghost index0 = self.index@;
        let ghost view0 = self.compaction().unwrap();
        let ghost sizes0 = self.segments.sizes();
        proof {
            self.segments.lemma_lengths();
            lemma_copy(log0, index0, view0);
            assert forall|e: u64| #[trigger]
                append(
                    log0,
                    epoch,
                    log0[source.epoch].subrange(source.offset as int, source.end()),
                ).contains_key(e) implies 0 < e && self.tail() <= e <= self.active() by {
                assert(log0.contains_key(e));
            }
        }
        let record = match self.segments.read(source) {
            Some(bytes) => vstd::slice::slice_to_vec(bytes),
            None => {
                return;
            },
        };
        let offset = match self.segments.append(epoch, record.as_slice()) {
            Some(offset) => offset,
            None => {
                return;
            },
        };
        let locator = Locator { epoch, offset, length: source.length };
        let dead = self.index.compare_or_install(key, locator);
        self.reclaimable_bytes = credit(self.reclaimable_bytes, dead);
        if let Some(compaction) = &mut self.compaction {
            if compaction.next < compaction.snapshot.len() {
                compaction.next = compaction.next + 1;
            }
        }
        proof {
            assert(self.compaction().unwrap().pending =~= view0.pending.drop_first());
            assert forall|e: u64| #[trigger]
                self.index.live(e) <= if self.segments@.contains_key(e) {
                    self.segments@[e].len()
                } else {
                    0
                } by {
                assert(old(self).index.live(e) <= if log0.contains_key(e) {
                    log0[e].len()
                } else {
                    0
                });
            }
            lemma_size_below_grown(sizes0, epoch, record@.len(), epoch);
        }
    }

    /// Ends the compaction, of which no key waits any more: the tail epoch
    /// moves up to the epoch of the copies, and the segments below it are
    /// dropped.
    fn finish_compaction(&mut self, epoch: u64)
        requires
            old(self).wf(),
            old(self).compaction() matches Some(compaction) && compaction.epoch == epoch
                && compaction.pending.len() == 0,
        ensures
            final(self).wf(),
            KvStore::stepped(old(self), final(self)),
    {
        let ghost log0 = self.segments@;
        let ghost index0 = self.index@;
        let ghost view0 = self.compaction().unwrap();
        let ghost sizes0 = self.segments.sizes();
        proof {
            lemma_compaction_done(log0, index0, view0);
            lemma_drop_segments(log0, index0, epoch);
        }
        self.segments.drop_below(epoch);
        self.tail_epoch = epoch;
        self.compaction = None;
        proof {
            let keep = choose|keep: int|
                0 <= keep <= sizes0.len() && #[trigger] sizes0.skip(keep) == self.segments.sizes()
                    && (forall|i: int| 0 <= i < keep ==> (#[trigger] sizes0[i]).0 < epoch)
                    && (forall|i: int|
                    keep <= i < sizes0.len() ==> (#[trigger] sizes0[i]).0 >= epoch);
            lemma_size_after_drop(sizes0, keep, epoch);
            assert forall|e: u64| #[trigger]
                self.index.live(e) <= if self.segments@.contains_key(e) {
                    self.segments@[e].len()
                } else {
                    0
                } by {
                if e < epoch {
                    self.index.lemma_live_none(e);
                } else {
                    assert(old(self).index.live(e) <= if log0.contains_key(e) {
                        log0[e].len()
                    } else {
                        0
                    });
                }
            }
        }
    }

    /// Takes one step of the compaction under way, if there is one, and
    /// tells whether one is still under way afterwards.
    pub fn compact_step(&mut self) -> (more: bool)
        requires
            old(self).wf(),
        ensures
            final(self).wf(),
            more == final(self).compaction() is Some,
            final(self).contents() == old(self).contents(),
            match old(self).compaction() {
                Some(_) => KvStore::stepped(old(self), final(self)) && final(self).steps_left()
                    < old(self).steps_left(),
                None => KvStore::unchanged(old(self), final(self)),
            },
    {
        let next = match &self.compaction {
            Some(compaction) => {
                if compaction.next < compaction.snapshot.len() {
                    let entry = &compaction.snapshot[compaction.next];
                    Some((compaction.epoch, Some((entry.key.clone(), entry.locator))))
                } else {
                    Some((compaction.epoch, None))
                }
            },
            None => None,
        };
        match next {
            Some((epoch, Some((key, source)))) => {
                self.copy_next(epoch, key, source);
                true
            },
            Some((epoch, None)) => {
                self.finish_compaction(epoch);
                false
            },
            None => false,
        }
    }

    /// Begins a compaction unless one is under way or the epochs are used
    /// up, and tells whether one is under way afterwards.
    pub fn start_compaction(&mut self) -> (started: bool)
        requires
            old(self).wf(),
        ensures
            final(self).wf(),
            started == final(self).compaction() is Some,
            final(self).contents() == old(self).contents(),
            final(self).index() == old(self).index(),
            final(self).tail() == old(self).tail(),
            final(self).limit() == old(self).limit(),
            final(self).disk_bytes() == old(self).disk_bytes(),
            final(self).live_bytes() == old(self).live_bytes(),
            if old(self).compaction() is None && old(self).active() <= u64::MAX - 2 {
                &&& started
                &&& pending_bytes(final(self).compaction().unwrap().pending) == old(
                    self,
                ).live_bytes()
                &&& final(self).bytes_below((old(self).active() + 1) as u64) == old(
                    self,
                ).disk_bytes()
                &&& final(self).active() == old(self).active() + 2
                &&& final(self).reclaimable() == 0
                &&& final(self).log() == old(self).log().insert(
                    (old(self).active() + 1) as u64,
                    Seq::empty(),
                ).insert((old(self).active() + 2) as u64, Seq::empty())
                &&& final(self).compaction().unwrap().epoch == old(self).active() + 1
                &&& covers(final(self).compaction().unwrap().pending, old(self).index())
            } else {
                KvStore::unchanged(old(self), final(self))
            },
    {
        if self.compaction.is_none() && self.active_epoch <= u64::MAX - 2 {
            self.begin_compaction();
        }
        self.compaction.is_some()
    }

    /// Compacts the store: begins a compaction if none is under way and
    /// takes every step of it. Afterwards no compaction is under way, and the
    /// store holds what it held.
    pub fn compact_file(&mut self)
        requires
            old(self).wf(),
        ensures
            final(self).wf(),
            final(self).compaction() is None,
            final(self).contents() == old(self).contents(),
            final(self).limit() == old(self).limit(),
            final(self).index().dom() == old(self).index().dom(),
            final(self).active() == if old(self).compaction() is None && old(self).active()
                <= u64::MAX - 2 {
                (old(self).active() + 2) as u64
            } else {
                old(self).active()
            },
            final(self).tail() == if old(self).compaction() is None && old(self).active()
                > u64::MAX - 2 {
                old(self).tail()
            } else {
                (final(self).active() - 1) as u64
            },
            old(self).compaction() is None ==> final(self).disk_bytes() <= old(self).disk_bytes(),
            old(self).compaction() is None && old(self).active() <= u64::MAX - 2 ==> {
                &&& final(self).disk_bytes() == old(self).live_bytes()
                &&& final(self).log().dom() =~= set![final(self).tail(), final(self).active()]
                &&& final(self).log()[final(self).active()].len() == 0
                &&& forall|key: Seq<char>|
                    final(self).index().contains_key(key) ==> (#[trigger] final(self).index()[key]).epoch
                        == final(self).tail()
            },
    {
        proof {
            self.lemma_live_bytes_fit();
        }
        let mut more = self.start_compaction();
        while more
            invariant
                self.wf(),
                more == self.compaction() is Some,
                self.contents() == old(self).contents(),
                self.limit() == old(self).limit(),
                self.index().dom() == old(self).index().dom(),
                self.active() == if old(self).compaction() is None && old(self).active()
                    <= u64::MAX - 2 {
                    (old(self).active() + 2) as u64
                } else {
                    old(self).active()
                },
                old(self).compaction() is None && old(self).active() > u64::MAX - 2
                    ==> self.compaction() is None,
                self.compaction() is None ==> self.tail() == if old(self).compaction() is None
                    && old(self).active() > u64::MAX - 2 {
                    old(self).tail()
                } else {
                    (self.active() - 1) as u64
                },
                old(self).live_bytes() <= old(self).disk_bytes(),
                old(self).compaction() is None && old(self).active() <= u64::MAX - 2
                    ==> self.log().contains_key(self.active()) && self.log()[self.active()].len()
                    == 0,
                old(self).compaction() is None && old(self).active() <= u64::MAX - 2
                    && self.compaction() is None ==> self.log().dom() =~= set![
                    self.tail(),
                    self.active(),
                ] && (forall|key: Seq<char>|
                    self.index().contains_key(key) ==> (#[trigger] self.index()[key]).epoch
                        == self.tail()),
                old(self).compaction() is None ==> match self.compaction() {
                    Some(compaction) => self.disk_bytes() + pending_bytes(compaction.pending)
                        == old(self).disk_bytes() + old(self).live_bytes() && self.bytes_below(
                        compaction.epoch,
                    ) == old(self).disk_bytes(),
                    None => self.disk_bytes() <= old(self).disk_bytes() && (old(self).active()
                        <= u64::MAX - 2 ==> self.disk_bytes() == old(self).live_bytes()),
                },
            decreases self.steps_left(),
        {
            proof {
                let compaction = self.compaction().unwrap();
                if compaction.pending.len() > 0 {
                    lemma_pending_bytes_first(compaction.pending);
                    assert(crate::engines::model::is_pending(
                        self.log(),
                        self.index(),
                        compaction.epoch,
                        compaction.pending[0],
                    ));
                    assert(self.index().insert(
                        compaction.pending[0].0,
                        self.index()[compaction.pending[0].0],
                    ).dom() =~= self.index().dom());
                }
            }
            let ghost before = self.index();
            let ghost stepping = *self;
            more = self.compact_step();
            proof {
                assert(self.index().dom() =~= before.dom());
                if self.compaction() is None {
                    let tail = self.tail();
                    lemma_compaction_done(
                        stepping.log(),
                        stepping.index(),
                        stepping.compaction().unwrap(),
                    );
                    assert(self.log().dom() =~= set![self.tail(), self.active()]) by {
                        assert(stepping.log().contains_key(tail));
                        assert(stepping.log().contains_key(stepping.active()));
                        assert forall|e: u64| self.log().contains_key(e) implies e == tail || e
                            == self.active() by {
                            assert(stepping.log().contains_key(e));
                        }
                    }
                    if old(self).compaction() is None && old(self).active() <= u64::MAX - 2 {
                        assert forall|key: Seq<char>| self.index().contains_key(key) implies (
                        #[trigger] self.index()[key]).epoch == tail by {
                            assert(names_record(self.log(), self.index()[key]));
                            assert(self.log().contains_key(self.index()[key].epoch));
                        }
                    }
                }
            }
        }
    }

    /// The keys of the index, in the order in which they entered it.
    pub closed spec fn key_list(&self) -> Seq<Seq<char>> {
        self.index.keys()
    }

    /// What the counts of bytes count: the bytes on disk are the lengths of
    /// the segments, summed over the epochs, and the live bytes are the
    /// lengths of the records that the index points at, summed over the keys.
    pub proof fn lemma_bytes(&self)
        requires
            self.wf(),
        ensures
            self.disk_bytes() == crate::engines::space::log_bytes(self.log(), self.epoch_list()),
            forall|epoch: u64| #[trigger]
                self.bytes_below(epoch) == crate::engines::space::log_bytes_below(
                    self.log(),
                    self.epoch_list(),
                    epoch,
                ),
            self.live_bytes() == crate::engines::space::index_bytes(self.index(), self.key_list()),
            names_segments(self.epoch_list(), self.log()),
            forall|i: int|
                0 <= i < self.key_list().len() ==> self.index().contains_key(
                    #[trigger] self.key_list()[i],
                ),
            forall|key: Seq<char>| self.index().contains_key(key) ==> self.key_list().contains(key),
            forall|i: int, j: int|
                0 <= i < j < self.key_list().len() ==> #[trigger] self.key_list()[i]
                    != #[trigger] self.key_list()[j],
    {
        self.segments.lemma_sizes();
        self.lemma_epoch_list();
        crate::engines::space::lemma_log_bytes(
            self.log(),
            self.epoch_list(),
            self.segments.sizes(),
        );
        assert forall|epoch: u64| #[trigger]
            self.bytes_below(epoch) == crate::engines::space::log_bytes_below(
                self.log(),
                self.epoch_list(),
                epoch,
            ) by {
            crate::engines::space::lemma_log_bytes_below(
                self.log(),
                self.epoch_list(),
                self.segments.sizes(),
                epoch,
            );
        }
        self.index.lemma_live_bytes();
        self.index.lemma_keys();
    }

    /// The records that the index points at fit the segments: the live bytes
    /// are at most the bytes that the segments hold.
    pub proof fn lemma_live_bytes_fit(&self)
        requires
            self.wf(),
        ensures
            self.live_bytes() <= self.disk_bytes(),
    {
        self.segments.lemma_sizes();
        let sizes = self.segments.sizes();
        assert forall|key: Seq<char>| #[trigger]
            self.index@.contains_key(key) implies crate::engines::index::names_epoch(
            sizes,
            self.index@[key].epoch,
        ) by {
            assert(names_record(self.log(), self.index@[key]));
        }
        assert forall|i: int| 0 <= i < sizes.len() implies self.index.live(
            (#[trigger] sizes[i]).0,
        ) <= sizes[i].1 by {
            assert(self.segments@.contains_key(sizes[i].0));
        }
        self.index.lemma_live_fits(sizes);
    }

    /// Opens a store on `segments`, the segments of an earlier store or none,
    /// with the default limit on dead bytes.
    pub fn open(segments: Vec<Segment>) -> (r: Result<KvStore>)
        ensures
            match r {
                Ok(store) => can_open(segments@) && store.wf() && store.log() == opened_log(
                    segments@,
                ) && store.compaction() is None && store.limit() == DEFAULT_THRESHOLD
                    && store.reclaimable() == store.dead_bytes() && store.active()
                    == opened_active(segments@) && store.tail() == opened_tail(segments@),
                Err(e) => !can_open(segments@) && if epochs_rise(segments@) && (segments@.len() > 0
                    ==> segments@[0].epoch > 0) {
                    e is FailToParseFile
                } else {
                    e.is_other("the epochs of the segments do not rise from one"@)
                },
            },
    {
        KvStore::open_with_threshold(segments, DEFAULT_THRESHOLD)
    }

    /// Opens a store on `segments`, the segments of an earlier store or none:
    /// rebuilds the index from the records in the order of their epochs and
    /// offsets, and leaves out an unfinished line at the end of a segment.
    /// The last segment becomes the active one. Fails if the epochs do not
    /// rise from an epoch above zero, or if a line is no record.
    pub fn open_with_threshold(segments: Vec<Segment>, threshold: u64) -> (r: Result<KvStore>)
        ensures
            match r {
                Ok(store) => can_open(segments@) && store.wf() && store.log() == opened_log(
                    segments@,
                ) && store.compaction() is None && store.limit() == threshold
                    && store.reclaimable() == store.dead_bytes() && store.active()
                    == opened_active(segments@) && store.tail() == opened_tail(segments@),
                Err(e) => !can_open(segments@) && if epochs_rise(segments@) && (segments@.len() > 0
                    ==> segments@[0].epoch > 0) {
                    e is FailToParseFile
                } else {
                    e.is_other("the epochs of the segments do not rise from one"@)
                },
            },
    {
        if !crate::engines::segment::epochs_rise_exec(&segments) || (segments.len() > 0
            && segments[0].epoch == 0) {
            return Err(
                KvError::Other {
                    reason: String::from_str("the epochs of the segments do not rise from one"),
                },
            );
        }
        let mut set = SegmentSet::new();
        let mut index = Index::new();
        let mut reclaimable: u64 = 0;
        let mut s: usize = 0;
        proof {
            lemma_log_of(segments@);
        }
        while s < segments.len()
            invariant
                s <= segments.len(),
                epochs_rise(segments@),
                segments@.len() > 0 ==> segments@[0].epoch > 0,
                set.wf(),
                index.wf(),
                log_wf(set@),
                index_matches(set@, index@),
                space_wf(&set, &index),
                reclaimable == dead_in(&set, &index),
                forall|i: int|
                    0 <= i < s ==> set@.contains_key((#[trigger] segments@[i]).epoch)
                        && set@[segments@[i].epoch] == segments@[i].data@.take(
                        complete_len(segments@[i].data@),
                    ) && is_readable(segments@[i].data@),
                forall|epoch: u64| #[trigger]
                    set@.contains_key(epoch) ==> exists|i: int|
                        0 <= i < s && (#[trigger] segments@[i]).epoch == epoch,
            decreases segments.len() - s,
        {
            let epoch = segments[s].epoch;
            let ghost before = set@;
            proof {
                assert forall|e: u64| before.contains_key(e) implies e < epoch by {
                    let i = choose|i: int| 0 <= i < s && (#[trigger] segments@[i]).epoch == e;
                    assert(segments@[i].epoch < segments@[s as int].epoch);
                }
                lemma_add_segment(before, index@, epoch);
            }
            set.add(epoch);
            match replay_segment(&mut set, &mut index, &mut reclaimable, epoch, &segments[s].data) {
                Ok(_) => {},
                Err(e) => {
                    assert(!is_readable(segments@[s as int].data@));
                    return Err(e);
                },
            }
            proof {
                assert forall|i: int| 0 <= i < s + 1 implies set@.contains_key(
                    (#[trigger] segments@[i]).epoch,
                ) && set@[segments@[i].epoch] == segments@[i].data@.take(
                    complete_len(segments@[i].data@),
                ) && is_readable(segments@[i].data@) by {
                    if i < s {
                        assert(before.contains_key(segments@[i].epoch));
                        assert(segments@[i].epoch < segments@[s as int].epoch);
                    }
                }
                assert forall|e: u64| #[trigger] set@.contains_key(e) implies exists|i: int|
                    0 <= i < s + 1 && (#[trigger] segments@[i]).epoch == e by {
                    if e == epoch {
                        assert(segments@[s as int].epoch == e);
                    } else {
                        assert(before.contains_key(e));
                        let i = choose|i: int| 0 <= i < s && (#[trigger] segments@[i]).epoch == e;
                        assert(segments@[i].epoch == e);
                    }
                }
            }
            s = s + 1;
        }
        let (active_epoch, tail_epoch) = if segments.len() == 0 {
            proof {
                lemma_add_segment(set@, index@, 1);
            }
            set.add(1);
            (1u64, 0u64)
        } else if segments.len() == 1 {
            (segments[0].epoch, segments[0].epoch - 1)
        } else {
            (segments[segments.len() - 1].epoch, segments[0].epoch)
        };
        let store = KvStore {
            segments: set,
            index,
            active_epoch,
            tail_epoch,
            reclaimable_bytes: reclaimable,
            threshold,
            compaction: None,
        };
        proof {
            assert(store.log() =~= opened_log(segments@));
            assert forall|epoch: u64| #[trigger] store.log().contains_key(epoch) implies 0 < epoch
                && store.tail() <= epoch <= store.active() by {
                if segments@.len() > 0 {
                    let i = choose|i: int|
                        0 <= i < segments@.len() && (#[trigger] segments@[i]).epoch == epoch;
                    if 0 < i {
                        assert(segments@[0].epoch < segments@[i].epoch);
                    }
                    if i < segments@.len() - 1 {
                        assert(segments@[i].epoch < segments@[segments@.len() - 1].epoch);
                    }
                }
            }
            if segments@.len() > 0 {
                assert(store.log().contains_key(segments@[segments@.len() - 1].epoch));
            }
        }
        Ok(store)
    }
}

} // verus!
