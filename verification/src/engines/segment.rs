//! Segments: the append-only byte logs, one per epoch, that hold the records.
//!
//! A record fills one line of its segment, the newline included. A line that
//! has no newline yet, as a crash may leave it at the end of a segment, is no
//! record.
use crate::engines::command::CommandView;
use crate::engines::command::NEWLINE;
use crate::engines::locator::Locator;
use vstd::prelude::*;

verus! {

/// Whether the bytes of `data` from `start` up to `end` are one record: a
/// whole line with its newline.
pub open spec fn is_record(data: Seq<u8>, start: int, end: int) -> bool {
    &&& 0 <= start < end <= data.len()
    &&& (start == 0 || data[start - 1] == NEWLINE)
    &&& data[end - 1] == NEWLINE
    &&& forall|i: int| start <= i < end - 1 ==> data[i] != NEWLINE
}

/// Whether `data` ends where a record ends, so that the next record may be
/// appended.
pub open spec fn is_complete(data: Seq<u8>) -> bool {
    data.len() == 0 || data.last() == NEWLINE
}

/// Whether `bytes` is one line with its newline: what a single record
/// consists of.
pub open spec fn is_line(bytes: Seq<u8>) -> bool {
    is_record(bytes, 0, bytes.len() as int)
}

/// Whether every record of `data` holds a command and is short enough for a
/// locator.
pub open spec fn is_readable(data: Seq<u8>) -> bool {
    forall|start: int, end: int| #[trigger]
        is_record(data, start, end) ==> end - start <= u32::MAX && CommandView::parse(
            data.subrange(start, end),
        ) is Some
}

/// The length of the longest prefix of `data` that is complete: what is left
/// when an unfinished last line is cut off.
pub open spec fn complete_len(data: Seq<u8>) -> int
    decreases data.len(),
{
    if data.len() == 0 {
        0
    } else if data.last() == NEWLINE {
        data.len() as int
    } else {
        complete_len(data.drop_last())
    }
}

/// The longest complete prefix is a complete prefix, and nothing after it is
/// a newline.
pub proof fn lemma_complete_len(data: Seq<u8>)
    ensures
        0 <= complete_len(data) <= data.len(),
        is_complete(data.take(complete_len(data))),
        forall|i: int| complete_len(data) <= i < data.len() ==> data[i] != NEWLINE,
        is_complete(data) ==> complete_len(data) == data.len(),
    decreases data.len(),
{
    if data.len() > 0 && data.last() != NEWLINE {
        let front = data.drop_last();
        lemma_complete_len(front);
        assert(front.take(complete_len(data)) == data.take(complete_len(data)));
        assert forall|i: int| complete_len(data) <= i < data.len() implies data[i] != NEWLINE by {
            if i < front.len() {
                assert(front[i] == data[i]);
            }
        }
    }
}

/// A complete prefix after which no newline comes is the longest complete
/// prefix.
pub proof fn lemma_complete_len_is(data: Seq<u8>, at: int)
    requires
        0 <= at <= data.len(),
        is_complete(data.take(at)),
        forall|i: int| at <= i < data.len() ==> data[i] != NEWLINE,
    ensures
        complete_len(data) == at,
    decreases data.len(),
{
    if data.len() == 0 {
    } else if at == data.len() {
        assert(data.take(at) == data);
    } else {
        let front = data.drop_last();
        assert(front.take(at) == data.take(at));
        assert forall|i: int| at <= i < front.len() implies front[i] != NEWLINE by {
            assert(front[i] == data[i]);
        }
        lemma_complete_len_is(front, at);
    }
}

/// A segment is readable if its longest complete prefix is: what comes after
/// that prefix is part of no record.
pub proof fn lemma_readable_from_prefix(data: Seq<u8>)
    requires
        is_readable(data.take(complete_len(data))),
    ensures
        is_readable(data),
{
    lemma_complete_len(data);
    let cut = complete_len(data);
    assert forall|start: int, end: int| #[trigger] is_record(data, start, end) implies end - start
        <= u32::MAX && CommandView::parse(data.subrange(start, end)) is Some by {
        assert(end <= cut) by {
            if end > cut {
                assert(data[end - 1] == NEWLINE);
            }
        }
        lemma_records_of_prefix(data, cut, start, end);
        assert(is_record(data.take(cut), start, end));
    }
}

/// Cutting a segment at any length keeps exactly the records that end before
/// the cut: each of them whole and unchanged, and no part of any other.
pub proof fn lemma_records_of_prefix(data: Seq<u8>, cut: int, start: int, end: int)
    requires
        0 <= cut <= data.len(),
    ensures
        is_record(data.take(cut), start, end) <==> is_record(data, start, end) && end <= cut,
        is_record(data.take(cut), start, end) ==> data.take(cut).subrange(start, end)
            == data.subrange(start, end),
{
    let prefix = data.take(cut);
    if is_record(prefix, start, end) {
        assert(prefix.subrange(start, end) == data.subrange(start, end));
        assert(prefix[end - 1] == data[end - 1]);
        if start > 0 {
            assert(prefix[start - 1] == data[start - 1]);
        }
        assert forall|i: int| start <= i < end - 1 implies data[i] != NEWLINE by {
            assert(prefix[i] == data[i]);
        }
    }
    if is_record(data, start, end) && end <= cut {
        assert forall|i: int| start <= i < end - 1 implies prefix[i] != NEWLINE by {
            assert(prefix[i] == data[i]);
        }
    }
}

/// Appending one line to a complete segment adds exactly one record, the
/// line itself at the old end, and leaves the others as they were.
pub proof fn lemma_records_after_append(data: Seq<u8>, line: Seq<u8>, start: int, end: int)
    requires
        is_complete(data),
        is_line(line),
    ensures
        is_complete(data + line),
        is_record(data + line, start, end) <==> is_record(data, start, end) || (start
            == data.len() && end == data.len() + line.len()),
        is_record(data, start, end) ==> (data + line).subrange(start, end) == data.subrange(
            start,
            end,
        ),
        (data + line).subrange(data.len() as int, (data.len() + line.len()) as int) == line,
{
    let whole = data + line;
    assert(whole.subrange(data.len() as int, (data.len() + line.len()) as int) == line);
    if is_record(data, start, end) {
        assert(whole.subrange(start, end) == data.subrange(start, end));
        assert forall|i: int| start <= i < end - 1 implies whole[i] != NEWLINE by {
            assert(whole[i] == data[i]);
        }
        assert(whole[end - 1] == data[end - 1]);
        if start > 0 {
            assert(whole[start - 1] == data[start - 1]);
        }
    }
    if is_record(whole, start, end) {
        if start < data.len() {
            if end > data.len() {
                assert(whole[data.len() - 1] == data[data.len() - 1]);
                assert(false);
            }
            assert forall|i: int| start <= i < end - 1 implies data[i] != NEWLINE by {
                assert(whole[i] == data[i]);
            }
            assert(whole[end - 1] == data[end - 1]);
            if start > 0 {
                assert(whole[start - 1] == data[start - 1]);
            }
        } else {
            assert(start == data.len()) by {
                if start > data.len() {
                    assert(line[start - 1 - data.len()] == whole[start - 1]);
                }
            }
            assert(end == whole.len()) by {
                if end < whole.len() {
                    assert(line[end - 1 - data.len()] == whole[end - 1]);
                }
            }
        }
    }
    if start == data.len() && end == data.len() + line.len() {
        assert forall|i: int| start <= i < end - 1 implies whole[i] != NEWLINE by {
            assert(whole[i] == line[i - data.len()]);
        }
        assert(whole[end - 1] == line[line.len() - 1]);
        if start > 0 {
            assert(whole[start - 1] == data[data.len() - 1]);
        }
    }
}

/// One segment: the bytes written under one epoch.
#[derive(Debug, Clone, PartialEq, Eq)]
pub struct Segment {
    /// The epoch of the segment, which names it.
    pub epoch: u64,
    /// What has been written to the segment.
    pub data: Vec<u8>,
}

/// The segments in `segments` as a map from epoch to bytes; where an epoch
/// occurs twice, the later segment counts.
pub open spec fn log_of(segments: Seq<Segment>) -> Map<u64, Seq<u8>>
    decreases segments.len(),
{
    if segments.len() == 0 {
        Map::empty()
    } else {
        log_of(segments.drop_last()).insert(segments.last().epoch, segments.last().data@)
    }
}

/// Whether the epochs of `segments` rise strictly.
pub open spec fn epochs_rise(segments: Seq<Segment>) -> bool {
    forall|i: int, j: int|
        0 <= i < j < segments.len() ==> (#[trigger] segments[i]).epoch < (
        #[trigger] segments[j]).epoch
}

/// The map of segments whose epochs rise holds each segment under its epoch
/// and nothing else.
pub proof fn lemma_log_of(segments: Seq<Segment>)
    requires
        epochs_rise(segments),
    ensures
        log_of(segments).dom().finite(),
        forall|i: int|
            0 <= i < segments.len() ==> log_of(segments).contains_key(
                (#[trigger] segments[i]).epoch,
            ) && log_of(segments)[segments[i].epoch] == segments[i].data@,
        forall|epoch: u64| #[trigger]
            log_of(segments).contains_key(epoch) ==> exists|i: int|
                0 <= i < segments.len() && (#[trigger] segments[i]).epoch == epoch,
    decreases segments.len(),
{
    if segments.len() > 0 {
        let front = segments.drop_last();
        assert forall|i: int, j: int| 0 <= i < j < front.len() implies (#[trigger] front[i]).epoch
            < (#[trigger] front[j]).epoch by {
            assert(front[i] == segments[i] && front[j] == segments[j]);
        }
        lemma_log_of(front);
        assert forall|i: int| 0 <= i < segments.len() implies log_of(segments).contains_key(
            (#[trigger] segments[i]).epoch,
        ) && log_of(segments)[segments[i].epoch] == segments[i].data@ by {
            if i < front.len() {
                assert(front[i] == segments[i]);
                assert(segments[i].epoch < segments[segments.len() - 1].epoch);
            }
        }
        assert forall|epoch: u64| #[trigger] log_of(segments).contains_key(epoch) implies exists|
            i: int,
        |
            0 <= i < segments.len() && (#[trigger] segments[i]).epoch == epoch by {
            if epoch == segments.last().epoch {
                assert(segments[segments.len() - 1].epoch == epoch);
            } else {
                let i = choose|i: int| 0 <= i < front.len() && (#[trigger] front[i]).epoch == epoch;
                assert(segments[i].epoch == epoch);
            }
        }
    }
}

/// Whether the epochs of `segments` rise strictly.
pub fn epochs_rise_exec(segments: &Vec<Segment>) -> (rise: bool)
    ensures
        rise == epochs_rise(segments@),
{
    let mut i: usize = 1;
    while i < segments.len()
        invariant
            1 <= i,
            forall|a: int, b: int|
                0 <= a < b < i && b < segments.len() ==> (#[trigger] segments@[a]).epoch < (
                #[trigger] segments@[b]).epoch,
        decreases segments.len() - i,
    {
        if segments[i - 1].epoch >= segments[i].epoch {
            return false;
        }
        proof {
            assert forall|a: int, b: int| 0 <= a < b < i + 1 && b < segments.len() implies (
            #[trigger] segments@[a]).epoch < (#[trigger] segments@[b]).epoch by {
                if b == i && a < i - 1 {
                    assert(segments@[a].epoch < segments@[i - 1].epoch);
                }
            }
        }
        i = i + 1;
    }
    true
}

/// The sum of the lengths in `sizes`, a list of epochs with the lengths of
/// their segments.
pub open spec fn total_size(sizes: Seq<(u64, nat)>) -> nat
    decreases sizes.len(),
{
    if sizes.len() == 0 {
        0
    } else {
        total_size(sizes.drop_last()) + sizes.last().1
    }
}

/// The epochs of `segments` with the lengths of their bytes.
pub open spec fn sizes_of(segments: Seq<Segment>) -> Seq<(u64, nat)> {
    Seq::new(segments.len(), |i: int| (segments[i].epoch, segments[i].data@.len()))
}

/// The bytes that `segments` hold in all.
pub open spec fn total_bytes(segments: Seq<Segment>) -> nat {
    total_size(sizes_of(segments))
}

/// The list `sizes` after the segment of `epoch` has grown by `by` bytes.
pub open spec fn grown(sizes: Seq<(u64, nat)>, epoch: u64, by: nat) -> Seq<(u64, nat)> {
    Seq::new(
        sizes.len(),
        |i: int|
            if sizes[i].0 == epoch {
                (epoch, sizes[i].1 + by)
            } else {
                sizes[i]
            },
    )
}

/// A longer segment makes the sum larger by as much as it has grown.
pub proof fn lemma_total_size_update(sizes: Seq<(u64, nat)>, at: int, size: (u64, nat))
    requires
        0 <= at < sizes.len(),
    ensures
        total_size(sizes.update(at, size)) + sizes[at].1 == total_size(sizes) + size.1,
    decreases sizes.len(),
{
    let front = sizes.drop_last();
    if at == sizes.len() - 1 {
        assert(sizes.update(at, size).drop_last() == front);
    } else {
        lemma_total_size_update(front, at, size);
        assert(sizes.update(at, size).drop_last() == front.update(at, size));
    }
}

/// The sum over a list is the sum over its front part and the sum over the
/// rest.
pub proof fn lemma_total_size_split(sizes: Seq<(u64, nat)>, at: int)
    requires
        0 <= at <= sizes.len(),
    ensures
        total_size(sizes) == total_size(sizes.take(at)) + total_size(sizes.skip(at)),
    decreases sizes.len(),
{
    if at == sizes.len() {
        assert(sizes.take(at) == sizes);
        assert(sizes.skip(at) == Seq::<(u64, nat)>::empty());
    } else {
        let front = sizes.drop_last();
        lemma_total_size_split(front, at);
        assert(front.take(at) == sizes.take(at));
        assert(sizes.skip(at).drop_last() == front.skip(at));
    }
}

/// The segments of a store, in the order of their epochs.
pub struct SegmentSet {
    segments: Vec<Segment>,
}

impl View for SegmentSet {
    type V = Map<u64, Seq<u8>>;

    closed spec fn view(&self) -> Map<u64, Seq<u8>> {
        log_of(self.segments@)
    }
}

impl SegmentSet {
    /// The invariant of the set: the epochs of its segments rise strictly.
    pub closed spec fn wf(&self) -> bool {
        epochs_rise(self.segments@)
    }

    /// The epochs of the segments with the lengths of their bytes, in the
    /// order of the epochs.
    pub closed spec fn sizes(&self) -> Seq<(u64, nat)> {
        sizes_of(self.segments@)
    }

    /// The list of sizes names each segment once, with its length, and the
    /// epochs in it rise.
    pub proof fn lemma_sizes(&self)
        requires
            self.wf(),
        ensures
            forall|i: int|
                0 <= i < self.sizes().len() ==> self@.contains_key((#[trigger] self.sizes()[i]).0)
                    && self@[self.sizes()[i].0].len() == self.sizes()[i].1,
            forall|epoch: u64| #[trigger]
                self@.contains_key(epoch) ==> exists|i: int|
                    0 <= i < self.sizes().len() && (#[trigger] self.sizes()[i]).0 == epoch,
            forall|i: int, j: int|
                0 <= i < j < self.sizes().len() ==> (#[trigger] self.sizes()[i]).0 < (
                #[trigger] self.sizes()[j]).0,
    {
        lemma_log_of(self.segments@);
        assert forall|i: int| 0 <= i < self.sizes().len() implies self@.contains_key(
            (#[trigger] self.sizes()[i]).0,
        ) && self@[self.sizes()[i].0].len() == self.sizes()[i].1 by {
            assert(self.segments@[i].epoch == self.sizes()[i].0);
        }
        assert forall|epoch: u64| #[trigger] self@.contains_key(epoch) implies exists|i: int|
            0 <= i < self.sizes().len() && (#[trigger] self.sizes()[i]).0 == epoch by {
            let i = choose|i: int|
                0 <= i < self.segments@.len() && (#[trigger] self.segments@[i]).epoch == epoch;
            assert(self.sizes()[i].0 == epoch);
        }
        assert forall|i: int, j: int| 0 <= i < j < self.sizes().len() implies (
        #[trigger] self.sizes()[i]).0 < (#[trigger] self.sizes()[j]).0 by {
            assert(self.segments@[i].epoch < self.segments@[j].epoch);
        }
    }

    /// The length of every segment fits the machine's word.
    pub proof fn lemma_lengths(&self)
        requires
            self.wf(),
        ensures
            forall|epoch: u64| #[trigger]
                self@.contains_key(epoch) ==> self@[epoch].len() <= usize::MAX,
    {
        lemma_log_of(self.segments@);
        assert forall|epoch: u64| #[trigger] self@.contains_key(epoch) implies self@[epoch].len()
            <= usize::MAX by {
            let i = choose|i: int|
                0 <= i < self.segments@.len() && (#[trigger] self.segments@[i]).epoch == epoch;
            assert(self.segments@[i].data@.len() == self.segments@[i].data.len());
        }
    }

    /// The set without segments.
    pub fn new() -> (set: SegmentSet)
        ensures
            set.wf(),
            set@ == Map::<u64, Seq<u8>>::empty(),
            set.sizes() == Seq::<(u64, nat)>::empty(),
    {
        let set = SegmentSet { segments: Vec::new() };
        assert(set.sizes() =~= Seq::<(u64, nat)>::empty());
        set
    }

    /// Where the segment of `epoch` stands, if there is one.
    #[verifier::loop_isolation(false)]
    fn position(&self, epoch: u64) -> (r: Option<usize>)
        requires
            self.wf(),
        ensures
            match r {
                Some(i) => i < self.segments@.len() && self.segments@[i as int].epoch == epoch
                    && self@.contains_key(epoch) && self@[epoch] == self.segments@[i as int].data@,
                None => !self@.contains_key(epoch),
            },
    {
        proof {
            lemma_log_of(self.segments@);
        }
        let mut i: usize = 0;
        while i < self.segments.len()
            invariant
                i <= self.segments.len(),
                forall|j: int| 0 <= j < i ==> (#[trigger] self.segments@[j]).epoch != epoch,
            decreases self.segments.len() - i,
        {
            if self.segments[i].epoch == epoch {
                return Some(i);
            }
            i = i + 1;
        }
        None
    }

    /// Whether there is a segment of `epoch`.
    pub fn contains(&self, epoch: u64) -> (b: bool)
        requires
            self.wf(),
        ensures
            b == self@.contains_key(epoch),
    {
        self.position(epoch).is_some()
    }

    /// The length of the segment of `epoch`.
    pub fn len_of(&self, epoch: u64) -> (r: Option<usize>)
        requires
            self.wf(),
        ensures
            match r {
                Some(len) => self@.contains_key(epoch) && len == self@[epoch].len(),
                None => !self@.contains_key(epoch),
            },
    {
        match self.position(epoch) {
            Some(i) => Some(self.segments[i].data.len()),
            None => None,
        }
    }

    /// The bytes that `locator` names, if they lie within a segment.
    pub fn read(&self, locator: Locator) -> (r: Option<&[u8]>)
        requires
            self.wf(),
        ensures
            match r {
                Some(bytes) => self@.contains_key(locator.epoch) && locator.end()
                    <= self@[locator.epoch].len() && bytes@ == self@[locator.epoch].subrange(
                    locator.offset as int,
                    locator.end(),
                ),
                None => !self@.contains_key(locator.epoch) || locator.end()
                    > self@[locator.epoch].len(),
            },
    {
        match self.position(locator.epoch) {
            Some(i) => {
                let data = &self.segments[i].data;
                let len = data.len();
                if locator.offset > len as u64 || locator.length as u64 > len as u64
                    - locator.offset {
                    return None;
                }
                let start = locator.offset as usize;
                let end = start + locator.length as usize;
                Some(vstd::slice::slice_subrange(data.as_slice(), start, end))
            },
            None => None,
        }
    }

    /// Starts the segment of `epoch` if `epoch` lies after every epoch of the
    /// set, and tells whether it did.
    pub fn add(&mut self, epoch: u64) -> (added: bool)
        requires
            old(self).wf(),
        ensures
            final(self).wf(),
            added == (forall|e: u64| old(self)@.contains_key(e) ==> e < epoch),
            final(self)@ == if added {
                old(self)@.insert(epoch, Seq::<u8>::empty())
            } else {
                old(self)@
            },
            final(self).sizes() == if added {
                old(self).sizes().push((epoch, 0nat))
            } else {
                old(self).sizes()
            },
            total_size(final(self).sizes()) == total_size(old(self).sizes()),
    {
        proof {
            lemma_log_of(self.segments@);
        }
        let ghost before = self.segments@;
        let count = self.segments.len();
        if count > 0 && self.segments[count - 1].epoch >= epoch {
            assert(old(self)@.contains_key(before[count - 1].epoch));
            return false;
        }
        proof {
            assert forall|e: u64| old(self)@.contains_key(e) implies e < epoch by {
                let i = choose|i: int| 0 <= i < before.len() && (#[trigger] before[i]).epoch == e;
                if i < count - 1 {
                    assert(before[i].epoch < before[count - 1].epoch);
                }
            }
        }
        let segment = Segment { epoch, data: Vec::new() };
        self.segments.push(segment);
        proof {
            assert(self.segments@.drop_last() == before);
            assert forall|i: int, j: int| 0 <= i < j < self.segments@.len() implies (
            #[trigger] self.segments@[i]).epoch < (#[trigger] self.segments@[j]).epoch by {
                assert(self.segments@[i] == before[i]);
                assert(old(self)@.contains_key(before[i].epoch));
                if j < before.len() {
                    assert(self.segments@[j] == before[j]);
                }
            }
            assert(self.sizes() =~= old(self).sizes().push((epoch, 0nat)));
            assert(self.sizes().drop_last() == old(self).sizes());
        }
        true
    }

    /// Appends `bytes` to the segment of `epoch` and returns the offset at
    /// which they stand; does nothing if there is no such segment.
    pub fn append(&mut self, epoch: u64, bytes: &[u8]) -> (r: Option<u64>)
        requires
            old(self).wf(),
        ensures
            final(self).wf(),
            match r {
                Some(offset) => old(self)@.contains_key(epoch) && offset == old(self)@[epoch].len()
                    && final(self)@ == old(self)@.insert(epoch, old(self)@[epoch] + bytes@),
                None => !old(self)@.contains_key(epoch) && final(self)@ == old(self)@,
            },
            total_size(final(self).sizes()) == total_size(old(self).sizes()) + if r is Some {
                bytes@.len()
            } else {
                0
            },
            final(self).sizes() == grown(
                old(self).sizes(),
                epoch,
                if r is Some {
                    bytes@.len()
                } else {
                    0
                },
            ),
    {
        match self.position(epoch) {
            Some(i) => {
                let ghost before = self.segments@;
                let offset = self.segments[i].data.len() as u64;
                self.segments[i].data.extend_from_slice(bytes);
                proof {
                    assert(self.segments@.len() == before.len());
                    assert(self.segments@[i as int].data@ == before[i as int].data@ + bytes@);
                    assert(self.segments@[i as int].epoch == before[i as int].epoch);
                    lemma_log_of_update(before, self.segments@, i as int);
                    assert(before[i as int].data@ == old(self)@[epoch]);
                    let longer = (epoch, (before[i as int].data@.len() + bytes@.len()) as nat);
                    assert(self.sizes() =~= old(self).sizes().update(i as int, longer));
                    lemma_total_size_update(old(self).sizes(), i as int, longer);
                    assert forall|j: int| 0 <= j < old(self).sizes().len() implies (
                    #[trigger] self.sizes()[j]) == grown(old(self).sizes(), epoch, bytes@.len())[j] by {
                        if j != i {
                            assert(before[j].epoch != before[i as int].epoch) by {
                                if j < i {
                                    assert(before[j].epoch < before[i as int].epoch);
                                } else {
                                    assert(before[i as int].epoch < before[j].epoch);
                                }
                            }
                        }
                    }
                    assert(self.sizes() =~= grown(old(self).sizes(), epoch, bytes@.len()));
                }
                Some(offset)
            },
            None => None,
        }
    }

    /// The epochs of the segments, in rising order.
    pub fn epochs(&self) -> (epochs: Vec<u64>)
        requires
            self.wf(),
        ensures
            epochs@.len() == self.sizes().len(),
            forall|i: int| 0 <= i < epochs@.len() ==> epochs@[i] == (#[trigger] self.sizes()[i]).0,
            forall|epoch: u64| self@.contains_key(epoch) <==> epochs@.contains(epoch),
    {
        let mut epochs: Vec<u64> = Vec::new();
        let mut i: usize = 0;
        while i < self.segments.len()
            invariant
                i <= self.segments.len(),
                epochs@.len() == i,
                forall|j: int| 0 <= j < i ==> epochs@[j] == (#[trigger] self.segments@[j]).epoch,
            decreases self.segments.len() - i,
        {
            epochs.push(self.segments[i].epoch);
            i = i + 1;
        }
        proof {
            self.lemma_sizes();
            assert forall|epoch: u64| self@.contains_key(epoch) <==> epochs@.contains(epoch) by {
                if self@.contains_key(epoch) {
                    let i = choose|i: int|
                        0 <= i < self.sizes().len() && (#[trigger] self.sizes()[i]).0 == epoch;
                    assert(self.segments@[i].epoch == epoch);
                    assert(epochs@[i] == epoch);
                }
                if epochs@.contains(epoch) {
                    let i = choose|i: int| 0 <= i < epochs@.len() && epochs@[i] == epoch;
                    assert(self.segments@[i].epoch == epoch);
                    assert(self.sizes()[i].0 == epoch);
                }
            }
            assert forall|i: int| 0 <= i < epochs@.len() implies epochs@[i] == (
            #[trigger] self.sizes()[i]).0 by {
                assert(self.segments@[i].epoch == epochs@[i]);
            }
        }
        epochs
    }

    /// The bytes of the segment of `epoch` from the offset `from` on, if
    /// there is such a segment and it is that long.
    pub fn tail_of(&self, epoch: u64, from: usize) -> (r: Option<&[u8]>)
        requires
            self.wf(),
        ensures
            match r {
                Some(bytes) => self@.contains_key(epoch) && from <= self@[epoch].len() && bytes@
                    == self@[epoch].skip(from as int),
                None => !self@.contains_key(epoch) || from > self@[epoch].len(),
            },
    {
        match self.position(epoch) {
            Some(i) => {
                let data = &self.segments[i].data;
                if from > data.len() {
                    return None;
                }
                let bytes = vstd::slice::slice_subrange(data.as_slice(), from, data.len());
                assert(bytes@ == self@[epoch].skip(from as int));
                Some(bytes)
            },
            None => None,
        }
    }

    /// Drops every segment whose epoch lies below `tail`.
    pub fn drop_below(&mut self, tail: u64)
        requires
            old(self).wf(),
        ensures
            final(self).wf(),
            final(self)@ == old(self)@.restrict(Set::new(|epoch: u64| epoch >= tail)),
            exists|keep: int|
                0 <= keep <= old(self).sizes().len() && #[trigger] old(self).sizes().skip(keep)
                    == final(self).sizes() && (forall|i: int|
                    0 <= i < keep ==> (#[trigger] old(self).sizes()[i]).0 < tail) && (forall|i: int|
                    keep <= i < old(self).sizes().len() ==> (#[trigger] old(self).sizes()[i]).0
                        >= tail),
    {
        let ghost before = self.segments@;
        let mut keep: usize = 0;
        while keep < self.segments.len() && self.segments[keep].epoch < tail
            invariant
                keep <= self.segments.len(),
                self.segments@ == before,
                forall|i: int| 0 <= i < keep ==> (#[trigger] before[i]).epoch < tail,
            decreases self.segments.len() - keep,
        {
            keep = keep + 1;
        }
        let kept = self.segments.split_off(keep);
        self.segments = kept;
        proof {
            lemma_log_of_skip(before, keep as int, tail);
            assert(self.segments@ == before.skip(keep as int));
            assert(old(self).sizes().skip(keep as int) =~= self.sizes());
            assert forall|i: int| 0 <= i < keep implies (#[trigger] old(self).sizes()[i]).0
                < tail by {
                assert(before[i].epoch < tail);
            }
            assert forall|i: int| keep <= i < old(self).sizes().len() implies (#[trigger] old(
                self,
            ).sizes()[i]).0 >= tail by {
                if i > keep {
                    assert(before[keep as int].epoch < before[i].epoch);
                }
            }
        }
    }

    /// The set of the segments `segments`, if their epochs rise strictly.
    pub fn from_segments(segments: Vec<Segment>) -> (r: Option<SegmentSet>)
        ensures
            match r {
                Some(set) => set.wf() && set@ == log_of(segments@) && epochs_rise(segments@),
                None => !epochs_rise(segments@),
            },
    {
        if epochs_rise_exec(&segments) {
            Some(SegmentSet { segments })
        } else {
            None
        }
    }

    /// A copy of the segments, in the order of their epochs.
    pub fn export(&self) -> (segments: Vec<Segment>)
        requires
            self.wf(),
        ensures
            epochs_rise(segments@),
            log_of(segments@) == self@,
            sizes_of(segments@) == self.sizes(),
    {
        let mut segments: Vec<Segment> = Vec::new();
        let mut i: usize = 0;
        while i < self.segments.len()
            invariant
                i <= self.segments.len(),
                segments@.len() == i,
                forall|j: int|
                    0 <= j < i ==> (#[trigger] segments@[j]).epoch == self.segments@[j].epoch
                        && segments@[j].data@ == self.segments@[j].data@,
            decreases self.segments.len() - i,
        {
            let data = self.segments[i].data.clone();
            segments.push(Segment { epoch: self.segments[i].epoch, data });
            i = i + 1;
        }
        proof {
            lemma_log_of_same(self.segments@, segments@);
            assert(sizes_of(segments@) =~= self.sizes());
        }
        segments
    }
}

/// Changing the bytes of one segment changes the map at that segment's epoch
/// and nowhere else.
proof fn lemma_log_of_update(before: Seq<Segment>, after: Seq<Segment>, at: int)
    requires
        epochs_rise(before),
        0 <= at < before.len(),
        after.len() == before.len(),
        after[at].epoch == before[at].epoch,
        forall|i: int| 0 <= i < before.len() && i != at ==> after[i] == before[i],
    ensures
        epochs_rise(after),
        log_of(after) == log_of(before).insert(before[at].epoch, after[at].data@),
{
    assert forall|i: int, j: int| 0 <= i < j < after.len() implies (#[trigger] after[i]).epoch < (
    #[trigger] after[j]).epoch by {
        assert(before[i].epoch < before[j].epoch);
    }
    lemma_log_of(before);
    lemma_log_of(after);
    let expected = log_of(before).insert(before[at].epoch, after[at].data@);
    assert forall|epoch: u64| log_of(after).contains_key(epoch) <==> expected.contains_key(
        epoch,
    ) by {
        if log_of(after).contains_key(epoch) {
            let i = choose|i: int| 0 <= i < after.len() && (#[trigger] after[i]).epoch == epoch;
            assert(before[i].epoch == epoch);
        }
        if log_of(before).contains_key(epoch) {
            let i = choose|i: int| 0 <= i < before.len() && (#[trigger] before[i]).epoch == epoch;
            assert(after[i].epoch == epoch);
        }
        assert(after[at].epoch == before[at].epoch);
    }
    assert forall|epoch: u64| log_of(after).contains_key(epoch) implies log_of(after)[epoch]
        == expected[epoch] by {
        let i = choose|i: int| 0 <= i < after.len() && (#[trigger] after[i]).epoch == epoch;
        assert(before[i].epoch == epoch);
        if i != at {
            assert(before[i].epoch != before[at].epoch) by {
                if i < at {
                    assert(before[i].epoch < before[at].epoch);
                } else {
                    assert(before[at].epoch < before[i].epoch);
                }
            }
        }
    }
    assert(log_of(after) =~= expected);
}

/// Of segments whose epochs rise, those from `keep` on are the ones whose
/// epochs reach `tail`, if the ones before `keep` lie below it and the one at
/// `keep` does not.
proof fn lemma_log_of_skip(segments: Seq<Segment>, keep: int, tail: u64)
    requires
        epochs_rise(segments),
        0 <= keep <= segments.len(),
        forall|i: int| 0 <= i < keep ==> (#[trigger] segments[i]).epoch < tail,
        keep < segments.len() ==> segments[keep].epoch >= tail,
    ensures
        epochs_rise(segments.skip(keep)),
        log_of(segments.skip(keep)) == log_of(segments).restrict(
            Set::new(|epoch: u64| epoch >= tail),
        ),
{
    let kept = segments.skip(keep);
    assert forall|i: int, j: int| 0 <= i < j < kept.len() implies (#[trigger] kept[i]).epoch < (
    #[trigger] kept[j]).epoch by {
        assert(segments[i + keep].epoch < segments[j + keep].epoch);
    }
    lemma_log_of(segments);
    lemma_log_of(kept);
    let expected = log_of(segments).restrict(Set::new(|epoch: u64| epoch >= tail));
    assert forall|epoch: u64| log_of(kept).contains_key(epoch) <==> expected.contains_key(
        epoch,
    ) by {
        if log_of(kept).contains_key(epoch) {
            let i = choose|i: int| 0 <= i < kept.len() && (#[trigger] kept[i]).epoch == epoch;
            assert(segments[i + keep].epoch == epoch);
            if i > 0 {
                assert(segments[keep].epoch < segments[i + keep].epoch);
            }
        }
        if expected.contains_key(epoch) {
            let i = choose|i: int|
                0 <= i < segments.len() && (#[trigger] segments[i]).epoch == epoch;
            assert(i >= keep);
            assert(kept[i - keep].epoch == epoch);
        }
    }
    assert forall|epoch: u64| log_of(kept).contains_key(epoch) implies log_of(kept)[epoch]
        == expected[epoch] by {
        let i = choose|i: int| 0 <= i < kept.len() && (#[trigger] kept[i]).epoch == epoch;
        assert(segments[i + keep] == kept[i]);
    }
    assert(log_of(kept) =~= expected);
}

/// Segments with the same epochs and bytes make the same map.
proof fn lemma_log_of_same(a: Seq<Segment>, b: Seq<Segment>)
    requires
        epochs_rise(a),
        a.len() == b.len(),
        forall|i: int|
            0 <= i < a.len() ==> (#[trigger] b[i]).epoch == a[i].epoch && b[i].data@ == a[i].data@,
    ensures
        epochs_rise(b),
        log_of(b) == log_of(a),
    decreases a.len(),
{
    assert forall|i: int, j: int| 0 <= i < j < b.len() implies (#[trigger] b[i]).epoch < (
    #[trigger] b[j]).epoch by {
        assert(a[i].epoch < a[j].epoch);
    }
    if a.len() > 0 {
        let fa = a.drop_last();
        let fb = b.drop_last();
        assert forall|i: int, j: int| 0 <= i < j < fa.len() implies (#[trigger] fa[i]).epoch < (
        #[trigger] fa[j]).epoch by {
            assert(a[i].epoch < a[j].epoch);
        }
        assert forall|i: int| 0 <= i < fa.len() implies (#[trigger] fb[i]).epoch == fa[i].epoch
            && fb[i].data@ == fa[i].data@ by {
            assert(b[i].epoch == a[i].epoch);
        }
        lemma_log_of_same(fa, fb);
        assert(b[b.len() - 1].epoch == a[a.len() - 1].epoch);
    }
}

} // verus!
