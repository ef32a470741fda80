//! Counting bytes: what the segments hold, and what of it a compaction is
//! still to copy.
use crate::engines::locator::Locator;
use crate::engines::model::Log;
use crate::engines::segment::grown;
use crate::engines::segment::total_size;
use vstd::prelude::*;

verus! {

/// The sum of the lengths in `sizes` of the segments whose epochs lie below
/// `epoch`.
pub open spec fn size_below(sizes: Seq<(u64, nat)>, epoch: u64) -> nat
    decreases sizes.len(),
{
    if sizes.len() == 0 {
        0
    } else {
        size_below(sizes.drop_last(), epoch) + if sizes.last().0 < epoch {
            sizes.last().1
        } else {
            0
        }
    }
}

/// The bytes of the records that wait for their copy.
pub open spec fn pending_bytes(pending: Seq<(Seq<char>, Locator)>) -> nat
    decreases pending.len(),
{
    if pending.len() == 0 {
        0
    } else {
        pending_bytes(pending.drop_last()) + pending.last().1.length as nat
    }
}

/// The bytes that wait are those of the first entry and those of the rest.
pub proof fn lemma_pending_bytes_first(pending: Seq<(Seq<char>, Locator)>)
    requires
        pending.len() > 0,
    ensures
        pending_bytes(pending) == pending[0].1.length + pending_bytes(pending.drop_first()),
    decreases pending.len(),
{
    if pending.len() == 1 {
        assert(pending.drop_last() == Seq::<(Seq<char>, Locator)>::empty());
        assert(pending.drop_first() == Seq::<(Seq<char>, Locator)>::empty());
    } else {
        let front = pending.drop_last();
        lemma_pending_bytes_first(front);
        assert(front.drop_first() == pending.drop_first().drop_last());
        assert(pending.drop_first().last() == pending.last());
    }
}

/// Where every epoch lies below `epoch`, the sum below it is the whole sum.
pub proof fn lemma_size_below_all(sizes: Seq<(u64, nat)>, epoch: u64)
    requires
        forall|i: int| 0 <= i < sizes.len() ==> (#[trigger] sizes[i]).0 < epoch,
    ensures
        size_below(sizes, epoch) == total_size(sizes),
    decreases sizes.len(),
{
    if sizes.len() > 0 {
        let front = sizes.drop_last();
        assert forall|i: int| 0 <= i < front.len() implies (#[trigger] front[i]).0 < epoch by {
            assert(front[i] == sizes[i]);
        }
        lemma_size_below_all(front, epoch);
        assert(sizes[sizes.len() - 1].0 < epoch);
    }
}

/// A new segment at or after `epoch` adds nothing to the sum below `epoch`.
pub proof fn lemma_size_below_push(sizes: Seq<(u64, nat)>, size: (u64, nat), epoch: u64)
    requires
        size.0 >= epoch,
    ensures
        size_below(sizes.push(size), epoch) == size_below(sizes, epoch),
{
    assert(sizes.push(size).drop_last() == sizes);
}

/// A segment at or after `epoch` that grows adds nothing to the sum below
/// `epoch`.
pub proof fn lemma_size_below_grown(sizes: Seq<(u64, nat)>, at: u64, by: nat, epoch: u64)
    requires
        at >= epoch,
    ensures
        size_below(grown(sizes, at, by), epoch) == size_below(sizes, epoch),
    decreases sizes.len(),
{
    if sizes.len() > 0 {
        lemma_size_below_grown(sizes.drop_last(), at, by, epoch);
        assert(grown(sizes, at, by).drop_last() == grown(sizes.drop_last(), at, by));
    }
}

/// Dropping the segments below `epoch`, which come first, leaves the whole
/// sum less the sum below `epoch`.
pub proof fn lemma_size_after_drop(sizes: Seq<(u64, nat)>, keep: int, epoch: u64)
    requires
        0 <= keep <= sizes.len(),
        forall|i: int| 0 <= i < keep ==> (#[trigger] sizes[i]).0 < epoch,
        forall|i: int| keep <= i < sizes.len() ==> (#[trigger] sizes[i]).0 >= epoch,
    ensures
        total_size(sizes.skip(keep)) + size_below(sizes, epoch) == total_size(sizes),
        size_below(sizes.skip(keep), epoch) == 0,
    decreases sizes.len(),
{
    if keep == sizes.len() {
        assert(sizes.skip(keep) == Seq::<(u64, nat)>::empty());
        lemma_size_below_all(sizes, epoch);
    } else {
        let front = sizes.drop_last();
        assert forall|i: int| 0 <= i < keep implies (#[trigger] front[i]).0 < epoch by {
            assert(front[i] == sizes[i]);
        }
        assert forall|i: int| keep <= i < front.len() implies (#[trigger] front[i]).0 >= epoch by {
            assert(front[i] == sizes[i]);
        }
        lemma_size_after_drop(front, keep, epoch);
        assert(sizes.skip(keep).drop_last() == front.skip(keep));
        assert(sizes[sizes.len() - 1].0 >= epoch);
    }
}

/// The bytes that the segments of `epochs` hold in `log`.
pub open spec fn log_bytes(log: Log, epochs: Seq<u64>) -> nat
    decreases epochs.len(),
{
    if epochs.len() == 0 {
        0
    } else {
        log_bytes(log, epochs.drop_last()) + log[epochs.last()].len()
    }
}

/// The bytes of the records that `index` points at for `keys`.
pub open spec fn index_bytes(index: Map<Seq<char>, Locator>, keys: Seq<Seq<char>>) -> nat
    decreases keys.len(),
{
    if keys.len() == 0 {
        0
    } else {
        index_bytes(index, keys.drop_last()) + index[keys.last()].length as nat
    }
}

/// The sum of the sizes is the sum of the lengths of the segments that the
/// sizes are of.
pub proof fn lemma_log_bytes(log: Log, epochs: Seq<u64>, sizes: Seq<(u64, nat)>)
    requires
        epochs.len() == sizes.len(),
        forall|i: int|
            0 <= i < sizes.len() ==> (#[trigger] sizes[i]).0 == epochs[i] && log[epochs[i]].len()
                == sizes[i].1,
    ensures
        log_bytes(log, epochs) == total_size(sizes),
    decreases epochs.len(),
{
    if epochs.len() > 0 {
        let front = sizes.drop_last();
        assert forall|i: int| 0 <= i < front.len() implies (#[trigger] front[i]).0
            == epochs.drop_last()[i] && log[epochs.drop_last()[i]].len() == front[i].1 by {
            assert(front[i] == sizes[i]);
        }
        lemma_log_bytes(log, epochs.drop_last(), front);
        assert(sizes[sizes.len() - 1].0 == epochs[epochs.len() - 1]);
    }
}

/// The bytes that the segments of those of `epochs` hold in `log` that lie
/// below `epoch`.
pub open spec fn log_bytes_below(log: Log, epochs: Seq<u64>, epoch: u64) -> nat
    decreases epochs.len(),
{
    if epochs.len() == 0 {
        0
    } else {
        log_bytes_below(log, epochs.drop_last(), epoch) + if epochs.last() < epoch {
            log[epochs.last()].len()
        } else {
            0
        }
    }
}

/// The sum of the sizes below an epoch is the sum of the lengths of the
/// segments below it.
pub proof fn lemma_log_bytes_below(
    log: Log,
    epochs: Seq<u64>,
    sizes: Seq<(u64, nat)>,
    epoch: u64,
)
    requires
        epochs.len() == sizes.len(),
        forall|i: int|
            0 <= i < sizes.len() ==> (#[trigger] sizes[i]).0 == epochs[i] && log[epochs[i]].len()
                == sizes[i].1,
    ensures
        log_bytes_below(log, epochs, epoch) == size_below(sizes, epoch),
    decreases epochs.len(),
{
    if epochs.len() > 0 {
        let front = sizes.drop_last();
        assert forall|i: int| 0 <= i < front.len() implies (#[trigger] front[i]).0
            == epochs.drop_last()[i] && log[epochs.drop_last()[i]].len() == front[i].1 by {
            assert(front[i] == sizes[i]);
        }
        lemma_log_bytes_below(log, epochs.drop_last(), front, epoch);
        assert(sizes[sizes.len() - 1].0 == epochs[epochs.len() - 1]);
    }
}

} // verus!
