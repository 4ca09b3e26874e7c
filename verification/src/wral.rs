use core::ops::RangeInclusive;
use std::collections::VecDeque;
use vstd::prelude::*;
use vstd::std_specs::range::RangeInclusiveView;

use crate::batch::{Batch, IndexView};
use crate::entry::{closed_range, in_range, lemma_scan_all, scan, EntryView};
use crate::journal::{Journal, RdJournal, Replay};
use crate::writer::{logs, Writer};

verus! {

/// Default journal file limit is set at 1GB.
pub const JOURNAL_LIMIT: usize = 1024 * 1024 * 1024;

/// Default channel buffer for writer thread.
pub const SYNC_BUFFER: usize = 1024;

/// One end of a range of sequence numbers.
#[derive(Debug, Clone, Copy, PartialEq, Eq, Structural)]
pub enum Bound {
    /// The range goes up to this sequence number, which belongs to it.
    Included(u64),
    /// The range goes up to this sequence number, which does not belong to
    /// it.
    Excluded(u64),
    /// The range has no end on this side.
    Unbounded,
}

/// The first sequence number of a range that starts at `start`; none where
/// the range is empty whatever its end.
pub open spec fn lower_end(start: Bound) -> Option<u64> {
    match start {
        Bound::Excluded(seqno) => if seqno < u64::MAX {
            Some((seqno + 1) as u64)
        } else {
            None
        },
        Bound::Included(seqno) => Some(seqno),
        Bound::Unbounded => Some(0),
    }
}

/// The last sequence number of a range that ends at `end`; none where the
/// range is empty whatever its start.
pub open spec fn upper_end(end: Bound) -> Option<u64> {
    match end {
        Bound::Excluded(seqno) => if seqno > 0 {
            Some((seqno - 1) as u64)
        } else {
            None
        },
        Bound::Included(seqno) => Some(seqno),
        Bound::Unbounded => Some(u64::MAX),
    }
}

/// The range from `start` to `end` as a range that holds both its ends;
/// none where one of the bounds alone makes the range empty.
pub open spec fn normalized(start: Bound, end: Bound) -> Option<RangeInclusiveView<u64>> {
    match (lower_end(start), upper_end(end)) {
        (Some(lo), Some(hi)) => Some(closed_range(lo, hi)),
        _ => None,
    }
}

/// The first and the last sequence number of the range from `start` to
/// `end`.
fn range_ends(start: Bound, end: Bound) -> (ends: Option<(u64, u64)>)
    ensures
        match ends {
            Some((lo, hi)) => normalized(start, end) == Some(closed_range(lo, hi)),
            None => normalized(start, end) is None,
        },
{
    let lo = match start {
        Bound::Excluded(seqno) => {
            if seqno < u64::MAX {
                seqno + 1
            } else {
                return None;
            }
        },
        Bound::Included(seqno) => seqno,
        Bound::Unbounded => 0,
    };
    let hi = match end {
        Bound::Excluded(seqno) => {
            if seqno > 0 {
                seqno - 1
            } else {
                return None;
            }
        },
        Bound::Included(seqno) => seqno,
        Bound::Unbounded => u64::MAX,
    };
    Some((lo, hi))
}

/// Turns the range from `start` to `end` into a range that holds both its
/// ends. There is none where one of the bounds alone makes the range empty:
/// a start after the greatest sequence number, or an end before zero.
pub fn range_bound_to_range_inclusive(start: Bound, end: Bound) -> (range: Option<
    RangeInclusive<u64>,
>)
    ensures
        match range {
            Some(range) => normalized(start, end) == Some(range@),
            None => normalized(start, end) is None,
        },
{
    match range_ends(start, end) {
        Some((lo, hi)) => Some(RangeInclusive::new(lo, hi)),
        None => None,
    }
}

/// What the replays `replays` still hold, one after the other.
pub open spec fn remainings(replays: Seq<RdJournal>) -> Seq<EntryView>
    decreases replays.len(),
{
    if replays.len() == 0 {
        Seq::empty()
    } else {
        remainings(replays.drop_last()) + replays.last().remaining()
    }
}

/// What replays still hold starts with what the first of them holds.
pub proof fn lemma_remainings_first(replays: Seq<RdJournal>)
    requires
        replays.len() > 0,
    ensures
        remainings(replays) == replays[0].remaining() + remainings(replays.drop_first()),
    decreases replays.len(),
{
    if replays.len() == 1 {
        assert(replays.drop_last() =~= Seq::<RdJournal>::empty());
        assert(replays.drop_first() =~= Seq::<RdJournal>::empty());
        assert(remainings(replays) =~= replays[0].remaining() + remainings(replays.drop_first()));
    } else {
        let front = replays.drop_last();
        lemma_remainings_first(front);
        assert(front.drop_first() =~= replays.drop_first().drop_last());
        assert(remainings(replays) =~= replays[0].remaining() + remainings(replays.drop_first()));
    }
}

/// The batch that is the first to be read in `replays`: the number of its
/// journal and its index.
#[verifier::opaque]
pub open spec fn waiting(replays: Seq<RdJournal>) -> Option<(usize, IndexView)>
    decreases replays.len(),
{
    if replays.len() == 0 {
        None
    } else if replays[0].to_read().len() > 0 {
        Some((replays[0].num(), replays[0].to_read()[0]))
    } else {
        waiting(replays.drop_first())
    }
}

/// The batch that is the first to be read is the first one of the first
/// replay, or, where that replay has none to read, the first to be read in
/// the replays behind it.
pub proof fn lemma_waiting(first: RdJournal, others: Seq<RdJournal>)
    ensures
        waiting(seq![first] + others) == if first.to_read().len() > 0 {
            Some((first.num(), first.to_read()[0]))
        } else {
            waiting(others)
        },
{
    reveal(waiting);
    let replays = seq![first] + others;
    assert(replays[0] == first);
    assert(replays.drop_first() =~= others);
}

/// The places at which the files of `replays` go on with bytes that are no
/// batch, as far as the replays have not come to them: for each, the number
/// of the journal and the place in its file.
#[verifier::opaque]
pub open spec fn damages(replays: Seq<RdJournal>) -> Seq<(usize, u64)>
    decreases replays.len(),
{
    if replays.len() == 0 {
        Seq::empty()
    } else {
        (match replays[0].corrupt() {
            Some(fpos) => seq![(replays[0].num(), fpos)],
            None => Seq::empty(),
        }) + damages(replays.drop_first())
    }
}

/// The places of bytes that are no batch are that of the first replay, if it
/// has one, and then those of the replays behind it.
pub proof fn lemma_damages(first: RdJournal, others: Seq<RdJournal>)
    ensures
        damages(seq![first] + others) == (match first.corrupt() {
            Some(fpos) => seq![(first.num(), fpos)],
            None => Seq::empty(),
        }) + damages(others),
        damages(Seq::<RdJournal>::empty()) == Seq::<(usize, u64)>::empty(),
{
    reveal(damages);
    let replays = seq![first] + others;
    assert(replays[0] == first);
    assert(replays.drop_first() =~= others);
}

/// Replay of the entries of a log whose sequence numbers lie in a range,
/// journal by journal in the order of the log.
///
/// The caller reads: on [`Replay::Fetch`] it reads and decodes the batch from
/// the file of the journal that [`Iter::to_journal_number`] tells, and hands
/// it to [`Iter::feed`]; where it cannot, it goes on without, and the replay
/// goes on with the next batch. On [`Replay::Corrupt`] the file of that
/// journal goes on with bytes that are no batch: the caller tells of the
/// failure, and the replay goes on with what comes behind that journal.
pub struct Iter {
    // the journal that is replayed now.
    journal: Option<RdJournal>,
    // the journals that are still to come.
    journals: VecDeque<RdJournal>,
    range: Ghost<RangeInclusiveView<u64>>,
    // entries of the batch that was asked for last and not handed in yet, as
    // the journal knew them.
    awaited: Ghost<Option<Seq<EntryView>>>,
}

impl Iter {
    /// The range of sequence numbers that is replayed.
    pub closed spec fn range(&self) -> RangeInclusiveView<u64> {
        self.range@
    }

    /// The replay of the journal that it is the turn of.
    pub closed spec fn current(&self) -> Option<RdJournal> {
        self.journal
    }

    /// The replays of the journals that are still to come.
    pub closed spec fn rest(&self) -> Seq<RdJournal> {
        self.journals@
    }

    /// The entries of the batch that the replay asked for last, as the
    /// journal knew them, until a batch is handed in or the replay goes on
    /// without.
    pub closed spec fn awaited(&self) -> Option<Seq<EntryView>> {
        self.awaited@
    }

    /// The replays of the journals that are not done with, in their order.
    pub open spec fn pending(&self) -> Seq<RdJournal> {
        (match self.current() {
            Some(replay) => seq![replay],
            None => Seq::empty(),
        }) + self.rest()
    }

    /// What holds of every replay.
    pub open spec fn wf(&self) -> bool {
        &&& self.current() matches Some(replay) ==> (replay.wf() && replay.range() == self.range())
        &&& forall|i: int|
            0 <= i < self.rest().len() ==> (#[trigger] self.rest()[i]).wf()
                && self.rest()[i].range() == self.range()
        &&& self.awaited() is Some ==> (self.current() matches Some(replay)
            && replay.at_hand().len() == 0)
    }

    /// The entries that are still to come, if each batch is handed in as its
    /// journal knew it. The batch that was asked for last is not among them
    /// until it is handed in.
    pub open spec fn remaining(&self) -> Seq<EntryView> {
        (match self.current() {
            Some(replay) => replay.remaining(),
            None => Seq::empty(),
        }) + remainings(self.rest())
    }

    /// What the replay comes to next: the next entry; or the index of the
    /// batch that is to be read and handed in; or the bytes that are no
    /// batch behind the batches of a journal, once for each such journal;
    /// or the end.
    #[verifier::rlimit(60)]
    pub fn next(&mut self) -> (next: Replay)
        requires
            old(self).wf(),
        ensures
            final(self).wf(),
            final(self).range() == old(self).range(),
            match next {
                Replay::Entry(entry) => {
                    &&& old(self).remaining().len() > 0
                    &&& entry@ == old(self).remaining()[0]
                    &&& final(self).remaining() == old(self).remaining().drop_first()
                    &&& final(self).awaited() is None
                    &&& damages(final(self).pending()) == damages(old(self).pending())
                },
                Replay::Fetch(index) => {
                    &&& final(self).awaited() matches Some(batch) && old(self).remaining() == scan(
                        batch,
                        old(self).range(),
                    ) + final(self).remaining()
                    &&& final(self).current() matches Some(replay) && waiting(old(self).pending())
                        == Some((replay.num(), index@))
                    &&& damages(final(self).pending()) == damages(old(self).pending())
                },
                Replay::Corrupt(fpos) => {
                    &&& final(self).remaining() == old(self).remaining()
                    &&& final(self).awaited() is None
                    &&& final(self).current() matches Some(replay) && damages(old(self).pending())
                        == seq![(replay.num(), fpos)] + damages(final(self).pending())
                },
                Replay::End => {
                    &&& old(self).remaining() == Seq::<EntryView>::empty()
                    &&& final(self).remaining() == Seq::<EntryView>::empty()
                    &&& final(self).awaited() is None
                    &&& damages(old(self).pending()) == Seq::<(usize, u64)>::empty()
                    &&& final(self).pending() == Seq::<RdJournal>::empty()
                },
            },
    {
        let ghost entered = *self;
        self.awaited = Ghost(None);
        proof {
            assert(self.current() == entered.current());
            assert(self.rest() == entered.rest());
        }
        loop
            invariant
                self.wf(),
                self.range() == entered.range(),
                self.remaining() == entered.remaining(),
                waiting(self.pending()) == waiting(entered.pending()),
                damages(self.pending()) == damages(entered.pending()),
                self.awaited() is None,
                entered == *old(self),
            decreases self.rest().len() + (if self.current() is Some { 1nat } else { 0nat }),
        {
            let ghost rest = self.rest();
            let ghost pending = self.pending();
            let mut journal = match self.journal.take() {
                Some(journal) => journal,
                None => match self.journals.pop_front() {
                    Some(journal) => {
                        proof {
                            lemma_remainings_first(rest);
                            assert(self.rest() =~= rest.drop_first());
                        }
                        journal
                    },
                    None => {
                        proof {
                            assert(self.remaining() =~= Seq::<EntryView>::empty());
                            assert(self.pending() =~= Seq::<RdJournal>::empty());
                            reveal(damages);
                        }
                        return Replay::End;
                    },
                },
            };
            let ghost before = journal;
            let ghost others = remainings(self.rest());
            assert(entered.remaining() =~= before.remaining() + others);
            assert(pending =~= seq![before] + self.rest());
            proof {
                lemma_waiting(before, self.rest());
                lemma_damages(before, self.rest());
            }
            match journal.next() {
                Replay::Entry(entry) => {
                    self.journal = Some(journal);
                    proof {
                        assert(self.remaining() =~= (before.remaining() + others).drop_first());
                        assert(self.pending() =~= seq![journal] + self.rest());
                        lemma_damages(journal, self.rest());
                    }
                    return Replay::Entry(entry);
                },
                Replay::Corrupt(fpos) => {
                    self.journal = Some(journal);
                    proof {
                        assert(self.remaining() =~= entered.remaining());
                        assert(self.pending() =~= seq![journal] + self.rest());
                        lemma_damages(journal, self.rest());
                        assert(damages(pending) =~= seq![(journal.num(), fpos)] + damages(
                            self.pending(),
                        ));
                    }
                    return Replay::Corrupt(fpos);
                },
                Replay::Fetch(index) => {
                    self.journal = Some(journal);
                    self.awaited = Ghost(Some(before.expected()[0]));
                    proof {
                        assert(self.pending() =~= seq![journal] + self.rest());
                        lemma_damages(journal, self.rest());
                        assert(before.remaining() + others =~= scan(
                            before.expected()[0],
                            self.range(),
                        ) + self.remaining());
                    }
                    return Replay::Fetch(index);
                },
                Replay::End => {
                    proof {
                        assert(self.remaining() =~= entered.remaining());
                        assert(self.pending() =~= self.rest());
                    }
                },
            }
        }
    }

    /// Hands in the batch that was read for the index that the replay asked
    /// for last: its entries in the range come next.
    pub fn feed(&mut self, batch: Batch)
        requires
            old(self).wf(),
        ensures
            final(self).wf(),
            final(self).range() == old(self).range(),
            final(self).awaited() is None,
            old(self).awaited() is Some ==> final(self).remaining() == scan(
                batch@.entries,
                old(self).range(),
            ) + old(self).remaining(),
            final(self).rest() == old(self).rest(),
            match old(self).current() {
                Some(before) => final(self).current() matches Some(after) && {
                    &&& after.num() == before.num()
                    &&& after.at_hand() == scan(batch@.entries, old(self).range())
                    &&& after.to_read() == before.to_read()
                    &&& after.expected() == before.expected()
                    &&& after.corrupt() == before.corrupt()
                    &&& after.tail() == before.tail()
                },
                None => final(self).current() is None,
            },
    {
        let ghost others = remainings(self.rest());
        match self.journal.take() {
            Some(mut journal) => {
                let ghost before = journal;
                journal.feed(batch);
                self.journal = Some(journal);
                self.awaited = Ghost(None);
                proof {
                    if old(self).awaited() is Some {
                        assert(self.remaining() =~= scan(batch@.entries, self.range()) + (
                        before.remaining() + others));
                    }
                }
            },
            None => {
                self.awaited = Ghost(None);
            },
        }
    }

    /// The number of the journal that it is the turn of: it tells the file
    /// that a batch is to be read from.
    pub fn to_journal_number(&self) -> (num: Option<usize>)
        ensures
            match self.current() {
                Some(replay) => num == Some(replay.num()),
                None => num is None,
            },
    {
        match &self.journal {
            Some(journal) => Some(journal.to_journal_number()),
            None => None,
        }
    }
}

/// Whether `replay` is the replay of `journal`, made and not run yet: it has
/// the journal's number, and all the batches of the journal's file are to
/// be read.
pub open spec fn replays<S>(journal: Journal<S>, replay: RdJournal) -> bool {
    &&& replay.num() == journal.num()
    &&& replay.at_hand() == Seq::<EntryView>::empty()
    &&& replay.to_read() == journal.indexes()
    &&& replay.expected() == journal.flushed()
    &&& replay.corrupt() == journal.damage()
}

impl<S> Writer<S> {
    /// Replay of all entries of the log, from the lowest sequence number to
    /// the highest.
    pub fn iter(&self) -> (iter: Iter)
        requires
            self.wf(),
        ensures
            iter.wf(),
            iter.awaited() is None,
            iter.current() is None,
            iter.range() == closed_range(0, u64::MAX),
            iter.remaining() == self.log(),
            iter.rest().len() == self.archives().len() + 1,
            forall|i: int|
                0 <= i < self.archives().len() ==> replays(
                    self.archives()[i],
                    #[trigger] iter.rest()[i],
                ),
            replays(self.active(), iter.rest().last()),
    {
        let iter = self.range(Bound::Unbounded, Bound::Unbounded);
        proof {
            assert(normalized(Bound::Unbounded, Bound::Unbounded) == Some(
                closed_range(0, u64::MAX),
            ));
            lemma_scan_all(self.log());
        }
        iter
    }

    /// Replay of the entries of the log whose sequence numbers lie in the
    /// range from `start` to `end`: of each archive in turn, then of the
    /// working journal. Nothing is replayed where one of the bounds alone
    /// makes the range empty.
    pub fn range(&self, start: Bound, end: Bound) -> (iter: Iter)
        requires
            self.wf(),
        ensures
            iter.wf(),
            iter.awaited() is None,
            iter.current() is None,
            match normalized(start, end) {
                Some(range) => {
                    &&& iter.range() == range
                    &&& iter.remaining() == scan(self.log(), range)
                    &&& iter.rest().len() == self.archives().len() + 1
                    &&& forall|i: int|
                        0 <= i < self.archives().len() ==> replays(
                            self.archives()[i],
                            #[trigger] iter.rest()[i],
                        )
                    &&& replays(self.active(), iter.rest().last())
                },
                None => iter.remaining() == Seq::<EntryView>::empty() && iter.rest().len() == 0,
            },
    {
        let mut journals: VecDeque<RdJournal> = VecDeque::new();
        let (lo, hi) = match range_ends(start, end) {
            Some(ends) => ends,
            None => {
                let iter = Iter {
                    journal: None,
                    journals,
                    range: Ghost(closed_range(0, 0)),
                    awaited: Ghost(None),
                };
                proof {
                    assert(iter.remaining() =~= Seq::<EntryView>::empty());
                }
                return iter;
            },
        };
        let ghost range = closed_range(lo, hi);
        let ghost pred = |e: EntryView| in_range(range, e.seqno);
        let archives = self.as_journals();
        let mut i: usize = 0;
        while i < archives.len()
            invariant
                self.wf(),
                archives@ == self.archives(),
                i <= archives.len(),
                range == closed_range(lo, hi),
                journals@.len() == i,
                forall|k: int|
                    0 <= k < journals@.len() ==> (#[trigger] journals@[k]).wf()
                        && journals@[k].range() == range && replays(
                        self.archives()[k],
                        journals@[k],
                    ),
                remainings(journals@) == scan(logs(self.archives().take(i as int)), range),
            decreases archives.len() - i,
        {
            assert(self.archives()[i as int].ordered());
            assert(self.archives()[i as int].stage() is Archive);
            let replay = RdJournal::from_journal(&archives[i], RangeInclusive::new(lo, hi));
            let ghost before = journals@;
            journals.push_back(replay);
            proof {
                let front = self.archives().take(i as int);
                let longer = self.archives().take(i + 1);
                assert(journals@.drop_last() =~= before);
                assert(longer.drop_last() =~= front);
                assert(longer.last() == self.archives()[i as int]);
                Seq::filter_distributes_over_add(logs(front), longer.last().log(), pred);
            }
            i = i + 1;
        }
        let replay = RdJournal::from_journal(self.as_journal(), RangeInclusive::new(lo, hi));
        let ghost before = journals@;
        journals.push_back(replay);
        let iter = Iter { journal: None, journals, range: Ghost(range), awaited: Ghost(None) };
        proof {
            assert(self.archives().take(i as int) =~= self.archives());
            assert(iter.rest().drop_last() =~= before);
            assert forall|k: int| 0 <= k < self.archives().len() implies replays(
                self.archives()[k],
                #[trigger] iter.rest()[k],
            ) by {
                assert(iter.rest()[k] == before[k]);
            }
            Seq::filter_distributes_over_add(logs(self.archives()), self.active().log(), pred);
            assert(iter.remaining() =~= scan(self.log(), range));
        }
        iter
    }
}

} // verus!
