use core::ops::RangeInclusive;
use std::collections::VecDeque;
use vstd::prelude::*;
use vstd::std_specs::range::RangeInclusiveView;
use vstd::string::StringExecFns;

use crate::batch::{
    batch_at, batches_at, index_views, indexes_ordered, indexes_placed, indexes_valid,
    lemma_batches_back_to_back,
    lemma_flushed_ordered, lemma_indexes_push, lemma_total_length_grows, total_length, Batch,
    BatchView, Index, IndexView, Worker,
};
use crate::entry::{
    entry_views, filter_entries, in_range, lemma_ordered_add, scan, strictly_ordered, within, Entry,
    EntryView,
};
use crate::files::{filename_of, filename_parts, make_filename, unwrap_filename};
use crate::state::{refusal, State};
use crate::Error;

verus! {

/// The stage of its life that a journal is in.
pub enum Stage {
    /// The one journal of a log that entries are added to.
    Working,
    /// Closed for writing: only the indexes of its batches are kept.
    Archive,
    /// Known by its file alone, and of no use but to be removed.
    Cold,
}

/// One journal file of a log, as far as the log keeps it in memory.
///
/// The file itself is the caller's: a journal says what was written to it
/// and where.
pub struct Journal<S> {
    name: String,
    num: usize,
    inner: InnerJournal<S>,
}

enum InnerJournal<S> {
    // Active journal, the latest journal in the journal-set.
    Working { worker: Worker<S> },
    // All journals except the latest are archives: only the index of each
    // batch is kept, with the state that the last of them left, and the
    // number of bytes behind the batches that are no batch.
    Archive { index: Vec<Index>, state: S, tail: u64, batches: Ghost<Seq<Seq<EntryView>>> },
    // Cold journals are colder than archives: nothing of them is kept.
    Cold,
}

impl<S> Journal<S> {
    /// The name of the log that the journal belongs to.
    pub closed spec fn name(&self) -> Seq<char> {
        self.name@
    }

    /// The journal's number: journals of one log are numbered as they come.
    pub closed spec fn num(&self) -> usize {
        self.num
    }

    /// The stage that the journal is in.
    pub closed spec fn stage(&self) -> Stage {
        match self.inner {
            InnerJournal::Working { .. } => Stage::Working,
            InnerJournal::Archive { .. } => Stage::Archive,
            InnerJournal::Cold => Stage::Cold,
        }
    }

    /// The indexes of the batches in the file, in the order of the file.
    pub closed spec fn indexes(&self) -> Seq<IndexView> {
        match self.inner {
            InnerJournal::Working { worker } => worker.indexes(),
            InnerJournal::Archive { index, .. } => index_views(index@),
            InnerJournal::Cold => Seq::empty(),
        }
    }

    /// The entries of the batches in the file, batch by batch.
    pub closed spec fn flushed(&self) -> Seq<Seq<EntryView>> {
        match self.inner {
            InnerJournal::Working { worker } => worker.flushed(),
            InnerJournal::Archive { batches, .. } => batches@,
            InnerJournal::Cold => Seq::empty(),
        }
    }

    /// The entries that wait for the next flush.
    pub closed spec fn pending(&self) -> Seq<EntryView> {
        match self.inner {
            InnerJournal::Working { worker } => worker.pending(),
            _ => Seq::empty(),
        }
    }

    /// The application's state, as the journal has it.
    pub closed spec fn state(&self) -> Option<S> {
        match self.inner {
            InnerJournal::Working { worker } => Some(worker.state()),
            InnerJournal::Archive { state, .. } => Some(state),
            InnerJournal::Cold => None,
        }
    }

    /// The number of bytes that the batches take in the file.
    pub closed spec fn size(&self) -> int {
        match self.inner {
            InnerJournal::Working { worker } => worker.size() as int,
            _ => total_length(self.indexes()),
        }
    }

    /// The number of bytes that stand in the file behind the batches and are
    /// no batch: what is left of a batch that was not written to its end,
    /// or what else could not be taken up when the file was loaded.
    pub closed spec fn tail(&self) -> u64 {
        match self.inner {
            InnerJournal::Archive { tail, .. } => tail,
            _ => 0,
        }
    }

    /// Where in the file the bytes start that are no batch, if there are
    /// such bytes.
    pub open spec fn damage(&self) -> Option<u64> {
        if self.tail() > 0 {
            Some(self.size() as u64)
        } else {
            None
        }
    }

    /// What holds of every journal: the batches stand back to back in the
    /// file, and only a working journal has pending entries.
    pub open spec fn wf(&self) -> bool {
        &&& indexes_placed(self.indexes())
        &&& self.size() == total_length(self.indexes())
        &&& self.size() <= u64::MAX
        &&& self.flushed().len() == self.indexes().len()
        &&& !(self.stage() is Working) ==> self.pending().len() == 0
        &&& self.stage() is Cold ==> self.indexes().len() == 0
        &&& self.stage() is Cold <==> self.state() is None
    }

    /// What holds of a journal that took its entries in the order of their
    /// sequence numbers, as a log gives them: the sequence numbers go up
    /// along the batches and the pending entries.
    pub open spec fn ordered(&self) -> bool {
        &&& self.wf()
        &&& indexes_ordered(self.indexes())
        &&& batches_at(self.flushed(), self.indexes())
        &&& strictly_ordered(self.pending())
        &&& self.indexes().len() > 0 && self.pending().len() > 0
            ==> self.indexes().last().last_seqno < self.pending()[0].seqno
    }

    /// Whether the journal is an archive with batches, as loading makes
    /// them.
    #[verifier::opaque]
    pub open spec fn is_loaded(&self) -> bool {
        &&& self.ordered()
        &&& self.stage() is Archive
        &&& self.indexes().len() > 0
    }

    /// The sequence number of the last entry in the journal, flushed or not.
    pub open spec fn last_seqno(&self) -> Option<u64> {
        if self.pending().len() > 0 {
            Some(self.pending().last().seqno)
        } else if self.indexes().len() > 0 {
            Some(self.indexes().last().last_seqno)
        } else {
            None
        }
    }

    /// The sequence number of the first entry in the journal, flushed or
    /// not.
    pub open spec fn first_seqno(&self) -> Option<u64> {
        if self.indexes().len() > 0 {
            Some(self.indexes()[0].first_seqno)
        } else if self.pending().len() > 0 {
            Some(self.pending()[0].seqno)
        } else {
            None
        }
    }

    /// All entries of the journal, flushed or not, in their order.
    pub open spec fn log(&self) -> Seq<EntryView> {
        self.flushed().flatten() + self.pending()
    }

    /// The sequence numbers of the entries of a journal strictly increase,
    /// from the first sequence number of the journal to its last.
    pub proof fn lemma_log_ordered(&self)
        requires
            self.ordered(),
        ensures
            strictly_ordered(self.log()),
            self.log().len() == 0 <==> self.last_seqno() is None,
            self.log().len() == 0 <==> self.first_seqno() is None,
            self.log().len() > 0 ==> within(
                self.log(),
                self.first_seqno()->Some_0,
                self.last_seqno()->Some_0,
            ),
    {
        let earlier = self.flushed().flatten();
        let later = self.pending();
        lemma_flushed_ordered(self.flushed(), self.indexes());
        assert(within(later, later[0].seqno, later.last().seqno)) by {
            assert forall|i: int| 0 <= i < later.len() implies later[0].seqno <= (
            #[trigger] later[i]).seqno <= later.last().seqno by {
                if 0 < i {
                    assert(later[0].seqno < later[i].seqno);
                }
                if i < later.len() - 1 {
                    assert(later[i].seqno < later[later.len() - 1].seqno);
                }
            }
        }
        assert forall|i: int, j: int|
            0 <= i < earlier.len() && 0 <= j < later.len() implies (#[trigger] earlier[i]).seqno
            < (#[trigger] later[j]).seqno by {
            assert(later[0].seqno <= later[j].seqno);
        }
        lemma_ordered_add(earlier, later);
        let all = self.log();
        if all.len() > 0 {
            let first = self.first_seqno()->Some_0;
            let last = self.last_seqno()->Some_0;
            assert forall|i: int| 0 <= i < all.len() implies first <= (#[trigger] all[i]).seqno
                <= last by {
                if i < earlier.len() {
                    assert(all[i] == earlier[i]);
                    if later.len() > 0 {
                        assert(earlier[i].seqno < later[0].seqno);
                        assert(later[0].seqno <= later[later.len() - 1].seqno);
                    }
                } else {
                    assert(all[i] == later[i - earlier.len()]);
                    if earlier.len() > 0 {
                        assert(earlier[0].seqno < later[i - earlier.len()].seqno);
                    }
                }
            }
        }
    }

    /// A working journal with number `num` for the log `name`, for a file
    /// that starts out empty.
    pub fn start_journal(name: &str, num: usize, state: S) -> (journal: Journal<S>)
        ensures
            journal.ordered(),
            journal.stage() is Working,
            journal.name() == name@,
            journal.num() == num,
            journal.indexes() == Seq::<IndexView>::empty(),
            journal.flushed() == Seq::<Seq<EntryView>>::empty(),
            journal.pending() == Seq::<EntryView>::empty(),
            journal.state() == Some(state),
            journal.size() == 0,
            journal.tail() == 0,
    {
        Journal {
            name: String::from_str(name),
            num,
            inner: InnerJournal::Working { worker: Worker::new(state) },
        }
    }

    /// A cold journal for the file named `file_name`, if that is the name of
    /// a journal file of the log `name`.
    pub fn load_cold(name: &str, file_name: &str) -> (journal: Option<Journal<S>>)
        ensures
            match journal {
                Some(journal) => {
                    &&& filename_parts(file_name@) == Some((name@, journal.num()))
                    &&& journal.name() == name@
                    &&& journal.stage() is Cold
                    &&& journal.ordered()
                },
                None => match filename_parts(file_name@) {
                    Some((nm, _)) => nm != name@,
                    None => true,
                },
            },
    {
        match unwrap_filename(String::from_str(file_name)) {
            Some((nm, num)) => {
                let name = String::from_str(name);
                if nm == name {
                    Some(Journal { name, num, inner: InnerJournal::Cold })
                } else {
                    None
                }
            },
            None => None,
        }
    }

    /// Forgets the indexes of an archive.
    pub fn into_cold(self) -> (journal: Journal<S>)
        requires
            self.stage() is Archive,
        ensures
            journal.stage() is Cold,
            journal.ordered(),
            journal.name() == self.name(),
            journal.num() == self.num(),
    {
        Journal { name: self.name, num: self.num, inner: InnerJournal::Cold }
    }

    /// Closes a working journal for writing. Gives the archive, the entries
    /// that were still pending, which the archive does not hold, and the
    /// state.
    pub fn into_archive(self) -> (parts: (Journal<S>, Vec<Entry>, S)) where S: Clone
        requires
            self.stage() is Working,
            self.wf(),
        ensures
            parts.0.stage() is Archive,
            parts.0.wf(),
            self.ordered() ==> parts.0.ordered(),
            parts.0.name() == self.name(),
            parts.0.num() == self.num(),
            parts.0.indexes() == self.indexes(),
            parts.0.flushed() == self.flushed(),
            parts.0.size() == self.size(),
            parts.0.tail() == 0,
            entry_views(parts.1@) == self.pending(),
            Some(parts.2) == self.state(),
            parts.0.state() matches Some(state) && cloned(parts.2, state),
    {
        match self.inner {
            InnerJournal::Working { worker } => {
                let ghost batches = worker.flushed();
                let (index, entries, state) = worker.unwrap();
                let inner = InnerJournal::Archive {
                    index,
                    state: state.clone(),
                    tail: 0,
                    batches: Ghost(batches),
                };
                (Journal { name: self.name, num: self.num, inner }, entries, state)
            },
            _ => unreached(),
        }
    }
}

impl<S> Journal<S> {
    /// Tells the state of `entry` and, unless the state refuses it, takes it
    /// as the last of the pending entries, whatever its sequence number. The
    /// journal stays in order where the entry comes after those that it
    /// has.
    pub fn add_entry(&mut self, entry: Entry) -> (outcome: Result<(), Error>) where S: State
        requires
            old(self).stage() is Working,
            old(self).wf(),
        ensures
            final(self).wf(),
            old(self).ordered() && (outcome is Err || (old(self).last_seqno() matches Some(seqno)
                ==> seqno < entry@.seqno)) ==> final(self).ordered(),
            final(self).stage() is Working,
            final(self).name() == old(self).name(),
            final(self).num() == old(self).num(),
            final(self).indexes() == old(self).indexes(),
            final(self).flushed() == old(self).flushed(),
            final(self).size() == old(self).size(),
            final(self).tail() == 0,
            old(self).state() matches Some(before) && (final(self).state() matches Some(after)
                && before.answers(entry@, refusal(outcome), &after)),
            outcome is Ok ==> final(self).pending() == old(self).pending().push(entry@),
            outcome is Err ==> final(self).pending() == old(self).pending(),
    {
        match &mut self.inner {
            InnerJournal::Working { worker } => worker.add_entry(entry),
            _ => unreached(),
        }
    }

    /// The batch that is due: the pending entries, with `state` as the bytes
    /// of the state. There is none while no entry is pending.
    pub fn to_batch(&self, state: Vec<u8>) -> (batch: Option<Batch>)
        requires
            self.stage() is Working,
        ensures
            self.pending().len() == 0 ==> batch is None,
            self.pending().len() > 0 ==> batch is Some && batch->Some_0@ == (BatchView {
                first_seqno: self.pending()[0].seqno,
                last_seqno: self.pending().last().seqno,
                state: state@,
                entries: self.pending(),
            }),
            self.pending().len() > 0 && self.ordered() ==> batch->Some_0@.is_valid(),
    {
        match &self.inner {
            InnerJournal::Working { worker } => worker.to_batch(state),
            _ => unreached(),
        }
    }

    /// Records that the pending entries were written as one batch of `length`
    /// bytes at the end of the file. With no entry pending there is nothing
    /// to record.
    pub fn flush(&mut self, length: usize) -> (outcome: Result<(), Error>)
        requires
            old(self).stage() is Working,
            old(self).wf(),
        ensures
            final(self).wf(),
            old(self).ordered() ==> final(self).ordered(),
            final(self).stage() is Working,
            final(self).name() == old(self).name(),
            final(self).num() == old(self).num(),
            final(self).state() == old(self).state(),
            final(self).tail() == 0,
            old(self).pending().len() == 0 ==> outcome is Ok,
            old(self).pending().len() > 0 && length == 0 ==> outcome matches Err(
                Error::Invalid(_, _),
            ),
            old(self).pending().len() > 0 && length > 0 && old(self).size() + length > u64::MAX
                ==> outcome matches Err(Error::FailConvert(_, _)),
            old(self).pending().len() > 0 && length > 0 && old(self).size() + length <= u64::MAX
                ==> outcome is Ok,
            outcome is Ok && old(self).pending().len() > 0 ==> {
                &&& final(self).indexes() == old(self).indexes().push(
                    IndexView {
                        fpos: old(self).size() as u64,
                        length,
                        first_seqno: old(self).pending()[0].seqno,
                        last_seqno: old(self).pending().last().seqno,
                    },
                )
                &&& final(self).flushed() == old(self).flushed().push(old(self).pending())
                &&& final(self).pending() == Seq::<EntryView>::empty()
                &&& final(self).size() == old(self).size() + length
            },
            outcome is Err || old(self).pending().len() == 0 ==> {
                &&& final(self).indexes() == old(self).indexes()
                &&& final(self).flushed() == old(self).flushed()
                &&& final(self).pending() == old(self).pending()
                &&& final(self).size() == old(self).size()
            },
    {
        match &mut self.inner {
            InnerJournal::Working { worker } => match worker.flush(length) {
                Ok(_) => Ok(()),
                Err(err) => Err(err),
            },
            _ => unreached(),
        }
    }

    /// The journal's number.
    pub fn to_journal_number(&self) -> (num: usize)
        ensures
            num == self.num(),
    {
        self.num
    }

    /// Where in the file the bytes start that are no batch, if there are
    /// such bytes.
    pub fn to_damage(&self) -> (damage: Option<u64>)
        requires
            self.wf(),
        ensures
            damage == self.damage(),
    {
        match &self.inner {
            InnerJournal::Archive { index, tail, .. } => {
                if *tail > 0 {
                    let n = index.len();
                    if n > 0 {
                        proof {
                            lemma_batches_back_to_back(self.indexes(), n - 1);
                        }
                        Some(index[n - 1].to_fpos() + index[n - 1].to_length() as u64)
                    } else {
                        Some(0)
                    }
                } else {
                    None
                }
            },
            _ => None,
        }
    }

    /// The name of the journal's file.
    pub fn to_file_name(&self) -> (file: String)
        ensures
            file@ == filename_of(self.name(), self.num() as nat),
    {
        make_filename(self.name.clone(), self.num)
    }

    /// The number of batches in the file.
    pub fn len_batches(&self) -> (n: usize)
        requires
            !(self.stage() is Cold),
        ensures
            n == self.indexes().len(),
    {
        match &self.inner {
            InnerJournal::Working { worker } => worker.len_batches(),
            InnerJournal::Archive { index, .. } => index.len(),
            InnerJournal::Cold => unreached(),
        }
    }

    /// The number of entries that wait for the next flush.
    pub fn len_entries(&self) -> (n: usize)
        ensures
            n == self.pending().len(),
    {
        match &self.inner {
            InnerJournal::Working { worker } => worker.len_entries(),
            _ => 0,
        }
    }

    /// The sequence number of the last entry in the journal, flushed or not.
    /// A cold journal knows of none.
    pub fn to_last_seqno(&self) -> (seqno: Option<u64>)
        requires
            self.wf(),
        ensures
            seqno == self.last_seqno(),
    {
        match &self.inner {
            InnerJournal::Working { worker } => worker.to_last_seqno(),
            InnerJournal::Archive { index, .. } => {
                let n = index.len();
                if n == 0 {
                    None
                } else {
                    Some(index[n - 1].to_last_seqno())
                }
            },
            InnerJournal::Cold => None,
        }
    }

    /// The sequence number of the first entry in the journal, flushed or
    /// not.
    pub fn to_first_seqno(&self) -> (seqno: Option<u64>)
        requires
            self.wf(),
        ensures
            seqno == self.first_seqno(),
    {
        match &self.inner {
            InnerJournal::Working { worker } => worker.to_first_seqno(),
            InnerJournal::Archive { index, .. } => {
                if index.len() == 0 {
                    None
                } else {
                    Some(index[0].to_first_seqno())
                }
            },
            InnerJournal::Cold => None,
        }
    }

    /// The number of bytes in the file: those of the batches flushed so far.
    pub fn file_size(&self) -> (outcome: Result<usize, Error>)
        requires
            self.stage() is Working,
            self.wf(),
        ensures
            self.size() <= usize::MAX ==> outcome == Ok::<usize, Error>(self.size() as usize),
            self.size() > usize::MAX ==> outcome matches Err(Error::FailConvert(_, _)),
    {
        match &self.inner {
            InnerJournal::Working { worker } => {
                let size = worker.file_size();
                if size <= usize::MAX as u64 {
                    Ok(size as usize)
                } else {
                    Err(
                        Error::FailConvert(
                            "file_size".to_string(),
                            "size beyond the machine word".to_string(),
                        ),
                    )
                }
            },
            _ => unreached(),
        }
    }

    /// The application's state, as the journal has it.
    pub fn to_state(&self) -> (state: S) where S: Clone
        requires
            !(self.stage() is Cold),
        ensures
            self.state() matches Some(kept) && cloned(kept, state),
    {
        match &self.inner {
            InnerJournal::Working { worker } => worker.to_state(),
            InnerJournal::Archive { state, .. } => state.clone(),
            InnerJournal::Cold => unreached(),
        }
    }
}

/// Takes up what is read from a journal file, batch by batch from the start
/// of the file, to make an archive of it.
///
/// The caller decodes: it asks with [`Loader::to_fpos`] where the next batch
/// starts, decodes one batch there and hands it to [`Loader::add_batch`] with
/// the number of bytes that the batch took, until the file is used up, or
/// until a batch cannot be decoded or is not taken.
/// [`Journal::load_archive`] then makes the archive of the batches taken up.
pub struct Loader {
    name: String,
    num: usize,
    // number of bytes in the file.
    len: u64,
    // number of bytes taken up so far.
    fpos: u64,
    index: Vec<Index>,
    // state of the last batch taken up.
    state: Vec<u8>,
    // entries of the batches taken up so far.
    batches: Ghost<Seq<Seq<EntryView>>>,
}

impl Loader {
    /// The name of the log that the file belongs to.
    pub closed spec fn name(&self) -> Seq<char> {
        self.name@
    }

    /// The journal's number.
    pub closed spec fn num(&self) -> usize {
        self.num
    }

    /// The number of bytes in the file.
    pub closed spec fn len(&self) -> u64 {
        self.len
    }

    /// The number of bytes taken up so far.
    pub closed spec fn fpos(&self) -> u64 {
        self.fpos
    }

    /// The indexes of the batches taken up so far.
    pub closed spec fn indexes(&self) -> Seq<IndexView> {
        index_views(self.index@)
    }

    /// The entries of the batches taken up so far, batch by batch.
    pub closed spec fn flushed(&self) -> Seq<Seq<EntryView>> {
        self.batches@
    }

    /// The bytes of the state in the last batch taken up.
    pub closed spec fn state(&self) -> Seq<u8> {
        self.state@
    }

    /// What holds of every loader.
    pub open spec fn wf(&self) -> bool {
        &&& indexes_valid(self.indexes())
        &&& self.fpos() == total_length(self.indexes())
        &&& self.fpos() <= self.len()
        &&& batches_at(self.flushed(), self.indexes())
    }

    /// Whether the loader takes `batch` as the next one, of `length` bytes.
    pub open spec fn takes(&self, batch: BatchView, length: usize) -> bool {
        &&& length > 0
        &&& self.fpos() + length <= self.len()
        &&& batch.is_valid()
        &&& self.indexes().len() > 0 ==> self.indexes().last().last_seqno < batch.first_seqno
    }

    /// A loader takes a batch that a journal was written with, if it has
    /// taken up the batches before it, and gives it the index that it has
    /// in the journal: what was written is what is loaded.
    pub proof fn lemma_takes_what_was_written<S>(
        &self,
        journal: Journal<S>,
        at: int,
        batch: BatchView,
    )
        requires
            journal.ordered(),
            self.wf(),
            0 <= at < journal.indexes().len(),
            journal.size() <= self.len(),
            self.indexes() == journal.indexes().take(at),
            batch.first_seqno == journal.indexes()[at].first_seqno,
            batch.last_seqno == journal.indexes()[at].last_seqno,
            batch.entries == journal.flushed()[at],
        ensures
            self.takes(batch, journal.indexes()[at].length),
            journal.indexes()[at] == (IndexView {
                fpos: self.fpos(),
                length: journal.indexes()[at].length,
                first_seqno: batch.first_seqno,
                last_seqno: batch.last_seqno,
            }),
            self.indexes().push(journal.indexes()[at]) == journal.indexes().take(at + 1),
            self.flushed() == journal.flushed().take(at) ==> self.flushed().push(batch.entries)
                == journal.flushed().take(at + 1),
    {
        assert(journal.indexes().take(at).push(journal.indexes()[at]) =~= journal.indexes().take(
            at + 1,
        ));
        assert(journal.flushed().take(at).push(journal.flushed()[at]) =~= journal.flushed().take(
            at + 1,
        ));
        let indexes = journal.indexes();
        lemma_batches_back_to_back(indexes, at);
        lemma_total_length_grows(indexes, at + 1);
        assert(indexes.take(at + 1).drop_last() =~= indexes.take(at));
        assert(batch_at(journal.flushed()[at], indexes[at]));
        if at > 0 {
            assert(indexes.take(at).last() == indexes[at - 1]);
            assert(indexes[at - 1].last_seqno < indexes[at].first_seqno);
        }
    }

    /// A loader for the file named `file_name`, which holds `len` bytes, if
    /// that is the name of a journal file of the log `name`.
    pub fn new(name: &str, file_name: &str, len: u64) -> (loader: Option<Loader>)
        ensures
            match loader {
                Some(loader) => {
                    &&& filename_parts(file_name@) == Some((name@, loader.num()))
                    &&& loader.name() == name@
                    &&& loader.len() == len
                    &&& loader.fpos() == 0
                    &&& loader.indexes() == Seq::<IndexView>::empty()
                    &&& loader.flushed() == Seq::<Seq<EntryView>>::empty()
                    &&& loader.state() == Seq::<u8>::empty()
                    &&& loader.wf()
                },
                None => match filename_parts(file_name@) {
                    Some((nm, _)) => nm != name@,
                    None => true,
                },
            },
    {
        match unwrap_filename(String::from_str(file_name)) {
            Some((nm, num)) => {
                let name = String::from_str(name);
                if nm == name {
                    let loader = Loader {
                        name,
                        num,
                        len,
                        fpos: 0,
                        index: Vec::new(),
                        state: Vec::new(),
                        batches: Ghost(Seq::empty()),
                    };
                    proof {
                        assert(loader.indexes() =~= Seq::<IndexView>::empty());
                    }
                    Some(loader)
                } else {
                    None
                }
            },
            None => None,
        }
    }

    /// Where in the file the next batch starts, while the file is not used
    /// up.
    pub fn to_fpos(&self) -> (fpos: Option<u64>)
        ensures
            fpos == if self.fpos() < self.len() {
                Some(self.fpos())
            } else {
                None
            },
    {
        if self.fpos < self.len {
            Some(self.fpos)
        } else {
            None
        }
    }

    /// Takes up `batch`, which was decoded from the `length` bytes of the
    /// file that start where the last batch ended.
    ///
    /// A length of zero, or one that reaches beyond the end of the file, is
    /// refused as invalid. A batch that could not have been persisted, or
    /// that does not come after the batches before it, is a fatal fault of
    /// the file.
    pub fn add_batch(&mut self, batch: Batch, length: usize) -> (outcome: Result<(), Error>)
        requires
            old(self).wf(),
        ensures
            final(self).wf(),
            final(self).name() == old(self).name(),
            final(self).num() == old(self).num(),
            final(self).len() == old(self).len(),
            outcome is Ok <==> old(self).takes(batch@, length),
            length == 0 || old(self).fpos() + length > old(self).len() ==> outcome matches Err(
                Error::Invalid(_, _),
            ),
            outcome is Err && length > 0 && old(self).fpos() + length <= old(self).len()
                ==> outcome matches Err(Error::Fatal(_, _)),
            outcome is Ok ==> {
                &&& final(self).indexes() == old(self).indexes().push(
                    IndexView {
                        fpos: old(self).fpos(),
                        length,
                        first_seqno: batch@.first_seqno,
                        last_seqno: batch@.last_seqno,
                    },
                )
                &&& final(self).flushed() == old(self).flushed().push(batch@.entries)
                &&& final(self).fpos() == old(self).fpos() + length
                &&& final(self).state() == batch@.state
            },
            outcome is Err ==> {
                &&& final(self).indexes() == old(self).indexes()
                &&& final(self).flushed() == old(self).flushed()
                &&& final(self).fpos() == old(self).fpos()
                &&& final(self).state() == old(self).state()
            },
    {
        if length == 0 || length as u64 > self.len - self.fpos {
            return Err(
                Error::Invalid(
                    "load".to_string(),
                    "batch of no bytes, or beyond the file".to_string(),
                ),
            );
        }
        if !batch.is_valid() {
            return Err(Error::Fatal("load".to_string(), "batch that cannot be".to_string()));
        }
        let n = self.index.len();
        if n > 0 && self.index[n - 1].to_last_seqno() >= batch.to_first_seqno() {
            return Err(Error::Fatal("load".to_string(), "batches out of order".to_string()));
        }
        let ghost indexes = index_views(self.index@);
        let ghost taken = batch@.entries;
        proof {
            let k = taken.len() as int;
            assert(taken[0].seqno <= taken[k - 1].seqno) by {
                if k > 1 {
                    assert(taken[0].seqno < taken[k - 1].seqno);
                }
            }
        }
        let (first_seqno, last_seqno, state, _) = batch.unwrap();
        let index = Index::new(self.fpos, length, first_seqno, last_seqno);
        self.index.push(index);
        self.fpos = self.fpos + length as u64;
        self.state = state;
        self.batches = Ghost(self.batches@.push(taken));
        proof {
            assert(index_views(self.index@) =~= indexes.push(index@));
            lemma_indexes_push(indexes, index@);
        }
        Ok(())
    }

    /// The bytes of the state in the last batch taken up: what the state of
    /// the archive is to be decoded from.
    pub fn to_state(&self) -> (state: Vec<u8>)
        ensures
            state@ == self.state(),
    {
        self.state.clone()
    }
}

impl<S> Journal<S> {
    /// Makes an archive of what `loader` took up, with `state` as the state
    /// that the last batch left. Where the file could not be taken up to its
    /// end, the archive holds the batches before the first one that could
    /// not be taken up, and knows of the rest of the file as bytes that are
    /// no batch: a replay comes to them once. There is no archive without
    /// batches.
    pub fn load_archive(loader: Loader, state: S) -> (loaded: Option<(Journal<S>, S)>) where
        S: Clone,

        requires
            loader.wf(),
        ensures
            loaded is Some <==> loader.indexes().len() > 0,
            loaded matches Some((journal, kept)) ==> {
                &&& journal.is_loaded()
                &&& journal.ordered()
                &&& journal.stage() is Archive
                &&& journal.name() == loader.name()
                &&& journal.num() == loader.num()
                &&& journal.indexes() == loader.indexes()
                &&& journal.flushed() == loader.flushed()
                &&& journal.size() == loader.fpos()
                &&& journal.tail() == loader.len() - loader.fpos()
                &&& kept == state
                &&& journal.state() matches Some(copy) && cloned(state, copy)
            },
    {
        if loader.index.len() == 0 {
            return None;
        }
        let journal = Journal {
            name: loader.name,
            num: loader.num,
            inner: InnerJournal::Archive {
                index: loader.index,
                state: state.clone(),
                tail: loader.len - loader.fpos,
                batches: loader.batches,
            },
        };
        proof {
            reveal(Journal::is_loaded);
        }
        Some((journal, state))
    }
}

/// Moves `items` into a queue, in their order.
pub(crate) fn into_queue<T>(items: Vec<T>) -> (queue: VecDeque<T>)
    ensures
        queue@ == items@,
{
    let ghost all = items@;
    let mut queue: VecDeque<T> = VecDeque::new();
    for item in it: items.into_iter()
        invariant
            it.seq() == all,
            queue@ == all.take(it.index()),
    {
        proof {
            assert(all.take(it.index() + 1) =~= all.take(it.index()).push(item));
        }
        queue.push_back(item);
    }
    proof {
        assert(all.take(all.len() as int) =~= all);
    }
    queue
}

/// What a replay comes to next.
pub enum Replay {
    /// The next entry.
    Entry(Entry),
    /// The entries at hand are used up: the batch that this index points at
    /// is to be read from the journal's file and handed in.
    Fetch(Index),
    /// The batches of the journal's file are used up, but bytes that are no
    /// batch follow them in the file, from this place on: a failure to tell
    /// of, once.
    Corrupt(u64),
    /// Nothing is left.
    End,
}

/// Replay of the entries of one journal whose sequence numbers lie in a
/// range, in the order of the journal: the batches in the file first, each
/// read when the replay comes to it, then the entries that were pending when
/// the replay was made.
///
/// The caller reads: on [`Replay::Fetch`] it reads and decodes the batch and
/// hands it to [`RdJournal::feed`]; where it cannot, it goes on without, and
/// the replay goes on with the next batch. Where the file ends in bytes that
/// are no batch, the replay comes to them once, behind the batches.
pub struct RdJournal {
    // number of the journal, which tells its file.
    num: usize,
    range: RangeInclusive<u64>,
    // entries of the batch at hand that are still to come.
    batch: VecDeque<Entry>,
    // indexes of the batches that are still to be read.
    index: VecDeque<Index>,
    // where the bytes start that are no batch, until the replay has come to
    // them.
    corrupt: Option<u64>,
    // entries that were pending, still to come.
    entries: VecDeque<Entry>,
    // entries of the batches that are still to be read, as the journal
    // knew them.
    expected: Ghost<Seq<Seq<EntryView>>>,
}

impl RdJournal {
    /// The number of the journal that is replayed.
    pub closed spec fn num(&self) -> usize {
        self.num
    }

    /// The range of sequence numbers that is replayed.
    pub closed spec fn range(&self) -> RangeInclusiveView<u64> {
        self.range@
    }

    /// The entries at hand, from the batch that was handed in last.
    pub closed spec fn at_hand(&self) -> Seq<EntryView> {
        entry_views(self.batch@)
    }

    /// The indexes of the batches that are still to be read.
    pub closed spec fn to_read(&self) -> Seq<IndexView> {
        index_views(self.index@)
    }

    /// The entries of the batches that are still to be read, as the journal
    /// knew them when the replay was made.
    pub closed spec fn expected(&self) -> Seq<Seq<EntryView>> {
        self.expected@
    }

    /// Where in the file the bytes start that are no batch, until the replay
    /// has come to them.
    pub closed spec fn corrupt(&self) -> Option<u64> {
        self.corrupt
    }

    /// The entries that were pending when the replay was made, as far as
    /// they lie in the range and are still to come.
    pub closed spec fn tail(&self) -> Seq<EntryView> {
        entry_views(self.entries@)
    }

    /// What holds of every replay.
    pub open spec fn wf(&self) -> bool {
        self.expected().len() == self.to_read().len()
    }

    /// The entries that are still to come, if each batch is handed in as the
    /// journal knew it.
    pub open spec fn remaining(&self) -> Seq<EntryView> {
        self.at_hand() + scan(self.expected().flatten(), self.range()) + self.tail()
    }

    /// Replay of the entries of `journal` whose sequence numbers lie in
    /// `range`.
    pub fn from_journal<S>(journal: &Journal<S>, range: RangeInclusive<u64>) -> (replay: RdJournal)
        requires
            journal.wf(),
            !(journal.stage() is Cold),
        ensures
            replay.wf(),
            replay.num() == journal.num(),
            replay.range() == range@,
            replay.at_hand() == Seq::<EntryView>::empty(),
            replay.to_read() == journal.indexes(),
            replay.expected() == journal.flushed(),
            replay.corrupt() == journal.damage(),
            replay.tail() == scan(journal.pending(), range@),
            replay.remaining() == scan(journal.log(), range@),
    {
        let (index, entries) = match &journal.inner {
            InnerJournal::Working { worker } => (worker.to_index(), worker.to_entries()),
            InnerJournal::Archive { index, .. } => {
                let index = index.clone();
                let entries: Vec<Entry> = Vec::new();
                proof {
                    assert(index_views(index@) =~= journal.indexes());
                    assert(entry_views(entries@) =~= journal.pending());
                }
                (index, entries)
            },
            InnerJournal::Cold => unreached(),
        };
        let entries = filter_entries(entries, &range);
        let replay = RdJournal {
            num: journal.num,
            range,
            batch: VecDeque::new(),
            index: into_queue(index),
            corrupt: journal.to_damage(),
            entries: into_queue(entries),
            expected: Ghost(journal.flushed()),
        };
        proof {
            let pred = |e: EntryView| in_range(range@, e.seqno);
            assert(replay.at_hand() =~= Seq::<EntryView>::empty());
            Seq::filter_distributes_over_add(journal.flushed().flatten(), journal.pending(), pred);
            assert(replay.remaining() =~= scan(journal.log(), range@));
        }
        replay
    }

    /// What the replay comes to next: an entry at hand; or, with none at
    /// hand, the index of the next batch to read; or, with no batch left to
    /// read, the bytes that are no batch, once; or an entry that was
    /// pending; or the end.
    pub fn next(&mut self) -> (next: Replay)
        requires
            old(self).wf(),
        ensures
            final(self).wf(),
            final(self).num() == old(self).num(),
            final(self).range() == old(self).range(),
            match next {
                Replay::Entry(entry) => {
                    &&& old(self).remaining().len() > 0
                    &&& entry@ == old(self).remaining()[0]
                    &&& final(self).remaining() == old(self).remaining().drop_first()
                    &&& final(self).to_read() == old(self).to_read()
                    &&& final(self).expected() == old(self).expected()
                    &&& final(self).corrupt() == old(self).corrupt()
                },
                Replay::Fetch(index) => {
                    &&& old(self).at_hand().len() == 0
                    &&& old(self).to_read().len() > 0
                    &&& index@ == old(self).to_read()[0]
                    &&& final(self).at_hand() == old(self).at_hand()
                    &&& final(self).to_read() == old(self).to_read().drop_first()
                    &&& final(self).expected() == old(self).expected().drop_first()
                    &&& final(self).tail() == old(self).tail()
                    &&& final(self).corrupt() == old(self).corrupt()
                    &&& old(self).remaining() == scan(old(self).expected()[0], old(self).range())
                        + final(self).remaining()
                },
                Replay::Corrupt(fpos) => {
                    &&& old(self).at_hand().len() == 0
                    &&& old(self).to_read().len() == 0
                    &&& old(self).corrupt() == Some(fpos)
                    &&& final(self).corrupt() is None
                    &&& final(self).at_hand() == old(self).at_hand()
                    &&& final(self).to_read() == old(self).to_read()
                    &&& final(self).expected() == old(self).expected()
                    &&& final(self).tail() == old(self).tail()
                    &&& final(self).remaining() == old(self).remaining()
                },
                Replay::End => {
                    &&& old(self).remaining() == Seq::<EntryView>::empty()
                    &&& old(self).to_read().len() == 0
                    &&& old(self).corrupt() is None
                    &&& final(self).corrupt() is None
                    &&& final(self).remaining() == old(self).remaining()
                },
            },
    {
        let ghost range = self.range@;
        let ghost pred = |e: EntryView| in_range(range, e.seqno);
        let ghost at_hand = entry_views(self.batch@);
        let ghost tail = entry_views(self.entries@);
        let ghost expected = self.expected@;
        if let Some(entry) = self.batch.pop_front() {
            proof {
                assert(entry_views(self.batch@) =~= at_hand.drop_first());
                assert(self.remaining() =~= old(self).remaining().drop_first());
            }
            return Replay::Entry(entry);
        }
        proof {
            assert(at_hand =~= Seq::<EntryView>::empty());
        }
        if let Some(index) = self.index.pop_front() {
            self.expected = Ghost(expected.drop_first());
            proof {
                assert(index_views(self.index@) =~= index_views(old(self).index@).drop_first());
                assert(expected.flatten() == expected[0] + expected.drop_first().flatten());
                let rest = expected.drop_first().flatten();
                Seq::filter_distributes_over_add(expected[0], rest, pred);
                assert(old(self).remaining() =~= scan(expected[0], range) + self.remaining());
            }
            return Replay::Fetch(index);
        }
        proof {
            assert(expected =~= Seq::<Seq<EntryView>>::empty());
            assert(scan(expected.flatten(), range) =~= Seq::<EntryView>::empty());
        }
        if let Some(fpos) = self.corrupt.take() {
            return Replay::Corrupt(fpos);
        }
        if let Some(entry) = self.entries.pop_front() {
            proof {
                assert(entry_views(self.entries@) =~= tail.drop_first());
                assert(old(self).remaining() =~= tail);
                assert(self.remaining() =~= tail.drop_first());
            }
            return Replay::Entry(entry);
        }
        proof {
            assert(old(self).remaining() =~= Seq::<EntryView>::empty());
        }
        Replay::End
    }

    /// The number of the journal that is replayed: it tells the file that
    /// the batches are to be read from.
    pub fn to_journal_number(&self) -> (num: usize)
        ensures
            num == self.num(),
    {
        self.num
    }

    /// Hands in the batch that was read for the index that the replay asked
    /// for last: its entries in the range are the entries at hand from now
    /// on.
    pub fn feed(&mut self, batch: Batch)
        ensures
            final(self).num() == old(self).num(),
            final(self).range() == old(self).range(),
            final(self).at_hand() == scan(batch@.entries, old(self).range()),
            final(self).to_read() == old(self).to_read(),
            final(self).expected() == old(self).expected(),
            final(self).corrupt() == old(self).corrupt(),
            final(self).tail() == old(self).tail(),
    {
        let (_, _, _, entries) = batch.unwrap();
        self.batch = into_queue(filter_entries(entries, &self.range));
    }
}

} // verus!
