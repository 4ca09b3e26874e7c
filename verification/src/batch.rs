use core::cmp::Ordering;
use core::ops::RangeInclusive;
use vstd::prelude::*;
use vstd::std_specs::cmp::PartialEqSpec;
use vstd::std_specs::iter::IteratorSpec;

use crate::entry::{
    clone_entries, entry_views, filter_entries, lemma_adjacent_ordered, lemma_ordered_add, scan,
    strictly_ordered, within, Entry, EntryView,
};
use crate::state::{refusal, State};
use crate::Error;

verus! {

/// What a [`Batch`] is.
pub struct BatchView {
    pub first_seqno: u64,
    pub last_seqno: u64,
    pub state: Seq<u8>,
    pub entries: Seq<EntryView>,
}

impl BatchView {
    /// What holds of every batch that is persisted: it has entries, their
    /// sequence numbers strictly increase, and the batch's two sequence
    /// numbers are those of its first and last entry.
    pub open spec fn is_valid(self) -> bool {
        &&& self.entries.len() > 0
        &&& self.first_seqno == self.entries[0].seqno
        &&& self.last_seqno == self.entries[self.entries.len() - 1].seqno
        &&& strictly_ordered(self.entries)
    }
}

/// Batch of entries, the unit in which a journal file is written and read.
#[derive(Debug)]
pub struct Batch {
    // sequence number of the first entry in this batch.
    first_seqno: u64,
    // sequence number of the last entry in this batch.
    last_seqno: u64,
    // state as serialized bytes, as it was when the batch was sealed.
    state: Vec<u8>,
    // list of entries in this batch.
    entries: Vec<Entry>,
}

impl View for Batch {
    type V = BatchView;

    closed spec fn view(&self) -> BatchView {
        BatchView {
            first_seqno: self.first_seqno,
            last_seqno: self.last_seqno,
            state: self.state@,
            entries: entry_views(self.entries@),
        }
    }
}

impl Clone for Batch {
    fn clone(&self) -> (batch: Batch)
        ensures
            batch@ == self@,
    {
        let entries = clone_entries(&self.entries);
        Batch {
            first_seqno: self.first_seqno,
            last_seqno: self.last_seqno,
            state: self.state.clone(),
            entries,
        }
    }
}

/// Whether `one` and `other` hold entries of the same sequence numbers, one
/// by one.
pub open spec fn same_seqnos(one: Seq<EntryView>, other: Seq<EntryView>) -> bool {
    &&& one.len() == other.len()
    &&& forall|i: int| 0 <= i < one.len() ==> (#[trigger] one[i]).seqno == other[i].seqno
}

impl PartialEq for Batch {
    fn eq(&self, other: &Batch) -> (same: bool) {
        let same = self.first_seqno == other.first_seqno && self.last_seqno == other.last_seqno
            && self.state == other.state && self.entries == other.entries;
        proof {
            assert(self.state@ == other.state@ <==> self.state.eq_spec(&other.state)) by {
                if self.state.eq_spec(&other.state) {
                    assert(self.state@ =~= other.state@);
                }
            }
            assert(same_seqnos(self@.entries, other@.entries) <==> self.entries.eq_spec(
                &other.entries,
            )) by {
                if self.entries.eq_spec(&other.entries) {
                    assert forall|i: int| 0 <= i < self@.entries.len() implies (
                    #[trigger] self@.entries[i]).seqno == other@.entries[i].seqno by {
                        assert(self.entries[i].eq_spec(&other.entries[i]));
                    }
                }
                if same_seqnos(self@.entries, other@.entries) {
                    assert forall|i: int| 0 <= i < self.entries.len() implies (
                    #[trigger] self.entries[i]).eq_spec(&other.entries[i]) by {
                        assert(self@.entries[i].seqno == other@.entries[i].seqno);
                    }
                }
            }
        }
        same
    }
}

impl Eq for Batch {}

impl vstd::std_specs::cmp::PartialEqSpecImpl for Batch {
    open spec fn obeys_eq_spec() -> bool {
        true
    }

    open spec fn eq_spec(&self, other: &Batch) -> bool {
        &&& self@.first_seqno == other@.first_seqno
        &&& self@.last_seqno == other@.last_seqno
        &&& self@.state == other@.state
        &&& same_seqnos(self@.entries, other@.entries)
    }
}

impl PartialOrd for Batch {
    fn partial_cmp(&self, other: &Batch) -> (order: Option<Ordering>) {
        if self.first_seqno < other.first_seqno {
            Some(Ordering::Less)
        } else if self.first_seqno > other.first_seqno {
            Some(Ordering::Greater)
        } else {
            Some(Ordering::Equal)
        }
    }
}

impl vstd::std_specs::cmp::PartialOrdSpecImpl for Batch {
    open spec fn obeys_partial_cmp_spec() -> bool {
        true
    }

    open spec fn partial_cmp_spec(&self, other: &Batch) -> Option<Ordering> {
        if self@.first_seqno < other@.first_seqno {
            Some(Ordering::Less)
        } else if self@.first_seqno > other@.first_seqno {
            Some(Ordering::Greater)
        } else {
            Some(Ordering::Equal)
        }
    }
}

impl Batch {
    /// Puts a batch together from its parts, as they are. Whether the parts
    /// fit together is what [`Batch::is_valid`] tells.
    pub fn new(first_seqno: u64, last_seqno: u64, state: Vec<u8>, entries: Vec<Entry>) -> (batch:
        Batch)
        ensures
            batch@ == (BatchView {
                first_seqno,
                last_seqno,
                state: state@,
                entries: entry_views(entries@),
            }),
    {
        Batch { first_seqno, last_seqno, state, entries }
    }

    /// Whether this batch is one that may be persisted.
    pub fn is_valid(&self) -> (valid: bool)
        ensures
            valid == self@.is_valid(),
    {
        let n = self.entries.len();
        if n == 0 {
            return false;
        }
        if self.entries[0].to_seqno() != self.first_seqno {
            return false;
        }
        if self.entries[n - 1].to_seqno() != self.last_seqno {
            return false;
        }
        let ghost all = entry_views(self.entries@);
        let mut i: usize = 1;
        while i < n
            invariant
                1 <= i <= n,
                n == self.entries.len(),
                all == entry_views(self.entries@),
                forall|k: int| 0 <= k < i - 1 ==> (#[trigger] all[k]).seqno < all[k + 1].seqno,
            decreases n - i,
        {
            if self.entries[i - 1].to_seqno() >= self.entries[i].to_seqno() {
                proof {
                    assert(all[i - 1].seqno >= all[i as int].seqno);
                }
                return false;
            }
            i = i + 1;
        }
        proof {
            lemma_adjacent_ordered(all);
        }
        true
    }

    /// Takes `batch` as the one that `index` points at, given the number of
    /// bytes, `length`, that it was decoded from: they must be all the bytes
    /// that the index spans.
    pub fn from_index(index: Index, batch: Batch, length: usize) -> (outcome: Result<Batch, Error>)
        ensures
            length == index@.length ==> outcome is Ok && outcome->Ok_0@ == batch@,
            length != index@.length ==> outcome matches Err(Error::FailCbor(_, _)),
    {
        if length == index.length {
            Ok(batch)
        } else {
            Err(
                Error::FailCbor(
                    "batch".to_string(),
                    "length of batch differs from its index".to_string(),
                ),
            )
        }
    }

    /// The bytes of the state, as the batch holds them.
    #[inline]
    pub fn to_state(&self) -> (state: Vec<u8>)
        ensures
            state@ == self@.state,
    {
        self.state.clone()
    }

    /// The sequence number of the first entry.
    #[inline]
    pub fn to_first_seqno(&self) -> (seqno: u64)
        ensures
            seqno == self@.first_seqno,
    {
        self.first_seqno
    }

    /// The sequence number of the last entry.
    #[inline]
    pub fn to_last_seqno(&self) -> (seqno: u64)
        ensures
            seqno == self@.last_seqno,
    {
        self.last_seqno
    }

    /// The entries of this batch whose sequence number lies in `range`, in
    /// their order.
    pub fn into_iter(self, range: RangeInclusive<u64>) -> (iter: std::vec::IntoIter<Entry>)
        ensures
            entry_views(iter.remaining()) == scan(self@.entries, range@),
    {
        let kept = filter_entries(self.entries, &range);
        kept.into_iter()
    }

    /// Takes the batch apart: first and last sequence number, state, entries.
    pub fn unwrap(self) -> (parts: (u64, u64, Vec<u8>, Vec<Entry>))
        ensures
            parts.0 == self@.first_seqno,
            parts.1 == self@.last_seqno,
            parts.2@ == self@.state,
            entry_views(parts.3@) == self@.entries,
    {
        (self.first_seqno, self.last_seqno, self.state, self.entries)
    }
}

/// What an [`Index`] is.
pub struct IndexView {
    pub fpos: u64,
    pub length: usize,
    pub first_seqno: u64,
    pub last_seqno: u64,
}

/// Index of a batch on disk.
#[derive(Debug, Clone, Copy, PartialEq, Eq, Structural)]
pub struct Index {
    // offset in file, where the batch starts.
    fpos: u64,
    // length from offset that spans the entire batch.
    length: usize,
    // first seqno in the batch.
    first_seqno: u64,
    // last seqno in the batch.
    last_seqno: u64,
}

impl View for Index {
    type V = IndexView;

    closed spec fn view(&self) -> IndexView {
        IndexView {
            fpos: self.fpos,
            length: self.length,
            first_seqno: self.first_seqno,
            last_seqno: self.last_seqno,
        }
    }
}

impl Index {
    /// The index of the batch of `length` bytes at `fpos` that holds the
    /// entries from `first_seqno` to `last_seqno`.
    pub fn new(fpos: u64, length: usize, first_seqno: u64, last_seqno: u64) -> (index: Index)
        requires
            first_seqno <= last_seqno,
        ensures
            index@ == (IndexView { fpos, length, first_seqno, last_seqno }),
    {
        Index { fpos, length, first_seqno, last_seqno }
    }

    /// Where in the file the batch starts.
    #[inline]
    pub fn to_fpos(&self) -> (fpos: u64)
        ensures
            fpos == self@.fpos,
    {
        self.fpos
    }

    /// The number of bytes that the batch takes in the file.
    #[inline]
    pub fn to_length(&self) -> (length: usize)
        ensures
            length == self@.length,
    {
        self.length
    }

    /// The sequence number of the first entry.
    #[inline]
    pub fn to_first_seqno(&self) -> (seqno: u64)
        ensures
            seqno == self@.first_seqno,
    {
        self.first_seqno
    }

    /// The sequence number of the last entry.
    #[inline]
    pub fn to_last_seqno(&self) -> (seqno: u64)
        ensures
            seqno == self@.last_seqno,
    {
        self.last_seqno
    }
}

/// The views of `indexes`, in their order.
pub open spec fn index_views(indexes: Seq<Index>) -> Seq<IndexView> {
    indexes.map_values(|x: Index| x@)
}

/// The sum of the lengths of the batches that `indexes` point at.
pub open spec fn total_length(indexes: Seq<IndexView>) -> int
    decreases indexes.len(),
{
    if indexes.len() == 0 {
        0
    } else {
        total_length(indexes.drop_last()) + indexes.last().length
    }
}

/// Whether the batches that `indexes` point at stand in a file back to back,
/// in the order of the indexes: no batch is empty, and each batch starts
/// where the bytes of those before it end, the first one at the start of
/// the file.
pub open spec fn indexes_placed(indexes: Seq<IndexView>) -> bool {
    &&& forall|i: int| 0 <= i < indexes.len() ==> (#[trigger] indexes[i]).length >= 1
    &&& forall|i: int|
        0 <= i < indexes.len() ==> (#[trigger] indexes[i]).fpos == total_length(indexes.take(i))
}

/// Whether the sequence numbers go up along `indexes`: within each batch,
/// and from each batch to the next.
pub open spec fn indexes_ordered(indexes: Seq<IndexView>) -> bool {
    &&& forall|i: int|
        0 <= i < indexes.len() ==> (#[trigger] indexes[i]).first_seqno <= indexes[i].last_seqno
    &&& forall|i: int, j: int|
        0 <= i < j < indexes.len() ==> (#[trigger] indexes[i]).last_seqno
            < (#[trigger] indexes[j]).first_seqno
}

/// What holds of the indexes of one journal file of a log, in the order in
/// which the batches were written: the batches stand back to back, and the
/// sequence numbers go up.
pub open spec fn indexes_valid(indexes: Seq<IndexView>) -> bool {
    &&& indexes_placed(indexes)
    &&& indexes_ordered(indexes)
}

/// Batches that stand back to back still do when one more batch is added
/// at the end of the file, and the sum of the lengths is where the file
/// ends then.
pub proof fn lemma_placed_push(indexes: Seq<IndexView>, index: IndexView)
    requires
        indexes_placed(indexes),
        index.fpos == total_length(indexes),
        index.length >= 1,
    ensures
        indexes_placed(indexes.push(index)),
        total_length(indexes.push(index)) == total_length(indexes) + index.length,
{
    let after = indexes.push(index);
    assert(after.drop_last() =~= indexes);
    assert forall|i: int| 0 <= i < after.len() implies (#[trigger] after[i]).fpos == total_length(
        after.take(i),
    ) by {
        if i < indexes.len() {
            assert(after.take(i) =~= indexes.take(i));
        } else {
            assert(after.take(i) =~= indexes);
        }
    }
}

/// The indexes of a journal file stay valid, and the sum of their lengths
/// is where the file ends, when the index of one more batch is added that
/// starts at the end of the file and comes after the batches before it.
pub proof fn lemma_indexes_push(indexes: Seq<IndexView>, index: IndexView)
    requires
        indexes_valid(indexes),
        index.fpos == total_length(indexes),
        index.length >= 1,
        index.first_seqno <= index.last_seqno,
        indexes.len() > 0 ==> indexes.last().last_seqno < index.first_seqno,
    ensures
        indexes_valid(indexes.push(index)),
        total_length(indexes.push(index)) == total_length(indexes) + index.length,
{
    lemma_placed_push(indexes, index);
    let after = indexes.push(index);
    assert forall|i: int, j: int| 0 <= i < j < after.len() implies (#[trigger] after[i]).last_seqno
        < (#[trigger] after[j]).first_seqno by {
        if j == indexes.len() {
            assert(indexes[i].last_seqno <= indexes.last().last_seqno) by {
                if i < indexes.len() - 1 {
                    assert(indexes[i].last_seqno < indexes[indexes.len() - 1].first_seqno);
                }
            }
        }
    }
}

/// The indexes of a journal file without the last one are the indexes of a
/// journal file.
pub proof fn lemma_indexes_drop_last(indexes: Seq<IndexView>)
    requires
        indexes_valid(indexes),
        indexes.len() > 0,
    ensures
        indexes_valid(indexes.drop_last()),
        total_length(indexes) == total_length(indexes.drop_last()) + indexes.last().length,
        indexes.last().fpos == total_length(indexes.drop_last()),
{
    let front = indexes.drop_last();
    assert forall|i: int| 0 <= i < front.len() implies (#[trigger] front[i]).fpos == total_length(
        front.take(i),
    ) by {
        assert(front[i] == indexes[i]);
        assert(front.take(i) =~= indexes.take(i));
    }
    assert forall|i: int, j: int| 0 <= i < j < front.len() implies (#[trigger] front[i]).last_seqno
        < (#[trigger] front[j]).first_seqno by {
        assert(indexes[i].last_seqno < indexes[j].first_seqno);
    }
    assert forall|i: int| 0 <= i < front.len() implies (#[trigger] front[i]).first_seqno
        <= front[i].last_seqno && front[i].length >= 1 by {
        assert(front[i] == indexes[i]);
    }
    assert(indexes.take(indexes.len() - 1) =~= front);
}

/// The first sequence number of the indexes of a journal file is no greater
/// than the last.
pub proof fn lemma_first_before_last(indexes: Seq<IndexView>)
    requires
        indexes_valid(indexes),
        indexes.len() > 0,
    ensures
        indexes[0].first_seqno <= indexes.last().last_seqno,
{
    if indexes.len() > 1 {
        assert(indexes[0].last_seqno < indexes[indexes.len() - 1].first_seqno);
    }
}

/// The batches of a journal file stand back to back: the first one starts
/// the file, each one ends where the next one starts, and the last one ends
/// where the lengths of all of them add up to.
pub proof fn lemma_batches_back_to_back(indexes: Seq<IndexView>, at: int)
    requires
        indexes_placed(indexes),
        0 <= at < indexes.len(),
    ensures
        indexes[0].fpos == 0,
        at + 1 < indexes.len() ==> indexes[at].fpos + indexes[at].length == indexes[at + 1].fpos,
        at + 1 == indexes.len() ==> indexes[at].fpos + indexes[at].length == total_length(indexes),
{
    assert(indexes.take(0) =~= Seq::<IndexView>::empty());
    let longer = indexes.take(at + 1);
    assert(longer.drop_last() =~= indexes.take(at));
    assert(longer.last() == indexes[at]);
    if at + 1 == indexes.len() {
        assert(longer =~= indexes);
    }
}

/// The first batches of a journal file take no more bytes than all of them.
pub proof fn lemma_total_length_grows(indexes: Seq<IndexView>, n: int)
    requires
        0 <= n <= indexes.len(),
    ensures
        0 <= total_length(indexes.take(n)) <= total_length(indexes),
    decreases indexes.len() - n,
{
    if n == indexes.len() {
        assert(indexes.take(n) =~= indexes);
        lemma_total_length_positive(indexes);
    } else {
        lemma_total_length_grows(indexes, n + 1);
        lemma_total_length_positive(indexes.take(n));
        let longer = indexes.take(n + 1);
        assert(longer.drop_last() =~= indexes.take(n));
        assert(total_length(longer) == total_length(longer.drop_last()) + longer.last().length);
    }
}

/// The batches of a journal file take no less than no bytes.
pub proof fn lemma_total_length_positive(indexes: Seq<IndexView>)
    ensures
        0 <= total_length(indexes),
    decreases indexes.len(),
{
    if indexes.len() > 0 {
        lemma_total_length_positive(indexes.drop_last());
    }
}

/// Where the batches of a journal file start follows from their lengths:
/// two lists of indexes of a journal file that agree in the lengths and the
/// sequence numbers of the batches are the same.
pub proof fn lemma_indexes_determined(one: Seq<IndexView>, other: Seq<IndexView>)
    requires
        indexes_valid(one),
        indexes_valid(other),
        one.len() == other.len(),
        forall|i: int|
            0 <= i < one.len() ==> {
                &&& (#[trigger] one[i]).length == other[i].length
                &&& one[i].first_seqno == other[i].first_seqno
                &&& one[i].last_seqno == other[i].last_seqno
            },
    ensures
        one == other,
    decreases one.len(),
{
    if one.len() > 0 {
        lemma_indexes_drop_last(one);
        lemma_indexes_drop_last(other);
        assert forall|i: int| 0 <= i < one.drop_last().len() implies {
            &&& (#[trigger] one.drop_last()[i]).length == other.drop_last()[i].length
            &&& one.drop_last()[i].first_seqno == other.drop_last()[i].first_seqno
            &&& one.drop_last()[i].last_seqno == other.drop_last()[i].last_seqno
        } by {
            assert(one[i].length == other[i].length);
        }
        lemma_indexes_determined(one.drop_last(), other.drop_last());
        assert(one[one.len() - 1].length == other[one.len() - 1].length);
        assert(one.last() == other.last());
        assert(one =~= one.drop_last().push(one.last()));
        assert(other =~= other.drop_last().push(other.last()));
    } else {
        assert(one =~= other);
    }
}

/// Whether `entries` can be the entries of the persisted batch that `index`
/// points at.
pub open spec fn batch_at(entries: Seq<EntryView>, index: IndexView) -> bool {
    &&& entries.len() > 0
    &&& strictly_ordered(entries)
    &&& entries[0].seqno == index.first_seqno
    &&& entries[entries.len() - 1].seqno == index.last_seqno
}

/// Whether `batches` holds, for each of `indexes`, entries that can be those
/// of the batch that it points at.
pub open spec fn batches_at(batches: Seq<Seq<EntryView>>, indexes: Seq<IndexView>) -> bool {
    &&& batches.len() == indexes.len()
    &&& forall|i: int| 0 <= i < batches.len() ==> batch_at(#[trigger] batches[i], indexes[i])
}

/// The entries of the batches of a journal file, taken together: their
/// sequence numbers strictly increase, from the first sequence number of
/// the first batch to the last one of the last batch.
pub proof fn lemma_flushed_ordered(batches: Seq<Seq<EntryView>>, indexes: Seq<IndexView>)
    requires
        indexes_valid(indexes),
        batches_at(batches, indexes),
    ensures
        strictly_ordered(batches.flatten()),
        indexes.len() == 0 ==> batches.flatten().len() == 0,
        indexes.len() > 0 ==> {
            &&& batches.flatten().len() > 0
            &&& batches.flatten()[0].seqno == indexes[0].first_seqno
            &&& batches.flatten().last().seqno == indexes.last().last_seqno
            &&& within(batches.flatten(), indexes[0].first_seqno, indexes.last().last_seqno)
        },
    decreases batches.len(),
{
    if batches.len() > 0 {
        let front = batches.drop_last();
        let indexes_front = indexes.drop_last();
        let last = batches.last();
        let index = indexes.last();
        lemma_indexes_drop_last(indexes);
        assert(batches_at(front, indexes_front)) by {
            assert forall|i: int| 0 <= i < front.len() implies batch_at(
                #[trigger] front[i],
                indexes_front[i],
            ) by {
                assert(batch_at(batches[i], indexes[i]));
            }
        }
        lemma_flushed_ordered(front, indexes_front);
        front.lemma_flatten_push(last);
        assert(front.push(last) =~= batches);
        let earlier = front.flatten();
        assert(batch_at(batches[batches.len() - 1], indexes[batches.len() - 1]));
        assert(within(last, index.first_seqno, index.last_seqno)) by {
            assert forall|i: int| 0 <= i < last.len() implies index.first_seqno <= (
            #[trigger] last[i]).seqno <= index.last_seqno by {
                if 0 < i {
                    assert(last[0].seqno < last[i].seqno);
                }
                if i < last.len() - 1 {
                    assert(last[i].seqno < last[last.len() - 1].seqno);
                }
            }
        }
        if indexes_front.len() > 0 {
            assert(indexes_front.last().last_seqno < index.first_seqno) by {
                let n = indexes.len();
                assert(indexes[n - 2].last_seqno < indexes[n - 1].first_seqno);
            }
            assert(indexes[0].first_seqno <= indexes[0].last_seqno);
            assert(indexes_front[0] == indexes[0]);
        }
        assert forall|i: int, j: int|
            0 <= i < earlier.len() && 0 <= j < last.len() implies (#[trigger] earlier[i]).seqno
            < (#[trigger] last[j]).seqno by {
            assert(index.first_seqno <= last[j].seqno);
        }
        lemma_ordered_add(earlier, last);
        let all = batches.flatten();
        assert(all =~= earlier + last);
        assert(within(all, indexes[0].first_seqno, index.last_seqno)) by {
            assert forall|i: int| 0 <= i < all.len() implies indexes[0].first_seqno <= (
            #[trigger] all[i]).seqno <= index.last_seqno by {
                if i < earlier.len() {
                    assert(all[i] == earlier[i]);
                } else {
                    assert(all[i] == last[i - earlier.len()]);
                }
            }
        }
    }
}

/// Gathers entries in memory and keeps the index of the batches that they
/// were flushed in.
///
/// A worker stands for one journal file that starts out empty and that
/// nothing else writes to. It does not write: [`Worker::to_batch`] hands out
/// the batch that is due, and [`Worker::flush`] is told how many bytes of the
/// file that batch has taken.
pub struct Worker<S> {
    index: Vec<Index>,
    entries: Vec<Entry>,
    state: S,
    // number of bytes in the file.
    size: u64,
    // entries of the batches flushed so far, one item for each index.
    batches: Ghost<Seq<Seq<EntryView>>>,
}

impl<S> Worker<S> {
    /// The indexes of the batches flushed so far.
    pub closed spec fn indexes(&self) -> Seq<IndexView> {
        index_views(self.index@)
    }

    /// The entries that wait for the next flush.
    pub closed spec fn pending(&self) -> Seq<EntryView> {
        entry_views(self.entries@)
    }

    /// The entries of the batches flushed so far, batch by batch.
    pub closed spec fn flushed(&self) -> Seq<Seq<EntryView>> {
        self.batches@
    }

    /// The application's state.
    pub closed spec fn state(&self) -> S {
        self.state
    }

    /// The number of bytes that the flushed batches take in the file.
    pub closed spec fn size(&self) -> u64 {
        self.size
    }

    /// What holds of every worker: the batches stand back to back in the
    /// file, from its start to its end.
    pub open spec fn wf(&self) -> bool {
        &&& indexes_placed(self.indexes())
        &&& self.size() == total_length(self.indexes())
        &&& self.flushed().len() == self.indexes().len()
    }

    /// What holds of a worker that took its entries in the order of their
    /// sequence numbers, as a log gives them: the sequence numbers go up
    /// along the batches and the pending entries.
    pub open spec fn ordered(&self) -> bool {
        &&& self.wf()
        &&& indexes_ordered(self.indexes())
        &&& batches_at(self.flushed(), self.indexes())
        &&& strictly_ordered(self.pending())
        &&& self.indexes().len() > 0 && self.pending().len() > 0
            ==> self.indexes().last().last_seqno < self.pending()[0].seqno
    }

    /// The sequence number of the last entry that the worker took, flushed or
    /// not.
    pub open spec fn last_seqno(&self) -> Option<u64> {
        if self.pending().len() > 0 {
            Some(self.pending().last().seqno)
        } else if self.indexes().len() > 0 {
            Some(self.indexes().last().last_seqno)
        } else {
            None
        }
    }

    /// The sequence number of the first entry that the worker took, flushed
    /// or not.
    pub open spec fn first_seqno(&self) -> Option<u64> {
        if self.indexes().len() > 0 {
            Some(self.indexes()[0].first_seqno)
        } else if self.pending().len() > 0 {
            Some(self.pending()[0].seqno)
        } else {
            None
        }
    }

    /// All entries that the worker took, flushed or not, in their order.
    pub open spec fn log(&self) -> Seq<EntryView> {
        self.flushed().flatten() + self.pending()
    }

    /// A worker for a file that starts out empty, with `state` as the
    /// application's state.
    pub fn new(state: S) -> (worker: Worker<S>)
        ensures
            worker.ordered(),
            worker.indexes() == Seq::<IndexView>::empty(),
            worker.pending() == Seq::<EntryView>::empty(),
            worker.flushed() == Seq::<Seq<EntryView>>::empty(),
            worker.state() == state,
            worker.size() == 0,
    {
        let worker = Worker {
            index: Vec::new(),
            entries: Vec::new(),
            state,
            size: 0,
            batches: Ghost(Seq::empty()),
        };
        proof {
            assert(worker.indexes() =~= Seq::<IndexView>::empty());
            assert(worker.pending() =~= Seq::<EntryView>::empty());
        }
        worker
    }

    /// Tells the state of `entry` and, unless the state refuses it, takes it
    /// as the last of the pending entries, whatever its sequence number. The
    /// worker stays in order where the entry comes after those that it has.
    pub fn add_entry(&mut self, entry: Entry) -> (outcome: Result<(), Error>) where S: State
        requires
            old(self).wf(),
        ensures
            final(self).wf(),
            old(self).ordered() && (outcome is Err || (old(self).last_seqno() matches Some(seqno)
                ==> seqno < entry@.seqno)) ==> final(self).ordered(),
            final(self).indexes() == old(self).indexes(),
            final(self).flushed() == old(self).flushed(),
            final(self).size() == old(self).size(),
            old(self).state().answers(entry@, refusal(outcome), &final(self).state()),
            outcome is Ok ==> final(self).pending() == old(self).pending().push(entry@),
            outcome is Err ==> final(self).pending() == old(self).pending(),
    {
        let outcome = self.state.on_add_entry(&entry);
        if outcome.is_ok() {
            let ghost before = entry_views(self.entries@);
            self.entries.push(entry);
            proof {
                assert(entry_views(self.entries@) =~= before.push(entry@));
            }
        }
        outcome
    }

    /// The batch that is due: the pending entries, with `state` as the bytes
    /// of the state. There is none while no entry is pending.
    pub fn to_batch(&self, state: Vec<u8>) -> (batch: Option<Batch>)
        ensures
            self.pending().len() == 0 ==> batch is None,
            self.pending().len() > 0 ==> batch is Some && batch->Some_0@ == (BatchView {
                first_seqno: self.pending()[0].seqno,
                last_seqno: self.pending().last().seqno,
                state: state@,
                entries: self.pending(),
            }),
            self.pending().len() > 0 && self.ordered() ==> batch->Some_0@.is_valid(),
    {
        let n = self.entries.len();
        if n == 0 {
            None
        } else {
            let first_seqno = self.entries[0].to_seqno();
            let last_seqno = self.entries[n - 1].to_seqno();
            let entries = clone_entries(&self.entries);
            Some(Batch::new(first_seqno, last_seqno, state, entries))
        }
    }

    /// Records that the pending entries were written as one batch of `length`
    /// bytes at the end of the file, and gives the index of that batch. With
    /// no entry pending there is nothing to record.
    pub fn flush(&mut self, length: usize) -> (outcome: Result<Option<Index>, Error>)
        requires
            old(self).wf(),
        ensures
            final(self).wf(),
            old(self).ordered() ==> final(self).ordered(),
            final(self).state() == old(self).state(),
            old(self).pending().len() == 0 ==> outcome == Ok::<Option<Index>, Error>(None),
            old(self).pending().len() > 0 && length == 0 ==> outcome matches Err(
                Error::Invalid(_, _),
            ),
            old(self).pending().len() > 0 && length > 0 && old(self).size() + length > u64::MAX
                ==> outcome matches Err(Error::FailConvert(_, _)),
            old(self).pending().len() > 0 && length > 0 && old(self).size() + length <= u64::MAX
                ==> (outcome matches Ok(Some(index)) && index@ == (IndexView {
                fpos: old(self).size(),
                length,
                first_seqno: old(self).pending()[0].seqno,
                last_seqno: old(self).pending().last().seqno,
            })),
            outcome matches Ok(Some(index)) ==> {
                &&& final(self).indexes() == old(self).indexes().push(index@)
                &&& final(self).flushed() == old(self).flushed().push(old(self).pending())
                &&& final(self).pending() == Seq::<EntryView>::empty()
                &&& final(self).size() == old(self).size() + length
            },
            !(outcome matches Ok(Some(_))) ==> {
                &&& final(self).indexes() == old(self).indexes()
                &&& final(self).flushed() == old(self).flushed()
                &&& final(self).pending() == old(self).pending()
                &&& final(self).size() == old(self).size()
            },
    {
        let n = self.entries.len();
        if n == 0 {
            return Ok(None);
        }
        if length == 0 {
            return Err(Error::Invalid("flush".to_string(), "batch of no bytes".to_string()));
        }
        if length as u64 > u64::MAX - self.size {
            return Err(
                Error::FailConvert("flush".to_string(), "position beyond 64 bits".to_string()),
            );
        }
        let first_seqno = self.entries[0].to_seqno();
        let last_seqno = self.entries[n - 1].to_seqno();
        let ghost pending = entry_views(self.entries@);
        let ghost indexes = index_views(self.index@);
        // the entries may have come in any order: the index says what the
        // batch begins and ends with, as it is.
        let index = Index { fpos: self.size, length, first_seqno, last_seqno };
        self.index.push(index);
        self.entries = Vec::new();
        self.size = self.size + length as u64;
        self.batches = Ghost(self.batches@.push(pending));
        proof {
            assert(index_views(self.index@) =~= indexes.push(index@));
            assert(entry_views(self.entries@) =~= Seq::<EntryView>::empty());
            lemma_placed_push(indexes, index@);
            if old(self).ordered() {
                assert(pending[0].seqno <= pending[n - 1].seqno) by {
                    if n > 1 {
                        assert(pending[0].seqno < pending[n - 1].seqno);
                    }
                }
                lemma_indexes_push(indexes, index@);
            }
        }
        Ok(Some(index))
    }

    /// The sequence number of the last entry that the worker took, flushed
    /// or not.
    pub fn to_last_seqno(&self) -> (seqno: Option<u64>)
        ensures
            seqno == self.last_seqno(),
    {
        let n = self.entries.len();
        if n > 0 {
            Some(self.entries[n - 1].to_seqno())
        } else {
            let m = self.index.len();
            if m > 0 {
                Some(self.index[m - 1].to_last_seqno())
            } else {
                None
            }
        }
    }

    /// The sequence number of the first entry that the worker took, flushed
    /// or not.
    pub fn to_first_seqno(&self) -> (seqno: Option<u64>)
        ensures
            seqno == self.first_seqno(),
    {
        if self.index.len() > 0 {
            Some(self.index[0].to_first_seqno())
        } else if self.entries.len() > 0 {
            Some(self.entries[0].to_seqno())
        } else {
            None
        }
    }

    /// The indexes of the batches flushed so far.
    pub fn to_index(&self) -> (index: Vec<Index>)
        ensures
            index_views(index@) == self.indexes(),
    {
        let index = self.index.clone();
        proof {
            assert(index_views(index@) =~= index_views(self.index@));
        }
        index
    }

    /// The entries that wait for the next flush.
    pub fn to_entries(&self) -> (entries: Vec<Entry>)
        ensures
            entry_views(entries@) == self.pending(),
    {
        clone_entries(&self.entries)
    }

    /// The number of batches flushed so far.
    pub fn len_batches(&self) -> (n: usize)
        ensures
            n == self.indexes().len(),
    {
        self.index.len()
    }

    /// The number of entries that wait for the next flush.
    pub fn len_entries(&self) -> (n: usize)
        ensures
            n == self.pending().len(),
    {
        self.entries.len()
    }

    /// The number of bytes in the file: those of the batches flushed so far.
    pub fn file_size(&self) -> (size: u64)
        ensures
            size == self.size(),
    {
        self.size
    }

    /// The application's state.
    pub fn to_state(&self) -> (state: S) where S: Clone
        ensures
            cloned(self.state(), state),
    {
        self.state.clone()
    }

    /// Takes the worker apart: indexes, pending entries, state.
    pub fn unwrap(self) -> (parts: (Vec<Index>, Vec<Entry>, S))
        ensures
            index_views(parts.0@) == self.indexes(),
            entry_views(parts.1@) == self.pending(),
            parts.2 == self.state(),
    {
        (self.index, self.entries, self.state)
    }
}

} // verus!
