use core::cmp::Ordering;
use core::ops::RangeInclusive;
use vstd::prelude::*;
use vstd::std_specs::range::RangeInclusiveView;

verus! {

/// What an [`Entry`] is: a sequence number and the bytes of an operation.
pub struct EntryView {
    pub seqno: u64,
    pub op: Seq<u8>,
}

/// Single operation in the write-ahead log.
#[derive(Debug)]
pub struct Entry {
    // Sequence number of this entry, strictly increasing along the log.
    seqno: u64,
    // Operation to be logged, opaque to the log.
    op: Vec<u8>,
}

impl View for Entry {
    type V = EntryView;

    closed spec fn view(&self) -> EntryView {
        EntryView { seqno: self.seqno, op: self.op@ }
    }
}

impl Clone for Entry {
    fn clone(&self) -> (entry: Entry)
        ensures
            entry@ == self@,
    {
        Entry { seqno: self.seqno, op: self.op.clone() }
    }
}

impl PartialEq for Entry {
    fn eq(&self, other: &Entry) -> (same: bool) {
        self.seqno == other.seqno
    }
}

impl Eq for Entry {}

impl vstd::std_specs::cmp::PartialEqSpecImpl for Entry {
    open spec fn obeys_eq_spec() -> bool {
        true
    }

    open spec fn eq_spec(&self, other: &Entry) -> bool {
        self@.seqno == other@.seqno
    }
}

impl PartialOrd for Entry {
    fn partial_cmp(&self, other: &Entry) -> (order: Option<Ordering>) {
        if self.seqno < other.seqno {
            Some(Ordering::Less)
        } else if self.seqno > other.seqno {
            Some(Ordering::Greater)
        } else {
            Some(Ordering::Equal)
        }
    }
}

impl vstd::std_specs::cmp::PartialOrdSpecImpl for Entry {
    open spec fn obeys_partial_cmp_spec() -> bool {
        true
    }

    open spec fn partial_cmp_spec(&self, other: &Entry) -> Option<Ordering> {
        if self@.seqno < other@.seqno {
            Some(Ordering::Less)
        } else if self@.seqno > other@.seqno {
            Some(Ordering::Greater)
        } else {
            Some(Ordering::Equal)
        }
    }
}

impl Entry {
    /// The entry that records `op` under `seqno`.
    #[inline]
    pub fn new(seqno: u64, op: Vec<u8>) -> (entry: Entry)
        ensures
            entry@ == (EntryView { seqno, op: op@ }),
    {
        Entry { seqno, op }
    }

    /// The sequence number of this entry.
    #[inline]
    pub fn to_seqno(&self) -> (seqno: u64)
        ensures
            seqno == self@.seqno,
    {
        self.seqno
    }

    /// Takes the entry apart: sequence number and operation.
    #[inline]
    pub fn unwrap(self) -> (parts: (u64, Vec<u8>))
        ensures
            parts.0 == self@.seqno,
            parts.1@ == self@.op,
    {
        (self.seqno, self.op)
    }
}

/// The views of `entries`, in their order.
pub open spec fn entry_views(entries: Seq<Entry>) -> Seq<EntryView> {
    entries.map_values(|e: Entry| e@)
}

/// Copies `entries`.
pub(crate) fn clone_entries(entries: &Vec<Entry>) -> (copy: Vec<Entry>)
    ensures
        entry_views(copy@) == entry_views(entries@),
{
    let copy = entries.clone();
    proof {
        assert(entry_views(copy@) =~= entry_views(entries@)) by {
            assert forall|i: int| 0 <= i < entries.len() implies copy[i]@ == entries[i]@ by {
                assert(cloned(entries[i], copy[i]));
            }
        }
    }
    copy
}

/// Whether the sequence numbers of `entries` strictly increase.
pub open spec fn strictly_ordered(entries: Seq<EntryView>) -> bool {
    forall|i: int, j: int| 0 <= i < j < entries.len() ==> entries[i].seqno < entries[j].seqno
}

/// Whether the sequence numbers of `entries` all lie between `lo` and `hi`.
pub open spec fn within(entries: Seq<EntryView>, lo: u64, hi: u64) -> bool {
    forall|i: int| 0 <= i < entries.len() ==> lo <= (#[trigger] entries[i]).seqno <= hi
}

/// Entries whose sequence numbers strictly increase, followed by entries of
/// greater sequence numbers that strictly increase, strictly increase as a
/// whole.
pub proof fn lemma_ordered_add(earlier: Seq<EntryView>, later: Seq<EntryView>)
    requires
        strictly_ordered(earlier),
        strictly_ordered(later),
        forall|i: int, j: int|
            0 <= i < earlier.len() && 0 <= j < later.len() ==> (#[trigger] earlier[i]).seqno
                < (#[trigger] later[j]).seqno,
    ensures
        strictly_ordered(earlier + later),
{
    let all = earlier + later;
    assert forall|i: int, j: int| 0 <= i < j < all.len() implies all[i].seqno < all[j].seqno by {
        if j < earlier.len() {
            assert(earlier[i].seqno < earlier[j].seqno);
        } else if i < earlier.len() {
            assert(earlier[i].seqno < later[j - earlier.len()].seqno);
        } else {
            assert(later[i - earlier.len()].seqno < later[j - earlier.len()].seqno);
        }
    }
}

/// Sequence numbers that increase from each entry to the next increase
/// strictly along the whole sequence.
pub proof fn lemma_adjacent_ordered(entries: Seq<EntryView>)
    requires
        forall|k: int|
            0 <= k < entries.len() - 1 ==> (#[trigger] entries[k]).seqno < entries[k + 1].seqno,
    ensures
        strictly_ordered(entries),
    decreases entries.len(),
{
    if entries.len() > 1 {
        let front = entries.drop_last();
        assert forall|k: int| 0 <= k < front.len() - 1 implies (#[trigger] front[k]).seqno < front[k
            + 1].seqno by {
            assert(entries[k].seqno < entries[k + 1].seqno);
        }
        lemma_adjacent_ordered(front);
        assert forall|i: int, j: int| 0 <= i < j < entries.len() implies entries[i].seqno
            < entries[j].seqno by {
            if j < entries.len() - 1 {
                assert(front[i].seqno < front[j].seqno);
            } else if i < j - 1 {
                assert(front[i].seqno < front[j - 1].seqno);
                assert(entries[j - 1].seqno < entries[j - 1 + 1].seqno);
            } else {
                assert(entries[i].seqno < entries[i + 1].seqno);
            }
        }
    }
}

/// The range of the sequence numbers from `lo` to `hi`, both of them in it.
pub open spec fn closed_range(lo: u64, hi: u64) -> RangeInclusiveView<u64> {
    RangeInclusiveView { start: lo, end: hi, exhausted: false }
}

/// Whether `seqno` lies in `range`, as `RangeInclusive::contains` decides it.
pub open spec fn in_range(range: RangeInclusiveView<u64>, seqno: u64) -> bool {
    &&& range.start <= seqno
    &&& if range.exhausted {
        seqno < range.end
    } else {
        seqno <= range.end
    }
}

/// The entries of `entries` whose sequence number lies in `range`, in their
/// order.
pub open spec fn scan(entries: Seq<EntryView>, range: RangeInclusiveView<u64>) -> Seq<EntryView> {
    entries.filter(|e: EntryView| in_range(range, e.seqno))
}

/// Keeps the entries of `entries` whose sequence number lies in `range`.
pub(crate) fn filter_entries(entries: Vec<Entry>, range: &RangeInclusive<u64>) -> (kept: Vec<Entry>)
    ensures
        entry_views(kept@) == scan(entry_views(entries@), range@),
{
    let ghost all = entry_views(entries@);
    let ghost pred = |e: EntryView| in_range(range@, e.seqno);
    let mut kept: Vec<Entry> = Vec::new();
    proof {
        assert(entry_views(kept@) =~= all.take(0).filter(pred));
    }
    for entry in it: entries.into_iter()
        invariant
            entry_views(it.seq()) == all,
            pred == |e: EntryView| in_range(range@, e.seqno),
            entry_views(kept@) == all.take(it.index()).filter(pred),
    {
        let ghost i = it.index();
        proof {
            assert(entry@ == all[i]);
            assert(all.take(i + 1) =~= all.take(i).push(all[i]));
            all.take(i).lemma_filter_push(all[i], pred);
        }
        let ghost old_kept = entry_views(kept@);
        if range.contains(&entry.to_seqno()) {
            kept.push(entry);
            proof {
                assert(entry_views(kept@) =~= old_kept.push(all[i]));
            }
        }
    }
    proof {
        assert(all.take(all.len() as int) =~= all);
    }
    kept
}

/// Among entries whose sequence numbers strictly increase, one entry alone
/// has its sequence number.
pub proof fn lemma_scan_one(entries: Seq<EntryView>, at: int)
    requires
        strictly_ordered(entries),
        0 <= at < entries.len(),
    ensures
        scan(entries, closed_range(entries[at].seqno, entries[at].seqno)) == seq![entries[at]],
    decreases entries.len(),
{
    let range = closed_range(entries[at].seqno, entries[at].seqno);
    let pred = |e: EntryView| in_range(range, e.seqno);
    let front = entries.drop_last();
    assert(front.push(entries.last()) =~= entries);
    front.lemma_filter_push(entries.last(), pred);
    if at == entries.len() - 1 {
        assert(front.all(|e: EntryView| !pred(e))) by {
            assert forall|i: int| 0 <= i < front.len() implies !pred(#[trigger] front[i]) by {
                assert(entries[i].seqno < entries[at].seqno);
            }
        }
        front.lemma_all_neg_filter_empty(pred);
        assert(front.filter(pred) =~= Seq::<EntryView>::empty());
        assert(front.filter(pred).push(entries.last()) =~= seq![entries[at]]);
    } else {
        assert(entries[at].seqno < entries[entries.len() - 1].seqno);
        assert(strictly_ordered(front)) by {
            assert forall|i: int, j: int| 0 <= i < j < front.len() implies front[i].seqno
                < front[j].seqno by {
                assert(entries[i].seqno < entries[j].seqno);
            }
        }
        lemma_scan_one(front, at);
    }
}

/// Every entry lies in the range of all sequence numbers.
pub proof fn lemma_scan_all(entries: Seq<EntryView>)
    ensures
        scan(entries, closed_range(0, u64::MAX)) == entries,
    decreases entries.len(),
{
    let pred = |e: EntryView| in_range(closed_range(0, u64::MAX), e.seqno);
    if entries.len() == 0 {
        assert(entries.filter(pred) =~= entries);
    } else {
        lemma_scan_all(entries.drop_last());
        entries.drop_last().lemma_filter_push(entries.last(), pred);
        assert(entries.drop_last().push(entries.last()) =~= entries);
    }
}

} // verus!
