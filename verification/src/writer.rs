use vstd::prelude::*;
use vstd::string::StringExecFns;

use crate::batch::{
    lemma_first_before_last, lemma_flushed_ordered, Batch, BatchView, IndexView,
};
use crate::entry::{
    closed_range, lemma_ordered_add, lemma_scan_one, scan, strictly_ordered, Entry, EntryView,
};
use crate::journal::{Journal, Stage};
use crate::state::{refusal, State};
use crate::Error;

verus! {

/// What is asked of the writer of a log.
#[derive(Debug)]
pub enum Req {
    /// To add an operation to the log.
    AddEntry { op: Vec<u8> },
}

/// What the writer of a log answers.
#[derive(Debug)]
pub enum Res {
    /// The sequence number that the operation got.
    Seqno(u64),
}

/// Whether `earlier` stands before `later` in a log: every entry of it comes
/// before every entry of `later`, and it has the smaller number, unless
/// `later` has the greatest number there is.
pub open spec fn comes_before<S>(earlier: Journal<S>, later: Journal<S>) -> bool {
    &&& earlier.last_seqno() matches Some(last) ==> (later.first_seqno() matches Some(first)
        ==> last < first)
    &&& earlier.num() < later.num() || later.num() == usize::MAX
}

/// The entries of `journals`, one journal after the other.
pub open spec fn logs<S>(journals: Seq<Journal<S>>) -> Seq<EntryView>
    decreases journals.len(),
{
    if journals.len() == 0 {
        Seq::empty()
    } else {
        logs(journals.drop_last()) + journals.last().log()
    }
}

/// The entries of journals that come one before the other, taken together:
/// their sequence numbers strictly increase, and stay below what is above
/// the last sequence number of each journal.
pub proof fn lemma_logs_ordered<S>(journals: Seq<Journal<S>>, above: int)
    requires
        forall|i: int| 0 <= i < journals.len() ==> (#[trigger] journals[i]).ordered(),
        forall|i: int, j: int|
            0 <= i < j < journals.len() ==> comes_before(
                #[trigger] journals[i],
                #[trigger] journals[j],
            ),
        forall|i: int|
            0 <= i < journals.len() ==> ((#[trigger] journals[i]).last_seqno() matches Some(last)
                ==> last < above),
    ensures
        strictly_ordered(logs(journals)),
        forall|i: int|
            0 <= i < logs(journals).len() ==> (#[trigger] logs(journals)[i]).seqno < above,
    decreases journals.len(),
{
    if journals.len() > 0 {
        let front = journals.drop_last();
        let journal = journals.last();
        let later = journal.log();
        journal.lemma_log_ordered();
        assert forall|i: int, j: int| 0 <= i < j < front.len() implies comes_before(
            #[trigger] front[i],
            #[trigger] front[j],
        ) by {
            assert(comes_before(journals[i], journals[j]));
        }
        if later.len() == 0 {
            assert forall|i: int| 0 <= i < front.len() implies (
            (#[trigger] front[i]).last_seqno() matches Some(last) ==> last < above) by {
                assert(front[i] == journals[i]);
            }
            lemma_logs_ordered(front, above);
            assert(logs(journals) =~= logs(front));
        } else {
            let first = journal.first_seqno()->Some_0;
            assert forall|i: int| 0 <= i < front.len() implies (
            (#[trigger] front[i]).last_seqno() matches Some(last) ==> last < first) by {
                assert(comes_before(journals[i], journals[journals.len() - 1]));
            }
            lemma_logs_ordered(front, first as int);
            let earlier = logs(front);
            assert forall|i: int, j: int|
                0 <= i < earlier.len() && 0 <= j < later.len() implies (#[trigger] earlier[i]).seqno
                < (#[trigger] later[j]).seqno by {
                assert(first <= later[j].seqno);
            }
            lemma_ordered_add(earlier, later);
            let all = logs(journals);
            assert(journals[journals.len() - 1].last_seqno() is Some);
            assert forall|i: int| 0 <= i < all.len() implies (#[trigger] all[i]).seqno < above by {
                if i < earlier.len() {
                    assert(all[i] == earlier[i]);
                    assert(earlier[i].seqno < later[0].seqno);
                } else {
                    assert(all[i] == later[i - earlier.len()]);
                }
            }
        }
    }
}

/// The operation that `req` asks to add.
pub open spec fn op_of(req: Req) -> Seq<u8> {
    match req {
        Req::AddEntry { op } => op@,
    }
}

/// The entries that `reqs` ask to add, with the sequence numbers from
/// `seqno` on, one after the other.
pub open spec fn entries_of(reqs: Seq<Req>, seqno: u64) -> Seq<EntryView> {
    Seq::new(reqs.len(), |i: int| EntryView { seqno: (seqno + i) as u64, op: op_of(reqs[i]) })
}

/// The answers to requests that were given the sequence numbers from
/// `seqno` on, one after the other.
pub open spec fn answers_of(n: nat, seqno: u64) -> Seq<Res> {
    Seq::new(n, |i: int| Res::Seqno((seqno + i) as u64))
}

/// `log` with the first `taken` of the entries that `reqs` ask to add, with
/// the sequence numbers from `seqno` on, behind it.
pub open spec fn log_after(log: Seq<EntryView>, reqs: Seq<Req>, seqno: u64, taken: int) -> Seq<
    EntryView,
> {
    log + entries_of(reqs.take(taken), seqno)
}

/// Whether the request at `taken` is the one that ends a run of requests
/// with the error `err`, where the first of them gets the sequence number
/// `seqno`: either no sequence number is left for it, which is a fatal
/// error, or the state `before`, told of its entry, refuses it with `err`
/// and becomes the state `after`.
pub open spec fn refuses<S: State>(
    before: S,
    after: S,
    reqs: Seq<Req>,
    seqno: u64,
    taken: int,
    err: Error,
) -> bool {
    if seqno + taken == u64::MAX {
        err matches Error::Fatal(_, _)
    } else {
        before.answers(
            EntryView { seqno: (seqno + taken) as u64, op: op_of(reqs[taken]) },
            Some(err),
            &after,
        )
    }
}

/// The one writer of a log: it owns the journals, gives each operation its
/// sequence number, and moves on to a new journal when the file of the
/// working one has grown beyond the limit.
pub struct Writer<S> {
    name: String,
    journal_limit: usize,
    // the sequence number that the next operation gets.
    seqno: u64,
    // the archives, in the order of their entries.
    journals: Vec<Journal<S>>,
    // the working journal.
    journal: Journal<S>,
}

impl<S> Writer<S> {
    /// The name of the log.
    pub closed spec fn name(&self) -> Seq<char> {
        self.name@
    }

    /// The size of a journal file beyond which the writer moves on to a new
    /// journal.
    pub closed spec fn journal_limit(&self) -> usize {
        self.journal_limit
    }

    /// The sequence number that the next operation gets.
    pub closed spec fn seqno(&self) -> u64 {
        self.seqno
    }

    /// The archives, in the order of their entries.
    pub closed spec fn archives(&self) -> Seq<Journal<S>> {
        self.journals@
    }

    /// The working journal.
    pub closed spec fn active(&self) -> Journal<S> {
        self.journal
    }

    /// What holds of every writer: its journals are in order, one comes
    /// before the other as they stand in the list, by their entries and by
    /// their numbers, the working one last, and no entry has the next
    /// sequence number or one beyond it.
    pub open spec fn wf(&self) -> bool {
        &&& self.seqno() >= 1
        &&& self.active().ordered()
        &&& self.active().stage() is Working
        &&& self.active().name() == self.name()
        &&& self.active().last_seqno() matches Some(last) ==> last < self.seqno()
        &&& forall|i: int|
            0 <= i < self.archives().len() ==> {
                &&& (#[trigger] self.archives()[i]).ordered()
                &&& self.archives()[i].stage() is Archive
                &&& comes_before(self.archives()[i], self.active())
                &&& self.archives()[i].last_seqno() matches Some(last) ==> last < self.seqno()
            }
        &&& forall|i: int, j: int|
            0 <= i < j < self.archives().len() ==> comes_before(
                #[trigger] self.archives()[i],
                #[trigger] self.archives()[j],
            )
    }

    /// All entries of the log, in their order.
    pub open spec fn log(&self) -> Seq<EntryView> {
        logs(self.archives()) + self.active().log()
    }

    /// The sequence numbers of the entries of a log strictly increase, and
    /// stay below the next sequence number.
    pub proof fn lemma_log_ordered(&self)
        requires
            self.wf(),
        ensures
            strictly_ordered(self.log()),
            forall|i: int| 0 <= i < self.log().len() ==> (#[trigger] self.log()[i]).seqno
                < self.seqno(),
    {
        let journals = self.archives().push(self.active());
        assert(journals.drop_last() =~= self.archives());
        assert(logs(journals) =~= self.log());
        assert forall|i: int, j: int| 0 <= i < j < journals.len() implies comes_before(
            #[trigger] journals[i],
            #[trigger] journals[j],
        ) by {
            assert(journals[i] == self.archives()[i]);
            if j < self.archives().len() {
                assert(journals[j] == self.archives()[j]);
            }
        }
        assert forall|i: int| 0 <= i < journals.len() implies (#[trigger] journals[i]).ordered()
            && (journals[i].last_seqno() matches Some(last) ==> last < self.seqno()) by {
            if i < self.archives().len() {
                assert(journals[i] == self.archives()[i]);
            }
        }
        lemma_logs_ordered(journals, self.seqno() as int);
    }

    /// An entry of the log is the one entry that a replay of its sequence
    /// number alone yields.
    pub proof fn lemma_replay_of_one(&self, at: int)
        requires
            self.wf(),
            0 <= at < self.log().len(),
        ensures
            scan(self.log(), closed_range(self.log()[at].seqno, self.log()[at].seqno))
                == seq![self.log()[at]],
    {
        self.lemma_log_ordered();
        lemma_scan_one(self.log(), at);
    }

    /// An operation that the log took stays the one entry that a replay of
    /// its sequence number alone yields, whatever the log has taken since.
    pub proof fn lemma_replay_of_added(before: Writer<S>, later: Writer<S>, entry: EntryView)
        requires
            later.wf(),
            before.log().len() < later.log().len(),
            later.log().take(before.log().len() as int + 1) == before.log().push(entry),
        ensures
            scan(later.log(), closed_range(entry.seqno, entry.seqno)) == seq![entry],
    {
        let at = before.log().len() as int;
        assert(later.log().take(at + 1)[at] == before.log().push(entry)[at]);
        later.lemma_replay_of_one(at);
    }

    /// Whether the log holds the sequence numbers from 1 on without a gap:
    /// it was created, not loaded, and each operation offered was taken.
    pub open spec fn is_dense(&self) -> bool {
        &&& self.seqno() == self.log().len() + 1
        &&& forall|i: int| 0 <= i < self.log().len() ==> (#[trigger] self.log()[i]).seqno == i + 1
    }

    /// In a log without a gap the operations and the sequence numbers from 1
    /// to their number go one to one: each of these sequence numbers is
    /// that of one entry and no other, and the entries stand in the order of
    /// their sequence numbers.
    pub proof fn lemma_dense_one_to_one(&self, seqno: u64)
        requires
            self.is_dense(),
            1 <= seqno <= self.log().len(),
        ensures
            self.log()[seqno - 1].seqno == seqno,
            forall|i: int|
                0 <= i < self.log().len() && (#[trigger] self.log()[i]).seqno == seqno ==> i
                    == seqno - 1,
            self.seqno() == self.log().len() + 1,
    {
    }

    /// Whether the log was created, not loaded, and moved on to a new journal
    /// only when the file of the working one had grown beyond the limit: the
    /// journals are numbered from 0 on without a gap, and the file of each
    /// archive is greater than the limit.
    pub open spec fn kept_to_limit(&self) -> bool {
        &&& self.active().num() == self.archives().len()
        &&& forall|i: int|
            0 <= i < self.archives().len() ==> (#[trigger] self.archives()[i]).num() == i
                && self.archives()[i].size() > self.journal_limit()
    }

    /// Whether the log holds the operations `ops`, and no other, under the
    /// sequence numbers from 1 on, in their order.
    pub open spec fn holds(&self, ops: Seq<Seq<u8>>) -> bool {
        &&& self.seqno() == ops.len() + 1
        &&& self.log() == Seq::new(
            ops.len(),
            |i: int| EntryView { seqno: (i + 1) as u64, op: ops[i] },
        )
    }

    /// A log that holds operations under the sequence numbers from 1 on has
    /// no gap, and a replay of all of it yields them one by one.
    pub proof fn lemma_holds(&self, ops: Seq<Seq<u8>>)
        requires
            self.holds(ops),
        ensures
            self.is_dense(),
            self.log().len() == ops.len(),
            forall|i: int|
                0 <= i < ops.len() ==> (#[trigger] self.log()[i]) == (EntryView {
                    seqno: (i + 1) as u64,
                    op: ops[i],
                }),
    {
    }

    /// A log that holds operations under the sequence numbers from 1 on and
    /// takes one more holds that one too, as the last.
    pub proof fn lemma_holds_after_add(
        before: Writer<S>,
        after: Writer<S>,
        ops: Seq<Seq<u8>>,
        entry: EntryView,
    )
        requires
            before.holds(ops),
            entry.seqno == before.seqno(),
            after.seqno() == before.seqno() + 1,
            after.log() == before.log().push(entry),
        ensures
            after.holds(ops.push(entry.op)),
    {
        let wanted = Seq::new(
            ops.len() + 1,
            |i: int| EntryView { seqno: (i + 1) as u64, op: ops.push(entry.op)[i] },
        );
        assert(after.log() =~= wanted);
    }

    /// A log that holds operations under the sequence numbers from 1 on and
    /// takes a run of requests holds their operations too, behind the
    /// others.
    pub proof fn lemma_holds_after_window(
        before: Writer<S>,
        after: Writer<S>,
        ops: Seq<Seq<u8>>,
        reqs: Seq<Req>,
    )
        requires
            before.holds(ops),
            before.seqno() + reqs.len() <= u64::MAX,
            after.seqno() == before.seqno() + reqs.len(),
            after.log() == before.log() + entries_of(reqs, before.seqno()),
        ensures
            after.holds(ops + reqs.map_values(|req: Req| op_of(req))),
    {
        let all = ops + reqs.map_values(|req: Req| op_of(req));
        let wanted = Seq::new(all.len(), |i: int| EntryView { seqno: (i + 1) as u64, op: all[i] });
        assert(after.log() =~= wanted);
    }

    /// A log without a gap that takes an operation is a log without a gap.
    pub proof fn lemma_dense_after_add(before: Writer<S>, after: Writer<S>, entry: EntryView)
        requires
            before.is_dense(),
            entry.seqno == before.seqno(),
            after.seqno() == before.seqno() + 1,
            after.log() == before.log().push(entry),
        ensures
            after.is_dense(),
    {
    }

    /// The writer of a new log `name`: one working journal, number 0, and 1
    /// as the first sequence number.
    pub fn create(name: &str, journal_limit: usize, state: S) -> (writer: Writer<S>)
        ensures
            writer.wf(),
            writer.name() == name@,
            writer.journal_limit() == journal_limit,
            writer.seqno() == 1,
            writer.archives() == Seq::<Journal<S>>::empty(),
            writer.active().num() == 0,
            writer.active().state() == Some(state),
            writer.active().indexes() == Seq::<IndexView>::empty(),
            writer.active().flushed() == Seq::<Seq<EntryView>>::empty(),
            writer.active().pending() == Seq::<EntryView>::empty(),
            writer.active().size() == 0,
            writer.log() == Seq::<EntryView>::empty(),
            writer.is_dense(),
            writer.holds(Seq::<Seq<u8>>::empty()),
            writer.kept_to_limit(),
    {
        let journal = Journal::start_journal(name, 0, state);
        let writer = Writer {
            name: String::from_str(name),
            journal_limit,
            seqno: 1,
            journals: Vec::new(),
            journal,
        };
        proof {
            assert(writer.log() =~= Seq::<EntryView>::empty());
            assert(writer.log() =~= Seq::new(
                0,
                |i: int| EntryView { seqno: (i + 1) as u64, op: Seq::<Seq<u8>>::empty()[i] },
            ));
        }
        writer
    }

    /// Gives `op` the next sequence number and adds it to the working
    /// journal, unless the state refuses it. The sequence number is used up
    /// either way.
    pub fn add_op(&mut self, op: Vec<u8>) -> (outcome: Result<u64, Error>) where S: State
        requires
            old(self).wf(),
        ensures
            final(self).wf(),
            final(self).name() == old(self).name(),
            final(self).journal_limit() == old(self).journal_limit(),
            final(self).archives() == old(self).archives(),
            final(self).active().num() == old(self).active().num(),
            final(self).active().indexes() == old(self).active().indexes(),
            final(self).active().flushed() == old(self).active().flushed(),
            final(self).active().size() == old(self).active().size(),
            old(self).seqno() == u64::MAX ==> (outcome matches Err(Error::Fatal(_, _)))
                && final(self).seqno() == old(self).seqno(),
            old(self).seqno() < u64::MAX ==> final(self).seqno() == old(self).seqno() + 1,
            old(self).seqno() < u64::MAX ==> (old(self).active().state() matches Some(before) && (
            final(self).active().state() matches Some(after) && before.answers(
                EntryView { seqno: old(self).seqno(), op: op@ },
                refusal(outcome),
                &after,
            ))),
            old(self).seqno() == u64::MAX ==> final(self).active().state() == old(
                self,
            ).active().state(),
            outcome matches Ok(seqno) ==> {
                &&& seqno == old(self).seqno()
                &&& final(self).active().pending() == old(self).active().pending().push(
                    EntryView { seqno, op: op@ },
                )
                &&& final(self).log() == old(self).log().push(EntryView { seqno, op: op@ })
            },
            outcome is Err ==> {
                &&& final(self).active().pending() == old(self).active().pending()
                &&& final(self).log() == old(self).log()
            },
            outcome is Ok && old(self).is_dense() ==> final(self).is_dense(),
    {
        if self.seqno == u64::MAX {
            return Err(Error::Fatal("add_op".to_string(), "out of sequence numbers".to_string()));
        }
        let seqno = self.seqno;
        self.seqno = seqno + 1;
        let ghost log = old(self).active().log();
        let ghost entry = EntryView { seqno, op: op@ };
        let outcome = self.journal.add_entry(Entry::new(seqno, op));
        match outcome {
            Ok(()) => {
                proof {
                    assert(self.active().log() =~= log.push(entry));
                    assert(self.log() =~= old(self).log().push(entry));
                    assert forall|i: int| 0 <= i < self.archives().len() implies comes_before(
                        #[trigger] self.archives()[i],
                        self.active(),
                    ) by {
                        assert(comes_before(old(self).archives()[i], old(self).active()));
                    }
                }
                Ok(seqno)
            },
            Err(err) => Err(err),
        }
    }

    /// Takes the requests that have come in, in their order: each operation
    /// gets the next sequence number and is added to the working journal.
    /// The answers stand in the order of the requests.
    ///
    /// The first operation that is not taken, be it that the state refuses
    /// it or that no sequence number is left, ends it: those before it stay
    /// in the log, those after it are not looked at.
    pub fn add_entries(&mut self, reqs: Vec<Req>) -> (outcome: Result<Vec<Res>, Error>) where
        S: State,

        requires
            old(self).wf(),
        ensures
            final(self).wf(),
            final(self).name() == old(self).name(),
            final(self).journal_limit() == old(self).journal_limit(),
            final(self).archives() == old(self).archives(),
            final(self).active().num() == old(self).active().num(),
            final(self).active().indexes() == old(self).active().indexes(),
            final(self).active().flushed() == old(self).active().flushed(),
            final(self).active().size() == old(self).active().size(),
            outcome matches Ok(answers) ==> {
                &&& old(self).seqno() + reqs.len() <= u64::MAX
                &&& answers@ == answers_of(reqs@.len(), old(self).seqno())
                &&& final(self).seqno() == old(self).seqno() + reqs.len()
                &&& final(self).log() == old(self).log() + entries_of(reqs@, old(self).seqno())
                &&& final(self).active().pending() == old(self).active().pending() + entries_of(
                    reqs@,
                    old(self).seqno(),
                )
                &&& old(self).is_dense() ==> final(self).is_dense()
            },
            outcome matches Err(err) ==> exists|taken: int, before: S, after: S|
                {
                    &&& 0 <= taken < reqs.len()
                    &&& old(self).seqno() + taken <= u64::MAX
                    &&& #[trigger] refuses(before, after, reqs@, old(self).seqno(), taken, err)
                    &&& final(self).active().state() == Some(after)
                    &&& final(self).log() == log_after(
                        old(self).log(),
                        reqs@,
                        old(self).seqno(),
                        taken,
                    )
                    &&& final(self).active().pending() == log_after(
                        old(self).active().pending(),
                        reqs@,
                        old(self).seqno(),
                        taken,
                    )
                    &&& final(self).seqno() == if old(self).seqno() + taken == u64::MAX {
                        u64::MAX as int
                    } else {
                        old(self).seqno() + taken + 1
                    }
                },
    {
        let ghost first = self.seqno;
        let ghost all = reqs@;
        let ghost log = self.log();
        let ghost pending = self.active().pending();
        let mut answers: Vec<Res> = Vec::new();
        proof {
            assert(log + entries_of(all.take(0), first) =~= log);
            assert(pending + entries_of(all.take(0), first) =~= pending);
        }
        for req in it: reqs.into_iter()
            invariant
                it.seq() == all,
                first == old(self).seqno(),
                log == old(self).log(),
                self.wf(),
                self.name() == old(self).name(),
                self.journal_limit() == old(self).journal_limit(),
                self.archives() == old(self).archives(),
                self.active().num() == old(self).active().num(),
                self.active().indexes() == old(self).active().indexes(),
                self.active().flushed() == old(self).active().flushed(),
                self.active().size() == old(self).active().size(),
                self.seqno() == first + it.index(),
                answers@ == answers_of(it.index() as nat, first),
                self.log() == log + entries_of(all.take(it.index()), first),
                pending == old(self).active().pending(),
                self.active().pending() == pending + entries_of(all.take(it.index()), first),
        {
            let ghost taken = it.index();
            let ghost before = self.active().state()->Some_0;
            match req {
                Req::AddEntry { op } => {
                    match self.add_op(op) {
                        Ok(seqno) => {
                            proof {
                                assert(entries_of(all.take(taken), first).push(
                                    EntryView { seqno, op: op@ },
                                ) =~= entries_of(all.take(taken + 1), first));
                                assert(answers@.push(Res::Seqno(seqno)) =~= answers_of(
                                    (taken + 1) as nat,
                                    first,
                                ));
                                assert(self.active().pending() =~= pending + entries_of(
                                    all.take(taken + 1),
                                    first,
                                ));
                            }
                            answers.push(Res::Seqno(seqno));
                        },
                        Err(err) => {
                            proof {
                                let after = self.active().state()->Some_0;
                                assert(op_of(all[taken]) == op@);
                                assert(self.log() == log_after(log, all, first, taken));
                                assert(self.active().pending() == log_after(
                                    pending,
                                    all,
                                    first,
                                    taken,
                                ));
                                assert(refuses(before, after, all, first, taken, err));
                            }
                            return Err(err);
                        },
                    }
                },
            }
        }
        proof {
            assert(all.take(all.len() as int) =~= all);
        }
        Ok(answers)
    }

    /// The batch that is due in the working journal: its pending entries,
    /// with `state` as the bytes of the state. There is none while no entry
    /// is pending.
    pub fn to_batch(&self, state: Vec<u8>) -> (batch: Option<Batch>)
        requires
            self.wf(),
        ensures
            self.active().pending().len() == 0 ==> batch is None,
            self.active().pending().len() > 0 ==> batch is Some && batch->Some_0@ == (BatchView {
                first_seqno: self.active().pending()[0].seqno,
                last_seqno: self.active().pending().last().seqno,
                state: state@,
                entries: self.active().pending(),
            }) && batch->Some_0@.is_valid(),
    {
        self.journal.to_batch(state)
    }

    /// Records that the pending entries were written as one batch of `length`
    /// bytes at the end of the working journal's file. With no entry pending
    /// there is nothing to record.
    pub fn flush(&mut self, length: usize) -> (outcome: Result<(), Error>)
        requires
            old(self).wf(),
        ensures
            final(self).wf(),
            final(self).name() == old(self).name(),
            final(self).journal_limit() == old(self).journal_limit(),
            final(self).seqno() == old(self).seqno(),
            final(self).archives() == old(self).archives(),
            final(self).active().num() == old(self).active().num(),
            final(self).active().state() == old(self).active().state(),
            final(self).log() == old(self).log(),
            old(self).active().pending().len() == 0 ==> outcome is Ok,
            old(self).active().pending().len() > 0 && length == 0 ==> outcome matches Err(
                Error::Invalid(_, _),
            ),
            old(self).active().pending().len() > 0 && length > 0 && old(self).active().size()
                + length > u64::MAX ==> outcome matches Err(Error::FailConvert(_, _)),
            old(self).active().pending().len() > 0 && length > 0 && old(self).active().size()
                + length <= u64::MAX ==> outcome is Ok,
            outcome is Ok && old(self).active().pending().len() > 0 ==> {
                &&& final(self).active().indexes() == old(self).active().indexes().push(
                    IndexView {
                        fpos: old(self).active().size() as u64,
                        length,
                        first_seqno: old(self).active().pending()[0].seqno,
                        last_seqno: old(self).active().pending().last().seqno,
                    },
                )
                &&& final(self).active().flushed() == old(self).active().flushed().push(
                    old(self).active().pending(),
                )
                &&& final(self).active().pending() == Seq::<EntryView>::empty()
                &&& final(self).active().size() == old(self).active().size() + length
            },
            outcome is Err || old(self).active().pending().len() == 0 ==> {
                &&& final(self).active().indexes() == old(self).active().indexes()
                &&& final(self).active().flushed() == old(self).active().flushed()
                &&& final(self).active().pending() == old(self).active().pending()
                &&& final(self).active().size() == old(self).active().size()
            },
    {
        let outcome = self.journal.flush(length);
        proof {
            let before = old(self).active();
            let after = self.active();
            if outcome is Ok && before.pending().len() > 0 {
                before.flushed().lemma_flatten_push(before.pending());
                assert(after.log() =~= before.log());
            }
            assert forall|i: int| 0 <= i < self.archives().len() implies comes_before(
                #[trigger] self.archives()[i],
                self.active(),
            ) by {
                assert(comes_before(old(self).archives()[i], old(self).active()));
            }
        }
        outcome
    }

    /// Whether the file of the working journal has grown beyond the limit,
    /// so that it is time to move on to a new journal.
    pub fn needs_rotation(&self) -> (outcome: Result<bool, Error>)
        requires
            self.wf(),
        ensures
            self.active().size() <= usize::MAX ==> outcome == Ok::<bool, Error>(
                self.active().size() > self.journal_limit(),
            ),
            self.active().size() > usize::MAX ==> outcome matches Err(Error::FailConvert(_, _)),
    {
        match self.journal.file_size() {
            Ok(size) => Ok(size > self.journal_limit),
            Err(err) => Err(err),
        }
    }

    /// Moves on to a new journal: the working journal becomes the last of
    /// the archives, and a new working journal, with the next number and
    /// the same state, takes its place. Entries that are still pending are
    /// a fatal fault: a flush comes first.
    pub fn rotate(&mut self) -> (outcome: Result<(), Error>) where S: Clone
        requires
            old(self).wf(),
        ensures
            final(self).wf(),
            final(self).name() == old(self).name(),
            final(self).journal_limit() == old(self).journal_limit(),
            final(self).seqno() == old(self).seqno(),
            final(self).log() == old(self).log(),
            old(self).active().pending().len() > 0 ==> {
                &&& outcome matches Err(Error::Fatal(_, _))
                &&& final(self).archives() == old(self).archives()
                &&& final(self).active() == old(self).active()
            },
            old(self).active().pending().len() == 0 ==> {
                &&& outcome is Ok
                &&& final(self).archives().len() == old(self).archives().len() + 1
                &&& final(self).archives().drop_last() == old(self).archives()
                &&& final(self).archives().last().stage() is Archive
                &&& final(self).archives().last().name() == old(self).active().name()
                &&& final(self).archives().last().num() == old(self).active().num()
                &&& final(self).archives().last().indexes() == old(self).active().indexes()
                &&& final(self).archives().last().flushed() == old(self).active().flushed()
                &&& final(self).active().num() == if old(self).active().num() < usize::MAX {
                    (old(self).active().num() + 1) as usize
                } else {
                    usize::MAX
                }
                &&& final(self).active().indexes() == Seq::<IndexView>::empty()
                &&& final(self).active().flushed() == Seq::<Seq<EntryView>>::empty()
                &&& final(self).active().pending() == Seq::<EntryView>::empty()
                &&& old(self).active().state() matches Some(before)
                    && final(self).active().state() matches Some(after) && cloned(before, after)
                &&& final(self).archives().last().size() == old(self).active().size()
                &&& old(self).kept_to_limit() && old(self).active().size() > old(
                    self,
                ).journal_limit() && old(self).active().num() < usize::MAX
                    ==> final(self).kept_to_limit()
            },
    {
        if self.journal.len_entries() > 0 {
            return Err(Error::Fatal("rotate".to_string(), "unflushed entries".to_string()));
        }
        // new journal
        let num = self.journal.to_journal_number();
        let num = if num < usize::MAX {
            num + 1
        } else {
            usize::MAX
        };
        let state = self.journal.to_state();
        let mut journal = Journal::start_journal(self.name.as_str(), num, state);
        // replace with current journal
        core::mem::swap(&mut self.journal, &mut journal);
        let (journal, _, _) = journal.into_archive();
        let ghost archives = self.journals@;
        self.journals.push(journal);
        proof {
            let before = old(self).active();
            assert(self.archives().drop_last() =~= archives);
            assert(journal.log() =~= before.log());
            assert(self.active().log() =~= Seq::<EntryView>::empty());
            assert(self.log() =~= old(self).log());
            assert forall|i: int| 0 <= i < self.archives().len() implies {
                &&& (#[trigger] self.archives()[i]).ordered()
                &&& self.archives()[i].stage() is Archive
                &&& comes_before(self.archives()[i], self.active())
                &&& self.archives()[i].last_seqno() matches Some(last) ==> last < self.seqno()
            } by {
                if i < archives.len() {
                    assert(self.archives()[i] == old(self).archives()[i]);
                }
            }
            assert forall|i: int, j: int| 0 <= i < j < self.archives().len() implies comes_before(
                #[trigger] self.archives()[i],
                #[trigger] self.archives()[j],
            ) by {
                assert(self.archives()[i] == old(self).archives()[i]);
                if j < archives.len() {
                    assert(self.archives()[j] == old(self).archives()[j]);
                } else {
                    assert(comes_before(old(self).archives()[i], before));
                }
            }
        }
        Ok(())
    }

    /// The highest sequence number given out so far: one less than the next.
    pub fn close(&self) -> (outcome: Result<u64, Error>)
        ensures
            outcome == Ok::<u64, Error>(
                if self.seqno() > 0 {
                    (self.seqno() - 1) as u64
                } else {
                    0
                },
            ),
    {
        Ok(self.seqno.saturating_sub(1))
    }

    /// The sequence number that the next operation gets.
    pub fn to_seqno(&self) -> (seqno: u64)
        ensures
            seqno == self.seqno(),
    {
        self.seqno
    }

    /// The working journal.
    pub fn as_journal(&self) -> (journal: &Journal<S>)
        ensures
            *journal == self.active(),
    {
        &self.journal
    }

    /// The archives, in the order of their entries.
    pub fn as_journals(&self) -> (journals: &Vec<Journal<S>>)
        ensures
            journals@ == self.archives(),
    {
        &self.journals
    }
}

/// The sequence number by which journals are sorted: that of the last
/// entry.
pub open spec fn sort_key<S>(journal: Journal<S>) -> u64 {
    match journal.last_seqno() {
        Some(seqno) => seqno,
        None => 0,
    }
}

/// `sorted` with `journal` put in behind the journals whose key is no
/// greater than its own.
pub open spec fn insert_sorted<S>(sorted: Seq<Journal<S>>, journal: Journal<S>) -> Seq<Journal<S>>
    decreases sorted.len(),
{
    if sorted.len() == 0 || sort_key(sorted.last()) <= sort_key(journal) {
        sorted.push(journal)
    } else {
        insert_sorted(sorted.drop_last(), journal).push(sorted.last())
    }
}

/// `journals` sorted by the sequence number of their last entry; journals
/// with the same one stay in the order in which they came.
pub open spec fn sorted_by_last_seqno<S>(journals: Seq<Journal<S>>) -> Seq<Journal<S>>
    decreases journals.len(),
{
    if journals.len() == 0 {
        Seq::empty()
    } else {
        insert_sorted(sorted_by_last_seqno(journals.drop_last()), journals.last())
    }
}

/// Whether the keys of `journals` go up, or stay, from each journal to those
/// behind it.
pub open spec fn sorted_by_key<S>(journals: Seq<Journal<S>>) -> bool {
    forall|i: int, j: int|
        0 <= i < j < journals.len() ==> sort_key(#[trigger] journals[i]) <= sort_key(
            #[trigger] journals[j],
        )
}

/// Putting a journal into sorted journals adds that journal and no other,
/// and keeps them sorted.
pub proof fn lemma_insert_sorted<S>(sorted: Seq<Journal<S>>, journal: Journal<S>)
    requires
        sorted_by_key(sorted),
    ensures
        sorted_by_key(insert_sorted(sorted, journal)),
        insert_sorted(sorted, journal).len() == sorted.len() + 1,
        insert_sorted(sorted, journal).to_multiset() =~= sorted.to_multiset().insert(journal),
        forall|i: int|
            0 <= i < insert_sorted(sorted, journal).len() ==> #[trigger] insert_sorted(
                sorted,
                journal,
            )[i] == journal || sorted.contains(insert_sorted(sorted, journal)[i]),
    decreases sorted.len(),
{
    broadcast use vstd::seq_lib::to_multiset_build;

    let after = insert_sorted(sorted, journal);
    if sorted.len() == 0 || sort_key(sorted.last()) <= sort_key(journal) {
        assert forall|i: int, j: int| 0 <= i < j < after.len() implies sort_key(
            #[trigger] after[i],
        ) <= sort_key(#[trigger] after[j]) by {
            if j == sorted.len() && i < sorted.len() - 1 {
                assert(sort_key(sorted[i]) <= sort_key(sorted[sorted.len() - 1]));
            }
        }
        assert forall|i: int| 0 <= i < after.len() implies #[trigger] after[i] == journal
            || sorted.contains(after[i]) by {
            if i < sorted.len() {
                assert(sorted[i] == after[i]);
            }
        }
    } else {
        let front = sorted.drop_last();
        let last = sorted.last();
        assert forall|i: int, j: int| 0 <= i < j < front.len() implies sort_key(
            #[trigger] front[i],
        ) <= sort_key(#[trigger] front[j]) by {
            assert(sort_key(sorted[i]) <= sort_key(sorted[j]));
        }
        lemma_insert_sorted(front, journal);
        let inner = insert_sorted(front, journal);
        assert(front.push(last) =~= sorted);
        assert(after.to_multiset() =~= sorted.to_multiset().insert(journal));
        assert forall|i: int| 0 <= i < after.len() implies #[trigger] after[i] == journal
            || sorted.contains(after[i]) by {
            if i < inner.len() {
                assert(after[i] == inner[i]);
                if inner[i] != journal {
                    let k = choose|k: int| 0 <= k < front.len() && front[k] == inner[i];
                    assert(sorted[k] == inner[i]);
                }
            } else {
                assert(sorted[sorted.len() - 1] == after[i]);
            }
        }
        assert forall|i: int, j: int| 0 <= i < j < after.len() implies sort_key(
            #[trigger] after[i],
        ) <= sort_key(#[trigger] after[j]) by {
            if j == inner.len() {
                assert(inner[i] == journal || front.contains(inner[i]));
                if inner[i] != journal {
                    let k = choose|k: int| 0 <= k < front.len() && front[k] == inner[i];
                    assert(sort_key(sorted[k]) <= sort_key(sorted[sorted.len() - 1]));
                }
            } else {
                assert(sort_key(inner[i]) <= sort_key(inner[j]));
            }
        }
    }
}

/// Sorting journals loses none and brings in none: each journal is there as
/// often as before, and the keys go up.
pub proof fn lemma_sorted_by_last_seqno<S>(journals: Seq<Journal<S>>)
    ensures
        sorted_by_key(sorted_by_last_seqno(journals)),
        sorted_by_last_seqno(journals).len() == journals.len(),
        sorted_by_last_seqno(journals).to_multiset() =~= journals.to_multiset(),
    decreases journals.len(),
{
    broadcast use vstd::seq_lib::to_multiset_build;

    if journals.len() > 0 {
        let front = journals.drop_last();
        lemma_sorted_by_last_seqno(front);
        lemma_insert_sorted(sorted_by_last_seqno(front), journals.last());
        assert(front.push(journals.last()) =~= journals);
    } else {
        assert(sorted_by_last_seqno(journals) =~= journals);
    }
}

/// A journal is put in before a journal with a greater key.
pub proof fn lemma_insert_sorted_skips<S>(sorted: Seq<Journal<S>>, journal: Journal<S>, pos: int)
    requires
        0 < pos <= sorted.len(),
        sort_key(sorted[pos - 1]) > sort_key(journal),
    ensures
        insert_sorted(sorted.take(pos), journal) + sorted.skip(pos) == insert_sorted(
            sorted.take(pos - 1),
            journal,
        ) + sorted.skip(pos - 1),
{
    let front = sorted.take(pos);
    assert(front.drop_last() =~= sorted.take(pos - 1));
    assert(front.last() == sorted[pos - 1]);
    assert(insert_sorted(front, journal) == insert_sorted(sorted.take(pos - 1), journal).push(
        sorted[pos - 1],
    ));
    assert(insert_sorted(sorted.take(pos - 1), journal).push(sorted[pos - 1]) + sorted.skip(pos)
        =~= insert_sorted(sorted.take(pos - 1), journal) + sorted.skip(pos - 1));
}

/// A journal is put in behind a journal whose key is no greater than its
/// own, or at the front.
pub proof fn lemma_insert_sorted_stops<S>(sorted: Seq<Journal<S>>, journal: Journal<S>, pos: int)
    requires
        0 <= pos <= sorted.len(),
        pos > 0 ==> sort_key(sorted[pos - 1]) <= sort_key(journal),
    ensures
        insert_sorted(sorted.take(pos), journal) + sorted.skip(pos) == sorted.insert(pos, journal),
{
    let front = sorted.take(pos);
    if pos > 0 {
        assert(front.last() == sorted[pos - 1]);
    }
    assert(insert_sorted(front, journal) == front.push(journal));
    assert(front.push(journal) + sorted.skip(pos) =~= sorted.insert(pos, journal));
}

/// Whether `earlier` ends before `later` starts, and has the smaller number.
pub open spec fn follows<S>(earlier: Journal<S>, later: Journal<S>) -> bool {
    &&& earlier.indexes().last().last_seqno < later.indexes()[0].first_seqno
    &&& earlier.num() < later.num()
}

/// Whether each journal of `journals` ends before the next one starts, and
/// has the smaller number.
pub open spec fn in_order<S>(journals: Seq<Journal<S>>) -> bool {
    forall|i: int| 0 <= i < journals.len() - 1 ==> follows(#[trigger] journals[i], journals[i + 1])
}

/// Journals that are in order, each against the next, are in order each
/// against all that follow: the journal with the smaller number holds the
/// smaller sequence numbers, and no two overlap.
pub proof fn lemma_in_order<S>(journals: Seq<Journal<S>>, i: int, j: int)
    requires
        forall|k: int| 0 <= k < journals.len() ==> (#[trigger] journals[k]).is_loaded(),
        in_order(journals),
        0 <= i < j < journals.len(),
    ensures
        journals[i].num() < journals[j].num(),
        journals[i].indexes()[0].first_seqno <= journals[i].indexes().last().last_seqno,
        journals[i].indexes().last().last_seqno < journals[j].indexes()[0].first_seqno,
        journals[j].indexes()[0].first_seqno <= journals[j].indexes().last().last_seqno,
    decreases j - i,
{
    reveal(Journal::is_loaded);
    assert(journals[i].is_loaded() && journals[j].is_loaded());
    lemma_first_before_last(journals[i].indexes());
    lemma_first_before_last(journals[j].indexes());
    if j > i + 1 {
        lemma_in_order(journals, i, j - 1);
        assert(journals[j - 1].is_loaded());
        lemma_first_before_last(journals[j - 1].indexes());
        assert(follows(journals[j - 1], journals[j - 1 + 1]));
    } else {
        assert(follows(journals[i], journals[i + 1]));
    }
}

/// Of two journals that a log was loaded from, the one with the smaller
/// number holds the smaller sequence numbers: it ends before the other one
/// starts.
pub proof fn lemma_in_order_of_numbers<S>(journals: Seq<Journal<S>>, i: int, j: int)
    requires
        forall|k: int| 0 <= k < journals.len() ==> (#[trigger] journals[k]).is_loaded(),
        in_order(journals),
        0 <= i < journals.len(),
        0 <= j < journals.len(),
        journals[i].num() < journals[j].num(),
    ensures
        journals[i].indexes().last().last_seqno < journals[j].indexes()[0].first_seqno,
{
    if i < j {
        lemma_in_order(journals, i, j);
    } else if j < i {
        lemma_in_order(journals, j, i);
    }
}

/// A journal that a log is loaded from is sorted by the last sequence number
/// of its last batch, which is no smaller than the first one of its first
/// batch.
pub proof fn lemma_key_of_loaded<S>(journal: Journal<S>)
    requires
        journal.is_loaded(),
    ensures
        journal.indexes().len() > 0,
        sort_key(journal) == journal.indexes().last().last_seqno,
        journal.indexes()[0].first_seqno <= sort_key(journal),
{
    reveal(Journal::is_loaded);
    lemma_first_before_last(journal.indexes());
}

/// Journals that are in order, each against the next, stay as they are when
/// they are sorted.
pub proof fn lemma_sorted_in_order<S>(journals: Seq<Journal<S>>)
    requires
        forall|k: int| 0 <= k < journals.len() ==> (#[trigger] journals[k]).is_loaded(),
        in_order(journals),
    ensures
        sorted_by_last_seqno(journals) == journals,
    decreases journals.len(),
{
    if journals.len() > 0 {
        let front = journals.drop_last();
        let last = journals.last();
        assert forall|i: int| 0 <= i < front.len() - 1 implies follows(
            #[trigger] front[i],
            front[i + 1],
        ) by {
            assert(follows(journals[i], journals[i + 1]));
        }
        assert forall|k: int| 0 <= k < front.len() implies (#[trigger] front[k]).is_loaded() by {
            assert(journals[k].is_loaded());
        }
        lemma_sorted_in_order(front);
        if front.len() > 0 {
            let n = journals.len();
            assert(journals[n - 2].is_loaded() && journals[n - 1].is_loaded());
            assert(follows(journals[n - 2], journals[n - 2 + 1]));
            assert(front.last() == journals[n - 2]);
            lemma_key_of_loaded(journals[n - 2]);
            lemma_key_of_loaded(journals[n - 1]);
        }
        assert(insert_sorted(front, last) == front.push(last));
        assert(front.push(last) =~= journals);
    } else {
        assert(sorted_by_last_seqno(journals) =~= journals);
    }
}

/// The journals of `journals` that have batches, in their order: those that
/// a log is loaded from, when the files of `journals` are what is there.
pub open spec fn with_batches<S>(journals: Seq<Journal<S>>) -> Seq<Journal<S>>
    decreases journals.len(),
{
    if journals.len() == 0 {
        Seq::empty()
    } else if journals.last().indexes().len() > 0 {
        with_batches(journals.drop_last()).push(journals.last())
    } else {
        with_batches(journals.drop_last())
    }
}

/// Whether `loaded` is what the file of `written` is loaded as, when the
/// file holds what `written` flushed and nothing else: an archive with the
/// number, the indexes and the entries of `written`.
pub open spec fn loaded_of<S>(loaded: Journal<S>, written: Journal<S>) -> bool {
    &&& loaded.is_loaded()
    &&& loaded.num() == written.num()
    &&& loaded.indexes() == written.indexes()
    &&& loaded.flushed() == written.flushed()
}

/// Whether `loaded` are what the files of `written` are loaded as, one by
/// one.
pub open spec fn all_loaded_of<S>(loaded: Seq<Journal<S>>, written: Seq<Journal<S>>) -> bool {
    &&& loaded.len() == written.len()
    &&& forall|k: int| 0 <= k < loaded.len() ==> loaded_of(#[trigger] loaded[k], written[k])
}

/// Whether `loaded` is what the file of `written` is loaded as, when the
/// file holds the first batches that `written` flushed, one at least, and
/// no other batch: an archive with the number of `written` and the indexes
/// of those batches.
pub open spec fn part_of<S>(loaded: Journal<S>, written: Journal<S>) -> bool {
    &&& loaded.is_loaded()
    &&& loaded.num() == written.num()
    &&& exists|n: int|
        1 <= n <= written.indexes().len() && #[trigger] written.indexes().take(n)
            == loaded.indexes()
}

/// Whether `loaded` are what the files of `written` are loaded as, one by
/// one, when each file holds the first batches of its journal.
pub open spec fn all_part_of<S>(loaded: Seq<Journal<S>>, written: Seq<Journal<S>>) -> bool {
    &&& loaded.len() == written.len()
    &&& forall|k: int| 0 <= k < loaded.len() ==> part_of(#[trigger] loaded[k], written[k])
}

/// Whether `journals` stand in a log one before the other, with numbers that
/// go up, and with nothing pending but in the last.
pub open spec fn written_out<S>(journals: Seq<Journal<S>>) -> bool {
    &&& forall|i: int|
        0 <= i < journals.len() ==> (#[trigger] journals[i]).ordered() && (i < journals.len() - 1
            ==> journals[i].pending().len() == 0)
    &&& forall|i: int, j: int|
        0 <= i < j < journals.len() ==> comes_before(
            #[trigger] journals[i],
            #[trigger] journals[j],
        ) && journals[i].num() < journals[j].num()
}

/// Of the journals of a log, those that have batches are among them, and
/// each of them ends before those behind it start, with the smaller number.
pub proof fn lemma_with_batches<S>(journals: Seq<Journal<S>>)
    requires
        written_out(journals),
    ensures
        forall|k: int|
            0 <= k < with_batches(journals).len() ==> journals.contains(
                #[trigger] with_batches(journals)[k],
            ) && with_batches(journals)[k].indexes().len() > 0,
        forall|k: int, l: int|
            0 <= k < l < with_batches(journals).len() ==> follows(
                #[trigger] with_batches(journals)[k],
                #[trigger] with_batches(journals)[l],
            ),
    decreases journals.len(),
{
    if journals.len() > 0 {
        let front = journals.drop_last();
        let last = journals.last();
        let n = journals.len() as int;
        assert(written_out(front)) by {
            assert forall|i: int| 0 <= i < front.len() implies (#[trigger] front[i]).ordered() && (i
                < front.len() - 1 ==> front[i].pending().len() == 0) by {
                assert(journals[i].ordered());
            }
            assert forall|i: int, j: int| 0 <= i < j < front.len() implies comes_before(
                #[trigger] front[i],
                #[trigger] front[j],
            ) && front[i].num() < front[j].num() by {
                assert(comes_before(journals[i], journals[j]));
            }
        }
        lemma_with_batches(front);
        let kept_front = with_batches(front);
        let kept = with_batches(journals);
        assert forall|k: int| 0 <= k < kept.len() implies journals.contains(#[trigger] kept[k])
            && kept[k].indexes().len() > 0 by {
            if k < kept_front.len() {
                assert(kept[k] == kept_front[k]);
                let m = choose|m: int| 0 <= m < front.len() && front[m] == kept_front[k];
                assert(journals[m] == kept[k]);
            } else {
                assert(journals[n - 1] == kept[k]);
            }
        }
        assert forall|k: int, l: int| 0 <= k < l < kept.len() implies follows(
            #[trigger] kept[k],
            #[trigger] kept[l],
        ) by {
            if l < kept_front.len() {
                assert(follows(kept_front[k], kept_front[l]));
            } else {
                assert(kept[k] == kept_front[k]);
                let m = choose|m: int| 0 <= m < front.len() && front[m] == kept_front[k];
                assert(journals[m].ordered() && journals[n - 1].ordered());
                assert(journals[m].pending().len() == 0);
                assert(comes_before(journals[m], journals[n - 1]));
            }
        }
    }
}

/// The files of the journals of a log that have batches hold all the
/// entries of the log, where nothing is pending: what is loaded from them
/// has the same entries in the same order.
pub proof fn lemma_logs_of_loaded<S>(loaded: Seq<Journal<S>>, journals: Seq<Journal<S>>)
    requires
        forall|i: int|
            0 <= i < journals.len() ==> (#[trigger] journals[i]).wf() && journals[i].pending().len()
                == 0,
        all_loaded_of(loaded, with_batches(journals)),
    ensures
        logs(loaded) == logs(journals),
    decreases journals.len(),
{
    if journals.len() > 0 {
        let front = journals.drop_last();
        let last = journals.last();
        assert forall|i: int| 0 <= i < front.len() implies (#[trigger] front[i]).wf()
            && front[i].pending().len() == 0 by {
            assert(journals[i].wf());
        }
        assert(journals[journals.len() - 1].wf());
        if last.indexes().len() > 0 {
            let kept_front = with_batches(front);
            let loaded_front = loaded.drop_last();
            assert(all_loaded_of(loaded_front, kept_front)) by {
                assert forall|k: int| 0 <= k < loaded_front.len() implies loaded_of(
                    #[trigger] loaded_front[k],
                    kept_front[k],
                ) by {
                    assert(loaded_of(loaded[k], with_batches(journals)[k]));
                }
            }
            lemma_logs_of_loaded(loaded_front, front);
            assert(loaded_of(loaded[loaded.len() - 1], with_batches(journals)[loaded.len() - 1]));
            reveal(Journal::is_loaded);
            assert(loaded.last().log() =~= last.log());
        } else {
            lemma_logs_of_loaded(loaded, front);
            assert(last.flushed() =~= Seq::<Seq<EntryView>>::empty());
            assert(last.log() =~= Seq::<EntryView>::empty());
            assert(logs(journals) =~= logs(front));
        }
    } else {
        assert(loaded =~= Seq::<Journal<S>>::empty());
    }
}

impl<S> Writer<S> {
    /// The journals of the log, the working one last.
    pub open spec fn journals(&self) -> Seq<Journal<S>> {
        self.archives().push(self.active())
    }

    /// What a log leaves in its files can be loaded again, also where files
    /// were not written to their end: where a journal number is left, the
    /// journals loaded from the files, each holding the first batches of its
    /// journal, are in order as they stand, so that loading takes them, and
    /// the last of their sequence numbers is below the next one of the log.
    pub proof fn lemma_reload_of_parts(&self, loaded: Seq<Journal<S>>)
        requires
            self.wf(),
            self.active().num() < usize::MAX,
            all_part_of(loaded, with_batches(self.journals())),
        ensures
            forall|i: int, j: int|
                0 <= i < j < loaded.len() ==> follows(#[trigger] loaded[i], #[trigger] loaded[j]),
            in_order(loaded),
            sorted_by_last_seqno(loaded) == loaded,
            loaded.len() > 0 ==> sort_key(loaded.last()) < self.seqno(),
    {
        let journals = self.journals();
        let kept = with_batches(journals);
        assert(journals.drop_last() =~= self.archives());
        assert(written_out(journals)) by {
            assert forall|i: int| 0 <= i < journals.len() implies (#[trigger] journals[i]).ordered()
                && (i < journals.len() - 1 ==> journals[i].pending().len() == 0) by {
                if i < self.archives().len() {
                    assert(journals[i] == self.archives()[i]);
                }
            }
            assert forall|i: int, j: int| 0 <= i < j < journals.len() implies comes_before(
                #[trigger] journals[i],
                #[trigger] journals[j],
            ) && journals[i].num() < journals[j].num() by {
                assert(journals[i] == self.archives()[i]);
                assert(comes_before(self.archives()[i], self.active()));
                if j < self.archives().len() {
                    assert(journals[j] == self.archives()[j]);
                    assert(comes_before(self.archives()[j], self.active()));
                }
            }
        }
        lemma_with_batches(journals);
        assert forall|k: int| 0 <= k < loaded.len() implies {
            &&& (#[trigger] loaded[k]).indexes()[0] == kept[k].indexes()[0]
            &&& loaded[k].indexes().last().last_seqno <= kept[k].indexes().last().last_seqno
            &&& loaded[k].indexes().len() > 0
            &&& kept[k].ordered()
        } by {
            assert(part_of(loaded[k], kept[k]));
            let m = choose|m: int| 0 <= m < journals.len() && journals[m] == kept[k];
            assert(journals[m].ordered());
            let indexes = kept[k].indexes();
            let n = choose|n: int|
                1 <= n <= indexes.len() && #[trigger] indexes.take(n) == loaded[k].indexes();
            assert(indexes.take(n)[0] == indexes[0]);
            assert(indexes.take(n).last() == indexes[n - 1]);
            if n < indexes.len() {
                assert(indexes[n - 1].last_seqno < indexes[indexes.len() - 1].first_seqno);
                assert(indexes[indexes.len() - 1].first_seqno <= indexes[indexes.len()
                    - 1].last_seqno);
            }
        }
        assert forall|i: int, j: int| 0 <= i < j < loaded.len() implies follows(
            #[trigger] loaded[i],
            #[trigger] loaded[j],
        ) by {
            assert(part_of(loaded[i], kept[i]) && part_of(loaded[j], kept[j]));
            assert(follows(kept[i], kept[j]));
        }
        assert(in_order(loaded)) by {
            assert forall|i: int| 0 <= i < loaded.len() - 1 implies follows(
                #[trigger] loaded[i],
                loaded[i + 1],
            ) by {
                assert(follows(loaded[i], loaded[i + 1]));
            }
        }
        lemma_sorted_in_order(loaded);
        if loaded.len() > 0 {
            let last = loaded.last();
            let n = loaded.len() as int;
            assert(part_of(loaded[n - 1], kept[n - 1]));
            let m = choose|m: int| 0 <= m < journals.len() && journals[m] == kept[n - 1];
            assert(journals[m].ordered());
            if m < self.archives().len() {
                assert(journals[m] == self.archives()[m]);
            }
            reveal(Journal::is_loaded);
            journals[m].lemma_log_ordered();
            lemma_flushed_ordered(journals[m].flushed(), journals[m].indexes());
        }
    }

    /// What a log leaves in its files is what it is loaded from again: where
    /// nothing is pending and a journal number is left, the journals loaded
    /// from the files that hold batches are in order as they stand, so that
    /// loading takes them; they hold the entries of the log, in their order;
    /// and the last of their sequence numbers is just below the next one of
    /// the log, where the log has no gap.
    pub proof fn lemma_reload(&self, loaded: Seq<Journal<S>>)
        requires
            self.wf(),
            self.active().pending().len() == 0,
            self.active().num() < usize::MAX,
            all_loaded_of(loaded, with_batches(self.journals())),
        ensures
            in_order(loaded),
            sorted_by_last_seqno(loaded) == loaded,
            loaded.len() > 0 ==> sort_key(loaded.last()) < self.seqno(),
            logs(loaded) == self.log(),
            self.is_dense() ==> self.seqno() == if loaded.len() > 0 {
                sort_key(loaded.last()) + 1
            } else {
                1
            },
            forall|ops: Seq<Seq<u8>>| #[trigger]
                self.holds(ops) ==> self.is_dense() && logs(loaded) == Seq::new(
                    ops.len(),
                    |i: int| EntryView { seqno: (i + 1) as u64, op: ops[i] },
                ),
    {
        let journals = self.journals();
        let kept = with_batches(journals);
        assert(journals.drop_last() =~= self.archives());
        assert(all_part_of(loaded, kept)) by {
            assert forall|k: int| 0 <= k < loaded.len() implies part_of(
                #[trigger] loaded[k],
                kept[k],
            ) by {
                assert(loaded_of(loaded[k], kept[k]));
                let indexes = kept[k].indexes();
                reveal(Journal::is_loaded);
                assert(indexes.take(indexes.len() as int) =~= indexes);
            }
        }
        self.lemma_reload_of_parts(loaded);
        assert forall|i: int| 0 <= i < journals.len() implies (#[trigger] journals[i]).wf()
            && journals[i].pending().len() == 0 by {
            if i < self.archives().len() {
                assert(journals[i] == self.archives()[i]);
            }
        }
        assert(logs(journals) =~= self.log());
        lemma_logs_of_loaded(loaded, journals);
        if loaded.len() > 0 {
            let last = loaded.last();
            let n = loaded.len() as int;
            assert(loaded_of(loaded[n - 1], kept[n - 1]));
            reveal(Journal::is_loaded);
            lemma_flushed_ordered(last.flushed(), last.indexes());
            assert(last.log() =~= last.flushed().flatten());
            assert(logs(loaded).last() == last.log().last());
        }
    }
}

/// The sequence number by which `journal` is sorted.
fn to_sort_key<S>(journal: &Journal<S>) -> (key: u64)
    requires
        journal.is_loaded(),
    ensures
        key == sort_key(*journal),
        key == journal.indexes().last().last_seqno,
{
    reveal(Journal::is_loaded);
    match journal.to_last_seqno() {
        Some(seqno) => seqno,
        None => 0,
    }
}

/// Puts `journal` into the sorted `sorted`, behind the journals whose key is
/// no greater than its own.
fn put_in<S>(sorted: &mut Vec<Journal<S>>, journal: Journal<S>)
    requires
        journal.is_loaded(),
        forall|k: int| 0 <= k < old(sorted).len() ==> (#[trigger] old(sorted)[k]).is_loaded(),
    ensures
        final(sorted)@ == insert_sorted(old(sorted)@, journal),
        forall|k: int| 0 <= k < final(sorted).len() ==> (#[trigger] final(sorted)[k]).is_loaded(),
{
    let key = to_sort_key(&journal);
    let ghost before = sorted@;
    let mut pos = sorted.len();
    proof {
        assert(before.take(pos as int) =~= before);
        assert(insert_sorted(before, journal) + before.skip(pos as int) =~= insert_sorted(
            before,
            journal,
        ));
    }
    while pos > 0 && to_sort_key(&sorted[pos - 1]) > key
        invariant
            pos <= sorted.len(),
            sorted@ == before,
            key == sort_key(journal),
            forall|k: int| 0 <= k < sorted.len() ==> (#[trigger] sorted[k]).is_loaded(),
            insert_sorted(before, journal) == insert_sorted(before.take(pos as int), journal)
                + before.skip(pos as int),
        decreases pos,
    {
        proof {
            lemma_insert_sorted_skips(before, journal, pos as int);
        }
        pos = pos - 1;
    }
    proof {
        lemma_insert_sorted_stops(before, journal, pos as int);
    }
    sorted.insert(pos, journal);
    proof {
        assert forall|k: int| 0 <= k < sorted.len() implies (#[trigger] sorted[k]).is_loaded() by {
            if k < pos {
                assert(sorted[k] == before[k]);
            } else if k > pos {
                assert(sorted[k] == before[k - 1]);
            }
        }
    }
}

/// Whether `earlier` ends before `later` starts, and has the smaller number.
fn is_followed_by<S>(earlier: &Journal<S>, later: &Journal<S>) -> (so: bool)
    requires
        earlier.is_loaded(),
        later.is_loaded(),
    ensures
        so == follows(*earlier, *later),
{
    reveal(Journal::is_loaded);
    let ordered = match (earlier.to_last_seqno(), later.to_first_seqno()) {
        (Some(last), Some(first)) => last < first,
        _ => false,
    };
    ordered && earlier.to_journal_number() < later.to_journal_number()
}

impl<S> Writer<S> {
    /// The writer of the log `name` that goes on from `journals`, the
    /// archives that were loaded from the files of the log.
    ///
    /// The journals are sorted by the sequence number of their last entry.
    /// It is a fatal fault of the files if one journal does not end before
    /// the next one starts, if the numbers of the journals do not go up with
    /// their sequence numbers, or if no sequence number is left. The new
    /// working journal has the number after that of the last archive, and
    /// its state; with no archive, it has number 1 and the default state.
    /// The next sequence number is the one after the last entry, or 1.
    pub fn load(name: &str, journal_limit: usize, journals: Vec<Journal<S>>) -> (outcome: Result<
        Writer<S>,
        Error,
    >) where S: State
        requires
            forall|k: int| 0 <= k < journals.len() ==> (#[trigger] journals[k]).is_loaded(),
        ensures
            outcome is Ok <==> in_order(sorted_by_last_seqno(journals@)) && (journals.len() > 0
                ==> sort_key(sorted_by_last_seqno(journals@).last()) < u64::MAX),
            outcome is Err ==> outcome matches Err(Error::Fatal(_, _)),
            outcome matches Ok(writer) ==> {
                let sorted = sorted_by_last_seqno(journals@);
                &&& writer.wf()
                &&& writer.name() == name@
                &&& writer.journal_limit() == journal_limit
                &&& writer.archives() == sorted
                &&& writer.seqno() == if sorted.len() > 0 {
                    sort_key(sorted.last()) + 1
                } else {
                    1
                }
                &&& writer.active().num() == if sorted.len() == 0 {
                    1
                } else if sorted.last().num() < usize::MAX {
                    sorted.last().num() + 1
                } else {
                    usize::MAX as int
                }
                &&& writer.active().indexes() == Seq::<IndexView>::empty()
                &&& writer.active().flushed() == Seq::<Seq<EntryView>>::empty()
                &&& writer.active().pending() == Seq::<EntryView>::empty()
                &&& sorted.len() > 0 ==> (sorted.last().state() matches Some(before) && (
                writer.active().state() matches Some(after) && cloned(before, after)))
                &&& sorted.len() == 0 ==> (writer.active().state() matches Some(state)
                    && call_ensures(S::default, (), state))
            },
    {
        let ghost all = journals@;
        let mut sorted: Vec<Journal<S>> = Vec::new();
        for journal in it: journals.into_iter()
            invariant
                it.seq() == all,
                forall|k: int| 0 <= k < all.len() ==> (#[trigger] all[k]).is_loaded(),
                sorted@ == sorted_by_last_seqno(all.take(it.index())),
                forall|k: int| 0 <= k < sorted.len() ==> (#[trigger] sorted[k]).is_loaded(),
        {
            proof {
                assert(all.take(it.index() + 1).drop_last() =~= all.take(it.index()));
                assert(all[it.index()].is_loaded());
            }
            put_in(&mut sorted, journal);
        }
        proof {
            assert(all.take(all.len() as int) =~= all);
        }
        let n = sorted.len();
        let mut i: usize = 1;
        while i < n
            invariant
                1 <= i,
                n == sorted.len(),
                all == journals@,
                sorted@ == sorted_by_last_seqno(all),
                forall|k: int| 0 <= k < sorted.len() ==> (#[trigger] sorted[k]).is_loaded(),
                forall|k: int| 0 <= k < i - 1 ==> follows(#[trigger] sorted[k], sorted[k + 1]),
            decreases n - i,
        {
            if !is_followed_by(&sorted[i - 1], &sorted[i]) {
                proof {
                    assert(!follows(sorted[i - 1], sorted[i - 1 + 1]));
                    assert(!in_order(sorted@));
                }
                return Err(Error::Fatal("load".to_string(), "journals out of order".to_string()));
            }
            proof {
                assert(follows(sorted[i - 1], sorted[i - 1 + 1]));
            }
            i = i + 1;
        }
        let (seqno, num, state) = if n > 0 {
            let last = to_sort_key(&sorted[n - 1]);
            if last == u64::MAX {
                return Err(
                    Error::Fatal("load".to_string(), "out of sequence numbers".to_string()),
                );
            }
            let num = sorted[n - 1].to_journal_number();
            let num = if num < usize::MAX {
                num + 1
            } else {
                usize::MAX
            };
            proof {
                reveal(Journal::is_loaded);
                assert(sorted[n - 1].is_loaded());
            }
            (last + 1, num, sorted[n - 1].to_state())
        } else {
            (1, 1, S::default())
        };
        let journal = Journal::start_journal(name, num, state);
        let writer = Writer {
            name: String::from_str(name),
            journal_limit,
            seqno,
            journals: sorted,
            journal,
        };
        proof {
            let archives = writer.archives();
            assert forall|a: int, b: int| 0 <= a < b < archives.len() implies comes_before(
                #[trigger] archives[a],
                #[trigger] archives[b],
            ) by {
                lemma_in_order(archives, a, b);
            }
            assert forall|a: int| 0 <= a < archives.len() implies {
                &&& (#[trigger] archives[a]).ordered()
                &&& archives[a].stage() is Archive
                &&& comes_before(archives[a], writer.active())
                &&& archives[a].last_seqno() matches Some(last) ==> last < writer.seqno()
            } by {
                reveal(Journal::is_loaded);
                assert(archives[a].is_loaded());
                if a < archives.len() - 1 {
                    lemma_in_order(archives, a, archives.len() - 1);
                }
            }
        }
        Ok(writer)
    }
}

} // verus!
