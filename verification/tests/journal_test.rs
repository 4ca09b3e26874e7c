use arbitrary::Unstructured;
use rand::{prelude::random, rngs::StdRng, Rng, SeedableRng};

use wral::{Batch, Entry, Error, Index, Journal, Loader, NoState, RdJournal, Replay};

// What was written to a journal file: where, how many bytes, and the batch.
type File = Vec<(u64, usize, Batch)>;

// Number of bytes that a batch is taken to fill in a file.
fn encoded_len(batch: &Batch) -> usize {
    let (_, _, state, entries) = batch.clone().unwrap();
    let ops: usize = entries.into_iter().map(|e| 16 + e.unwrap().1.len()).sum();
    32 + state.len() + ops
}

fn ops_of(entries: &[Entry]) -> Vec<(u64, Vec<u8>)> {
    entries.iter().map(|e| e.clone().unwrap()).collect()
}

// Writes the pending entries of `jn` to `file`, as the owner of the file does.
fn flush(jn: &mut Journal<NoState>, file: &mut File) {
    if let Some(batch) = jn.to_batch(vec![]) {
        let fpos = jn.file_size().unwrap() as u64;
        let length = encoded_len(&batch);
        jn.flush(length).unwrap();
        file.push((fpos, length, batch));
    } else {
        jn.flush(0).unwrap();
    }
}

// Runs a replay to its end, reading from `file`.
fn replay(mut rd: RdJournal, file: &File) -> Vec<Entry> {
    let mut entries = vec![];
    loop {
        match rd.next() {
            Replay::Entry(entry) => entries.push(entry),
            Replay::Fetch(index) => {
                let (_, length, batch) =
                    file.iter().find(|(fpos, _, _)| *fpos == index.to_fpos()).unwrap();
                rd.feed(Batch::from_index(index, batch.clone(), *length).unwrap());
            }
            Replay::Corrupt(fpos) => panic!("bytes that are no batch at {}", fpos),
            Replay::End => break entries,
        }
    }
}

// Loads the journal in `file`, as the owner of the file does.
fn load(name: &str, file_name: &str, file: &File) -> Option<(Journal<NoState>, NoState)> {
    let len: u64 = file.iter().map(|(_, length, _)| *length as u64).sum();
    let mut loader = Loader::new(name, file_name, len)?;
    while let Some(fpos) = loader.to_fpos() {
        let (_, length, batch) = file.iter().find(|(at, _, _)| *at == fpos)?;
        if loader.add_batch(batch.clone(), *length).is_err() {
            break;
        }
    }
    assert_eq!(loader.to_state(), Vec::<u8>::new());
    Journal::load_archive(loader, NoState)
}

#[test]
fn test_journal() {
    let seed: u64 = random();
    println!("test_journal {}", seed);
    let mut rng = StdRng::seed_from_u64(seed);

    let name = "test_journal";
    let mut file: File = vec![];
    let mut jn = Journal::start_journal(name, 0, NoState);
    assert_eq!(jn.to_journal_number(), 0);
    assert_eq!(jn.len_batches(), 0);
    assert_eq!(jn.to_state(), NoState);

    let mut entries: Vec<Entry> = (0..1_000_000)
        .map(|_i| {
            let bytes = rng.gen::<[u8; 32]>();
            let mut uns = Unstructured::new(&bytes);
            let seqno: u64 = uns.arbitrary().unwrap();
            let op: Vec<u8> = uns.arbitrary().unwrap();
            Entry::new(seqno, op)
        })
        .collect();
    entries.sort_by(|a, b| a.partial_cmp(b).unwrap());
    entries.dedup_by(|a, b| a.to_seqno() == b.to_seqno());

    let mut n_batches = 0;
    let mut offset = 0;
    for _i in 0..1000 {
        let n = rng.gen::<u8>();
        for _j in 0..n {
            let entry = entries[offset].clone();
            jn.add_entry(entry.clone()).unwrap();
            entries.push(entry);
            offset += 1;
        }

        if offset > 0 {
            assert_eq!(jn.to_last_seqno(), Some(entries[offset - 1].to_seqno()));
        }

        flush(&mut jn, &mut file);
        if n > 0 {
            n_batches += 1;
        }

        if offset > 0 {
            assert_eq!(jn.to_last_seqno(), Some(entries[offset - 1].to_seqno()));
        }
    }
    assert_eq!(n_batches, jn.len_batches());

    let iter = RdJournal::from_journal(&jn, 0..=u64::MAX);
    let jn_entries: Vec<Entry> = replay(iter, &file);
    let entries = entries[..offset].to_vec();
    assert_eq!(entries.len(), jn_entries.len());
    assert_eq!(entries, jn_entries);
    assert_eq!(ops_of(&entries), ops_of(&jn_entries));

    {
        let (load_jn, _) = load(name, &jn.to_file_name(), &file).unwrap();
        let iter = RdJournal::from_journal(&load_jn, 0..=u64::MAX);
        let jn_entries: Vec<Entry> = replay(iter, &file);
        let entries = entries[..offset].to_vec();
        assert_eq!(entries.len(), jn_entries.len());
        assert_eq!(entries, jn_entries);
        assert_eq!(ops_of(&entries), ops_of(&jn_entries));
        assert_eq!(load_jn.len_batches(), jn.len_batches());
        assert_eq!(load_jn.to_last_seqno(), jn.to_last_seqno());
        assert_eq!(load_jn.to_first_seqno(), jn.to_first_seqno());
        assert_eq!(load_jn.to_journal_number(), jn.to_journal_number());
    }
}

#[test]
fn test_journal_working() {
    let mut file: File = vec![];
    let mut jn = Journal::start_journal("log", 3, NoState);
    assert_eq!(jn.to_journal_number(), 3);
    assert_eq!(jn.to_file_name(), "log-journal-003.dat");
    assert_eq!(jn.to_last_seqno(), None);
    assert_eq!(jn.to_first_seqno(), None);
    assert_eq!(jn.file_size().unwrap(), 0);
    assert_eq!(jn.len_entries(), 0);

    jn.add_entry(Entry::new(1, b"a".to_vec())).unwrap();
    jn.add_entry(Entry::new(2, b"b".to_vec())).unwrap();
    assert_eq!(jn.len_entries(), 2);
    assert_eq!(jn.len_batches(), 0);
    assert_eq!(jn.to_last_seqno(), Some(2));
    assert_eq!(jn.to_first_seqno(), Some(1));

    // entries that are not flushed yet are replayed too
    let rd = RdJournal::from_journal(&jn, 0..=u64::MAX);
    assert_eq!(rd.to_journal_number(), 3);
    assert_eq!(ops_of(&replay(rd, &file)), vec![(1, b"a".to_vec()), (2, b"b".to_vec())]);

    flush(&mut jn, &mut file);
    assert_eq!(jn.len_entries(), 0);
    assert_eq!(jn.len_batches(), 1);
    assert_eq!(jn.file_size().unwrap(), 32 + 17 + 17);
    assert_eq!(jn.to_last_seqno(), Some(2));

    jn.add_entry(Entry::new(3, b"c".to_vec())).unwrap();
    let rd = RdJournal::from_journal(&jn, 0..=u64::MAX);
    assert_eq!(
        ops_of(&replay(rd, &file)),
        vec![(1, b"a".to_vec()), (2, b"b".to_vec()), (3, b"c".to_vec())]
    );
    let rd = RdJournal::from_journal(&jn, 2..=2);
    assert_eq!(ops_of(&replay(rd, &file)), vec![(2, b"b".to_vec())]);
    let rd = RdJournal::from_journal(&jn, 3..=9);
    assert_eq!(ops_of(&replay(rd, &file)), vec![(3, b"c".to_vec())]);
    let rd = RdJournal::from_journal(&jn, 4..=9);
    assert_eq!(ops_of(&replay(rd, &file)), vec![]);

    // a flush of no bytes is refused while entries are pending
    assert!(matches!(jn.flush(0), Err(Error::Invalid(_, _))));
    assert_eq!(jn.len_entries(), 1);

    let (archive, leftover, state) = jn.into_archive();
    assert_eq!(ops_of(&leftover), vec![(3, b"c".to_vec())]);
    assert_eq!(state, NoState);
    assert_eq!(archive.to_journal_number(), 3);
    assert_eq!(archive.len_batches(), 1);
    assert_eq!(archive.len_entries(), 0);
    assert_eq!(archive.to_last_seqno(), Some(2));
    assert_eq!(archive.to_state(), NoState);

    let cold = archive.into_cold();
    assert_eq!(cold.to_journal_number(), 3);
    assert_eq!(cold.to_last_seqno(), None);
    assert_eq!(cold.to_file_name(), "log-journal-003.dat");
}

#[test]
fn test_journal_load_cold() {
    let jn = Journal::<NoState>::load_cold("t6", "t6-journal-000.dat").unwrap();
    assert_eq!(jn.to_journal_number(), 0);
    assert_eq!(jn.to_last_seqno(), None);
    assert_eq!(jn.to_file_name(), "t6-journal-000.dat");

    let jn = Journal::<NoState>::load_cold("my-log", "my-log-journal-1234.dat").unwrap();
    assert_eq!(jn.to_journal_number(), 1234);

    // files of other logs, and files that are no journals
    assert!(Journal::<NoState>::load_cold("t6", "t7-journal-000.dat").is_none());
    assert!(Journal::<NoState>::load_cold("t6", "t6-journal-000.txt").is_none());
    assert!(Journal::<NoState>::load_cold("t6", "t6-000.dat").is_none());
    assert!(Journal::<NoState>::load_cold("t6", "t6-journal-x.dat").is_none());
    assert!(Journal::<NoState>::load_cold("log", "my-log-journal-000.dat").is_none());
    assert!(Journal::<NoState>::load_cold("t6", "").is_none());
}

#[test]
fn test_loader() {
    let e = |s: u64| Entry::new(s, vec![s as u8]);
    let batch = |a: u64, z: u64| Batch::new(a, z, vec![z as u8], (a..=z).map(e).collect());

    assert!(Loader::new("log", "other-journal-001.dat", 100).is_none());
    assert!(Loader::new("log", "log-journal-001.data", 100).is_none());

    let mut loader = Loader::new("log", "log-journal-001.dat", 100).unwrap();
    assert_eq!(loader.to_fpos(), Some(0));
    assert_eq!(loader.to_state(), Vec::<u8>::new());

    // a batch of no bytes, or of more bytes than the file holds
    assert!(matches!(loader.add_batch(batch(1, 3), 0), Err(Error::Invalid(_, _))));
    assert!(matches!(loader.add_batch(batch(1, 3), 101), Err(Error::Invalid(_, _))));
    // a batch that cannot be
    assert!(matches!(
        loader.add_batch(Batch::new(0, 0, vec![], vec![]), 10),
        Err(Error::Fatal(_, _))
    ));
    assert!(matches!(
        loader.add_batch(Batch::new(1, 2, vec![], vec![e(2), e(1)]), 10),
        Err(Error::Fatal(_, _))
    ));
    assert_eq!(loader.to_fpos(), Some(0));

    loader.add_batch(batch(1, 3), 40).unwrap();
    assert_eq!(loader.to_fpos(), Some(40));
    assert_eq!(loader.to_state(), vec![3]);

    // a batch that does not come after the one before it
    assert!(matches!(loader.add_batch(batch(3, 5), 10), Err(Error::Fatal(_, _))));
    assert!(matches!(loader.add_batch(batch(2, 2), 10), Err(Error::Fatal(_, _))));
    assert_eq!(loader.to_fpos(), Some(40));
    assert_eq!(loader.to_state(), vec![3]);

    loader.add_batch(batch(4, 4), 35).unwrap();
    assert_eq!(loader.to_fpos(), Some(75));
    loader.add_batch(batch(10, 12), 25).unwrap();
    assert_eq!(loader.to_fpos(), None);
    assert_eq!(loader.to_state(), vec![12]);

    // the file is used up
    assert!(matches!(loader.add_batch(batch(13, 13), 1), Err(Error::Invalid(_, _))));

    let (jn, state) = Journal::load_archive(loader, NoState).unwrap();
    assert_eq!(state, NoState);
    assert_eq!(jn.to_journal_number(), 1);
    assert_eq!(jn.len_batches(), 3);
    assert_eq!(jn.to_first_seqno(), Some(1));
    assert_eq!(jn.to_last_seqno(), Some(12));

    // exact byte accounting: each batch starts where the one before it ends
    let mut rd = RdJournal::from_journal(&jn, 0..=u64::MAX);
    let mut index: Vec<Index> = vec![];
    loop {
        match rd.next() {
            Replay::Fetch(x) => index.push(x),
            Replay::Entry(_) | Replay::Corrupt(_) => unreachable!(),
            Replay::End => break,
        }
    }
    assert_eq!(
        index,
        vec![Index::new(0, 40, 1, 3), Index::new(40, 35, 4, 4), Index::new(75, 25, 10, 12)]
    );
    let total: u64 = index.iter().map(|x| x.to_length() as u64).sum();
    assert_eq!(total, 100);
}

#[test]
fn test_load_archive_of_nothing() {
    // an empty file
    let loader = Loader::new("log", "log-journal-000.dat", 0).unwrap();
    assert_eq!(loader.to_fpos(), None);
    assert!(Journal::load_archive(loader, NoState).is_none());

    // a file of which no batch could be taken up
    let loader = Loader::new("log", "log-journal-000.dat", 10).unwrap();
    assert_eq!(loader.to_fpos(), Some(0));
    assert!(Journal::load_archive(loader, NoState).is_none());
}

#[test]
fn test_load_archive_keeps_good_batches() {
    let e = |s: u64| Entry::new(s, vec![]);
    let mut loader = Loader::new("log", "log-journal-007.dat", 90).unwrap();
    loader.add_batch(Batch::new(1, 2, vec![], vec![e(1), e(2)]), 30).unwrap();
    loader.add_batch(Batch::new(3, 3, vec![], vec![e(3)]), 30).unwrap();
    // the third batch cannot be decoded: the archive is made of two
    assert_eq!(loader.to_fpos(), Some(60));
    let (jn, _) = Journal::load_archive(loader, NoState).unwrap();
    assert_eq!(jn.len_batches(), 2);
    assert_eq!(jn.to_last_seqno(), Some(3));
    assert_eq!(jn.to_journal_number(), 7);
    // and knows where the bytes start that are no batch
    assert_eq!(jn.to_damage(), Some(60));

    // a replay yields the batches, comes to those bytes once, and ends
    let mut rd = RdJournal::from_journal(&jn, 0..=u64::MAX);
    let mut seen = vec![];
    loop {
        match rd.next() {
            Replay::Entry(entry) => seen.push(format!("{}", entry.to_seqno())),
            Replay::Fetch(index) => {
                seen.push(format!("fetch {}", index.to_fpos()));
                let first = index.to_first_seqno();
                let entries = (first..=index.to_last_seqno()).map(e).collect();
                rd.feed(Batch::new(first, index.to_last_seqno(), vec![], entries));
            }
            Replay::Corrupt(fpos) => seen.push(format!("corrupt {}", fpos)),
            Replay::End => break,
        }
    }
    assert_eq!(seen, vec!["fetch 0", "1", "2", "fetch 30", "3", "corrupt 60"]);
    assert!(matches!(rd.next(), Replay::End));
}

#[test]
fn test_whole_file_has_no_damage() {
    let e = |s: u64| Entry::new(s, vec![]);
    let mut loader = Loader::new("log", "log-journal-007.dat", 60).unwrap();
    loader.add_batch(Batch::new(1, 2, vec![], vec![e(1), e(2)]), 30).unwrap();
    loader.add_batch(Batch::new(3, 3, vec![], vec![e(3)]), 30).unwrap();
    let (jn, _) = Journal::load_archive(loader, NoState).unwrap();
    assert_eq!(jn.to_damage(), None);

    let mut jn = Journal::start_journal("log", 0, NoState);
    assert_eq!(jn.to_damage(), None);
    jn.add_entry(e(1)).unwrap();
    jn.flush(10).unwrap();
    assert_eq!(jn.to_damage(), None);
    let (archive, _, _) = jn.into_archive();
    assert_eq!(archive.to_damage(), None);
}

#[test]
fn test_journal_takes_entries_in_any_order() {
    let mut jn = Journal::start_journal("log", 0, NoState);
    jn.add_entry(Entry::new(5, vec![])).unwrap();
    jn.add_entry(Entry::new(3, vec![])).unwrap();
    jn.add_entry(Entry::new(4, vec![])).unwrap();
    assert_eq!(jn.len_entries(), 3);
    assert_eq!(jn.to_last_seqno(), Some(4));
    jn.flush(12).unwrap();
    assert_eq!(jn.len_batches(), 1);
    assert_eq!(jn.file_size().unwrap(), 12);
}

#[test]
fn test_replay_goes_on_after_failed_read() {
    let e = |s: u64| Entry::new(s, vec![s as u8]);
    let mut jn = Journal::start_journal("log", 0, NoState);
    let mut file: File = vec![];
    for s in 1..=3 {
        jn.add_entry(e(s)).unwrap();
        flush(&mut jn, &mut file);
    }
    jn.add_entry(e(4)).unwrap();

    let mut rd = RdJournal::from_journal(&jn, 0..=u64::MAX);
    let mut seen = vec![];
    let mut fetched = 0;
    loop {
        match rd.next() {
            Replay::Entry(entry) => seen.push(entry.to_seqno()),
            Replay::Fetch(index) => {
                fetched += 1;
                // the second batch cannot be read: nothing is handed in
                if index.to_first_seqno() != 2 {
                    let (_, _, batch) =
                        file.iter().find(|(fpos, _, _)| *fpos == index.to_fpos()).unwrap();
                    rd.feed(batch.clone());
                }
            }
            Replay::Corrupt(_) => unreachable!(),
            Replay::End => break,
        }
    }
    // each index was asked for once, and the replay went on behind the gap
    assert_eq!(fetched, 3);
    assert_eq!(seen, vec![1, 3, 4]);
}
