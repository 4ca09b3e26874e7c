use arbitrary::Unstructured;
use rand::{prelude::random, rngs::StdRng, Rng, SeedableRng};

use wral::{Batch, Entry, Error, Index, NoState, Worker};

fn arbitrary_entry(rng: &mut StdRng) -> Entry {
    let bytes = rng.gen::<[u8; 32]>();
    let mut uns = Unstructured::new(&bytes);
    let seqno: u64 = uns.arbitrary().unwrap();
    let op: Vec<u8> = uns.arbitrary().unwrap();
    Entry::new(seqno, op)
}

fn arbitrary_batch(rng: &mut StdRng) -> (Batch, u64, u64, Vec<u8>, Vec<Entry>) {
    let bytes = rng.gen::<[u8; 32]>();
    let mut uns = Unstructured::new(&bytes);
    let n = uns.arbitrary::<u8>().unwrap() % 4;
    let mut entries: Vec<Entry> = (0..n).map(|_| arbitrary_entry(rng)).collect();
    entries.dedup_by(|a, b| a.to_seqno() == b.to_seqno());
    entries.sort_by(|a, b| a.partial_cmp(b).unwrap());

    let first_seqno: u64 = entries.first().map(|e| e.to_seqno()).unwrap_or(0);
    let last_seqno: u64 = entries.last().map(|e| e.to_seqno()).unwrap_or(0);
    let state: Vec<u8> = uns.arbitrary().unwrap();

    let batch = Batch::new(first_seqno, last_seqno, state.clone(), entries.clone());
    (batch, first_seqno, last_seqno, state, entries)
}

// Number of bytes that a batch is taken to fill in a file.
fn encoded_len(batch: &Batch) -> usize {
    let (_, _, state, entries) = batch.clone().unwrap();
    let ops: usize = entries.into_iter().map(|e| 16 + e.unwrap().1.len()).sum();
    32 + state.len() + ops
}

fn ops_of(entries: &[Entry]) -> Vec<(u64, Vec<u8>)> {
    entries.iter().map(|e| e.clone().unwrap()).collect()
}

#[test]
fn test_index() {
    let seed: u64 = random();
    println!("test_index {}", seed);
    let mut rng = StdRng::seed_from_u64(seed);

    let (fpos, length, first_seqno, last_seqno) = {
        let bytes = rng.gen::<[u8; 32]>();
        let mut uns = Unstructured::new(&bytes);
        let fpos: u64 = uns.arbitrary().unwrap();
        let length: usize = uns.arbitrary().unwrap();
        let a: u64 = uns.arbitrary().unwrap();
        let b: u64 = uns.arbitrary().unwrap();
        (fpos, length, a.min(b), a.max(b))
    };
    let index = Index::new(fpos, length, first_seqno, last_seqno);
    assert_eq!(index.to_first_seqno(), first_seqno);
    assert_eq!(index.to_last_seqno(), last_seqno);

    let val = Index::new(
        index.to_fpos(),
        index.to_length(),
        index.to_first_seqno(),
        index.to_last_seqno(),
    );
    assert_eq!(index, val);
}

#[test]
fn test_index_parts() {
    let index = Index::new(100, 25, 3, 9);
    assert_eq!(index.to_fpos(), 100);
    assert_eq!(index.to_length(), 25);
    assert_eq!(index.to_first_seqno(), 3);
    assert_eq!(index.to_last_seqno(), 9);
    assert_eq!(index.clone(), index);
    assert_ne!(index, Index::new(100, 25, 3, 10));

    let one = Index::new(0, 1, 5, 5);
    assert_eq!(one.to_first_seqno(), one.to_last_seqno());
}

#[test]
fn test_batch() {
    let seed: u64 = random();
    println!("test_batch {}", seed);
    let mut rng = StdRng::seed_from_u64(seed);

    let mut batches = vec![];
    for _i in 0..1000 {
        let (batch, first_seqno, last_seqno, state, entries) = arbitrary_batch(&mut rng);
        batches.push((batch.clone(), entries.is_empty()));

        assert_eq!(batch.to_state(), state);
        assert_eq!(batch.to_first_seqno(), first_seqno);
        assert_eq!(batch.to_last_seqno(), last_seqno);
        assert_eq!(batch.clone().into_iter(0..=u64::MAX).collect::<Vec<Entry>>(), entries);
        assert_eq!(
            ops_of(&batch.clone().into_iter(0..=u64::MAX).collect::<Vec<Entry>>()),
            ops_of(&entries)
        );

        let (a, z, s, es) = batch.clone().unwrap();
        let rbatch = Batch::new(a, z, s, es);
        assert_eq!(batch, rbatch);
        assert_eq!(batch.is_valid(), !entries.is_empty());
    }

    let mut batches: Vec<Batch> =
        batches.into_iter().filter(|(_, empty)| *empty).map(|(b, _)| b).collect();
    batches.sort_by(|a, b| a.partial_cmp(b).unwrap());
    batches.dedup_by(|a, b| a.to_first_seqno() == b.to_first_seqno());

    let mut seqno = 0;
    for batch in batches.into_iter() {
        assert!(seqno <= batch.to_first_seqno(), "{} {}", seqno, batch.to_first_seqno());
        assert!(batch.to_first_seqno() <= batch.to_last_seqno(), "{:?}", batch);
        seqno = batch.to_first_seqno()
    }
}

#[test]
fn test_batch_scan_range() {
    let entries: Vec<Entry> = (1..=5).map(|i| Entry::new(i * 10, vec![i as u8])).collect();
    let batch = Batch::new(10, 50, vec![0xAA], entries);
    assert!(batch.is_valid());

    let scan = |lo: u64, hi: u64| -> Vec<(u64, Vec<u8>)> {
        batch.clone().into_iter(lo..=hi).map(|e| e.unwrap()).collect()
    };
    assert_eq!(scan(20, 40), vec![(20, vec![2]), (30, vec![3]), (40, vec![4])]);
    assert_eq!(scan(0, u64::MAX).len(), 5);
    assert_eq!(scan(21, 29), vec![]);
    assert_eq!(scan(50, 50), vec![(50, vec![5])]);
    assert_eq!(scan(10, 10), vec![(10, vec![1])]);
    assert_eq!(scan(40, 20), vec![]);
    assert_eq!(scan(51, u64::MAX), vec![]);
    assert_eq!(scan(0, 9), vec![]);
}

#[test]
fn test_batch_is_valid() {
    let e = |s: u64| Entry::new(s, vec![]);
    assert!(Batch::new(1, 3, vec![], vec![e(1), e(2), e(3)]).is_valid());
    assert!(Batch::new(7, 7, vec![], vec![e(7)]).is_valid());
    // no entries
    assert!(!Batch::new(0, 0, vec![], vec![]).is_valid());
    // first sequence number is not that of the first entry
    assert!(!Batch::new(2, 3, vec![], vec![e(1), e(2), e(3)]).is_valid());
    // last sequence number is not that of the last entry
    assert!(!Batch::new(1, 4, vec![], vec![e(1), e(2), e(3)]).is_valid());
    // sequence numbers do not increase
    assert!(!Batch::new(1, 3, vec![], vec![e(1), e(3), e(3)]).is_valid());
    assert!(!Batch::new(1, 3, vec![], vec![e(1), e(5), e(3)]).is_valid());
    assert!(!Batch::new(3, 1, vec![], vec![e(3), e(1)]).is_valid());
}

#[test]
fn test_batch_equality_and_order() {
    let e = |s: u64, b: u8| Entry::new(s, vec![b]);
    let a = Batch::new(1, 2, vec![1], vec![e(1, 0), e(2, 0)]);
    // entries are the same where their sequence numbers are
    assert_eq!(a, Batch::new(1, 2, vec![1], vec![e(1, 9), e(2, 9)]));
    assert_ne!(a, Batch::new(1, 2, vec![2], vec![e(1, 0), e(2, 0)]));
    assert_ne!(a, Batch::new(1, 3, vec![1], vec![e(1, 0), e(2, 0)]));
    assert_ne!(a, Batch::new(0, 2, vec![1], vec![e(1, 0), e(2, 0)]));
    assert_ne!(a, Batch::new(1, 2, vec![1], vec![e(1, 0)]));
    assert_ne!(a, Batch::new(1, 2, vec![1], vec![e(1, 0), e(3, 0)]));

    let b = Batch::new(5, 6, vec![], vec![e(5, 0), e(6, 0)]);
    assert!(a < b && b > a);
    assert_eq!(a.partial_cmp(&b), Some(std::cmp::Ordering::Less));
    assert_eq!(b.partial_cmp(&a), Some(std::cmp::Ordering::Greater));
    assert_eq!(a.partial_cmp(&a.clone()), Some(std::cmp::Ordering::Equal));
}

#[test]
fn test_batch_from_index() {
    let batch = Batch::new(4, 4, vec![1, 2], vec![Entry::new(4, vec![7])]);
    let index = Index::new(64, 30, 4, 4);

    let read = Batch::from_index(index.clone(), batch.clone(), 30).unwrap();
    assert_eq!(read.clone().unwrap().3[0].clone().unwrap(), (4, vec![7]));
    assert_eq!(read.to_state(), vec![1, 2]);

    assert!(matches!(
        Batch::from_index(index.clone(), batch.clone(), 29),
        Err(Error::FailCbor(_, _))
    ));
    assert!(matches!(Batch::from_index(index, batch, 31), Err(Error::FailCbor(_, _))));
}

#[test]
fn test_worker() {
    let seed: u64 = random();
    println!("test_worker {}", seed);
    let mut rng = StdRng::seed_from_u64(seed);

    // what was written to the file: where, how many bytes, and the batch.
    let mut file: Vec<(u64, usize, Batch)> = vec![];

    let mut worker = Worker::new(NoState);

    let mut index = vec![];
    let mut all_entries = vec![];
    for _i in 0..1000 {
        let mut entries = vec![];
        let n = rng.gen::<u8>();
        for _j in 0..n {
            let entry: Entry = arbitrary_entry(&mut rng);
            worker.add_entry(entry.clone()).unwrap();
            entries.push(entry.clone());
            all_entries.push(entry);
        }

        assert_eq!(entries, worker.to_entries());
        assert_eq!(ops_of(&entries), ops_of(&worker.to_entries()));
        if n > 0 {
            assert_eq!(entries.last().map(|e| e.to_seqno()), worker.to_last_seqno())
        }

        let fpos = worker.file_size();
        let written = worker.to_batch(vec![]).map(|batch| (encoded_len(&batch), batch));
        let length = written.as_ref().map(|(n, _)| *n).unwrap_or(0);
        if let Some(x) = worker.flush(length).unwrap() {
            let (length, batch) = written.unwrap();
            assert_eq!((x.to_fpos(), x.to_length()), (fpos, length));
            file.push((fpos, length, batch));
            index.push(x)
        };

        if n > 0 {
            assert_eq!(entries.last().map(|e| e.to_seqno()), worker.to_last_seqno())
        }
    }

    assert_eq!(index, worker.to_index());
    let entries = index
        .iter()
        .map(|x| {
            let (_, length, batch) = file.iter().find(|(fpos, _, _)| *fpos == x.to_fpos()).unwrap();
            Batch::from_index(x.clone(), batch.clone(), *length)
                .unwrap()
                .into_iter(0..=u64::MAX)
                .collect::<Vec<Entry>>()
        })
        .flatten()
        .collect::<Vec<Entry>>();
    assert_eq!(entries, all_entries);
    assert_eq!(ops_of(&entries), ops_of(&all_entries));
}

#[test]
fn test_worker_flush() {
    let mut worker = Worker::new(NoState);
    assert_eq!(worker.to_last_seqno(), None);
    assert_eq!(worker.to_first_seqno(), None);
    assert_eq!(worker.len_batches(), 0);
    assert_eq!(worker.len_entries(), 0);
    assert_eq!(worker.file_size(), 0);
    assert_eq!(worker.to_state(), NoState);

    // nothing pending: nothing to flush
    assert!(worker.to_batch(vec![1]).is_none());
    assert_eq!(worker.flush(10).unwrap(), None);
    assert_eq!(worker.file_size(), 0);

    worker.add_entry(Entry::new(5, vec![1])).unwrap();
    worker.add_entry(Entry::new(8, vec![2, 2])).unwrap();
    assert_eq!(worker.len_entries(), 2);
    assert_eq!(worker.to_first_seqno(), Some(5));
    assert_eq!(worker.to_last_seqno(), Some(8));

    let batch = worker.to_batch(vec![0xEE]).unwrap();
    assert_eq!(batch.to_first_seqno(), 5);
    assert_eq!(batch.to_last_seqno(), 8);
    assert_eq!(batch.to_state(), vec![0xEE]);
    assert!(batch.is_valid());
    assert_eq!(ops_of(&batch.unwrap().3), vec![(5, vec![1]), (8, vec![2, 2])]);
    // handing out the batch changes nothing
    assert_eq!(worker.len_entries(), 2);

    // a batch of no bytes is refused, and nothing changes
    assert!(matches!(worker.flush(0), Err(Error::Invalid(_, _))));
    assert_eq!(worker.len_entries(), 2);
    assert_eq!(worker.len_batches(), 0);

    let index = worker.flush(40).unwrap().unwrap();
    assert_eq!(index, Index::new(0, 40, 5, 8));
    assert_eq!(worker.len_entries(), 0);
    assert_eq!(worker.len_batches(), 1);
    assert_eq!(worker.file_size(), 40);
    assert_eq!(worker.to_last_seqno(), Some(8));
    assert_eq!(worker.to_first_seqno(), Some(5));

    worker.add_entry(Entry::new(9, vec![])).unwrap();
    assert_eq!(worker.to_last_seqno(), Some(9));
    let index = worker.flush(7).unwrap().unwrap();
    assert_eq!(index, Index::new(40, 7, 9, 9));
    assert_eq!(worker.file_size(), 47);
    assert_eq!(worker.to_index(), vec![Index::new(0, 40, 5, 8), Index::new(40, 7, 9, 9)]);

    let (index, entries, state) = worker.unwrap();
    assert_eq!(index.len(), 2);
    assert!(entries.is_empty());
    assert_eq!(state, NoState);
}

#[test]
fn test_worker_takes_entries_in_any_order() {
    let mut worker = Worker::new(NoState);
    worker.add_entry(Entry::new(5, vec![1])).unwrap();
    worker.add_entry(Entry::new(3, vec![2])).unwrap();
    worker.add_entry(Entry::new(3, vec![3])).unwrap();
    worker.add_entry(Entry::new(9, vec![4])).unwrap();
    assert_eq!(
        ops_of(&worker.to_entries()),
        vec![(5, vec![1]), (3, vec![2]), (3, vec![3]), (9, vec![4])]
    );
    assert_eq!(worker.to_last_seqno(), Some(9));
    assert_eq!(worker.len_batches(), 0);

    // the batch is what the entries are, though none that a log persists
    let batch = worker.to_batch(vec![]).unwrap();
    assert_eq!((batch.to_first_seqno(), batch.to_last_seqno()), (5, 9));
    assert!(!batch.is_valid());

    worker.add_entry(Entry::new(2, vec![5])).unwrap();
    let index = worker.flush(10).unwrap().unwrap();
    assert_eq!((index.to_first_seqno(), index.to_last_seqno()), (5, 2));
    assert_eq!((index.to_fpos(), index.to_length()), (0, 10));
    assert_eq!(worker.len_entries(), 0);
    assert_eq!(worker.file_size(), 10);

    // the bytes are accounted for all the same
    worker.add_entry(Entry::new(1, vec![])).unwrap();
    let index = worker.flush(7).unwrap().unwrap();
    assert_eq!((index.to_fpos(), index.to_length()), (10, 7));
    assert_eq!(worker.file_size(), 17);
}

#[test]
fn test_worker_position_overflow() {
    let mut worker = Worker::new(NoState);
    worker.add_entry(Entry::new(1, vec![])).unwrap();
    let index = worker.flush(usize::MAX).unwrap().unwrap();
    assert_eq!(index.to_length(), usize::MAX);

    worker.add_entry(Entry::new(2, vec![])).unwrap();
    if (usize::MAX as u128) * 2 > (u64::MAX as u128) {
        assert!(matches!(worker.flush(usize::MAX), Err(Error::FailConvert(_, _))));
        // nothing changed: the entry is still pending
        assert_eq!(worker.len_entries(), 1);
        assert_eq!(worker.len_batches(), 1);
        assert_eq!(worker.file_size(), usize::MAX as u64);
    }
}
