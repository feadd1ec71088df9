use bratwurst::fault::Fault;
use bratwurst::queue::{concat_buffers, reassemble, wb_sort, WriteBuffer, WriteItems};

fn buffer(rank: usize, data: Vec<u8>) -> WriteBuffer {
    WriteBuffer { rank, data }
}

/// A small deterministic generator for shuffling and for payload bytes.
struct Lcg {
    state: u64,
}

impl Lcg {
    fn new(seed: u64) -> Lcg {
        Lcg { state: seed }
    }

    fn next(&mut self) -> u64 {
        self.state = self
            .state
            .wrapping_mul(6364136223846793005)
            .wrapping_add(1442695040888963407);
        self.state >> 16
    }
}

fn shuffled(n: usize, seed: u64) -> Vec<usize> {
    let mut order: Vec<usize> = (0..n).collect();
    let mut gen = Lcg::new(seed);
    let mut i: usize = n;
    while i > 1 {
        let j: usize = (gen.next() as usize) % i;
        i -= 1;
        order.swap(i, j);
    }
    order
}

fn payload(rank: usize) -> Vec<u8> {
    let mut gen = Lcg::new(rank as u64 + 1);
    let len: usize = 1 + (gen.next() as usize) % 5;
    let mut data: Vec<u8> = Vec::new();
    for _ in 0..len {
        data.push(gen.next() as u8);
    }
    data
}

#[test]
fn wb_sort_returns_rank() {
    let b = buffer(42, vec![1, 2, 3]);
    assert_eq!(wb_sort(&b), 42);
}

#[test]
fn empty_queue_reads_nothing() {
    let mut q = WriteItems::new(8);
    assert!(q.read_item().is_none());
}

#[test]
fn in_order_submission_drains_immediately() {
    let mut q = WriteItems::new(4);
    for rank in 0..4 {
        q.write_item(buffer(rank, vec![rank as u8])).unwrap();
        let out = q.read_item().expect("the cursor's rank just arrived");
        assert_eq!(out.rank, rank);
        assert_eq!(out.data, vec![rank as u8]);
    }
    assert!(q.read_item().is_none());
}

#[test]
fn out_of_order_submission_is_held_back() {
    let mut q = WriteItems::new(4);
    q.write_item(buffer(2, vec![2])).unwrap();
    q.write_item(buffer(1, vec![1])).unwrap();
    assert!(q.read_item().is_none());
    q.write_item(buffer(0, vec![0])).unwrap();
    let a = q.read_item().unwrap();
    let b = q.read_item().unwrap();
    let c = q.read_item().unwrap();
    assert_eq!((a.rank, b.rank, c.rank), (0, 1, 2));
    assert!(q.read_item().is_none());
}

#[test]
fn duplicate_rank_is_a_fault() {
    let mut q = WriteItems::new(4);
    q.write_item(buffer(3, vec![1])).unwrap();
    let r = q.write_item(buffer(3, vec![2]));
    assert_eq!(r, Err(Fault::DuplicateRank));
}

#[test]
fn rank_below_cursor_is_a_fault() {
    let mut q = WriteItems::new(4);
    q.write_item(buffer(0, vec![1])).unwrap();
    let released = q.read_item().unwrap();
    assert_eq!(released.rank, 0);
    let r = q.write_item(buffer(0, vec![2]));
    assert_eq!(r, Err(Fault::OrderingViolation));
}

#[test]
fn no_loss_no_duplication() {
    // Every rank 0..n-1 submitted exactly once, in a scrambled order: the
    // queue drains exactly n times, once per rank, and is empty afterwards.
    let n: usize = 100;
    let mut q = WriteItems::new(n);
    let mut drains: usize = 0;
    let mut expected_next: usize = 0;
    for rank in shuffled(n, 7) {
        q.write_item(buffer(rank, payload(rank))).unwrap();
        while let Some(out) = q.read_item() {
            assert_eq!(out.rank, expected_next);
            assert_eq!(out.data, payload(out.rank));
            expected_next += 1;
            drains += 1;
        }
    }
    assert_eq!(drains, n);
    assert!(q.read_item().is_none());
}

#[test]
fn order_preserved_under_any_permutation() {
    // The concatenated drained bytes equal the rank-ordered concatenation,
    // whatever the submission order.
    let n: usize = 50;
    let mut ascending: Vec<u8> = Vec::new();
    for rank in 0..n {
        ascending.extend_from_slice(&payload(rank));
    }
    for seed in [1u64, 2, 3] {
        let mut items: Vec<WriteBuffer> = Vec::new();
        for rank in shuffled(n, seed) {
            items.push(buffer(rank, payload(rank)));
        }
        let drained = reassemble(items);
        assert_eq!(drained.len(), n);
        for (i, out) in drained.iter().enumerate() {
            assert_eq!(out.rank, i);
        }
        assert_eq!(concat_buffers(&drained), ascending);
    }
}

#[test]
fn concurrent_submission_matches_sequential() {
    // Four simulated workers submit 1000 ranks in randomized interleaving;
    // the drained output is byte-identical to the single-worker run.
    let n: usize = 1000;
    let mut sequential: Vec<WriteBuffer> = Vec::new();
    for rank in 0..n {
        sequential.push(buffer(rank, payload(rank)));
    }
    let baseline = concat_buffers(&reassemble(sequential));

    // Deal the ranks to four workers, then interleave their completions in a
    // randomized order driven by the generator.
    let mut lanes: Vec<Vec<usize>> = vec![Vec::new(), Vec::new(), Vec::new(), Vec::new()];
    for rank in shuffled(n, 11) {
        lanes[rank % 4].push(rank);
    }
    let mut gen = Lcg::new(13);
    let mut items: Vec<WriteBuffer> = Vec::new();
    while lanes.iter().any(|lane| !lane.is_empty()) {
        let pick: usize = (gen.next() as usize) % 4;
        if let Some(rank) = lanes[pick].pop() {
            items.push(buffer(rank, payload(rank)));
        }
    }
    assert_eq!(items.len(), n);
    let drained = reassemble(items);
    assert_eq!(concat_buffers(&drained), baseline);
}
