use primegen::algos::{miller_rabin_round, split_twos, PrimeResult};
use primegen::bigint::{BigInt, LIMBS};
use primegen::bytes::BYTES;
use primegen::rng;
use primegen::search::{
    primes_1024bit, primes_128bit, primes_16bit, primes_64bit, small_prime_filter, Worker,
    WorkerState,
};
use primegen::utils::generate_small_primes;

/// A small deterministic byte source standing in for the randomness oracle.
struct Source {
    state: u64,
}

impl Source {
    fn new(seed: u64) -> Source {
        Source { state: seed }
    }

    fn next(&mut self) -> u64 {
        self.state ^= self.state << 13;
        self.state ^= self.state >> 7;
        self.state ^= self.state << 17;
        self.state
    }

    fn fill(&mut self, len: usize) -> Vec<u8> {
        let mut out = Vec::with_capacity(len);
        while out.len() < len {
            out.extend_from_slice(&self.next().to_le_bytes());
        }
        out.truncate(len);
        out
    }
}

fn bit_length(n: &BigInt) -> usize {
    let top = n.size();
    64 * top + (64 - n.chunks[top].leading_zeros() as usize)
}

/// Runs one worker to the end and counts its steps.
fn run(mut worker: Worker, table: &[u64], source: &mut Source) -> (BigInt, usize) {
    let mut steps = 0;
    while worker.state != WorkerState::Emitting {
        assert!(worker.ready());
        let entropy = source.fill(worker.entropy_needed());
        worker = worker.step(table, &entropy);
        steps += 1;
    }
    (worker.candidate, steps)
}

/// Miller-Rabin with the fixed witnesses 2, 3, 5, ..., 37.
fn passes_fixed_witnesses(n: BigInt) -> bool {
    let (s, d) = split_twos(n.decrease());
    [2u128, 3, 5, 7, 11, 13, 17, 19, 23, 29, 31, 37]
        .iter()
        .all(|a| miller_rabin_round(n, s, d, BigInt::from(*a)))
}

#[test]
fn generated_prime_of_128_bits() {
    let table = generate_small_primes::<500>().unwrap();
    let mut source = Source::new(0xa5a5_5a5a_c3c3_3c3c);
    let worker = Worker::new(128, 20).unwrap();
    let (n, _) = run(worker, &table, &mut source);
    assert_eq!(bit_length(&n), 128);
    assert!(!n.is_even());
    assert!(passes_fixed_witnesses(n));
}

#[test]
fn race_of_eight_workers_for_256_bits() {
    let table = generate_small_primes::<200>().unwrap();
    for repeat in 0..3u64 {
        let mut sources: Vec<Source> =
            (0..8u64).map(|i| Source::new(0x9e37_79b9_7f4a_7c15 ^ (repeat * 8 + i + 1))).collect();
        let mut workers: Vec<Worker> = (0..8).map(|_| Worker::new(256, 5).unwrap()).collect();
        // the workers take their steps in turn; the first to emit wins
        let winner = 'race: loop {
            for (worker, source) in workers.iter_mut().zip(sources.iter_mut()) {
                assert!(worker.ready());
                let entropy = source.fill(worker.entropy_needed());
                *worker = worker.step(&table, &entropy);
                if worker.state == WorkerState::Emitting {
                    break 'race worker.candidate;
                }
            }
        };
        assert_eq!(bit_length(&winner), 256);
        assert!(!winner.is_even());
        assert!(passes_fixed_witnesses(winner));
    }
}

#[test]
fn worker_walks_through_its_states() {
    let table = [3u64, 5, 7];
    let mut source = Source::new(42);
    let worker = Worker::new(64, 2).unwrap();
    assert_eq!(worker.state, WorkerState::Initializing);
    assert_eq!(worker.entropy_needed(), 8);

    // 0x10 becomes 0x8000_0000_0000_0011 = 2^63 + 17, a multiple of 5
    let worker = worker.step(&table, &[0x10, 0, 0, 0, 0, 0, 0, 0]);
    assert_eq!(worker.state, WorkerState::Filtering);
    assert!(worker.candidate == BigInt::from(0x8000_0000_0000_0011u128));
    assert_eq!(worker.entropy_needed(), 0);

    let worker = worker.step(&table, &[]);
    assert_eq!(worker.state, WorkerState::Advancing);
    let worker = worker.step(&table, &[]);
    assert_eq!(worker.state, WorkerState::Filtering);
    assert!(worker.candidate == BigInt::from(0x8000_0000_0000_0013u128));

    // 2^63 + 19 is a multiple of 3
    let worker = worker.step(&table, &[]);
    assert_eq!(worker.state, WorkerState::Advancing);
    let worker = worker.step(&table, &[]);
    // 2^63 + 21 has no factor in the table, but the witness 2 exposes it
    let worker = worker.step(&table, &[]);
    assert_eq!(worker.state, WorkerState::Witnessing);
    assert_eq!(worker.entropy_needed(), 2 * BYTES);
    let worker = worker.step(&table, &[0u8; 2 * BYTES]);
    assert_eq!(worker.state, WorkerState::Advancing);
    assert!(worker.candidate == BigInt::from(0x8000_0000_0000_0015u128));

    // run on to the end: 2^63 + 29 is the first prime above 2^63
    let (n, _) = run(worker, &table, &mut source);
    assert!(n == BigInt::from((1u128 << 63) + 29));
    let done = Worker { state: WorkerState::Emitting, candidate: n, limbs: 1, rounds: 2 };
    let still = done.step(&table, &[]);
    assert_eq!(still.state, WorkerState::Emitting);
    assert!(still.candidate == n);
}

#[test]
fn worker_settings_are_checked() {
    assert!(Worker::new(0, 10).is_none());
    assert!(Worker::new(100, 10).is_none());
    assert!(Worker::new(1088, 10).is_none());
    assert!(Worker::new(2048, 10).is_none());
    assert!(Worker::new(64, usize::MAX).is_none());
    assert!(Worker::new(64, 0).is_some());
    assert!(Worker::new(1024, 10).is_some());
    let wide = primes_1024bit();
    assert_eq!(wide.state, WorkerState::Initializing);
    assert_eq!(wide.limbs, 16);
    assert_eq!(wide.rounds, 10);
    assert_eq!(wide.entropy_needed(), 128);
    let witnessing = Worker { state: WorkerState::Witnessing, ..wide };
    assert_eq!(witnessing.entropy_needed(), 10 * BYTES);
}

#[test]
fn worker_refuses_to_leave_the_range() {
    // the largest odd number below 2^1024 cannot move on by two
    let mut chunks = [0u64; LIMBS];
    for limb in chunks.iter_mut().take(16) {
        *limb = u64::MAX;
    }
    let last = BigInt { chunks };
    let worker = Worker { state: WorkerState::Advancing, candidate: last, limbs: 16, rounds: 1 };
    assert!(!worker.ready());
    let before = Worker { candidate: last.sub_u64(2), ..worker };
    assert!(before.ready());
    assert!(before.step(&[3], &[]).candidate == last);
}

#[test]
fn small_prime_filter_finds_table_divisors() {
    let table = generate_small_primes::<100>().unwrap();
    let p = BigInt::from((1u128 << 89) - 1);
    assert_eq!(small_prime_filter(&p, &table), PrimeResult::Unknown);
    assert_eq!(small_prime_filter(&(p * BigInt::from(541u128)), &table), PrimeResult::Composite);
    assert_eq!(small_prime_filter(&(p * BigInt::from(547u128)), &table), PrimeResult::Unknown);
    assert_eq!(small_prime_filter(&BigInt::from(7u128), &table), PrimeResult::Composite);
    assert_eq!(small_prime_filter(&p, &[]), PrimeResult::Unknown);
}

#[test]
fn sixteen_bit_search() {
    // 0x0003 becomes 0x8003 = 32771, a prime
    assert_eq!(primes_16bit([0x03, 0x00]), Some(32771));
    // 0x0000 becomes 0x8001 = 32769 = 3 * 10923
    assert_eq!(primes_16bit([0x00, 0x00]), None);
    assert_eq!(rng::u16([0x34, 0x12]), 0x1234);
}

#[test]
fn sixty_four_bit_search() {
    let table = generate_small_primes::<50>().unwrap();
    // 2^63 + 29 is prime, 2^63 + 1 is a multiple of 3
    assert_eq!(primes_64bit([29, 0, 0, 0, 0, 0, 0, 0], &table), Some((1 << 63) + 29));
    assert_eq!(primes_64bit([0; 8], &table), None);
    // 2^63 + 15 = 3547 * 2600330430463709: the table misses it, the wheel finds it
    assert_eq!(primes_64bit([15, 0, 0, 0, 0, 0, 0, 0], &table), None);
    // 2^63 + 3 = 11 * 838488366986797801: the table finds it
    assert_eq!(primes_64bit([3, 0, 0, 0, 0, 0, 0, 0], &table), None);
    assert_eq!(rng::u64([1, 2, 3, 4, 5, 6, 7, 8]), 0x0807_0605_0403_0201);
}

#[test]
fn hundred_twenty_eight_bit_search() {
    assert_eq!(primes_128bit([29, 0, 0, 0, 0, 0, 0, 0], &[2]), Some((1 << 63) + 29));
    assert_eq!(primes_128bit([0; 8], &[2]), None);
    assert_eq!(
        rng::u128([1, 0, 0, 0, 0, 0, 0, 0, 0, 0, 0, 0, 0, 0, 0, 0x80]),
        (1 << 127) + 1
    );
    assert_eq!(rng::u128_range(5, 10, [7, 0, 0, 0, 0, 0, 0, 0]), Some(7));
    assert_eq!(rng::u128_range(5, 10, [5, 0, 0, 0, 0, 0, 0, 0]), None);
    assert_eq!(rng::u128_range(5, 10, [10, 0, 0, 0, 0, 0, 0, 0]), None);
}
