//! The search for a probable prime: candidates, the small-prime filter and
//! the worker that advances a candidate until it passes Miller-Rabin.
//!
//! A worker draws no randomness and runs no loop of its own. The caller
//! asks how much entropy the next step needs, draws it, and hands it to
//! [`Worker::step`], until the worker is in [`WorkerState::Emitting`].

use vstd::prelude::*;
use vstd::arithmetic::div_mod::lemma_fundamental_div_mod_converse;
use vstd::arithmetic::power2::{
    lemma2_to64, lemma2_to64_rest, lemma_pow2_strictly_increases, pow2,
};
use crate::algos::{
    is_prime, miller_rabin_test, miller_rabin_test_u128, mr_passes_all, mr_passes_all_u128,
    simple_division_finds, trial_division, trial_division_simple, wheel_at, wheel_finds,
    PrimeResult,
};
use crate::number_theory::{lemma_prime_mod_six, lemma_small_prime_divisor};
use crate::bigint::{BigInt, forced_limbs, LIMBS};
use crate::bytes::{BYTES, bytes_value, lemma_bytes_bound};
use crate::limbs::{lemma_radix_pow_is_pow2, lemma_radix_pow_monotonic};
use crate::limb_ops::div_limb;
use crate::utils::{is_prime_table, lemma_table_entries_grow, max_modulus};

verus! {

/// Whether some entry of the table divides `n`.
pub open spec fn table_divides(n: nat, table: Seq<u64>) -> bool {
    exists|i: int| 0 <= i < table.len() && n % (#[trigger] table[i] as nat) == 0
}

/// The small-prime filter: `Composite` where an entry of the table divides
/// the candidate, `Unknown` where none does.
pub fn small_prime_filter(candidate: &BigInt, table: &[u64]) -> (r: PrimeResult)
    requires
        forall|i: int| 0 <= i < table.len() ==> table[i] != 0,
    ensures
        r == (if table_divides(candidate@, table@) {
            PrimeResult::Composite
        } else {
            PrimeResult::Unknown
        }),
{
    let mut i: usize = 0;
    while i < table.len()
        invariant
            i <= table.len(),
            forall|j: int| 0 <= j < table.len() ==> table[j] != 0,
            forall|j: int| 0 <= j < i ==> candidate@ % (#[trigger] table[j] as nat) != 0,
        decreases table.len() - i,
    {
        let (quotient, rest) = div_limb(candidate.chunks.as_slice(), table[i]);
        proof {
            lemma_fundamental_div_mod_converse(
                candidate@ as int,
                table[i as int] as int,
                crate::limbs::limbs_value(quotient@) as int,
                rest as int,
            );
        }
        if rest == 0 {
            return PrimeResult::Composite;
        }
        i += 1;
    }
    PrimeResult::Unknown
}

/// Where a worker stands in its search.
#[derive(Clone, Copy, Debug, PartialEq, Eq, Structural)]
pub enum WorkerState {
    /// No candidate yet: the next step makes one from entropy.
    Initializing,
    /// The candidate awaits the small-prime filter.
    Filtering,
    /// The candidate survived the filter and awaits Miller-Rabin.
    Witnessing,
    /// The candidate was rejected: the next step moves on by two.
    Advancing,
    /// The candidate passed Miller-Rabin; the search is over.
    Emitting,
}

/// One search for a probable prime of `64 * limbs` bits.
#[derive(Clone, Copy, Debug)]
pub struct Worker {
    /// Where the search stands.
    pub state: WorkerState,
    /// The number under test; meaningless while `Initializing`.
    pub candidate: BigInt,
    /// The width of the prime sought, in limbs.
    pub limbs: usize,
    /// The Miller-Rabin rounds that a candidate must pass.
    pub rounds: usize,
}

impl Worker {
    /// The worker's settings are in range, and once it has a candidate,
    /// that candidate is odd, has the top bit of its width set and is one
    /// that Miller-Rabin accepts.
    pub open spec fn wf(self) -> bool {
        &&& 1 <= self.limbs <= LIMBS / 2
        &&& self.rounds * BYTES <= usize::MAX
        &&& self.state != WorkerState::Initializing ==> {
            &&& self.candidate@ % 2 == 1
            &&& self.candidate@ >= pow2((64 * self.limbs - 1) as nat)
            &&& self.candidate@ < max_modulus()
        }
    }

    /// How many bytes of entropy the next step takes.
    pub open spec fn entropy_len(self) -> nat {
        match self.state {
            WorkerState::Initializing => (8 * self.limbs) as nat,
            WorkerState::Witnessing => (self.rounds * BYTES) as nat,
            _ => 0,
        }
    }

    /// Whether the next step can be taken: moving on by two must not
    /// carry the candidate past what Miller-Rabin accepts.
    pub open spec fn can_step(self) -> bool {
        &&& self.wf()
        &&& self.state == WorkerState::Advancing ==> self.candidate@ + 2 < max_modulus()
    }

    /// What one step with the given table and entropy leads to.
    pub open spec fn steps_to(self, table: Seq<u64>, entropy: Seq<u8>, next: Worker) -> bool {
        &&& next.limbs == self.limbs
        &&& next.rounds == self.rounds
        &&& match self.state {
            WorkerState::Initializing => {
                &&& next.state == WorkerState::Filtering
                &&& next.candidate.chunks@ == forced_limbs(
                    BigInt::of_nat(bytes_value(entropy)).chunks@,
                    self.limbs as int,
                )
            },
            WorkerState::Filtering => {
                &&& next.candidate == self.candidate
                &&& next.state == (if table_divides(self.candidate@, table) {
                    WorkerState::Advancing
                } else {
                    WorkerState::Witnessing
                })
            },
            WorkerState::Witnessing => {
                &&& next.candidate == self.candidate
                &&& next.state == (if mr_passes_all(self.candidate@, self.rounds as nat, entropy) {
                    WorkerState::Emitting
                } else {
                    WorkerState::Advancing
                })
            },
            WorkerState::Advancing => {
                &&& next.candidate@ == self.candidate@ + 2
                &&& next.state == WorkerState::Filtering
            },
            WorkerState::Emitting => next == self,
        }
    }

    /// A worker for primes of `bit_width` bits with `rounds` Miller-Rabin
    /// rounds per candidate; `None` where the width is not a multiple of
    /// 64 between 64 and 1024, or the rounds need more entropy than can
    /// be addressed.
    pub fn new(bit_width: usize, rounds: usize) -> (r: Option<Worker>)
        ensures
            r is Some <==> bit_width % 64 == 0 && 64 <= bit_width <= 1024 && rounds * BYTES
                <= usize::MAX,
            r is Some ==> {
                let w = r.unwrap();
                &&& w.wf()
                &&& w.state == WorkerState::Initializing
                &&& 64 * w.limbs == bit_width
                &&& w.rounds == rounds
            },
    {
        if bit_width % 64 != 0 || bit_width < 64 || bit_width > 1024 || rounds > usize::MAX
            / BYTES {
            return None;
        }
        Some(
            Worker {
                state: WorkerState::Initializing,
                candidate: BigInt::zero(),
                limbs: bit_width / 64,
                rounds,
            },
        )
    }

    /// How many bytes of entropy the next step takes.
    pub fn entropy_needed(&self) -> (r: usize)
        requires
            self.wf(),
        ensures
            r == self.entropy_len(),
    {
        match self.state {
            WorkerState::Initializing => 8 * self.limbs,
            WorkerState::Witnessing => self.rounds * BYTES,
            _ => 0,
        }
    }

    /// Whether the next step can be taken.
    pub fn ready(&self) -> (r: bool)
        requires
            self.wf(),
        ensures
            r == self.can_step(),
    {
        match self.state {
            WorkerState::Advancing => {
                proof {
                    lemma_radix_pow_is_pow2(32);
                    lemma_radix_pow_is_pow2(16);
                    lemma_pow2_strictly_increases(1024, 2048);
                }
                let moved = self.candidate.increase_by_2();
                let top = moved.size();
                proof {
                    if top < 16 {
                        lemma_radix_pow_monotonic((top + 1) as nat, 16);
                    } else {
                        lemma_radix_pow_monotonic(16, top as nat);
                    }
                }
                top < 16
            },
            _ => true,
        }
    }

    /// Takes one step of the search.
    pub fn step(self, table: &[u64], entropy: &[u8]) -> (next: Worker)
        requires
            self.can_step(),
            forall|i: int| 0 <= i < table.len() ==> table[i] != 0,
            entropy.len() == self.entropy_len(),
        ensures
            self.steps_to(table@, entropy@, next),
            next.wf(),
    {
        match self.state {
            WorkerState::Initializing => {
                let mut candidate = BigInt::from_bytes(entropy);
                proof {
                    lemma_bytes_bound(entropy@);
                    if self.limbs < 16 {
                        lemma_pow2_strictly_increases((64 * self.limbs) as nat, 1024);
                    }
                }
                candidate.force_width(self.limbs);
                Worker { state: WorkerState::Filtering, candidate, ..self }
            },
            WorkerState::Filtering => {
                let state = if small_prime_filter(&self.candidate, table)
                    == PrimeResult::Composite {
                    WorkerState::Advancing
                } else {
                    WorkerState::Witnessing
                };
                Worker { state, ..self }
            },
            WorkerState::Witnessing => {
                proof {
                    lemma2_to64();
                    lemma2_to64_rest();
                    if self.limbs > 1 {
                        lemma_pow2_strictly_increases(63, (64 * self.limbs - 1) as nat);
                    }
                }
                let state = if miller_rabin_test(self.candidate, self.rounds, entropy)
                    == PrimeResult::ProbablePrime {
                    WorkerState::Emitting
                } else {
                    WorkerState::Advancing
                };
                Worker { state, ..self }
            },
            WorkerState::Advancing => {
                proof {
                    lemma_radix_pow_is_pow2(32);
                    lemma_pow2_strictly_increases(1024, 2048);
                }
                let candidate = self.candidate.increase_by_2();
                Worker { state: WorkerState::Filtering, candidate, ..self }
            },
            WorkerState::Emitting => self,
        }
    }
}

/// The 16-bit candidate that two drawn bytes give: their number with the
/// top and the bottom bit forced.
pub open spec fn candidate_u16(draw: Seq<u8>) -> u16 {
    (bytes_value(draw) as u16) | 0x8001
}

/// The 64-bit candidate that eight drawn bytes give: their number with
/// the top and the bottom bit forced.
pub open spec fn candidate_u64(draw: Seq<u8>) -> u64 {
    (bytes_value(draw) as u64) | 0x8000_0000_0000_0001
}

/// The 16-bit candidate that two drawn bytes give.
pub fn candidate_16bit(draw: [u8; 2]) -> (r: u16)
    ensures
        r == candidate_u16(draw@),
{
    crate::rng::u16(draw) | 0x8001
}

/// The 64-bit candidate that eight drawn bytes give.
pub fn candidate_64bit(draw: [u8; 8]) -> (r: u64)
    ensures
        r == candidate_u64(draw@),
        r % 2 == 1,
        r > 3,
{
    let raw = crate::rng::u64(draw);
    assert((raw | 0x8000_0000_0000_0001) % 2 == 1 && (raw | 0x8000_0000_0000_0001) > 3)
        by (bit_vector);
    raw | 0x8000_0000_0000_0001
}

/// One draw of the 16-bit search: the candidate where simple trial
/// division finds no divisor, else `None`, on which the caller draws again.
pub fn primes_16bit(draw: [u8; 2]) -> (r: Option<u16>)
    ensures
        r == (if simple_division_finds(candidate_u16(draw@) as nat) {
            None
        } else {
            Some(candidate_u16(draw@))
        }),
{
    let num = candidate_16bit(draw);
    if trial_division_simple(num) == PrimeResult::Prime {
        Some(num)
    } else {
        None
    }
}

/// With a table of the first primes whose length leaves 4 when divided by
/// six, so that the wheel behind it starts on a number that leaves 5, a
/// number that survives both the table and the wheel is prime.
pub proof fn lemma_survivor_is_prime(num: nat, table: Seq<u64>)
    requires
        num >= 2,
        is_prime_table(table),
        table.len() % 6 == 4,
        !table_divides(num, table),
        !wheel_finds(num, table.len() + 1),
    ensures
        is_prime(num),
{
    if !is_prime(num) {
        let q = lemma_small_prime_divisor(num);
        let start = table.len() + 1;
        lemma_table_entries_grow(table, table.len() - 1);
        if q <= table.last() {
            let i = choose|i: int| 0 <= i < table.len() && #[trigger] table[i] == q;
            assert(num % (table[i] as nat) == 0);
        } else {
            lemma_prime_mod_six(q);
            if q % 6 == 5 {
                let k = ((q - start) / 6) as nat;
                assert(wheel_at(start, k) == q);
            } else {
                let k = ((q - 2 - start) / 6) as nat;
                let x = wheel_at(start, k);
                assert(x + 2 == q);
                assert(x * x <= q * q) by (nonlinear_arith)
                    requires
                        0 <= x <= q,
                ;
            }
        }
    }
}

/// One draw of the 64-bit search: the candidate where neither a table
/// entry nor the wheel that starts just past the table's length divides
/// it, else `None`.
pub fn primes_64bit(draw: [u8; 8], table: &[u64]) -> (r: Option<u64>)
    requires
        forall|i: int| 0 <= i < table.len() ==> table[i] != 0,
    ensures
        r == ({
            let num = candidate_u64(draw@);
            if table_divides(num as nat, table@) || num % 3 == 0 || wheel_finds(
                num as nat,
                (table.len() + 1) as nat,
            ) {
                None
            } else {
                Some(num)
            }
        }),
        is_prime_table(table@) && table.len() % 6 == 4 && r is Some ==> is_prime(
            r.unwrap() as nat,
        ),
{
    let num = candidate_64bit(draw);
    proof {
        if is_prime_table(table@) && table.len() % 6 == 4 && !table_divides(num as nat, table@)
            && !wheel_finds(num as nat, (table.len() + 1) as nat) {
            lemma_survivor_is_prime(num as nat, table@);
        }
    }
    let mut i: usize = 0;
    while i < table.len()
        invariant
            i <= table.len(),
            num == candidate_u64(draw@),
            is_prime_table(table@) && table.len() % 6 == 4 && !table_divides(num as nat, table@)
                && !wheel_finds(num as nat, (table.len() + 1) as nat) ==> is_prime(num as nat),
            forall|j: int| 0 <= j < table.len() ==> table[j] != 0,
            forall|j: int| 0 <= j < i ==> num as nat % (#[trigger] table[j] as nat) != 0,
        decreases table.len() - i,
    {
        if num % table[i] == 0 {
            assert(num as nat % (table@[i as int] as nat) == 0);
            return None;
        }
        i += 1;
    }
    let start: u64 = (table.len() as u64).saturating_add(1);
    if table.len() as u64 == u64::MAX {
        // a wheel from beyond every 64-bit number finds nothing
        proof {
            assert forall|k: nat|
                {
                    let x = #[trigger] wheel_at((table.len() + 1) as nat, k);
                    !(x * x <= num)
                } by {
                let x = wheel_at((table.len() + 1) as nat, k);
                assert(x * x >= x) by (nonlinear_arith)
                    requires
                        x >= 1,
                ;
            }
        }
        return if num % 3 == 0 {
            None
        } else {
            Some(num)
        };
    }
    if trial_division(num, start) == PrimeResult::Prime {
        Some(num)
    } else {
        None
    }
}

/// One draw of the search among 64-bit candidates held in 128 bits: the
/// candidate where it passes one Miller-Rabin round on the first
/// witness, else `None`.
pub fn primes_128bit(draw: [u8; 8], witnesses: &[u128]) -> (r: Option<u128>)
    requires
        witnesses.len() >= 1,
    ensures
        r == (if mr_passes_all_u128(candidate_u64(draw@) as nat, 1, witnesses@) {
            Some(candidate_u64(draw@) as u128)
        } else {
            None
        }),
{
    let num = candidate_64bit(draw) as u128;
    if miller_rabin_test_u128(num, 1, witnesses) == PrimeResult::ProbablePrime {
        Some(num)
    } else {
        None
    }
}

/// The worker that searches for a 1024-bit probable prime with ten
/// Miller-Rabin rounds per candidate.
pub fn primes_1024bit() -> (w: Worker)
    ensures
        w.wf(),
        w.state == WorkerState::Initializing,
        w.limbs == 16,
        w.rounds == 10,
{
    Worker { state: WorkerState::Initializing, candidate: BigInt::zero(), limbs: 16, rounds: 10 }
}

} // verus!
