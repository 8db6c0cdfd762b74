use vstd::prelude::*;
use crate::message::opt_slice;
use crate::clock::{clock_seed, seed_spec};

verus! {

/// Partition selection strategy trait defining how messages are routed to partitions.
pub trait Partitioner: Sized {
    /// Whether this partitioner keeps to [`chosen`](Partitioner::chosen) and
    /// [`advanced`](Partitioner::advanced). The partitioners of this library do; a
    /// partitioner implemented elsewhere is taken not to, and its choices are left
    /// unspecified.
    closed spec fn obeys_choice_spec() -> bool {
        false
    }

    /// The partition this partitioner, in its present state, chooses for a message of
    /// `topic` with key `key` among `num_partitions` partitions (where it keeps to this
    /// description at all).
    closed spec fn chosen(&self, topic: Seq<char>, key: Option<Seq<u8>>, num_partitions: i32) -> i32 {
        arbitrary()
    }

    /// The state this partitioner is in after making that choice (where it keeps to this
    /// description at all).
    closed spec fn advanced(&self, topic: Seq<char>, key: Option<Seq<u8>>, num_partitions: i32) -> Self {
        arbitrary()
    }

    /// Select a target partition based on topic, message key, and total partition count.
    /// A partitioner that keeps to its description returns the partition that
    /// [`chosen`](Partitioner::chosen) names and is left in the state that
    /// [`advanced`](Partitioner::advanced) names. Nothing else is demanded: a choice out
    /// of range is refused when the message is produced.
    fn partition(&mut self, topic: &str, key: Option<&[u8]>, num_partitions: i32) -> (r: i32)
        ensures
            Self::obeys_choice_spec() ==> r == old(self).chosen(topic@, opt_slice(key), num_partitions),
            Self::obeys_choice_spec() ==> *final(self) == old(self).advanced(topic@, opt_slice(key), num_partitions),
    ;
}

/// One step of the FNV-1a 32-bit hash: xor in the byte, then multiply by the FNV prime
/// modulo 2^32.
pub open spec fn fnv1a_step(hash: u32, byte: u8) -> u32 {
    ((hash ^ (byte as u32)) as u32).wrapping_mul(16777619)
}

/// The FNV-1a 32-bit hash of `data`, starting from the FNV offset basis.
pub open spec fn fnv1a_spec(data: Seq<u8>) -> u32
    decreases data.len(),
{
    if data.len() == 0 {
        2166136261
    } else {
        fnv1a_step(fnv1a_spec(data.drop_last()), data.last())
    }
}

/// FNV-1a 32-bit hash — fast, simple, good distribution.
pub fn fnv1a_32(data: &[u8]) -> (r: u32)
    ensures
        r == fnv1a_spec(data@),
{
    let mut hash: u32 = 2166136261;
    let mut i: usize = 0;
    while i < data.len()
        invariant
            0 <= i <= data@.len(),
            hash == fnv1a_spec(data@.take(i as int)),
        decreases data@.len() - i,
    {
        proof {
            assert(data@.take(i + 1).drop_last() =~= data@.take(i as int));
        }
        hash = (hash ^ (data[i] as u32)).wrapping_mul(16777619);
        i += 1;
    }
    proof {
        assert(data@.take(i as int) =~= data@);
    }
    hash
}

/// The remainder of a negative number, from the remainder of its negation.
proof fn lemma_neg_mod(p: int, m: int)
    requires
        p < 0,
        m > 0,
    ensures
        p % m == (if (-p) % m == 0 { 0 } else { m - (-p) % m }),
{
    let q = (-p) % m;
    let k = (-p) / m;
    vstd::arithmetic::div_mod::lemma_fundamental_div_mod(-p, m);
    assert(-p == m * k + q);
    assert(0 <= q < m);
    if q == 0 {
        assert(p == (-k) * m) by (nonlinear_arith)
            requires
                -p == m * k,
        ;
        vstd::arithmetic::div_mod::lemma_mod_multiples_basic(-k, m);
    } else {
        assert(p == (-k - 1) * m + (m - q)) by (nonlinear_arith)
            requires
                -p == m * k + q,
        ;
        vstd::arithmetic::div_mod::lemma_mod_multiples_vanish(-k - 1, m - q, m);
        vstd::arithmetic::div_mod::lemma_small_mod((m - q) as nat, m as nat);
    }
}

/// The Euclidean remainder of `prev` by `n`, the way the partitioners fold a counter
/// into `[0, n)`.
fn euclid_mod(prev: i32, n: i32) -> (r: i32)
    requires
        n > 0,
    ensures
        r == prev % n,
        0 <= r < n,
{
    let p: i64 = prev as i64;
    let m: i64 = n as i64;
    if p >= 0 {
        (p % m) as i32
    } else {
        let q: i64 = (-p) % m;
        proof {
            lemma_neg_mod(p as int, m as int);
        }
        if q == 0 { 0 } else { (m - q) as i32 }
    }
}

/// Round-robin partitioner that cycles through partitions sequentially.
#[derive(Debug)]
pub struct RoundRobinPartitioner {
    counter: i32,
}

impl View for RoundRobinPartitioner {
    type V = i32;

    /// The number of choices made so far (wrapping).
    closed spec fn view(&self) -> i32 {
        self.counter
    }
}

impl RoundRobinPartitioner {
    /// Create a new round-robin partitioner.
    pub fn new() -> (r: Self)
        ensures
            r@ == 0,
    {
        Self { counter: 0 }
    }
}

impl Default for RoundRobinPartitioner {
    fn default() -> (r: Self)
        ensures
            r@ == 0,
    {
        Self::new()
    }
}

impl Partitioner for RoundRobinPartitioner {
    open spec fn obeys_choice_spec() -> bool {
        true
    }

    /// With at least one partition, the counter modulo the partition count; otherwise `0`.
    open spec fn chosen(&self, topic: Seq<char>, key: Option<Seq<u8>>, num_partitions: i32) -> i32 {
        if num_partitions <= 0 { 0 } else { (self@ % num_partitions) as i32 }
    }

    /// With at least one partition, the counter advanced by one (wrapping).
    closed spec fn advanced(&self, topic: Seq<char>, key: Option<Seq<u8>>, num_partitions: i32) -> Self {
        if num_partitions <= 0 { *self } else { RoundRobinPartitioner { counter: self.counter.wrapping_add(1) } }
    }

    /// With at least one partition, returns the counter modulo the partition count and
    /// advances the counter (wrapping); otherwise returns `0` and leaves the counter alone.
    fn partition(&mut self, _topic: &str, _key: Option<&[u8]>, num_partitions: i32) -> (r: i32)
        ensures
            num_partitions <= 0 ==> r == 0 && final(self)@ == old(self)@,
            num_partitions > 0 ==> r == old(self)@ % num_partitions && final(self)@ == old(self)@.wrapping_add(1),
    {
        if num_partitions <= 0 {
            return 0;
        }
        let prev = self.counter;
        self.counter = prev.wrapping_add(1);
        euclid_mod(prev, num_partitions)
    }
}

impl RoundRobinPartitioner {
    /// The state after a choice: the counter advanced by one (wrapping) when there is a
    /// partition to choose, unchanged otherwise.
    pub proof fn lemma_advanced(&self, topic: Seq<char>, key: Option<Seq<u8>>, num_partitions: i32)
        ensures
            self.advanced(topic, key, num_partitions)@
                == if num_partitions <= 0 { self@ } else { self@.wrapping_add(1) },
    {
    }
}

/// Consistent hash partitioner using FNV-1a hashing to ensure the same key always maps to the same partition.
/// Falls back to round-robin when the message key is `None`.
#[derive(Debug)]
pub struct ConsistentPartitioner {
    fallback: RoundRobinPartitioner,
}

impl View for ConsistentPartitioner {
    type V = i32;

    /// The state of the round-robin fallback used for messages without a key.
    closed spec fn view(&self) -> i32 {
        self.fallback@
    }
}

impl ConsistentPartitioner {
    /// Create a new consistent hash partitioner.
    pub fn new() -> (r: Self)
        ensures
            r@ == 0,
    {
        Self { fallback: RoundRobinPartitioner::new() }
    }
}

impl Default for ConsistentPartitioner {
    fn default() -> (r: Self)
        ensures
            r@ == 0,
    {
        Self::new()
    }
}

impl Partitioner for ConsistentPartitioner {
    open spec fn obeys_choice_spec() -> bool {
        true
    }

    /// With at least one partition, the key's FNV-1a hash modulo the partition count, or
    /// for a message without a key the fallback counter modulo the partition count;
    /// otherwise `0`.
    open spec fn chosen(&self, topic: Seq<char>, key: Option<Seq<u8>>, num_partitions: i32) -> i32 {
        if num_partitions <= 0 {
            0
        } else {
            match key {
                Some(k) => (fnv1a_spec(k) % (num_partitions as u32)) as i32,
                None => (self@ % num_partitions) as i32,
            }
        }
    }

    /// With at least one partition and no key, the fallback counter advanced by one
    /// (wrapping); otherwise unchanged.
    closed spec fn advanced(&self, topic: Seq<char>, key: Option<Seq<u8>>, num_partitions: i32) -> Self {
        if num_partitions > 0 && key is None {
            ConsistentPartitioner { fallback: RoundRobinPartitioner { counter: self.fallback.counter.wrapping_add(1) } }
        } else {
            *self
        }
    }

    /// A keyed message goes to the key's FNV-1a hash modulo the partition count; a message
    /// without a key goes where the round-robin fallback sends it.
    fn partition(&mut self, topic: &str, key: Option<&[u8]>, num_partitions: i32) -> (r: i32)
        ensures
            num_partitions <= 0 ==> r == 0 && final(self)@ == old(self)@,
            num_partitions > 0 ==> match key {
                Some(k) => r == (fnv1a_spec(k@) % (num_partitions as u32)) as i32 && final(self)@ == old(self)@,
                None => r == old(self)@ % num_partitions && final(self)@ == old(self)@.wrapping_add(1),
            },
    {
        if num_partitions <= 0 {
            return 0;
        }
        match key {
            Some(k) => {
                let hash = fnv1a_32(k);
                (hash % (num_partitions as u32)) as i32
            },
            None => self.fallback.partition(topic, None, num_partitions),
        }
    }
}

impl ConsistentPartitioner {
    /// The state after a choice: the fallback counter advanced by one (wrapping) for a
    /// message without a key when there is a partition to choose, unchanged otherwise.
    pub proof fn lemma_advanced(&self, topic: Seq<char>, key: Option<Seq<u8>>, num_partitions: i32)
        ensures
            self.advanced(topic, key, num_partitions)@
                == if num_partitions > 0 && key is None { self@.wrapping_add(1) } else { self@ },
    {
    }
}

/// Pseudo-random partition selector: a linear congruential generator whose state is
/// seeded from the clock.
#[derive(Debug)]
pub struct RandomPartitioner {
    state: i32,
}

impl View for RandomPartitioner {
    type V = i32;

    /// The generator state.
    closed spec fn view(&self) -> i32 {
        self.state
    }
}

/// One step of the generator: `state * 1103515245 + 12345`, wrapping.
pub open spec fn lcg_step(state: i32) -> i32 {
    state.wrapping_mul(1103515245).wrapping_add(12345)
}

/// The absolute value of `x` in 32-bit two's complement, which wraps: the absolute value
/// of `i32::MIN` is `i32::MIN` itself.
pub open spec fn wrapped_abs(x: i32) -> int {
    if x == i32::MIN { x as int } else if x < 0 { -x } else { x as int }
}

impl RandomPartitioner {
    /// Create a new random partitioner seeded from the current time: the state is
    /// `seed_spec(0, nanos)` for the clock's reading `nanos` (never `0`).
    pub fn new() -> (r: Self)
        ensures
            exists|nanos: Option<u128>| r@ == #[trigger] seed_spec(0, nanos),
            r@ != 0,
    {
        let seed = clock_seed(0);
        Self { state: seed }
    }
}

impl Default for RandomPartitioner {
    fn default() -> (r: Self)
        ensures
            r@ != 0,
    {
        Self::new()
    }
}

impl RandomPartitioner {
    /// The state after a choice: one generator step when there is a partition to choose,
    /// unchanged otherwise.
    pub proof fn lemma_advanced(&self, topic: Seq<char>, key: Option<Seq<u8>>, num_partitions: i32)
        ensures
            self.advanced(topic, key, num_partitions)@
                == if num_partitions <= 0 { self@ } else { lcg_step(self@) },
    {
    }
}

impl Partitioner for RandomPartitioner {
    open spec fn obeys_choice_spec() -> bool {
        true
    }

    /// With at least one partition, the (wrapping) absolute value of the state modulo the
    /// partition count; otherwise `0`.
    open spec fn chosen(&self, topic: Seq<char>, key: Option<Seq<u8>>, num_partitions: i32) -> i32 {
        if num_partitions <= 0 { 0 } else { (wrapped_abs(self@) % (num_partitions as int)) as i32 }
    }

    /// With at least one partition, the generator advanced by one step.
    closed spec fn advanced(&self, topic: Seq<char>, key: Option<Seq<u8>>, num_partitions: i32) -> Self {
        if num_partitions <= 0 { *self } else { RandomPartitioner { state: lcg_step(self.state) } }
    }

    /// With at least one partition, returns the (wrapping) absolute value of the current
    /// state, reduced to a non-negative remainder modulo the partition count, and advances
    /// the generator; otherwise returns `0`.
    fn partition(&mut self, _topic: &str, _key: Option<&[u8]>, num_partitions: i32) -> (r: i32)
        ensures
            num_partitions <= 0 ==> r == 0 && final(self)@ == old(self)@,
            num_partitions > 0 ==> r == wrapped_abs(old(self)@) % (num_partitions as int)
                && final(self)@ == lcg_step(old(self)@),
    {
        if num_partitions <= 0 {
            return 0;
        }
        let prev = self.state;
        self.state = prev.wrapping_mul(1103515245).wrapping_add(12345);
        let a: i32 = if prev == i32::MIN { prev } else if prev < 0 { -prev } else { prev };
        euclid_mod(a, num_partitions)
    }
}

/// Every choice of a random partitioner among at least one partition steps its state by
/// the linear congruential generator `state * 1103515245 + 12345` (wrapping in 32 bits),
/// and the step never leaves the state where it was: the multiplier less one is even and
/// the increment odd, so `state` and its successor always differ. The choice itself is
/// the (wrapping) absolute value of the state before the step, modulo the partition
/// count, so two successive choices are taken from two different states.
pub proof fn law_random_state_steps(p: RandomPartitioner, topic: Seq<char>, key: Option<Seq<u8>>, n: i32)
    requires
        n > 0,
    ensures
        p.advanced(topic, key, n)@ == p@.wrapping_mul(1103515245i32).wrapping_add(12345i32),
        p.advanced(topic, key, n)@ != p@,
        p.chosen(topic, key, n) == wrapped_abs(p@) % (n as int),
        p.advanced(topic, key, n).chosen(topic, key, n)
            == wrapped_abs(p@.wrapping_mul(1103515245i32).wrapping_add(12345i32)) % (n as int),
{
    p.lemma_advanced(topic, key, n);
    let x = p@;
    assert(x.wrapping_mul(1103515245i32).wrapping_add(12345i32) != x) by (bit_vector);
    assert(0 <= wrapped_abs(p@) % (n as int) < n);
    let q = p.advanced(topic, key, n);
    assert(0 <= wrapped_abs(q@) % (n as int) < n);
}

} // verus!
