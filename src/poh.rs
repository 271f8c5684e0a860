use vstd::prelude::*;

verus! {

/// Sum of the first `i` bytes of `d`, as an unbounded integer.
pub open spec fn prefix_sum(d: Seq<u8>, i: int) -> nat
    decreases i,
{
    if i <= 0 {
        0
    } else {
        prefix_sum(d, i - 1) + d[i - 1] as nat
    }
}

/// The rolling-sum transform: byte `i` of the output is the sum of input
/// bytes `0..=i`, modulo 256. The output has the length of the input.
pub open spec fn seq_hash(d: Seq<u8>) -> Seq<u8> {
    Seq::new(d.len(), |i: int| (prefix_sum(d, i + 1) % 256) as u8)
}

/// Deterministic, order-dependent digest of `input` (a running sum with
/// wraparound, emitted byte by byte). Not cryptographically secure.
pub fn sequential_hash(input: &[u8]) -> (r: Vec<u8>)
    ensures
        r@ == seq_hash(input@),
{
    let mut output: Vec<u8> = Vec::with_capacity(input.len());
    let mut state: u8 = 0;
    let mut i: usize = 0;
    while i < input.len()
        invariant
            i <= input@.len(),
            state as nat == prefix_sum(input@, i as int) % 256,
            output@ =~= seq_hash(input@).subrange(0, i as int),
        decreases input@.len() - i,
    {
        state = state.wrapping_add(input[i]);
        output.push(state);
        i = i + 1;
    }
    output
}


/// Two running sums that agree modulo 256 and stay in agreement after one more
/// byte each were extended by the same byte.
proof fn lemma_step_byte(x: nat, y: nat, a: u8, b: u8)
    requires
        x % 256 == y % 256,
        (x + a) % 256 == (y + b) % 256,
    ensures
        a == b,
{
}

/// The digest determines the data: the rolling sum is injective.
pub proof fn lemma_seq_hash_injective(a: Seq<u8>, b: Seq<u8>)
    requires
        seq_hash(a) == seq_hash(b),
    ensures
        a == b,
{
    assert(a.len() == seq_hash(a).len());
    assert forall|i: int| 0 <= i < a.len() implies a[i] == b[i] by {
        if i > 0 {
            assert(seq_hash(a)[i - 1] == seq_hash(b)[i - 1]);
            assert(seq_hash(a)[i - 1] == prefix_sum(a, i) % 256);
            assert(seq_hash(b)[i - 1] == prefix_sum(b, i) % 256);
        } else {
            assert(prefix_sum(a, i) == 0 && prefix_sum(b, i) == 0);
        }
        assert(seq_hash(a)[i] == prefix_sum(a, i + 1) % 256);
        assert(seq_hash(b)[i] == prefix_sum(b, i + 1) % 256);
        assert(seq_hash(a)[i] == seq_hash(b)[i]);
        lemma_step_byte(prefix_sum(a, i), prefix_sum(b, i), a[i], b[i]);
    }
    assert(a =~= b);
}

/// Determinism of the digest: equal data give equal digests, of the data's
/// length.
pub proof fn lemma_seq_hash_deterministic(a: Seq<u8>, b: Seq<u8>)
    requires
        a == b,
    ensures
        seq_hash(a) == seq_hash(b),
        seq_hash(a).len() == a.len(),
{
}

/// Round trip: after data is recorded with some timestamp, verifying the data
/// against its digest and that timestamp succeeds.
pub proof fn lemma_record_then_verify(m: Map<Seq<u8>, u128>, d: Seq<u8>, t: u128)
    ensures
        verifies(m.insert(seq_hash(d), t), d, seq_hash(d), t),
{
}

/// Tampering is detected: where `(d, h, t)` verifies, changing any one of the
/// data, the digest or the timestamp while keeping the other two makes it
/// fail.
pub proof fn lemma_verify_rejects_tampering(
    m: Map<Seq<u8>, u128>,
    d: Seq<u8>,
    h: Seq<u8>,
    t: u128,
    d2: Seq<u8>,
    h2: Seq<u8>,
    t2: u128,
)
    requires
        verifies(m, d, h, t),
    ensures
        d2 != d ==> !verifies(m, d2, h, t),
        h2 != h ==> !verifies(m, d, h2, t),
        t2 != t ==> !verifies(m, d, h, t2),
{
    if verifies(m, d2, h, t) {
        lemma_seq_hash_injective(d, d2);
    }
}

/// Copies the bytes of `b` into a fresh vector.
fn copy_bytes(b: &[u8]) -> (r: Vec<u8>)
    ensures
        r@ == b@,
{
    let mut out: Vec<u8> = Vec::with_capacity(b.len());
    let mut i: usize = 0;
    while i < b.len()
        invariant
            i <= b@.len(),
            out@ =~= b@.subrange(0, i as int),
        decreases b@.len() - i,
    {
        out.push(b[i]);
        i = i + 1;
    }
    out
}

/// Byte-wise equality of two slices.
fn bytes_eq(a: &[u8], b: &[u8]) -> (r: bool)
    ensures
        r == (a@ == b@),
{
    if a.len() != b.len() {
        return false;
    }
    let mut i: usize = 0;
    while i < a.len()
        invariant
            a@.len() == b@.len(),
            i <= a@.len(),
            forall|j: int| 0 <= j < i ==> a@[j] == b@[j],
        decreases a@.len() - i,
    {
        if a[i] != b[i] {
            return false;
        }
        i = i + 1;
    }
    assert(a@ =~= b@);
    true
}

#[verifier::external_type_specification]
#[verifier::external_body]
pub struct ExSystemTime(std::time::SystemTime);

/// Relies on `std::time::SystemTime::now`: reads the wall clock. Nothing is
/// promised of the value read.
pub assume_specification[ std::time::SystemTime::now ]() -> std::time::SystemTime;

/// Relies on `std::time::Duration::as_micros`: the whole microseconds in a
/// duration. Nothing is stated of the value.
pub assume_specification[ core::time::Duration::as_micros ](d: &core::time::Duration) -> u128;

/// Relies on `std::time::SystemTime::duration_since` with `UNIX_EPOCH` as the
/// earlier time: the time elapsed since the epoch, or `None` where the clock
/// reads before it.
#[verifier::external_body]
fn since_unix_epoch(t: &std::time::SystemTime) -> (r: Option<core::time::Duration>) {
    t.duration_since(std::time::UNIX_EPOCH).ok()
}

/// One ledger entry: the digest of some data and the logical time (in
/// microseconds) at which it was appended.
#[derive(Debug, PartialEq, Eq, Clone)]
pub struct PoHRecord {
    pub hash: Vec<u8>,
    pub timestamp: u128,
}

/// `verify` accepts `(d, h, t)` against the ledger contents `m` exactly when
/// `h` is the digest of `d` and `m` holds `t` under `h`.
pub open spec fn verifies(m: Map<Seq<u8>, u128>, d: Seq<u8>, h: Seq<u8>, t: u128) -> bool {
    &&& seq_hash(d) == h
    &&& m.contains_key(h)
    &&& m[h] == t
}

/// An append-only ledger of `(digest, timestamp)` entries keyed by digest.
/// Its view maps each recorded digest to its timestamp.
pub struct ProofOfHistory {
    records: Vec<PoHRecord>,
    entries: Ghost<Map<Seq<u8>, u128>>,
}

impl View for ProofOfHistory {
    type V = Map<Seq<u8>, u128>;

    closed spec fn view(&self) -> Map<Seq<u8>, u128> {
        self.entries@
    }
}

impl ProofOfHistory {
    /// The stored entries have pairwise distinct digests and are exactly the
    /// entries of the view.
    pub closed spec fn wf(&self) -> bool {
        &&& forall|i: int, j: int|
            0 <= i < j < self.records@.len() ==> self.records@[i].hash@ != self.records@[j].hash@
        &&& forall|i: int|
            #![trigger self.records@[i]]
            0 <= i < self.records@.len() ==> {
                &&& self.entries@.contains_key(self.records@[i].hash@)
                &&& self.entries@[self.records@[i].hash@] == self.records@[i].timestamp
            }
        &&& forall|k: Seq<u8>|
            #[trigger] self.entries@.contains_key(k) ==> exists|i: int|
                0 <= i < self.records@.len() && self.records@[i].hash@ == k
    }

    /// An empty ledger.
    pub fn new() -> (r: Self)
        ensures
            r.wf(),
            r@ == Map::<Seq<u8>, u128>::empty(),
    {
        ProofOfHistory { records: Vec::new(), entries: Ghost(Map::empty()) }
    }

    /// Position of the entry stored under `hash`, if any.
    fn find(&self, hash: &[u8]) -> (r: Option<usize>)
        requires
            self.wf(),
        ensures
            match r {
                Some(i) => i < self.records@.len() && self.records@[i as int].hash@ == hash@,
                None => !self@.contains_key(hash@),
            },
    {
        let mut i: usize = 0;
        while i < self.records.len()
            invariant
                self.wf(),
                i <= self.records@.len(),
                forall|j: int| 0 <= j < i ==> self.records@[j].hash@ != hash@,
            decreases self.records@.len() - i,
        {
            if bytes_eq(self.records[i].hash.as_slice(), hash) {
                return Some(i);
            }
            i = i + 1;
        }
        None
    }

    /// Appends the digest of `data` with the given timestamp and returns the
    /// digest. An entry already stored under that digest gets the new
    /// timestamp.
    pub fn record_at(&mut self, data: &[u8], timestamp: u128) -> (r: Vec<u8>)
        requires
            old(self).wf(),
        ensures
            final(self).wf(),
            r@ == seq_hash(data@),
            final(self)@ == old(self)@.insert(r@, timestamp),
    {
        let hash = sequential_hash(data);
        let stored = copy_bytes(hash.as_slice());
        let ghost prev = self.records@;
        let ghost slot: int;
        match self.find(hash.as_slice()) {
            Some(i) => {
                self.records.set(i, PoHRecord { hash: stored, timestamp });
                proof {
                    slot = i as int;
                }
            },
            None => {
                self.records.push(PoHRecord { hash: stored, timestamp });
                proof {
                    slot = prev.len() as int;
                }
            },
        }
        let ghost prev_entries = self.entries@;
        self.entries = Ghost(self.entries@.insert(hash@, timestamp));
        proof {
            assert(self.records@[slot].hash@ == hash@);
            assert forall|j: int| 0 <= j < prev.len() && j != slot implies self.records@[j]
                == prev[j] && prev[j].hash@ != hash@ by {}
            assert forall|k: Seq<u8>| #[trigger] self.entries@.contains_key(k) implies exists|j: int|
                0 <= j < self.records@.len() && self.records@[j].hash@ == k by {
                if k != hash@ {
                    let j = choose|j: int| 0 <= j < prev.len() && prev[j].hash@ == k;
                    assert(self.records@[j] == prev[j]);
                }
            }
        }
        hash
    }

    /// Appends the digest of `data`, stamped with the current wall-clock time
    /// in microseconds since the Unix epoch (0 where the clock reads before
    /// the epoch), and returns the digest.
    pub fn record(&mut self, data: &[u8]) -> (r: Vec<u8>)
        requires
            old(self).wf(),
        ensures
            final(self).wf(),
            r@ == seq_hash(data@),
            final(self)@.contains_key(r@),
            final(self)@ == old(self)@.insert(r@, final(self)@[r@]),
    {
        let now = std::time::SystemTime::now();
        let timestamp: u128 = match since_unix_epoch(&now) {
            Some(d) => d.as_micros(),
            None => 0,
        };
        self.record_at(data, timestamp)
    }

    /// True exactly when `hash` is the digest of `data` and the ledger holds
    /// `timestamp` under `hash`.
    pub fn verify(&self, data: &[u8], hash: &[u8], timestamp: u128) -> (r: bool)
        requires
            self.wf(),
        ensures
            r == verifies(self@, data@, hash@, timestamp),
    {
        let expected = sequential_hash(data);
        match self.find(hash) {
            Some(i) => bytes_eq(expected.as_slice(), hash) && self.records[i].timestamp == timestamp,
            None => false,
        }
    }

    /// The entry stored under `hash`, if any.
    pub fn get_entry(&self, hash: &[u8]) -> (r: Option<PoHRecord>)
        requires
            self.wf(),
        ensures
            match r {
                Some(e) => self@.contains_key(hash@) && e.hash@ == hash@ && e.timestamp
                    == self@[hash@],
                None => !self@.contains_key(hash@),
            },
    {
        match self.find(hash) {
            Some(i) => Some(PoHRecord { hash: copy_bytes(hash), timestamp: self.records[i].timestamp }),
            None => None,
        }
    }
}

} // verus!
