use vstd::prelude::*;

verus! {

/// Start value of the byte hash.
pub const HASH_SEED: u64 = 0xcbf2_9ce4_8422_2325;

/// Multiplier of the byte hash.
pub const HASH_PRIME: u64 = 0x0000_0100_0000_01b3;

/// Number of buckets of an empty set.
pub const INITIAL_BUCKETS: usize = 16;

/// Hash of a byte sequence: each byte is mixed in by xor, then a wrapping multiply.
pub open spec fn hash_of(b: Seq<u8>) -> u64
    decreases b.len(),
{
    if b.len() == 0 {
        HASH_SEED
    } else {
        vstd::wrapping::u64_specs::wrapping_mul(hash_of(b.drop_last()) ^ (b.last() as u64), HASH_PRIME)
    }
}

/// The bucket, among `n`, that holds the line `s`.
pub open spec fn slot(s: Seq<u8>, n: nat) -> int {
    hash_of(s) as int % n as int
}

/// The bucket `b` holds a copy of `s`.
pub open spec fn holds(b: Seq<Vec<u8>>, s: Seq<u8>) -> bool {
    exists|j: int| 0 <= j < b.len() && #[trigger] b[j]@ == s
}

proof fn lemma_holds_push(b: Seq<Vec<u8>>, x: Vec<u8>)
    ensures
        holds(b.push(x), x@),
        forall|s: Seq<u8>| holds(b, s) ==> #[trigger] holds(b.push(x), s),
{
    assert(b.push(x)[b.len() as int]@ == x@);
    assert forall|s: Seq<u8>| holds(b, s) implies #[trigger] holds(b.push(x), s) by {
        let j = choose|j: int| 0 <= j < b.len() && #[trigger] b[j]@ == s;
        assert(b.push(x)[j]@ == s);
    }
}

proof fn lemma_holds_pop(b: Seq<Vec<u8>>)
    requires
        b.len() > 0,
    ensures
        forall|s: Seq<u8>| #[trigger] holds(b, s) ==> holds(b.drop_last(), s) || b.last()@ == s,
        forall|j: int| 0 <= j < b.drop_last().len() ==> #[trigger] b.drop_last()[j] == b[j],
{
    assert forall|s: Seq<u8>| #[trigger] holds(b, s) implies holds(b.drop_last(), s) || b.last()@
        == s by {
        let j = choose|j: int| 0 <= j < b.len() && #[trigger] b[j]@ == s;
        if j < b.len() - 1 {
            assert(b.drop_last()[j]@ == s);
        }
    }
}

/// Adding a line to the bucket that its hash picks keeps buckets and contents matched.
proof fn lemma_match_push(
    before: Seq<Vec<Vec<u8>>>,
    after: Seq<Vec<Vec<u8>>>,
    contents: Set<Seq<u8>>,
    t: int,
    line: Vec<u8>,
)
    requires
        buckets_match(before, contents),
        before.len() > 0,
        t == slot(line@, before.len()),
        after.len() == before.len(),
        after[t]@ == before[t]@.push(line),
        forall|i: int| 0 <= i < before.len() && i != t ==> after[i] == before[i],
    ensures
        buckets_match(after, contents.insert(line@)),
{
    let c2 = contents.insert(line@);
    lemma_holds_push(before[t]@, line);
    assert forall|i: int, j: int|
        0 <= i < after.len() && 0 <= j < after[i]@.len() implies c2.contains(
        #[trigger] after[i]@[j]@,
    ) by {
        if i == t {
            if j < before[t]@.len() {
                assert(after[i]@[j] == before[i]@[j]);
                assert(contents.contains(before[i]@[j]@));
            }
        } else {
            assert(after[i] == before[i]);
            assert(contents.contains(before[i]@[j]@));
        }
    }
    assert forall|s: Seq<u8>| #[trigger] c2.contains(s) implies holds(after[slot(s, after.len())]@, s) by {
        if s != line@ {
            assert(contents.contains(s));
            let u = slot(s, before.len());
            assert(holds(before[u]@, s));
            if u != t {
                assert(after[u] == before[u]);
            }
        }
    }
}

/// Hash of a byte sequence, as `hash_of` states it.
pub fn hash_bytes(b: &[u8]) -> (h: u64)
    ensures
        h == hash_of(b@),
{
    let mut h: u64 = HASH_SEED;
    let mut i: usize = 0;
    while i < b.len()
        invariant
            i <= b.len(),
            h == hash_of(b@.subrange(0, i as int)),
        decreases b.len() - i,
    {
        proof {
            let p = b@.subrange(0, i as int + 1);
            assert(p.drop_last() == b@.subrange(0, i as int));
            assert(p.last() == b@[i as int]);
        }
        h = (h ^ (b[i] as u64)).wrapping_mul(HASH_PRIME);
        i = i + 1;
    }
    proof {
        assert(b@.subrange(0, b@.len() as int) == b@);
    }
    h
}

fn slot_of(line: &[u8], n: usize) -> (r: usize)
    requires
        n > 0,
    ensures
        r as int == slot(line@, n as nat),
        r < n,
{
    let h = hash_bytes(line);
    (h % (n as u64)) as usize
}

/// Byte-for-byte equality of two lines.
pub fn bytes_eq(a: &[u8], b: &[u8]) -> (r: bool)
    ensures
        r == (a@ == b@),
{
    if a.len() != b.len() {
        return false;
    }
    let mut i: usize = 0;
    while i < a.len()
        invariant
            i <= a.len(),
            a.len() == b.len(),
            forall|k: int| 0 <= k < i ==> a@[k] == b@[k],
        decreases a.len() - i,
    {
        if a[i] != b[i] {
            return false;
        }
        i = i + 1;
    }
    proof {
        assert(a@ =~= b@);
    }
    true
}

fn empty_buckets(n: usize) -> (r: Vec<Vec<Vec<u8>>>)
    ensures
        r.len() == n,
        forall|i: int| 0 <= i < n ==> (#[trigger] r@[i]).len() == 0,
{
    let mut r: Vec<Vec<Vec<u8>>> = Vec::new();
    let mut i: usize = 0;
    while i < n
        invariant
            i <= n,
            r.len() == i,
            forall|k: int| 0 <= k < i ==> (#[trigger] r@[k]).len() == 0,
        decreases n - i,
    {
        r.push(Vec::new());
        i = i + 1;
    }
    r
}

/// An exact set of lines: each line is kept whole, in the bucket that its hash picks.
pub struct SeenSet {
    buckets: Vec<Vec<Vec<u8>>>,
    len: usize,
    contents: Ghost<Set<Seq<u8>>>,
}

impl View for SeenSet {
    type V = Set<Seq<u8>>;

    closed spec fn view(&self) -> Set<Seq<u8>> {
        self.contents@
    }
}

/// Every line of `buckets` is in `contents`, and every member of `contents`
/// sits in the bucket that its hash picks.
pub closed spec fn buckets_match(buckets: Seq<Vec<Vec<u8>>>, contents: Set<Seq<u8>>) -> bool {
    &&& forall|i: int, j: int|
        0 <= i < buckets.len() && 0 <= j < buckets[i]@.len() ==> contents.contains(
            #[trigger] buckets[i]@[j]@,
        )
    &&& forall|s: Seq<u8>|
        #[trigger] contents.contains(s) ==> holds(buckets[slot(s, buckets.len())]@, s)
}

impl SeenSet {
    /// The set is well formed.
    pub closed spec fn wf(&self) -> bool {
        &&& self.buckets.len() > 0
        &&& self.contents@.finite()
        &&& self.len == self.contents@.len()
        &&& buckets_match(self.buckets@, self.contents@)
    }

    /// An empty set.
    pub fn new() -> (s: SeenSet)
        ensures
            s.wf(),
            s@ == Set::<Seq<u8>>::empty(),
    {
        let buckets = empty_buckets(INITIAL_BUCKETS);
        SeenSet { buckets, len: 0, contents: Ghost(Set::empty()) }
    }

    /// Number of lines in the set.
    pub fn len(&self) -> (n: usize)
        requires
            self.wf(),
        ensures
            n == self@.len(),
    {
        self.len
    }

    /// Whether a line equal to `line` is in the set.
    pub fn contains(&self, line: &[u8]) -> (r: bool)
        requires
            self.wf(),
        ensures
            r == self@.contains(line@),
    {
        let t = slot_of(line, self.buckets.len());
        let b = &self.buckets[t];
        let mut j: usize = 0;
        while j < b.len()
            invariant
                self.wf(),
                j <= b.len(),
                t < self.buckets.len(),
                *b == self.buckets@[t as int],
                forall|k: int| 0 <= k < j ==> b@[k]@ != line@,
            decreases b.len() - j,
        {
            if bytes_eq(b[j].as_slice(), line) {
                proof {
                    assert(self.contents@.contains(self.buckets@[t as int]@[j as int]@));
                }
                return true;
            }
            j = j + 1;
        }
        false
    }

    /// Adds `line`; returns whether it was not in the set before.
    pub fn insert(&mut self, line: Vec<u8>) -> (added: bool)
        requires
            old(self).wf(),
            old(self)@.len() < usize::MAX,
        ensures
            final(self).wf(),
            added == !old(self)@.contains(line@),
            final(self)@ == old(self)@.insert(line@),
    {
        if self.contains(line.as_slice()) {
            proof {
                assert(self@.insert(line@) =~= self@);
            }
            return false;
        }
        if self.len >= self.buckets.len() && self.buckets.len() <= usize::MAX / 2 {
            self.grow();
        }
        let ghost lv = line@;
        let ghost before = self.buckets@;
        let t = slot_of(line.as_slice(), self.buckets.len());
        self.buckets[t].push(line);
        proof {
            lemma_match_push(before, self.buckets@, self.contents@, t as int, line);
        }
        self.contents = Ghost(self.contents@.insert(lv));
        self.len = self.len + 1;
        true
    }

    /// Doubles the number of buckets and moves every line to its new bucket.
    fn grow(&mut self)
        requires
            old(self).wf(),
            old(self).buckets.len() <= usize::MAX / 2,
        ensures
            final(self).wf(),
            final(self)@ == old(self)@,
    {
        let n = self.buckets.len();
        let m = n * 2;
        let ghost contents = self.contents@;
        let mut fresh = empty_buckets(m);
        let mut rest: Vec<Vec<Vec<u8>>> = Vec::new();
        std::mem::swap(&mut rest, &mut self.buckets);
        let mut moved: Ghost<Set<Seq<u8>>> = Ghost(Set::empty());
        proof {
            assert forall|i: int, j: int|
                0 <= i < fresh@.len() && 0 <= j < fresh@[i]@.len() implies moved@.contains(
                #[trigger] fresh@[i]@[j]@,
            ) by {
                assert(fresh@[i].len() == 0);
            }
            assert(buckets_match(fresh@, moved@));
        }
        while rest.len() > 0
            invariant
                n > 0,
                m == 2 * n,
                fresh.len() == m,
                rest.len() <= n,
                forall|i: int, j: int|
                    0 <= i < rest@.len() && 0 <= j < rest@[i]@.len() ==> contents.contains(
                        #[trigger] rest@[i]@[j]@,
                    ),
                forall|s: Seq<u8>|
                    #[trigger] contents.contains(s) ==> moved@.contains(s) || (slot(s, n as nat)
                        < rest.len() && holds(rest@[slot(s, n as nat)]@, s)),
                moved@.subset_of(contents),
                buckets_match(fresh@, moved@),
            decreases rest.len(),
        {
            let ghost prev = rest@;
            let mut b = rest.pop().unwrap();
            let ghost k = rest.len() as int;
            proof {
                assert forall|s: Seq<u8>| #[trigger] contents.contains(s) implies moved@.contains(s)
                    || holds(b@, s) || (slot(s, n as nat) < k && holds(rest@[slot(s, n as nat)]@, s)) by {
                    if !moved@.contains(s) && slot(s, n as nat) < k {
                        assert(rest@[slot(s, n as nat)] == prev[slot(s, n as nat)]);
                    }
                }
                assert forall|i: int, j: int|
                    0 <= i < rest@.len() && 0 <= j < rest@[i]@.len() implies contents.contains(
                    #[trigger] rest@[i]@[j]@,
                ) by {
                    assert(rest@[i] == prev[i]);
                }
                assert forall|j: int| 0 <= j < b@.len() implies contents.contains(#[trigger] b@[j]@) by {
                    assert(b == prev[k]);
                    assert(contents.contains(prev[k]@[j]@));
                }
            }
            while b.len() > 0
                invariant
                    n > 0,
                    m == 2 * n,
                    fresh.len() == m,
                    rest.len() == k,
                    k < n,
                    forall|j: int| 0 <= j < b@.len() ==> contents.contains(#[trigger] b@[j]@),
                    forall|i: int, j: int|
                        0 <= i < rest@.len() && 0 <= j < rest@[i]@.len() ==> contents.contains(
                            #[trigger] rest@[i]@[j]@,
                        ),
                    forall|s: Seq<u8>|
                        #[trigger] contents.contains(s) ==> moved@.contains(s) || holds(b@, s) || (
                        slot(s, n as nat) < k && holds(rest@[slot(s, n as nat)]@, s)),
                    moved@.subset_of(contents),
                    buckets_match(fresh@, moved@),
                decreases b.len(),
            {
                let ghost bprev = b@;
                proof {
                    lemma_holds_pop(bprev);
                }
                let line = b.pop().unwrap();
                let ghost before = fresh@;
                let t = slot_of(line.as_slice(), m);
                proof {
                    assert(contents.contains(bprev[bprev.len() - 1]@));
                    assert forall|j: int| 0 <= j < b@.len() implies contents.contains(#[trigger] b@[j]@) by {
                        assert(b@[j] == bprev[j]);
                    }
                }
                fresh[t].push(line);
                proof {
                    lemma_match_push(before, fresh@, moved@, t as int, line);
                }
                moved = Ghost(moved@.insert(line@));
            }
        }
        proof {
            assert(moved@ =~= contents);
        }
        self.buckets = fresh;
    }
}

} // verus!
