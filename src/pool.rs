//! The shared, deduplicating block of values that an encode pass fills.
use vstd::prelude::*;

verus! {

/// `s` stands in `p` as the run that starts at index `i`.
pub open spec fn occurs_at(p: Seq<u32>, s: Seq<u32>, i: int) -> bool {
    0 <= i && i + s.len() <= p.len() && p.subrange(i, i + s.len()) == s
}

/// `i` is the first index at which `s` stands in `p`.
pub open spec fn is_first_match(p: Seq<u32>, s: Seq<u32>, i: int) -> bool {
    occurs_at(p, s, i) && forall|j: int| 0 <= j < i ==> !occurs_at(p, s, j)
}

/// The first index at which `s` stands in `p`, if it stands there at all.
pub open spec fn first_match(p: Seq<u32>, s: Seq<u32>) -> Option<int> {
    if exists|i: int| is_first_match(p, s, i) {
        Some(choose|i: int| is_first_match(p, s, i))
    } else {
        None
    }
}

/// Registering `s` in the pool `p`: the index of the run that holds it, and the
/// pool afterwards. An earlier equal run is reused; otherwise `s` is appended.
pub open spec fn register_spec(p: Seq<u32>, s: Seq<u32>) -> (int, Seq<u32>) {
    match first_match(p, s) {
        Some(i) => (i, p),
        None => (p.len() as int, p + s),
    }
}

proof fn lemma_first_match_unique(p: Seq<u32>, s: Seq<u32>, i: int, j: int)
    requires
        is_first_match(p, s, i),
        is_first_match(p, s, j),
    ensures
        i == j,
{
}

proof fn lemma_least_occurrence(p: Seq<u32>, s: Seq<u32>, k: int)
    requires
        occurs_at(p, s, k),
    ensures
        exists|i: int| is_first_match(p, s, i),
    decreases k,
{
    if exists|j: int| 0 <= j < k && occurs_at(p, s, j) {
        let j = choose|j: int| 0 <= j < k && occurs_at(p, s, j);
        lemma_least_occurrence(p, s, j);
    } else {
        assert(is_first_match(p, s, k));
    }
}

/// What `first_match` says: the first run equal to `s`, or that there is none.
pub proof fn lemma_first_match(p: Seq<u32>, s: Seq<u32>)
    ensures
        match first_match(p, s) {
            Some(i) => is_first_match(p, s, i),
            None => forall|i: int| !occurs_at(p, s, i),
        },
{
    if exists|i: int| occurs_at(p, s, i) {
        let k = choose|i: int| occurs_at(p, s, i);
        lemma_least_occurrence(p, s, k);
    }
}

/// Registering never moves what the pool held: the old pool is a prefix of the
/// new one, and the run at the returned index is `s`.
pub proof fn lemma_register(p: Seq<u32>, s: Seq<u32>)
    ensures
        register_spec(p, s).1.subrange(0, p.len() as int) == p,
        p.len() <= register_spec(p, s).1.len(),
        occurs_at(register_spec(p, s).1, s, register_spec(p, s).0),
        register_spec(p, s).1.len() <= p.len() + s.len(),
{
    lemma_first_match(p, s);
    match first_match(p, s) {
        Some(i) => {
            assert(p.subrange(0, p.len() as int) =~= p);
        },
        None => {
            assert((p + s).subrange(0, p.len() as int) =~= p);
            assert((p + s).subrange(p.len() as int, (p.len() + s.len()) as int) =~= s);
        },
    }
}

/// Whether the run of `p` at `i` equals `s`.
fn matches_at(p: &Vec<u32>, s: &[u32], i: usize) -> (r: bool)
    requires
        i + s@.len() <= p@.len(),
    ensures
        r == occurs_at(p@, s@, i as int),
{
    let n = p.len();
    let mut k: usize = 0;
    while k < s.len()
        invariant
            n == p@.len(),
            i + s@.len() <= p@.len(),
            k <= s@.len(),
            forall|t: int| 0 <= t < k ==> p@[i + t] == s@[t],
        decreases s@.len() - k,
    {
        if p[i + k] != s[k] {
            assert(p@.subrange(i as int, i + s@.len())[k as int] != s@[k as int]);
            return false;
        }
        k = k + 1;
    }
    assert(p@.subrange(i as int, i + s@.len()) =~= s@);
    true
}

/// A growable block of 32-bit values, shared by the tracks of one encode pass.
pub struct FramePool {
    values: Vec<u32>,
}

impl View for FramePool {
    type V = Seq<u32>;

    closed spec fn view(&self) -> Seq<u32> {
        self.values@
    }
}

impl FramePool {
    /// An empty pool.
    pub fn new() -> (r: FramePool)
        ensures
            r@ == Seq::<u32>::empty(),
    {
        FramePool { values: Vec::new() }
    }

    /// The number of values held.
    pub fn len(&self) -> (r: usize)
        ensures
            r == self@.len(),
    {
        self.values.len()
    }

    /// The values held, in order.
    pub fn values(&self) -> (r: &Vec<u32>)
        ensures
            r@ == self@,
    {
        &self.values
    }

    /// Registers `s` and returns the index of the run that holds it: the first
    /// run of the pool equal to `s`, or else the old end of the pool, where
    /// `s` is appended. The empty run matches at index 0.
    pub fn register(&mut self, s: &[u32]) -> (r: usize)
        requires
            old(self)@.len() + s@.len() <= usize::MAX,
        ensures
            (r as int, final(self)@) == register_spec(old(self)@, s@),
            is_first_match(final(self)@, s@, r as int) || (r == old(self)@.len() && final(self)@
                == old(self)@ + s@ && forall|j: int| !occurs_at(old(self)@, s@, j)),
            forall|j: int| 0 <= j < r ==> !occurs_at(old(self)@, s@, j),
    {
        let n = self.values.len();
        let m = s.len();
        if m == 0 {
            proof {
                assert(self@.subrange(0, 0) =~= s@);
                assert(is_first_match(self@, s@, 0));
                lemma_first_match(self@, s@);
                lemma_first_match_unique(self@, s@, 0, first_match(self@, s@)->0);
            }
            return 0;
        }
        if m <= n {
            let mut i: usize = 0;
            while i <= n - m
                invariant
                    n == self.values@.len(),
                    m == s@.len(),
                    0 < m <= n,
                    i <= n - m + 1,
                    forall|j: int| 0 <= j < i ==> !occurs_at(self.values@, s@, j),
                decreases n - m + 1 - i,
            {
                if matches_at(&self.values, s, i) {
                    proof {
                        assert(is_first_match(self@, s@, i as int));
                        lemma_first_match(self@, s@);
                        lemma_first_match_unique(self@, s@, i as int, first_match(self@, s@)->0);
                    }
                    return i;
                }
                i = i + 1;
            }
        }
        proof {
            lemma_first_match(self@, s@);
        }
        let mut k: usize = 0;
        while k < m
            invariant
                m == s@.len(),
                n + m <= usize::MAX,
                self.values@ == old(self)@ + s@.subrange(0, k as int),
                k <= m,
                n == old(self)@.len(),
            decreases m - k,
        {
            self.values.push(s[k]);
            k = k + 1;
            assert(self.values@ =~= old(self)@ + s@.subrange(0, k as int));
        }
        assert(s@.subrange(0, m as int) =~= s@);
        n
    }
}

} // verus!
