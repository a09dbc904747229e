use vstd::prelude::*;

verus! {

/// Sum of a sequence of counts.
pub open spec fn sum(s: Seq<u64>) -> int
    decreases s.len(),
{
    if s.len() == 0 {
        0
    } else {
        sum(s.drop_last()) + s.last()
    }
}

/// Every arm of a non-empty arm set has been pulled at least once.
pub open spec fn every_arm_played(s: Seq<u64>) -> bool {
    s.len() > 0 && forall|i: int| 0 <= i < s.len() ==> #[trigger] s[i] > 0
}

/// `k` is the first arm that has never been pulled.
pub open spec fn is_first_unplayed(s: Seq<u64>, k: int) -> bool {
    &&& 0 <= k < s.len()
    &&& s[k] == 0
    &&& forall|i: int| 0 <= i < k ==> #[trigger] s[i] > 0
}

/// The sum of a prefix grows by the next element.
proof fn lemma_sum_prefix_step(s: Seq<u64>, i: int)
    requires
        0 <= i < s.len(),
    ensures
        sum(s.subrange(0, i + 1)) == sum(s.subrange(0, i)) + s[i],
{
    assert(s.subrange(0, i + 1).drop_last() =~= s.subrange(0, i));
}

/// A prefix sums to no more than the whole sequence.
proof fn lemma_sum_prefix_bound(s: Seq<u64>, k: int)
    requires
        0 <= k <= s.len(),
    ensures
        sum(s.subrange(0, k)) <= sum(s),
    decreases s.len() - k,
{
    if k == s.len() {
        assert(s.subrange(0, k) =~= s);
    } else {
        lemma_sum_prefix_step(s, k);
        lemma_sum_prefix_bound(s, k + 1);
    }
}

/// Each count is at most the sum.
proof fn lemma_sum_bounds_each(s: Seq<u64>, i: int)
    requires
        0 <= i < s.len(),
    ensures
        s[i] <= sum(s),
{
    lemma_sum_prefix_step(s, i);
    lemma_sum_prefix_bound(s, i + 1);
    lemma_sum_nonnegative(s.subrange(0, i));
}

/// Counts never sum to a negative number.
proof fn lemma_sum_nonnegative(s: Seq<u64>)
    ensures
        sum(s) >= 0,
    decreases s.len(),
{
    if s.len() > 0 {
        lemma_sum_nonnegative(s.drop_last());
    }
}

/// Adding one to a count adds one to the sum.
proof fn lemma_sum_increment(s: Seq<u64>, i: int, v: u64)
    requires
        0 <= i < s.len(),
        v == s[i] + 1,
    ensures
        sum(s.update(i, v)) == sum(s) + 1,
    decreases s.len(),
{
    let t = s.update(i, v);
    if i == s.len() - 1 {
        assert(t.drop_last() =~= s.drop_last());
    } else {
        assert(t.drop_last() =~= s.drop_last().update(i, v));
        lemma_sum_increment(s.drop_last(), i, v);
    }
}

/// Zero counts sum to zero.
proof fn lemma_sum_zeros(n: nat)
    ensures
        sum(Seq::new(n, |i: int| 0u64)) == 0,
    decreases n,
{
    if n > 0 {
        assert(Seq::new(n, |i: int| 0u64).drop_last() =~= Seq::new((n - 1) as nat, |i: int| 0u64));
        lemma_sum_zeros((n - 1) as nat);
    }
}

/// How often each arm has been pulled, in the order of the arm list, with
/// their total and whether every arm has been pulled.
#[derive(Debug, Clone, PartialEq, Eq)]
pub struct PullCounts {
    counts: Vec<u64>,
    total: u64,
    all_played: bool,
}

impl View for PullCounts {
    type V = Seq<u64>;

    closed spec fn view(&self) -> Seq<u64> {
        self.counts@
    }
}

impl PullCounts {
    /// The cached total and flag agree with the counts.
    pub closed spec fn wf(&self) -> bool {
        &&& self.total == sum(self.counts@)
        &&& self.all_played == every_arm_played(self.counts@)
    }

    /// Counts of `n_arms` arms that have never been pulled.
    pub fn new(n_arms: usize) -> (r: PullCounts)
        ensures
            r.wf(),
            r@ == Seq::new(n_arms as nat, |i: int| 0u64),
            sum(r@) == 0,
    {
        let mut counts: Vec<u64> = Vec::new();
        let mut i: usize = 0;
        while i < n_arms
            invariant
                i <= n_arms,
                counts@ == Seq::new(i as nat, |j: int| 0u64),
            decreases n_arms - i,
        {
            counts.push(0);
            i = i + 1;
            assert(counts@ =~= Seq::new(i as nat, |j: int| 0u64));
        }
        proof {
            lemma_sum_zeros(n_arms as nat);
        }
        PullCounts { counts, total: 0, all_played: false }
    }

    /// Counts taken as given; `None` when their total does not fit in a `u64`.
    pub fn from_counts(counts: Vec<u64>) -> (r: Option<PullCounts>)
        ensures
            r is None <==> sum(counts@) > u64::MAX,
            r matches Some(p) ==> p.wf() && p@ == counts@,
    {
        let mut total: u64 = 0;
        let mut no_zero = true;
        let mut i: usize = 0;
        while i < counts.len()
            invariant
                i <= counts@.len(),
                total == sum(counts@.subrange(0, i as int)),
                no_zero == forall|j: int| 0 <= j < i ==> #[trigger] counts@[j] > 0,
            decreases counts@.len() - i,
        {
            proof {
                lemma_sum_prefix_step(counts@, i as int);
            }
            if total > u64::MAX - counts[i] {
                proof {
                    lemma_sum_prefix_bound(counts@, i as int + 1);
                }
                return None;
            }
            total = total + counts[i];
            if counts[i] == 0 {
                no_zero = false;
            }
            i = i + 1;
        }
        proof {
            assert(counts@.subrange(0, counts@.len() as int) =~= counts@);
        }
        let all_played = counts.len() > 0 && no_zero;
        Some(PullCounts { counts, total, all_played })
    }

    /// Number of arms.
    pub fn len(&self) -> (r: usize)
        ensures
            r == self@.len(),
    {
        self.counts.len()
    }

    /// How often the arm at `arm` has been pulled.
    pub fn count(&self, arm: usize) -> (r: u64)
        requires
            arm < self@.len(),
        ensures
            r == self@[arm as int],
    {
        self.counts[arm]
    }

    /// Total number of pulls over all arms.
    pub fn total(&self) -> (r: u64)
        requires
            self.wf(),
        ensures
            r == sum(self@),
    {
        self.total
    }

    /// Whether every arm has been pulled at least once.
    pub fn all_played(&self) -> (r: bool)
        requires
            self.wf(),
        ensures
            r == every_arm_played(self@),
    {
        self.all_played
    }

    /// Records one pull of the arm at `arm`. Once every arm has been pulled,
    /// that stays so.
    pub fn update_counts(&mut self, arm: usize)
        requires
            old(self).wf(),
            arm < old(self)@.len(),
            sum(old(self)@) < u64::MAX,
        ensures
            final(self).wf(),
            final(self)@ == old(self)@.update(arm as int, (old(self)@[arm as int] + 1) as u64),
            sum(final(self)@) == sum(old(self)@) + 1,
            every_arm_played(old(self)@) ==> every_arm_played(final(self)@),
    {
        proof {
            lemma_sum_bounds_each(self.counts@, arm as int);
            lemma_sum_increment(self.counts@, arm as int, (self.counts@[arm as int] + 1) as u64);
        }
        let c = self.counts[arm];
        self.counts.set(arm, c + 1);
        self.total = self.total + 1;
        let mut played = true;
        let mut i: usize = 0;
        while i < self.counts.len()
            invariant
                i <= self.counts@.len(),
                played == forall|j: int| 0 <= j < i ==> #[trigger] self.counts@[j] > 0,
            decreases self.counts@.len() - i,
        {
            if self.counts[i] == 0 {
                played = false;
            }
            i = i + 1;
        }
        self.all_played = played;
    }

    /// The first arm that has never been pulled, if any.
    pub fn next_unexplored(&self) -> (r: Option<usize>)
        ensures
            r is None <==> forall|i: int| 0 <= i < self@.len() ==> #[trigger] self@[i] > 0,
            r matches Some(k) ==> is_first_unplayed(self@, k as int),
    {
        let mut i: usize = 0;
        while i < self.counts.len()
            invariant
                i <= self@.len(),
                forall|j: int| 0 <= j < i ==> #[trigger] self@[j] > 0,
            decreases self@.len() - i,
        {
            if self.counts[i] == 0 {
                return Some(i);
            }
            i = i + 1;
        }
        None
    }
}

} // verus!
