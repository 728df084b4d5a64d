//! A bag of weighted move counts for one decision state, as a MENACE-style
//! learner keeps it: one count per legal choice, drawn proportionally to the
//! counts, rewarded after a win and penalized after a loss.

use vstd::prelude::*;

use rand::distributions::{Distribution, WeightedIndex};

verus! {

/// Every count starts at this value, and a starved table resets to it.
pub const INITIAL_COUNT: u32 = 50;

/// How much a winning move's count grows.
pub const REWARD: u32 = 3;

/// The largest number of choices a bag may offer. It keeps the initial total
/// `50 * size` within `u32`, which the weighted draw needs.
pub const MAX_BAG_SIZE: usize = 85899345;

/// The total of a sequence of counts.
pub open spec fn count_sum(s: Seq<u32>) -> int
    decreases s.len(),
{
    if s.len() == 0 {
        0
    } else {
        count_sum(s.drop_last()) + s.last()
    }
}

pub proof fn lemma_count_sum_nonneg(s: Seq<u32>)
    ensures
        count_sum(s) >= 0,
    decreases s.len(),
{
    if s.len() > 0 {
        lemma_count_sum_nonneg(s.drop_last());
    }
}

/// Each count is at most the total.
pub proof fn lemma_count_sum_element(s: Seq<u32>, i: int)
    requires
        0 <= i < s.len(),
    ensures
        s[i] <= count_sum(s),
    decreases s.len(),
{
    lemma_count_sum_nonneg(s.drop_last());
    if i < s.len() - 1 {
        lemma_count_sum_element(s.drop_last(), i);
    }
}

/// Changing one count changes the total by the difference.
pub proof fn lemma_count_sum_update(s: Seq<u32>, i: int, v: u32)
    requires
        0 <= i < s.len(),
    ensures
        count_sum(s.update(i, v)) == count_sum(s) - s[i] + v,
    decreases s.len(),
{
    let t = s.update(i, v);
    if i == s.len() - 1 {
        assert(t.drop_last() =~= s.drop_last());
    } else {
        assert(t.drop_last() =~= s.drop_last().update(i, v));
        lemma_count_sum_update(s.drop_last(), i, v);
    }
}

/// The total of `n` equal counts.
pub proof fn lemma_count_sum_constant(n: nat, c: u32)
    ensures
        count_sum(Seq::new(n, |i: int| c)) == n * c,
    decreases n,
{
    if n > 0 {
        assert(Seq::new(n, |i: int| c).drop_last() =~= Seq::new((n - 1) as nat, |i: int| c));
        lemma_count_sum_constant((n - 1) as nat, c);
        assert(Seq::new(n, |i: int| c).last() == c);
        assert(n * c == ((n - 1) as nat) * c + c) by (nonlinear_arith)
            requires
                n >= 1,
        ;
    } else {
        assert(n * c == 0) by (nonlinear_arith)
            requires
                n == 0,
        ;
    }
}

/// The total of the counts, computed by a scan.
fn total_count(counts: &Vec<u32>) -> (t: u64)
    requires
        counts@.len() <= MAX_BAG_SIZE,
    ensures
        t == count_sum(counts@),
{
    let mut t: u64 = 0;
    let mut i: usize = 0;
    while i < counts.len()
        invariant
            counts@.len() <= MAX_BAG_SIZE,
            i <= counts@.len(),
            t == count_sum(counts@.take(i as int)),
            t <= i * 0x1_0000_0000,
        decreases counts@.len() - i,
    {
        proof {
            assert(counts@.take(i + 1 as int).drop_last() =~= counts@.take(i as int));
            assert(counts@.take(i + 1 as int).last() == counts@[i as int]);
        }
        t = t + counts[i] as u64;
        i = i + 1;
    }
    proof {
        assert(counts@.take(counts@.len() as int) =~= counts@);
    }
    t
}

/// What one penalty leaves behind: the chosen count goes down by one, floored
/// at zero, and a table whose total would reach zero resets to the uniform
/// initial value instead.
pub open spec fn spec_penalize(s: Seq<u32>, value: int) -> Seq<u32> {
    let d = if s[value] > 0 {
        s.update(value, (s[value] - 1) as u32)
    } else {
        s
    };
    if count_sum(d) == 0 {
        Seq::new(s.len(), |i: int| INITIAL_COUNT)
    } else {
        d
    }
}

/// What one reward leaves behind: the chosen count goes up by `REWARD`,
/// unless the table's total would no longer fit in `u32`, in which case the
/// table is left as it is.
pub open spec fn spec_reinforce(s: Seq<u32>, value: int) -> Seq<u32> {
    if count_sum(s) + REWARD <= u32::MAX {
        s.update(value, (s[value] + REWARD) as u32)
    } else {
        s
    }
}

/// What a game's outcome does to a table of counts at the chosen move: a
/// win rewards it, a loss penalizes it.
pub open spec fn apply_outcome(s: Seq<u32>, choice: int, won: bool) -> Seq<u32> {
    if !(0 <= choice < s.len()) {
        s
    } else if won {
        spec_reinforce(s, choice)
    } else {
        spec_penalize(s, choice)
    }
}

/// Law: a penalty can never starve a bag. Whatever single penalty is applied
/// to a well-formed table, the table stays well-formed — in particular its
/// total stays positive — so a weighted draw is possible after any sequence
/// of penalties.
pub proof fn lemma_penalize_preserves_wf(s: Seq<u32>, value: int)
    requires
        0 <= value < s.len(),
        s.len() <= MAX_BAG_SIZE,
        1 <= count_sum(s) <= u32::MAX,
    ensures
        1 <= count_sum(spec_penalize(s, value)) <= u32::MAX,
        spec_penalize(s, value).len() == s.len(),
{
    let d = if s[value] > 0 {
        s.update(value, (s[value] - 1) as u32)
    } else {
        s
    };
    if s[value] > 0 {
        lemma_count_sum_update(s, value, (s[value] - 1) as u32);
    }
    lemma_count_sum_nonneg(d);
    if count_sum(d) == 0 {
        lemma_count_sum_constant(s.len(), INITIAL_COUNT);
        assert(s.len() * INITIAL_COUNT <= MAX_BAG_SIZE * INITIAL_COUNT) by (nonlinear_arith)
            requires
                s.len() <= MAX_BAG_SIZE,
        ;
        assert(s.len() * INITIAL_COUNT >= 1 * INITIAL_COUNT) by (nonlinear_arith)
            requires
                s.len() >= 1,
        ;
    }
}

/// Law: a reward keeps a well-formed table well-formed; the total never
/// leaves `1 ..= u32::MAX`.
pub proof fn lemma_reinforce_preserves_wf(s: Seq<u32>, value: int)
    requires
        0 <= value < s.len(),
        s.len() <= MAX_BAG_SIZE,
        1 <= count_sum(s) <= u32::MAX,
    ensures
        1 <= count_sum(spec_reinforce(s, value)) <= u32::MAX,
        spec_reinforce(s, value).len() == s.len(),
{
    if count_sum(s) + REWARD <= u32::MAX {
        lemma_count_sum_element(s, value);
        lemma_count_sum_update(s, value, (s[value] + REWARD) as u32);
    }
}

/// Law: reinforcement moves a count in the outcome's direction, and touches
/// no other. A win raises the chosen count by `REWARD` whenever the total
/// still fits; a loss lowers it by one, floored at zero, and a loss that
/// would empty the whole table resets every count to the uniform initial
/// value instead.
pub proof fn lemma_reinforcement_direction(s: Seq<u32>, c: int)
    requires
        0 <= c < s.len(),
    ensures
        count_sum(s) + REWARD <= u32::MAX ==> apply_outcome(s, c, true)[c] == s[c] + REWARD,
        forall|q: int|
            0 <= q < s.len() && q != c ==> #[trigger] apply_outcome(s, c, true)[q] == s[q],
        (s[c] > 0 && count_sum(s) > 1) ==> apply_outcome(s, c, false)[c] == s[c] - 1,
        (s[c] == 0 && count_sum(s) > 0) ==> apply_outcome(s, c, false) == s,
        (s[c] > 0 && count_sum(s) == 1) ==> apply_outcome(s, c, false) == Seq::new(
            s.len(),
            |i: int| INITIAL_COUNT,
        ),
{
    if s[c] > 0 {
        lemma_count_sum_update(s, c, (s[c] - 1) as u32);
        lemma_count_sum_element(s, c);
        if count_sum(s) == 1 {
            assert(s[c] == 1);
        }
    } else {
        lemma_count_sum_nonneg(s);
    }
}

/// Relies on `rand::distributions::WeightedIndex`: built over a nonempty
/// list of `u32` weights whose total is positive and fits in `u32`,
/// construction succeeds, and sampling returns the index of an entry with a
/// nonzero weight.
#[verifier::external_body]
fn weighted_sample(counts: &Vec<u32>) -> (r: usize)
    requires
        counts@.len() >= 1,
        1 <= count_sum(counts@) <= u32::MAX,
    ensures
        r < counts@.len(),
        counts@[r as int] > 0,
{
    let dist = WeightedIndex::new(counts).unwrap();
    let mut rng = rand::thread_rng();
    dist.sample(&mut rng)
}

/// A weighted count per legal move at one decision state.
pub struct Bag {
    counts: Vec<u32>,
}

impl View for Bag {
    type V = Seq<u32>;

    closed spec fn view(&self) -> Seq<u32> {
        self.counts@
    }
}

impl Bag {
    /// Well-formed: at least one choice, not more than `MAX_BAG_SIZE`, and a
    /// positive total that fits in `u32`, so that a draw is always possible.
    pub open spec fn wf(&self) -> bool {
        &&& 1 <= self@.len() <= MAX_BAG_SIZE
        &&& 1 <= count_sum(self@) <= u32::MAX
    }

    /// A fresh bag of `size` choices, each at the uniform initial count.
    pub fn new(size: usize) -> (bag: Bag)
        requires
            1 <= size <= MAX_BAG_SIZE,
        ensures
            bag@ == Seq::new(size as nat, |i: int| INITIAL_COUNT),
            bag.wf(),
    {
        let mut counts: Vec<u32> = Vec::new();
        let mut i: usize = 0;
        while i < size
            invariant
                i <= size,
                counts@ =~= Seq::new(i as nat, |k: int| INITIAL_COUNT),
            decreases size - i,
        {
            counts.push(INITIAL_COUNT);
            i = i + 1;
        }
        proof {
            lemma_count_sum_constant(size as nat, INITIAL_COUNT);
            assert(size * INITIAL_COUNT <= MAX_BAG_SIZE * INITIAL_COUNT) by (nonlinear_arith)
                requires
                    size <= MAX_BAG_SIZE,
            ;
            assert(size * INITIAL_COUNT >= 1 * INITIAL_COUNT) by (nonlinear_arith)
                requires
                    size >= 1,
            ;
        }
        Bag { counts }
    }

    /// The per-choice counts, for introspection and display.
    pub fn counts(&self) -> (r: &Vec<u32>)
        ensures
            r@ == self@,
    {
        &self.counts
    }

    /// The number of choices the bag offers.
    pub fn size(&self) -> (n: usize)
        ensures
            n == self@.len(),
    {
        self.counts.len()
    }

    /// Draws a choice with probability proportional to its count. The
    /// well-formedness invariant keeps the total positive, so the draw
    /// cannot fail; the chosen entry always has a nonzero count.
    pub fn draw(&self) -> (r: usize)
        requires
            self.wf(),
        ensures
            r < self@.len(),
            self@[r as int] > 0,
    {
        weighted_sample(&self.counts)
    }

    /// Rewards the chosen move with `REWARD` extra counts, leaving the table
    /// unchanged in the unreachable case that its total would outgrow `u32`.
    pub fn increase(&mut self, value: usize)
        requires
            old(self).wf(),
            value < old(self)@.len(),
        ensures
            final(self)@ == spec_reinforce(old(self)@, value as int),
            final(self).wf(),
    {
        proof {
            lemma_reinforce_preserves_wf(self@, value as int);
        }
        let total = total_count(&self.counts);
        if total + (REWARD as u64) <= u32::MAX as u64 {
            proof {
                lemma_count_sum_element(self@, value as int);
            }
            let c = self.counts[value];
            self.counts[value] = c + REWARD;
        }
    }

    /// Penalizes the chosen move by one count, floored at zero; if every
    /// count would thereby be zero, resets the whole table to the uniform
    /// initial value, so that no state ever runs out of selectable moves.
    pub fn decrease(&mut self, value: usize)
        requires
            old(self).wf(),
            value < old(self)@.len(),
        ensures
            final(self)@ == spec_penalize(old(self)@, value as int),
            final(self).wf(),
    {
        proof {
            lemma_penalize_preserves_wf(self@, value as int);
        }
        if self.counts[value] > 0 {
            let c = self.counts[value];
            self.counts[value] = c - 1;
        }
        let total = total_count(&self.counts);
        if total == 0 {
            let ghost d = self.counts@;
            let n = self.counts.len();
            let mut i: usize = 0;
            while i < n
                invariant
                    n == self.counts@.len(),
                    i <= n,
                    forall|k: int| 0 <= k < i ==> self.counts@[k] == INITIAL_COUNT,
                    forall|k: int| i <= k < n ==> self.counts@[k] == d[k],
                decreases n - i,
            {
                self.counts[i] = INITIAL_COUNT;
                i = i + 1;
            }
            proof {
                assert(self.counts@ =~= Seq::new(d.len(), |k: int| INITIAL_COUNT));
            }
        }
    }
}

} // verus!
