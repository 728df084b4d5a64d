//! Small executable helpers on vectors of vertex indices, and arithmetic
//! lemmas shared by the strategy modules.

use vstd::prelude::*;

verus! {

/// `base` raised to the power `exp`.
pub open spec fn spec_pow(base: nat, exp: nat) -> nat
    decreases exp,
{
    if exp == 0 {
        1
    } else {
        base * spec_pow(base, (exp - 1) as nat)
    }
}

pub proof fn lemma_pow_pos(base: nat, exp: nat)
    requires
        base >= 1,
    ensures
        spec_pow(base, exp) >= 1,
    decreases exp,
{
    if exp > 0 {
        lemma_pow_pos(base, (exp - 1) as nat);
        assert(base * spec_pow(base, (exp - 1) as nat) >= 1 * spec_pow(base, (exp - 1) as nat))
            by (nonlinear_arith)
            requires
                base >= 1,
                spec_pow(base, (exp - 1) as nat) >= 0,
        ;
    }
}

pub proof fn lemma_pow_monotonic_base(a: nat, b: nat, exp: nat)
    requires
        a <= b,
    ensures
        spec_pow(a, exp) <= spec_pow(b, exp),
    decreases exp,
{
    if exp > 0 {
        lemma_pow_monotonic_base(a, b, (exp - 1) as nat);
        assert(a * spec_pow(a, (exp - 1) as nat) <= b * spec_pow(b, (exp - 1) as nat))
            by (nonlinear_arith)
            requires
                a <= b,
                0 <= spec_pow(a, (exp - 1) as nat) <= spec_pow(b, (exp - 1) as nat),
        ;
    }
}

/// A sequence of distinct values below `n` has at most `n` entries.
pub proof fn lemma_distinct_bounded_len(s: Seq<usize>, n: int)
    requires
        n >= 0,
        forall|i: int| 0 <= i < s.len() ==> #[trigger] s[i] < n,
        forall|i: int, j: int| 0 <= i < s.len() && 0 <= j < s.len() && i != j ==> s[i] != s[j],
    ensures
        s.len() <= n,
    decreases n,
{
    if s.len() > 0 {
        assert(s[0] < n);
        let top = n - 1;
        if exists|i: int| 0 <= i < s.len() && s[i] == top {
            let i = choose|i: int| 0 <= i < s.len() && s[i] == top;
            let t = s.remove(i);
            assert forall|p: int| 0 <= p < t.len() implies #[trigger] t[p] < n - 1 by {
                if p < i {
                    assert(t[p] == s[p]);
                    assert(s[p] != s[i]);
                } else {
                    assert(t[p] == s[p + 1]);
                    assert(s[p + 1] != s[i]);
                }
            }
            assert forall|p: int, q: int|
                0 <= p < t.len() && 0 <= q < t.len() && p != q implies t[p] != t[q] by {
                let p0 = if p < i { p } else { p + 1 };
                let q0 = if q < i { q } else { q + 1 };
                assert(t[p] == s[p0] && t[q] == s[q0] && p0 != q0);
            }
            lemma_distinct_bounded_len(t, n - 1);
        } else {
            assert forall|p: int| 0 <= p < s.len() implies #[trigger] s[p] < n - 1 by {
                assert(s[p] < n && s[p] != top);
            }
            lemma_distinct_bounded_len(s, n - 1);
        }
    }
}

/// Whether `v` holds `x`, decided by a scan.
pub fn vec_contains_usize(v: &Vec<usize>, x: usize) -> (r: bool)
    ensures
        r == v@.contains(x),
{
    let mut i: usize = 0;
    while i < v.len()
        invariant
            i <= v@.len(),
            forall|k: int| 0 <= k < i ==> v@[k] != x,
        decreases v@.len() - i,
    {
        if v[i] == x {
            return true;
        }
        i = i + 1;
    }
    false
}

/// Whether `a` and `b` hold the same indices in the same order.
pub fn vec_usize_eq(a: &Vec<usize>, b: &Vec<usize>) -> (r: bool)
    ensures
        r == (a@ == b@),
{
    if a.len() != b.len() {
        return false;
    }
    let mut i: usize = 0;
    while i < a.len()
        invariant
            a@.len() == b@.len(),
            i <= a@.len(),
            forall|k: int| 0 <= k < i ==> a@[k] == b@[k],
        decreases a@.len() - i,
    {
        if a[i] != b[i] {
            return false;
        }
        i = i + 1;
    }
    proof {
        assert(a@ =~= b@);
    }
    true
}

/// A copy of `v`, element by element.
pub fn copy_usize_vec(v: &Vec<usize>) -> (r: Vec<usize>)
    ensures
        r@ == v@,
{
    let mut r: Vec<usize> = Vec::new();
    let mut i: usize = 0;
    while i < v.len()
        invariant
            i <= v@.len(),
            r@ == v@.take(i as int),
        decreases v@.len() - i,
    {
        r.push(v[i]);
        proof {
            assert(v@.take(i + 1 as int) =~= v@.take(i as int).push(v@[i as int]));
        }
        i = i + 1;
    }
    proof {
        assert(v@.take(v@.len() as int) =~= v@);
    }
    r
}

} // verus!
