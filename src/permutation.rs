use vstd::prelude::*;

verus! {

/// Sum of the entries of `s`.
pub open spec fn sum_of(s: Seq<int>) -> int
    decreases s.len(),
{
    if s.len() == 0 {
        0
    } else {
        sum_of(s.drop_last()) + s.last()
    }
}

/// Taking one entry out of a sequence takes it out of the sum.
proof fn lemma_sum_remove(s: Seq<int>, i: int)
    requires
        0 <= i < s.len(),
    ensures
        sum_of(s) == sum_of(s.remove(i)) + s[i],
    decreases s.len(),
{
    if i == s.len() - 1 {
        assert(s.remove(i) =~= s.drop_last());
    } else {
        assert(s.remove(i).drop_last() =~= s.drop_last().remove(i));
        lemma_sum_remove(s.drop_last(), i);
    }
}

/// More than `n` entries between 1 and `n` repeat one of them.
proof fn lemma_pigeonhole(s: Seq<int>, n: int)
    requires
        0 <= n < s.len(),
        forall|i: int| 0 <= i < s.len() ==> 1 <= #[trigger] s[i] <= n,
    ensures
        exists|i: int, j: int| 0 <= i < j < s.len() && #[trigger] s[i] == #[trigger] s[j],
    decreases n,
{
    if n == 0 {
        assert(1 <= s[0] <= 0);
    } else if exists|i: int| 0 <= i < s.len() && s[i] == n {
        let i = choose|i: int| 0 <= i < s.len() && s[i] == n;
        if exists|j: int| 0 <= j < s.len() && j != i && s[j] == n {
            let j = choose|j: int| 0 <= j < s.len() && j != i && s[j] == n;
            if j < i {
                assert(s[j] == s[i]);
            } else {
                assert(s[i] == s[j]);
            }
        } else {
            let t = s.remove(i);
            assert forall|k: int| 0 <= k < t.len() implies 1 <= #[trigger] t[k] <= n - 1 by {
                if k < i {
                    assert(t[k] == s[k]);
                } else {
                    assert(t[k] == s[k + 1]);
                }
            }
            lemma_pigeonhole(t, n - 1);
            let (a, b) = choose|a: int, b: int| 0 <= a < b < t.len() && #[trigger] t[a] == #[trigger] t[b];
            let ia = if a < i { a } else { a + 1 };
            let ib = if b < i { b } else { b + 1 };
            assert(s[ia] == t[a]);
            assert(s[ib] == t[b]);
        }
    } else {
        assert forall|k: int| 0 <= k < s.len() implies 1 <= #[trigger] s[k] <= n - 1 by {}
        lemma_pigeonhole(s, n - 1);
    }
}

/// `s` lists each of the values 1 to `s.len()` once.
pub open spec fn is_permutation(s: Seq<int>) -> bool {
    &&& forall|i: int| 0 <= i < s.len() ==> 1 <= #[trigger] s[i] <= s.len()
    &&& forall|i: int, j: int| 0 <= i < j < s.len() ==> #[trigger] s[i] != #[trigger] s[j]
}

/// The values 1 to `n`, each once, sum to `n * (n + 1) / 2`.
pub proof fn lemma_permutation_sum(s: Seq<int>)
    requires
        is_permutation(s),
    ensures
        sum_of(s) == s.len() * (s.len() + 1) / 2,
    decreases s.len(),
{
    let n = s.len() as int;
    if n > 0 {
        if !(exists|i: int| 0 <= i < n && s[i] == n) {
            assert forall|k: int| 0 <= k < n implies 1 <= #[trigger] s[k] <= n - 1 by {}
            lemma_pigeonhole(s, n - 1);
            let (a, b) = choose|a: int, b: int| 0 <= a < b < s.len() && #[trigger] s[a] == #[trigger] s[b];
        }
        let i = choose|i: int| 0 <= i < n && s[i] == n;
        let t = s.remove(i);
        assert forall|k: int| 0 <= k < t.len() implies t[k] == if k < i { s[k] } else { s[k + 1] } by {}
        assert forall|k: int| 0 <= k < t.len() implies 1 <= #[trigger] t[k] <= t.len() by {
            if k < i {
                assert(s[k] != s[i]);
            } else {
                assert(s[i] != s[k + 1]);
            }
        }
        assert forall|k: int, l: int| 0 <= k < l < t.len() implies #[trigger] t[k] != #[trigger] t[l] by {
            let ik = if k < i { k } else { k + 1 };
            let il = if l < i { l } else { l + 1 };
            assert(s[ik] != s[il]);
        }
        lemma_permutation_sum(t);
        lemma_sum_remove(s, i);
        assert(n * (n + 1) / 2 == (n - 1) * n / 2 + n) by (nonlinear_arith);
    }
}

/// In a permutation of 1 to 9 every one of those values occurs.
pub proof fn lemma_permutation_onto(t: Seq<int>, w: int)
    requires
        t.len() == 9,
        is_permutation(t),
        1 <= w <= 9,
    ensures
        exists|j: int| 0 <= j < 9 && t[j] == w,
{
    if !(exists|j: int| 0 <= j < 9 && t[j] == w) {
        let u = Seq::new(9, |j: int| if t[j] > w { t[j] - 1 } else { t[j] });
        assert forall|j: int| 0 <= j < u.len() implies 1 <= #[trigger] u[j] <= 8 by {
            assert(t[j] != w);
        }
        lemma_pigeonhole(u, 8);
        let (a, b) = choose|a: int, b: int| 0 <= a < b < u.len() && #[trigger] u[a] == #[trigger] u[b];
        assert(t[a] != w && t[b] != w);
        assert(t[a] != t[b]);
    }
}

} // verus!
