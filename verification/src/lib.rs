use vstd::prelude::*;
use vstd::arithmetic::div_mod::lemma_add_mod_noop;
use vstd::pervasive::VecAdditionalExecFns;

verus! {

/// The binomial coefficient C(k, i), defined by Pascal's additive
/// recurrence: C(k, 0) = 1, C(k, i) = 0 for i > k, and otherwise
/// C(k, i) = C(k-1, i-1) + C(k-1, i).
pub open spec fn binom(k: nat, i: nat) -> nat
    decreases k,
{
    if i == 0 {
        1
    } else if i > k {
        0
    } else {
        binom((k - 1) as nat, (i - 1) as nat) + binom((k - 1) as nat, i)
    }
}

/// The value stored at position `i` of the generated row of width `n`:
/// the true coefficient C(n-1, i), reduced modulo 2^32 because the row
/// is accumulated in a 32-bit unsigned integer. Whenever C(n-1, i) fits
/// in 32 bits (in particular for every n <= 35) the stored value is the
/// coefficient itself.
pub open spec fn row_elem(n: nat, i: nat) -> nat
    recommends
        1 <= n,
        i < n,
{
    binom((n - 1) as nat, i) % 0x1_0000_0000
}

/// `s` is the row of Pascal's triangle of width `n`: it holds exactly
/// `n` entries, and the entry at position `i` is C(n-1, i) modulo 2^32.
pub open spec fn is_row(n: nat, s: Seq<u32>) -> bool {
    &&& s.len() == n
    &&& forall|i: int| 0 <= i < n ==> s[i] == row_elem(n, i as nat)
}

/// Produces row `n - 1` of Pascal's triangle as a sequence of exactly
/// `n` coefficients, C(n-1, 0) through C(n-1, n-1), each reduced modulo
/// 2^32. For `n == 0` the row is empty.
///
/// The row is built in place in a single buffer: each generation pass
/// walks positions left to right, so the value a position still holds
/// when it is visited is the previous generation's value there, and one
/// carried temporary supplies the previous generation's value one step
/// to the left.
pub fn generate_row(n: usize) -> (r: Vec<u32>)
    ensures
        r@.len() == n,
        is_row(n as nat, r@),
{
    let mut row: Vec<u32> = Vec::new();
    let mut k: usize = 0;
    while k < n
        invariant
            k <= n,
            row@.len() == k,
            forall|m: int| 0 <= m < k ==> row@[m] == 0,
        decreases n - k,
    {
        row.push(0u32);
        k = k + 1;
    }
    if n == 0 {
        return row;
    }
    row.set(0, 1u32);
    let mut i: usize = 1;
    while i < n
        invariant
            1 <= i <= n,
            row@.len() == n,
            forall|m: int| 0 <= m < n ==> row@[m] == binom((i - 1) as nat, m as nat) % 0x1_0000_0000,
        decreases n - i,
    {
        let mut curr: u32 = 1;
        let mut j: usize = 1;
        while j <= i
            invariant
                1 <= j <= i + 1,
                1 <= i < n,
                row@.len() == n,
                curr == binom((i - 1) as nat, (j - 1) as nat) % 0x1_0000_0000,
                forall|m: int| 0 <= m < j ==> row@[m] == binom(i as nat, m as nat) % 0x1_0000_0000,
                forall|m: int| j <= m < n ==> row@[m] == binom((i - 1) as nat, m as nat) % 0x1_0000_0000,
            decreases i + 1 - j,
        {
            let last: u32 = curr;
            curr = row[j];
            let sum: u64 = last as u64 + curr as u64;
            let wrapped: u32 = (sum % 0x1_0000_0000u64) as u32;
            proof {
                lemma_add_mod_noop(
                    binom((i - 1) as nat, (j - 1) as nat) as int,
                    binom((i - 1) as nat, j as nat) as int,
                    0x1_0000_0000,
                );
            }
            row.set(j, wrapped);
            j = j + 1;
        }
        proof {
            assert forall|m: int| j <= m < n implies row@[m] == binom(i as nat, m as nat)
                % 0x1_0000_0000 by {
                assert(binom((i - 1) as nat, m as nat) == 0);
                assert(binom(i as nat, m as nat) == 0);
            }
        }
        i = i + 1;
    }
    row
}

proof fn lemma_binom_diag(k: nat)
    ensures
        binom(k, k) == 1,
    decreases k,
{
    if k > 0 {
        lemma_binom_diag((k - 1) as nat);
        assert(binom((k - 1) as nat, k) == 0);
    }
}

/// C(k, i) = C(k, k - i): each row of Pascal's triangle is symmetric.
pub proof fn lemma_binom_symmetric(k: nat, i: nat)
    requires
        i <= k,
    ensures
        binom(k, i) == binom(k, (k - i) as nat),
    decreases k,
{
    if i == 0 || i == k {
        lemma_binom_diag(k);
    } else {
        lemma_binom_symmetric((k - 1) as nat, (i - 1) as nat);
        lemma_binom_symmetric((k - 1) as nat, i);
    }
}

/// A generated row reads the same forwards and backwards: the entry at
/// position `i` equals the entry at position `n - 1 - i`.
pub proof fn lemma_row_palindrome(n: nat, s: Seq<u32>)
    requires
        1 <= n,
        is_row(n, s),
    ensures
        forall|i: int| 0 <= i < n ==> #[trigger] s[i] == s[n - 1 - i],
{
    assert forall|i: int| 0 <= i < n implies #[trigger] s[i] == s[n - 1 - i] by {
        lemma_binom_symmetric((n - 1) as nat, i as nat);
    }
}

/// Each interior entry of a row is the sum, modulo 2^32, of the two
/// entries above it in the row one shorter: the defining recurrence of
/// Pascal's triangle, observable across two separate calls.
pub proof fn lemma_row_recurrence(n: nat, r: Seq<u32>, prev: Seq<u32>, i: int)
    requires
        2 <= n,
        is_row(n, r),
        is_row((n - 1) as nat, prev),
        1 <= i <= n - 2,
    ensures
        r[i] == (prev[i - 1] + prev[i]) % 0x1_0000_0000,
{
    lemma_add_mod_noop(
        binom((n - 2) as nat, (i - 1) as nat) as int,
        binom((n - 2) as nat, i as nat) as int,
        0x1_0000_0000,
    );
}

/// The row of a given width is uniquely determined: any two sequences
/// that satisfy `is_row` for the same `n` are equal, so repeated calls
/// with the same input yield identical rows.
pub proof fn lemma_row_deterministic(n: nat, a: Seq<u32>, b: Seq<u32>)
    requires
        is_row(n, a),
        is_row(n, b),
    ensures
        a == b,
{
    assert(a =~= b);
}

} // verus!
