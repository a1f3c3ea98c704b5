use vstd::arithmetic::div_mod::{
    lemma_basic_div,
    lemma_div_multiples_vanish_fancy,
    lemma_div_plus_one,
    lemma_fundamental_div_mod,
};
use vstd::prelude::*;

use crate::utils::ngram::{lists_exactly, padded, split_groups, NgramCounter};

verus! {

/// Each byte of each group: the input byte at its position, or the padding
/// byte past the end of the input. Each group starts inside the input.
pub proof fn lemma_split_groups_bytes(input: Seq<u8>, n: nat, padding: u8)
    requires
        n >= 1,
    ensures
        forall|i: int|
            0 <= i < split_groups(input, n, padding).len() ==> {
                &&& (#[trigger] split_groups(input, n, padding)[i]).len() == n
                &&& i * n < input.len()
            },
        forall|i: int, j: int|
            0 <= i < split_groups(input, n, padding).len() && 0 <= j < n ==> (
            #[trigger] split_groups(input, n, padding)[i][j]) == if i * n + j < input.len() {
                input[i * n + j]
            } else {
                padding
            },
    decreases input.len(),
{
    let gs = split_groups(input, n, padding);
    if input.len() == 0 {
    } else if input.len() < n {
        assert forall|j: int| 0 <= j < n implies gs[0][j] == if j < input.len() {
            input[j]
        } else {
            padding
        } by {
            assert(gs[0] == padded(input, n, padding));
        }
    } else {
        let rest = input.skip(n as int);
        lemma_split_groups_bytes(rest, n, padding);
        let rs = split_groups(rest, n, padding);
        assert(gs == seq![input.take(n as int)] + rs);
        assert forall|i: int| 1 <= i < gs.len() implies #[trigger] gs[i].len() == n && i * n
            < input.len() by {
            assert(gs[i] == rs[i - 1]);
            assert((i - 1) * n + n == i * n) by (nonlinear_arith);
        }
        assert forall|i: int, j: int| 0 <= i < gs.len() && 0 <= j < n implies #[trigger] gs[i][j]
            == if i * n + j < input.len() {
            input[i * n + j]
        } else {
            padding
        } by {
            if i == 0 {
                assert(0 * n + j == j) by (nonlinear_arith);
            } else {
                assert(gs[i] == rs[i - 1]);
                assert((i - 1) * n + j + n == i * n + j) by (nonlinear_arith);
                assert(rs[i - 1][j] == if (i - 1) * n + j < rest.len() {
                    rest[(i - 1) * n + j]
                } else {
                    padding
                });
            }
        }
    }
}

/// Splitting `L` bytes into groups of `n` gives `ceil(L / n)` groups, and none
/// when the input is empty.
pub proof fn lemma_split_groups_count(input: Seq<u8>, n: nat, padding: u8)
    requires
        n >= 1,
    ensures
        split_groups(input, n, padding).len() == (input.len() + n - 1) / (n as int),
        input.len() == 0 ==> split_groups(input, n, padding).len() == 0,
        split_groups(input, n, padding).len() <= input.len(),
    decreases input.len(),
{
    let l = input.len() as int;
    let d = n as int;
    if l == 0 {
        lemma_basic_div(d - 1, d);
    } else if l < d {
        lemma_div_plus_one(l - 1, d);
        lemma_basic_div(l - 1, d);
    } else {
        lemma_split_groups_count(input.skip(d), n, padding);
        lemma_div_plus_one(l - 1, d);
    }
}

/// Every group but the last is the next `n` bytes of the input, unchanged.
pub proof fn lemma_split_groups_full(input: Seq<u8>, n: nat, padding: u8)
    requires
        n >= 1,
    ensures
        forall|i: int|
            0 <= i < split_groups(input, n, padding).len() - 1 ==> {
                &&& (#[trigger] split_groups(input, n, padding)[i]).len() == n
                &&& split_groups(input, n, padding)[i] == input.subrange(i * n, i * n + n)
            },
{
    let gs = split_groups(input, n, padding);
    lemma_split_groups_bytes(input, n, padding);
    assert forall|i: int| 0 <= i < gs.len() - 1 implies #[trigger] gs[i] == input.subrange(
        i * n,
        i * n + n,
    ) by {
        assert(gs[i + 1].len() == n);
        assert((i + 1) * n == i * n + n) by (nonlinear_arith);
        assert forall|j: int| 0 <= j < n implies gs[i][j] == input.subrange(i * n, i * n + n)[j] by {
            assert(gs[i][j] == if i * n + j < input.len() {
                input[i * n + j]
            } else {
                padding
            });
        }
        assert(gs[i] =~= input.subrange(i * n, i * n + n));
    }
}

/// When the input length `L` is not a multiple of `n`, the last group holds the
/// final `L mod n` bytes of the input followed by `n - L mod n` padding bytes.
pub proof fn lemma_split_groups_last(input: Seq<u8>, n: nat, padding: u8)
    requires
        n >= 1,
        input.len() % n != 0,
    ensures
        split_groups(input, n, padding).len() >= 1,
        split_groups(input, n, padding).last().len() == n,
        split_groups(input, n, padding).last().take((input.len() % n) as int) == input.skip(
            input.len() - input.len() % n,
        ),
        forall|j: int|
            input.len() % n <= j < n ==> #[trigger] split_groups(input, n, padding).last()[j]
                == padding,
{
    let gs = split_groups(input, n, padding);
    let l = input.len() as int;
    let d = n as int;
    let q = l / d;
    let r = l % d;
    lemma_split_groups_count(input, n, padding);
    lemma_split_groups_bytes(input, n, padding);
    lemma_fundamental_div_mod(l, d);
    assert(l + d - 1 == d * (q + 1) + (r - 1)) by (nonlinear_arith)
        requires
            l == d * q + r,
    ;
    lemma_div_multiples_vanish_fancy(q + 1, r - 1, d);
    assert(gs.len() == q + 1);
    assert(q * d == d * q) by (nonlinear_arith);
    let last = gs[q];
    assert forall|j: int| 0 <= j < n implies #[trigger] last[j] == if j < r {
        input[l - r + j]
    } else {
        padding
    } by {
        assert(last[j] == if q * d + j < l {
            input[q * d + j]
        } else {
            padding
        });
    }
    assert(last.take(r) =~= input.skip(l - r));
}

/// Counting the same input, split the same way, into two fresh counters gives
/// the same count for every group, the same total, and the same entries in the
/// same order.
pub proof fn lemma_counting_is_deterministic(
    input: Seq<u8>,
    n: nat,
    padding: u8,
    a: &NgramCounter,
    b: &NgramCounter,
)
    requires
        a.wf(),
        b.wf(),
        a.drained() == split_groups(input, n, padding),
        b.drained() == split_groups(input, n, padding),
    ensures
        a@ == b@,
        a.drained().len() == b.drained().len(),
        lists_exactly(a.entries(), b@),
        a.entries().len() == b.entries().len(),
        forall|i: int|
            0 <= i < a.entries().len() ==> (#[trigger] a.entries()[i]).0@ == b.entries()[i].0@
                && a.entries()[i].1 == b.entries()[i].1,
{
    a.lemma_entries_list_view();
    b.lemma_entries_list_view();
}

} // verus!
