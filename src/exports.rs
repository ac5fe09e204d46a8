//! Small numeric functions offered to embedding layers.

use vstd::prelude::*;

verus! {

/// The sum of two integers that fits an `i32`.
pub fn add(x: i32, y: i32) -> (r: i32)
    requires
        i32::MIN <= x + y <= i32::MAX,
    ensures
        r == x + y,
{
    x + y
}

/// The sum of the even numbers of `s`.
pub open spec fn even_sum(s: Seq<u32>) -> int
    decreases s.len(),
{
    if s.len() == 0 {
        0
    } else {
        even_sum(s.drop_last()) + if s.last() % 2 == 0 {
            s.last() as int
        } else {
            0
        }
    }
}

proof fn lemma_even_sum_prefix(s: Seq<u32>, n: int)
    requires
        0 <= n <= s.len(),
    ensures
        0 <= even_sum(s.subrange(0, n)) <= even_sum(s),
    decreases s.len() - n,
{
    if n < s.len() {
        lemma_even_sum_prefix(s, n + 1);
        assert(s.subrange(0, n + 1).drop_last() =~= s.subrange(0, n));
        lemma_even_sum_nonnegative(s.subrange(0, n));
    } else {
        assert(s.subrange(0, n) =~= s);
        lemma_even_sum_nonnegative(s);
    }
}

proof fn lemma_even_sum_nonnegative(s: Seq<u32>)
    ensures
        even_sum(s) >= 0,
    decreases s.len(),
{
    if s.len() > 0 {
        lemma_even_sum_nonnegative(s.drop_last());
    }
}

/// Adds up the even numbers of `numbers`, whose sum must fit a `u32`.
pub fn sum_of_even(numbers: &[u32]) -> (r: u32)
    requires
        even_sum(numbers@) <= u32::MAX,
    ensures
        r == even_sum(numbers@),
{
    let mut total: u32 = 0;
    let mut i: usize = 0;
    while i < numbers.len()
        invariant
            0 <= i <= numbers.len(),
            even_sum(numbers@) <= u32::MAX,
            total == even_sum(numbers@.subrange(0, i as int)),
        decreases numbers.len() - i,
    {
        proof {
            lemma_even_sum_prefix(numbers@, i + 1);
            assert(numbers@.subrange(0, i + 1).drop_last() =~= numbers@.subrange(0, i as int));
        }
        if numbers[i] % 2 == 0 {
            total = total + numbers[i];
        }
        i = i + 1;
    }
    assert(numbers@.subrange(0, i as int) =~= numbers@);
    total
}

} // verus!
