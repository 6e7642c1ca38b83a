//! Pairing two location lists: the total distance pairs the lists in
//! ascending order and sums the gaps; the similarity score weighs each
//! left entry by how often it occurs on the right.

use vstd::prelude::*;

verus! {

/// `x` inserted into `s` before the first strictly larger element.
pub open spec fn insert_sorted(s: Seq<u32>, x: u32) -> Seq<u32>
    decreases s.len(),
{
    if s.len() == 0 {
        seq![x]
    } else if s[0] <= x {
        seq![s[0]] + insert_sorted(s.drop_first(), x)
    } else {
        seq![x] + s
    }
}

/// The first `n` elements of `s`, arranged in ascending order by
/// repeated sorted insertion.
pub open spec fn sort_spec(s: Seq<u32>, n: int) -> Seq<u32>
    decreases n,
{
    if n <= 0 {
        Seq::empty()
    } else {
        insert_sorted(sort_spec(s, n - 1), s[n - 1])
    }
}

/// Sum of the absolute gaps of the first `n` aligned pairs.
pub open spec fn sum_abs(l: Seq<u32>, r: Seq<u32>, n: int) -> int
    decreases n,
{
    if n <= 0 {
        0
    } else {
        sum_abs(l, r, n - 1) + if l[n - 1] >= r[n - 1] {
            l[n - 1] - r[n - 1]
        } else {
            r[n - 1] - l[n - 1]
        }
    }
}

/// Number of occurrences of `v` among the first `n` elements.
pub open spec fn count_in(s: Seq<u32>, v: u32, n: int) -> int
    decreases n,
{
    if n <= 0 {
        0
    } else {
        count_in(s, v, n - 1) + if s[n - 1] == v {
            1 as int
        } else {
            0
        }
    }
}

/// The total distance: both lists in ascending order, aligned
/// position by position, gaps summed.
pub open spec fn distance_spec(l: Seq<u32>, r: Seq<u32>) -> int {
    sum_abs(sort_spec(l, l.len() as int), sort_spec(r, r.len() as int), l.len() as int)
}

/// The similarity score: each left entry times its number of
/// occurrences on the right, summed over the first `n` left entries.
pub open spec fn sim_spec(l: Seq<u32>, r: Seq<u32>, n: int) -> int
    decreases n,
{
    if n <= 0 {
        0
    } else {
        sim_spec(l, r, n - 1) + l[n - 1] * count_in(r, l[n - 1], r.len() as int)
    }
}

/// Splitting a sorted insertion at the first strictly larger element.
proof fn lemma_insert_split(s: Seq<u32>, x: u32, p: int)
    requires
        0 <= p <= s.len(),
        forall|k: int| 0 <= k < p ==> s[k] <= x,
        p < s.len() ==> s[p] > x,
    ensures
        insert_sorted(s, x) =~= s.subrange(0, p) + seq![x] + s.subrange(p, s.len() as int),
    decreases p,
{
    if p == 0 {
        if s.len() == 0 {
            assert(insert_sorted(s, x) =~= s.subrange(0, 0) + seq![x] + s.subrange(
                0,
                s.len() as int,
            ));
        }
    } else {
        lemma_insert_split(s.drop_first(), x, p - 1);
        assert(s.drop_first().subrange(0, p - 1) =~= s.subrange(1, p));
        assert(s.drop_first().subrange(p - 1, s.drop_first().len() as int) =~= s.subrange(
            p,
            s.len() as int,
        ));
        assert(insert_sorted(s, x) =~= s.subrange(0, p) + seq![x] + s.subrange(p, s.len() as int));
    }
}

/// Partial pair-gap sums only grow as more pairs are added.
proof fn lemma_sum_abs_monotone(l: Seq<u32>, r: Seq<u32>, a: int, b: int)
    requires
        a <= b,
    ensures
        sum_abs(l, r, a) <= sum_abs(l, r, b),
    decreases b,
{
    if a < b && b > 0 {
        lemma_sum_abs_monotone(l, r, a, b - 1);
    }
}

/// Partial similarity sums only grow as more entries are added.
proof fn lemma_sim_monotone(l: Seq<u32>, r: Seq<u32>, a: int, b: int)
    requires
        a <= b,
    ensures
        sim_spec(l, r, a) <= sim_spec(l, r, b),
    decreases b,
{
    if a < b && b > 0 {
        lemma_sim_monotone(l, r, a, b - 1);
        lemma_count_in_nonneg(r, l[b - 1], r.len() as int);
        assert(l[b - 1] * count_in(r, l[b - 1], r.len() as int) >= 0) by (nonlinear_arith)
            requires
                l[b - 1] >= 0,
                count_in(r, l[b - 1], r.len() as int) >= 0,
        ;
    }
}

/// Occurrence counts are never negative.
proof fn lemma_count_in_nonneg(s: Seq<u32>, v: u32, n: int)
    ensures
        count_in(s, v, n) >= 0,
    decreases n,
{
    if n > 0 {
        lemma_count_in_nonneg(s, v, n - 1);
    }
}

/// The list arranged in ascending order by repeated sorted insertion.
fn sort_list(v: &Vec<u32>) -> (r: Vec<u32>)
    ensures
        r@ == sort_spec(v@, v@.len() as int),
        r@.len() == v@.len(),
{
    let mut r: Vec<u32> = Vec::new();
    let mut i: usize = 0;
    while i < v.len()
        invariant
            i <= v@.len(),
            r@ == sort_spec(v@, i as int),
            r@.len() == i,
        decreases v@.len() - i,
    {
        let x = v[i];
        let mut p: usize = 0;
        while p < r.len() && r[p] <= x
            invariant
                p <= r@.len(),
                forall|k: int| 0 <= k < p ==> r@[k] <= x,
            decreases r@.len() - p,
        {
            p = p + 1;
        }
        proof {
            lemma_insert_split(r@, x, p as int);
        }
        r.insert(p, x);
        proof {
            assert(r@ =~= sort_spec(v@, i as int).subrange(0, p as int) + seq![x] + sort_spec(
                v@,
                i as int,
            ).subrange(p as int, sort_spec(v@, i as int).len() as int));
        }
        i = i + 1;
    }
    r
}

/// The total distance between the two lists: both are arranged in
/// ascending order, aligned, and the absolute gaps are summed.  `None`
/// reports a sum beyond the `u64` range.
pub fn total_distance(left: &Vec<u32>, right: &Vec<u32>) -> (r: Option<u64>)
    requires
        left@.len() == right@.len(),
    ensures
        match r {
            Some(t) => t == distance_spec(left@, right@),
            None => distance_spec(left@, right@) > u64::MAX,
        },
{
    let ls = sort_list(left);
    let rs = sort_list(right);
    let mut total: u64 = 0;
    let mut i: usize = 0;
    while i < ls.len()
        invariant
            ls@ == sort_spec(left@, left@.len() as int),
            rs@ == sort_spec(right@, right@.len() as int),
            ls@.len() == left@.len(),
            rs@.len() == left@.len(),
            left@.len() == right@.len(),
            i <= ls@.len(),
            total == sum_abs(ls@, rs@, i as int),
        decreases ls@.len() - i,
    {
        let a = ls[i];
        let b = rs[i];
        let gap = if a >= b {
            a - b
        } else {
            b - a
        };
        match total.checked_add(gap as u64) {
            Some(t) => {
                total = t;
            },
            None => {
                proof {
                    lemma_sum_abs_monotone(ls@, rs@, i as int + 1, ls@.len() as int);
                }
                return None;
            },
        }
        i = i + 1;
    }
    Some(total)
}

/// The similarity score: each left entry times its number of
/// occurrences in the right list, summed.  `None` reports a sum beyond
/// the `u64` range.
pub fn similarity_score(left: &Vec<u32>, right: &Vec<u32>) -> (r: Option<u64>)
    requires
        right@.len() <= u32::MAX,
    ensures
        match r {
            Some(t) => t == sim_spec(left@, right@, left@.len() as int),
            None => sim_spec(left@, right@, left@.len() as int) > u64::MAX,
        },
{
    let mut total: u64 = 0;
    let mut i: usize = 0;
    while i < left.len()
        invariant
            right@.len() <= u32::MAX,
            i <= left@.len(),
            total == sim_spec(left@, right@, i as int),
        decreases left@.len() - i,
    {
        let v = left[i];
        let mut cnt: u64 = 0;
        let mut j: usize = 0;
        while j < right.len()
            invariant
                right@.len() <= u32::MAX,
                j <= right@.len(),
                cnt == count_in(right@, v, j as int),
                cnt <= j,
            decreases right@.len() - j,
        {
            if right[j] == v {
                cnt = cnt + 1;
            }
            j = j + 1;
        }
        proof {
            assert((v as u64) * cnt <= 0xFFFFFFFFu64 * 0xFFFFFFFFu64) by (nonlinear_arith)
                requires
                    0 <= v as u64 <= 0xFFFFFFFFu64,
                    0 <= cnt <= 0xFFFFFFFFu64,
            ;
        }
        let product = (v as u64) * cnt;
        match total.checked_add(product) {
            Some(t) => {
                total = t;
            },
            None => {
                proof {
                    lemma_sim_monotone(left@, right@, i as int + 1, left@.len() as int);
                }
                return None;
            },
        }
        i = i + 1;
    }
    Some(total)
}

} // verus!
