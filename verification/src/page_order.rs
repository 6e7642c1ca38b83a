//! Page-ordering rules and updates: an update is a list of page numbers,
//! and a rule `a|b` demands that page `a` precede page `b`.  The sorting
//! pass mirrors the repeated pairwise exchange of the solver: a pair is
//! exchanged once per matching rule, so an odd number of matching rules
//! swaps it and an even number leaves it in place.

use vstd::prelude::*;

verus! {

/// An ordering rule: page `a` must precede page `b`.
#[derive(Clone, Copy, PartialEq, Eq, Structural, Debug)]
pub struct Rule {
    pub a: u32,
    pub b: u32,
}

/// An update: the pages to print, in order.
pub struct Update {
    pub pages: Vec<u32>,
}

/// Number of rules among the first `n` that demand `y` before `x` (the
/// rules that fire when `x` stands at the earlier position and `y` at
/// the later one).
pub open spec fn match_count(rules: Seq<Rule>, x: u32, y: u32, n: int) -> int
    decreases n,
{
    if n <= 0 {
        0
    } else {
        match_count(rules, x, y, n - 1) + if rules[n - 1].b == x && rules[n - 1].a == y {
            1 as int
        } else {
            0
        }
    }
}

/// One pairwise exchange step at positions `i` and `j`: the pair is
/// swapped exactly when an odd number of rules demands it.
pub open spec fn swap_step(pages: Seq<u32>, rules: Seq<Rule>, i: int, j: int) -> Seq<u32> {
    if 0 <= i < pages.len() && 0 <= j < pages.len() && match_count(
        rules,
        pages[i],
        pages[j],
        rules.len() as int,
    ) % 2 == 1 {
        pages.update(i, pages[j]).update(j, pages[i])
    } else {
        pages
    }
}

/// The inner exchange pass: positions `j`, `j+1`, … paired against the
/// fixed position `i`.
pub open spec fn inner_pass(pages: Seq<u32>, rules: Seq<Rule>, i: int, j: int) -> Seq<u32>
    decreases pages.len() - j,
{
    if j < 0 || j >= pages.len() {
        pages
    } else {
        inner_pass(swap_step(pages, rules, i, j), rules, i, j + 1)
    }
}

/// The full sequence of exchange passes starting at position `i`.
pub open spec fn sort_passes(pages: Seq<u32>, rules: Seq<Rule>, i: int) -> Seq<u32>
    decreases pages.len() - i,
    via sort_passes_decreases
{
    if i < 0 || i + 1 >= pages.len() {
        pages
    } else {
        sort_passes(inner_pass(pages, rules, i, i), rules, i + 1)
    }
}

#[via_fn]
proof fn sort_passes_decreases(pages: Seq<u32>, rules: Seq<Rule>, i: int) {
    lemma_inner_pass_len(pages, rules, i, i);
}

/// An inner pass never changes the length.
proof fn lemma_inner_pass_len(pages: Seq<u32>, rules: Seq<Rule>, i: int, j: int)
    ensures
        inner_pass(pages, rules, i, j).len() == pages.len(),
    decreases pages.len() - j,
{
    if 0 <= j < pages.len() {
        lemma_inner_pass_len(swap_step(pages, rules, i, j), rules, i, j + 1);
    }
}

/// The middle page of a page list.
pub open spec fn middle_of(pages: Seq<u32>) -> u32 {
    pages[pages.len() as int / 2]
}

/// The two running totals over the first `n` updates: correctly ordered
/// updates contribute their middle page to the first total, misordered
/// ones contribute the middle page of their rule-sorted form to the
/// second.
pub open spec fn page_totals_spec(us: Seq<Update>, rules: Seq<Rule>, n: int) -> (int, int)
    decreases n,
{
    if n <= 0 {
        (0, 0)
    } else {
        let prev = page_totals_spec(us, rules, n - 1);
        let pages = us[n - 1].pages@;
        if misordered(pages, rules) {
            (prev.0, prev.1 + middle_of(sort_passes(pages, rules, 0)))
        } else {
            (prev.0 + middle_of(pages), prev.1)
        }
    }
}

/// Both totals stay within one middle page per update.
proof fn lemma_page_totals_bound(us: Seq<Update>, rules: Seq<Rule>, n: int)
    ensures
        0 <= page_totals_spec(us, rules, n).0,
        0 <= page_totals_spec(us, rules, n).1,
        page_totals_spec(us, rules, n).0 + page_totals_spec(us, rules, n).1 <= n * 0xFFFFFFFF
            || n < 0,
    decreases n,
{
    if n > 0 {
        lemma_page_totals_bound(us, rules, n - 1);
    }
}

/// Sum the middle pages: correctly ordered updates count as they are,
/// misordered ones are first reordered by the rules.
pub fn page_totals(updates: &Vec<Update>, rules: &Vec<Rule>) -> (r: (u64, u64))
    requires
        forall|i: int| 0 <= i < updates@.len() ==> (#[trigger] updates@[i]).pages@.len() >= 1,
        updates@.len() <= u32::MAX,
    ensures
        r.0 == page_totals_spec(updates@, rules@, updates@.len() as int).0,
        r.1 == page_totals_spec(updates@, rules@, updates@.len() as int).1,
{
    let mut part1: u64 = 0;
    let mut part2: u64 = 0;
    let mut i: usize = 0;
    while i < updates.len()
        invariant
            forall|t: int| 0 <= t < updates@.len() ==> (#[trigger] updates@[t]).pages@.len() >= 1,
            updates@.len() <= u32::MAX,
            i <= updates@.len(),
            part1 == page_totals_spec(updates@, rules@, i as int).0,
            part2 == page_totals_spec(updates@, rules@, i as int).1,
        decreases updates@.len() - i,
    {
        proof {
            lemma_page_totals_bound(updates@, rules@, i as int);
            lemma_page_totals_bound(updates@, rules@, i as int + 1);
        }
        let update = &updates[i];
        if update.is_misordered(rules) {
            let sorted = update.sort(rules);
            part2 = part2 + sorted.middle_page() as u64;
        } else {
            part1 = part1 + update.middle_page() as u64;
        }
        i = i + 1;
    }
    (part1, part2)
}

/// An element-wise copy of a page list.
fn clone_pages(v: &Vec<u32>) -> (r: Vec<u32>)
    ensures
        r@ == v@,
{
    let mut r: Vec<u32> = Vec::new();
    let mut i: usize = 0;
    while i < v.len()
        invariant
            i <= v@.len(),
            r@.len() == i,
            forall|j: int| 0 <= j < i ==> r@[j] == v@[j],
        decreases v@.len() - i,
    {
        r.push(v[i]);
        i = i + 1;
    }
    proof {
        assert(r@ =~= v@);
    }
    r
}

/// Whether rule `k` forbids page `pages[i]` from preceding page
/// `pages[j]`: the rule demands the later page before the earlier one.
pub open spec fn pair_rule_match(pages: Seq<u32>, rules: Seq<Rule>, i: int, j: int, k: int) -> bool {
    rules[k].a == pages[j] && rules[k].b == pages[i]
}

/// Whether some rule forbids the order of some page pair of the update.
pub open spec fn misordered(pages: Seq<u32>, rules: Seq<Rule>) -> bool {
    exists|i: int, j: int, k: int|
        0 <= i < j < pages.len() && 0 <= k < rules.len() && #[trigger] pair_rule_match(
            pages,
            rules,
            i,
            j,
            k,
        )
}

impl Update {
    /// Whether some rule disallows the order in which this update lists
    /// its pages.
    pub fn is_misordered(&self, rules: &Vec<Rule>) -> (r: bool)
        ensures
            r == misordered(self.pages@, rules@),
    {
        let pages = &self.pages;
        let n = pages.len();
        let mut i: usize = 0;
        while i < n
            invariant
                n == pages@.len(),
                pages@ == self.pages@,
                i <= n,
                forall|i2: int, j2: int, k2: int|
                    0 <= i2 < j2 < n && 0 <= k2 < rules@.len() && i2 < i
                        ==> !#[trigger] pair_rule_match(pages@, rules@, i2, j2, k2),
            decreases n - i,
        {
            let mut j: usize = i + 1;
            while j < n
                invariant
                    n == pages@.len(),
                    pages@ == self.pages@,
                    i < j <= n,
                    forall|i2: int, j2: int, k2: int|
                        0 <= i2 < j2 < n && 0 <= k2 < rules@.len() && (i2 < i || (i2 == i && j2
                            < j)) ==> !#[trigger] pair_rule_match(pages@, rules@, i2, j2, k2),
                decreases n - j,
            {
                let a = pages[i];
                let b = pages[j];
                let mut k: usize = 0;
                while k < rules.len()
                    invariant
                        n == pages@.len(),
                        pages@ == self.pages@,
                        i < j < n,
                        a == pages@[i as int],
                        b == pages@[j as int],
                        k <= rules@.len(),
                        forall|k2: int|
                            0 <= k2 < k ==> !#[trigger] pair_rule_match(
                                pages@,
                                rules@,
                                i as int,
                                j as int,
                                k2,
                            ),
                    decreases rules@.len() - k,
                {
                    let rule = &rules[k];
                    if rule.a == b && rule.b == a {
                        proof {
                            assert(pair_rule_match(pages@, rules@, i as int, j as int, k as int));
                        }
                        return true;
                    }
                    k = k + 1;
                }
                j = j + 1;
            }
            i = i + 1;
        }
        false
    }

    /// The page in the middle of the update.
    pub fn middle_page(&self) -> (r: u32)
        requires
            self.pages@.len() > 0,
        ensures
            r == self.pages@[self.pages@.len() as int / 2],
    {
        self.pages[self.pages.len() / 2]
    }

    /// Reorder the pages by repeated rule-driven pairwise exchanges: for
    /// every position pair, the pair is exchanged once per rule that
    /// demands the later page before the earlier one.
    pub fn sort(&self, rules: &Vec<Rule>) -> (r: Update)
        requires
            self.pages@.len() >= 1,
        ensures
            r.pages@ == sort_passes(self.pages@, rules@, 0),
            r.pages@.len() == self.pages@.len(),
    {
        let ghost orig: Seq<u32> = self.pages@;
        let mut pages = clone_pages(&self.pages);
        let len = pages.len();
        let mut a_idx: usize = 0;
        while a_idx + 1 < len
            invariant
                len == pages@.len(),
                len == orig.len(),
                len >= 1,
                a_idx < len,
                sort_passes(orig, rules@, 0) == sort_passes(pages@, rules@, a_idx as int),
            decreases len - a_idx,
        {
            let ghost entry: Seq<u32> = pages@;
            let mut b_idx: usize = a_idx;
            while b_idx < len
                invariant
                    len == pages@.len(),
                    len == entry.len(),
                    a_idx < len,
                    a_idx <= b_idx <= len,
                    inner_pass(entry, rules@, a_idx as int, a_idx as int) == inner_pass(
                        pages@,
                        rules@,
                        a_idx as int,
                        b_idx as int,
                    ),
                decreases len - b_idx,
            {
                let ghost pre: Seq<u32> = pages@;
                let pa = pages[a_idx];
                let pb = pages[b_idx];
                let mut cnt: usize = 0;
                let mut ri: usize = 0;
                while ri < rules.len()
                    invariant
                        ri <= rules@.len(),
                        cnt <= ri,
                        cnt == match_count(rules@, pa, pb, ri as int),
                    decreases rules@.len() - ri,
                {
                    let rule = &rules[ri];
                    if rule.b == pa && rule.a == pb {
                        cnt = cnt + 1;
                    }
                    ri = ri + 1;
                }
                if cnt % 2 == 1 {
                    pages[a_idx] = pb;
                    pages[b_idx] = pa;
                }
                proof {
                    assert(pages@ == swap_step(pre, rules@, a_idx as int, b_idx as int));
                    assert(inner_pass(pre, rules@, a_idx as int, b_idx as int) == inner_pass(
                        pages@,
                        rules@,
                        a_idx as int,
                        b_idx as int + 1,
                    ));
                }
                b_idx = b_idx + 1;
            }
            a_idx = a_idx + 1;
        }
        Update { pages }
    }
}

} // verus!
