//! Antinode geometry: antennas of one frequency stand on a grid, and
//! every ordered pair of antennas projects antinodes along the line
//! through the pair.  The first answer collects the two classic
//! antinodes of each pair; the second collects the antennas themselves
//! and every further grid point reached by stepping the pair's offset
//! outward until the grid is left.

use vstd::prelude::*;

verus! {

/// A two-dimensional vector.
#[derive(Clone, Copy, PartialEq, Eq, Structural, Debug, Hash)]
pub struct Vec2<T> {
    pub x: T,
    pub y: T,
}

/// Coordinate bound under which all antinode arithmetic stays inside
/// `isize` on every machine.
pub open spec fn coord_bound() -> int {
    0x10000000
}

/// A point as a pair of mathematical integers.
pub open spec fn pt_of(v: Vec2<isize>) -> (int, int) {
    (v.x as int, v.y as int)
}

/// Whether an integer point lies on the grid.
pub open spec fn inside_pt(p: (int, int), size: Vec2<usize>) -> bool {
    0 <= p.0 < size.x && 0 <= p.1 < size.y
}

impl Vec2<isize> {
    /// Whether this point lies on the grid.
    pub fn is_inside(&self, size: &Vec2<usize>) -> (r: bool)
        ensures
            r == inside_pt(pt_of(*self), *size),
    {
        if self.x < 0 || self.y < 0 {
            return false;
        }
        (self.x as usize) < size.x && (self.y as usize) < size.y
    }

    /// Component-wise sum.
    pub fn add(self, rhs: Vec2<isize>) -> (r: Vec2<isize>)
        requires
            isize::MIN <= self.x + rhs.x <= isize::MAX,
            isize::MIN <= self.y + rhs.y <= isize::MAX,
        ensures
            r.x == self.x + rhs.x,
            r.y == self.y + rhs.y,
    {
        Vec2 { x: self.x + rhs.x, y: self.y + rhs.y }
    }

    /// Component-wise difference.
    pub fn sub(self, rhs: Vec2<isize>) -> (r: Vec2<isize>)
        requires
            isize::MIN <= self.x - rhs.x <= isize::MAX,
            isize::MIN <= self.y - rhs.y <= isize::MAX,
        ensures
            r.x == self.x - rhs.x,
            r.y == self.y - rhs.y,
    {
        Vec2 { x: self.x - rhs.x, y: self.y - rhs.y }
    }
}

/// No point occurs twice in the buffer.
pub open spec fn no_dups(v: Seq<Vec2<isize>>) -> bool {
    forall|i: int, j: int| 0 <= i < j < v.len() ==> v[i] != v[j]
}

/// Append `p` unless it is already present.
fn insert_unique(out: &mut Vec<Vec2<isize>>, p: Vec2<isize>)
    requires
        no_dups(old(out)@),
    ensures
        no_dups(final(out)@),
        forall|q: Vec2<isize>| final(out)@.contains(q) <==> old(out)@.contains(q) || q == p,
{
    let mut i: usize = 0;
    while i < out.len()
        invariant
            out@ == old(out)@,
            no_dups(out@),
            i <= out@.len(),
            forall|k: int| 0 <= k < i ==> out@[k] != p,
        decreases out@.len() - i,
    {
        if out[i] == p {
            proof {
                assert(out@.contains(p));
            }
            return ;
        }
        i = i + 1;
    }
    proof {
        assert(forall|k: int| 0 <= k < out@.len() ==> out@[k] != p);
    }
    let ghost before: Seq<Vec2<isize>> = out@;
    out.push(p);
    proof {
        assert forall|q: Vec2<isize>| out@.contains(q) implies before.contains(q) || q == p by {
            if q != p {
                let k = choose|k: int| 0 <= k < out@.len() && out@[k] == q;
                assert(before[k] == q);
            }
        }
        assert forall|q: Vec2<isize>| before.contains(q) implies out@.contains(q) by {
            let k = choose|k: int| 0 <= k < before.len() && before[k] == q;
            assert(out@[k] == q);
        }
        assert(out@[out@.len() - 1] == p);
        assert(out@.contains(p));
        assert forall|i2: int, j2: int| 0 <= i2 < j2 < out@.len() implies out@[i2] != out@[j2] by {
            if j2 == out@.len() - 1 {
                assert(out@[i2] == before[i2]);
            }
        }
    }
}

/// Merge the points of `items` into `acc`, keeping each point once:
/// afterwards `acc` holds exactly the union of both.
pub fn merge_unique(acc: &mut Vec<Vec2<isize>>, items: &Vec<Vec2<isize>>)
    requires
        no_dups(old(acc)@),
    ensures
        no_dups(final(acc)@),
        forall|q: Vec2<isize>|
            final(acc)@.contains(q) <==> old(acc)@.contains(q) || items@.contains(q),
{
    let mut i: usize = 0;
    while i < items.len()
        invariant
            no_dups(acc@),
            i <= items@.len(),
            forall|q: Vec2<isize>|
                acc@.contains(q) <==> old(acc)@.contains(q) || exists|t: int|
                    0 <= t < i && items@[t] == q,
        decreases items@.len() - i,
    {
        insert_unique(acc, items[i]);
        i = i + 1;
    }
    proof {
        assert forall|q: Vec2<isize>| items@.contains(q) implies exists|t: int|
            0 <= t < items@.len() && items@[t] == q by {}
    }
}

/// The `k`-th point of the ray from `anchor` stepping by `d`.
pub open spec fn ray_pt(anchor: (int, int), d: (int, int), k: int) -> (int, int) {
    (anchor.0 + k * d.0, anchor.1 + k * d.1)
}

/// Whether `q` is a collected ray point: some step `k >= 1` lands on it
/// with every step up to `k` still on the grid.
pub open spec fn ray_hit(anchor: (int, int), d: (int, int), size: Vec2<usize>, q: Vec2<isize>) -> bool {
    exists|k: int|
        1 <= k && pt_of(q) == ray_pt(anchor, d, k) && forall|t: int|
            1 <= t <= k ==> inside_pt(#[trigger] ray_pt(anchor, d, t), size)
}

/// The ray points collected up to step `kmax`.
spec fn ray_hit_upto(anchor: (int, int), d: (int, int), size: Vec2<usize>, q: Vec2<isize>, kmax: int) -> bool {
    exists|k: int|
        1 <= k <= kmax && pt_of(q) == ray_pt(anchor, d, k) && forall|t: int|
            1 <= t <= k ==> inside_pt(#[trigger] ray_pt(anchor, d, t), size)
}

/// Walk the ray from `anchor` by steps of `d`, inserting every point
/// while it stays on the grid, and stopping at the first point outside.
fn collect_ray(out: &mut Vec<Vec2<isize>>, anchor: Vec2<isize>, d: Vec2<isize>, size: &Vec2<usize>)
    requires
        no_dups(old(out)@),
        d.x != 0 || d.y != 0,
        -2 * coord_bound() <= anchor.x <= 2 * coord_bound(),
        -2 * coord_bound() <= anchor.y <= 2 * coord_bound(),
        -coord_bound() <= d.x <= coord_bound(),
        -coord_bound() <= d.y <= coord_bound(),
        size.x <= coord_bound(),
        size.y <= coord_bound(),
    ensures
        no_dups(final(out)@),
        forall|q: Vec2<isize>|
            final(out)@.contains(q) <==> old(out)@.contains(q) || ray_hit(
                pt_of(anchor),
                pt_of(d),
                *size,
                q,
            ),
{
    let ghost a: (int, int) = pt_of(anchor);
    let ghost dd: (int, int) = pt_of(d);
    let mut w = anchor;
    let ghost mut k: int = 0;
    loop
        invariant
            no_dups(out@),
            d.x != 0 || d.y != 0,
            a == pt_of(anchor),
            dd == pt_of(d),
            -2 * coord_bound() <= anchor.x <= 2 * coord_bound(),
            -2 * coord_bound() <= anchor.y <= 2 * coord_bound(),
            -coord_bound() <= d.x <= coord_bound(),
            -coord_bound() <= d.y <= coord_bound(),
            size.x <= coord_bound(),
            size.y <= coord_bound(),
            0 <= k,
            pt_of(w) == ray_pt(a, dd, k),
            k >= 1 ==> inside_pt(pt_of(w), *size),
            forall|t: int| 1 <= t <= k ==> inside_pt(#[trigger] ray_pt(a, dd, t), *size),
            k <= 7 * coord_bound(),
            forall|q: Vec2<isize>|
                out@.contains(q) <==> old(out)@.contains(q) || ray_hit_upto(a, dd, *size, q, k),
        decreases 7 * coord_bound() - k,
    {
        proof {
            if k == 0 {
                assert(k * dd.0 == 0 && k * dd.1 == 0) by (nonlinear_arith)
                    requires
                        k == 0,
                ;
                assert(w.x == anchor.x && w.y == anchor.y);
            } else {
                assert(inside_pt(pt_of(w), *size));
            }
        }
        let next = w.add(d);
        proof {
            assert(pt_of(next) == ray_pt(a, dd, k + 1)) by {
                assert((k + 1) * dd.0 == k * dd.0 + dd.0) by (nonlinear_arith);
                assert((k + 1) * dd.1 == k * dd.1 + dd.1) by (nonlinear_arith);
            }
        }
        if !next.is_inside(size) {
            proof {
                assert forall|q: Vec2<isize>|
                    ray_hit(a, dd, *size, q) implies ray_hit_upto(a, dd, *size, q, k) by {
                    let kq = choose|kq: int|
                        1 <= kq && pt_of(q) == ray_pt(a, dd, kq) && forall|t: int|
                            1 <= t <= kq ==> inside_pt(#[trigger] ray_pt(a, dd, t), *size);
                    if kq > k {
                        assert(inside_pt(ray_pt(a, dd, k + 1), *size));
                        assert(false);
                    }
                }
            }
            return ;
        }
        insert_unique(out, next);
        proof {
            k = k + 1;
            if k > 7 * coord_bound() {
                lemma_ray_leaves(a, dd, *size, k);
                assert(false);
            }
        }
        w = next;
    }
}

/// The classic antinode beyond antenna `i`, away from antenna `j`.
pub open spec fn anti1(ants: Seq<Vec2<isize>>, i: int, j: int) -> (int, int) {
    (2 * ants[i].x - ants[j].x, 2 * ants[i].y - ants[j].y)
}

/// The classic antinode beyond antenna `j`, away from antenna `i`.
pub open spec fn anti2(ants: Seq<Vec2<isize>>, i: int, j: int) -> (int, int) {
    (2 * ants[j].x - ants[i].x, 2 * ants[j].y - ants[i].y)
}

/// The offset from antenna `i` to antenna `j`.
pub open spec fn delta_of(ants: Seq<Vec2<isize>>, i: int, j: int) -> (int, int) {
    (ants[j].x - ants[i].x, ants[j].y - ants[i].y)
}

/// The opposite offset.
pub open spec fn neg_pt(d: (int, int)) -> (int, int) {
    (-d.0, -d.1)
}

/// What the antenna pair `(i, j)` contributes to the first answer: its
/// two classic antinodes, kept only when they lie on the grid.
pub open spec fn p1_contrib(
    ants: Seq<Vec2<isize>>,
    size: Vec2<usize>,
    i: int,
    j: int,
    q: Vec2<isize>,
) -> bool {
    inside_pt(pt_of(q), size) && (pt_of(q) == anti1(ants, i, j) || pt_of(q) == anti2(ants, i, j))
}

/// What the antenna pair `(i, j)` contributes to the second answer: the
/// two antennas themselves and every further ray point walked outward
/// from the classic antinodes while the grid is not left.
pub open spec fn p2_contrib(
    ants: Seq<Vec2<isize>>,
    size: Vec2<usize>,
    i: int,
    j: int,
    q: Vec2<isize>,
) -> bool {
    ||| q == ants[i]
    ||| q == ants[j]
    ||| ray_hit(anti1(ants, i, j), neg_pt(delta_of(ants, i, j)), size, q)
    ||| ray_hit(anti2(ants, i, j), delta_of(ants, i, j), size, q)
}

/// Whether `q` is a first-answer antinode of some antenna pair.
pub open spec fn is_p1_antinode(ants: Seq<Vec2<isize>>, size: Vec2<usize>, q: Vec2<isize>) -> bool {
    exists|i: int, j: int| 0 <= i < j < ants.len() && p1_contrib(ants, size, i, j, q)
}

/// Whether `q` is a second-answer point of some antenna pair.
pub open spec fn is_p2_antinode(ants: Seq<Vec2<isize>>, size: Vec2<usize>, q: Vec2<isize>) -> bool {
    exists|i: int, j: int| 0 <= i < j < ants.len() && p2_contrib(ants, size, i, j, q)
}

/// First-answer membership over the pairs that precede `(bi, bj)` in
/// the scan order.
spec fn p1_upto(
    ants: Seq<Vec2<isize>>,
    size: Vec2<usize>,
    q: Vec2<isize>,
    bi: int,
    bj: int,
) -> bool {
    exists|i: int, j: int|
        0 <= i < j < ants.len() && (i < bi || (i == bi && j < bj)) && p1_contrib(
            ants,
            size,
            i,
            j,
            q,
        )
}

/// Second-answer membership over the pairs that precede `(bi, bj)`.
spec fn p2_upto(
    ants: Seq<Vec2<isize>>,
    size: Vec2<usize>,
    q: Vec2<isize>,
    bi: int,
    bj: int,
) -> bool {
    exists|i: int, j: int|
        0 <= i < j < ants.len() && (i < bi || (i == bi && j < bj)) && p2_contrib(
            ants,
            size,
            i,
            j,
            q,
        )
}

/// A well-formed antenna arrangement: the grid fits the machine bound,
/// every antenna stands on the grid, and no two antennas share a cell.
pub open spec fn ants_ok(ants: Seq<Vec2<isize>>, size: Vec2<usize>) -> bool {
    &&& size.x <= coord_bound()
    &&& size.y <= coord_bound()
    &&& forall|i: int| 0 <= i < ants.len() ==> inside_pt(pt_of(#[trigger] ants[i]), size)
    &&& forall|i: int, j: int| 0 <= i < j < ants.len() ==> ants[i] != ants[j]
}

/// All antennas of one frequency, with the antinode buffers the search
/// fills.
pub struct Frequency {
    pub antennae: Vec<Vec2<isize>>,
    pub part_1: Vec<Vec2<isize>>,
    pub part_2: Vec<Vec2<isize>>,
}

impl Frequency {
    /// Fill the two antinode buffers from every antenna pair: the
    /// classic pair antinodes that lie on the grid, and the resonant
    /// line points (antennas included) for the second answer.  Each
    /// buffer ends up holding each point exactly once.
    pub fn find_antinodes(&mut self, size: &Vec2<usize>)
        requires
            old(self).part_1@.len() == 0,
            old(self).part_2@.len() == 0,
            ants_ok(old(self).antennae@, *size),
        ensures
            final(self).antennae == old(self).antennae,
            no_dups(final(self).part_1@),
            no_dups(final(self).part_2@),
            forall|q: Vec2<isize>|
                final(self).part_1@.contains(q) <==> is_p1_antinode(old(self).antennae@, *size, q),
            forall|q: Vec2<isize>|
                final(self).part_2@.contains(q) <==> is_p2_antinode(old(self).antennae@, *size, q),
    {
        let ghost ants: Seq<Vec2<isize>> = self.antennae@;
        let n = self.antennae.len();
        let mut fi: usize = 0;
        while fi < n
            invariant
                ants == self.antennae@,
                self.antennae == old(self).antennae,
                n == ants.len(),
                fi <= n,
                ants_ok(ants, *size),
                no_dups(self.part_1@),
                no_dups(self.part_2@),
                forall|q: Vec2<isize>|
                    self.part_1@.contains(q) <==> p1_upto(ants, *size, q, fi as int, fi as int + 1),
                forall|q: Vec2<isize>|
                    self.part_2@.contains(q) <==> p2_upto(ants, *size, q, fi as int, fi as int + 1),
            decreases n - fi,
        {
            let mut se: usize = fi + 1;
            while se < n
                invariant
                    ants == self.antennae@,
                    self.antennae == old(self).antennae,
                    n == ants.len(),
                    fi < n,
                    fi < se <= n,
                    ants_ok(ants, *size),
                    no_dups(self.part_1@),
                    no_dups(self.part_2@),
                    forall|q: Vec2<isize>|
                        self.part_1@.contains(q) <==> p1_upto(ants, *size, q, fi as int, se as int),
                    forall|q: Vec2<isize>|
                        self.part_2@.contains(q) <==> p2_upto(ants, *size, q, fi as int, se as int),
                decreases n - se,
            {
                let ghost i: int = fi as int;
                let ghost j: int = se as int;
                let first = self.antennae[fi];
                let second = self.antennae[se];
                proof {
                    assert(inside_pt(pt_of(ants[i]), *size));
                    assert(inside_pt(pt_of(ants[j]), *size));
                    assert(ants[i] != ants[j]);
                }
                let delta = second.sub(first);
                let first_antinode = first.sub(delta);
                let second_antinode = second.add(delta);
                let ghost p1_entry: Seq<Vec2<isize>> = self.part_1@;
                let ghost p2_entry: Seq<Vec2<isize>> = self.part_2@;
                if first_antinode.is_inside(size) {
                    insert_unique(&mut self.part_1, first_antinode);
                }
                if second_antinode.is_inside(size) {
                    insert_unique(&mut self.part_1, second_antinode);
                }
                proof {
                    assert(pt_of(first_antinode) == anti1(ants, i, j));
                    assert(pt_of(second_antinode) == anti2(ants, i, j));
                    assert forall|q: Vec2<isize>|
                        self.part_1@.contains(q) <==> (p1_entry.contains(q) || p1_contrib(
                            ants,
                            *size,
                            i,
                            j,
                            q,
                        )) by {
                        if pt_of(q) == pt_of(first_antinode) {
                            assert(q == first_antinode);
                        }
                        if pt_of(q) == pt_of(second_antinode) {
                            assert(q == second_antinode);
                        }
                    }
                }
                let neg_delta = first.sub(second);
                insert_unique(&mut self.part_2, first);
                insert_unique(&mut self.part_2, second);
                collect_ray(&mut self.part_2, first_antinode, neg_delta, size);
                collect_ray(&mut self.part_2, second_antinode, delta, size);
                proof {
                    assert(pt_of(neg_delta) == neg_pt(delta_of(ants, i, j)));
                    assert(pt_of(delta) == delta_of(ants, i, j));
                    assert(forall|q: Vec2<isize>|
                        self.part_2@.contains(q) <==> (p2_entry.contains(q) || p2_contrib(
                            ants,
                            *size,
                            i,
                            j,
                            q,
                        )));
                    assert forall|q: Vec2<isize>|
                        self.part_1@.contains(q) implies p1_upto(ants, *size, q, i, j + 1) by {
                        if p1_entry.contains(q) {
                            let (i2, j2): (int, int) = choose|i2: int, j2: int|
                                0 <= i2 < j2 < ants.len() && (i2 < i || (i2 == i && j2 < j))
                                    && p1_contrib(ants, *size, i2, j2, q);
                            assert(0 <= i2 < j2 < ants.len() && (i2 < i || (i2 == i && j2 < j + 1))
                                && p1_contrib(ants, *size, i2, j2, q));
                        }
                    }
                    assert forall|q: Vec2<isize>|
                        p1_upto(ants, *size, q, i, j + 1) implies self.part_1@.contains(q) by {
                        let (i2, j2): (int, int) = choose|i2: int, j2: int|
                            0 <= i2 < j2 < ants.len() && (i2 < i || (i2 == i && j2 < j + 1))
                                && p1_contrib(ants, *size, i2, j2, q);
                        if i2 < i || (i2 == i && j2 < j) {
                            assert(p1_upto(ants, *size, q, i, j));
                        } else {
                            assert(i2 == i && j2 == j);
                        }
                    }
                    assert forall|q: Vec2<isize>|
                        self.part_2@.contains(q) implies p2_upto(ants, *size, q, i, j + 1) by {
                        if p2_entry.contains(q) {
                            let (i2, j2): (int, int) = choose|i2: int, j2: int|
                                0 <= i2 < j2 < ants.len() && (i2 < i || (i2 == i && j2 < j))
                                    && p2_contrib(ants, *size, i2, j2, q);
                            assert(0 <= i2 < j2 < ants.len() && (i2 < i || (i2 == i && j2 < j + 1))
                                && p2_contrib(ants, *size, i2, j2, q));
                        }
                    }
                    assert forall|q: Vec2<isize>|
                        p2_upto(ants, *size, q, i, j + 1) implies self.part_2@.contains(q) by {
                        let (i2, j2): (int, int) = choose|i2: int, j2: int|
                            0 <= i2 < j2 < ants.len() && (i2 < i || (i2 == i && j2 < j + 1))
                                && p2_contrib(ants, *size, i2, j2, q);
                        if i2 < i || (i2 == i && j2 < j) {
                            assert(p2_upto(ants, *size, q, i, j));
                        } else {
                            assert(i2 == i && j2 == j);
                        }
                    }
                }
                se = se + 1;
            }
            proof {
                let bi: int = fi as int;
                assert forall|q: Vec2<isize>|
                    p1_upto(ants, *size, q, bi, n as int) implies p1_upto(
                    ants,
                    *size,
                    q,
                    bi + 1,
                    bi + 2,
                ) by {
                    let (i2, j2): (int, int) = choose|i2: int, j2: int|
                        0 <= i2 < j2 < ants.len() && (i2 < bi || (i2 == bi && j2 < n))
                            && p1_contrib(ants, *size, i2, j2, q);
                    assert(i2 < bi + 1 && p1_contrib(ants, *size, i2, j2, q));
                }
                assert forall|q: Vec2<isize>|
                    p1_upto(ants, *size, q, bi + 1, bi + 2) implies p1_upto(
                    ants,
                    *size,
                    q,
                    bi,
                    n as int,
                ) by {
                    let (i2, j2): (int, int) = choose|i2: int, j2: int|
                        0 <= i2 < j2 < ants.len() && (i2 < bi + 1 || (i2 == bi + 1 && j2 < bi + 2))
                            && p1_contrib(ants, *size, i2, j2, q);
                    assert(i2 <= bi && j2 < n);
                }
                assert forall|q: Vec2<isize>|
                    p2_upto(ants, *size, q, bi, n as int) implies p2_upto(
                    ants,
                    *size,
                    q,
                    bi + 1,
                    bi + 2,
                ) by {
                    let (i2, j2): (int, int) = choose|i2: int, j2: int|
                        0 <= i2 < j2 < ants.len() && (i2 < bi || (i2 == bi && j2 < n))
                            && p2_contrib(ants, *size, i2, j2, q);
                    assert(i2 < bi + 1 && p2_contrib(ants, *size, i2, j2, q));
                }
                assert forall|q: Vec2<isize>|
                    p2_upto(ants, *size, q, bi + 1, bi + 2) implies p2_upto(
                    ants,
                    *size,
                    q,
                    bi,
                    n as int,
                ) by {
                    let (i2, j2): (int, int) = choose|i2: int, j2: int|
                        0 <= i2 < j2 < ants.len() && (i2 < bi + 1 || (i2 == bi + 1 && j2 < bi + 2))
                            && p2_contrib(ants, *size, i2, j2, q);
                    assert(i2 <= bi && j2 < n);
                }
            }
            fi = fi + 1;
        }
        proof {
            assert forall|q: Vec2<isize>|
                self.part_1@.contains(q) implies is_p1_antinode(ants, *size, q) by {
                let (i2, j2): (int, int) = choose|i2: int, j2: int|
                    0 <= i2 < j2 < ants.len() && (i2 < n || (i2 == n && j2 < n + 1)) && p1_contrib(
                        ants,
                        *size,
                        i2,
                        j2,
                        q,
                    );
                assert(p1_contrib(ants, *size, i2, j2, q));
            }
            assert forall|q: Vec2<isize>|
                is_p1_antinode(ants, *size, q) implies self.part_1@.contains(q) by {
                let (i2, j2): (int, int) = choose|i2: int, j2: int|
                    0 <= i2 < j2 < ants.len() && p1_contrib(ants, *size, i2, j2, q);
                assert(p1_upto(ants, *size, q, n as int, n as int + 1));
            }
            assert forall|q: Vec2<isize>|
                self.part_2@.contains(q) implies is_p2_antinode(ants, *size, q) by {
                let (i2, j2): (int, int) = choose|i2: int, j2: int|
                    0 <= i2 < j2 < ants.len() && (i2 < n || (i2 == n && j2 < n + 1)) && p2_contrib(
                        ants,
                        *size,
                        i2,
                        j2,
                        q,
                    );
                assert(p2_contrib(ants, *size, i2, j2, q));
            }
            assert forall|q: Vec2<isize>|
                is_p2_antinode(ants, *size, q) implies self.part_2@.contains(q) by {
                let (i2, j2): (int, int) = choose|i2: int, j2: int|
                    0 <= i2 < j2 < ants.len() && p2_contrib(ants, *size, i2, j2, q);
                assert(p2_upto(ants, *size, q, n as int, n as int + 1));
            }
        }
    }
}

/// Whether `c` marks an antenna (an ASCII letter or digit).
pub open spec fn is_antenna_char(c: char) -> bool {
    ||| '0' as u32 <= c as u32 && c as u32 <= '9' as u32
    ||| 'a' as u32 <= c as u32 && c as u32 <= 'z' as u32
    ||| 'A' as u32 <= c as u32 && c as u32 <= 'Z' as u32
}

/// The character rows as mathematical sequences.
pub open spec fn rows_model(lines: Seq<Vec<char>>) -> Seq<Seq<char>> {
    Seq::new(lines.len(), |i: int| lines[i]@)
}

/// The length of the longest of the first `n` rows.
pub open spec fn max_width(ls: Seq<Seq<char>>, n: int) -> int
    decreases n,
{
    if n <= 0 {
        0
    } else if ls[n - 1].len() >= max_width(ls, n - 1) {
        ls[n - 1].len() as int
    } else {
        max_width(ls, n - 1)
    }
}

/// The antennas of the first `n` characters of row `y`, in scan order.
pub open spec fn row_antennas(row: Seq<char>, y: int, n: int) -> Seq<(char, Vec2<isize>)>
    decreases n,
{
    if n <= 0 {
        Seq::empty()
    } else if is_antenna_char(row[n - 1]) {
        row_antennas(row, y, n - 1).push((row[n - 1], Vec2 { x: (n - 1) as isize, y: y as isize }))
    } else {
        row_antennas(row, y, n - 1)
    }
}

/// The antennas of the first `n` rows, in scan order.
pub open spec fn grid_antennas(ls: Seq<Seq<char>>, n: int) -> Seq<(char, Vec2<isize>)>
    decreases n,
{
    if n <= 0 {
        Seq::empty()
    } else {
        grid_antennas(ls, n - 1) + row_antennas(ls[n - 1], n - 1, ls[n - 1].len() as int)
    }
}

/// Scan the rows for antenna markers: every ASCII letter or digit, as
/// `(frequency character, position)` in row-major scan order.
pub fn scan_antennas(lines: &Vec<Vec<char>>) -> (r: Vec<(char, Vec2<isize>)>)
    requires
        lines@.len() <= coord_bound(),
        forall|y: int| 0 <= y < lines@.len() ==> (#[trigger] lines@[y])@.len() <= coord_bound(),
    ensures
        r@ == grid_antennas(rows_model(lines@), lines@.len() as int),
{
    let ghost ls: Seq<Seq<char>> = rows_model(lines@);
    let mut r: Vec<(char, Vec2<isize>)> = Vec::new();
    let mut y: usize = 0;
    while y < lines.len()
        invariant
            ls == rows_model(lines@),
            lines@.len() <= coord_bound(),
            forall|t: int| 0 <= t < lines@.len() ==> (#[trigger] lines@[t])@.len() <= coord_bound(),
            y <= lines@.len(),
            r@ == grid_antennas(ls, y as int),
        decreases lines@.len() - y,
    {
        let row = &lines[y];
        let mut x: usize = 0;
        while x < row.len()
            invariant
                ls == rows_model(lines@),
                lines@.len() <= coord_bound(),
                y < lines@.len(),
                row@ == ls[y as int],
                row@.len() <= coord_bound(),
                x <= row@.len(),
                r@ == grid_antennas(ls, y as int) + row_antennas(ls[y as int], y as int, x as int),
            decreases row@.len() - x,
        {
            let c = row[x];
            let cu = c as u32;
            if (cu >= '0' as u32 && cu <= '9' as u32) || (cu >= 'a' as u32 && cu <= 'z' as u32)
                || (cu >= 'A' as u32 && cu <= 'Z' as u32) {
                r.push((c, Vec2 { x: x as isize, y: y as isize }));
            }
            x = x + 1;
        }
        y = y + 1;
    }
    r
}

/// The positions among the first `n` scanned antennas whose frequency
/// is `c`.
pub open spec fn positions_of(flat: Seq<(char, Vec2<isize>)>, c: char, n: int) -> Seq<Vec2<isize>>
    decreases n,
{
    if n <= 0 {
        Seq::empty()
    } else if flat[n - 1].0 == c {
        positions_of(flat, c, n - 1).push(flat[n - 1].1)
    } else {
        positions_of(flat, c, n - 1)
    }
}

/// Whether some entry of the frequency list carries character `c`.
pub open spec fn has_frequency(fs: Seq<(char, Frequency)>, c: char) -> bool {
    exists|k: int| 0 <= k < fs.len() && (#[trigger] fs[k]).0 == c
}

/// Whether character `c` occurs among the first `n` scanned antennas.
pub open spec fn char_occurs(flat: Seq<(char, Vec2<isize>)>, c: char, n: int) -> bool {
    exists|t: int| 0 <= t < n && (#[trigger] flat[t]).0 == c
}

/// All antennas grouped by frequency, with the grid size.
pub struct AntennaMap {
    pub size: Vec2<usize>,
    pub frequencies: Vec<(char, Frequency)>,
}

impl AntennaMap {
    /// Build the frequency map from text rows: the grid size is the
    /// longest row by the row count, and every ASCII letter or digit
    /// becomes an antenna of its character's frequency.  Each frequency
    /// appears once and carries exactly its scanned positions, with the
    /// antinode buffers empty.
    pub fn from_lines(lines: &Vec<Vec<char>>) -> (r: AntennaMap)
        requires
            lines@.len() <= coord_bound(),
            forall|y: int| 0 <= y < lines@.len() ==> (#[trigger] lines@[y])@.len() <= coord_bound(),
        ensures
            ({
                let flat = grid_antennas(rows_model(lines@), lines@.len() as int);
                &&& r.size.y == lines@.len()
                &&& r.size.x == max_width(rows_model(lines@), lines@.len() as int)
                &&& forall|k1: int, k2: int|
                    0 <= k1 < k2 < r.frequencies@.len() ==> (#[trigger] r.frequencies@[k1]).0 != (
                    #[trigger] r.frequencies@[k2]).0
                &&& forall|k: int|
                    0 <= k < r.frequencies@.len() ==> {
                        let e = #[trigger] r.frequencies@[k];
                        e.1.antennae@ == positions_of(flat, e.0, flat.len() as int)
                            && e.1.part_1@.len() == 0 && e.1.part_2@.len() == 0
                    }
                &&& forall|c: char|
                    char_occurs(flat, c, flat.len() as int) <==> #[trigger] has_frequency(
                        r.frequencies@,
                        c,
                    )
            }),
    {
        let ghost ls: Seq<Seq<char>> = rows_model(lines@);
        let flat = scan_antennas(lines);
        let ghost fl: Seq<(char, Vec2<isize>)> = flat@;
        let mut width: usize = 0;
        let mut y: usize = 0;
        while y < lines.len()
            invariant
                ls == rows_model(lines@),
                y <= lines@.len(),
                width == max_width(ls, y as int),
            decreases lines@.len() - y,
        {
            if lines[y].len() > width {
                width = lines[y].len();
            }
            y = y + 1;
        }
        let mut frequencies: Vec<(char, Frequency)> = Vec::new();
        let mut i: usize = 0;
        while i < flat.len()
            invariant
                fl == flat@,
                i <= fl.len(),
                forall|k1: int, k2: int|
                    0 <= k1 < k2 < frequencies@.len() ==> (#[trigger] frequencies@[k1]).0 != (
                    #[trigger] frequencies@[k2]).0,
                forall|k: int|
                    0 <= k < frequencies@.len() ==> {
                        let e = #[trigger] frequencies@[k];
                        e.1.antennae@ == positions_of(fl, e.0, fl.len() as int)
                            && e.1.part_1@.len() == 0 && e.1.part_2@.len() == 0
                    },
                forall|c: char|
                    char_occurs(fl, c, i as int) <==> #[trigger] has_frequency(frequencies@, c),
            decreases fl.len() - i,
        {
            let c = flat[i].0;
            let ghost fs_old: Seq<(char, Frequency)> = frequencies@;
            let mut known = false;
            let mut k: usize = 0;
            while k < frequencies.len() && !known
                invariant
                    k <= frequencies@.len(),
                    known ==> exists|k2: int|
                        0 <= k2 < frequencies@.len() && (#[trigger] frequencies@[k2]).0 == c,
                    !known ==> forall|k2: int|
                        0 <= k2 < k ==> (#[trigger] frequencies@[k2]).0 != c,
                decreases frequencies@.len() - k + if known {
                    0 as int
                } else {
                    1 as int
                },
            {
                if frequencies[k].0 == c {
                    known = true;
                } else {
                    k = k + 1;
                }
            }
            if !known {
                let mut ants: Vec<Vec2<isize>> = Vec::new();
                let mut t: usize = 0;
                while t < flat.len()
                    invariant
                        fl == flat@,
                        t <= fl.len(),
                        ants@ == positions_of(fl, c, t as int),
                    decreases fl.len() - t,
                {
                    if flat[t].0 == c {
                        ants.push(flat[t].1);
                    }
                    t = t + 1;
                }
                frequencies.push(
                    (c, Frequency { antennae: ants, part_1: Vec::new(), part_2: Vec::new() }),
                );
            }
            proof {
                let fs_new = frequencies@;
                assert(has_frequency(fs_new, c)) by {
                    if !known {
                        assert(fs_new[fs_new.len() - 1].0 == c);
                    }
                }
                assert forall|c2: char| char_occurs(fl, c2, i as int + 1) implies has_frequency(
                    fs_new,
                    c2,
                ) by {
                    let t = choose|t: int| 0 <= t < i + 1 && (#[trigger] fl[t]).0 == c2;
                    if t < i {
                        assert(char_occurs(fl, c2, i as int));
                        assert(has_frequency(fs_old, c2));
                        let k = choose|k: int|
                            0 <= k < fs_old.len() && (#[trigger] fs_old[k]).0 == c2;
                        assert(fs_new[k].0 == c2);
                    }
                }
                assert forall|c2: char| has_frequency(fs_new, c2) implies char_occurs(
                    fl,
                    c2,
                    i as int + 1,
                ) by {
                    let k = choose|k: int| 0 <= k < fs_new.len() && (#[trigger] fs_new[k]).0 == c2;
                    if k < fs_old.len() {
                        assert(fs_old[k].0 == c2);
                        assert(has_frequency(fs_old, c2));
                        assert(char_occurs(fl, c2, i as int));
                        let t = choose|t: int| 0 <= t < i && (#[trigger] fl[t]).0 == c2;
                        assert(fl[t].0 == c2 && t < i + 1);
                        assert(char_occurs(fl, c2, i as int + 1));
                    } else {
                        assert(c2 == c);
                        assert(fl[i as int].0 == c2 && i < i + 1);
                        assert(char_occurs(fl, c2, i as int + 1));
                    }
                }
            }
            i = i + 1;
        }
        AntennaMap { size: Vec2 { x: width, y: lines.len() }, frequencies }
    }
}

/// Because the step is nonzero, a ray point this far out cannot still
/// be on the grid: the nonzero coordinate has moved past every grid
/// column or row.
proof fn lemma_ray_leaves(a: (int, int), dd: (int, int), size: Vec2<usize>, k: int)
    requires
        dd.0 != 0 || dd.1 != 0,
        -2 * coord_bound() <= a.0 <= 2 * coord_bound(),
        -2 * coord_bound() <= a.1 <= 2 * coord_bound(),
        size.x <= coord_bound(),
        size.y <= coord_bound(),
        k > 7 * coord_bound() - 1,
    ensures
        !inside_pt(ray_pt(a, dd, k), size),
{
    if dd.0 >= 1 {
        assert(k * dd.0 >= k) by (nonlinear_arith)
            requires
                dd.0 >= 1,
                k >= 0,
        ;
    } else if dd.0 <= -1 {
        assert(k * dd.0 <= -k) by (nonlinear_arith)
            requires
                dd.0 <= -1,
                k >= 0,
        ;
    } else if dd.1 >= 1 {
        assert(k * dd.1 >= k) by (nonlinear_arith)
            requires
                dd.1 >= 1,
                k >= 0,
        ;
    } else {
        assert(k * dd.1 <= -k) by (nonlinear_arith)
            requires
                dd.1 <= -1,
                k >= 0,
        ;
    }
}

} // verus!
