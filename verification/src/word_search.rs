//! Word searching in character lines: counting occurrences of the word
//! `XMAS` read forwards and backwards.

use vstd::prelude::*;

verus! {

/// The word searched for, read forwards.
pub open spec fn xmas_pattern() -> Seq<char> {
    seq!['X', 'M', 'A', 'S']
}

/// The word searched for, read backwards.
pub open spec fn samx_pattern() -> Seq<char> {
    seq!['S', 'A', 'M', 'X']
}

/// Whether `pat` occurs in `s` starting at index `i`.
pub open spec fn occurs_at(s: Seq<char>, pat: Seq<char>, i: int) -> bool {
    0 <= i && i + pat.len() <= s.len() && forall|j: int| 0 <= j < pat.len() ==> s[i + j] == pat[j]
}

/// Number of indices below `n` at which `pat` occurs in `s`.
pub open spec fn occurrence_count(s: Seq<char>, pat: Seq<char>, n: int) -> int
    decreases n,
{
    if n <= 0 {
        0
    } else {
        occurrence_count(s, pat, n - 1) + if occurs_at(s, pat, n - 1) {
            1 as int
        } else {
            0
        }
    }
}

/// Whether `pat` occurs in `line` starting at index `i`.
pub fn pattern_at(line: &Vec<char>, pat: &Vec<char>, i: usize) -> (r: bool)
    requires
        i <= line@.len(),
    ensures
        r == occurs_at(line@, pat@, i as int),
{
    if line.len() - i < pat.len() {
        return false;
    }
    let mut j: usize = 0;
    while j < pat.len()
        invariant
            i + pat@.len() <= line@.len(),
            line@.len() <= usize::MAX,
            j <= pat@.len(),
            forall|k: int| 0 <= k < j ==> line@[i + k] == pat@[k],
        decreases pat@.len() - j,
    {
        if line[i + j] != pat[j] {
            return false;
        }
        j = j + 1;
    }
    true
}

/// The forward search word as a character buffer.
fn xmas_chars() -> (r: Vec<char>)
    ensures
        r@ == xmas_pattern(),
{
    let r = vec!['X', 'M', 'A', 'S'];
    proof {
        assert(r@ =~= xmas_pattern());
    }
    r
}

/// The backward search word as a character buffer.
fn samx_chars() -> (r: Vec<char>)
    ensures
        r@ == samx_pattern(),
{
    let r = vec!['S', 'A', 'M', 'X'];
    proof {
        assert(r@ =~= samx_pattern());
    }
    r
}

/// The first index at or after `from` where `XMAS` occurs in the line.
pub fn find_xmas(line: &Vec<char>, from: usize) -> (r: Option<usize>)
    requires
        from <= line@.len(),
    ensures
        match r {
            Some(p) => from <= p < line@.len() && occurs_at(line@, xmas_pattern(), p as int)
                && forall|k: int| from <= k < p ==> !occurs_at(line@, xmas_pattern(), k),
            None => forall|k: int| from <= k < line@.len() ==> !occurs_at(line@, xmas_pattern(), k),
        },
{
    let pat = xmas_chars();
    let mut i: usize = from;
    while i < line.len()
        invariant
            pat@ == xmas_pattern(),
            from <= i,
            i <= line@.len(),
            forall|k: int| from <= k < i ==> !occurs_at(line@, xmas_pattern(), k),
        decreases line@.len() - i,
    {
        if pattern_at(line, &pat, i) {
            return Some(i);
        }
        i = i + 1;
    }
    None
}

/// The first index at or after `from` where `SAMX` occurs in the line.
pub fn find_samx(line: &Vec<char>, from: usize) -> (r: Option<usize>)
    requires
        from <= line@.len(),
    ensures
        match r {
            Some(p) => from <= p < line@.len() && occurs_at(line@, samx_pattern(), p as int)
                && forall|k: int| from <= k < p ==> !occurs_at(line@, samx_pattern(), k),
            None => forall|k: int| from <= k < line@.len() ==> !occurs_at(line@, samx_pattern(), k),
        },
{
    let pat = samx_chars();
    let mut i: usize = from;
    while i < line.len()
        invariant
            pat@ == samx_pattern(),
            from <= i,
            i <= line@.len(),
            forall|k: int| from <= k < i ==> !occurs_at(line@, samx_pattern(), k),
        decreases line@.len() - i,
    {
        if pattern_at(line, &pat, i) {
            return Some(i);
        }
        i = i + 1;
    }
    None
}

/// The character rows as mathematical sequences.
pub open spec fn grid_of(lines: Seq<Vec<char>>) -> Seq<Seq<char>> {
    Seq::new(lines.len(), |i: int| lines[i]@)
}

/// Whether an `X`-shaped `MAS` pair is centred at column `x`, row `y`:
/// an `A` whose two diagonals each read `MAS` or `SAM`.
pub open spec fn cross_at(g: Seq<Seq<char>>, x: int, y: int) -> bool {
    let tl = g[y - 1][x - 1];
    let tr = g[y - 1][x + 1];
    let bl = g[y + 1][x - 1];
    let br = g[y + 1][x + 1];
    g[y][x] == 'A' && ((tl == 'M' && tr == 'M' && bl == 'S' && br == 'S') || (tl == 'M' && tr == 'S'
        && bl == 'M' && br == 'S') || (tl == 'S' && tr == 'M' && bl == 'S' && br == 'M') || (tl
        == 'S' && tr == 'S' && bl == 'M' && br == 'M'))
}

/// Number of crosses centred in row `y` at columns `1 .. n`.
pub open spec fn crosses_in_row(g: Seq<Seq<char>>, y: int, n: int) -> int
    decreases n,
{
    if n <= 1 {
        0
    } else {
        crosses_in_row(g, y, n - 1) + if cross_at(g, n - 1, y) {
            1 as int
        } else {
            0
        }
    }
}

/// Number of crosses centred in rows `1 .. n`, each row counted over
/// its interior columns.
pub open spec fn crosses_in_grid(g: Seq<Seq<char>>, w: int, n: int) -> int
    decreases n,
{
    if n <= 1 {
        0
    } else {
        crosses_in_grid(g, w, n - 1) + crosses_in_row(g, n - 1, w - 1)
    }
}

/// Count the `X`-shaped `MAS` pairs of the grid: centres range over the
/// interior cells, so the last row and column never host one.
pub fn count_crosses(lines: &Vec<Vec<char>>) -> (r: usize)
    requires
        forall|i: int|
            0 <= i < lines@.len() ==> (#[trigger] lines@[i])@.len() == lines@[0]@.len(),
        lines@.len() == 0 || lines@.len() * lines@[0]@.len() <= usize::MAX,
    ensures
        ({
            let g = grid_of(lines@);
            let w = if g.len() == 0 {
                0
            } else {
                g[0].len() as int
            };
            r == crosses_in_grid(g, w, (g.len() - 1) as int)
        }),
{
    let ghost g: Seq<Seq<char>> = grid_of(lines@);
    let h = lines.len();
    let w = if h == 0 {
        0
    } else {
        lines[0].len()
    };
    let mut count: usize = 0;
    let mut y: usize = 1;
    while y + 1 < h
        invariant
            g == grid_of(lines@),
            h == lines@.len(),
            h > 0 ==> w == g[0].len(),
            forall|i: int| 0 <= i < h ==> (#[trigger] lines@[i])@.len() == w,
            1 <= y,
            y == 1 || y + 1 <= h,
            h == 0 || h * w <= usize::MAX,
            count <= (y - 1) * w,
            count == crosses_in_grid(g, w as int, y as int),
        decreases h - y,
    {
        let row = &lines[y];
        let mut x: usize = 1;
        while x + 1 < w
            invariant
                g == grid_of(lines@),
                h == lines@.len(),
                forall|i: int| 0 <= i < h ==> (#[trigger] lines@[i])@.len() == w,
                1 <= y,
                y + 1 < h,
                row@ == g[y as int],
                1 <= x,
                x == 1 || x + 1 <= w,
                h == 0 || h * w <= usize::MAX,
                count <= (y - 1) * w + x - 1,
                count == crosses_in_grid(g, w as int, y as int) + crosses_in_row(
                    g,
                    y as int,
                    x as int,
                ),
            decreases w - x,
        {
            if row[x] == 'A' {
                let tl = lines[y - 1][x - 1];
                let tr = lines[y - 1][x + 1];
                let bl = lines[y + 1][x - 1];
                let br = lines[y + 1][x + 1];
                let hit = (tl == 'M' && tr == 'M' && bl == 'S' && br == 'S') || (tl == 'M' && tr
                    == 'S' && bl == 'M' && br == 'S') || (tl == 'S' && tr == 'M' && bl == 'S' && br
                    == 'M') || (tl == 'S' && tr == 'S' && bl == 'M' && br == 'M');
                if hit {
                    proof {
                        assert(count + 1 <= (y - 1) * w + x) by (nonlinear_arith)
                            requires
                                count <= (y - 1) * w + x - 1,
                        ;
                        assert((y - 1) * w + x < h * w) by (nonlinear_arith)
                            requires
                                1 <= y,
                                y + 1 < h,
                                1 <= x,
                                x + 1 < w,
                        ;
                    }
                    count = count + 1;
                }
            }
            x = x + 1;
        }
        proof {
            assert((y as int) * w == (y - 1) * w + w) by (nonlinear_arith);
        }
        y = y + 1;
    }
    proof {
        if h >= 2 {
            assert(crosses_in_grid(g, w as int, (h - 1) as int) == count);
        }
    }
    count
}

/// Number of occurrences of the search word in the line, read forwards
/// plus read backwards.
pub fn line_xmas(line: &Vec<char>) -> (r: usize)
    ensures
        r == occurrence_count(line@, xmas_pattern(), line@.len() as int) + occurrence_count(
            line@,
            samx_pattern(),
            line@.len() as int,
        ),
{
    let fwd = xmas_chars();
    let bwd = samx_chars();
    let mut count: usize = 0;
    let mut i: usize = 0;
    while i < line.len()
        invariant
            fwd@ == xmas_pattern(),
            bwd@ == samx_pattern(),
            i <= line@.len(),
            count <= i,
            count == occurrence_count(line@, xmas_pattern(), i as int) + occurrence_count(
                line@,
                samx_pattern(),
                i as int,
            ),
        decreases line@.len() - i,
    {
        let f = pattern_at(line, &fwd, i);
        let b = pattern_at(line, &bwd, i);
        proof {
            if f && b {
                assert(line@[i as int] == 'X');
                assert(line@[i as int] == 'S');
            }
        }
        if f {
            count = count + 1;
        }
        if b {
            count = count + 1;
        }
        i = i + 1;
    }
    count
}

} // verus!
