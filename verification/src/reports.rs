//! Safety checks for level reports: a report is safe when its levels are
//! strictly monotone in one direction and adjacent levels differ by at
//! most three; the dampened variant tolerates the removal of one level.

use vstd::prelude::*;

verus! {

/// Whether the adjacent pair `(a, b)` is a safe step in the given
/// direction: strictly monotone with a gap of at most three.
pub open spec fn safe_step(a: u32, b: u32, increasing: bool) -> bool {
    if increasing {
        a < b && b - a <= 3
    } else {
        b < a && a - b <= 3
    }
}

/// A report is safe when all its adjacent pairs are safe steps in one
/// shared direction.
pub open spec fn report_safe(s: Seq<u32>) -> bool {
    (forall|i: int| 0 <= i < s.len() - 1 ==> safe_step(#[trigger] s[i], s[i + 1], true)) || (
    forall|i: int| 0 <= i < s.len() - 1 ==> safe_step(#[trigger] s[i], s[i + 1], false))
}

/// A report is safe after dampening when it is safe as given or becomes
/// safe once a single level is removed.
pub open spec fn dampened_safe(s: Seq<u32>) -> bool {
    report_safe(s) || exists|i: int| 0 <= i < s.len() && report_safe(s.remove(i))
}

/// Whether the report is safe: strictly monotone in one direction with
/// adjacent gaps of one to three.
pub fn is_report_safe(report: &Vec<u32>) -> (r: bool)
    ensures
        r == report_safe(report@),
{
    let n = report.len();
    if n < 2 {
        return true;
    }
    let increasing = report[1] > report[0];
    let mut i: usize = 0;
    while i + 1 < n
        invariant
            n == report@.len(),
            2 <= n,
            i < n,
            increasing == (report@[1] > report@[0]),
            forall|j: int| 0 <= j < i ==> safe_step(#[trigger] report@[j], report@[j + 1], increasing),
        decreases n - i,
    {
        let a = report[i];
        let b = report[i + 1];
        let step_ok = if increasing {
            a < b && b - a <= 3
        } else {
            b < a && a - b <= 3
        };
        if !step_ok {
            proof {
                assert(!safe_step(report@[i as int], report@[i as int + 1], increasing));
                assert(!safe_step(report@[0], report@[1], !increasing));
            }
            return false;
        }
        i = i + 1;
    }
    true
}

/// The reports as mathematical sequences.
pub open spec fn reports_model(rs: Seq<Vec<u32>>) -> Seq<Seq<u32>> {
    Seq::new(rs.len(), |i: int| rs[i]@)
}

/// Number of safe reports among the first `n`.
pub open spec fn safe_count(rs: Seq<Seq<u32>>, n: int) -> int
    decreases n,
{
    if n <= 0 {
        0
    } else {
        safe_count(rs, n - 1) + if report_safe(rs[n - 1]) {
            1 as int
        } else {
            0
        }
    }
}

/// Number of dampened-safe reports among the first `n`.
pub open spec fn dampened_count(rs: Seq<Seq<u32>>, n: int) -> int
    decreases n,
{
    if n <= 0 {
        0
    } else {
        dampened_count(rs, n - 1) + if dampened_safe(rs[n - 1]) {
            1 as int
        } else {
            0
        }
    }
}

/// The report with the level at index `skip` removed.
fn without_level(report: &Vec<u32>, skip: usize) -> (r: Vec<u32>)
    requires
        skip < report@.len(),
    ensures
        r@ == report@.remove(skip as int),
{
    let mut r: Vec<u32> = Vec::new();
    let mut j: usize = 0;
    while j < report.len()
        invariant
            skip < report@.len(),
            j <= report@.len(),
            r@.len() == if j <= skip {
                j as int
            } else {
                j - 1
            },
            forall|k: int| 0 <= k < r@.len() && k < skip ==> r@[k] == report@[k],
            forall|k: int| skip <= k < r@.len() ==> r@[k] == report@[k + 1],
        decreases report@.len() - j,
    {
        if j != skip {
            r.push(report[j]);
        }
        j = j + 1;
    }
    proof {
        assert(r@ =~= report@.remove(skip as int));
    }
    r
}

/// Count the safe reports and the dampened-safe reports.
pub fn count_safe_reports(reports: &Vec<Vec<u32>>) -> (r: (usize, usize))
    ensures
        r.0 == safe_count(reports_model(reports@), reports@.len() as int),
        r.1 == dampened_count(reports_model(reports@), reports@.len() as int),
{
    let ghost rs: Seq<Seq<u32>> = reports_model(reports@);
    let mut plain: usize = 0;
    let mut dampened: usize = 0;
    let mut i: usize = 0;
    while i < reports.len()
        invariant
            rs == reports_model(reports@),
            i <= reports@.len(),
            plain <= i,
            dampened <= i,
            plain == safe_count(rs, i as int),
            dampened == dampened_count(rs, i as int),
        decreases reports@.len() - i,
    {
        let report = &reports[i];
        if is_report_safe(report) {
            plain = plain + 1;
            dampened = dampened + 1;
        } else {
            let mut found = false;
            let mut skip: usize = 0;
            while skip < report.len() && !found
                invariant
                    skip <= report@.len(),
                    found ==> exists|k: int|
                        0 <= k < report@.len() && report_safe(report@.remove(k)),
                    !found ==> forall|k: int|
                        0 <= k < skip ==> !report_safe(#[trigger] report@.remove(k)),
                decreases report@.len() - skip + if found {
                    0 as int
                } else {
                    1 as int
                },
            {
                let sub = without_level(report, skip);
                if is_report_safe(&sub) {
                    found = true;
                } else {
                    skip = skip + 1;
                }
            }
            if found {
                dampened = dampened + 1;
            }
        }
        i = i + 1;
    }
    (plain, dampened)
}

} // verus!
