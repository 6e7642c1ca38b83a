//! Scanning corrupted memory text for `mul(x,y)` instructions together
//! with the `do()` and `don't()` toggles.  A failed `mul` attempt leaves
//! the scanner after whatever prefix the attempt consumed, exactly as
//! the consuming parser does.

use vstd::prelude::*;
use crate::word_search::occurs_at;

verus! {

/// The literal `do()`.
pub open spec fn do_pattern() -> Seq<char> {
    seq!['d', 'o', '(', ')']
}

/// The literal `don't()`.
pub open spec fn dont_pattern() -> Seq<char> {
    seq!['d', 'o', 'n', '\'', 't', '(', ')']
}

/// The literal `mul(`.
pub open spec fn mul_open_pattern() -> Seq<char> {
    seq!['m', 'u', 'l', '(']
}

/// Whether `c` is a decimal digit.
pub open spec fn is_digit(c: char) -> bool {
    '0' as u32 <= c as u32 && c as u32 <= '9' as u32
}

/// Numeric value of a digit character.
pub open spec fn digit_val(c: char) -> int {
    c as u32 - '0' as u32
}

/// Length of the run of digits at `pos`, capped at three.
pub open spec fn digit_run(s: Seq<char>, pos: int) -> int {
    if !(0 <= pos < s.len() && is_digit(s[pos])) {
        0
    } else if !(pos + 1 < s.len() && is_digit(s[pos + 1])) {
        1
    } else if !(pos + 2 < s.len() && is_digit(s[pos + 2])) {
        2
    } else {
        3
    }
}

/// Decimal value of the `k` digits starting at `pos`.
pub open spec fn number_value(s: Seq<char>, pos: int, k: int) -> int
    decreases k,
{
    if k <= 0 {
        0
    } else {
        number_value(s, pos, k - 1) * 10 + digit_val(s[pos + k - 1])
    }
}

/// A number of one to three digits is at most 999.
proof fn lemma_number_small(s: Seq<char>, pos: int, k: int)
    requires
        0 <= k <= 3,
        forall|j: int| 0 <= j < k ==> is_digit(#[trigger] s[pos + j]),
        pos + k <= s.len(),
        0 <= pos,
    ensures
        0 <= number_value(s, pos, k) <= 999,
    decreases k,
{
    reveal_with_fuel(number_value, 5);
    if k >= 1 {
        assert(is_digit(s[pos + 0]));
        assert(0 <= digit_val(s[pos]) <= 9);
    }
    if k >= 2 {
        assert(is_digit(s[pos + 1]));
        assert(0 <= digit_val(s[pos + 1]) <= 9);
    }
    if k >= 3 {
        assert(is_digit(s[pos + 2]));
        assert(0 <= digit_val(s[pos + 2]) <= 9);
    }
}

/// The digits of a digit run really are digits.
proof fn lemma_digit_run_digits(s: Seq<char>, pos: int)
    ensures
        0 <= digit_run(s, pos) <= 3,
        pos + digit_run(s, pos) <= s.len() || digit_run(s, pos) == 0,
        forall|j: int| 0 <= j < digit_run(s, pos) ==> is_digit(#[trigger] s[pos + j]),
{
}

/// One attempted `mul(x,y)` parse at `pos`: the parsed factors if the
/// attempt succeeds, and the position at which the scanner resumes (the
/// attempt consumes its matched prefix even when it fails).
pub open spec fn mul_attempt(s: Seq<char>, pos: int) -> (Option<(int, int)>, int) {
    if !occurs_at(s, mul_open_pattern(), pos) {
        (None, pos)
    } else {
        let p1 = pos + 4;
        let k1 = digit_run(s, p1);
        if k1 == 0 {
            (None, p1)
        } else {
            let x = number_value(s, p1, k1);
            let p2 = p1 + k1;
            if !(p2 < s.len() && s[p2] == ',') {
                (None, p2)
            } else {
                let p3 = p2 + 1;
                let k2 = digit_run(s, p3);
                if k2 == 0 {
                    (None, p3)
                } else {
                    let y = number_value(s, p3, k2);
                    let p4 = p3 + k2;
                    if !(p4 < s.len() && s[p4] == ')') {
                        (None, p4)
                    } else {
                        (Some((x, y)), p4 + 1)
                    }
                }
            }
        }
    }
}

/// A parsed multiplication instruction.
pub struct Mul {
    pub x: u32,
    pub y: u32,
}

/// Recognize `do()` at `pos`; on success the scanner resumes after it.
pub fn parse_do(s: &Vec<char>, pos: usize) -> (r: Option<usize>)
    requires
        pos <= s@.len(),
    ensures
        match r {
            Some(p) => occurs_at(s@, do_pattern(), pos as int) && p == pos + 4,
            None => !occurs_at(s@, do_pattern(), pos as int),
        },
{
    let n = s.len();
    let pat = vec!['d', 'o', '(', ')'];
    proof {
        assert(pat@ =~= do_pattern());
    }
    if crate::word_search::pattern_at(s, &pat, pos) {
        Some(pos + 4)
    } else {
        None
    }
}

/// Recognize `don't()` at `pos`; on success the scanner resumes after it.
pub fn parse_dont(s: &Vec<char>, pos: usize) -> (r: Option<usize>)
    requires
        pos <= s@.len(),
    ensures
        match r {
            Some(p) => occurs_at(s@, dont_pattern(), pos as int) && p == pos + 7,
            None => !occurs_at(s@, dont_pattern(), pos as int),
        },
{
    let n = s.len();
    let pat = vec!['d', 'o', 'n', '\'', 't', '(', ')'];
    proof {
        assert(pat@ =~= dont_pattern());
    }
    if crate::word_search::pattern_at(s, &pat, pos) {
        Some(pos + 7)
    } else {
        None
    }
}

/// Read a run of one to three digits at `pos`: the value and the
/// position after the digits.
pub fn parse_number(s: &Vec<char>, pos: usize) -> (r: Option<(u32, usize)>)
    requires
        pos <= s@.len(),
    ensures
        match r {
            Some(t) => digit_run(s@, pos as int) > 0 && t.0 == number_value(
                s@,
                pos as int,
                digit_run(s@, pos as int),
            ) && t.1 == pos + digit_run(s@, pos as int),
            None => digit_run(s@, pos as int) == 0,
        },
{
    let n = s.len();
    let mut num: u32 = 0;
    let mut count: usize = 0;
    while count < 3 && s.len() - pos > count && s[pos + count] as u32 >= '0' as u32 && s[pos
        + count] as u32 <= '9' as u32
        invariant
            n == s@.len(),
            pos <= s@.len(),
            count <= 3,
            pos + count <= s@.len(),
            forall|j: int| 0 <= j < count ==> is_digit(#[trigger] s@[pos + j]),
            num == number_value(s@, pos as int, count as int),
            num <= 999,
        decreases 3 - count,
    {
        proof {
            lemma_number_small(s@, pos as int, count as int);
        }
        let c = s[pos + count];
        proof {
            assert(is_digit(s@[pos + count]));
        }
        num = num * 10 + (c as u32 - '0' as u32);
        count = count + 1;
        proof {
            lemma_number_small(s@, pos as int, count as int);
        }
    }
    if count == 0 {
        proof {
            assert(digit_run(s@, pos as int) == 0);
        }
        None
    } else {
        proof {
            assert(digit_run(s@, pos as int) == count);
        }
        Some((num, pos + count))
    }
}

/// Attempt a full `mul(x,y)` parse at `pos`: the instruction if the text
/// matches, and the position at which scanning resumes.
pub fn parse_mul(s: &Vec<char>, pos: usize) -> (r: (Option<Mul>, usize))
    requires
        pos <= s@.len(),
    ensures
        r.1 <= s@.len(),
        match r.0 {
            Some(m) => mul_attempt(s@, pos as int) == (
                Some((m.x as int, m.y as int)),
                r.1 as int,
            ),
            None => mul_attempt(s@, pos as int) == (None::<(int, int)>, r.1 as int),
        },
{
    let n = s.len();
    let pat = vec!['m', 'u', 'l', '('];
    proof {
        assert(pat@ =~= mul_open_pattern());
    }
    if !crate::word_search::pattern_at(s, &pat, pos) {
        return (None, pos);
    }
    let p1 = pos + 4;
    let x = match parse_number(s, p1) {
        None => {
            return (None, p1);
        },
        Some(t) => t,
    };
    let p2 = x.1;
    proof {
        lemma_digit_run_digits(s@, p1 as int);
    }
    if !(p2 < s.len() && s[p2] == ',') {
        return (None, p2);
    }
    let p3 = p2 + 1;
    let y = match parse_number(s, p3) {
        None => {
            return (None, p3);
        },
        Some(t) => t,
    };
    let p4 = y.1;
    proof {
        lemma_digit_run_digits(s@, p3 as int);
    }
    if !(p4 < s.len() && s[p4] == ')') {
        return (None, p4);
    }
    (Some(Mul { x: x.0, y: y.0 }), p4 + 1)
}

/// The two scan totals from `pos` onward: the sum of all products, and
/// the sum of the products parsed while multiplication is enabled.
pub open spec fn scan_spec(s: Seq<char>, pos: int, enabled: bool) -> (int, int)
    decreases s.len() - pos,
{
    if pos < 0 || pos >= s.len() {
        (0, 0)
    } else if occurs_at(s, do_pattern(), pos) {
        scan_spec(s, pos + 4, true)
    } else if occurs_at(s, dont_pattern(), pos) {
        scan_spec(s, pos + 7, false)
    } else {
        let att = mul_attempt(s, pos);
        match att.0 {
            Some(xy) => {
                let rest = scan_spec(s, att.1, enabled);
                (
                    xy.0 * xy.1 + rest.0,
                    if enabled {
                        xy.0 * xy.1 + rest.1
                    } else {
                        rest.1
                    },
                )
            },
            None => {
                if att.1 + 1 >= s.len() {
                    (0, 0)
                } else {
                    scan_spec(s, att.1 + 1, enabled)
                }
            },
        }
    }
}

/// A failed attempt resumes no earlier than it started and within the
/// text; a successful one resumes at least eight characters later.
proof fn lemma_mul_attempt_bounds(s: Seq<char>, pos: int)
    requires
        0 <= pos <= s.len(),
    ensures
        pos <= mul_attempt(s, pos).1 <= s.len(),
        mul_attempt(s, pos).0 is Some ==> mul_attempt(s, pos).1 >= pos + 8,
        match mul_attempt(s, pos).0 {
            Some(xy) => 0 <= xy.0 <= 999 && 0 <= xy.1 <= 999,
            None => true,
        },
{
    if occurs_at(s, mul_open_pattern(), pos) {
        lemma_digit_run_digits(s, pos + 4);
        let k1 = digit_run(s, pos + 4);
        if k1 > 0 {
            lemma_number_small(s, pos + 4, k1);
            let p2 = pos + 4 + k1;
            if p2 < s.len() && s[p2] == ',' {
                lemma_digit_run_digits(s, p2 + 1);
                let k2 = digit_run(s, p2 + 1);
                if k2 > 0 {
                    lemma_number_small(s, p2 + 1, k2);
                }
            }
        }
    }
}

/// Both scan totals are nonnegative, the enabled total never exceeds the
/// full total, and each is below a million per character scanned.
proof fn lemma_scan_bounds(s: Seq<char>, pos: int, enabled: bool)
    ensures
        0 <= scan_spec(s, pos, enabled).1 <= scan_spec(s, pos, enabled).0,
        scan_spec(s, pos, enabled).0 <= 1000000 * (if pos <= 0 {
            s.len() as int
        } else if pos >= s.len() {
            0
        } else {
            s.len() - pos
        }),
    decreases s.len() - pos,
{
    if 0 <= pos < s.len() {
        if occurs_at(s, do_pattern(), pos) {
            lemma_scan_bounds(s, pos + 4, true);
        } else if occurs_at(s, dont_pattern(), pos) {
            lemma_scan_bounds(s, pos + 7, false);
        } else {
            lemma_mul_attempt_bounds(s, pos);
            let att = mul_attempt(s, pos);
            match att.0 {
                Some(xy) => {
                    lemma_scan_bounds(s, att.1, enabled);
                    assert(0 <= xy.0 * xy.1 <= 998001) by (nonlinear_arith)
                        requires
                            0 <= xy.0 <= 999,
                            0 <= xy.1 <= 999,
                    ;
                },
                None => {
                    if att.1 + 1 < s.len() {
                        lemma_scan_bounds(s, att.1 + 1, enabled);
                    }
                },
            }
        }
    }
}

/// Scan the whole text: the sum of every `mul(x,y)` product, and the sum
/// of the products found while multiplication is enabled (it starts
/// enabled; `don't()` disables it and `do()` re-enables it).
pub fn scan_memory(s: &Vec<char>) -> (r: (u64, u64))
    requires
        s@.len() < u32::MAX,
    ensures
        r.0 == scan_spec(s@, 0, true).0,
        r.1 == scan_spec(s@, 0, true).1,
{
    let mut part1: u64 = 0;
    let mut part2: u64 = 0;
    let mut pos: usize = 0;
    let mut enabled = true;
    proof {
        lemma_scan_bounds(s@, 0, true);
    }
    while pos < s.len()
        invariant
            s@.len() < u32::MAX,
            pos <= s@.len(),
            part1 + scan_spec(s@, pos as int, enabled).0 == scan_spec(s@, 0, true).0,
            part2 + scan_spec(s@, pos as int, enabled).1 == scan_spec(s@, 0, true).1,
            part1 <= 1000000 * s@.len(),
            part2 <= part1,
        decreases s@.len() - pos,
    {
        proof {
            lemma_scan_bounds(s@, 0, true);
            lemma_scan_bounds(s@, pos as int, enabled);
            lemma_mul_attempt_bounds(s@, pos as int);
        }
        if let Some(next) = parse_do(s, pos) {
            enabled = true;
            pos = next;
        } else if let Some(next) = parse_dont(s, pos) {
            enabled = false;
            pos = next;
        } else {
            let (parsed, resume) = parse_mul(s, pos);
            match parsed {
                Some(m) => {
                    proof {
                        lemma_scan_bounds(s@, resume as int, enabled);
                        assert(0 <= m.x as int * m.y as int <= 998001) by (nonlinear_arith)
                            requires
                                0 <= m.x as int <= 999,
                                0 <= m.y as int <= 999,
                        ;
                    }
                    let product = (m.x * m.y) as u64;
                    part1 = part1 + product;
                    if enabled {
                        part2 = part2 + product;
                    }
                    pos = resume;
                },
                None => {
                    if resume + 1 >= s.len() {
                        proof {
                            assert(scan_spec(s@, pos as int, enabled) == (0int, 0int));
                        }
                        return (part1, part2);
                    }
                    pos = resume + 1;
                },
            }
        }
    }
    (part1, part2)
}

} // verus!
