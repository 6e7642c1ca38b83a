use puzzles::antinodes::{AntennaMap, Frequency, Vec2, scan_antennas};
use puzzles::calibration::{Equation, Operator, eval};
use puzzles::mul_scan::{parse_do, parse_dont, parse_mul, parse_number, scan_memory};
use puzzles::antinodes::merge_unique;
use puzzles::page_order::{Rule, Update, page_totals};
use puzzles::pairing::{similarity_score, total_distance};
use puzzles::reports::{count_safe_reports, is_report_safe};
use puzzles::word_search::{count_crosses, find_samx, find_xmas, line_xmas};

fn chars(s: &str) -> Vec<char> {
    s.chars().collect()
}

#[test]
fn safe_reports_classic() {
    assert!(is_report_safe(&vec![7, 6, 4, 2, 1]));
    assert!(!is_report_safe(&vec![1, 2, 7, 8, 9]));
    assert!(!is_report_safe(&vec![9, 7, 6, 2, 1]));
    assert!(!is_report_safe(&vec![1, 3, 2, 4, 5]));
    assert!(!is_report_safe(&vec![8, 6, 4, 4, 1]));
    assert!(is_report_safe(&vec![1, 3, 6, 7, 9]));
}

#[test]
fn safe_report_edge_cases() {
    assert!(is_report_safe(&vec![]));
    assert!(is_report_safe(&vec![5]));
    assert!(!is_report_safe(&vec![5, 5]));
    assert!(!is_report_safe(&vec![1, 5]));
}

#[test]
fn dampener_counts_classic() {
    let reports = vec![
        vec![7, 6, 4, 2, 1],
        vec![1, 2, 7, 8, 9],
        vec![9, 7, 6, 2, 1],
        vec![1, 3, 2, 4, 5],
        vec![8, 6, 4, 4, 1],
        vec![1, 3, 6, 7, 9],
    ];
    assert_eq!(count_safe_reports(&reports), (2, 4));
}

#[test]
fn parse_number_reads_up_to_three_digits() {
    assert_eq!(parse_number(&chars("123abc"), 0), Some((123, 3)));
    assert_eq!(parse_number(&chars("12345"), 0), Some((123, 3)));
    assert_eq!(parse_number(&chars("abc"), 0), None);
    assert_eq!(parse_number(&chars("a7b"), 1), Some((7, 2)));
}

#[test]
fn parse_toggles() {
    assert_eq!(parse_do(&chars("do()x"), 0), Some(4));
    assert_eq!(parse_do(&chars("don't()"), 0), None);
    assert_eq!(parse_dont(&chars("don't()x"), 0), Some(7));
    assert_eq!(parse_dont(&chars("do()"), 0), None);
}

#[test]
fn parse_mul_success_and_consuming_failure() {
    let s = chars("mul(2,4)rest");
    let (m, next) = parse_mul(&s, 0);
    let m = m.expect("should parse");
    assert_eq!((m.x, m.y), (2, 4));
    assert_eq!(next, 8);

    let s = chars("mul(4*");
    let (m, next) = parse_mul(&s, 0);
    assert!(m.is_none());
    assert_eq!(next, 5);
}

#[test]
fn scan_memory_classic() {
    let s = chars("xmul(2,4)%&mul[3,7]!@^do_not_mul(5,5)+mul(32,64]then(mul(11,8)mul(8,5))");
    assert_eq!(scan_memory(&s), (161, 161));
    let s = chars("xmul(2,4)&mul[3,7]!^don't()_mul(5,5)+mul(32,64](mul(11,8)undo()?mul(8,5))");
    assert_eq!(scan_memory(&s), (161, 48));
}

#[test]
fn scan_memory_consumes_failed_attempts() {
    let s = chars("mul(mul(2,3)");
    assert_eq!(scan_memory(&s), (0, 0));
}

#[test]
fn word_counts() {
    assert_eq!(line_xmas(&chars("XMAS")), 1);
    assert_eq!(line_xmas(&chars("SAMX")), 1);
    assert_eq!(line_xmas(&chars("XMASAMX")), 2);
    assert_eq!(line_xmas(&chars("MMMSXXMASM")), 1);
    assert_eq!(line_xmas(&chars("....")), 0);
}

#[test]
fn find_words() {
    assert_eq!(find_xmas(&chars("..XMAS.."), 0), Some(2));
    assert_eq!(find_xmas(&chars("..XMAS.."), 3), None);
    assert_eq!(find_samx(&chars("SAMXSAMX"), 1), Some(4));
}

#[test]
fn cross_shaped_mas_pairs() {
    let grid: Vec<Vec<char>> = vec![chars("M.SM.S"), chars(".A..A."), chars("M.SM.S")];
    assert_eq!(count_crosses(&grid), 2);
    let grid: Vec<Vec<char>> = vec![chars("M.M"), chars(".A."), chars("M.M")];
    assert_eq!(count_crosses(&grid), 0);
    let empty: Vec<Vec<char>> = Vec::new();
    assert_eq!(count_crosses(&empty), 0);
}

#[test]
fn middle_page_of_update() {
    let u = Update { pages: vec![75, 47, 61, 53, 29] };
    assert_eq!(u.middle_page(), 61);
}

#[test]
fn sort_by_rules() {
    let rules = vec![Rule { a: 47, b: 61 }, Rule { a: 47, b: 13 }, Rule { a: 61, b: 13 }];
    let u = Update { pages: vec![61, 13, 47] };
    let sorted = u.sort(&rules);
    assert_eq!(sorted.pages, vec![47, 61, 13]);
    assert_eq!(sorted.middle_page(), 61);
}

#[test]
fn misordered_updates() {
    let rules = vec![Rule { a: 1, b: 2 }];
    assert!(Update { pages: vec![2, 1] }.is_misordered(&rules));
    assert!(!Update { pages: vec![1, 2] }.is_misordered(&rules));
    assert!(!Update { pages: vec![2, 1] }.is_misordered(&Vec::new()));
}

#[test]
fn merge_keeps_each_point_once() {
    let mut acc = vec![Vec2 { x: 1isize, y: 1isize }, Vec2 { x: 2isize, y: 2isize }];
    let more = vec![Vec2 { x: 2isize, y: 2isize }, Vec2 { x: 3isize, y: 3isize }];
    merge_unique(&mut acc, &more);
    assert_eq!(acc.len(), 3);
    assert!(acc.contains(&Vec2 { x: 1isize, y: 1isize }));
    assert!(acc.contains(&Vec2 { x: 2isize, y: 2isize }));
    assert!(acc.contains(&Vec2 { x: 3isize, y: 3isize }));
}

#[test]
fn totals_split_by_ordering() {
    let rules = vec![Rule { a: 1, b: 2 }, Rule { a: 2, b: 3 }];
    let updates = vec![Update { pages: vec![1, 2, 3] }, Update { pages: vec![3, 2, 1] }];
    assert_eq!(page_totals(&updates, &rules), (2, 2));
}

#[test]
fn eval_left_to_right() {
    assert_eq!(eval(&vec![81, 40, 27], &vec![Operator::Add, Operator::Multiply]), 3267);
    assert_eq!(eval(&vec![11, 6, 16, 20], &vec![
        Operator::Add,
        Operator::Multiply,
        Operator::Add,
    ]), 292);
    assert_eq!(eval(&vec![15, 6], &vec![Operator::Concatenate]), 156);
    assert_eq!(eval(&vec![486, 72], &vec![Operator::Concatenate]), 48672);
    assert_eq!(eval(&vec![], &vec![]), 0);
}

#[test]
fn equation_validity() {
    let eqn = Equation { value: 3267, operands: vec![81, 40, 27] };
    assert!(eqn.is_valid(&vec![Operator::Add, Operator::Multiply]));
    assert!(eqn.is_valid(&vec![Operator::Multiply, Operator::Add]));
    assert!(!eqn.is_valid(&vec![Operator::Add, Operator::Add]));
}

#[test]
fn part_one_solvability() {
    assert!(Equation { value: 3267, operands: vec![81, 40, 27] }.solvable_part_1());
    assert!(Equation { value: 292, operands: vec![11, 6, 16, 20] }.solvable_part_1());
    assert!(!Equation { value: 100, operands: vec![81, 40, 27] }.solvable_part_1());
    assert!(!Equation { value: 156, operands: vec![15, 6] }.solvable_part_1());
}

#[test]
fn part_two_solvability() {
    assert!(Equation { value: 156, operands: vec![15, 6] }.solvable_part_2());
    assert!(Equation { value: 7290, operands: vec![6, 8, 6, 15] }.solvable_part_2());
    assert!(Equation { value: 3267, operands: vec![81, 40, 27] }.solvable_part_2());
    assert!(!Equation { value: 161011, operands: vec![16, 10, 13] }.solvable_part_2());
}

#[test]
fn binary_permutations_enumerate_all() {
    let mut perm = Operator::permute_part_1(2);
    let mut seen = 0;
    while let Some(mut it) = perm.next() {
        let mut ops = Vec::new();
        while let Some(op) = it.next() {
            ops.push(op);
        }
        assert_eq!(ops.len(), 2);
        seen += 1;
    }
    assert_eq!(seen, 4);
}

#[test]
fn ternary_permutations_decode() {
    let mut perm = Operator::permute_part_2(2);
    let mut totals = 0;
    while let Some(mut it) = perm.next() {
        let mut ops = Vec::new();
        while let Some(op) = it.next() {
            ops.push(op);
        }
        assert_eq!(ops.len(), 2);
        totals += 1;
    }
    assert_eq!(totals, 9);

    let mut perm = Operator::permute_part_2(2);
    perm.next();
    perm.next();
    perm.next();
    perm.next();
    perm.next();
    let mut it = perm.next().expect("sixth variation");
    assert_eq!(it.next(), Some(Operator::Concatenate));
    assert_eq!(it.next(), Some(Operator::Multiply));
    assert_eq!(it.next(), None);
}

#[test]
fn vec2_inside_and_arithmetic() {
    let size = Vec2 { x: 10usize, y: 10usize };
    assert!(Vec2 { x: 0isize, y: 0isize }.is_inside(&size));
    assert!(!Vec2 { x: -1isize, y: 0isize }.is_inside(&size));
    assert!(!Vec2 { x: 3isize, y: 10isize }.is_inside(&size));
    let a = Vec2 { x: 4isize, y: 3isize };
    let b = Vec2 { x: 5isize, y: 5isize };
    assert_eq!(a.add(b), Vec2 { x: 9isize, y: 8isize });
    assert_eq!(b.sub(a), Vec2 { x: 1isize, y: 2isize });
}

#[test]
fn antinodes_of_one_pair() {
    let mut f = Frequency {
        antennae: vec![Vec2 { x: 4isize, y: 3isize }, Vec2 { x: 5isize, y: 5isize }],
        part_1: Vec::new(),
        part_2: Vec::new(),
    };
    let size = Vec2 { x: 10usize, y: 10usize };
    f.find_antinodes(&size);
    assert_eq!(f.part_1.len(), 2);
    assert!(f.part_1.contains(&Vec2 { x: 3isize, y: 1isize }));
    assert!(f.part_1.contains(&Vec2 { x: 6isize, y: 7isize }));
    assert_eq!(f.part_2.len(), 3);
    assert!(f.part_2.contains(&Vec2 { x: 4isize, y: 3isize }));
    assert!(f.part_2.contains(&Vec2 { x: 5isize, y: 5isize }));
    assert!(f.part_2.contains(&Vec2 { x: 7isize, y: 9isize }));
}

#[test]
fn antenna_scan_in_order() {
    let lines: Vec<Vec<char>> = vec![chars("..0."), chars("a.0A")];
    let flat = scan_antennas(&lines);
    assert_eq!(flat.len(), 4);
    assert_eq!(flat[0], ('0', Vec2 { x: 2isize, y: 0isize }));
    assert_eq!(flat[1], ('a', Vec2 { x: 0isize, y: 1isize }));
    assert_eq!(flat[2], ('0', Vec2 { x: 2isize, y: 1isize }));
    assert_eq!(flat[3], ('A', Vec2 { x: 3isize, y: 1isize }));
}

#[test]
fn antenna_map_groups_by_frequency() {
    let lines: Vec<Vec<char>> = vec![chars("..0."), chars("a.0A"), chars("....")];
    let map = AntennaMap::from_lines(&lines);
    assert_eq!(map.size, Vec2 { x: 4usize, y: 3usize });
    assert_eq!(map.frequencies.len(), 3);
    for (c, freq) in &map.frequencies {
        match c {
            '0' => assert_eq!(freq.antennae, vec![
                Vec2 { x: 2isize, y: 0isize },
                Vec2 { x: 2isize, y: 1isize },
            ]),
            'a' => assert_eq!(freq.antennae, vec![Vec2 { x: 0isize, y: 1isize }]),
            'A' => assert_eq!(freq.antennae, vec![Vec2 { x: 3isize, y: 1isize }]),
            other => panic!("unexpected frequency {other}"),
        }
        assert!(freq.part_1.is_empty());
        assert!(freq.part_2.is_empty());
    }
}

#[test]
fn pairing_classic() {
    let left = vec![3, 4, 2, 1, 3, 3];
    let right = vec![4, 3, 5, 3, 9, 3];
    assert_eq!(total_distance(&left, &right), Some(11));
    assert_eq!(similarity_score(&left, &right), Some(31));
}

#[test]
fn pairing_empty() {
    assert_eq!(total_distance(&vec![], &vec![]), Some(0));
    assert_eq!(similarity_score(&vec![], &vec![]), Some(0));
}
