// Tests for the individual puzzle days and the shared text utilities.

use advent_puzzles::day01::Day01;
use advent_puzzles::day02::Day02;
use advent_puzzles::day03::Day03;
use advent_puzzles::day04::Day04;
use advent_puzzles::day05::Day05;
use advent_puzzles::day06::Day06;
use advent_puzzles::day07::Day07;
use advent_puzzles::day09::{Day09, Point};
use advent_puzzles::day10::{Day10, Pattern};
use advent_puzzles::day11::{Day11, Graph};
use advent_puzzles::day12::Day12;
use advent_puzzles::strutil;

#[test]
fn parse_i64_edges() {
    let p = |s: &str| strutil::parse_i64(&strutil::to_chars(s));
    assert_eq!(p("0"), Some(0));
    assert_eq!(p("-42"), Some(-42));
    assert_eq!(p("+7"), Some(7));
    assert_eq!(p("9223372036854775807"), Some(i64::MAX));
    assert_eq!(p("-9223372036854775808"), Some(i64::MIN));
    assert_eq!(p("9223372036854775808"), None);
    assert_eq!(p("-9223372036854775809"), None);
    assert_eq!(p("00012"), Some(12));
    assert_eq!(p(""), None);
    assert_eq!(p("-"), None);
    assert_eq!(p("12a"), None);
}

#[test]
fn string_utilities() {
    let trimmed = strutil::trim_chars(&strutil::to_chars("  hi there\t\r\n"));
    assert_eq!(strutil::string_from_chars(&trimmed), "hi there");
    let parts = strutil::split_char(&strutil::to_chars("a,b,,c"), ',');
    assert_eq!(parts.len(), 4);
    assert_eq!(strutil::string_from_chars(&parts[0]), "a");
    assert_eq!(strutil::string_from_chars(&parts[2]), "");
    let lines = strutil::lines_of(&strutil::to_chars("one\r\ntwo\nthree\n"));
    assert_eq!(lines.len(), 3);
    assert_eq!(strutil::string_from_chars(&lines[0]), "one");
    assert_eq!(strutil::string_from_chars(&lines[2]), "three");
    assert_eq!(strutil::u64_string(0), "0");
    assert_eq!(strutil::u64_string(90210), "90210");
    assert_eq!(strutil::i64_string(-345), "-345");
    assert_eq!(strutil::i64_string(i64::MIN), "-9223372036854775808");
    assert_eq!(strutil::u128_string(340282366920938463463374607431768211455), "340282366920938463463374607431768211455");
    assert_eq!(strutil::i128_string(-1), "-1");
    assert_eq!(strutil::parse_usize(&strutil::to_chars("18446744073709551615")), Some(usize::MAX));
    assert_eq!(strutil::parse_usize(&strutil::to_chars("-1")), None);
}

#[test]
fn day01_ticks_and_counts() {
    let d = Day01;
    assert_eq!(Day01::get_ticks("L10\nR5\n\nR1").unwrap(), vec![-10, 5, 1]);
    assert_eq!(
        Day01::get_ticks("LL\n").unwrap_err(),
        "Failed to parse amount in line: LL"
    );
    assert_eq!(
        Day01::get_ticks("X10").unwrap_err(),
        "Invalid direction 'X' in line: X10"
    );
    // Starting at 50: R50 lands on 0 (count 1), R100 returns to 0.
    assert_eq!(d.part1("R50\nR100"), "2");
    assert_eq!(d.part1("R10"), "0");
    // R50 lands exactly on zero: one pass; R150 passes zero once more
    // and lands at 50; L1000 passes zero ten times.
    assert_eq!(d.part2("R50"), "1");
    assert_eq!(d.part2("R50\nR150\nL1000"), "12");
}

#[test]
fn day03_readings() {
    let d = Day03;
    let banks = Day03::parse("987\n811").unwrap();
    assert_eq!(banks, vec![vec![9, 8, 7], vec![8, 1, 1]]);
    assert!(Day03::parse("98x").is_none());
    // 987: best pair from the scan is 9 then 8 -> 98.
    // 811: maximum 8, then the final digit 1 -> 81.
    assert_eq!(d.part1("987\n811").unwrap(), "179");
    assert_eq!(d.part1("").unwrap(), "0");
    assert!(d.part1("\n").is_none()); // an empty bank has no reading
}

#[test]
fn day04_lonely_cells() {
    let d = Day04;
    // A 2x2 block: every marked cell has exactly 3 marked neighbors.
    assert_eq!(d.part1("@@\n@@").unwrap(), "4");
    // A plus shape: the center has 4 neighbors, the arms fewer.
    assert_eq!(d.part1(".@.\n@@@\n.@.").unwrap(), "4");
    // A ragged grid is rejected.
    assert!(d.part1("@@\n@").is_none());
    assert!(d.part1("").is_none());
}

#[test]
fn day05_ranges_and_ids() {
    let d = Day05;
    let input = "1-5\n4-10\n14-15\n\n3\n11\n15";
    let (merged, ids) = Day05::parse(input).unwrap();
    assert_eq!(merged, vec![(1, 10), (14, 15)]);
    assert_eq!(ids, vec![3, 11, 15]);
    assert_eq!(d.part1(input).unwrap(), "2");
    assert_eq!(d.part2(input).unwrap(), "12");
    // adjacent ranges combine
    let (m2, _) = Day05::parse("1-3\n4-6\n\n1").unwrap();
    assert_eq!(m2, vec![(1, 6)]);
    assert!(Day05::parse("1-x\n\n1").is_none());
    assert!(Day05::parse("1-2\n\nx").is_none());
}

#[test]
fn day10_patterns_and_presses() {
    let d = Day10;
    let rows = Day10::parse("[.#.] (0,2) (1) {3,5}").unwrap();
    assert_eq!(rows.len(), 1);
    assert_eq!(rows[0].0, vec![0, 1, 0]);
    assert_eq!(rows[0].1, vec![vec![0, 2], vec![1]]);
    // pressing button 1 alone lights exactly the middle cell
    let best = Day10::min_combo(&rows[0].0, &rows[0].1).unwrap();
    assert_eq!(best, (1, 2));
    assert_eq!(d.part1("[.#.] (0,2) (1) {3,5}").unwrap(), "1");
    // both buttons together light all three cells
    assert_eq!(d.part1("[###] (0,2) (1) {1}").unwrap(), "2");
    // a line without a bracket group fails
    assert!(Day10::parse("(1,2)").is_none());
    // wiring outside the pattern is rejected
    assert!(d.part1("[.#] (5)").is_none());
}

#[test]
fn regex_wrapper_reports_matches() {
    // The wrapper must hand back the real matches, not its input.
    let p = Pattern::compile("(\\([^\\)\\r\\n]+\\))").unwrap();
    let found = p.find_all("x (1,2) y (3) z");
    assert_eq!(found, vec!["(1,2)".to_string(), "(3)".to_string()]);
    assert!(Pattern::compile("(unclosed").is_none());
}

#[test]
fn day11_path_counts() {
    // diamond: 0 -> {1, 2} -> 3
    let mut g = Graph::new(4);
    g.add_edge(0, 1);
    g.add_edge(0, 2);
    g.add_edge(1, 3);
    g.add_edge(2, 3);
    assert_eq!(g.neighbors(0), &vec![1, 2]);
    assert_eq!(Day11::count_all_paths_with_memo(&g, 0, 3), 2);
    assert_eq!(Day11::count_all_paths_with_memo(&g, 3, 0), 0);
    assert_eq!(Day11::count_all_paths_with_memo(&g, 0, 0), 1);
    // a cycle does not trap the search
    let mut c = Graph::new(3);
    c.add_edge(0, 1);
    c.add_edge(1, 0);
    c.add_edge(1, 2);
    assert_eq!(Day11::count_all_paths_with_memo(&c, 0, 2), 1);
}

#[test]
fn day02_doubled_and_periodic_ids() {
    let d = Day02;
    let ranges = Day02::parse("10-22,30-33\n").unwrap();
    assert_eq!(ranges, vec![(10, 22), (30, 33)]);
    // doubled halves in 10..=22: 11 and 22; in 30..=33: 33.
    assert_eq!(d.part1("10-22,30-33").unwrap(), "66");
    // prefix repetitions are the same ids for two-digit numbers
    assert_eq!(d.part2("10-22,30-33").unwrap(), "66");
    // 1212 is both a doubled half and a repetition of its prefix 12
    assert_eq!(d.part1("1212-1212").unwrap(), "1212");
    assert_eq!(d.part2("1212-1212").unwrap(), "1212");
    assert!(Day02::parse("10-x").is_none());
    assert!(Day02::parse("10").is_none());
}

#[test]
fn day06_worksheet_sums() {
    let d = Day06;
    // columns are read bottom-up: each column ends in its operator
    let input = "1 2\n3 4\n+ *";
    let cols = Day06::parse(input);
    assert_eq!(cols.len(), 2);
    assert_eq!(cols[0], vec!["+", "3", "1"]);
    assert_eq!(cols[1], vec!["*", "4", "2"]);
    // (3 + 1) + (4 * 2) = 12
    assert_eq!(d.part1(input).unwrap(), "12");
    // an unknown operator fails once a column has entries to fold
    assert!(d.part1("1 2\n3 4\n- /").is_none());
    // a two-cell column never consults its operator
    assert_eq!(d.part1("1 2\n- /").unwrap(), "3");
    // the vertical layout: digits stack in columns, the operator sits
    // at the bottom of its group
    assert_eq!(d.part2("13\n24\n+ ").unwrap(), "46");
    assert!(d.part2("").is_none());
}

#[test]
fn day07_beam_cascade() {
    let d = Day07;
    let input = ".S.\n.^.\n...";
    assert_eq!(d.part1(input).unwrap(), "1");
    assert_eq!(d.part2(input).unwrap(), "2");
    // two stacked splitters: 1 -> 2 -> the left beam hits the wall
    assert!(d.part2(".S.\n.^.\n^..").is_none());
    // no splitters: a single beam falls through
    assert_eq!(d.part2("S..\n...\n...").unwrap(), "1");
    // no start marker
    assert!(d.part1("...\n...").is_none());
}

#[test]
fn day09_largest_rectangle() {
    let d = Day09;
    let pts = Day09::parse("0,0\n2,3\n1,1").unwrap();
    assert_eq!(pts[1], Point { x: 2, y: 3 });
    // corners (0,0) and (2,3): 3 columns x 4 rows
    assert_eq!(d.part1("0,0\n2,3\n1,1").unwrap(), "12");
    assert!(Day09::parse("1").is_none());
}

#[test]
fn day12_gifts_and_regions() {
    let d = Day12;
    let input = "0:\n##\n#.\n\n2x2: 1\n1x1: 1";
    let (gifts, trees) = Day12::parse(input).unwrap();
    assert_eq!(gifts.len(), 1);
    assert_eq!(gifts[0].0, 0);
    assert_eq!(gifts[0].1, vec!["##", "#."]);
    assert_eq!(gifts[0].2, 3);
    assert_eq!(trees, vec![(2, 2, vec![1]), (1, 1, vec![1])]);
    // 3 tiles fit in 2x2=4 but not in 1x1=1
    assert_eq!(d.part1(input).unwrap(), "1");
}

#[test]
fn day03_twelve_slot_reading() {
    let d = Day03;
    // a three-digit bank fills the last three display slots
    assert_eq!(d.part2("987").unwrap(), "987");
    assert_eq!(d.part2("987\n21").unwrap(), "1008");
    assert_eq!(d.part2("").unwrap(), "0");
    assert!(d.part2("9x").is_none());
}

#[test]
fn day04_unpad_and_neighbor_updates() {
    // unpad strips one border ring
    let grid = vec![
        vec![0, 0, 0, 0],
        vec![0, 5, 6, 0],
        vec![0, 7, 8, 0],
        vec![0, 0, 0, 0],
    ];
    let inner = Day04::unpad(grid, 1);
    assert_eq!(inner, vec![vec![5, 6], vec![7, 8]]);
    // removing a cell lowers its neighbors' counts, stopping at zero
    let g = vec![vec![1, 1], vec![1, 1]];
    let kernel = advent_puzzles::day04::ring_kernel();
    let mut result = vec![vec![3, 3], vec![3, 0]];
    Day04::update_neighbors(&g, &mut result, 0, 0, &kernel);
    assert_eq!(result, vec![vec![2, 2], vec![2, 0]]);
}

#[test]
fn day11_route_search() {
    let mut g = Graph::new(4);
    g.add_edge(0, 1);
    g.add_edge(1, 3);
    g.add_edge(0, 2);
    let path = Day11::Astar(0, 3, &g).unwrap();
    assert_eq!(path, vec![0, 1, 3]);
    assert_eq!(Day11::Astar(3, 0, &g), None);
    assert_eq!(Day11::Astar(2, 2, &g).unwrap(), vec![2]);
}
