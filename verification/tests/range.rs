use mc_scanner::range::{
    apply_exclude, merge_intervals, parse_masscan, parse_masscan_line, parse_masscan_line_with,
    LineFailure,
};

fn ip(a: u32, b: u32, c: u32, d: u32) -> u32 {
    (a << 24) | (b << 16) | (c << 8) | d
}

fn text(line: &[char]) -> String {
    line.iter().collect()
}

#[test]
fn cidr_lines() {
    assert_eq!(parse_masscan_line("10.0.0.0/8").unwrap(), (ip(10, 0, 0, 0), ip(10, 255, 255, 255)));
    assert_eq!(
        parse_masscan_line("192.168.1.77/24").unwrap(),
        (ip(192, 168, 1, 0), ip(192, 168, 1, 255))
    );
    assert_eq!(parse_masscan_line("0.0.0.0/0").unwrap(), (0, u32::MAX));
    assert_eq!(parse_masscan_line("1.2.3.4/32").unwrap(), (ip(1, 2, 3, 4), ip(1, 2, 3, 4)));
    assert_eq!(parse_masscan_line("172.16.5.4/12").unwrap(), (ip(172, 16, 0, 0), ip(172, 31, 255, 255)));
}

#[test]
fn address_lines() {
    assert_eq!(parse_masscan_line("1.2.3.4").unwrap(), (ip(1, 2, 3, 4), ip(1, 2, 3, 4)));
    assert_eq!(parse_masscan_line("255.255.255.255").unwrap(), (u32::MAX, u32::MAX));
    assert_eq!(parse_masscan_line("0.0.0.0").unwrap(), (0, 0));
}

#[test]
fn range_lines() {
    assert_eq!(parse_masscan_line("1.2.3.4-1.2.3.10").unwrap(), (ip(1, 2, 3, 4), ip(1, 2, 3, 10)));
    assert_eq!(parse_masscan_line("9.9.9.9-1.1.1.1").unwrap(), (ip(9, 9, 9, 9), ip(1, 1, 1, 1)));
}

#[test]
fn refused_lines() {
    let e = parse_masscan_line(" -1.2.3.4").unwrap_err();
    assert_eq!(e.kind, LineFailure::EmptyBound);
    assert_eq!(text(&e.line), " -1.2.3.4");
    assert_eq!(parse_masscan_line("1.2.3.4-").unwrap_err().kind, LineFailure::EmptyBound);
    assert_eq!(parse_masscan_line("1.2.3.4-x").unwrap_err().kind, LineFailure::BadEnd);
    assert_eq!(parse_masscan_line("x-1.2.3.4").unwrap_err().kind, LineFailure::BadStart);
    assert_eq!(parse_masscan_line("1.2.3.4 - 1.2.3.5").unwrap_err().kind, LineFailure::BadStart);
    let e = parse_masscan_line("hello").unwrap_err();
    assert_eq!(e.kind, LineFailure::Unrecognized);
    assert_eq!(text(&e.line), "hello");
    assert_eq!(parse_masscan_line("256.1.1.1").unwrap_err().kind, LineFailure::Unrecognized);
    assert_eq!(parse_masscan_line("01.2.3.4").unwrap_err().kind, LineFailure::Unrecognized);
    assert_eq!(parse_masscan_line("1.2.3").unwrap_err().kind, LineFailure::Unrecognized);
    assert_eq!(parse_masscan_line("1.2.3.4.5").unwrap_err().kind, LineFailure::Unrecognized);
    assert_eq!(parse_masscan_line("1.2.3.4/33").unwrap_err().kind, LineFailure::Unrecognized);
    assert_eq!(parse_masscan_line("").unwrap_err().kind, LineFailure::Unrecognized);
}

#[test]
fn line_with_a_given_network() {
    let chars: Vec<char> = "anything".chars().collect();
    assert_eq!(parse_masscan_line_with(&chars, Some((ip(10, 1, 2, 3), 16))).unwrap(), (ip(10, 1, 0, 0), ip(10, 1, 255, 255)));
    assert_eq!(parse_masscan_line_with(&chars, Some((ip(10, 1, 2, 3), 0))).unwrap(), (0, u32::MAX));
    assert_eq!(parse_masscan_line_with(&chars, None).unwrap_err().kind, LineFailure::Unrecognized);
    let chars: Vec<char> = "8.8.8.8".chars().collect();
    assert_eq!(parse_masscan_line_with(&chars, None).unwrap(), (ip(8, 8, 8, 8), ip(8, 8, 8, 8)));
}

#[test]
fn lists_skip_comments_and_blank_lines() {
    let list = "# comment\n10.0.0.0/8\r\n\n  1.2.3.4  \n\t\n5.6.7.8-5.6.7.9";
    assert_eq!(
        parse_masscan(list).unwrap(),
        vec![(ip(10, 0, 0, 0), ip(10, 255, 255, 255)), (ip(1, 2, 3, 4), ip(1, 2, 3, 4)), (ip(5, 6, 7, 8), ip(5, 6, 7, 9))]
    );
    assert_eq!(parse_masscan("").unwrap(), vec![]);
    assert_eq!(parse_masscan("\n\n# only comments\n").unwrap(), vec![]);
}

#[test]
fn lists_stop_at_the_first_bad_line() {
    let e = parse_masscan("1.2.3.4\nbogus\n5.6.7.8-\n").unwrap_err();
    assert_eq!(e.kind, LineFailure::Unrecognized);
    assert_eq!(text(&e.line), "bogus");
    let e = parse_masscan("  # indented is not a comment").unwrap_err();
    assert_eq!(text(&e.line), "# indented is not a comment");
}

#[test]
fn merge_sorts_and_folds_overlaps() {
    assert_eq!(merge_intervals(vec![(5, 10), (1, 3), (2, 4), (11, 12)]), vec![(1, 4), (5, 10), (11, 12)]);
    assert_eq!(merge_intervals(vec![(1, 10), (2, 3), (10, 20)]), vec![(1, 20)]);
    assert_eq!(merge_intervals(vec![]), vec![]);
    assert_eq!(merge_intervals(vec![(3, 3)]), vec![(3, 3)]);
}

#[test]
fn merge_is_idempotent_on_examples() {
    let once = merge_intervals(vec![(40, 50), (0, 7), (3, 9), (45, 60), (20, 20)]);
    assert_eq!(once, vec![(0, 9), (20, 20), (40, 60)]);
    assert_eq!(merge_intervals(once.clone()), once);
}

#[test]
fn exclude_cuts_holes() {
    assert_eq!(apply_exclude(vec![(0, 100)], vec![(10, 20)]), vec![(0, 9), (21, 100)]);
    assert_eq!(apply_exclude(vec![(0, 100)], vec![(0, 20), (90, 200)]), vec![(21, 89)]);
    assert_eq!(apply_exclude(vec![(0, 100)], vec![]), vec![(0, 100)]);
    assert_eq!(apply_exclude(vec![(50, 60), (0, 10)], vec![(5, 55)]), vec![(0, 4), (56, 60)]);
}

#[test]
fn exclude_boundary_cases() {
    // a single-address target survives an empty exclude list
    assert_eq!(apply_exclude(vec![(ip(1, 2, 3, 4), ip(1, 2, 3, 4))], vec![]), vec![(ip(1, 2, 3, 4), ip(1, 2, 3, 4))]);
    assert_eq!(apply_exclude(vec![(5, 5)], vec![]), vec![(5, 5)]);
    // an exclusion of the first address removes exactly that address
    assert_eq!(apply_exclude(vec![(0, 10)], vec![(0, 0)]), vec![(1, 10)]);
    // an exclusion that starts at the target's end removes the end
    assert_eq!(apply_exclude(vec![(0, 10)], vec![(10, 20)]), vec![(0, 9)]);
    // the end of a target right after an exclusion is kept
    assert_eq!(apply_exclude(vec![(0, 10)], vec![(2, 9)]), vec![(0, 1), (10, 10)]);
    // an exclusion up to the last address
    assert_eq!(apply_exclude(vec![(0, u32::MAX)], vec![(100, u32::MAX)]), vec![(0, 99)]);
    // everything excluded
    assert_eq!(apply_exclude(vec![(0, u32::MAX)], vec![(0, u32::MAX)]), vec![]);
    assert_eq!(apply_exclude(vec![(7, 7)], vec![(7, 7)]), vec![]);
}

#[test]
fn exclude_is_exact_set_difference() {
    let targets = vec![(0, 40), (35, 60), (100, 100), (200, 210)];
    let exclude = vec![(5, 9), (40, 40), (100, 100), (150, 205), (60, 60)];
    let result = apply_exclude(targets.clone(), exclude.clone());
    for p in 0..=260u32 {
        let in_targets = targets.iter().any(|&(s, e)| s <= p && p <= e);
        let in_exclude = exclude.iter().any(|&(s, e)| s <= p && p <= e);
        let in_result = result.iter().any(|&(s, e)| s <= p && p <= e);
        assert_eq!(in_result, in_targets && !in_exclude, "address {}", p);
    }
}

#[test]
fn excluding_twice_changes_nothing() {
    let once = apply_exclude(vec![(0, 10)], vec![(1, 5)]);
    assert_eq!(once, vec![(0, 0), (6, 10)]);
    assert_eq!(apply_exclude(once.clone(), vec![(1, 5)]), once);
}

#[test]
fn a_target_alone_reads_as_a_line_of_a_list() {
    for target in ["10.0.0.0/30", "1.2.3.4", "  1.2.3.4-1.2.3.9 ", "bogus", "1.2.3.4-"] {
        let alone = parse_masscan(target);
        let line = parse_masscan_line(target.trim());
        match (alone, line) {
            (Ok(rs), Ok(r)) => assert_eq!(rs, vec![r]),
            (Err(a), Err(b)) => {
                assert_eq!(a.kind, b.kind);
                assert_eq!(a.line, b.line);
            }
            _ => panic!("`{}` read differently alone and as a line", target),
        }
    }
    assert_eq!(parse_masscan("# just a comment").unwrap(), vec![]);
}

#[test]
fn each_line_of_a_list_reads_as_it_would_alone() {
    let first = parse_masscan("10.0.0.0/30").unwrap();
    let rest = parse_masscan("1.2.3.4\n5.6.7.8-5.6.7.9").unwrap();
    let whole = parse_masscan("10.0.0.0/30\r\n1.2.3.4\n5.6.7.8-5.6.7.9").unwrap();
    let mut joined = first.clone();
    joined.extend(rest);
    assert_eq!(whole, joined);
}

#[test]
fn joined_lists_read_as_their_parts() {
    let a = "# first\n10.0.0.0/30\n\n1.2.3.4";
    let b = "5.6.7.8-5.6.7.9\n# end\n";
    let mut expected = parse_masscan(a).unwrap();
    expected.extend(parse_masscan(b).unwrap());
    assert_eq!(parse_masscan(&format!("{}\n{}", a, b)).unwrap(), expected);
    let e = parse_masscan(&format!("{}\n{}", a, "oops\n1.1.1.1")).unwrap_err();
    assert_eq!(text(&e.line), "oops");
}

#[test]
fn exclude_ignores_the_order_of_its_lists() {
    let targets = vec![(10, 20), (0, 5), (21, 30), (3, 12), (50, 50)];
    let exclude = vec![(25, 26), (4, 4), (50, 60)];
    let expected = apply_exclude(targets.clone(), exclude.clone());
    assert_eq!(expected, vec![(0, 3), (5, 20), (21, 24), (27, 30)]);
    let mut t2 = targets.clone();
    t2.reverse();
    let mut x2 = exclude.clone();
    x2.rotate_left(1);
    assert_eq!(apply_exclude(t2, x2), expected);
}
