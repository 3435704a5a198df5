use cell_kmeans::outlines::{parse_outlines, OutlineError, OutlineFault};

fn parse(text: &str) -> Result<Vec<Vec<(i32, i32)>>, OutlineError> {
    parse_outlines(&text.as_bytes().to_vec())
}

#[test]
fn one_line_per_cell() {
    assert_eq!(
        parse("0,0,4,0,4,4,0,4\n10,10,12,10,12,12,10,12"),
        Ok(vec![
            vec![(0, 0), (4, 0), (4, 4), (0, 4)],
            vec![(10, 10), (12, 10), (12, 12), (10, 12)],
        ])
    );
}

#[test]
fn white_space_and_empty_entries_do_not_count() {
    assert_eq!(parse(" 1 ,\t2,, 3 ,4 ,,\n"), Ok(vec![vec![(1, 2), (3, 4)]]));
    assert_eq!(parse("1,2\r\n3,4\r\n"), Ok(vec![vec![(1, 2)], vec![(3, 4)]]));
}

#[test]
fn a_final_line_feed_ends_the_last_line() {
    assert_eq!(parse(""), Ok(vec![]));
    assert_eq!(parse("\n"), Ok(vec![vec![]]));
    assert_eq!(parse("1,2"), Ok(vec![vec![(1, 2)]]));
    assert_eq!(parse("1,2\n"), Ok(vec![vec![(1, 2)]]));
    assert_eq!(parse("1,2\n\n"), Ok(vec![vec![(1, 2)], vec![]]));
    assert_eq!(parse("\n1,2"), Ok(vec![vec![], vec![(1, 2)]]));
    assert_eq!(parse("  , ,\n"), Ok(vec![vec![]]));
}

#[test]
fn signs_and_the_ends_of_the_range() {
    assert_eq!(parse("+5,-5"), Ok(vec![vec![(5, -5)]]));
    assert_eq!(parse("-0,+0,007,-007"), Ok(vec![vec![(0, 0), (7, -7)]]));
    assert_eq!(parse("2147483647,-2147483648"), Ok(vec![vec![(i32::MAX, i32::MIN)]]));
    assert_eq!(parse("00000000000000000002147483647,1"), Ok(vec![vec![(i32::MAX, 1)]]));
}

#[test]
fn an_odd_count_fails_with_the_line() {
    assert_eq!(
        parse("1,2\n1,2,3\n4,5"),
        Err(OutlineError { line: 1, fault: OutlineFault::OddCount })
    );
    assert_eq!(parse("7"), Err(OutlineError { line: 0, fault: OutlineFault::OddCount }));
}

#[test]
fn a_malformed_number_fails_with_the_line() {
    let malformed = |line| Err(OutlineError { line, fault: OutlineFault::MalformedInteger });
    assert_eq!(parse("1,2\n3,x"), malformed(1));
    assert_eq!(parse("1 2,3"), malformed(0));
    assert_eq!(parse("-,1"), malformed(0));
    assert_eq!(parse("+,1"), malformed(0));
    assert_eq!(parse("--1,1"), malformed(0));
    assert_eq!(parse("1.5,1"), malformed(0));
    assert_eq!(parse("2147483648,1"), malformed(0));
    assert_eq!(parse("-2147483649,1"), malformed(0));
    assert_eq!(parse("99999999999999999999999999999,1"), malformed(0));
    assert_eq!(parse("1,2\n\n3,4\n5,0x10"), malformed(3));
}

#[test]
fn a_malformed_number_counts_before_an_odd_count() {
    assert_eq!(
        parse("1,2,x"),
        Err(OutlineError { line: 0, fault: OutlineFault::MalformedInteger })
    );
    assert_eq!(
        parse("1\nx"),
        Err(OutlineError { line: 0, fault: OutlineFault::OddCount })
    );
}

#[test]
fn brackets_are_not_part_of_the_format() {
    assert_eq!(
        parse("(0,0),(4,0),(4,4),(0,4)\n(10,10),(12,10),(12,12),(10,12)"),
        Err(OutlineError { line: 0, fault: OutlineFault::MalformedInteger })
    );
}
