use sorting::{collect_numbers, join, parse_numbers, quicksort, render};

#[test]
fn parse_numbers_reads_whitespace_separated_integers() {
    let numbers = parse_numbers("5 3 8 3 1").ok().unwrap();
    assert_eq!(numbers, vec![5, 3, 8, 3, 1]);
}

#[test]
fn parse_numbers_takes_any_amount_of_whitespace() {
    let numbers = parse_numbers("  12\n-7\t\t+4 \r\n 0\n").ok().unwrap();
    assert_eq!(numbers, vec![12, -7, 4, 0]);
}

#[test]
fn parse_numbers_of_blank_text_is_empty() {
    assert_eq!(parse_numbers("").ok().unwrap(), Vec::<i32>::new());
    assert_eq!(parse_numbers(" \n\t ").ok().unwrap(), Vec::<i32>::new());
}

#[test]
fn parse_numbers_reads_the_extremes_of_i32() {
    let numbers = parse_numbers("2147483647 -2147483648").ok().unwrap();
    assert_eq!(numbers, vec![i32::MAX, i32::MIN]);
}

#[test]
fn parse_numbers_names_the_first_word_that_is_no_number() {
    let failure = parse_numbers("1 2 x3 4 y").err().unwrap();
    assert_eq!(failure.index, 2);
    assert_eq!(failure.word, "x3");
}

#[test]
fn parse_numbers_refuses_what_does_not_fit() {
    let failure = parse_numbers("2147483648").err().unwrap();
    assert_eq!(failure.index, 0);
    assert_eq!(failure.word, "2147483648");
    let failure = parse_numbers("0 -2147483649").err().unwrap();
    assert_eq!(failure.index, 1);
    assert_eq!(failure.word, "-2147483649");
}

#[test]
fn parse_numbers_refuses_fractions_and_bare_signs() {
    assert_eq!(parse_numbers("1.5").err().unwrap().index, 0);
    assert_eq!(parse_numbers("3 -").err().unwrap().index, 1);
    assert_eq!(parse_numbers("3 4 1,2").err().unwrap().word, "1,2");
}

#[test]
fn collect_numbers_gives_all_or_the_first_gap() {
    assert_eq!(collect_numbers(&[]), Ok(vec![]));
    assert_eq!(collect_numbers(&[Some(4), Some(-1), Some(4)]), Ok(vec![4, -1, 4]));
    assert_eq!(collect_numbers(&[None]), Err(0));
    assert_eq!(collect_numbers(&[Some(1), None, Some(3), None]), Err(1));
    assert_eq!(collect_numbers(&[Some(1), Some(2), None]), Err(2));
}

#[test]
fn join_puts_the_separator_between_parts() {
    let parts = vec!["a".to_string(), "bc".to_string(), "".to_string(), "d".to_string()];
    assert_eq!(join(&parts, ", "), "a, bc, , d");
    assert_eq!(join(&parts, ""), "abcd");
    assert_eq!(join(&parts[..1], "--"), "a");
    assert_eq!(join(&[], "--"), "");
}

#[test]
fn join_agrees_with_the_standard_join() {
    let parts = vec!["x".to_string(), "yy".to_string(), "zzz".to_string()];
    assert_eq!(join(&parts, "\n"), parts.join("\n"));
}

#[test]
fn render_writes_numbers_with_the_separator() {
    assert_eq!(render(&[1, 3, 3, 5, 8], "\n"), "1\n3\n3\n5\n8");
    assert_eq!(render(&[-10, 0, 7], ", "), "-10, 0, 7");
    assert_eq!(render(&[42], ";"), "42");
    assert_eq!(render(&[], ";"), "");
    assert_eq!(render(&[i32::MIN, i32::MAX], " "), "-2147483648 2147483647");
}

#[test]
fn render_after_parse_gives_the_numbers_back() {
    let text = "9 8 7 6 5 4 3 2 1";
    let numbers = parse_numbers(text).ok().unwrap();
    assert_eq!(render(&numbers, " "), text);
    assert_eq!(parse_numbers(&render(&numbers, "\n")).ok().unwrap(), numbers);
}

#[test]
fn numbers_from_text_are_sorted_and_written() {
    let mut numbers = parse_numbers("5\n3\n8\n3\n1\n").ok().unwrap();
    quicksort(&mut numbers, 5, 12);
    assert_eq!(render(&numbers, "\n"), "1\n3\n3\n5\n8");
    numbers.reverse();
    assert_eq!(render(&numbers, " "), "8 5 3 3 1");
}
