use decfec::preview::{join_preview_terms, write_fraction_preview};

fn strings(v: &[&str]) -> Vec<String> {
    v.iter().map(|s| s.to_string()).collect()
}

#[test]
fn terms_four_to_a_row() {
    assert_eq!(join_preview_terms(&strings(&[])), "");
    assert_eq!(join_preview_terms(&strings(&["1", "2", "3"])), "1 + 2 + 3");
    assert_eq!(join_preview_terms(&strings(&["a", "b", "c", "d"])), "a + b + c + d");
    assert_eq!(
        join_preview_terms(&strings(&["a", "b", "c", "d", "e"])),
        "a + b + c + d +\n      e"
    );
    assert_eq!(
        join_preview_terms(&strings(&["1", "2", "3", "4", "5", "6", "7", "8", "9"])),
        "1 + 2 + 3 + 4 +\n      5 + 6 + 7 + 8 +\n      9"
    );
}

#[test]
fn fraction_bar_covers_numerator() {
    let mut text = String::from("x\n");
    write_fraction_preview(&mut text, "FEC", "300 + 200", 5400, "0.093");
    let expected = format!("x\nFEC\nFEC = 300 + 200\n{}   = 0.093\n      5400\n\n", "─".repeat(15));
    assert_eq!(text, expected);
}

#[test]
fn fraction_bar_measures_bytes_of_the_widest_line() {
    let mut text = String::new();
    // '·' takes two bytes: the first line is 11 bytes wide.
    write_fraction_preview(&mut text, "DEC", "1 · 2/60 +\n      3", 10, "0.033 h");
    let expected = format!(
        "DEC\nDEC = 1 · 2/60 +\n      3\n{}   = 0.033 h\n      10\n\n",
        "─".repeat(11 + 3 + 3)
    );
    assert_eq!(text, expected);
}

#[test]
fn fraction_bar_without_numerator_lines() {
    let mut text = String::new();
    write_fraction_preview(&mut text, "FEC", "", 7, "0");
    assert_eq!(text, format!("FEC\nFEC = \n{}   = 0\n      7\n\n", "─".repeat(1 + 3 + 3)));
    let mut text = String::new();
    // The denominator is wider than the numerator; a carriage return before a
    // line feed does not count.
    write_fraction_preview(&mut text, "D", "12\r\n3", 123456, "r");
    assert_eq!(text, format!("D\nD = 12\r\n3\n{}   = r\n    123456\n\n", "─".repeat(6 + 1 + 3)));
}
