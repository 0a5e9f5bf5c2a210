use got::wrap::wrap_text;
use plotters::style::IntoFont;

fn visible(s: &str) -> String {
    s.chars().filter(|c| !c.is_whitespace()).collect()
}

#[test]
fn wrapped_lines_keep_every_visible_character() {
    let font = ("monospace", 16).into_font();
    let text = "  A fairly long label\twith words_that_are_much_longer_than_the_column  ";
    match wrap_text(&font, text, 60) {
        Ok(lines) => {
            assert_eq!(visible(&lines.concat()), visible(text));
            for line in &lines {
                assert!(!line.is_empty());
                assert!(!line.starts_with(char::is_whitespace) && !line.ends_with(char::is_whitespace));
            }
        }
        // Without a usable font on the machine, measuring fails.
        Err(message) => assert!(!message.is_empty()),
    }
}

#[test]
fn blank_text_wraps_to_no_line() {
    let font = ("monospace", 16).into_font();
    assert_eq!(wrap_text(&font, " \t\n ", 100), Ok(Vec::<String>::new()));
}

fn by_chars(s: String) -> Result<i32, String> {
    Ok(s.chars().count() as i32)
}

#[test]
fn greedy_wrapping_fills_lines_and_breaks_long_words() {
    let lines = got::wrap::wrap_with(by_chars, "aa bb cc dddddddddd e", 5).unwrap();
    assert_eq!(lines, vec!["aa bb", "cc", "ddddd", "ddddd", "e"]);
}

#[test]
fn a_failed_measurement_is_passed_on() {
    let failing = |_s: String| -> Result<i32, String> { Err("no font".to_string()) };
    assert_eq!(got::wrap::wrap_with(failing, "word", 5), Err("no font".to_string()));
    assert_eq!(got::wrap::wrap_with(failing, "   ", 5), Ok(Vec::new()));
}
