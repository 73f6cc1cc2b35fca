use fjson_fmt_engine::{Formatter, StringLength};
use unicode_width::UnicodeWidthStr;

/// Measures text by its display width.
struct DisplayWidth;

impl StringLength for DisplayWidth {
    fn length(&self, s: &str) -> usize {
        UnicodeWidthStr::width(s)
    }
}

#[test]
fn pads_wide_chars_correctly() {
    let input_lines = [
        "[",
        "    {'Name': '李小龍', 'Job': 'Actor', 'Born': 1940},",
        "    {'Name': 'Mark Twain', 'Job': 'Writer', 'Born': 1835},",
        "    {'Name': '孫子', 'Job': 'General', 'Born': -544}",
        "]",
    ];
    let input = normalize_quotes(&input_lines.join("\n"));
    let mut formatter = Formatter::new();

    let output = formatter.reformat(&input, 0).unwrap();
    let output_lines: Vec<String> = output
        .trim_end()
        .split('\n')
        .map(|s| s.to_string())
        .collect();

    assert!(do_instances_line_up(&output_lines, "Job"));
    assert!(do_instances_line_up(&output_lines, "Born"));

    let mut formatter = formatter.with_string_length_func(DisplayWidth);
    let output = formatter.reformat(&input, 0).unwrap();
    let output_lines: Vec<&str> = output.trim_end().split('\n').collect();

    assert_eq!(find_char_index(output_lines[1], "Job"), Some(25));
    assert_eq!(find_char_index(output_lines[2], "Job"), Some(28));
    assert_eq!(find_char_index(output_lines[3], "Job"), Some(26));
}

fn do_instances_line_up(lines: &[String], substring: &str) -> bool {
    let mut indices: Vec<usize> = lines
        .iter()
        .filter_map(|line| find_char_index(line, substring))
        .collect();
    if indices.is_empty() {
        return true;
    }
    indices.dedup();
    indices.len() == 1
}

fn find_char_index(haystack: &str, needle: &str) -> Option<usize> {
    haystack
        .find(needle)
        .map(|byte_idx| haystack[..byte_idx].chars().count())
}

fn normalize_quotes(input: &str) -> String {
    input.replace('\'', "\"")
}
