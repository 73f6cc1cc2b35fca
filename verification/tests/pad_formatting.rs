use fjson_fmt_engine::Formatter;

#[test]
fn simple_bracket_padding_works_for_tables() {
    let input = "[[1, 2],[3, 4]]";

    let mut formatter = Formatter::new();
    formatter.options.max_inline_complexity = 1;
    formatter.options.simple_bracket_padding = true;

    let output = formatter.reformat(input, 0).unwrap();
    let output_lines: Vec<&str> = output.trim_end().split('\n').collect();

    assert_eq!(output_lines.len(), 4);
    assert!(output_lines[1].contains("[ 1, 2 ]"));
    assert!(output_lines[2].contains("[ 3, 4 ]"));

    formatter.options.simple_bracket_padding = false;
    let output = formatter.reformat(input, 0).unwrap();
    let output_lines: Vec<&str> = output.trim_end().split('\n').collect();

    assert_eq!(output_lines.len(), 4);
    assert!(output_lines[1].contains("[1, 2]"));
    assert!(output_lines[2].contains("[3, 4]"));
}
