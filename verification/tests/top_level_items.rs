use fjson_fmt_engine::{CommentPolicy, Formatter};

#[test]
fn error_if_multiple_top_level_elements() {
    let input = "[1,2] [3,4]";
    let mut formatter = Formatter::new();
    assert!(formatter.reformat(input, 0).is_err());
    assert!(formatter.minify(input).is_err());
}

#[test]
fn error_if_multiple_top_level_elements_with_comma() {
    let input = "[1,2], [3,4]";
    let mut formatter = Formatter::new();
    assert!(formatter.reformat(input, 0).is_err());
    assert!(formatter.minify(input).is_err());
}

#[test]
fn comments_after_top_level_element_are_preserved() {
    let input = "/*a*/ [1,2] /*b*/ //c";
    let mut formatter = Formatter::new();
    formatter.options.comment_policy = CommentPolicy::Preserve;
    let output = formatter.reformat(input, 0).unwrap();

    assert!(output.contains("/*a*/"));
    assert!(output.contains("/*b*/"));
    assert!(output.contains("//c"));

    let minified_output = formatter.reformat(input, 0).unwrap();
    assert!(minified_output.contains("/*a*/"));
    assert!(minified_output.contains("/*b*/"));
    assert!(minified_output.contains("//c"));
}

#[test]
fn whitespace_only_input_gives_empty_output() {
    let mut formatter = Formatter::new();
    assert!(formatter.reformat("  \n ", 0).is_ok());
    assert_eq!(formatter.minify("  \n ").unwrap(), "");
}

#[test]
fn two_top_level_scalars_are_an_error() {
    let mut formatter = Formatter::new();
    assert!(formatter.reformat("1 2", 0).is_err());
    assert!(formatter.minify("true \"x\"").is_err());
}

#[test]
fn leading_comment_is_an_error_when_comments_are_errors() {
    let mut formatter = Formatter::new();
    formatter.options.comment_policy = CommentPolicy::TreatAsError;
    assert!(formatter.reformat("// c\n1", 0).is_err());
    formatter.options.comment_policy = CommentPolicy::Remove;
    assert_eq!(formatter.minify("// c\n1").unwrap(), "1");
}
