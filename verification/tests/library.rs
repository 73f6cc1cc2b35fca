use fjson_fmt_engine::buffer::PaddedFormattingTokens;
use fjson_fmt_engine::model::TableColumnType;
use fjson_fmt_engine::parser::Parser;
use fjson_fmt_engine::table_template::TableTemplate;
use fjson_fmt_engine::FracturedJsonOptions;
use fjson_fmt_engine::model::TokenType;
use fjson_fmt_engine::tokenizer::TokenGenerator;
use fjson_fmt_engine::config::{
    build_options, comma_placement_from, comment_policy_from, eol_from, number_align_from,
    to_ascii_lowercase, Config,
};
use fjson_fmt_engine::convert::{convert_value_to_dom, quote_json_string};
use fjson_fmt_engine::formatter::{join_jsonl, split_lines};
use fjson_fmt_engine::number::{normalize_number, pad_decimals};
use fjson_fmt_engine::{
    CharCount, CommentPolicy, EolStyle, Formatter, FracturedJsonError, InputPosition, JsonItemType,
    JsonValue, NumberListAlignment, TableCommaPlacement,
};

fn nested_arrays(depth: usize) -> JsonValue {
    let mut value = JsonValue::Array(vec![]);
    for _ in 1..depth {
        value = JsonValue::Array(vec![value]);
    }
    value
}

#[test]
fn option_names_ignore_ascii_case() {
    assert_eq!(eol_from("CRLF").unwrap(), EolStyle::Crlf);
    assert_eq!(eol_from("Lf").unwrap(), EolStyle::Lf);
    assert_eq!(comment_policy_from("Error").unwrap(), CommentPolicy::TreatAsError);
    assert_eq!(comment_policy_from("TreatAsError").unwrap(), CommentPolicy::TreatAsError);
    assert_eq!(comment_policy_from("PRESERVE").unwrap(), CommentPolicy::Preserve);
    assert_eq!(number_align_from("Normalize").unwrap(), NumberListAlignment::Normalize);
    assert_eq!(
        comma_placement_from("AfterPadding").unwrap(),
        TableCommaPlacement::AfterPadding
    );
}

#[test]
fn unknown_option_names_are_reported_in_small_letters() {
    assert_eq!(eol_from("DOS").unwrap_err(), "invalid json_eol_style: dos");
    assert_eq!(comment_policy_from("Keep").unwrap_err(), "invalid comment_policy: keep");
    assert_eq!(
        number_align_from("Center").unwrap_err(),
        "invalid number_list_alignment: center"
    );
    assert_eq!(
        comma_placement_from("Middle").unwrap_err(),
        "invalid table_comma_placement: middle"
    );
}

#[test]
fn empty_config_gives_defaults() {
    let o = build_options(Config::default()).unwrap();
    assert_eq!(o.json_eol_style, EolStyle::Lf);
    assert_eq!(o.max_total_line_length, 120);
    assert_eq!(o.indent_spaces, 4);
    assert_eq!(o.always_expand_depth, -1);
    assert_eq!(o.prefix_string, "");
    assert_eq!(o.comment_policy, CommentPolicy::TreatAsError);
}

#[test]
fn config_values_replace_defaults() {
    let mut cfg = Config::default();
    cfg.json_eol_style = Some("crlf".to_string());
    cfg.indent_spaces = Some(2);
    cfg.prefix_string = Some("// ".to_string());
    cfg.number_list_alignment = Some("Left".to_string());
    let o = build_options(cfg).unwrap();
    assert_eq!(o.json_eol_style, EolStyle::Crlf);
    assert_eq!(o.indent_spaces, 2);
    assert_eq!(o.prefix_string, "// ");
    assert_eq!(o.number_list_alignment, NumberListAlignment::Left);
    assert_eq!(o.max_inline_complexity, 2);
}

#[test]
fn first_bad_config_name_is_reported() {
    let mut cfg = Config::default();
    cfg.comment_policy = Some("nope".to_string());
    cfg.json_eol_style = Some("Mac".to_string());
    assert_eq!(build_options(cfg).unwrap_err(), "invalid json_eol_style: mac");

    let mut cfg = Config::default();
    cfg.comment_policy = Some("nope".to_string());
    cfg.table_comma_placement = Some("Before".to_string());
    assert_eq!(
        build_options(cfg).unwrap_err(),
        "invalid table_comma_placement: before"
    );
}

#[test]
fn lowercase_touches_only_ascii_capitals() {
    assert_eq!(to_ascii_lowercase("AbC-Ü1"), "abc-Ü1");
}

#[test]
fn depth_limit_is_exact() {
    let mut formatter = Formatter::new();
    assert_eq!(formatter.serialize_value(&nested_arrays(3), 0, 3).unwrap(), "[ [[]] ]\n");
    let err = formatter.serialize_value(&nested_arrays(3), 0, 2).unwrap_err();
    assert_eq!(err.message, "Depth limit exceeded - possible circular reference");
    assert!(err.input_position.is_none());
}

#[test]
fn conversion_quotes_names_and_strings() {
    assert_eq!(quote_json_string("a\"b"), "\"a\\\"b\"");
    assert_eq!(quote_json_string("line\nbreak"), "\"line\\nbreak\"");
    let value = JsonValue::Object(vec![
        ("k".to_string(), JsonValue::Number("1.50".to_string())),
        ("s".to_string(), JsonValue::String("x".to_string())),
        ("a".to_string(), JsonValue::Array(vec![JsonValue::Bool(false)])),
    ]);
    let item = convert_value_to_dom(&value, None, 10).unwrap().unwrap();
    assert_eq!(item.item_type, JsonItemType::Object);
    assert_eq!(item.complexity, 2);
    assert_eq!(item.children.len(), 3);
    assert_eq!(item.children[0].name, "\"k\"");
    assert_eq!(item.children[0].value, "1.50");
    assert_eq!(item.children[1].value, "\"x\"");
    assert_eq!(item.children[2].item_type, JsonItemType::Array);
    assert_eq!(item.children[2].complexity, 1);
    assert_eq!(item.children[2].children[0].value, "false");
}

#[test]
fn serialized_value_is_formatted() {
    let value = JsonValue::Object(vec![
        ("a".to_string(), JsonValue::Number("1".to_string())),
        ("b".to_string(), JsonValue::Null),
    ]);
    let mut formatter = Formatter::new();
    assert_eq!(
        formatter.serialize_value(&value, 0, 100).unwrap(),
        "{\"a\": 1, \"b\": null}\n"
    );
}

#[test]
fn jsonl_error_names_the_line() {
    let mut formatter = Formatter::new();
    let err = formatter.reformat_jsonl("{\"a\":1}\n[1,\n").unwrap_err();
    assert!(err.message.starts_with("line 2: "), "{}", err.message);
    assert!(err.input_position.is_none());
}

#[test]
fn jsonl_lines_are_split_and_joined() {
    assert_eq!(split_lines("a\r\nb\n"), vec!["a".to_string(), "b".to_string()]);
    assert_eq!(split_lines("a\n\nb"), vec!["a".to_string(), "".to_string(), "b".to_string()]);
    assert_eq!(split_lines(""), Vec::<String>::new());
    assert_eq!(join_jsonl(&vec!["a".to_string(), "b".to_string()]), "a\nb\n");
    assert_eq!(join_jsonl(&vec![]), "");
    assert_eq!(join_jsonl(&vec!["".to_string()]), "");
}

#[test]
fn char_count_counts_characters() {
    assert_eq!(Formatter::string_length_by_char_count("李小龍"), 3);
    assert_eq!(Formatter::string_length_by_char_count(""), 0);
}

#[test]
fn error_message_carries_the_position() {
    let pos = InputPosition {
        index: 5,
        row: 1,
        column: 2,
    };
    let e = FracturedJsonError::new("bad", Some(pos));
    assert_eq!(e.message, "bad at idx=5, row=1, col=2");
    assert_eq!(e.to_string(), "bad at idx=5, row=1, col=2");
    assert_eq!(FracturedJsonError::simple("plain").message, "plain");
}

#[test]
fn reformatted_lines_end_without_whitespace() {
    let mut formatter = Formatter::new();
    formatter.options.max_total_line_length = 10;
    formatter.options.comment_policy = CommentPolicy::Remove;
    formatter.options.prefix_string = "  ".to_string();
    let output = formatter
        .reformat("[ 1 ,  2 , /* c */ 3   ,\n\n 4 ]   ", 0)
        .unwrap();
    for line in output.split('\n') {
        assert_eq!(line, line.trim_end());
    }
    assert!(output.ends_with('\n'));
}

#[test]
fn crlf_lines_end_without_whitespace() {
    let mut formatter = Formatter::new();
    formatter.options.json_eol_style = EolStyle::Crlf;
    formatter.options.max_total_line_length = 12;
    let output = formatter
        .reformat("{\"alpha\": [1, 2, 3], \"beta\": {\"c\": null}}", 0)
        .unwrap();
    assert!(output.ends_with("\r\n"));
    for line in output.trim_end().split("\r\n") {
        assert_eq!(line, line.trim_end());
    }
}

#[test]
fn minify_removes_layout() {
    let mut formatter = Formatter::new();
    assert_eq!(
        formatter.minify("{ \"a\" : [ 1 , 2 ] ,\n \"b\": true }").unwrap(),
        "{\"a\":[1,2],\"b\":true}"
    );
}

#[test]
fn numbers_normalize_to_plain_decimals() {
    assert_eq!(normalize_number("1.50").unwrap(), "1.5");
    assert_eq!(normalize_number("1e2").unwrap(), "100");
    assert_eq!(normalize_number("12e-1").unwrap(), "1.2");
    assert!(normalize_number("abc").is_none());
    assert_eq!(pad_decimals("1.5", 3), "1.500");
    assert_eq!(pad_decimals("2", 2), "2.00");
}

#[test]
fn normal_forms_are_canonical() {
    assert_eq!(normalize_number("-1.5e-2").unwrap(), "-0.015");
    assert_eq!(normalize_number("12.50e1").unwrap(), "125");
    assert_eq!(normalize_number("0.000").unwrap(), "0");
    assert_eq!(normalize_number("-0").unwrap(), "-0");
    assert_eq!(normalize_number("1E+3").unwrap(), "1000");
    assert_eq!(normalize_number("100e-2").unwrap(), "1");
    assert_eq!(normalize_number("12345678901234.5").unwrap(), "12345678901234.5");
}

#[test]
fn long_or_malformed_numbers_have_no_normal_form() {
    assert!(normalize_number("1e20").is_none());
    assert!(normalize_number("1e-20").is_none());
    assert!(normalize_number("1.23456789012345678").is_none());
    assert!(normalize_number("1e99999999999999999999").is_none());
    assert!(normalize_number("1.").is_none());
    assert!(normalize_number("1e").is_none());
    assert!(normalize_number("-").is_none());
    assert!(normalize_number("1e5x").is_none());
    assert!(normalize_number("").is_none());
}

#[test]
fn width_function_can_be_replaced() {
    let mut formatter = Formatter::new();
    formatter.options.indent_spaces = 2;
    let formatter = formatter.with_string_length_func(CharCount);
    assert_eq!(formatter.options.indent_spaces, 2);
}

#[test]
fn minified_text_is_one_line() {
    let mut formatter = Formatter::new();
    formatter.options.comment_policy = CommentPolicy::Remove;
    let output = formatter
        .minify("[\n  1, // one\n  { \"a\" : \"b c\" },\n\n  /* x */ null\n]\n")
        .unwrap();
    assert_eq!(output, "[1,{\"a\":\"b c\"},null]");
    assert!(!output.contains('\n'));
}

#[test]
fn minify_doc_example() {
    let mut formatter = Formatter::new();
    let input = "{\n    \"name\": \"Alice\",\n    \"age\": 30\n}";
    assert_eq!(formatter.minify(input).unwrap(), "{\"name\":\"Alice\",\"age\":30}");
    assert_eq!(
        formatter.minify("{ \"a\": 1, \"b\": 2 }").unwrap(),
        "{\"a\":1,\"b\":2}"
    );
}

#[test]
fn reformat_doc_example() {
    let mut formatter = Formatter::new();
    let output = formatter
        .reformat("{\"name\":\"Alice\",\"age\":30}", 0)
        .unwrap();
    assert!(output.contains("\"name\": \"Alice\""));
    let output = formatter.reformat("{\"a\":1,\"b\":2}", 0).unwrap();
    assert!(output.contains("\"a\": 1"));
}

#[test]
fn options_persist_across_calls() {
    let mut formatter = Formatter::new();
    formatter.options.indent_spaces = 2;
    formatter.options.max_inline_complexity = 0;
    let first = formatter.reformat("{\"a\":[1,2]}", 0).unwrap();
    let second = formatter.reformat("{\"a\":[1,2]}", 0).unwrap();
    assert_eq!(first, second);
    assert_eq!(formatter.options.indent_spaces, 2);
}

#[test]
fn slash_star_closes_any_comment() {
    let tokens = TokenGenerator::new("[1, // x */\n2]").collect_tokens().unwrap();
    let kinds: Vec<TokenType> = tokens.iter().map(|t| t.token_type).collect();
    assert_eq!(
        kinds,
        vec![
            TokenType::BeginArray,
            TokenType::Number,
            TokenType::Comma,
            TokenType::BlockComment,
            TokenType::Number,
            TokenType::EndArray
        ]
    );
    assert_eq!(tokens[3].text, "// x */");
    assert_eq!(tokens[4].input_position.row, 1);
    assert_eq!(tokens[4].input_position.column, 0);
}

#[test]
fn number_scan_stops_after_leading_zero() {
    let tokens = TokenGenerator::new("01").collect_tokens().unwrap();
    assert_eq!(tokens.len(), 2);
    assert_eq!(tokens[0].text, "0");
    assert_eq!(tokens[1].text, "1");
    let err = TokenGenerator::new("1.x").collect_tokens().unwrap_err();
    assert_eq!(err.message, "Bad character while processing number at idx=2, row=0, col=2");
    let err = TokenGenerator::new("tru").collect_tokens().unwrap_err();
    assert_eq!(err.message, "Unexpected end of input while processing keyword at idx=3, row=0, col=3");
}

#[test]
fn text_that_does_not_tokenize_is_refused() {
    let mut formatter = Formatter::new();
    assert!(formatter.reformat("[1, @]", 0).is_err());
    assert!(formatter.minify("\"open").is_err());
}

#[test]
fn preserved_comments_leave_no_trailing_whitespace() {
    let mut formatter = Formatter::new();
    formatter.options.comment_policy = CommentPolicy::Preserve;
    let input = "{ /* a   \n   b */ \"x\": 1, \"y\": /* m  \n n */ 2, // end   \n \"z\": [1, /* q */ 2] }";
    let out = formatter.reformat(input, 0).unwrap();
    for line in out.split('\n') {
        assert_eq!(line, line.trim_end());
    }
    assert!(out.contains("/* a"));
    assert!(out.contains("b */"));
}

fn column_kind(text: &str) -> (TableColumnType, Vec<TableColumnType>) {
    let opts = FracturedJsonOptions::default();
    let items = Parser::new(opts.clone()).parse_top_level(text, true).unwrap();
    let pads = PaddedFormattingTokens::new(&opts, &CharCount);
    let mut template = TableTemplate::new(pads, NumberListAlignment::Decimal);
    template.measure_table_root(&items[0], true);
    let kinds = template.children.iter().map(|c| c.column_type).collect();
    (template.column_type, kinds)
}

#[test]
fn column_kinds_follow_the_rows() {
    assert_eq!(
        column_kind("[[1, 2], [null, 3]]"),
        (TableColumnType::Array, vec![TableColumnType::Number, TableColumnType::Number])
    );
    assert_eq!(column_kind("[1, \"a\"]").0, TableColumnType::Mixed);
    assert_eq!(column_kind("[null, 2]").0, TableColumnType::Number);
    assert_eq!(column_kind("[{\"a\": 1, \"a\": 2}]").0, TableColumnType::Simple);
    assert_eq!(column_kind("[{\"a\": 1, \"a\": 2}, {\"a\": 3}]").0, TableColumnType::Mixed);
}

#[test]
fn options_can_be_set_through_methods() {
    let mut options = fjson_fmt_engine::options::FracturedJsonOptions::default();
    options.max_total_line_length = 20;
    let formatter = fjson_fmt_engine::Formatter::new().with_options(options.clone());
    assert_eq!(formatter.options.max_total_line_length, 20);
    let mut other = fjson_fmt_engine::Formatter::new();
    other.set_options(options);
    assert_eq!(other.options.max_total_line_length, 20);
}

#[test]
fn jsonl_error_names_the_first_failing_line() {
    let mut formatter = Formatter::new();
    let err = formatter.minify_jsonl("{}\n\n[1,\n{,}\n").unwrap_err();
    assert!(err.message.starts_with("line 3: "), "{}", err.message);
}

#[test]
fn minify_jsonl_minifies_each_line() {
    let mut formatter = Formatter::new();
    let lines = ["{ \"a\" : [1, 2] }", "", "[ true , null ]"];
    let out = formatter.minify_jsonl(&lines.join("\n")).unwrap();
    let mut expected = String::new();
    for line in lines.iter() {
        if !line.is_empty() {
            expected.push_str(formatter.minify(line).unwrap().trim_end());
        }
        expected.push('\n');
    }
    assert_eq!(out, expected);
    assert_eq!(out, "{\"a\":[1,2]}\n\n[true,null]\n");
}

#[test]
fn second_top_level_value_is_refused() {
    let parser = Parser::new(FracturedJsonOptions::default());
    assert!(parser.parse_top_level("[1,2] [3,4]", true).is_err());
    assert!(parser.parse_top_level("[1,2], [3,4]", true).is_err());
    assert!(parser.parse_top_level("{} 7", true).is_err());
    let items = parser.parse_top_level("[1,2] [3,4]", false).unwrap();
    assert_eq!(items.len(), 2);
    assert_eq!(items[0].children[1].value, "2");
    assert_eq!(items[1].children[0].value, "3");
    let mut preserve = FracturedJsonOptions::default();
    preserve.comment_policy = CommentPolicy::Preserve;
    let parser = Parser::new(preserve);
    assert!(parser.parse_top_level("[1] /*c*/ [2]", true).is_err());
    let items = parser.parse_top_level("/*a*/ [1] //b\n", true).unwrap();
    assert_eq!(items.len(), 3);
    assert_eq!(items[0].item_type, JsonItemType::BlockComment);
    assert_eq!(items[2].item_type, JsonItemType::LineComment);
}

#[test]
fn nested_comments_are_refused_or_dropped() {
    let mut refuse = FracturedJsonOptions::default();
    refuse.comment_policy = CommentPolicy::TreatAsError;
    assert!(Parser::new(refuse).parse_top_level("[1, [2 /*c*/], {\"a\": 3 //d\n}]", true).is_err());
    let mut remove = FracturedJsonOptions::default();
    remove.comment_policy = CommentPolicy::Remove;
    let items = Parser::new(remove)
        .parse_top_level("[1, [2 /*c*/], {\"a\": /*m*/ 3 //d\n}]", true)
        .unwrap();
    assert_eq!(items.len(), 1);
    let outer = &items[0];
    assert_eq!(outer.children.len(), 3);
    assert_eq!(outer.children[1].children.len(), 1);
    assert_eq!(outer.children[1].children[0].postfix_comment, "");
    assert_eq!(outer.children[2].children.len(), 1);
    assert_eq!(outer.children[2].children[0].middle_comment, "");
    assert_eq!(outer.children[2].children[0].postfix_comment, "");
    assert_eq!(outer.complexity, 2);
}

#[test]
fn minify_and_reformat_fail_exactly_on_bad_documents() {
    let mut formatter = Formatter::new();
    for bad in ["[1,", "{\"a\" 1}", "[1] [2]", "tru"] {
        assert!(formatter.minify(bad).is_err(), "{}", bad);
        assert!(formatter.reformat(bad, 0).is_err(), "{}", bad);
    }
    for good in ["[1]", "  ", "{\"a\": [1, {\"b\": null}]}"] {
        assert!(formatter.minify(good).is_ok(), "{}", good);
        assert!(formatter.reformat(good, 0).is_ok(), "{}", good);
    }
}

#[test]
fn decimal_columns_record_digit_widths() {
    let opts = FracturedJsonOptions::default();
    let items = Parser::new(opts.clone()).parse_top_level("[1.5, 22.25, 333, null, -4e7]", true).unwrap();
    let pads = PaddedFormattingTokens::new(&opts, &CharCount);
    let mut template = TableTemplate::new(pads, NumberListAlignment::Decimal);
    template.measure_table_root(&items[0], true);
    assert_eq!(template.column_type, TableColumnType::Number);
    assert_eq!(template.max_dig_before_dec, 4);
    assert_eq!(template.max_dig_after_dec, 2);
    let pads = PaddedFormattingTokens::new(&opts, &CharCount);
    let mut template = TableTemplate::new(pads, NumberListAlignment::Decimal);
    template.measure_table_root(&items[0], true);
    assert!(template.try_to_fit(usize::MAX));
    assert!(!template.try_to_fit(1));
}

#[test]
fn parse_errors_name_their_cause_and_place() {
    let parser = Parser::new(FracturedJsonOptions::default());
    let e = parser.parse_top_level("{ \"w\":1, }", true).unwrap_err();
    assert!(e.message.starts_with("Object may not end with comma with current options"), "{}", e.message);
    assert_eq!(e.input_position.unwrap().index, 9);
    let e = parser.parse_top_level("[1] [2]", true).unwrap_err();
    assert!(e.message.starts_with("Unexpected start of second top level element"), "{}", e.message);
    assert_eq!(e.input_position.unwrap().index, 4);
    let e = parser.parse_top_level("[1, [2 /*c*/]]", true).unwrap_err();
    assert!(e.message.starts_with("Comments not allowed with current options"), "{}", e.message);
    assert_eq!(e.input_position.unwrap().index, 7);
    let e = parser.parse_top_level("[1, 2", true).unwrap_err();
    assert!(e.message.starts_with("Unexpected end of input while processing array or object starting"), "{}", e.message);
    assert_eq!(e.input_position.unwrap().index, 0);
    let e = parser.parse_top_level("[1 2]", true).unwrap_err();
    assert!(e.message.starts_with("Comma missing while processing array"), "{}", e.message);
}

#[test]
fn jsonl_errors_carry_no_position() {
    let mut formatter = Formatter::new();
    let e = formatter.reformat_jsonl("{\"a\":1}\ninvalid json\n{\"c\":3}").unwrap_err();
    assert!(e.message.starts_with("line 2: "), "{}", e.message);
    assert!(e.input_position.is_none());
}
