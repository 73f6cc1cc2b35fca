//! Options given by name, as a configuration blob gives them.

use vstd::prelude::*;
use crate::options::{
    CommentPolicy, EolStyle, FracturedJsonOptions, NumberListAlignment, TableCommaPlacement,
};
use crate::text::{chars_of, push_char};

verus! {

/// Options as a configuration gives them: each one optional, the
/// enumerations by name.
#[derive(Debug, Default)]
pub struct Config {
    pub json_eol_style: Option<String>,
    pub max_total_line_length: Option<usize>,
    pub max_inline_complexity: Option<isize>,
    pub max_compact_array_complexity: Option<isize>,
    pub max_table_row_complexity: Option<isize>,
    pub max_prop_name_padding: Option<usize>,
    pub colon_before_prop_name_padding: Option<bool>,
    pub table_comma_placement: Option<String>,
    pub min_compact_array_row_items: Option<usize>,
    pub always_expand_depth: Option<isize>,
    pub nested_bracket_padding: Option<bool>,
    pub simple_bracket_padding: Option<bool>,
    pub colon_padding: Option<bool>,
    pub comma_padding: Option<bool>,
    pub comment_padding: Option<bool>,
    pub number_list_alignment: Option<String>,
    pub indent_spaces: Option<usize>,
    pub use_tab_to_indent: Option<bool>,
    pub prefix_string: Option<String>,
    pub comment_policy: Option<String>,
    pub preserve_blank_lines: Option<bool>,
    pub allow_trailing_commas: Option<bool>,
}

/// `c` with an ASCII capital letter made small.
pub open spec fn lower_char(c: char) -> char {
    if 'A' <= c <= 'Z' {
        ((c as int) + 32) as char
    } else {
        c
    }
}

/// `s` with its ASCII capital letters made small.
pub open spec fn ascii_lower(s: Seq<char>) -> Seq<char> {
    s.map_values(|c: char| lower_char(c))
}

fn lower_of(c: char) -> (r: char)
    ensures
        r == lower_char(c),
{
    if 'A' <= c && c <= 'Z' {
        let b: u8 = c as u8;
        ((b + 32) as char)
    } else {
        c
    }
}

/// `s` with its ASCII capital letters made small (`str::to_ascii_lowercase`).
pub fn to_ascii_lowercase(s: &str) -> (r: String)
    ensures
        r@ == ascii_lower(s@),
        r@.len() == s@.len(),
        forall|i: int|
            0 <= i < s@.len() ==> ('A' <= #[trigger] s@[i] <= 'Z' ==> r@[i] as u32 == s@[i] as u32
                + 32) && (!('A' <= s@[i] <= 'Z') ==> r@[i] == s@[i]),
{
    let v = chars_of(s);
    let mut out = String::new();
    let mut i: usize = 0;
    while i < v.len()
        invariant
            i <= v@.len(),
            v@ == s@,
            out@ == ascii_lower(v@.take(i as int)),
        decreases v@.len() - i,
    {
        push_char(&mut out, lower_of(v[i]));
        assert(ascii_lower(v@.take(i + 1)) =~= ascii_lower(v@.take(i as int)).push(
            lower_char(v@[i as int]),
        ));
        i += 1;
    }
    assert(v@.take(v@.len() as int) =~= v@);
    out
}

/// The message for the unknown name `value` of the option `option`.
pub open spec fn invalid_message(option: Seq<char>, value: Seq<char>) -> Seq<char> {
    "invalid "@ + option + ": "@ + value
}

/// Builds the message for the unknown name `value` of the option `option`.
fn invalid(option: &str, value: &String) -> (m: String)
    ensures
        m@ == invalid_message(option@, value@),
{
    let mut m = String::from_str("invalid ");
    m.append(option);
    m.append(": ");
    m.append(value.as_str());
    m
}

/// The line ending a (small-letter) name stands for.
pub open spec fn eol_named(l: Seq<char>) -> Option<EolStyle> {
    if l == "crlf"@ {
        Some(EolStyle::Crlf)
    } else if l == "lf"@ {
        Some(EolStyle::Lf)
    } else {
        None
    }
}

/// The comment policy a (small-letter) name stands for.
pub open spec fn comment_policy_named(l: Seq<char>) -> Option<CommentPolicy> {
    if l == "treataserror"@ || l == "error"@ {
        Some(CommentPolicy::TreatAsError)
    } else if l == "remove"@ {
        Some(CommentPolicy::Remove)
    } else if l == "preserve"@ {
        Some(CommentPolicy::Preserve)
    } else {
        None
    }
}

/// The number alignment a (small-letter) name stands for.
pub open spec fn number_align_named(l: Seq<char>) -> Option<NumberListAlignment> {
    if l == "left"@ {
        Some(NumberListAlignment::Left)
    } else if l == "right"@ {
        Some(NumberListAlignment::Right)
    } else if l == "decimal"@ {
        Some(NumberListAlignment::Decimal)
    } else if l == "normalize"@ {
        Some(NumberListAlignment::Normalize)
    } else {
        None
    }
}

/// The table comma placement a (small-letter) name stands for.
pub open spec fn comma_placement_named(l: Seq<char>) -> Option<TableCommaPlacement> {
    if l == "beforepadding"@ {
        Some(TableCommaPlacement::BeforePadding)
    } else if l == "afterpadding"@ {
        Some(TableCommaPlacement::AfterPadding)
    } else if l == "beforepaddingexceptnumbers"@ {
        Some(TableCommaPlacement::BeforePaddingExceptNumbers)
    } else {
        None
    }
}

/// Whether `s` equals the literal `lit`.
fn is_named(s: &String, lit: &str) -> (b: bool)
    ensures
        b == (s@ == lit@),
{
    *s == String::from_str(lit)
}

/// The line ending named `s`, in any case of ASCII letters.
pub fn eol_from(s: &str) -> (r: Result<EolStyle, String>)
    ensures
        match eol_named(ascii_lower(s@)) {
            Some(e) => r matches Ok(x) && x == e,
            None => r matches Err(m) && m@ == invalid_message(
                "json_eol_style"@,
                ascii_lower(s@),
            ),
        },
        ascii_lower(s@) == "crlf"@ ==> r == Ok::<EolStyle, String>(EolStyle::Crlf),
        ascii_lower(s@) == "lf"@ ==> r == Ok::<EolStyle, String>(EolStyle::Lf),
        ascii_lower(s@) != "crlf"@ && ascii_lower(s@) != "lf"@ ==> r is Err,
{
    proof {
        reveal_strlit("crlf");
        assert("crlf"@ =~= seq!['c', 'r', 'l', 'f']);
        reveal_strlit("lf");
        assert("lf"@ =~= seq!['l', 'f']);
    }
    let lower = to_ascii_lowercase(s);
    if is_named(&lower, "crlf") {
        Ok(EolStyle::Crlf)
    } else if is_named(&lower, "lf") {
        Ok(EolStyle::Lf)
    } else {
        Err(invalid("json_eol_style", &lower))
    }
}

/// The comment policy named `s`, in any case of ASCII letters.
pub fn comment_policy_from(s: &str) -> (r: Result<CommentPolicy, String>)
    ensures
        match comment_policy_named(ascii_lower(s@)) {
            Some(e) => r matches Ok(x) && x == e,
            None => r matches Err(m) && m@ == invalid_message(
                "comment_policy"@,
                ascii_lower(s@),
            ),
        },
        ascii_lower(s@) == "remove"@ ==> r == Ok::<CommentPolicy, String>(CommentPolicy::Remove),
        ascii_lower(s@) == "preserve"@ ==> r == Ok::<CommentPolicy, String>(
            CommentPolicy::Preserve,
        ),
        ascii_lower(s@) == "treataserror"@ || ascii_lower(s@) == "error"@ ==> r == Ok::<
            CommentPolicy,
            String,
        >(CommentPolicy::TreatAsError),
        ascii_lower(s@) != "remove"@ && ascii_lower(s@) != "preserve"@ && ascii_lower(s@)
            != "treataserror"@ && ascii_lower(s@) != "error"@ ==> r is Err,
{
    proof {
        reveal_strlit("remove");
        assert("remove"@ =~= seq!['r', 'e', 'm', 'o', 'v', 'e']);
        reveal_strlit("preserve");
        assert("preserve"@ =~= seq!['p', 'r', 'e', 's', 'e', 'r', 'v', 'e']);
        reveal_strlit("treataserror");
        assert("treataserror"@ =~= seq!['t', 'r', 'e', 'a', 't', 'a', 's', 'e', 'r', 'r', 'o', 'r']);
        reveal_strlit("error");
        assert("error"@ =~= seq!['e', 'r', 'r', 'o', 'r']);
    }
    let lower = to_ascii_lowercase(s);
    if is_named(&lower, "treataserror") || is_named(&lower, "error") {
        Ok(CommentPolicy::TreatAsError)
    } else if is_named(&lower, "remove") {
        Ok(CommentPolicy::Remove)
    } else if is_named(&lower, "preserve") {
        Ok(CommentPolicy::Preserve)
    } else {
        Err(invalid("comment_policy", &lower))
    }
}

/// The number alignment named `s`, in any case of ASCII letters.
pub fn number_align_from(s: &str) -> (r: Result<NumberListAlignment, String>)
    ensures
        match number_align_named(ascii_lower(s@)) {
            Some(e) => r matches Ok(x) && x == e,
            None => r matches Err(m) && m@ == invalid_message(
                "number_list_alignment"@,
                ascii_lower(s@),
            ),
        },
        ascii_lower(s@) == "left"@ ==> r == Ok::<NumberListAlignment, String>(
            NumberListAlignment::Left,
        ),
        ascii_lower(s@) == "right"@ ==> r == Ok::<NumberListAlignment, String>(
            NumberListAlignment::Right,
        ),
        ascii_lower(s@) == "decimal"@ ==> r == Ok::<NumberListAlignment, String>(
            NumberListAlignment::Decimal,
        ),
        ascii_lower(s@) == "normalize"@ ==> r == Ok::<NumberListAlignment, String>(
            NumberListAlignment::Normalize,
        ),
        ascii_lower(s@) != "left"@ && ascii_lower(s@) != "right"@ && ascii_lower(s@)
            != "decimal"@ && ascii_lower(s@) != "normalize"@ ==> r is Err,
{
    proof {
        reveal_strlit("left");
        assert("left"@ =~= seq!['l', 'e', 'f', 't']);
        reveal_strlit("right");
        assert("right"@ =~= seq!['r', 'i', 'g', 'h', 't']);
        reveal_strlit("decimal");
        assert("decimal"@ =~= seq!['d', 'e', 'c', 'i', 'm', 'a', 'l']);
        reveal_strlit("normalize");
        assert("normalize"@ =~= seq!['n', 'o', 'r', 'm', 'a', 'l', 'i', 'z', 'e']);
    }
    let lower = to_ascii_lowercase(s);
    if is_named(&lower, "left") {
        Ok(NumberListAlignment::Left)
    } else if is_named(&lower, "right") {
        Ok(NumberListAlignment::Right)
    } else if is_named(&lower, "decimal") {
        Ok(NumberListAlignment::Decimal)
    } else if is_named(&lower, "normalize") {
        Ok(NumberListAlignment::Normalize)
    } else {
        Err(invalid("number_list_alignment", &lower))
    }
}

/// The table comma placement named `s`, in any case of ASCII letters.
pub fn comma_placement_from(s: &str) -> (r: Result<TableCommaPlacement, String>)
    ensures
        match comma_placement_named(ascii_lower(s@)) {
            Some(e) => r matches Ok(x) && x == e,
            None => r matches Err(m) && m@ == invalid_message(
                "table_comma_placement"@,
                ascii_lower(s@),
            ),
        },
        ascii_lower(s@) == "beforepadding"@ ==> r == Ok::<TableCommaPlacement, String>(
            TableCommaPlacement::BeforePadding,
        ),
        ascii_lower(s@) == "afterpadding"@ ==> r == Ok::<TableCommaPlacement, String>(
            TableCommaPlacement::AfterPadding,
        ),
        ascii_lower(s@) == "beforepaddingexceptnumbers"@ ==> r == Ok::<
            TableCommaPlacement,
            String,
        >(TableCommaPlacement::BeforePaddingExceptNumbers),
        ascii_lower(s@) != "beforepadding"@ && ascii_lower(s@) != "afterpadding"@ && ascii_lower(
            s@,
        ) != "beforepaddingexceptnumbers"@ ==> r is Err,
{
    proof {
        reveal_strlit("beforepadding");
        assert("beforepadding"@ =~= seq!['b', 'e', 'f', 'o', 'r', 'e', 'p', 'a', 'd', 'd', 'i', 'n', 'g']);
        reveal_strlit("afterpadding");
        assert("afterpadding"@ =~= seq!['a', 'f', 't', 'e', 'r', 'p', 'a', 'd', 'd', 'i', 'n', 'g']);
        reveal_strlit("beforepaddingexceptnumbers");
        assert("beforepaddingexceptnumbers"@ =~= seq!['b', 'e', 'f', 'o', 'r', 'e', 'p', 'a', 'd', 'd', 'i', 'n', 'g', 'e', 'x', 'c', 'e', 'p', 't', 'n', 'u', 'm', 'b', 'e', 'r', 's']);
    }
    let lower = to_ascii_lowercase(s);
    if is_named(&lower, "beforepadding") {
        Ok(TableCommaPlacement::BeforePadding)
    } else if is_named(&lower, "afterpadding") {
        Ok(TableCommaPlacement::AfterPadding)
    } else if is_named(&lower, "beforepaddingexceptnumbers") {
        Ok(TableCommaPlacement::BeforePaddingExceptNumbers)
    } else {
        Err(invalid("table_comma_placement", &lower))
    }
}

/// The error `build_options` reports for `cfg`, if any: the first
/// unknown name, taking the options in the order line ending, table comma
/// placement, number alignment, comment policy.
pub open spec fn config_error(cfg: Config) -> Option<Seq<char>> {
    if cfg.json_eol_style matches Some(v) && eol_named(ascii_lower(v@)) is None {
        Some(invalid_message("json_eol_style"@, ascii_lower(cfg.json_eol_style->0@)))
    } else if cfg.table_comma_placement matches Some(v) && comma_placement_named(
        ascii_lower(v@),
    ) is None {
        Some(invalid_message("table_comma_placement"@, ascii_lower(cfg.table_comma_placement->0@)))
    } else if cfg.number_list_alignment matches Some(v) && number_align_named(ascii_lower(v@))
        is None {
        Some(invalid_message("number_list_alignment"@, ascii_lower(cfg.number_list_alignment->0@)))
    } else if cfg.comment_policy matches Some(v) && comment_policy_named(ascii_lower(v@)) is None {
        Some(invalid_message("comment_policy"@, ascii_lower(cfg.comment_policy->0@)))
    } else {
        None
    }
}

/// `o` holds each option `cfg` gives, and the default for each other.
pub open spec fn built_from(cfg: Config, o: FracturedJsonOptions) -> bool {
    &&& o.json_eol_style == match cfg.json_eol_style {
        Some(v) => eol_named(ascii_lower(v@))->0,
        None => EolStyle::Lf,
    }
    &&& o.max_total_line_length == match cfg.max_total_line_length {
        Some(v) => v,
        None => 120,
    }
    &&& o.max_inline_complexity == match cfg.max_inline_complexity {
        Some(v) => v,
        None => 2,
    }
    &&& o.max_compact_array_complexity == match cfg.max_compact_array_complexity {
        Some(v) => v,
        None => 2,
    }
    &&& o.max_table_row_complexity == match cfg.max_table_row_complexity {
        Some(v) => v,
        None => 2,
    }
    &&& o.max_prop_name_padding == match cfg.max_prop_name_padding {
        Some(v) => v,
        None => 16,
    }
    &&& o.colon_before_prop_name_padding == match cfg.colon_before_prop_name_padding {
        Some(v) => v,
        None => false,
    }
    &&& o.table_comma_placement == match cfg.table_comma_placement {
        Some(v) => comma_placement_named(ascii_lower(v@))->0,
        None => TableCommaPlacement::BeforePaddingExceptNumbers,
    }
    &&& o.min_compact_array_row_items == match cfg.min_compact_array_row_items {
        Some(v) => v,
        None => 3,
    }
    &&& o.always_expand_depth == match cfg.always_expand_depth {
        Some(v) => v,
        None => -1isize,
    }
    &&& o.nested_bracket_padding == match cfg.nested_bracket_padding {
        Some(v) => v,
        None => true,
    }
    &&& o.simple_bracket_padding == match cfg.simple_bracket_padding {
        Some(v) => v,
        None => false,
    }
    &&& o.colon_padding == match cfg.colon_padding {
        Some(v) => v,
        None => true,
    }
    &&& o.comma_padding == match cfg.comma_padding {
        Some(v) => v,
        None => true,
    }
    &&& o.comment_padding == match cfg.comment_padding {
        Some(v) => v,
        None => true,
    }
    &&& o.number_list_alignment == match cfg.number_list_alignment {
        Some(v) => number_align_named(ascii_lower(v@))->0,
        None => NumberListAlignment::Decimal,
    }
    &&& o.indent_spaces == match cfg.indent_spaces {
        Some(v) => v,
        None => 4,
    }
    &&& o.use_tab_to_indent == match cfg.use_tab_to_indent {
        Some(v) => v,
        None => false,
    }
    &&& o.prefix_string@ == match cfg.prefix_string {
        Some(v) => v@,
        None => Seq::empty(),
    }
    &&& o.comment_policy == match cfg.comment_policy {
        Some(v) => comment_policy_named(ascii_lower(v@))->0,
        None => CommentPolicy::TreatAsError,
    }
    &&& o.preserve_blank_lines == match cfg.preserve_blank_lines {
        Some(v) => v,
        None => false,
    }
    &&& o.allow_trailing_commas == match cfg.allow_trailing_commas {
        Some(v) => v,
        None => false,
    }
}

/// The options a configuration gives: the defaults, with each option the
/// configuration sets replaced. Fails on the first unknown name.
/// The value an optional setting gives, or the default `d`.
fn or_default<T: Copy>(v: Option<T>, d: T) -> (r: T)
    ensures
        r == match v {
            Some(x) => x,
            None => d,
        },
{
    match v {
        Some(x) => x,
        None => d,
    }
}

/// The options a configuration gives: the defaults, with each option the
/// configuration sets replaced. Fails on the first unknown name.
pub fn build_options(cfg: Config) -> (r: Result<FracturedJsonOptions, String>)
    ensures
        r is Err <==> config_error(cfg) is Some,
        r matches Err(m) ==> m@ == config_error(cfg)->0,
        r matches Ok(o) ==> built_from(cfg, o),
        r matches Ok(o) ==> (cfg.comment_policy matches Some(v) && ascii_lower(v@)
            == "remove"@ ==> o.comment_policy == CommentPolicy::Remove),
        r matches Ok(o) ==> (cfg.comment_policy matches Some(v) && ascii_lower(v@)
            == "preserve"@ ==> o.comment_policy == CommentPolicy::Preserve),
        r matches Ok(o) ==> (cfg.comment_policy matches Some(v) && (ascii_lower(v@)
            == "treataserror"@ || ascii_lower(v@) == "error"@) ==> o.comment_policy
            == CommentPolicy::TreatAsError),
        r matches Ok(o) ==> (cfg.comment_policy is None ==> o.comment_policy
            == CommentPolicy::TreatAsError),
        r matches Ok(o) ==> (cfg.json_eol_style matches Some(v) && ascii_lower(v@) == "crlf"@
            ==> o.json_eol_style == EolStyle::Crlf),
        r matches Ok(o) ==> (cfg.json_eol_style matches Some(v) && ascii_lower(v@) == "lf"@
            ==> o.json_eol_style == EolStyle::Lf),
{
    let json_eol_style = match &cfg.json_eol_style {
        Some(v) => eol_from(v.as_str())?,
        None => EolStyle::Lf,
    };
    let table_comma_placement = match &cfg.table_comma_placement {
        Some(v) => comma_placement_from(v.as_str())?,
        None => TableCommaPlacement::BeforePaddingExceptNumbers,
    };
    let number_list_alignment = match &cfg.number_list_alignment {
        Some(v) => number_align_from(v.as_str())?,
        None => NumberListAlignment::Decimal,
    };
    let comment_policy = match &cfg.comment_policy {
        Some(v) => comment_policy_from(v.as_str())?,
        None => CommentPolicy::TreatAsError,
    };
    let prefix_string = match &cfg.prefix_string {
        Some(v) => v.clone(),
        None => String::new(),
    };
    Ok(
        FracturedJsonOptions {
            json_eol_style,
            max_total_line_length: or_default(cfg.max_total_line_length, 120),
            max_inline_complexity: or_default(cfg.max_inline_complexity, 2),
            max_compact_array_complexity: or_default(cfg.max_compact_array_complexity, 2),
            max_table_row_complexity: or_default(cfg.max_table_row_complexity, 2),
            max_prop_name_padding: or_default(cfg.max_prop_name_padding, 16),
            colon_before_prop_name_padding: or_default(cfg.colon_before_prop_name_padding, false),
            table_comma_placement,
            min_compact_array_row_items: or_default(cfg.min_compact_array_row_items, 3),
            always_expand_depth: or_default(cfg.always_expand_depth, -1),
            nested_bracket_padding: or_default(cfg.nested_bracket_padding, true),
            simple_bracket_padding: or_default(cfg.simple_bracket_padding, false),
            colon_padding: or_default(cfg.colon_padding, true),
            comma_padding: or_default(cfg.comma_padding, true),
            comment_padding: or_default(cfg.comment_padding, true),
            number_list_alignment,
            indent_spaces: or_default(cfg.indent_spaces, 4),
            use_tab_to_indent: or_default(cfg.use_tab_to_indent, false),
            prefix_string,
            comment_policy,
            preserve_blank_lines: or_default(cfg.preserve_blank_lines, false),
            allow_trailing_commas: or_default(cfg.allow_trailing_commas, false),
        },
    )
}

} // verus!
