//! Formatting options.

use vstd::prelude::*;

verus! {

/// Line ending style for the formatted output.
#[derive(Debug, Clone, Copy, PartialEq, Eq, Structural)]
pub enum EolStyle {
    /// Windows-style line endings (`\r\n`).
    Crlf,
    /// Unix-style line endings (`\n`).
    Lf,
}

/// Policy for handling comments in JSON input.
#[derive(Debug, Clone, Copy, PartialEq, Eq, Structural)]
pub enum CommentPolicy {
    /// Return an error if comments are encountered in the input.
    TreatAsError,
    /// Silently remove any comments from the output.
    Remove,
    /// Keep comments in the output, preserving their relative positions.
    Preserve,
}

/// Alignment style for numbers in arrays formatted as tables.
#[derive(Debug, Clone, Copy, PartialEq, Eq, Structural)]
pub enum NumberListAlignment {
    /// Align numbers to the left of their column.
    Left,
    /// Align numbers to the right of their column.
    Right,
    /// Align numbers by their decimal point (or implied decimal for integers).
    Decimal,
    /// Normalize numbers to a consistent number of decimals and align them.
    Normalize,
}

/// Where commas go relative to the padding in table-formatted output.
#[derive(Debug, Clone, Copy, PartialEq, Eq, Structural)]
pub enum TableCommaPlacement {
    /// Commas immediately after values, before any padding.
    BeforePadding,
    /// Commas after the padding, at the end of the padded column.
    AfterPadding,
    /// Before the padding, except in columns of numbers.
    BeforePaddingExceptNumbers,
}

/// Configuration options for JSON formatting.
#[derive(Debug)]
pub struct FracturedJsonOptions {
    /// Line ending style for the output. Default: `Lf`.
    pub json_eol_style: EolStyle,
    /// Maximum length of a line before it's broken into multiple lines. Default: 120.
    pub max_total_line_length: usize,
    /// Maximum nesting depth for containers written on a single line; -1 disables. Default: 2.
    pub max_inline_complexity: isize,
    /// Maximum nesting depth for arrays written several items per line; -1 disables. Default: 2.
    pub max_compact_array_complexity: isize,
    /// Maximum nesting depth for containers formatted as aligned tables; -1 disables. Default: 2.
    pub max_table_row_complexity: isize,
    /// Maximum padding used to align property names. Default: 16.
    pub max_prop_name_padding: usize,
    /// If true, the colon comes before the property name padding. Default: false.
    pub colon_before_prop_name_padding: bool,
    /// Where to place commas in table-formatted output. Default: `BeforePaddingExceptNumbers`.
    pub table_comma_placement: TableCommaPlacement,
    /// Minimum number of items per row in compact multi-line arrays. Default: 3.
    pub min_compact_array_row_items: usize,
    /// Depth at which containers are always expanded; -1 disables. Default: -1.
    pub always_expand_depth: isize,
    /// Spaces inside brackets of containers that nest containers. Default: true.
    pub nested_bracket_padding: bool,
    /// Spaces inside brackets of containers of simple values. Default: false.
    pub simple_bracket_padding: bool,
    /// A space after colons. Default: true.
    pub colon_padding: bool,
    /// A space after commas. Default: true.
    pub comma_padding: bool,
    /// A space before comments. Default: true.
    pub comment_padding: bool,
    /// Alignment style for numbers in array tables. Default: `Decimal`.
    pub number_list_alignment: NumberListAlignment,
    /// Number of spaces per indentation level. Default: 4.
    pub indent_spaces: usize,
    /// Indent with tabs instead of spaces. Default: false.
    pub use_tab_to_indent: bool,
    /// A string prepended to every line of output. Default: empty.
    pub prefix_string: String,
    /// How to handle comments in the input. Default: `TreatAsError`.
    pub comment_policy: CommentPolicy,
    /// Preserve blank lines from the input. Default: false.
    pub preserve_blank_lines: bool,
    /// Allow trailing commas in the input. Default: false.
    pub allow_trailing_commas: bool,
}

impl FracturedJsonOptions {
    /// The default settings, field by field.
    pub open spec fn is_default(self) -> bool {
        &&& self.json_eol_style == EolStyle::Lf
        &&& self.max_total_line_length == 120
        &&& self.max_inline_complexity == 2
        &&& self.max_compact_array_complexity == 2
        &&& self.max_table_row_complexity == 2
        &&& self.max_prop_name_padding == 16
        &&& !self.colon_before_prop_name_padding
        &&& self.table_comma_placement == TableCommaPlacement::BeforePaddingExceptNumbers
        &&& self.min_compact_array_row_items == 3
        &&& self.always_expand_depth == -1
        &&& self.nested_bracket_padding
        &&& !self.simple_bracket_padding
        &&& self.colon_padding
        &&& self.comma_padding
        &&& self.comment_padding
        &&& self.number_list_alignment == NumberListAlignment::Decimal
        &&& self.indent_spaces == 4
        &&& !self.use_tab_to_indent
        &&& self.prefix_string@.len() == 0
        &&& self.comment_policy == CommentPolicy::TreatAsError
        &&& !self.preserve_blank_lines
        &&& !self.allow_trailing_commas
    }

    /// The recommended settings; currently the same as the defaults.
    pub fn recommended() -> (r: Self)
        ensures
            r.is_default(),
    {
        Self::default()
    }
}

impl Clone for FracturedJsonOptions {
    fn clone(&self) -> (r: Self)
        ensures
            r == *self,
    {
        FracturedJsonOptions {
            json_eol_style: self.json_eol_style,
            max_total_line_length: self.max_total_line_length,
            max_inline_complexity: self.max_inline_complexity,
            max_compact_array_complexity: self.max_compact_array_complexity,
            max_table_row_complexity: self.max_table_row_complexity,
            max_prop_name_padding: self.max_prop_name_padding,
            colon_before_prop_name_padding: self.colon_before_prop_name_padding,
            table_comma_placement: self.table_comma_placement,
            min_compact_array_row_items: self.min_compact_array_row_items,
            always_expand_depth: self.always_expand_depth,
            nested_bracket_padding: self.nested_bracket_padding,
            simple_bracket_padding: self.simple_bracket_padding,
            colon_padding: self.colon_padding,
            comma_padding: self.comma_padding,
            comment_padding: self.comment_padding,
            number_list_alignment: self.number_list_alignment,
            indent_spaces: self.indent_spaces,
            use_tab_to_indent: self.use_tab_to_indent,
            prefix_string: self.prefix_string.clone(),
            comment_policy: self.comment_policy,
            preserve_blank_lines: self.preserve_blank_lines,
            allow_trailing_commas: self.allow_trailing_commas,
        }
    }
}

impl Default for FracturedJsonOptions {
    fn default() -> (r: Self)
        ensures
            r.is_default(),
    {
        FracturedJsonOptions {
            json_eol_style: EolStyle::Lf,
            max_total_line_length: 120,
            max_inline_complexity: 2,
            max_compact_array_complexity: 2,
            max_table_row_complexity: 2,
            max_prop_name_padding: 16,
            colon_before_prop_name_padding: false,
            table_comma_placement: TableCommaPlacement::BeforePaddingExceptNumbers,
            min_compact_array_row_items: 3,
            always_expand_depth: -1,
            nested_bracket_padding: true,
            simple_bracket_padding: false,
            colon_padding: true,
            comma_padding: true,
            comment_padding: true,
            number_list_alignment: NumberListAlignment::Decimal,
            indent_spaces: 4,
            use_tab_to_indent: false,
            prefix_string: String::new(),
            comment_policy: CommentPolicy::TreatAsError,
            preserve_blank_lines: false,
            allow_trailing_commas: false,
        }
    }
}

} // verus!
