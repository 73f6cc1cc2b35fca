//! Measures the rows of a container to lay them out as an aligned table.

use vstd::prelude::*;
use crate::buffer::{PaddedFormattingTokens, PadsModel, StringJoinBuffer};
use crate::model::{is_comment_or_blank, BracketPaddingType, JsonItem, JsonItemType, TableColumnType};
use crate::number::{
    decimals_count, decimals_of, lemma_normal_form_unique, lemma_with_decimals_plain,
    normal_form_of, normalize_number, pad_decimals, with_decimals, EXPONENT_CAP,
    MAX_NORMALIZED_LEN,
};
use vstd::string::StrSliceExecFns;
use crate::options::NumberListAlignment;
use crate::text::{chars_of, saturating_product, spaces_seq};

verus! {

/// The widths of one column of a table (or of the whole row, at the root),
/// and the templates of the columns nested in it.
#[derive(Debug)]
pub struct TableTemplate {
    /// For a column of an object table, the property name it holds.
    pub location_in_parent: Option<String>,
    pub column_type: TableColumnType,
    pub row_count: usize,
    pub name_length: usize,
    pub name_minimum: usize,
    pub max_value_length: usize,
    pub max_atomic_value_length: usize,
    pub prefix_comment_length: usize,
    pub middle_comment_length: usize,
    pub any_middle_comment_has_newline: bool,
    pub postfix_comment_length: usize,
    pub is_any_post_comment_line_style: bool,
    pub pad_type: BracketPaddingType,
    pub requires_multiple_lines: bool,
    pub composite_value_length: usize,
    pub total_length: usize,
    pub shorter_than_null_adjustment: usize,
    pub contains_null: bool,
    pub children: Vec<TableTemplate>,
    /// The punctuation the table is written with.
    pub pads: PaddedFormattingTokens,
    /// How numbers in this column are aligned.
    pub number_list_alignment: NumberListAlignment,
    /// The most digits before the decimal point among the column's numbers.
    pub max_dig_before_dec: usize,
    /// The most digits after the decimal point among the column's numbers.
    pub max_dig_after_dec: usize,
}

/// What measuring rows gathers in a template: how many rows there were,
/// the widest and narrowest names, the widest values (and simple values)
/// and comments, and whether any row has a line comment after it, a middle
/// comment with a line break, is null, or needs several lines.
pub struct RowStats {
    pub row_count: usize,
    pub name_length: usize,
    pub name_minimum: usize,
    pub max_value_length: usize,
    pub max_atomic_value_length: usize,
    pub prefix_comment_length: usize,
    pub middle_comment_length: usize,
    pub postfix_comment_length: usize,
    pub is_any_post_comment_line_style: bool,
    pub any_middle_comment_has_newline: bool,
    pub contains_null: bool,
    pub requires_multiple_lines: bool,
}

/// The statistics of a fresh template.
pub open spec fn blank_stats() -> RowStats {
    RowStats {
        row_count: 0,
        name_length: 0,
        name_minimum: usize::MAX,
        max_value_length: 0,
        max_atomic_value_length: 0,
        prefix_comment_length: 0,
        middle_comment_length: 0,
        postfix_comment_length: 0,
        is_any_post_comment_line_style: false,
        any_middle_comment_has_newline: false,
        contains_null: false,
        requires_multiple_lines: false,
    }
}

/// `after` is what measuring `row` (with columns) makes of a template with
/// statistics `st`, column kind `ct` and padding `pad`.
pub open spec fn measured_from(
    st: RowStats,
    ct: TableColumnType,
    pad: BracketPaddingType,
    after: TableTemplate,
    row: JsonItem,
) -> bool {
    if is_comment_or_blank(row.item_type) {
        &&& stats_of(after) == st
        &&& after.column_type == ct
        &&& after.pad_type == pad
    } else {
        &&& stats_of(after) == absorb(st, row)
        &&& after.column_type == column_after(ct, st.requires_multiple_lines, row, true)
        &&& after.pad_type == pad_after(pad, row)
    }
}

/// The width of the widest simple value written as a row of the table
/// `t`, with its name, comments and comma; sums stop at the largest
/// `usize`.
pub open spec fn atomic_size(t: TableTemplate) -> int {
    sat_add(
        sat_add(
            sat_add(
                sat_add(
                    sat_add(
                        sat_add(
                            sat_add(
                                t.name_length as int,
                                t.pads.model().colon_len as int,
                            ),
                            t.middle_comment_length as int,
                        ),
                        if t.middle_comment_length > 0 {
                            t.pads.model().comment_len as int
                        } else {
                            0
                        },
                    ),
                    t.max_atomic_value_length as int,
                ),
                t.postfix_comment_length as int,
            ),
            if t.postfix_comment_length > 0 {
                t.pads.model().comment_len as int
            } else {
                0
            },
        ),
        t.pads.model().comma_len as int,
    )
}

/// `ch[j]` is the first of the templates `ch` that is the column of the
/// property `name`.
pub open spec fn is_first_column(ch: Seq<TableTemplate>, name: Seq<char>, j: int) -> bool {
    &&& 0 <= j < ch.len()
    &&& located_at(ch[j], name)
    &&& forall|k: int| 0 <= k < j ==> !located_at(#[trigger] ch[k], name)
}

/// Some template of `ch` is the column of the property `name`.
pub open spec fn has_column(ch: Seq<TableTemplate>, name: Seq<char>) -> bool {
    exists|j: int| #[trigger] is_first_column(ch, name, j)
}

/// Each of the first `done` properties that has a column among `before`
/// was measured into the first column of its name.
pub open spec fn found_columns_measured(
    before: Seq<TableTemplate>,
    after: Seq<TableTemplate>,
    props: Seq<JsonItem>,
    done: int,
) -> bool {
    forall|k: int, j: int|
        0 <= k < done && #[trigger] is_first_column(before, props[k].name@, j) ==> measured_from(
            stats_of(before[j]),
            before[j].column_type,
            before[j].pad_type,
            after[j],
            props[k],
        )
}

/// Each of the first `done` properties without a column among `before`
/// was measured, from blank, into a new column of its name.
pub open spec fn new_columns_measured(
    before: Seq<TableTemplate>,
    after: Seq<TableTemplate>,
    props: Seq<JsonItem>,
    done: int,
) -> bool {
    forall|k: int|
        0 <= k < done && !has_column(before, #[trigger] props[k].name@) ==> exists|j: int|
            before.len() <= j < after.len() && located_at(#[trigger] after[j], props[k].name@)
                && measured_from(
                blank_stats(),
                TableColumnType::Unknown,
                BracketPaddingType::Simple,
                after[j],
                props[k],
            )
}

/// The columns of `before` that none of the first `done` properties
/// measured stay as they were.
pub open spec fn other_columns_kept(
    before: Seq<TableTemplate>,
    after: Seq<TableTemplate>,
    props: Seq<JsonItem>,
    done: int,
) -> bool {
    forall|j: int|
        0 <= j < before.len() && (forall|k: int|
            0 <= k < done ==> !is_first_column(before, #[trigger] props[k].name@, j))
            ==> #[trigger] after[j] == before[j]
}

/// The template `t` is the column of one of the first `done` properties,
/// one that had no column among `before`.
pub open spec fn column_of_new_property(
    before: Seq<TableTemplate>,
    props: Seq<JsonItem>,
    done: int,
    t: TableTemplate,
) -> bool {
    exists|k: int|
        0 <= k < done && located_at(t, #[trigger] props[k].name@) && !has_column(
            before,
            props[k].name@,
        )
}

/// Each column added after `before` belongs to one of the first `done`
/// properties that had no column.
pub open spec fn added_columns_named(
    before: Seq<TableTemplate>,
    after: Seq<TableTemplate>,
    props: Seq<JsonItem>,
    done: int,
) -> bool {
    forall|j: int|
        before.len() <= j < after.len() ==> #[trigger] column_of_new_property(
            before,
            props,
            done,
            after[j],
        )
}

/// What measuring the properties `props` (`done` of them) by name does to
/// the columns `before`, giving `after`: each property is measured into
/// the first column of its name, or into a new column of its name; the
/// other columns stay.
#[verifier::opaque]
pub open spec fn object_columns_measured(
    before: Seq<TableTemplate>,
    after: Seq<TableTemplate>,
    props: Seq<JsonItem>,
    done: int,
) -> bool {
    &&& after.len() >= before.len()
    &&& found_columns_measured(before, after, props, done)
    &&& new_columns_measured(before, after, props, done)
    &&& other_columns_kept(before, after, props, done)
    &&& added_columns_named(before, after, props, done)
}

/// A property's column found among the current columns is the first of
/// its name among the columns before measuring, and no earlier property
/// touched it.
proof fn lemma_first_column_kept(
    before: Seq<TableTemplate>,
    cur: Seq<TableTemplate>,
    props: Seq<JsonItem>,
    k: int,
    index: int,
)
    requires
        !has_duplicate_names(props),
        0 <= k < props.len(),
        cur.len() >= before.len(),
        forall|j: int|
            0 <= j < before.len() ==> (#[trigger] cur[j]).location_in_parent
                == before[j].location_in_parent,
        object_columns_measured(before, cur, props, k),
        0 <= index < cur.len(),
        located_at(cur[index], props[k].name@),
        forall|j: int| 0 <= j < index ==> !located_at(#[trigger] cur[j], props[k].name@),
    ensures
        index < before.len(),
        is_first_column(before, props[k].name@, index),
        cur[index] == before[index],
        forall|kk: int| 0 <= kk < k ==> !is_first_column(before, #[trigger] props[kk].name@, index),
{
    reveal(object_columns_measured);
    let n = props[k].name@;
    if index >= before.len() {
        assert(column_of_new_property(before, props, k, cur[index]));
        let kk = choose|kk: int|
            0 <= kk < k && located_at(cur[index], #[trigger] props[kk].name@) && !has_column(
                before,
                props[kk].name@,
            );
        assert(props[kk].name@ == n);
        assert(has_duplicate_names(props));
    }
    assert(located_at(before[index], n));
    assert forall|j: int| 0 <= j < index implies !located_at(#[trigger] before[j], n) by {
        assert(!located_at(cur[j], n));
    }
    assert forall|kk: int| 0 <= kk < k implies !is_first_column(
        before,
        #[trigger] props[kk].name@,
        index,
    ) by {
        if is_first_column(before, props[kk].name@, index) {
            assert(props[kk].name@ == n);
            assert(has_duplicate_names(props));
        }
    }
}

/// Measuring a property into its existing column keeps what earlier
/// properties did.
#[verifier::spinoff_prover]
proof fn lemma_columns_after_measure(
    before: Seq<TableTemplate>,
    cur: Seq<TableTemplate>,
    after: Seq<TableTemplate>,
    props: Seq<JsonItem>,
    k: int,
    index: int,
)
    requires
        !has_duplicate_names(props),
        0 <= k < props.len(),
        object_columns_measured(before, cur, props, k),
        0 <= index < before.len(),
        before.len() <= cur.len(),
        is_first_column(before, props[k].name@, index),
        cur[index] == before[index],
        forall|kk: int| 0 <= kk < k ==> !is_first_column(before, #[trigger] props[kk].name@, index),
        after.len() == cur.len(),
        forall|j: int| 0 <= j < cur.len() && j != index ==> #[trigger] after[j] == cur[j],
        measured_from(
            stats_of(cur[index]),
            cur[index].column_type,
            cur[index].pad_type,
            after[index],
            props[k],
        ),
    ensures
        object_columns_measured(before, after, props, k + 1),
{
    reveal(object_columns_measured);
    let n = props[k].name@;
    assert(found_columns_measured(before, after, props, k + 1)) by {
        assert forall|kk: int, j: int|
            0 <= kk < k + 1 && #[trigger] is_first_column(before, props[kk].name@, j) implies measured_from(
            stats_of(before[j]),
            before[j].column_type,
            before[j].pad_type,
            after[j],
            props[kk],
        ) by {
            if kk == k {
                assert(j == index) by {
                    if j < index {
                        assert(!located_at(before[j], n));
                    } else if index < j {
                        assert(!located_at(before[index], n));
                    }
                }
            } else {
                assert(j != index);
            }
        }
    }
    assert(new_columns_measured(before, after, props, k + 1)) by {
        assert forall|kk: int|
            0 <= kk < k + 1 && !has_column(before, #[trigger] props[kk].name@) implies exists|j: int|
            before.len() <= j < after.len() && located_at(#[trigger] after[j], props[kk].name@)
                && measured_from(
                blank_stats(),
                TableColumnType::Unknown,
                BracketPaddingType::Simple,
                after[j],
                props[kk],
            ) by {
            if kk == k {
                assert(is_first_column(before, n, index));
            } else {
                let j = choose|j: int|
                    before.len() <= j < cur.len() && located_at(#[trigger] cur[j], props[kk].name@)
                        && measured_from(
                        blank_stats(),
                        TableColumnType::Unknown,
                        BracketPaddingType::Simple,
                        cur[j],
                        props[kk],
                    );
                assert(after[j] == cur[j]);
            }
        }
    }
    assert(other_columns_kept(before, after, props, k + 1)) by {
        assert forall|j: int|
            0 <= j < before.len() && (forall|kk: int|
                0 <= kk < k + 1 ==> !is_first_column(before, #[trigger] props[kk].name@, j))
                implies #[trigger] after[j] == before[j] by {
            assert(!is_first_column(before, props[k].name@, j));
            assert(j != index);
        }
    }
    assert(added_columns_named(before, after, props, k + 1)) by {
        assert forall|j: int| before.len() <= j < after.len() implies #[trigger] column_of_new_property(
            before,
            props,
            k + 1,
            after[j],
        ) by {
            assert(after[j] == cur[j]);
            assert(column_of_new_property(before, props, k, cur[j]));
            let kk = choose|kk: int|
                0 <= kk < k && located_at(cur[j], #[trigger] props[kk].name@) && !has_column(
                    before,
                    props[kk].name@,
                );
            assert(located_at(after[j], props[kk].name@));
        }
    }
}

/// Measuring a property into a new column keeps what earlier properties
/// did.
#[verifier::spinoff_prover]
proof fn lemma_columns_after_new(
    before: Seq<TableTemplate>,
    cur: Seq<TableTemplate>,
    after: Seq<TableTemplate>,
    props: Seq<JsonItem>,
    k: int,
)
    requires
        0 <= k < props.len(),
        object_columns_measured(before, cur, props, k),
        !has_column(before, props[k].name@),
        after.len() == cur.len() + 1,
        forall|j: int| 0 <= j < cur.len() ==> #[trigger] after[j] == cur[j],
        located_at(after[cur.len() as int], props[k].name@),
        measured_from(
            blank_stats(),
            TableColumnType::Unknown,
            BracketPaddingType::Simple,
            after[cur.len() as int],
            props[k],
        ),
    ensures
        object_columns_measured(before, after, props, k + 1),
{
    reveal(object_columns_measured);
    let n = props[k].name@;
    assert(found_columns_measured(before, after, props, k + 1)) by {
        assert forall|kk: int, j: int|
            0 <= kk < k + 1 && #[trigger] is_first_column(before, props[kk].name@, j) implies measured_from(
            stats_of(before[j]),
            before[j].column_type,
            before[j].pad_type,
            after[j],
            props[kk],
        ) by {
            if kk == k {
                assert(has_column(before, n));
            }
        }
    }
    assert(new_columns_measured(before, after, props, k + 1)) by {
        assert forall|kk: int|
            0 <= kk < k + 1 && !has_column(before, #[trigger] props[kk].name@) implies exists|j: int|
            before.len() <= j < after.len() && located_at(#[trigger] after[j], props[kk].name@)
                && measured_from(
                blank_stats(),
                TableColumnType::Unknown,
                BracketPaddingType::Simple,
                after[j],
                props[kk],
            ) by {
            if kk == k {
                assert(located_at(after[cur.len() as int], props[kk].name@));
            } else {
                let j = choose|j: int|
                    before.len() <= j < cur.len() && located_at(#[trigger] cur[j], props[kk].name@)
                        && measured_from(
                        blank_stats(),
                        TableColumnType::Unknown,
                        BracketPaddingType::Simple,
                        cur[j],
                        props[kk],
                    );
                assert(after[j] == cur[j]);
            }
        }
    }
    assert(other_columns_kept(before, after, props, k + 1)) by {
        assert forall|j: int|
            0 <= j < before.len() && (forall|kk: int|
                0 <= kk < k + 1 ==> !is_first_column(before, #[trigger] props[kk].name@, j))
                implies #[trigger] after[j] == before[j] by {
            assert(after[j] == cur[j]);
            assert forall|kk: int| 0 <= kk < k implies !is_first_column(
                before,
                #[trigger] props[kk].name@,
                j,
            ) by {
                assert(0 <= kk < k + 1);
            }
        }
    }
    assert(added_columns_named(before, after, props, k + 1)) by {
        assert forall|j: int| before.len() <= j < after.len() implies #[trigger] column_of_new_property(
            before,
            props,
            k + 1,
            after[j],
        ) by {
            if j == cur.len() {
                assert(located_at(after[j], props[k].name@));
            } else {
                assert(after[j] == cur[j]);
                assert(column_of_new_property(before, props, k, cur[j]));
                let kk = choose|kk: int|
                    0 <= kk < k && located_at(cur[j], #[trigger] props[kk].name@) && !has_column(
                        before,
                        props[kk].name@,
                    );
                assert(located_at(after[j], props[kk].name@));
            }
        }
    }
}

/// The digits before the point (or exponent) of a number text.
pub open spec fn int_digits(t: Seq<char>) -> int {
    match dot_or_e(t) {
        Some(i) => i,
        None => t.len() as int,
    }
}

/// The digits after the point (or exponent) of a number text.
pub open spec fn frac_digits(t: Seq<char>) -> int {
    match dot_or_e(t) {
        Some(i) => t.len() - i - 1,
        None => 0,
    }
}

/// The template `tt` with its digit counts widened to fit the text `t`.
pub open spec fn with_digits(tt: TableTemplate, t: Seq<char>) -> TableTemplate {
    TableTemplate {
        max_dig_before_dec: if int_digits(t) > tt.max_dig_before_dec {
            int_digits(t) as usize
        } else {
            tt.max_dig_before_dec
        },
        max_dig_after_dec: if frac_digits(t) > tt.max_dig_after_dec {
            frac_digits(t) as usize
        } else {
            tt.max_dig_after_dec
        },
        ..tt
    }
}

/// The number `v` has a short normal form, and one that is not a bare
/// zero unless `v` is truly zero.
pub open spec fn normalizable(v: Seq<char>) -> bool {
    &&& v.len() < EXPONENT_CAP / 2
    &&& exists|t: Seq<char>|
        #[trigger] normal_form_of(v, t) && t.len() <= MAX_NORMALIZED_LEN && (!(t == seq!['0']
            || t == seq!['-', '0']) || truly_zero(v))
}

/// The template `t` is the column of the property `name`.
pub open spec fn located_at(t: TableTemplate, name: Seq<char>) -> bool {
    match t.location_in_parent {
        Some(loc) => loc@ == name,
        None => false,
    }
}

/// How deeply templates nest below `t`.
pub open spec fn template_depth(t: TableTemplate) -> int
    decreases t,
{
    if t.children@.len() == 0 {
        0
    } else {
        sat_add(templates_depth(t.children@), 1)
    }
}

/// No nesting is deeper than none.
proof fn lemma_templates_depth_nonneg(s: Seq<TableTemplate>)
    ensures
        templates_depth(s) >= 0,
    decreases s.len(),
{
    if s.len() > 0 {
        lemma_templates_depth_nonneg(s.drop_last());
    }
}

/// Templates each at most `k` deep nest at most `k` deep together.
proof fn lemma_templates_depth_le(s: Seq<TableTemplate>, k: int)
    requires
        k >= 0,
        forall|j: int| 0 <= j < s.len() ==> template_depth(#[trigger] s[j]) <= k,
    ensures
        templates_depth(s) <= k,
    decreases s.len(),
{
    if s.len() > 0 {
        assert forall|j: int| 0 <= j < s.drop_last().len() implies template_depth(
            #[trigger] s.drop_last()[j],
        ) <= k by {
            assert(s.drop_last()[j] == s[j]);
        }
        lemma_templates_depth_le(s.drop_last(), k);
        assert(template_depth(s[s.len() - 1]) <= k);
    }
}

/// The deepest nesting among the templates `s` (0 for none).
pub open spec fn templates_depth(s: Seq<TableTemplate>) -> int
    decreases s,
{
    if s.len() == 0 {
        0
    } else {
        let a = templates_depth(s.drop_last());
        let b = template_depth(s.last());
        if a >= b {
            a
        } else {
            b
        }
    }
}

/// The row statistics a template holds.
pub open spec fn stats_of(t: TableTemplate) -> RowStats {
    RowStats {
        row_count: t.row_count,
        name_length: t.name_length,
        name_minimum: t.name_minimum,
        max_value_length: t.max_value_length,
        max_atomic_value_length: t.max_atomic_value_length,
        prefix_comment_length: t.prefix_comment_length,
        middle_comment_length: t.middle_comment_length,
        postfix_comment_length: t.postfix_comment_length,
        is_any_post_comment_line_style: t.is_any_post_comment_line_style,
        any_middle_comment_has_newline: t.any_middle_comment_has_newline,
        contains_null: t.contains_null,
        requires_multiple_lines: t.requires_multiple_lines,
    }
}

pub open spec fn max_usize(a: usize, b: usize) -> usize {
    if a >= b {
        a
    } else {
        b
    }
}

/// The statistics after measuring one more row.
pub open spec fn absorb(st: RowStats, row: JsonItem) -> RowStats {
    RowStats {
        row_count: if st.row_count < usize::MAX {
            (st.row_count + 1) as usize
        } else {
            st.row_count
        },
        name_length: max_usize(st.name_length, row.name_length),
        name_minimum: if st.name_minimum <= row.name_length {
            st.name_minimum
        } else {
            row.name_length
        },
        max_value_length: max_usize(st.max_value_length, row.value_length),
        max_atomic_value_length: if row.item_type != JsonItemType::Array && row.item_type
            != JsonItemType::Object {
            max_usize(st.max_atomic_value_length, row.value_length)
        } else {
            st.max_atomic_value_length
        },
        prefix_comment_length: max_usize(st.prefix_comment_length, row.prefix_comment_length),
        middle_comment_length: max_usize(st.middle_comment_length, row.middle_comment_length),
        postfix_comment_length: max_usize(st.postfix_comment_length, row.postfix_comment_length),
        is_any_post_comment_line_style: st.is_any_post_comment_line_style
            || row.is_post_comment_line_style,
        any_middle_comment_has_newline: st.any_middle_comment_has_newline
            || row.middle_comment_has_new_line,
        contains_null: st.contains_null || row.item_type == JsonItemType::Null,
        requires_multiple_lines: st.requires_multiple_lines || row.requires_multiple_lines,
    }
}

/// The column kind a single row asks for.
pub open spec fn row_column_type(t: JsonItemType) -> TableColumnType {
    match t {
        JsonItemType::Null => TableColumnType::Unknown,
        JsonItemType::Number => TableColumnType::Number,
        JsonItemType::Array => TableColumnType::Array,
        JsonItemType::Object => TableColumnType::Object,
        _ => TableColumnType::Simple,
    }
}

/// The column kind after measuring one more row (not a comment or blank
/// line), from kind `ct`, with `rml` telling whether an earlier row needed
/// several lines: the first known kind sticks, two different ones make a
/// mixed column, as does a row that needs several lines; an object column
/// met by a row with a repeated property name (when measuring columns) is
/// a simple one.
pub open spec fn column_after(
    ct: TableColumnType,
    rml: bool,
    row: JsonItem,
    recursive: bool,
) -> TableColumnType {
    let rt = row_column_type(row.item_type);
    let merged = if ct == TableColumnType::Unknown {
        rt
    } else if rt != TableColumnType::Unknown && ct != rt {
        TableColumnType::Mixed
    } else {
        ct
    };
    let c = if row.requires_multiple_lines {
        TableColumnType::Mixed
    } else {
        merged
    };
    if !rml && !row.requires_multiple_lines && row.item_type != JsonItemType::Null && c
        == TableColumnType::Object && recursive && has_duplicate_names(row.children@) {
        TableColumnType::Simple
    } else {
        c
    }
}

/// The bracket padding after one more row: complex once a row nests.
pub open spec fn pad_after(p: BracketPaddingType, row: JsonItem) -> BracketPaddingType {
    if row.complexity >= 2 {
        BracketPaddingType::Complex
    } else {
        p
    }
}

/// The column kind and padding after measuring `rows` from kind `ct`,
/// padding `pad` and statistics `st`, comments and blank lines aside.
pub open spec fn columns_after(
    ct: TableColumnType,
    pad: BracketPaddingType,
    st: RowStats,
    rows: Seq<JsonItem>,
    recursive: bool,
) -> (TableColumnType, BracketPaddingType)
    decreases rows.len(),
{
    if rows.len() == 0 {
        (ct, pad)
    } else {
        let before = columns_after(ct, pad, st, rows.drop_last(), recursive);
        let row = rows.last();
        if is_comment_or_blank(row.item_type) {
            before
        } else {
            (
                column_after(
                    before.0,
                    absorb_rows(st, rows.drop_last()).requires_multiple_lines,
                    row,
                    recursive,
                ),
                pad_after(before.1, row),
            )
        }
    }
}

/// The statistics after measuring `rows`, comments and blank lines aside.
pub open spec fn absorb_rows(st: RowStats, rows: Seq<JsonItem>) -> RowStats
    decreases rows.len(),
{
    if rows.len() == 0 {
        st
    } else {
        let before = absorb_rows(st, rows.drop_last());
        if is_comment_or_blank(rows.last().item_type) {
            before
        } else {
            absorb(before, rows.last())
        }
    }
}

/// The template and every template nested in it have well-formed tokens.
pub open spec fn template_wf(t: TableTemplate) -> bool
    decreases t,
{
    t.pads.wf() && templates_wf(t.children@)
}

pub open spec fn templates_wf(s: Seq<TableTemplate>) -> bool
    decreases s,
{
    if s.len() == 0 {
        true
    } else {
        templates_wf(s.drop_last()) && template_wf(s.last())
    }
}

pub proof fn lemma_templates_wf(s: Seq<TableTemplate>)
    ensures
        templates_wf(s) <==> forall|i: int| 0 <= i < s.len() ==> #[trigger] template_wf(s[i]),
    decreases s.len(),
{
    if s.len() > 0 {
        lemma_templates_wf(s.drop_last());
        if forall|i: int| 0 <= i < s.len() ==> #[trigger] template_wf(s[i]) {
            assert forall|i: int| 0 <= i < s.drop_last().len() implies #[trigger] template_wf(
                s.drop_last()[i],
            ) by {
                assert(s.drop_last()[i] == s[i]);
            }
            assert(template_wf(s[s.len() - 1]));
        }
        if templates_wf(s) {
            assert forall|i: int| 0 <= i < s.len() implies #[trigger] template_wf(s[i]) by {
                if i < s.len() - 1 {
                    assert(s.drop_last()[i] == s[i]);
                }
            }
        }
    }
}

/// No piece holds a line feed.
pub open spec fn parts_plain(parts: Seq<Seq<char>>) -> bool {
    forall|i: int| 0 <= i < parts.len() ==> !(#[trigger] parts[i]).contains('\n')
}

/// The line pieces after adding `value` (nothing when it is empty).
pub open spec fn add_piece(parts: Seq<Seq<char>>, value: Seq<char>) -> Seq<Seq<char>> {
    if value.len() == 0 {
        parts
    } else {
        parts.push(value)
    }
}

/// The line pieces after adding `count` spaces (nothing when it is 0).
pub open spec fn add_spaces(parts: Seq<Seq<char>>, count: nat) -> Seq<Seq<char>> {
    if count == 0 {
        parts
    } else {
        parts.push(spaces_seq(count))
    }
}

/// `a - b`, or 0 when `b` is larger.
pub open spec fn sat_sub(a: int, b: int) -> nat {
    if a >= b {
        (a - b) as nat
    } else {
        0
    }
}

/// `a + b`, capped at the largest `usize`.
pub open spec fn sat_add(a: int, b: int) -> int {
    if a + b > usize::MAX {
        usize::MAX as int
    } else {
        a + b
    }
}

/// The width a piece takes with its separator: nothing when the piece is
/// empty.
pub open spec fn piece_width(len: usize, sep: nat) -> int {
    if len > 0 {
        sat_add(len as int, sep as int)
    } else {
        0
    }
}

/// The width of a cell of this template: its comments and name with their
/// separators, and the width of its values.
pub open spec fn cell_width(t: TableTemplate) -> int {
    sat_add(
        sat_add(
            sat_add(
                sat_add(
                    piece_width(t.prefix_comment_length, t.pads.model().comment_len),
                    piece_width(t.name_length, t.pads.model().colon_len),
                ),
                piece_width(t.middle_comment_length, t.pads.model().comment_len),
            ),
            t.composite_value_length as int,
        ),
        piece_width(t.postfix_comment_length, t.pads.model().comment_len),
    )
}

/// The width of the value cell of `t` once nested columns deeper than `k`
/// levels are dropped: a number column's field; else, when `t` keeps its
/// columns, the nested cells with commas between and brackets around (at
/// least as wide as `null` when the column holds one); else the widest value.
pub open spec fn pruned_composite(t: TableTemplate, k: int) -> int
    decreases t, 1int,
{
    proof {
        assert(decreases_to!(t => t.children));
        assert(decreases_to!(t.children => t.children@));
    }
    let clear = k <= 0 || (t.column_type != TableColumnType::Array && t.column_type
        != TableColumnType::Object) || t.row_count < 2;
    let m = t.pads.model();
    let n = t.children@.len();
    if t.column_type == TableColumnType::Number {
        number_field_width(t)
    } else if !clear && n > 0 {
        let commas = if m.comma_len * (n - 1) > usize::MAX {
            usize::MAX as int
        } else {
            m.comma_len * (n - 1)
        };
        let base = sat_add(
            sat_add(sat_add(kids_total(t.children@, k - 1), commas), m.arr_start_len[t.pad_type.spec_index()] as int),
            m.arr_end_len[t.pad_type.spec_index()] as int,
        );
        if t.contains_null && base < m.literal_null_len {
            m.literal_null_len as int
        } else {
            base
        }
    } else {
        t.max_value_length as int
    }
}

/// The total width of the templates `cs` once each is pruned to `k` levels.
pub open spec fn kids_total(cs: Seq<TableTemplate>, k: int) -> int
    decreases cs, 0int,
{
    if cs.len() == 0 {
        0
    } else {
        proof {
            assert(decreases_to!(cs => cs[cs.len() - 1]));
        }
        sat_add(kids_total(cs.drop_last(), k), pruned_total(cs[cs.len() - 1], k))
    }
}

/// The width of the cells of `t` once nested columns deeper than `k`
/// levels are dropped.
pub open spec fn pruned_total(t: TableTemplate, k: int) -> int
    decreases t, 2int,
{
    cell_width(TableTemplate { composite_value_length: pruned_composite(t, k) as usize, ..t })
}

/// The width of a number column's field: the widest integer part, the
/// point and the widest fraction when numbers are aligned by their point,
/// else the widest number.
pub open spec fn number_field_width(t: TableTemplate) -> int {
    if t.number_list_alignment == NumberListAlignment::Normalize || t.number_list_alignment
        == NumberListAlignment::Decimal {
        sat_add(
            sat_add(
                t.max_dig_before_dec as int,
                if t.max_dig_after_dec > 0 {
                    1int
                } else {
                    0
                },
            ),
            t.max_dig_after_dec as int,
        )
    } else {
        t.max_value_length as int
    }
}

/// The width of the cells of the template `t` with every nested column
/// dropped: each value is then written whole.
pub open spec fn flat_width(t: TableTemplate) -> int {
    cell_width(
        TableTemplate {
            composite_value_length: (if t.column_type == TableColumnType::Number {
                number_field_width(t)
            } else {
                t.max_value_length as int
            }) as usize,
            ..t
        },
    )
}

/// The digit counts and alignment of a number column: the widest integer
/// part, the widest fraction, and how numbers are aligned.
pub type Digits = (usize, usize, NumberListAlignment);

/// The digit counts and alignment of `t`.
pub open spec fn digits_of(t: TableTemplate) -> Digits {
    (t.max_dig_before_dec, t.max_dig_after_dec, t.number_list_alignment)
}

/// What one more row does to the digit counts `d` of a column that is of
/// kind `ct` and needs several lines when `rml`, once the row is counted:
/// a null widens the integer part to the width of `null` (`null_len`);
/// in a number column on one line, a number widens both parts to its own
/// digits (to those of its plain form when normalizing, and a number with
/// no short plain form turns normalizing into left alignment).
pub open spec fn digit_step(
    d: Digits,
    ct: TableColumnType,
    rml: bool,
    row: JsonItem,
    null_len: nat,
) -> Digits {
    let is_null = row.item_type == JsonItemType::Null;
    let d1 = if is_null && null_len > d.0 {
        (null_len as usize, d.1, d.2)
    } else {
        d
    };
    if rml || is_null || ct != TableColumnType::Number || d1.2 == NumberListAlignment::Left
        || d1.2 == NumberListAlignment::Right {
        d1
    } else if d1.2 == NumberListAlignment::Normalize {
        if normalizable(row.value@) {
            let t = choose|t: Seq<char>| normal_form_of(row.value@, t);
            (
                if int_digits(t) > d1.0 {
                    int_digits(t) as usize
                } else {
                    d1.0
                },
                if frac_digits(t) > d1.1 {
                    frac_digits(t) as usize
                } else {
                    d1.1
                },
                d1.2,
            )
        } else {
            (d1.0, d1.1, NumberListAlignment::Left)
        }
    } else {
        (
            if int_digits(row.value@) > d1.0 {
                int_digits(row.value@) as usize
            } else {
                d1.0
            },
            if frac_digits(row.value@) > d1.1 {
                frac_digits(row.value@) as usize
            } else {
                d1.1
            },
            d1.2,
        )
    }
}

/// The digit counts of `before` after measuring the rows `rows`.
pub open spec fn digits_after(before: TableTemplate, rows: Seq<JsonItem>, recursive: bool) -> Digits
    decreases rows.len(),
{
    if rows.len() == 0 {
        digits_of(before)
    } else {
        let prev = digits_after(before, rows.drop_last(), recursive);
        let r = rows.last();
        if is_comment_or_blank(r.item_type) {
            prev
        } else {
            digit_step(
                prev,
                columns_after(
                    before.column_type,
                    before.pad_type,
                    stats_of(before),
                    rows,
                    recursive,
                ).0,
                absorb_rows(stats_of(before), rows).requires_multiple_lines,
                r,
                before.pads.model().literal_null_len,
            )
        }
    }
}

/// A template as `new` makes it: no rows measured, no columns, tokens
/// whose model is `m`, and numbers aligned by `align`.
pub open spec fn fresh_template(t: TableTemplate, m: PadsModel, align: NumberListAlignment) -> bool {
    &&& template_wf(t)
    &&& t.location_in_parent is None
    &&& t.column_type == TableColumnType::Unknown
    &&& t.row_count == 0
    &&& t.name_length == 0
    &&& t.name_minimum == usize::MAX
    &&& t.max_value_length == 0
    &&& t.max_atomic_value_length == 0
    &&& t.prefix_comment_length == 0
    &&& t.middle_comment_length == 0
    &&& !t.any_middle_comment_has_newline
    &&& t.postfix_comment_length == 0
    &&& !t.is_any_post_comment_line_style
    &&& t.pad_type == BracketPaddingType::Simple
    &&& !t.requires_multiple_lines
    &&& t.composite_value_length == 0
    &&& t.total_length == 0
    &&& t.shorter_than_null_adjustment == 0
    &&& !t.contains_null
    &&& t.children@.len() == 0
    &&& t.pads.model() == m
    &&& t.number_list_alignment == align
    &&& t.max_dig_before_dec == 0
    &&& t.max_dig_after_dec == 0
}

/// What measuring the rows of `root` turns the template `before` into, as
/// far as `measure_table_root` states it.
pub open spec fn root_measured(
    before: TableTemplate,
    after: TableTemplate,
    root: JsonItem,
    recursive: bool,
) -> bool {
    &&& template_wf(after)
    &&& stats_of(after) == absorb_rows(stats_of(before), root.children@)
    &&& (after.column_type, after.pad_type) == columns_after(
        before.column_type,
        before.pad_type,
        stats_of(before),
        root.children@,
        recursive,
    )
    &&& after.total_length == cell_width(after)
    &&& after.pads == before.pads
    &&& digits_of(after) == digits_after(before, root.children@, recursive)
    &&& after.column_type != TableColumnType::Array && after.column_type
        != TableColumnType::Object ==> after.composite_value_length as int == scalar_value_width(after)
}

/// The width of the value cell of a column that holds no nested columns:
/// a number column's field, else the widest value.
pub open spec fn scalar_value_width(t: TableTemplate) -> int {
    if t.column_type == TableColumnType::Number {
        number_field_width(t)
    } else {
        t.max_value_length as int
    }
}

/// The template `after` is `before` fitted into `max` as `try_to_fit`
/// leaves it when it succeeds: the same rows, no deeper, within `max`, and
/// untouched when `before` already fitted.
pub open spec fn fitted(before: TableTemplate, after: TableTemplate, max: int) -> bool {
    &&& template_wf(after)
    &&& after.total_length <= max
    &&& stats_of(after) == stats_of(before)
    &&& template_depth(after) <= template_depth(before)
    &&& before.total_length <= max ==> after == before
}

/// The digits before and after the decimal point (or exponent) of a number.
pub open spec fn digits_before(s: Seq<char>) -> nat {
    match dot_or_e(s) {
        Some(i) => i as nat,
        None => s.len(),
    }
}

/// The index of the first `.`, `e` or `E`.
pub open spec fn dot_or_e(s: Seq<char>) -> Option<int>
    decreases s.len(),
{
    if s.len() == 0 {
        None
    } else if s[0] == '.' || s[0] == 'e' || s[0] == 'E' {
        Some(0)
    } else {
        match dot_or_e(s.drop_first()) {
            Some(i) => Some(i + 1),
            None => None,
        }
    }
}

proof fn lemma_dot_or_e(s: Seq<char>)
    ensures
        dot_or_e(s) matches Some(i) ==> 0 <= i < s.len(),
    decreases s.len(),
{
    if s.len() > 0 {
        lemma_dot_or_e(s.drop_first());
    }
}

/// How `format_number` shows the number `value` under `Normalize` with
/// `places` decimals: its normal form, padded with zeros to `places`
/// decimals when it has no more; the text as it is when the number has
/// no normal form of at most `MAX_NORMALIZED_LEN` characters.
pub open spec fn shown_normalized(value: Seq<char>, places: nat, shown: Seq<char>) -> bool {
    if value.len() < EXPONENT_CAP / 2 && exists|t: Seq<char>|
        #[trigger] normal_form_of(value, t) && t.len() <= MAX_NORMALIZED_LEN {
        exists|t: Seq<char>|
            #[trigger] normal_form_of(value, t) && t.len() <= MAX_NORMALIZED_LEN && shown == (
            if decimals_of(t) <= places {
                with_decimals(t, places)
            } else {
                t
            })
    } else {
        shown == value
    }
}

/// A number column shows at most one text for a value.
pub proof fn lemma_shown_unique(value: Seq<char>, places: nat, a: Seq<char>, b: Seq<char>)
    requires
        shown_normalized(value, places, a),
        shown_normalized(value, places, b),
    ensures
        a == b,
{
    if value.len() < EXPONENT_CAP / 2 && exists|t: Seq<char>|
        #[trigger] normal_form_of(value, t) && t.len() <= MAX_NORMALIZED_LEN {
        let ta = choose|t: Seq<char>|
            #[trigger] normal_form_of(value, t) && t.len() <= MAX_NORMALIZED_LEN && a == (
            if decimals_of(t) <= places {
                with_decimals(t, places)
            } else {
                t
            });
        let tb = choose|t: Seq<char>|
            #[trigger] normal_form_of(value, t) && t.len() <= MAX_NORMALIZED_LEN && b == (
            if decimals_of(t) <= places {
                with_decimals(t, places)
            } else {
                t
            });
        lemma_normal_form_unique(value, ta, tb);
    }
}


/// The index of the first `.`, `e` or `E` in `value`.
pub fn dot_or_e_index(value: &str) -> (r: Option<usize>)
    ensures
        r matches Some(i) ==> dot_or_e(value@) == Some(i as int) && i < value@.len(),
        r is None ==> dot_or_e(value@) is None,
{
    let v = chars_of(value);
    let mut i: usize = 0;
    assert(v@.skip(0) =~= v@);
    while i < v.len()
        invariant
            i <= v@.len(),
            v@ == value@,
            dot_or_e(v@) == (match dot_or_e(v@.skip(i as int)) {
                Some(k) => Some(k + i),
                None => None,
            }),
        decreases v@.len() - i,
    {
        if v[i] == '.' || v[i] == 'e' || v[i] == 'E' {
            return Some(i);
        }
        assert(v@.skip(i as int).drop_first() =~= v@.skip(i + 1));
        i += 1;
    }
    None
}

/// Scanning `s` for zero: every character before the first `e` or `E` is
/// `0` or `.`, and there is at least one (or one was `seen` already).
pub open spec fn zero_scan(s: Seq<char>, seen: bool) -> bool
    decreases s.len(),
{
    if s.len() == 0 || s[0] == 'e' || s[0] == 'E' {
        seen
    } else if s[0] != '0' && s[0] != '.' {
        false
    } else {
        zero_scan(s.drop_first(), true)
    }
}

/// The number text writes zero: after an optional sign, only zeros and
/// points (at least one) up to the exponent.
pub open spec fn truly_zero(s: Seq<char>) -> bool {
    if s.len() > 0 && s[0] == '-' {
        zero_scan(s.drop_first(), false)
    } else {
        zero_scan(s, false)
    }
}

/// Whether `value` writes zero.
pub fn is_truly_zero(value: &str) -> (b: bool)
    ensures
        b == truly_zero(value@),
{
    let v = chars_of(value);
    let mut i: usize = 0;
    if v.len() > 0 && v[0] == '-' {
        i = 1;
        assert(v@.skip(1) =~= v@.drop_first());
    } else {
        assert(v@.skip(0) =~= v@);
    }
    let start = i;
    let mut saw_any = false;
    while i < v.len()
        invariant
            start <= i <= v@.len(),
            v@ == value@,
            truly_zero(value@) == zero_scan(v@.skip(i as int), saw_any),
        decreases v@.len() - i,
    {
        let ch = v[i];
        if ch == 'e' || ch == 'E' {
            return saw_any;
        }
        if ch != '0' && ch != '.' {
            return false;
        }
        assert(v@.skip(i as int).drop_first() =~= v@.skip(i + 1));
        saw_any = true;
        i += 1;
    }
    saw_any
}

/// Two items of `list` have the same name.
pub open spec fn has_duplicate_names(list: Seq<JsonItem>) -> bool {
    exists|i: int, j: int| 0 <= i < j < list.len() && list[i].name@ == list[j].name@
}

/// Whether two items of `list` have the same name.
pub fn contains_duplicate_keys(list: &Vec<JsonItem>) -> (b: bool)
    ensures
        b == has_duplicate_names(list@),
{
    let mut j: usize = 0;
    while j < list.len()
        invariant
            j <= list@.len(),
            forall|a: int, b: int| 0 <= a < b < j ==> list@[a].name@ != list@[b].name@,
        decreases list@.len() - j,
    {
        let mut i: usize = 0;
        while i < j
            invariant
                i <= j < list@.len(),
                forall|a: int| 0 <= a < i ==> list@[a].name@ != list@[j as int].name@,
            decreases j - i,
        {
            if list[i].name == list[j].name {
                return true;
            }
            i += 1;
        }
        j += 1;
    }
    false
}

impl TableTemplate {
    /// An empty template writing with `pads`.
    pub fn new(pads: PaddedFormattingTokens, number_list_alignment: NumberListAlignment) -> (r:
        Self)
        requires
            pads.wf(),
        ensures
            template_wf(r),
            r.location_in_parent is None,
            r.column_type == TableColumnType::Unknown,
            r.row_count == 0,
            r.name_length == 0,
            r.name_minimum == usize::MAX,
            r.max_value_length == 0,
            r.max_atomic_value_length == 0,
            r.prefix_comment_length == 0,
            r.middle_comment_length == 0,
            !r.any_middle_comment_has_newline,
            r.postfix_comment_length == 0,
            !r.is_any_post_comment_line_style,
            r.pad_type == BracketPaddingType::Simple,
            !r.requires_multiple_lines,
            r.composite_value_length == 0,
            r.total_length == 0,
            r.shorter_than_null_adjustment == 0,
            !r.contains_null,
            r.children@.len() == 0,
            r.pads == pads,
            r.number_list_alignment == number_list_alignment,
            r.max_dig_before_dec == 0,
            r.max_dig_after_dec == 0,
            fresh_template(r, pads.model(), number_list_alignment),
    {
        TableTemplate {
            location_in_parent: None,
            column_type: TableColumnType::Unknown,
            row_count: 0,
            name_length: 0,
            name_minimum: usize::MAX,
            max_value_length: 0,
            max_atomic_value_length: 0,
            prefix_comment_length: 0,
            middle_comment_length: 0,
            any_middle_comment_has_newline: false,
            postfix_comment_length: 0,
            is_any_post_comment_line_style: false,
            pad_type: BracketPaddingType::Simple,
            requires_multiple_lines: false,
            composite_value_length: 0,
            total_length: 0,
            shorter_than_null_adjustment: 0,
            contains_null: false,
            children: Vec::new(),
            pads,
            number_list_alignment,
            max_dig_before_dec: 0,
            max_dig_after_dec: 0,
        }
    }

    /// Measures every row of `table_root`, then computes the widths.
    pub fn measure_table_root(&mut self, table_root: &JsonItem, recursive: bool)
        requires
            template_wf(*old(self)),
        ensures
            template_wf(*final(self)),
            stats_of(*final(self)) == absorb_rows(stats_of(*old(self)), table_root.children@),
            (final(self).column_type, final(self).pad_type) == columns_after(
                old(self).column_type,
                old(self).pad_type,
                stats_of(*old(self)),
                table_root.children@,
                recursive,
            ),
            final(self).total_length == cell_width(*final(self)),
            !final(self).requires_multiple_lines ==> forall|j: int|
                0 <= j < table_root.children@.len() ==> is_comment_or_blank(
                    #[trigger] table_root.children@[j].item_type,
                ) || !table_root.children@[j].requires_multiple_lines,
            old(self).number_list_alignment == NumberListAlignment::Decimal
                && final(self).column_type == TableColumnType::Number
                && !final(self).requires_multiple_lines ==> forall|j: int|
                0 <= j < table_root.children@.len() && (#[trigger] table_root.children@[j]).item_type
                    == JsonItemType::Number ==> int_digits(table_root.children@[j].value@)
                    <= final(self).max_dig_before_dec && frac_digits(
                    table_root.children@[j].value@,
                ) <= final(self).max_dig_after_dec,
            root_measured(*old(self), *final(self), *table_root, recursive),
    {
        let mut i: usize = 0;
        while i < table_root.children.len()
            invariant
                template_wf(*self),
                i <= table_root.children@.len(),
                stats_of(*self) == absorb_rows(
                    stats_of(*old(self)),
                    table_root.children@.take(i as int),
                ),
                (self.column_type, self.pad_type) == columns_after(
                    old(self).column_type,
                    old(self).pad_type,
                    stats_of(*old(self)),
                    table_root.children@.take(i as int),
                    recursive,
                ),
                !self.requires_multiple_lines ==> forall|j: int|
                    0 <= j < i ==> is_comment_or_blank(
                        #[trigger] table_root.children@[j].item_type,
                    ) || !table_root.children@[j].requires_multiple_lines,
                old(self).number_list_alignment != NumberListAlignment::Normalize
                    ==> self.number_list_alignment == old(self).number_list_alignment,
                self.pads == old(self).pads,
                digits_of(*self) == digits_after(
                    *old(self),
                    table_root.children@.take(i as int),
                    recursive,
                ),
                self.column_type == TableColumnType::Unknown ==> forall|j: int|
                    0 <= j < i ==> (#[trigger] table_root.children@[j]).item_type
                        != JsonItemType::Number,
                old(self).number_list_alignment == NumberListAlignment::Decimal
                    && self.column_type == TableColumnType::Number
                    && !self.requires_multiple_lines ==> forall|j: int|
                    0 <= j < i && (#[trigger] table_root.children@[j]).item_type
                        == JsonItemType::Number ==> int_digits(table_root.children@[j].value@)
                        <= self.max_dig_before_dec && frac_digits(
                        table_root.children@[j].value@,
                    ) <= self.max_dig_after_dec,
            decreases table_root.children@.len() - i,
        {
            proof {
                let rows = table_root.children@;
                assert(rows.take(i + 1).drop_last() =~= rows.take(i as int));
                assert(rows.take(i + 1).last() == rows[i as int]);
            }
            self.measure_row_segment(&table_root.children[i], recursive);
            i += 1;
        }
        proof {
            assert(table_root.children@.take(table_root.children@.len() as int)
                =~= table_root.children@);
        }
        self.prune_and_recompute(usize::MAX);
    }

    /// Drops nested columns until the table fits in `maximum_length`;
    /// whether it then fits.
    pub fn try_to_fit(&mut self, maximum_length: usize) -> (b: bool)
        requires
            template_wf(*old(self)),
        ensures
            template_wf(*final(self)),
            b == (final(self).total_length <= maximum_length),
            stats_of(*final(self)) == stats_of(*old(self)),
            template_depth(*final(self)) <= template_depth(*old(self)),
            old(self).total_length <= maximum_length ==> *final(self) == *old(self),
            !b ==> final(self).children@.len() == 0,
            !b ==> flat_width(*old(self)) > maximum_length || template_depth(*old(self)) == 0,
            b ==> fitted(*old(self), *final(self), maximum_length as int),
            b == (old(self).total_length <= maximum_length || exists|k: int|
                0 <= k < template_depth(*old(self)) && #[trigger] pruned_total(*old(self), k)
                    <= maximum_length),
            b && old(self).total_length > maximum_length ==> exists|c: int|
                0 <= c < template_depth(*old(self)) && #[trigger] pruned_total(*old(self), c)
                    <= maximum_length && final(self).total_length == pruned_total(*old(self), c)
                    && template_depth(*final(self)) <= c && forall|k: int|
                    c < k < template_depth(*old(self)) ==> #[trigger] pruned_total(*old(self), k)
                        > maximum_length,
            !b ==> forall|k: int|
                0 <= k < template_depth(*old(self)) ==> #[trigger] pruned_total(*old(self), k)
                    > maximum_length,
    {
        if self.total_length <= maximum_length {
            return true;
        }
        let depth = self.get_template_complexity();
        proof {
            if self.children@.len() > 0 {
                lemma_templates_depth_nonneg(self.children@);
            }
        }
        let mut c = depth;
        while c > 0
            invariant
                c <= depth,
                depth == template_depth(*old(self)),
                *self == *old(self),
                old(self).total_length > maximum_length,
                template_wf(*self),
                forall|k: int| c <= k < depth ==> #[trigger] pruned_total(*old(self), k) > maximum_length,
            decreases c,
        {
            c -= 1;
            if self.pruned_total_exec(c) <= maximum_length {
                self.prune_and_recompute(c);
                proof {
                    assert(pruned_total(*old(self), c as int) <= maximum_length);
                }
                return true;
            }
        }
        if depth > 0 {
            self.prune_and_recompute(0);
            proof {
                assert(pruned_total(*old(self), 0) > maximum_length);
                if self.children@.len() > 0 {
                    lemma_templates_depth_nonneg(self.children@);
                }
            }
        }
        false
    }

    /// The width of the cells of this template with `composite` as the
    /// width of its value.
    fn width_with(&self, composite: usize) -> (n: usize)
        ensures
            n == cell_width(TableTemplate { composite_value_length: composite, ..*self }),
    {
        (if self.prefix_comment_length > 0 {
            self.prefix_comment_length.saturating_add(self.pads.comment_len())
        } else {
            0
        }).saturating_add(
            if self.name_length > 0 {
                self.name_length.saturating_add(self.pads.colon_len())
            } else {
                0
            },
        ).saturating_add(
            if self.middle_comment_length > 0 {
                self.middle_comment_length.saturating_add(self.pads.comment_len())
            } else {
                0
            },
        ).saturating_add(composite).saturating_add(
            if self.postfix_comment_length > 0 {
                self.postfix_comment_length.saturating_add(self.pads.comment_len())
            } else {
                0
            },
        )
    }

    /// The width of the value cell once nested columns deeper than `k`
    /// levels are dropped.
    fn pruned_composite_exec(&self, k: usize) -> (n: usize)
        requires
            template_wf(*self),
        ensures
            n as int == pruned_composite(*self, k as int),
        decreases self, 0int,
    {
        let clear = k == 0 || (self.column_type != TableColumnType::Array && self.column_type
            != TableColumnType::Object) || self.row_count < 2;
        if self.column_type == TableColumnType::Number {
            return self.get_number_field_width();
        }
        let n = self.children.len();
        if !clear && n > 0 {
            let mut total: usize = 0;
            let mut j: usize = 0;
            proof {
                lemma_templates_wf(self.children@);
            }
            while j < n
                invariant
                    j <= n,
                    n == self.children@.len(),
                    k > 0,
                    template_wf(*self),
                    forall|i: int| 0 <= i < n ==> #[trigger] template_wf(self.children@[i]),
                    total as int == kids_total(self.children@.take(j as int), k - 1),
                decreases n - j,
            {
                proof {
                    assert(decreases_to!(self => self.children));
                    assert(decreases_to!(self.children => self.children@));
                    assert(decreases_to!(self.children@ => self.children@[j as int]));
                    assert(self.children@.take(j + 1).drop_last() =~= self.children@.take(j as int));
                    assert(self.children@.take(j + 1)[j as int] == self.children@[j as int]);
                }
                let w = self.children[j].pruned_total_exec(k - 1);
                total = total.saturating_add(w);
                j += 1;
            }
            proof {
                assert(self.children@.take(n as int) =~= self.children@);
            }
            let mut c = total.saturating_add(saturating_product(self.pads.comma_len(), n - 1)).saturating_add(
                self.pads.arr_start_len(self.pad_type),
            ).saturating_add(self.pads.arr_end_len(self.pad_type));
            let null_len = self.pads.literal_null_len();
            if self.contains_null && c < null_len {
                c = null_len;
            }
            c
        } else {
            self.max_value_length
        }
    }

    /// The width of the cells once nested columns deeper than `k` levels
    /// are dropped.
    fn pruned_total_exec(&self, k: usize) -> (n: usize)
        requires
            template_wf(*self),
        ensures
            n == pruned_total(*self, k as int),
        decreases self, 1int,
    {
        let c = self.pruned_composite_exec(k);
        self.width_with(c)
    }

    /// Writes the number `item` in this column, aligned by the column's
    /// rule, with `comma_before_pad_type` before any padding on its right.
    pub fn format_number(
        &self,
        buffer: &mut StringJoinBuffer,
        item: &JsonItem,
        comma_before_pad_type: &str,
    )
        ensures
            final(buffer).doc_lines() == old(buffer).doc_lines(),
            exists|normalized: Seq<char>|
                #![trigger self.number_parts(old(buffer).line_parts(), item, comma_before_pad_type@, normalized)]
                final(buffer).line_parts() == self.number_parts(
                    old(buffer).line_parts(),
                    item,
                    comma_before_pad_type@,
                    normalized,
                ) && (!item.value@.contains('\n') ==> !normalized.contains('\n')) && (
                self.number_list_alignment == NumberListAlignment::Normalize && item.item_type
                    != JsonItemType::Null ==> shown_normalized(
                    item.value@,
                    self.max_dig_after_dec as nat,
                    normalized,
                )),
    {
        match self.number_list_alignment {
            NumberListAlignment::Left => {
                buffer.add(item.value.as_str()).add(comma_before_pad_type).spaces(
                    self.max_value_length.saturating_sub(item.value_length),
                );
                assert(buffer.line_parts() == self.number_parts(
                    old(buffer).line_parts(),
                    item,
                    comma_before_pad_type@,
                    Seq::empty(),
                ));
                return ;
            },
            NumberListAlignment::Right => {
                buffer.spaces(self.max_value_length.saturating_sub(item.value_length)).add(
                    item.value.as_str(),
                ).add(comma_before_pad_type);
                assert(buffer.line_parts() == self.number_parts(
                    old(buffer).line_parts(),
                    item,
                    comma_before_pad_type@,
                    Seq::empty(),
                ));
                return ;
            },
            _ => {},
        }
        if item.item_type == JsonItemType::Null {
            buffer.spaces(self.max_dig_before_dec.saturating_sub(item.value_length)).add(
                item.value.as_str(),
            ).add(comma_before_pad_type).spaces(
                self.composite_value_length.saturating_sub(self.max_dig_before_dec),
            );
            assert(buffer.line_parts() == self.number_parts(
                old(buffer).line_parts(),
                item,
                comma_before_pad_type@,
                Seq::empty(),
            ));
            return ;
        }
        if self.number_list_alignment == NumberListAlignment::Normalize {
            let reformatted = match normalize_number(item.value.as_str()) {
                Some(plain) => {
                    if decimals_count(plain.as_str()) <= self.max_dig_after_dec {
                        let padded = pad_decimals(plain.as_str(), self.max_dig_after_dec);
                        proof {
                            lemma_with_decimals_plain(plain@, self.max_dig_after_dec as nat);
                        }
                        padded
                    } else {
                        plain
                    }
                },
                None => item.value.clone(),
            };
            assert(!item.value@.contains('\n') ==> !reformatted@.contains('\n'));
            assert(shown_normalized(item.value@, self.max_dig_after_dec as nat, reformatted@));
            let reformatted_len = reformatted.as_str().unicode_len();
            buffer.spaces(self.composite_value_length.saturating_sub(reformatted_len)).add(
                reformatted.as_str(),
            ).add(comma_before_pad_type);
            assert(buffer.line_parts() == self.number_parts(
                old(buffer).line_parts(),
                item,
                comma_before_pad_type@,
                reformatted@,
            ));
            return ;
        }
        let index_of_dot = dot_or_e_index(item.value.as_str());
        let (left_pad, right_pad) = match index_of_dot {
            Some(dot) => {
                let left_pad = self.max_dig_before_dec.saturating_sub(dot);
                let right_pad = self.composite_value_length.saturating_sub(
                    left_pad.saturating_add(item.value_length),
                );
                (left_pad, right_pad)
            },
            None => {
                let left_pad = self.max_dig_before_dec.saturating_sub(item.value_length);
                let right_pad = self.composite_value_length.saturating_sub(
                    self.max_dig_before_dec,
                );
                (left_pad, right_pad)
            },
        };
        buffer.spaces(left_pad).add(item.value.as_str()).add(comma_before_pad_type).spaces(
            right_pad,
        );
        assert(buffer.line_parts() == self.number_parts(
            old(buffer).line_parts(),
            item,
            comma_before_pad_type@,
            Seq::empty(),
        ));
    }

    /// The line pieces `format_number` writes after `parts`. Under
    /// `Normalize` the written number (`normalized`) is the number's plain
    /// form with the column's decimals.
    pub open spec fn number_parts(
        self,
        parts: Seq<Seq<char>>,
        item: &JsonItem,
        comma: Seq<char>,
        normalized: Seq<char>,
    ) -> Seq<Seq<char>> {
        match self.number_list_alignment {
            NumberListAlignment::Left => add_spaces(
                add_piece(add_piece(parts, item.value@), comma),
                sat_sub(self.max_value_length as int, item.value_length as int),
            ),
            NumberListAlignment::Right => add_piece(
                add_piece(
                    add_spaces(parts, sat_sub(self.max_value_length as int, item.value_length as int)),
                    item.value@,
                ),
                comma,
            ),
            _ => if item.item_type == JsonItemType::Null {
                add_spaces(
                    add_piece(
                        add_piece(
                            add_spaces(
                                parts,
                                sat_sub(self.max_dig_before_dec as int, item.value_length as int),
                            ),
                            item.value@,
                        ),
                        comma,
                    ),
                    sat_sub(self.composite_value_length as int, self.max_dig_before_dec as int),
                )
            } else if self.number_list_alignment == NumberListAlignment::Normalize {
                add_piece(
                    add_piece(
                        add_spaces(
                            parts,
                            sat_sub(self.composite_value_length as int, normalized.len() as int),
                        ),
                        normalized,
                    ),
                    comma,
                )
            } else {
                let left_pad = match dot_or_e(item.value@) {
                    Some(dot) => sat_sub(self.max_dig_before_dec as int, dot),
                    None => sat_sub(self.max_dig_before_dec as int, item.value_length as int),
                };
                let right_pad = match dot_or_e(item.value@) {
                    Some(dot) => sat_sub(
                        self.composite_value_length as int,
                        sat_add(left_pad as int, item.value_length as int),
                    ),
                    None => sat_sub(
                        self.composite_value_length as int,
                        self.max_dig_before_dec as int,
                    ),
                };
                add_spaces(
                    add_piece(add_piece(add_spaces(parts, left_pad), item.value@), comma),
                    right_pad,
                )
            },
        }
    }

    /// The pieces `format_number` writes hold no line feed when the number,
    /// the comma and the normalized form hold none.
    pub proof fn lemma_number_parts_plain(
        self,
        parts: Seq<Seq<char>>,
        item: &JsonItem,
        comma: Seq<char>,
        normalized: Seq<char>,
    )
        requires
            parts_plain(parts),
            !item.value@.contains('\n'),
            !comma.contains('\n'),
            !normalized.contains('\n'),
        ensures
            parts_plain(self.number_parts(parts, item, comma, normalized)),
    {
        assert forall|n: nat| !spaces_seq(n).contains('\n') by {
            assert forall|k: int| 0 <= k < spaces_seq(n).len() implies spaces_seq(n)[k] != '\n' by {}
        }
    }

    /// The width of the widest simple value written as a row of this
    /// table, with its name, comments and comma.
    pub fn atomic_item_size(&self) -> (n: usize)
        ensures
            n == atomic_size(*self),
    {
        self.name_length.saturating_add(self.pads.colon_len()).saturating_add(
            self.middle_comment_length,
        ).saturating_add(
            if self.middle_comment_length > 0 {
                self.pads.comment_len()
            } else {
                0
            },
        ).saturating_add(self.max_atomic_value_length).saturating_add(
            self.postfix_comment_length,
        ).saturating_add(
            if self.postfix_comment_length > 0 {
                self.pads.comment_len()
            } else {
                0
            },
        ).saturating_add(self.pads.comma_len())
    }

    fn measure_row_segment(&mut self, row_segment: &JsonItem, recursive: bool)
        requires
            template_wf(*old(self)),
        ensures
            template_wf(*final(self)),
            stats_of(*final(self)) == (if is_comment_or_blank(row_segment.item_type) {
                stats_of(*old(self))
            } else {
                absorb(stats_of(*old(self)), *row_segment)
            }),
            final(self).column_type == (if is_comment_or_blank(row_segment.item_type) {
                old(self).column_type
            } else {
                column_after(
                    old(self).column_type,
                    old(self).requires_multiple_lines,
                    *row_segment,
                    recursive,
                )
            }),
            final(self).pad_type == (if is_comment_or_blank(row_segment.item_type) {
                old(self).pad_type
            } else {
                pad_after(old(self).pad_type, *row_segment)
            }),
            final(self).location_in_parent == old(self).location_in_parent,
            final(self).max_dig_before_dec >= old(self).max_dig_before_dec,
            final(self).max_dig_after_dec >= old(self).max_dig_after_dec,
            old(self).number_list_alignment != NumberListAlignment::Normalize
                ==> final(self).number_list_alignment == old(self).number_list_alignment,
            row_segment.item_type == JsonItemType::Number && final(self).column_type
                == TableColumnType::Number && !final(self).requires_multiple_lines
                && old(self).number_list_alignment == NumberListAlignment::Decimal ==> int_digits(
                row_segment.value@,
            ) <= final(self).max_dig_before_dec && frac_digits(row_segment.value@)
                <= final(self).max_dig_after_dec,
            final(self).pads == old(self).pads,
            is_comment_or_blank(row_segment.item_type) ==> digits_of(*final(self)) == digits_of(
                *old(self),
            ),
            !is_comment_or_blank(row_segment.item_type) ==> digits_of(*final(self)) == digit_step(
                digits_of(*old(self)),
                final(self).column_type,
                final(self).requires_multiple_lines,
                *row_segment,
                old(self).pads.model().literal_null_len,
            ),
            row_segment.item_type == JsonItemType::Array && final(self).column_type
                == TableColumnType::Array && recursive && !final(self).requires_multiple_lines ==> {
                &&& final(self).children@.len() == (if old(self).children@.len()
                    >= row_segment.children@.len() {
                    old(self).children@.len()
                } else {
                    row_segment.children@.len()
                })
                &&& forall|j: int|
                    0 <= j < row_segment.children@.len() ==> (if j < old(self).children@.len() {
                        measured_from(
                            stats_of(old(self).children@[j]),
                            old(self).children@[j].column_type,
                            old(self).children@[j].pad_type,
                            #[trigger] final(self).children@[j],
                            row_segment.children@[j],
                        )
                    } else {
                        measured_from(
                            blank_stats(),
                            TableColumnType::Unknown,
                            BracketPaddingType::Simple,
                            final(self).children@[j],
                            row_segment.children@[j],
                        )
                    })
            },
            row_segment.item_type == JsonItemType::Object && final(self).column_type
                == TableColumnType::Object && recursive && !final(self).requires_multiple_lines
                ==> object_columns_measured(
                old(self).children@,
                final(self).children@,
                row_segment.children@,
                row_segment.children@.len() as int,
            ),
        decreases row_segment, 1int,
    {
        if is_comment_or_blank_type(row_segment.item_type) {
            return ;
        }
        self.measure_row_scalars(row_segment);
        if self.requires_multiple_lines || row_segment.item_type == JsonItemType::Null {
            return ;
        }
        if self.column_type == TableColumnType::Array && recursive {
            self.measure_array_columns(row_segment);
        } else if self.column_type == TableColumnType::Object && recursive {
            if contains_duplicate_keys(&row_segment.children) {
                self.column_type = TableColumnType::Simple;
                return ;
            }
            self.measure_object_columns(row_segment);
        }
        let ghost pre = *self;
        self.measure_row_digits(row_segment);
        proof {
            let v = row_segment.value@;
            if pre.column_type == TableColumnType::Number && pre.number_list_alignment
                == NumberListAlignment::Normalize && normalizable(v) {
                let t = choose|t: Seq<char>|
                    #[trigger] normal_form_of(v, t) && t.len() <= MAX_NORMALIZED_LEN && *self
                        == with_digits(pre, t);
                let t0 = choose|t: Seq<char>| normal_form_of(v, t);
                lemma_normal_form_unique(v, t, t0);
            }
        }
    }

    /// Updates the column kind and the widths from one row.
    fn measure_row_scalars(&mut self, row_segment: &JsonItem)
        requires
            template_wf(*old(self)),
        ensures
            template_wf(*final(self)),
            final(self).children == old(self).children,
            final(self).location_in_parent == old(self).location_in_parent,
            stats_of(*final(self)) == absorb(stats_of(*old(self)), *row_segment),
            final(self).column_type == (if row_segment.requires_multiple_lines {
                TableColumnType::Mixed
            } else if old(self).column_type == TableColumnType::Unknown {
                row_column_type(row_segment.item_type)
            } else if row_column_type(row_segment.item_type) != TableColumnType::Unknown
                && old(self).column_type != row_column_type(row_segment.item_type) {
                TableColumnType::Mixed
            } else {
                old(self).column_type
            }),
            final(self).pad_type == pad_after(old(self).pad_type, *row_segment),
            final(self).max_dig_before_dec >= old(self).max_dig_before_dec,
            final(self).max_dig_after_dec == old(self).max_dig_after_dec,
            final(self).number_list_alignment == old(self).number_list_alignment,
            final(self).pads == old(self).pads,
            final(self).max_dig_before_dec == (if row_segment.item_type == JsonItemType::Null
                && old(self).pads.model().literal_null_len > old(self).max_dig_before_dec {
                old(self).pads.model().literal_null_len as usize
            } else {
                old(self).max_dig_before_dec
            }),
    {
        let row_table_type = match row_segment.item_type {
            JsonItemType::Null => TableColumnType::Unknown,
            JsonItemType::Number => TableColumnType::Number,
            JsonItemType::Array => TableColumnType::Array,
            JsonItemType::Object => TableColumnType::Object,
            _ => TableColumnType::Simple,
        };
        let mut column_type = self.column_type;
        if column_type == TableColumnType::Unknown {
            column_type = row_table_type;
        } else if row_table_type != TableColumnType::Unknown && column_type != row_table_type {
            column_type = TableColumnType::Mixed;
        }
        let is_null = row_segment.item_type == JsonItemType::Null;
        let null_len = self.pads.literal_null_len();
        let max_dig_before_dec = if is_null && null_len > self.max_dig_before_dec {
            null_len
        } else {
            self.max_dig_before_dec
        };
        if row_segment.requires_multiple_lines {
            column_type = TableColumnType::Mixed;
        }
        let is_atomic = row_segment.item_type != JsonItemType::Array && row_segment.item_type
            != JsonItemType::Object;
        self.column_type = column_type;
        self.max_dig_before_dec = max_dig_before_dec;
        self.contains_null = self.contains_null || is_null;
        self.requires_multiple_lines = self.requires_multiple_lines
            || row_segment.requires_multiple_lines;
        self.row_count = self.row_count.saturating_add(1);
        self.name_length = max_of(self.name_length, row_segment.name_length);
        self.name_minimum = min_of(self.name_minimum, row_segment.name_length);
        self.max_value_length = max_of(self.max_value_length, row_segment.value_length);
        self.middle_comment_length = max_of(
            self.middle_comment_length,
            row_segment.middle_comment_length,
        );
        self.prefix_comment_length = max_of(
            self.prefix_comment_length,
            row_segment.prefix_comment_length,
        );
        self.postfix_comment_length = max_of(
            self.postfix_comment_length,
            row_segment.postfix_comment_length,
        );
        self.is_any_post_comment_line_style = self.is_any_post_comment_line_style
            || row_segment.is_post_comment_line_style;
        self.any_middle_comment_has_newline = self.any_middle_comment_has_newline
            || row_segment.middle_comment_has_new_line;
        if is_atomic {
            self.max_atomic_value_length = max_of(
                self.max_atomic_value_length,
                row_segment.value_length,
            );
        }
        if row_segment.complexity >= 2 {
            self.pad_type = BracketPaddingType::Complex;
        }
    }

    /// Measures the elements of an array row into the column templates,
    /// by position.
    fn measure_array_columns(&mut self, row_segment: &JsonItem)
        requires
            template_wf(*old(self)),
        ensures
            template_wf(*final(self)),
            stats_of(*final(self)) == stats_of(*old(self)),
            final(self).column_type == old(self).column_type,
            final(self).pad_type == old(self).pad_type,
            *final(self) == (TableTemplate { children: final(self).children, ..*old(self) }),
            final(self).children@.len() == (if old(self).children@.len()
                >= row_segment.children@.len() {
                old(self).children@.len()
            } else {
                row_segment.children@.len()
            }),
            forall|j: int|
                0 <= j < row_segment.children@.len() ==> (if j < old(self).children@.len() {
                    measured_from(
                        stats_of(old(self).children@[j]),
                        old(self).children@[j].column_type,
                        old(self).children@[j].pad_type,
                        #[trigger] final(self).children@[j],
                        row_segment.children@[j],
                    )
                } else {
                    measured_from(
                        blank_stats(),
                        TableColumnType::Unknown,
                        BracketPaddingType::Simple,
                        final(self).children@[j],
                        row_segment.children@[j],
                    )
                }),
            forall|j: int|
                row_segment.children@.len() <= j < old(self).children@.len() ==> #[trigger] final(self).children@[j] == old(self).children@[j],
        decreases row_segment, 0int,
    {
        let mut i: usize = 0;
        while i < row_segment.children.len()
            invariant
                stats_of(*self) == stats_of(*old(self)),
                self.column_type == old(self).column_type,
                self.pad_type == old(self).pad_type,
                template_wf(*self),
                i <= row_segment.children@.len(),
                *self == (TableTemplate { children: self.children, ..*old(self) }),
                self.children@.len() == (if old(self).children@.len() >= i {
                    old(self).children@.len()
                } else {
                    i as nat
                }),
                forall|j: int|
                    0 <= j < i ==> (if j < old(self).children@.len() {
                        measured_from(
                            stats_of(old(self).children@[j]),
                            old(self).children@[j].column_type,
                            old(self).children@[j].pad_type,
                            #[trigger] self.children@[j],
                            row_segment.children@[j],
                        )
                    } else {
                        measured_from(
                            blank_stats(),
                            TableColumnType::Unknown,
                            BracketPaddingType::Simple,
                            self.children@[j],
                            row_segment.children@[j],
                        )
                    }),
                forall|j: int|
                    i <= j < old(self).children@.len() ==> #[trigger] self.children@[j]
                        == old(self).children@[j],
            decreases row_segment.children@.len() - i,
        {
            proof {
                lemma_templates_wf(self.children@);
            }
            if self.children.len() <= i {
                let sub = TableTemplate::new(self.pads.clone(), self.number_list_alignment);
                self.children.push(sub);
                proof {
                    lemma_templates_wf(self.children@);
                }
            }
            if i < self.children.len() {
                let mut sub = self.children.remove(i);
                proof {
                    assert(template_wf(sub));
                    assert(decreases_to!(row_segment => row_segment.children));
                    assert(decreases_to!(row_segment.children => row_segment.children@));
                    assert(decreases_to!(row_segment.children@ => row_segment.children@[i as int]));
                }
                sub.measure_row_segment(&row_segment.children[i], true);
                self.children.insert(i, sub);
                proof {
                    lemma_templates_wf(self.children@);
                }
            }
            i += 1;
        }
    }

    /// Measures the properties of an object row into the column templates,
    /// by name.
    fn measure_object_columns(&mut self, row_segment: &JsonItem)
        requires
            template_wf(*old(self)),
        ensures
            template_wf(*final(self)),
            stats_of(*final(self)) == stats_of(*old(self)),
            final(self).column_type == old(self).column_type,
            final(self).pad_type == old(self).pad_type,
            final(self).location_in_parent == old(self).location_in_parent,
            *final(self) == (TableTemplate { children: final(self).children, ..*old(self) }),
            !has_duplicate_names(row_segment.children@) ==> object_columns_measured(
                old(self).children@,
                final(self).children@,
                row_segment.children@,
                row_segment.children@.len() as int,
            ),
        decreases row_segment, 0int,
    {
        let mut k: usize = 0;
        proof {
            assert(object_columns_measured(
                old(self).children@,
                self.children@,
                row_segment.children@,
                0,
            )) by {
                reveal(object_columns_measured);
            }
        }
        while k < row_segment.children.len()
            invariant
                stats_of(*self) == stats_of(*old(self)),
                self.column_type == old(self).column_type,
                self.location_in_parent == old(self).location_in_parent,
                self.pad_type == old(self).pad_type,
                template_wf(*self),
                k <= row_segment.children@.len(),
                *self == (TableTemplate { children: self.children, ..*old(self) }),
                self.children@.len() >= old(self).children@.len(),
                forall|j: int|
                    0 <= j < old(self).children@.len() ==> (#[trigger] self.children@[j]).location_in_parent
                        == old(self).children@[j].location_in_parent,
                !has_duplicate_names(row_segment.children@) ==> object_columns_measured(
                    old(self).children@,
                    self.children@,
                    row_segment.children@,
                    k as int,
                ),
            decreases row_segment.children@.len() - k,
        {
            let row_child = &row_segment.children[k];
            proof {
                lemma_templates_wf(self.children@);
                assert(decreases_to!(row_segment => row_segment.children));
                assert(decreases_to!(row_segment.children => row_segment.children@));
                assert(decreases_to!(row_segment.children@ => row_segment.children@[k as int]));
            }
            let ghost before = old(self).children@;
            let ghost cur0 = self.children@;
            let ghost props = row_segment.children@;
            let ghost n = row_child.name@;
            let idx = self.find_child_template(&row_child.name);
            match idx {
                Some(index) => {
                    let mut sub = self.children.remove(index);
                    sub.measure_row_segment(row_child, true);
                    self.children.insert(index, sub);
                    proof {
                        assert(self.children@ =~= cur0.update(index as int, sub));
                        if !has_duplicate_names(props) {
                            lemma_first_column_kept(before, cur0, props, k as int, index as int);
                            lemma_columns_after_measure(
                                before,
                                cur0,
                                self.children@,
                                props,
                                k as int,
                                index as int,
                            );
                        }
                    }
                },
                None => {
                    let mut sub = TableTemplate::new(self.pads.clone(), self.number_list_alignment);
                    sub.location_in_parent = Some(row_child.name.clone());
                    sub.measure_row_segment(row_child, true);
                    self.children.push(sub);
                    proof {
                        if !has_duplicate_names(props) {
                            assert(!has_column(before, n)) by {
                                if has_column(before, n) {
                                    let j = choose|j: int| #[trigger] is_first_column(before, n, j);
                                    assert(located_at(cur0[j], n));
                                }
                            }
                            lemma_columns_after_new(before, cur0, self.children@, props, k as int);
                        }
                    }
                },
            }
            proof {
                lemma_templates_wf(self.children@);
            }
            k += 1;
        }
    }

    /// Records the digits before and after the decimal point of a number
    /// row, or gives up normalization when the number cannot be normalized.
    fn measure_row_digits(&mut self, row_segment: &JsonItem)
        requires
            template_wf(*old(self)),
        ensures
            template_wf(*final(self)),
            stats_of(*final(self)) == stats_of(*old(self)),
            final(self).column_type == old(self).column_type,
            final(self).pad_type == old(self).pad_type,
            ({
                let skip = old(self).column_type != TableColumnType::Number
                    || old(self).number_list_alignment == NumberListAlignment::Left
                    || old(self).number_list_alignment == NumberListAlignment::Right;
                let normalizing = old(self).number_list_alignment == NumberListAlignment::Normalize;
                &&& skip ==> *final(self) == *old(self)
                &&& !skip && !normalizing ==> *final(self) == with_digits(
                    *old(self),
                    row_segment.value@,
                )
                &&& !skip && normalizing && !normalizable(row_segment.value@) ==> *final(self) == (
                TableTemplate { number_list_alignment: NumberListAlignment::Left, ..*old(self) })
                &&& !skip && normalizing && normalizable(row_segment.value@) ==> exists|
                    t: Seq<char>,
                |
                    #[trigger] normal_form_of(row_segment.value@, t) && t.len()
                        <= MAX_NORMALIZED_LEN && *final(self) == with_digits(*old(self), t)
            }),
            final(self).max_dig_before_dec >= old(self).max_dig_before_dec,
            final(self).max_dig_after_dec >= old(self).max_dig_after_dec,
            old(self).number_list_alignment != NumberListAlignment::Normalize
                ==> final(self).number_list_alignment == old(self).number_list_alignment,
            old(self).column_type == TableColumnType::Number && old(self).number_list_alignment
                == NumberListAlignment::Decimal ==> int_digits(row_segment.value@)
                <= final(self).max_dig_before_dec && frac_digits(row_segment.value@)
                <= final(self).max_dig_after_dec,
    {
        let skip_decimal = self.column_type != TableColumnType::Number || self.number_list_alignment
            == NumberListAlignment::Left || self.number_list_alignment
            == NumberListAlignment::Right;
        if skip_decimal {
            return ;
        }
        let normalized_str = if self.number_list_alignment == NumberListAlignment::Normalize {
            let normalized = normalize_number(row_segment.value.as_str());
            let can_normalize = match &normalized {
                Some(plain) => !is_plain_zero(plain.as_str()) || is_truly_zero(
                    row_segment.value.as_str(),
                ),
                None => false,
            };
            proof {
                match &normalized {
                    Some(plain) => {
                        assert forall|t: Seq<char>|
                            #[trigger] normal_form_of(row_segment.value@, t) implies t == plain@ by {
                            lemma_normal_form_unique(row_segment.value@, t, plain@);
                        }
                    },
                    None => {},
                }
            }
            if !can_normalize {
                self.number_list_alignment = NumberListAlignment::Left;
                return ;
            }
            normalized.unwrap()
        } else {
            row_segment.value.clone()
        };
        let chars = chars_of(normalized_str.as_str());
        let index_of_dot = dot_or_e_index(normalized_str.as_str());
        let before_dec = match index_of_dot {
            Some(idx) => idx,
            None => chars.len(),
        };
        let after_dec = match index_of_dot {
            Some(idx) => chars.len() - idx - 1,
            None => 0,
        };
        if before_dec > self.max_dig_before_dec {
            self.max_dig_before_dec = before_dec;
        }
        if after_dec > self.max_dig_after_dec {
            self.max_dig_after_dec = after_dec;
        }
    }

    /// The index of the column template for the property `name`.
    fn find_child_template(&self, name: &String) -> (r: Option<usize>)
        ensures
            r matches Some(i) ==> i < self.children@.len() && located_at(
                self.children@[i as int],
                name@,
            ),
            r matches Some(i) ==> forall|k: int|
                0 <= k < i ==> !located_at(#[trigger] self.children@[k], name@),
            r is None ==> forall|k: int|
                0 <= k < self.children@.len() ==> !located_at(#[trigger] self.children@[k], name@),
    {
        let mut i: usize = 0;
        while i < self.children.len()
            invariant
                i <= self.children@.len(),
                forall|k: int| 0 <= k < i ==> !located_at(#[trigger] self.children@[k], name@),
            decreases self.children@.len() - i,
        {
            match &self.children[i].location_in_parent {
                Some(loc) => {
                    if *loc == *name {
                        return Some(i);
                    }
                },
                None => {},
            }
            i += 1;
        }
        None
    }

    #[verifier::spinoff_prover]
    #[verifier::rlimit(40)]
    fn prune_and_recompute(&mut self, max_allowed_complexity: usize)
        requires
            template_wf(*old(self)),
        ensures
            template_wf(*final(self)),
            stats_of(*final(self)) == stats_of(*old(self)),
            final(self).column_type == old(self).column_type,
            final(self).pad_type == old(self).pad_type,
            final(self).total_length == cell_width(*final(self)),
            final(self).children@.len() == 0 && final(self).column_type != TableColumnType::Number
                ==> final(self).composite_value_length == final(self).max_value_length,
            template_depth(*final(self)) <= max_allowed_complexity,
            final(self).max_dig_before_dec == old(self).max_dig_before_dec,
            final(self).max_dig_after_dec == old(self).max_dig_after_dec,
            final(self).number_list_alignment == old(self).number_list_alignment,
            final(self).pads == old(self).pads,
            max_allowed_complexity == 0 ==> final(self).total_length == flat_width(*old(self)),
            final(self).composite_value_length as int == pruned_composite(
                *old(self),
                max_allowed_complexity as int,
            ),
            final(self).total_length == pruned_total(*old(self), max_allowed_complexity as int),
        decreases max_allowed_complexity,
    {
        let clear_children = max_allowed_complexity == 0 || (self.column_type
            != TableColumnType::Array && self.column_type != TableColumnType::Object)
            || self.row_count < 2;
        if clear_children {
            self.children.clear();
        }
        let ghost ch0 = self.children@;
        let ghost km = max_allowed_complexity as int - 1;
        let mut i: usize = 0;
        while i < self.children.len()
            invariant
                stats_of(*self) == stats_of(*old(self)),
                self.column_type == old(self).column_type,
                self.pad_type == old(self).pad_type,
                self.max_dig_before_dec == old(self).max_dig_before_dec,
                self.max_dig_after_dec == old(self).max_dig_after_dec,
                self.number_list_alignment == old(self).number_list_alignment,
                self.pads == old(self).pads,
                template_wf(*self),
                max_allowed_complexity == 0 ==> self.children@.len() == 0,
                i <= self.children@.len(),
                forall|k: int|
                    0 <= k < i ==> template_depth(#[trigger] self.children@[k]) + 1
                        <= max_allowed_complexity,
                self.children@.len() == ch0.len(),
                clear_children ==> ch0.len() == 0,
                !clear_children ==> ch0 == old(self).children@,
                km == max_allowed_complexity as int - 1,
                forall|j: int| i <= j < ch0.len() ==> #[trigger] self.children@[j] == ch0[j],
                forall|j: int|
                    0 <= j < i ==> (#[trigger] self.children@[j]).total_length == pruned_total(
                        ch0[j],
                        km,
                    ),
            decreases self.children@.len() - i,
        {
            proof {
                lemma_templates_wf(self.children@);
            }
            let mut child = self.children.remove(i);
            child.prune_and_recompute(max_allowed_complexity - 1);
            let ghost before_insert = self.children@;
            self.children.insert(i, child);
            proof {
                lemma_templates_wf(self.children@);
                assert forall|k: int| 0 <= k < i implies self.children@[k] == before_insert[k] by {}
                assert forall|j: int| i < j < ch0.len() implies #[trigger] self.children@[j] == ch0[j] by {
                    assert(self.children@[j] == before_insert[j - 1]);
                }
            }
            i += 1;
        }
        let ghost pruned = self.children@;
        proof {
            if pruned.len() > 0 {
                lemma_templates_depth_le(pruned, max_allowed_complexity - 1);
            }
        }
        if self.column_type == TableColumnType::Number {
            self.composite_value_length = self.get_number_field_width();
        } else if self.children.len() > 0 {
            let mut total_child_len: usize = 0;
            let mut j: usize = 0;
            while j < self.children.len()
                invariant
                    stats_of(*self) == stats_of(*old(self)),
                    self.column_type == old(self).column_type,
                    self.pad_type == old(self).pad_type,
                    self.max_dig_before_dec == old(self).max_dig_before_dec,
                    self.max_dig_after_dec == old(self).max_dig_after_dec,
                    self.number_list_alignment == old(self).number_list_alignment,
                    self.pads == old(self).pads,
                self.pads == old(self).pads,
                    j <= self.children@.len(),
                    self.children@ == pruned,
                    pruned.len() == ch0.len(),
                    forall|jj: int|
                        0 <= jj < ch0.len() ==> (#[trigger] pruned[jj]).total_length == pruned_total(
                            ch0[jj],
                            km,
                        ),
                    total_child_len as int == kids_total(ch0.take(j as int), km),
                decreases self.children@.len() - j,
            {
                proof {
                    assert(ch0.take(j + 1).drop_last() =~= ch0.take(j as int));
                    assert(ch0.take(j + 1)[j as int] == ch0[j as int]);
                }
                total_child_len = total_child_len.saturating_add(self.children[j].total_length);
                j += 1;
            }
            proof {
                assert(ch0.take(ch0.len() as int) =~= ch0);
                assert(!clear_children);
                assert(ch0 == old(self).children@);
            }
            self.composite_value_length = total_child_len.saturating_add(
                saturating_product(self.pads.comma_len(), self.children.len() - 1),
            ).saturating_add(self.pads.arr_start_len(self.pad_type)).saturating_add(
                self.pads.arr_end_len(self.pad_type),
            );
            let null_len = self.pads.literal_null_len();
            if self.contains_null && self.composite_value_length < null_len {
                self.shorter_than_null_adjustment = null_len - self.composite_value_length;
                self.composite_value_length = null_len;
            }
        } else {
            self.composite_value_length = self.max_value_length;
        }
        proof {
            assert(self.composite_value_length as int == pruned_composite(
                *old(self),
                max_allowed_complexity as int,
            ));
        }
        self.total_length = (if self.prefix_comment_length > 0 {
            self.prefix_comment_length.saturating_add(self.pads.comment_len())
        } else {
            0
        }).saturating_add(
            if self.name_length > 0 {
                self.name_length.saturating_add(self.pads.colon_len())
            } else {
                0
            },
        ).saturating_add(
            if self.middle_comment_length > 0 {
                self.middle_comment_length.saturating_add(self.pads.comment_len())
            } else {
                0
            },
        ).saturating_add(self.composite_value_length).saturating_add(
            if self.postfix_comment_length > 0 {
                self.postfix_comment_length.saturating_add(self.pads.comment_len())
            } else {
                0
            },
        );
    }

    /// How deeply templates nest below this one.
    fn get_template_complexity(&self) -> (n: usize)
        ensures
            n == template_depth(*self),
        decreases self,
    {
        if self.children.len() == 0 {
            return 0;
        }
        let mut max_child: usize = 0;
        let mut i: usize = 0;
        proof {
            assert(self.children@.take(0) =~= Seq::<TableTemplate>::empty());
        }
        while i < self.children.len()
            invariant
                i <= self.children@.len(),
                max_child == templates_depth(self.children@.take(i as int)),
            decreases self.children@.len() - i,
        {
            proof {
                assert(decreases_to!(self => self.children));
                assert(decreases_to!(self.children => self.children@));
                assert(decreases_to!(self.children@ => self.children@[i as int]));
            }
            let c = self.children[i].get_template_complexity();
            proof {
                let t = self.children@.take(i + 1);
                assert(t.drop_last() =~= self.children@.take(i as int));
                assert(t.last() == self.children@[i as int]);
            }
            if c > max_child {
                max_child = c;
            }
            i += 1;
        }
        proof {
            assert(self.children@.take(self.children@.len() as int) =~= self.children@);
        }
        max_child.saturating_add(1)
    }

    /// The width of a column of numbers.
    fn get_number_field_width(&self) -> (n: usize)
        ensures
            n == number_field_width(*self),
            n == (if self.number_list_alignment == NumberListAlignment::Normalize
                || self.number_list_alignment == NumberListAlignment::Decimal {
                sat_add(
                    sat_add(
                        self.max_dig_before_dec as int,
                        if self.max_dig_after_dec > 0 {
                            1int
                        } else {
                            0
                        },
                    ),
                    self.max_dig_after_dec as int,
                )
            } else {
                self.max_value_length as int
            }),
    {
        if self.number_list_alignment == NumberListAlignment::Normalize
            || self.number_list_alignment == NumberListAlignment::Decimal {
            let raw_dec_len: usize = if self.max_dig_after_dec > 0 {
                1
            } else {
                0
            };
            return self.max_dig_before_dec.saturating_add(raw_dec_len).saturating_add(
                self.max_dig_after_dec,
            );
        }
        self.max_value_length
    }
}

impl Clone for TableTemplate {
    fn clone(&self) -> (r: Self)
        decreases self,
    {
        let mut children: Vec<TableTemplate> = Vec::new();
        let mut i: usize = 0;
        while i < self.children.len()
            invariant
                i <= self.children@.len(),
            decreases self.children@.len() - i,
        {
            proof {
                assert(decreases_to!(self => self.children));
                assert(decreases_to!(self.children => self.children@));
                assert(decreases_to!(self.children@ => self.children@[i as int]));
            }
            children.push(self.children[i].clone());
            i += 1;
        }
        TableTemplate {
            location_in_parent: match &self.location_in_parent {
                Some(s) => Some(s.clone()),
                None => None,
            },
            column_type: self.column_type,
            row_count: self.row_count,
            name_length: self.name_length,
            name_minimum: self.name_minimum,
            max_value_length: self.max_value_length,
            max_atomic_value_length: self.max_atomic_value_length,
            prefix_comment_length: self.prefix_comment_length,
            middle_comment_length: self.middle_comment_length,
            any_middle_comment_has_newline: self.any_middle_comment_has_newline,
            postfix_comment_length: self.postfix_comment_length,
            is_any_post_comment_line_style: self.is_any_post_comment_line_style,
            pad_type: self.pad_type,
            requires_multiple_lines: self.requires_multiple_lines,
            composite_value_length: self.composite_value_length,
            total_length: self.total_length,
            shorter_than_null_adjustment: self.shorter_than_null_adjustment,
            contains_null: self.contains_null,
            children,
            pads: self.pads.clone(),
            number_list_alignment: self.number_list_alignment,
            max_dig_before_dec: self.max_dig_before_dec,
            max_dig_after_dec: self.max_dig_after_dec,
        }
    }
}

fn max_of(a: usize, b: usize) -> (r: usize)
    ensures
        r == (if a >= b {
            a
        } else {
            b
        }),
{
    if a >= b {
        a
    } else {
        b
    }
}

fn min_of(a: usize, b: usize) -> (r: usize)
    ensures
        r == (if a <= b {
            a
        } else {
            b
        }),
{
    if a <= b {
        a
    } else {
        b
    }
}

/// Comments and blank lines.
fn is_comment_or_blank_type(t: JsonItemType) -> (b: bool)
    ensures
        b == is_comment_or_blank(t),
{
    t == JsonItemType::BlankLine || t == JsonItemType::BlockComment || t
        == JsonItemType::LineComment
}

/// A plain decimal that writes zero (`0` or `-0`).
fn is_plain_zero(s: &str) -> (b: bool)
    ensures
        b == (s@ == seq!['0'] || s@ == seq!['-', '0']),
{
    let v = chars_of(s);
    proof {
        if v@.len() == 1 && v@[0] == '0' {
            assert(s@ =~= seq!['0']);
        }
        if v@.len() == 2 && v@[0] == '-' && v@[1] == '0' {
            assert(s@ =~= seq!['-', '0']);
        }
    }
    (v.len() == 1 && v[0] == '0') || (v.len() == 2 && v[0] == '-' && v[1] == '0')
}

} // verus!
