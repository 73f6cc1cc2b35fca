//! Builds the document model from a JSON value held in memory.

use vstd::prelude::*;
use crate::error::FracturedJsonError;
use crate::model::{origin, InputPosition, JsonItem, JsonItemType, TokenType};
use crate::tokenizer::{
    json_escapes_read_as_string, json_hex_digit, json_string_chars, lex, Lexed, MAX_DOC_SIZE,
};

verus! {

/// A JSON value: the data that serialization formats.
///
/// A number keeps the text it is written with; an object keeps its
/// properties in order.
#[derive(Debug)]
pub enum JsonValue {
    Null,
    Bool(bool),
    Number(String),
    String(String),
    Array(Vec<JsonValue>),
    Object(Vec<(String, JsonValue)>),
}

/// The lowercase hexadecimal digit for `n` (below 16).
pub open spec fn hex_digit(n: int) -> char {
    if n < 10 {
        (n + 48) as char
    } else {
        (n + 87) as char
    }
}

/// How the character `c` is written inside a JSON string literal: a quote
/// and a backslash after a backslash, the usual short escapes for
/// backspace, tab, line feed, form feed and carriage return, `\u00xx` in
/// lowercase hex for the other control characters, and any other
/// character as it is.
pub open spec fn escaped_char(c: char) -> Seq<char> {
    if c == '"' {
        seq!['\\', '"']
    } else if c == '\\' {
        seq!['\\', '\\']
    } else if c == '\u{8}' {
        seq!['\\', 'b']
    } else if c == '\t' {
        seq!['\\', 't']
    } else if c == '\n' {
        seq!['\\', 'n']
    } else if c == '\u{c}' {
        seq!['\\', 'f']
    } else if c == '\r' {
        seq!['\\', 'r']
    } else if (c as u32) < 0x20 {
        seq!['\\', 'u', '0', '0', hex_digit((c as int) / 16), hex_digit((c as int) % 16)]
    } else {
        seq![c]
    }
}

/// The characters of `s`, each written as `escaped_char` says.
pub open spec fn escaped(s: Seq<char>) -> Seq<char>
    decreases s.len(),
{
    if s.len() == 0 {
        Seq::empty()
    } else {
        escaped(s.drop_last()) + escaped_char(s.last())
    }
}

/// The JSON string literal of `s`: its escaped characters in double
/// quotes.
pub open spec fn quoted(s: Seq<char>) -> Seq<char> {
    seq!['"'] + escaped(s) + seq!['"']
}

/// Calls `serde_json::to_string` on a string slice. The contract claims
/// that it gives the JSON string literal of the text, escaped as
/// serde_json's escape table and `write_char_escape` do; on a string
/// slice the call writes into a vector and reports no error, so the
/// empty string for an error is never returned.
#[verifier::external_body]
fn json_string(s: &str) -> (r: String)
    ensures
        r@ == quoted(s@),
{
    serde_json::to_string(s).unwrap_or_default()
}

/// Characters allowed between the quotes of a string stay allowed when
/// more such characters follow.
proof fn lemma_string_chars_concat(a: Seq<char>, b: Seq<char>)
    requires
        json_string_chars(a),
        json_string_chars(b),
    ensures
        json_string_chars(a + b),
    decreases a.len(),
{
    let x = a + b;
    if a.len() == 0 {
        assert(x =~= b);
    } else if a[0] == '\\' {
        assert(x[0] == a[0]);
        assert(x[1] == a[1]);
        if a.len() >= 2 && (a[1] == '"' || a[1] == '\\' || a[1] == '/' || a[1] == 'b' || a[1]
            == 'f' || a[1] == 'n' || a[1] == 'r' || a[1] == 't') {
            assert(x.skip(2) =~= a.skip(2) + b);
            lemma_string_chars_concat(a.skip(2), b);
        } else {
            assert(x[2] == a[2] && x[3] == a[3] && x[4] == a[4] && x[5] == a[5]);
            assert(x.skip(6) =~= a.skip(6) + b);
            lemma_string_chars_concat(a.skip(6), b);
        }
    } else {
        assert(x[0] == a[0]);
        assert(x.skip(1) =~= a.skip(1) + b);
        lemma_string_chars_concat(a.skip(1), b);
    }
}

/// A lowercase hex digit is a hex digit.
proof fn lemma_hex_digit(n: int)
    requires
        0 <= n < 16,
    ensures
        json_hex_digit(hex_digit(n)),
{
}

/// The escaped form of a character the scanner takes in a string is made
/// of characters and escapes the JSON grammar allows.
proof fn lemma_escaped_char(c: char)
    requires
        !(0x7F <= (c as u32) <= 0x9F),
    ensures
        json_string_chars(escaped_char(c)),
{
    let e = escaped_char(c);
    if (c as u32) < 0x20 && c != '\u{8}' && c != '\t' && c != '\n' && c != '\u{c}' && c
        != '\r' {
        lemma_hex_digit((c as int) / 16);
        lemma_hex_digit((c as int) % 16);
        assert(e.skip(6) =~= Seq::<char>::empty());
        assert(json_string_chars(e.skip(6)));
    } else if c == '"' || c == '\\' || c == '\u{8}' || c == '\t' || c == '\n' || c == '\u{c}'
        || c == '\r' {
        assert(e.skip(2) =~= Seq::<char>::empty());
        assert(json_string_chars(e.skip(2)));
    } else {
        assert(e.skip(1) =~= Seq::<char>::empty());
        assert(json_string_chars(e.skip(1)));
    }
}

/// The escaped form of a text is made of characters and escapes the JSON
/// grammar allows, when the text holds none of the characters U+007F to
/// U+009F (which are written as they are, and which the scanner refuses).
proof fn lemma_escaped_chars(s: Seq<char>)
    requires
        forall|i: int| 0 <= i < s.len() ==> !(0x7F <= (#[trigger] s[i] as u32) <= 0x9F),
    ensures
        json_string_chars(escaped(s)),
    decreases s.len(),
{
    if s.len() > 0 {
        lemma_escaped_chars(s.drop_last());
        lemma_escaped_char(s.last());
        lemma_string_chars_concat(escaped(s.drop_last()), escaped_char(s.last()));
    }
}

/// A text written as a JSON string literal is read back by the scanner as
/// one String token holding exactly that literal, when the text holds none
/// of the characters U+007F to U+009F (written as they are, and refused by
/// the scanner as control characters).
pub proof fn quoted_strings_read_back(
    text: Seq<char>,
    cur: InputPosition,
    tok: InputPosition,
    nwsl: bool,
    s: Seq<char>,
)
    requires
        forall|i: int| 0 <= i < s.len() ==> !(0x7F <= (#[trigger] s[i] as u32) <= 0x9F),
        text.len() <= MAX_DOC_SIZE,
        cur.index + quoted(s).len() <= text.len(),
        text.subrange(cur.index as int, cur.index + quoted(s).len()) == quoted(s),
    ensures
        lex(text, cur, tok, nwsl).0 == Lexed::Token(TokenType::String, quoted(s), cur),
{
    let e = escaped(s);
    let i = cur.index as int;
    lemma_escaped_chars(s);
    assert(text[i] == quoted(s)[0]);
    assert(text.subrange(i + 1, i + 1 + e.len()) =~= quoted(s).subrange(1, 1 + e.len() as int));
    assert(quoted(s).subrange(1, 1 + e.len() as int) =~= e);
    assert(text[i + 1 + e.len()] == quoted(s)[1 + e.len() as int]);
    json_escapes_read_as_string(text, cur, tok, nwsl, e);
}

/// Writes `s` as a JSON string literal.
pub fn quote_json_string(s: &str) -> (r: String)
    ensures
        r@ == quoted(s@),
{
    json_string(s)
}

/// How deeply a value nests: 1 for a scalar or an empty container, one
/// more than its deepest child otherwise.
pub open spec fn value_depth(v: JsonValue) -> nat
    decreases v,
{
    match v {
        JsonValue::Array(items) => 1 + max_depth(items@),
        JsonValue::Object(props) => 1 + max_prop_depth(props@),
        _ => 1,
    }
}

pub open spec fn max_depth(vs: Seq<JsonValue>) -> nat
    decreases vs,
{
    if vs.len() == 0 {
        0
    } else {
        let a = max_depth(vs.drop_last());
        let b = value_depth(vs.last());
        if a >= b {
            a
        } else {
            b
        }
    }
}

pub open spec fn max_prop_depth(ps: Seq<(String, JsonValue)>) -> nat
    decreases ps,
{
    if ps.len() == 0 {
        0
    } else {
        let a = max_prop_depth(ps.drop_last());
        let b = value_depth(ps.last().1);
        if a >= b {
            a
        } else {
            b
        }
    }
}

/// The largest complexity among `items`, or 0.
pub open spec fn max_complexity(items: Seq<JsonItem>) -> nat
    decreases items.len(),
{
    if items.len() == 0 {
        0
    } else {
        let a = max_complexity(items.drop_last());
        let b = items.last().complexity as nat;
        if a >= b {
            a
        } else {
            b
        }
    }
}

/// The parts of an item that conversion leaves at their defaults: no
/// comments, no position, no measurements.
pub open spec fn bare(item: JsonItem) -> bool {
    &&& item.input_position == origin()
    &&& item.prefix_comment@.len() == 0
    &&& item.middle_comment@.len() == 0
    &&& !item.middle_comment_has_new_line
    &&& item.postfix_comment@.len() == 0
    &&& !item.is_post_comment_line_style
    &&& item.name_length == 0
    &&& item.value_length == 0
    &&& item.prefix_comment_length == 0
    &&& item.middle_comment_length == 0
    &&& item.postfix_comment_length == 0
    &&& item.minimum_total_length == 0
    &&& !item.requires_multiple_lines
}

/// `item` is the document model of the value `v`, named `name` (a
/// property name, written as a JSON string) or unnamed.
pub open spec fn dom_of(v: JsonValue, name: Option<Seq<char>>, item: JsonItem) -> bool
    decreases v,
{
    &&& bare(item)
    &&& item.name@ == (match name {
        Some(n) => quoted(n),
        None => Seq::empty(),
    })
    &&& item.complexity == (if item.children@.len() == 0 {
        0
    } else {
        max_complexity(item.children@) + 1
    })
    &&& match v {
        JsonValue::Null => item.item_type == JsonItemType::Null && item.value@ == seq![
            'n',
            'u',
            'l',
            'l',
        ] && item.children@.len() == 0,
        JsonValue::Bool(b) => item.item_type == (if b {
            JsonItemType::True
        } else {
            JsonItemType::False
        }) && item.value@ == (if b {
            seq!['t', 'r', 'u', 'e']
        } else {
            seq!['f', 'a', 'l', 's', 'e']
        }) && item.children@.len() == 0,
        JsonValue::Number(text) => item.item_type == JsonItemType::Number && item.value@
            == text@ && item.children@.len() == 0,
        JsonValue::String(text) => item.item_type == JsonItemType::String && item.value@
            == quoted(text@) && item.children@.len() == 0,
        JsonValue::Array(items) => item.item_type == JsonItemType::Array && item.value@.len()
            == 0 && doms_of_items(items@, item.children@),
        JsonValue::Object(props) => item.item_type == JsonItemType::Object && item.value@.len()
            == 0 && doms_of_props(props@, item.children@),
    }
}

/// Each of `items` is the model of the value at its place in `vs`.
pub open spec fn doms_of_items(vs: Seq<JsonValue>, items: Seq<JsonItem>) -> bool
    decreases vs,
{
    if vs.len() == 0 {
        items.len() == 0
    } else {
        &&& items.len() == vs.len()
        &&& doms_of_items(vs.drop_last(), items.drop_last())
        &&& dom_of(vs.last(), None, items.last())
    }
}

/// Each of `items` is the model of the property at its place in `ps`.
pub open spec fn doms_of_props(ps: Seq<(String, JsonValue)>, items: Seq<JsonItem>) -> bool
    decreases ps,
{
    if ps.len() == 0 {
        items.len() == 0
    } else {
        &&& items.len() == ps.len()
        &&& doms_of_props(ps.drop_last(), items.drop_last())
        &&& dom_of(ps.last().1, Some(ps.last().0@), items.last())
    }
}

/// The message of the error for a value nested deeper than allowed.
pub open spec fn depth_error_message() -> Seq<char> {
    "Depth limit exceeded - possible circular reference"@
}

/// Converts `element` (named `prop_name` when it is a property) to the
/// document model, descending at most `recursion_limit` levels.
///
/// Fails with the depth error exactly when the value nests deeper than
/// `recursion_limit`; otherwise gives the model of the value.
pub fn convert_value_to_dom(
    element: &JsonValue,
    prop_name: Option<&str>,
    recursion_limit: usize,
) -> (r: Result<Option<JsonItem>, FracturedJsonError>)
    ensures
        r is Err <==> value_depth(*element) > recursion_limit,
        r matches Err(e) ==> e.message@ == depth_error_message() && e.input_position is None,
        r matches Ok(o) ==> o matches Some(item) && dom_of(
            *element,
            match prop_name {
                Some(n) => Some(n@),
                None => None,
            },
            item,
        ) && item.complexity < recursion_limit,
    decreases value_depth(*element), 1nat,
{
    if recursion_limit == 0 {
        proof {
            reveal_strlit("Depth limit exceeded - possible circular reference");
        }
        return Err(FracturedJsonError::simple("Depth limit exceeded - possible circular reference"));
    }
    let mut item = JsonItem::default();
    match prop_name {
        Some(name) => {
            item.name = quote_json_string(name);
        },
        None => {},
    }
    match element {
        JsonValue::Null => {
            item.item_type = JsonItemType::Null;
            item.value = String::from_str("null");
            proof {
                reveal_strlit("null");
                assert(item.value@ =~= seq!['n', 'u', 'l', 'l']);
            }
        },
        JsonValue::Bool(val) => {
            if *val {
                item.item_type = JsonItemType::True;
                item.value = String::from_str("true");
                proof {
                    reveal_strlit("true");
                    assert(item.value@ =~= seq!['t', 'r', 'u', 'e']);
                }
            } else {
                item.item_type = JsonItemType::False;
                item.value = String::from_str("false");
                proof {
                    reveal_strlit("false");
                    assert(item.value@ =~= seq!['f', 'a', 'l', 's', 'e']);
                }
            }
        },
        JsonValue::Number(num) => {
            item.item_type = JsonItemType::Number;
            item.value = num.clone();
        },
        JsonValue::String(val) => {
            item.item_type = JsonItemType::String;
            item.value = quote_json_string(val.as_str());
        },
        JsonValue::Array(arr) => {
            item.item_type = JsonItemType::Array;
            item.children = convert_items(arr, recursion_limit - 1)?;
        },
        JsonValue::Object(map) => {
            item.item_type = JsonItemType::Object;
            item.children = convert_props(map, recursion_limit - 1)?;
        },
    }
    if item.children.len() > 0 {
        assert(item.children@[0].complexity < recursion_limit - 1);
        let mut highest: usize = 0;
        let mut j: usize = 0;
        while j < item.children.len()
            invariant
                j <= item.children@.len(),
                highest == max_complexity(item.children@.take(j as int)),
                highest < recursion_limit - 1,
                forall|k: int|
                    0 <= k < item.children@.len() ==> #[trigger] item.children@[k].complexity
                        < recursion_limit - 1,
            decreases item.children@.len() - j,
        {
            assert(item.children@.take(j + 1).drop_last() =~= item.children@.take(j as int));
            if item.children[j].complexity > highest {
                highest = item.children[j].complexity;
            }
            j += 1;
        }
        assert(item.children@.take(item.children@.len() as int) =~= item.children@);
        item.complexity = highest + 1;
    }
    let ghost name = match prop_name {
        Some(n) => Some(n@),
        None => None,
    };
    assert(bare(item));
    assert(item.name@ == (match name {
        Some(n) => quoted(n),
        None => Seq::<char>::empty(),
    }));
    assert(item.complexity == (if item.children@.len() == 0 {
        0
    } else {
        max_complexity(item.children@) + 1
    }));
    assert(dom_of(*element, name, item));
    Ok(Some(item))
}

/// Converts the elements of an array, each with `child_limit` levels.
fn convert_items(arr: &Vec<JsonValue>, child_limit: usize) -> (r: Result<
    Vec<JsonItem>,
    FracturedJsonError,
>)
    ensures
        r is Err <==> max_depth(arr@) > child_limit,
        r matches Err(e) ==> e.message@ == depth_error_message() && e.input_position is None,
        r matches Ok(children) ==> doms_of_items(arr@, children@) && forall|j: int|
            0 <= j < children@.len() ==> #[trigger] children@[j].complexity < child_limit,
    decreases 1 + max_depth(arr@), 0nat,
{
    let mut children: Vec<JsonItem> = Vec::new();
    let mut i: usize = 0;
    while i < arr.len()
        invariant
            i <= arr@.len(),
            children@.len() == i,
            doms_of_items(arr@.take(i as int), children@),
            max_depth(arr@.take(i as int)) <= child_limit,
            forall|j: int| 0 <= j < i ==> #[trigger] children@[j].complexity < child_limit,
        decreases arr@.len() - i,
    {
        proof {
            lemma_max_depth_at_least(arr@, i as int);
            assert(arr@.take(i + 1).drop_last() =~= arr@.take(i as int));
            assert(arr@.take(i + 1).last() == arr@[i as int]);
        }
        match convert_value_to_dom(&arr[i], None, child_limit) {
            Ok(Some(child_item)) => {
                let ghost before = children@;
                children.push(child_item);
                proof {
                    assert(children@.drop_last() =~= before);
                }
            },
            Ok(None) => {
                assert(false);
            },
            Err(e) => {
                return Err(e);
            },
        }
        i += 1;
    }
    proof {
        assert(arr@.take(arr@.len() as int) =~= arr@);
    }
    Ok(children)
}

/// Converts the properties of an object, each with `child_limit` levels.
fn convert_props(map: &Vec<(String, JsonValue)>, child_limit: usize) -> (r: Result<
    Vec<JsonItem>,
    FracturedJsonError,
>)
    ensures
        r is Err <==> max_prop_depth(map@) > child_limit,
        r matches Err(e) ==> e.message@ == depth_error_message() && e.input_position is None,
        r matches Ok(children) ==> doms_of_props(map@, children@) && forall|j: int|
            0 <= j < children@.len() ==> #[trigger] children@[j].complexity < child_limit,
    decreases 1 + max_prop_depth(map@), 0nat,
{
    let mut children: Vec<JsonItem> = Vec::new();
    let mut i: usize = 0;
    while i < map.len()
        invariant
            i <= map@.len(),
            children@.len() == i,
            doms_of_props(map@.take(i as int), children@),
            max_prop_depth(map@.take(i as int)) <= child_limit,
            forall|j: int| 0 <= j < i ==> #[trigger] children@[j].complexity < child_limit,
        decreases map@.len() - i,
    {
        proof {
            lemma_max_prop_depth_at_least(map@, i as int);
            assert(map@.take(i + 1).drop_last() =~= map@.take(i as int));
            assert(map@.take(i + 1).last() == map@[i as int]);
        }
        let key = &map[i].0;
        let value = &map[i].1;
        match convert_value_to_dom(value, Some(key.as_str()), child_limit) {
            Ok(Some(child_item)) => {
                let ghost before = children@;
                children.push(child_item);
                proof {
                    assert(children@.drop_last() =~= before);
                }
            },
            Ok(None) => {
                assert(false);
            },
            Err(e) => {
                return Err(e);
            },
        }
        i += 1;
    }
    proof {
        assert(map@.take(map@.len() as int) =~= map@);
    }
    Ok(children)
}

proof fn lemma_max_depth_at_least(vs: Seq<JsonValue>, i: int)
    requires
        0 <= i < vs.len(),
    ensures
        max_depth(vs) >= value_depth(vs[i]),
    decreases vs.len(),
{
    if i < vs.len() - 1 {
        lemma_max_depth_at_least(vs.drop_last(), i);
    }
}

proof fn lemma_max_prop_depth_at_least(ps: Seq<(String, JsonValue)>, i: int)
    requires
        0 <= i < ps.len(),
    ensures
        max_prop_depth(ps) >= value_depth(ps[i].1),
    decreases ps.len(),
{
    if i < ps.len() - 1 {
        lemma_max_prop_depth_at_least(ps.drop_last(), i);
    }
}

} // verus!
