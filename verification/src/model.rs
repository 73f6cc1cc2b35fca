//! The document model: token and item kinds, positions, tokens and items.

use vstd::prelude::*;

verus! {

/// The type of a JSON element.
///
/// Besides the standard JSON kinds (null, booleans, strings, numbers, objects,
/// arrays) it covers the extended kinds used for comment support.
#[derive(Debug, Clone, Copy, PartialEq, Eq, Structural)]
pub enum JsonItemType {
    /// JSON `null` value.
    Null,
    /// JSON `false` boolean.
    False,
    /// JSON `true` boolean.
    True,
    /// A JSON string value.
    String,
    /// A JSON number value.
    Number,
    /// A JSON object (`{}`).
    Object,
    /// A JSON array (`[]`).
    Array,
    /// A blank line (when `preserve_blank_lines` is enabled).
    BlankLine,
    /// A line comment (`// ...`).
    LineComment,
    /// A block comment (`/* ... */`).
    BlockComment,
}

/// The kinds of token the tokenizer produces.
#[derive(Debug, Clone, Copy, PartialEq, Eq, Structural)]
pub enum TokenType {
    BeginArray,
    EndArray,
    BeginObject,
    EndObject,
    String,
    Number,
    Null,
    True,
    False,
    BlockComment,
    LineComment,
    BlankLine,
    Comma,
    Colon,
}

/// How a container's brackets are padded: empty containers, containers of
/// simple values, and containers that nest other containers.
#[derive(Debug, Clone, Copy, PartialEq, Eq, Structural)]
pub enum BracketPaddingType {
    Empty,
    Simple,
    Complex,
}

impl BracketPaddingType {
    /// The slot of this kind in a three-entry table.
    pub open spec fn spec_index(self) -> int {
        match self {
            BracketPaddingType::Empty => 0,
            BracketPaddingType::Simple => 1,
            BracketPaddingType::Complex => 2,
        }
    }

    pub fn index(self) -> (i: usize)
        ensures
            i == self.spec_index(),
    {
        match self {
            BracketPaddingType::Empty => 0,
            BracketPaddingType::Simple => 1,
            BracketPaddingType::Complex => 2,
        }
    }
}

/// The kind of values found in one column of a table.
#[derive(Debug, Clone, Copy, PartialEq, Eq, Structural)]
pub enum TableColumnType {
    Unknown,
    Simple,
    Number,
    Array,
    Object,
    Mixed,
}

/// A position within the JSON input text. All values are zero-indexed.
#[derive(Debug, Clone, Copy, PartialEq, Eq, Structural)]
pub struct InputPosition {
    /// Byte offset (in UTF-8) from the start of the input.
    pub index: usize,
    /// Line number (the first line is 0).
    pub row: usize,
    /// Column number within the line.
    pub column: usize,
}

/// One token of the input: its kind, its text and where it starts.
#[derive(Debug, PartialEq, Eq)]
pub struct JsonToken {
    pub token_type: TokenType,
    pub text: String,
    pub input_position: InputPosition,
}

impl Clone for JsonToken {
    fn clone(&self) -> (r: Self)
        ensures
            r == *self,
    {
        JsonToken {
            token_type: self.token_type,
            text: self.text.clone(),
            input_position: self.input_position,
        }
    }
}

/// One element of the document model: a value (with its children for
/// containers), a comment or a blank line, with the comments attached to it
/// and the lengths measured for layout.
#[derive(Debug)]
pub struct JsonItem {
    pub item_type: JsonItemType,
    pub input_position: InputPosition,
    pub complexity: usize,
    pub name: String,
    pub value: String,
    pub prefix_comment: String,
    pub middle_comment: String,
    pub middle_comment_has_new_line: bool,
    pub postfix_comment: String,
    pub is_post_comment_line_style: bool,
    pub name_length: usize,
    pub value_length: usize,
    pub prefix_comment_length: usize,
    pub middle_comment_length: usize,
    pub postfix_comment_length: usize,
    pub minimum_total_length: usize,
    pub requires_multiple_lines: bool,
    pub children: Vec<JsonItem>,
}

impl Clone for JsonItem {
    fn clone(&self) -> (r: Self)
        decreases self,
    {
        let mut children: Vec<JsonItem> = Vec::new();
        let n = self.children.len();
        for i in 0..n
            invariant
                n == self.children@.len(),
        {
            proof {
                assert(decreases_to!(self => self.children));
                assert(decreases_to!(self.children => self.children@));
                assert(decreases_to!(self.children@ => self.children@[i as int]));
            }
            let c = self.children[i].clone();
            children.push(c);
        }
        JsonItem {
            item_type: self.item_type,
            input_position: self.input_position,
            complexity: self.complexity,
            name: self.name.clone(),
            value: self.value.clone(),
            prefix_comment: self.prefix_comment.clone(),
            middle_comment: self.middle_comment.clone(),
            middle_comment_has_new_line: self.middle_comment_has_new_line,
            postfix_comment: self.postfix_comment.clone(),
            is_post_comment_line_style: self.is_post_comment_line_style,
            name_length: self.name_length,
            value_length: self.value_length,
            prefix_comment_length: self.prefix_comment_length,
            middle_comment_length: self.middle_comment_length,
            postfix_comment_length: self.postfix_comment_length,
            minimum_total_length: self.minimum_total_length,
            requires_multiple_lines: self.requires_multiple_lines,
            children,
        }
    }
}

/// Comments and blank lines, as opposed to values.
pub open spec fn is_comment_or_blank(t: JsonItemType) -> bool {
    t == JsonItemType::BlankLine || t == JsonItemType::BlockComment || t
        == JsonItemType::LineComment
}

/// The zero position.
pub open spec fn origin() -> InputPosition {
    InputPosition { index: 0, row: 0, column: 0 }
}

impl JsonItem {
    /// The item that `default` gives: a `null` with every text empty,
    /// every length zero and no children.
    pub open spec fn is_default(self) -> bool {
        &&& self.item_type == JsonItemType::Null
        &&& self.input_position == origin()
        &&& self.complexity == 0
        &&& self.name@.len() == 0
        &&& self.value@.len() == 0
        &&& self.prefix_comment@.len() == 0
        &&& self.middle_comment@.len() == 0
        &&& !self.middle_comment_has_new_line
        &&& self.postfix_comment@.len() == 0
        &&& !self.is_post_comment_line_style
        &&& self.name_length == 0
        &&& self.value_length == 0
        &&& self.prefix_comment_length == 0
        &&& self.middle_comment_length == 0
        &&& self.postfix_comment_length == 0
        &&& self.minimum_total_length == 0
        &&& !self.requires_multiple_lines
        &&& self.children@.len() == 0
    }
}

impl Default for JsonItem {
    fn default() -> (r: Self)
        ensures
            r.is_default(),
    {
        JsonItem {
            item_type: JsonItemType::Null,
            input_position: InputPosition { index: 0, row: 0, column: 0 },
            complexity: 0,
            name: String::new(),
            value: String::new(),
            prefix_comment: String::new(),
            middle_comment: String::new(),
            middle_comment_has_new_line: false,
            postfix_comment: String::new(),
            is_post_comment_line_style: false,
            name_length: 0,
            value_length: 0,
            prefix_comment_length: 0,
            middle_comment_length: 0,
            postfix_comment_length: 0,
            minimum_total_length: 0,
            requires_multiple_lines: false,
            children: Vec::new(),
        }
    }
}

} // verus!
