//! What the parser builds from a sequence of tokens, as a function of the
//! tokens and the options.

use vstd::prelude::*;
use crate::model::{is_comment_or_blank, origin, InputPosition, JsonItem, JsonItemType, TokenType};
use crate::options::{CommentPolicy, FracturedJsonOptions};

verus! {

/// A token as plain values: its kind, its text and its position.
pub type TokView = (TokenType, Seq<char>, InputPosition);

/// Why tokens make no document: a message and the position it names.
pub type ParseError = (Seq<char>, InputPosition);

/// Where a value read from the tokens ends: the index of the token after
/// it (0 when the tokens make no value).
pub open spec fn end_of(r: Result<(ItemView, int), ParseError>) -> int {
    match r {
        Ok((_, j)) => j,
        Err(_) => 0,
    }
}

/// An item of the document model as plain values: its kind, position,
/// complexity, name, value, comments and children.
pub struct ItemView {
    pub item_type: JsonItemType,
    pub input_position: InputPosition,
    pub complexity: nat,
    pub name: Seq<char>,
    pub value: Seq<char>,
    pub prefix_comment: Seq<char>,
    pub middle_comment: Seq<char>,
    pub middle_comment_has_new_line: bool,
    pub postfix_comment: Seq<char>,
    pub is_post_comment_line_style: bool,
    pub children: Seq<ItemView>,
}

/// The item `it` as plain values.
pub open spec fn item_view(it: JsonItem) -> ItemView
    decreases it, 1int,
{
    proof {
        assert(decreases_to!(it => it.children));
        assert(decreases_to!(it.children => it.children@));
    }
    ItemView {
        item_type: it.item_type,
        input_position: it.input_position,
        complexity: it.complexity as nat,
        name: it.name@,
        value: it.value@,
        prefix_comment: it.prefix_comment@,
        middle_comment: it.middle_comment@,
        middle_comment_has_new_line: it.middle_comment_has_new_line,
        postfix_comment: it.postfix_comment@,
        is_post_comment_line_style: it.is_post_comment_line_style,
        children: items_view(it.children@),
    }
}

/// The items `s` as plain values.
pub open spec fn items_view(s: Seq<JsonItem>) -> Seq<ItemView>
    decreases s, 0int,
{
    if s.len() == 0 {
        Seq::empty()
    } else {
        proof {
            assert(decreases_to!(s => s[s.len() - 1]));
        }
        items_view(s.drop_last()).push(item_view(s[s.len() - 1]))
    }
}

/// The view of a list has one view per item, in order.
pub proof fn lemma_items_view(s: Seq<JsonItem>)
    ensures
        items_view(s).len() == s.len(),
        forall|i: int| 0 <= i < s.len() ==> #[trigger] items_view(s)[i] == item_view(s[i]),
    decreases s.len(),
{
    if s.len() > 0 {
        lemma_items_view(s.drop_last());
        assert forall|i: int| 0 <= i < s.len() implies #[trigger] items_view(s)[i] == item_view(
            s[i],
        ) by {
            if i < s.len() - 1 {
                assert(s.drop_last()[i] == s[i]);
            }
        }
    }
}

/// Adding an item to a list adds its view to the list's view.
pub proof fn lemma_items_view_push(s: Seq<JsonItem>, x: JsonItem)
    ensures
        items_view(s.push(x)) == items_view(s).push(item_view(x)),
{
    assert(s.push(x).drop_last() =~= s);
}

/// Replacing an item replaces its view.
pub proof fn lemma_items_view_update(s: Seq<JsonItem>, i: int, x: JsonItem)
    requires
        0 <= i < s.len(),
    ensures
        items_view(s.update(i, x)) == items_view(s).update(i, item_view(x)),
{
    lemma_items_view(s);
    lemma_items_view(s.update(i, x));
    assert(items_view(s.update(i, x)) =~= items_view(s).update(i, item_view(x)));
}

/// Joining lists joins their views.
pub proof fn lemma_items_view_append(a: Seq<JsonItem>, b: Seq<JsonItem>)
    ensures
        items_view(a + b) == items_view(a) + items_view(b),
{
    lemma_items_view(a);
    lemma_items_view(b);
    lemma_items_view(a + b);
    assert(items_view(a + b) =~= items_view(a) + items_view(b));
}

/// Dropping the last item drops the last view.
pub proof fn lemma_items_view_drop_last(s: Seq<JsonItem>)
    requires
        s.len() > 0,
    ensures
        items_view(s.drop_last()) == items_view(s).drop_last(),
        items_view(s).last() == item_view(s.last()),
{
    lemma_items_view(s);
    lemma_items_view(s.drop_last());
    assert(items_view(s.drop_last()) =~= items_view(s).drop_last());
}

/// How complex a container is from the views of its children: one more
/// than the deepest value among them, comments and blank lines aside; 0
/// without values.
pub open spec fn views_complexity(children: Seq<ItemView>) -> nat
    decreases children.len(),
{
    if children.len() == 0 {
        0
    } else {
        let rest = views_complexity(children.drop_last());
        let last = children.last();
        if is_comment_or_blank(last.item_type) || rest > last.complexity + 1 {
            rest
        } else {
            (last.complexity + 1) as nat
        }
    }
}

/// The item a token that stands alone makes: a value, comment or blank
/// line with the token's text.
pub open spec fn simple_view(t: TokView) -> ItemView {
    ItemView {
        item_type: simple_kind(t.0),
        input_position: t.2,
        complexity: 0,
        name: Seq::empty(),
        value: t.1,
        prefix_comment: Seq::empty(),
        middle_comment: Seq::empty(),
        middle_comment_has_new_line: false,
        postfix_comment: Seq::empty(),
        is_post_comment_line_style: false,
        children: Seq::empty(),
    }
}

/// The kind of item a token that stands alone makes.
pub open spec fn simple_kind(t: TokenType) -> JsonItemType {
    match t {
        TokenType::False => JsonItemType::False,
        TokenType::True => JsonItemType::True,
        TokenType::Null => JsonItemType::Null,
        TokenType::Number => JsonItemType::Number,
        TokenType::String => JsonItemType::String,
        TokenType::BlankLine => JsonItemType::BlankLine,
        TokenType::BlockComment => JsonItemType::BlockComment,
        TokenType::LineComment => JsonItemType::LineComment,
        _ => JsonItemType::Null,
    }
}

/// A container of kind `kind` at `pos` with the children `children`.
pub open spec fn container_view(
    kind: JsonItemType,
    pos: InputPosition,
    children: Seq<ItemView>,
) -> ItemView {
    ItemView {
        item_type: kind,
        input_position: pos,
        complexity: views_complexity(children),
        name: Seq::empty(),
        value: Seq::empty(),
        prefix_comment: Seq::empty(),
        middle_comment: Seq::empty(),
        middle_comment_has_new_line: false,
        postfix_comment: Seq::empty(),
        is_post_comment_line_style: false,
        children,
    }
}

/// How far an array's elements have come: none yet, one just written,
/// or a comma after one.
#[derive(Debug, Clone, Copy, PartialEq, Eq, Structural)]
pub enum CommaStatus {
    EmptyCollection,
    ElementSeen,
    CommaSeen,
}

/// Where an object's property stands: before its name, after its name,
/// after the colon, after its value, or after the comma that follows.
#[derive(Debug, Clone, Copy, PartialEq, Eq, Structural)]
pub enum ObjectPhase {
    BeforePropName,
    AfterPropName,
    AfterColon,
    AfterPropValue,
    AfterComma,
}

/// `list` with the item at `i` given the postfix comment `text` (a line
/// comment when `line_style`); unchanged when `i` is out of range.
pub open spec fn set_post(list: Seq<ItemView>, i: int, text: Seq<char>, line_style: bool) -> Seq<
    ItemView,
> {
    if 0 <= i < list.len() {
        list.update(
            i,
            ItemView { postfix_comment: text, is_post_comment_line_style: line_style, ..list[i] },
        )
    } else {
        list
    }
}

/// The state of an array being read: the children so far, how far the
/// elements have come, the element that may still get a postfix comment
/// and the row its value ended on, and a comment not yet placed.
pub struct ArrSt {
    pub list: Seq<ItemView>,
    pub comma: CommaStatus,
    pub idx: Option<int>,
    pub end_row: isize,
    pub unplaced: Option<ItemView>,
}

/// The state of an array just after its `[`.
pub open spec fn arr_start() -> ArrSt {
    ArrSt {
        list: Seq::empty(),
        comma: CommaStatus::EmptyCollection,
        idx: None,
        end_row: -1isize,
        unplaced: None,
    }
}

/// What reading the token `tok` first does to an array: a comment not yet
/// placed goes to the element waiting for a postfix comment (or becomes a
/// child) when the token is on another row or ends the array, and an
/// element stops waiting once a token on another row comes.
pub open spec fn arr_home(st: ArrSt, tok: TokView) -> ArrSt {
    let needs = st.unplaced matches Some(c) && (c.input_position.row != tok.2.row || tok.0
        == TokenType::EndArray);
    let st1 = if needs {
        let c = st.unplaced->0;
        match st.idx {
            Some(i) => ArrSt {
                list: set_post(st.list, i, c.value, c.item_type == JsonItemType::LineComment),
                unplaced: None,
                ..st
            },
            None => ArrSt { list: st.list.push(c), unplaced: None, ..st },
        }
    } else {
        st
    };
    if st1.idx is Some && st1.end_row != (tok.2.row as isize) {
        ArrSt { idx: None, ..st1 }
    } else {
        st1
    }
}

/// The value that starts at token `k` of `toks`, and the index of the token
/// after it: a container read as `array_from` or `object_from` say, any
/// other token that is no punctuation as an item by itself; `None` when
/// the tokens there make no value.
pub open spec fn value_at(toks: Seq<TokView>, k: int, opts: FracturedJsonOptions) -> Result<(ItemView, int), ParseError>
    decreases toks.len() - k, 0int,
{
    if k < 0 || k >= toks.len() {
        Err(("Unexpected Token"@, origin()))
    } else {
        let t = toks[k];
        if t.0 == TokenType::BeginArray {
            array_from(toks, k + 1, arr_start(), opts, t.2)
        } else if t.0 == TokenType::BeginObject {
            object_from(toks, k + 1, obj_start(), opts, t.2)
        } else if t.0 == TokenType::EndArray || t.0 == TokenType::EndObject || t.0
            == TokenType::Comma || t.0 == TokenType::Colon {
            Err(("Unexpected Token"@, t.2))
        } else {
            Ok((simple_view(t), k + 1))
        }
    }
}

/// The rest of an array from token `k` on, in the state `st`, for the
/// array that opened at `pos`: the array and the index of the token after
/// its `]`, or `None` when the tokens make no array under the options.
pub open spec fn array_from(
    toks: Seq<TokView>,
    k: int,
    st: ArrSt,
    opts: FracturedJsonOptions,
    pos: InputPosition,
) -> Result<(ItemView, int), ParseError>
    decreases toks.len() - k, 1int,
{
    if k < 0 || k >= toks.len() {
        Err(("Unexpected end of input while processing array or object starting"@, pos))
    } else {
        let tok = toks[k];
        let s = arr_home(st, tok);
        let remove = opts.comment_policy == CommentPolicy::Remove;
        let refuse = opts.comment_policy == CommentPolicy::TreatAsError;
        if tok.0 == TokenType::EndArray {
            if s.comma == CommaStatus::CommaSeen && !opts.allow_trailing_commas {
                Err(("Array may not end with a comma with current options"@, tok.2))
            } else {
                Ok((container_view(JsonItemType::Array, pos, s.list), k + 1))
            }
        } else if tok.0 == TokenType::Comma {
            if s.comma != CommaStatus::ElementSeen {
                Err(("Unexpected comma in array"@, tok.2))
            } else {
                array_from(toks, k + 1, ArrSt { comma: CommaStatus::CommaSeen, ..s }, opts, pos)
            }
        } else if tok.0 == TokenType::BlankLine {
            let s1 = if opts.preserve_blank_lines {
                ArrSt { list: s.list.push(simple_view(tok)), ..s }
            } else {
                s
            };
            array_from(toks, k + 1, s1, opts, pos)
        } else if tok.0 == TokenType::BlockComment {
            if remove {
                array_from(toks, k + 1, s, opts, pos)
            } else if refuse {
                Err(("Comments not allowed with current options"@, tok.2))
            } else {
                let s1 = match s.unplaced {
                    Some(c) => ArrSt { list: s.list.push(c), unplaced: None, ..s },
                    None => s,
                };
                if tok.1.contains('\n') {
                    array_from(
                        toks,
                        k + 1,
                        ArrSt { list: s1.list.push(simple_view(tok)), ..s1 },
                        opts,
                        pos,
                    )
                } else if s1.idx is Some && s1.comma == CommaStatus::ElementSeen {
                    array_from(
                        toks,
                        k + 1,
                        ArrSt { list: set_post(s1.list, s1.idx->0, tok.1, false), idx: None, ..s1 },
                        opts,
                        pos,
                    )
                } else {
                    array_from(
                        toks,
                        k + 1,
                        ArrSt { unplaced: Some(simple_view(tok)), ..s1 },
                        opts,
                        pos,
                    )
                }
            }
        } else if tok.0 == TokenType::LineComment {
            if remove {
                array_from(toks, k + 1, s, opts, pos)
            } else if refuse {
                Err(("Comments not allowed with current options"@, tok.2))
            } else if s.unplaced is Some {
                array_from(
                    toks,
                    k + 1,
                    ArrSt {
                        list: s.list.push(s.unplaced->0).push(simple_view(tok)),
                        unplaced: None,
                        ..s
                    },
                    opts,
                    pos,
                )
            } else if s.idx is Some {
                array_from(
                    toks,
                    k + 1,
                    ArrSt { list: set_post(s.list, s.idx->0, tok.1, true), idx: None, ..s },
                    opts,
                    pos,
                )
            } else {
                array_from(toks, k + 1, ArrSt { list: s.list.push(simple_view(tok)), ..s }, opts, pos)
            }
        } else if tok.0 == TokenType::False || tok.0 == TokenType::True || tok.0 == TokenType::Null
            || tok.0 == TokenType::String || tok.0 == TokenType::Number || tok.0
            == TokenType::BeginArray || tok.0 == TokenType::BeginObject {
            if s.comma == CommaStatus::ElementSeen {
                Err(("Comma missing while processing array"@, tok.2))
            } else {
                match value_at(toks, k, opts) {
                    Err(e) => Err(e),
                    Ok((v, j)) => if j <= k || j > toks.len() {
                        Err(("Unexpected token in array"@, tok.2))
                    } else {
                        let v2 = match s.unplaced {
                            Some(u) => ItemView { prefix_comment: u.value, ..v },
                            None => v,
                        };
                        let list = s.list.push(v2);
                        array_from(
                            toks,
                            j,
                            ArrSt {
                                list,
                                comma: CommaStatus::ElementSeen,
                                idx: Some(list.len() - 1),
                                end_row: toks[j - 1].2.row as isize,
                                unplaced: None,
                            },
                            opts,
                            pos,
                        )
                    },
                }
            }
        } else {
            Err(("Unexpected token in array"@, tok.2))
        }
    }
}

/// The middle comment made of the first `k` of the comment tokens `ms`:
/// their texts in order, each followed by a line break unless it is the
/// last, which gets one only when it is a line comment.
pub open spec fn mid_upto(ms: Seq<TokView>, k: int) -> Seq<char>
    decreases k,
{
    if k <= 0 {
        Seq::empty()
    } else {
        mid_upto(ms, k - 1) + ms[k - 1].1 + (if k - 1 < ms.len() - 1 || ms[k - 1].0
            == TokenType::LineComment {
            seq!['\n']
        } else {
            Seq::empty()
        })
    }
}

/// The property `v` named `name` as it is attached: with the middle comment
/// made of `ms` (when there are any), the prefix comment `prefix` and the
/// postfix comment `post` (its text, and whether it is a line comment),
/// when given.
pub open spec fn attached_view(
    v: ItemView,
    name: Seq<char>,
    ms: Seq<TokView>,
    prefix: Option<Seq<char>>,
    post: Option<(Seq<char>, bool)>,
) -> ItemView {
    ItemView {
        name,
        middle_comment: if ms.len() > 0 {
            mid_upto(ms, ms.len() as int)
        } else {
            v.middle_comment
        },
        middle_comment_has_new_line: if ms.len() > 0 {
            mid_upto(ms, ms.len() as int).contains('\n')
        } else {
            v.middle_comment_has_new_line
        },
        prefix_comment: match prefix {
            Some(p) => p,
            None => v.prefix_comment,
        },
        postfix_comment: match post {
            Some(p) => p.0,
            None => v.postfix_comment,
        },
        is_post_comment_line_style: match post {
            Some(p) => p.1,
            None => v.is_post_comment_line_style,
        },
        ..v
    }
}

/// The children after a property: the comments before it (the last one
/// becomes its prefix comment when it is a block comment on its row), the
/// property with its name and middle comment, and the comment after it
/// (as its postfix comment when it ends on the row the value ends on and
/// is not a comment spanning lines, else as a child of its own).
#[verifier::opaque]
pub open spec fn attach_view(
    list: Seq<ItemView>,
    name: Seq<char>,
    v: ItemView,
    value_end: isize,
    before: Seq<ItemView>,
    ms: Seq<TokView>,
    after: Option<ItemView>,
) -> Seq<ItemView> {
    let merged = before.len() > 0 && before.last().item_type == JsonItemType::BlockComment
        && before.last().input_position.row == v.input_position.row;
    let list1 = if merged {
        list + before.drop_last()
    } else {
        list + before
    };
    let attach = after matches Some(a) && !(a.item_type == JsonItemType::BlockComment
        && a.value.contains('\n')) && a.input_position.row as isize == value_end;
    let el = attached_view(
        v,
        name,
        ms,
        if merged {
            Some(before.last().value)
        } else {
            None
        },
        if attach {
            Some((after->0.value, after->0.item_type == JsonItemType::LineComment))
        } else {
            None
        },
    );
    if !attach && after is Some {
        list1.push(el).push(after->0)
    } else {
        list1.push(el)
    }
}

/// The state of an object being read: the children so far, the property
/// being read (its name token, its value and the row its value ended on),
/// the comments before it, between its name and value and after it, and
/// where it stands.
pub struct ObjSt {
    pub list: Seq<ItemView>,
    pub name: Option<TokView>,
    pub value: Option<ItemView>,
    pub value_end: isize,
    pub before: Seq<ItemView>,
    pub mids: Seq<TokView>,
    pub after: Option<ItemView>,
    pub after_was_after_comma: bool,
    pub phase: ObjectPhase,
}

/// The state of an object just after its `{`.
pub open spec fn obj_start() -> ObjSt {
    ObjSt {
        list: Seq::empty(),
        name: None,
        value: None,
        value_end: -1isize,
        before: Seq::empty(),
        mids: Seq::empty(),
        after: None,
        after_was_after_comma: false,
        phase: ObjectPhase::BeforePropName,
    }
}

/// What reading the token `tok` first does to an object: a complete
/// property is attached to the children when the token is on another row,
/// ends the object, starts the next property or is a second comment after
/// it; a comment after the comma on the row of the next name is kept for
/// that property.
pub open spec fn obj_flush(st: ObjSt, tok: TokView) -> ObjSt {
    let is_new_line = st.value_end != (tok.2.row as isize);
    let starting_next = tok.0 == TokenType::String && st.phase == ObjectPhase::AfterComma;
    let excess = st.after is Some && (tok.0 == TokenType::BlockComment || tok.0
        == TokenType::LineComment);
    if st.name is Some && st.value is Some && (is_new_line || tok.0 == TokenType::EndObject
        || starting_next || excess) {
        let hold = starting_next && st.after_was_after_comma && !is_new_line;
        let after_c = if hold {
            None
        } else {
            st.after
        };
        ObjSt {
            list: attach_view(
                st.list,
                (st.name->0).1,
                st.value->0,
                st.value_end,
                st.before,
                st.mids,
                after_c,
            ),
            name: None,
            value: None,
            before: if hold && st.after is Some {
                seq![st.after->0]
            } else {
                Seq::empty()
            },
            mids: Seq::empty(),
            after: None,
            ..st
        }
    } else {
        st
    }
}

/// The rest of an object from token `k` on, in the state `st`, for the
/// object that opened at `pos`: the object and the index of the token
/// after its `}`, or `None` when the tokens make no object under the
/// options.
pub open spec fn object_from(
    toks: Seq<TokView>,
    k: int,
    st: ObjSt,
    opts: FracturedJsonOptions,
    pos: InputPosition,
) -> Result<(ItemView, int), ParseError>
    decreases toks.len() - k, 1int,
{
    if k < 0 || k >= toks.len() {
        Err(("Unexpected end of input while processing array or object starting"@, pos))
    } else {
        let tok = toks[k];
        let s = obj_flush(st, tok);
        let naming = s.phase == ObjectPhase::AfterPropName || s.phase == ObjectPhase::AfterColon;
        if tok.0 == TokenType::BlankLine {
            if !opts.preserve_blank_lines || naming {
                object_from(toks, k + 1, s, opts, pos)
            } else {
                object_from(
                    toks,
                    k + 1,
                    ObjSt { list: (s.list + s.before).push(simple_view(tok)), before: Seq::empty(), ..s },
                    opts,
                    pos,
                )
            }
        } else if tok.0 == TokenType::BlockComment || tok.0 == TokenType::LineComment {
            if opts.comment_policy == CommentPolicy::Remove {
                object_from(toks, k + 1, s, opts, pos)
            } else if opts.comment_policy == CommentPolicy::TreatAsError {
                Err(("Comments not allowed with current options"@, tok.2))
            } else if s.phase == ObjectPhase::BeforePropName || s.name is None {
                object_from(toks, k + 1, ObjSt { before: s.before.push(simple_view(tok)), ..s }, opts, pos)
            } else if naming {
                object_from(toks, k + 1, ObjSt { mids: s.mids.push(tok), ..s }, opts, pos)
            } else {
                object_from(
                    toks,
                    k + 1,
                    ObjSt {
                        after: Some(simple_view(tok)),
                        after_was_after_comma: s.phase == ObjectPhase::AfterComma,
                        ..s
                    },
                    opts,
                    pos,
                )
            }
        } else if tok.0 == TokenType::EndObject {
            if naming {
                Err(("Unexpected end of object"@, tok.2))
            } else if !opts.allow_trailing_commas && s.phase == ObjectPhase::AfterComma {
                Err(("Object may not end with comma with current options"@, tok.2))
            } else {
                Ok((container_view(JsonItemType::Object, pos, s.list + s.before), k + 1))
            }
        } else if tok.0 == TokenType::String && (s.phase == ObjectPhase::BeforePropName || s.phase
            == ObjectPhase::AfterComma) {
            object_from(
                toks,
                k + 1,
                ObjSt { name: Some(tok), phase: ObjectPhase::AfterPropName, ..s },
                opts,
                pos,
            )
        } else if tok.0 == TokenType::String || tok.0 == TokenType::False || tok.0
            == TokenType::True || tok.0 == TokenType::Null || tok.0 == TokenType::Number || tok.0
            == TokenType::BeginArray || tok.0 == TokenType::BeginObject {
            if s.phase != ObjectPhase::AfterColon {
                if tok.0 == TokenType::String {
                    Err(("Unexpected string found while processing object"@, tok.2))
                } else {
                    Err(("Unexpected element while processing object"@, tok.2))
                }
            } else {
                match value_at(toks, k, opts) {
                    Err(e) => Err(e),
                    Ok((v, j)) => if j <= k || j > toks.len() {
                        Err(("Unexpected token while processing object"@, tok.2))
                    } else {
                        object_from(
                            toks,
                            j,
                            ObjSt {
                                value: Some(v),
                                value_end: toks[j - 1].2.row as isize,
                                phase: ObjectPhase::AfterPropValue,
                                ..s
                            },
                            opts,
                            pos,
                        )
                    },
                }
            }
        } else if tok.0 == TokenType::Colon {
            if s.phase != ObjectPhase::AfterPropName {
                Err(("Unexpected colon while processing object"@, tok.2))
            } else {
                object_from(toks, k + 1, ObjSt { phase: ObjectPhase::AfterColon, ..s }, opts, pos)
            }
        } else if tok.0 == TokenType::Comma {
            if s.phase != ObjectPhase::AfterPropValue {
                Err(("Unexpected comma while processing object"@, tok.2))
            } else {
                object_from(toks, k + 1, ObjSt { phase: ObjectPhase::AfterComma, ..s }, opts, pos)
            }
        } else {
            Err(("Unexpected token while processing object"@, tok.2))
        }
    }
}

/// The top-level items from token `k` on, after `items` (with a value
/// among them when `seen`): each item as `value_at` reads it; blank lines
/// kept when the options say so; comments kept, dropped or refused as
/// the comment policy says; and, when `stop` holds, a second value
/// refused.
pub open spec fn top_from(
    toks: Seq<TokView>,
    k: int,
    items: Seq<ItemView>,
    seen: bool,
    opts: FracturedJsonOptions,
    stop: bool,
) -> Result<Seq<ItemView>, ParseError>
    decreases toks.len() - k,
{
    if k < 0 || k >= toks.len() {
        Ok(items)
    } else {
        match value_at(toks, k, opts) {
            Err(e) => Err(e),
            Ok((v, j)) => if j <= k || j > toks.len() {
                Err(("Unexpected Token"@, toks[k].2))
            } else if v.item_type == JsonItemType::BlankLine {
                top_from(
                    toks,
                    j,
                    if opts.preserve_blank_lines {
                        items.push(v)
                    } else {
                        items
                    },
                    seen,
                    opts,
                    stop,
                )
            } else if v.item_type == JsonItemType::BlockComment || v.item_type
                == JsonItemType::LineComment {
                if opts.comment_policy == CommentPolicy::TreatAsError {
                    Err(("Comments not allowed with current options"@, v.input_position))
                } else if opts.comment_policy == CommentPolicy::Preserve {
                    top_from(toks, j, items.push(v), seen, opts, stop)
                } else {
                    top_from(toks, j, items, seen, opts, stop)
                }
            } else if stop && seen {
                Err(("Unexpected start of second top level element"@, v.input_position))
            } else {
                top_from(toks, j, items.push(v), true, opts, stop)
            },
        }
    }
}


/// A comment token kind.
pub open spec fn comment_kind(t: TokenType) -> bool {
    t == TokenType::BlockComment || t == TokenType::LineComment
}

/// No token in `toks` from `k` up to `j` is a comment.
pub open spec fn no_comment_between(toks: Seq<TokView>, k: int, j: int) -> bool {
    forall|i: int| k <= i < j ==> !comment_kind(#[trigger] toks[i].0)
}

/// With comments refused, a value read from the tokens spans no comment.
pub proof fn lemma_value_no_comment(toks: Seq<TokView>, k: int, opts: FracturedJsonOptions)
    requires
        opts.comment_policy == CommentPolicy::TreatAsError,
        value_at(toks, k, opts) is Ok,
        !comment_kind(toks[k].0),
    ensures
        no_comment_between(toks, k, end_of(value_at(toks, k, opts))),
    decreases toks.len() - k, 0int,
{
    let t = toks[k];
    if t.0 == TokenType::BeginArray {
        lemma_array_no_comment(toks, k + 1, arr_start(), opts, t.2);
    } else if t.0 == TokenType::BeginObject {
        lemma_object_no_comment(toks, k + 1, obj_start(), opts, t.2);
    }
}

/// With comments refused, the rest of an array spans no comment.
pub proof fn lemma_array_no_comment(
    toks: Seq<TokView>,
    k: int,
    st: ArrSt,
    opts: FracturedJsonOptions,
    pos: InputPosition,
)
    requires
        opts.comment_policy == CommentPolicy::TreatAsError,
        array_from(toks, k, st, opts, pos) is Ok,
    ensures
        no_comment_between(toks, k, end_of(array_from(toks, k, st, opts, pos))),
    decreases toks.len() - k, 1int,
{
    let tok = toks[k];
    let s = arr_home(st, tok);
    if tok.0 == TokenType::EndArray {
    } else if tok.0 == TokenType::Comma {
        lemma_array_no_comment(toks, k + 1, ArrSt { comma: CommaStatus::CommaSeen, ..s }, opts, pos);
    } else if tok.0 == TokenType::BlankLine {
        let s1 = if opts.preserve_blank_lines {
            ArrSt { list: s.list.push(simple_view(tok)), ..s }
        } else {
            s
        };
        lemma_array_no_comment(toks, k + 1, s1, opts, pos);
    } else if tok.0 == TokenType::BlockComment || tok.0 == TokenType::LineComment {
    } else {
        let (v, j) = value_at(toks, k, opts)->Ok_0;
        lemma_value_no_comment(toks, k, opts);
        let v2 = match s.unplaced {
            Some(u) => ItemView { prefix_comment: u.value, ..v },
            None => v,
        };
        let list = s.list.push(v2);
        lemma_array_no_comment(
            toks,
            j,
            ArrSt {
                list,
                comma: CommaStatus::ElementSeen,
                idx: Some(list.len() - 1),
                end_row: toks[j - 1].2.row as isize,
                unplaced: None,
            },
            opts,
            pos,
        );
    }
}

/// With comments refused, the rest of an object spans no comment.
pub proof fn lemma_object_no_comment(
    toks: Seq<TokView>,
    k: int,
    st: ObjSt,
    opts: FracturedJsonOptions,
    pos: InputPosition,
)
    requires
        opts.comment_policy == CommentPolicy::TreatAsError,
        object_from(toks, k, st, opts, pos) is Ok,
    ensures
        no_comment_between(toks, k, end_of(object_from(toks, k, st, opts, pos))),
    decreases toks.len() - k, 1int,
{
    let tok = toks[k];
    let s = obj_flush(st, tok);
    let naming = s.phase == ObjectPhase::AfterPropName || s.phase == ObjectPhase::AfterColon;
    if tok.0 == TokenType::BlankLine {
        if !opts.preserve_blank_lines || naming {
            lemma_object_no_comment(toks, k + 1, s, opts, pos);
        } else {
            lemma_object_no_comment(
                toks,
                k + 1,
                ObjSt { list: (s.list + s.before).push(simple_view(tok)), before: Seq::empty(), ..s },
                opts,
                pos,
            );
        }
    } else if tok.0 == TokenType::BlockComment || tok.0 == TokenType::LineComment {
    } else if tok.0 == TokenType::EndObject {
    } else if tok.0 == TokenType::String && (s.phase == ObjectPhase::BeforePropName || s.phase
        == ObjectPhase::AfterComma) {
        lemma_object_no_comment(
            toks,
            k + 1,
            ObjSt { name: Some(tok), phase: ObjectPhase::AfterPropName, ..s },
            opts,
            pos,
        );
    } else if tok.0 == TokenType::Colon {
        lemma_object_no_comment(toks, k + 1, ObjSt { phase: ObjectPhase::AfterColon, ..s }, opts, pos);
    } else if tok.0 == TokenType::Comma {
        lemma_object_no_comment(toks, k + 1, ObjSt { phase: ObjectPhase::AfterComma, ..s }, opts, pos);
    } else {
        let (v, j) = value_at(toks, k, opts)->Ok_0;
        lemma_value_no_comment(toks, k, opts);
        lemma_object_no_comment(
            toks,
            j,
            ObjSt {
                value: Some(v),
                value_end: toks[j - 1].2.row as isize,
                phase: ObjectPhase::AfterPropValue,
                ..s
            },
            opts,
            pos,
        );
    }
}

/// With comments refused, top-level items read from `k` on leave no
/// comment among the remaining tokens.
pub proof fn lemma_top_no_comment(
    toks: Seq<TokView>,
    k: int,
    items: Seq<ItemView>,
    seen: bool,
    opts: FracturedJsonOptions,
    stop: bool,
)
    requires
        opts.comment_policy == CommentPolicy::TreatAsError,
        0 <= k,
        top_from(toks, k, items, seen, opts, stop) is Ok,
    ensures
        no_comment_between(toks, k, toks.len() as int),
    decreases toks.len() - k,
{
    if k < toks.len() {
        let (v, j) = value_at(toks, k, opts)->Ok_0;
        assert(!comment_kind(toks[k].0));
        lemma_value_no_comment(toks, k, opts);
        if v.item_type == JsonItemType::BlankLine {
            lemma_top_no_comment(
                toks,
                j,
                if opts.preserve_blank_lines {
                    items.push(v)
                } else {
                    items
                },
                seen,
                opts,
                stop,
            );
        } else {
            lemma_top_no_comment(toks, j, items.push(v), true, opts, stop);
        }
    }
}


/// A value token that stands alone: a string, a number or a keyword.
pub open spec fn scalar_tok(t: TokView) -> bool {
    ||| t.0 == TokenType::String
    ||| t.0 == TokenType::Number
    ||| t.0 == TokenType::True
    ||| t.0 == TokenType::False
    ||| t.0 == TokenType::Null
}

/// A value token makes an item of its own kind holding its text, with no
/// name, comments or children.
pub proof fn scalar_tokens_make_items(t: TokView)
    requires
        scalar_tok(t),
    ensures
        simple_view(t).item_type == match t.0 {
            TokenType::String => JsonItemType::String,
            TokenType::Number => JsonItemType::Number,
            TokenType::True => JsonItemType::True,
            TokenType::False => JsonItemType::False,
            _ => JsonItemType::Null,
        },
        simple_view(t).value == t.1,
        simple_view(t).input_position == t.2,
        simple_view(t).name.len() == 0,
        simple_view(t).children.len() == 0,
        simple_view(t).prefix_comment.len() == 0,
        simple_view(t).postfix_comment.len() == 0,
{
}

/// The index of the `]` that closes a list of `n` values starting at token
/// `k`, with a comma after the last when `trailing`.
pub open spec fn scalar_list_close(k: int, n: int, trailing: bool) -> int {
    if n == 0 {
        k
    } else {
        k + 2 * n - 1 + if trailing {
            1int
        } else {
            0int
        }
    }
}

/// The tokens from `k` on are the value tokens `vals` with a comma between
/// each two, a comma after the last when `trailing`, and then `]`.
pub open spec fn scalar_list_at(
    toks: Seq<TokView>,
    k: int,
    vals: Seq<TokView>,
    trailing: bool,
) -> bool {
    let n = vals.len() as int;
    let close = scalar_list_close(k, n, trailing);
    &&& 0 <= k
    &&& (n == 0 ==> !trailing)
    &&& close < toks.len()
    &&& toks[close].0 == TokenType::EndArray
    &&& forall|i: int| 0 <= i < n ==> #[trigger] scalar_tok(vals[i])
    &&& forall|j: int|
        k <= j < close ==> if (j - k) % 2 == 0 {
            #[trigger] toks[j] == vals[(j - k) / 2]
        } else {
            toks[j].0 == TokenType::Comma
        }
}

/// What reading such a list gives: the array of the values, or the error
/// for a trailing comma that the options do not allow.
pub open spec fn scalar_list_result(
    toks: Seq<TokView>,
    k: int,
    vals: Seq<TokView>,
    trailing: bool,
    opts: FracturedJsonOptions,
    pos: InputPosition,
) -> Result<(ItemView, int), ParseError> {
    let close = scalar_list_close(k, vals.len() as int, trailing);
    if trailing && !opts.allow_trailing_commas {
        Err(("Array may not end with a comma with current options"@, toks[close].2))
    } else {
        Ok(
            (
                container_view(
                    JsonItemType::Array,
                    pos,
                    vals.map_values(|t: TokView| simple_view(t)),
                ),
                close + 1,
            ),
        )
    }
}

/// Reading the list after `i` of its values.
proof fn lemma_scalar_list_from(
    toks: Seq<TokView>,
    k: int,
    vals: Seq<TokView>,
    trailing: bool,
    opts: FracturedJsonOptions,
    pos: InputPosition,
    i: int,
    st: ArrSt,
)
    requires
        scalar_list_at(toks, k, vals, trailing),
        0 < i <= vals.len(),
        st.list == vals.take(i).map_values(|t: TokView| simple_view(t)),
        st.comma == CommaStatus::ElementSeen,
        st.unplaced is None,
    ensures
        array_from(toks, k + 2 * i - 1, st, opts, pos) == scalar_list_result(
            toks,
            k,
            vals,
            trailing,
            opts,
            pos,
        ),
    decreases vals.len() - i,
{
    let n = vals.len() as int;
    let close = scalar_list_close(k, n, trailing);
    let at = k + 2 * i - 1;
    let s = arr_home(st, toks[at]);
    assert(s.list == st.list && s.comma == st.comma && s.unplaced is None);
    if i == n {
        assert(vals.take(i) =~= vals);
        assert(st.list =~= vals.map_values(|t: TokView| simple_view(t)));
        if trailing {
            assert((at - k) % 2 == 1);
            assert(toks[at].0 == TokenType::Comma);
            assert(close == at + 1);
            let s2 = ArrSt { comma: CommaStatus::CommaSeen, ..s };
            let s3 = arr_home(s2, toks[at + 1]);
            assert(s3.list == s2.list && s3.comma == CommaStatus::CommaSeen);
            assert(array_from(toks, at, st, opts, pos) == array_from(toks, at + 1, s2, opts, pos));
        } else {
            assert(close == at);
        }
    } else {
        assert((at - k) % 2 == 1);
        assert(toks[at].0 == TokenType::Comma);
        let s2 = ArrSt { comma: CommaStatus::CommaSeen, ..s };
        let v = toks[at + 1];
        assert((at + 1 - k) % 2 == 0 && (at + 1 - k) / 2 == i);
        assert(v == vals[i]);
        assert(scalar_tok(vals[i]));
        let s3 = arr_home(s2, v);
        assert(s3.list == s2.list && s3.comma == CommaStatus::CommaSeen && s3.unplaced is None);
        assert(value_at(toks, at + 1, opts) == Ok::<(ItemView, int), ParseError>(
            (simple_view(v), at + 2),
        ));
        let list = s3.list.push(simple_view(v));
        assert(list =~= vals.take(i + 1).map_values(|t: TokView| simple_view(t)));
        let st4 = ArrSt {
            list,
            comma: CommaStatus::ElementSeen,
            idx: Some(list.len() - 1),
            end_row: toks[at + 1].2.row as isize,
            unplaced: None,
        };
        lemma_scalar_list_from(toks, k, vals, trailing, opts, pos, i + 1, st4);
        assert(array_from(toks, at + 1, s2, opts, pos) == array_from(toks, at + 2, st4, opts, pos));
    }
}

/// An array of values separated by commas is read as an array whose
/// children are those values, in order, ending after its `]`; a comma
/// after the last value is refused unless trailing commas are allowed, and
/// changes nothing when they are.
pub proof fn value_arrays_read_in_order(
    toks: Seq<TokView>,
    k: int,
    vals: Seq<TokView>,
    trailing: bool,
    opts: FracturedJsonOptions,
    pos: InputPosition,
)
    requires
        scalar_list_at(toks, k, vals, trailing),
    ensures
        array_from(toks, k, arr_start(), opts, pos) == scalar_list_result(
            toks,
            k,
            vals,
            trailing,
            opts,
            pos,
        ),
{
    let n = vals.len() as int;
    if n == 0 {
        assert(vals.map_values(|t: TokView| simple_view(t)) =~= Seq::<ItemView>::empty());
    } else {
        let v = toks[k];
        assert(v == vals[0]);
        assert(scalar_tok(vals[0]));
        let s = arr_home(arr_start(), v);
        assert(s == arr_start());
        assert(value_at(toks, k, opts) == Ok::<(ItemView, int), ParseError>(
            (simple_view(v), k + 1),
        ));
        let list = Seq::<ItemView>::empty().push(simple_view(v));
        assert(list =~= vals.take(1).map_values(|t: TokView| simple_view(t)));
        let st = ArrSt {
            list,
            comma: CommaStatus::ElementSeen,
            idx: Some(list.len() - 1),
            end_row: toks[k].2.row as isize,
            unplaced: None,
        };
        lemma_scalar_list_from(toks, k, vals, trailing, opts, pos, 1, st);
    }
}


/// The property named by the string token `name` with the value token `v`.
pub open spec fn prop_view(name: TokView, v: TokView) -> ItemView {
    ItemView { name: name.1, ..simple_view(v) }
}

/// The first `i` properties named by `names` with the values `vals`.
pub open spec fn props_upto(names: Seq<TokView>, vals: Seq<TokView>, i: int) -> Seq<ItemView> {
    Seq::new(i as nat, |j: int| prop_view(names[j], vals[j]))
}

/// The index of the `}` that closes a list of `n` properties starting at
/// token `k`, with a comma after the last when `trailing`.
pub open spec fn prop_list_close(k: int, n: int, trailing: bool) -> int {
    if n == 0 {
        k
    } else {
        k + 4 * n - 1 + if trailing {
            1int
        } else {
            0int
        }
    }
}

/// The tokens from `k` on are properties: a string name, a colon and a
/// value token each, a comma between each two and after the last when
/// `trailing`, and then `}`.
pub open spec fn prop_list_at(
    toks: Seq<TokView>,
    k: int,
    names: Seq<TokView>,
    vals: Seq<TokView>,
    trailing: bool,
) -> bool {
    let n = vals.len() as int;
    let close = prop_list_close(k, n, trailing);
    &&& 0 <= k
    &&& names.len() == n
    &&& (n == 0 ==> !trailing)
    &&& close < toks.len()
    &&& toks[close].0 == TokenType::EndObject
    &&& forall|i: int| 0 <= i < n ==> #[trigger] scalar_tok(vals[i]) && names[i].0 == TokenType::String
    &&& forall|j: int|
        k <= j < close ==> if (j - k) % 4 == 0 {
            #[trigger] toks[j] == names[(j - k) / 4]
        } else if (j - k) % 4 == 1 {
            toks[j].0 == TokenType::Colon
        } else if (j - k) % 4 == 2 {
            toks[j] == vals[(j - k) / 4]
        } else {
            toks[j].0 == TokenType::Comma
        }
}

/// What reading such a list gives: the object of the properties, or the
/// error for a trailing comma that the options do not allow.
pub open spec fn prop_list_result(
    toks: Seq<TokView>,
    k: int,
    names: Seq<TokView>,
    vals: Seq<TokView>,
    trailing: bool,
    opts: FracturedJsonOptions,
    pos: InputPosition,
) -> Result<(ItemView, int), ParseError> {
    let n = vals.len() as int;
    let close = prop_list_close(k, n, trailing);
    if trailing && !opts.allow_trailing_commas {
        Err(("Object may not end with comma with current options"@, toks[close].2))
    } else {
        Ok((container_view(JsonItemType::Object, pos, props_upto(names, vals, n)), close + 1))
    }
}

/// An object being read stands before the name of property `i`, with the
/// property before it attached or still waiting to be.
spec fn obj_at_name(st: ObjSt, names: Seq<TokView>, vals: Seq<TokView>, i: int) -> bool {
    &&& st.before.len() == 0
    &&& st.mids.len() == 0
    &&& st.after is None
    &&& !st.after_was_after_comma
    &&& st.phase == if i == 0 {
        ObjectPhase::BeforePropName
    } else {
        ObjectPhase::AfterComma
    }
    &&& if st.name is None {
        st.list == props_upto(names, vals, i) && st.value is None
    } else {
        &&& i > 0
        &&& st.name == Some(names[i - 1])
        &&& st.value == Some(simple_view(vals[i - 1]))
        &&& st.list == props_upto(names, vals, i - 1)
    }
}

/// An object being read just after the value of property `i - 1`.
spec fn obj_after_value(
    toks: Seq<TokView>,
    k: int,
    names: Seq<TokView>,
    vals: Seq<TokView>,
    i: int,
) -> ObjSt {
    ObjSt {
        list: props_upto(names, vals, i - 1),
        name: Some(names[i - 1]),
        value: Some(simple_view(vals[i - 1])),
        value_end: toks[k + 4 * i - 2].2.row as isize,
        before: Seq::empty(),
        mids: Seq::empty(),
        after: None,
        after_was_after_comma: false,
        phase: ObjectPhase::AfterPropValue,
    }
}

/// Attaching a property with no comments adds it to the children.
proof fn lemma_attach_plain(names: Seq<TokView>, vals: Seq<TokView>, i: int, value_end: isize)
    requires
        0 <= i < vals.len(),
        names.len() == vals.len(),
    ensures
        attach_view(
            props_upto(names, vals, i),
            names[i].1,
            simple_view(vals[i]),
            value_end,
            Seq::empty(),
            Seq::empty(),
            None,
        ) == props_upto(names, vals, i + 1),
{
    reveal(attach_view);
    let a = attach_view(
        props_upto(names, vals, i),
        names[i].1,
        simple_view(vals[i]),
        value_end,
        Seq::empty(),
        Seq::empty(),
        None,
    );
    assert(a =~= props_upto(names, vals, i + 1));
}

/// Reading property `i` from its name to its value.
proof fn lemma_obj_prop(
    toks: Seq<TokView>,
    k: int,
    names: Seq<TokView>,
    vals: Seq<TokView>,
    trailing: bool,
    opts: FracturedJsonOptions,
    pos: InputPosition,
    i: int,
    st: ObjSt,
)
    requires
        prop_list_at(toks, k, names, vals, trailing),
        0 <= i < vals.len(),
        obj_at_name(st, names, vals, i),
    ensures
        object_from(toks, k + 4 * i, st, opts, pos) == object_from(
            toks,
            k + 4 * i + 3,
            obj_after_value(toks, k, names, vals, i + 1),
            opts,
            pos,
        ),
{
    let p = k + 4 * i;
    assert((p - k) % 4 == 0 && (p - k) / 4 == i);
    let nm = toks[p];
    assert(nm == names[i]);
    assert(scalar_tok(vals[i]));
    assert(st.before =~= Seq::<ItemView>::empty());
    assert(st.mids =~= Seq::<TokView>::empty());
    let s = obj_flush(st, nm);
    if st.name is Some {
        lemma_attach_plain(names, vals, i - 1, st.value_end);
    }
    assert(s.before =~= Seq::<ItemView>::empty());
    assert(s.mids =~= Seq::<TokView>::empty());
    assert(s.list == props_upto(names, vals, i) && s.name is None && s.before.len() == 0
        && s.mids.len() == 0 && s.after is None && !s.after_was_after_comma && s.phase == st.phase);
    let s1 = ObjSt { name: Some(nm), phase: ObjectPhase::AfterPropName, ..s };
    assert((p + 1 - k) % 4 == 1);
    assert(toks[p + 1].0 == TokenType::Colon);
    let s1f = obj_flush(s1, toks[p + 1]);
    assert(s1f == s1);
    let s2 = ObjSt { phase: ObjectPhase::AfterColon, ..s1 };
    assert((p + 2 - k) % 4 == 2 && (p + 2 - k) / 4 == i);
    let v = toks[p + 2];
    assert(v == vals[i]);
    let s2f = obj_flush(s2, v);
    assert(s2f == s2);
    assert(value_at(toks, p + 2, opts) == Ok::<(ItemView, int), ParseError>(
        (simple_view(v), p + 3),
    ));
    let s3 = ObjSt {
        value: Some(simple_view(v)),
        value_end: toks[p + 2].2.row as isize,
        phase: ObjectPhase::AfterPropValue,
        ..s2
    };
    assert(s3 == obj_after_value(toks, k, names, vals, i + 1));
    assert(object_from(toks, p + 2, s2, opts, pos) == object_from(toks, p + 3, s3, opts, pos));
    assert(object_from(toks, p + 1, s1, opts, pos) == object_from(toks, p + 2, s2, opts, pos));
}

/// Reading the list after the value of property `i - 1`.
proof fn lemma_obj_from_value(
    toks: Seq<TokView>,
    k: int,
    names: Seq<TokView>,
    vals: Seq<TokView>,
    trailing: bool,
    opts: FracturedJsonOptions,
    pos: InputPosition,
    i: int,
)
    requires
        prop_list_at(toks, k, names, vals, trailing),
        0 < i <= vals.len(),
    ensures
        object_from(toks, k + 4 * i - 1, obj_after_value(toks, k, names, vals, i), opts, pos)
            == prop_list_result(toks, k, names, vals, trailing, opts, pos),
    decreases vals.len() - i,
{
    let n = vals.len() as int;
    let close = prop_list_close(k, n, trailing);
    let p = k + 4 * i - 1;
    let st = obj_after_value(toks, k, names, vals, i);
    lemma_attach_plain(names, vals, i - 1, st.value_end);
    if i == n && !trailing {
        assert(p == close);
        let s = obj_flush(st, toks[p]);
        assert(s.list == props_upto(names, vals, n));
        assert(s.list + s.before =~= props_upto(names, vals, n));
    } else {
        assert((p - k) % 4 == 3);
        assert(toks[p].0 == TokenType::Comma);
        let s = obj_flush(st, toks[p]);
        assert(s.before =~= Seq::<ItemView>::empty());
        assert(s.mids =~= Seq::<TokView>::empty());
        let s1 = ObjSt { phase: ObjectPhase::AfterComma, ..s };
        assert(obj_at_name(s1, names, vals, i));
        assert(object_from(toks, p, st, opts, pos) == object_from(toks, p + 1, s1, opts, pos));
        if i < n {
            lemma_obj_prop(toks, k, names, vals, trailing, opts, pos, i, s1);
            lemma_obj_from_value(toks, k, names, vals, trailing, opts, pos, i + 1);
        } else {
            assert(p + 1 == close);
            let s2 = obj_flush(s1, toks[p + 1]);
            if s1.name is Some {
                lemma_attach_plain(names, vals, i - 1, s1.value_end);
            }
            assert(s2.list == props_upto(names, vals, n) && s2.before.len() == 0);
            assert(s2.list + s2.before =~= props_upto(names, vals, n));
            assert(s2.phase == ObjectPhase::AfterComma);
        }
    }
}

/// An object of properties, each a string name, a colon and a value
/// token, separated by commas, is read as an object whose children are
/// those values under those names, in order, ending after its `}`; a
/// comma after the last property is refused unless trailing commas are
/// allowed, and changes nothing when they are.
pub proof fn properties_read_in_order(
    toks: Seq<TokView>,
    k: int,
    names: Seq<TokView>,
    vals: Seq<TokView>,
    trailing: bool,
    opts: FracturedJsonOptions,
    pos: InputPosition,
)
    requires
        prop_list_at(toks, k, names, vals, trailing),
    ensures
        object_from(toks, k, obj_start(), opts, pos) == prop_list_result(
            toks,
            k,
            names,
            vals,
            trailing,
            opts,
            pos,
        ),
{
    let n = vals.len() as int;
    if n == 0 {
        let s = obj_flush(obj_start(), toks[k]);
        assert(s == obj_start());
        assert(props_upto(names, vals, 0) =~= Seq::<ItemView>::empty());
        assert(s.list + s.before =~= props_upto(names, vals, 0));
    } else {
        assert(obj_at_name(obj_start(), names, vals, 0)) by {
            assert(props_upto(names, vals, 0) =~= Seq::<ItemView>::empty());
        }
        lemma_obj_prop(toks, k, names, vals, trailing, opts, pos, 0, obj_start());
        lemma_obj_from_value(toks, k, names, vals, trailing, opts, pos, 1);
    }
}

} // verus!
