//! Builds the document model from tokens, attaching comments to the
//! elements they belong to.

use vstd::prelude::*;
use crate::error::FracturedJsonError;
use crate::model::{is_comment_or_blank, InputPosition, JsonItem, JsonItemType, JsonToken, TokenType};
use crate::options::{CommentPolicy, FracturedJsonOptions};
use crate::text::contains_char;
use crate::parse_spec::{
    arr_home, arr_start, array_from, attach_view, attached_view, lemma_items_view_append,
    lemma_items_view_drop_last, mid_upto, obj_flush, top_from, obj_start, object_from, ObjSt, container_view, item_view, items_view, lemma_items_view,
    lemma_items_view_push, lemma_items_view_update, set_post, simple_view, value_at, views_complexity,
    ArrSt, CommaStatus, ItemView, ObjectPhase, ParseError, TokView,
};
use crate::tokenizer::{
    after_tokens, lemma_lex_rows, lex, lex_all, position_ok, token_in_text, token_shape,
    token_view, utf8_len, byte_pos, lemma_utf8_len_bounds, token_at, Lexed, TokenGenerator,
    MAX_DOC_SIZE,
};

verus! {

/// The comment tokens `ms` as plain values.
pub open spec fn tokens_view(ms: Seq<JsonToken>) -> Seq<TokView> {
    ms.map_values(|t: JsonToken| token_view(t))
}

/// What attaching gives the value `element` of property `name`: the name,
/// the middle comment made of `ms` (when there are any), the prefix comment
/// `prefix` and the postfix comment `post` (text and whether it is a line
/// comment) when given; everything else as `element` has it.
pub open spec fn attached_item(
    it: JsonItem,
    element: JsonItem,
    name: Seq<char>,
    ms: Seq<JsonToken>,
    prefix: Option<Seq<char>>,
    post: Option<(Seq<char>, bool)>,
) -> bool {
    &&& it.name@ == name
    &&& it.middle_comment@ == (if ms.len() > 0 {
        mid_upto(tokens_view(ms), ms.len() as int)
    } else {
        element.middle_comment@
    })
    &&& it.middle_comment_has_new_line == (if ms.len() > 0 {
        mid_upto(tokens_view(ms), ms.len() as int).contains('\n')
    } else {
        element.middle_comment_has_new_line
    })
    &&& it.prefix_comment@ == (match prefix {
        Some(p) => p,
        None => element.prefix_comment@,
    })
    &&& it.postfix_comment@ == (match post {
        Some(p) => p.0,
        None => element.postfix_comment@,
    })
    &&& it.is_post_comment_line_style == (match post {
        Some(p) => p.1,
        None => element.is_post_comment_line_style,
    })
    &&& it.item_type == element.item_type
    &&& it.value@ == element.value@
    &&& it.children@ == element.children@
    &&& it.complexity == element.complexity
    &&& it.input_position == element.input_position
}

/// A token that cannot come first inside an array: a comma, a colon, the
/// end of an object, or a comment when comments are errors.
pub open spec fn bad_array_start(tt: TokenType, opts: FracturedJsonOptions) -> bool {
    ||| tt == TokenType::Comma
    ||| tt == TokenType::Colon
    ||| tt == TokenType::EndObject
    ||| is_comment_token(tt) && opts.comment_policy == CommentPolicy::TreatAsError
}

/// A token that cannot come first inside an object: a comma, a colon, the
/// end of an array, a value that is not a property name, or a comment when
/// comments are errors.
pub open spec fn bad_object_start(tt: TokenType, opts: FracturedJsonOptions) -> bool {
    ||| tt == TokenType::Comma
    ||| tt == TokenType::Colon
    ||| tt == TokenType::EndArray
    ||| tt == TokenType::BeginArray
    ||| tt == TokenType::BeginObject
    ||| tt == TokenType::Number
    ||| tt == TokenType::True
    ||| tt == TokenType::False
    ||| tt == TokenType::Null
    ||| is_comment_token(tt) && opts.comment_policy == CommentPolicy::TreatAsError
}

/// The token after an opening bracket `open` makes the container fail at
/// once.
pub open spec fn bad_start(open: TokenType, next: Lexed, opts: FracturedJsonOptions) -> bool {
    ||| open == TokenType::BeginArray && (next matches Lexed::Token(tt, _, _) && bad_array_start(
        tt,
        opts,
    ))
    ||| open == TokenType::BeginObject && (next matches Lexed::Token(tt, _, _) && bad_object_start(
        tt,
        opts,
    ))
}

/// A token that is a whole value by itself: a literal, number or string.
pub open spec fn is_scalar_token(t: TokenType) -> bool {
    t == TokenType::False || t == TokenType::True || t == TokenType::Null || t
        == TokenType::Number || t == TokenType::String
}

/// What the second step of tokenizing `text` gives.
pub open spec fn second_lexed(text: Seq<char>) -> Lexed {
    let origin = InputPosition { index: 0, row: 0, column: 0 };
    let l = lex(text, origin, origin, false);
    lex(text, l.1, l.2, l.3).0
}

/// The tokens of a text that tokenizes (none otherwise).
pub open spec fn token_list(r: Result<Seq<TokView>, (Seq<char>, InputPosition)>) -> Seq<TokView> {
    match r {
        Ok(t) => t,
        Err(_) => Seq::empty(),
    }
}

/// What the first step of tokenizing `text` gives: its first token, the
/// end of the text (nothing but whitespace), or an error.
pub open spec fn first_lexed(text: Seq<char>) -> Lexed {
    let origin = InputPosition { index: 0, row: 0, column: 0 };
    lex(text, origin, origin, false).0
}

/// The whole of `text` splits into tokens without an error.
pub open spec fn tokenizes(text: Seq<char>) -> bool {
    let origin = InputPosition { index: 0, row: 0, column: 0 };
    lex_all(text, origin, origin, false, text.len() + 1) is Ok
}

/// A block comment that spans lines.
pub open spec fn spans_lines(c: JsonItem) -> bool {
    c.item_type == JsonItemType::BlockComment && c.value@.contains('\n')
}

/// Steps through the tokens of a generator, holding the current one.
pub struct TokenEnumerator {
    generator: TokenGenerator,
    current: Option<JsonToken>,
    /// The generator's scan state when enumeration began, and how many
    /// steps tokenizing all of its text takes at most.
    start: Ghost<(InputPosition, InputPosition, bool, nat)>,
    /// The tokens handed out so far.
    seen: Ghost<Seq<(TokenType, Seq<char>, InputPosition)>>,
}

impl TokenEnumerator {
    /// How much input is left behind the current token.
    pub closed spec fn remaining(&self) -> nat {
        self.generator.remaining()
    }

    /// The current token, if any.
    pub closed spec fn cur(&self) -> Option<JsonToken> {
        self.current
    }

    /// The text being read.
    pub closed spec fn text(&self) -> Seq<char> {
        self.generator.text()
    }

    /// The tokens of the whole text from where enumeration began, or the
    /// first tokenizing error.
    pub closed spec fn all_tokens(&self) -> Result<
        Seq<(TokenType, Seq<char>, InputPosition)>,
        (Seq<char>, InputPosition),
    > {
        lex_all(self.generator.text(), self.start@.0, self.start@.1, self.start@.2, self.start@.3)
    }

    /// How many tokens have been handed out.
    pub closed spec fn consumed(&self) -> nat {
        self.seen@.len()
    }

    /// The tokens handed out so far are the first ones of `all_tokens`, the
    /// generator stands where they end, and the current token is the last
    /// of them.
    pub closed spec fn on_track(&self) -> bool {
        &&& self.current matches Some(t) ==> self.seen@.len() > 0 && token_view(t)
            == self.seen@.last()
        &&& self.seen@.len() + self.generator.remaining() + 1 <= self.start@.3
        &&& self.all_tokens() == after_tokens(
            self.seen@,
            lex_all(
                self.generator.text(),
                self.generator.pos(),
                self.generator.tok_pos(),
                self.generator.nwsl(),
                (self.start@.3 - self.seen@.len()) as nat,
            ),
        )
    }

    pub closed spec fn wf(&self) -> bool {
        &&& self.generator.wf()
        &&& self.generator.text().len() <= MAX_DOC_SIZE
        &&& self.generator.remaining() <= MAX_DOC_SIZE
        &&& self.current matches Some(t) ==> token_in_text(t, self.generator.text())
        &&& self.current matches Some(t) ==> (t.token_type != TokenType::BlankLine
            ==> t.input_position.row <= self.generator.pos().row)
        &&& self.current matches Some(t) ==> (is_comment_token(t.token_type) && t.text@.contains(
            '\n',
        ) ==> t.input_position.row < self.generator.pos().row)
    }

    /// What the next step of tokenizing gives: the next token, the end of
    /// the text, or an error.
    pub closed spec fn next_lexed(&self) -> Lexed {
        lex(
            self.generator.text(),
            self.generator.pos(),
            self.generator.tok_pos(),
            self.generator.nwsl(),
        ).0
    }

    /// What the step of tokenizing after the next one gives.
    pub closed spec fn lexed_after_next(&self) -> Lexed {
        let l = lex(
            self.generator.text(),
            self.generator.pos(),
            self.generator.tok_pos(),
            self.generator.nwsl(),
        );
        lex(self.generator.text(), l.1, l.2, l.3).0
    }

    /// Where enumeration stands among the tokens of the whole text, when
    /// it tokenizes: the current token is the last handed out, and the next
    /// step of tokenizing gives the next token of the text or its end.
    pub proof fn lemma_tokens(&self)
        requires
            self.wf(),
            self.on_track(),
            self.all_tokens() is Ok,
        ensures
            ({
                let toks = token_list(self.all_tokens());
                &&& self.consumed() <= toks.len()
                &&& self.cur() matches Some(t) ==> self.consumed() > 0 && token_view(t)
                    == toks[self.consumed() - 1]
                &&& (self.next_lexed() is End <==> self.consumed() == toks.len())
                &&& self.next_lexed() !is Failed
                &&& self.next_lexed() matches Lexed::Token(tt, x, p) ==> toks[self.consumed() as int]
                    == (tt, x, byte_pos(self.text(), p))
            }),
    {
        let g = self.generator;
        let fuel = (self.start@.3 - self.seen@.len()) as nat;
        let rest = lex_all(g.text(), g.pos(), g.tok_pos(), g.nwsl(), fuel);
        let seen = self.seen@;
        match rest {
            Ok(more) => {
                let toks = seen + more;
                assert(token_list(self.all_tokens()) == toks);
                if self.current is Some {
                    assert(toks[seen.len() - 1] == seen.last());
                }
                match lex(g.text(), g.pos(), g.tok_pos(), g.nwsl()).0 {
                    Lexed::Token(tt, x, p) => {
                        assert(toks[seen.len() as int] == more[0]);
                    },
                    _ => {},
                }
            },
            Err(_) => {},
        }
    }

    /// The row scanning has reached: no later token starts before it.
    pub closed spec fn row_floor(&self) -> nat {
        self.generator.pos().row as nat
    }

    /// The current token, when it is a comment that spans lines, started
    /// before the row scanning has reached.
    pub proof fn lemma_current_rows(&self)
        requires
            self.wf(),
        ensures
            self.cur() matches Some(t) ==> (t.token_type != TokenType::BlankLine
                ==> t.input_position.row <= self.row_floor()),
            self.cur() matches Some(t) ==> (is_comment_token(t.token_type) && t.text@.contains(
                '\n',
            ) ==> t.input_position.row < self.row_floor()),
    {
    }

    /// An enumerator before the first token of `generator`.
    pub fn new(generator: TokenGenerator) -> (r: Self)
        requires
            generator.wf(),
            generator.text().len() <= MAX_DOC_SIZE,
            generator.remaining() <= MAX_DOC_SIZE,
        ensures
            r.wf(),
            r.cur() is None,
            r.remaining() == generator.remaining(),
            r.text() == generator.text(),
            r.on_track(),
            r.consumed() == 0,
            r.next_lexed() == lex(
                generator.text(),
                generator.pos(),
                generator.tok_pos(),
                generator.nwsl(),
            ).0,
            ({
                let l = lex(generator.text(), generator.pos(), generator.tok_pos(), generator.nwsl());
                r.lexed_after_next() == lex(generator.text(), l.1, l.2, l.3).0
            }),
            r.all_tokens() == lex_all(
                generator.text(),
                generator.pos(),
                generator.tok_pos(),
                generator.nwsl(),
                generator.remaining() + 1,
            ),
    {
        let ghost start = (
            generator.pos(),
            generator.tok_pos(),
            generator.nwsl(),
            generator.remaining() + 1,
        );
        let r = TokenEnumerator { generator, current: None, start: Ghost(start), seen: Ghost(Seq::empty()) };
        proof {
            match lex_all(generator.text(), start.0, start.1, start.2, start.3) {
                Ok(v) => {
                    assert(Seq::<(TokenType, Seq<char>, InputPosition)>::empty() + v =~= v);
                },
                Err(_) => {},
            }
        }
        r
    }

    /// The current token; an error if there is none.
    pub fn current(&self) -> (r: Result<&JsonToken, FracturedJsonError>)
        ensures
            r matches Ok(t) ==> self.cur() == Some(*t),
            r is Err <==> self.cur() is None,
            r matches Err(e) ==> e.message@ == "Illegal enumerator usage"@ && e.input_position is None,
    {
        match &self.current {
            Some(t) => Ok(t),
            None => Err(FracturedJsonError::simple("Illegal enumerator usage")),
        }
    }

    /// Moves to the next token: `Ok(true)` if there is one, `Ok(false)` at the
    /// end, or the tokenizer's error.
    pub fn move_next(&mut self) -> (r: Result<bool, FracturedJsonError>)
        requires
            old(self).wf(),
        ensures
            final(self).wf(),
            final(self).text() == old(self).text(),
            final(self).remaining() <= old(self).remaining(),
            r matches Ok(true) ==> final(self).cur() is Some && final(self).remaining() < old(
                self,
            ).remaining(),
            r matches Ok(false) ==> final(self).cur() is None,
            r matches Err(e) ==> e.input_position is Some,
            final(self).all_tokens() == old(self).all_tokens(),
            old(self).on_track() && r is Ok ==> final(self).on_track(),
            final(self).row_floor() >= old(self).row_floor(),
            r == Ok::<bool, FracturedJsonError>(true) ==> (final(self).cur()->0.token_type
                != TokenType::BlankLine ==> final(self).cur()->0.input_position.row >= old(
                self,
            ).row_floor()),
            old(self).on_track() && r == Ok::<bool, FracturedJsonError>(false) ==> final(self).all_tokens() is Ok,
            r is Err <==> old(self).next_lexed() is Failed,
            r == Ok::<bool, FracturedJsonError>(true) ==> final(self).consumed() == old(self).consumed()
                + 1,
            r != Ok::<bool, FracturedJsonError>(true) ==> final(self).consumed() == old(self).consumed(),
            r is Err ==> final(self).cur() == old(self).cur(),
            final(self).next_lexed() == old(self).lexed_after_next(),
            r == Ok::<bool, FracturedJsonError>(false) <==> old(self).next_lexed() is End,
            old(self).next_lexed() matches Lexed::Token(tt, txt, p) ==> final(self).cur() matches Some(
                t,
            ) && t.token_type == tt && t.text@ == txt && t.input_position == byte_pos(
                old(self).text(),
                p,
            ),
            old(self).next_lexed() matches Lexed::Failed(m, p) ==> r matches Err(e) && e.message@
                == crate::error::error_message(m, Some(byte_pos(old(self).text(), p)))
                && e.input_position == Some(byte_pos(old(self).text(), p)),
    {
        let ghost before = self.generator;
        let ghost fuel = (self.start@.3 - self.seen@.len()) as nat;
        proof {
            before.lemma_wf_pos();
            lemma_lex_rows(before.text(), before.pos(), before.tok_pos(), before.nwsl());
        }
        match self.generator.next() {
            None => {
                self.current = None;
                proof {
                    if old(self).on_track() {
                        let g = self.generator;
                        g.lemma_at_end();
                        assert(lex(g.text(), g.pos(), g.tok_pos(), g.nwsl()).0 is End);
                        assert(lex_all(before.text(), before.pos(), before.tok_pos(), before.nwsl(), fuel)
                            == lex_all(g.text(), g.pos(), g.tok_pos(), g.nwsl(), fuel));
                    }
                }
                Ok(false)
            },
            Some(Ok(token)) => {
                self.current = Some(token);
                proof {
                    let seen = self.seen@;
                    self.seen@ = seen.push(token_view(token));
                    if old(self).on_track() {
                        assert(lex_all(before.text(), before.pos(), before.tok_pos(), before.nwsl(), fuel)
                            == after_tokens(seq![token_view(token)], lex_all(
                            self.generator.text(),
                            self.generator.pos(),
                            self.generator.tok_pos(),
                            self.generator.nwsl(),
                            (fuel - 1) as nat,
                        )));
                        let rest = lex_all(
                            self.generator.text(),
                            self.generator.pos(),
                            self.generator.tok_pos(),
                            self.generator.nwsl(),
                            (fuel - 1) as nat,
                        );
                        match rest {
                            Ok(more) => {
                                assert(seen + (seq![token_view(token)] + more) =~= seen.push(
                                    token_view(token),
                                ) + more);
                            },
                            Err(_) => {},
                        }
                    }
                }
                Ok(true)
            },
            Some(Err(err)) => Err(err),
        }
    }

    /// The position of the current token, which must exist.
    fn current_position(&self) -> (p: InputPosition)
        requires
            self.wf(),
            self.cur() is Some,
        ensures
            p == self.cur()->0.input_position,
            position_ok(p),
            p.row <= MAX_DOC_SIZE,
    {
        proof {
            self.generator.lemma_wf_pos();
            let t = self.current->0;
            let start = choose|start: int| #[trigger] token_at(t, self.generator.text(), start);
            lemma_utf8_len_bounds(self.generator.text(), start);
        }
        match &self.current {
            Some(t) => t.input_position,
            None => InputPosition { index: 0, row: 0, column: 0 },
        }
    }
}

/// The complexity a container gets from its children: one more than the
/// deepest value among them, comments and blank lines aside; 0 without values.
pub open spec fn children_complexity(children: Seq<JsonItem>) -> nat
    decreases children.len(),
{
    if children.len() == 0 {
        0
    } else {
        let rest = children_complexity(children.drop_last());
        let last = children.last();
        if is_comment_or_blank(last.item_type) || rest > last.complexity + 1 {
            rest
        } else {
            (last.complexity + 1) as nat
        }
    }
}

/// The complexity of a list of items is that of their views.
pub proof fn lemma_views_complexity(s: Seq<JsonItem>)
    ensures
        views_complexity(items_view(s)) == children_complexity(s),
    decreases s.len(),
{
    if s.len() > 0 {
        lemma_views_complexity(s.drop_last());
        crate::parse_spec::lemma_items_view_drop_last(s);
        lemma_items_view(s);
    }
}

/// An optional index as an optional integer.
pub open spec fn opt_index(o: Option<usize>) -> Option<int> {
    match o {
        Some(i) => Some(i as int),
        None => None,
    }
}

/// An optional item as an optional view.
pub open spec fn opt_item_view(o: Option<JsonItem>) -> Option<ItemView> {
    match o {
        Some(c) => Some(item_view(c)),
        None => None,
    }
}

/// The state of an array being read, as plain values.
pub open spec fn arr_view(
    list: Seq<JsonItem>,
    comma: CommaStatus,
    idx: Option<usize>,
    end_row: isize,
    unplaced: Option<JsonItem>,
) -> ArrSt {
    ArrSt {
        list: items_view(list),
        comma,
        idx: opt_index(idx),
        end_row,
        unplaced: opt_item_view(unplaced),
    }
}

/// The enumerator stands on a known list of tokens: it is on track and the
/// whole text tokenizes.
pub open spec fn follows_tokens(e: TokenEnumerator) -> bool {
    e.on_track() && e.all_tokens() is Ok
}

/// The state of an object being read, as plain values.
pub open spec fn obj_view(
    list: Seq<JsonItem>,
    name: Option<JsonToken>,
    value: Option<JsonItem>,
    value_end: isize,
    before: Seq<JsonItem>,
    mids: Seq<JsonToken>,
    after: Option<JsonItem>,
    after_was_after_comma: bool,
    phase: ObjectPhase,
) -> ObjSt {
    ObjSt {
        list: items_view(list),
        name: match name {
            Some(t) => Some(token_view(t)),
            None => None,
        },
        value: opt_item_view(value),
        value_end,
        before: items_view(before),
        mids: tokens_view(mids),
        after: opt_item_view(after),
        after_was_after_comma,
        phase,
    }
}

/// An attached property, as plain values, is the value's view with the
/// pieces attached.
proof fn lemma_attached(
    it: JsonItem,
    element: JsonItem,
    name: Seq<char>,
    ms: Seq<JsonToken>,
    prefix: Option<Seq<char>>,
    post: Option<(Seq<char>, bool)>,
)
    requires
        attached_item(it, element, name, ms, prefix, post),
    ensures
        item_view(it) == attached_view(item_view(element), name, tokens_view(ms), prefix, post),
{
}

/// What attaching a property does to the children, as plain values.
proof fn lemma_attach_view(
    list: Seq<JsonItem>,
    fl: Seq<JsonItem>,
    name: Seq<char>,
    element: JsonItem,
    value_end: isize,
    before: Seq<JsonItem>,
    mids: Seq<JsonToken>,
    after: Option<JsonItem>,
)
    requires
        ({
            let merged = before.len() > 0 && before.last().item_type == JsonItemType::BlockComment
                && before.last().input_position.row == element.input_position.row;
            let list1 = if merged {
                list + before.drop_last()
            } else {
                list + before
            };
            let attach = after matches Some(a) && !(a.item_type == JsonItemType::BlockComment
                && a.value@.contains('\n')) && a.input_position.row as isize == value_end;
            let n1 = list1.len() as int;
            &&& fl.subrange(0, n1) == list1
            &&& fl.len() == n1 + 1 + (if !attach && after is Some {
                1int
            } else {
                0int
            })
            &&& attached_item(
                fl[n1],
                element,
                name,
                mids,
                if merged {
                    Some(before.last().value@)
                } else {
                    None
                },
                if attach {
                    Some((after->0.value@, after->0.item_type == JsonItemType::LineComment))
                } else {
                    None
                },
            )
            &&& !attach && after is Some ==> fl[n1 + 1] == after->0
        }),
    ensures
        items_view(fl) == attach_view(
            items_view(list),
            name,
            item_view(element),
            value_end,
            items_view(before),
            tokens_view(mids),
            opt_item_view(after),
        ),
{
    let merged = before.len() > 0 && before.last().item_type == JsonItemType::BlockComment
        && before.last().input_position.row == element.input_position.row;
    let list1 = if merged {
        list + before.drop_last()
    } else {
        list + before
    };
    let attach = after matches Some(a) && !(a.item_type == JsonItemType::BlockComment
        && a.value@.contains('\n')) && a.input_position.row as isize == value_end;
    let n1 = list1.len() as int;
    reveal(attach_view);
    lemma_items_view(before);
    if before.len() > 0 {
        lemma_items_view_drop_last(before);
        lemma_items_view_append(list, before.drop_last());
    }
    lemma_items_view_append(list, before);
    lemma_attached(
        fl[n1],
        element,
        name,
        mids,
        if merged {
            Some(before.last().value@)
        } else {
            None
        },
        if attach {
            Some((after->0.value@, after->0.item_type == JsonItemType::LineComment))
        } else {
            None
        },
    );
    if !attach && after is Some {
        assert(fl =~= list1.push(fl[n1]).push(after->0));
        lemma_items_view_push(list1, fl[n1]);
        lemma_items_view_push(list1.push(fl[n1]), after->0);
    } else {
        assert(fl =~= list1.push(fl[n1]));
        lemma_items_view_push(list1, fl[n1]);
    }
}

/// The tokens of `text`, from its start (none when it does not tokenize).
pub open spec fn text_tokens(text: Seq<char>) -> Seq<TokView> {
    let origin = InputPosition { index: 0, row: 0, column: 0 };
    token_list(lex_all(text, origin, origin, false, text.len() + 1))
}

/// The top-level items that parsing `text` with `opts` gives, as plain
/// values; with `stop`, a second top-level value is refused. `None` when
/// the text does not tokenize or its tokens make no document.
pub open spec fn parse_result(text: Seq<char>, opts: FracturedJsonOptions, stop: bool) -> Option<
    Seq<ItemView>,
> {
    if tokenizes(text) {
        match top_from(text_tokens(text), 0, Seq::empty(), false, opts, stop) {
            Ok(v) => Some(v),
            Err(_) => None,
        }
    } else {
        None
    }
}

/// Why parsing `text` with `opts` fails when it tokenizes but its tokens
/// make no document: the message and the position it names.
pub open spec fn parse_failure(text: Seq<char>, opts: FracturedJsonOptions, stop: bool) -> Option<
    ParseError,
> {
    if tokenizes(text) {
        match top_from(text_tokens(text), 0, Seq::empty(), false, opts, stop) {
            Ok(_) => None,
            Err(e) => Some(e),
        }
    } else {
        None
    }
}

/// The error `e` reports the parse error `pe`: its message with the
/// position in words, and the position.
pub open spec fn reports(e: FracturedJsonError, pe: ParseError) -> bool {
    e.message@ == crate::error::error_message(pe.0, Some(pe.1)) && e.input_position == Some(pe.1)
}

/// With comments treated as errors, text that holds a comment anywhere,
/// at any depth, does not parse: every token of a text that parses is
/// something other than a comment.
pub proof fn comments_refused_everywhere(
    text: Seq<char>,
    opts: FracturedJsonOptions,
    stop: bool,
)
    requires
        opts.comment_policy == CommentPolicy::TreatAsError,
        parse_result(text, opts, stop) is Some,
    ensures
        forall|i: int|
            0 <= i < text_tokens(text).len() ==> !is_comment_token(#[trigger] text_tokens(text)[i].0),
{
    crate::parse_spec::lemma_top_no_comment(text_tokens(text), 0, Seq::empty(), false, opts, stop);
    assert forall|i: int| 0 <= i < text_tokens(text).len() implies !is_comment_token(
        #[trigger] text_tokens(text)[i].0,
    ) by {
        assert(!crate::parse_spec::comment_kind(text_tokens(text)[i].0));
    }
}

/// A container kind.
pub open spec fn is_container(t: JsonItemType) -> bool {
    t == JsonItemType::Array || t == JsonItemType::Object
}

/// A comment kind.
pub open spec fn is_comment(t: JsonItemType) -> bool {
    t == JsonItemType::LineComment || t == JsonItemType::BlockComment
}

/// What the parser guarantees of each item it builds, with `opts`:
/// - a container's complexity is one more than that of its deepest value
///   child (0 when it has none), and other items have complexity 0 and no
///   children;
/// - comments (as items or attached to items) appear only when comments are
///   preserved;
/// - blank lines appear only when they are preserved;
/// - names, and the texts of values, hold no line feed.
pub open spec fn parsed_item_ok(item: JsonItem, opts: FracturedJsonOptions) -> bool
    decreases item,
{
    &&& !item.name@.contains('\n')
    &&& !is_comment_or_blank(item.item_type) ==> !item.value@.contains('\n')
    &&& !item.prefix_comment@.contains('\n')
    &&& !item.postfix_comment@.contains('\n')
    &&& (item.middle_comment@.contains('\n') ==> item.middle_comment_has_new_line)
    &&& (if is_container(item.item_type) {
        item.complexity == children_complexity(item.children@)
    } else {
        item.complexity == 0 && item.children@.len() == 0
    })
    &&& opts.comment_policy != CommentPolicy::Preserve ==> {
        &&& !is_comment(item.item_type)
        &&& item.prefix_comment@.len() == 0
        &&& item.middle_comment@.len() == 0
        &&& item.postfix_comment@.len() == 0
    }
    &&& !opts.preserve_blank_lines ==> item.item_type != JsonItemType::BlankLine
    &&& parsed_items_ok(item.children@, opts)
}

/// Each item of `s` meets `parsed_item_ok`.
pub open spec fn parsed_items_ok(s: Seq<JsonItem>, opts: FracturedJsonOptions) -> bool
    decreases s,
{
    if s.len() == 0 {
        true
    } else {
        parsed_items_ok(s.drop_last(), opts) && parsed_item_ok(s.last(), opts)
    }
}

/// `parsed_items_ok` holds exactly when every item is `parsed_item_ok`.
pub proof fn lemma_parsed_items_ok(s: Seq<JsonItem>, opts: FracturedJsonOptions)
    ensures
        parsed_items_ok(s, opts) <==> all_parsed_ok(s, opts),
    decreases s.len(),
{
    if s.len() > 0 {
        lemma_parsed_items_ok(s.drop_last(), opts);
        if all_parsed_ok(s, opts) {
            assert forall|i: int| 0 <= i < s.drop_last().len() implies #[trigger] parsed_item_ok(
                s.drop_last()[i],
                opts,
            ) by {
                assert(s.drop_last()[i] == s[i]);
            }
            assert(parsed_item_ok(s[s.len() - 1], opts));
        }
        if parsed_items_ok(s, opts) {
            assert forall|i: int| 0 <= i < s.len() implies #[trigger] parsed_item_ok(s[i], opts) by {
                if i < s.len() - 1 {
                    assert(s.drop_last()[i] == s[i]);
                }
            }
        }
    }
}

/// Every item of `items` meets `parsed_item_ok`.
pub open spec fn all_parsed_ok(items: Seq<JsonItem>, opts: FracturedJsonOptions) -> bool {
    forall|i: int| 0 <= i < items.len() ==> #[trigger] parsed_item_ok(items[i], opts)
}

/// How many items of `items` are values rather than comments or blank lines.
pub open spec fn count_values(items: Seq<JsonItem>) -> nat
    decreases items.len(),
{
    if items.len() == 0 {
        0
    } else {
        count_values(items.drop_last()) + if is_comment_or_blank(items.last().item_type) {
            0nat
        } else {
            1nat
        }
    }
}

proof fn lemma_children_complexity_push(s: Seq<JsonItem>, x: JsonItem)
    ensures
        children_complexity(s.push(x)) == (if is_comment_or_blank(x.item_type)
            || children_complexity(s) > x.complexity + 1 {
            children_complexity(s)
        } else {
            (x.complexity + 1) as nat
        }),
{
    assert(s.push(x).drop_last() =~= s);
}

proof fn lemma_count_values_push(s: Seq<JsonItem>, x: JsonItem)
    ensures
        count_values(s.push(x)) == count_values(s) + if is_comment_or_blank(x.item_type) {
            0nat
        } else {
            1nat
        },
{
    assert(s.push(x).drop_last() =~= s);
}

/// Turns JSON text into the document model.
pub struct Parser {
    pub options: FracturedJsonOptions,
}


/// A container item with the given children.
fn make_container(
    item_type: JsonItemType,
    pos: InputPosition,
    complexity: usize,
    children: Vec<JsonItem>,
    opts: &FracturedJsonOptions,
) -> (item: JsonItem)
    requires
        is_container(item_type),
        all_parsed_ok(children@, *opts),
        complexity == children_complexity(children@),
    ensures
        parsed_item_ok(item, *opts),
        item.item_type == item_type,
        item.input_position == pos,
        item.complexity == complexity,
        item.children@ == children@,
        item_view(item) == container_view(item_type, pos, items_view(children@)),
{
    let mut item = JsonItem::default();
    item.item_type = item_type;
    item.input_position = pos;
    item.complexity = complexity;
    item.children = children;
    proof {
        lemma_parsed_items_ok(children@, *opts);
        lemma_views_complexity(children@);
        assert(item.name@ =~= Seq::<char>::empty());
        assert(item.value@ =~= Seq::<char>::empty());
        assert(item.prefix_comment@ =~= Seq::<char>::empty());
        assert(item.middle_comment@ =~= Seq::<char>::empty());
        assert(item.postfix_comment@ =~= Seq::<char>::empty());
    }
    item
}

/// Sets the comment after the element at `idx`, if there is one.
fn set_postfix_comment(
    list: &mut Vec<JsonItem>,
    idx: usize,
    comment: String,
    line_style: bool,
    opts: &FracturedJsonOptions,
)
    requires
        all_parsed_ok(old(list)@, *opts),
        opts.comment_policy == CommentPolicy::Preserve,
        !comment@.contains('\n'),
    ensures
        idx < old(list)@.len() ==> final(list)@ == old(list)@.update(
            idx as int,
            (JsonItem {
                postfix_comment: comment,
                is_post_comment_line_style: line_style,
                ..old(list)@[idx as int]
            }),
        ),
        idx >= old(list)@.len() ==> final(list)@ == old(list)@,
        all_parsed_ok(final(list)@, *opts),
        children_complexity(final(list)@) == children_complexity(old(list)@),
        count_values(final(list)@) == count_values(old(list)@),
        final(list)@.len() == old(list)@.len(),
        items_view(final(list)@) == set_post(items_view(old(list)@), idx as int, comment@, line_style),
{
    proof {
        lemma_items_view(old(list)@);
    }
    if idx < list.len() {
        let mut elem = list.remove(idx);
        elem.postfix_comment = comment;
        elem.is_post_comment_line_style = line_style;
        list.insert(idx, elem);
        proof {
            let ghost_item = list@[idx as int];
            assert(list@ =~= old(list)@.update(idx as int, ghost_item));
            assert(parsed_item_ok(ghost_item, *opts)) by {
                assert(ghost_item.children@ == old(list)@[idx as int].children@);
                assert(parsed_item_ok(old(list)@[idx as int], *opts));
            }
            lemma_update_keeps(old(list)@, idx as int, ghost_item);
            lemma_items_view_update(old(list)@, idx as int, ghost_item);
            lemma_items_view(old(list)@);
            let v0 = items_view(old(list)@)[idx as int];
            assert(v0 == item_view(old(list)@[idx as int]));
            assert(item_view(ghost_item) == ItemView {
                postfix_comment: comment@,
                is_post_comment_line_style: line_style,
                ..v0
            });
        }
    }
}

/// Replacing an item by one of the same kind and complexity keeps the
/// complexity and the number of values of a list.
proof fn lemma_update_keeps(s: Seq<JsonItem>, i: int, x: JsonItem)
    requires
        0 <= i < s.len(),
        x.item_type == s[i].item_type,
        x.complexity == s[i].complexity,
    ensures
        children_complexity(s.update(i, x)) == children_complexity(s),
        count_values(s.update(i, x)) == count_values(s),
    decreases s.len(),
{
    if i < s.len() - 1 {
        lemma_update_keeps(s.drop_last(), i, x);
        assert(s.update(i, x).drop_last() =~= s.drop_last().update(i, x));
    } else {
        assert(s.update(i, x).drop_last() =~= s.drop_last());
    }
}

impl Parser {
    pub fn new(options: FracturedJsonOptions) -> (r: Self)
        ensures
            r.options == options,
    {
        Parser { options }
    }

    /// Parses `input_json` into its top-level items. With
    /// `stop_after_first_elem`, a second top-level value is an error. It
    /// succeeds exactly when `parse_result` gives items, and then gives
    /// those items.
    pub fn parse_top_level(&self, input_json: &str, stop_after_first_elem: bool) -> (r: Result<
        Vec<JsonItem>,
        FracturedJsonError,
    >)
        requires
            utf8_len(input_json@) <= MAX_DOC_SIZE,
        ensures
            r matches Ok(items) ==> all_parsed_ok(items@, self.options),
            r matches Ok(items) ==> stop_after_first_elem ==> count_values(items@) <= 1,
            r is Ok ==> tokenizes(input_json@),
            first_lexed(input_json@) is End ==> (r matches Ok(items) && items@.len() == 0),
            first_lexed(input_json@) is Failed ==> r is Err,
            (first_lexed(input_json@) matches Lexed::Token(tt, _, _) && is_comment_token(tt))
                && self.options.comment_policy == CommentPolicy::TreatAsError ==> r is Err,
            stop_after_first_elem && (first_lexed(input_json@) matches Lexed::Token(tt, _, _)
                && is_scalar_token(tt)) && (second_lexed(input_json@) matches Lexed::Token(t2, _, _)
                && is_scalar_token(t2)) ==> r is Err,
            (first_lexed(input_json@) matches Lexed::Token(tt, _, _) && is_scalar_token(tt))
                && second_lexed(input_json@) is End ==> (r matches Ok(items) && items@.len() == 1),
            (first_lexed(input_json@) matches Lexed::Token(tt, _, _) && bad_start(
                tt,
                second_lexed(input_json@),
                self.options,
            )) ==> r is Err,
            r is Ok <==> parse_result(input_json@, self.options, stop_after_first_elem) is Some,
            r matches Ok(items) ==> parse_result(input_json@, self.options, stop_after_first_elem)
                == Some(items_view(items@)),
            r matches Err(e) ==> (parse_failure(input_json@, self.options, stop_after_first_elem)
                matches Some(pe) ==> reports(e, pe)),
            tokenizes(input_json@) ==> (r is Err <==> parse_failure(
                input_json@,
                self.options,
                stop_after_first_elem,
            ) is Some),
    {
        proof {
            lemma_utf8_len_bounds(input_json@, 0);
        }
        let token_stream = TokenGenerator::new(input_json);
        let mut enumerator = TokenEnumerator::new(token_stream);
        self.parse_top_level_from_enum(&mut enumerator, stop_after_first_elem)
    }

    #[verifier::spinoff_prover]
    #[verifier::rlimit(60)]
    fn parse_top_level_from_enum(
        &self,
        enumerator: &mut TokenEnumerator,
        stop_after_first_elem: bool,
    ) -> (r: Result<Vec<JsonItem>, FracturedJsonError>)
        requires
            old(enumerator).wf(),
        ensures
            r matches Ok(items) ==> all_parsed_ok(items@, self.options),
            r matches Ok(items) ==> stop_after_first_elem ==> count_values(items@) <= 1,
            old(enumerator).on_track() && r is Ok ==> old(enumerator).all_tokens() is Ok,
            old(enumerator).next_lexed() is End ==> (r matches Ok(items) && items@.len() == 0),
            old(enumerator).next_lexed() is Failed ==> r is Err,
            (old(enumerator).next_lexed() matches Lexed::Token(tt, _, _) && is_scalar_token(tt))
                && old(enumerator).lexed_after_next() is End ==> (r matches Ok(items)
                && items@.len() == 1),
            (old(enumerator).next_lexed() matches Lexed::Token(tt, _, _) && bad_start(
                tt,
                old(enumerator).lexed_after_next(),
                self.options,
            )) ==> r is Err,
            (old(enumerator).next_lexed() matches Lexed::Token(tt, _, _) && is_comment_token(tt))
                && self.options.comment_policy == CommentPolicy::TreatAsError ==> r is Err,
            stop_after_first_elem && (old(enumerator).next_lexed() matches Lexed::Token(tt, _, _)
                && is_scalar_token(tt)) && (old(enumerator).lexed_after_next() matches Lexed::Token(
                t2,
                _,
                _,
            ) && is_scalar_token(t2)) ==> r is Err,
            follows_tokens(*old(enumerator)) ==> {
                let goal = top_from(
                    token_list(old(enumerator).all_tokens()),
                    old(enumerator).consumed() as int,
                    Seq::empty(),
                    false,
                    self.options,
                    stop_after_first_elem,
                );
                &&& (r is Ok <==> goal is Ok)
                &&& (r matches Ok(items) ==> goal == Ok::<Seq<ItemView>, ParseError>(items_view(items@)))
                &&& (r matches Err(e) ==> goal matches Err(pe) && reports(e, pe))
            },
    {
        let mut top_level_items: Vec<JsonItem> = Vec::new();
        let mut top_level_elem_seen = false;
        let ghost starts = enumerator.next_lexed();
        let ghost after = enumerator.lexed_after_next();
        let ghost single = (starts matches Lexed::Token(tt, _, _) && is_scalar_token(tt))
            && after is End;
        let ghost bad = starts matches Lexed::Token(tt, _, _) && bad_start(tt, after, self.options);
        let ghost cbad = (starts matches Lexed::Token(tt, _, _) && is_comment_token(tt))
            && self.options.comment_policy == CommentPolicy::TreatAsError;
        let ghost two = stop_after_first_elem && (starts matches Lexed::Token(tt, _, _)
            && is_scalar_token(tt)) && (after matches Lexed::Token(t2, _, _) && is_scalar_token(t2));
        let ghost mut first = true;
        let ghost on_tokens = follows_tokens(*enumerator);
        let ghost toks = token_list(enumerator.all_tokens());
        let ghost goal = top_from(
            toks,
            enumerator.consumed() as int,
            Seq::empty(),
            false,
            self.options,
            stop_after_first_elem,
        );
        proof {
            assert(items_view(top_level_items@) =~= Seq::<ItemView>::empty());
        }
        loop
            invariant
                on_tokens == follows_tokens(*old(enumerator)),
                toks == token_list(old(enumerator).all_tokens()),
                goal == top_from(
                    toks,
                    old(enumerator).consumed() as int,
                    Seq::empty(),
                    false,
                    self.options,
                    stop_after_first_elem,
                ),
                on_tokens ==> follows_tokens(*enumerator),
                on_tokens ==> goal == top_from(
                    toks,
                    enumerator.consumed() as int,
                    items_view(top_level_items@),
                    top_level_elem_seen,
                    self.options,
                    stop_after_first_elem,
                ),
                cbad ==> first,
                cbad == ((starts matches Lexed::Token(tt, _, _) && is_comment_token(tt))
                    && self.options.comment_policy == CommentPolicy::TreatAsError),
                two == (stop_after_first_elem && (starts matches Lexed::Token(tt, _, _)
                    && is_scalar_token(tt)) && (after matches Lexed::Token(t2, _, _)
                    && is_scalar_token(t2))),
                two && !first ==> top_level_elem_seen && enumerator.next_lexed() == after,
                first ==> enumerator.next_lexed() == starts && top_level_items@.len() == 0
                    && !top_level_elem_seen,
                single && !first ==> top_level_items@.len() == 1 && enumerator.next_lexed()
                    == after,
                single == ((starts matches Lexed::Token(tt, _, _) && is_scalar_token(tt))
                    && after is End),
                after == old(enumerator).lexed_after_next(),
                first ==> enumerator.lexed_after_next() == after,
                !first ==> starts is Token,
                bad ==> first,
                bad == (starts matches Lexed::Token(tt, _, _) && bad_start(tt, after, self.options)),
                starts == old(enumerator).next_lexed(),
                enumerator.wf(),
                enumerator.all_tokens() == old(enumerator).all_tokens(),
                old(enumerator).on_track() ==> enumerator.on_track(),
                enumerator.row_floor() >= old(enumerator).row_floor(),
                all_parsed_ok(top_level_items@, self.options),
                top_level_elem_seen == (count_values(top_level_items@) > 0),
                stop_after_first_elem ==> count_values(top_level_items@) <= 1,
            decreases enumerator.remaining(),
        {
            let ghost c0 = enumerator.consumed() as int;
            proof {
                if on_tokens {
                    enumerator.lemma_tokens();
                }
            }
            let moved = enumerator.move_next()?;
            if !moved {
                return Ok(top_level_items);
            }
            proof {
                first = false;
            }
            let item = self.parse_item(enumerator)?;
            proof {
                if on_tokens {
                    enumerator.lemma_tokens();
                    let j = enumerator.consumed() as int;
                    assert(value_at(toks, c0, self.options) == Ok::<(ItemView, int), ParseError>((item_view(item), j)));
                    assert(c0 < j <= toks.len());
                }
                lemma_items_view_push(top_level_items@, item);
            }
            let is_comment = item.item_type == JsonItemType::BlockComment || item.item_type
                == JsonItemType::LineComment;
            let is_blank = item.item_type == JsonItemType::BlankLine;
            proof {
                lemma_count_values_push(top_level_items@, item);
            }
            if is_blank {
                if self.options.preserve_blank_lines {
                    top_level_items.push(item);
                }
            } else if is_comment {
                match self.options.comment_policy {
                    CommentPolicy::TreatAsError => {
                        return Err(
                            FracturedJsonError::new(
                                "Comments not allowed with current options",
                                Some(item.input_position),
                            ),
                        );
                    },
                    CommentPolicy::Preserve => top_level_items.push(item),
                    CommentPolicy::Remove => {},
                }
            } else {
                if stop_after_first_elem && top_level_elem_seen {
                    return Err(
                        FracturedJsonError::new(
                            "Unexpected start of second top level element",
                            Some(item.input_position),
                        ),
                    );
                }
                top_level_items.push(item);
                top_level_elem_seen = true;
            }
        }
    }

    fn parse_item(&self, enumerator: &mut TokenEnumerator) -> (r: Result<
        JsonItem,
        FracturedJsonError,
    >)
        requires
            old(enumerator).wf(),
            old(enumerator).cur() is Some,
        ensures
            final(enumerator).wf(),
            final(enumerator).all_tokens() == old(enumerator).all_tokens(),
            old(enumerator).on_track() && r is Ok ==> final(enumerator).on_track(),
            final(enumerator).row_floor() >= old(enumerator).row_floor(),
            final(enumerator).remaining() <= old(enumerator).remaining(),
            r matches Ok(item) ==> item_or_loose(item, self.options) && item.complexity
                <= old(enumerator).remaining() && final(enumerator).cur() is Some
                && item.input_position == old(enumerator).cur()->0.input_position
                && item.item_type == item_kind_of_token(old(enumerator).cur()->0.token_type),
            ({
                let tt = old(enumerator).cur()->0.token_type;
                tt != TokenType::BeginArray && tt != TokenType::BeginObject ==> (r is Ok
                    <==> !is_punctuation(tt)) && *final(enumerator) == *old(enumerator)
            }),
            ({
                let tt = old(enumerator).cur()->0.token_type;
                tt == TokenType::BeginArray || tt == TokenType::BeginObject ==> {
                    &&& old(enumerator).next_lexed() is End ==> r is Err
                    &&& old(enumerator).next_lexed() is Failed ==> r is Err
                    &&& (old(enumerator).next_lexed() matches Lexed::Token(nt, _, _) && (nt
                        == TokenType::EndArray && tt == TokenType::BeginArray || nt
                        == TokenType::EndObject && tt == TokenType::BeginObject)) ==> (r matches Ok(
                        item,
                    ) && item.children@.len() == 0 && item.complexity == 0)
                }
            }),
            bad_start(old(enumerator).cur()->0.token_type, old(enumerator).next_lexed(), self.options)
                ==> r is Err,
            final(enumerator).consumed() >= old(enumerator).consumed(),
            follows_tokens(*old(enumerator)) ==> {
                let toks = token_list(old(enumerator).all_tokens());
                let k = old(enumerator).consumed() - 1;
                &&& (r is Ok <==> value_at(toks, k, self.options) is Ok)
                &&& (r matches Err(e) ==> value_at(toks, k, self.options) matches Err(pe) && reports(e, pe))
                &&& (r matches Ok(item) ==> value_at(toks, k, self.options) == Ok::<(ItemView, int), ParseError>(
                    (item_view(item), final(enumerator).consumed() as int),
                ))
            },
        decreases old(enumerator).remaining(), 1int,
    {
        proof {
            if follows_tokens(*enumerator) {
                enumerator.lemma_tokens();
            }
        }
        let token_type = enumerator.current()?.token_type;
        match token_type {
            TokenType::BeginArray => self.parse_array(enumerator),
            TokenType::BeginObject => self.parse_object(enumerator),
            _ => {
                let current = enumerator.current()?.clone();
                let r = self.parse_simple(&current);
                r
            },
        }
    }

    /// The item for a token that stands alone: a value, comment or blank line.
    fn parse_simple(&self, token: &JsonToken) -> (r: Result<JsonItem, FracturedJsonError>)
        requires
            token_shape(token.token_type, token.text@),
        ensures
            r matches Ok(item) ==> (!is_comment_or_blank(item.item_type)
                ==> !item.value@.contains('\n')),
            r matches Ok(item) ==> {
                &&& item.item_type == item_type_of(token.token_type)
                &&& item.value@ == token.text@
                &&& item.input_position == token.input_position
                &&& item.complexity == 0
                &&& item.children@.len() == 0
                &&& item.name@.len() == 0
                &&& item.prefix_comment@.len() == 0
                &&& item.middle_comment@.len() == 0
                &&& item.postfix_comment@.len() == 0
                &&& !item.is_post_comment_line_style
            },
            r matches Ok(item) ==> item_view(item) == simple_view(token_view(*token)),
            r is Ok <==> !is_punctuation(token.token_type),
            r matches Err(e) ==> reports(e, ("Unexpected Token"@, token.input_position)),
    {
        let item_type = Self::item_type_from_token_type(token)?;
        proof {
            let t = token.text@;
            if token.token_type == TokenType::True || token.token_type == TokenType::False
                || token.token_type == TokenType::Null {
                assert forall|k: int| 0 <= k < t.len() implies t[k] != '\n' by {}
            }
        }
        let mut item = JsonItem::default();
        item.item_type = item_type;
        item.value = token.text.clone();
        item.input_position = token.input_position;
        item.complexity = 0;
        proof {
            assert(item.name@ =~= Seq::<char>::empty());
            assert(item.prefix_comment@ =~= Seq::<char>::empty());
            assert(item.middle_comment@ =~= Seq::<char>::empty());
            assert(item.postfix_comment@ =~= Seq::<char>::empty());
            assert(items_view(item.children@) =~= Seq::<ItemView>::empty());
        }
        Ok(item)
    }

    #[verifier::spinoff_prover]
    #[verifier::rlimit(100)]
    fn parse_array(&self, enumerator: &mut TokenEnumerator) -> (r: Result<
        JsonItem,
        FracturedJsonError,
    >)
        requires
            old(enumerator).wf(),
            old(enumerator).cur() is Some,
        ensures
            final(enumerator).wf(),
            final(enumerator).all_tokens() == old(enumerator).all_tokens(),
            old(enumerator).on_track() && r is Ok ==> final(enumerator).on_track(),
            final(enumerator).row_floor() >= old(enumerator).row_floor(),
            final(enumerator).remaining() <= old(enumerator).remaining(),
            r matches Ok(item) ==> parsed_item_ok(item, self.options) && item.complexity
                <= old(enumerator).remaining() && final(enumerator).cur() is Some
                && item.item_type == JsonItemType::Array && item.input_position == old(
                enumerator,
            ).cur()->0.input_position,
            old(enumerator).cur()->0.token_type != TokenType::BeginArray ==> r is Err,
            old(enumerator).next_lexed() is End ==> r is Err,
            old(enumerator).next_lexed() is Failed ==> r is Err,
            old(enumerator).cur()->0.token_type == TokenType::BeginArray && (old(
                enumerator,
            ).next_lexed() matches Lexed::Token(tt, _, _) && tt == TokenType::EndArray) ==> (r matches Ok(
                item,
            ) && item.children@.len() == 0 && item.complexity == 0),
            bad_start(old(enumerator).cur()->0.token_type, old(enumerator).next_lexed(), self.options)
                ==> r is Err,
            final(enumerator).consumed() >= old(enumerator).consumed(),
            follows_tokens(*old(enumerator)) && old(enumerator).cur()->0.token_type
                == TokenType::BeginArray ==> {
                let goal = array_from(
                    token_list(old(enumerator).all_tokens()),
                    old(enumerator).consumed() as int,
                    arr_start(),
                    self.options,
                    old(enumerator).cur()->0.input_position,
                );
                &&& (r is Ok <==> goal is Ok)
                &&& (r matches Err(e) ==> goal matches Err(pe) && reports(e, pe))
                &&& (r matches Ok(item) ==> goal == Ok::<(ItemView, int), ParseError>(
                    (item_view(item), final(enumerator).consumed() as int),
                ))
            },
        decreases old(enumerator).remaining(), 0int,
    {
        if enumerator.current()?.token_type != TokenType::BeginArray {
            return Err(
                FracturedJsonError::new("Parser logic error", Some(enumerator.current_position())),
            );
        }
        let starting_input_position = enumerator.current_position();
        let ghost start_remaining = enumerator.remaining();
        let mut elem_needing_post_comment_idx: Option<usize> = None;
        let mut elem_needing_post_end_row: isize = -1;
        let mut unplaced_comment: Option<JsonItem> = None;
        let mut child_list: Vec<JsonItem> = Vec::new();
        let mut comma_status = CommaStatus::EmptyCollection;
        let mut end_of_array_found = false;
        let mut this_array_complexity: usize = 0;
        let ghost starts = enumerator.next_lexed();
        let ghost empty_array = starts matches Lexed::Token(tt, _, _) && tt == TokenType::EndArray;
        let ghost bad = bad_start(old(enumerator).cur()->0.token_type, starts, self.options);
        let ghost mut first = true;
        let ghost on_tokens = follows_tokens(*enumerator);
        let ghost toks = token_list(enumerator.all_tokens());
        let ghost goal = array_from(
            toks,
            enumerator.consumed() as int,
            arr_start(),
            self.options,
            starting_input_position,
        );
        proof {
            assert(items_view(child_list@) =~= Seq::<ItemView>::empty());
        }
        while !end_of_array_found
            invariant
                on_tokens == follows_tokens(*old(enumerator)),
                toks == token_list(old(enumerator).all_tokens()),
                goal == array_from(
                    toks,
                    old(enumerator).consumed() as int,
                    arr_start(),
                    self.options,
                    starting_input_position,
                ),
                starting_input_position == old(enumerator).cur()->0.input_position,
                enumerator.consumed() >= old(enumerator).consumed(),
                on_tokens ==> follows_tokens(*enumerator),
                on_tokens && !end_of_array_found ==> goal == array_from(
                    toks,
                    enumerator.consumed() as int,
                    arr_view(
                        child_list@,
                        comma_status,
                        elem_needing_post_comment_idx,
                        elem_needing_post_end_row,
                        unplaced_comment,
                    ),
                    self.options,
                    starting_input_position,
                ),
                on_tokens && end_of_array_found ==> goal == Ok::<(ItemView, int), ParseError>(
                    (
                        container_view(
                            JsonItemType::Array,
                            starting_input_position,
                            items_view(child_list@),
                        ),
                        enumerator.consumed() as int,
                    ),
                ),
                first ==> enumerator.next_lexed() == starts && child_list@.len() == 0
                    && this_array_complexity == 0 && comma_status == CommaStatus::EmptyCollection
                    && unplaced_comment is None && !end_of_array_found
                    && elem_needing_post_comment_idx is None,
                !first ==> starts is Token,
                bad ==> first,
                old(enumerator).cur()->0.token_type == TokenType::BeginArray,
                bad == bad_start(old(enumerator).cur()->0.token_type, starts, self.options),
                empty_array && !first ==> end_of_array_found && child_list@.len() == 0
                    && this_array_complexity == 0,
                starts == old(enumerator).next_lexed(),
                empty_array == (starts matches Lexed::Token(tt, _, _) && tt == TokenType::EndArray),
                enumerator.wf(),
                enumerator.all_tokens() == old(enumerator).all_tokens(),
                old(enumerator).on_track() ==> enumerator.on_track(),
                enumerator.row_floor() >= old(enumerator).row_floor(),
                enumerator.remaining() <= start_remaining,
                start_remaining == old(enumerator).remaining(),
                start_remaining <= MAX_DOC_SIZE,
                end_of_array_found ==> enumerator.cur() is Some,
                all_parsed_ok(child_list@, self.options),
                this_array_complexity == children_complexity(child_list@),
                this_array_complexity <= start_remaining,
                unplaced_comment matches Some(c) ==> self.options.comment_policy
                    == CommentPolicy::Preserve && c.complexity == 0 && is_comment(c.item_type)
                    && c.name@.len() == 0
                    && c.children@.len() == 0 && c.prefix_comment@.len() == 0
                    && c.middle_comment@.len() == 0 && c.postfix_comment@.len() == 0
                    && !c.value@.contains('\n'),
            decreases enumerator.remaining(), if end_of_array_found {
                0int
            } else {
                1int
            },
        {
            let ghost st0 = arr_view(
                child_list@,
                comma_status,
                elem_needing_post_comment_idx,
                elem_needing_post_end_row,
                unplaced_comment,
            );
            let ghost c0 = enumerator.consumed() as int;
            proof {
                if on_tokens {
                    enumerator.lemma_tokens();
                }
            }
            let token = Self::get_next_token_or_throw(enumerator, starting_input_position)?;
            let ghost tv = token_view(token);
            let ghost s_home = arr_home(st0, tv);
            proof {
                first = false;
                if on_tokens {
                    enumerator.lemma_tokens();
                    assert(tv == toks[c0]);
                }
            }
            let unplaced_needs_home = match &unplaced_comment {
                Some(comment) => comment.input_position.row != token.input_position.row
                    || token.token_type == TokenType::EndArray,
                None => false,
            };
            if unplaced_needs_home {
                let comment = unplaced_comment.take().unwrap();
                match elem_needing_post_comment_idx {
                    Some(idx) => {
                        let line_style = comment.item_type == JsonItemType::LineComment;
                        set_postfix_comment(
                            &mut child_list,
                            idx,
                            comment.value,
                            line_style,
                            &self.options,
                        );
                    },
                    None => {
                        proof {
                            lemma_children_complexity_push(child_list@, comment);
                            lemma_items_view_push(child_list@, comment);
                        }
                        child_list.push(comment);
                    },
                }
            }
            if elem_needing_post_comment_idx.is_some() && elem_needing_post_end_row
                != token.input_position.row as isize {
                elem_needing_post_comment_idx = None;
            }
            proof {
                if on_tokens {
                    assert(arr_view(
                        child_list@,
                        comma_status,
                        elem_needing_post_comment_idx,
                        elem_needing_post_end_row,
                        unplaced_comment,
                    ) == arr_home(st0, tv));
                }
            }
            match token.token_type {
                TokenType::EndArray => {
                    if comma_status == CommaStatus::CommaSeen
                        && !self.options.allow_trailing_commas {
                        return Err(
                            FracturedJsonError::new(
                                "Array may not end with a comma with current options",
                                Some(token.input_position),
                            ),
                        );
                    }
                    end_of_array_found = true;
                },
                TokenType::Comma => {
                    if comma_status != CommaStatus::ElementSeen {
                        return Err(
                            FracturedJsonError::new(
                                "Unexpected comma in array",
                                Some(token.input_position),
                            ),
                        );
                    }
                    comma_status = CommaStatus::CommaSeen;
                },
                TokenType::BlankLine => {
                    if self.options.preserve_blank_lines {
                        let blank = self.parse_simple(&token)?;
                        proof {
                            lemma_children_complexity_push(child_list@, blank);
                            lemma_items_view_push(child_list@, blank);
                        }
                        child_list.push(blank);
                    }
                },
                TokenType::BlockComment => {
                    if self.options.comment_policy == CommentPolicy::Remove {
                        continue;
                    }
                    if self.options.comment_policy == CommentPolicy::TreatAsError {
                        return Err(
                            FracturedJsonError::new(
                                "Comments not allowed with current options",
                                Some(token.input_position),
                            ),
                        );
                    }
                    if unplaced_comment.is_some() {
                        let c = unplaced_comment.take().unwrap();
                        proof {
                            lemma_children_complexity_push(child_list@, c);
                            lemma_items_view_push(child_list@, c);
                        }
                        child_list.push(c);
                    }
                    let comment_item = self.parse_simple(&token)?;
                    if Self::is_multiline_comment(&comment_item) {
                        proof {
                            lemma_children_complexity_push(child_list@, comment_item);
                            lemma_items_view_push(child_list@, comment_item);
                        }
                        child_list.push(comment_item);
                        continue;
                    }
                    if let Some(idx) = elem_needing_post_comment_idx {
                        if comma_status == CommaStatus::ElementSeen {
                            set_postfix_comment(
                                &mut child_list,
                                idx,
                                comment_item.value,
                                false,
                                &self.options,
                            );
                            elem_needing_post_comment_idx = None;
                            continue;
                        }
                    }
                    unplaced_comment = Some(comment_item);
                },
                TokenType::LineComment => {
                    if self.options.comment_policy == CommentPolicy::Remove {
                        continue;
                    }
                    if self.options.comment_policy == CommentPolicy::TreatAsError {
                        return Err(
                            FracturedJsonError::new(
                                "Comments not allowed with current options",
                                Some(token.input_position),
                            ),
                        );
                    }
                    if unplaced_comment.is_some() {
                        let c = unplaced_comment.take().unwrap();
                        proof {
                            lemma_children_complexity_push(child_list@, c);
                            lemma_items_view_push(child_list@, c);
                        }
                        child_list.push(c);
                        let line = self.parse_simple(&token)?;
                        proof {
                            lemma_children_complexity_push(child_list@, line);
                            lemma_items_view_push(child_list@, line);
                        }
                        child_list.push(line);
                        continue;
                    }
                    if let Some(idx) = elem_needing_post_comment_idx {
                        set_postfix_comment(
                            &mut child_list,
                            idx,
                            token.text.clone(),
                            true,
                            &self.options,
                        );
                        elem_needing_post_comment_idx = None;
                        continue;
                    }
                    let line = self.parse_simple(&token)?;
                    proof {
                        lemma_children_complexity_push(child_list@, line);
                        lemma_items_view_push(child_list@, line);
                    }
                    child_list.push(line);
                },
                TokenType::False
                | TokenType::True
                | TokenType::Null
                | TokenType::String
                | TokenType::Number
                | TokenType::BeginArray
                | TokenType::BeginObject => {
                    if comma_status == CommaStatus::ElementSeen {
                        return Err(
                            FracturedJsonError::new(
                                "Comma missing while processing array",
                                Some(token.input_position),
                            ),
                        );
                    }
                    let mut element = self.parse_item(enumerator)?;
                    let ghost v_el = item_view(element);
                    proof {
                        if on_tokens {
                            enumerator.lemma_tokens();
                        }
                    }
                    comma_status = CommaStatus::ElementSeen;
                    if element.complexity + 1 > this_array_complexity {
                        this_array_complexity = element.complexity + 1;
                    }
                    if let Some(unplaced) = unplaced_comment.take() {
                        element.prefix_comment = unplaced.value;
                    }
                    proof {
                        if on_tokens {
                            assert(item_view(element) == (match s_home.unplaced {
                                Some(u) => ItemView { prefix_comment: u.value, ..v_el },
                                None => v_el,
                            }));
                        }
                        lemma_children_complexity_push(child_list@, element);
                        lemma_items_view_push(child_list@, element);
                    }
                    child_list.push(element);
                    elem_needing_post_comment_idx = Some(child_list.len() - 1);
                    elem_needing_post_end_row = enumerator.current_position().row as isize;
                    proof {
                        lemma_items_view(child_list@);
                        if on_tokens {
                            let j = enumerator.consumed() as int;
                            assert(value_at(toks, c0, self.options) == Ok::<(ItemView, int), ParseError>((v_el, j)));
                            assert(c0 < j <= toks.len());
                            assert(elem_needing_post_end_row == toks[j - 1].2.row as isize);
                            assert(goal == array_from(
                                toks,
                                j,
                                arr_view(
                                    child_list@,
                                    comma_status,
                                    elem_needing_post_comment_idx,
                                    elem_needing_post_end_row,
                                    unplaced_comment,
                                ),
                                self.options,
                                starting_input_position,
                            ));
                        }
                    }
                },
                _ => {
                    return Err(
                        FracturedJsonError::new(
                            "Unexpected token in array",
                            Some(token.input_position),
                        ),
                    );
                },
            }
        }
        Ok(make_container(JsonItemType::Array, starting_input_position, this_array_complexity, child_list, &self.options))
    }

    #[verifier::spinoff_prover]
    #[verifier::rlimit(100)]
    fn parse_object(&self, enumerator: &mut TokenEnumerator) -> (r: Result<
        JsonItem,
        FracturedJsonError,
    >)
        requires
            old(enumerator).wf(),
            old(enumerator).cur() is Some,
        ensures
            final(enumerator).wf(),
            final(enumerator).all_tokens() == old(enumerator).all_tokens(),
            old(enumerator).on_track() && r is Ok ==> final(enumerator).on_track(),
            final(enumerator).row_floor() >= old(enumerator).row_floor(),
            final(enumerator).remaining() <= old(enumerator).remaining(),
            r matches Ok(item) ==> parsed_item_ok(item, self.options) && item.complexity
                <= old(enumerator).remaining() && final(enumerator).cur() is Some
                && item.item_type == JsonItemType::Object && item.input_position == old(
                enumerator,
            ).cur()->0.input_position,
            old(enumerator).cur()->0.token_type != TokenType::BeginObject ==> r is Err,
            old(enumerator).next_lexed() is End ==> r is Err,
            old(enumerator).next_lexed() is Failed ==> r is Err,
            old(enumerator).cur()->0.token_type == TokenType::BeginObject && (old(
                enumerator,
            ).next_lexed() matches Lexed::Token(tt, _, _) && tt == TokenType::EndObject) ==> (r matches Ok(
                item,
            ) && item.children@.len() == 0 && item.complexity == 0),
            bad_start(old(enumerator).cur()->0.token_type, old(enumerator).next_lexed(), self.options)
                ==> r is Err,
            final(enumerator).consumed() >= old(enumerator).consumed(),
            follows_tokens(*old(enumerator)) && old(enumerator).cur()->0.token_type
                == TokenType::BeginObject ==> {
                let goal = object_from(
                    token_list(old(enumerator).all_tokens()),
                    old(enumerator).consumed() as int,
                    obj_start(),
                    self.options,
                    old(enumerator).cur()->0.input_position,
                );
                &&& (r is Ok <==> goal is Ok)
                &&& (r matches Err(e) ==> goal matches Err(pe) && reports(e, pe))
                &&& (r matches Ok(item) ==> goal == Ok::<(ItemView, int), ParseError>(
                    (item_view(item), final(enumerator).consumed() as int),
                ))
            },
        decreases old(enumerator).remaining(), 0int,
    {
        if enumerator.current()?.token_type != TokenType::BeginObject {
            return Err(
                FracturedJsonError::new("Parser logic error", Some(enumerator.current_position())),
            );
        }
        let starting_input_position = enumerator.current_position();
        let ghost start_remaining = enumerator.remaining();
        let mut child_list: Vec<JsonItem> = Vec::new();
        let mut property_name: Option<JsonToken> = None;
        let mut property_value: Option<JsonItem> = None;
        let mut line_prop_value_ends: isize = -1;
        let mut before_prop_comments: Vec<JsonItem> = Vec::new();
        let mut mid_prop_comments: Vec<JsonToken> = Vec::new();
        let mut after_prop_comment: Option<JsonItem> = None;
        let mut after_prop_comment_was_after_comma = false;
        let mut phase = ObjectPhase::BeforePropName;
        let mut this_obj_complexity: usize = 0;
        let mut end_of_object = false;
        let ghost starts = enumerator.next_lexed();
        let ghost empty_object = starts matches Lexed::Token(tt, _, _) && tt
            == TokenType::EndObject;
        let ghost bad = bad_start(old(enumerator).cur()->0.token_type, starts, self.options);
        let ghost mut first = true;
        let ghost on_tokens = follows_tokens(*enumerator);
        let ghost toks = token_list(enumerator.all_tokens());
        let ghost goal = object_from(
            toks,
            enumerator.consumed() as int,
            obj_start(),
            self.options,
            starting_input_position,
        );
        proof {
            assert(items_view(child_list@) =~= Seq::<ItemView>::empty());
            assert(tokens_view(mid_prop_comments@) =~= Seq::<TokView>::empty());
        }
        while !end_of_object
            invariant
                on_tokens == follows_tokens(*old(enumerator)),
                toks == token_list(old(enumerator).all_tokens()),
                goal == object_from(
                    toks,
                    old(enumerator).consumed() as int,
                    obj_start(),
                    self.options,
                    starting_input_position,
                ),
                starting_input_position == old(enumerator).cur()->0.input_position,
                on_tokens ==> follows_tokens(*enumerator),
                on_tokens && !end_of_object ==> goal == object_from(
                    toks,
                    enumerator.consumed() as int,
                    obj_view(
                        child_list@,
                        property_name,
                        property_value,
                        line_prop_value_ends,
                        before_prop_comments@,
                        mid_prop_comments@,
                        after_prop_comment,
                        after_prop_comment_was_after_comma,
                        phase,
                    ),
                    self.options,
                    starting_input_position,
                ),
                on_tokens && end_of_object ==> goal == (if !self.options.allow_trailing_commas
                    && phase == ObjectPhase::AfterComma {
                    Err(
                        (
                            "Object may not end with comma with current options"@,
                            enumerator.cur()->0.input_position,
                        ),
                    )
                } else {
                    Ok(
                        (
                            container_view(
                                JsonItemType::Object,
                                starting_input_position,
                                items_view(child_list@),
                            ),
                            enumerator.consumed() as int,
                        ),
                    )
                }),
                first ==> enumerator.next_lexed() == starts && child_list@.len() == 0
                    && this_obj_complexity == 0 && phase == ObjectPhase::BeforePropName
                    && property_name is None && property_value is None && !end_of_object
                    && after_prop_comment is None && before_prop_comments@.len() == 0,
                !first ==> starts is Token,
                bad ==> first,
                old(enumerator).cur()->0.token_type == TokenType::BeginObject,
                bad == bad_start(old(enumerator).cur()->0.token_type, starts, self.options),
                empty_object && !first ==> end_of_object && child_list@.len() == 0
                    && this_obj_complexity == 0 && phase == ObjectPhase::BeforePropName,
                starts == old(enumerator).next_lexed(),
                empty_object == (starts matches Lexed::Token(tt, _, _) && tt
                    == TokenType::EndObject),
                enumerator.wf(),
                enumerator.all_tokens() == old(enumerator).all_tokens(),
                old(enumerator).on_track() ==> enumerator.on_track(),
                enumerator.row_floor() >= old(enumerator).row_floor(),
                enumerator.remaining() <= start_remaining,
                start_remaining == old(enumerator).remaining(),
                enumerator.consumed() >= old(enumerator).consumed(),
                start_remaining <= MAX_DOC_SIZE,
                end_of_object ==> enumerator.cur() is Some,
                all_parsed_ok(child_list@, self.options),
                this_obj_complexity == children_complexity(child_list@),
                this_obj_complexity <= start_remaining,
                all_loose_comments(before_prop_comments@, self.options),
                mid_prop_comments@.len() > 0 ==> self.options.comment_policy
                    == CommentPolicy::Preserve,
                after_prop_comment matches Some(c) ==> loose_comment(c, self.options)
                    && is_comment(c.item_type),
                property_value matches Some(v) ==> parsed_item_ok(v, self.options)
                    && v.complexity < start_remaining && !is_comment_or_blank(v.item_type),
                property_name matches Some(n) ==> !n.text@.contains('\n'),
                forall|i: int|
                    0 <= i < before_prop_comments@.len() && #[trigger] spans_lines(
                        before_prop_comments@[i],
                    ) ==> before_prop_comments@[i].input_position.row < enumerator.row_floor(),
                property_value matches Some(v) ==> forall|i: int|
                    0 <= i < before_prop_comments@.len() && #[trigger] spans_lines(
                        before_prop_comments@[i],
                    ) ==> before_prop_comments@[i].input_position.row < v.input_position.row,
                after_prop_comment matches Some(c) ==> (spans_lines(c) ==> c.input_position.row
                    < enumerator.row_floor()),
                property_value is Some ==> property_name is Some,
                (phase == ObjectPhase::AfterPropName || phase == ObjectPhase::AfterColon)
                    ==> property_name is Some && property_value is None,
                property_value is Some ==> (phase == ObjectPhase::AfterPropValue || phase
                    == ObjectPhase::AfterComma),
            decreases enumerator.remaining(), if end_of_object {
                0int
            } else {
                1int
            },
        {
            let ghost floor_head = enumerator.row_floor();
            let ghost st0 = obj_view(
                child_list@,
                property_name,
                property_value,
                line_prop_value_ends,
                before_prop_comments@,
                mid_prop_comments@,
                after_prop_comment,
                after_prop_comment_was_after_comma,
                phase,
            );
            let ghost c0 = enumerator.consumed() as int;
            proof {
                if on_tokens {
                    enumerator.lemma_tokens();
                }
            }
            let token = Self::get_next_token_or_throw(enumerator, starting_input_position)?;
            let ghost tv = token_view(token);
            let ghost s_flush = obj_flush(st0, tv);
            proof {
                first = false;
                if on_tokens {
                    enumerator.lemma_tokens();
                    assert(tv == toks[c0]);
                }
            }
            proof {
                enumerator.lemma_current_rows();
            }
            let is_new_line = line_prop_value_ends != token.input_position.row as isize;
            let is_end_of_object = token.token_type == TokenType::EndObject;
            let starting_next_prop_name = token.token_type == TokenType::String && phase
                == ObjectPhase::AfterComma;
            let is_excess_post_comment = after_prop_comment.is_some() && (token.token_type
                == TokenType::BlockComment || token.token_type == TokenType::LineComment);
            let need_to_flush = property_name.is_some() && property_value.is_some() && (
            is_new_line || is_end_of_object || starting_next_prop_name || is_excess_post_comment);
            if need_to_flush {
                let mut comment_to_hold_for_next_elem: Option<JsonItem> = None;
                if starting_next_prop_name && after_prop_comment_was_after_comma && !is_new_line {
                    comment_to_hold_for_next_elem = after_prop_comment.take();
                }
                let name = property_name.take().unwrap();
                let value = property_value.take().unwrap();
                let value_complexity = value.complexity;
                let after = after_prop_comment.take();
                let ghost list_g = child_list@;
                let ghost before_g = before_prop_comments@;
                let ghost value_g = value;
                let ghost after_g = after;
                Self::attach_object_value_pieces(
                    &mut child_list,
                    &name,
                    value,
                    line_prop_value_ends,
                    &mut before_prop_comments,
                    &mid_prop_comments,
                    after,
                    &self.options,
                );
                proof {
                    lemma_attach_view(
                        list_g,
                        child_list@,
                        name.text@,
                        value_g,
                        line_prop_value_ends,
                        before_g,
                        mid_prop_comments@,
                        after_g,
                    );
                }
                if value_complexity + 1 > this_obj_complexity {
                    this_obj_complexity = value_complexity + 1;
                }
                before_prop_comments.clear();
                mid_prop_comments.clear();
                proof {
                    assert(items_view(before_prop_comments@) =~= Seq::<ItemView>::empty());
                    assert(tokens_view(mid_prop_comments@) =~= Seq::<TokView>::empty());
                }
                if let Some(comment) = comment_to_hold_for_next_elem {
                    proof {
                        lemma_items_view_push(before_prop_comments@, comment);
                    }
                    before_prop_comments.push(comment);
                }
                proof {
                    assert(all_loose_comments(before_prop_comments@, self.options));
                }
            }
            proof {
                if on_tokens {
                    assert(obj_view(
                        child_list@,
                        property_name,
                        property_value,
                        line_prop_value_ends,
                        before_prop_comments@,
                        mid_prop_comments@,
                        after_prop_comment,
                        after_prop_comment_was_after_comma,
                        phase,
                    ) == s_flush);
                }
            }
            match token.token_type {
                TokenType::BlankLine => {
                    if !self.options.preserve_blank_lines {
                        continue;
                    }
                    if phase == ObjectPhase::AfterPropName || phase == ObjectPhase::AfterColon {
                        continue;
                    }
                    proof {
                        lemma_append_loose(child_list@, before_prop_comments@, self.options);
                        lemma_items_view_append(child_list@, before_prop_comments@);
                        assert(items_view(Seq::<JsonItem>::empty()) =~= Seq::<ItemView>::empty());
                    }
                    child_list.append(&mut before_prop_comments);
                    let blank = self.parse_simple(&token)?;
                    proof {
                        lemma_children_complexity_push(child_list@, blank);
                        lemma_items_view_push(child_list@, blank);
                    }
                    child_list.push(blank);
                },
                TokenType::BlockComment | TokenType::LineComment => {
                    if self.options.comment_policy == CommentPolicy::Remove {
                        continue;
                    }
                    if self.options.comment_policy == CommentPolicy::TreatAsError {
                        return Err(
                            FracturedJsonError::new(
                                "Comments not allowed with current options",
                                Some(token.input_position),
                            ),
                        );
                    }
                    if phase == ObjectPhase::BeforePropName || property_name.is_none() {
                        let c = self.parse_simple(&token)?;
                        proof {
                            lemma_items_view_push(before_prop_comments@, c);
                        }
                        before_prop_comments.push(c);
                        proof {
                            assert(all_loose_comments(before_prop_comments@, self.options));
                        }
                    } else if phase == ObjectPhase::AfterPropName || phase
                        == ObjectPhase::AfterColon {
                        proof {
                            assert(tokens_view(mid_prop_comments@.push(token)) =~= tokens_view(
                                mid_prop_comments@,
                            ).push(token_view(token)));
                        }
                        mid_prop_comments.push(token);
                    } else {
                        after_prop_comment = Some(self.parse_simple(&token)?);
                        after_prop_comment_was_after_comma = phase == ObjectPhase::AfterComma;
                    }
                },
                TokenType::EndObject => {
                    if phase == ObjectPhase::AfterPropName || phase == ObjectPhase::AfterColon {
                        return Err(
                            FracturedJsonError::new(
                                "Unexpected end of object",
                                Some(token.input_position),
                            ),
                        );
                    }
                    proof {
                        lemma_append_loose(child_list@, before_prop_comments@, self.options);
                        lemma_items_view_append(child_list@, before_prop_comments@);
                        assert(items_view(Seq::<JsonItem>::empty()) =~= Seq::<ItemView>::empty());
                    }
                    child_list.append(&mut before_prop_comments);
                    end_of_object = true;
                },
                TokenType::String => {
                    if phase == ObjectPhase::BeforePropName || phase == ObjectPhase::AfterComma {
                        property_name = Some(token);
                        phase = ObjectPhase::AfterPropName;
                    } else if phase == ObjectPhase::AfterColon {
                        let v = self.parse_item(enumerator)?;
                        proof {
                            assert forall|i: int|
                                0 <= i < before_prop_comments@.len() && #[trigger] spans_lines(
                                    before_prop_comments@[i],
                                ) implies before_prop_comments@[i].input_position.row
                                < v.input_position.row by {}
                        }
                        property_value = Some(v);
                        line_prop_value_ends = enumerator.current_position().row as isize;
                        phase = ObjectPhase::AfterPropValue;
                        proof {
                            if on_tokens {
                                enumerator.lemma_tokens();
                                let j = enumerator.consumed() as int;
                                assert(value_at(toks, c0, self.options) == Ok::<(ItemView, int), ParseError>((item_view(v), j)));
                                assert(c0 < j <= toks.len());
                                assert(line_prop_value_ends == toks[j - 1].2.row as isize);
                            }
                        }
                    } else {
                        return Err(
                            FracturedJsonError::new(
                                "Unexpected string found while processing object",
                                Some(token.input_position),
                            ),
                        );
                    }
                },
                TokenType::False
                | TokenType::True
                | TokenType::Null
                | TokenType::Number
                | TokenType::BeginArray
                | TokenType::BeginObject => {
                    if phase != ObjectPhase::AfterColon {
                        return Err(
                            FracturedJsonError::new(
                                "Unexpected element while processing object",
                                Some(token.input_position),
                            ),
                        );
                    }
                    let v = self.parse_item(enumerator)?;
                    proof {
                        assert forall|i: int|
                            0 <= i < before_prop_comments@.len() && #[trigger] spans_lines(
                                before_prop_comments@[i],
                            ) implies before_prop_comments@[i].input_position.row
                            < v.input_position.row by {}
                    }
                    property_value = Some(v);
                    line_prop_value_ends = enumerator.current_position().row as isize;
                    phase = ObjectPhase::AfterPropValue;
                    proof {
                        if on_tokens {
                            enumerator.lemma_tokens();
                            let j = enumerator.consumed() as int;
                            assert(value_at(toks, c0, self.options) == Ok::<(ItemView, int), ParseError>((item_view(v), j)));
                            assert(c0 < j <= toks.len());
                            assert(line_prop_value_ends == toks[j - 1].2.row as isize);
                        }
                    }
                },
                TokenType::Colon => {
                    if phase != ObjectPhase::AfterPropName {
                        return Err(
                            FracturedJsonError::new(
                                "Unexpected colon while processing object",
                                Some(token.input_position),
                            ),
                        );
                    }
                    phase = ObjectPhase::AfterColon;
                },
                TokenType::Comma => {
                    if phase != ObjectPhase::AfterPropValue {
                        return Err(
                            FracturedJsonError::new(
                                "Unexpected comma while processing object",
                                Some(token.input_position),
                            ),
                        );
                    }
                    phase = ObjectPhase::AfterComma;
                },
                _ => {
                    return Err(
                        FracturedJsonError::new(
                            "Unexpected token while processing object",
                            Some(token.input_position),
                        ),
                    );
                },
            }
        }
        if !self.options.allow_trailing_commas && phase == ObjectPhase::AfterComma {
            return Err(
                FracturedJsonError::new(
                    "Object may not end with comma with current options",
                    Some(enumerator.current_position()),
                ),
            );
        }
        Ok(make_container(JsonItemType::Object, starting_input_position, this_obj_complexity, child_list, &self.options))
    }

    /// Adds a finished property to `obj_item_list`: the value under its name,
    /// with the comments met before, inside and after it attached where they
    /// belong, and the others placed around it.
    fn attach_object_value_pieces(
        obj_item_list: &mut Vec<JsonItem>,
        name: &JsonToken,
        element: JsonItem,
        value_ending_line: isize,
        before_comments: &mut Vec<JsonItem>,
        mid_comments: &Vec<JsonToken>,
        after_comment: Option<JsonItem>,
        opts: &FracturedJsonOptions,
    )
        requires
            all_parsed_ok(old(obj_item_list)@, *opts),
            parsed_item_ok(element, *opts),
            !is_comment_or_blank(element.item_type),
            !name.text@.contains('\n'),
            all_loose_comments(old(before_comments)@, *opts),
            forall|i: int|
                0 <= i < old(before_comments)@.len() && #[trigger] spans_lines(
                    old(before_comments)@[i],
                ) ==> old(before_comments)@[i].input_position.row < element.input_position.row,
            mid_comments@.len() > 0 ==> opts.comment_policy == CommentPolicy::Preserve,
            after_comment matches Some(c) ==> loose_comment(c, *opts) && is_comment(c.item_type),
        ensures
            all_parsed_ok(final(obj_item_list)@, *opts),
            children_complexity(final(obj_item_list)@) == (if children_complexity(
                old(obj_item_list)@,
            ) > element.complexity + 1 {
                children_complexity(old(obj_item_list)@)
            } else {
                (element.complexity + 1) as nat
            }),
            final(before_comments)@.len() == 0,
            ({
                let before = old(before_comments)@;
                let merged = before.len() > 0 && before.last().item_type
                    == JsonItemType::BlockComment && before.last().input_position.row
                    == element.input_position.row;
                let list1 = if merged {
                    old(obj_item_list)@ + before.drop_last()
                } else {
                    old(obj_item_list)@ + before
                };
                let attach = after_comment matches Some(a) && !(a.item_type
                    == JsonItemType::BlockComment && a.value@.contains('\n'))
                    && a.input_position.row as isize == value_ending_line;
                let n1 = list1.len() as int;
                let fl = final(obj_item_list)@;
                &&& fl.subrange(0, n1) == list1
                &&& fl.len() == n1 + 1 + (if !attach && after_comment is Some {
                    1int
                } else {
                    0int
                })
                &&& attached_item(
                    fl[n1],
                    element,
                    name.text@,
                    mid_comments@,
                    if merged {
                        Some(before.last().value@)
                    } else {
                        None
                    },
                    if attach {
                        Some((after_comment->0.value@, after_comment->0.item_type == JsonItemType::LineComment))
                    } else {
                        None
                    },
                )
                &&& !attach && after_comment is Some ==> fl[n1 + 1] == after_comment->0
            }),
    {
        let ghost original = element;
        let mut element = element;
        element.name = name.text.clone();
        if mid_comments.len() > 0 {
            let mut combined = String::new();
            let mut i: usize = 0;
            while i < mid_comments.len()
                invariant
                    i <= mid_comments@.len(),
                    combined@ == mid_upto(tokens_view(mid_comments@), i as int),
                decreases mid_comments@.len() - i,
            {
                proof {
                    assert(tokens_view(mid_comments@)[i as int] == token_view(mid_comments@[i as int]));
                }
                combined.append(mid_comments[i].text.as_str());
                if i < mid_comments.len() - 1 || mid_comments[i].token_type
                    == TokenType::LineComment {
                    crate::text::push_char(&mut combined, '\n');
                }
                i += 1;
            }
            element.middle_comment_has_new_line = contains_char(combined.as_str(), '\n');
            element.middle_comment = combined;
        }
        if before_comments.len() > 0 {
            let last = before_comments.pop().unwrap();
            proof {
                let n = old(before_comments)@.len() - 1;
                assert(last == old(before_comments)@[n]);
                if spans_lines(old(before_comments)@[n]) {
                    assert(last.input_position.row < element.input_position.row);
                }
            }
            proof {
                assert(loose_comment(old(before_comments)@[old(before_comments)@.len() - 1], *opts));
                assert(all_loose_comments(before_comments@, *opts)) by {
                    assert forall|i: int| 0 <= i < before_comments@.len() implies #[trigger] loose_comment(
                        before_comments@[i],
                        *opts,
                    ) by {
                        assert(before_comments@[i] == old(before_comments)@[i]);
                    }
                }
                lemma_append_loose(obj_item_list@, before_comments@, *opts);
            }
            if last.item_type == JsonItemType::BlockComment && last.input_position.row
                == element.input_position.row {
                element.prefix_comment = last.value;
                obj_item_list.append(before_comments);
            } else {
                obj_item_list.append(before_comments);
                proof {
                    lemma_children_complexity_push(obj_item_list@, last);
                    lemma_push_ok(obj_item_list@, last, *opts);
                }
                obj_item_list.push(last);
            }
        }
        let ghost mid_list = obj_item_list@;
        proof {
            let before = old(before_comments)@;
            let merged = before.len() > 0 && before.last().item_type == JsonItemType::BlockComment
                && before.last().input_position.row == original.input_position.row;
            if before.len() > 0 {
                assert(before.drop_last().push(before.last()) =~= before);
                if merged {
                    assert(mid_list =~= old(obj_item_list)@ + before.drop_last());
                } else {
                    assert(mid_list =~= old(obj_item_list)@ + before);
                }
            } else {
                assert(mid_list =~= old(obj_item_list)@ + before);
            }
        }
        assert(children_complexity(mid_list) == children_complexity(old(obj_item_list)@));
        assert(all_parsed_ok(mid_list, *opts));
        let attach_after = match &after_comment {
            Some(after) => !Self::is_multiline_comment(after) && after.input_position.row as isize
                == value_ending_line,
            None => false,
        };
        if attach_after {
            let after = after_comment.unwrap();
            element.postfix_comment = after.value;
            element.is_post_comment_line_style = after.item_type == JsonItemType::LineComment;
            proof {
                lemma_recomment(original, element, *opts);
                lemma_children_complexity_push(obj_item_list@, element);
                lemma_push_ok(obj_item_list@, element, *opts);
            }
            obj_item_list.push(element);
        } else {
            proof {
                lemma_recomment(original, element, *opts);
                lemma_children_complexity_push(obj_item_list@, element);
                lemma_push_ok(obj_item_list@, element, *opts);
            }
            obj_item_list.push(element);
            if let Some(after) = after_comment {
                proof {
                    lemma_children_complexity_push(obj_item_list@, after);
                    lemma_push_ok(obj_item_list@, after, *opts);
                }
                obj_item_list.push(after);
            }
        }
    }

    fn item_type_from_token_type(token: &JsonToken) -> (r: Result<
        JsonItemType,
        FracturedJsonError,
    >)
        ensures
            r matches Ok(t) ==> t == item_type_of(token.token_type),
            r is Ok <==> !is_punctuation(token.token_type),
            r matches Err(e) ==> reports(e, ("Unexpected Token"@, token.input_position)),
    {
        match token.token_type {
            TokenType::False => Ok(JsonItemType::False),
            TokenType::True => Ok(JsonItemType::True),
            TokenType::Null => Ok(JsonItemType::Null),
            TokenType::Number => Ok(JsonItemType::Number),
            TokenType::String => Ok(JsonItemType::String),
            TokenType::BlankLine => Ok(JsonItemType::BlankLine),
            TokenType::BlockComment => Ok(JsonItemType::BlockComment),
            TokenType::LineComment => Ok(JsonItemType::LineComment),
            _ => Err(FracturedJsonError::new("Unexpected Token", Some(token.input_position))),
        }
    }

    fn get_next_token_or_throw(
        enumerator: &mut TokenEnumerator,
        start_position: InputPosition,
    ) -> (r: Result<JsonToken, FracturedJsonError>)
        requires
            old(enumerator).wf(),
        ensures
            final(enumerator).wf(),
            final(enumerator).all_tokens() == old(enumerator).all_tokens(),
            old(enumerator).on_track() && r is Ok ==> final(enumerator).on_track(),
            final(enumerator).row_floor() >= old(enumerator).row_floor(),
            final(enumerator).remaining() <= old(enumerator).remaining(),
            r matches Ok(t) ==> final(enumerator).cur() == Some(t) && final(enumerator).remaining()
                < old(enumerator).remaining() && position_ok(t.input_position)
                && t.input_position.row <= MAX_DOC_SIZE && (t.token_type == TokenType::LineComment
                ==> !crate::text::ends_in_ws(t.text@)) && token_shape(t.token_type, t.text@),
            r matches Ok(t) ==> (t.token_type != TokenType::BlankLine ==> t.input_position.row
                >= old(enumerator).row_floor()),
            r is Ok <==> old(enumerator).next_lexed() is Token,
            r is Ok ==> final(enumerator).consumed() == old(enumerator).consumed() + 1,
            final(enumerator).consumed() >= old(enumerator).consumed(),
            old(enumerator).next_lexed() matches Lexed::Token(tt, txt, p) ==> r matches Ok(t)
                && t.token_type == tt && t.text@ == txt && t.input_position == byte_pos(
                old(enumerator).text(),
                p,
            ),
            old(enumerator).next_lexed() is End ==> (r matches Err(e) && reports(
                e,
                (
                    "Unexpected end of input while processing array or object starting"@,
                    start_position,
                ),
            )),
            old(enumerator).next_lexed() matches Lexed::Failed(m, p) ==> (r matches Err(e)
                && e.input_position == Some(byte_pos(old(enumerator).text(), p))),
    {
        if !enumerator.move_next()? {
            return Err(
                FracturedJsonError::new(
                    "Unexpected end of input while processing array or object starting",
                    Some(start_position),
                ),
            );
        }
        let t = enumerator.current()?.clone();
        proof {
            enumerator.generator.lemma_wf_pos();
            let start = choose|start: int| #[trigger] token_at(t, enumerator.generator.text(), start);
            lemma_utf8_len_bounds(enumerator.generator.text(), start);
        }
        Ok(t)
    }

    /// A block comment that spans lines.
    fn is_multiline_comment(item: &JsonItem) -> (b: bool)
        ensures
            b == (item.item_type == JsonItemType::BlockComment && item.value@.contains('\n')),
    {
        item.item_type == JsonItemType::BlockComment && contains_char(item.value.as_str(), '\n')
    }
}

/// A comment or blank line standing alone, as the parser keeps it with `opts`.
pub open spec fn loose_comment(c: JsonItem, opts: FracturedJsonOptions) -> bool {
    &&& parsed_item_ok(c, opts)
    &&& is_comment_or_blank(c.item_type)
    &&& (c.item_type == JsonItemType::LineComment ==> !c.value@.contains('\n'))
    &&& c.complexity == 0
    &&& c.children@.len() == 0
    &&& c.prefix_comment@.len() == 0
    &&& c.middle_comment@.len() == 0
    &&& c.postfix_comment@.len() == 0
}

pub open spec fn all_loose_comments(s: Seq<JsonItem>, opts: FracturedJsonOptions) -> bool {
    forall|i: int| 0 <= i < s.len() ==> #[trigger] loose_comment(s[i], opts)
}

/// Adding loose comments to a list keeps its complexity.
proof fn lemma_append_loose(s: Seq<JsonItem>, t: Seq<JsonItem>, opts: FracturedJsonOptions)
    requires
        all_loose_comments(t, opts),
    ensures
        children_complexity(s + t) == children_complexity(s),
        all_parsed_ok(s, opts) ==> all_parsed_ok(s + t, opts),
    decreases t.len(),
{
    if t.len() > 0 {
        assert(all_loose_comments(t.drop_last(), opts));
        lemma_append_loose(s, t.drop_last(), opts);
        assert((s + t).drop_last() =~= s + t.drop_last());
        assert(loose_comment(t.last(), opts));
    } else {
        assert(s + t =~= s);
    }
    if all_parsed_ok(s, opts) {
        assert forall|i: int| 0 <= i < (s + t).len() implies #[trigger] parsed_item_ok(
            (s + t)[i],
            opts,
        ) by {
            if i >= s.len() {
                assert(loose_comment(t[i - s.len()], opts));
            }
        }
    }
}

/// The kind of item that parsing from a token of kind `t` gives.
pub open spec fn item_kind_of_token(t: TokenType) -> JsonItemType {
    if t == TokenType::BeginArray {
        JsonItemType::Array
    } else if t == TokenType::BeginObject {
        JsonItemType::Object
    } else {
        item_type_of(t)
    }
}

/// A value item that meets `parsed_item_ok`, or a comment or blank line
/// standing alone (which the caller keeps or drops by the options).
pub open spec fn item_or_loose(item: JsonItem, opts: FracturedJsonOptions) -> bool {
    if is_comment_or_blank(item.item_type) {
        &&& item.complexity == 0
        &&& item.name@.len() == 0
        &&& item.children@.len() == 0
        &&& item.prefix_comment@.len() == 0
        &&& item.middle_comment@.len() == 0
        &&& item.postfix_comment@.len() == 0
    } else {
        parsed_item_ok(item, opts)
    }
}

/// Changing the comments attached to an item keeps it as the parser
/// guarantees, as long as comments are only attached when they are kept.
proof fn lemma_recomment(a: JsonItem, b: JsonItem, opts: FracturedJsonOptions)
    requires
        parsed_item_ok(a, opts),
        b.item_type == a.item_type,
        b.complexity == a.complexity,
        b.children@ == a.children@,
        b.value@ == a.value@,
        !b.name@.contains('\n'),
        !b.prefix_comment@.contains('\n'),
        !b.postfix_comment@.contains('\n'),
        b.middle_comment@.contains('\n') ==> b.middle_comment_has_new_line,
        opts.comment_policy != CommentPolicy::Preserve ==> {
            &&& b.prefix_comment@.len() == 0
            &&& b.middle_comment@.len() == 0
            &&& b.postfix_comment@.len() == 0
        },
    ensures
        parsed_item_ok(b, opts),
{
}

proof fn lemma_push_ok(s: Seq<JsonItem>, x: JsonItem, opts: FracturedJsonOptions)
    requires
        all_parsed_ok(s, opts),
        parsed_item_ok(x, opts),
    ensures
        all_parsed_ok(s.push(x), opts),
{
    assert forall|i: int| 0 <= i < s.push(x).len() implies #[trigger] parsed_item_ok(
        s.push(x)[i],
        opts,
    ) by {
        if i < s.len() {
            assert(s.push(x)[i] == s[i]);
        }
    }
}

/// The item kind for a token kind that stands alone.
pub open spec fn item_type_of(t: TokenType) -> JsonItemType {
    match t {
        TokenType::False => JsonItemType::False,
        TokenType::True => JsonItemType::True,
        TokenType::Null => JsonItemType::Null,
        TokenType::Number => JsonItemType::Number,
        TokenType::String => JsonItemType::String,
        TokenType::BlankLine => JsonItemType::BlankLine,
        TokenType::BlockComment => JsonItemType::BlockComment,
        TokenType::LineComment => JsonItemType::LineComment,
        _ => JsonItemType::Null,
    }
}

/// Brackets, commas and colons: tokens that are no item by themselves.
pub open spec fn is_punctuation(t: TokenType) -> bool {
    t == TokenType::BeginArray || t == TokenType::EndArray || t == TokenType::BeginObject || t
        == TokenType::EndObject || t == TokenType::Comma || t == TokenType::Colon
}

/// A comment token kind.
pub open spec fn is_comment_token(t: TokenType) -> bool {
    t == TokenType::LineComment || t == TokenType::BlockComment
}

} // verus!
