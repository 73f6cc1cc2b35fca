//! The formatter: lays the document model out as text.

use vstd::prelude::*;
use vstd::string::StrSliceExecFns;
use crate::buffer::{
    lemma_concat_add, repeat_seq,
    PadsModel, concat_all, end_line_doc, finished_line, lemma_finished_line_trimmed, pads_model, CharCount,
    PaddedFormattingTokens, StringJoinBuffer, StringLength, lemma_repeat_plain, same_texts, tokens_plain,
};
use crate::convert::{convert_value_to_dom, depth_error_message, dom_of, value_depth, JsonValue};
use crate::error::FracturedJsonError;
use crate::model::{is_comment_or_blank, BracketPaddingType, JsonItem, JsonItemType, TableColumnType};
use crate::options::{
    CommentPolicy, FracturedJsonOptions, NumberListAlignment, TableCommaPlacement,
};
use crate::parser::{
    all_parsed_ok, bad_start, count_values, first_lexed, is_comment_token, is_container,
    is_scalar_token, lemma_parsed_items_ok, parse_result, parsed_item_ok, second_lexed, tokenizes,
    Parser,
};
use crate::parse_spec::{
    item_view, items_view, lemma_items_view, lemma_items_view_drop_last, ItemView,
};
use crate::table_template::{
    add_piece, add_spaces, atomic_size, parts_plain, piece_width, sat_add, sat_sub,
    lemma_shown_unique, shown_normalized, template_wf, fitted, fresh_template, root_measured,
    TableTemplate,
};
use crate::text::{
    decimal, chars_of, contains_char, ends_in_ws, is_whitespace, is_ws, string_from_chars, lemma_trim_end_ws, saturating_product,
    spaces_seq, string_from_range, trim_end_string, trim_end_ws,
};
use crate::tokenizer::{utf8_len, Lexed, MAX_DOC_SIZE};

verus! {

/// A finished output line does not end in whitespace before its line
/// ending `eol` (or, without a line ending, at all).
pub open spec fn line_ok(line: Seq<char>, eol: Seq<char>) -> bool {
    ||| exists|t: Seq<char>| #[trigger] (t + eol) == line && !ends_in_ws(t)
    ||| !ends_in_ws(line)
}

/// Every finished line is `line_ok`.
pub open spec fn doc_ok(doc: Seq<Seq<char>>, eol: Seq<char>) -> bool {
    forall|i: int| 0 <= i < doc.len() ==> line_ok(#[trigger] doc[i], eol)
}

/// Ending a line keeps the document `doc_ok`, whatever the line holds.
pub proof fn lemma_end_line_ok(doc: Seq<Seq<char>>, parts: Seq<Seq<char>>, eol: Seq<char>)
    requires
        doc_ok(doc, eol),
    ensures
        doc_ok(end_line_doc(doc, parts, eol), eol),
        doc_ok(end_line_doc(doc, parts, Seq::empty()), eol),
{
    lemma_finished_line_trimmed(parts, eol);
    let t = trim_end_ws(concat_all(parts));
    assert(line_ok(finished_line(parts, eol), eol)) by {
        assert(t + eol == finished_line(parts, eol));
    }
    assert(finished_line(parts, Seq::empty()) =~= t);
    let d1 = end_line_doc(doc, parts, eol);
    assert forall|i: int| 0 <= i < d1.len() implies line_ok(#[trigger] d1[i], eol) by {
        if i < doc.len() {
            assert(d1[i] == doc[i]);
        }
    }
    let d2 = end_line_doc(doc, parts, Seq::empty());
    assert forall|i: int| 0 <= i < d2.len() implies line_ok(#[trigger] d2[i], eol) by {
        if i < doc.len() {
            assert(d2[i] == doc[i]);
        }
    }
}

/// The text is the concatenation of lines that each end without
/// whitespace before their line ending `eol`.
pub open spec fn output_ok(text: Seq<char>, eol: Seq<char>) -> bool {
    exists|lines: Seq<Seq<char>>| #[trigger] concat_all(lines) == text && doc_ok(lines, eol)
}

/// The main JSON formatter.
///
/// `Formatter` takes JSON text (or a value of the library's JSON model) and
/// produces human-readable output according to `options`. Widths are
/// measured with `string_length_func`; by default characters are counted.
pub struct Formatter<L: StringLength = CharCount> {
    /// Configuration options that control formatting behavior.
    pub options: FracturedJsonOptions,
    /// How the width of text is measured for alignment.
    pub string_length_func: L,
    buffer: StringJoinBuffer,
    pads: PaddedFormattingTokens,
}

impl Default for Formatter<CharCount> {
    fn default() -> (r: Self)
        ensures
            r.opts().is_default(),
    {
        Self::new()
    }
}

impl Formatter<CharCount> {
    /// Creates a new formatter with default options, counting characters.
    pub fn new() -> (r: Self)
        ensures
            r.opts().is_default(),
    {
        let options = FracturedJsonOptions::default();
        let string_length_func = CharCount;
        let pads = PaddedFormattingTokens::new(&options, &string_length_func);
        Formatter { options, string_length_func, buffer: StringJoinBuffer::default(), pads }
    }

    /// The default width function: the number of Unicode characters.
    pub fn string_length_by_char_count(value: &str) -> (n: usize)
        ensures
            n == value@.len(),
    {
        value.unicode_len()
    }
}

/// The lines of `s` as `str::lines` gives them: split at line feeds, a
/// carriage return before each feed dropped, and no empty last line after a
/// final feed.
pub open spec fn lines_of(s: Seq<char>) -> Seq<Seq<char>>
    decreases s.len(),
{
    if s.len() == 0 {
        Seq::empty()
    } else {
        match crate::number::find_char(s, '\n') {
            Some(k) => {
                if 0 <= k < s.len() {
                    seq![strip_cr(s.take(k))] + lines_of(s.skip(k + 1))
                } else {
                    seq![strip_cr(s)]
                }
            },
            None => seq![strip_cr(s)],
        }
    }
}

/// `l` without one carriage return at its end.
pub open spec fn strip_cr(l: Seq<char>) -> Seq<char> {
    if l.len() > 0 && l.last() == '\r' {
        l.drop_last()
    } else {
        l
    }
}

/// The texts of `parts` joined with line feeds, then one more line feed
/// unless the result is empty.
pub open spec fn join_lines_nl(parts: Seq<Seq<char>>) -> Seq<char> {
    let joined = join_with_nl(parts);
    if joined.len() == 0 {
        joined
    } else {
        joined.push('\n')
    }
}

pub open spec fn join_with_nl(parts: Seq<Seq<char>>) -> Seq<char>
    decreases parts.len(),
{
    if parts.len() == 0 {
        Seq::empty()
    } else if parts.len() == 1 {
        parts[0]
    } else {
        join_with_nl(parts.drop_last()).push('\n') + parts.last()
    }
}

/// Every line of `text` that holds more than whitespace is short enough
/// for the scanner.
pub open spec fn lines_fit(text: Seq<char>) -> bool {
    forall|i: int|
        0 <= i < lines_of(text).len() && !crate::text::all_ws(#[trigger] lines_of(text)[i])
            ==> utf8_len(lines_of(text)[i]) <= MAX_DOC_SIZE
}

/// The lines of `text`, as `lines_of` gives them.
pub fn split_lines(text: &str) -> (r: Vec<String>)
    ensures
        r@.map_values(|s: String| s@) == lines_of(text@),
{
    let v = chars_of(text);
    let mut out: Vec<String> = Vec::new();
    let mut start: usize = 0;
    assert(v@.skip(0) =~= v@);
    while start < v.len()
        invariant
            start <= v@.len(),
            v@ == text@,
            lines_of(text@) == out@.map_values(|s: String| s@) + lines_of(v@.skip(start as int)),
        decreases v@.len() - start,
    {
        let ghost rest = v@.skip(start as int);
        let mut end = start;
        while end < v.len() && v[end] != '\n'
            invariant
                start <= end <= v@.len(),
                forall|j: int| start <= j < end ==> v@[j] != '\n',
            decreases v@.len() - end,
        {
            end += 1;
        }
        let mut line_end = end;
        if line_end > start && v[line_end - 1] == '\r' {
            line_end -= 1;
        }
        let line = string_from_range(&v, start, line_end);
        let ghost k = (end - start) as int;
        let ghost tail: Seq<Seq<char>> = if end < v.len() {
            lines_of(v@.skip(end + 1))
        } else {
            Seq::empty()
        };
        proof {
            lemma_find_newline(rest, k);
            let whole = v@.subrange(start as int, end as int);
            if end > start && v@[end - 1] == '\r' {
                assert(whole.drop_last() =~= v@.subrange(start as int, line_end as int));
            } else {
                assert(whole =~= v@.subrange(start as int, line_end as int));
            }
            assert(line@ == strip_cr(whole));
            if end < v.len() {
                assert(rest.take(k) =~= whole);
                assert(rest.skip(k + 1) =~= v@.skip(end + 1));
            } else {
                assert(rest =~= whole);
            }
            assert(lines_of(rest) == seq![line@] + tail);
        }
        let ghost old_out = out@;
        out.push(line);
        proof {
            let olds = old_out.map_values(|s: String| s@);
            assert(out@.map_values(|s: String| s@) =~= olds.push(line@));
            assert(olds + (seq![line@] + tail) =~= olds.push(line@) + tail);
        }
        if end < v.len() {
            start = end + 1;
        } else {
            start = end;
            assert(v@.skip(start as int) =~= Seq::<char>::empty());
            assert(lines_of(v@.skip(start as int)) == tail);
        }
    }
    assert(out@.map_values(|s: String| s@) + lines_of(v@.skip(start as int)) =~= out@.map_values(
        |s: String| s@,
    ));
    out
}

proof fn lemma_find_newline(s: Seq<char>, k: int)
    requires
        0 <= k <= s.len(),
        forall|j: int| 0 <= j < k ==> s[j] != '\n',
        k < s.len() ==> s[k] == '\n',
    ensures
        k < s.len() ==> crate::number::find_char(s, '\n') == Some(k),
        k == s.len() ==> crate::number::find_char(s, '\n') is None,
{
    crate::number::lemma_find_char(s, '\n');
    if k < s.len() {
        crate::number::lemma_find_char_at(s, '\n', k);
    } else {
        if crate::number::find_char(s, '\n') is Some {
            let d = crate::number::find_char(s, '\n')->0;
            assert(s[d] == '\n');
        }
    }
}

/// Joins `parts` with line feeds, adding one more unless the result is
/// empty.
pub fn join_jsonl(parts: &Vec<String>) -> (r: String)
    ensures
        r@ == join_lines_nl(parts@.map_values(|s: String| s@)),
{
    let ghost views = parts@.map_values(|s: String| s@);
    let mut result = String::new();
    let mut i: usize = 0;
    while i < parts.len()
        invariant
            i <= parts@.len(),
            views == parts@.map_values(|s: String| s@),
            result@ == join_with_nl(views.take(i as int)),
        decreases parts@.len() - i,
    {
        if i > 0 {
            crate::text::push_char(&mut result, '\n');
        }
        result.append(parts[i].as_str());
        proof {
            assert(views.take(i + 1).drop_last() =~= views.take(i as int));
            if i == 0 {
                assert(views.take(1) =~= seq![views[0]]);
            }
        }
        i += 1;
    }
    assert(views.take(parts@.len() as int) =~= views);
    if result.unicode_len() > 0 {
        crate::text::push_char(&mut result, '\n');
    }
    result
}

/// Whether `depth` lies beyond `limit` (any depth does when `limit` is
/// negative).
fn depth_beyond(depth: usize, limit: isize) -> (b: bool)
    ensures
        b == (depth > limit),
{
    limit < 0 || depth > limit as usize
}

/// Whether `depth` is at least `limit` (any depth is when `limit` is
/// negative).
fn depth_at_least(depth: usize, limit: isize) -> (b: bool)
    ensures
        b == (depth >= limit),
{
    limit < 0 || depth >= limit as usize
}

/// Whether `n` is at most `limit + extra`.
fn within(n: usize, limit: isize, extra: usize) -> (b: bool)
    requires
        extra <= 1,
    ensures
        b == (n <= limit + extra),
{
    if limit < 0 {
        extra == 1 && limit == -1 && n == 0
    } else {
        n <= limit as usize || n - (limit as usize) <= extra
    }
}

/// Where a table cell's comma goes.
#[derive(Debug, Clone, Copy, PartialEq, Eq, Structural)]
enum CommaPosition {
    BeforeValuePadding,
    AfterValuePadding,
    BeforeCommentPadding,
    AfterCommentPadding,
}

impl<L: StringLength> Formatter<L> {
    /// The options the formatter works with (its `options` field).
    pub closed spec fn opts(&self) -> FracturedJsonOptions {
        self.options
    }

    /// The width function the formatter measures with (its
    /// `string_length_func` field).
    pub closed spec fn width(&self) -> L {
        self.string_length_func
    }

    /// The formatter's buffer holds only good lines, and its tokens are
    /// well formed.
    pub closed spec fn wf(&self) -> bool {
        &&& self.pads.wf()
        &&& tokens_plain(self.pads.model())
        &&& is_eol(self.pads.model().eol)
        &&& doc_ok(self.buffer.doc_lines(), self.pads.model().eol)
    }

    /// The same formatter with another width function.
    pub fn with_string_length_func<M: StringLength>(self, string_length_func: M) -> (r: Formatter<M>)
        ensures
            r.opts() == self.opts(),
            r.width() == string_length_func,
    {
        let pads = PaddedFormattingTokens::new(&self.options, &string_length_func);
        Formatter {
            options: self.options,
            string_length_func,
            buffer: StringJoinBuffer::default(),
            pads,
        }
    }

    /// The same formatter with the options `options`.
    pub fn with_options(self, options: FracturedJsonOptions) -> (r: Self)
        ensures
            r.opts() == options,
            r.width() == self.width(),
    {
        let pads = PaddedFormattingTokens::new(&options, &self.string_length_func);
        Formatter {
            options,
            string_length_func: self.string_length_func,
            buffer: StringJoinBuffer::default(),
            pads,
        }
    }

    /// Sets the options the formatter works with.
    pub fn set_options(&mut self, options: FracturedJsonOptions)
        ensures
            final(self).opts() == options,
            final(self).width() == old(self).width(),
    {
        self.options = options;
    }

    /// Reformats JSON text according to the current options, starting at
    /// indentation depth `starting_depth`.
    ///
    /// The text must hold exactly one top-level value (with comments and
    /// blank lines around it as the options allow); otherwise the parse
    /// error is returned. Every line of the output ends without whitespace
    /// before its line ending. The output is the text of a layout of the
    /// parsed, measured items that `laid_ok` allows: each container on one
    /// line when it fits, else compact, else as a table, else expanded, as
    /// the options and the measured column templates decide.
    pub fn reformat(&mut self, json_text: &str, starting_depth: usize) -> (r: Result<
        String,
        FracturedJsonError,
    >)
        requires
            utf8_len(json_text@) <= MAX_DOC_SIZE,
        ensures
            final(self).opts() == old(self).opts(),
            r matches Ok(out) ==> output_ok(out@, pads_model(old(self).opts(), old(self).width()).eol),
            r matches Ok(out) ==> no_lf(old(self).opts().prefix_string@) ==> no_trailing_ws(out@),
            r is Ok ==> tokenizes(json_text@),
            r is Ok <==> parse_result(json_text@, old(self).opts(), true) is Some,
            r matches Ok(out) ==> final(self).style().reformatted(json_text@, starting_depth, out@),
            final(self).width() == old(self).width(),
            r is Ok && L::obeys_length_spec() ==> final(self).style() == old(self).fresh_style(),
            first_lexed(json_text@) is End ==> r is Ok,
            first_lexed(json_text@) is Failed ==> r is Err,
            (first_lexed(json_text@) matches Lexed::Token(tt, _, _) && is_scalar_token(tt))
                && second_lexed(json_text@) is End ==> r is Ok,
            (first_lexed(json_text@) matches Lexed::Token(tt, _, _) && bad_start(
                tt,
                second_lexed(json_text@),
                old(self).opts(),
            )) ==> r is Err,
            (first_lexed(json_text@) matches Lexed::Token(tt, _, _) && is_comment_token(tt))
                && old(self).opts().comment_policy == CommentPolicy::TreatAsError ==> r is Err,
            (first_lexed(json_text@) matches Lexed::Token(tt, _, _) && is_scalar_token(tt)) && (
            second_lexed(json_text@) matches Lexed::Token(t2, _, _) && is_scalar_token(t2))
                ==> r is Err,
    {
        let parser = Parser::new(self.options.clone());
        let mut doc_model = parser.parse_top_level(json_text, true)?;
        proof {
            assert forall|k: int| 0 <= k < doc_model@.len() implies #[trigger] item_clean(
                doc_model@[k],
                false,
            ) by {
                lemma_parsed_clean(doc_model@[k], self.options);
            }
            lemma_items_clean(doc_model@, false);
        }
        let ghost parsed = doc_model@;
        self.format_top_level(&mut doc_model, starting_depth);
        let ghost formatted = *self;
        let ghost tidy_before = self.tidy();
        let ghost eol = self.pads.model().eol;
        let out = self.finish();
        proof {
            if tidy_before {
                let (doc, last) = choose|doc: Seq<Seq<char>>, last: Seq<char>|
                    #![trigger concat_all(doc), no_lf(last)]
                    concat_all(doc) + last == out@ && tidy_doc(doc, eol) && no_lf(last)
                        && !ends_in_ws(last);
                lemma_tidy_lines(doc, last, eol);
            }
        }
        proof {
            assert(self.pads == formatted.pads);
            self.lemma_style_keeps(&formatted);
            let st = self.style();
            self.lemma_style();
            assert(parse_result(json_text@, st.options, true) == Some(items_view(parsed)));
            assert(doc_model@.len() == parsed.len());
            assert(forall|j: int|
                0 <= j < parsed.len() ==> measured(
                    parsed[j],
                    #[trigger] doc_model@[j],
                    st.pads.model(),
                    st.string_length_func,
                ));
            assert(st.top_written((Seq::empty(), Seq::empty()), doc_model@, starting_depth, formatted.layout()));
            assert(out@ == layout_text(formatted.layout()));
            if L::obeys_length_spec() {
                assert(self.pads.model() == pads_model(old(self).options, old(self).string_length_func));
                assert(self.style() == old(self).fresh_style());
            }
        }
        Ok(out)
    }

    /// Minifies JSON text: all whitespace that layout added is removed;
    /// comments are kept or dropped as the options say. It succeeds exactly
    /// when the text parses as a document of at most one value, and gives
    /// `minify_result`.
    pub fn minify(&mut self, json_text: &str) -> (r: Result<String, FracturedJsonError>)
        requires
            utf8_len(json_text@) <= MAX_DOC_SIZE,
        ensures
            final(self).opts() == old(self).opts(),
            final(self).width() == old(self).width(),
            r matches Ok(out) ==> output_ok(out@, pads_model(old(self).opts(), old(self).width()).eol),
            r matches Ok(out) ==> old(self).opts().comment_policy != CommentPolicy::Preserve
                && !old(self).opts().preserve_blank_lines ==> no_lf(out@) && !ends_in_ws(out@),
            r is Ok ==> tokenizes(json_text@),
            r is Ok <==> parse_result(json_text@, old(self).opts(), true) is Some,
            r matches Ok(out) ==> minify_result(json_text@, old(self).opts()) == Some(out@),
            first_lexed(json_text@) is End ==> (r matches Ok(out) && out@ == trim_end_ws(
                minified_doc(Seq::empty()).0,
            )),
            first_lexed(json_text@) is Failed ==> r is Err,
            (first_lexed(json_text@) matches Lexed::Token(tt, _, _) && is_scalar_token(tt))
                && second_lexed(json_text@) is End ==> r is Ok,
            (first_lexed(json_text@) matches Lexed::Token(tt, _, _) && bad_start(
                tt,
                second_lexed(json_text@),
                old(self).opts(),
            )) ==> r is Err,
            (first_lexed(json_text@) matches Lexed::Token(tt, _, _) && is_comment_token(tt))
                && old(self).opts().comment_policy == CommentPolicy::TreatAsError ==> r is Err,
            (first_lexed(json_text@) matches Lexed::Token(tt, _, _) && is_scalar_token(tt)) && (
            second_lexed(json_text@) matches Lexed::Token(t2, _, _) && is_scalar_token(t2))
                ==> r is Err,
    {
        let parser = Parser::new(self.options.clone());
        let doc_model = parser.parse_top_level(json_text, true)?;
        proof {
            if self.options.comment_policy != CommentPolicy::Preserve
                && !self.options.preserve_blank_lines {
                assert forall|k: int| 0 <= k < doc_model@.len() implies #[trigger] plain_item(
                    doc_model@[k],
                ) by {
                    lemma_parsed_plain(doc_model@[k], self.options);
                }
                lemma_plain_items(doc_model@);
            }
        }
        self.minify_top_level(&doc_model);
        let out = self.finish();
        proof {
            let v = items_view(doc_model@);
            let c = choose|items: Seq<JsonItem>| items_view(items) == v;
            assert(items_view(c) == v);
            lemma_minified_doc_same(c, doc_model@);
        }
        Ok(out)
    }

    /// Formats a JSON value held in memory, starting at indentation depth
    /// `starting_depth` and descending at most `recursion_limit` levels.
    ///
    /// Fails exactly when the value nests deeper than `recursion_limit`.
    pub fn serialize_value(
        &mut self,
        value: &JsonValue,
        starting_depth: usize,
        recursion_limit: usize,
    ) -> (r: Result<String, FracturedJsonError>)
        ensures
            final(self).opts() == old(self).opts(),
            r is Err <==> value_depth(*value) > recursion_limit,
            r matches Err(e) ==> e.message@ == depth_error_message(),
            r matches Ok(out) ==> output_ok(out@, pads_model(old(self).opts(), old(self).width()).eol),
            r matches Ok(out) ==> exists|item: JsonItem, shaped: JsonItem, lay: Layout|
                #![trigger dom_of(*value, None, item), final(self).style().top_written((Seq::empty(), Seq::empty()), seq![shaped], starting_depth, lay)]
                dom_of(*value, None, item) && measured(
                    item,
                    shaped,
                    final(self).style().tokens_model(),
                    final(self).style().width(),
                ) && final(self).style().top_written(
                    (Seq::empty(), Seq::empty()),
                    seq![shaped],
                    starting_depth,
                    lay,
                ) && out@ == layout_text(lay),
    {
        let doc_model = convert_value_to_dom(value, None, recursion_limit)?;
        let mut doc_list: Vec<JsonItem> = Vec::new();
        match doc_model {
            Some(item) => doc_list.push(item),
            None => {},
        }
        let ghost built = doc_list@;
        self.format_top_level(&mut doc_list, starting_depth);
        let ghost formatted = *self;
        let out = self.finish();
        proof {
            assert(built.len() == 1);
            assert(doc_list@ =~= seq![doc_list@[0]]);
            self.lemma_style_keeps(&formatted);
            self.lemma_style();
            let st = self.style();
            assert(measured(built[0], doc_list@[0], st.pads.model(), st.string_length_func));
            assert(st.top_written((Seq::empty(), Seq::empty()), seq![doc_list@[0]], starting_depth, formatted.layout()));
        }
        Ok(out)
    }

    /// Flushes the buffer and returns its text.
    fn finish(&mut self) -> (out: String)
        requires
            old(self).wf(),
            old(self).pads.model().eol == pads_model(old(self).options, old(self).string_length_func).eol,
        ensures
            final(self).options == old(self).options,
            final(self).string_length_func == old(self).string_length_func,
            output_ok(out@, pads_model(old(self).options, old(self).string_length_func).eol),
            old(self).tidy() ==> tidy_text(out@, old(self).pads.model().eol),
            old(self).buffer.doc_lines().len() == 0 && parts_plain(old(self).buffer.line_parts())
                ==> no_lf(out@) && !ends_in_ws(out@),
            old(self).buffer.doc_lines().len() == 0 ==> out@ == trim_end_ws(
                concat_all(old(self).buffer.line_parts()),
            ),
            out@ == layout_text(old(self).layout()),
            final(self).pads == old(self).pads,
    {
        let ghost before = self.buffer.doc_lines();
        let ghost parts = self.buffer.line_parts();
        self.buffer.flush();
        proof {
            lemma_end_line_ok(before, parts, self.pads.model().eol);
        }
        let out = self.buffer.as_string();
        proof {
            assert(concat_all(self.buffer.doc_lines()) == out@);
            if before.len() == 0 {
                let doc = self.buffer.doc_lines();
                if parts.len() == 0 {
                    assert(concat_all(parts) =~= Seq::<char>::empty());
                    assert(trim_end_ws(Seq::<char>::empty()) =~= Seq::<char>::empty());
                    assert(out@ =~= Seq::<char>::empty());
                } else {
                    assert(doc == seq![finished_line(parts, Seq::empty())]);
                    assert(doc.drop_last() =~= Seq::<Seq<char>>::empty());
                    let last = finished_line(parts, Seq::empty());
                    assert(last =~= trim_end_ws(concat_all(parts)));
                    assert(concat_all(Seq::<Seq<char>>::empty()) == Seq::<char>::empty());
                    assert(Seq::<char>::empty() + last =~= last);
                    assert(concat_all(doc) =~= last);
                    assert(out@ =~= trim_end_ws(concat_all(parts)));
                }
            }
            if before.len() == 0 && parts_plain(parts) {
                if parts.len() > 0 {
                    lemma_concat_plain(parts);
                    lemma_trim_end_ws(concat_all(parts));
                    let last = trim_end_ws(concat_all(parts));
                    assert(last =~= finished_line(parts, Seq::empty()));
                    assert(self.buffer.doc_lines() == seq![last]);
                    assert(self.buffer.doc_lines().drop_last() =~= Seq::<Seq<char>>::empty());
                    assert(concat_all(Seq::<Seq<char>>::empty()) == Seq::<char>::empty());
                    assert(Seq::<char>::empty() + last =~= last);
                    assert(concat_all(self.buffer.doc_lines()) =~= last);
                    assert forall|k: int| 0 <= k < last.len() implies last[k] != '\n' by {
                        assert(last[k] == concat_all(parts)[k]);
                    }
                } else {
                    assert(out@ =~= Seq::<char>::empty());
                }
            }
            if old(self).tidy() {
                let eol = self.pads.model().eol;
                if parts.len() == 0 {
                    assert(concat_all(before) + Seq::<char>::empty() =~= out@);
                    assert(no_lf(Seq::<char>::empty()));
                } else {
                    lemma_concat_plain(parts);
                    lemma_trim_end_ws(concat_all(parts));
                    let last = trim_end_ws(concat_all(parts));
                    assert(last =~= finished_line(parts, Seq::empty()));
                    assert(no_lf(last)) by {
                        assert forall|k: int| 0 <= k < last.len() implies last[k] != '\n' by {
                            assert(last[k] == concat_all(parts)[k]);
                        }
                    }
                    assert(self.buffer.doc_lines() == before.push(last));
                    assert(self.buffer.doc_lines().drop_last() =~= before);
                    assert(concat_all(before) + last == out@);
                }
            }
        }
        out
    }

    /// Reformats JSON Lines: each line is formatted on its own (trimmed of
    /// trailing whitespace), blank lines stay empty, and the results are
    /// joined with line feeds. The first line that fails gives an error
    /// naming its number.
    pub fn reformat_jsonl(&mut self, jsonl_text: &str) -> (r: Result<String, FracturedJsonError>)
        requires
            lines_fit(jsonl_text@),
        ensures
            final(self).opts() == old(self).opts(),
            r matches Ok(out) ==> exists|outs: Seq<Seq<char>>|
                #[trigger] join_lines_nl(outs) == out@ && jsonl_shape(outs, lines_of(jsonl_text@)),
            r is Ok <==> forall|i: int|
                0 <= i < lines_of(jsonl_text@).len() ==> !line_fails(
                    #[trigger] lines_of(jsonl_text@)[i],
                    old(self).opts(),
                ),
            r matches Err(e) ==> jsonl_error(e.message@, lines_of(jsonl_text@), old(self).opts()),
            r matches Err(e) ==> e.input_position is None,
            r matches Ok(out) ==> L::obeys_length_spec() ==> exists|outs: Seq<Seq<char>>|
                #[trigger] join_lines_nl(outs) == out@ && outs.len() == lines_of(jsonl_text@).len()
                    && forall|i: int|
                    0 <= i < outs.len() ==> line_reformatted(
                        old(self).fresh_style(),
                        lines_of(jsonl_text@)[i],
                        #[trigger] outs[i],
                    ),
    {
        self.process_jsonl(jsonl_text, false)
    }

    /// Minifies JSON Lines, line by line, as `reformat_jsonl` formats them.
    pub fn minify_jsonl(&mut self, jsonl_text: &str) -> (r: Result<String, FracturedJsonError>)
        requires
            lines_fit(jsonl_text@),
        ensures
            final(self).opts() == old(self).opts(),
            r is Ok <==> forall|i: int|
                0 <= i < lines_of(jsonl_text@).len() ==> !line_fails(
                    #[trigger] lines_of(jsonl_text@)[i],
                    old(self).opts(),
                ),
            r matches Ok(out) ==> out@ == join_lines_nl(
                jsonl_minified(lines_of(jsonl_text@), old(self).opts()),
            ),
            r matches Err(e) ==> jsonl_error(e.message@, lines_of(jsonl_text@), old(self).opts()),
            r matches Err(e) ==> e.input_position is None,
    {
        self.process_jsonl(jsonl_text, true)
    }

    fn process_jsonl(&mut self, jsonl_text: &str, minify: bool) -> (r: Result<
        String,
        FracturedJsonError,
    >)
        requires
            lines_fit(jsonl_text@),
        ensures
            final(self).opts() == old(self).opts(),
            r matches Ok(out) ==> exists|outs: Seq<Seq<char>>|
                #[trigger] join_lines_nl(outs) == out@ && jsonl_shape(outs, lines_of(jsonl_text@))
                    && (minify ==> outs == jsonl_minified(lines_of(jsonl_text@), old(self).opts()))
                    && (!minify && L::obeys_length_spec() ==> forall|i: int|
                    0 <= i < outs.len() ==> line_reformatted(
                        old(self).fresh_style(),
                        lines_of(jsonl_text@)[i],
                        #[trigger] outs[i],
                    )),
            r matches Err(e) ==> e.input_position is None,
            r is Ok <==> forall|i: int|
                0 <= i < lines_of(jsonl_text@).len() ==> !line_fails(
                    #[trigger] lines_of(jsonl_text@)[i],
                    old(self).opts(),
                ),
            r matches Err(e) ==> jsonl_error(e.message@, lines_of(jsonl_text@), old(self).opts()),
    {
        let lines = split_lines(jsonl_text);
        proof {
            assert forall|i: int| 0 <= i < lines@.len() && !crate::text::all_ws(
                #[trigger] lines@[i]@,
            ) implies utf8_len(lines@[i]@) <= MAX_DOC_SIZE by {
                assert(lines@.map_values(|s: String| s@)[i] == lines@[i]@);
            }
        }
        let mut output_lines: Vec<String> = Vec::new();
        let mut line_num: usize = 0;
        while line_num < lines.len()
            invariant
                line_num <= lines@.len(),
                self.options == old(self).options,
                lines@.map_values(|s: String| s@) == lines_of(jsonl_text@),
                forall|i: int|
                    0 <= i < lines@.len() && !crate::text::all_ws(#[trigger] lines@[i]@) ==> utf8_len(
                        lines@[i]@,
                    ) <= MAX_DOC_SIZE,
                output_lines@.len() == line_num,
                jsonl_shape(
                    output_lines@.map_values(|s: String| s@),
                    lines_of(jsonl_text@).take(line_num as int),
                ),
                forall|i: int|
                    0 <= i < line_num ==> !line_fails(
                        #[trigger] lines_of(jsonl_text@)[i],
                        old(self).opts(),
                    ),
                self.string_length_func == old(self).string_length_func,
                !minify && L::obeys_length_spec() ==> forall|i: int|
                    0 <= i < line_num ==> line_reformatted(
                        old(self).fresh_style(),
                        lines_of(jsonl_text@)[i],
                        (#[trigger] output_lines@[i])@,
                    ),
                minify ==> forall|i: int|
                    0 <= i < line_num ==> (#[trigger] output_lines@[i])@ == jsonl_minified(
                        lines_of(jsonl_text@),
                        old(self).opts(),
                    )[i],
            decreases lines@.len() - line_num,
        {
            let line = lines[line_num].as_str();
            let ghost old_out = output_lines@;
            proof {
                assert(lines@.map_values(|s: String| s@)[line_num as int] == lines@[line_num as int]@);
            }
            let ghost ls_all = lines_of(jsonl_text@);
            proof {
                assert(ls_all[line_num as int] == line@);
            }
            if crate::text::is_blank(line) {
                output_lines.push(String::new());
                proof {
                    assert(output_lines@[line_num as int]@ =~= jsonl_minified(
                        ls_all,
                        old(self).opts(),
                    )[line_num as int]);
                }
            } else {
                let ghost pre = *self;
                let formatted = if minify {
                    self.minify(line)
                } else {
                    self.reformat(line, 0)
                };
                match formatted {
                    Ok(text) => {
                        let trimmed = trim_end_string(text.as_str());
                        proof {
                            lemma_trim_end_ws(text@);
                            assert(!line_fails(ls_all[line_num as int], old(self).opts()));
                            if minify {
                                assert(trimmed@ == jsonl_minified(ls_all, old(self).opts())[line_num as int]);
                            }
                            if !minify && L::obeys_length_spec() {
                                assert(pre.fresh_style() == old(self).fresh_style());
                                assert(self.style().reformatted(line@, 0, text@));
                                assert(line_reformatted(old(self).fresh_style(), ls_all[line_num as int], trimmed@));
                            }
                        }
                        output_lines.push(trimmed);
                    },
                    Err(e) => {
                        let mut message = String::from_str("line ");
                        crate::text::push_decimal(&mut message, line_num + 1);
                        message.append(": ");
                        message.append(e.message.as_str());
                        proof {
                            assert(lines_of(jsonl_text@)[line_num as int] == line@);
                            assert(message@ == line_label(line_num as int) + e.message@);
                            assert(message@.take(line_label(line_num as int).len() as int)
                                =~= line_label(line_num as int));
                            assert(line_fails(ls_all[line_num as int], old(self).opts()));
                        }
                        return Err(FracturedJsonError::simple(message.as_str()));
                    },
                }
            }
            proof {
                let outs = output_lines@.map_values(|s: String| s@);
                let olds = old_out.map_values(|s: String| s@);
                let ls = lines_of(jsonl_text@).take(line_num + 1);
                let old_ls = lines_of(jsonl_text@).take(line_num as int);
                assert(outs.drop_last() =~= olds);
                assert(ls.drop_last() =~= old_ls);
                assert(ls[line_num as int] == line@);
                assert(outs[line_num as int] == output_lines@[line_num as int]@);
                assert forall|i: int| 0 <= i < line_num + 1 implies !line_fails(
                    #[trigger] ls_all[i],
                    old(self).opts(),
                ) by {}
                if !minify && L::obeys_length_spec() {
                    assert forall|i: int| 0 <= i < line_num + 1 implies line_reformatted(
                        old(self).fresh_style(),
                        ls_all[i],
                        (#[trigger] output_lines@[i])@,
                    ) by {
                        if i < line_num {
                            assert(output_lines@[i] == old_out[i]);
                        }
                    }
                }
                if minify {
                    assert forall|i: int| 0 <= i < line_num + 1 implies (
                    #[trigger] output_lines@[i])@ == jsonl_minified(ls_all, old(self).opts())[i] by {
                        if i < line_num {
                            assert(output_lines@[i] == old_out[i]);
                        }
                    }
                }
                assert forall|i: int| 0 <= i < outs.len() implies !ends_in_ws(#[trigger] outs[i]) by {
                    if i < line_num {
                        assert(outs[i] == olds[i]);
                    }
                }
                assert forall|i: int| 0 <= i < outs.len() && crate::text::all_ws(
                    #[trigger] ls[i],
                ) implies outs[i].len() == 0 by {
                    if i < line_num {
                        assert(outs[i] == olds[i]);
                        assert(ls[i] == old_ls[i]);
                    }
                }
            }
            line_num += 1;
        }
        let result = join_jsonl(&output_lines);
        proof {
            assert(lines_of(jsonl_text@).take(lines@.len() as int) =~= lines_of(jsonl_text@));
            if !minify && L::obeys_length_spec() {
                let outs = output_lines@.map_values(|s: String| s@);
                assert forall|i: int| 0 <= i < outs.len() implies line_reformatted(
                    old(self).fresh_style(),
                    lines_of(jsonl_text@)[i],
                    #[trigger] outs[i],
                ) by {
                    assert(outs[i] == output_lines@[i]@);
                }
            }
            if minify {
                let outs = output_lines@.map_values(|s: String| s@);
                let want = jsonl_minified(lines_of(jsonl_text@), old(self).opts());
                assert forall|i: int| 0 <= i < outs.len() implies outs[i] == want[i] by {
                    assert(outs[i] == output_lines@[i]@);
                }
                assert(outs =~= want);
            }
        }
        Ok(result)
    }

    /// Lays out the top-level items from `starting_depth`, with fresh
    /// tokens and an empty buffer.
    fn format_top_level(&mut self, doc_model: &mut Vec<JsonItem>, starting_depth: usize)
        ensures
            final(self).wf(),
            final(self).options == old(self).options,
            final(self).string_length_func == old(self).string_length_func,
            same_texts(final(self).pads.model(), pads_model(old(self).options, old(self).string_length_func)),
            L::obeys_length_spec() ==> final(self).pads.model() == pads_model(
                old(self).options,
                old(self).string_length_func,
            ),
            no_lf(old(self).options.prefix_string@) && items_clean(old(doc_model)@, false)
                ==> final(self).tidy(),
            final(doc_model)@.len() == old(doc_model)@.len(),
            forall|j: int|
                0 <= j < old(doc_model)@.len() ==> measured(
                    old(doc_model)@[j],
                    #[trigger] final(doc_model)@[j],
                    final(self).pads.model(),
                    final(self).string_length_func,
                ),
            final(self).style().top_written(
                (Seq::empty(), Seq::empty()),
                final(doc_model)@,
                starting_depth,
                final(self).layout(),
            ),
    {
        let ghost t0 = no_lf(old(self).options.prefix_string@) && items_clean(
            old(doc_model)@,
            false,
        );
        proof {
            lemma_items_clean(old(doc_model)@, false);
        }
        self.buffer = StringJoinBuffer::default();
        self.pads = PaddedFormattingTokens::new(&self.options, &self.string_length_func);
        let mut i: usize = 0;
        let ghost st = self.style();
        let ghost mut trs: Seq<Laid> = Seq::empty();
        while i < doc_model.len()
            invariant
                self.wf(),
                i <= doc_model@.len(),
                doc_model@.len() == old(doc_model)@.len(),
                forall|j: int| i <= j < doc_model@.len() ==> #[trigger] doc_model@[j] == old(doc_model)@[j],
                t0 ==> self.tidy(),
                t0 ==> forall|k: int|
                    0 <= k < old(doc_model)@.len() ==> #[trigger] item_clean(old(doc_model)@[k], false),
                self.options == old(self).options,
                self.string_length_func == old(self).string_length_func,
                same_texts(self.pads.model(), pads_model(old(self).options, old(self).string_length_func)),
                L::obeys_length_spec() ==> self.pads.model() == pads_model(
                    old(self).options,
                    old(self).string_length_func,
                ),
                forall|j: int|
                    0 <= j < i ==> measured(
                        old(doc_model)@[j],
                        #[trigger] doc_model@[j],
                        self.pads.model(),
                        self.string_length_func,
                    ),
                self.style() == st,
                trs.len() == i,
                st.top_ok(doc_model@, trs, starting_depth),
                self.layout() == st.top_out((Seq::empty(), Seq::empty()), doc_model@, trs, starting_depth),
            decreases doc_model@.len() - i,
        {
            let ghost d0 = doc_model@;
            let mut item = doc_model.remove(i);
            let ghost before = item;
            self.compute_item_lengths(&mut item);
            proof {
                if t0 {
                    assert(item_clean(old(doc_model)@[i as int], false));
                    lemma_measured_clean(before, item, self.pads.model(), self.string_length_func);
                }
            }
            let ghost pre = *self;
            self.format_item(&item, starting_depth, false, None);
            let ghost mid = doc_model@;
            doc_model.insert(i, item);
            proof {
                self.lemma_style_keeps(&pre);
                assert forall|j: int| 0 <= j < i implies #[trigger] doc_model@[j] == d0[j] by {
                    assert(doc_model@[j] == mid[j]);
                }
                let tr = choose|tr: Laid|
                    #[trigger] st.laid_ok(item, starting_depth, false, None, tr)
                        && self.layout() == st.laid_out(pre.layout(), item, starting_depth, false, None, tr);
                st.lemma_top_same(d0, doc_model@, trs, starting_depth);
                let trs2 = trs.push(tr);
                assert(trs2.drop_last() =~= trs);
                assert(trs2[i as int] == tr);
                assert(doc_model@[i as int] == item);
                assert(st.top_ok(doc_model@, trs2, starting_depth));
                assert(self.layout() == st.top_out((Seq::empty(), Seq::empty()), doc_model@, trs2, starting_depth));
                trs = trs2;
            }
            proof {
                assert forall|j: int| i + 1 <= j < doc_model@.len() implies #[trigger] doc_model@[j]
                    == old(doc_model)@[j] by {
                    assert(doc_model@[j] == mid[j - 1]);
                }
            }
            i += 1;
        }
        proof {
            assert(doc_model@.take(i as int) =~= doc_model@);
            assert(st.top_ok(doc_model@, trs, starting_depth) && trs.len() == doc_model@.len());
        }
    }

    /// Writes the top-level items minified, with fresh tokens and an empty
    /// buffer.
    fn minify_top_level(&mut self, doc_model: &Vec<JsonItem>)
        ensures
            final(self).wf(),
            final(self).options == old(self).options,
            final(self).string_length_func == old(self).string_length_func,
            same_texts(final(self).pads.model(), pads_model(old(self).options, old(self).string_length_func)),
            L::obeys_length_spec() ==> final(self).pads.model() == pads_model(
                old(self).options,
                old(self).string_length_func,
            ),
            final(self).buffer.doc_lines().len() == 0,
            plain_items(doc_model@) ==> parts_plain(final(self).buffer.line_parts()),
            concat_all(final(self).buffer.line_parts()) == minified_doc(doc_model@).0,
    {
        proof {
            lemma_plain_items(doc_model@);
        }
        self.buffer = StringJoinBuffer::default();
        self.pads = PaddedFormattingTokens::new(&self.options, &self.string_length_func);
        let mut at_start_of_new_line = true;
        proof {
            assert(doc_model@.take(0) =~= Seq::<JsonItem>::empty());
        }
        let mut i: usize = 0;
        while i < doc_model.len()
            invariant
                self.wf(),
                i <= doc_model@.len(),
                self.options == old(self).options,
                self.string_length_func == old(self).string_length_func,
                same_texts(self.pads.model(), pads_model(old(self).options, old(self).string_length_func)),
                L::obeys_length_spec() ==> self.pads.model() == pads_model(
                    old(self).options,
                    old(self).string_length_func,
                ),
                self.buffer.doc_lines().len() == 0,
                plain_items(doc_model@) ==> parts_plain(self.buffer.line_parts()),
                plain_items(doc_model@) ==> forall|k: int|
                    0 <= k < doc_model@.len() ==> #[trigger] plain_item(doc_model@[k]),
                concat_all(self.buffer.line_parts()) == minified_doc(doc_model@.take(i as int)).0,
                at_start_of_new_line == minified_doc(doc_model@.take(i as int)).1,
            decreases doc_model@.len() - i,
        {
            at_start_of_new_line = self.minify_item(&doc_model[i], at_start_of_new_line);
            proof {
                let t = doc_model@.take(i + 1);
                assert(t.drop_last() =~= doc_model@.take(i as int));
                assert(t.last() == doc_model@[i as int]);
            }
            i += 1;
        }
        proof {
            assert(doc_model@.take(doc_model@.len() as int) =~= doc_model@);
        }
    }
}

/// The error of a JSON Lines run: it names a line `k + 1` that is not
/// blank, then gives the error met on it.
pub open spec fn jsonl_error(
    message: Seq<char>,
    lines: Seq<Seq<char>>,
    opts: FracturedJsonOptions,
) -> bool {
    exists|k: int|
        0 <= k < lines.len() && line_fails(#[trigger] lines[k], opts) && (forall|i: int|
            0 <= i < k ==> !line_fails(#[trigger] lines[i], opts)) && message.len()
            >= line_label(k).len() && message.take(line_label(k).len() as int) == line_label(k)
}

/// A line of JSON Lines that fails: it is not blank and does not parse as
/// a document of at most one value.
pub open spec fn line_fails(line: Seq<char>, opts: FracturedJsonOptions) -> bool {
    !crate::text::all_ws(line) && parse_result(line, opts, true) is None
}

/// What `reformat_jsonl` gives for the line `line` in the style `st`:
/// empty for a blank line, else a reformatted text of the line with its
/// trailing whitespace trimmed.
pub open spec fn line_reformatted<L: StringLength>(st: Formatter<L>, line: Seq<char>, out_line: Seq<char>) -> bool {
    if crate::text::all_ws(line) {
        out_line.len() == 0
    } else {
        exists|out: Seq<char>| #[trigger] st.reformatted(line, 0, out) && out_line == trim_end_ws(out)
    }
}

/// What `minify_jsonl` gives per line: empty for a blank line, else the
/// line minified, trailing whitespace trimmed.
pub open spec fn jsonl_minified(lines: Seq<Seq<char>>, opts: FracturedJsonOptions) -> Seq<
    Seq<char>,
> {
    Seq::new(
        lines.len(),
        |i: int|
            if crate::text::all_ws(lines[i]) {
                Seq::empty()
            } else {
                trim_end_ws(minify_result(lines[i], opts)->0)
            },
    )
}

/// How an error names line `k + 1`.
pub open spec fn line_label(k: int) -> Seq<char> {
    "line "@ + decimal((k + 1) as nat) + ": "@
}

/// What `reformat_jsonl` and `minify_jsonl` give per line: one output per
/// input line, empty for blank lines, never ending in whitespace.
pub open spec fn jsonl_shape(outs: Seq<Seq<char>>, lines: Seq<Seq<char>>) -> bool
    decreases lines.len(),
{
    &&& outs.len() == lines.len()
    &&& forall|i: int| 0 <= i < outs.len() ==> !ends_in_ws(#[trigger] outs[i])
    &&& forall|i: int|
        0 <= i < outs.len() ==> crate::text::all_ws(#[trigger] lines[i]) ==> outs[i].len() == 0
}

/// `a * b`, capped at the largest `usize`.
pub open spec fn sat_mul(a: int, b: int) -> int {
    if a * b > usize::MAX {
        usize::MAX as int
    } else {
        a * b
    }
}


/// How a container's brackets are padded: empty containers, containers of
/// scalars, and containers nesting containers.
pub open spec fn padding_type(item: JsonItem) -> BracketPaddingType {
    if item.children@.len() == 0 {
        BracketPaddingType::Empty
    } else if item.complexity >= 2 {
        BracketPaddingType::Complex
    } else {
        BracketPaddingType::Simple
    }
}

/// The sum of the minimum lengths of `items`, capped at the largest `usize`.
pub open spec fn sum_min_lengths(items: Seq<JsonItem>) -> int
    decreases items.len(),
{
    if items.len() == 0 {
        0
    } else {
        sat_add(sum_min_lengths(items.drop_last()), items.last().minimum_total_length as int)
    }
}

/// The item must be written over several lines, or ends in a line comment.
pub open spec fn breaks_line(c: JsonItem) -> bool {
    c.requires_multiple_lines || c.is_post_comment_line_style
}

/// Some child must be written over several lines, or ends in a line comment.
pub open spec fn child_needs_lines(children: Seq<JsonItem>) -> bool {
    exists|i: int| 0 <= i < children.len() && #[trigger] breaks_line(children[i])
}

/// Whether an item cannot be written on one line: comments and blank
/// lines, items with such children, and items whose texts hold a line feed.
pub open spec fn needs_lines(it: JsonItem) -> bool {
    ||| is_comment_or_blank(it.item_type)
    ||| child_needs_lines(it.children@)
    ||| it.prefix_comment@.contains('\n')
    ||| it.middle_comment@.contains('\n')
    ||| it.postfix_comment@.contains('\n')
    ||| it.value@.contains('\n')
}

/// Whether an item's value width is the width of its text (and not of
/// brackets and children, or of a literal keyword).
pub open spec fn measured_by_text(t: JsonItemType) -> bool {
    !(t == JsonItemType::Array || t == JsonItemType::Object || t == JsonItemType::Null || t
        == JsonItemType::True || t == JsonItemType::False)
}

/// The width of an item's value that is not measured by its text: for a
/// container its brackets, its children and the commas between them; for
/// a literal its keyword.
pub open spec fn value_width(it: JsonItem, p: PadsModel) -> int {
    if it.item_type == JsonItemType::Array || it.item_type == JsonItemType::Object {
        sat_add(
            sat_add(
                sat_add(
                    p.start_len(it.item_type, padding_type(it)) as int,
                    p.end_len(it.item_type, padding_type(it)) as int,
                ),
                sum_min_lengths(it.children@),
            ),
            sat_mul(p.comma_len as int, sat_sub(it.children@.len() as int, 1) as int),
        )
    } else if it.item_type == JsonItemType::Null {
        p.literal_null_len as int
    } else if it.item_type == JsonItemType::True {
        p.literal_true_len as int
    } else {
        p.literal_false_len as int
    }
}

/// The item's own measurements agree with its texts and children. Widths
/// of texts are stated where the width function states them.
pub open spec fn own_lengths_ok<L: StringLength>(it: JsonItem, p: PadsModel, w: L) -> bool {
    &&& L::obeys_length_spec() ==> {
        &&& it.name_length == w.spec_length(it.name@)
        &&& it.prefix_comment_length == w.spec_length(it.prefix_comment@)
        &&& it.middle_comment_length == w.spec_length(it.middle_comment@)
        &&& it.postfix_comment_length == w.spec_length(it.postfix_comment@)
        &&& measured_by_text(it.item_type) ==> it.value_length == w.spec_length(it.value@)
    }
    &&& !measured_by_text(it.item_type) ==> it.value_length == value_width(it, p)
    &&& it.requires_multiple_lines == needs_lines(it)
    &&& it.minimum_total_length == sat_add(
        sat_add(
            sat_add(
                sat_add(
                    piece_width(it.prefix_comment_length, p.comment_len),
                    piece_width(it.name_length, p.colon_len),
                ),
                piece_width(it.middle_comment_length, p.comment_len),
            ),
            it.value_length as int,
        ),
        piece_width(it.postfix_comment_length, p.comment_len),
    )
}

/// `after` has what `before` has, apart from the measurements.
pub open spec fn same_content(before: JsonItem, after: JsonItem) -> bool {
    &&& after.item_type == before.item_type
    &&& after.input_position == before.input_position
    &&& after.complexity == before.complexity
    &&& after.name@ == before.name@
    &&& after.value@ == before.value@
    &&& after.prefix_comment@ == before.prefix_comment@
    &&& after.middle_comment@ == before.middle_comment@
    &&& after.middle_comment_has_new_line == before.middle_comment_has_new_line
    &&& after.postfix_comment@ == before.postfix_comment@
    &&& after.is_post_comment_line_style == before.is_post_comment_line_style
    &&& after.children@.len() == before.children@.len()
}

/// `after` is `before` with it and every nested item measured with the
/// tokens `p` and the width function `w`.
pub open spec fn measured<L: StringLength>(before: JsonItem, after: JsonItem, p: PadsModel, w: L) -> bool
    decreases before,
{
    &&& same_content(before, after)
    &&& own_lengths_ok(after, p, w)
    &&& all_measured(before.children@, after.children@, p, w)
}

pub open spec fn all_measured<L: StringLength>(
    bs: Seq<JsonItem>,
    afters: Seq<JsonItem>,
    p: PadsModel,
    w: L,
) -> bool
    decreases bs,
{
    if bs.len() == 0 {
        afters.len() == 0
    } else {
        &&& afters.len() == bs.len()
        &&& all_measured(bs.drop_last(), afters.drop_last(), p, w)
        &&& measured(bs.last(), afters.last(), p, w)
    }
}

pub proof fn lemma_all_measured<L: StringLength>(
    bs: Seq<JsonItem>,
    afters: Seq<JsonItem>,
    p: PadsModel,
    w: L,
)
    ensures
        all_measured(bs, afters, p, w) <==> (afters.len() == bs.len() && forall|i: int|
            0 <= i < bs.len() ==> #[trigger] measured(bs[i], afters[i], p, w)),
    decreases bs.len(),
{
    if bs.len() > 0 {
        lemma_all_measured(bs.drop_last(), afters.drop_last(), p, w);
        if afters.len() == bs.len() && forall|i: int|
            0 <= i < bs.len() ==> #[trigger] measured(bs[i], afters[i], p, w) {
            assert forall|i: int| 0 <= i < bs.drop_last().len() implies #[trigger] measured(
                bs.drop_last()[i],
                afters.drop_last()[i],
                p,
                w,
            ) by {
                assert(measured(bs[i], afters[i], p, w));
            }
            assert(measured(bs[bs.len() - 1], afters[bs.len() - 1], p, w));
        }
        if all_measured(bs, afters, p, w) {
            assert forall|i: int| 0 <= i < bs.len() implies #[trigger] measured(
                bs[i],
                afters[i],
                p,
                w,
            ) by {
                if i < bs.len() - 1 {
                    assert(measured(bs.drop_last()[i], afters.drop_last()[i], p, w));
                }
            }
        }
    }
}

/// Whether some child must be written over several lines or ends in a
/// line comment.
fn any_child_needs_lines(children: &Vec<JsonItem>) -> (b: bool)
    ensures
        b == child_needs_lines(children@),
{
    let mut k: usize = 0;
    while k < children.len()
        invariant
            k <= children@.len(),
            forall|j: int| 0 <= j < k ==> !#[trigger] breaks_line(children@[j]),
        decreases children@.len() - k,
    {
        if children[k].requires_multiple_lines || children[k].is_post_comment_line_style {
            assert(breaks_line(children@[k as int]));
            return true;
        }
        assert(!breaks_line(children@[k as int]));
        k += 1;
    }
    false
}

/// The sum of the children's minimum lengths, capped at the largest
/// `usize`.
fn sum_of_min_lengths(children: &Vec<JsonItem>) -> (total: usize)
    ensures
        total == sum_min_lengths(children@),
{
    let mut total: usize = 0;
    let mut j: usize = 0;
    while j < children.len()
        invariant
            j <= children@.len(),
            total == sum_min_lengths(children@.take(j as int)),
        decreases children@.len() - j,
    {
        assert(children@.take(j + 1).drop_last() =~= children@.take(j as int));
        total = total.saturating_add(children[j].minimum_total_length);
        j += 1;
    }
    assert(children@.take(children@.len() as int) =~= children@);
    total
}

impl<L: StringLength> Formatter<L> {
    /// Options, width function and tokens are those of `other`.
    spec fn keeps(&self, other: &Self) -> bool {
        &&& self.options == other.options
        &&& self.string_length_func == other.string_length_func
        &&& self.pads.model() == other.pads.model()
    }

    /// The prefix holds no line feed, nor does any piece of the current
    /// line, and every finished line is tidy.
    spec fn tidy(&self) -> bool {
        &&& no_lf(self.options.prefix_string@)
        &&& parts_plain(self.buffer.line_parts())
        &&& tidy_doc(self.buffer.doc_lines(), self.pads.model().eol)
    }

    /// The finished lines and the pieces of the current line.
    spec fn layout(&self) -> Layout {
        (self.buffer.doc_lines(), self.buffer.line_parts())
    }

    /// The indentation for `depth`.
    spec fn indent_text(&self, depth: nat) -> Seq<char> {
        repeat_seq(self.pads.model().indent_unit, depth)
    }

    /// The layout after starting a line at `depth` from `s`.
    spec fn line_started(&self, s: Layout, depth: nat) -> Layout {
        with_piece(with_piece(s, self.options.prefix_string@), self.indent_text(depth))
    }

    /// The item can be written on one line at `depth`: it needs no more
    /// lines, is simple enough, and its width fits the space left there.
    spec fn fits_inline(
        &self,
        item: JsonItem,
        depth: usize,
        include_comma: bool,
        parent: Option<&TableTemplate>,
    ) -> bool {
        &&& !item.requires_multiple_lines
        &&& item.complexity <= self.options.max_inline_complexity
        &&& inline_width(self.pads.model(), item, include_comma, parent) <= sat_sub(
            sat_sub(
                self.options.max_total_line_length as int,
                self.pads.model().prefix_string_len as int,
            ) as int,
            sat_mul(self.options.indent_spaces as int, depth as int),
        )
    }

    /// The array can be written several children to a line at `depth`: it
    /// has enough children, is simple enough, needs no more lines, and the
    /// smallest row of children (at their average width, or at the column
    /// width of `template` when that is a single type) fits one level deeper.
    spec fn fits_compact(&self, item: JsonItem, depth: usize, template: TableTemplate) -> bool {
        let n = item.children@.len();
        let m = self.pads.model();
        let avg = if template.column_type != TableColumnType::Unknown && template.column_type
            != TableColumnType::Mixed {
            sat_add(m.comma_len as int, template.total_length as int)
        } else {
            sat_add(m.comma_len as int, sum_min_lengths(item.children@) / (n as int))
        };
        let row = avg * self.options.min_compact_array_row_items;
        &&& item.item_type == JsonItemType::Array
        &&& n > 0
        &&& n >= self.options.min_compact_array_row_items
        &&& item.complexity <= self.options.max_compact_array_complexity
        &&& !item.requires_multiple_lines
        &&& (if row > usize::MAX {
            usize::MAX as int
        } else {
            row
        }) <= sat_sub(
            sat_sub(self.options.max_total_line_length as int, m.prefix_string_len as int) as int,
            sat_mul(self.options.indent_spaces as int, sat_add(depth as int, 1)),
        )
    }

    /// The width a table row of `item` may take at `depth`: the space left
    /// one level deeper (two when the middle comment spans lines), less a
    /// comma.
    spec fn table_space(&self, item: JsonItem, depth: usize) -> int {
        let d = sat_add(
            depth as int,
            if item.middle_comment_has_new_line {
                2
            } else {
                1
            },
        );
        sat_sub(
            sat_sub(
                sat_sub(
                    self.options.max_total_line_length as int,
                    self.pads.model().prefix_string_len as int,
                ) as int,
                sat_mul(self.options.indent_spaces as int, d),
            ) as int,
            self.pads.model().comma_len as int,
        ) as int
    }

    /// The layout after writing from `s` an item that is no container, on
    /// lines of its own at `depth`.
    pub closed spec fn item_layout(
        &self,
        s: Layout,
        item: JsonItem,
        depth: usize,
        include_comma: bool,
        parent: Option<&TableTemplate>,
    ) -> Layout {
        let m = self.pads.model();
        if item.item_type == JsonItemType::BlankLine {
            ended(with_piece(s, self.options.prefix_string@), m.eol)
        } else if item.item_type == JsonItemType::BlockComment || item.item_type
            == JsonItemType::LineComment {
            rows_on_lines(
                s,
                comment_rows(item.value@, item.input_position.column as int),
                self.options.prefix_string@,
                self.indent_text(depth as nat),
                m.eol,
            )
        } else if item.requires_multiple_lines {
            self.end_layout(
                with_piece(self.start_layout(s, item, depth, parent).0, item.value@),
                item,
                include_comma,
            )
        } else {
            ended(
                inline_layout(
                    m,
                    self.options.colon_before_prop_name_padding,
                    self.line_started(s, depth as nat),
                    item,
                    include_comma,
                    parent,
                ),
                m.eol,
            )
        }
    }

    /// `format_item` writes `item` at `depth` as `item_layout` says: it is no
    /// container, or it is one below the always-expand depth that fits on
    /// one line.
    pub closed spec fn laid_simply(
        &self,
        item: JsonItem,
        depth: usize,
        include_comma: bool,
        parent: Option<&TableTemplate>,
    ) -> bool {
        ||| !is_container(item.item_type)
        ||| depth > self.options.always_expand_depth && self.fits_inline(
            item,
            depth,
            include_comma,
            parent,
        )
    }

    /// The tokens (brackets, separators, padding) the formatter writes with.
    pub closed spec fn tokens_model(&self) -> PadsModel {
        self.pads.model()
    }

    /// Each of the first `trs.len()` top-level items `items` is laid out
    /// at `depth` as `trs` says.
    pub closed spec fn top_ok(&self, items: Seq<JsonItem>, trs: Seq<Laid>, depth: usize) -> bool
        decreases trs.len(),
    {
        if trs.len() == 0 {
            true
        } else {
            let k = trs.len() - 1;
            &&& k < items.len()
            &&& self.top_ok(items, trs.drop_last(), depth)
            &&& self.laid_ok(items[k], depth, false, None, trs[k])
        }
    }

    /// The layout after writing the first `trs.len()` top-level items from
    /// `s` at `depth`, each as `trs` says.
    pub closed spec fn top_out(&self, s: Layout, items: Seq<JsonItem>, trs: Seq<Laid>, depth: usize) -> Layout
        decreases trs.len(),
    {
        if trs.len() == 0 {
            s
        } else {
            let k = trs.len() - 1;
            self.laid_out(
                self.top_out(s, items, trs.drop_last(), depth),
                items[k],
                depth,
                false,
                None,
                trs[k],
            )
        }
    }

    /// Only the items that `trs` covers matter to `top_ok` and `top_out`.
    proof fn lemma_top_same(&self, a: Seq<JsonItem>, b: Seq<JsonItem>, trs: Seq<Laid>, depth: usize)
        requires
            trs.len() <= a.len(),
            trs.len() <= b.len(),
            forall|j: int| 0 <= j < trs.len() ==> a[j] == b[j],
        ensures
            self.top_ok(a, trs, depth) == self.top_ok(b, trs, depth),
            forall|s: Layout| #[trigger] self.top_out(s, a, trs, depth) == self.top_out(s, b, trs, depth),
        decreases trs.len(),
    {
        if trs.len() > 0 {
            let k = trs.len() - 1;
            self.lemma_top_same(a, b, trs.drop_last(), depth);
            assert(a[k] == b[k]);
            assert forall|s: Layout| #[trigger] self.top_out(s, a, trs, depth) == self.top_out(
                s,
                b,
                trs,
                depth,
            ) by {
                assert(self.top_out(s, a, trs.drop_last(), depth) == self.top_out(
                    s,
                    b,
                    trs.drop_last(),
                    depth,
                ));
            }
        }
    }

    /// `out` is what writing the top-level items `items` from `s` at
    /// `depth` gives: each laid out by a choice that `laid_ok` allows.
    pub closed spec fn top_written(&self, s: Layout, items: Seq<JsonItem>, depth: usize, out: Layout) -> bool {
        exists|trs: Seq<Laid>|
            #[trigger] self.top_ok(items, trs, depth) && trs.len() == items.len() && out
                == self.top_out(s, items, trs, depth)
    }

    /// `out` is what reformatting `text` from `depth` gives in this style:
    /// the text parses (with at most one value) into some items, which,
    /// once measured, are written as `top_written` allows, and `out` is the
    /// text of that layout.
    pub closed spec fn reformatted(&self, text: Seq<char>, depth: usize, out: Seq<char>) -> bool {
        exists|items: Seq<JsonItem>, shaped: Seq<JsonItem>, lay: Layout|
            #![trigger items_view(items), self.top_written((Seq::empty(), Seq::empty()), shaped, depth, lay)]
            parse_result(text, self.options, true) == Some(items_view(items)) && shaped.len()
                == items.len() && (forall|j: int|
                0 <= j < items.len() ==> measured(
                    items[j],
                    #[trigger] shaped[j],
                    self.pads.model(),
                    self.string_length_func,
                )) && self.top_written((Seq::empty(), Seq::empty()), shaped, depth, lay) && out
                == layout_text(lay)
    }

    /// The formatter's style alone: its options, width function and token
    /// texts, with no output.
    pub closed spec fn style(&self) -> Self {
        Formatter {
            options: self.options,
            string_length_func: self.string_length_func,
            buffer: vstd::pervasive::arbitrary(),
            pads: choose|p: PaddedFormattingTokens| #[trigger] p.model() == self.pads.model(),
        }
    }

    /// The style of a formatter with these options and width function and
    /// freshly made tokens.
    pub closed spec fn fresh_style(&self) -> Self {
        Formatter {
            options: self.options,
            string_length_func: self.string_length_func,
            buffer: vstd::pervasive::arbitrary(),
            pads: choose|p: PaddedFormattingTokens|
                #[trigger] p.model() == pads_model(self.options, self.string_length_func),
        }
    }

    /// The style keeps the options, the width function and the token texts.
    proof fn lemma_style(&self)
        ensures
            self.style().options == self.options,
            self.style().string_length_func == self.string_length_func,
            self.style().pads.model() == self.pads.model(),
    {
        let p = self.pads;
        assert(p.model() == self.pads.model());
    }

    /// Formatters that keep one another's options, width function and
    /// tokens have one style.
    proof fn lemma_style_keeps(&self, other: &Self)
        requires
            self.keeps(other),
        ensures
            self.style() == other.style(),
    {
    }

    /// Rows written several to a line depend on the options and tokens only.
    proof fn lemma_same_compact_rows(
        &self,
        other: &Self,
        s: Layout,
        ch: Seq<JsonItem>,
        k: int,
        space: int,
        avail: int,
        depth: usize,
        table: Option<TableTemplate>,
    )
        requires
            self.options == other.options,
            self.pads.model() == other.pads.model(),
        ensures
            self.compact_rows(s, ch, k, space, avail, depth, table) == other.compact_rows(
                s,
                ch,
                k,
                space,
                avail,
                depth,
                table,
            ),
        decreases k,
    {
        if k > 0 {
            self.lemma_same_compact_rows(other, s, ch, k - 1, space, avail, depth, table);
        }
    }

    /// Table rows depend on the options and tokens only.
    proof fn lemma_same_table_rows(
        &self,
        other: &Self,
        s: Layout,
        ch: Seq<JsonItem>,
        k: int,
        depth: usize,
        template: TableTemplate,
    )
        requires
            self.options == other.options,
            self.pads.model() == other.pads.model(),
        ensures
            self.table_rows(s, ch, k, depth, template) == other.table_rows(
                s,
                ch,
                k,
                depth,
                template,
            ),
        decreases k,
    {
        if k > 0 {
            self.lemma_same_table_rows(other, s, ch, k - 1, depth, template);
        }
    }

    /// Every layout rule depends on the options and tokens only.
    proof fn lemma_same_style(&self, other: &Self)
        requires
            self.options == other.options,
            self.pads.model() == other.pads.model(),
        ensures
            forall|s: Layout, it: JsonItem, d: usize, c: bool, p: Option<&TableTemplate>|
                #[trigger] self.item_layout(s, it, d, c, p) == other.item_layout(s, it, d, c, p),
            forall|it: JsonItem, d: usize, c: bool, p: Option<&TableTemplate>|
                #[trigger] self.laid_simply(it, d, c, p) == other.laid_simply(it, d, c, p),
            forall|it: JsonItem, d: usize, c: bool, p: Option<&TableTemplate>|
                #[trigger] self.fits_inline(it, d, c, p) == other.fits_inline(it, d, c, p),
            forall|it: JsonItem, d: usize, t: TableTemplate|
                #[trigger] self.fits_compact(it, d, t) == other.fits_compact(it, d, t),
            forall|it: JsonItem, d: usize| #[trigger]
                self.table_space(it, d) == other.table_space(it, d),
            forall|it: JsonItem, d: usize, t: TableTemplate|
                #[trigger] self.aligns_props(it, d, t) == other.aligns_props(it, d, t),
            forall|s: Layout, d: nat| #[trigger] self.line_started(s, d) == other.line_started(s, d),
            forall|s: Layout, it: JsonItem, d: usize, p: Option<&TableTemplate>|
                #[trigger] self.start_layout(s, it, d, p) == other.start_layout(s, it, d, p),
            forall|s: Layout, it: JsonItem, c: bool|
                #[trigger] self.end_layout(s, it, c) == other.end_layout(s, it, c),
            forall|s: Layout, it: JsonItem, d: usize, c: bool, p: Option<&TableTemplate>, t: TableTemplate|
                #[trigger] self.compact_layout(s, it, d, c, p, t) == other.compact_layout(
                    s,
                    it,
                    d,
                    c,
                    p,
                    t,
                ),
            forall|s: Layout, it: JsonItem, d: usize, c: bool, p: Option<&TableTemplate>, t: TableTemplate|
                #[trigger] self.table_layout(s, it, d, c, p, t) == other.table_layout(
                    s,
                    it,
                    d,
                    c,
                    p,
                    t,
                ),
    {
        assert forall|s: Layout, it: JsonItem, d: usize, c: bool, p: Option<&TableTemplate>, t: TableTemplate|
            #[trigger] self.compact_layout(s, it, d, c, p, t) == other.compact_layout(
                s,
                it,
                d,
                c,
                p,
                t,
            ) by {
            let m = self.pads.model();
            let (s0, dd) = self.start_layout(s, it, d, p);
            let s1 = with_piece(s0, m.start_text(it.item_type, BracketPaddingType::Empty));
            let avail = sat_sub(
                sat_sub(self.options.max_total_line_length as int, m.prefix_string_len as int) as int,
                sat_mul(self.options.indent_spaces as int, sat_add(dd as int, 1)),
            );
            let table = if t.column_type != TableColumnType::Unknown && t.column_type
                != TableColumnType::Mixed {
                Some(t)
            } else {
                None
            };
            self.lemma_same_compact_rows(
                other,
                s1,
                it.children@,
                it.children@.len() as int,
                -1,
                avail as int,
                sat_add(dd as int, 1) as usize,
                table,
            );
        }
        assert forall|s: Layout, it: JsonItem, d: usize, c: bool, p: Option<&TableTemplate>, t: TableTemplate|
            #[trigger] self.table_layout(s, it, d, c, p, t) == other.table_layout(
                s,
                it,
                d,
                c,
                p,
                t,
            ) by {
            let m = self.pads.model();
            let (s0, dd) = self.start_layout(s, it, d, p);
            let s1 = ended(with_piece(s0, m.start_text(it.item_type, BracketPaddingType::Empty)), m.eol);
            self.lemma_same_table_rows(
                other,
                s1,
                it.children@,
                it.children@.len() as int,
                sat_add(dd as int, 1) as usize,
                t,
            );
        }
    }

    /// Whether measuring `item` for its columns descends into nested
    /// columns: it is simple enough for a compact array or a table row.
    pub closed spec fn recursive_columns(&self, item: JsonItem) -> bool {
        item.complexity <= self.options.max_compact_array_complexity
            || item.complexity <= self.options.max_table_row_complexity + 1
    }

    /// `t` is a template that measuring the rows of `item` from a fresh one
    /// gives, as far as measuring states it.
    pub closed spec fn measured_for(&self, t: TableTemplate, item: JsonItem) -> bool {
        exists|t0: TableTemplate|
            #[trigger] fresh_template(t0, self.pads.model(), self.options.number_list_alignment)
                && root_measured(t0, t, item, self.recursive_columns(item))
    }

    /// `item` is written as a table at `depth`, with `tt` the template
    /// measured for it and `ft` that template fitted into the row width: it
    /// is simple enough, on one line per row, its columns are of one kind
    /// each, every row and the fitted template fit the row width.
    pub closed spec fn table_taken(
        &self,
        item: JsonItem,
        depth: usize,
        tt: TableTemplate,
        ft: TableTemplate,
    ) -> bool {
        &&& item.complexity <= self.options.max_table_row_complexity + 1
        &&& !tt.requires_multiple_lines
        &&& forall|j: int|
            0 <= j < item.children@.len() && !is_comment_or_blank(
                #[trigger] item.children@[j].item_type,
            ) ==> item.children@[j].minimum_total_length <= self.table_space(item, depth)
        &&& tt.column_type != TableColumnType::Mixed
        &&& fitted(tt, ft, self.table_space(item, depth))
    }

    /// Whether `tr` is how `item` is laid out at `depth` (with a comma after
    /// it when `comma`, as a cell of `parent` when given): a scalar, comment
    /// or blank line as it is; a container on one line when it fits there;
    /// else, with `t` the template measured for it, several children to a
    /// line when it fits so; else as a table when the table is taken (`tt`
    /// measured for it, `ft` that one fitted); else expanded, each child laid
    /// out by its own choice.
    pub closed spec fn laid_ok(
        &self,
        item: JsonItem,
        depth: usize,
        comma: bool,
        parent: Option<&TableTemplate>,
        tr: Laid,
    ) -> bool
        decreases tr,
    {
        let beyond = depth > self.options.always_expand_depth;
        let at_least = depth >= self.options.always_expand_depth;
        if !is_container(item.item_type) {
            tr is Simple
        } else if beyond && self.fits_inline(item, depth, comma, parent) {
            tr is Inline
        } else {
            match tr {
                Laid::Compact(t) => self.measured_for(t, item) && beyond && self.fits_compact(
                    item,
                    depth,
                    t,
                ),
                Laid::Table(t, tt, ft) => {
                    &&& self.measured_for(t, item)
                    &&& self.measured_for(tt, item)
                    &&& !(beyond && self.fits_compact(item, depth, t))
                    &&& at_least && self.table_taken(item, depth, tt, ft)
                },
                Laid::Expanded(t, tt, ft, cs) => {
                    &&& self.measured_for(t, item)
                    &&& self.measured_for(tt, item)
                    &&& !(beyond && self.fits_compact(item, depth, t))
                    &&& !(at_least && self.table_taken(item, depth, tt, ft))
                    &&& cs.len() == item.children@.len()
                    &&& self.kids_ok(
                        item.children@,
                        cs,
                        sat_add(self.start_layout(vstd::pervasive::arbitrary(), item, depth, parent).1 as int, 1) as usize,
                        self.props_parent(item, depth, t),
                    )
                },
                _ => false,
            }
        }
    }

    /// The column template children of `item` are written as cells of when
    /// it is written expanded: `t` when its properties align to the name
    /// column.
    pub closed spec fn props_parent(&self, item: JsonItem, depth: usize, t: TableTemplate) -> Option<
        &TableTemplate,
    > {
        if self.aligns_props(item, depth, t) {
            Some(&t)
        } else {
            None
        }
    }

    /// Each of the first `cs.len()` children of `ch` is laid out at `depth`
    /// as `cs` says, with a comma when a value follows it.
    pub closed spec fn kids_ok(
        &self,
        ch: Seq<JsonItem>,
        cs: Seq<Laid>,
        depth: usize,
        parent: Option<&TableTemplate>,
    ) -> bool
        decreases cs,
    {
        if cs.len() == 0 {
            true
        } else {
            let k = cs.len() - 1;
            proof {
                assert(decreases_to!(cs => cs.drop_last()));
            }
            &&& k < ch.len()
            &&& self.kids_ok(ch, cs.drop_last(), depth, parent)
            &&& self.laid_ok(ch[k], depth, value_after(ch, k), parent, cs[k])
        }
    }

    /// The layout after writing `item` from `s` at `depth` as `tr` says.
    pub closed spec fn laid_out(
        &self,
        s: Layout,
        item: JsonItem,
        depth: usize,
        comma: bool,
        parent: Option<&TableTemplate>,
        tr: Laid,
    ) -> Layout
        decreases tr,
    {
        let m = self.pads.model();
        match tr {
            Laid::Simple => self.item_layout(s, item, depth, comma, parent),
            Laid::Inline => ended(
                inline_layout(
                    m,
                    self.options.colon_before_prop_name_padding,
                    self.line_started(s, depth as nat),
                    item,
                    comma,
                    parent,
                ),
                m.eol,
            ),
            Laid::Compact(t) => self.compact_layout(s, item, depth, comma, parent, t),
            Laid::Table(t, tt, ft) => self.table_layout(s, item, depth, comma, parent, ft),
            Laid::Expanded(t, tt, ft, cs) => {
                let (s0, d) = self.start_layout(s, item, depth, parent);
                let s1 = ended(
                    with_piece(s0, m.start_text(item.item_type, BracketPaddingType::Empty)),
                    m.eol,
                );
                let mid = self.kids_out(
                    s1,
                    item.children@,
                    cs,
                    sat_add(d as int, 1) as usize,
                    self.props_parent(item, depth, t),
                );
                self.end_layout(
                    with_piece(
                        self.line_started(mid, d as nat),
                        m.end_text(item.item_type, BracketPaddingType::Empty),
                    ),
                    item,
                    comma,
                )
            },
        }
    }

    /// The layout after writing the first `cs.len()` children of `ch` from
    /// `s` at `depth`, each as `cs` says.
    pub closed spec fn kids_out(
        &self,
        s: Layout,
        ch: Seq<JsonItem>,
        cs: Seq<Laid>,
        depth: usize,
        parent: Option<&TableTemplate>,
    ) -> Layout
        decreases cs,
    {
        if cs.len() == 0 {
            s
        } else {
            let k = cs.len() - 1;
            proof {
                assert(decreases_to!(cs => cs.drop_last()));
            }
            self.laid_out(
                self.kids_out(s, ch, cs.drop_last(), depth, parent),
                ch[k],
                depth,
                value_after(ch, k),
                parent,
                cs[k],
            )
        }
    }

    /// `out` is what writing `item` from `s` gives: the layout of some
    /// choice that `laid_ok` allows.
    pub closed spec fn written(
        &self,
        s: Layout,
        item: JsonItem,
        depth: usize,
        comma: bool,
        parent: Option<&TableTemplate>,
        out: Layout,
    ) -> bool {
        exists|tr: Laid|
            #[trigger] self.laid_ok(item, depth, comma, parent, tr) && out == self.laid_out(
                s,
                item,
                depth,
                comma,
                parent,
                tr,
            )
    }

    /// The layout after writing the first `k` children of `ch` from `s`,
    /// each at `depth`, with a comma when a value follows it.
    spec fn children_layout(
        &self,
        s: Layout,
        ch: Seq<JsonItem>,
        k: int,
        depth: usize,
        parent: Option<&TableTemplate>,
    ) -> Layout
        decreases k,
    {
        if k <= 0 {
            s
        } else {
            self.item_layout(
                self.children_layout(s, ch, k - 1, depth, parent),
                ch[k - 1],
                depth,
                value_after(ch, k - 1),
                parent,
            )
        }
    }

    /// The properties of `item` are padded to the name column of
    /// `template`: it is an object, the padding stays within the limit, no
    /// middle comment spans lines, and its widest row fits one level deeper.
    spec fn aligns_props(&self, item: JsonItem, depth: usize, template: TableTemplate) -> bool {
        &&& item.item_type == JsonItemType::Object
        &&& sat_sub(template.name_length as int, template.name_minimum as int)
            <= self.options.max_prop_name_padding
        &&& !template.any_middle_comment_has_newline
        &&& sat_sub(
            sat_sub(
                self.options.max_total_line_length as int,
                self.pads.model().prefix_string_len as int,
            ) as int,
            sat_mul(self.options.indent_spaces as int, sat_add(depth as int, 1)),
        ) >= atomic_size(template)
    }

    /// Each child of `item`, written expanded, is laid out simply (see
    /// `laid_simply`) one level deeper than its opening line.
    spec fn children_laid_simply(
        &self,
        item: JsonItem,
        depth: usize,
        template: &TableTemplate,
        parent: Option<&TableTemplate>,
    ) -> bool {
        let d = self.start_layout(self.layout(), item, depth, parent).1;
        forall|j: int|
            0 <= j < item.children@.len() ==> self.laid_simply(
                #[trigger] item.children@[j],
                sat_add(d as int, 1) as usize,
                value_after(item.children@, j),
                if self.aligns_props(item, depth, *template) {
                    Some(template)
                } else {
                    None
                },
            )
    }

    /// The layout after writing `item`, a container whose children are laid
    /// out simply, expanded: its opening line, each child on lines of its
    /// own one level deeper (names padded to the columns of `template`
    /// when the properties align), then the closing line.
    spec fn expanded_layout(
        &self,
        item: JsonItem,
        depth: usize,
        include_comma: bool,
        template: &TableTemplate,
        parent: Option<&TableTemplate>,
    ) -> Layout {
        let m = self.pads.model();
        let (s0, d) = self.start_layout(self.layout(), item, depth, parent);
        let s1 = ended(with_piece(s0, m.start_text(item.item_type, BracketPaddingType::Empty)), m.eol);
        let s2 = self.children_layout(
            s1,
            item.children@,
            item.children@.len() as int,
            sat_add(d as int, 1) as usize,
            if self.aligns_props(item, depth, *template) {
                Some(template)
            } else {
                None
            },
        );
        self.end_layout(
            with_piece(
                self.line_started(s2, d as nat),
                m.end_text(item.item_type, BracketPaddingType::Empty),
            ),
            item,
            include_comma,
        )
    }

    /// The layout, and the space left on its line, after writing the first
    /// `k` of the children `ch` several to a line from `s`, where `space`
    /// is left: a child that does not fit in the space left starts a new
    /// line at `depth`, which has `avail` free. With a `table` column each
    /// child is a cell of it, at the column's width; otherwise each is
    /// written inline at its own width.
    spec fn compact_rows(
        &self,
        s: Layout,
        ch: Seq<JsonItem>,
        k: int,
        space: int,
        avail: int,
        depth: usize,
        table: Option<TableTemplate>,
    ) -> (Layout, int)
        decreases k,
    {
        if k <= 0 {
            (s, space)
        } else {
            let prev = self.compact_rows(s, ch, k - 1, space, avail, depth, table);
            let m = self.pads.model();
            let needs_comma = k - 1 < ch.len() - 1;
            let needed = sat_add(
                if needs_comma {
                    m.comma_len as int
                } else {
                    0
                },
                match table {
                    Some(t) => t.total_length as int,
                    None => ch[k - 1].minimum_total_length as int,
                },
            );
            let s1 = if prev.1 < needed {
                self.line_started(ended(prev.0, m.eol), depth as nat)
            } else {
                prev.0
            };
            let r1 = if prev.1 < needed {
                avail
            } else {
                prev.1
            };
            (
                match table {
                    Some(t) => cell_layout(m, self.options, s1, t, ch[k - 1], needs_comma, false),
                    None => inline_layout(
                        m,
                        self.options.colon_before_prop_name_padding,
                        s1,
                        ch[k - 1],
                        needs_comma,
                        None,
                    ),
                },
                r1 - needed,
            )
        }
    }

    /// The layout after writing the array `item` several children to a
    /// line, as cells of `template` when its column holds one kind of
    /// value.
    spec fn compact_layout(
        &self,
        s: Layout,
        item: JsonItem,
        depth: usize,
        include_comma: bool,
        parent: Option<&TableTemplate>,
        template: TableTemplate,
    ) -> Layout {
        let m = self.pads.model();
        let (s0, d) = self.start_layout(s, item, depth, parent);
        let s1 = with_piece(s0, m.start_text(item.item_type, BracketPaddingType::Empty));
        let avail = sat_sub(
            sat_sub(self.options.max_total_line_length as int, m.prefix_string_len as int) as int,
            sat_mul(self.options.indent_spaces as int, sat_add(d as int, 1)),
        );
        let table = if template.column_type != TableColumnType::Unknown && template.column_type
            != TableColumnType::Mixed {
            Some(template)
        } else {
            None
        };
        let rows = self.compact_rows(
            s1,
            item.children@,
            item.children@.len() as int,
            -1,
            avail as int,
            sat_add(d as int, 1) as usize,
            table,
        );
        self.end_layout(
            with_piece(
                self.line_started(ended(rows.0, m.eol), d as nat),
                m.end_text(item.item_type, BracketPaddingType::Empty),
            ),
            item,
            include_comma,
        )
    }

    /// The layout after writing the first `k` children of `ch` as rows of a
    /// table from `s`: a blank line as it is, a comment on lines of its own
    /// at `depth`, and any other child on a line of its own at `depth` as
    /// a whole row of the column `template`, with a comma when a value
    /// follows it.
    spec fn table_rows(
        &self,
        s: Layout,
        ch: Seq<JsonItem>,
        k: int,
        depth: usize,
        template: TableTemplate,
    ) -> Layout
        decreases k,
    {
        if k <= 0 {
            s
        } else {
            let prev = self.table_rows(s, ch, k - 1, depth, template);
            let c = ch[k - 1];
            let m = self.pads.model();
            if c.item_type == JsonItemType::BlankLine {
                ended(with_piece(prev, self.options.prefix_string@), m.eol)
            } else if c.item_type == JsonItemType::BlockComment || c.item_type
                == JsonItemType::LineComment {
                rows_on_lines(
                    prev,
                    comment_rows(c.value@, c.input_position.column as int),
                    self.options.prefix_string@,
                    self.indent_text(depth as nat),
                    m.eol,
                )
            } else {
                ended(
                    cell_layout(
                        m,
                        self.options,
                        self.line_started(prev, depth as nat),
                        template,
                        c,
                        value_after(ch, k - 1),
                        true,
                    ),
                    m.eol,
                )
            }
        }
    }

    /// The layout after writing the container `item` as a table with the
    /// columns of `template`: its opening line, a row per child one level
    /// deeper, then its closing line.
    spec fn table_layout(
        &self,
        s: Layout,
        item: JsonItem,
        depth: usize,
        include_comma: bool,
        parent: Option<&TableTemplate>,
        template: TableTemplate,
    ) -> Layout {
        let m = self.pads.model();
        let (s0, d) = self.start_layout(s, item, depth, parent);
        let s1 = ended(with_piece(s0, m.start_text(item.item_type, BracketPaddingType::Empty)), m.eol);
        let rows = self.table_rows(
            s1,
            item.children@,
            item.children@.len() as int,
            sat_add(d as int, 1) as usize,
            template,
        );
        self.end_layout(
            with_piece(
                self.line_started(rows, d as nat),
                m.end_text(item.item_type, BracketPaddingType::Empty),
            ),
            item,
            include_comma,
        )
    }

    /// The layout after ending an item from `s`: its comma and postfix
    /// comment, in the order the comment's style needs, then the line.
    spec fn end_layout(&self, s: Layout, item: JsonItem, include_comma: bool) -> Layout {
        let m = self.pads.model();
        let s1 = if include_comma && item.is_post_comment_line_style {
            with_piece(s, m.comma)
        } else {
            s
        };
        let s2 = if item.postfix_comment_length > 0 {
            with_piece(with_piece(s1, m.comment), item.postfix_comment@)
        } else {
            s1
        };
        let s3 = if include_comma && !item.is_post_comment_line_style {
            with_piece(s2, m.comma)
        } else {
            s2
        };
        ended(s3, m.eol)
    }

    /// The layout after starting an item from `s`, and the depth its value
    /// is written at: the line start, the prefix comment and name (padded
    /// to the column of `parent` when there is one), then the middle
    /// comment, on lines of its own one level deeper when it spans lines.
    spec fn start_layout(
        &self,
        s: Layout,
        item: JsonItem,
        depth: usize,
        parent: Option<&TableTemplate>,
    ) -> (Layout, usize) {
        let m = self.pads.model();
        let s1 = self.line_started(s, depth as nat);
        let s2 = match parent {
            Some(p) => buffered_fixed(
                buffered_fixed(
                    s1,
                    item.prefix_comment@,
                    item.prefix_comment_length as nat,
                    p.prefix_comment_length as nat,
                    m.comment,
                    false,
                ),
                item.name@,
                item.name_length as nat,
                p.name_length as nat,
                m.colon,
                self.options.colon_before_prop_name_padding,
            ),
            None => buffered(
                buffered(s1, item.prefix_comment@, item.prefix_comment_length as nat, m.comment),
                item.name@,
                item.name_length as nat,
                m.colon,
            ),
        };
        if item.middle_comment_length == 0 {
            (s2, depth)
        } else if !item.middle_comment_has_new_line {
            let pad = match parent {
                Some(p) => sat_sub(p.middle_comment_length as int, item.middle_comment_length as int),
                None => 0,
            };
            (with_piece(with_spaces(with_piece(s2, item.middle_comment@), pad as nat), m.comment), depth)
        } else {
            let deeper = if depth < usize::MAX {
                (depth + 1) as usize
            } else {
                depth
            };
            let s3 = rows_on_lines(
                ended(s2, m.eol),
                comment_rows(item.middle_comment@, usize::MAX as int),
                self.options.prefix_string@,
                self.indent_text(deeper as nat),
                m.eol,
            );
            (self.line_started(s3, deeper as nat), deeper)
        }
    }

    /// Ends the current line with the line ending.
    fn end_line(&mut self)
        requires
            old(self).wf(),
        ensures
            final(self).wf(),
            final(self).keeps(&*old(self)),
            old(self).tidy() ==> final(self).tidy(),
            final(self).layout() == ended(old(self).layout(), old(self).pads.model().eol),
    {
        let ghost doc = self.buffer.doc_lines();
        let ghost parts = self.buffer.line_parts();
        self.buffer.end_line(self.pads.eol());
        proof {
            assert(self.buffer.line_parts() =~= Seq::<Seq<char>>::empty());
            lemma_end_line_ok(doc, parts, self.pads.model().eol);
            if old(self).tidy() {
                lemma_end_line_tidy(doc, parts, self.pads.model().eol);
            }
        }
    }

    /// Starts a line: the prefix, then the indentation for `depth`.
    fn start_line(&mut self, depth: usize)
        requires
            old(self).wf(),
        ensures
            final(self).wf(),
            final(self).keeps(&*old(self)),
            old(self).tidy() ==> final(self).tidy(),
            final(self).layout() == old(self).line_started(old(self).layout(), depth as nat),
    {
        let indent = self.pads.indent(depth);
        proof {
            lemma_repeat_plain(self.pads.model().indent_unit, depth as nat);
        }
        self.buffer.add(self.options.prefix_string.as_str()).add(indent.as_str());
    }

    /// Measures `item` and everything nested in it: the widths of its
    /// texts, whether it needs several lines, and its minimum length.
    fn compute_item_lengths(&self, item: &mut JsonItem)
        requires
            self.wf(),
        ensures
            measured(*old(item), *final(item), self.pads.model(), self.string_length_func),
        decreases *old(item),
    {
        let ghost p = self.pads.model();
        let ghost w = self.string_length_func;
        let mut children: Vec<JsonItem> = Vec::new();
        std::mem::swap(&mut children, &mut item.children);
        let n = children.len();
        let mut i: usize = 0;
        while i < n
            invariant
                self.wf(),
                p == self.pads.model(),
                w == self.string_length_func,
                n == children@.len(),
                n == old(item).children@.len(),
                i <= n,
                forall|j: int| 0 <= j < i ==> #[trigger] measured(old(item).children@[j], children@[j], p, w),
                forall|j: int| i <= j < n ==> #[trigger] children@[j] == old(item).children@[j],
            decreases n - i,
        {
            let mut child = children.remove(i);
            proof {
                assert(decreases_to!(*old(item) => old(item).children));
                assert(decreases_to!(old(item).children => old(item).children@));
                assert(decreases_to!(old(item).children@ => old(item).children@[i as int]));
            }
            self.compute_item_lengths(&mut child);
            children.insert(i, child);
            i += 1;
        }
        proof {
            lemma_all_measured(old(item).children@, children@, p, w);
        }
        item.children = children;
        self.measure_own(item);
    }

    /// Measures the item's own texts, given its measured children.
    fn measure_own(&self, item: &mut JsonItem)
        requires
            self.wf(),
        ensures
            same_content(*old(item), *final(item)),
            final(item).children == old(item).children,
            own_lengths_ok(*final(item), self.pads.model(), self.string_length_func),
    {
        let ghost p = self.pads.model();
        let ghost w = self.string_length_func;
        let width = &self.string_length_func;
        item.value_length = match item.item_type {
            JsonItemType::Null => self.pads.literal_null_len(),
            JsonItemType::True => self.pads.literal_true_len(),
            JsonItemType::False => self.pads.literal_false_len(),
            _ => width.length(item.value.as_str()),
        };
        item.name_length = width.length(item.name.as_str());
        item.prefix_comment_length = width.length(item.prefix_comment.as_str());
        item.middle_comment_length = width.length(item.middle_comment.as_str());
        item.postfix_comment_length = width.length(item.postfix_comment.as_str());
        let any_child = any_child_needs_lines(&item.children);
        item.requires_multiple_lines = Self::is_comment_or_blank_line(item.item_type) || any_child
            || contains_char(item.prefix_comment.as_str(), '\n') || contains_char(
            item.middle_comment.as_str(),
            '\n',
        ) || contains_char(item.postfix_comment.as_str(), '\n') || contains_char(
            item.value.as_str(),
            '\n',
        );
        if item.item_type == JsonItemType::Array || item.item_type == JsonItemType::Object {
            let pad_type = Self::get_padding_type(item);
            let children_len = sum_of_min_lengths(&item.children);
            let n = item.children.len();
            let commas = saturating_product(self.pads.comma_len(), n.saturating_sub(1));
            item.value_length = self.pads.start_len(item.item_type, pad_type).saturating_add(
                self.pads.end_len(item.item_type, pad_type),
            ).saturating_add(children_len).saturating_add(commas);
        }
        item.minimum_total_length = self.minimum_length(item);
    }

    /// An item's minimum length: its comments, name and value with their
    /// separators.
    fn minimum_length(&self, item: &JsonItem) -> (n: usize)
        requires
            self.wf(),
        ensures
            n == sat_add(
                sat_add(
                    sat_add(
                        sat_add(
                            piece_width(item.prefix_comment_length, self.pads.model().comment_len),
                            piece_width(item.name_length, self.pads.model().colon_len),
                        ),
                        piece_width(item.middle_comment_length, self.pads.model().comment_len),
                    ),
                    item.value_length as int,
                ),
                piece_width(item.postfix_comment_length, self.pads.model().comment_len),
            ),
    {
        let comment_len = self.pads.comment_len();
        (if item.prefix_comment_length > 0 {
            item.prefix_comment_length.saturating_add(comment_len)
        } else {
            0
        }).saturating_add(
            if item.name_length > 0 {
                item.name_length.saturating_add(self.pads.colon_len())
            } else {
                0
            },
        ).saturating_add(
            if item.middle_comment_length > 0 {
                item.middle_comment_length.saturating_add(comment_len)
            } else {
                0
            },
        ).saturating_add(item.value_length).saturating_add(
            if item.postfix_comment_length > 0 {
                item.postfix_comment_length.saturating_add(comment_len)
            } else {
                0
            },
        )
    }

    /// How a container's brackets are padded.
    fn get_padding_type(arr_or_obj: &JsonItem) -> (r: BracketPaddingType)
        ensures
            r == padding_type(*arr_or_obj),
    {
        if arr_or_obj.children.len() == 0 {
            return BracketPaddingType::Empty;
        }
        if arr_or_obj.complexity >= 2 {
            BracketPaddingType::Complex
        } else {
            BracketPaddingType::Simple
        }
    }

    /// Comments and blank lines.
    fn is_comment_or_blank_line(item_type: JsonItemType) -> (b: bool)
        ensures
            b == is_comment_or_blank(item_type),
    {
        item_type == JsonItemType::BlankLine || item_type == JsonItemType::BlockComment
            || item_type == JsonItemType::LineComment
    }
}

/// The index of the last child that is a value (not a comment or a blank
/// line), if any.
fn index_of_last_element(item_list: &Vec<JsonItem>) -> (r: Option<usize>)
    ensures
        r matches Some(i) ==> i < item_list@.len() && !is_comment_or_blank(
            item_list@[i as int].item_type,
        ) && forall|j: int|
            i < j < item_list@.len() ==> is_comment_or_blank(#[trigger] item_list@[j].item_type),
        r is None ==> forall|j: int|
            0 <= j < item_list@.len() ==> is_comment_or_blank(#[trigger] item_list@[j].item_type),
{
    let mut i = item_list.len();
    while i > 0
        invariant
            i <= item_list@.len(),
            forall|j: int|
                i <= j < item_list@.len() ==> is_comment_or_blank(
                    #[trigger] item_list@[j].item_type,
                ),
        decreases i,
    {
        let t = item_list[i - 1].item_type;
        if !(t == JsonItemType::BlankLine || t == JsonItemType::BlockComment || t
            == JsonItemType::LineComment) {
            return Some(i - 1);
        }
        i -= 1;
    }
    None
}

/// Whether position `i` comes before the last value `last`.
fn before_last(i: usize, last: Option<usize>) -> (b: bool)
    ensures
        b == (last matches Some(l) && i < l),
{
    match last {
        Some(l) => i < l,
        None => false,
    }
}

/// The index of the child named as the column `location` says (a column
/// without a name matches a child with an empty name).
fn find_named(children: &Vec<JsonItem>, location: &Option<String>) -> (r: Option<usize>)
    ensures
        r matches Some(j) ==> j < children@.len() && children@[j as int].name@ == (
        match location {
            Some(loc) => loc@,
            None => Seq::<char>::empty(),
        }),
        r matches Some(j) ==> forall|k: int|
            0 <= k < j ==> (#[trigger] children@[k]).name@ != (match location {
                Some(loc) => loc@,
                None => Seq::<char>::empty(),
            }),
        r is None ==> forall|k: int|
            0 <= k < children@.len() ==> (#[trigger] children@[k]).name@ != (match location {
                Some(loc) => loc@,
                None => Seq::<char>::empty(),
            }),
{
    let wanted = match location {
        Some(loc) => loc.clone(),
        None => String::new(),
    };
    let mut j: usize = 0;
    while j < children.len()
        invariant
            j <= children@.len(),
            wanted@ == (match location {
                Some(loc) => loc@,
                None => Seq::<char>::empty(),
            }),
            forall|k: int| 0 <= k < j ==> (#[trigger] children@[k]).name@ != wanted@,
        decreases children@.len() - j,
    {
        if children[j].name == wanted {
            return Some(j);
        }
        j += 1;
    }
    None
}

impl<L: StringLength> Formatter<L> {
    /// The room left on a line at `depth` after the prefix and indentation.
    fn available_line_space(&self, depth: usize) -> (n: usize)
        ensures
            n == sat_sub(
                sat_sub(
                    self.options.max_total_line_length as int,
                    self.pads.model().prefix_string_len as int,
                ) as int,
                sat_mul(self.options.indent_spaces as int, depth as int),
            ),
    {
        self.options.max_total_line_length.saturating_sub(self.pads.prefix_string_len()).saturating_sub(
            saturating_product(self.options.indent_spaces, depth),
        )
    }

    /// Writes `value` then `separator`, unless the value is empty.
    fn add_to_buffer(&mut self, value: &str, value_width: usize, separator: &str)
        requires
            old(self).wf(),
        ensures
            final(self).wf(),
            final(self).keeps(&*old(self)),
            old(self).tidy() && no_lf(value@) && no_lf(separator@) ==> final(self).tidy(),
            final(self).layout() == buffered(
                old(self).layout(),
                value@,
                value_width as nat,
                separator@,
            ),
    {
        if value_width == 0 {
            return ;
        }
        self.buffer.add(value).add(separator);
    }

    /// Writes `value` padded to `field_width`, with `separator` before or
    /// after the padding; nothing when the field is empty.
    fn add_to_buffer_fixed(
        &mut self,
        value: &str,
        value_width: usize,
        field_width: usize,
        separator: &str,
        separator_before_padding: bool,
    )
        requires
            old(self).wf(),
        ensures
            final(self).wf(),
            final(self).keeps(&*old(self)),
            old(self).tidy() && no_lf(value@) && no_lf(separator@) ==> final(self).tidy(),
            final(self).layout() == buffered_fixed(
                old(self).layout(),
                value@,
                value_width as nat,
                field_width as nat,
                separator@,
                separator_before_padding,
            ),
    {
        if field_width == 0 {
            return ;
        }
        let pad_width = field_width.saturating_sub(value_width);
        proof {
            lemma_spaces_plain(pad_width as nat);
        }
        if separator_before_padding {
            self.buffer.add(value).add(separator).spaces(pad_width);
        } else {
            self.buffer.add(value).spaces(pad_width).add(separator);
        }
    }

    /// Writes one item, by its kind.
    fn format_item(
        &mut self,
        item: &JsonItem,
        depth: usize,
        include_trailing_comma: bool,
        parent_template: Option<&TableTemplate>,
    )
        requires
            old(self).wf(),
        ensures
            final(self).wf(),
            final(self).keeps(&*old(self)),
            old(self).tidy() && item_clean(*item, true) ==> final(self).tidy(),
            old(self).laid_simply(*item, depth, include_trailing_comma, parent_template)
                ==> final(self).layout() == old(self).item_layout(
                old(self).layout(),
                *item,
                depth,
                include_trailing_comma,
                parent_template,
            ),
            is_container(item.item_type) && depth > old(self).options.always_expand_depth
                && old(self).fits_inline(*item, depth, include_trailing_comma, parent_template)
                ==> final(self).layout() == ended(
                inline_layout(
                    old(self).pads.model(),
                    old(self).options.colon_before_prop_name_padding,
                    old(self).line_started(old(self).layout(), depth as nat),
                    *item,
                    include_trailing_comma,
                    parent_template,
                ),
                old(self).pads.model().eol,
            ),
            old(self).style().written(
                old(self).layout(),
                *item,
                depth,
                include_trailing_comma,
                parent_template,
                final(self).layout(),
            ),
        decreases item, 2int,
    {
        proof {
            old(self).lemma_style();
            old(self).lemma_same_style(&old(self).style());
        }
        match item.item_type {
            JsonItemType::Array | JsonItemType::Object => {
                self.format_container(item, depth, include_trailing_comma, parent_template)
            },
            JsonItemType::BlankLine => self.format_blank_line(),
            JsonItemType::BlockComment | JsonItemType::LineComment => {
                self.format_standalone_comment(item, depth)
            },
            _ => {
                if item.requires_multiple_lines {
                    self.format_split_key_value(
                        item,
                        depth,
                        include_trailing_comma,
                        parent_template,
                    );
                } else {
                    self.format_inline_element(
                        item,
                        depth,
                        include_trailing_comma,
                        parent_template,
                    );
                }
            },
        }
        proof {
            if !is_container(item.item_type) {
                let st = old(self).style();
                assert(st.laid_ok(*item, depth, include_trailing_comma, parent_template, Laid::Simple));
                assert(self.layout() == st.laid_out(
                    old(self).layout(),
                    *item,
                    depth,
                    include_trailing_comma,
                    parent_template,
                    Laid::Simple,
                ));
            }
        }
    }

    /// Writes a container: on one line if it fits, else as a compact
    /// multi-line array, else as a table, else expanded.
    fn format_container(
        &mut self,
        item: &JsonItem,
        depth: usize,
        include_trailing_comma: bool,
        parent_template: Option<&TableTemplate>,
    )
        requires
            old(self).wf(),
            is_container(item.item_type),
        ensures
            final(self).wf(),
            final(self).keeps(&*old(self)),
            old(self).tidy() && item_clean(*item, true) ==> final(self).tidy(),
            depth > old(self).options.always_expand_depth && old(self).fits_inline(
                *item,
                depth,
                include_trailing_comma,
                parent_template,
            ) ==> final(self).layout() == ended(
                inline_layout(
                    old(self).pads.model(),
                    old(self).options.colon_before_prop_name_padding,
                    old(self).line_started(old(self).layout(), depth as nat),
                    *item,
                    include_trailing_comma,
                    parent_template,
                ),
                old(self).pads.model().eol,
            ),
            old(self).style().written(
                old(self).layout(),
                *item,
                depth,
                include_trailing_comma,
                parent_template,
                final(self).layout(),
            ),
        decreases item, 1int,
    {
        let ghost st = old(self).style();
        proof {
            old(self).lemma_style();
            old(self).lemma_same_style(&st);
        }
        let beyond = depth_beyond(depth, self.options.always_expand_depth);
        if beyond && self.format_container_inline(
            item,
            depth,
            include_trailing_comma,
            parent_template,
        ) {
            proof {
                assert(st.laid_ok(*item, depth, include_trailing_comma, parent_template, Laid::Inline));
            }
            return ;
        }
        let recursive_template = within(item.complexity, self.options.max_compact_array_complexity, 0)
            || within(item.complexity, self.options.max_table_row_complexity, 1);
        let mut template = TableTemplate::new(self.pads.clone(), self.options.number_list_alignment);
        let ghost t0 = template;
        template.measure_table_root(item, recursive_template);
        proof {
            assert(fresh_template(t0, st.pads.model(), st.options.number_list_alignment));
            assert(recursive_template == st.recursive_columns(*item));
            assert(st.measured_for(template, *item));
        }
        let ghost s_in = self.layout();
        if beyond && self.format_container_compact_multiline(
            item,
            depth,
            include_trailing_comma,
            &template,
            parent_template,
        ) {
            proof {
                assert(st.laid_ok(*item, depth, include_trailing_comma, parent_template, Laid::Compact(template)));
                assert(self.layout() == st.laid_out(s_in, *item, depth, include_trailing_comma, parent_template, Laid::Compact(template)));
            }
            return ;
        }
        let ghost mut tt_w = template;
        let ghost mut ft_w = template;
        if depth_at_least(depth, self.options.always_expand_depth) {
            let mut table_template = TableTemplate::new(
                self.pads.clone(),
                self.options.number_list_alignment,
            );
            let ghost tt0 = table_template;
            table_template.measure_table_root(item, recursive_template);
            let ghost tt_m = table_template;
            proof {
                assert(fresh_template(tt0, st.pads.model(), st.options.number_list_alignment));
                assert(st.measured_for(tt_m, *item));
            }
            if self.format_container_table(
                item,
                depth,
                include_trailing_comma,
                &mut table_template,
                parent_template,
            ) {
                proof {
                    assert(st.table_taken(*item, depth, tt_m, table_template));
                    let tr = Laid::Table(template, tt_m, table_template);
                    assert(st.laid_ok(*item, depth, include_trailing_comma, parent_template, tr));
                    assert(self.layout() == st.laid_out(s_in, *item, depth, include_trailing_comma, parent_template, tr));
                }
                return ;
            }
            proof {
                assert(!st.table_taken(*item, depth, tt_m, table_template));
                tt_w = tt_m;
                ft_w = table_template;
            }
        }
        self.format_container_expanded(
            item,
            depth,
            include_trailing_comma,
            &template,
            parent_template,
        );
        proof {
            assert(!(depth >= st.options.always_expand_depth && st.table_taken(*item, depth, tt_w, ft_w)));
            assert(st.measured_for(tt_w, *item));
            let cs = choose|cs: Seq<Laid>|
                #[trigger] st.kids_ok(
                    item.children@,
                    cs,
                    sat_add(st.start_layout(vstd::pervasive::arbitrary(), *item, depth, parent_template).1 as int, 1) as usize,
                    st.props_parent(*item, depth, template),
                ) && cs.len() == item.children@.len() && self.layout() == st.laid_out(
                    s_in,
                    *item,
                    depth,
                    include_trailing_comma,
                    parent_template,
                    Laid::Expanded(template, template, template, cs),
                );
            let tr = Laid::Expanded(template, tt_w, ft_w, cs);
            assert(st.laid_ok(*item, depth, include_trailing_comma, parent_template, tr));
            assert(self.layout() == st.laid_out(s_in, *item, depth, include_trailing_comma, parent_template, tr));
        }
    }

    /// Writes a container on one line, if it is simple and short enough.
    #[verifier::spinoff_prover]
    #[verifier::rlimit(30)]
    fn format_container_inline(
        &mut self,
        item: &JsonItem,
        depth: usize,
        include_trailing_comma: bool,
        parent_template: Option<&TableTemplate>,
    ) -> (written: bool)
        requires
            old(self).wf(),
        ensures
            final(self).wf(),
            final(self).keeps(&*old(self)),
            old(self).tidy() && item_clean(*item, true) ==> final(self).tidy(),
            written == old(self).fits_inline(*item, depth, include_trailing_comma, parent_template),
            written ==> final(self).layout() == ended(
                inline_layout(
                    old(self).pads.model(),
                    old(self).options.colon_before_prop_name_padding,
                    old(self).line_started(old(self).layout(), depth as nat),
                    *item,
                    include_trailing_comma,
                    parent_template,
                ),
                old(self).pads.model().eol,
            ),
            !written ==> *final(self) == *old(self),
    {
        if item.requires_multiple_lines {
            return false;
        }
        let (prefix_width, name_width) = match parent_template {
            Some(parent) => (parent.prefix_comment_length, parent.name_length),
            None => (item.prefix_comment_length, item.name_length),
        };
        let prefix_length = if prefix_width > 0 {
            prefix_width.saturating_add(self.pads.comment_len())
        } else {
            0
        };
        let name_length = if name_width > 0 {
            name_width.saturating_add(self.pads.colon_len())
        } else {
            0
        };
        let length_to_consider = prefix_length.saturating_add(name_length).saturating_add(
            if item.middle_comment_length > 0 {
                item.middle_comment_length.saturating_add(self.pads.comment_len())
            } else {
                0
            },
        ).saturating_add(item.value_length).saturating_add(
            if item.postfix_comment_length > 0 {
                item.postfix_comment_length.saturating_add(self.pads.comment_len())
            } else {
                0
            },
        ).saturating_add(
            if include_trailing_comma {
                self.pads.comma_len()
            } else {
                0
            },
        );
        if !within(item.complexity, self.options.max_inline_complexity, 0) || length_to_consider
            > self.available_line_space(depth) {
            return false;
        }
        self.start_line(depth);
        self.inline_element(item, include_trailing_comma, parent_template);
        self.end_line();
        true
    }

    /// Writes an array of short items several to a line, if the options
    /// allow and enough of them fit on a line.
    fn format_container_compact_multiline(
        &mut self,
        item: &JsonItem,
        depth: usize,
        include_trailing_comma: bool,
        template: &TableTemplate,
        parent_template: Option<&TableTemplate>,
    ) -> (written: bool)
        requires
            old(self).wf(),
        ensures
            final(self).wf(),
            final(self).keeps(&*old(self)),
            old(self).tidy() && item_clean(*item, true) ==> final(self).tidy(),
            written == old(self).fits_compact(*item, depth, *template),
            !written ==> *final(self) == *old(self),
            written ==> final(self).layout() == old(self).compact_layout(
                old(self).layout(),
                *item,
                depth,
                include_trailing_comma,
                parent_template,
                *template,
            ),
    {
        let ghost t0 = old(self).tidy() && item_clean(*item, true);
        proof {
            lemma_items_clean(item.children@, true);
            lemma_brackets_plain(self.pads.model(), item.item_type, BracketPaddingType::Empty);
        }
        if item.item_type != JsonItemType::Array {
            return false;
        }
        if item.children.len() == 0 || item.children.len()
            < self.options.min_compact_array_row_items {
            return false;
        }
        if !within(item.complexity, self.options.max_compact_array_complexity, 0) {
            return false;
        }
        if item.requires_multiple_lines {
            return false;
        }
        let use_table_formatting = template.column_type != TableColumnType::Unknown
            && template.column_type != TableColumnType::Mixed;
        let likely_available_line_space = self.available_line_space(depth.saturating_add(1));
        let mut avg_item_width = self.pads.comma_len();
        if use_table_formatting {
            avg_item_width = avg_item_width.saturating_add(template.total_length);
        } else {
            let sum = sum_of_min_lengths(&item.children);
            avg_item_width = avg_item_width.saturating_add(sum / item.children.len());
        }
        if saturating_product(avg_item_width, self.options.min_compact_array_row_items)
            > likely_available_line_space {
            return false;
        }
        let depth_after_colon = self.standard_format_start(item, depth, parent_template);
        self.buffer.add(self.pads.start(item.item_type, BracketPaddingType::Empty));
        let ghost opened = self.layout();
        let ghost table = if use_table_formatting {
            Some(*template)
        } else {
            None::<TableTemplate>
        };
        let available_line_space = self.available_line_space(depth_after_colon.saturating_add(1));
        let mut remaining_line_space: i128 = -1;
        let n = item.children.len();
        let mut i: usize = 0;
        while i < n
            invariant
                self.wf(),
                self.keeps(&*old(self)),
                n == item.children@.len(),
                i <= n,
                -(usize::MAX as i128) <= remaining_line_space <= usize::MAX as i128,
                t0 ==> self.tidy(),
                t0 ==> item_clean(*item, true) && !item.requires_multiple_lines,
                t0 ==> forall|k: int| 0 <= k < n ==> #[trigger] item_clean(item.children@[k], true),
                table == (if use_table_formatting {
                    Some(*template)
                } else {
                    None::<TableTemplate>
                }),
                use_table_formatting == (template.column_type != TableColumnType::Unknown
                    && template.column_type != TableColumnType::Mixed),
                self.layout() == old(self).compact_rows(
                    opened,
                    item.children@,
                    i as int,
                    -1,
                    available_line_space as int,
                    depth_after_colon.saturating_add(1),
                    table,
                ).0,
                remaining_line_space == old(self).compact_rows(
                    opened,
                    item.children@,
                    i as int,
                    -1,
                    available_line_space as int,
                    depth_after_colon.saturating_add(1),
                    table,
                ).1,
            decreases n - i,
        {
            let child = &item.children[i];
            proof {
                if t0 {
                    assert(item_clean(item.children@[i as int], true));
                    assert(!breaks_line(item.children@[i as int]));
                }
            }
            let needs_comma = i < n - 1;
            let comma_width = if needs_comma {
                self.pads.comma_len()
            } else {
                0
            };
            let space_needed = if use_table_formatting {
                comma_width.saturating_add(template.total_length)
            } else {
                comma_width.saturating_add(child.minimum_total_length)
            };
            if remaining_line_space < space_needed as i128 {
                self.end_line();
                self.start_line(depth_after_colon.saturating_add(1));
                remaining_line_space = available_line_space as i128;
            }
            if use_table_formatting {
                self.inline_table_row_segment(template, child, needs_comma, false);
            } else {
                self.inline_element(child, needs_comma, None);
            }
            remaining_line_space = remaining_line_space - space_needed as i128;
            i += 1;
        }
        self.end_line();
        self.start_line(depth_after_colon);
        self.buffer.add(self.pads.end(item.item_type, BracketPaddingType::Empty));
        self.standard_format_end(item, include_trailing_comma);
        true
    }

    /// Writes a container as a table, one child per row with aligned
    /// columns, if the rows fit.
    fn format_container_table(
        &mut self,
        item: &JsonItem,
        depth: usize,
        include_trailing_comma: bool,
        template: &mut TableTemplate,
        parent_template: Option<&TableTemplate>,
    ) -> (written: bool)
        requires
            old(self).wf(),
            template_wf(*old(template)),
            !old(template).requires_multiple_lines ==> forall|j: int|
                0 <= j < item.children@.len() ==> is_comment_or_blank(
                    #[trigger] item.children@[j].item_type,
                ) || !item.children@[j].requires_multiple_lines,
        ensures
            final(self).wf(),
            final(self).keeps(&*old(self)),
            old(self).tidy() && item_clean(*item, true) ==> final(self).tidy(),
            written == (item.complexity <= old(self).options.max_table_row_complexity + 1
                && !old(template).requires_multiple_lines && (forall|j: int|
                0 <= j < item.children@.len() && !is_comment_or_blank(
                    #[trigger] item.children@[j].item_type,
                ) ==> item.children@[j].minimum_total_length <= old(self).table_space(*item, depth))
                && old(template).column_type != TableColumnType::Mixed && final(template).total_length
                <= old(self).table_space(*item, depth)),
            !written ==> *final(self) == *old(self),
            written ==> fitted(*old(template), *final(template), old(self).table_space(*item, depth)),
            written ==> final(self).layout() == old(self).table_layout(
                old(self).layout(),
                *item,
                depth,
                include_trailing_comma,
                parent_template,
                *final(template),
            ),
    {
        let ghost t0 = old(self).tidy() && item_clean(*item, true);
        proof {
            lemma_items_clean(item.children@, true);
            lemma_brackets_plain(self.pads.model(), item.item_type, BracketPaddingType::Empty);
        }
        if !within(item.complexity, self.options.max_table_row_complexity, 1) {
            return false;
        }
        if template.requires_multiple_lines {
            return false;
        }
        let available_space_depth = if item.middle_comment_has_new_line {
            depth.saturating_add(2)
        } else {
            depth.saturating_add(1)
        };
        let available_space = self.available_line_space(available_space_depth).saturating_sub(
            self.pads.comma_len(),
        );
        let mut k: usize = 0;
        while k < item.children.len()
            invariant
                self.wf(),
                self.keeps(&*old(self)),
                *self == *old(self),
                *template == *old(template),
                k <= item.children@.len(),
                available_space == old(self).table_space(*item, depth),
                forall|j: int|
                    0 <= j < k && !is_comment_or_blank(#[trigger] item.children@[j].item_type)
                        ==> item.children@[j].minimum_total_length <= available_space,
            decreases item.children@.len() - k,
        {
            let ch = &item.children[k];
            if !Self::is_comment_or_blank_line(ch.item_type) && ch.minimum_total_length
                > available_space {
                return false;
            }
            k += 1;
        }
        if template.column_type == TableColumnType::Mixed || !template.try_to_fit(available_space) {
            return false;
        }
        let depth_after_colon = self.standard_format_start(item, depth, parent_template);
        self.buffer.add(self.pads.start(item.item_type, BracketPaddingType::Empty));
        self.end_line();
        let ghost opened = self.layout();
        let last_element_index = index_of_last_element(&item.children);
        let row_depth = depth_after_colon.saturating_add(1);
        let n = item.children.len();
        let mut i: usize = 0;
        while i < n
            invariant
                self.wf(),
                self.keeps(&*old(self)),
                n == item.children@.len(),
                i <= n,
                t0 ==> self.tidy(),
                t0 ==> forall|k: int| 0 <= k < n ==> #[trigger] item_clean(item.children@[k], true),
                !template.requires_multiple_lines,
                forall|j: int|
                    0 <= j < n ==> is_comment_or_blank(#[trigger] item.children@[j].item_type)
                        || !item.children@[j].requires_multiple_lines,
                self.layout() == old(self).table_rows(
                    opened,
                    item.children@,
                    i as int,
                    row_depth,
                    *template,
                ),
                last_element_index matches Some(l) ==> l < n && !is_comment_or_blank(
                    item.children@[l as int].item_type,
                ) && forall|j: int|
                    l < j < n ==> is_comment_or_blank(#[trigger] item.children@[j].item_type),
                last_element_index is None ==> forall|j: int|
                    0 <= j < n ==> is_comment_or_blank(#[trigger] item.children@[j].item_type),
            decreases n - i,
        {
            let row_item = &item.children[i];
            let comma = before_last(i, last_element_index);
            proof {
                assert(comma == value_after(item.children@, i as int)) by {
                    match last_element_index {
                        Some(l) => {
                            if (i as int) < (l as int) {
                                assert(!is_comment_or_blank(item.children@[l as int].item_type));
                            }
                        },
                        None => {},
                    }
                }
                if t0 {
                    assert(item_clean(item.children@[i as int], true));
                }
                assert(is_comment_or_blank(item.children@[i as int].item_type)
                    || !item.children@[i as int].requires_multiple_lines);
            }
            match row_item.item_type {
                JsonItemType::BlankLine => {
                    self.format_blank_line();
                },
                JsonItemType::LineComment | JsonItemType::BlockComment => {
                    self.format_standalone_comment(row_item, row_depth);
                },
                _ => {
                    self.start_line(row_depth);
                    self.inline_table_row_segment(template, row_item, comma, true);
                    self.end_line();
                },
            }
            i += 1;
        }
        self.start_line(depth_after_colon);
        self.buffer.add(self.pads.end(item.item_type, BracketPaddingType::Empty));
        self.standard_format_end(item, include_trailing_comma);
        true
    }

    /// Writes a container with each child on lines of its own.
    #[verifier::spinoff_prover]
    #[verifier::rlimit(50)]
    fn format_container_expanded(
        &mut self,
        item: &JsonItem,
        depth: usize,
        include_trailing_comma: bool,
        template: &TableTemplate,
        parent_template: Option<&TableTemplate>,
    )
        requires
            old(self).wf(),
        ensures
            final(self).wf(),
            final(self).keeps(&*old(self)),
            old(self).tidy() && item_clean(*item, true) ==> final(self).tidy(),
            old(self).children_laid_simply(*item, depth, template, parent_template)
                ==> final(self).layout() == old(self).expanded_layout(
                *item,
                depth,
                include_trailing_comma,
                template,
                parent_template,
            ),
            exists|cs: Seq<Laid>|
                #[trigger] old(self).style().kids_ok(
                    item.children@,
                    cs,
                    sat_add(
                        old(self).style().start_layout(
                            vstd::pervasive::arbitrary(),
                            *item,
                            depth,
                            parent_template,
                        ).1 as int,
                        1,
                    ) as usize,
                    old(self).style().props_parent(*item, depth, *template),
                ) && cs.len() == item.children@.len() && final(self).layout() == old(
                    self,
                ).style().laid_out(
                    old(self).layout(),
                    *item,
                    depth,
                    include_trailing_comma,
                    parent_template,
                    Laid::Expanded(*template, *template, *template, cs),
                ),
        decreases item, 0int,
    {
        let ghost st = old(self).style();
        proof {
            old(self).lemma_style();
            old(self).lemma_same_style(&st);
        }
        let ghost t0 = old(self).tidy() && item_clean(*item, true);
        proof {
            lemma_items_clean(item.children@, true);
            lemma_brackets_plain(self.pads.model(), item.item_type, BracketPaddingType::Empty);
        }
        let ghost flat = old(self).children_laid_simply(*item, depth, template, parent_template);
        let depth_after_colon = self.standard_format_start(item, depth, parent_template);
        self.buffer.add(self.pads.start(item.item_type, BracketPaddingType::Empty));
        self.end_line();
        let ghost opened = self.layout();
        let align_props = item.item_type == JsonItemType::Object
            && template.name_length.saturating_sub(template.name_minimum)
            <= self.options.max_prop_name_padding && !template.any_middle_comment_has_newline
            && self.available_line_space(depth.saturating_add(1)) >= template.atomic_item_size();
        let template_to_pass = if align_props {
            Some(template)
        } else {
            None
        };
        let last_element_index = index_of_last_element(&item.children);
        let child_depth = depth_after_colon.saturating_add(1);
        let n = item.children.len();
        let mut i: usize = 0;
        let ghost mut cs: Seq<Laid> = Seq::empty();
        proof {
            assert(st.start_layout(vstd::pervasive::arbitrary(), *item, depth, parent_template).1
                == old(self).start_layout(old(self).layout(), *item, depth, parent_template).1);
        }
        while i < n
            invariant
                self.wf(),
                self.keeps(&*old(self)),
                n == item.children@.len(),
                i <= n,
                t0 ==> self.tidy(),
                t0 ==> forall|k: int| 0 <= k < n ==> #[trigger] item_clean(item.children@[k], true),
                cs.len() == i,
                st.kids_ok(item.children@, cs, child_depth, template_to_pass),
                self.layout() == st.kids_out(opened, item.children@, cs, child_depth, template_to_pass),
                flat == old(self).children_laid_simply(*item, depth, template, parent_template),
                child_depth == sat_add(
                    old(self).start_layout(old(self).layout(), *item, depth, parent_template).1 as int,
                    1,
                ) as usize,
                template_to_pass == (if old(self).aligns_props(*item, depth, *template) {
                    Some(template)
                } else {
                    None
                }),
                st == old(self).style(),
                flat ==> self.layout() == old(self).children_layout(
                    opened,
                    item.children@,
                    i as int,
                    child_depth,
                    template_to_pass,
                ),
                last_element_index matches Some(l) ==> l < n && !is_comment_or_blank(
                    item.children@[l as int].item_type,
                ) && forall|j: int|
                    l < j < n ==> is_comment_or_blank(#[trigger] item.children@[j].item_type),
                last_element_index is None ==> forall|j: int|
                    0 <= j < n ==> is_comment_or_blank(#[trigger] item.children@[j].item_type),
            decreases n - i,
        {
            let comma = before_last(i, last_element_index);
            proof {
                assert(comma == value_after(item.children@, i as int)) by {
                    match last_element_index {
                        Some(l) => {
                            if (i as int) < (l as int) {
                                assert(!is_comment_or_blank(item.children@[l as int].item_type));
                            }
                        },
                        None => {},
                    }
                }
                if flat {
                    assert(old(self).laid_simply(
                        item.children@[i as int],
                        child_depth,
                        comma,
                        template_to_pass,
                    ));
                }
                assert(decreases_to!(item => item.children));
                assert(decreases_to!(item.children => item.children@));
                assert(decreases_to!(item.children@ => item.children@[i as int]));
                if t0 {
                    assert(item_clean(item.children@[i as int], true));
                }
            }
            let ghost before = self.layout();
            let ghost pre = *self;
            self.format_item(&item.children[i], child_depth, comma, template_to_pass);
            proof {
                pre.lemma_style_keeps(&*old(self));
                let ch = item.children@;
                let tr = choose|tr: Laid|
                    #[trigger] st.laid_ok(ch[i as int], child_depth, comma, template_to_pass, tr)
                        && self.layout() == st.laid_out(
                        before,
                        ch[i as int],
                        child_depth,
                        comma,
                        template_to_pass,
                        tr,
                    );
                let cs2 = cs.push(tr);
                assert(cs2.drop_last() =~= cs);
                assert(cs2[i as int] == tr);
                assert(st.kids_ok(ch, cs2, child_depth, template_to_pass));
                assert(self.layout() == st.kids_out(opened, ch, cs2, child_depth, template_to_pass));
                cs = cs2;
            }
            i += 1;
        }
        self.start_line(depth_after_colon);
        self.buffer.add(self.pads.end(item.item_type, BracketPaddingType::Empty));
        self.standard_format_end(item, include_trailing_comma);
        proof {
            assert(template_to_pass == st.props_parent(*item, depth, *template));
            assert(self.layout() == st.laid_out(
                old(self).layout(),
                *item,
                depth,
                include_trailing_comma,
                parent_template,
                Laid::Expanded(*template, *template, *template, cs),
            ));
        }
    }

    /// Writes a comment on lines of its own, re-indented.
    fn format_standalone_comment(&mut self, item: &JsonItem, depth: usize)
        requires
            old(self).wf(),
        ensures
            final(self).wf(),
            final(self).keeps(&*old(self)),
            old(self).tidy() ==> final(self).tidy(),
            final(self).layout() == rows_on_lines(
                old(self).layout(),
                comment_rows(item.value@, item.input_position.column as int),
                old(self).options.prefix_string@,
                old(self).indent_text(depth as nat),
                old(self).pads.model().eol,
            ),
    {
        let comment_rows = normalize_multiline_comment(
            item.value.as_str(),
            item.input_position.column,
        );
        let ghost rows = comment_rows@.map_values(|r: String| r@);
        let mut i: usize = 0;
        proof {
            assert(rows.take(0) =~= Seq::<Seq<char>>::empty());
        }
        while i < comment_rows.len()
            invariant
                self.wf(),
                self.keeps(&*old(self)),
                i <= comment_rows@.len(),
                forall|k: int| 0 <= k < comment_rows@.len() ==> no_lf(#[trigger] comment_rows@[k]@),
                old(self).tidy() ==> self.tidy(),
                rows == comment_rows@.map_values(|r: String| r@),
                self.layout() == rows_on_lines(
                    old(self).layout(),
                    rows.take(i as int),
                    old(self).options.prefix_string@,
                    old(self).indent_text(depth as nat),
                    old(self).pads.model().eol,
                ),
            decreases comment_rows@.len() - i,
        {
            self.start_line(depth);
            self.buffer.add(comment_rows[i].as_str());
            self.end_line();
            proof {
                let t = rows.take(i + 1);
                assert(t.drop_last() =~= rows.take(i as int));
                assert(t.last() == comment_rows@[i as int]@);
            }
            i += 1;
        }
        proof {
            assert(rows.take(rows.len() as int) =~= rows);
        }
    }

    /// Writes a blank line (only the prefix).
    fn format_blank_line(&mut self)
        requires
            old(self).wf(),
        ensures
            final(self).wf(),
            final(self).keeps(&*old(self)),
            old(self).tidy() ==> final(self).tidy(),
            final(self).layout() == ended(
                with_piece(old(self).layout(), old(self).options.prefix_string@),
                old(self).pads.model().eol,
            ),
    {
        self.buffer.add(self.options.prefix_string.as_str());
        self.end_line();
    }

    /// Writes a simple item on a line of its own.
    fn format_inline_element(
        &mut self,
        item: &JsonItem,
        depth: usize,
        include_trailing_comma: bool,
        parent_template: Option<&TableTemplate>,
    )
        requires
            old(self).wf(),
        ensures
            final(self).wf(),
            final(self).keeps(&*old(self)),
            old(self).tidy() && item_clean(*item, true) ==> final(self).tidy(),
            final(self).layout() == ended(
                inline_layout(
                old(self).pads.model(),
                old(self).options.colon_before_prop_name_padding,
                    old(self).line_started(old(self).layout(), depth as nat),
                    *item,
                    include_trailing_comma,
                    parent_template,
                ),
                old(self).pads.model().eol,
            ),
    {
        self.start_line(depth);
        self.inline_element(item, include_trailing_comma, parent_template);
        self.end_line();
    }

    /// Writes a simple item whose comments take several lines.
    fn format_split_key_value(
        &mut self,
        item: &JsonItem,
        depth: usize,
        include_trailing_comma: bool,
        parent_template: Option<&TableTemplate>,
    )
        requires
            old(self).wf(),
        ensures
            final(self).wf(),
            final(self).keeps(&*old(self)),
            old(self).tidy() && item_clean(*item, true) && !is_comment_or_blank(item.item_type)
                ==> final(self).tidy(),
            final(self).layout() == old(self).end_layout(
                with_piece(
                    old(self).start_layout(old(self).layout(), *item, depth, parent_template).0,
                    item.value@,
                ),
                *item,
                include_trailing_comma,
            ),
    {
        self.standard_format_start(item, depth, parent_template);
        self.buffer.add(item.value.as_str());
        self.standard_format_end(item, include_trailing_comma);
    }

    /// Starts an item: indentation, prefix comment, name and middle
    /// comment. Returns the depth the value is written at (one more when a
    /// middle comment took lines of its own).
    fn standard_format_start(
        &mut self,
        item: &JsonItem,
        depth: usize,
        parent_template: Option<&TableTemplate>,
    ) -> (d: usize)
        requires
            old(self).wf(),
        ensures
            final(self).wf(),
            final(self).keeps(&*old(self)),
            d == depth || d == depth.saturating_add(1),
            old(self).tidy() && item_clean(*item, true) ==> final(self).tidy(),
            (final(self).layout(), d) == old(self).start_layout(
                old(self).layout(),
                *item,
                depth,
                parent_template,
            ),
    {
        self.start_line(depth);
        let comment_sep = String::from_str(self.pads.comment());
        let colon_sep = String::from_str(self.pads.colon());
        match parent_template {
            Some(parent) => {
                self.add_to_buffer_fixed(
                    item.prefix_comment.as_str(),
                    item.prefix_comment_length,
                    parent.prefix_comment_length,
                    comment_sep.as_str(),
                    false,
                );
                self.add_to_buffer_fixed(
                    item.name.as_str(),
                    item.name_length,
                    parent.name_length,
                    colon_sep.as_str(),
                    self.options.colon_before_prop_name_padding,
                );
            },
            None => {
                self.add_to_buffer(
                    item.prefix_comment.as_str(),
                    item.prefix_comment_length,
                    comment_sep.as_str(),
                );
                self.add_to_buffer(item.name.as_str(), item.name_length, colon_sep.as_str());
            },
        }
        if item.middle_comment_length == 0 {
            return depth;
        }
        if !item.middle_comment_has_new_line {
            let middle_pad = match parent_template {
                Some(parent) => parent.middle_comment_length.saturating_sub(
                    item.middle_comment_length,
                ),
                None => 0,
            };
            proof {
                lemma_spaces_plain(middle_pad as nat);
            }
            self.buffer.add(item.middle_comment.as_str()).spaces(middle_pad).add(
                self.pads.comment(),
            );
            return depth;
        }
        let comment_rows = normalize_multiline_comment(item.middle_comment.as_str(), usize::MAX);
        self.end_line();
        let ghost base = self.layout();
        let deeper = depth.saturating_add(1);
        let ghost rows = comment_rows@.map_values(|r: String| r@);
        let mut i: usize = 0;
        proof {
            assert(rows.take(0) =~= Seq::<Seq<char>>::empty());
        }
        while i < comment_rows.len()
            invariant
                self.wf(),
                self.keeps(&*old(self)),
                i <= comment_rows@.len(),
                forall|k: int| 0 <= k < comment_rows@.len() ==> no_lf(#[trigger] comment_rows@[k]@),
                old(self).tidy() && item_clean(*item, true) ==> self.tidy(),
                rows == comment_rows@.map_values(|r: String| r@),
                self.layout() == rows_on_lines(
                    base,
                    rows.take(i as int),
                    old(self).options.prefix_string@,
                    old(self).indent_text(deeper as nat),
                    old(self).pads.model().eol,
                ),
            decreases comment_rows@.len() - i,
        {
            self.start_line(deeper);
            self.buffer.add(comment_rows[i].as_str());
            self.end_line();
            proof {
                let t = rows.take(i + 1);
                assert(t.drop_last() =~= rows.take(i as int));
                assert(t.last() == comment_rows@[i as int]@);
            }
            i += 1;
        }
        proof {
            assert(rows.take(rows.len() as int) =~= rows);
        }
        self.start_line(deeper);
        deeper
    }

    /// Ends an item: its comma and postfix comment, in the order the
    /// comment's style needs, then the line.
    fn standard_format_end(&mut self, item: &JsonItem, include_trailing_comma: bool)
        requires
            old(self).wf(),
        ensures
            final(self).wf(),
            final(self).keeps(&*old(self)),
            old(self).tidy() && item_clean(*item, true) ==> final(self).tidy(),
            final(self).layout() == old(self).end_layout(
                old(self).layout(),
                *item,
                include_trailing_comma,
            ),
    {
        if include_trailing_comma && item.is_post_comment_line_style {
            self.buffer.add(self.pads.comma());
        }
        if item.postfix_comment_length > 0 {
            self.buffer.add(self.pads.comment()).add(item.postfix_comment.as_str());
        }
        if include_trailing_comma && !item.is_post_comment_line_style {
            self.buffer.add(self.pads.comma());
        }
        self.end_line();
    }

    /// Writes an item and its comments within the current line.
    fn inline_element(
        &mut self,
        item: &JsonItem,
        include_trailing_comma: bool,
        parent_template: Option<&TableTemplate>,
    )
        requires
            old(self).wf(),
        ensures
            final(self).wf(),
            final(self).keeps(&*old(self)),
            old(self).tidy() && item_clean(*item, true) ==> final(self).tidy(),
            final(self).layout() == inline_layout(
                old(self).pads.model(),
                old(self).options.colon_before_prop_name_padding,
                old(self).layout(),
                *item,
                include_trailing_comma,
                parent_template,
            ),
        decreases item, 1int,
    {
        if item.requires_multiple_lines {
            return ;
        }
        let comment_sep = String::from_str(self.pads.comment());
        let colon_sep = String::from_str(self.pads.colon());
        match parent_template {
            Some(parent) => {
                self.add_to_buffer_fixed(
                    item.prefix_comment.as_str(),
                    item.prefix_comment_length,
                    parent.prefix_comment_length,
                    comment_sep.as_str(),
                    false,
                );
                self.add_to_buffer_fixed(
                    item.name.as_str(),
                    item.name_length,
                    parent.name_length,
                    colon_sep.as_str(),
                    self.options.colon_before_prop_name_padding,
                );
                self.add_to_buffer_fixed(
                    item.middle_comment.as_str(),
                    item.middle_comment_length,
                    parent.middle_comment_length,
                    comment_sep.as_str(),
                    false,
                );
            },
            None => {
                self.add_to_buffer(
                    item.prefix_comment.as_str(),
                    item.prefix_comment_length,
                    comment_sep.as_str(),
                );
                self.add_to_buffer(item.name.as_str(), item.name_length, colon_sep.as_str());
                self.add_to_buffer(
                    item.middle_comment.as_str(),
                    item.middle_comment_length,
                    comment_sep.as_str(),
                );
            },
        }
        self.inline_element_raw(item);
        if include_trailing_comma && item.is_post_comment_line_style {
            self.buffer.add(self.pads.comma());
        }
        if item.postfix_comment_length > 0 {
            self.buffer.add(self.pads.comment()).add(item.postfix_comment.as_str());
        }
        if include_trailing_comma && !item.is_post_comment_line_style {
            self.buffer.add(self.pads.comma());
        }
    }

    /// Writes an item's value: a container with its children inline, or
    /// the value's text.
    fn inline_element_raw(&mut self, item: &JsonItem)
        requires
            old(self).wf(),
        ensures
            final(self).wf(),
            final(self).keeps(&*old(self)),
            old(self).tidy() && item_clean(*item, true) && !item.requires_multiple_lines
                ==> final(self).tidy(),
            final(self).layout() == raw_layout(
                old(self).pads.model(),
                old(self).options.colon_before_prop_name_padding,
                old(self).layout(),
                *item,
            ),
        decreases item, 0int,
    {
        let ghost t0 = old(self).tidy() && item_clean(*item, true) && !item.requires_multiple_lines;
        proof {
            lemma_items_clean(item.children@, true);
        }
        if item.item_type == JsonItemType::Array || item.item_type == JsonItemType::Object {
            let pad_type = Self::get_padding_type(item);
            proof {
                lemma_brackets_plain(self.pads.model(), item.item_type, pad_type);
            }
            self.buffer.add(self.pads.start(item.item_type, pad_type));
            let ghost opened = self.layout();
            let n = item.children.len();
            let mut i: usize = 0;
            proof {
                assert(item.children@.take(0) =~= Seq::<JsonItem>::empty());
            }
            while i < n
                invariant
                    self.wf(),
                    self.keeps(&*old(self)),
                    n == item.children@.len(),
                    i <= n,
                    self.layout() == children_inline(
                        old(self).pads.model(),
                        old(self).options.colon_before_prop_name_padding,
                        opened,
                        item.children@.take(i as int),
                        n as nat,
                    ),
                    t0 ==> self.tidy(),
                    t0 ==> item_clean(*item, true) && !item.requires_multiple_lines,
                    t0 ==> forall|k: int|
                        0 <= k < n ==> #[trigger] item_clean(item.children@[k], true),
                decreases n - i,
            {
                proof {
                    assert(decreases_to!(item => item.children));
                    assert(decreases_to!(item.children => item.children@));
                    assert(decreases_to!(item.children@ => item.children@[i as int]));
                    if t0 {
                        assert(item_clean(item.children@[i as int], true));
                        assert(!breaks_line(item.children@[i as int]));
                    }
                }
                self.inline_element(&item.children[i], i < n - 1, None);
                proof {
                    let t = item.children@.take(i + 1);
                    assert(t.drop_last() =~= item.children@.take(i as int));
                    assert(t.last() == item.children@[i as int]);
                }
                i += 1;
            }
            proof {
                assert(item.children@.take(n as int) =~= item.children@);
            }
            self.buffer.add(self.pads.end(item.item_type, pad_type));
        } else {
            self.buffer.add(item.value.as_str());
        }
    }
}

/// The characters of `v` after its leading whitespace, of which at most
/// `limit` characters are removed.
fn strip_indentation(v: &Vec<char>, limit: usize) -> (s: String)
    ensures
        s@ == v@.skip(leading_ws(v@, limit as int)),
{
    let mut k: usize = 0;
    while k < v.len() && k < limit && is_whitespace(v[k])
        invariant
            k <= v@.len(),
            k <= limit,
            forall|j: int| 0 <= j < k ==> is_ws(#[trigger] v@[j]),
        decreases v@.len() - k,
    {
        k += 1;
    }
    proof {
        lemma_leading_ws(v@, limit as int, k as int);
    }
    string_from_range(v, k, v.len())
}

/// How many leading whitespace characters of `s` are removed when at most
/// `limit` are.
pub open spec fn leading_ws(s: Seq<char>, limit: int) -> int
    decreases s.len(),
{
    if s.len() == 0 || limit <= 0 || !is_ws(s[0]) {
        0
    } else {
        1 + leading_ws(s.drop_first(), limit - 1)
    }
}

proof fn lemma_leading_ws_bounds(s: Seq<char>, limit: int)
    ensures
        0 <= leading_ws(s, limit) <= s.len(),
    decreases s.len(),
{
    if s.len() > 0 && limit > 0 && is_ws(s[0]) {
        lemma_leading_ws_bounds(s.drop_first(), limit - 1);
    }
}

proof fn lemma_leading_ws(s: Seq<char>, limit: int, k: int)
    requires
        0 <= k <= s.len(),
        k <= limit,
        forall|j: int| 0 <= j < k ==> is_ws(#[trigger] s[j]),
        k == s.len() || k == limit || !is_ws(s[k]),
    ensures
        leading_ws(s, limit) == k,
    decreases k,
{
    if k > 0 {
        assert forall|j: int| 0 <= j < k - 1 implies is_ws(#[trigger] s.drop_first()[j]) by {
            assert(s.drop_first()[j] == s[j + 1]);
        }
        if k < s.len() {
            assert(s.drop_first()[k - 1] == s[k]);
        }
        lemma_leading_ws(s.drop_first(), limit - 1, k - 1);
    }
}

/// The rows gathered so far after adding the row `cur`: nothing when it
/// is empty, the row itself when it is the first, otherwise the row
/// stripped of up to `col` leading whitespace characters.
pub open spec fn push_row(rows: Seq<Seq<char>>, cur: Seq<char>, col: int) -> Seq<Seq<char>> {
    if cur.len() == 0 {
        rows
    } else if rows.len() == 0 {
        rows.push(cur)
    } else {
        rows.push(cur.skip(leading_ws(cur, col)))
    }
}

/// Reading a comment text left to right: the finished rows, and the row
/// being read. A line feed ends a row; carriage returns are dropped.
pub open spec fn comment_scan(s: Seq<char>, col: int) -> (Seq<Seq<char>>, Seq<char>)
    decreases s.len(),
{
    if s.len() == 0 {
        (Seq::empty(), Seq::empty())
    } else {
        let (rows, cur) = comment_scan(s.drop_last(), col);
        let c = s.last();
        if c == '\n' {
            (push_row(rows, cur, col), Seq::empty())
        } else if c == '\r' {
            (rows, cur)
        } else {
            (rows, cur.push(c))
        }
    }
}

/// The rows of a comment text: split at line feeds with carriage returns
/// dropped, empty rows dropped, and every row after the first stripped of
/// up to `col` leading whitespace characters.
pub open spec fn comment_rows(s: Seq<char>, col: int) -> Seq<Seq<char>> {
    push_row(comment_scan(s, col).0, comment_scan(s, col).1, col)
}

/// Rows and the row being read hold no line feed.
proof fn lemma_comment_scan_plain(s: Seq<char>, col: int)
    ensures
        parts_plain(comment_scan(s, col).0),
        no_lf(comment_scan(s, col).1),
        parts_plain(comment_rows(s, col)),
    decreases s.len(),
{
    if s.len() > 0 {
        lemma_comment_scan_plain(s.drop_last(), col);
    }
    lemma_push_row_plain(comment_scan(s, col).0, comment_scan(s, col).1, col);
}

proof fn lemma_push_row_plain(rows: Seq<Seq<char>>, cur: Seq<char>, col: int)
    requires
        parts_plain(rows),
        no_lf(cur),
    ensures
        parts_plain(push_row(rows, cur, col)),
{
    if cur.len() > 0 && rows.len() > 0 {
        lemma_leading_ws_bounds(cur, col);
        let t = cur.skip(leading_ws(cur, col));
        assert(no_lf(t)) by {
            assert forall|k: int| 0 <= k < t.len() implies t[k] != '\n' by {
                assert(t[k] == cur[k + leading_ws(cur, col)]);
            }
        }
    }
    let r = push_row(rows, cur, col);
    assert forall|i: int| 0 <= i < r.len() implies !(#[trigger] r[i]).contains('\n') by {
        if i < rows.len() {
            assert(r[i] == rows[i]);
        }
    }
}

/// The rows of a comment, as `comment_rows` gives them.
fn normalize_multiline_comment(comment: &str, first_line_column: usize) -> (rows: Vec<String>)
    ensures
        rows@.map_values(|r: String| r@) == comment_rows(comment@, first_line_column as int),
        forall|i: int| 0 <= i < rows@.len() ==> no_lf(#[trigger] rows@[i]@),
{
    let ghost col = first_line_column as int;
    let v = chars_of(comment);
    let mut rows: Vec<String> = Vec::new();
    let mut current: Vec<char> = Vec::new();
    let mut i: usize = 0;
    while i < v.len()
        invariant
            i <= v@.len(),
            v@ == comment@,
            col == first_line_column as int,
            (rows@.map_values(|r: String| r@), current@) == comment_scan(v@.take(i as int), col),
        decreases v@.len() - i,
    {
        proof {
            assert(v@.take(i + 1).drop_last() =~= v@.take(i as int));
            assert(v@.take(i + 1).last() == v@[i as int]);
        }
        if v[i] == '\n' {
            push_comment_row(&mut rows, &current, first_line_column);
            current = Vec::new();
        } else if v[i] != '\r' {
            current.push(v[i]);
        }
        i += 1;
    }
    push_comment_row(&mut rows, &current, first_line_column);
    proof {
        assert(v@.take(v@.len() as int) =~= v@);
        lemma_comment_scan_plain(comment@, col);
        assert forall|k: int| 0 <= k < rows@.len() implies no_lf(#[trigger] rows@[k]@) by {
            assert(rows@.map_values(|r: String| r@)[k] == rows@[k]@);
        }
    }
    rows
}

/// Adds the row `current`, as `push_row` says.
fn push_comment_row(rows: &mut Vec<String>, current: &Vec<char>, first_line_column: usize)
    ensures
        final(rows)@.map_values(|r: String| r@) == push_row(
            old(rows)@.map_values(|r: String| r@),
            current@,
            first_line_column as int,
        ),
{
    if current.len() > 0 {
        let line = if rows.len() == 0 {
            string_from_chars(current)
        } else {
            strip_indentation(current, first_line_column)
        };
        let ghost before = rows@;
        rows.push(line);
        assert(rows@.map_values(|r: String| r@) =~= before.map_values(|r: String| r@).push(line@));
    }
}

impl<L: StringLength> Formatter<L> {
    /// Writes one cell of a table row (or the whole row): the item padded
    /// to the column's widths, with its comma where the options place it.
    #[verifier::spinoff_prover]
    #[verifier::rlimit(100)]
    fn inline_table_row_segment(
        &mut self,
        template: &TableTemplate,
        item: &JsonItem,
        include_trailing_comma: bool,
        is_whole_row: bool,
    )
        requires
            old(self).wf(),
        ensures
            final(self).wf(),
            final(self).keeps(&*old(self)),
            old(self).tidy() && item_clean(*item, true) && !item.requires_multiple_lines
                ==> final(self).tidy(),
            final(self).layout() == cell_layout(
                old(self).pads.model(),
                old(self).options,
                old(self).layout(),
                *template,
                *item,
                include_trailing_comma,
                is_whole_row,
            ),
        decreases template, 1int,
    {
        let ghost t0 = old(self).tidy() && item_clean(*item, true) && !item.requires_multiple_lines;
        proof {
            if t0 {
                assert(!is_comment_or_blank(item.item_type));
                assert(no_lf(item.middle_comment@));
            }
            lemma_spaces_plain(template.shorter_than_null_adjustment as nat);
            lemma_spaces_plain(template.composite_value_length.saturating_sub(item.value_length) as nat);
            lemma_spaces_plain(template.postfix_comment_length.saturating_sub(item.postfix_comment_length) as nat);
        }
        let comment_sep = String::from_str(self.pads.comment());
        let colon_sep = String::from_str(self.pads.colon());
        self.add_to_buffer_fixed(
            item.prefix_comment.as_str(),
            item.prefix_comment_length,
            template.prefix_comment_length,
            comment_sep.as_str(),
            false,
        );
        self.add_to_buffer_fixed(
            item.name.as_str(),
            item.name_length,
            template.name_length,
            colon_sep.as_str(),
            self.options.colon_before_prop_name_padding,
        );
        self.add_to_buffer_fixed(
            item.middle_comment.as_str(),
            item.middle_comment_length,
            template.middle_comment_length,
            comment_sep.as_str(),
            false,
        );
        let ghost fields = self.layout();
        let placement = self.options.table_comma_placement;
        let comma_before_pad = placement == TableCommaPlacement::BeforePadding || (placement
            == TableCommaPlacement::BeforePaddingExceptNumbers && template.column_type
            != TableColumnType::Number);
        let comma_pos = if template.postfix_comment_length > 0
            && !template.is_any_post_comment_line_style {
            if item.postfix_comment_length > 0 {
                if comma_before_pad {
                    CommaPosition::BeforeCommentPadding
                } else {
                    CommaPosition::AfterCommentPadding
                }
            } else if comma_before_pad {
                CommaPosition::BeforeValuePadding
            } else {
                CommaPosition::AfterCommentPadding
            }
        } else if comma_before_pad {
            CommaPosition::BeforeValuePadding
        } else {
            CommaPosition::AfterValuePadding
        };
        let comma_type = if include_trailing_comma {
            String::from_str(self.pads.comma())
        } else if is_whole_row {
            String::from_str(self.pads.dummy_comma())
        } else {
            String::new()
        };
        let ghost mut before_end: Layout = self.layout();
        let ghost mut nrm: Seq<char> = Seq::empty();
        if template.children.len() > 0 && item.item_type != JsonItemType::Null {
            if template.column_type == TableColumnType::Array {
                self.inline_table_raw_array(template, item);
            } else {
                self.inline_table_raw_object(template, item);
            }
            proof {
                before_end = self.layout();
            }
            if comma_pos == CommaPosition::BeforeValuePadding {
                self.buffer.add(comma_type.as_str());
            }
            if template.shorter_than_null_adjustment > 0 {
                self.buffer.spaces(template.shorter_than_null_adjustment);
            }
        } else if template.column_type == TableColumnType::Number {
            let number_comma_type = if comma_pos == CommaPosition::BeforeValuePadding {
                comma_type.as_str()
            } else {
                ""
            };
            proof {
                reveal_strlit("");
                assert(no_lf(comma_type@));
                assert(no_lf(number_comma_type@));
            }
            let ghost parts0 = self.buffer.line_parts();
            template.format_number(&mut self.buffer, item, number_comma_type);
            proof {
                nrm = choose|normalized: Seq<char>|
                    self.buffer.line_parts() == template.number_parts(
                        parts0,
                        item,
                        number_comma_type@,
                        normalized,
                    ) && (!item.value@.contains('\n') ==> !normalized.contains('\n')) && (
                    template.number_list_alignment == NumberListAlignment::Normalize
                        && item.item_type != JsonItemType::Null ==> shown_normalized(
                        item.value@,
                        template.max_dig_after_dec as nat,
                        normalized,
                    ));
                if t0 {
                    template.lemma_number_parts_plain(parts0, item, number_comma_type@, nrm);
                }
            }
        } else {
            let ghost before_raw = self.layout();
            self.inline_element_raw(item);
            proof {
                lemma_raw_same_lines(
                    self.pads.model(),
                    self.options.colon_before_prop_name_padding,
                    before_raw,
                    *item,
                );
            }
            if comma_pos == CommaPosition::BeforeValuePadding {
                self.buffer.add(comma_type.as_str());
            }
            self.buffer.spaces(template.composite_value_length.saturating_sub(item.value_length));
        }
        let ghost value_done = self.layout();
        proof {
            assert(comma_pos == comma_position(self.options, *template, *item));
            assert(comma_type@ == cell_comma(self.pads.model(), include_trailing_comma, is_whole_row));
        }
        if comma_pos == CommaPosition::AfterValuePadding {
            self.buffer.add(comma_type.as_str());
        }
        if template.postfix_comment_length > 0 {
            self.buffer.add(self.pads.comment()).add(item.postfix_comment.as_str());
        }
        if comma_pos == CommaPosition::BeforeCommentPadding {
            self.buffer.add(comma_type.as_str());
        }
        self.buffer.spaces(
            template.postfix_comment_length.saturating_sub(item.postfix_comment_length),
        );
        if comma_pos == CommaPosition::AfterCommentPadding {
            self.buffer.add(comma_type.as_str());
        }
        proof {
            let m = self.pads.model();
            let pos = comma_position(self.options, *template, *item);
            let comma = cell_comma(m, include_trailing_comma, is_whole_row);
            assert(fields == cell_fields(
                m,
                self.options.colon_before_prop_name_padding,
                old(self).layout(),
                *template,
                *item,
            )) by {
                reveal(cell_fields);
            }
            assert(self.layout() == cell_tail(m, value_done, *template, *item, pos, comma)) by {
                reveal(cell_tail);
            }
            let cf = self.options.colon_before_prop_name_padding;
            if template.children@.len() > 0 && item.item_type != JsonItemType::Null {
                assert(value_done == with_spaces(
                    comma_before_value(before_end, pos, comma),
                    template.shorter_than_null_adjustment as nat,
                ));
            } else if template.column_type == TableColumnType::Number {
                assert(value_done == (
                    fields.0,
                    template.number_parts(fields.1, item, comma_before_number(pos, comma), nrm),
                ));
            } else {
                assert(value_done == with_spaces(
                    comma_before_value(raw_layout(m, cf, fields, *item), pos, comma),
                    sat_sub(template.composite_value_length as int, item.value_length as int),
                ));
            }
            lemma_cell_layout_cases(
                m,
                self.options,
                old(self).layout(),
                *template,
                *item,
                include_trailing_comma,
                is_whole_row,
                fields,
                before_end,
                nrm,
                value_done,
                self.layout(),
            );
        }
    }

    /// Writes an array cell: each element in its column, blanks for
    /// columns past the array's end.
    fn inline_table_raw_array(&mut self, template: &TableTemplate, item: &JsonItem)
        requires
            old(self).wf(),
        ensures
            final(self).wf(),
            final(self).keeps(&*old(self)),
            old(self).tidy() && item_clean(*item, true) && !item.requires_multiple_lines
                ==> final(self).tidy(),
            final(self).layout() == raw_array_layout(
                old(self).pads.model(),
                old(self).options,
                old(self).layout(),
                *template,
                *item,
            ),
        decreases template, 0int,
    {
        let ghost t0 = old(self).tidy() && item_clean(*item, true) && !item.requires_multiple_lines;
        proof {
            lemma_items_clean(item.children@, true);
            lemma_brackets_plain(self.pads.model(), JsonItemType::Array, template.pad_type);
        }
        self.buffer.add(self.pads.arr_start(template.pad_type));
        let ghost opened = self.layout();
        let tn = template.children.len();
        let n = item.children.len();
        let mut i: usize = 0;
        while i < tn
            invariant
                self.wf(),
                self.keeps(&*old(self)),
                tn == template.children@.len(),
                n == item.children@.len(),
                self.layout() == array_cells(
                    old(self).pads.model(),
                    old(self).options,
                    opened,
                    *template,
                    *item,
                    i as int,
                ),
                opened == with_piece(
                    old(self).layout(),
                    old(self).pads.model().start_text(JsonItemType::Array, template.pad_type),
                ),
                i <= tn,
                t0 ==> self.tidy(),
                t0 ==> item_clean(*item, true) && !item.requires_multiple_lines,
                t0 ==> forall|k: int| 0 <= k < n ==> #[trigger] item_clean(item.children@[k], true),
            decreases tn - i,
        {
            let sub_template = &template.children[i];
            let ghost prev = self.layout();
            proof {
                lemma_spaces_plain(sub_template.total_length as nat);
                if t0 && i < n {
                    assert(item_clean(item.children@[i as int], true));
                    assert(!breaks_line(item.children@[i as int]));
                }
            }
            let is_last_in_template = i == tn - 1;
            let is_last_in_array = i == n.saturating_sub(1);
            let is_past_end = i >= n;
            if is_past_end {
                self.buffer.spaces(sub_template.total_length);
                if !is_last_in_template {
                    self.buffer.add(self.pads.dummy_comma());
                }
            } else {
                proof {
                    assert(decreases_to!(template => template.children));
                    assert(decreases_to!(template.children => template.children@));
                    assert(decreases_to!(template.children@ => template.children@[i as int]));
                }
                self.inline_table_row_segment(
                    sub_template,
                    &item.children[i],
                    !is_last_in_array,
                    false,
                );
                proof {
                    assert(self.layout() == cell_layout(
                        old(self).pads.model(),
                        old(self).options,
                        prev,
                        template.children@[i as int],
                        item.children@[i as int],
                        !is_last_in_array,
                        false,
                    ));
                }
                if is_last_in_array && !is_last_in_template {
                    self.buffer.add(self.pads.dummy_comma());
                }
            }
            proof {
                let m = old(self).pads.model();
                assert(is_last_in_array == (i == sat_sub(n as int, 1)));
                assert(prev == array_cells(m, old(self).options, opened, *template, *item, i as int));
                let k = i + 1;
                let sub = template.children@[i as int];
                if i >= n {
                    let s1 = with_spaces(prev, sub.total_length as nat);
                    assert(self.layout() == (if !is_last_in_template {
                        with_piece(s1, m.dummy_comma)
                    } else {
                        s1
                    }));
                } else {
                    let s1 = cell_layout(m, old(self).options, prev, sub, item.children@[i as int], !is_last_in_array, false);
                    assert(self.layout() == (if is_last_in_array && !is_last_in_template {
                        with_piece(s1, m.dummy_comma)
                    } else {
                        s1
                    }));
                }
                assert(k > 0 && k <= template.children@.len());
                assert(array_cells(m, old(self).options, opened, *template, *item, k - 1) == prev);
                assert(self.layout() == array_cells(
                    m,
                    old(self).options,
                    opened,
                    *template,
                    *item,
                    k,
                )) by {
                    reveal_with_fuel(array_cells, 2);
                }
            }
            i += 1;
        }
        let ghost before_end = self.layout();
        self.buffer.add(self.pads.arr_end(template.pad_type));
        proof {
            assert(self.layout() == with_piece(
                before_end,
                self.pads.model().end_text(JsonItemType::Array, template.pad_type),
            ));
            assert(self.layout() == raw_array_layout(
                old(self).pads.model(),
                old(self).options,
                old(self).layout(),
                *template,
                *item,
            ));
        }
    }

    /// Writes an object cell: each property in its column, matched by
    /// name, blanks for columns the object lacks.
    fn inline_table_raw_object(&mut self, template: &TableTemplate, item: &JsonItem)
        requires
            old(self).wf(),
        ensures
            final(self).wf(),
            final(self).keeps(&*old(self)),
            old(self).tidy() && item_clean(*item, true) && !item.requires_multiple_lines
                ==> final(self).tidy(),
            final(self).layout() == raw_object_layout(
                old(self).pads.model(),
                old(self).options,
                old(self).layout(),
                *template,
                *item,
            ),
        decreases template, 0int,
    {
        let ghost t0 = old(self).tidy() && item_clean(*item, true) && !item.requires_multiple_lines;
        proof {
            lemma_items_clean(item.children@, true);
            lemma_brackets_plain(self.pads.model(), JsonItemType::Object, template.pad_type);
        }
        let tn = template.children.len();
        let mut matches: Vec<Option<usize>> = Vec::new();
        let mut k: usize = 0;
        while k < tn
            invariant
                tn == template.children@.len(),
                k <= tn,
                matches@.len() == k,
                forall|j: int|
                    0 <= j < k ==> (#[trigger] matches@[j] matches Some(m) ==> m
                        < item.children@.len()),
                forall|j: int|
                    0 <= j < k ==> opt_int(#[trigger] matches@[j]) == first_named(
                        item.children@,
                        column_name(template.children@[j]),
                    ),
            decreases tn - k,
        {
            let found = find_named(&item.children, &template.children[k].location_in_parent);
            proof {
                lemma_first_named(
                    item.children@,
                    column_name(template.children@[k as int]),
                    opt_int(found),
                );
            }
            matches.push(found);
            k += 1;
        }
        let mut last_non_null: Option<usize> = None;
        let mut j: usize = tn;
        proof {
            assert(template.children@.take(tn as int) =~= template.children@);
        }
        while j > 0
            invariant_except_break
                last_non_null is None,
                last_matched(template.children@, item.children@) == last_matched(
                    template.children@.take(j as int),
                    item.children@,
                ),
            invariant
                j <= tn,
                tn == matches@.len(),
                tn == template.children@.len(),
                forall|jj: int|
                    0 <= jj < tn ==> opt_int(#[trigger] matches@[jj]) == first_named(
                        item.children@,
                        column_name(template.children@[jj]),
                    ),
            ensures
                opt_int(last_non_null) == last_matched(template.children@, item.children@),
            decreases j,
        {
            let ghost cols = template.children@;
            proof {
                assert(cols.take(j as int).last() == cols[j - 1]);
                assert(cols.take(j as int).drop_last() =~= cols.take(j - 1));
                assert(opt_int(matches@[j - 1]) == first_named(
                    item.children@,
                    column_name(cols[j - 1]),
                ));
            }
            if matches[j - 1].is_some() {
                last_non_null = Some(j - 1);
                break;
            }
            j -= 1;
        }
        self.buffer.add(self.pads.obj_start(template.pad_type));
        let ghost opened = self.layout();
        let mut i: usize = 0;
        while i < tn
            invariant
                self.wf(),
                self.keeps(&*old(self)),
                tn == template.children@.len(),
                tn == matches@.len(),
                forall|j: int|
                    0 <= j < tn ==> (#[trigger] matches@[j] matches Some(m) ==> m
                        < item.children@.len()),
                self.layout() == object_cells(
                    old(self).pads.model(),
                    old(self).options,
                    opened,
                    *template,
                    *item,
                    i as int,
                ),
                opened == with_piece(
                    old(self).layout(),
                    old(self).pads.model().start_text(JsonItemType::Object, template.pad_type),
                ),
                forall|jj: int|
                    0 <= jj < tn ==> opt_int(#[trigger] matches@[jj]) == first_named(
                        item.children@,
                        column_name(template.children@[jj]),
                    ),
                opt_int(last_non_null) == last_matched(template.children@, item.children@),
                i <= tn,
                t0 ==> self.tidy(),
                t0 ==> item_clean(*item, true) && !item.requires_multiple_lines,
                t0 ==> forall|k: int|
                    0 <= k < item.children@.len() ==> #[trigger] item_clean(item.children@[k], true),
            decreases tn - i,
        {
            let sub_template = &template.children[i];
            let ghost prev = self.layout();
            proof {
                lemma_spaces_plain(sub_template.total_length as nat);
                assert(opt_int(matches@[i as int]) == first_named(
                    item.children@,
                    column_name(template.children@[i as int]),
                ));
            }
            let is_last_in_object = last_non_null == Some(i);
            let is_last_in_template = i == tn - 1;
            match matches[i] {
                Some(m) => {
                    proof {
                        if t0 {
                            assert(item_clean(item.children@[m as int], true));
                            assert(!breaks_line(item.children@[m as int]));
                        }
                        assert(decreases_to!(template => template.children));
                        assert(decreases_to!(template.children => template.children@));
                        assert(decreases_to!(template.children@ => template.children@[i as int]));
                    }
                    self.inline_table_row_segment(
                        sub_template,
                        &item.children[m],
                        !is_last_in_object,
                        false,
                    );
                    if is_last_in_object && !is_last_in_template {
                        self.buffer.add(self.pads.dummy_comma());
                    }
                },
                None => {
                    self.buffer.spaces(sub_template.total_length);
                    if !is_last_in_template {
                        self.buffer.add(self.pads.dummy_comma());
                    }
                },
            }
            proof {
                let k = i + 1;
                assert(object_cells(
                    old(self).pads.model(),
                    old(self).options,
                    opened,
                    *template,
                    *item,
                    k - 1,
                ) == prev);
            }
            i += 1;
        }
        let ghost before_end = self.layout();
        self.buffer.add(self.pads.obj_end(template.pad_type));
        proof {
            assert(self.layout() == with_piece(
                before_end,
                self.pads.model().end_text(JsonItemType::Object, template.pad_type),
            ));
            assert(self.layout() == raw_object_layout(
                old(self).pads.model(),
                old(self).options,
                old(self).layout(),
                *template,
                *item,
            ));
        }
    }

    /// Writes an item with no layout whitespace; returns whether the
    /// output now stands at the start of a line.
    /// Adds `value` to the current line.
    fn put(&mut self, value: &str)
        requires
            old(self).wf(),
        ensures
            final(self).wf(),
            final(self).keeps(&*old(self)),
            final(self).buffer.doc_lines() == old(self).buffer.doc_lines(),
            final(self).buffer.line_parts() == (if value@.len() == 0 {
                old(self).buffer.line_parts()
            } else {
                old(self).buffer.line_parts().push(value@)
            }),
            concat_all(final(self).buffer.line_parts()) == concat_all(old(self).buffer.line_parts())
                + value@,
    {
        proof {
            lemma_concat_add(self.buffer.line_parts(), value@);
        }
        self.buffer.add(value);
    }

    /// Writes each row followed by a line feed.
    fn add_rows_lf(&mut self, rows: &Vec<String>)
        requires
            old(self).wf(),
        ensures
            final(self).wf(),
            final(self).keeps(&*old(self)),
            final(self).buffer.doc_lines() == old(self).buffer.doc_lines(),
            concat_all(final(self).buffer.line_parts()) == concat_all(old(self).buffer.line_parts())
                + rows_with_lf(rows@.map_values(|r: String| r@)),
    {
        let ghost views = rows@.map_values(|r: String| r@);
        let ghost base = concat_all(self.buffer.line_parts());
        proof {
            reveal_strlit("\n");
            assert(views.take(0) =~= Seq::<Seq<char>>::empty());
            assert(base + rows_with_lf(views.take(0)) =~= base);
        }
        let mut i: usize = 0;
        while i < rows.len()
            invariant
                self.wf(),
                self.keeps(&*old(self)),
                i <= rows@.len(),
                views == rows@.map_values(|r: String| r@),
                self.buffer.doc_lines() == old(self).buffer.doc_lines(),
                "\n"@ =~= seq!['\n'],
                concat_all(self.buffer.line_parts()) == base + rows_with_lf(views.take(i as int)),
            decreases rows@.len() - i,
        {
            let ghost before = concat_all(self.buffer.line_parts());
            self.put(rows[i].as_str());
            self.put("\n");
            proof {
                let t = views.take(i + 1);
                assert(t.drop_last() =~= views.take(i as int));
                assert(t.last() == rows@[i as int]@);
                assert(rows_with_lf(t) == rows_with_lf(views.take(i as int)) + rows@[i as int]@
                    + seq!['\n']);
                assert(concat_all(self.buffer.line_parts()) == before + rows@[i as int]@ + seq![
                    '\n',
                ]);
                assert(concat_all(self.buffer.line_parts()) =~= base + rows_with_lf(t));
            }
            i += 1;
        }
        proof {
            assert(views.take(views.len() as int) =~= views);
        }
    }

    /// Writes the prefix comment, name and middle comment of `item`.
    fn minify_head(&mut self, item: &JsonItem)
        requires
            old(self).wf(),
        ensures
            final(self).wf(),
            final(self).keeps(&*old(self)),
            final(self).buffer.doc_lines() == old(self).buffer.doc_lines(),
            parts_plain(old(self).buffer.line_parts()) && plain_item(*item) ==> parts_plain(
                final(self).buffer.line_parts(),
            ),
            concat_all(final(self).buffer.line_parts()) == concat_all(old(self).buffer.line_parts())
                + minified_head(*item),
    {
        let ghost start = concat_all(old(self).buffer.line_parts());
        proof {
            reveal_strlit(":");
            assert(":"@ =~= seq![':']);
        }
        self.put(item.prefix_comment.as_str());
        if item.name.as_str().unicode_len() > 0 {
            self.put(item.name.as_str());
            self.put(":");
        }
        proof {
            assert(concat_all(self.buffer.line_parts()) =~= start + item.prefix_comment@ + (
            if item.name@.len() > 0 {
                item.name@ + seq![':']
            } else {
                Seq::empty()
            }));
        }
        if contains_char(item.middle_comment.as_str(), '\n') {
            let normalized = normalize_multiline_comment(item.middle_comment.as_str(), usize::MAX);
            self.add_rows_lf(&normalized);
        } else {
            self.put(item.middle_comment.as_str());
        }
        assert(concat_all(self.buffer.line_parts()) =~= start + minified_head(*item));
    }

    /// Writes the children of the container `item`, a comma between values.
    fn minify_children(&mut self, item: &JsonItem)
        requires
            old(self).wf(),
        ensures
            final(self).wf(),
            final(self).keeps(&*old(self)),
            final(self).buffer.doc_lines() == old(self).buffer.doc_lines(),
            parts_plain(old(self).buffer.line_parts()) && plain_items(item.children@)
                ==> parts_plain(final(self).buffer.line_parts()),
            concat_all(final(self).buffer.line_parts()) == concat_all(old(self).buffer.line_parts())
                + minified_children(item.children@).0,
        decreases item, 0int,
    {
        let ghost p0 = parts_plain(old(self).buffer.line_parts()) && plain_items(item.children@);
        let ghost opened = concat_all(old(self).buffer.line_parts());
        proof {
            reveal_strlit(",");
            assert(","@ =~= seq![',']);
            lemma_plain_items(item.children@);
            assert(item.children@.take(0) =~= Seq::<JsonItem>::empty());
            assert(opened + minified_children(item.children@.take(0)).0 =~= opened);
        }
        let mut needs_comma = false;
        let mut at_start = false;
        let n = item.children.len();
        let mut i: usize = 0;
        while i < n
            invariant
                self.wf(),
                self.keeps(&*old(self)),
                n == item.children@.len(),
                i <= n,
                self.buffer.doc_lines() == old(self).buffer.doc_lines(),
                p0 ==> parts_plain(self.buffer.line_parts()),
                p0 ==> forall|k: int| 0 <= k < n ==> #[trigger] plain_item(item.children@[k]),
                p0 ==> no_lf(","@),
                ","@ =~= seq![','],
                concat_all(self.buffer.line_parts()) == opened + minified_children(
                    item.children@.take(i as int),
                ).0,
                at_start == minified_children(item.children@.take(i as int)).1,
                needs_comma == minified_children(item.children@.take(i as int)).2,
            decreases n - i,
        {
            let child = &item.children[i];
            if !Self::is_comment_or_blank_line(child.item_type) {
                if needs_comma {
                    self.put(",");
                }
                needs_comma = true;
            }
            proof {
                assert(decreases_to!(item => item.children));
                assert(decreases_to!(item.children => item.children@));
                assert(decreases_to!(item.children@ => item.children@[i as int]));
            }
            let ghost at_before = at_start;
            let ghost with_comma = concat_all(self.buffer.line_parts());
            at_start = self.minify_item(child, at_start);
            proof {
                let t = item.children@.take(i + 1);
                assert(t.drop_last() =~= item.children@.take(i as int));
                assert(t.last() == *child);
                let prev = minified_children(item.children@.take(i as int));
                assert(minified_children(t).1 == minified(*child, at_before).1);
                assert(minified_children(t).0 == prev.0 + (if !is_comment_or_blank(
                    child.item_type,
                ) && prev.2 {
                    seq![',']
                } else {
                    Seq::<char>::empty()
                }) + minified(*child, at_before).0);
                assert(concat_all(self.buffer.line_parts()) =~= opened + minified_children(t).0);
            }
            i += 1;
        }
        proof {
            assert(item.children@.take(n as int) =~= item.children@);
        }
    }

    /// Writes a blank line or a comment (after the item's head) on lines of
    /// its own.
    fn minify_comment(&mut self, item: &JsonItem, at_start_of_new_line: bool)
        requires
            old(self).wf(),
            is_comment_or_blank(item.item_type),
        ensures
            final(self).wf(),
            final(self).keeps(&*old(self)),
            final(self).buffer.doc_lines() == old(self).buffer.doc_lines(),
            concat_all(final(self).buffer.line_parts()) == concat_all(old(self).buffer.line_parts())
                + minified_comment(*item, at_start_of_new_line),
    {
        let ghost start = concat_all(old(self).buffer.line_parts());
        proof {
            reveal_strlit("\n");
            assert("\n"@ =~= seq!['\n']);
        }
        if !at_start_of_new_line {
            self.put("\n");
        }
        if item.item_type == JsonItemType::BlankLine {
            self.put("\n");
        } else if item.item_type == JsonItemType::LineComment {
            self.put(item.value.as_str());
            self.put("\n");
        } else if contains_char(item.value.as_str(), '\n') {
            let normalized = normalize_multiline_comment(
                item.value.as_str(),
                item.input_position.column,
            );
            self.add_rows_lf(&normalized);
        } else {
            self.put(item.value.as_str());
            self.put("\n");
        }
        proof {
            assert(concat_all(self.buffer.line_parts()) =~= start + minified_comment(
                *item,
                at_start_of_new_line,
            ));
        }
    }

    #[verifier::spinoff_prover]
    fn minify_item(&mut self, item: &JsonItem, at_start_of_new_line: bool) -> (at_start: bool)
        requires
            old(self).wf(),
        ensures
            final(self).wf(),
            final(self).keeps(&*old(self)),
            final(self).buffer.doc_lines() == old(self).buffer.doc_lines(),
            parts_plain(old(self).buffer.line_parts()) && plain_item(*item) ==> parts_plain(
                final(self).buffer.line_parts(),
            ),
            concat_all(final(self).buffer.line_parts()) == concat_all(old(self).buffer.line_parts())
                + minified(*item, at_start_of_new_line).0,
            at_start == minified(*item, at_start_of_new_line).1,
        decreases item, 1int,
    {
        let ghost start = concat_all(old(self).buffer.line_parts());
        proof {
            reveal_strlit("[");
            reveal_strlit("]");
            reveal_strlit("{");
            reveal_strlit("}");
            reveal_strlit("\n");
            assert("["@ =~= seq!['[']);
            assert("]"@ =~= seq![']']);
            assert("{"@ =~= seq!['{']);
            assert("}"@ =~= seq!['}']);
            assert("\n"@ =~= seq!['\n']);
        }
        self.minify_head(item);
        match item.item_type {
            JsonItemType::Array | JsonItemType::Object => {
                let close_bracket = if item.item_type == JsonItemType::Array {
                    self.put("[");
                    "]"
                } else {
                    self.put("{");
                    "}"
                };
                self.minify_children(item);
                self.put(close_bracket);
            },
            JsonItemType::BlankLine | JsonItemType::LineComment | JsonItemType::BlockComment => {
                self.minify_comment(item, at_start_of_new_line);
                proof {
                    assert(concat_all(self.buffer.line_parts()) =~= start + minified(
                        *item,
                        at_start_of_new_line,
                    ).0);
                }
                return true;
            },
            _ => {
                self.put(item.value.as_str());
            },
        }
        self.put(item.postfix_comment.as_str());
        if item.postfix_comment.as_str().unicode_len() > 0 && item.is_post_comment_line_style {
            self.put("\n");
            proof {
                assert(concat_all(self.buffer.line_parts()) =~= start + minified(
                    *item,
                    at_start_of_new_line,
                ).0);
            }
            return true;
        }
        proof {
            assert(concat_all(self.buffer.line_parts()) =~= start + minified(
                *item,
                at_start_of_new_line,
            ).0);
        }
        false
    }
}

/// Each row, followed by a line feed.
pub open spec fn rows_with_lf(rows: Seq<Seq<char>>) -> Seq<char>
    decreases rows.len(),
{
    if rows.len() == 0 {
        Seq::empty()
    } else {
        rows_with_lf(rows.drop_last()) + rows.last() + seq!['\n']
    }
}

/// A line feed, unless the output already stands at the start of a line.
pub open spec fn lf_unless(at_start: bool) -> Seq<char> {
    if at_start {
        Seq::empty()
    } else {
        seq!['\n']
    }
}

/// What minifying writes before an item's own text: its prefix comment,
/// its name and a colon, and its middle comment (one row per line when it
/// spans lines).
pub open spec fn minified_head(item: JsonItem) -> Seq<char> {
    item.prefix_comment@ + (if item.name@.len() > 0 {
        item.name@ + seq![':']
    } else {
        Seq::empty()
    }) + (if item.middle_comment@.contains('\n') {
        rows_with_lf(comment_rows(item.middle_comment@, usize::MAX as int))
    } else {
        item.middle_comment@
    })
}

/// `text` followed by the postfix comment of `item`, and a line feed after
/// a line-style one; and whether the output then stands at a line start.
pub open spec fn with_postfix(item: JsonItem, text: Seq<char>) -> (Seq<char>, bool) {
    if item.postfix_comment@.len() > 0 && item.is_post_comment_line_style {
        (text + item.postfix_comment@ + seq!['\n'], true)
    } else {
        (text + item.postfix_comment@, false)
    }
}

/// What minifying writes for a blank line or a comment after its head: a
/// line feed first unless at the start of a line, then the comment (a
/// block comment that spans lines one row per line) and a line feed.
pub open spec fn minified_comment(item: JsonItem, at_start: bool) -> Seq<char> {
    lf_unless(at_start) + match item.item_type {
        JsonItemType::BlankLine => seq!['\n'],
        JsonItemType::LineComment => item.value@ + seq!['\n'],
        _ => if item.value@.contains('\n') {
            rows_with_lf(comment_rows(item.value@, item.input_position.column as int))
        } else {
            item.value@ + seq!['\n']
        },
    }
}

/// The minified text of `item`, written when the output stands at the
/// start of a line or not (`at_start`), and whether the output stands at
/// the start of a line after it: values and containers without any
/// whitespace, comments and blank lines on lines of their own.
pub open spec fn minified(item: JsonItem, at_start: bool) -> (Seq<char>, bool)
    decreases item,
{
    let head = minified_head(item);
    match item.item_type {
        JsonItemType::Array => with_postfix(
            item,
            head + seq!['['] + minified_children(item.children@).0 + seq![']'],
        ),
        JsonItemType::Object => with_postfix(
            item,
            head + seq!['{'] + minified_children(item.children@).0 + seq!['}'],
        ),
        JsonItemType::BlankLine | JsonItemType::LineComment | JsonItemType::BlockComment => (
            head + minified_comment(item, at_start),
            true,
        ),
        _ => with_postfix(item, head + item.value@),
    }
}

/// The minified text of the children `s` of a container, a comma between
/// values; whether the output then stands at the start of a line; and
/// whether a value was written.
pub open spec fn minified_children(s: Seq<JsonItem>) -> (Seq<char>, bool, bool)
    decreases s,
{
    if s.len() == 0 {
        (Seq::empty(), false, false)
    } else {
        let before = minified_children(s.drop_last());
        let c = s.last();
        let is_value = !is_comment_or_blank(c.item_type);
        let comma = if is_value && before.2 {
            seq![',']
        } else {
            Seq::empty()
        };
        let m = minified(c, before.1);
        (before.0 + comma + m.0, m.1, before.2 || is_value)
    }
}

/// The minified text of the top-level items `s`, the first written at the
/// start of a line; and whether the output then stands at a line start.
pub open spec fn minified_doc(s: Seq<JsonItem>) -> (Seq<char>, bool)
    decreases s.len(),
{
    if s.len() == 0 {
        (Seq::empty(), true)
    } else {
        let before = minified_doc(s.drop_last());
        let m = minified(s.last(), before.1);
        (before.0 + m.0, m.1)
    }
}

/// Minifying an item depends only on what it holds as plain values.
pub proof fn lemma_minified_same(a: JsonItem, b: JsonItem, at_start: bool)
    requires
        item_view(a) == item_view(b),
    ensures
        minified(a, at_start) == minified(b, at_start),
    decreases a, 1int,
{
    assert(decreases_to!(a => a.children));
    assert(decreases_to!(a.children => a.children@));
    lemma_minified_children_same(a.children@, b.children@);
}

/// Minifying children depends only on what they hold as plain values.
pub proof fn lemma_minified_children_same(s: Seq<JsonItem>, t: Seq<JsonItem>)
    requires
        items_view(s) == items_view(t),
    ensures
        minified_children(s) == minified_children(t),
    decreases s, 0int,
{
    lemma_items_view(s);
    lemma_items_view(t);
    if s.len() > 0 {
        lemma_items_view_drop_last(s);
        lemma_items_view_drop_last(t);
        assert(decreases_to!(s => s[s.len() - 1]));
        lemma_minified_children_same(s.drop_last(), t.drop_last());
        let at = minified_children(s.drop_last()).1;
        lemma_minified_same(s.last(), t.last(), at);
    }
}

/// Minifying a document depends only on what its items hold as plain
/// values.
pub proof fn lemma_minified_doc_same(s: Seq<JsonItem>, t: Seq<JsonItem>)
    requires
        items_view(s) == items_view(t),
    ensures
        minified_doc(s) == minified_doc(t),
    decreases s.len(),
{
    lemma_items_view(s);
    lemma_items_view(t);
    if s.len() > 0 {
        lemma_items_view_drop_last(s);
        lemma_items_view_drop_last(t);
        lemma_minified_doc_same(s.drop_last(), t.drop_last());
        lemma_minified_same(s.last(), t.last(), minified_doc(s.drop_last()).1);
    }
}

/// `out` ends with `tail`.
pub open spec fn ends_with(out: Seq<char>, tail: Seq<char>) -> bool {
    tail.len() <= out.len() && out.subrange(out.len() - tail.len(), out.len() as int) == tail
}

/// The line-style comment that ends the minified text of `item`, if any:
/// a line comment standing alone, or a line-style comment after a value.
pub open spec fn ending_line_comment(item: JsonItem) -> Option<Seq<char>> {
    if item.item_type == JsonItemType::LineComment {
        Some(item.value@)
    } else if !is_comment_or_blank(item.item_type) && item.postfix_comment@.len() > 0
        && item.is_post_comment_line_style {
        Some(item.postfix_comment@)
    } else {
        None
    }
}

/// A line-style comment ends its line when minified: the text written for
/// an item that ends in one ends with the comment and a line feed, and
/// what follows starts at the beginning of a line.
pub proof fn line_comment_ends_its_line(item: JsonItem, at_start: bool)
    requires
        ending_line_comment(item) is Some,
    ensures
        ends_with(minified(item, at_start).0, ending_line_comment(item)->0.push('\n')),
        minified(item, at_start).1,
{
    let m = minified(item, at_start).0;
    let c = ending_line_comment(item)->0;
    assert(m.subrange(m.len() - (c.len() + 1), m.len() as int) =~= c.push('\n'));
}

/// The texts `t` with a comma between each two.
pub open spec fn comma_joined(t: Seq<Seq<char>>) -> Seq<char>
    decreases t.len(),
{
    if t.len() == 0 {
        Seq::empty()
    } else if t.len() == 1 {
        t[0]
    } else {
        comma_joined(t.drop_last()) + seq![','] + t.last()
    }
}

/// An item with no comments attached to it.
pub open spec fn uncommented(item: JsonItem) -> bool {
    &&& !is_comment_or_blank(item.item_type)
    &&& item.prefix_comment@.len() == 0
    &&& item.middle_comment@.len() == 0
    &&& item.postfix_comment@.len() == 0
}

/// Minifying a value with no comments writes its name and a colon when it
/// has a name, then its value with no whitespace added, and leaves the
/// output in the middle of a line.
pub proof fn minified_value_text(item: JsonItem, at_start: bool)
    requires
        uncommented(item),
        !is_container(item.item_type),
    ensures
        minified(item, at_start) == (
            (if item.name@.len() > 0 {
                item.name@ + seq![':']
            } else {
                Seq::<char>::empty()
            }) + item.value@,
            false,
        ),
{
    assert(!item.middle_comment@.contains('\n'));
    assert(minified(item, at_start).0 =~= (if item.name@.len() > 0 {
        item.name@ + seq![':']
    } else {
        Seq::<char>::empty()
    }) + item.value@);
}

/// Minified values with no comments are written one after the other with
/// exactly one comma between each two and nothing else.
pub proof fn minified_values_comma_separated(s: Seq<JsonItem>)
    requires
        forall|k: int| 0 <= k < s.len() ==> uncommented(#[trigger] s[k]),
    ensures
        minified_children(s).0 == comma_joined(
            Seq::new(s.len(), |k: int| minified(s[k], false).0),
        ),
        !minified_children(s).1,
        minified_children(s).2 == (s.len() > 0),
    decreases s.len(),
{
    let t = Seq::new(s.len(), |k: int| minified(s[k], false).0);
    if s.len() > 0 {
        let d = s.drop_last();
        minified_values_comma_separated(d);
        let td = Seq::new(d.len(), |k: int| minified(d[k], false).0);
        assert(td =~= t.drop_last());
        let c = s.last();
        assert(uncommented(s[s.len() - 1]));
        assert(minified(c, false).1 == false);
        assert(t.last() == minified(c, false).0);
        if s.len() == 1 {
            assert(minified_children(d).0 =~= Seq::<char>::empty());
            assert(minified_children(s).0 =~= t[0]);
        }
    }
}

/// The text written for the first `j` children is where the minified
/// children start.
pub proof fn lemma_minified_children_prefix(s: Seq<JsonItem>, j: int)
    requires
        0 <= j <= s.len(),
    ensures
        minified_children(s.take(j)).0.len() <= minified_children(s).0.len(),
        minified_children(s).0.take(minified_children(s.take(j)).0.len() as int)
            == minified_children(s.take(j)).0,
    decreases s.len(),
{
    if j == s.len() {
        assert(s.take(j) =~= s);
        assert(minified_children(s).0.take(minified_children(s).0.len() as int)
            =~= minified_children(s).0);
    } else {
        assert(s.drop_last().take(j) =~= s.take(j));
        lemma_minified_children_prefix(s.drop_last(), j);
        let a = minified_children(s.take(j)).0;
        let b = minified_children(s.drop_last()).0;
        assert(minified_children(s).0.take(a.len() as int) =~= b.take(a.len() as int));
    }
}

/// In the minified children of a container, a child that ends in a
/// line-style comment ends its line: all that is written up to it ends
/// with the comment and a line feed, and the rest (the next comma and
/// value, or the closing bracket) comes after it.
pub proof fn line_comment_ends_its_line_in_children(s: Seq<JsonItem>, k: int)
    requires
        0 <= k < s.len(),
        ending_line_comment(s[k]) is Some,
    ensures
        ({
            let upto = minified_children(s.take(k + 1)).0;
            &&& ends_with(upto, ending_line_comment(s[k])->0.push('\n'))
            &&& upto.len() <= minified_children(s).0.len()
            &&& minified_children(s).0.take(upto.len() as int) == upto
        }),
{
    let t = s.take(k + 1);
    assert(t.drop_last() =~= s.take(k));
    assert(t.last() == s[k]);
    let before = minified_children(s.take(k));
    line_comment_ends_its_line(s[k], before.1);
    let m = minified(s[k], before.1).0;
    let c = ending_line_comment(s[k])->0.push('\n');
    let upto = minified_children(t).0;
    assert(upto.subrange(upto.len() - c.len(), upto.len() as int) =~= m.subrange(
        m.len() - c.len(),
        m.len() as int,
    ));
    lemma_minified_children_prefix(s, k + 1);
}

/// The text written for the first `j` top-level items is where the
/// minified document starts.
pub proof fn lemma_minified_doc_prefix(s: Seq<JsonItem>, j: int)
    requires
        0 <= j <= s.len(),
    ensures
        minified_doc(s.take(j)).0.len() <= minified_doc(s).0.len(),
        minified_doc(s).0.take(minified_doc(s.take(j)).0.len() as int) == minified_doc(
            s.take(j),
        ).0,
    decreases s.len(),
{
    if j == s.len() {
        assert(s.take(j) =~= s);
        assert(minified_doc(s).0.take(minified_doc(s).0.len() as int) =~= minified_doc(s).0);
    } else {
        assert(s.drop_last().take(j) =~= s.take(j));
        lemma_minified_doc_prefix(s.drop_last(), j);
        let a = minified_doc(s.take(j)).0;
        let b = minified_doc(s.drop_last()).0;
        assert(minified_doc(s).0.take(a.len() as int) =~= b.take(a.len() as int));
    }
}

/// In a minified document, a top-level item that ends in a line-style
/// comment ends its line: all that is written up to it ends with the
/// comment and a line feed, and the rest of the document comes after it.
pub proof fn line_comment_ends_its_line_in_doc(s: Seq<JsonItem>, k: int)
    requires
        0 <= k < s.len(),
        ending_line_comment(s[k]) is Some,
    ensures
        ({
            let upto = minified_doc(s.take(k + 1)).0;
            &&& ends_with(upto, ending_line_comment(s[k])->0.push('\n'))
            &&& upto.len() <= minified_doc(s).0.len()
            &&& minified_doc(s).0.take(upto.len() as int) == upto
        }),
{
    let t = s.take(k + 1);
    assert(t.drop_last() =~= s.take(k));
    assert(t.last() == s[k]);
    let before = minified_doc(s.take(k));
    line_comment_ends_its_line(s[k], before.1);
    let m = minified(s[k], before.1).0;
    let c = ending_line_comment(s[k])->0.push('\n');
    let upto = minified_doc(t).0;
    assert(upto.subrange(upto.len() - c.len(), upto.len() as int) =~= m.subrange(
        m.len() - c.len(),
        m.len() as int,
    ));
    lemma_minified_doc_prefix(s, k + 1);
}

/// The minified text of a document whose top-level items are, as plain
/// values, `v`, with trailing whitespace trimmed.
pub open spec fn minified_of(v: Seq<ItemView>) -> Seq<char> {
    trim_end_ws(minified_doc(choose|items: Seq<JsonItem>| items_view(items) == v).0)
}

/// What minifying `text` with `opts` gives: `None` when it does not parse
/// as a document of at most one value.
pub open spec fn minify_result(text: Seq<char>, opts: FracturedJsonOptions) -> Option<Seq<char>> {
    match parse_result(text, opts, true) {
        Some(v) => Some(minified_of(v)),
        None => None,
    }
}

/// How an item was laid out: as it is, on one line, as a compact array
/// with the measured template, as a table (the templates measured for the
/// compact form and the table, and the table's template once fitted), or
/// expanded (the same templates, and how each child was laid out).
pub enum Laid {
    Simple,
    Inline,
    Compact(TableTemplate),
    Table(TableTemplate, TableTemplate, TableTemplate),
    Expanded(TableTemplate, TableTemplate, TableTemplate, Seq<Laid>),
}

/// The text a layout stands for once its current line is finished: its
/// lines, then the current line with trailing whitespace trimmed.
pub open spec fn layout_text(l: Layout) -> Seq<char> {
    concat_all(end_line_doc(l.0, l.1, Seq::empty()))
}

/// The finished lines and the pieces of the current line of the output.
pub type Layout = (Seq<Seq<char>>, Seq<Seq<char>>);

/// The layout after ending the current line with `eol`.
pub open spec fn ended(s: Layout, eol: Seq<char>) -> Layout {
    (end_line_doc(s.0, s.1, eol), Seq::empty())
}

/// The layout after adding the piece `v` to the current line.
pub open spec fn with_piece(s: Layout, v: Seq<char>) -> Layout {
    (s.0, add_piece(s.1, v))
}

/// The layout after adding `n` spaces to the current line.
pub open spec fn with_spaces(s: Layout, n: nat) -> Layout {
    (s.0, add_spaces(s.1, n))
}

/// The layout after writing each of `rows` on a line of its own, after
/// the prefix `prefix` and the indentation `indent`.
pub open spec fn rows_on_lines(
    s: Layout,
    rows: Seq<Seq<char>>,
    prefix: Seq<char>,
    indent: Seq<char>,
    eol: Seq<char>,
) -> Layout
    decreases rows.len(),
{
    if rows.len() == 0 {
        s
    } else {
        ended(
            with_piece(
                with_piece(
                    with_piece(rows_on_lines(s, rows.drop_last(), prefix, indent, eol), prefix),
                    indent,
                ),
                rows.last(),
            ),
            eol,
        )
    }
}

/// Some child after the `i`th of `ch` is a value, not a comment or blank
/// line.
pub open spec fn value_after(ch: Seq<JsonItem>, i: int) -> bool {
    exists|j: int| i < j < ch.len() && !is_comment_or_blank(#[trigger] ch[j].item_type)
}

/// The width an item takes on one line: its prefix comment and name (at
/// the widths of `parent`'s columns when there is one), middle comment,
/// value, postfix comment and comma, each with its separator; sums stop
/// at the largest `usize`.
pub open spec fn inline_width(
    m: PadsModel,
    item: JsonItem,
    include_comma: bool,
    parent: Option<&TableTemplate>,
) -> int {
    let pw = match parent {
        Some(p) => p.prefix_comment_length as int,
        None => item.prefix_comment_length as int,
    };
    let nw = match parent {
        Some(p) => p.name_length as int,
        None => item.name_length as int,
    };
    let prefix = if pw > 0 {
        sat_add(pw, m.comment_len as int)
    } else {
        0
    };
    let name = if nw > 0 {
        sat_add(nw, m.colon_len as int)
    } else {
        0
    };
    let middle = if item.middle_comment_length > 0 {
        sat_add(item.middle_comment_length as int, m.comment_len as int)
    } else {
        0
    };
    let postfix = if item.postfix_comment_length > 0 {
        sat_add(item.postfix_comment_length as int, m.comment_len as int)
    } else {
        0
    };
    let comma = if include_comma {
        m.comma_len as int
    } else {
        0
    };
    sat_add(
        sat_add(sat_add(sat_add(sat_add(prefix, name), middle), item.value_length as int), postfix),
        comma,
    )
}

/// The layout after an item's comma and postfix comment, in the order
/// the comment's style needs, from `s`.
pub open spec fn tail_layout(m: PadsModel, s: Layout, item: JsonItem, include_comma: bool) -> Layout {
    let s1 = if include_comma && item.is_post_comment_line_style {
        with_piece(s, m.comma)
    } else {
        s
    };
    let s2 = if item.postfix_comment_length > 0 {
        with_piece(with_piece(s1, m.comment), item.postfix_comment@)
    } else {
        s1
    };
    if include_comma && !item.is_post_comment_line_style {
        with_piece(s2, m.comma)
    } else {
        s2
    }
}

/// The layout after writing `item` within the current line from `s`:
/// its prefix comment, name and middle comment (padded to the column
/// of `parent` when there is one), its value, then its comma and
/// postfix comment; nothing for an item that needs several lines.
pub open spec fn inline_layout(
    m: PadsModel,
    colon_first: bool,
    s: Layout,
    item: JsonItem,
    include_comma: bool,
    parent: Option<&TableTemplate>,
) -> Layout
    decreases item, 1int,
{
    if item.requires_multiple_lines {
        s
    } else {
            let s1 = match parent {
            Some(p) => buffered_fixed(
                buffered_fixed(
                    buffered_fixed(
                        s,
                        item.prefix_comment@,
                        item.prefix_comment_length as nat,
                        p.prefix_comment_length as nat,
                        m.comment,
                        false,
                    ),
                    item.name@,
                    item.name_length as nat,
                    p.name_length as nat,
                    m.colon,
                    colon_first,
                ),
                item.middle_comment@,
                item.middle_comment_length as nat,
                p.middle_comment_length as nat,
                m.comment,
                false,
            ),
            None => buffered(
                buffered(
                    buffered(
                        s,
                        item.prefix_comment@,
                        item.prefix_comment_length as nat,
                        m.comment,
                    ),
                    item.name@,
                    item.name_length as nat,
                    m.colon,
                ),
                item.middle_comment@,
                item.middle_comment_length as nat,
                m.comment,
            ),
        };
        tail_layout(m, raw_layout(m, colon_first, s1, item), item, include_comma)
    }
}

/// The layout after writing the value of `item` from `s`: a container
/// with its brackets and its children inline, or the value's text.
pub open spec fn raw_layout(m: PadsModel, colon_first: bool, s: Layout, item: JsonItem) -> Layout
    decreases item, 0int,
{
    if item.item_type == JsonItemType::Array || item.item_type == JsonItemType::Object {
        let k = padding_type(item);
        with_piece(
            children_inline(
                m,
                colon_first,
                with_piece(s, m.start_text(item.item_type, k)),
                item.children@,
                item.children@.len(),
            ),
            m.end_text(item.item_type, k),
        )
    } else {
        with_piece(s, item.value@)
    }
}

/// The layout after writing the children `ch` inline from `s`, each
/// but the last of `n` children followed by a comma.
pub open spec fn children_inline(
    m: PadsModel,
    colon_first: bool,
    s: Layout,
    ch: Seq<JsonItem>,
    n: nat,
) -> Layout
    decreases ch, 2int,
{
    if ch.len() == 0 {
        s
    } else {
        inline_layout(
            m,
            colon_first,
            children_inline(m, colon_first, s, ch.drop_last(), n),
            ch.last(),
            ch.len() - 1 < n - 1,
            None,
        )
    }
}

/// Writing values inline ends no line.
proof fn lemma_raw_same_lines(m: PadsModel, colon_first: bool, s: Layout, item: JsonItem)
    ensures
        raw_layout(m, colon_first, s, item).0 == s.0,
    decreases item, 0int,
{
    if item.item_type == JsonItemType::Array || item.item_type == JsonItemType::Object {
        let k = padding_type(item);
        assert(decreases_to!(item => item.children));
        lemma_children_inline_same_lines(
            m,
            colon_first,
            with_piece(s, m.start_text(item.item_type, k)),
            item.children@,
            item.children@.len(),
        );
    }
}

/// Writing children inline ends no line.
proof fn lemma_children_inline_same_lines(
    m: PadsModel,
    colon_first: bool,
    s: Layout,
    ch: Seq<JsonItem>,
    n: nat,
)
    ensures
        children_inline(m, colon_first, s, ch, n).0 == s.0,
    decreases ch, 2int,
{
    if ch.len() > 0 {
        lemma_children_inline_same_lines(m, colon_first, s, ch.drop_last(), n);
        assert(decreases_to!(ch => ch[ch.len() - 1]));
        lemma_inline_same_lines(
            m,
            colon_first,
            children_inline(m, colon_first, s, ch.drop_last(), n),
            ch.last(),
            ch.len() - 1 < n - 1,
            None,
        );
    }
}

/// Writing an item inline ends no line.
proof fn lemma_inline_same_lines(
    m: PadsModel,
    colon_first: bool,
    s: Layout,
    item: JsonItem,
    include_comma: bool,
    parent: Option<&TableTemplate>,
)
    ensures
        inline_layout(m, colon_first, s, item, include_comma, parent).0 == s.0,
    decreases item, 1int,
{
    if !item.requires_multiple_lines {
        let s1 = match parent {
            Some(p) => buffered_fixed(
                buffered_fixed(
                    buffered_fixed(
                        s,
                        item.prefix_comment@,
                        item.prefix_comment_length as nat,
                        p.prefix_comment_length as nat,
                        m.comment,
                        false,
                    ),
                    item.name@,
                    item.name_length as nat,
                    p.name_length as nat,
                    m.colon,
                    colon_first,
                ),
                item.middle_comment@,
                item.middle_comment_length as nat,
                p.middle_comment_length as nat,
                m.comment,
                false,
            ),
            None => buffered(
                buffered(
                    buffered(s, item.prefix_comment@, item.prefix_comment_length as nat, m.comment),
                    item.name@,
                    item.name_length as nat,
                    m.colon,
                ),
                item.middle_comment@,
                item.middle_comment_length as nat,
                m.comment,
            ),
        };
        lemma_raw_same_lines(m, colon_first, s1, item);
    }
}

/// Where a table cell's comma goes: before or after the value's padding,
/// or before or after the padding of the postfix comment column.
spec fn comma_position(
    opts: FracturedJsonOptions,
    template: TableTemplate,
    item: JsonItem,
) -> CommaPosition {
    let placement = opts.table_comma_placement;
    let before_pad = placement == TableCommaPlacement::BeforePadding || (placement
        == TableCommaPlacement::BeforePaddingExceptNumbers && template.column_type
        != TableColumnType::Number);
    if template.postfix_comment_length > 0 && !template.is_any_post_comment_line_style {
        if item.postfix_comment_length > 0 {
            if before_pad {
                CommaPosition::BeforeCommentPadding
            } else {
                CommaPosition::AfterCommentPadding
            }
        } else if before_pad {
            CommaPosition::BeforeValuePadding
        } else {
            CommaPosition::AfterCommentPadding
        }
    } else if before_pad {
        CommaPosition::BeforeValuePadding
    } else {
        CommaPosition::AfterValuePadding
    }
}

/// The layout after a table cell's prefix comment, name and middle
/// comment from `s`, each padded to its column of `template`.
#[verifier::opaque]
spec fn cell_fields(
    m: PadsModel,
    colon_first: bool,
    s: Layout,
    template: TableTemplate,
    item: JsonItem,
) -> Layout {
    buffered_fixed(
        buffered_fixed(
            buffered_fixed(
                s,
                item.prefix_comment@,
                item.prefix_comment_length as nat,
                template.prefix_comment_length as nat,
                m.comment,
                false,
            ),
            item.name@,
            item.name_length as nat,
            template.name_length as nat,
            m.colon,
            colon_first,
        ),
        item.middle_comment@,
        item.middle_comment_length as nat,
        template.middle_comment_length as nat,
        m.comment,
        false,
    )
}

/// The kind of value a table column with nested columns holds.
spec fn nested_kind(template: TableTemplate) -> JsonItemType {
    if template.column_type == TableColumnType::Array {
        JsonItemType::Array
    } else {
        JsonItemType::Object
    }
}

/// The comma a number cell writes before its padding: the cell's comma
/// when it goes there, else nothing.
spec fn comma_before_number(pos: CommaPosition, comma: Seq<char>) -> Seq<char> {
    if pos == CommaPosition::BeforeValuePadding {
        comma
    } else {
        Seq::empty()
    }
}

/// `s` with the cell's comma when it goes before the value's padding.
spec fn comma_before_value(s: Layout, pos: CommaPosition, comma: Seq<char>) -> Layout {
    if pos == CommaPosition::BeforeValuePadding {
        with_piece(s, comma)
    } else {
        s
    }
}

/// The comma of a table cell: a real one, a space-wide stand-in for the
/// last row, or none.
spec fn cell_comma(m: PadsModel, include_comma: bool, is_whole_row: bool) -> Seq<char> {
    if include_comma {
        m.comma
    } else if is_whole_row {
        m.dummy_comma
    } else {
        Seq::empty()
    }
}

/// The end of a table cell, from `s`, the layout after its value: the
/// comma where `pos` puts it, the postfix comment when the column has
/// one, and the padding that fills the comment column.
#[verifier::opaque]
spec fn cell_tail(
    m: PadsModel,
    s: Layout,
    template: TableTemplate,
    item: JsonItem,
    pos: CommaPosition,
    comma: Seq<char>,
) -> Layout {
    let s1 = if pos == CommaPosition::AfterValuePadding {
        with_piece(s, comma)
    } else {
        s
    };
    let s2 = if template.postfix_comment_length > 0 {
        with_piece(with_piece(s1, m.comment), item.postfix_comment@)
    } else {
        s1
    };
    let s3 = if pos == CommaPosition::BeforeCommentPadding {
        with_piece(s2, comma)
    } else {
        s2
    };
    let s4 = with_spaces(
        s3,
        sat_sub(template.postfix_comment_length as int, item.postfix_comment_length as int),
    );
    if pos == CommaPosition::AfterCommentPadding {
        with_piece(s4, comma)
    } else {
        s4
    }
}

/// The text a normalizing number column shows for `value` with `places`
/// decimals (see `shown_normalized`, which allows one text at most).
pub open spec fn shown_number(value: Seq<char>, places: nat) -> Seq<char> {
    choose|n: Seq<char>| shown_normalized(value, places, n)
}

/// The name of the property a column holds (empty when it has none).
pub open spec fn column_name(t: TableTemplate) -> Seq<char> {
    match t.location_in_parent {
        Some(l) => l@,
        None => Seq::empty(),
    }
}

/// The index of the first of `ch` named `name`, if any.
pub open spec fn first_named(ch: Seq<JsonItem>, name: Seq<char>) -> Option<int>
    decreases ch.len(),
{
    if ch.len() == 0 {
        None
    } else {
        match first_named(ch.drop_last(), name) {
            Some(j) => Some(j),
            None => if ch.last().name@ == name {
                Some(ch.len() - 1)
            } else {
                None
            },
        }
    }
}

/// The last of the columns `cols` whose property the object `ch` has.
pub open spec fn last_matched(cols: Seq<TableTemplate>, ch: Seq<JsonItem>) -> Option<int>
    decreases cols.len(),
{
    if cols.len() == 0 {
        None
    } else if first_named(ch, column_name(cols.last())) is Some {
        Some(cols.len() - 1)
    } else {
        last_matched(cols.drop_last(), ch)
    }
}

/// The layout after writing `item` from `s` as a table cell of the column
/// `template`: its prefix comment, name and middle comment padded to their
/// columns, its value (the nested cells of an array or object column, a
/// number aligned by the column's rule, or the value's text padded to the
/// column), then its comma and postfix comment where the options put them.
spec fn cell_layout(
    m: PadsModel,
    opts: FracturedJsonOptions,
    s: Layout,
    template: TableTemplate,
    item: JsonItem,
    include_comma: bool,
    is_whole_row: bool,
) -> Layout
    decreases template, 2int, 0int,
{
    let cf = opts.colon_before_prop_name_padding;
    let pos = comma_position(opts, template, item);
    let comma = cell_comma(m, include_comma, is_whole_row);
    let f = cell_fields(m, cf, s, template, item);
    let v = if template.children@.len() > 0 && item.item_type != JsonItemType::Null {
        let inner = if template.column_type == TableColumnType::Array {
            raw_array_layout(m, opts, f, template, item)
        } else {
            raw_object_layout(m, opts, f, template, item)
        };
        with_spaces(comma_before_value(inner, pos, comma), template.shorter_than_null_adjustment as nat)
    } else if template.column_type == TableColumnType::Number {
        (
            f.0,
            template.number_parts(
                f.1,
                &item,
                comma_before_number(pos, comma),
                shown_number(item.value@, template.max_dig_after_dec as nat),
            ),
        )
    } else {
        with_spaces(
            comma_before_value(raw_layout(m, cf, f, item), pos, comma),
            sat_sub(template.composite_value_length as int, item.value_length as int),
        )
    };
    cell_tail(m, v, template, item, pos, comma)
}

/// A cell written piece by piece, as `inline_table_row_segment` writes
/// it, has the layout `cell_layout` gives.
proof fn lemma_cell_layout_cases(
    m: PadsModel,
    opts: FracturedJsonOptions,
    s: Layout,
    template: TableTemplate,
    item: JsonItem,
    include_comma: bool,
    is_whole_row: bool,
    fields: Layout,
    inner: Layout,
    nrm: Seq<char>,
    value_done: Layout,
    done: Layout,
)
    requires
        fields == cell_fields(m, opts.colon_before_prop_name_padding, s, template, item),
        done == cell_tail(
            m,
            value_done,
            template,
            item,
            comma_position(opts, template, item),
            cell_comma(m, include_comma, is_whole_row),
        ),
        template.children@.len() > 0 && item.item_type != JsonItemType::Null ==> {
            &&& inner == (if template.column_type == TableColumnType::Array {
                raw_array_layout(m, opts, fields, template, item)
            } else {
                raw_object_layout(m, opts, fields, template, item)
            })
            &&& value_done == with_spaces(
                comma_before_value(
                    inner,
                    comma_position(opts, template, item),
                    cell_comma(m, include_comma, is_whole_row),
                ),
                template.shorter_than_null_adjustment as nat,
            )
        },
        !(template.children@.len() > 0 && item.item_type != JsonItemType::Null)
            && template.column_type == TableColumnType::Number ==> {
            &&& (template.number_list_alignment == NumberListAlignment::Normalize
                && item.item_type != JsonItemType::Null ==> shown_normalized(
                item.value@,
                template.max_dig_after_dec as nat,
                nrm,
            ))
            &&& value_done == (
                fields.0,
                template.number_parts(
                    fields.1,
                    &item,
                    comma_before_number(
                        comma_position(opts, template, item),
                        cell_comma(m, include_comma, is_whole_row),
                    ),
                    nrm,
                ),
            )
        },
        !(template.children@.len() > 0 && item.item_type != JsonItemType::Null)
            && template.column_type != TableColumnType::Number ==> value_done == with_spaces(
            comma_before_value(
                raw_layout(m, opts.colon_before_prop_name_padding, fields, item),
                comma_position(opts, template, item),
                cell_comma(m, include_comma, is_whole_row),
            ),
            sat_sub(template.composite_value_length as int, item.value_length as int),
        ),
    ensures
        done == cell_layout(m, opts, s, template, item, include_comma, is_whole_row),
{
    if !(template.children@.len() > 0 && item.item_type != JsonItemType::Null)
        && template.column_type == TableColumnType::Number {
        let shown = shown_number(item.value@, template.max_dig_after_dec as nat);
        if template.number_list_alignment == NumberListAlignment::Normalize && item.item_type
            != JsonItemType::Null {
            lemma_shown_unique(item.value@, template.max_dig_after_dec as nat, nrm, shown);
        }
        let c = comma_before_number(
            comma_position(opts, template, item),
            cell_comma(m, include_comma, is_whole_row),
        );
        assert(template.number_parts(fields.1, &item, c, nrm) == template.number_parts(
            fields.1,
            &item,
            c,
            shown,
        ));
    }
}

/// An index as a mathematical integer.
pub open spec fn opt_int(o: Option<usize>) -> Option<int> {
    match o {
        Some(j) => Some(j as int),
        None => None,
    }
}

/// The first child named `name` is the one `r` says, when no earlier child
/// has the name.
proof fn lemma_first_named(ch: Seq<JsonItem>, name: Seq<char>, r: Option<int>)
    requires
        r matches Some(j) ==> 0 <= j < ch.len() && ch[j].name@ == name && forall|k: int|
            0 <= k < j ==> (#[trigger] ch[k]).name@ != name,
        r is None ==> forall|k: int| 0 <= k < ch.len() ==> (#[trigger] ch[k]).name@ != name,
    ensures
        first_named(ch, name) == r,
    decreases ch.len(),
{
    if ch.len() > 0 {
        let d = ch.drop_last();
        let rd = match r {
            Some(j) => if j < ch.len() - 1 {
                Some(j)
            } else {
                None
            },
            None => None,
        };
        assert forall|k: int| 0 <= k < d.len() implies (#[trigger] d[k]) == ch[k] by {}
        lemma_first_named(d, name, rd);
    }
}

/// Columns after `k` whose property the object lacks change nothing about
/// the last matched column.
proof fn lemma_last_matched(cols: Seq<TableTemplate>, ch: Seq<JsonItem>, k: int)
    requires
        0 <= k <= cols.len(),
        forall|jj: int| k <= jj < cols.len() ==> first_named(ch, column_name(#[trigger] cols[jj])) is None,
    ensures
        last_matched(cols, ch) == last_matched(cols.take(k), ch),
    decreases cols.len(),
{
    if cols.len() > k {
        assert(cols.last() == cols[cols.len() - 1]);
        lemma_last_matched(cols.drop_last(), ch, k);
        assert(cols.drop_last().take(k) =~= cols.take(k));
    } else {
        assert(cols.take(k) =~= cols);
    }
}

/// The layout after writing the array `item` from `s` in the columns of
/// `template`: its brackets around its cells.
spec fn raw_array_layout(
    m: PadsModel,
    opts: FracturedJsonOptions,
    s: Layout,
    template: TableTemplate,
    item: JsonItem,
) -> Layout
    decreases template, 1int, 0int,
{
    with_piece(
        array_cells(
            m,
            opts,
            with_piece(s, m.start_text(JsonItemType::Array, template.pad_type)),
            template,
            item,
            template.children@.len() as int,
        ),
        m.end_text(JsonItemType::Array, template.pad_type),
    )
}

/// The layout after the first `k` columns of an array cell: each element
/// in its column with a comma unless it is the last, blanks for columns
/// past the end, and a space-wide stand-in for the comma after the last
/// element when more columns follow.
spec fn array_cells(
    m: PadsModel,
    opts: FracturedJsonOptions,
    s: Layout,
    template: TableTemplate,
    item: JsonItem,
    k: int,
) -> Layout
    decreases template, 0int, k,
{
    if k <= 0 || k > template.children@.len() {
        s
    } else {
        let i = k - 1;
        let prev = array_cells(m, opts, s, template, item, k - 1);
        let sub = template.children@[i];
        let n = item.children@.len();
        let last_in_template = i == template.children@.len() - 1;
        let last_in_array = i == sat_sub(n as int, 1);
        if i >= n {
            let s1 = with_spaces(prev, sub.total_length as nat);
            if !last_in_template {
                with_piece(s1, m.dummy_comma)
            } else {
                s1
            }
        } else {
            proof {
                assert(decreases_to!(template => template.children));
                assert(decreases_to!(template.children => template.children@));
                assert(decreases_to!(template.children@ => template.children@[i]));
            }
            let s1 = cell_layout(m, opts, prev, sub, item.children@[i], !last_in_array, false);
            if last_in_array && !last_in_template {
                with_piece(s1, m.dummy_comma)
            } else {
                s1
            }
        }
    }
}

/// The layout after writing the object `item` from `s` in the columns of
/// `template`: its brackets around its cells.
spec fn raw_object_layout(
    m: PadsModel,
    opts: FracturedJsonOptions,
    s: Layout,
    template: TableTemplate,
    item: JsonItem,
) -> Layout
    decreases template, 1int, 0int,
{
    with_piece(
        object_cells(
            m,
            opts,
            with_piece(s, m.start_text(JsonItemType::Object, template.pad_type)),
            template,
            item,
            template.children@.len() as int,
        ),
        m.end_text(JsonItemType::Object, template.pad_type),
    )
}

/// The layout after the first `k` columns of an object cell: the first
/// property of each column's name in that column, with a comma unless no
/// later column has a property, blanks for columns the object lacks, and
/// a space-wide stand-in for the comma after the last property when more
/// columns follow.
spec fn object_cells(
    m: PadsModel,
    opts: FracturedJsonOptions,
    s: Layout,
    template: TableTemplate,
    item: JsonItem,
    k: int,
) -> Layout
    decreases template, 0int, k,
{
    if k <= 0 || k > template.children@.len() {
        s
    } else {
        let i = k - 1;
        let prev = object_cells(m, opts, s, template, item, k - 1);
        let sub = template.children@[i];
        let last_in_template = i == template.children@.len() - 1;
        let last_in_object = last_matched(template.children@, item.children@) == Some(i);
        match first_named(item.children@, column_name(sub)) {
            Some(j) => {
                proof {
                    assert(decreases_to!(template => template.children));
                    assert(decreases_to!(template.children => template.children@));
                    assert(decreases_to!(template.children@ => template.children@[i]));
                }
                let s1 = cell_layout(m, opts, prev, sub, item.children@[j], !last_in_object, false);
                if last_in_object && !last_in_template {
                    with_piece(s1, m.dummy_comma)
                } else {
                    s1
                }
            },
            None => {
                let s1 = with_spaces(prev, sub.total_length as nat);
                if !last_in_template {
                    with_piece(s1, m.dummy_comma)
                } else {
                    s1
                }
            },
        }
    }
}

/// The layout after writing `value` and `separator` from `s`, unless
/// `value_width` is 0.
pub open spec fn buffered(s: Layout, value: Seq<char>, value_width: nat, separator: Seq<char>) -> Layout {
    if value_width == 0 {
        s
    } else {
        with_piece(with_piece(s, value), separator)
    }
}

/// The layout after writing `value` padded to `field_width` from `s`,
/// `separator` before or after the padding; unchanged for an empty
/// field.
pub open spec fn buffered_fixed(
    s: Layout,
    value: Seq<char>,
    value_width: nat,
    field_width: nat,
    separator: Seq<char>,
    before_padding: bool,
) -> Layout {
    let pad = sat_sub(field_width as int, value_width as int) as nat;
    if field_width == 0 {
        s
    } else if before_padding {
        with_spaces(with_piece(with_piece(s, value), separator), pad)
    } else {
        with_piece(with_spaces(with_piece(s, value), pad), separator)
    }
}

/// A text without line feeds.
pub open spec fn no_lf(s: Seq<char>) -> bool {
    !s.contains('\n')
}

/// A finished line: a body without line feeds that does not end in
/// whitespace, then the line ending `eol`.
pub open spec fn tidy_line(line: Seq<char>, eol: Seq<char>) -> bool {
    exists|body: Seq<char>| #[trigger] (body + eol) == line && no_lf(body) && !ends_in_ws(body)
}

/// Every line of `doc` is a `tidy_line`.
pub open spec fn tidy_doc(doc: Seq<Seq<char>>, eol: Seq<char>) -> bool {
    forall|i: int| 0 <= i < doc.len() ==> tidy_line(#[trigger] doc[i], eol)
}

/// The text is a run of tidy lines ending in `eol`, then possibly a last
/// line without it, that holds no line feed and does not end in whitespace.
pub open spec fn tidy_text(text: Seq<char>, eol: Seq<char>) -> bool {
    exists|doc: Seq<Seq<char>>, last: Seq<char>|
        #![trigger concat_all(doc), no_lf(last)]
        concat_all(doc) + last == text && tidy_doc(doc, eol) && no_lf(last) && !ends_in_ws(last)
}

/// The two line endings the formatter writes.
pub open spec fn is_eol(eol: Seq<char>) -> bool {
    eol == seq!['\n'] || eol == seq!['\r', '\n']
}

/// No line of `text` ends in whitespace.
pub open spec fn no_trailing_ws(text: Seq<char>) -> bool {
    forall|k: int| 0 <= k < lines_of(text).len() ==> !ends_in_ws(#[trigger] lines_of(text)[k])
}

/// What formatting needs of an item to write no line feed of its own: the
/// name, the prefix and postfix comments and (but for comments and blank
/// lines) the value hold none, a middle comment holds one only when it is
/// marked so; with `measured`, `requires_multiple_lines` is also as
/// measurement sets it. All of this in the item and every nested item.
pub open spec fn item_clean(item: JsonItem, measured: bool) -> bool
    decreases item,
{
    &&& no_lf(item.name@)
    &&& no_lf(item.prefix_comment@)
    &&& no_lf(item.postfix_comment@)
    &&& (no_lf(item.middle_comment@) || item.middle_comment_has_new_line)
    &&& (!is_comment_or_blank(item.item_type) ==> no_lf(item.value@))
    &&& (measured ==> item.requires_multiple_lines == needs_lines(item))
    &&& items_clean(item.children@, measured)
}

pub open spec fn items_clean(s: Seq<JsonItem>, measured: bool) -> bool
    decreases s,
{
    if s.len() == 0 {
        true
    } else {
        items_clean(s.drop_last(), measured) && item_clean(s.last(), measured)
    }
}

pub proof fn lemma_items_clean(s: Seq<JsonItem>, measured: bool)
    ensures
        items_clean(s, measured) <==> forall|i: int|
            0 <= i < s.len() ==> #[trigger] item_clean(s[i], measured),
    decreases s.len(),
{
    if s.len() > 0 {
        lemma_items_clean(s.drop_last(), measured);
        if forall|i: int| 0 <= i < s.len() ==> #[trigger] item_clean(s[i], measured) {
            assert forall|i: int| 0 <= i < s.drop_last().len() implies #[trigger] item_clean(
                s.drop_last()[i],
                measured,
            ) by {
                assert(s.drop_last()[i] == s[i]);
            }
            assert(item_clean(s[s.len() - 1], measured));
        }
        if items_clean(s, measured) {
            assert forall|i: int| 0 <= i < s.len() implies #[trigger] item_clean(s[i], measured) by {
                if i < s.len() - 1 {
                    assert(s.drop_last()[i] == s[i]);
                }
            }
        }
    }
}

/// A clean item that is measured is clean as measured.
pub proof fn lemma_measured_clean<L: StringLength>(
    before: JsonItem,
    after: JsonItem,
    p: PadsModel,
    w: L,
)
    requires
        measured(before, after, p, w),
        item_clean(before, false),
    ensures
        item_clean(after, true),
    decreases before,
{
    lemma_all_measured(before.children@, after.children@, p, w);
    lemma_items_clean(before.children@, false);
    assert forall|i: int| 0 <= i < after.children@.len() implies #[trigger] item_clean(
        after.children@[i],
        true,
    ) by {
        assert(measured(before.children@[i], after.children@[i], p, w));
        assert(item_clean(before.children@[i], false));
        assert(decreases_to!(before => before.children));
        assert(decreases_to!(before.children => before.children@));
        assert(decreases_to!(before.children@ => before.children@[i]));
        lemma_measured_clean(before.children@[i], after.children@[i], p, w);
    }
    lemma_items_clean(after.children@, true);
}

/// What the parser gives is clean.
pub proof fn lemma_parsed_clean(item: JsonItem, opts: FracturedJsonOptions)
    requires
        parsed_item_ok(item, opts),
    ensures
        item_clean(item, false),
    decreases item,
{
    lemma_parsed_items_ok(item.children@, opts);
    assert forall|i: int| 0 <= i < item.children@.len() implies #[trigger] item_clean(
        item.children@[i],
        false,
    ) by {
        assert(parsed_item_ok(item.children@[i], opts));
        assert(decreases_to!(item => item.children));
        assert(decreases_to!(item.children => item.children@));
        assert(decreases_to!(item.children@ => item.children@[i]));
        lemma_parsed_clean(item.children@[i], opts);
    }
    lemma_items_clean(item.children@, false);
    assert(no_lf(item.prefix_comment@));
    assert(no_lf(item.postfix_comment@));
}

/// Brackets hold no line feed.
pub proof fn lemma_brackets_plain(m: PadsModel, t: JsonItemType, k: BracketPaddingType)
    requires
        tokens_plain(m),
    ensures
        no_lf(m.start_text(t, k)),
        no_lf(m.end_text(t, k)),
{
    let i = k.spec_index();
    assert(!m.arr_start[i].contains('\n'));
}

/// Spaces hold no line feed.
pub proof fn lemma_spaces_plain(n: nat)
    ensures
        no_lf(spaces_seq(n)),
{
    assert forall|k: int| 0 <= k < spaces_seq(n).len() implies spaces_seq(n)[k] != '\n' by {}
}

/// A value with no comment attached, none nested, no blank line, and no
/// line feed in its name or text; so are the items nested in it.
pub open spec fn plain_item(item: JsonItem) -> bool
    decreases item,
{
    &&& !is_comment_or_blank(item.item_type)
    &&& no_lf(item.name@)
    &&& no_lf(item.value@)
    &&& item.prefix_comment@.len() == 0
    &&& item.middle_comment@.len() == 0
    &&& item.postfix_comment@.len() == 0
    &&& plain_items(item.children@)
}

pub open spec fn plain_items(s: Seq<JsonItem>) -> bool
    decreases s,
{
    if s.len() == 0 {
        true
    } else {
        plain_items(s.drop_last()) && plain_item(s.last())
    }
}

pub proof fn lemma_plain_items(s: Seq<JsonItem>)
    ensures
        plain_items(s) <==> forall|i: int| 0 <= i < s.len() ==> #[trigger] plain_item(s[i]),
    decreases s.len(),
{
    if s.len() > 0 {
        lemma_plain_items(s.drop_last());
        if forall|i: int| 0 <= i < s.len() ==> #[trigger] plain_item(s[i]) {
            assert forall|i: int| 0 <= i < s.drop_last().len() implies #[trigger] plain_item(
                s.drop_last()[i],
            ) by {
                assert(s.drop_last()[i] == s[i]);
            }
            assert(plain_item(s[s.len() - 1]));
        }
        if plain_items(s) {
            assert forall|i: int| 0 <= i < s.len() implies #[trigger] plain_item(s[i]) by {
                if i < s.len() - 1 {
                    assert(s.drop_last()[i] == s[i]);
                }
            }
        }
    }
}

/// What the parser gives, with comments and blank lines dropped, is plain.
pub proof fn lemma_parsed_plain(item: JsonItem, opts: FracturedJsonOptions)
    requires
        parsed_item_ok(item, opts),
        opts.comment_policy != CommentPolicy::Preserve,
        !opts.preserve_blank_lines,
    ensures
        plain_item(item),
    decreases item,
{
    lemma_parsed_items_ok(item.children@, opts);
    assert forall|i: int| 0 <= i < item.children@.len() implies #[trigger] plain_item(
        item.children@[i],
    ) by {
        assert(parsed_item_ok(item.children@[i], opts));
        assert(decreases_to!(item => item.children));
        assert(decreases_to!(item.children => item.children@));
        assert(decreases_to!(item.children@ => item.children@[i]));
        lemma_parsed_plain(item.children@[i], opts);
    }
    lemma_plain_items(item.children@);
}

/// Pieces without line feeds join to a text without line feeds.
pub proof fn lemma_concat_plain(parts: Seq<Seq<char>>)
    requires
        parts_plain(parts),
    ensures
        no_lf(concat_all(parts)),
    decreases parts.len(),
{
    if parts.len() > 0 {
        assert(parts_plain(parts.drop_last())) by {
            assert forall|i: int| 0 <= i < parts.drop_last().len() implies !(
            #[trigger] parts.drop_last()[i]).contains('\n') by {
                assert(parts.drop_last()[i] == parts[i]);
            }
        }
        lemma_concat_plain(parts.drop_last());
        let a = concat_all(parts.drop_last());
        let b = parts.last();
        assert(!b.contains('\n'));
        assert forall|k: int| 0 <= k < (a + b).len() implies (a + b)[k] != '\n' by {
            if k < a.len() {
                assert((a + b)[k] == a[k]);
            } else {
                assert((a + b)[k] == b[k - a.len()]);
            }
        }
    }
}

/// Ending a line of pieces without line feeds keeps the document tidy.
pub proof fn lemma_end_line_tidy(doc: Seq<Seq<char>>, parts: Seq<Seq<char>>, eol: Seq<char>)
    requires
        tidy_doc(doc, eol),
        parts_plain(parts),
        eol.len() > 0,
    ensures
        tidy_doc(end_line_doc(doc, parts, eol), eol),
{
    lemma_concat_plain(parts);
    lemma_trim_end_ws(concat_all(parts));
    let body = trim_end_ws(concat_all(parts));
    assert(no_lf(body)) by {
        assert forall|k: int| 0 <= k < body.len() implies body[k] != '\n' by {
            assert(body[k] == concat_all(parts)[k]);
        }
    }
    assert(tidy_line(finished_line(parts, eol), eol)) by {
        assert(body + eol == finished_line(parts, eol));
    }
    let d = end_line_doc(doc, parts, eol);
    assert forall|i: int| 0 <= i < d.len() implies tidy_line(#[trigger] d[i], eol) by {
        if i < doc.len() {
            assert(d[i] == doc[i]);
        }
    }
}

/// The first piece of a join, then the rest.
proof fn lemma_concat_first(parts: Seq<Seq<char>>)
    requires
        parts.len() > 0,
    ensures
        concat_all(parts) == parts[0] + concat_all(parts.drop_first()),
    decreases parts.len(),
{
    if parts.len() == 1 {
        assert(parts.drop_first() =~= Seq::<Seq<char>>::empty());
        assert(concat_all(parts.drop_last()) =~= Seq::<char>::empty());
        assert(parts[0] + Seq::<char>::empty() =~= parts[0]);
        assert(Seq::<char>::empty() + parts[0] =~= parts[0]);
    } else {
        lemma_concat_first(parts.drop_last());
        assert(parts.drop_last().drop_first() =~= parts.drop_first().drop_last());
        assert(parts.drop_first().last() == parts.last());
        assert(parts[0] + concat_all(parts.drop_first()) =~= parts[0] + concat_all(
            parts.drop_last().drop_first(),
        ) + parts.last());
    }
}

/// The lines of a tidy text end without whitespace.
pub proof fn lemma_tidy_lines(doc: Seq<Seq<char>>, last: Seq<char>, eol: Seq<char>)
    requires
        tidy_doc(doc, eol),
        no_lf(last),
        !ends_in_ws(last),
        is_eol(eol),
    ensures
        no_trailing_ws(concat_all(doc) + last),
    decreases doc.len(),
{
    let text = concat_all(doc) + last;
    if doc.len() == 0 {
        assert(text =~= last);
        lemma_find_newline(last, last.len() as int);
        if last.len() > 0 {
            assert(lines_of(last) == seq![strip_cr(last)]);
            assert(strip_cr(last) == last);
        }
    } else {
        lemma_concat_first(doc);
        assert(tidy_line(doc[0], eol));
        let body = choose|body: Seq<char>| #[trigger] (body + eol) == doc[0] && no_lf(body)
            && !ends_in_ws(body);
        let rest_doc = doc.drop_first();
        assert(tidy_doc(rest_doc, eol)) by {
            assert forall|i: int| 0 <= i < rest_doc.len() implies tidy_line(
                #[trigger] rest_doc[i],
                eol,
            ) by {
                assert(rest_doc[i] == doc[i + 1]);
            }
        }
        lemma_tidy_lines(rest_doc, last, eol);
        let rest = concat_all(rest_doc) + last;
        let k = (body.len() + eol.len() - 1) as int;
        assert(text =~= body + eol + rest);
        assert forall|j: int| 0 <= j < k implies text[j] != '\n' by {
            if j < body.len() {
                assert(text[j] == body[j]);
            } else {
                assert(text[j] == '\r');
            }
        }
        assert(text[k] == '\n');
        lemma_find_newline(text, k);
        assert(text.skip(k + 1) =~= rest);
        if eol == seq!['\n'] {
            assert(text.take(k) =~= body);
            if body.len() > 0 {
                assert(!is_ws(body.last()));
            }
            assert(strip_cr(text.take(k)) == body);
        } else {
            assert(text.take(k) =~= body.push('\r'));
            assert(text.take(k).drop_last() =~= body);
            assert(strip_cr(text.take(k)) == body);
        }
        assert(lines_of(text) == seq![body] + lines_of(rest));
        assert forall|m: int| 0 <= m < lines_of(text).len() implies !ends_in_ws(
            #[trigger] lines_of(text)[m],
        ) by {
            if m > 0 {
                assert(lines_of(text)[m] == lines_of(rest)[m - 1]);
            }
        }
    }
}

} // verus!
