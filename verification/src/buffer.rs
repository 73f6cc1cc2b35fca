//! The output buffer and the padded punctuation tokens that formatting writes.

use vstd::prelude::*;
use vstd::string::StrSliceExecFns;
use crate::model::{BracketPaddingType, JsonItemType};
use crate::options::{EolStyle, FracturedJsonOptions};
use crate::text::{push_char, all_ws, ends_in_ws, lemma_trim_end_ws, repeat_space, spaces_seq, trim_end_string, trim_end_ws};

verus! {

/// How wide a piece of text is when displayed.
///
/// Alignment is computed from these widths. The library counts characters;
/// users may supply a type that knows about wide characters. A type that
/// states its widths as `spec_length` says so with `obeys_length_spec`;
/// of any other nothing is known but that `length` returns some width.
pub trait StringLength {
    /// Whether `length` gives `spec_length`.
    open spec fn obeys_length_spec() -> bool {
        false
    }

    /// The width of `s`, where the type states it.
    open spec fn spec_length(&self, s: Seq<char>) -> nat {
        s.len()
    }

    /// The width of `s`.
    fn length(&self, s: &str) -> (n: usize)
        ensures
            Self::obeys_length_spec() ==> n as nat == self.spec_length(s@),
    ;
}

/// The default width: the number of Unicode characters.
pub struct CharCount;

impl StringLength for CharCount {
    open spec fn obeys_length_spec() -> bool {
        true
    }

    open spec fn spec_length(&self, s: Seq<char>) -> nat {
        s.len()
    }

    fn length(&self, s: &str) -> (n: usize) {
        s.unicode_len()
    }
}

/// The texts `parts` written one after another.
pub open spec fn concat_all(parts: Seq<Seq<char>>) -> Seq<char>
    decreases parts.len(),
{
    if parts.len() == 0 {
        Seq::empty()
    } else {
        concat_all(parts.drop_last()) + parts.last()
    }
}

/// Adding a piece to a line adds its text.
pub proof fn lemma_concat_add(parts: Seq<Seq<char>>, v: Seq<char>)
    ensures
        concat_all(
            if v.len() == 0 {
                parts
            } else {
                parts.push(v)
            },
        ) == concat_all(parts) + v,
{
    if v.len() == 0 {
        assert(concat_all(parts) + v =~= concat_all(parts));
    } else {
        assert(parts.push(v).drop_last() =~= parts);
    }
}

pub open spec fn views_of(v: Seq<String>) -> Seq<Seq<char>> {
    v.map_values(|s: String| s@)
}

/// The texts of `v`, joined.
pub fn join_strings(v: &Vec<String>) -> (s: String)
    ensures
        s@ == concat_all(views_of(v@)),
{
    let mut s = String::new();
    let mut i: usize = 0;
    while i < v.len()
        invariant
            i <= v.len(),
            s@ == concat_all(views_of(v@).take(i as int)),
        decreases v.len() - i,
    {
        s.append(v[i].as_str());
        assert(views_of(v@).take(i + 1).drop_last() =~= views_of(v@).take(i as int));
        i += 1;
    }
    assert(views_of(v@).take(v.len() as int) =~= views_of(v@));
    s
}

/// Collects the output: pieces of the current line, and finished lines.
#[derive(Debug)]
pub struct StringJoinBuffer {
    line_buff: Vec<String>,
    doc_buff: Vec<String>,
}

impl Default for StringJoinBuffer {
    fn default() -> (r: Self)
        ensures
            r.line_parts().len() == 0,
            r.doc_lines().len() == 0,
    {
        StringJoinBuffer { line_buff: Vec::new(), doc_buff: Vec::new() }
    }
}

/// The line that the buffer writes for `parts` and the line ending `eol`:
/// the pieces joined, with trailing whitespace removed, then `eol`.
pub open spec fn finished_line(parts: Seq<Seq<char>>, eol: Seq<char>) -> Seq<char> {
    trim_end_ws(concat_all(parts)) + eol
}

/// The document after ending the current line with `eol`.
pub open spec fn end_line_doc(doc: Seq<Seq<char>>, parts: Seq<Seq<char>>, eol: Seq<char>) -> Seq<
    Seq<char>,
> {
    if parts.len() == 0 && eol.len() == 0 {
        doc
    } else {
        doc.push(finished_line(parts, eol))
    }
}

impl StringJoinBuffer {
    /// The pieces of the line being built.
    pub closed spec fn line_parts(&self) -> Seq<Seq<char>> {
        views_of(self.line_buff@)
    }

    /// The lines already finished.
    pub closed spec fn doc_lines(&self) -> Seq<Seq<char>> {
        views_of(self.doc_buff@)
    }

    /// Adds `value` to the current line (nothing if it is empty).
    pub fn add(&mut self, value: &str) -> (r: &mut Self)
        ensures
            r.line_parts() == (if value@.len() == 0 {
                old(self).line_parts()
            } else {
                old(self).line_parts().push(value@)
            }),
            r.doc_lines() == old(self).doc_lines(),
            *final(self) == *final(r),
    {
        if value.unicode_len() > 0 {
            self.line_buff.push(String::from_str(value));
            assert(views_of(self.line_buff@) =~= views_of(old(self).line_buff@).push(value@));
        }
        self
    }

    /// Adds `count` spaces to the current line (nothing if `count` is 0).
    pub fn spaces(&mut self, count: usize) -> (r: &mut Self)
        ensures
            r.line_parts() == (if count == 0 {
                old(self).line_parts()
            } else {
                old(self).line_parts().push(spaces_seq(count as nat))
            }),
            r.doc_lines() == old(self).doc_lines(),
            *final(self) == *final(r),
    {
        if count > 0 {
            self.line_buff.push(repeat_space(count));
            assert(views_of(self.line_buff@) =~= views_of(old(self).line_buff@).push(
                spaces_seq(count as nat),
            ));
        }
        self
    }

    /// Finishes the current line with the line ending `eol`.
    pub fn end_line(&mut self, eol: &str) -> (r: &mut Self)
        ensures
            r.line_parts().len() == 0,
            r.doc_lines() == end_line_doc(old(self).doc_lines(), old(self).line_parts(), eol@),
            *final(self) == *final(r),
    {
        self.add_line_to_writer(eol);
        self
    }

    /// Finishes the current line, if it has anything, without a line ending.
    pub fn flush(&mut self) -> (r: &mut Self)
        ensures
            r.line_parts().len() == 0,
            r.doc_lines() == end_line_doc(
                old(self).doc_lines(),
                old(self).line_parts(),
                Seq::empty(),
            ),
            *final(self) == *final(r),
    {
        self.add_line_to_writer("");
        proof {
            reveal_strlit("");
        }
        self
    }

    /// The finished lines, joined.
    pub fn as_string(&self) -> (s: String)
        ensures
            s@ == concat_all(self.doc_lines()),
    {
        join_strings(&self.doc_buff)
    }

    fn add_line_to_writer(&mut self, eol: &str)
        ensures
            final(self).line_parts().len() == 0,
            final(self).doc_lines() == end_line_doc(
                old(self).doc_lines(),
                old(self).line_parts(),
                eol@,
            ),
    {
        if self.line_buff.len() == 0 && eol.unicode_len() == 0 {
            assert(views_of(self.line_buff@).len() == 0);
            return ;
        }
        let line = join_strings(&self.line_buff);
        let mut trimmed = trim_end_string(line.as_str());
        trimmed.append(eol);
        self.doc_buff.push(trimmed);
        assert(views_of(self.doc_buff@) =~= views_of(old(self).doc_buff@).push(
            finished_line(views_of(old(self).line_buff@), eol@),
        ));
        self.line_buff.clear();
        assert(views_of(self.line_buff@) =~= Seq::<Seq<char>>::empty());
    }
}

/// A line that the buffer finishes never ends in whitespace before its line
/// ending: it is some `t` followed by `eol`, where `t` does not end in
/// whitespace.
pub proof fn lemma_finished_line_trimmed(parts: Seq<Seq<char>>, eol: Seq<char>)
    ensures
        finished_line(parts, eol) == trim_end_ws(concat_all(parts)) + eol,
        !ends_in_ws(trim_end_ws(concat_all(parts))),
{
    lemma_trim_end_ws(concat_all(parts));
}

/// `unit` written `n` times.
pub open spec fn repeat_seq(unit: Seq<char>, n: nat) -> Seq<char>
    decreases n,
{
    if n == 0 {
        Seq::empty()
    } else {
        repeat_seq(unit, (n - 1) as nat) + unit
    }
}

/// The punctuation and indentation texts that formatting writes, with their
/// widths.
pub struct PadsModel {
    pub comma: Seq<char>,
    pub colon: Seq<char>,
    pub comment: Seq<char>,
    pub eol: Seq<char>,
    pub dummy_comma: Seq<char>,
    pub comma_len: nat,
    pub colon_len: nat,
    pub comment_len: nat,
    pub literal_null_len: nat,
    pub literal_true_len: nat,
    pub literal_false_len: nat,
    pub prefix_string_len: nat,
    /// Opening and closing brackets of arrays and objects, by padding kind.
    pub arr_start: Seq<Seq<char>>,
    pub arr_end: Seq<Seq<char>>,
    pub obj_start: Seq<Seq<char>>,
    pub obj_end: Seq<Seq<char>>,
    pub arr_start_len: Seq<nat>,
    pub arr_end_len: Seq<nat>,
    pub obj_start_len: Seq<nat>,
    pub obj_end_len: Seq<nat>,
    /// The text of one level of indentation.
    pub indent_unit: Seq<char>,
}

/// A bracket, padded inside with a space when `padded` holds.
pub open spec fn bracket(c: char, padded: bool, opening: bool) -> Seq<char> {
    if !padded {
        seq![c]
    } else if opening {
        seq![c, ' ']
    } else {
        seq![' ', c]
    }
}

/// The three forms of a bracket: for empty, simple and nested containers.
pub open spec fn bracket_forms(c: char, o: FracturedJsonOptions, opening: bool) -> Seq<Seq<char>> {
    seq![
        seq![c],
        bracket(c, o.simple_bracket_padding, opening),
        bracket(c, o.nested_bracket_padding, opening),
    ]
}

pub open spec fn widths<L: StringLength>(w: L, texts: Seq<Seq<char>>) -> Seq<nat> {
    texts.map_values(|t: Seq<char>| w.spec_length(t))
}

/// No token text holds a line feed.
pub open spec fn tokens_plain(m: PadsModel) -> bool {
    &&& !m.comma.contains('\n')
    &&& !m.colon.contains('\n')
    &&& !m.comment.contains('\n')
    &&& !m.dummy_comma.contains('\n')
    &&& !m.indent_unit.contains('\n')
    &&& forall|i: int|
        0 <= i < 3 ==> !(#[trigger] m.arr_start[i]).contains('\n') && !m.arr_end[i].contains('\n')
            && !m.obj_start[i].contains('\n') && !m.obj_end[i].contains('\n')
}

/// Repeating a text without line feeds gives a text without line feeds.
pub proof fn lemma_repeat_plain(unit: Seq<char>, n: nat)
    requires
        !unit.contains('\n'),
    ensures
        !repeat_seq(unit, n).contains('\n'),
    decreases n,
{
    if n > 0 {
        lemma_repeat_plain(unit, (n - 1) as nat);
        let r = repeat_seq(unit, n);
        let a = repeat_seq(unit, (n - 1) as nat);
        assert forall|k: int| 0 <= k < r.len() implies r[k] != '\n' by {
            if k < a.len() {
                assert(r[k] == a[k]);
            } else {
                assert(r[k] == unit[k - a.len()]);
            }
        }
    }
}

/// The texts of two token sets agree (their widths need not).
pub open spec fn same_texts(a: PadsModel, b: PadsModel) -> bool {
    &&& a.comma == b.comma
    &&& a.colon == b.colon
    &&& a.comment == b.comment
    &&& a.eol == b.eol
    &&& a.arr_start == b.arr_start
    &&& a.arr_end == b.arr_end
    &&& a.obj_start == b.obj_start
    &&& a.obj_end == b.obj_end
    &&& a.indent_unit == b.indent_unit
}

/// The tokens for the options `o`, measured with `w`.
pub open spec fn pads_model<L: StringLength>(o: FracturedJsonOptions, w: L) -> PadsModel {
    let comma = if o.comma_padding {
        seq![',', ' ']
    } else {
        seq![',']
    };
    let colon = if o.colon_padding {
        seq![':', ' ']
    } else {
        seq![':']
    };
    let comment = if o.comment_padding {
        seq![' ']
    } else {
        Seq::empty()
    };
    let eol = if o.json_eol_style == EolStyle::Crlf {
        seq!['\r', '\n']
    } else {
        seq!['\n']
    };
    PadsModel {
        comma,
        colon,
        comment,
        eol,
        dummy_comma: spaces_seq(w.spec_length(comma)),
        comma_len: w.spec_length(comma),
        colon_len: w.spec_length(colon),
        comment_len: w.spec_length(comment),
        literal_null_len: w.spec_length(seq!['n', 'u', 'l', 'l']),
        literal_true_len: w.spec_length(seq!['t', 'r', 'u', 'e']),
        literal_false_len: w.spec_length(seq!['f', 'a', 'l', 's', 'e']),
        prefix_string_len: w.spec_length(o.prefix_string@),
        arr_start: bracket_forms('[', o, true),
        arr_end: bracket_forms(']', o, false),
        obj_start: bracket_forms('{', o, true),
        obj_end: bracket_forms('}', o, false),
        arr_start_len: widths(w, bracket_forms('[', o, true)),
        arr_end_len: widths(w, bracket_forms(']', o, false)),
        obj_start_len: widths(w, bracket_forms('{', o, true)),
        obj_end_len: widths(w, bracket_forms('}', o, false)),
        indent_unit: if o.use_tab_to_indent {
            seq!['\t']
        } else {
            spaces_seq(o.indent_spaces as nat)
        },
    }
}

/// The tokens that text is laid out with follow the options: one indentation
/// step is a single tab when tabs are asked for and the set number of
/// spaces otherwise; a comma, a colon and a comment are followed by a
/// space when their padding is asked for; a line ends with CR LF or LF as
/// the options say; a bracket has a space inside it in simple or nested
/// containers when that padding is asked for, and none when it is empty.
pub proof fn tokens_follow_options<L: StringLength>(o: FracturedJsonOptions, w: L)
    ensures
        o.use_tab_to_indent ==> pads_model(o, w).indent_unit == seq!['\t'],
        !o.use_tab_to_indent ==> pads_model(o, w).indent_unit.len() == o.indent_spaces && forall|
            i: int,
        |
            0 <= i < o.indent_spaces ==> pads_model(o, w).indent_unit[i] == ' ',
        pads_model(o, w).comma == (if o.comma_padding {
            seq![',', ' ']
        } else {
            seq![',']
        }),
        pads_model(o, w).colon == (if o.colon_padding {
            seq![':', ' ']
        } else {
            seq![':']
        }),
        pads_model(o, w).comment == (if o.comment_padding {
            seq![' ']
        } else {
            Seq::<char>::empty()
        }),
        pads_model(o, w).eol == (if o.json_eol_style == EolStyle::Crlf {
            seq!['\r', '\n']
        } else {
            seq!['\n']
        }),
        pads_model(o, w).arr_start == seq![
            seq!['['],
            if o.simple_bracket_padding {
                seq!['[', ' ']
            } else {
                seq!['[']
            },
            if o.nested_bracket_padding {
                seq!['[', ' ']
            } else {
                seq!['[']
            },
        ],
        pads_model(o, w).arr_end == seq![
            seq![']'],
            if o.simple_bracket_padding {
                seq![' ', ']']
            } else {
                seq![']']
            },
            if o.nested_bracket_padding {
                seq![' ', ']']
            } else {
                seq![']']
            },
        ],
        pads_model(o, w).obj_start == seq![
            seq!['{'],
            if o.simple_bracket_padding {
                seq!['{', ' ']
            } else {
                seq!['{']
            },
            if o.nested_bracket_padding {
                seq!['{', ' ']
            } else {
                seq!['{']
            },
        ],
        pads_model(o, w).obj_end == seq![
            seq!['}'],
            if o.simple_bracket_padding {
                seq![' ', '}']
            } else {
                seq!['}']
            },
            if o.nested_bracket_padding {
                seq![' ', '}']
            } else {
                seq!['}']
            },
        ],
{
    assert(pads_model(o, w).arr_start =~= seq![
        seq!['['],
        bracket('[', o.simple_bracket_padding, true),
        bracket('[', o.nested_bracket_padding, true),
    ]);
}

/// With tabs asked for, the indentation `level` steps deep is `level`
/// tabs.
pub proof fn tab_indentation<L: StringLength>(o: FracturedJsonOptions, w: L, level: nat)
    requires
        o.use_tab_to_indent,
    ensures
        repeat_seq(pads_model(o, w).indent_unit, level) == Seq::new(level, |i: int| '\t'),
    decreases level,
{
    if level > 0 {
        tab_indentation(o, w, (level - 1) as nat);
        assert(repeat_seq(pads_model(o, w).indent_unit, level) =~= Seq::new(
            level,
            |i: int| '\t',
        ));
    }
}

/// Padded punctuation, brackets and indentation, with their widths.
#[derive(Debug)]
pub struct PaddedFormattingTokens {
    comma: String,
    colon: String,
    comment: String,
    eol: String,
    dummy_comma: String,
    comma_len: usize,
    colon_len: usize,
    comment_len: usize,
    literal_null_len: usize,
    literal_true_len: usize,
    literal_false_len: usize,
    prefix_string_len: usize,
    arr_start: Vec<String>,
    arr_end: Vec<String>,
    obj_start: Vec<String>,
    obj_end: Vec<String>,
    arr_start_len: Vec<usize>,
    arr_end_len: Vec<usize>,
    obj_start_len: Vec<usize>,
    obj_end_len: Vec<usize>,
    indent_strings: Vec<String>,
}

fn string_of(s: &str) -> (r: String)
    ensures
        r@ == s@,
{
    String::from_str(s)
}

/// The three forms of a bracket, as strings.
fn make_bracket_forms(c: char, opening: bool, o: &FracturedJsonOptions) -> (v: Vec<String>)
    ensures
        v@.len() == 3,
        views_of(v@) == bracket_forms(c, *o, opening),
{
    let mut v: Vec<String> = Vec::new();
    v.push(make_bracket(c, false, opening));
    v.push(make_bracket(c, o.simple_bracket_padding, opening));
    v.push(make_bracket(c, o.nested_bracket_padding, opening));
    assert(views_of(v@) =~= bracket_forms(c, *o, opening));
    v
}

fn make_bracket(c: char, padded: bool, opening: bool) -> (s: String)
    ensures
        s@ == bracket(c, padded, opening),
{
    let mut s = String::new();
    if !padded {
        push_char(&mut s, c);
    } else if opening {
        push_char(&mut s, c);
        push_char(&mut s, ' ');
    } else {
        push_char(&mut s, ' ');
        push_char(&mut s, c);
    }
    assert(s@ =~= bracket(c, padded, opening));
    s
}

fn measure_forms<L: StringLength>(w: &L, forms: &Vec<String>) -> (v: Vec<usize>)
    requires
        forms@.len() == 3,
    ensures
        v@.len() == 3,
        L::obeys_length_spec() ==> forall|i: int|
            0 <= i < 3 ==> v@[i] as nat == w.spec_length(#[trigger] forms@[i]@),
{
    let mut v: Vec<usize> = Vec::new();
    v.push(w.length(forms[0].as_str()));
    v.push(w.length(forms[1].as_str()));
    v.push(w.length(forms[2].as_str()));
    v
}

impl PaddedFormattingTokens {
    /// The texts and widths these tokens hold.
    pub closed spec fn model(&self) -> PadsModel {
        PadsModel {
            comma: self.comma@,
            colon: self.colon@,
            comment: self.comment@,
            eol: self.eol@,
            dummy_comma: self.dummy_comma@,
            comma_len: self.comma_len as nat,
            colon_len: self.colon_len as nat,
            comment_len: self.comment_len as nat,
            literal_null_len: self.literal_null_len as nat,
            literal_true_len: self.literal_true_len as nat,
            literal_false_len: self.literal_false_len as nat,
            prefix_string_len: self.prefix_string_len as nat,
            arr_start: views_of(self.arr_start@),
            arr_end: views_of(self.arr_end@),
            obj_start: views_of(self.obj_start@),
            obj_end: views_of(self.obj_end@),
            arr_start_len: self.arr_start_len@.map_values(|n: usize| n as nat),
            arr_end_len: self.arr_end_len@.map_values(|n: usize| n as nat),
            obj_start_len: self.obj_start_len@.map_values(|n: usize| n as nat),
            obj_end_len: self.obj_end_len@.map_values(|n: usize| n as nat),
            indent_unit: self.indent_strings@[1]@,
        }
    }

    /// The internal tables have their three entries, and the indentation
    /// cache holds `i` units at each level `i`.
    pub closed spec fn wf(&self) -> bool {
        &&& self.arr_start@.len() == 3
        &&& self.arr_end@.len() == 3
        &&& self.obj_start@.len() == 3
        &&& self.obj_end@.len() == 3
        &&& self.arr_start_len@.len() == 3
        &&& self.arr_end_len@.len() == 3
        &&& self.obj_start_len@.len() == 3
        &&& self.obj_end_len@.len() == 3
        &&& self.indent_strings@.len() >= 2
        &&& forall|i: int|
            0 <= i < self.indent_strings@.len() ==> #[trigger] self.indent_strings@[i]@
                == repeat_seq(self.indent_strings@[1]@, i as nat)
    }

    /// Builds the tokens for `opts`, measuring each with `str_len_func`.
    pub fn new<L: StringLength>(opts: &FracturedJsonOptions, str_len_func: &L) -> (r: Self)
        ensures
            r.wf(),
            tokens_plain(r.model()),
            same_texts(r.model(), pads_model(*opts, *str_len_func)),
            L::obeys_length_spec() ==> r.model() == pads_model(*opts, *str_len_func),
            opts.use_tab_to_indent ==> r.model().indent_unit == seq!['\t'],
            !opts.use_tab_to_indent ==> r.model().indent_unit.len() == opts.indent_spaces && forall|
                i: int,
            |
                0 <= i < opts.indent_spaces ==> r.model().indent_unit[i] == ' ',
            r.model().comma == (if opts.comma_padding {
                seq![',', ' ']
            } else {
                seq![',']
            }),
            r.model().colon == (if opts.colon_padding {
                seq![':', ' ']
            } else {
                seq![':']
            }),
            r.model().comment == (if opts.comment_padding {
                seq![' ']
            } else {
                Seq::<char>::empty()
            }),
            r.model().eol == (if opts.json_eol_style == EolStyle::Crlf {
                seq!['\r', '\n']
            } else {
                seq!['\n']
            }),
    {
        let arr_start = make_bracket_forms('[', true, opts);
        let arr_end = make_bracket_forms(']', false, opts);
        let obj_start = make_bracket_forms('{', true, opts);
        let obj_end = make_bracket_forms('}', false, opts);
        let comma = if opts.comma_padding {
            string_of(", ")
        } else {
            string_of(",")
        };
        let colon = if opts.colon_padding {
            string_of(": ")
        } else {
            string_of(":")
        };
        let comment = if opts.comment_padding {
            string_of(" ")
        } else {
            string_of("")
        };
        let eol = if opts.json_eol_style == EolStyle::Crlf {
            string_of("\r\n")
        } else {
            string_of("\n")
        };
        let arr_start_len = measure_forms(str_len_func, &arr_start);
        let arr_end_len = measure_forms(str_len_func, &arr_end);
        let obj_start_len = measure_forms(str_len_func, &obj_start);
        let obj_end_len = measure_forms(str_len_func, &obj_end);
        let mut indent_strings: Vec<String> = Vec::new();
        indent_strings.push(String::new());
        indent_strings.push(
            if opts.use_tab_to_indent {
                string_of("\t")
            } else {
                repeat_space(opts.indent_spaces)
            },
        );
        let comma_len = str_len_func.length(comma.as_str());
        let colon_len = str_len_func.length(colon.as_str());
        let comment_len = str_len_func.length(comment.as_str());
        let literal_null_len = str_len_func.length("null");
        let literal_true_len = str_len_func.length("true");
        let literal_false_len = str_len_func.length("false");
        let prefix_string_len = str_len_func.length(opts.prefix_string.as_str());
        let dummy_comma = repeat_space(comma_len);
        let r = PaddedFormattingTokens {
            comma,
            colon,
            comment,
            eol,
            dummy_comma,
            comma_len,
            colon_len,
            comment_len,
            literal_null_len,
            literal_true_len,
            literal_false_len,
            prefix_string_len,
            arr_start,
            arr_end,
            obj_start,
            obj_end,
            arr_start_len,
            arr_end_len,
            obj_start_len,
            obj_end_len,
            indent_strings,
        };
        proof {
            reveal_strlit(", ");
            reveal_strlit(",");
            reveal_strlit(": ");
            reveal_strlit(":");
            reveal_strlit(" ");
            reveal_strlit("");
            reveal_strlit("\r\n");
            reveal_strlit("\n");
            reveal_strlit("\t");
            reveal_strlit("null");
            reveal_strlit("true");
            reveal_strlit("false");
            assert(", "@ =~= seq![',', ' ']);
            assert(","@ =~= seq![',']);
            assert(": "@ =~= seq![':', ' ']);
            assert(":"@ =~= seq![':']);
            assert(" "@ =~= seq![' ']);
            assert(""@ =~= Seq::<char>::empty());
            assert("\r\n"@ =~= seq!['\r', '\n']);
            assert("\n"@ =~= seq!['\n']);
            assert("\t"@ =~= seq!['\t']);
            let m = pads_model(*opts, *str_len_func);
            assert(r.comma@ == m.comma);
            assert(r.colon@ == m.colon);
            assert(r.comment@ == m.comment);
            assert(r.eol@ == m.eol);
            assert(r.indent_strings@[1]@ == m.indent_unit);
            assert(!r.dummy_comma@.contains('\n')) by {
                assert forall|k: int| 0 <= k < r.dummy_comma@.len() implies r.dummy_comma@[k]
                    != '\n' by {}
            }
            assert(!m.indent_unit.contains('\n')) by {
                assert forall|k: int| 0 <= k < m.indent_unit.len() implies m.indent_unit[k]
                    != '\n' by {}
            }
            assert forall|i: int| 0 <= i < 3 implies !(#[trigger] m.arr_start[i]).contains('\n')
                && !m.arr_end[i].contains('\n') && !m.obj_start[i].contains('\n')
                && !m.obj_end[i].contains('\n') by {
                assert forall|k: int| 0 <= k < m.arr_start[i].len() implies m.arr_start[i][k]
                    != '\n' by {}
                assert forall|k: int| 0 <= k < m.arr_end[i].len() implies m.arr_end[i][k]
                    != '\n' by {}
                assert forall|k: int| 0 <= k < m.obj_start[i].len() implies m.obj_start[i][k]
                    != '\n' by {}
                assert forall|k: int| 0 <= k < m.obj_end[i].len() implies m.obj_end[i][k]
                    != '\n' by {}
            }
            assert(!m.comma.contains('\n')) by {
                assert forall|k: int| 0 <= k < m.comma.len() implies m.comma[k] != '\n' by {}
            }
            assert(!m.colon.contains('\n')) by {
                assert forall|k: int| 0 <= k < m.colon.len() implies m.colon[k] != '\n' by {}
            }
            assert(!m.comment.contains('\n')) by {
                assert forall|k: int| 0 <= k < m.comment.len() implies m.comment[k] != '\n' by {}
            }
            if L::obeys_length_spec() {
                assert(r.dummy_comma@ == m.dummy_comma);
                assert("null"@ =~= seq!['n', 'u', 'l', 'l']);
                assert("true"@ =~= seq!['t', 'r', 'u', 'e']);
                assert("false"@ =~= seq!['f', 'a', 'l', 's', 'e']);
                assert(r.literal_null_len == m.literal_null_len);
                assert(r.literal_true_len == m.literal_true_len);
                assert(r.literal_false_len == m.literal_false_len);
                assert(r.prefix_string_len == m.prefix_string_len);
                assert(r.arr_start_len@.map_values(|n: usize| n as nat) =~= m.arr_start_len);
                assert(r.arr_end_len@.map_values(|n: usize| n as nat) =~= m.arr_end_len);
                assert(r.obj_start_len@.map_values(|n: usize| n as nat) =~= m.obj_start_len);
                assert(r.obj_end_len@.map_values(|n: usize| n as nat) =~= m.obj_end_len);
            }
            assert(repeat_seq(r.indent_strings@[1]@, 0) =~= r.indent_strings@[0]@);
            assert(repeat_seq(r.indent_strings@[1]@, 1) =~= r.indent_strings@[1]@);
            assert forall|i: int| 0 <= i < r.indent_strings@.len() implies #[trigger] r.indent_strings@[i]@
                == repeat_seq(r.indent_strings@[1]@, i as nat) by {
                if i == 1 {
                    assert(repeat_seq(r.indent_strings@[1]@, 1) =~= r.indent_strings@[1]@);
                }
            }
        }
        r
    }

    pub fn comma(&self) -> (s: &str)
        ensures
            s@ == self.model().comma,
    {
        self.comma.as_str()
    }

    pub fn colon(&self) -> (s: &str)
        ensures
            s@ == self.model().colon,
    {
        self.colon.as_str()
    }

    pub fn comment(&self) -> (s: &str)
        ensures
            s@ == self.model().comment,
    {
        self.comment.as_str()
    }

    pub fn eol(&self) -> (s: &str)
        ensures
            s@ == self.model().eol,
    {
        self.eol.as_str()
    }

    pub fn comma_len(&self) -> (n: usize)
        ensures
            n == self.model().comma_len,
    {
        self.comma_len
    }

    pub fn colon_len(&self) -> (n: usize)
        ensures
            n == self.model().colon_len,
    {
        self.colon_len
    }

    pub fn comment_len(&self) -> (n: usize)
        ensures
            n == self.model().comment_len,
    {
        self.comment_len
    }

    pub fn literal_null_len(&self) -> (n: usize)
        ensures
            n == self.model().literal_null_len,
    {
        self.literal_null_len
    }

    pub fn literal_true_len(&self) -> (n: usize)
        ensures
            n == self.model().literal_true_len,
    {
        self.literal_true_len
    }

    pub fn literal_false_len(&self) -> (n: usize)
        ensures
            n == self.model().literal_false_len,
    {
        self.literal_false_len
    }

    pub fn prefix_string_len(&self) -> (n: usize)
        ensures
            n == self.model().prefix_string_len,
    {
        self.prefix_string_len
    }

    pub fn dummy_comma(&self) -> (s: &str)
        ensures
            s@ == self.model().dummy_comma,
    {
        self.dummy_comma.as_str()
    }

    pub fn arr_start(&self, kind: BracketPaddingType) -> (s: &str)
        requires
            self.wf(),
        ensures
            s@ == self.model().arr_start[kind.spec_index()],
    {
        self.arr_start[kind.index()].as_str()
    }

    pub fn arr_end(&self, kind: BracketPaddingType) -> (s: &str)
        requires
            self.wf(),
        ensures
            s@ == self.model().arr_end[kind.spec_index()],
    {
        self.arr_end[kind.index()].as_str()
    }

    pub fn obj_start(&self, kind: BracketPaddingType) -> (s: &str)
        requires
            self.wf(),
        ensures
            s@ == self.model().obj_start[kind.spec_index()],
    {
        self.obj_start[kind.index()].as_str()
    }

    pub fn obj_end(&self, kind: BracketPaddingType) -> (s: &str)
        requires
            self.wf(),
        ensures
            s@ == self.model().obj_end[kind.spec_index()],
    {
        self.obj_end[kind.index()].as_str()
    }

    /// The opening bracket: an array's for arrays, an object's otherwise.
    pub fn start(&self, elem_type: JsonItemType, bracket_type: BracketPaddingType) -> (s: &str)
        requires
            self.wf(),
        ensures
            s@ == self.model().start_text(elem_type, bracket_type),
    {
        if elem_type == JsonItemType::Array {
            self.arr_start(bracket_type)
        } else {
            self.obj_start(bracket_type)
        }
    }

    /// The closing bracket: an array's for arrays, an object's otherwise.
    pub fn end(&self, elem_type: JsonItemType, bracket_type: BracketPaddingType) -> (s: &str)
        requires
            self.wf(),
        ensures
            s@ == self.model().end_text(elem_type, bracket_type),
    {
        if elem_type == JsonItemType::Array {
            self.arr_end(bracket_type)
        } else {
            self.obj_end(bracket_type)
        }
    }

    pub fn arr_start_len(&self, kind: BracketPaddingType) -> (n: usize)
        requires
            self.wf(),
        ensures
            n == self.model().arr_start_len[kind.spec_index()],
    {
        self.arr_start_len[kind.index()]
    }

    pub fn arr_end_len(&self, kind: BracketPaddingType) -> (n: usize)
        requires
            self.wf(),
        ensures
            n == self.model().arr_end_len[kind.spec_index()],
    {
        self.arr_end_len[kind.index()]
    }

    pub fn obj_start_len(&self, kind: BracketPaddingType) -> (n: usize)
        requires
            self.wf(),
        ensures
            n == self.model().obj_start_len[kind.spec_index()],
    {
        self.obj_start_len[kind.index()]
    }

    pub fn obj_end_len(&self, kind: BracketPaddingType) -> (n: usize)
        requires
            self.wf(),
        ensures
            n == self.model().obj_end_len[kind.spec_index()],
    {
        self.obj_end_len[kind.index()]
    }

    /// The width of the opening bracket that `start` gives.
    pub fn start_len(&self, elem_type: JsonItemType, bracket_type: BracketPaddingType) -> (n:
        usize)
        requires
            self.wf(),
        ensures
            n == self.model().start_len(elem_type, bracket_type),
    {
        if elem_type == JsonItemType::Array {
            self.arr_start_len(bracket_type)
        } else {
            self.obj_start_len(bracket_type)
        }
    }

    /// The width of the closing bracket that `end` gives.
    pub fn end_len(&self, elem_type: JsonItemType, bracket_type: BracketPaddingType) -> (n: usize)
        requires
            self.wf(),
        ensures
            n == self.model().end_len(elem_type, bracket_type),
    {
        if elem_type == JsonItemType::Array {
            self.arr_end_len(bracket_type)
        } else {
            self.obj_end_len(bracket_type)
        }
    }

    /// The indentation for `level`: the indent unit written `level` times.
    pub fn indent(&mut self, level: usize) -> (s: String)
        requires
            old(self).wf(),
        ensures
            final(self).wf(),
            final(self).model() == old(self).model(),
            s@ == repeat_seq(old(self).model().indent_unit, level as nat),
    {
        if level >= self.indent_strings.len() {
            let base = self.indent_strings[1].clone();
            while self.indent_strings.len() <= level
                invariant
                    self.wf(),
                    self.model() == old(self).model(),
                    base@ == self.indent_strings@[1]@,
                decreases level + 1 - self.indent_strings@.len(),
            {
                let i = self.indent_strings.len();
                let mut next = self.indent_strings[i - 1].clone();
                next.append(base.as_str());
                self.indent_strings.push(next);
                proof {
                    assert forall|j: int| 0 <= j < self.indent_strings@.len() implies #[trigger] self.indent_strings@[j]@
                        == repeat_seq(self.indent_strings@[1]@, j as nat) by {
                    }
                }
            }
        }
        self.indent_strings[level].clone()
    }
}

impl PadsModel {
    pub open spec fn start_text(self, elem_type: JsonItemType, kind: BracketPaddingType) -> Seq<
        char,
    > {
        if elem_type == JsonItemType::Array {
            self.arr_start[kind.spec_index()]
        } else {
            self.obj_start[kind.spec_index()]
        }
    }

    pub open spec fn end_text(self, elem_type: JsonItemType, kind: BracketPaddingType) -> Seq<
        char,
    > {
        if elem_type == JsonItemType::Array {
            self.arr_end[kind.spec_index()]
        } else {
            self.obj_end[kind.spec_index()]
        }
    }

    pub open spec fn start_len(self, elem_type: JsonItemType, kind: BracketPaddingType) -> nat {
        if elem_type == JsonItemType::Array {
            self.arr_start_len[kind.spec_index()]
        } else {
            self.obj_start_len[kind.spec_index()]
        }
    }

    pub open spec fn end_len(self, elem_type: JsonItemType, kind: BracketPaddingType) -> nat {
        if elem_type == JsonItemType::Array {
            self.arr_end_len[kind.spec_index()]
        } else {
            self.obj_end_len[kind.spec_index()]
        }
    }
}

impl Clone for PaddedFormattingTokens {
    fn clone(&self) -> (r: Self)
        ensures
            self.wf() ==> r.wf(),
            r.model() == self.model(),
    {
        let r = PaddedFormattingTokens {
            comma: self.comma.clone(),
            colon: self.colon.clone(),
            comment: self.comment.clone(),
            eol: self.eol.clone(),
            dummy_comma: self.dummy_comma.clone(),
            comma_len: self.comma_len,
            colon_len: self.colon_len,
            comment_len: self.comment_len,
            literal_null_len: self.literal_null_len,
            literal_true_len: self.literal_true_len,
            literal_false_len: self.literal_false_len,
            prefix_string_len: self.prefix_string_len,
            arr_start: self.arr_start.clone(),
            arr_end: self.arr_end.clone(),
            obj_start: self.obj_start.clone(),
            obj_end: self.obj_end.clone(),
            arr_start_len: self.arr_start_len.clone(),
            arr_end_len: self.arr_end_len.clone(),
            obj_start_len: self.obj_start_len.clone(),
            obj_end_len: self.obj_end_len.clone(),
            indent_strings: self.indent_strings.clone(),
        };
        assert(r.arr_start@ =~= self.arr_start@);
        assert(r.arr_end@ =~= self.arr_end@);
        assert(r.obj_start@ =~= self.obj_start@);
        assert(r.obj_end@ =~= self.obj_end@);
        assert(r.arr_start_len@ =~= self.arr_start_len@);
        assert(r.arr_end_len@ =~= self.arr_end_len@);
        assert(r.obj_start_len@ =~= self.obj_start_len@);
        assert(r.obj_end_len@ =~= self.obj_end_len@);
        assert(r.indent_strings@ =~= self.indent_strings@);
        r
    }
}

} // verus!
