//! Splits JSON text (with comments and blank lines) into tokens.

use vstd::prelude::*;
use crate::error::FracturedJsonError;
use crate::model::{InputPosition, JsonToken, TokenType};
use crate::text::{chars_of, is_ws, string_from_range, trim_end_string, trim_end_ws};

verus! {

/// The longest document the scanner reads, in bytes of UTF-8.
pub const MAX_DOC_SIZE: usize = 2_000_000_000;

/// How many bytes of UTF-8 the character `c` takes.
pub open spec fn utf8_width(c: char) -> nat {
    if (c as u32) < 0x80 {
        1
    } else if (c as u32) < 0x800 {
        2
    } else if (c as u32) < 0x10000 {
        3
    } else {
        4
    }
}

/// How many bytes of UTF-8 the text `s` takes.
pub open spec fn utf8_len(s: Seq<char>) -> nat
    decreases s.len(),
{
    if s.len() == 0 {
        0
    } else {
        utf8_len(s.drop_last()) + utf8_width(s.last())
    }
}

/// The position `p`, whose index counts characters of `text`, with its
/// index counting bytes of UTF-8 instead, as positions are reported.
pub open spec fn byte_pos(text: Seq<char>, p: InputPosition) -> InputPosition {
    InputPosition { index: utf8_len(text.take(p.index as int)) as usize, row: p.row, column: p.column }
}

/// The bytes up to character `i + 1` are those up to character `i` and the
/// width of character `i`.
pub proof fn lemma_utf8_len_step(s: Seq<char>, i: int)
    requires
        0 <= i < s.len(),
    ensures
        utf8_len(s.take(i + 1)) == utf8_len(s.take(i)) + utf8_width(s[i]),
{
    assert(s.take(i + 1).drop_last() =~= s.take(i));
}

/// A text takes at least one byte per character, and its prefixes take
/// no more bytes than it does.
pub proof fn lemma_utf8_len_bounds(s: Seq<char>, i: int)
    requires
        0 <= i <= s.len(),
    ensures
        i <= utf8_len(s.take(i)) <= utf8_len(s),
        s.len() <= utf8_len(s),
    decreases s.len() - i,
{
    lemma_utf8_len_prefix(s.take(i));
    lemma_utf8_len_prefix(s);
    if i < s.len() {
        lemma_utf8_len_step(s, i);
        lemma_utf8_len_bounds(s, i + 1);
    } else {
        assert(s.take(i) =~= s);
    }
}

/// A text takes at least one byte per character.
proof fn lemma_utf8_len_prefix(s: Seq<char>)
    ensures
        s.len() <= utf8_len(s),
    decreases s.len(),
{
    if s.len() > 0 {
        lemma_utf8_len_prefix(s.drop_last());
    }
}

/// The UTF-8 width of `c`.
fn utf8_width_of(c: char) -> (n: usize)
    ensures
        n == utf8_width(c),
{
    let v = c as u32;
    if v < 0x80 {
        1
    } else if v < 0x800 {
        2
    } else if v < 0x10000 {
        3
    } else {
        4
    }
}

/// The scanner: the input's characters, where scanning stands and where the
/// current token started (by character, to read the input), and the same
/// two positions as reported, by byte offset.
pub struct ScannerState {
    /// The characters of the input.
    pub chars: Vec<char>,
    /// Where scanning stands; `index` counts characters.
    pub scan_pos: InputPosition,
    /// Where the current token started; `index` counts characters.
    pub scan_tok: InputPosition,
    /// Where scanning stands; `index` is a byte offset.
    pub current_position: InputPosition,
    /// Where the current token started; `index` is a byte offset.
    pub token_position: InputPosition,
    pub non_whitespace_since_last_newline: bool,
}

/// A position whose row and column can grow by one as often as its index can.
pub open spec fn position_ok(p: InputPosition) -> bool {
    p.row <= p.index && p.column <= p.index
}

/// A position reported in bytes is fine when the one it comes from is.
pub proof fn lemma_byte_pos_ok(text: Seq<char>, p: InputPosition)
    requires
        position_ok(p),
        p.index <= text.len(),
        utf8_len(text) <= MAX_DOC_SIZE,
    ensures
        position_ok(byte_pos(text, p)),
        p.index <= byte_pos(text, p).index <= MAX_DOC_SIZE,
{
    lemma_utf8_len_bounds(text, p.index as int);
}

impl ScannerState {
    /// The characters of the input.
    pub open spec fn text(&self) -> Seq<char> {
        self.chars@
    }

    /// Where scanning stands, its index counting characters.
    pub open spec fn cur(&self) -> InputPosition {
        self.scan_pos
    }

    /// Where the current token starts, its index counting characters.
    pub open spec fn tok(&self) -> InputPosition {
        self.scan_tok
    }

    /// Something other than whitespace has been seen on the current line.
    pub open spec fn nwsl(&self) -> bool {
        self.non_whitespace_since_last_newline
    }

    /// Scanning stands within the input, which is no longer than the scanner
    /// reads, both positions are consistent, and the reported positions are
    /// the same ones by byte offset.
    pub open spec fn wf(&self) -> bool {
        &&& self.scan_pos.index <= self.text().len() <= MAX_DOC_SIZE
        &&& utf8_len(self.text()) <= MAX_DOC_SIZE
        &&& self.scan_tok.index <= self.scan_pos.index
        &&& position_ok(self.scan_pos)
        &&& position_ok(self.scan_tok)
        &&& self.current_position == byte_pos(self.text(), self.scan_pos)
        &&& self.token_position == byte_pos(self.text(), self.scan_tok)
        &&& position_ok(self.current_position)
        &&& position_ok(self.token_position)
    }

    /// A scanner at the start of `original_text`.
    pub fn new(original_text: &str) -> (r: Self)
        requires
            utf8_len(original_text@) <= MAX_DOC_SIZE,
        ensures
            r.wf(),
            r.text() == original_text@,
            r.cur() == (InputPosition { index: 0, row: 0, column: 0 }),
            r.tok() == (InputPosition { index: 0, row: 0, column: 0 }),
            r.current_position == (InputPosition { index: 0, row: 0, column: 0 }),
            !r.nwsl(),
    {
        let r = ScannerState {
            chars: chars_of(original_text),
            scan_pos: InputPosition { index: 0, row: 0, column: 0 },
            scan_tok: InputPosition { index: 0, row: 0, column: 0 },
            current_position: InputPosition { index: 0, row: 0, column: 0 },
            token_position: InputPosition { index: 0, row: 0, column: 0 },
            non_whitespace_since_last_newline: false,
        };
        proof {
            lemma_utf8_len_bounds(r.text(), 0);
            assert(r.text().take(0) =~= Seq::<char>::empty());
        }
        r
    }

    /// Steps over the current character, which is not a line break: the
    /// reported index grows by its UTF-8 width, the column by one.
    pub fn advance(&mut self, is_whitespace: bool)
        requires
            old(self).wf(),
            old(self).cur().index < old(self).text().len(),
        ensures
            final(self).wf(),
            final(self).text() == old(self).text(),
            final(self).cur() == (InputPosition {
                index: (old(self).cur().index + 1) as usize,
                row: old(self).cur().row,
                column: (old(self).cur().column + 1) as usize,
            }),
            final(self).current_position == (InputPosition {
                index: (old(self).current_position.index + utf8_width(
                    old(self).text()[old(self).cur().index as int],
                )) as usize,
                row: old(self).current_position.row,
                column: (old(self).current_position.column + 1) as usize,
            }),
            final(self).tok() == old(self).tok(),
            final(self).token_position == old(self).token_position,
            final(self).nwsl() == (
            old(self).nwsl() || !is_whitespace),
    {
        let w = utf8_width_of(self.chars[self.scan_pos.index]);
        proof {
            lemma_utf8_len_step(self.text(), self.scan_pos.index as int);
            lemma_utf8_len_bounds(self.text(), self.scan_pos.index + 1);
        }
        self.scan_pos.index += 1;
        self.scan_pos.column += 1;
        self.current_position.index += w;
        self.current_position.column += 1;
        if !is_whitespace {
            self.non_whitespace_since_last_newline = true;
        }
        proof {
            lemma_byte_pos_ok(self.text(), self.scan_pos);
        }
    }

    /// Steps over the current character, a line break: the reported index
    /// grows by one, the row by one, and the column goes back to 0.
    pub fn new_line(&mut self)
        requires
            old(self).wf(),
            old(self).cur().index < old(self).text().len(),
            old(self).text()[old(self).cur().index as int] == '\n',
        ensures
            final(self).wf(),
            final(self).text() == old(self).text(),
            final(self).cur() == (InputPosition {
                index: (old(self).cur().index + 1) as usize,
                row: (old(self).cur().row + 1) as usize,
                column: 0,
            }),
            final(self).current_position == (InputPosition {
                index: (old(self).current_position.index + 1) as usize,
                row: (old(self).current_position.row + 1) as usize,
                column: 0,
            }),
            final(self).tok() == old(self).tok(),
            final(self).token_position == old(self).token_position,
            !final(self).nwsl(),
    {
        proof {
            lemma_utf8_len_step(self.text(), self.scan_pos.index as int);
            lemma_utf8_len_bounds(self.text(), self.scan_pos.index + 1);
        }
        self.scan_pos.index += 1;
        self.scan_pos.row += 1;
        self.scan_pos.column = 0;
        self.current_position.index += 1;
        self.current_position.row += 1;
        self.current_position.column = 0;
        self.non_whitespace_since_last_newline = false;
        proof {
            lemma_byte_pos_ok(self.text(), self.scan_pos);
        }
    }

    /// Marks the current position as the start of a token.
    pub fn set_token_start(&mut self)
        requires
            old(self).wf(),
        ensures
            final(self).wf(),
            final(self).text() == old(self).text(),
            final(self).cur() == old(self).cur(),
            final(self).tok() == old(self).cur(),
            final(self).current_position == old(self).current_position,
            final(self).token_position == old(self).current_position,
            final(self).nwsl()
                == old(self).nwsl(),
    {
        self.scan_tok = self.scan_pos;
        self.token_position = self.current_position;
    }

    /// The token made of the input from the token start to the current
    /// position, trimmed of trailing whitespace when `trim_end` holds.
    pub fn make_token_from_buffer(&self, token_type: TokenType, trim_end: bool) -> (t: JsonToken)
        requires
            self.wf(),
            self.tok().index <= self.cur().index <= self.text().len(),
        ensures
            t.token_type == token_type,
            t.input_position == byte_pos(self.text(), self.tok()),
            t.text@ == (if trim_end {
                trim_end_ws(self.spec_token_text())
            } else {
                self.spec_token_text()
            }),
    {
        let raw = string_from_range(
            &self.chars,
            self.scan_tok.index,
            self.scan_pos.index,
        );
        let text = if trim_end {
            trim_end_string(raw.as_str())
        } else {
            raw
        };
        JsonToken { token_type, text, input_position: self.token_position }
    }

    /// The input from the token start to the current position.
    pub closed spec fn spec_token_text(&self) -> Seq<char> {
        self.chars@.subrange(
            self.scan_tok.index as int,
            self.scan_pos.index as int,
        )
    }

    /// The token text is the input from the token start `start` on.
    pub proof fn lemma_token_text_from(&self, start: int)
        requires
            self.wf(),
            start == self.tok().index,
            self.tok().index <= self.cur().index <= self.text().len(),
        ensures
            self.spec_token_text().len() == self.cur().index - start,
            forall|k: int|
                0 <= k < self.spec_token_text().len() ==> #[trigger] self.spec_token_text()[k]
                    == self.text()[start + k],
    {
    }

    /// A token with the given text, starting at the token start.
    pub fn make_token(&self, token_type: TokenType, text: &str) -> (t: JsonToken)
        requires
            self.wf(),
        ensures
            t.token_type == token_type,
            t.input_position == byte_pos(self.text(), self.tok()),
            t.text@ == text@,
    {
        JsonToken { token_type, text: String::from_str(text), input_position: self.token_position }
    }

    /// The character at the current position, if any.
    pub fn current(&self) -> (c: Option<char>)
        ensures
            c == (if self.cur().index >= self.text().len() {
                None
            } else {
                Some(self.text()[self.cur().index as int])
            }),
    {
        if self.at_end() {
            None
        } else {
            Some(self.chars[self.scan_pos.index])
        }
    }

    /// Scanning has reached the end of the input.
    pub fn at_end(&self) -> (b: bool)
        ensures
            b == (self.cur().index >= self.text().len()),
    {
        self.scan_pos.index >= self.chars.len()
    }

    /// An error at the current position.
    pub fn error(&self, message: &str) -> (e: FracturedJsonError)
        requires
            self.wf(),
        ensures
            e.input_position == Some(byte_pos(self.text(), self.cur())),
            e.message@ == crate::error::error_message(
                message@,
                Some(byte_pos(self.text(), self.cur())),
            ),
    {
        FracturedJsonError::new(message, Some(self.current_position))
    }
}

/// Reads the token that starts at the current character, which is not
/// whitespace.
fn scan_token(state: &mut ScannerState) -> (r: Result<JsonToken, FracturedJsonError>)
    requires
        ready(*old(state)),
    ensures
        r matches Ok(t) ==> scanned_token(*old(state), *final(state), t),
        r matches Err(e) ==> e.input_position is Some && final(state).wf() && final(state).text()
            == old(state).text() && old(state).cur().index <= final(state).cur().index,
        ({
            let l = token_lexed(old(state).text(), old(state).cur(), old(state).tok(), old(state).nwsl());
            &&& final(state).cur() == l.1
            &&& final(state).tok() == l.2
            &&& final(state).nwsl() == l.3
            &&& match l.0 {
                Lexed::End => false,
                Lexed::Token(tt, text, p) => r matches Ok(t) && t.token_type == tt && t.text@ == text
                    && t.input_position == byte_pos(old(state).text(), p),
                Lexed::Failed(m, p) => r matches Err(e) && e.message@
                    == crate::error::error_message(m, Some(byte_pos(old(state).text(), p)))
                    && e.input_position == Some(byte_pos(old(state).text(), p)),
            }
        }),
{
    let ch = state.current().unwrap();
    if ch == '{' {
        process_single_char(state, TokenType::BeginObject)
    } else if ch == '}' {
        process_single_char(state, TokenType::EndObject)
    } else if ch == '[' {
        process_single_char(state, TokenType::BeginArray)
    } else if ch == ']' {
        process_single_char(state, TokenType::EndArray)
    } else if ch == ':' {
        process_single_char(state, TokenType::Colon)
    } else if ch == ',' {
        process_single_char(state, TokenType::Comma)
    } else if ch == 't' {
        proof {
            reveal_strlit("true");
            assert("true"@ =~= seq!['t', 'r', 'u', 'e']);
        }
        process_keyword(state, "true", TokenType::True)
    } else if ch == 'f' {
        proof {
            reveal_strlit("false");
            assert("false"@ =~= seq!['f', 'a', 'l', 's', 'e']);
        }
        process_keyword(state, "false", TokenType::False)
    } else if ch == 'n' {
        proof {
            reveal_strlit("null");
            assert("null"@ =~= seq!['n', 'u', 'l', 'l']);
        }
        process_keyword(state, "null", TokenType::Null)
    } else if ch == '/' {
        process_comment(state)
    } else if ch == '"' {
        process_string(state)
    } else if ch == '-' {
        process_number(state)
    } else if !is_digit(ch) {
        Err(state.error("Unexpected character"))
    } else {
        process_number(state)
    }
}

/// Produces the tokens of a text one at a time.
pub struct TokenGenerator {
    state: ScannerState,
}

/// What one step of tokenizing gives: the end of the input, a token
/// (its type, text and position) or an error (its message and position).
pub enum Lexed {
    End,
    Token(TokenType, Seq<char>, InputPosition),
    Failed(Seq<char>, InputPosition),
}

/// The type of a one-character token.
pub open spec fn single_char_type(c: char) -> Option<TokenType> {
    if c == '{' {
        Some(TokenType::BeginObject)
    } else if c == '}' {
        Some(TokenType::EndObject)
    } else if c == '[' {
        Some(TokenType::BeginArray)
    } else if c == ']' {
        Some(TokenType::EndArray)
    } else if c == ':' {
        Some(TokenType::Colon)
    } else if c == ',' {
        Some(TokenType::Comma)
    } else {
        None
    }
}

/// Reading the keyword `kw` at `cur`.
pub open spec fn keyword_lexed(text: Seq<char>, cur: InputPosition, kw: Seq<char>, tt: TokenType) -> (
    Lexed,
    InputPosition,
    InputPosition,
    bool,
) {
    let m = common_len(text.skip(cur.index as int), kw);
    let end = along(cur, m);
    if m == kw.len() {
        (Lexed::Token(tt, kw, cur), end, cur, true)
    } else {
        (
            Lexed::Failed(
                if cur.index + m == text.len() {
                    "Unexpected end of input while processing keyword"@
                } else {
                    "Unexpected keyword"@
                },
                end,
            ),
            end,
            cur,
            true,
        )
    }
}

/// Reading a number at `cur`.
pub open spec fn number_lexed(text: Seq<char>, cur: InputPosition) -> (
    Lexed,
    InputPosition,
    InputPosition,
    bool,
) {
    let i = cur.index as int;
    let run = number_run(NumberPhase::Beginning, text.skip(i));
    let end = along(cur, run.0);
    if number_complete(run.1) {
        (Lexed::Token(TokenType::Number, text.subrange(i, i + run.0), cur), end, cur, true)
    } else {
        (
            Lexed::Failed(
                if i + run.0 == text.len() {
                    "Unexpected end of input while processing number"@
                } else {
                    "Bad character while processing number"@
                },
                end,
            ),
            end,
            cur,
            true,
        )
    }
}

/// Reading a string at `cur`.
pub open spec fn string_lexed(text: Seq<char>, cur: InputPosition) -> (
    Lexed,
    InputPosition,
    InputPosition,
    bool,
) {
    let i = cur.index as int;
    match string_scan(false, 0, text.skip(i + 1)) {
        StringScan::Closed(n) => (
            Lexed::Token(TokenType::String, text.subrange(i, i + 1 + n), cur),
            along(cur, n + 1),
            cur,
            true,
        ),
        StringScan::Failed(k, m) => (Lexed::Failed(m, along(cur, k + 1)), along(cur, k + 1), cur, true),
    }
}

/// Reading a comment at `cur`.
pub open spec fn comment_lexed(text: Seq<char>, cur: InputPosition) -> (
    Lexed,
    InputPosition,
    InputPosition,
    bool,
) {
    let i = cur.index as int;
    if !(i + 1 < text.len() && (text[i + 1] == '*' || text[i + 1] == '/')) {
        (Lexed::Failed("Bad character for start of comment"@, along(cur, 1)), along(cur, 1), cur, true)
    } else {
        match comment_scan(text[i + 1] == '*', false, text.skip(i + 2)) {
            CommentScan::Line(n) => {
                let end = advance_over(cur, text.subrange(i, i + 2 + n));
                (
                    Lexed::Token(TokenType::LineComment, trim_end_ws(text.subrange(i, i + 2 + n)), cur),
                    end,
                    cur,
                    text[end.index - 1] != '\n',
                )
            },
            CommentScan::Block(n) => {
                let end = advance_over(cur, text.subrange(i, i + 2 + n));
                (
                    Lexed::Token(TokenType::BlockComment, text.subrange(i, i + 2 + n), cur),
                    end,
                    cur,
                    text[end.index - 1] != '\n',
                )
            },
            CommentScan::Unclosed(n) => {
                let end = advance_over(cur, text.skip(i));
                (
                    Lexed::Failed("Unexpected end of input while processing comment"@, end),
                    end,
                    cur,
                    text[end.index - 1] != '\n',
                )
            },
        }
    }
}

/// Reading the token that starts at `cur` (a character other than
/// whitespace).
pub open spec fn token_lexed(text: Seq<char>, cur: InputPosition, tok: InputPosition, nwsl: bool) -> (
    Lexed,
    InputPosition,
    InputPosition,
    bool,
) {
    let c = text[cur.index as int];
    if single_char_type(c) is Some {
        (Lexed::Token(single_char_type(c)->0, seq![c], cur), along(cur, 1), cur, true)
    } else if c == 't' {
        keyword_lexed(text, cur, "true"@, TokenType::True)
    } else if c == 'f' {
        keyword_lexed(text, cur, "false"@, TokenType::False)
    } else if c == 'n' {
        keyword_lexed(text, cur, "null"@, TokenType::Null)
    } else if c == '/' {
        comment_lexed(text, cur)
    } else if c == '"' {
        string_lexed(text, cur)
    } else if c == '-' || spec_is_digit(c) {
        number_lexed(text, cur)
    } else {
        (Lexed::Failed("Unexpected character"@, cur), cur, tok, nwsl)
    }
}

/// One step of tokenizing `text` from the position `cur`, with the current
/// token started at `tok` and `nwsl` telling whether something other than
/// whitespace was seen on the current line: spaces, tabs and carriage
/// returns are skipped, a line feed gives a blank-line token when nothing
/// else was seen on its line and is skipped otherwise. Gives what was read
/// and the new `cur`, `tok` and `nwsl`.
pub open spec fn lex(text: Seq<char>, cur: InputPosition, tok: InputPosition, nwsl: bool) -> (
    Lexed,
    InputPosition,
    InputPosition,
    bool,
)
    decreases text.len() - cur.index,
    when text.len() <= MAX_DOC_SIZE
{
    if cur.index >= text.len() {
        (Lexed::End, cur, tok, nwsl)
    } else {
        let c = text[cur.index as int];
        if c == ' ' || c == '\t' || c == '\r' {
            lex(text, along(cur, 1), tok, nwsl)
        } else if c == '\n' {
            let next = InputPosition {
                index: (cur.index + 1) as usize,
                row: (cur.row + 1) as usize,
                column: 0,
            };
            if !nwsl {
                (Lexed::Token(TokenType::BlankLine, seq!['\n'], tok), next, next, false)
            } else {
                lex(text, next, next, false)
            }
        } else {
            token_lexed(text, cur, tok, nwsl)
        }
    }
}

/// A comment scan takes no more than it is given.
pub proof fn lemma_comment_scan_len(block: bool, star: bool, s: Seq<char>)
    ensures
        match comment_scan(block, star, s) {
            CommentScan::Line(n) => n <= s.len(),
            CommentScan::Block(n) => n <= s.len(),
            CommentScan::Unclosed(n) => n == s.len(),
        },
    decreases s.len(),
{
    if s.len() > 0 {
        let c = s[0];
        if !(c == '\n' && !block) && !(c == '/' && star) {
            lemma_comment_scan_len(block, if c == '\n' { false } else { c == '*' }, s.drop_first());
        }
    }
}

/// Reading `s` never goes back a row, and reading a line feed goes on to a
/// later row.
pub proof fn lemma_advance_rows(p: InputPosition, s: Seq<char>)
    requires
        p.row + s.len() <= MAX_DOC_SIZE,
    ensures
        p.row <= advance_over(p, s).row <= p.row + s.len(),
        s.contains('\n') ==> p.row < advance_over(p, s).row,
    decreases s.len(),
{
    if s.len() > 0 {
        let d = s.drop_last();
        lemma_advance_rows(p, d);
        if s.contains('\n') && s.last() != '\n' {
            let k = choose|k: int| 0 <= k < s.len() && s[k] == '\n';
            assert(k < s.len() - 1);
            assert(d[k] == '\n');
        }
    }
}

/// A step of tokenizing never goes back a row; a comment token starts on a
/// row no earlier than where the step began, and one that holds a line
/// feed ends on a later row than it starts.
pub proof fn lemma_lex_rows(text: Seq<char>, cur: InputPosition, tok: InputPosition, nwsl: bool)
    requires
        text.len() <= MAX_DOC_SIZE,
        cur.index <= text.len(),
        position_ok(cur),
    ensures
        lex(text, cur, tok, nwsl).1.row >= cur.row,
        lex(text, cur, tok, nwsl).0 matches Lexed::Token(tt, s, p) ==> tt != TokenType::BlankLine
            ==> cur.row <= p.row <= lex(text, cur, tok, nwsl).1.row,
        lex(text, cur, tok, nwsl).0 matches Lexed::Token(tt, s, p) ==> (tt
            == TokenType::BlockComment || tt == TokenType::LineComment) ==> (s.contains('\n')
            ==> p.row < lex(text, cur, tok, nwsl).1.row),
    decreases text.len() - cur.index,
{
    if cur.index < text.len() {
        let c = text[cur.index as int];
        if c == ' ' || c == '\t' || c == '\r' {
            lemma_lex_rows(text, along(cur, 1), tok, nwsl);
        } else if c == '\n' {
            let next = InputPosition {
                index: (cur.index + 1) as usize,
                row: (cur.row + 1) as usize,
                column: 0,
            };
            if nwsl {
                lemma_lex_rows(text, next, next, false);
            }
        } else if c == '/' {
            let i = cur.index as int;
            if i + 1 < text.len() && (text[i + 1] == '*' || text[i + 1] == '/') {
                lemma_comment_scan_len(text[i + 1] == '*', false, text.skip(i + 2));
                match comment_scan(text[i + 1] == '*', false, text.skip(i + 2)) {
                    CommentScan::Line(n) => {
                        let body = text.subrange(i, i + 2 + n);
                        lemma_advance_rows(cur, body);
                        crate::text::lemma_trim_end_ws(body);
                        let t = trim_end_ws(body);
                        if t.contains('\n') {
                            let k = choose|k: int| 0 <= k < t.len() && t[k] == '\n';
                            assert(body[k] == t[k]);
                        }
                    },
                    CommentScan::Block(n) => {
                        lemma_advance_rows(cur, text.subrange(i, i + 2 + n));
                    },
                    CommentScan::Unclosed(n) => {
                        lemma_advance_rows(cur, text.skip(i));
                    },
                }
            }
        }
    }
}

/// A token as the specification sees it: its type, text and position.
pub open spec fn token_view(t: JsonToken) -> (TokenType, Seq<char>, InputPosition) {
    (t.token_type, t.text@, t.input_position)
}

/// The tokens of `text` from the scan state (`cur`, `tok`, `nwsl`) on, in
/// at most `fuel` steps, or the message and position of the first error;
/// positions are reported by byte offset.
pub open spec fn lex_all(
    text: Seq<char>,
    cur: InputPosition,
    tok: InputPosition,
    nwsl: bool,
    fuel: nat,
) -> Result<Seq<(TokenType, Seq<char>, InputPosition)>, (Seq<char>, InputPosition)>
    decreases fuel,
{
    if fuel == 0 {
        Ok(Seq::empty())
    } else {
        let l = lex(text, cur, tok, nwsl);
        match l.0 {
            Lexed::End => Ok(Seq::empty()),
            Lexed::Token(tt, s, p) => match lex_all(text, l.1, l.2, l.3, (fuel - 1) as nat) {
                Ok(rest) => Ok(seq![(tt, s, byte_pos(text, p))] + rest),
                Err(x) => Err(x),
            },
            Lexed::Failed(m, p) => Err((m, byte_pos(text, p))),
        }
    }
}

/// `r` with the tokens `ts` put in front.
pub open spec fn after_tokens(
    ts: Seq<(TokenType, Seq<char>, InputPosition)>,
    r: Result<Seq<(TokenType, Seq<char>, InputPosition)>, (Seq<char>, InputPosition)>,
) -> Result<Seq<(TokenType, Seq<char>, InputPosition)>, (Seq<char>, InputPosition)> {
    match r {
        Ok(rest) => Ok(ts + rest),
        Err(x) => Err(x),
    }
}

impl TokenGenerator {
    /// The characters being tokenized.
    pub closed spec fn text(&self) -> Seq<char> {
        self.state.text()
    }

    /// How many characters are left to scan.
    pub closed spec fn remaining(&self) -> nat {
        (self.state.text().len() - self.state.scan_pos.index) as nat
    }

    pub closed spec fn wf(&self) -> bool {
        self.state.wf()
    }

    /// Where scanning stands.
    pub closed spec fn pos(&self) -> InputPosition {
        self.state.cur()
    }

    /// Scanning stands inside a text the scanner can read.
    pub proof fn lemma_wf_pos(&self)
        requires
            self.wf(),
        ensures
            position_ok(self.pos()),
            self.pos().index <= self.text().len(),
            self.text().len() <= MAX_DOC_SIZE,
            utf8_len(self.text()) <= MAX_DOC_SIZE,
    {
    }

    /// With nothing left to scan, tokenizing ends.
    pub proof fn lemma_at_end(&self)
        requires
            self.wf(),
            self.remaining() == 0,
        ensures
            lex(self.text(), self.pos(), self.tok_pos(), self.nwsl()).0 is End,
    {
    }

    /// Where the current token started.
    pub closed spec fn tok_pos(&self) -> InputPosition {
        self.state.tok()
    }

    /// Something other than whitespace was seen on the current line.
    pub closed spec fn nwsl(&self) -> bool {
        self.state.nwsl()
    }

    /// A generator at the start of `input_json`, which must not be longer
    /// than the scanner reads.
    pub fn new(input_json: &str) -> (r: Self)
        requires
            utf8_len(input_json@) <= MAX_DOC_SIZE,
        ensures
            r.wf(),
            r.text() == input_json@,
            r.remaining() == input_json@.len(),
            r.pos() == (InputPosition { index: 0, row: 0, column: 0 }),
            r.tok_pos() == (InputPosition { index: 0, row: 0, column: 0 }),
            !r.nwsl(),
    {
        TokenGenerator { state: ScannerState::new(input_json) }
    }

    /// The next token, an error, or `None` at the end of the input: one
    /// step of `lex`.
    pub fn next(&mut self) -> (r: Option<Result<JsonToken, FracturedJsonError>>)
        requires
            old(self).wf(),
        ensures
            final(self).wf(),
            final(self).text() == old(self).text(),
            final(self).remaining() <= old(self).remaining(),
            r matches Some(Ok(_)) ==> final(self).remaining() < old(self).remaining(),
            r matches Some(Ok(t)) ==> token_in_text(t, old(self).text()),
            r matches Some(Err(e)) ==> e.input_position is Some,
            r is None ==> final(self).remaining() == 0,
            ({
                let l = lex(old(self).text(), old(self).pos(), old(self).tok_pos(), old(self).nwsl());
                &&& final(self).pos() == l.1
                &&& final(self).tok_pos() == l.2
                &&& final(self).nwsl() == l.3
                &&& match l.0 {
                    Lexed::End => r is None,
                    Lexed::Token(tt, text, p) => r matches Some(Ok(t)) && t.token_type == tt
                        && t.text@ == text && t.input_position == byte_pos(old(self).text(), p),
                    Lexed::Failed(m, p) => r matches Some(Err(e)) && e.message@
                        == crate::error::error_message(m, Some(byte_pos(old(self).text(), p)))
                        && e.input_position == Some(byte_pos(old(self).text(), p)),
                }
            }),
    {
        loop
            invariant
                self.wf(),
                self.text() == old(self).text(),
                self.remaining() <= old(self).remaining(),
                lex(old(self).text(), old(self).pos(), old(self).tok_pos(), old(self).nwsl()) == lex(
                    self.text(),
                    self.pos(),
                    self.tok_pos(),
                    self.nwsl(),
                ),
            decreases self.remaining(),
        {
            if self.state.at_end() {
                return None;
            }
            let ch = self.state.current().unwrap();
            if ch == ' ' || ch == '\t' || ch == '\r' {
                self.state.advance(true);
            } else if ch == '\n' {
                let ghost tk = self.state.tok();
                proof {
                    lemma_byte_pos_ok(self.text(), tk);
                }
                let token = if !self.state.non_whitespace_since_last_newline {
                    Some(self.state.make_token(TokenType::BlankLine, "\n"))
                } else {
                    None
                };
                self.state.new_line();
                self.state.set_token_start();
                if let Some(token) = token {
                    proof {
                        reveal_strlit("\n");
                        assert("\n"@ =~= seq!['\n']);
                        assert(token_at(token, old(self).text(), tk.index as int));
                    }
                    return Some(Ok(token));
                }
            } else {
                return Some(scan_token(&mut self.state));
            }
        }
    }

    /// All the tokens of the text from where the generator stands, or the
    /// first error: `lex_all`, with a step for each character left (each
    /// token takes at least one).
    pub fn collect_tokens(self) -> (r: Result<Vec<JsonToken>, FracturedJsonError>)
        requires
            self.wf(),
        ensures
            r matches Ok(v) ==> forall|i: int|
                0 <= i < v@.len() ==> token_in_text(#[trigger] v@[i], self.text()),
            ({
                let all = lex_all(
                    self.text(),
                    self.pos(),
                    self.tok_pos(),
                    self.nwsl(),
                    self.remaining() + 1,
                );
                &&& (r is Ok <==> all is Ok)
                &&& r matches Ok(v) ==> all == Ok::<
                    Seq<(TokenType, Seq<char>, InputPosition)>,
                    (Seq<char>, InputPosition),
                >(v@.map_values(|t: JsonToken| token_view(t)))
                &&& r matches Err(e) ==> all matches Err((m, p)) && e.message@
                    == crate::error::error_message(m, Some(p)) && e.input_position == Some(p)
            }),
    {
        let mut gen = self;
        let mut tokens: Vec<JsonToken> = Vec::new();
        let ghost all = lex_all(
            self.text(),
            self.pos(),
            self.tok_pos(),
            self.nwsl(),
            self.remaining() + 1,
        );
        loop
            invariant
                gen.wf(),
                gen.text() == self.text(),
                forall|i: int| 0 <= i < tokens@.len() ==> token_in_text(#[trigger] tokens@[i], self.text()),
                all == lex_all(self.text(), self.pos(), self.tok_pos(), self.nwsl(), self.remaining() + 1),
                tokens@.len() + gen.remaining() <= self.remaining(),
                all == after_tokens(
                    tokens@.map_values(|t: JsonToken| token_view(t)),
                    lex_all(
                        gen.text(),
                        gen.pos(),
                        gen.tok_pos(),
                        gen.nwsl(),
                        (self.remaining() + 1 - tokens@.len()) as nat,
                    ),
                ),
            decreases gen.remaining(),
        {
            let ghost before = gen;
            let ghost fuel = (self.remaining() + 1 - tokens@.len()) as nat;
            let ghost seen = tokens@.map_values(|t: JsonToken| token_view(t));
            match gen.next() {
                None => {
                    proof {
                        assert(seen + Seq::empty() =~= seen);
                    }
                    return Ok(tokens);
                },
                Some(Ok(t)) => {
                    tokens.push(t);
                    proof {
                        let l = lex(before.text(), before.pos(), before.tok_pos(), before.nwsl());
                        let rest = lex_all(gen.text(), gen.pos(), gen.tok_pos(), gen.nwsl(), (fuel - 1) as nat);
                        assert(tokens@.map_values(|t: JsonToken| token_view(t)) =~= seen.push(token_view(t)));
                        match rest {
                            Ok(more) => {
                                assert(seen + (seq![token_view(t)] + more) =~= seen.push(token_view(t)) + more);
                            },
                            Err(_) => {},
                        }
                    }
                },
                Some(Err(e)) => {
                    return Err(e);
                },
            }
        }
    }
}

/// A token's text is what the input holds where the token starts; a line
/// comment's is trimmed of trailing whitespace, and a blank line's is a line
/// break.
pub open spec fn token_in_text(t: JsonToken, text: Seq<char>) -> bool {
    exists|start: int| #[trigger] token_at(t, text, start)
}

/// The token `t` starts at character `start` of `text`: its position is
/// that character's, reported by byte offset, and its text is what the
/// input holds there (see `token_in_text`).
pub open spec fn token_at(t: JsonToken, text: Seq<char>, start: int) -> bool {
    &&& 0 <= start < text.len()
    &&& t.input_position == byte_pos(
        text,
        InputPosition {
            index: start as usize,
            row: t.input_position.row,
            column: t.input_position.column,
        },
    )
    &&& position_ok(t.input_position)
    &&& match t.token_type {
        TokenType::BlankLine => t.text@ == seq!['\n'],
        _ => start + t.text@.len() <= text.len() && t.text@ == text.subrange(
            start,
            start + t.text@.len(),
        ) && t.text@.len() > 0,
    }
    &&& token_shape(t.token_type, t.text@)
    &&& t.token_type == TokenType::LineComment ==> !crate::text::ends_in_ws(t.text@)
}

/// What the text of each kind of token looks like.
pub open spec fn token_shape(tt: TokenType, s: Seq<char>) -> bool {
    match tt {
        TokenType::BeginArray => s == seq!['['],
        TokenType::EndArray => s == seq![']'],
        TokenType::BeginObject => s == seq!['{'],
        TokenType::EndObject => s == seq!['}'],
        TokenType::Colon => s == seq![':'],
        TokenType::Comma => s == seq![','],
        TokenType::True => s == seq!['t', 'r', 'u', 'e'],
        TokenType::False => s == seq!['f', 'a', 'l', 's', 'e'],
        TokenType::Null => s == seq!['n', 'u', 'l', 'l'],
        TokenType::BlankLine => s == seq!['\n'],
        TokenType::LineComment => s.len() >= 2 && s[0] == '/' && s[1] == '/' && !s.contains('\n'),
        TokenType::BlockComment => s.len() >= 4 && s[0] == '/' && (s[1] == '*' || s[1] == '/')
            && s[s.len() - 2] == '*' && s[s.len() - 1] == '/',
        TokenType::String => s.len() >= 2 && s[0] == '"' && s[s.len() - 1] == '"' && !s.contains(
            '\n',
        ),
        TokenType::Number => s.len() >= 1 && !s.contains('\n'),
    }
}

/// The state of a scan that has just produced a token from `old`.
spec fn scanned_token(old: ScannerState, new: ScannerState, t: JsonToken) -> bool {
    &&& new.wf()
    &&& new.text() == old.text()
    &&& old.scan_pos.index < new.scan_pos.index
    &&& t.input_position == byte_pos(old.text(), old.scan_pos)
    &&& token_at(t, old.text(), old.scan_pos.index as int)
}

/// The state of a scan that has stopped on an error.
spec fn scan_failed(old: ScannerState, new: ScannerState, e: FracturedJsonError) -> bool {
    &&& new.wf()
    &&& new.text() == old.text()
    &&& old.scan_pos.index < new.scan_pos.index
    &&& e.input_position is Some
}

/// Scanning may start a token at the current character.
spec fn ready(s: ScannerState) -> bool {
    s.wf() && s.scan_pos.index < s.text().len()
}

fn process_single_char(state: &mut ScannerState, token_type: TokenType) -> (r: Result<
    JsonToken,
    FracturedJsonError,
>)
    requires
        ready(*old(state)),
        token_shape(
            token_type,
            seq![old(state).text()[old(state).scan_pos.index as int]],
        ),
    ensures
        r matches Ok(t) ==> scanned_token(*old(state), *final(state), t),
        r matches Ok(t) ==> t.token_type == token_type && t.text@ == seq![
            old(state).text()[old(state).cur().index as int],
        ],
        r is Ok,
        final(state).cur() == along(old(state).cur(), 1),
        final(state).tok() == old(state).cur(),
        final(state).nwsl(),
{
    state.set_token_start();
    state.advance(false);
    let token = state.make_token_from_buffer(token_type, false);
    proof {
        let start = old(state).scan_pos.index as int;
        assert(old(state).text().subrange(start, start + 1) =~= seq![
            old(state).text()[start],
        ]);
    }
    Ok(token)
}

/// How many characters `a` and `b` share at their start.
pub open spec fn common_len(a: Seq<char>, b: Seq<char>) -> nat
    decreases a.len(),
{
    if a.len() == 0 || b.len() == 0 || a[0] != b[0] {
        0
    } else {
        1 + common_len(a.drop_first(), b.drop_first())
    }
}

/// `a` and `b` share exactly their first `k` characters.
proof fn lemma_common_len(a: Seq<char>, b: Seq<char>, k: nat)
    requires
        k <= a.len(),
        k <= b.len(),
        a.take(k as int) == b.take(k as int),
        k == a.len() || k == b.len() || a[k as int] != b[k as int],
    ensures
        common_len(a, b) == k,
    decreases k,
{
    if k > 0 {
        assert(a[0] == a.take(k as int)[0]);
        assert(b[0] == b.take(k as int)[0]);
        assert(a.drop_first().take(k - 1) =~= a.take(k as int).drop_first());
        assert(b.drop_first().take(k - 1) =~= b.take(k as int).drop_first());
        if k < a.len() && k < b.len() {
            assert(a.drop_first()[k - 1] == a[k as int]);
            assert(b.drop_first()[k - 1] == b[k as int]);
        }
        lemma_common_len(a.drop_first(), b.drop_first(), (k - 1) as nat);
    } else {
        if a.len() > 0 && b.len() > 0 {
            assert(a[0] != b[0]);
        }
    }
}

fn process_keyword(state: &mut ScannerState, keyword: &str, token_type: TokenType) -> (r: Result<
    JsonToken,
    FracturedJsonError,
>)
    requires
        ready(*old(state)),
        keyword@.len() >= 1,
        token_type == TokenType::True || token_type == TokenType::False || token_type
            == TokenType::Null,
        keyword@[0] == old(state).text()[old(state).scan_pos.index as int],
        token_shape(token_type, keyword@),
    ensures
        r matches Ok(t) ==> scanned_token(*old(state), *final(state), t),
        r matches Err(e) ==> scan_failed(*old(state), *final(state), e),
        r matches Err(e) ==> e.input_position == Some(byte_pos(final(state).text(), final(state).cur())),
        ({
            let m = common_len(old(state).text().skip(old(state).cur().index as int), keyword@);
            &&& (r is Ok <==> m == keyword@.len())
            &&& final(state).cur() == along(old(state).cur(), m)
            &&& final(state).tok() == old(state).cur()
            &&& final(state).nwsl()
            &&& r matches Ok(t) ==> t.token_type == token_type && t.text@ == keyword@
            &&& r matches Err(e) ==> e.message@ == crate::error::error_message(
                (if old(state).cur().index + m == old(state).text().len() {
                    "Unexpected end of input while processing keyword"@
                } else {
                    "Unexpected keyword"@
                }),
                Some(byte_pos(old(state).text(), along(old(state).cur(), m))),
            )
        }),
{
    state.set_token_start();
    let kw = chars_of(keyword);
    let start = state.scan_pos.index;
    let ghost start_pos = state.scan_pos;
    let ghost rest = state.text().skip(start as int);
    let mut k: usize = 1;
    while k < kw.len()
        invariant
            state.wf(),
            state.text() == old(state).text(),
            state.scan_tok == old(state).scan_pos,
            start == old(state).scan_pos.index,
            kw@ == keyword@,
            1 <= k <= kw@.len(),
            state.scan_pos.index == start + k - 1,
            start + k - 1 < state.text().len(),
            state.text().subrange(start as int, start + k) == kw@.take(k as int),
            start_pos == old(state).scan_pos,
            rest == state.text().skip(start as int),
            state.cur() == along(start_pos, (k - 1) as nat),
            k > 1 ==> state.nwsl(),
        decreases kw@.len() - k,
    {
        state.advance(false);
        proof {
            assert(rest.take(k as int) =~= state.text().subrange(start as int, start + k));
        }
        if state.at_end() {
            proof {
                lemma_common_len(rest, kw@, k as nat);
            }
            return Err(state.error("Unexpected end of input while processing keyword"));
        }
        let current = state.current().unwrap();
        if current != kw[k] {
            proof {
                assert(rest[k as int] == state.text()[start + k]);
                lemma_common_len(rest, kw@, k as nat);
            }
            return Err(state.error("Unexpected keyword"));
        }
        assert(state.text().subrange(start as int, start + k + 1) =~= kw@.take(k + 1));
        k += 1;
    }
    let token = state.make_token(token_type, keyword);
    state.advance(false);
    assert(kw@.take(kw@.len() as int) =~= kw@);
    proof {
        assert(rest.take(kw@.len() as int) =~= state.text().subrange(start as int, start + kw@.len()));
        lemma_common_len(rest, kw@, kw@.len());
    }
    assert(token.text@ == old(state).text().subrange(start as int, start + token.text@.len()));
    Ok(token)
}

/// The position after reading `s` from `p`: a line feed starts a new row.
pub open spec fn advance_over(p: InputPosition, s: Seq<char>) -> InputPosition
    decreases s.len(),
{
    if s.len() == 0 {
        p
    } else {
        let q = advance_over(p, s.drop_last());
        if s.last() == '\n' {
            InputPosition { index: (q.index + 1) as usize, row: (q.row + 1) as usize, column: 0 }
        } else {
            InputPosition {
                index: (q.index + 1) as usize,
                row: q.row,
                column: (q.column + 1) as usize,
            }
        }
    }
}

/// How a scan of a comment ends, counted in characters after its two
/// opening ones: a line comment ends at a line feed (taken) or at the end
/// of the input; any comment ends as a block comment right after `*/`; a
/// block comment that meets the end of the input first is unclosed.
pub enum CommentScan {
    Line(nat),
    Block(nat),
    Unclosed(nat),
}

/// The same end, `k` characters further on.
pub open spec fn comment_later(k: nat, r: CommentScan) -> CommentScan {
    match r {
        CommentScan::Line(n) => CommentScan::Line(n + k),
        CommentScan::Block(n) => CommentScan::Block(n + k),
        CommentScan::Unclosed(n) => CommentScan::Unclosed(n + k),
    }
}

/// How a comment scan goes through `s`, in a block comment when `block`
/// holds, just after a `*` when `star` holds.
pub open spec fn comment_scan(block: bool, star: bool, s: Seq<char>) -> CommentScan
    decreases s.len(),
{
    if s.len() == 0 {
        if block {
            CommentScan::Unclosed(0)
        } else {
            CommentScan::Line(0)
        }
    } else {
        let c = s[0];
        if c == '\n' {
            if block {
                comment_later(1, comment_scan(block, false, s.drop_first()))
            } else {
                CommentScan::Line(1)
            }
        } else if c == '/' && star {
            CommentScan::Block(1)
        } else {
            comment_later(1, comment_scan(block, c == '*', s.drop_first()))
        }
    }
}

/// Each of `{ } [ ] : ,` is read as a one-character token of its own kind.
pub proof fn punctuation_read_as_tokens(
    text: Seq<char>,
    cur: InputPosition,
    tok: InputPosition,
    nwsl: bool,
)
    requires
        text.len() <= MAX_DOC_SIZE,
        cur.index < text.len(),
    ensures
        ({
            let c = text[cur.index as int];
            let l = lex(text, cur, tok, nwsl);
            &&& c == '{' ==> l.0 == Lexed::Token(TokenType::BeginObject, seq!['{'], cur)
            &&& c == '}' ==> l.0 == Lexed::Token(TokenType::EndObject, seq!['}'], cur)
            &&& c == '[' ==> l.0 == Lexed::Token(TokenType::BeginArray, seq!['['], cur)
            &&& c == ']' ==> l.0 == Lexed::Token(TokenType::EndArray, seq![']'], cur)
            &&& c == ':' ==> l.0 == Lexed::Token(TokenType::Colon, seq![':'], cur)
            &&& c == ',' ==> l.0 == Lexed::Token(TokenType::Comma, seq![','], cur)
            &&& (c == '{' || c == '}' || c == '[' || c == ']' || c == ':' || c == ',') ==> l.1
                == along(cur, 1)
        }),
{
}

/// The words `true`, `false` and `null` are read as tokens of their own
/// kinds.
pub proof fn keywords_read_as_tokens(
    text: Seq<char>,
    cur: InputPosition,
    tok: InputPosition,
    nwsl: bool,
    kw: Seq<char>,
)
    requires
        text.len() <= MAX_DOC_SIZE,
        kw == seq!['t', 'r', 'u', 'e'] || kw == seq!['f', 'a', 'l', 's', 'e'] || kw == seq![
            'n',
            'u',
            'l',
            'l',
        ],
        cur.index + kw.len() <= text.len(),
        text.subrange(cur.index as int, cur.index + kw.len()) == kw,
    ensures
        lex(text, cur, tok, nwsl).0 == Lexed::Token(
            if kw[0] == 't' {
                TokenType::True
            } else if kw[0] == 'f' {
                TokenType::False
            } else {
                TokenType::Null
            },
            kw,
            cur,
        ),
        lex(text, cur, tok, nwsl).1 == along(cur, kw.len()),
{
    let i = cur.index as int;
    let a = text.skip(i);
    assert(text[i] == kw[0]);
    assert(a.take(kw.len() as int) =~= kw.take(kw.len() as int));
    lemma_common_len(a, kw, kw.len());
    assert("true"@ =~= seq!['t', 'r', 'u', 'e']) by {
        reveal_strlit("true");
    }
    assert("false"@ =~= seq!['f', 'a', 'l', 's', 'e']) by {
        reveal_strlit("false");
    }
    assert("null"@ =~= seq!['n', 'u', 'l', 'l']) by {
        reveal_strlit("null");
    }
}

/// `c` has no `*` just before a `/`.
pub open spec fn no_comment_close(c: Seq<char>) -> bool {
    forall|j: int| 0 < j < c.len() ==> !(c[j - 1] == '*' && #[trigger] c[j] == '/')
}

/// A line comment scan runs to the end of the line.
proof fn lemma_line_comment_scan(star: bool, c: Seq<char>, rest: Seq<char>)
    requires
        !c.contains('\n'),
        no_comment_close(c),
        star ==> c.len() == 0 || c[0] != '/',
        rest.len() == 0 || rest[0] == '\n',
    ensures
        comment_scan(false, star, c + rest) == CommentScan::Line(
            c.len() + if rest.len() == 0 {
                0nat
            } else {
                1nat
            },
        ),
    decreases c.len(),
{
    let x = c + rest;
    if c.len() == 0 {
        assert(x =~= rest);
    } else {
        assert(x[0] == c[0]);
        assert(c[0] != '\n');
        assert(x.drop_first() =~= c.drop_first() + rest);
        let d = c.drop_first();
        assert(!d.contains('\n')) by {
            if d.contains('\n') {
                let k = choose|k: int| 0 <= k < d.len() && d[k] == '\n';
                assert(c[k + 1] == '\n');
            }
        }
        assert forall|j: int| 0 < j < d.len() implies !(d[j - 1] == '*' && #[trigger] d[j]
            == '/') by {
            assert(d[j] == c[j + 1] && d[j - 1] == c[j]);
        }
        if c[0] == '*' && d.len() > 0 {
            assert(d[0] == c[1]);
        }
        lemma_line_comment_scan(c[0] == '*', d, rest);
    }
}

/// A block comment scan runs to the first `*/`.
proof fn lemma_block_comment_scan(star: bool, c: Seq<char>, rest: Seq<char>)
    requires
        no_comment_close(c),
        star ==> c.len() == 0 || c[0] != '/',
    ensures
        comment_scan(true, star, c + seq!['*', '/'] + rest) == CommentScan::Block(c.len() + 2),
    decreases c.len(),
{
    let x = c + seq!['*', '/'] + rest;
    if c.len() == 0 {
        assert(x[0] == '*');
        assert(x.drop_first()[0] == '/');
        assert(comment_scan(true, true, x.drop_first()) == CommentScan::Block(1));
    } else {
        let d = c.drop_first();
        assert(x[0] == c[0]);
        assert(x.drop_first() =~= d + seq!['*', '/'] + rest);
        assert forall|j: int| 0 < j < d.len() implies !(d[j - 1] == '*' && #[trigger] d[j]
            == '/') by {
            assert(d[j] == c[j + 1] && d[j - 1] == c[j]);
        }
        if c[0] == '*' && d.len() > 0 {
            assert(d[0] == c[1]);
        }
        lemma_block_comment_scan(c[0] == '*', d, rest);
    }
}

/// `//` and the rest of its line is read as a line comment, with trailing
/// whitespace trimmed; `/*` up to the first `*/` is read as a block
/// comment, whole.
pub proof fn comments_read_as_tokens(
    text: Seq<char>,
    cur: InputPosition,
    tok: InputPosition,
    nwsl: bool,
    c: Seq<char>,
    block: bool,
)
    requires
        text.len() <= MAX_DOC_SIZE,
        no_comment_close(c),
        cur.index + 2 + c.len() <= text.len(),
        text[cur.index as int] == '/',
        text[cur.index + 1] == if block {
            '*'
        } else {
            '/'
        },
        text.subrange(cur.index + 2, cur.index + 2 + c.len()) == c,
        !block ==> !c.contains('\n') && (cur.index + 2 + c.len() == text.len() || text[cur.index
            + 2 + c.len()] == '\n'),
        block ==> cur.index + 4 + c.len() <= text.len() && text[cur.index + 2 + c.len()] == '*'
            && text[cur.index + 3 + c.len()] == '/',
    ensures
        !block ==> lex(text, cur, tok, nwsl).0 == Lexed::Token(
            TokenType::LineComment,
            trim_end_ws(seq!['/', '/'] + c),
            cur,
        ),
        block ==> lex(text, cur, tok, nwsl).0 == Lexed::Token(
            TokenType::BlockComment,
            seq!['/', '*'] + c + seq!['*', '/'],
            cur,
        ),
{
    let i = cur.index as int;
    let n = c.len() as int;
    if block {
        let rest = text.skip(i + 4 + n);
        assert(text.skip(i + 2) =~= c + seq!['*', '/'] + rest);
        lemma_block_comment_scan(false, c, rest);
        assert(text.subrange(i, i + 2 + (n + 2)) =~= seq!['/', '*'] + c + seq!['*', '/']);
    } else {
        let rest = text.skip(i + 2 + n);
        assert(text.skip(i + 2) =~= c + rest);
        lemma_line_comment_scan(false, c, rest);
        let body = seq!['/', '/'] + c;
        if rest.len() == 0 {
            assert(text.subrange(i, i + 2 + n) =~= body);
        } else {
            assert(rest[0] == '\n');
            let t = text.subrange(i, i + 2 + n + 1);
            assert(t =~= body.push('\n'));
            assert(t.drop_last() =~= body);
            assert(is_ws(t.last()));
        }
    }
}

fn process_comment(state: &mut ScannerState) -> (r: Result<JsonToken, FracturedJsonError>)
    requires
        ready(*old(state)),
        old(state).text()[old(state).scan_pos.index as int] == '/',
    ensures
        r matches Ok(t) ==> scanned_token(*old(state), *final(state), t),
        r matches Err(e) ==> scan_failed(*old(state), *final(state), e),
        r matches Err(e) ==> e.input_position == Some(byte_pos(final(state).text(), final(state).cur())),
        ({
            let text = old(state).text();
            let start = old(state).cur().index as int;
            let opened = start + 1 < text.len() && (text[start + 1] == '*' || text[start + 1]
                == '/');
            let scan = comment_scan(text[start + 1] == '*', false, text.skip(start + 2));
            &&& final(state).tok() == old(state).cur()
            &&& final(state).nwsl() == (text[final(state).cur().index - 1] != '\n')
            &&& final(state).cur().index > start
            &&& !opened ==> (r matches Err(e) && e.message@ == crate::error::error_message(
                "Bad character for start of comment"@,
                Some(byte_pos(old(state).text(), along(old(state).cur(), 1))),
            )) && final(state).cur() == along(old(state).cur(), 1)
            &&& opened ==> match scan {
                CommentScan::Line(n) => {
                    &&& r matches Ok(t) && t.token_type == TokenType::LineComment && t.text@
                        == trim_end_ws(text.subrange(start, start + 2 + n))
                    &&& final(state).cur() == advance_over(old(state).cur(), text.subrange(start, start + 2 + n))
                },
                CommentScan::Block(n) => {
                    &&& r matches Ok(t) && t.token_type == TokenType::BlockComment && t.text@
                        == text.subrange(start, start + 2 + n)
                    &&& final(state).cur() == advance_over(old(state).cur(), text.subrange(start, start + 2 + n))
                },
                CommentScan::Unclosed(n) => {
                    &&& r matches Err(e) && e.message@ == crate::error::error_message(
                        "Unexpected end of input while processing comment"@,
                        Some(byte_pos(old(state).text(), advance_over(old(state).cur(), text.skip(start)))),
                    )
                    &&& final(state).cur() == advance_over(old(state).cur(), text.skip(start))
                },
            }
        }),
{
    state.set_token_start();
    let start = state.scan_pos.index;
    let ghost start_pos = state.scan_pos;
    let ghost text = state.text();
    state.advance(false);
    let is_block_comment = match state.current() {
        Some('*') => true,
        Some('/') => false,
        _ => {
            return Err(state.error("Bad character for start of comment"));
        },
    };
    state.advance(false);
    proof {
        reveal_with_fuel(advance_over, 3);
        let two = text.subrange(start as int, start + 2);
        assert(two.drop_last() =~= text.subrange(start as int, start + 1));
        assert(text.subrange(start as int, start + 1).drop_last() =~= Seq::<char>::empty());
        assert(two.last() == text[start + 1]);
        assert(text.subrange(start as int, start + 1).last() == text[start as int]);
        assert(advance_over(start_pos, text.subrange(start as int, start + 1)) == along(start_pos, 1));
        assert(comment_later(0, comment_scan(is_block_comment, false, text.skip(start + 2)))
            == comment_scan(is_block_comment, false, text.skip(start + 2)));
    }
    let mut last_char_was_asterisk = false;
    loop
        invariant
            state.wf(),
            state.text() == old(state).text(),
            state.scan_tok == old(state).scan_pos,
            start == old(state).scan_pos.index,
            start + 2 <= state.scan_pos.index,
            state.text()[start as int] == '/',
            state.text()[start + 1] == (if is_block_comment {
                '*'
            } else {
                '/'
            }),
            last_char_was_asterisk ==> state.scan_pos.index >= start + 3
                && state.text()[state.scan_pos.index - 1] == '*',
            !is_block_comment ==> forall|i: int|
                start <= i < state.scan_pos.index ==> state.text()[i] != '\n',
            text == state.text(),
            start_pos == old(state).scan_pos,
            state.nwsl() == (text[state.scan_pos.index - 1] != '\n'),
            state.cur() == advance_over(
                start_pos,
                text.subrange(start as int, state.scan_pos.index as int),
            ),
            comment_scan(is_block_comment, false, text.skip(start + 2)) == comment_later(
                (state.scan_pos.index - start - 2) as nat,
                comment_scan(
                    is_block_comment,
                    last_char_was_asterisk,
                    text.skip(state.scan_pos.index as int),
                ),
            ),
        decreases state.text().len() - state.scan_pos.index,
    {
        proof {
            let cur = state.scan_pos.index as int;
            if cur < text.len() {
                let rest = text.skip(cur);
                assert(rest[0] == text[cur]);
                assert(rest.drop_first() =~= text.skip(cur + 1));
                assert(text.subrange(start as int, cur + 1).drop_last() =~= text.subrange(
                    start as int,
                    cur,
                ));
            } else {
                assert(text.skip(cur).len() == 0);
                assert(text.subrange(start as int, cur) =~= text.skip(start as int));
            }
        }
        if state.at_end() {
            if is_block_comment {
                return Err(state.error("Unexpected end of input while processing comment"));
            }
            let t = state.make_token_from_buffer(TokenType::LineComment, true);
            proof {
                lemma_line_comment_shape(state.text(), start as int, state.scan_pos.index as int);
            }
            return Ok(t);
        }
        let ch = state.current().unwrap();
        if ch == '\n' {
            state.new_line();
            if !is_block_comment {
                let t = state.make_token_from_buffer(TokenType::LineComment, true);
                proof {
                    lemma_line_comment_shape(state.text(), start as int, state.scan_pos.index as int);
                }
                return Ok(t);
            }
            last_char_was_asterisk = false;
            continue;
        }
        state.advance(false);
        if ch == '/' && last_char_was_asterisk {
            let t = state.make_token_from_buffer(TokenType::BlockComment, false);
            proof {
                let end = state.scan_pos.index as int;
                let s = state.text().subrange(start as int, end);
                assert(s[0] == state.text()[start as int]);
                assert(s[1] == state.text()[start + 1]);
                assert(s[s.len() - 2] == state.text()[end - 2]);
                assert(s[s.len() - 1] == state.text()[end - 1]);
            }
            return Ok(t);
        }
        last_char_was_asterisk = ch == '*';
    }
}

/// A line comment's text, trimmed, still starts with its two slashes.
proof fn lemma_line_comment_shape(text: Seq<char>, start: int, end: int)
    requires
        0 <= start,
        start + 2 <= end <= text.len(),
        text[start] == '/',
        text[start + 1] == '/',
        forall|i: int| start <= i < end && text[i] == '\n' ==> i == end - 1,
    ensures
        !trim_end_ws(text.subrange(start, end)).contains('\n'),
        trim_end_ws(text.subrange(start, end)).len() >= 2,
        start + trim_end_ws(text.subrange(start, end)).len() <= text.len(),
        trim_end_ws(text.subrange(start, end)) == text.subrange(
            start,
            start + trim_end_ws(text.subrange(start, end)).len(),
        ),
        !crate::text::ends_in_ws(trim_end_ws(text.subrange(start, end))),
        trim_end_ws(text.subrange(start, end))[0] == '/',
        trim_end_ws(text.subrange(start, end))[1] == '/',
{
    crate::text::lemma_trim_end_ws(text.subrange(start, end));
    let s = text.subrange(start, end);
    let t = trim_end_ws(s);
    if t.len() < 2 {
        assert(crate::text::all_ws(s.skip(t.len() as int)));
        assert(s.skip(t.len() as int)[1 - t.len()] == s[1]);
        assert(!is_ws('/'));
    }
    assert(t[0] == s.take(t.len() as int)[0]);
    assert(t[1] == s.take(t.len() as int)[1]);
    if t.contains('\n') {
        let k = choose|k: int| 0 <= k < t.len() && t[k] == '\n';
        assert(t[k] == s[k]);
        assert(s[k] == text[start + k]);
        assert(is_ws(t[t.len() - 1]));
    }
    assert(s.take(t.len() as int) =~= text.subrange(start, start + t.len()));
}

/// How a scan of a string ends: closed after `n` characters past the
/// opening quote (the closing quote included), or failed at offset `k`
/// past the opening quote with a message.
pub enum StringScan {
    Closed(nat),
    Failed(nat, Seq<char>),
}

/// The same end, `k` characters further on.
pub open spec fn scan_later(k: nat, r: StringScan) -> StringScan {
    match r {
        StringScan::Closed(n) => StringScan::Closed(n + k),
        StringScan::Failed(j, m) => StringScan::Failed(j + k, m),
    }
}

/// How a string scan goes through `s`, after a backslash when `escape`
/// holds and with `hex` hex digits of a unicode escape still owed: a
/// control character, a bad escape or the end of the input fails it, and
/// an unescaped quote closes it.
pub open spec fn string_scan(escape: bool, hex: nat, s: Seq<char>) -> StringScan
    decreases s.len(),
{
    if s.len() == 0 {
        StringScan::Failed(0, "Unexpected end of input while processing string"@)
    } else {
        let c = s[0];
        if hex > 0 {
            if !spec_is_hex(c) {
                StringScan::Failed(0, "Bad unicode escape in string"@)
            } else {
                scan_later(1, string_scan(false, (hex - 1) as nat, s.drop_first()))
            }
        } else if escape {
            if !spec_is_legal_after_backslash(c) {
                StringScan::Failed(0, "Bad escaped character in string"@)
            } else {
                scan_later(
                    1,
                    string_scan(
                        false,
                        if c == 'u' {
                            4
                        } else {
                            0
                        },
                        s.drop_first(),
                    ),
                )
            }
        } else if spec_is_control(c) {
            StringScan::Failed(0, "Control characters are not allowed in strings"@)
        } else if c == '"' {
            StringScan::Closed(1)
        } else {
            scan_later(1, string_scan(c == '\\', 0, s.drop_first()))
        }
    }
}

/// A hex digit, as the JSON grammar has it.
pub open spec fn json_hex_digit(c: char) -> bool {
    ('0' <= c <= '9') || ('a' <= c <= 'f') || ('A' <= c <= 'F')
}

/// The characters the JSON grammar allows between the quotes of a string
/// (with the control characters this scanner refuses left out): any
/// character but a quote, a backslash or a control character; a backslash
/// followed by one of `" \ / b f n r t`; or a backslash, `u` and four hex
/// digits.
pub open spec fn json_string_chars(s: Seq<char>) -> bool
    decreases s.len(),
{
    if s.len() == 0 {
        true
    } else if s[0] == '\\' {
        if s.len() >= 2 && (s[1] == '"' || s[1] == '\\' || s[1] == '/' || s[1] == 'b' || s[1]
            == 'f' || s[1] == 'n' || s[1] == 'r' || s[1] == 't') {
            json_string_chars(s.skip(2))
        } else if s.len() >= 6 && s[1] == 'u' && json_hex_digit(s[2]) && json_hex_digit(s[3])
            && json_hex_digit(s[4]) && json_hex_digit(s[5]) {
            json_string_chars(s.skip(6))
        } else {
            false
        }
    } else {
        &&& s[0] != '"'
        &&& (s[0] as u32) >= 0x20
        &&& (s[0] as u32) != 0x7F
        &&& !(0x80 <= (s[0] as u32) <= 0x9F)
        &&& json_string_chars(s.skip(1))
    }
}

/// A string scan over characters and escapes the JSON grammar allows closes
/// at the first quote after them.
pub proof fn lemma_string_scan_closes(s: Seq<char>, rest: Seq<char>)
    requires
        json_string_chars(s),
    ensures
        string_scan(false, 0, s + seq!['"'] + rest) == StringScan::Closed(s.len() + 1),
    decreases s.len(),
{
    let x = s + seq!['"'] + rest;
    if s.len() == 0 {
        assert(x[0] == '"');
    } else if s[0] == '\\' {
        let x1 = x.drop_first();
        assert(x[0] == '\\');
        assert(x1[0] == s[1]);
        if s.len() >= 2 && (s[1] == '"' || s[1] == '\\' || s[1] == '/' || s[1] == 'b' || s[1]
            == 'f' || s[1] == 'n' || s[1] == 'r' || s[1] == 't') {
            assert(x1.drop_first() =~= s.skip(2) + seq!['"'] + rest);
            lemma_string_scan_closes(s.skip(2), rest);
            assert(string_scan(true, 0, x1) == StringScan::Closed(s.len()));
        } else {
            let x2 = x1.drop_first();
            let x3 = x2.drop_first();
            let x4 = x3.drop_first();
            let x5 = x4.drop_first();
            let x6 = x5.drop_first();
            assert(x2[0] == s[2]);
            assert(x3[0] == s[3]);
            assert(x4[0] == s[4]);
            assert(x5[0] == s[5]);
            assert(x6 =~= s.skip(6) + seq!['"'] + rest);
            lemma_string_scan_closes(s.skip(6), rest);
            assert(string_scan(false, 1, x5) == StringScan::Closed((s.len() - 4) as nat));
            assert(string_scan(false, 2, x4) == StringScan::Closed((s.len() - 3) as nat));
            assert(string_scan(false, 3, x3) == StringScan::Closed((s.len() - 2) as nat));
            assert(string_scan(false, 4, x2) == StringScan::Closed((s.len() - 1) as nat));
            assert(string_scan(true, 0, x1) == StringScan::Closed(s.len()));
        }
    } else {
        assert(x[0] == s[0]);
        assert(x.drop_first() =~= s.skip(1) + seq!['"'] + rest);
        lemma_string_scan_closes(s.skip(1), rest);
    }
}

/// Every escape the JSON grammar allows after a backslash (`\"`, `\\`,
/// `\/`, `\b`, `\f`, `\n`, `\r`, `\t`, and `\u` with four hex digits) is
/// accepted: a quote, characters and escapes the grammar allows, and a
/// closing quote are read as one String token holding exactly that text,
/// and scanning goes on after it.
pub proof fn json_escapes_read_as_string(
    text: Seq<char>,
    cur: InputPosition,
    tok: InputPosition,
    nwsl: bool,
    s: Seq<char>,
)
    requires
        text.len() <= MAX_DOC_SIZE,
        cur.index + s.len() + 2 <= text.len(),
        text[cur.index as int] == '"',
        text.subrange(cur.index + 1, cur.index + 1 + s.len()) == s,
        text[cur.index + 1 + s.len()] == '"',
        json_string_chars(s),
    ensures
        lex(text, cur, tok, nwsl).0 == Lexed::Token(
            TokenType::String,
            seq!['"'] + s + seq!['"'],
            cur,
        ),
        lex(text, cur, tok, nwsl).1 == along(cur, s.len() + 2),
{
    let i = cur.index as int;
    let rest = text.skip(i + 2 + s.len());
    assert(text.skip(i + 1) =~= s + seq!['"'] + rest);
    lemma_string_scan_closes(s, rest);
    assert(text.subrange(i, i + 1 + (s.len() + 1)) =~= seq!['"'] + s + seq!['"']);
}

fn process_string(state: &mut ScannerState) -> (r: Result<JsonToken, FracturedJsonError>)
    requires
        ready(*old(state)),
        old(state).text()[old(state).scan_pos.index as int] == '"',
    ensures
        r matches Ok(t) ==> scanned_token(*old(state), *final(state), t),
        r matches Err(e) ==> scan_failed(*old(state), *final(state), e),
        r matches Err(e) ==> e.input_position == Some(byte_pos(final(state).text(), final(state).cur())),
        ({
            let scan = string_scan(
                false,
                0,
                old(state).text().skip(old(state).cur().index + 1),
            );
            &&& (r is Ok <==> scan is Closed)
            &&& final(state).tok() == old(state).cur()
            &&& final(state).nwsl()
            &&& r matches Ok(t) ==> scan matches StringScan::Closed(n) && t.token_type
                == TokenType::String && t.text@ == old(state).text().subrange(
                old(state).cur().index as int,
                old(state).cur().index + 1 + n,
            ) && final(state).cur() == along(old(state).cur(), n + 1)
            &&& r matches Err(e) ==> scan matches StringScan::Failed(k, m) && e.message@
                == crate::error::error_message(m, Some(byte_pos(old(state).text(), along(old(state).cur(), k + 1))))
                && final(state).cur() == along(old(state).cur(), k + 1)
        }),
{
    state.set_token_start();
    let start = state.scan_pos.index;
    let ghost start_pos = state.scan_pos;
    let ghost text = state.text();
    state.advance(false);
    let mut last_char_began_escape = false;
    let mut expected_hex_count: usize = 0;
    loop
        invariant
            state.wf(),
            state.text() == old(state).text(),
            state.scan_tok == old(state).scan_pos,
            start == old(state).scan_pos.index,
            start + 1 <= state.scan_pos.index,
            state.text()[start as int] == '"',
            expected_hex_count <= 4,
            forall|j: int| start <= j < state.scan_pos.index ==> state.text()[j] != '\n',
            text == state.text(),
            start_pos == old(state).scan_pos,
            state.cur() == along(start_pos, (state.scan_pos.index - start) as nat),
            last_char_began_escape ==> expected_hex_count == 0,
            state.nwsl(),
            string_scan(false, 0, text.skip(start + 1)) == scan_later(
                (state.scan_pos.index - start - 1) as nat,
                string_scan(
                    last_char_began_escape,
                    expected_hex_count as nat,
                    text.skip(state.scan_pos.index as int),
                ),
            ),
        decreases state.text().len() - state.scan_pos.index,
    {
        proof {
            if state.scan_pos.index < text.len() {
                let rest = text.skip(state.scan_pos.index as int);
                assert(rest[0] == text[state.scan_pos.index as int]);
                assert(rest.drop_first() =~= text.skip(state.scan_pos.index + 1));
            } else {
                assert(text.skip(state.scan_pos.index as int).len() == 0);
            }
        }
        if state.at_end() {
            return Err(state.error("Unexpected end of input while processing string"));
        }
        let ch = state.current().unwrap();
        if expected_hex_count > 0 {
            if !is_hex(ch) {
                return Err(state.error("Bad unicode escape in string"));
            }
            expected_hex_count -= 1;
            state.advance(false);
            continue;
        }
        if last_char_began_escape {
            if !is_legal_after_backslash(ch) {
                return Err(state.error("Bad escaped character in string"));
            }
            if ch == 'u' {
                expected_hex_count = 4;
            }
            last_char_began_escape = false;
            state.advance(false);
            continue;
        }
        if is_control(ch) {
            return Err(state.error("Control characters are not allowed in strings"));
        }
        state.advance(false);
        if ch == '"' {
            let t = state.make_token_from_buffer(TokenType::String, false);
            proof {
                state.lemma_token_text_from(start as int);
                assert forall|k: int| 0 <= k < t.text@.len() implies t.text@[k] != '\n' by {
                    assert(t.text@[k] == state.text()[start + k]);
                }
            }
            return Ok(t);
        }
        if ch == '\\' {
            last_char_began_escape = true;
        }
    }
}

/// Where a number scan stands.
#[derive(Debug, Clone, Copy, PartialEq, Eq, Structural)]
pub enum NumberPhase {
    Beginning,
    PastLeadingSign,
    PastFirstDigitOfWhole,
    PastWhole,
    PastDecimalPoint,
    PastFirstDigitOfFractional,
    PastE,
    PastExpSign,
    PastFirstDigitOfExponent,
}

/// The phase a number scan in phase `p` moves to on the character `c`, or
/// `None` when `c` does not continue the number: the JSON number grammar
/// (an optional minus, `0` or digits not led by `0`, an optional fraction
/// and an optional exponent) as an automaton.
pub open spec fn number_step(p: NumberPhase, c: char) -> Option<NumberPhase> {
    match p {
        NumberPhase::Beginning => if c == '-' {
            Some(NumberPhase::PastLeadingSign)
        } else if c == '0' {
            Some(NumberPhase::PastWhole)
        } else if spec_is_digit(c) {
            Some(NumberPhase::PastFirstDigitOfWhole)
        } else {
            None
        },
        NumberPhase::PastLeadingSign => if c == '0' {
            Some(NumberPhase::PastWhole)
        } else if spec_is_digit(c) {
            Some(NumberPhase::PastFirstDigitOfWhole)
        } else {
            None
        },
        NumberPhase::PastFirstDigitOfWhole => if c == '.' {
            Some(NumberPhase::PastDecimalPoint)
        } else if c == 'e' || c == 'E' {
            Some(NumberPhase::PastE)
        } else if spec_is_digit(c) {
            Some(NumberPhase::PastFirstDigitOfWhole)
        } else {
            None
        },
        NumberPhase::PastWhole => if c == '.' {
            Some(NumberPhase::PastDecimalPoint)
        } else if c == 'e' || c == 'E' {
            Some(NumberPhase::PastE)
        } else {
            None
        },
        NumberPhase::PastDecimalPoint => if spec_is_digit(c) {
            Some(NumberPhase::PastFirstDigitOfFractional)
        } else {
            None
        },
        NumberPhase::PastFirstDigitOfFractional => if c == 'e' || c == 'E' {
            Some(NumberPhase::PastE)
        } else if spec_is_digit(c) {
            Some(NumberPhase::PastFirstDigitOfFractional)
        } else {
            None
        },
        NumberPhase::PastE => if c == '+' || c == '-' {
            Some(NumberPhase::PastExpSign)
        } else if spec_is_digit(c) {
            Some(NumberPhase::PastFirstDigitOfExponent)
        } else {
            None
        },
        NumberPhase::PastExpSign => if spec_is_digit(c) {
            Some(NumberPhase::PastFirstDigitOfExponent)
        } else {
            None
        },
        NumberPhase::PastFirstDigitOfExponent => if spec_is_digit(c) {
            Some(NumberPhase::PastFirstDigitOfExponent)
        } else {
            None
        },
    }
}

/// The phases in which what was read is a whole number.
pub open spec fn number_complete(p: NumberPhase) -> bool {
    ||| p == NumberPhase::PastFirstDigitOfWhole
    ||| p == NumberPhase::PastWhole
    ||| p == NumberPhase::PastFirstDigitOfFractional
    ||| p == NumberPhase::PastFirstDigitOfExponent
}

/// How many characters of `s` a number scan from phase `p` takes, and the
/// phase it ends in.
pub open spec fn number_run(p: NumberPhase, s: Seq<char>) -> (nat, NumberPhase)
    decreases s.len(),
{
    if s.len() == 0 {
        (0, p)
    } else {
        match number_step(p, s[0]) {
            Some(q) => {
                let r = number_run(q, s.drop_first());
                (r.0 + 1, r.1)
            },
            None => (0, p),
        }
    }
}

/// A decimal digit.
pub open spec fn json_digit(c: char) -> bool {
    '0' <= c <= '9'
}

/// One or more decimal digits.
pub open spec fn json_digits(s: Seq<char>) -> bool {
    s.len() > 0 && forall|i: int| 0 <= i < s.len() ==> json_digit(#[trigger] s[i])
}

/// The parts of a number as the JSON grammar writes it: an optional
/// minus; `0`, or a digit other than `0` and more digits; optionally a
/// point and digits; optionally `e` or `E`, an optional sign and digits.
pub open spec fn json_number(
    sign: Seq<char>,
    whole: Seq<char>,
    frac: Seq<char>,
    exp: Seq<char>,
) -> bool {
    &&& (sign.len() == 0 || sign == seq!['-'])
    &&& (whole == seq!['0'] || (whole.len() > 0 && '1' <= whole[0] <= '9' && (whole.len() == 1
        || json_digits(whole.skip(1)))))
    &&& (frac.len() == 0 || (frac[0] == '.' && json_digits(frac.skip(1))))
    &&& (exp.len() == 0 || ((exp[0] == 'e' || exp[0] == 'E') && (json_digits(exp.skip(1)) || (
    exp.len() > 1 && (exp[1] == '+' || exp[1] == '-') && json_digits(exp.skip(2))))))
}

/// A character that cannot continue a number.
pub open spec fn ends_number(c: char) -> bool {
    !json_digit(c) && c != '.' && c != 'e' && c != 'E' && c != '+' && c != '-'
}

/// The phases in which a number scan takes more digits.
spec fn digit_loop(p: NumberPhase) -> bool {
    ||| p == NumberPhase::PastFirstDigitOfWhole
    ||| p == NumberPhase::PastFirstDigitOfFractional
    ||| p == NumberPhase::PastFirstDigitOfExponent
}

/// A number scan takes a run of digits whole.
proof fn lemma_number_digits(p: NumberPhase, d: Seq<char>, t: Seq<char>)
    requires
        digit_loop(p),
        forall|i: int| 0 <= i < d.len() ==> json_digit(#[trigger] d[i]),
    ensures
        number_run(p, d + t) == (d.len() + number_run(p, t).0, number_run(p, t).1),
    decreases d.len(),
{
    if d.len() == 0 {
        assert(d + t =~= t);
    } else {
        let x = d + t;
        assert(x[0] == d[0]);
        assert(x.drop_first() =~= d.drop_first() + t);
        assert forall|i: int| 0 <= i < d.drop_first().len() implies json_digit(
            #[trigger] d.drop_first()[i],
        ) by {
            assert(d.drop_first()[i] == d[i + 1]);
        }
        lemma_number_digits(p, d.drop_first(), t);
    }
}

/// A number scan in a phase where a number is complete stops at the end of
/// the input or at a character that cannot continue a number.
proof fn lemma_number_stops(p: NumberPhase, t: Seq<char>)
    requires
        number_complete(p),
        t.len() == 0 || ends_number(t[0]),
    ensures
        number_run(p, t) == (0nat, p),
{
}

/// A number scan past the whole part (and fraction) takes an exponent the
/// grammar allows, and stops after it.
proof fn lemma_number_exp(p: NumberPhase, exp: Seq<char>, t: Seq<char>)
    requires
        p == NumberPhase::PastFirstDigitOfWhole || p == NumberPhase::PastWhole || p
            == NumberPhase::PastFirstDigitOfFractional,
        exp.len() == 0 || ((exp[0] == 'e' || exp[0] == 'E') && (json_digits(exp.skip(1)) || (
        exp.len() > 1 && (exp[1] == '+' || exp[1] == '-') && json_digits(exp.skip(2))))),
        t.len() == 0 || ends_number(t[0]),
    ensures
        number_run(p, exp + t).0 == exp.len(),
        number_complete(number_run(p, exp + t).1),
{
    let x = exp + t;
    if exp.len() == 0 {
        assert(x =~= t);
        lemma_number_stops(p, t);
    } else {
        let x1 = x.drop_first();
        assert(x[0] == exp[0]);
        let q = NumberPhase::PastFirstDigitOfExponent;
        if json_digits(exp.skip(1)) {
            let d = exp.skip(2);
            assert(json_digit(exp.skip(1)[0]));
            assert(x1[0] == exp[1]);
            assert(x1.drop_first() =~= d + t);
            assert forall|i: int| 0 <= i < d.len() implies json_digit(#[trigger] d[i]) by {
                assert(d[i] == exp.skip(1)[i + 1]);
            }
            lemma_number_digits(q, d, t);
            lemma_number_stops(q, t);
            assert(number_run(NumberPhase::PastE, x1) == ((exp.len() - 1) as nat, q));
        } else {
            let x2 = x1.drop_first();
            let d = exp.skip(3);
            assert(json_digit(exp.skip(2)[0]));
            assert(x1[0] == exp[1]);
            assert(x2[0] == exp[2]);
            assert(x2.drop_first() =~= d + t);
            assert forall|i: int| 0 <= i < d.len() implies json_digit(#[trigger] d[i]) by {
                assert(d[i] == exp.skip(2)[i + 1]);
            }
            lemma_number_digits(q, d, t);
            lemma_number_stops(q, t);
            assert(number_run(NumberPhase::PastExpSign, x2) == ((exp.len() - 2) as nat, q));
            assert(number_run(NumberPhase::PastE, x1) == ((exp.len() - 1) as nat, q));
        }
    }
}

/// A number scan past the whole part takes a fraction and an exponent the
/// grammar allows, and stops after them.
proof fn lemma_number_frac(p: NumberPhase, frac: Seq<char>, exp: Seq<char>, t: Seq<char>)
    requires
        p == NumberPhase::PastFirstDigitOfWhole || p == NumberPhase::PastWhole,
        frac.len() == 0 || (frac[0] == '.' && json_digits(frac.skip(1))),
        exp.len() == 0 || ((exp[0] == 'e' || exp[0] == 'E') && (json_digits(exp.skip(1)) || (
        exp.len() > 1 && (exp[1] == '+' || exp[1] == '-') && json_digits(exp.skip(2))))),
        t.len() == 0 || ends_number(t[0]),
    ensures
        number_run(p, frac + exp + t).0 == frac.len() + exp.len(),
        number_complete(number_run(p, frac + exp + t).1),
{
    let x = frac + exp + t;
    if frac.len() == 0 {
        assert(x =~= exp + t);
        lemma_number_exp(p, exp, t);
    } else {
        let q = NumberPhase::PastFirstDigitOfFractional;
        let x1 = x.drop_first();
        let d = frac.skip(2);
        assert(json_digit(frac.skip(1)[0]));
        assert(x[0] == frac[0]);
        assert(x1[0] == frac[1]);
        assert(x1.drop_first() =~= d + (exp + t));
        assert forall|i: int| 0 <= i < d.len() implies json_digit(#[trigger] d[i]) by {
            assert(d[i] == frac.skip(1)[i + 1]);
        }
        lemma_number_digits(q, d, exp + t);
        lemma_number_exp(q, exp, t);
        assert(number_run(NumberPhase::PastDecimalPoint, x1).0 == frac.len() - 1 + exp.len());
    }
}

/// Every number the JSON grammar allows is read as one Number token holding
/// exactly its text, when what follows it cannot continue a number.
pub proof fn json_numbers_read_as_number(
    text: Seq<char>,
    cur: InputPosition,
    tok: InputPosition,
    nwsl: bool,
    sign: Seq<char>,
    whole: Seq<char>,
    frac: Seq<char>,
    exp: Seq<char>,
)
    requires
        text.len() <= MAX_DOC_SIZE,
        json_number(sign, whole, frac, exp),
        cur.index + (sign + whole + frac + exp).len() <= text.len(),
        text.subrange(cur.index as int, cur.index + (sign + whole + frac + exp).len()) == sign
            + whole + frac + exp,
        cur.index + (sign + whole + frac + exp).len() == text.len() || ends_number(
            text[cur.index + (sign + whole + frac + exp).len()],
        ),
    ensures
        lex(text, cur, tok, nwsl).0 == Lexed::Token(
            TokenType::Number,
            sign + whole + frac + exp,
            cur,
        ),
        lex(text, cur, tok, nwsl).1 == along(cur, (sign + whole + frac + exp).len()),
{
    let n = sign + whole + frac + exp;
    let i = cur.index as int;
    let t = text.skip(i + n.len());
    let x = text.skip(i);
    assert(x =~= sign + (whole + (frac + exp + t)));
    assert(text[i] == n[0]);
    let y = whole + (frac + exp + t);
    let r = frac + exp + t;
    assert(y[0] == whole[0]);
    assert(y.drop_first() =~= whole.skip(1) + r);
    let p = if whole == seq!['0'] {
        NumberPhase::PastWhole
    } else {
        NumberPhase::PastFirstDigitOfWhole
    };
    if whole == seq!['0'] {
        assert(whole.skip(1) + r =~= r);
    } else {
        let d = whole.skip(1);
        assert forall|k: int| 0 <= k < d.len() implies json_digit(#[trigger] d[k]) by {
            if whole.len() > 1 {
                assert(json_digit(whole.skip(1)[k]));
            }
        }
        lemma_number_digits(p, d, r);
    }
    lemma_number_frac(p, frac, exp, t);
    assert(number_run(p, y.drop_first()).0 == whole.len() - 1 + frac.len() + exp.len());
    if sign.len() == 0 {
        assert(x =~= y);
    } else {
        assert(x[0] == '-');
        assert(x.drop_first() =~= y);
        assert(number_run(NumberPhase::PastLeadingSign, y).0 == whole.len() + frac.len()
            + exp.len());
    }
    assert(number_run(NumberPhase::Beginning, x).0 == n.len());
    assert(text.subrange(i, i + n.len()) == n);
}

/// The position `n` characters further on the same line.
pub open spec fn along(p: InputPosition, n: nat) -> InputPosition {
    InputPosition { index: (p.index + n) as usize, row: p.row, column: (p.column + n) as usize }
}

/// What a character does to a number scan.
#[derive(Debug, Clone, Copy, PartialEq, Eq, Structural)]
enum CharHandling {
    InvalidatesToken,
    ValidAndConsumed,
    StartOfNewToken,
}

fn process_number(state: &mut ScannerState) -> (r: Result<JsonToken, FracturedJsonError>)
    requires
        ready(*old(state)),
        spec_is_digit(old(state).text()[old(state).scan_pos.index as int])
            || old(state).text()[old(state).scan_pos.index as int] == '-',
    ensures
        r matches Ok(t) ==> scanned_token(*old(state), *final(state), t),
        r matches Err(e) ==> scan_failed(*old(state), *final(state), e),
        r matches Err(e) ==> e.input_position == Some(byte_pos(final(state).text(), final(state).cur())),
        ({
            let run = number_run(
                NumberPhase::Beginning,
                old(state).text().skip(old(state).cur().index as int),
            );
            &&& (r is Ok <==> number_complete(run.1))
            &&& final(state).cur() == along(old(state).cur(), run.0)
            &&& final(state).tok() == old(state).cur()
            &&& final(state).nwsl()
            &&& r matches Ok(t) ==> t.token_type == TokenType::Number && t.text@ == old(
                state,
            ).text().subrange(
                old(state).cur().index as int,
                old(state).cur().index + run.0,
            )
            &&& r matches Err(e) ==> e.message@ == crate::error::error_message(
                (if old(state).cur().index + run.0 == old(state).text().len() {
                    "Unexpected end of input while processing number"@
                } else {
                    "Bad character while processing number"@
                }),
                Some(byte_pos(old(state).text(), along(old(state).cur(), run.0))),
            )
        }),
{
    state.set_token_start();
    let start = state.scan_pos.index;
    let ghost start_pos = state.scan_pos;
    let ghost text = state.text();
    let mut phase = NumberPhase::Beginning;
    loop
        invariant
            state.wf(),
            state.text() == old(state).text(),
            state.scan_tok == old(state).scan_pos,
            start == old(state).scan_pos.index,
            start <= state.scan_pos.index,
            start < state.text().len(),
            spec_is_digit(state.text()[start as int]) || state.text()[start as int] == '-',
            phase == NumberPhase::Beginning <==> start == state.scan_pos.index,
            forall|j: int| start <= j < state.scan_pos.index ==> state.text()[j] != '\n',
            text == state.text(),
            start_pos == old(state).scan_pos,
            state.cur() == along(start_pos, (state.scan_pos.index - start) as nat),
            state.scan_pos.index > start ==> state.nwsl(),
            number_run(NumberPhase::Beginning, text.skip(start as int)) == (((
            state.scan_pos.index - start) + number_run(
                phase,
                text.skip(state.scan_pos.index as int),
            ).0) as nat, number_run(phase, text.skip(state.scan_pos.index as int)).1),
        decreases state.text().len() - state.scan_pos.index,
    {
        proof {
            if state.scan_pos.index < text.len() {
                let rest = text.skip(state.scan_pos.index as int);
                assert(rest[0] == text[state.scan_pos.index as int]);
                assert(rest.drop_first() =~= text.skip(state.scan_pos.index + 1));
            } else {
                assert(text.skip(state.scan_pos.index as int).len() == 0);
            }
        }
        if state.at_end() {
            return match phase {
                NumberPhase::PastFirstDigitOfWhole
                | NumberPhase::PastWhole
                | NumberPhase::PastFirstDigitOfFractional
                | NumberPhase::PastFirstDigitOfExponent => {
                    let t = state.make_token_from_buffer(TokenType::Number, false);
                    proof {
                        state.lemma_token_text_from(start as int);
                        assert forall|k: int| 0 <= k < t.text@.len() implies t.text@[k] != '\n' by {
                            assert(t.text@[k] == state.text()[start + k]);
                        }
                    }
                    Ok(t)
                },
                _ => Err(state.error("Unexpected end of input while processing number")),
            };
        }
        let ch = state.current().unwrap();
        let mut handling = CharHandling::ValidAndConsumed;
        let ghost before = phase;
        match phase {
            NumberPhase::Beginning => {
                if ch == '-' {
                    phase = NumberPhase::PastLeadingSign;
                } else if ch == '0' {
                    phase = NumberPhase::PastWhole;
                } else if is_digit(ch) {
                    phase = NumberPhase::PastFirstDigitOfWhole;
                } else {
                    handling = CharHandling::InvalidatesToken;
                }
            },
            NumberPhase::PastLeadingSign => {
                if !is_digit(ch) {
                    handling = CharHandling::InvalidatesToken;
                } else if ch == '0' {
                    phase = NumberPhase::PastWhole;
                } else {
                    phase = NumberPhase::PastFirstDigitOfWhole;
                }
            },
            NumberPhase::PastFirstDigitOfWhole => {
                if ch == '.' {
                    phase = NumberPhase::PastDecimalPoint;
                } else if ch == 'e' || ch == 'E' {
                    phase = NumberPhase::PastE;
                } else if !is_digit(ch) {
                    handling = CharHandling::StartOfNewToken;
                }
            },
            NumberPhase::PastWhole => {
                if ch == '.' {
                    phase = NumberPhase::PastDecimalPoint;
                } else if ch == 'e' || ch == 'E' {
                    phase = NumberPhase::PastE;
                } else {
                    handling = CharHandling::StartOfNewToken;
                }
            },
            NumberPhase::PastDecimalPoint => {
                if is_digit(ch) {
                    phase = NumberPhase::PastFirstDigitOfFractional;
                } else {
                    handling = CharHandling::InvalidatesToken;
                }
            },
            NumberPhase::PastFirstDigitOfFractional => {
                if ch == 'e' || ch == 'E' {
                    phase = NumberPhase::PastE;
                } else if !is_digit(ch) {
                    handling = CharHandling::StartOfNewToken;
                }
            },
            NumberPhase::PastE => {
                if ch == '+' || ch == '-' {
                    phase = NumberPhase::PastExpSign;
                } else if is_digit(ch) {
                    phase = NumberPhase::PastFirstDigitOfExponent;
                } else {
                    handling = CharHandling::InvalidatesToken;
                }
            },
            NumberPhase::PastExpSign => {
                if is_digit(ch) {
                    phase = NumberPhase::PastFirstDigitOfExponent;
                } else {
                    handling = CharHandling::InvalidatesToken;
                }
            },
            NumberPhase::PastFirstDigitOfExponent => {
                if !is_digit(ch) {
                    handling = CharHandling::StartOfNewToken;
                }
            },
        }
        assert(handling == CharHandling::ValidAndConsumed ==> number_step(before, ch) == Some(
            phase,
        ));
        assert(handling != CharHandling::ValidAndConsumed ==> number_step(before, ch) is None);
        assert(handling == CharHandling::InvalidatesToken ==> !number_complete(before));
        assert(handling == CharHandling::StartOfNewToken ==> number_complete(before));
        if handling == CharHandling::InvalidatesToken {
            return Err(state.error("Bad character while processing number"));
        }
        if handling == CharHandling::StartOfNewToken {
            let t = state.make_token_from_buffer(TokenType::Number, false);
            proof {
                state.lemma_token_text_from(start as int);
                assert forall|k: int| 0 <= k < t.text@.len() implies t.text@[k] != '\n' by {
                    assert(t.text@[k] == state.text()[start + k]);
                }
            }
            return Ok(t);
        }
        state.advance(false);
    }
}

pub open spec fn spec_is_digit(ch: char) -> bool {
    '0' <= ch <= '9'
}

pub open spec fn spec_is_hex(ch: char) -> bool {
    ('0' <= ch <= '9') || ('a' <= ch <= 'f') || ('A' <= ch <= 'F')
}

pub open spec fn spec_is_legal_after_backslash(ch: char) -> bool {
    ch == '"' || ch == '\\' || ch == '/' || ch == 'b' || ch == 'f' || ch == 'n' || ch == 'r' || ch
        == 't' || ch == 'u'
}

pub open spec fn spec_is_control(ch: char) -> bool {
    let code = ch as u32;
    code <= 0x1F || code == 0x7F || (0x80 <= code <= 0x9F)
}

fn is_digit(ch: char) -> (b: bool)
    ensures
        b == spec_is_digit(ch),
{
    '0' <= ch && ch <= '9'
}

fn is_hex(ch: char) -> (b: bool)
    ensures
        b == spec_is_hex(ch),
{
    ('0' <= ch && ch <= '9') || ('a' <= ch && ch <= 'f') || ('A' <= ch && ch <= 'F')
}

fn is_legal_after_backslash(ch: char) -> (b: bool)
    ensures
        b == spec_is_legal_after_backslash(ch),
{
    ch == '"' || ch == '\\' || ch == '/' || ch == 'b' || ch == 'f' || ch == 'n' || ch == 'r' || ch
        == 't' || ch == 'u'
}

fn is_control(ch: char) -> (b: bool)
    ensures
        b == spec_is_control(ch),
{
    let code = ch as u32;
    code <= 0x1F || code == 0x7F || (0x80 <= code && code <= 0x9F)
}

} // verus!
