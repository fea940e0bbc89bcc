use std::collections::VecDeque;
use std::ops::Range;
use vstd::prelude::*;
use vstd::string::*;
use vstd::utf8::*;
use crate::text::{sbytes, substr, push_str, owned, lemma_cut, lemma_encode_concat};
use crate::prompt::{closer_prompt, continuation_prompt, set_expected_closer_prompt, set_needs_continuation_prompt};

verus! {

broadcast use vstd::seq::group_seq_axioms;

// ---------------------------------------------------------------------------
// Tokens and lexer state
// ---------------------------------------------------------------------------

/// The kinds of tokens of a shell command line.
#[derive(Debug)]
pub enum Tkn {
    Word,
    RedirectIn,
    RedirectOut,
    RedirectAppend,
    Heredoc,
    Pipe,
    Backslash,
    CmdAnd,
    CmdOr,
    Semicolon,
    And,
    /// A quoted string; holds the text between the quotes, with escapes resolved.
    Quote(String),
    LParen,
    RParen,
    Newline,
}

/// A token kind as a mathematical value: a quote holds the UTF-8 bytes of its text.
pub enum TknV {
    Word,
    RedirectIn,
    RedirectOut,
    RedirectAppend,
    Heredoc,
    Pipe,
    Backslash,
    CmdAnd,
    CmdOr,
    Semicolon,
    And,
    Quote(Seq<u8>),
    LParen,
    RParen,
    Newline,
}

impl View for Tkn {
    type V = TknV;

    open spec fn view(&self) -> TknV {
        match self {
            Tkn::Word => TknV::Word,
            Tkn::RedirectIn => TknV::RedirectIn,
            Tkn::RedirectOut => TknV::RedirectOut,
            Tkn::RedirectAppend => TknV::RedirectAppend,
            Tkn::Heredoc => TknV::Heredoc,
            Tkn::Pipe => TknV::Pipe,
            Tkn::Backslash => TknV::Backslash,
            Tkn::CmdAnd => TknV::CmdAnd,
            Tkn::CmdOr => TknV::CmdOr,
            Tkn::Semicolon => TknV::Semicolon,
            Tkn::And => TknV::And,
            Tkn::Quote(s) => TknV::Quote(sbytes(*s)),
            Tkn::LParen => TknV::LParen,
            Tkn::RParen => TknV::RParen,
            Tkn::Newline => TknV::Newline,
        }
    }
}

/// A token with the byte range of the command line it was read from.
#[derive(Debug)]
pub struct TknSpan {
    pub kind: Tkn,
    pub span: Range<usize>,
}

/// A token with its byte range, as a mathematical value.
pub struct TknSpanV {
    pub kind: TknV,
    pub start: int,
    pub end: int,
}

impl View for TknSpan {
    type V = TknSpanV;

    open spec fn view(&self) -> TknSpanV {
        TknSpanV { kind: self.kind@, start: self.span.start as int, end: self.span.end as int }
    }
}

/// What the lexer knows besides the tokens: pending heredoc delimiters, the
/// heredoc bodies found so far, and why a command line is incomplete or wrong.
/// A fresh state is used for every lex of a command line.
pub struct LexerState {
    /// The delimiters of the heredocs whose bodies are still to be read.
    pub delimiters: VecDeque<String>,
    /// The byte ranges of the heredoc bodies read so far.
    pub heredocs: Vec<(usize, usize)>,
    pub syntax_err: Option<String>,
    pub group_closers: VecDeque<char>,
    pub expected_closer: Option<String>,
    /// Set when the command line ends with `&&`, `||`, `|` or `\`.
    pub continuation_for: Option<String>,
}

/// The lexer state as a mathematical value; strings are given by their UTF-8 bytes.
#[verifier::ext_equal]
pub struct LexerStateV {
    pub delimiters: Seq<Seq<u8>>,
    pub heredocs: Seq<(int, int)>,
    pub syntax_err: Option<Seq<u8>>,
    pub group_closers: Seq<char>,
    pub expected_closer: Option<Seq<u8>>,
    pub continuation_for: Option<Seq<u8>>,
}

/// The UTF-8 bytes of an optional string.
pub open spec fn opt_bytes(o: Option<String>) -> Option<Seq<u8>> {
    match o {
        Some(s) => Some(sbytes(s)),
        None => None,
    }
}

impl View for LexerState {
    type V = LexerStateV;

    open spec fn view(&self) -> LexerStateV {
        LexerStateV {
            delimiters: self.delimiters@.map_values(|s: String| sbytes(s)),
            heredocs: self.heredocs@.map_values(|h: (usize, usize)| (h.0 as int, h.1 as int)),
            syntax_err: opt_bytes(self.syntax_err),
            group_closers: self.group_closers@,
            expected_closer: opt_bytes(self.expected_closer),
            continuation_for: opt_bytes(self.continuation_for),
        }
    }
}

/// The state a lex starts from.
pub open spec fn fresh_state() -> LexerStateV {
    LexerStateV {
        delimiters: Seq::empty(),
        heredocs: Seq::empty(),
        syntax_err: None,
        group_closers: Seq::empty(),
        expected_closer: None,
        continuation_for: None,
    }
}

/// The public fields of a lexer state are those of its view.
pub broadcast proof fn lemma_state_fields(st: &LexerState)
    ensures
        #[trigger] st@ == (LexerStateV {
            delimiters: st@.delimiters,
            heredocs: st@.heredocs,
            syntax_err: opt_bytes(st.syntax_err),
            group_closers: st.group_closers@,
            expected_closer: opt_bytes(st.expected_closer),
            continuation_for: opt_bytes(st.continuation_for),
        }),
{
}

impl LexerState {
    /// A state to lex a new command buffer from.
    pub fn new() -> (r: Self)
        ensures
            r@ == fresh_state(),
    {
        let r = LexerState {
            delimiters: VecDeque::new(),
            heredocs: Vec::new(),
            syntax_err: None,
            group_closers: VecDeque::new(),
            expected_closer: None,
            continuation_for: None,
        };
        assert(r@.delimiters =~= Seq::<Seq<u8>>::empty());
        assert(r@.heredocs =~= Seq::<(int, int)>::empty());
        r
    }

    /// After a command buffer did not lex to a complete command: a syntax error
    /// is returned, to be reported (it comes first: nothing more can fix it);
    /// otherwise `prompt` asks for what is missing, in this order: a closer the
    /// lexer expects, the continuation of a trailing operator, the closer of the
    /// innermost open group.
    pub fn after_incomplete(&self, prompt: &mut String) -> (err: Option<String>)
        ensures
            match self@.syntax_err {
                Some(e) => err is Some && sbytes(err->0) == e && final(prompt)@ == old(prompt)@,
                None => err is None && final(prompt)@ == followup_prompt(self@, old(prompt)@),
            },
    {
        broadcast use lemma_state_fields, encode_utf8_decode_utf8;

        match &self.syntax_err {
            Some(e) => {
                return Some(e.clone());
            },
            None => {},
        }
        match &self.expected_closer {
            Some(c) => {
                set_expected_closer_prompt(prompt, c.as_str());
            },
            None => match &self.continuation_for {
                Some(op) => {
                    set_needs_continuation_prompt(prompt, op.as_str());
                },
                None => {
                    if self.group_closers.len() > 0 {
                        let c = char_text(self.group_closers[0]);
                        set_expected_closer_prompt(prompt, c.as_str());
                    }
                },
            },
        }
        None
    }
}

/// The text of a single character, from `char::to_string` (through `ToString`):
/// claimed to be the string of exactly that character.
#[verifier::external_body]
fn char_text(c: char) -> (r: String)
    ensures
        r@ == seq![c],
{
    c.to_string()
}

/// The prompt that asks for what a command buffer that did not lex to a
/// complete command is missing, from the lexer state it ended in.
pub open spec fn followup_prompt(st: LexerStateV, prompt: Seq<char>) -> Seq<char> {
    match st.expected_closer {
        Some(c) => closer_prompt(decode_utf8(c)),
        None => match st.continuation_for {
            Some(op) => continuation_prompt(decode_utf8(op)),
            None => if st.group_closers.len() > 0 {
                closer_prompt(seq![st.group_closers[0]])
            } else {
                prompt
            },
        },
    }
}


// ---------------------------------------------------------------------------
// Byte classes
// ---------------------------------------------------------------------------

/// Space, tab and form feed separate tokens.
pub open spec fn is_blank(c: u8) -> bool {
    c == 32 || c == 9 || c == 12
}

/// `'`, `"` and `` ` `` open quoted strings.
pub open spec fn is_quote(c: u8) -> bool {
    c == 39 || c == 34 || c == 96
}

/// `|`, `&`, `;`, `<`, `>`, `(`, `)`, `{` and `}`.
pub open spec fn is_operator_byte(c: u8) -> bool {
    c == 124 || c == 38 || c == 59 || c == 60 || c == 62 || c == 40 || c == 41 || c == 123
        || c == 125
}

/// Bytes that may form a redirect target or a heredoc delimiter.
pub open spec fn is_delim_byte(c: u8) -> bool {
    !is_blank(c) && !is_quote(c) && c != 10 && !is_operator_byte(c)
}

/// Bytes that may form a word: those of a delimiter except the backslash.
pub open spec fn is_word_byte(c: u8) -> bool {
    is_delim_byte(c) && c != 92
}

/// Whether `c` is a blank.
pub fn blank_byte(c: u8) -> (r: bool)
    ensures
        r == is_blank(c),
{
    c == 32 || c == 9 || c == 12
}

/// Whether `c` opens a quoted string.
pub fn quote_byte(c: u8) -> (r: bool)
    ensures
        r == is_quote(c),
{
    c == 39 || c == 34 || c == 96
}

/// Whether `c` may be part of a redirection target or heredoc delimiter.
pub fn delim_byte(c: u8) -> (r: bool)
    ensures
        r == is_delim_byte(c),
{
    !(c == 32 || c == 9 || c == 12) && !(c == 39 || c == 34 || c == 96) && c != 10 && !(c == 124
        || c == 38 || c == 59 || c == 60 || c == 62 || c == 40 || c == 41 || c == 123 || c == 125)
}

/// Whether `c` may be part of a word.
pub fn word_byte(c: u8) -> (r: bool)
    ensures
        r == is_word_byte(c),
{
    delim_byte(c) && c != 92
}

// ---------------------------------------------------------------------------
// The lexer as a function on the bytes of a command line
// ---------------------------------------------------------------------------

/// The first position at or after `p` that does not hold a blank.
pub open spec fn skip_blanks(b: Seq<u8>, p: int) -> int
    decreases b.len() - p,
{
    if 0 <= p < b.len() && is_blank(b[p]) {
        skip_blanks(b, p + 1)
    } else {
        p
    }
}

/// The end of the run of word bytes that starts at `p`.
pub open spec fn word_end(b: Seq<u8>, p: int) -> int
    decreases b.len() - p,
{
    if 0 <= p < b.len() && is_word_byte(b[p]) {
        word_end(b, p + 1)
    } else {
        p
    }
}

/// The end of the run of delimiter bytes that starts at `p`.
pub open spec fn delim_end(b: Seq<u8>, p: int) -> int
    decreases b.len() - p,
{
    if 0 <= p < b.len() && is_delim_byte(b[p]) {
        delim_end(b, p + 1)
    } else {
        p
    }
}

/// Reads the body of a string opened by the quote byte `o`, from `r` on, with
/// `acc` the text read so far. A backslash takes the next byte literally,
/// except inside single quotes. Gives whether the closing quote was found, the
/// text, and the position after the closing quote (the end of input if none).
pub open spec fn scan_quote(b: Seq<u8>, o: u8, r: int, acc: Seq<u8>) -> (bool, Seq<u8>, int)
    decreases b.len() - r,
{
    if r < 0 || r >= b.len() {
        (false, acc, b.len() as int)
    } else if b[r] == o {
        (true, acc, r + 1)
    } else if b[r] == 92 && o != 39 {
        if r + 1 >= b.len() {
            (false, acc, b.len() as int)
        } else {
            scan_quote(b, o, r + 2, acc.push(b[r + 1]))
        }
    } else {
        scan_quote(b, o, r + 1, acc.push(b[r]))
    }
}

/// What follows a redirect, heredoc or continuation operator.
pub enum Look {
    /// A target word or quoted string, given by its bytes.
    Target(Seq<u8>),
    /// The end of the line.
    NewlineNext,
    /// Nothing usable; the position where reading it stopped.
    Failed(int),
    /// A quoted string that is not closed: more input is needed.
    Unclosed,
    /// `(`: a subshell starts.
    Group,
}

/// Looks at what follows position `p`, without consuming it.
pub open spec fn lookahead(b: Seq<u8>, p: int, st: LexerStateV) -> (Look, LexerStateV) {
    let q = skip_blanks(b, p);
    if q < 0 || q >= b.len() {
        (Look::Failed(q), st)
    } else if is_quote(b[q]) {
        let sc = scan_quote(b, b[q], q + 1, Seq::empty());
        if sc.0 {
            (Look::Target(sc.1), st)
        } else {
            (Look::Unclosed, LexerStateV { expected_closer: Some(seq![b[q]]), ..st })
        }
    } else if b[q] == 10 {
        (Look::NewlineNext, st)
    } else if b[q] == 40 {
        (Look::Group, st)
    } else if is_delim_byte(b[q]) {
        (Look::Target(b.subrange(q, delim_end(b, q))), st)
    } else {
        (Look::Failed(q + 1), st)
    }
}

/// The outcome of reading one token.
pub enum Step {
    /// A token of the given kind ends at the given position.
    Emit(TknV, int),
    /// The command line is not (yet) valid here: lexing stops.
    Error,
    /// The lexer panics.
    Panic,
}

/// The decimal digits of `n`.
pub open spec fn dec_chars(n: nat) -> Seq<char>
    decreases n,
{
    if n < 10 {
        seq![((48 + n) as u8) as char]
    } else {
        dec_chars(n / 10).push(((48 + n % 10) as u8) as char)
    }
}

/// The syntax error for an operator that has no valid target.
pub open spec fn bad_target_msg(op: Seq<u8>) -> Seq<u8> {
    encode_utf8("not a valid delimiter for "@) + op
}

/// The syntax error for an unusable target, at a byte position.
pub open spec fn parse_error_msg(pos: int) -> Seq<u8> {
    encode_utf8("parse error near "@ + dec_chars(pos as nat))
}

/// `<`, `>` and `>>` (the operator spans `q..e`) need a target after them;
/// an unclosed quoted target asks for more input.
pub open spec fn redirect_step(b: Seq<u8>, q: int, e: int, kind: TknV, st: LexerStateV) -> (
    Step,
    LexerStateV,
) {
    let (look, st1) = lookahead(b, e, st);
    match look {
        Look::Unclosed => (Step::Error, st1),
        Look::Target(_) => (Step::Emit(kind, e), st1),
        _ => (
            Step::Error,
            LexerStateV { syntax_err: Some(bad_target_msg(b.subrange(q, e))), ..st1 },
        ),
    }
}

/// `|`, `||`, `&&` and `\` (spanning `q..e`): a following newline asks for a
/// continuation line, an unclosed quote asks for more input, a word, a
/// quoted string or a subshell may follow, and anything else is a syntax
/// error that stops the lex.
pub open spec fn operator_step(b: Seq<u8>, q: int, e: int, kind: TknV, st: LexerStateV) -> (
    Step,
    LexerStateV,
) {
    let (look, st1) = lookahead(b, e, st);
    match look {
        Look::Unclosed => (Step::Error, st1),
        Look::Target(_) => (Step::Emit(kind, e), LexerStateV { continuation_for: None, ..st1 }),
        Look::Group => (Step::Emit(kind, e), LexerStateV { continuation_for: None, ..st1 }),
        Look::NewlineNext => (
            Step::Emit(kind, e),
            LexerStateV { continuation_for: Some(b.subrange(q, e)), ..st1 },
        ),
        Look::Failed(pos) => (
            Step::Error,
            LexerStateV { syntax_err: Some(parse_error_msg(pos)), ..st1 },
        ),
    }
}

/// `<<` (ending at `e`) records the delimiter that follows it.
pub open spec fn heredoc_step(b: Seq<u8>, e: int, st: LexerStateV) -> (Step, LexerStateV) {
    let (look, st1) = lookahead(b, e, st);
    match look {
        Look::Unclosed => (Step::Error, st1),
        Look::Target(d) => (
            Step::Emit(TknV::Heredoc, e),
            LexerStateV { delimiters: st1.delimiters.push(d), ..st1 },
        ),
        _ => (
            Step::Error,
            LexerStateV { syntax_err: Some(bad_target_msg(encode_utf8("<<"@))), ..st1 },
        ),
    }
}

/// The length of the encoding of a Unicode white-space character at the end of `s`, or 0.
pub open spec fn ws_suffix_len(s: Seq<u8>) -> int {
    let n = s.len() as int;
    if n >= 1 && (s[n - 1] == 9 || s[n - 1] == 10 || s[n - 1] == 11 || s[n - 1] == 12 || s[n
        - 1] == 13 || s[n - 1] == 32) {
        1
    } else if n >= 2 && s[n - 2] == 0xc2 && (s[n - 1] == 0x85 || s[n - 1] == 0xa0) {
        2
    } else if n >= 3 && ((s[n - 3] == 0xe1 && s[n - 2] == 0x9a && s[n - 1] == 0x80) || (s[n - 3]
        == 0xe2 && s[n - 2] == 0x80 && (0x80 <= s[n - 1] <= 0x8a || s[n - 1] == 0xa8 || s[n - 1]
        == 0xa9 || s[n - 1] == 0xaf)) || (s[n - 3] == 0xe2 && s[n - 2] == 0x81 && s[n - 1]
        == 0x9f) || (s[n - 3] == 0xe3 && s[n - 2] == 0x80 && s[n - 1] == 0x80)) {
        3
    } else {
        0
    }
}

/// `s` without its trailing white space.
pub open spec fn trim_end(s: Seq<u8>) -> Seq<u8>
    decreases s.len(),
{
    let k = ws_suffix_len(s);
    if k > 0 && k <= s.len() {
        trim_end(s.subrange(0, s.len() - k))
    } else {
        s
    }
}

/// The position after the first newline at or after `r`, if there is one.
pub open spec fn line_end(b: Seq<u8>, r: int) -> Option<int>
    decreases b.len() - r,
{
    if r < 0 || r >= b.len() {
        None
    } else if b[r] == 10 {
        Some(r + 1)
    } else {
        line_end(b, r + 1)
    }
}

/// How the search for the line that closes a heredoc ended.
pub enum Close {
    /// The closing line spans `.0..*.1`.
    Closed(int, int),
    /// The input ran out first.
    Unclosed,
    /// A last line without a newline: the lexer panics.
    Panic,
}

/// Looks for the line, from `r` on, that is the delimiter `d` up to trailing white space.
pub open spec fn find_close(b: Seq<u8>, r: int, d: Seq<u8>) -> Close
    decreases b.len() - r,
{
    if r < 0 || r >= b.len() {
        Close::Unclosed
    } else {
        match line_end(b, r) {
            None => Close::Panic,
            Some(e) => if trim_end(b.subrange(r, e)) == d {
                Close::Closed(r, e)
            } else if r < e <= b.len() {
                find_close(b, e, d)
            } else {
                Close::Unclosed
            },
        }
    }
}

/// After a newline at `r`, reads the bodies of the pending heredocs in order.
/// Gives the position after the last closing line, or `None` when a body is
/// not closed (the lexer then expects its delimiter) or the lexer panics.
pub open spec fn read_heredocs(b: Seq<u8>, r: int, st: LexerStateV) -> (Step, LexerStateV)
    decreases st.delimiters.len(),
{
    if st.delimiters.len() == 0 {
        (Step::Emit(TknV::Newline, r), st)
    } else {
        let d = st.delimiters[0];
        let st1 = LexerStateV { delimiters: st.delimiters.drop_first(), ..st };
        match find_close(b, r, d) {
            Close::Panic => (Step::Panic, st1),
            Close::Unclosed => (Step::Error, LexerStateV { expected_closer: Some(d), ..st1 }),
            Close::Closed(c, e) => read_heredocs(
                b,
                e,
                LexerStateV { heredocs: st1.heredocs.push((r, c)), ..st1 },
            ),
        }
    }
}

/// Reads the token that starts at `q`, a position that holds no blank.
pub open spec fn step(b: Seq<u8>, q: int, st: LexerStateV) -> (Step, LexerStateV) {
    let c = b[q];
    let two = q + 1 < b.len() && b[q + 1] == c;
    if is_word_byte(c) {
        (Step::Emit(TknV::Word, word_end(b, q)), st)
    } else if c == 60 {
        if two {
            heredoc_step(b, q + 2, st)
        } else {
            redirect_step(b, q, q + 1, TknV::RedirectIn, st)
        }
    } else if c == 62 {
        if two {
            redirect_step(b, q, q + 2, TknV::RedirectAppend, st)
        } else {
            redirect_step(b, q, q + 1, TknV::RedirectOut, st)
        }
    } else if c == 124 {
        if two {
            operator_step(b, q, q + 2, TknV::CmdOr, st)
        } else {
            operator_step(b, q, q + 1, TknV::Pipe, st)
        }
    } else if c == 38 {
        if two {
            operator_step(b, q, q + 2, TknV::CmdAnd, st)
        } else {
            (Step::Emit(TknV::And, q + 1), st)
        }
    } else if c == 92 {
        operator_step(b, q, q + 1, TknV::Backslash, st)
    } else if c == 59 {
        (Step::Emit(TknV::Semicolon, q + 1), st)
    } else if is_quote(c) {
        let sc = scan_quote(b, c, q + 1, Seq::empty());
        if sc.0 {
            (Step::Emit(TknV::Quote(sc.1), sc.2), st)
        } else {
            (Step::Error, LexerStateV { expected_closer: Some(seq![c]), ..st })
        }
    } else if c == 40 {
        (
            Step::Emit(TknV::LParen, q + 1),
            LexerStateV { group_closers: seq![')'] + st.group_closers, ..st },
        )
    } else if c == 41 {
        if st.group_closers.len() > 0 && st.group_closers[0] == ')' {
            (
                Step::Emit(TknV::RParen, q + 1),
                LexerStateV { group_closers: st.group_closers.drop_first(), ..st },
            )
        } else {
            (Step::Error, st)
        }
    } else if c == 10 {
        read_heredocs(b, q + 1, st)
    } else {
        (Step::Error, st)
    }
}

/// How a lex ended.
pub enum LexEnd {
    /// All of the input was read.
    Finished,
    /// A token could not be read.
    Stopped,
    /// The lexer panics.
    Panicked,
}

/// The tokens read, the final state, and how the lex ended.
pub struct LexRun {
    pub toks: Seq<TknSpanV>,
    pub st: LexerStateV,
    pub end: LexEnd,
}


/// Reads tokens from `p` on, after the tokens `toks`, from the state `st`.
pub open spec fn lex_from(b: Seq<u8>, p: int, st: LexerStateV, toks: Seq<TknSpanV>) -> LexRun
    decreases b.len() - p,
{
    let q = skip_blanks(b, p);
    if q < 0 || q >= b.len() {
        LexRun { toks, st, end: LexEnd::Finished }
    } else {
        let (s, st1) = step(b, q, st);
        match s {
            Step::Panic => LexRun { toks, st: st1, end: LexEnd::Panicked },
            Step::Error => LexRun { toks, st: st1, end: LexEnd::Stopped },
            Step::Emit(k, e) => if p <= q < e <= b.len() {
                lex_from(b, e, st1, toks.push(TknSpanV { kind: k, start: q, end: e }))
            } else {
                LexRun { toks, st: st1, end: LexEnd::Stopped }
            },
        }
    }
}

/// Lexes a whole command line from a fresh state.
pub open spec fn lex(b: Seq<u8>) -> LexRun {
    lex_from(b, 0, fresh_state(), Seq::empty())
}

/// The lexer panics on this input.
pub open spec fn lex_panics(b: Seq<u8>) -> bool {
    lex(b).end is Panicked
}

/// Tokens after which a command line cannot end.
pub open spec fn needs_more(k: TknV) -> bool {
    k is Semicolon || k is Pipe || k is CmdOr || k is CmdAnd || k is Backslash
}

/// A lex that read the whole input, closed every parenthesis, and does not
/// end with `;`, `|`, `||` or `&&` before its last token.
pub open spec fn lex_complete(run: LexRun) -> bool {
    &&& run.end is Finished
    &&& run.st.group_closers.len() == 0
    &&& !(run.toks.len() >= 2 && needs_more(run.toks[run.toks.len() - 2].kind))
}

// ---------------------------------------------------------------------------
// Facts about the spec functions
// ---------------------------------------------------------------------------

/// Skipping blanks moves forward, over blanks only.
pub proof fn lemma_skip_blanks(b: Seq<u8>, p: int)
    requires
        0 <= p <= b.len(),
    ensures
        p <= skip_blanks(b, p) <= b.len(),
        forall|i: int| p <= i < skip_blanks(b, p) ==> is_blank(#[trigger] b[i]),
        skip_blanks(b, p) < b.len() ==> !is_blank(b[skip_blanks(b, p)]),
    decreases b.len() - p,
{
    if p < b.len() && is_blank(b[p]) {
        lemma_skip_blanks(b, p + 1);
    }
}

/// A word runs over word bytes only.
pub proof fn lemma_word_end(b: Seq<u8>, p: int)
    requires
        0 <= p <= b.len(),
    ensures
        p <= word_end(b, p) <= b.len(),
        forall|i: int| p <= i < word_end(b, p) ==> is_word_byte(#[trigger] b[i]),
        word_end(b, p) < b.len() ==> !is_word_byte(b[word_end(b, p)]),
    decreases b.len() - p,
{
    if p < b.len() && is_word_byte(b[p]) {
        lemma_word_end(b, p + 1);
    }
}

/// A target runs over target bytes only.
pub proof fn lemma_delim_end(b: Seq<u8>, p: int)
    requires
        0 <= p <= b.len(),
    ensures
        p <= delim_end(b, p) <= b.len(),
        forall|i: int| p <= i < delim_end(b, p) ==> is_delim_byte(#[trigger] b[i]),
        delim_end(b, p) < b.len() ==> !is_delim_byte(b[delim_end(b, p)]),
    decreases b.len() - p,
{
    if p < b.len() && is_delim_byte(b[p]) {
        lemma_delim_end(b, p + 1);
    }
}

/// Where reading a quoted string stops.
pub proof fn lemma_scan_quote_end(b: Seq<u8>, o: u8, r: int, acc: Seq<u8>)
    requires
        0 <= r <= b.len(),
    ensures
        r <= scan_quote(b, o, r, acc).2 <= b.len(),
        scan_quote(b, o, r, acc).2 == b.len() || b[scan_quote(b, o, r, acc).2 - 1] == o,
        !scan_quote(b, o, r, acc).0 ==> scan_quote(b, o, r, acc).2 == b.len(),
    decreases b.len() - r,
{
    if r < b.len() && b[r] != o {
        if b[r] == 92 && o != 39 {
            if r + 1 < b.len() {
                lemma_scan_quote_end(b, o, r + 2, acc.push(b[r + 1]));
            }
        } else {
            lemma_scan_quote_end(b, o, r + 1, acc.push(b[r]));
        }
    }
}

/// Where a line ends.
pub proof fn lemma_line_end(b: Seq<u8>, r: int)
    requires
        0 <= r,
    ensures
        line_end(b, r) matches Some(e) ==> r < e <= b.len() && b[e - 1] == 10,
    decreases b.len() - r,
{
    if 0 <= r < b.len() && b[r] != 10 {
        lemma_line_end(b, r + 1);
    }
}

/// Where a heredoc's closing line is found.
pub proof fn lemma_find_close(b: Seq<u8>, r: int, d: Seq<u8>)
    requires
        0 <= r,
    ensures
        find_close(b, r, d) matches Close::Closed(c, e) ==> r <= c < e <= b.len() && b[e - 1]
            == 10 && (c == r || b[c - 1] == 10),
    decreases b.len() - r,
{
    if 0 <= r < b.len() {
        lemma_line_end(b, r);
        if let Some(e) = line_end(b, r) {
            if trim_end(b.subrange(r, e)) != d && r < e <= b.len() {
                lemma_find_close(b, e, d);
                lemma_line_end(b, r);
            }
        }
    }
}

/// What reading heredoc bodies gives.
pub proof fn lemma_read_heredocs(b: Seq<u8>, r: int, st: LexerStateV)
    requires
        1 <= r <= b.len(),
        b[r - 1] == 10,
        heredocs_ok(b, st.heredocs),
    ensures
        read_heredocs(b, r, st).0 matches Step::Emit(k, e) ==> r <= e <= b.len() && k is Newline
            && b[e - 1] == 10,
        heredocs_ok(b, read_heredocs(b, r, st).1.heredocs),
    decreases st.delimiters.len(),
{
    if st.delimiters.len() > 0 {
        let d = st.delimiters[0];
        let st1 = LexerStateV { delimiters: st.delimiters.drop_first(), ..st };
        lemma_find_close(b, r, d);
        if let Close::Closed(c, e) = find_close(b, r, d) {
            let st2 = LexerStateV { heredocs: st1.heredocs.push((r, c)), ..st1 };
            assert(heredocs_ok(b, st2.heredocs)) by {
                assert forall|i: int| 0 <= i < st2.heredocs.len() implies 0 <= (
                #[trigger] st2.heredocs[i]).0 <= st2.heredocs[i].1 <= b.len() && cut_ok(
                    b,
                    st2.heredocs[i].0,
                ) && cut_ok(b, st2.heredocs[i].1) by {
                    if i < st1.heredocs.len() {
                        assert(st2.heredocs[i] == st.heredocs[i]);
                    }
                }
            }
            lemma_read_heredocs(b, e, st2);
        }
    }
}

/// Every token that is read ends after it starts, within the input, at a cut position.
pub proof fn lemma_step_facts(b: Seq<u8>, q: int, st: LexerStateV)
    requires
        0 <= q < b.len(),
        heredocs_ok(b, st.heredocs),
    ensures
        step(b, q, st).0 matches Step::Emit(k, e) ==> q < e <= b.len() && cut_ok(b, e),
        heredocs_ok(b, step(b, q, st).1.heredocs),
{
    lemma_word_end(b, q);
    lemma_scan_quote_end(b, b[q], q + 1, Seq::empty());
    if b[q] == 10 {
        lemma_read_heredocs(b, q + 1, st);
    }
}

/// The facts that hold of the tokens read so far.
pub open spec fn toks_ok(b: Seq<u8>, toks: Seq<TknSpanV>) -> bool {
    &&& forall|i: int|
        0 <= i < toks.len() ==> 0 <= (#[trigger] toks[i]).start < toks[i].end <= b.len()
            && cut_ok(b, toks[i].start) && cut_ok(b, toks[i].end)
    &&& forall|i: int, j: int|
        0 <= i < j < toks.len() ==> (#[trigger] toks[i]).end <= (#[trigger] toks[j]).start
}

/// The tokens and heredoc bodies a lex reads are ranges of the input in order.
pub proof fn lemma_lex_from_facts(b: Seq<u8>, p: int, st: LexerStateV, toks: Seq<TknSpanV>)
    requires
        0 <= p <= b.len(),
        cut_ok(b, p),
        toks_ok(b, toks),
        toks.len() > 0 ==> toks[toks.len() - 1].end <= p,
        heredocs_ok(b, st.heredocs),
    ensures
        toks_ok(b, lex_from(b, p, st, toks).toks),
        heredocs_ok(b, lex_from(b, p, st, toks).st.heredocs),
    decreases b.len() - p,
{
    let q = skip_blanks(b, p);
    lemma_skip_blanks(b, p);
    if q < b.len() {
        lemma_step_facts(b, q, st);
        let (s, st1) = step(b, q, st);
        if let Step::Emit(k, e) = s {
            if p <= q < e <= b.len() {
                let t = TknSpanV { kind: k, start: q, end: e };
                let toks2 = toks.push(t);
                assert(cut_ok(b, q)) by {
                    if q > p {
                        assert(is_blank(b[q - 1]));
                    }
                }
                assert(toks_ok(b, toks2)) by {
                    assert forall|i: int, j: int|
                        0 <= i < j < toks2.len() implies (#[trigger] toks2[i]).end <= (
                        #[trigger] toks2[j]).start by {
                        if j == toks.len() {
                            assert(toks[i].end <= toks[toks.len() - 1].end);
                        }
                    }
                }
                lemma_lex_from_facts(b, e, st1, toks2);
            }
        }
    }
}

// ---------------------------------------------------------------------------
// The lexer, executable
// ---------------------------------------------------------------------------

fn skip_blanks_x(b: &[u8], p: usize) -> (q: usize)
    requires
        p <= b@.len(),
    ensures
        q == skip_blanks(b@, p as int),
{
    let mut i = p;
    while i < b.len() && blank_byte(b[i])
        invariant
            p <= i <= b@.len(),
            skip_blanks(b@, i as int) == skip_blanks(b@, p as int),
        decreases b@.len() - i,
    {
        i = i + 1;
    }
    i
}

fn word_end_x(b: &[u8], p: usize) -> (q: usize)
    requires
        p <= b@.len(),
    ensures
        q == word_end(b@, p as int),
{
    let mut i = p;
    while i < b.len() && word_byte(b[i])
        invariant
            p <= i <= b@.len(),
            word_end(b@, i as int) == word_end(b@, p as int),
        decreases b@.len() - i,
    {
        i = i + 1;
    }
    i
}

fn delim_end_x(b: &[u8], p: usize) -> (q: usize)
    requires
        p <= b@.len(),
    ensures
        q == delim_end(b@, p as int),
{
    let mut i = p;
    while i < b.len() && delim_byte(b[i])
        invariant
            p <= i <= b@.len(),
            delim_end(b@, i as int) == delim_end(b@, p as int),
        decreases b@.len() - i,
    {
        i = i + 1;
    }
    i
}

fn digit_str(d: usize) -> (r: &'static str)
    requires
        d < 10,
    ensures
        r@ == seq![((48 + d) as u8) as char],
{
    proof {
        reveal_strlit("0");
        reveal_strlit("1");
        reveal_strlit("2");
        reveal_strlit("3");
        reveal_strlit("4");
        reveal_strlit("5");
        reveal_strlit("6");
        reveal_strlit("7");
        reveal_strlit("8");
        reveal_strlit("9");
    }
    if d == 0 {
        "0"
    } else if d == 1 {
        "1"
    } else if d == 2 {
        "2"
    } else if d == 3 {
        "3"
    } else if d == 4 {
        "4"
    } else if d == 5 {
        "5"
    } else if d == 6 {
        "6"
    } else if d == 7 {
        "7"
    } else if d == 8 {
        "8"
    } else {
        "9"
    }
}

/// Appends the decimal digits of `n`.
fn push_dec(s: &mut String, n: usize)
    ensures
        final(s)@ == old(s)@ + dec_chars(n as nat),
    decreases n,
{
    if n >= 10 {
        push_dec(s, n / 10);
    }
    s.append(digit_str(n % 10));
    assert(final(s)@ =~= old(s)@ + dec_chars(n as nat));
}

/// Reads a quoted string whose opening quote `o` is at `start - 1`.
fn scan_quote_x(s: &str, b: &[u8], o: u8, start: usize) -> (r: (bool, String, usize))
    requires
        b@ == s.spec_bytes(),
        1 <= start <= b@.len(),
        b@[start - 1] == o,
        is_quote(o),
    ensures
        ({
            let sc = scan_quote(b@, o, start as int, Seq::empty());
            r.0 == sc.0 && sbytes(r.1) == sc.1 && r.2 == sc.2
        }),
{
    proof {
        encode_utf8_valid_utf8(s@);
    }
    let ghost goal = scan_quote(b@, o, start as int, Seq::empty());
    let n = b.len();
    let mut content = String::new();
    let mut ps = start;
    let mut i = start;
    proof {
        assert(sbytes(content) + b@.subrange(ps as int, i as int) =~= Seq::<u8>::empty());
    }
    while i < n
        invariant
            n == b@.len(),
            b@ == s.spec_bytes(),
            valid_utf8(b@),
            1 <= ps <= i <= n,
            b@[ps - 1] < 128,
            is_quote(o),
            goal == scan_quote(b@, o, start as int, Seq::empty()),
            scan_quote(b@, o, i as int, sbytes(content) + b@.subrange(ps as int, i as int)) == goal,
        decreases n - i,
    {
        let c = b[i];
        if c == o {
            proof {
                lemma_cut(b@, ps as int);
                lemma_cut(b@, i as int);
            }
            push_str(&mut content, substr(s, ps, i));
            return (true, content, i + 1);
        } else if c == 92 && o != 39 {
            proof {
                lemma_cut(b@, ps as int);
                lemma_cut(b@, i as int);
            }
            let ghost acc = sbytes(content) + b@.subrange(ps as int, i as int);
            push_str(&mut content, substr(s, ps, i));
            if i + 1 >= n {
                return (false, content, n);
            }
            ps = i + 1;
            i = i + 2;
            assert(sbytes(content) + b@.subrange(ps as int, i as int) =~= acc.push(b@[ps as int]));
        } else {
            let ghost acc = sbytes(content) + b@.subrange(ps as int, i as int);
            i = i + 1;
            assert(sbytes(content) + b@.subrange(ps as int, i as int) =~= acc.push(b@[i - 1]));
        }
    }
    proof {
        lemma_cut(b@, ps as int);
        lemma_cut(b@, n as int);
    }
    push_str(&mut content, substr(s, ps, n));
    (false, content, n)
}


/// The result of looking past an operator.
enum LookX {
    Target(String),
    NewlineNext,
    Failed(usize),
    Unclosed,
    Group,
}

spec fn look_view(l: LookX) -> Look {
    match l {
        LookX::Target(t) => Look::Target(sbytes(t)),
        LookX::NewlineNext => Look::NewlineNext,
        LookX::Failed(p) => Look::Failed(p as int),
        LookX::Unclosed => Look::Unclosed,
        LookX::Group => Look::Group,
    }
}

/// A position where a string may be cut: an end, an ASCII byte, or right after one.
pub open spec fn cut_ok(b: Seq<u8>, p: int) -> bool {
    p == 0 || p == b.len() || b[p] < 128 || b[p - 1] < 128
}

fn lookahead_x(st: &mut LexerState, s: &str, b: &[u8], p: usize) -> (r: LookX)
    requires
        b@ == s.spec_bytes(),
        1 <= p <= b@.len(),
        b@[p - 1] < 128,
    ensures
        look_view(r) == lookahead(b@, p as int, old(st)@).0,
        final(st)@ == lookahead(b@, p as int, old(st)@).1,
{
    broadcast use lemma_state_fields;

    proof {
        encode_utf8_valid_utf8(s@);
        lemma_skip_blanks(b@, p as int);
    }
    let q = skip_blanks_x(b, p);
    if q >= b.len() {
        return LookX::Failed(q);
    }
    let c = b[q];
    proof {
        lemma_cut(b@, q as int);
    }
    if quote_byte(c) {
        let (closed, content, _end) = scan_quote_x(s, b, c, q + 1);
        if closed {
            LookX::Target(content)
        } else {
            proof {
                lemma_cut(b@, q + 1);
            }
            let one = substr(s, q, q + 1);
            assert(one.spec_bytes() =~= seq![c]);
            st.expected_closer = Some(owned(one));
            LookX::Unclosed
        }
    } else if c == 10 {
        LookX::NewlineNext
    } else if c == 40 {
        LookX::Group
    } else if delim_byte(c) {
        proof {
            lemma_delim_end(b@, q as int);
        }
        let e = delim_end_x(b, q);
        proof {
            lemma_cut(b@, e as int);
        }
        LookX::Target(owned(substr(s, q, e)))
    } else {
        LookX::Failed(q + 1)
    }
}

/// The result of reading one token.
enum StepX {
    Emit(Tkn, usize),
    Error,
    Panic,
}

spec fn step_view(x: StepX) -> Step {
    match x {
        StepX::Emit(k, e) => Step::Emit(k@, e as int),
        StepX::Error => Step::Error,
        StepX::Panic => Step::Panic,
    }
}

fn redirect_x(st: &mut LexerState, s: &str, b: &[u8], q: usize, e: usize, kind: Tkn) -> (r: StepX)
    requires
        b@ == s.spec_bytes(),
        q < e <= b@.len(),
        forall|i: int| q <= i < e ==> b@[i] < 128,
    ensures
        step_view(r) == redirect_step(b@, q as int, e as int, kind@, old(st)@).0,
        final(st)@ == redirect_step(b@, q as int, e as int, kind@, old(st)@).1,
{
    broadcast use lemma_state_fields;

    let look = lookahead_x(st, s, b, e);
    match look {
        LookX::Unclosed => StepX::Error,
        LookX::Target(_) => StepX::Emit(kind, e),
        _ => {
            proof {
                encode_utf8_valid_utf8(s@);
                lemma_cut(b@, q as int);
                lemma_cut(b@, e as int);
            }
            let mut m = owned("not a valid delimiter for ");
            push_str(&mut m, substr(s, q, e));
            st.syntax_err = Some(m);
            StepX::Error
        },
    }
}

fn operator_x(st: &mut LexerState, s: &str, b: &[u8], q: usize, e: usize, kind: Tkn) -> (r: StepX)
    requires
        b@ == s.spec_bytes(),
        q < e <= b@.len(),
        forall|i: int| q <= i < e ==> b@[i] < 128,
    ensures
        step_view(r) == operator_step(b@, q as int, e as int, kind@, old(st)@).0,
        final(st)@ == operator_step(b@, q as int, e as int, kind@, old(st)@).1,
{
    broadcast use lemma_state_fields;

    let look = lookahead_x(st, s, b, e);
    match look {
        LookX::Unclosed => StepX::Error,
        LookX::Target(_) | LookX::Group => {
            st.continuation_for = None;
            StepX::Emit(kind, e)
        },
        LookX::NewlineNext => {
            proof {
                encode_utf8_valid_utf8(s@);
                lemma_cut(b@, q as int);
                lemma_cut(b@, e as int);
            }
            st.continuation_for = Some(owned(substr(s, q, e)));
            StepX::Emit(kind, e)
        },
        LookX::Failed(pos) => {
            let mut m = String::from_str("parse error near ");
            push_dec(&mut m, pos);
            st.syntax_err = Some(m);
            StepX::Error
        },
    }
}

fn heredoc_x(st: &mut LexerState, s: &str, b: &[u8], e: usize) -> (r: StepX)
    requires
        b@ == s.spec_bytes(),
        1 <= e <= b@.len(),
        b@[e - 1] < 128,
    ensures
        step_view(r) == heredoc_step(b@, e as int, old(st)@).0,
        final(st)@ == heredoc_step(b@, e as int, old(st)@).1,
{
    broadcast use lemma_state_fields;

    let look = lookahead_x(st, s, b, e);
    match look {
        LookX::Unclosed => StepX::Error,
        LookX::Target(d) => {
            let ghost before = st@;
            st.delimiters.push_back(d);
            assert(st@.delimiters =~= before.delimiters.push(sbytes(d)));
            StepX::Emit(Tkn::Heredoc, e)
        },
        _ => {
            let mut m = owned("not a valid delimiter for ");
            push_str(&mut m, "<<");
            st.syntax_err = Some(m);
            StepX::Error
        },
    }
}


fn line_end_x(b: &[u8], r: usize) -> (o: Option<usize>)
    requires
        r <= b@.len(),
    ensures
        o == (match line_end(b@, r as int) {
            Some(e) => Some(e as usize),
            None => None::<usize>,
        }),
        o matches Some(e) ==> line_end(b@, r as int) == Some(e as int),
        o is None ==> line_end(b@, r as int) is None,
{
    proof {
        lemma_line_end(b@, r as int);
    }
    let mut i = r;
    while i < b.len()
        invariant
            r <= i <= b@.len(),
            line_end(b@, i as int) == line_end(b@, r as int),
        decreases b@.len() - i,
    {
        if b[i] == 10 {
            return Some(i + 1);
        }
        i = i + 1;
    }
    None
}

fn ws_suffix_len_x(b: &[u8], r: usize, t: usize) -> (k: usize)
    requires
        r <= t <= b@.len(),
    ensures
        k == ws_suffix_len(b@.subrange(r as int, t as int)),
{
    let ghost x = b@.subrange(r as int, t as int);
    let n = t - r;
    if n >= 1 {
        let c = b[t - 1];
        if c == 9 || c == 10 || c == 11 || c == 12 || c == 13 || c == 32 {
            return 1;
        }
    }
    if n >= 2 {
        let c1 = b[t - 2];
        let c2 = b[t - 1];
        if c1 == 0xc2 && (c2 == 0x85 || c2 == 0xa0) {
            return 2;
        }
    }
    if n >= 3 {
        let c1 = b[t - 3];
        let c2 = b[t - 2];
        let c3 = b[t - 1];
        if (c1 == 0xe1 && c2 == 0x9a && c3 == 0x80) || (c1 == 0xe2 && c2 == 0x80 && ((0x80 <= c3
            && c3 <= 0x8a) || c3 == 0xa8 || c3 == 0xa9 || c3 == 0xaf)) || (c1 == 0xe2 && c2 == 0x81
            && c3 == 0x9f) || (c1 == 0xe3 && c2 == 0x80 && c3 == 0x80) {
            return 3;
        }
    }
    0
}

/// The end of the line `r..e` without its trailing white space.
fn trim_end_x(b: &[u8], r: usize, e: usize) -> (t: usize)
    requires
        r <= e <= b@.len(),
    ensures
        r <= t <= e,
        b@.subrange(r as int, t as int) == trim_end(b@.subrange(r as int, e as int)),
{
    let mut t = e;
    loop
        invariant
            r <= t <= e <= b@.len(),
            trim_end(b@.subrange(r as int, t as int)) == trim_end(b@.subrange(r as int, e as int)),
        decreases t - r,
    {
        let k = ws_suffix_len_x(b, r, t);
        if k == 0 || k > t - r {
            return t;
        }
        assert(b@.subrange(r as int, t as int).subrange(0, (t - r) - k) =~= b@.subrange(
            r as int,
            (t - k) as int,
        ));
        t = t - k;
    }
}

fn bytes_eq_x(b: &[u8], r: usize, t: usize, d: &[u8]) -> (eq: bool)
    requires
        r <= t <= b@.len(),
    ensures
        eq == (b@.subrange(r as int, t as int) == d@),
{
    if t - r != d.len() {
        assert(b@.subrange(r as int, t as int).len() != d@.len());
        return false;
    }
    let mut i: usize = 0;
    while i < d.len()
        invariant
            r <= t <= b@.len(),
            t - r == d@.len(),
            i <= d@.len(),
            forall|j: int| 0 <= j < i ==> b@[r + j] == d@[j],
        decreases d@.len() - i,
    {
        if b[r + i] != d[i] {
            assert(b@.subrange(r as int, t as int)[i as int] != d@[i as int]);
            return false;
        }
        i = i + 1;
    }
    assert(b@.subrange(r as int, t as int) =~= d@);
    true
}

enum CloseX {
    Closed(usize, usize),
    Unclosed,
    Panic,
}

fn find_close_x(b: &[u8], r: usize, d: &[u8]) -> (c: CloseX)
    requires
        r <= b@.len(),
    ensures
        match c {
            CloseX::Closed(x, y) => find_close(b@, r as int, d@) == Close::Closed(x as int, y as int),
            CloseX::Unclosed => find_close(b@, r as int, d@) is Unclosed,
            CloseX::Panic => find_close(b@, r as int, d@) is Panic,
        },
{
    let mut i = r;
    loop
        invariant
            r <= i <= b@.len(),
            find_close(b@, i as int, d@) == find_close(b@, r as int, d@),
        decreases b@.len() - i,
    {
        if i >= b.len() {
            return CloseX::Unclosed;
        }
        proof {
            lemma_line_end(b@, i as int);
        }
        match line_end_x(b, i) {
            None => {
                return CloseX::Panic;
            },
            Some(e) => {
                let t = trim_end_x(b, i, e);
                if bytes_eq_x(b, i, t, d) {
                    return CloseX::Closed(i, e);
                }
                i = e;
            },
        }
    }
}

/// Whether every recorded heredoc body lies between cut positions of `b`.
pub open spec fn heredocs_ok(b: Seq<u8>, h: Seq<(int, int)>) -> bool {
    forall|i: int|
        0 <= i < h.len() ==> 0 <= (#[trigger] h[i]).0 <= h[i].1 <= b.len() && cut_ok(b, h[i].0)
            && cut_ok(b, h[i].1)
}

fn read_heredocs_x(st: &mut LexerState, b: &[u8], r: usize) -> (x: StepX)
    requires
        r <= b@.len(),
    ensures
        step_view(x) == read_heredocs(b@, r as int, old(st)@).0,
        final(st)@ == read_heredocs(b@, r as int, old(st)@).1,
{
    broadcast use lemma_state_fields;

    let ghost goal = read_heredocs(b@, r as int, st@);
    let mut pos = r;
    loop
        invariant
            pos <= b@.len(),
            goal == read_heredocs(b@, r as int, old(st)@),
            read_heredocs(b@, pos as int, st@) == goal,
        decreases st@.delimiters.len(),
    {
        if st.delimiters.len() == 0 {
            assert(st@.delimiters.len() == 0);
            return StepX::Emit(Tkn::Newline, pos);
        }
        let ghost before = st@;
        let d = st.delimiters.pop_front().unwrap();
        assert(st@.delimiters =~= before.delimiters.drop_first());
        assert(sbytes(d) == before.delimiters[0]);
        proof {
            lemma_find_close(b@, pos as int, sbytes(d));
        }
        match find_close_x(b, pos, d.as_str().as_bytes()) {
            CloseX::Panic => {
                return StepX::Panic;
            },
            CloseX::Unclosed => {
                st.expected_closer = Some(d);
                return StepX::Error;
            },
            CloseX::Closed(c, e) => {
                let ghost mid = st@;
                st.heredocs.push((pos, c));
                assert(st@.heredocs =~= mid.heredocs.push((pos as int, c as int)));
                pos = e;
            },
        }
    }
}


/// Reads the token that starts at `q`.
fn step_x(st: &mut LexerState, s: &str, b: &[u8], q: usize) -> (x: StepX)
    requires
        b@ == s.spec_bytes(),
        q < b@.len(),
    ensures
        step_view(x) == step(b@, q as int, old(st)@).0,
        final(st)@ == step(b@, q as int, old(st)@).1,
{
    broadcast use lemma_state_fields;

    let c = b[q];
    let two = q + 1 < b.len() && b[q + 1] == c;
    if word_byte(c) {
        StepX::Emit(Tkn::Word, word_end_x(b, q))
    } else if c == 60 {
        if two {
            heredoc_x(st, s, b, q + 2)
        } else {
            redirect_x(st, s, b, q, q + 1, Tkn::RedirectIn)
        }
    } else if c == 62 {
        if two {
            redirect_x(st, s, b, q, q + 2, Tkn::RedirectAppend)
        } else {
            redirect_x(st, s, b, q, q + 1, Tkn::RedirectOut)
        }
    } else if c == 124 {
        if two {
            operator_x(st, s, b, q, q + 2, Tkn::CmdOr)
        } else {
            operator_x(st, s, b, q, q + 1, Tkn::Pipe)
        }
    } else if c == 38 {
        if two {
            operator_x(st, s, b, q, q + 2, Tkn::CmdAnd)
        } else {
            StepX::Emit(Tkn::And, q + 1)
        }
    } else if c == 92 {
        operator_x(st, s, b, q, q + 1, Tkn::Backslash)
    } else if c == 59 {
        StepX::Emit(Tkn::Semicolon, q + 1)
    } else if quote_byte(c) {
        let (closed, content, end) = scan_quote_x(s, b, c, q + 1);
        if closed {
            StepX::Emit(Tkn::Quote(content), end)
        } else {
            proof {
                encode_utf8_valid_utf8(s@);
                lemma_cut(b@, q as int);
                lemma_cut(b@, q + 1);
            }
            let one = substr(s, q, q + 1);
            assert(one.spec_bytes() =~= seq![c]);
            st.expected_closer = Some(owned(one));
            StepX::Error
        }
    } else if c == 40 {
        st.group_closers.push_front(')');
        StepX::Emit(Tkn::LParen, q + 1)
    } else if c == 41 {
        if st.group_closers.len() > 0 && st.group_closers[0] == ')' {
            let _ = st.group_closers.pop_front();
            StepX::Emit(Tkn::RParen, q + 1)
        } else {
            StepX::Error
        }
    } else if c == 10 {
        read_heredocs_x(st, b, q + 1)
    } else {
        StepX::Error
    }
}


/// The views of a list of tokens.
pub open spec fn toks_view(toks: Seq<TknSpan>) -> Seq<TknSpanV> {
    toks.map_values(|t: TknSpan| t@)
}

/// A token range that can be cut out of the command line.
pub open spec fn span_ok(b: Seq<u8>, start: int, end: int) -> bool {
    0 <= start <= end <= b.len() && is_char_boundary(b, start) && is_char_boundary(b, end)
}

fn needs_more_x(k: &Tkn) -> (r: bool)
    ensures
        r == needs_more(k@),
{
    match k {
        Tkn::Semicolon | Tkn::Pipe | Tkn::CmdOr | Tkn::CmdAnd | Tkn::Backslash => true,
        _ => false,
    }
}

/// Lexes a command line with a fresh state. Gives the tokens and the heredoc
/// bodies when the line is complete; gives `None` when it is invalid or needs
/// more input, and leaves in `state` why (a syntax error, an expected closing
/// quote or heredoc delimiter, an operator that needs a continuation, or an
/// unclosed parenthesis).
pub fn lex_cmd_buf<'a>(state: &mut LexerState, cmd_buf: &'a str) -> (r: Option<
    (Vec<TknSpan>, VecDeque<&'a str>),
>)
    requires
        old(state)@ == fresh_state(),
        !lex_panics(cmd_buf.spec_bytes()),
    ensures
        final(state)@ == lex(cmd_buf.spec_bytes()).st,
        r is Some <==> lex_complete(lex(cmd_buf.spec_bytes())),
        r matches Some((toks, docs)) ==> {
            let run = lex(cmd_buf.spec_bytes());
            &&& toks_view(toks@) == run.toks
            &&& docs@.len() == run.st.heredocs.len()
            &&& forall|i: int|
                0 <= i < docs@.len() ==> (#[trigger] docs@[i]).spec_bytes()
                    == cmd_buf.spec_bytes().subrange(run.st.heredocs[i].0, run.st.heredocs[i].1)
        },
{
    broadcast use lemma_state_fields;

    let b = cmd_buf.as_bytes();
    let ghost bs = b@;
    let ghost goal = lex(bs);
    let mut toks: Vec<TknSpan> = Vec::new();
    let mut p: usize = 0;
    proof {
        encode_utf8_valid_utf8(cmd_buf@);
        assert(toks_view(toks@) =~= Seq::<TknSpanV>::empty());
        lemma_lex_from_facts(bs, 0, fresh_state(), Seq::empty());
    }
    loop
        invariant
            b@ == bs,
            bs == cmd_buf.spec_bytes(),
            goal == lex(bs),
            !(goal.end is Panicked),
            p <= bs.len(),
            heredocs_ok(bs, state@.heredocs),
            lex_from(bs, p as int, state@, toks_view(toks@)) == goal,
        ensures
            goal == lex(bs),
            bs == cmd_buf.spec_bytes(),
            b@ == bs,
            goal.toks == toks_view(toks@),
            goal.st == state@,
            goal.end is Finished,
        decreases bs.len() - p,
    {
        proof {
            lemma_skip_blanks(bs, p as int);
        }
        let q = skip_blanks_x(b, p);
        if q >= b.len() {
            break;
        }
        proof {
            lemma_step_facts(bs, q as int, state@);
        }
        let ghost before = toks_view(toks@);
        match step_x(state, cmd_buf, b, q) {
            StepX::Panic => {
                assert(false);
                return None;
            },
            StepX::Error => {
                return None;
            },
            StepX::Emit(k, e) => {
                toks.push(TknSpan { kind: k, span: Range { start: q, end: e } });
                assert(toks_view(toks@) =~= before.push(TknSpanV { kind: k@, start: q as int, end: e as int }));
                p = e;
            },
        }
    }
    proof {
        lemma_lex_from_facts(bs, 0, fresh_state(), Seq::empty());
    }
    if state.group_closers.len() > 0 {
        return None;
    }
    let n = toks.len();
    if n >= 2 && needs_more_x(&toks[n - 2].kind) {
        return None;
    }
    let mut docs: VecDeque<&'a str> = VecDeque::new();
    let mut i: usize = 0;
    while i < state.heredocs.len()
        invariant
            bs == cmd_buf.spec_bytes(),
            valid_utf8(bs),
            goal == lex(bs),
            state@ == goal.st,
            heredocs_ok(bs, goal.st.heredocs),
            i <= goal.st.heredocs.len(),
            docs@.len() == i,
            forall|j: int|
                0 <= j < i ==> (#[trigger] docs@[j]).spec_bytes() == bs.subrange(
                    goal.st.heredocs[j].0,
                    goal.st.heredocs[j].1,
                ),
        decreases goal.st.heredocs.len() - i,
    {
        let (a, c) = state.heredocs[i];
        assert(goal.st.heredocs[i as int] == (a as int, c as int));
        proof {
            lemma_cut(bs, a as int);
            lemma_cut(bs, c as int);
        }
        docs.push_back(substr(cmd_buf, a, c));
        i = i + 1;
    }
    Some((toks, docs))
}


proof fn lemma_read_heredocs_kind(b: Seq<u8>, r: int, st: LexerStateV)
    ensures
        read_heredocs(b, r, st).0 matches Step::Emit(k, _) ==> k is Newline,
    decreases st.delimiters.len(),
{
    if st.delimiters.len() > 0 {
        let d = st.delimiters[0];
        let st1 = LexerStateV { delimiters: st.delimiters.drop_first(), ..st };
        if let Close::Closed(c, e) = find_close(b, r, d) {
            lemma_read_heredocs_kind(b, e, LexerStateV { heredocs: st1.heredocs.push((r, c)), ..st1 });
        }
    }
}

/// Whether lexing `cmd_buf` from a fresh state runs into an input the lexer
/// cannot take (a heredoc body whose last line has no newline):
/// `lex_cmd_buf` must not be given such a command buffer.
pub fn lex_would_panic(cmd_buf: &str) -> (r: bool)
    ensures
        r == lex_panics(cmd_buf.spec_bytes()),
{
    let mut state = LexerState::new();
    let b = cmd_buf.as_bytes();
    let ghost bs = b@;
    let ghost goal = lex(bs);
    let mut toks: Vec<TknSpan> = Vec::new();
    let mut p: usize = 0;
    proof {
        encode_utf8_valid_utf8(cmd_buf@);
        assert(toks_view(toks@) =~= Seq::<TknSpanV>::empty());
        lemma_lex_from_facts(bs, 0, fresh_state(), Seq::empty());
    }
    loop
        invariant
            b@ == bs,
            bs == cmd_buf.spec_bytes(),
            goal == lex(bs),
            p <= bs.len(),
            heredocs_ok(bs, state@.heredocs),
            lex_from(bs, p as int, state@, toks_view(toks@)) == goal,
        decreases bs.len() - p,
    {
        proof {
            lemma_skip_blanks(bs, p as int);
        }
        let q = skip_blanks_x(b, p);
        if q >= b.len() {
            return false;
        }
        proof {
            lemma_step_facts(bs, q as int, state@);
        }
        let ghost before = toks_view(toks@);
        match step_x(&mut state, cmd_buf, b, q) {
            StepX::Panic => {
                return true;
            },
            StepX::Error => {
                return false;
            },
            StepX::Emit(k, e) => {
                toks.push(TknSpan { kind: k, span: Range { start: q, end: e } });
                assert(toks_view(toks@) =~= before.push(TknSpanV { kind: k@, start: q as int, end: e as int }));
                p = e;
            },
        }
    }
}

proof fn lemma_line_end_found(b: Seq<u8>, r: int)
    requires
        b.len() > 0,
        b[b.len() - 1] == 10,
        0 <= r < b.len(),
    ensures
        line_end(b, r) is Some,
    decreases b.len() - r,
{
    if b[r] != 10 {
        lemma_line_end_found(b, r + 1);
    }
}

proof fn lemma_find_close_no_panic(b: Seq<u8>, r: int, d: Seq<u8>)
    requires
        b.len() > 0,
        b[b.len() - 1] == 10,
    ensures
        !(find_close(b, r, d) is Panic),
    decreases b.len() - r,
{
    if 0 <= r < b.len() {
        lemma_line_end_found(b, r);
        if let Some(e) = line_end(b, r) {
            if trim_end(b.subrange(r, e)) != d && r < e <= b.len() {
                lemma_find_close_no_panic(b, e, d);
            }
        }
    }
}

proof fn lemma_read_heredocs_no_panic(b: Seq<u8>, r: int, st: LexerStateV)
    requires
        b.len() > 0,
        b[b.len() - 1] == 10,
    ensures
        !(read_heredocs(b, r, st).0 is Panic),
    decreases st.delimiters.len(),
{
    if st.delimiters.len() > 0 {
        let d = st.delimiters[0];
        let st1 = LexerStateV { delimiters: st.delimiters.drop_first(), ..st };
        lemma_find_close_no_panic(b, r, d);
        if let Close::Closed(c, e) = find_close(b, r, d) {
            lemma_read_heredocs_no_panic(b, e, LexerStateV { heredocs: st1.heredocs.push((r, c)), ..st1 });
        }
    }
}

proof fn lemma_lex_from_no_panic(b: Seq<u8>, p: int, st: LexerStateV, toks: Seq<TknSpanV>)
    requires
        b.len() > 0,
        b[b.len() - 1] == 10,
    ensures
        !(lex_from(b, p, st, toks).end is Panicked),
    decreases b.len() - p,
{
    let q = skip_blanks(b, p);
    if 0 <= q < b.len() {
        lemma_read_heredocs_no_panic(b, q + 1, st);
        let (s, st1) = step(b, q, st);
        if let Step::Emit(k, e) = s {
            if p <= q < e <= b.len() {
                lemma_lex_from_no_panic(b, e, st1, toks.push(TknSpanV { kind: k, start: q, end: e }));
            }
        }
    }
}

/// A command buffer that ends with a newline, as the prompt loop builds
/// them, never makes the lexer panic: only a heredoc body whose last line has
/// no newline does.
pub proof fn lemma_newline_ended_never_panics(b: Seq<u8>)
    requires
        b.len() > 0,
        b[b.len() - 1] == 10,
    ensures
        !lex_panics(b),
{
    lemma_lex_from_no_panic(b, 0, fresh_state(), Seq::empty());
}

/// `<<` records the delimiter that follows it for the heredoc body to come;
/// a missing or unusable delimiter is a syntax error, and an unclosed quoted
/// one asks for more input.
pub proof fn lemma_heredoc_operator(b: Seq<u8>, e: int, st: LexerStateV)
    ensures
        match heredoc_step(b, e, st) {
            (Step::Emit(k, e2), st2) => k is Heredoc && e2 == e && (lookahead(b, e, st).0 matches Look::Target(
                d,
            ) && st2 == (LexerStateV { delimiters: st.delimiters.push(d), ..st })),
            (Step::Error, st2) => match lookahead(b, e, st).0 {
                Look::Unclosed => st2.expected_closer is Some && st2.syntax_err == st.syntax_err,
                _ => st2.syntax_err == Some(bad_target_msg(encode_utf8("<<"@))),
            },
            (Step::Panic, _) => false,
        },
{
}

/// The text of a string in single quotes is the bytes up to the next single
/// quote, unchanged; in other quotes, where no backslash comes before the
/// closing quote, it is the bytes up to that quote. Either way the string
/// ends right after the first matching quote.
pub proof fn lemma_quote_text(b: Seq<u8>, o: u8, r: int, acc: Seq<u8>)
    requires
        0 <= r <= b.len(),
        scan_quote(b, o, r, acc).0,
        o == 39 || forall|i: int| r <= i < scan_quote(b, o, r, acc).2 && i < b.len() ==> b[i] != 92,
    ensures
        ({
            let (_, text, e) = scan_quote(b, o, r, acc);
            &&& r < e <= b.len()
            &&& b[e - 1] == o
            &&& text == acc + b.subrange(r, e - 1)
            &&& forall|i: int| r <= i < e - 1 ==> b[i] != o
        }),
    decreases b.len() - r,
{
    if r < b.len() && b[r] != o {
        if b[r] == 92 && o != 39 {
            if r + 1 < b.len() {
                lemma_scan_quote_end(b, o, r + 2, acc.push(b[r + 1]));
            }
            assert(b[r] != 92);
        } else {
            lemma_quote_text(b, o, r + 1, acc.push(b[r]));
            let e = scan_quote(b, o, r, acc).2;
            assert(acc.push(b[r]) + b.subrange(r + 1, e - 1) =~= acc + b.subrange(r, e - 1));
        }
    } else if r < b.len() {
        assert(b.subrange(r, r) =~= Seq::<u8>::empty());
        assert(acc + Seq::<u8>::empty() =~= acc);
    }
}

/// Where the `j`-th heredoc body being read starts: right after the newline
/// for the first, after the previous closing line for the others.
pub open spec fn body_start(b: Seq<u8>, r: int, h: Seq<(int, int)>, m: int, j: int) -> int {
    if j == 0 {
        r
    } else {
        match line_end(b, h[m + j - 1].1) {
            Some(e) => e,
            None => b.len() as int,
        }
    }
}

proof fn lemma_scan_acc(b: Seq<u8>, o: u8, r: int, acc: Seq<u8>)
    ensures
        scan_quote(b, o, r, acc).0 == scan_quote(b, o, r, Seq::empty()).0,
        scan_quote(b, o, r, acc).1 == acc + scan_quote(b, o, r, Seq::empty()).1,
        scan_quote(b, o, r, acc).2 == scan_quote(b, o, r, Seq::empty()).2,
    decreases b.len() - r,
{
    let e = Seq::<u8>::empty();
    if r < 0 || r >= b.len() {
        assert(acc + e =~= acc);
    } else if b[r] == o {
        assert(acc + e =~= acc);
    } else if b[r] == 92 && o != 39 {
        if r + 1 >= b.len() {
            assert(acc + e =~= acc);
        } else {
            lemma_scan_acc(b, o, r + 2, acc.push(b[r + 1]));
            lemma_scan_acc(b, o, r + 2, e.push(b[r + 1]));
            let t = scan_quote(b, o, r + 2, e).1;
            assert(acc.push(b[r + 1]) + t =~= acc + (e.push(b[r + 1]) + t));
        }
    } else {
        lemma_scan_acc(b, o, r + 1, acc.push(b[r]));
        lemma_scan_acc(b, o, r + 1, e.push(b[r]));
        let t = scan_quote(b, o, r + 1, e).1;
        assert(acc.push(b[r]) + t =~= acc + (e.push(b[r]) + t));
    }
}

proof fn lemma_scan_shift(pre: Seq<u8>, y: Seq<u8>, o: u8, r: int, acc: Seq<u8>)
    requires
        0 <= r <= y.len(),
    ensures
        scan_quote(pre + y, o, pre.len() + r, acc) == {
            let s = scan_quote(y, o, r, acc);
            (s.0, s.1, s.2 + pre.len())
        },
    decreases y.len() - r,
{
    let b = pre + y;
    let i = pre.len() + r;
    if r < y.len() {
        assert(b[i] == y[r]);
        if i + 1 < b.len() {
            assert(b[i + 1] == y[r + 1]);
        }
        if y[r] == o {
        } else if y[r] == 92 && o != 39 {
            if r + 1 < y.len() {
                lemma_scan_shift(pre, y, o, r + 2, acc.push(y[r + 1]));
            }
        } else {
            lemma_scan_shift(pre, y, o, r + 1, acc.push(y[r]));
        }
    }
}

proof fn lemma_scan_plain(b: Seq<u8>, o: u8, r: int, i: int, acc: Seq<u8>)
    requires
        0 <= r <= i <= b.len(),
        forall|j: int| r <= j < i ==> b[j] != o && (o == 39 || b[j] != 92),
    ensures
        scan_quote(b, o, r, acc) == scan_quote(b, o, i, acc + b.subrange(r, i)),
    decreases i - r,
{
    if r == i {
        assert(acc + b.subrange(r, i) =~= acc);
    } else {
        lemma_scan_plain(b, o, r + 1, i, acc.push(b[r]));
        assert(acc.push(b[r]) + b.subrange(r + 1, i) =~= acc + b.subrange(r, i));
    }
}

/// Inside `"` or `` ` `` quotes, a backslash and the byte after it give that
/// byte alone, whatever it is (a quote included), and reading goes on after
/// it; inside `'` quotes a backslash is an ordinary byte and is kept.
/// Here `x` is text with no backslash and no closing quote.
pub proof fn lemma_quote_backslash(x: Seq<u8>, c: u8, y: Seq<u8>, o: u8, acc: Seq<u8>)
    requires
        o == 34 || o == 96 || o == 39,
        forall|i: int| 0 <= i < x.len() ==> x[i] != o && x[i] != 92,
    ensures
        o != 39 ==> ({
            let s = scan_quote(y, o, 0, Seq::empty());
            scan_quote(x + seq![92u8, c] + y, o, 0, acc) == (s.0, acc + x + seq![c] + s.1, s.2 + x.len() + 2)
        }),
        o == 39 && c != 39 ==> ({
            let s = scan_quote(y, o, 0, Seq::empty());
            scan_quote(x + seq![92u8, c] + y, o, 0, acc) == (s.0, acc + x + seq![92u8, c] + s.1, s.2 + x.len()
                + 2)
        }),
{
    let pre = x + seq![92u8, c];
    let b = pre + y;
    let n = x.len() as int;
    assert(b.subrange(0, n) =~= x);
    assert(b[n] == 92u8);
    assert(b[n + 1] == c);
    lemma_scan_plain(b, o, 0, n, acc);
    let s = scan_quote(y, o, 0, Seq::empty());
    if o != 39 {
        lemma_scan_shift(pre, y, o, 0, acc + x + seq![c]);
        lemma_scan_acc(y, o, 0, acc + x + seq![c]);
        assert((acc + x).push(c) =~= acc + x + seq![c]);
        assert(pre.len() == n + 2);
    } else if c != 39 {
        lemma_scan_plain(b, o, n, n + 2, acc + x);
        assert((acc + x) + b.subrange(n, n + 2) =~= acc + x + seq![92u8, c]);
        lemma_scan_shift(pre, y, o, 0, acc + x + seq![92u8, c]);
        lemma_scan_acc(y, o, 0, acc + x + seq![92u8, c]);
    }
}

/// When a heredoc has no closing line, reading the bodies stops at the first
/// such heredoc: the bodies before it are read, each up to its closing line,
/// no closing line for it follows where its body starts, its delimiter is
/// the expected closer, and no syntax error is added.
pub proof fn lemma_unclosed_heredoc(b: Seq<u8>, r: int, st: LexerStateV)
    requires
        0 <= r,
        read_heredocs(b, r, st).0 is Error,
    ensures
        ({
            let st2 = read_heredocs(b, r, st).1;
            let m = st.heredocs.len() as int;
            let h = st2.heredocs;
            exists|i: int|
                #![trigger st.delimiters[i]]
                {
                    &&& 0 <= i < st.delimiters.len()
                    &&& st2.expected_closer == Some(st.delimiters[i])
                    &&& h.len() == m + i
                    &&& h.subrange(0, m) == st.heredocs
                    &&& find_close(b, body_start(b, r, h, m, i), st.delimiters[i]) is Unclosed
                    &&& forall|j: int|
                        0 <= j < i ==> (line_end(b, #[trigger] h[m + j].1) matches Some(e) && trim_end(
                            b.subrange(h[m + j].1, e),
                        ) == st.delimiters[j] && h[m + j].0 == body_start(b, r, h, m, j))
                }
        }),
        read_heredocs(b, r, st).1.syntax_err == st.syntax_err,
    decreases st.delimiters.len(),
{
    let m = st.heredocs.len() as int;
    let d = st.delimiters[0];
    let st1 = LexerStateV { delimiters: st.delimiters.drop_first(), ..st };
    match find_close(b, r, d) {
        Close::Closed(c, e) => {
            lemma_find_close_closed(b, r, d);
            lemma_line_end(b, c);
            let st2 = LexerStateV { heredocs: st1.heredocs.push((r, c)), ..st1 };
            lemma_unclosed_heredoc(b, e, st2);
            let st3 = read_heredocs(b, e, st2).1;
            let h = st3.heredocs;
            let i = choose|i: int|
                #![trigger st2.delimiters[i]]
                {
                    &&& 0 <= i < st2.delimiters.len()
                    &&& st3.expected_closer == Some(st2.delimiters[i])
                    &&& h.len() == (m + 1) + i
                    &&& h.subrange(0, m + 1) == st2.heredocs
                    &&& find_close(b, body_start(b, e, h, m + 1, i), st2.delimiters[i]) is Unclosed
                    &&& forall|j: int|
                        0 <= j < i ==> (line_end(b, #[trigger] h[(m + 1) + j].1) matches Some(e2) && trim_end(
                            b.subrange(h[(m + 1) + j].1, e2),
                        ) == st2.delimiters[j] && h[(m + 1) + j].0 == body_start(b, e, h, m + 1, j))
                };
            assert(st.delimiters[i + 1] == st2.delimiters[i]);
            assert(h[m] == h.subrange(0, m + 1)[m]);
            assert(h.subrange(0, m) =~= st.heredocs) by {
                assert forall|x: int| 0 <= x < m implies h.subrange(0, m)[x] == st.heredocs[x] by {
                    assert(h.subrange(0, m + 1)[x] == h[x]);
                    assert(st2.heredocs[x] == st.heredocs[x]);
                }
            }
            assert(body_start(b, r, h, m, i + 1) == body_start(b, e, h, m + 1, i)) by {
                if i > 0 {
                    assert(h[m + (i + 1) - 1] == h[(m + 1) + i - 1]);
                }
            }
            assert forall|j: int| 0 <= j < i + 1 implies (line_end(b, #[trigger] h[m + j].1) matches Some(e2)
                && trim_end(b.subrange(h[m + j].1, e2)) == st.delimiters[j] && h[m + j].0 == body_start(
                b,
                r,
                h,
                m,
                j,
            )) by {
                if j > 0 {
                    assert(st2.delimiters[j - 1] == st.delimiters[j]);
                    assert(h[(m + 1) + (j - 1)] == h[m + j]);
                    if j - 1 > 0 {
                        assert(h[(m + 1) + (j - 1) - 1] == h[m + j - 1]);
                    }
                }
            }
        },
        _ => {
            assert(st.heredocs.subrange(0, m) =~= st.heredocs);
        },
    }
}

proof fn lemma_find_close_closed(b: Seq<u8>, r: int, d: Seq<u8>)
    requires
        0 <= r,
        find_close(b, r, d) is Closed,
    ensures
        ({
            let (c, e) = (find_close(b, r, d)->Closed_0, find_close(b, r, d)->Closed_1);
            &&& r <= c
            &&& line_end(b, c) == Some(e)
            &&& trim_end(b.subrange(c, e)) == d
        }),
    decreases b.len() - r,
{
    if 0 <= r < b.len() {
        if let Some(e) = line_end(b, r) {
            if trim_end(b.subrange(r, e)) != d && r < e <= b.len() {
                lemma_find_close_closed(b, e, d);
            }
        }
    }
}

/// When every heredoc is closed, each body runs from the line after the
/// newline (the first) or after the previous closing line (the others) up
/// to its own closing line, the line that is its delimiter up to trailing
/// white space; reading ends after the last closing line.
pub proof fn lemma_heredoc_bodies(b: Seq<u8>, r: int, st: LexerStateV)
    requires
        0 <= r,
        read_heredocs(b, r, st).0 is Emit,
    ensures
        ({
            let (s2, st2) = read_heredocs(b, r, st);
            let m = st.heredocs.len() as int;
            let k = st.delimiters.len() as int;
            let h = st2.heredocs;
            &&& h.len() == m + k
            &&& h.subrange(0, m) == st.heredocs
            &&& st2.delimiters.len() == 0
            &&& k == 0 ==> s2 == Step::Emit(TknV::Newline, r)
            &&& k > 0 ==> h[m].0 == r
            &&& forall|j: int| 0 <= j < k ==> (line_end(b, #[trigger] h[m + j].1) matches Some(e) && trim_end(
                b.subrange(h[m + j].1, e),
            ) == st.delimiters[j] && (j + 1 < k ==> h[m + j + 1].0 == e) && (j + 1 == k ==> s2
                == Step::Emit(TknV::Newline, e)))
        }),
    decreases st.delimiters.len(),
{
    let m = st.heredocs.len() as int;
    if st.delimiters.len() == 0 {
        assert(st.heredocs.subrange(0, m) =~= st.heredocs);
    } else {
        let d = st.delimiters[0];
        let st1 = LexerStateV { delimiters: st.delimiters.drop_first(), ..st };
        let (c, e) = (find_close(b, r, d)->Closed_0, find_close(b, r, d)->Closed_1);
        lemma_find_close_closed(b, r, d);
        let st2 = LexerStateV { heredocs: st1.heredocs.push((r, c)), ..st1 };
        lemma_line_end(b, c);
        lemma_heredoc_bodies(b, e, st2);
        let (s3, st3) = read_heredocs(b, e, st2);
        let h = st3.heredocs;
        let k = st.delimiters.len() as int;
        assert(h.subrange(0, m + 1) == st2.heredocs);
        assert(h[m] == st2.heredocs[m]);
        assert(h.subrange(0, m) =~= st.heredocs) by {
            assert forall|i: int| 0 <= i < m implies h.subrange(0, m)[i] == st.heredocs[i] by {
                assert(h.subrange(0, m + 1)[i] == h[i]);
                assert(st2.heredocs[i] == st.heredocs[i]);
            }
        }
        assert forall|j: int| 0 <= j < k implies (line_end(b, #[trigger] h[m + j].1) matches Some(e2)
            && trim_end(b.subrange(h[m + j].1, e2)) == st.delimiters[j] && (j + 1 < k ==> h[m + j + 1].0
            == e2) && (j + 1 == k ==> s3 == Step::Emit(TknV::Newline, e2))) by {
            if j == 0 {
                if k > 1 {
                    assert(h[m + 1] == h[(m + 1) + 0]);
                }
            } else {
                assert(st2.delimiters[j - 1] == st.delimiters[j]);
                assert(h[(m + 1) + (j - 1)] == h[m + j]);
                if j + 1 < k {
                    assert(h[(m + 1) + (j - 1) + 1] == h[m + j + 1]);
                }
            }
        }
    }
}

/// A redirection token, once read, is followed by another token whenever the
/// lex reads the whole input.
pub proof fn lemma_redirect_followed(b: Seq<u8>, p: int, st: LexerStateV, toks: Seq<TknSpanV>)
    requires
        toks.len() > 0 && (toks.last().kind is RedirectIn || toks.last().kind is RedirectOut
            || toks.last().kind is RedirectAppend) ==> lookahead(b, p, st).0 is Target,
    ensures
        lex_from(b, p, st, toks).toks.len() >= toks.len(),
        forall|i: int| 0 <= i < toks.len() ==> lex_from(b, p, st, toks).toks[i] == toks[i],
        lex_from(b, p, st, toks).end is Finished ==> forall|i: int|
            0 <= i < lex_from(b, p, st, toks).toks.len() && ((
            #[trigger] lex_from(b, p, st, toks).toks[i]).kind is RedirectIn
                || lex_from(b, p, st, toks).toks[i].kind is RedirectOut
                || lex_from(b, p, st, toks).toks[i].kind is RedirectAppend) ==> i + 1 < lex_from(
                b,
                p,
                st,
                toks,
            ).toks.len(),
    decreases b.len() - p,
{
    let q = skip_blanks(b, p);
    if q < 0 || q >= b.len() {
    } else {
        let (s, st1) = step(b, q, st);
        if let Step::Emit(k, e) = s {
            if p <= q < e <= b.len() {
                let t = TknSpanV { kind: k, start: q, end: e };
                let toks2 = toks.push(t);
                if k is RedirectIn || k is RedirectOut || k is RedirectAppend {
                    let c = b[q];
                    let two = q + 1 < b.len() && b[q + 1] == c;
                    assert(c == 60 || c == 62) by {
                        lemma_read_heredocs_kind(b, q + 1, st);
                        if c == 124 || c == 38 || c == 92 {
                            let (look, stl) = lookahead(b, e, st);
                            assert(!(k is RedirectIn || k is RedirectOut || k is RedirectAppend));
                        }
                    }
                    assert(!two || c == 62) by {
                        if two && c == 60 {
                            let (look, stl) = lookahead(b, q + 2, st);
                        }
                    }
                    let (look, stl) = lookahead(b, e, st);
                    assert(look is Target);
                    assert(stl == st);
                }
                assert(lex_from(b, p, st, toks) == lex_from(b, e, st1, toks2));
                lemma_redirect_followed(b, e, st1, toks2);
                assert forall|i: int| 0 <= i < toks.len() implies lex_from(b, p, st, toks).toks[i] == toks[i] by {
                    assert(toks2[i] == toks[i]);
                }
            }
        }
    }
}

/// Every token the lexer reads is a non-empty range of the command line that
/// starts and ends on character boundaries; the tokens come in order without
/// overlapping, and every heredoc body is a range between character boundaries.
pub proof fn lemma_lex_spans(b: Seq<u8>)
    requires
        valid_utf8(b),
    ensures
        forall|i: int|
            0 <= i < lex(b).toks.len() ==> (#[trigger] lex(b).toks[i]).start < lex(b).toks[i].end
                && span_ok(b, lex(b).toks[i].start, lex(b).toks[i].end),
        forall|i: int, j: int|
            0 <= i < j < lex(b).toks.len() ==> (#[trigger] lex(b).toks[i]).end <= (
            #[trigger] lex(b).toks[j]).start,
        forall|i: int|
            0 <= i < lex(b).st.heredocs.len() ==> span_ok(
                b,
                (#[trigger] lex(b).st.heredocs[i]).0,
                lex(b).st.heredocs[i].1,
            ),
{
    lemma_lex_from_facts(b, 0, fresh_state(), Seq::empty());
    let run = lex(b);
    assert forall|i: int| 0 <= i < run.toks.len() implies (#[trigger] run.toks[i]).start
        < run.toks[i].end && span_ok(b, run.toks[i].start, run.toks[i].end) by {
        lemma_cut(b, run.toks[i].start);
        lemma_cut(b, run.toks[i].end);
    }
    assert forall|i: int| 0 <= i < run.st.heredocs.len() implies span_ok(
        b,
        (#[trigger] run.st.heredocs[i]).0,
        run.st.heredocs[i].1,
    ) by {
        lemma_cut(b, run.st.heredocs[i].0);
        lemma_cut(b, run.st.heredocs[i].1);
    }
}

/// The text of a token: the text of a quoted string, else its range of the command line.
pub open spec fn token_text(t: TknSpanV, b: Seq<u8>) -> Seq<u8> {
    match t.kind {
        TknV::Quote(c) => c,
        _ => b.subrange(t.start, t.end),
    }
}

/// The text of a token of `cmd_buf`.
pub fn get_token_at<'a>(tkn_span: &'a TknSpan, cmd_buf: &'a str) -> (r: &'a str)
    requires
        tkn_span.kind is Quote || span_ok(
            cmd_buf.spec_bytes(),
            tkn_span.span.start as int,
            tkn_span.span.end as int,
        ),
    ensures
        r.spec_bytes() == token_text(tkn_span@, cmd_buf.spec_bytes()),
{
    if let Tkn::Quote(quote_content) = &tkn_span.kind {
        return quote_content.as_str();
    }
    substr(cmd_buf, tkn_span.span.start, tkn_span.span.end)
}

} // verus!
