use std::collections::VecDeque;
use vstd::prelude::*;
use vstd::string::*;
use crate::executor::{ChildPr, Builtin, Subsh, Redir, Redirect, RedirectV, builtin_of, lookup_builtin};
use vstd::utf8::*;
use crate::fscheck::{FileCheck, check_file};
use crate::lexer::{Tkn, TknV, TknSpan, TknSpanV, token_text, span_ok, lex, fresh_state, lemma_lex_spans, lemma_redirect_followed};
use crate::text::{sbytes, owned};

verus! {

// ---------------------------------------------------------------------------
// The syntax tree
// ---------------------------------------------------------------------------

/// A node of the syntax tree of a command line.
pub enum AstNode<'a> {
    Prog(ChildPr<'a>),
    Logical { lhs: Box<AstNode<'a>>, operator: Tkn, rhs: Box<AstNode<'a>> },
    Pipeline(Vec<Box<AstNode<'a>>>),
    Subshell(Subsh<'a>),
    Builtin(Builtin<'a>),
}

/// A syntax tree as a mathematical value; texts are given by their UTF-8 bytes.
pub enum AstV {
    Prog { name: Seq<u8>, args: Seq<Seq<u8>>, ins: Seq<RedirectV>, outs: Seq<RedirectV> },
    Logical { lhs: Box<AstV>, op: TknV, rhs: Box<AstV> },
    Pipeline(Seq<AstV>),
    Subshell { inner: Seq<AstV>, ins: Seq<RedirectV>, outs: Seq<RedirectV> },
    Builtin { args: Seq<Seq<u8>>, ins: Seq<RedirectV>, outs: Seq<RedirectV> },
}

/// The views of a list of redirections.
pub open spec fn redirects_view(v: Seq<Redirect>) -> Seq<RedirectV> {
    Seq::new(v.len(), |i: int| v[i]@)
}

/// The UTF-8 bytes of a list of words.
pub open spec fn strs_view(v: Seq<&str>) -> Seq<Seq<u8>> {
    Seq::new(v.len(), |i: int| v[i].spec_bytes())
}

/// A syntax tree as a mathematical value.
pub open spec fn ast_view(n: AstNode) -> AstV
    decreases n,
{
    match n {
        AstNode::Prog(c) => AstV::Prog {
            name: c.prog_name.spec_bytes(),
            args: strs_view(c.args@),
            ins: redirects_view(c.redirect_ins@),
            outs: redirects_view(c.redirect_outs@),
        },
        AstNode::Logical { lhs, operator, rhs } => AstV::Logical {
            lhs: Box::new(ast_view(*lhs)),
            op: operator@,
            rhs: Box::new(ast_view(*rhs)),
        },
        AstNode::Pipeline(v) => AstV::Pipeline(
            Seq::new(
                v@.len(),
                |i: int|
                    if 0 <= i < v@.len() {
                        ast_view(*v@[i])
                    } else {
                        AstV::Pipeline(Seq::empty())
                    },
            ),
        ),
        AstNode::Subshell(s) => AstV::Subshell {
            inner: Seq::new(
                s.inner_ast@.len(),
                |i: int|
                    if 0 <= i < s.inner_ast@.len() {
                        ast_view(*s.inner_ast@[i])
                    } else {
                        AstV::Pipeline(Seq::empty())
                    },
            ),
            ins: redirects_view(s.redirect_ins@),
            outs: redirects_view(s.redirect_outs@),
        },
        AstNode::Builtin(b) => AstV::Builtin {
            args: strs_view(b.args@),
            ins: redirects_view(b.redirect_ins@),
            outs: redirects_view(b.redirect_outs@),
        },
    }
}

/// The views of a list of syntax trees.
pub open spec fn asts_view(v: Seq<Box<AstNode>>) -> Seq<AstV> {
    Seq::new(v.len(), |i: int| ast_view(*v[i]))
}

// ---------------------------------------------------------------------------
// Errors
// ---------------------------------------------------------------------------

/// Why a command line could not be parsed.
pub enum ParseError {
    /// An input redirection names something that is not a file.
    NotAFile(String),
    /// A heredoc operator is followed by something other than a word.
    BadHeredocDelimiter,
    /// A heredoc operator ends the command line.
    MissingHeredocDelimiter,
    /// A subshell starts after the words of a command; holds the first word.
    ArgsBeforeSubshell(String),
    /// An operator or the end of a line where a command was expected.
    EmptyArgs,
    /// A token that cannot be part of a command.
    UnexpectedInExpr,
    /// The tokens ran out inside a command.
    NoTokens,
    /// The tokens ran out after a command.
    MissingToken,
    /// A command is followed by something other than a separator, `&&` or `||`.
    UnexpectedAfterCommand,
    /// A command line is followed by something other than a separator.
    UnexpectedAtEnd,
}

/// A parse error as a mathematical value.
pub enum ParseErrorV {
    NotAFile(Seq<u8>),
    BadHeredocDelimiter,
    MissingHeredocDelimiter,
    ArgsBeforeSubshell(Seq<u8>),
    EmptyArgs,
    UnexpectedInExpr,
    NoTokens,
    MissingToken,
    UnexpectedAfterCommand,
    UnexpectedAtEnd,
}

impl View for ParseError {
    type V = ParseErrorV;

    open spec fn view(&self) -> ParseErrorV {
        match self {
            ParseError::NotAFile(s) => ParseErrorV::NotAFile(sbytes(*s)),
            ParseError::BadHeredocDelimiter => ParseErrorV::BadHeredocDelimiter,
            ParseError::MissingHeredocDelimiter => ParseErrorV::MissingHeredocDelimiter,
            ParseError::ArgsBeforeSubshell(s) => ParseErrorV::ArgsBeforeSubshell(sbytes(*s)),
            ParseError::EmptyArgs => ParseErrorV::EmptyArgs,
            ParseError::UnexpectedInExpr => ParseErrorV::UnexpectedInExpr,
            ParseError::NoTokens => ParseErrorV::NoTokens,
            ParseError::MissingToken => ParseErrorV::MissingToken,
            ParseError::UnexpectedAfterCommand => ParseErrorV::UnexpectedAfterCommand,
            ParseError::UnexpectedAtEnd => ParseErrorV::UnexpectedAtEnd,
        }
    }
}

/// The text the shell prints for a parse error.
pub open spec fn error_text(e: ParseError) -> Seq<char> {
    match e {
        ParseError::NotAFile(f) => "ERR: "@ + f@ + " is not a valid file"@,
        ParseError::BadHeredocDelimiter => "unreachable: Invalid delimiter for heredoc"@,
        ParseError::MissingHeredocDelimiter => "unreachable: Expected heredoc delimiter, found EOF"@,
        ParseError::ArgsBeforeSubshell(w) => "Syntax Err: found '"@ + w@ + "...' before subshell start"@,
        ParseError::EmptyArgs => "Syntax Err: empty args"@,
        ParseError::UnexpectedInExpr => "Syntax Err: unexpected tkn in expression"@,
        ParseError::NoTokens => "Parse error: no tkns"@,
        ParseError::MissingToken => "Syntax Err"@,
        ParseError::UnexpectedAfterCommand => "Syntax Err in build_ast: expected \\n, ;, ||, or &&"@,
        ParseError::UnexpectedAtEnd => "Syntax Err: while parsing, expected '\\n', ';', or ')'"@,
    }
}

impl ParseError {
    /// The text the shell prints for this error.
    pub fn message(&self) -> (r: String)
        ensures
            r@ == error_text(*self),
    {
        match self {
            ParseError::NotAFile(f) => {
                let mut m = String::from_str("ERR: ");
                m.append(f.as_str());
                m.append(" is not a valid file");
                m
            },
            ParseError::BadHeredocDelimiter => String::from_str("unreachable: Invalid delimiter for heredoc"),
            ParseError::MissingHeredocDelimiter => String::from_str(
                "unreachable: Expected heredoc delimiter, found EOF",
            ),
            ParseError::ArgsBeforeSubshell(w) => {
                let mut m = String::from_str("Syntax Err: found '");
                m.append(w.as_str());
                m.append("...' before subshell start");
                m
            },
            ParseError::EmptyArgs => String::from_str("Syntax Err: empty args"),
            ParseError::UnexpectedInExpr => String::from_str("Syntax Err: unexpected tkn in expression"),
            ParseError::NoTokens => String::from_str("Parse error: no tkns"),
            ParseError::MissingToken => String::from_str("Syntax Err"),
            ParseError::UnexpectedAfterCommand => String::from_str(
                "Syntax Err in build_ast: expected \\n, ;, ||, or &&",
            ),
            ParseError::UnexpectedAtEnd => String::from_str(
                "Syntax Err: while parsing, expected '\\n', ';', or ')'",
            ),
        }
    }
}

// ---------------------------------------------------------------------------
// The grammar, as functions on the token sequence
// ---------------------------------------------------------------------------

/// What the parser reads: the tokens, the command line, and for each token
/// position whether the name after an input redirection there is a file.
pub struct PEnv {
    pub toks: Seq<TknSpanV>,
    pub buf: Seq<u8>,
    pub files: Seq<bool>,
}

/// Where the parser is: the next token, the current token, and the heredoc
/// bodies not yet used.
pub struct Ps {
    pub pos: int,
    pub cur: Option<int>,
    pub hds: Seq<Seq<u8>>,
}

/// The same input with other answers about files.
pub open spec fn with_files(env: PEnv, files: Seq<bool>) -> PEnv {
    PEnv { files, ..env }
}

/// The text of the token at `i`.
pub open spec fn text(env: PEnv, i: int) -> Seq<u8> {
    token_text(env.toks[i], env.buf)
}

/// The kind of the current token, if there is one.
pub open spec fn cur_kind(env: PEnv, ps: Ps) -> Option<TknV> {
    match ps.cur {
        Some(i) => if 0 <= i < env.toks.len() {
            Some(env.toks[i].kind)
        } else {
            None
        },
        None => None,
    }
}

/// Moves to the next token; past the end the current token becomes none.
pub open spec fn advance(env: PEnv, ps: Ps) -> Ps {
    if 0 <= ps.pos < env.toks.len() {
        Ps { pos: ps.pos + 1, cur: Some(ps.pos), ..ps }
    } else {
        Ps { cur: None, ..ps }
    }
}

/// Tokens that end a command.
pub open spec fn is_prog_delim(k: TknV) -> bool {
    k is Newline || k is Semicolon || k is CmdOr || k is CmdAnd || k is RParen || k is Pipe
}

/// Separators between command lines.
pub open spec fn is_sep(k: TknV) -> bool {
    k is Newline || k is Semicolon
}

/// Tokens that end a command line.
pub open spec fn is_end(k: TknV) -> bool {
    k is Newline || k is Semicolon || k is RParen
}

/// Moves past separators.
pub open spec fn skip_seps(env: PEnv, ps: Ps) -> Ps
    decreases env.toks.len() - ps.pos,
{
    if 0 <= ps.pos < env.toks.len() && is_sep(env.toks[ps.pos].kind) {
        skip_seps(env, advance(env, ps))
    } else {
        ps
    }
}

/// Skipping separators moves forward to a token that is not one.
pub proof fn lemma_skip_seps(env: PEnv, ps: Ps)
    ensures
        skip_seps(env, ps).pos >= ps.pos,
        skip_seps(env, ps).hds == ps.hds,
        skip_seps(env, ps).pos > ps.pos ==> skip_seps(env, ps).cur == Some(skip_seps(env, ps).pos - 1)
            && skip_seps(env, ps).pos <= env.toks.len(),
        skip_seps(env, ps).pos == ps.pos ==> skip_seps(env, ps) == ps,
        !(0 <= skip_seps(env, ps).pos < env.toks.len() && is_sep(env.toks[skip_seps(env, ps).pos].kind)),
    decreases env.toks.len() - ps.pos,
{
    if 0 <= ps.pos < env.toks.len() && is_sep(env.toks[ps.pos].kind) {
        lemma_skip_seps(env, advance(env, ps));
    }
}

/// The node that a command's words, redirections and subshell make.
pub open spec fn finish(
    args: Seq<Seq<u8>>,
    ins: Seq<RedirectV>,
    outs: Seq<RedirectV>,
    inner: Option<Seq<AstV>>,
) -> Result<AstV, ParseErrorV> {
    if args.len() == 0 && inner is None {
        Err(ParseErrorV::EmptyArgs)
    } else {
        match inner {
            Some(v) => Ok(AstV::Subshell { inner: v, ins, outs }),
            None => if builtin_of(args[0]) is Some {
                Ok(AstV::Builtin { args, ins, outs })
            } else {
                Ok(AstV::Prog { name: args[0], args, ins, outs })
            },
        }
    }
}

/// Reads one command: words, redirections and at most one subshell, up to
/// the operator or separator that ends it (which becomes the current token).
pub open spec fn expr_loop(
    env: PEnv,
    ps: Ps,
    args: Seq<Seq<u8>>,
    ins: Seq<RedirectV>,
    outs: Seq<RedirectV>,
    inner: Option<Seq<AstV>>,
) -> Result<(AstV, Ps), ParseErrorV>
    decreases env.toks.len() - ps.pos, 0int,
{
    if ps.pos < 0 || ps.pos >= env.toks.len() {
        Err(ParseErrorV::NoTokens)
    } else {
        let i = ps.pos;
        let ps1 = advance(env, ps);
        let k = env.toks[i].kind;
        if k is Word || k is Quote {
            expr_loop(env, ps1, args.push(text(env, i)), ins, outs, inner)
        } else if k is RedirectIn {
            let f = text(env, i + 1);
            if !env.files[i] {
                Err(ParseErrorV::NotAFile(f))
            } else {
                expr_loop(
                    env,
                    advance(env, ps1),
                    args,
                    ins.push(RedirectV { dir: Redir::In, file: f }),
                    outs,
                    inner,
                )
            }
        } else if k is RedirectOut || k is RedirectAppend {
            let dir = if k is RedirectOut {
                Redir::Out
            } else {
                Redir::Append
            };
            expr_loop(
                env,
                advance(env, ps1),
                args,
                ins,
                outs.push(RedirectV { dir, file: text(env, i + 1) }),
                inner,
            )
        } else if k is Heredoc {
            let content = if ps1.hds.len() > 0 {
                ps1.hds[0]
            } else {
                Seq::empty()
            };
            let ps2 = Ps {
                hds: if ps1.hds.len() > 0 {
                    ps1.hds.drop_first()
                } else {
                    ps1.hds
                },
                ..ps1
            };
            let ins2 = ins.push(RedirectV { dir: Redir::Heredoc, file: content });
            if i + 1 >= env.toks.len() {
                Err(ParseErrorV::MissingHeredocDelimiter)
            } else if env.toks[i + 1].kind is Word || env.toks[i + 1].kind is Quote {
                expr_loop(env, advance(env, ps2), args, ins2, outs, inner)
            } else {
                Err(ParseErrorV::BadHeredocDelimiter)
            }
        } else if k is LParen {
            if args.len() > 0 {
                Err(ParseErrorV::ArgsBeforeSubshell(args[0]))
            } else {
                match subsh_loop(env, ps1, Seq::empty()) {
                    Err(e) => Err(e),
                    Ok((v, ps2)) => if ps.pos < ps2.pos <= env.toks.len() {
                        expr_loop(env, ps2, args, ins, outs, Some(v))
                    } else {
                        Err(ParseErrorV::NoTokens)
                    },
                }
            }
        } else if is_prog_delim(k) {
            match finish(args, ins, outs, inner) {
                Err(e) => Err(e),
                Ok(node) => Ok((node, ps1)),
            }
        } else {
            Err(ParseErrorV::UnexpectedInExpr)
        }
    }
}

/// Reads one command.
pub open spec fn expr(env: PEnv, ps: Ps) -> Result<(AstV, Ps), ParseErrorV>
    decreases env.toks.len() - ps.pos, 1int,
{
    expr_loop(env, ps, Seq::empty(), Seq::empty(), Seq::empty(), None)
}

/// Reads the command lines of a subshell up to its closing parenthesis.
pub open spec fn subsh_loop(env: PEnv, ps: Ps, acc: Seq<AstV>) -> Result<(Seq<AstV>, Ps), ParseErrorV>
    decreases env.toks.len() - ps.pos, 4int,
{
    if !(cur_kind(env, ps) matches Some(k) && !(k is RParen)) {
        Ok((acc, ps))
    } else {
        match build_ast(env, ps) {
            Err(e) => Err(e),
            Ok((node, ps2)) => {
                let acc2 = acc.push(node);
                if cur_kind(env, ps2) matches Some(k) && k is RParen {
                    Ok((acc2, ps2))
                } else {
                    let ps3 = skip_seps(env, ps2);
                    let ps4 = if 0 <= ps3.pos < env.toks.len() && env.toks[ps3.pos].kind is RParen {
                        advance(env, ps3)
                    } else {
                        ps3
                    };
                    if ps.pos < ps4.pos <= env.toks.len() {
                        subsh_loop(env, ps4, acc2)
                    } else {
                        Err(ParseErrorV::NoTokens)
                    }
                }
            },
        }
    }
}

/// Reads a command, or a pipeline of commands joined by `|`.
pub open spec fn build_pipeline(env: PEnv, ps: Ps) -> Result<(AstV, Ps), ParseErrorV>
    decreases env.toks.len() - ps.pos, 2int,
{
    match expr(env, ps) {
        Err(e) => Err(e),
        Ok((node, ps2)) => if cur_kind(env, ps2) matches Some(k) && k is Pipe {
            if ps.pos < ps2.pos <= env.toks.len() {
                pipe_loop(env, ps2, seq![node])
            } else {
                Err(ParseErrorV::NoTokens)
            }
        } else {
            Ok((node, ps2))
        },
    }
}

/// Reads the commands that follow `|` in a pipeline.
pub open spec fn pipe_loop(env: PEnv, ps: Ps, acc: Seq<AstV>) -> Result<(AstV, Ps), ParseErrorV>
    decreases env.toks.len() - ps.pos, 2int,
{
    if cur_kind(env, ps) matches Some(k) && k is Pipe {
        let ps1 = skip_seps(env, ps);
        proof {
            lemma_skip_seps(env, ps);
        }
        match expr(env, ps1) {
            Err(e) => Err(e),
            Ok((node, ps2)) => if ps.pos < ps2.pos <= env.toks.len() {
                pipe_loop(env, ps2, acc.push(node))
            } else {
                Err(ParseErrorV::NoTokens)
            },
        }
    } else {
        Ok((AstV::Pipeline(acc), ps))
    }
}

/// Reads a command line: pipelines joined by `&&` and `||`, grouped from the left.
pub open spec fn build_ast(env: PEnv, ps: Ps) -> Result<(AstV, Ps), ParseErrorV>
    decreases env.toks.len() - ps.pos, 3int,
{
    match build_pipeline(env, ps) {
        Err(e) => Err(e),
        Ok((node, ps2)) => if ps.pos < ps2.pos <= env.toks.len() {
            ast_loop(env, ps2, node)
        } else {
            Err(ParseErrorV::NoTokens)
        },
    }
}

/// Joins the pipelines that follow `&&` or `||` onto `node`.
pub open spec fn ast_loop(env: PEnv, ps: Ps, node: AstV) -> Result<(AstV, Ps), ParseErrorV>
    decreases env.toks.len() - ps.pos, 3int,
{
    match cur_kind(env, ps) {
        None => Err(ParseErrorV::MissingToken),
        Some(k) => if is_end(k) {
            Ok((node, ps))
        } else if k is CmdOr || k is CmdAnd {
            match build_pipeline(env, ps) {
                Err(e) => Err(e),
                Ok((rhs, ps2)) => if ps.pos < ps2.pos <= env.toks.len() {
                    ast_loop(
                        env,
                        ps2,
                        AstV::Logical { lhs: Box::new(node), op: k, rhs: Box::new(rhs) },
                    )
                } else {
                    Err(ParseErrorV::NoTokens)
                },
            }
        } else {
            Err(ParseErrorV::UnexpectedAfterCommand)
        },
    }
}

/// Reads the command lines of the whole input.
pub open spec fn parse_loop(env: PEnv, ps: Ps, acc: Seq<AstV>) -> Result<(Seq<AstV>, Ps), ParseErrorV>
    decreases env.toks.len() - ps.pos,
{
    if !(0 <= ps.pos < env.toks.len()) {
        Ok((acc, ps))
    } else {
        match build_ast(env, ps) {
            Err(e) => Err(e),
            Ok((node, ps2)) => match cur_kind(env, ps2) {
                None => Err(ParseErrorV::MissingToken),
                Some(k) => if is_end(k) {
                    let ps3 = skip_seps(env, ps2);
                    if ps.pos < ps3.pos <= env.toks.len() {
                        parse_loop(env, ps3, acc.push(node))
                    } else {
                        Err(ParseErrorV::NoTokens)
                    }
                } else {
                    Err(ParseErrorV::UnexpectedAtEnd)
                },
            },
        }
    }
}

/// Parses the command lines of the tokens.
pub open spec fn parse_spec(env: PEnv, ps: Ps) -> Result<(Seq<AstV>, Ps), ParseErrorV> {
    parse_loop(env, skip_seps(env, ps), Seq::empty())
}


// ---------------------------------------------------------------------------
// The shape of the trees the parser builds
// ---------------------------------------------------------------------------

/// A command a pipeline can run as one of its stages.
pub open spec fn is_stage(n: AstV) -> bool {
    n is Prog || n is Builtin || n is Subshell
}

/// Input redirections are `<` and heredocs.
pub open spec fn ins_ok(rs: Seq<RedirectV>) -> bool {
    forall|i: int| 0 <= i < rs.len() ==> (#[trigger] rs[i]).dir == Redir::In || rs[i].dir == Redir::Heredoc
}

/// Output redirections are `>` and `>>`.
pub open spec fn outs_ok(rs: Seq<RedirectV>) -> bool {
    forall|i: int| 0 <= i < rs.len() ==> (#[trigger] rs[i]).dir == Redir::Out || rs[i].dir == Redir::Append
}

/// The shape of a tree the parser builds:
/// - a program has words, its name is its first word, and that word names
///   no builtin; a builtin has words and its first word names a builtin;
/// - a subshell has at least one command line;
/// - input redirection lists hold only `<` and heredocs, output ones only
///   `>` and `>>`;
/// - logical nodes join with `&&` or `||` and are grouped from the left:
///   their right side is never a logical node;
/// - a pipeline has at least two stages, each a program, a builtin or a
///   subshell.
pub open spec fn well_formed(n: AstV) -> bool
    decreases n,
{
    match n {
        AstV::Prog { name, args, ins, outs } => args.len() > 0 && name == args[0] && builtin_of(args[0]) is None
            && ins_ok(ins) && outs_ok(outs),
        AstV::Builtin { args, ins, outs } => args.len() > 0 && builtin_of(args[0]) is Some && ins_ok(ins)
            && outs_ok(outs),
        AstV::Subshell { inner, ins, outs } => inner.len() > 0 && ins_ok(ins) && outs_ok(outs) && forall|i: int|
            0 <= i < inner.len() ==> well_formed(#[trigger] inner[i]),
        AstV::Logical { lhs, op, rhs } => (op is CmdAnd || op is CmdOr) && !(*rhs is Logical) && well_formed(*lhs)
            && well_formed(*rhs),
        AstV::Pipeline(ps) => ps.len() >= 2 && forall|i: int|
            0 <= i < ps.len() ==> is_stage(#[trigger] ps[i]) && well_formed(ps[i]),
    }
}

/// Every tree of a list is well formed.
pub open spec fn all_well_formed(v: Seq<AstV>) -> bool {
    forall|i: int| 0 <= i < v.len() ==> well_formed(#[trigger] v[i])
}

proof fn lemma_ins_push(ins: Seq<RedirectV>, r: RedirectV)
    requires
        ins_ok(ins),
        r.dir == Redir::In || r.dir == Redir::Heredoc,
    ensures
        ins_ok(ins.push(r)),
{
    assert forall|i: int| 0 <= i < ins.push(r).len() implies (#[trigger] ins.push(r)[i]).dir == Redir::In
        || ins.push(r)[i].dir == Redir::Heredoc by {
        if i < ins.len() {
            assert(ins.push(r)[i] == ins[i]);
        }
    }
}

proof fn lemma_outs_push(outs: Seq<RedirectV>, r: RedirectV)
    requires
        outs_ok(outs),
        r.dir == Redir::Out || r.dir == Redir::Append,
    ensures
        outs_ok(outs.push(r)),
{
    assert forall|i: int| 0 <= i < outs.push(r).len() implies (#[trigger] outs.push(r)[i]).dir == Redir::Out
        || outs.push(r)[i].dir == Redir::Append by {
        if i < outs.len() {
            assert(outs.push(r)[i] == outs[i]);
        }
    }
}

proof fn lemma_expr_loop_wf(
    env: PEnv,
    ps: Ps,
    args: Seq<Seq<u8>>,
    ins: Seq<RedirectV>,
    outs: Seq<RedirectV>,
    inner: Option<Seq<AstV>>,
)
    requires
        inner matches Some(v) ==> v.len() > 0 && all_well_formed(v),
        ins_ok(ins),
        outs_ok(outs),
    ensures
        expr_loop(env, ps, args, ins, outs, inner) matches Ok((n, _)) ==> is_stage(n) && well_formed(n),
    decreases env.toks.len() - ps.pos, 0int,
{
    if !(ps.pos < 0 || ps.pos >= env.toks.len()) {
        let i = ps.pos;
        let ps1 = advance(env, ps);
        let k = env.toks[i].kind;
        if k is Word || k is Quote {
            lemma_expr_loop_wf(env, ps1, args.push(text(env, i)), ins, outs, inner);
        } else if k is RedirectIn {
            if env.files[i] {
                let f = text(env, i + 1);
                lemma_ins_push(ins, RedirectV { dir: Redir::In, file: f });
                lemma_expr_loop_wf(env, advance(env, ps1), args, ins.push(RedirectV { dir: Redir::In, file: f }), outs, inner);
            }
        } else if k is RedirectOut || k is RedirectAppend {
            let dir = if k is RedirectOut {
                Redir::Out
            } else {
                Redir::Append
            };
            lemma_outs_push(outs, RedirectV { dir, file: text(env, i + 1) });
            lemma_expr_loop_wf(env, advance(env, ps1), args, ins, outs.push(RedirectV { dir, file: text(env, i + 1) }), inner);
        } else if k is Heredoc {
            let content = if ps1.hds.len() > 0 {
                ps1.hds[0]
            } else {
                Seq::empty()
            };
            let ps2 = Ps {
                hds: if ps1.hds.len() > 0 {
                    ps1.hds.drop_first()
                } else {
                    ps1.hds
                },
                ..ps1
            };
            let ins2 = ins.push(RedirectV { dir: Redir::Heredoc, file: content });
            lemma_ins_push(ins, RedirectV { dir: Redir::Heredoc, file: content });
            if i + 1 < env.toks.len() && (env.toks[i + 1].kind is Word || env.toks[i + 1].kind is Quote) {
                lemma_expr_loop_wf(env, advance(env, ps2), args, ins2, outs, inner);
            }
        } else if k is LParen {
            if args.len() == 0 {
                lemma_subsh_loop_wf(env, ps1, Seq::empty());
                if let Ok((v, ps2)) = subsh_loop(env, ps1, Seq::empty()) {
                    if ps.pos < ps2.pos <= env.toks.len() {
                        lemma_expr_loop_wf(env, ps2, args, ins, outs, Some(v));
                    }
                }
            }
        }
    }
}

proof fn lemma_expr_wf(env: PEnv, ps: Ps)
    ensures
        expr(env, ps) matches Ok((n, _)) ==> is_stage(n) && well_formed(n),
    decreases env.toks.len() - ps.pos, 1int,
{
    lemma_expr_loop_wf(env, ps, Seq::empty(), Seq::empty(), Seq::empty(), None);
}

proof fn lemma_subsh_loop_wf(env: PEnv, ps: Ps, acc: Seq<AstV>)
    requires
        all_well_formed(acc),
    ensures
        subsh_loop(env, ps, acc) matches Ok((v, _)) ==> all_well_formed(v) && v.len() >= acc.len() && (
        cur_kind(env, ps) matches Some(k) && !(k is RParen) ==> v.len() > acc.len()),
    decreases env.toks.len() - ps.pos, 4int,
{
    if cur_kind(env, ps) matches Some(k) && !(k is RParen) {
        lemma_build_ast_wf(env, ps);
        if let Ok((node, ps2)) = build_ast(env, ps) {
            let acc2 = acc.push(node);
            assert(all_well_formed(acc2)) by {
                assert forall|i: int| 0 <= i < acc2.len() implies well_formed(#[trigger] acc2[i]) by {
                    if i < acc.len() {
                        assert(acc2[i] == acc[i]);
                    }
                }
            }
            if !(cur_kind(env, ps2) matches Some(k) && k is RParen) {
                let ps3 = skip_seps(env, ps2);
                let ps4 = if 0 <= ps3.pos < env.toks.len() && env.toks[ps3.pos].kind is RParen {
                    advance(env, ps3)
                } else {
                    ps3
                };
                if ps.pos < ps4.pos <= env.toks.len() {
                    lemma_subsh_loop_wf(env, ps4, acc2);
                }
            }
        }
    }
}

proof fn lemma_build_pipeline_wf(env: PEnv, ps: Ps)
    ensures
        build_pipeline(env, ps) matches Ok((n, _)) ==> well_formed(n) && !(n is Logical),
    decreases env.toks.len() - ps.pos, 2int,
{
    lemma_expr_wf(env, ps);
    if let Ok((node, ps2)) = expr(env, ps) {
        if cur_kind(env, ps2) matches Some(k) && k is Pipe {
            if ps.pos < ps2.pos <= env.toks.len() {
                lemma_pipe_loop_wf(env, ps2, seq![node]);
            }
        }
    }
}

proof fn lemma_pipe_loop_wf(env: PEnv, ps: Ps, acc: Seq<AstV>)
    requires
        forall|i: int| 0 <= i < acc.len() ==> is_stage(#[trigger] acc[i]) && well_formed(acc[i]),
    ensures
        pipe_loop(env, ps, acc) matches Ok((n, _)) ==> (n matches AstV::Pipeline(st) && st.len() >= acc.len()
            && (cur_kind(env, ps) matches Some(k) && k is Pipe ==> st.len() > acc.len())
            && forall|i: int| 0 <= i < st.len() ==> is_stage(#[trigger] st[i]) && well_formed(st[i])),
    decreases env.toks.len() - ps.pos, 2int,
{
    if cur_kind(env, ps) matches Some(k) && k is Pipe {
        let ps1 = skip_seps(env, ps);
        lemma_skip_seps(env, ps);
        lemma_expr_wf(env, ps1);
        if let Ok((node, ps2)) = expr(env, ps1) {
            if ps.pos < ps2.pos <= env.toks.len() {
                let acc2 = acc.push(node);
                assert forall|i: int| 0 <= i < acc2.len() implies is_stage(#[trigger] acc2[i]) && well_formed(acc2[i]) by {
                    if i < acc.len() {
                        assert(acc2[i] == acc[i]);
                    }
                }
                lemma_pipe_loop_wf(env, ps2, acc2);
            }
        }
    }
}

proof fn lemma_build_ast_wf(env: PEnv, ps: Ps)
    ensures
        build_ast(env, ps) matches Ok((n, _)) ==> well_formed(n),
    decreases env.toks.len() - ps.pos, 3int,
{
    lemma_build_pipeline_wf(env, ps);
    if let Ok((node, ps2)) = build_pipeline(env, ps) {
        if ps.pos < ps2.pos <= env.toks.len() {
            lemma_ast_loop_wf(env, ps2, node);
        }
    }
}

proof fn lemma_ast_loop_wf(env: PEnv, ps: Ps, node: AstV)
    requires
        well_formed(node),
    ensures
        ast_loop(env, ps, node) matches Ok((n, _)) ==> well_formed(n),
    decreases env.toks.len() - ps.pos, 3int,
{
    if let Some(k) = cur_kind(env, ps) {
        if !is_end(k) && (k is CmdOr || k is CmdAnd) {
            lemma_build_pipeline_wf(env, ps);
            if let Ok((rhs, ps2)) = build_pipeline(env, ps) {
                if ps.pos < ps2.pos <= env.toks.len() {
                    let n2 = AstV::Logical { lhs: Box::new(node), op: k, rhs: Box::new(rhs) };
                    assert(well_formed(n2));
                    lemma_ast_loop_wf(env, ps2, n2);
                }
            }
        }
    }
}

proof fn lemma_parse_loop_wf(env: PEnv, ps: Ps, acc: Seq<AstV>)
    requires
        all_well_formed(acc),
    ensures
        parse_loop(env, ps, acc) matches Ok((v, _)) ==> all_well_formed(v),
    decreases env.toks.len() - ps.pos,
{
    if 0 <= ps.pos < env.toks.len() {
        lemma_build_ast_wf(env, ps);
        if let Ok((node, ps2)) = build_ast(env, ps) {
            if let Some(k) = cur_kind(env, ps2) {
                if is_end(k) {
                    let ps3 = skip_seps(env, ps2);
                    if ps.pos < ps3.pos <= env.toks.len() {
                        let acc2 = acc.push(node);
                        assert forall|i: int| 0 <= i < acc2.len() implies well_formed(#[trigger] acc2[i]) by {
                            if i < acc.len() {
                                assert(acc2[i] == acc[i]);
                            }
                        }
                        lemma_parse_loop_wf(env, ps3, acc2);
                    }
                }
            }
        }
    }
}

/// Every tree the parser builds is well formed (see `well_formed`): programs
/// and builtins have words and are told apart by their first word, subshells
/// are not empty, redirection lists hold only their own directions, logical
/// nodes join with `&&` or `||` and group from the left, and a pipeline has
/// at least two stages, each a program, a builtin or a subshell.
pub proof fn lemma_parse_well_formed(env: PEnv, ps: Ps)
    ensures
        parse_spec(env, ps) matches Ok((v, _)) ==> all_well_formed(v),
{
    lemma_parse_loop_wf(env, skip_seps(env, ps), Seq::empty());
}

// ---------------------------------------------------------------------------
// Which heredoc body each `<<` gets
// ---------------------------------------------------------------------------

/// The bodies of the heredoc redirections of a list, in order.
pub open spec fn heredoc_bodies(rs: Seq<RedirectV>) -> Seq<Seq<u8>>
    decreases rs.len(),
{
    if rs.len() == 0 {
        Seq::empty()
    } else if rs.last().dir == Redir::Heredoc {
        heredoc_bodies(rs.drop_last()).push(rs.last().file)
    } else {
        heredoc_bodies(rs.drop_last())
    }
}

/// The heredoc bodies a tree holds, in the order its commands are written:
/// a command's own heredocs in order, the left side of `&&` or `||` before the
/// right side, the stages of a pipeline from first to last, and a subshell's
/// command lines before the redirections written after its `)`.
pub open spec fn tree_bodies(n: AstV) -> Seq<Seq<u8>>
    decreases n, 0int,
{
    match n {
        AstV::Prog { ins, .. } => heredoc_bodies(ins),
        AstV::Builtin { ins, .. } => heredoc_bodies(ins),
        AstV::Logical { lhs, rhs, .. } => tree_bodies(*lhs) + tree_bodies(*rhs),
        AstV::Pipeline(st) => bodies_of(st),
        AstV::Subshell { inner, ins, .. } => bodies_of(inner) + heredoc_bodies(ins),
    }
}

/// The heredoc bodies of a list of trees, tree after tree.
pub open spec fn bodies_of(v: Seq<AstV>) -> Seq<Seq<u8>>
    decreases v, 1int,
{
    if v.len() == 0 {
        Seq::empty()
    } else {
        bodies_of(v.drop_last()) + tree_bodies(v.last())
    }
}

/// The first `n` bodies taken from the front of the queue `q`, one at a time;
/// once the queue is empty each take gives an empty body.
pub open spec fn taken(q: Seq<Seq<u8>>, n: nat) -> Seq<Seq<u8>> {
    Seq::new(n, |j: int| if j < q.len() { q[j] } else { Seq::empty() })
}

/// What is left of the queue `q` after `n` takes.
pub open spec fn left_after(q: Seq<Seq<u8>>, n: nat) -> Seq<Seq<u8>> {
    if n <= q.len() {
        q.skip(n as int)
    } else {
        Seq::empty()
    }
}

/// `got` are the bodies taken in order from the front of `q`, and `rest` is
/// what is left of it.
pub open spec fn consumes(q: Seq<Seq<u8>>, got: Seq<Seq<u8>>, rest: Seq<Seq<u8>>) -> bool {
    got == taken(q, got.len()) && rest == left_after(q, got.len())
}

/// The kind of the token at `i`.
pub open spec fn tok_kind(toks: Seq<TknSpanV>, i: int) -> TknV {
    toks[i].kind
}

/// A word or a quoted string.
pub open spec fn is_word(k: TknV) -> bool {
    k is Word || k is Quote
}

/// The input writes each subshell as a command of its own and names a file
/// after each redirection: a `(` never directly follows a word, a quoted
/// string or a `)`, and every `<`, `>` and `>>` is followed by a word or a
/// quoted string.
pub open spec fn groups_stand_alone(toks: Seq<TknSpanV>) -> bool {
    &&& forall|i: int|
        1 <= i < toks.len() && #[trigger] tok_kind(toks, i) is LParen ==> !(is_word(toks[i - 1].kind)
            || toks[i - 1].kind is RParen)
    &&& forall|i: int|
        0 <= i < toks.len() && is_redirect(#[trigger] tok_kind(toks, i)) ==> i + 1 < toks.len() && is_word(
            toks[i + 1].kind,
        )
}

/// The parser has just read the token before `pos`, which is the current token.
pub open spec fn just_read(env: PEnv, ps: Ps) -> bool {
    1 <= ps.pos <= env.toks.len() && ps.cur == Some(ps.pos - 1)
}

/// The heredoc bodies a command holds so far: its subshell's, then its own.
pub open spec fn held(inner: Option<Seq<AstV>>, ins: Seq<RedirectV>) -> Seq<Seq<u8>> {
    match inner {
        Some(v) => bodies_of(v) + heredoc_bodies(ins),
        None => heredoc_bodies(ins),
    }
}

proof fn lemma_consumes_none(q: Seq<Seq<u8>>)
    ensures
        consumes(q, Seq::empty(), q),
{
    assert(taken(q, 0) =~= Seq::<Seq<u8>>::empty());
    assert(q.skip(0) =~= q);
}

proof fn lemma_consumes_then(
    q: Seq<Seq<u8>>,
    a: Seq<Seq<u8>>,
    q1: Seq<Seq<u8>>,
    b: Seq<Seq<u8>>,
    q2: Seq<Seq<u8>>,
)
    requires
        consumes(q, a, q1),
        consumes(q1, b, q2),
    ensures
        consumes(q, a + b, q2),
{
    let n = a.len();
    let m = b.len();
    assert(a + b =~= taken(q, (n + m) as nat)) by {
        assert forall|j: int| 0 <= j < n + m implies (a + b)[j] == taken(q, (n + m) as nat)[j] by {
            if j >= n {
                assert((a + b)[j] == b[j - n]);
                if n <= q.len() {
                    assert(q1 == q.skip(n as int));
                    if j < q.len() {
                        assert(q1[j - n] == q[j]);
                    }
                } else {
                    assert(q1.len() == 0);
                }
            } else {
                assert((a + b)[j] == a[j]);
            }
        }
    }
    if n <= q.len() {
        if m <= q.len() - n {
            assert(q2 =~= q.skip((n + m) as int));
        } else {
            assert(q2 =~= Seq::<Seq<u8>>::empty());
        }
    } else {
        assert(q1.len() == 0);
        assert(q2 =~= Seq::<Seq<u8>>::empty());
    }
}

proof fn lemma_consumes_one(q: Seq<Seq<u8>>)
    ensures
        consumes(
            q,
            seq![if q.len() > 0 { q[0] } else { Seq::empty() }],
            if q.len() > 0 { q.drop_first() } else { q },
        ),
{
    let x: Seq<Seq<u8>> = seq![if q.len() > 0 { q[0] } else { Seq::empty() }];
    assert(x.len() == 1);
    assert(taken(q, 1) =~= x);
    if q.len() > 0 {
        assert(q.skip(1) =~= q.drop_first());
        assert(left_after(q, 1) == q.drop_first());
    } else {
        assert(q =~= Seq::<Seq<u8>>::empty());
        assert(left_after(q, 1) == q);
    }
}

proof fn lemma_bodies_push(v: Seq<AstV>, n: AstV)
    ensures
        bodies_of(v.push(n)) == bodies_of(v) + tree_bodies(n),
{
    assert(v.push(n).drop_last() =~= v);
}

proof fn lemma_hd_expr_loop(
    env: PEnv,
    ps: Ps,
    args: Seq<Seq<u8>>,
    ins: Seq<RedirectV>,
    outs: Seq<RedirectV>,
    inner: Option<Seq<AstV>>,
) -> (got: Seq<Seq<u8>>)
    requires
        groups_stand_alone(env.toks),
        held(inner, ins).len() > 0 || inner is Some ==> 1 <= ps.pos <= env.toks.len() && (is_word(
            env.toks[ps.pos - 1].kind,
        ) || env.toks[ps.pos - 1].kind is RParen),
    ensures
        expr_loop(env, ps, args, ins, outs, inner) matches Ok((n, ps2)) ==> tree_bodies(n) == held(inner, ins)
            + got && consumes(ps.hds, got, ps2.hds) && just_read(env, ps2),
    decreases env.toks.len() - ps.pos, 0int,
{
    if ps.pos < 0 || ps.pos >= env.toks.len() {
        Seq::empty()
    } else {
        let i = ps.pos;
        let ps1 = advance(env, ps);
        let k = env.toks[i].kind;
        assert(tok_kind(env.toks, i) == k);
        if k is Word || k is Quote {
            lemma_hd_expr_loop(env, ps1, args.push(text(env, i)), ins, outs, inner)
        } else if k is RedirectIn {
            let r = RedirectV { dir: Redir::In, file: text(env, i + 1) };
            assert(ins.push(r).drop_last() =~= ins);
            assert(held(inner, ins.push(r)) == held(inner, ins));
            lemma_hd_expr_loop(env, advance(env, ps1), args, ins.push(r), outs, inner)
        } else if k is RedirectOut || k is RedirectAppend {
            let dir = if k is RedirectOut {
                Redir::Out
            } else {
                Redir::Append
            };
            lemma_hd_expr_loop(
                env,
                advance(env, ps1),
                args,
                ins,
                outs.push(RedirectV { dir, file: text(env, i + 1) }),
                inner,
            )
        } else if k is Heredoc {
            let q = ps1.hds;
            let content = if q.len() > 0 {
                q[0]
            } else {
                Seq::empty()
            };
            let ps2 = Ps { hds: if q.len() > 0 { q.drop_first() } else { q }, ..ps1 };
            let r = RedirectV { dir: Redir::Heredoc, file: content };
            assert(ins.push(r).drop_last() =~= ins);
            assert(held(inner, ins.push(r)) =~= held(inner, ins).push(content));
            if i + 1 < env.toks.len() && is_word(env.toks[i + 1].kind) {
                let rest = lemma_hd_expr_loop(env, advance(env, ps2), args, ins.push(r), outs, inner);
                lemma_consumes_one(q);
                if let Ok((n, ps3)) = expr_loop(env, advance(env, ps2), args, ins.push(r), outs, inner) {
                    lemma_consumes_then(q, seq![content], ps2.hds, rest, ps3.hds);
                    assert(held(inner, ins) + (seq![content] + rest) =~= held(inner, ins.push(r)) + rest);
                }
                seq![content] + rest
            } else {
                Seq::empty()
            }
        } else if k is LParen {
            if args.len() == 0 {
                assert(heredoc_bodies(ins) =~= Seq::<Seq<u8>>::empty());
                let got1 = lemma_hd_subsh_loop(env, ps1, Seq::empty());
                if let Ok((v, ps2)) = subsh_loop(env, ps1, Seq::empty()) {
                    if ps.pos < ps2.pos <= env.toks.len() {
                        assert(bodies_of(Seq::<AstV>::empty()) + got1 =~= got1);
                        assert(cur_kind(env, ps2) == Some(env.toks[ps2.pos - 1].kind));
                        let got2 = lemma_hd_expr_loop(env, ps2, args, ins, outs, Some(v));
                        if let Ok((n, ps3)) = expr_loop(env, ps2, args, ins, outs, Some(v)) {
                            lemma_consumes_then(ps.hds, got1, ps2.hds, got2, ps3.hds);
                            assert(held(Some(v), ins) =~= got1);
                            assert(held(inner, ins) + (got1 + got2) =~= held(Some(v), ins) + got2);
                        }
                        return got1 + got2;
                    }
                }
            }
            Seq::empty()
        } else {
            lemma_consumes_none(ps.hds);
            if let Ok(n) = finish(args, ins, outs, inner) {
                assert(tree_bodies(n) =~= held(inner, ins) + Seq::<Seq<u8>>::empty());
            }
            Seq::empty()
        }
    }
}

proof fn lemma_hd_expr(env: PEnv, ps: Ps) -> (got: Seq<Seq<u8>>)
    requires
        groups_stand_alone(env.toks),
    ensures
        expr(env, ps) matches Ok((n, ps2)) ==> tree_bodies(n) == got && consumes(ps.hds, got, ps2.hds)
            && just_read(env, ps2),
    decreases env.toks.len() - ps.pos, 1int,
{
    assert(held(None, Seq::empty()) =~= Seq::<Seq<u8>>::empty());
    let got = lemma_hd_expr_loop(env, ps, Seq::empty(), Seq::empty(), Seq::empty(), None);
    assert(held(None, Seq::empty()) + got =~= got);
    got
}

proof fn lemma_hd_subsh_loop(env: PEnv, ps: Ps, acc: Seq<AstV>) -> (got: Seq<Seq<u8>>)
    requires
        groups_stand_alone(env.toks),
        just_read(env, ps),
    ensures
        subsh_loop(env, ps, acc) matches Ok((v, ps2)) ==> bodies_of(v) == bodies_of(acc) + got && consumes(
            ps.hds,
            got,
            ps2.hds,
        ) && just_read(env, ps2) && !(cur_kind(env, ps2) matches Some(k) && !(k is RParen)),
    decreases env.toks.len() - ps.pos, 4int,
{
    if cur_kind(env, ps) matches Some(k) && !(k is RParen) {
        let got1 = lemma_hd_build_ast(env, ps);
        if let Ok((node, ps2)) = build_ast(env, ps) {
            let acc2 = acc.push(node);
            lemma_bodies_push(acc, node);
            if cur_kind(env, ps2) matches Some(k) && k is RParen {
                assert(bodies_of(acc) + got1 =~= bodies_of(acc2));
                return got1;
            } else {
                let ps3 = skip_seps(env, ps2);
                lemma_skip_seps(env, ps2);
                let ps4 = if 0 <= ps3.pos < env.toks.len() && env.toks[ps3.pos].kind is RParen {
                    advance(env, ps3)
                } else {
                    ps3
                };
                if ps.pos < ps4.pos <= env.toks.len() {
                    let got2 = lemma_hd_subsh_loop(env, ps4, acc2);
                    if let Ok((v, ps5)) = subsh_loop(env, ps4, acc2) {
                        lemma_consumes_then(ps.hds, got1, ps2.hds, got2, ps5.hds);
                        assert(bodies_of(acc) + (got1 + got2) =~= bodies_of(acc2) + got2);
                    }
                    return got1 + got2;
                }
            }
        }
        Seq::empty()
    } else {
        lemma_consumes_none(ps.hds);
        assert(bodies_of(acc) + Seq::<Seq<u8>>::empty() =~= bodies_of(acc));
        Seq::empty()
    }
}

proof fn lemma_hd_pipe_loop(env: PEnv, ps: Ps, acc: Seq<AstV>) -> (got: Seq<Seq<u8>>)
    requires
        groups_stand_alone(env.toks),
        just_read(env, ps),
    ensures
        pipe_loop(env, ps, acc) matches Ok((n, ps2)) ==> tree_bodies(n) == bodies_of(acc) + got && consumes(
            ps.hds,
            got,
            ps2.hds,
        ) && just_read(env, ps2),
    decreases env.toks.len() - ps.pos, 2int,
{
    if cur_kind(env, ps) matches Some(k) && k is Pipe {
        let ps1 = skip_seps(env, ps);
        lemma_skip_seps(env, ps);
        let got1 = lemma_hd_expr(env, ps1);
        if let Ok((node, ps2)) = expr(env, ps1) {
            if ps.pos < ps2.pos <= env.toks.len() {
                let got2 = lemma_hd_pipe_loop(env, ps2, acc.push(node));
                if let Ok((n, ps3)) = pipe_loop(env, ps2, acc.push(node)) {
                    lemma_bodies_push(acc, node);
                    lemma_consumes_then(ps.hds, got1, ps2.hds, got2, ps3.hds);
                    assert(bodies_of(acc) + (got1 + got2) =~= bodies_of(acc.push(node)) + got2);
                }
                return got1 + got2;
            }
        }
        Seq::empty()
    } else {
        lemma_consumes_none(ps.hds);
        assert(bodies_of(acc) + Seq::<Seq<u8>>::empty() =~= bodies_of(acc));
        Seq::empty()
    }
}

proof fn lemma_hd_build_pipeline(env: PEnv, ps: Ps) -> (got: Seq<Seq<u8>>)
    requires
        groups_stand_alone(env.toks),
    ensures
        build_pipeline(env, ps) matches Ok((n, ps2)) ==> tree_bodies(n) == got && consumes(ps.hds, got, ps2.hds)
            && just_read(env, ps2),
    decreases env.toks.len() - ps.pos, 2int,
{
    let got1 = lemma_hd_expr(env, ps);
    if let Ok((node, ps2)) = expr(env, ps) {
        if cur_kind(env, ps2) matches Some(k) && k is Pipe {
            if ps.pos < ps2.pos <= env.toks.len() {
                let got2 = lemma_hd_pipe_loop(env, ps2, seq![node]);
                if let Ok((n, ps3)) = pipe_loop(env, ps2, seq![node]) {
                    lemma_bodies_push(Seq::empty(), node);
                    assert(Seq::<AstV>::empty().push(node) =~= seq![node]);
                    assert(bodies_of(Seq::<AstV>::empty()) + tree_bodies(node) =~= tree_bodies(node));
                    lemma_consumes_then(ps.hds, got1, ps2.hds, got2, ps3.hds);
                }
                return got1 + got2;
            }
        }
    }
    got1
}

proof fn lemma_hd_ast_loop(env: PEnv, ps: Ps, node: AstV) -> (got: Seq<Seq<u8>>)
    requires
        groups_stand_alone(env.toks),
        just_read(env, ps),
    ensures
        ast_loop(env, ps, node) matches Ok((n, ps2)) ==> tree_bodies(n) == tree_bodies(node) + got && consumes(
            ps.hds,
            got,
            ps2.hds,
        ) && just_read(env, ps2),
    decreases env.toks.len() - ps.pos, 3int,
{
    if let Some(k) = cur_kind(env, ps) {
        if !is_end(k) && (k is CmdOr || k is CmdAnd) {
            let got1 = lemma_hd_build_pipeline(env, ps);
            if let Ok((rhs, ps2)) = build_pipeline(env, ps) {
                if ps.pos < ps2.pos <= env.toks.len() {
                    let n2 = AstV::Logical { lhs: Box::new(node), op: k, rhs: Box::new(rhs) };
                    let got2 = lemma_hd_ast_loop(env, ps2, n2);
                    if let Ok((n, ps3)) = ast_loop(env, ps2, n2) {
                        lemma_consumes_then(ps.hds, got1, ps2.hds, got2, ps3.hds);
                        assert(tree_bodies(node) + (got1 + got2) =~= tree_bodies(n2) + got2);
                    }
                    return got1 + got2;
                }
            }
            return Seq::empty();
        }
    }
    lemma_consumes_none(ps.hds);
    assert(tree_bodies(node) + Seq::<Seq<u8>>::empty() =~= tree_bodies(node));
    Seq::empty()
}

proof fn lemma_hd_build_ast(env: PEnv, ps: Ps) -> (got: Seq<Seq<u8>>)
    requires
        groups_stand_alone(env.toks),
    ensures
        build_ast(env, ps) matches Ok((n, ps2)) ==> tree_bodies(n) == got && consumes(ps.hds, got, ps2.hds)
            && just_read(env, ps2),
    decreases env.toks.len() - ps.pos, 3int,
{
    let got1 = lemma_hd_build_pipeline(env, ps);
    if let Ok((node, ps2)) = build_pipeline(env, ps) {
        if ps.pos < ps2.pos <= env.toks.len() {
            let got2 = lemma_hd_ast_loop(env, ps2, node);
            if let Ok((n, ps3)) = ast_loop(env, ps2, node) {
                lemma_consumes_then(ps.hds, got1, ps2.hds, got2, ps3.hds);
            }
            return got1 + got2;
        }
    }
    got1
}

proof fn lemma_hd_parse_loop(env: PEnv, ps: Ps, acc: Seq<AstV>) -> (got: Seq<Seq<u8>>)
    requires
        groups_stand_alone(env.toks),
    ensures
        parse_loop(env, ps, acc) matches Ok((v, ps2)) ==> bodies_of(v) == bodies_of(acc) + got && consumes(
            ps.hds,
            got,
            ps2.hds,
        ),
    decreases env.toks.len() - ps.pos,
{
    if 0 <= ps.pos < env.toks.len() {
        let got1 = lemma_hd_build_ast(env, ps);
        if let Ok((node, ps2)) = build_ast(env, ps) {
            if let Some(k) = cur_kind(env, ps2) {
                if is_end(k) {
                    let ps3 = skip_seps(env, ps2);
                    lemma_skip_seps(env, ps2);
                    if ps.pos < ps3.pos <= env.toks.len() {
                        let got2 = lemma_hd_parse_loop(env, ps3, acc.push(node));
                        if let Ok((v, ps4)) = parse_loop(env, ps3, acc.push(node)) {
                            lemma_bodies_push(acc, node);
                            lemma_consumes_then(ps.hds, got1, ps2.hds, got2, ps4.hds);
                            assert(bodies_of(acc) + (got1 + got2) =~= bodies_of(acc.push(node)) + got2);
                        }
                        return got1 + got2;
                    }
                }
            }
        }
        Seq::empty()
    } else {
        lemma_consumes_none(ps.hds);
        assert(bodies_of(acc) + Seq::<Seq<u8>>::empty() =~= bodies_of(acc));
        Seq::empty()
    }
}

/// Across the whole input, the heredoc redirections receive the heredoc
/// bodies in the order they are written, each body once: taking the `<<`
/// redirections of the parsed command lines in order (`bodies_of`), the j-th
/// gets the j-th body of the queue (an empty body once the queue has run
/// out), and what is left of the queue afterwards is exactly the bodies no
/// `<<` took. Stated for inputs that write each subshell as a command of its
/// own (`groups_stand_alone`).
pub proof fn lemma_heredoc_bodies_in_order(env: PEnv, ps: Ps)
    requires
        groups_stand_alone(env.toks),
    ensures
        parse_spec(env, ps) matches Ok((v, ps2)) ==> bodies_of(v) == taken(ps.hds, bodies_of(v).len())
            && ps2.hds == left_after(ps.hds, bodies_of(v).len()),
{
    let ps1 = skip_seps(env, ps);
    lemma_skip_seps(env, ps);
    let got = lemma_hd_parse_loop(env, ps1, Seq::empty());
    assert(bodies_of(Seq::<AstV>::empty()) + got =~= got);
}

/// The token kinds that are followed by a file name.
pub open spec fn is_redirect(k: TknV) -> bool {
    k is RedirectIn || k is RedirectOut || k is RedirectAppend
}

/// What the parser needs of its tokens: each token that is not a quoted string
/// spans a range of the command line between character boundaries, and no
/// redirection is the last token.
pub open spec fn tokens_ready(toks: Seq<TknSpanV>, buf: Seq<u8>) -> bool {
    forall|i: int|
        0 <= i < toks.len() ==> (!((#[trigger] toks[i]).kind is Quote) ==> span_ok(
            buf,
            toks[i].start,
            toks[i].end,
        )) && (is_redirect(toks[i].kind) ==> i + 1 < toks.len())
}

/// The texts of the tokens from `a` up to `b`.
pub open spec fn texts(env: PEnv, a: int, b: int) -> Seq<Seq<u8>> {
    Seq::new((b - a) as nat, |i: int| text(env, a + i))
}

/// Words and quoted strings are taken, in order, as the command's words.
proof fn lemma_expr_loop_words(
    env: PEnv,
    ps: Ps,
    args: Seq<Seq<u8>>,
    ins: Seq<RedirectV>,
    outs: Seq<RedirectV>,
    j: int,
)
    requires
        0 <= ps.pos <= j <= env.toks.len(),
        forall|i: int| ps.pos <= i < j ==> (#[trigger] env.toks[i]).kind is Word || env.toks[i].kind is Quote,
    ensures
        expr_loop(env, ps, args, ins, outs, None) == expr_loop(
            env,
            Ps { pos: j, cur: if j > ps.pos { Some(j - 1) } else { ps.cur }, hds: ps.hds },
            args + texts(env, ps.pos, j),
            ins,
            outs,
            None,
        ),
    decreases j - ps.pos,
{
    if ps.pos == j {
        assert(args + texts(env, ps.pos, j) =~= args);
        assert(ps == Ps { pos: j, cur: ps.cur, hds: ps.hds });
    } else {
        let ps1 = advance(env, ps);
        let args1 = args.push(text(env, ps.pos));
        lemma_expr_loop_words(env, ps1, args1, ins, outs, j);
        assert(args1 + texts(env, ps1.pos, j) =~= args + texts(env, ps.pos, j));
    }
}

/// What a command whose words are followed directly by the token at `j`
/// comes to: when that token ends a command, a builtin if the first word
/// names one, else a program named by its first word, with exactly the
/// words' texts, in order, and the token at `j` as the current one; when it
/// opens a subshell, an error that names the first word; when it is `&` or
/// `\`, an error for an unexpected token; when the tokens run out, an error
/// for that. A command line that starts with a token that ends a command has
/// no words, which is an error too.
pub proof fn lemma_expr_words(env: PEnv, ps: Ps, j: int)
    requires
        0 <= ps.pos <= j <= env.toks.len(),
        forall|i: int| ps.pos <= i < j ==> (#[trigger] env.toks[i]).kind is Word || env.toks[i].kind is Quote,
    ensures
        j == env.toks.len() ==> expr(env, ps) == Err::<(AstV, Ps), ParseErrorV>(ParseErrorV::NoTokens),
        j < env.toks.len() && is_prog_delim(env.toks[j].kind) && j > ps.pos ==> expr(env, ps) == Ok::<
            (AstV, Ps),
            ParseErrorV,
        >((
            if builtin_of(text(env, ps.pos)) is Some {
                AstV::Builtin { args: texts(env, ps.pos, j), ins: Seq::empty(), outs: Seq::empty() }
            } else {
                AstV::Prog {
                    name: text(env, ps.pos),
                    args: texts(env, ps.pos, j),
                    ins: Seq::empty(),
                    outs: Seq::empty(),
                }
            },
            Ps { pos: j + 1, cur: Some(j), hds: ps.hds },
        )),
        j < env.toks.len() && is_prog_delim(env.toks[j].kind) && j == ps.pos ==> expr(env, ps) == Err::<
            (AstV, Ps),
            ParseErrorV,
        >(ParseErrorV::EmptyArgs),
        j < env.toks.len() && env.toks[j].kind is LParen && j > ps.pos ==> expr(env, ps) == Err::<
            (AstV, Ps),
            ParseErrorV,
        >(ParseErrorV::ArgsBeforeSubshell(text(env, ps.pos))),
        j < env.toks.len() && (env.toks[j].kind is And || env.toks[j].kind is Backslash) ==> expr(env, ps)
            == Err::<(AstV, Ps), ParseErrorV>(ParseErrorV::UnexpectedInExpr),
{
    let e = Seq::<RedirectV>::empty();
    lemma_expr_loop_words(env, ps, Seq::empty(), e, e, j);
    let w = texts(env, ps.pos, j);
    assert(Seq::<Seq<u8>>::empty() + w =~= w);
    if j > ps.pos {
        assert(w[0] == text(env, ps.pos));
    }
}

/// A subshell's command lines are read up to its closing `)`, which is then
/// the current token, or to the end of the tokens.
pub proof fn lemma_subshell_ends_at_paren(env: PEnv, ps: Ps, acc: Seq<AstV>)
    ensures
        subsh_loop(env, ps, acc) matches Ok((_, ps2)) ==> !(cur_kind(env, ps2) matches Some(k) && !(k is RParen)),
    decreases env.toks.len() - ps.pos,
{
    if cur_kind(env, ps) matches Some(k) && !(k is RParen) {
        if let Ok((node, ps2)) = build_ast(env, ps) {
            if !(cur_kind(env, ps2) matches Some(k) && k is RParen) {
                let ps3 = skip_seps(env, ps2);
                let ps4 = if 0 <= ps3.pos < env.toks.len() && env.toks[ps3.pos].kind is RParen {
                    advance(env, ps3)
                } else {
                    ps3
                };
                if ps.pos < ps4.pos <= env.toks.len() {
                    lemma_subshell_ends_at_paren(env, ps4, acc.push(node));
                }
            }
        }
    }
}

/// A pipeline keeps its stages in the order they were read: the stages read
/// so far are the first stages of the pipeline that comes out.
pub proof fn lemma_pipeline_order(env: PEnv, ps: Ps, acc: Seq<AstV>)
    ensures
        pipe_loop(env, ps, acc) matches Ok((n, _)) ==> (n matches AstV::Pipeline(st) && st.len() >= acc.len()
            && st.subrange(0, acc.len() as int) == acc),
    decreases env.toks.len() - ps.pos,
{
    if cur_kind(env, ps) matches Some(k) && k is Pipe {
        let ps1 = skip_seps(env, ps);
        if let Ok((node, ps2)) = expr(env, ps1) {
            if ps.pos < ps2.pos <= env.toks.len() {
                let acc2 = acc.push(node);
                lemma_pipeline_order(env, ps2, acc2);
                if let Ok((AstV::Pipeline(st), _)) = pipe_loop(env, ps2, acc2) {
                    assert(st.subrange(0, acc.len() as int) =~= acc) by {
                        assert forall|i: int| 0 <= i < acc.len() implies st.subrange(0, acc.len() as int)[i]
                            == acc[i] by {
                            assert(st.subrange(0, acc2.len() as int)[i] == acc2[i]);
                        }
                    }
                }
            }
        }
    } else {
        assert(acc.subrange(0, acc.len() as int) =~= acc);
    }
}

/// The name after the input redirection at `i`, if the token at `i` is one.
pub open spec fn redirect_target(toks: Seq<TknSpanV>, buf: Seq<u8>, i: int) -> Option<Seq<u8>> {
    if 0 <= i && i + 1 < toks.len() && toks[i].kind is RedirectIn {
        Some(token_text(toks[i + 1], buf))
    } else {
        None
    }
}

/// The file checks are one per token, made for exactly the names after the
/// input redirections.
pub open spec fn checks_fit(cs: Seq<Option<FileCheck>>, toks: Seq<TknSpanV>, buf: Seq<u8>) -> bool {
    &&& cs.len() == toks.len()
    &&& forall|i: int| 0 <= i < cs.len() ==> (#[trigger] cs[i] is Some <==> redirect_target(toks, buf, i) is Some)
    &&& forall|i: int|
        0 <= i < cs.len() ==> (#[trigger] cs[i] matches Some(c) ==> encode_utf8(c.path()) == redirect_target(
            toks,
            buf,
            i,
        )->0)
}

/// The answers the checks hold, with `true` where no name was checked.
pub open spec fn file_answers(cs: Seq<Option<FileCheck>>) -> Seq<bool> {
    Seq::new(
        cs.len(),
        |i: int|
            match cs[i] {
                Some(c) => c.answer(),
                None => true,
            },
    )
}

/// The names after the input redirections, by token position.
pub fn redirect_targets<'b>(tkns: &'b [TknSpan], cmd_buf: &'b str) -> (r: Vec<Option<&'b str>>)
    requires
        tokens_ready(crate::lexer::toks_view(tkns@), cmd_buf.spec_bytes()),
    ensures
        r@.len() == tkns@.len(),
        forall|i: int|
            0 <= i < r@.len() ==> (#[trigger] r@[i] is Some <==> redirect_target(
                crate::lexer::toks_view(tkns@),
                cmd_buf.spec_bytes(),
                i,
            ) is Some) && (r@[i] matches Some(s) ==> s.spec_bytes() == redirect_target(
                crate::lexer::toks_view(tkns@),
                cmd_buf.spec_bytes(),
                i,
            )->0),
{
    let ghost toks = crate::lexer::toks_view(tkns@);
    let n = tkns.len();
    let mut r: Vec<Option<&'b str>> = Vec::new();
    let mut i: usize = 0;
    while i < n
        invariant
            n == tkns@.len(),
            toks == crate::lexer::toks_view(tkns@),
            tokens_ready(toks, cmd_buf.spec_bytes()),
            i <= n,
            r@.len() == i,
            forall|j: int|
                0 <= j < i ==> (#[trigger] r@[j] is Some <==> redirect_target(toks, cmd_buf.spec_bytes(), j) is Some)
                    && (r@[j] matches Some(s) ==> s.spec_bytes() == redirect_target(toks, cmd_buf.spec_bytes(), j)->0),
        decreases n - i,
    {
        assert(toks[i as int] == tkns@[i as int]@);
        let t = match &tkns[i].kind {
            Tkn::RedirectIn => {
                if i + 1 < n {
                    assert(toks[i + 1] == tkns@[i + 1]@);
                    Some(crate::lexer::get_token_at(&tkns[i + 1], cmd_buf))
                } else {
                    None
                }
            },
            _ => None,
        };
        r.push(t);
        i = i + 1;
    }
    r
}

/// `first` with each `(operator, pipeline)` of `rest` joined on in turn as
/// the right side of a new logical node: `((first o1 p1) o2 p2) ...`.
pub open spec fn chain(first: AstV, rest: Seq<(TknV, AstV)>) -> AstV
    decreases rest.len(),
{
    if rest.len() == 0 {
        first
    } else {
        AstV::Logical {
            lhs: Box::new(chain(first, rest.drop_last())),
            op: rest.last().0,
            rhs: Box::new(rest.last().1),
        }
    }
}

/// The joins of a command line: each operator is `&&` or `||`, and each
/// pipeline joined on is not a logical node.
pub open spec fn joins_ok(rest: Seq<(TknV, AstV)>) -> bool {
    forall|i: int|
        0 <= i < rest.len() ==> ((#[trigger] rest[i]).0 is CmdAnd || rest[i].0 is CmdOr) && !(rest[i].1 is Logical)
}

proof fn lemma_chain_prepend(first: AstV, op: TknV, p: AstV, rest: Seq<(TknV, AstV)>)
    ensures
        chain(AstV::Logical { lhs: Box::new(first), op, rhs: Box::new(p) }, rest) == chain(
            first,
            seq![(op, p)] + rest,
        ),
    decreases rest.len(),
{
    let l = AstV::Logical { lhs: Box::new(first), op, rhs: Box::new(p) };
    let all = seq![(op, p)] + rest;
    if rest.len() == 0 {
        assert(all =~= seq![(op, p)]);
        assert(all.drop_last() =~= Seq::<(TknV, AstV)>::empty());
        assert(chain(first, all.drop_last()) == first);
        assert(chain(first, all) == l);
    } else {
        lemma_chain_prepend(first, op, p, rest.drop_last());
        assert(all.drop_last() =~= seq![(op, p)] + rest.drop_last());
        assert(all.last() == rest.last());
        assert(chain(first, all) == AstV::Logical {
            lhs: Box::new(chain(first, all.drop_last())),
            op: rest.last().0,
            rhs: Box::new(rest.last().1),
        });
    }
}

/// `&&` and `||` have the same precedence and group from the left: a
/// command line is its first pipeline with each following pipeline joined on
/// as the right side of a new logical node, `((p1 o1 p2) o2 p3) ...`.
pub proof fn lemma_ast_loop_chain(env: PEnv, ps: Ps, node: AstV)
    ensures
        ast_loop(env, ps, node) matches Ok((n, _)) ==> exists|rest: Seq<(TknV, AstV)>|
            #[trigger] chain(node, rest) == n && joins_ok(rest),
    decreases env.toks.len() - ps.pos,
{
    if let Ok((n, _)) = ast_loop(env, ps, node) {
        let k = cur_kind(env, ps)->0;
        if is_end(k) {
            assert(chain(node, Seq::empty()) == n);
            assert(joins_ok(Seq::<(TknV, AstV)>::empty()));
        } else {
            let (rhs, ps2) = build_pipeline(env, ps)->Ok_0;
            lemma_build_pipeline_wf(env, ps);
            let n2 = AstV::Logical { lhs: Box::new(node), op: k, rhs: Box::new(rhs) };
            lemma_ast_loop_chain(env, ps2, n2);
            let rest = choose|rest: Seq<(TknV, AstV)>| #[trigger] chain(n2, rest) == n && joins_ok(rest);
            lemma_chain_prepend(node, k, rhs, rest);
            let all = seq![(k, rhs)] + rest;
            assert(joins_ok(all)) by {
                assert forall|i: int| 0 <= i < all.len() implies ((#[trigger] all[i]).0 is CmdAnd || all[i].0 is CmdOr)
                    && !(all[i].1 is Logical) by {
                    if i > 0 {
                        assert(all[i] == rest[i - 1]);
                    }
                }
            }
            assert(chain(node, all) == n);
        }
    }
}

/// A command line read by `build_ast` is a first pipeline (not itself a
/// logical node) with the following pipelines joined on from the left.
pub proof fn lemma_build_ast_chain(env: PEnv, ps: Ps)
    ensures
        build_ast(env, ps) matches Ok((n, _)) ==> build_pipeline(env, ps) matches Ok((first, _)) && !(first is Logical)
            && exists|rest: Seq<(TknV, AstV)>| #[trigger] chain(first, rest) == n && joins_ok(rest),
{
    lemma_build_pipeline_wf(env, ps);
    if let Ok((first, ps2)) = build_pipeline(env, ps) {
        if ps.pos < ps2.pos <= env.toks.len() {
            lemma_ast_loop_chain(env, ps2, first);
        }
    }
}

/// How a command takes its next token (the token at `ps.pos`):
/// - a word or quoted string is its next word;
/// - `<` with a name that is not a file is an error naming it; otherwise
///   the name becomes its next input redirection and is not a word;
/// - `>` or `>>` with a name makes its next output redirection;
/// - `<<` takes the next heredoc body as its next input redirection and must
///   be followed by a word or quoted string (its delimiter, not a word);
/// - `(` after words is an error naming the first word;
/// - a token that ends a command with no words and no subshell is an error;
/// - `&` and `\` are unexpected there; no token left is an error too.
pub proof fn lemma_expr_token(
    env: PEnv,
    ps: Ps,
    args: Seq<Seq<u8>>,
    ins: Seq<RedirectV>,
    outs: Seq<RedirectV>,
    inner: Option<Seq<AstV>>,
)
    ensures
        ({
            let i = ps.pos;
            let r = expr_loop(env, ps, args, ins, outs, inner);
            let ps1 = advance(env, ps);
            let k = env.toks[i].kind;
            &&& !(0 <= i < env.toks.len()) ==> r == Err::<(AstV, Ps), ParseErrorV>(ParseErrorV::NoTokens)
            &&& 0 <= i < env.toks.len() ==> {
                &&& (k is Word || k is Quote) ==> r == expr_loop(env, ps1, args.push(text(env, i)), ins, outs, inner)
                &&& (k is RedirectIn && !env.files[i]) ==> r == Err::<(AstV, Ps), ParseErrorV>(
                    ParseErrorV::NotAFile(text(env, i + 1)),
                )
                &&& (k is RedirectIn && env.files[i]) ==> r == expr_loop(
                    env,
                    advance(env, ps1),
                    args,
                    ins.push(RedirectV { dir: Redir::In, file: text(env, i + 1) }),
                    outs,
                    inner,
                )
                &&& k is RedirectOut ==> r == expr_loop(
                    env,
                    advance(env, ps1),
                    args,
                    ins,
                    outs.push(RedirectV { dir: Redir::Out, file: text(env, i + 1) }),
                    inner,
                )
                &&& k is RedirectAppend ==> r == expr_loop(
                    env,
                    advance(env, ps1),
                    args,
                    ins,
                    outs.push(RedirectV { dir: Redir::Append, file: text(env, i + 1) }),
                    inner,
                )
                &&& (k is Heredoc && !(i + 1 < env.toks.len())) ==> r == Err::<(AstV, Ps), ParseErrorV>(
                    ParseErrorV::MissingHeredocDelimiter,
                )
                &&& (k is Heredoc && i + 1 < env.toks.len() && !(env.toks[i + 1].kind is Word
                    || env.toks[i + 1].kind is Quote)) ==> r == Err::<(AstV, Ps), ParseErrorV>(
                    ParseErrorV::BadHeredocDelimiter,
                )
                &&& (k is LParen && args.len() > 0) ==> r == Err::<(AstV, Ps), ParseErrorV>(
                    ParseErrorV::ArgsBeforeSubshell(args[0]),
                )
                &&& (is_prog_delim(k) && args.len() == 0 && inner is None) ==> r == Err::<(AstV, Ps), ParseErrorV>(
                    ParseErrorV::EmptyArgs,
                )
                &&& (k is And || k is Backslash) ==> r == Err::<(AstV, Ps), ParseErrorV>(
                    ParseErrorV::UnexpectedInExpr,
                )
            }
        }),
{
}

/// A subshell's command lines are those read so far followed by the ones
/// read next, in order; when the current token is not `)`, at least one more
/// is read.
pub proof fn lemma_subshell_lines(env: PEnv, ps: Ps, acc: Seq<AstV>)
    ensures
        subsh_loop(env, ps, acc) matches Ok((v, _)) ==> v.len() >= acc.len() && v.subrange(0, acc.len() as int)
            == acc && (cur_kind(env, ps) matches Some(k) && !(k is RParen) ==> v.len() > acc.len()),
    decreases env.toks.len() - ps.pos,
{
    if cur_kind(env, ps) matches Some(k) && !(k is RParen) {
        if let Ok((node, ps2)) = build_ast(env, ps) {
            let acc2 = acc.push(node);
            if cur_kind(env, ps2) matches Some(k) && k is RParen {
                assert(acc2.subrange(0, acc.len() as int) =~= acc);
            } else {
                let ps3 = skip_seps(env, ps2);
                let ps4 = if 0 <= ps3.pos < env.toks.len() && env.toks[ps3.pos].kind is RParen {
                    advance(env, ps3)
                } else {
                    ps3
                };
                if ps.pos < ps4.pos <= env.toks.len() {
                    lemma_subshell_lines(env, ps4, acc2);
                    if let Ok((v, _)) = subsh_loop(env, ps4, acc2) {
                        assert(v.subrange(0, acc.len() as int) =~= acc) by {
                            assert forall|x: int| 0 <= x < acc.len() implies v.subrange(0, acc.len() as int)[x]
                                == acc[x] by {
                                assert(v.subrange(0, acc2.len() as int)[x] == acc2[x]);
                            }
                        }
                    }
                }
            }
        }
    } else {
        assert(acc.subrange(0, acc.len() as int) =~= acc);
    }
}

/// A command not followed by `|` is read as itself; one followed by `|` is
/// the first stage of a pipeline of at least two stages.
pub proof fn lemma_build_pipeline_shape(env: PEnv, ps: Ps)
    ensures
        build_pipeline(env, ps) matches Ok((n, ps2)) ==> expr(env, ps) matches Ok((c, ps1)) && (if cur_kind(
            env,
            ps1,
        ) matches Some(k) && k is Pipe {
            n matches AstV::Pipeline(st) && st.len() >= 2 && st[0] == c
        } else {
            n == c && ps2 == ps1
        }),
{
    if let Ok((c, ps1)) = expr(env, ps) {
        if cur_kind(env, ps1) matches Some(k) && k is Pipe {
            if ps.pos < ps1.pos <= env.toks.len() {
                lemma_pipeline_order(env, ps1, seq![c]);
                lemma_pipe_loop_wf_len(env, ps1, seq![c]);
                if let Ok((AstV::Pipeline(st), _)) = pipe_loop(env, ps1, seq![c]) {
                    assert(st.subrange(0, 1)[0] == st[0]);
                }
            }
        }
    }
}

proof fn lemma_pipe_loop_wf_len(env: PEnv, ps: Ps, acc: Seq<AstV>)
    ensures
        pipe_loop(env, ps, acc) matches Ok((n, _)) ==> (n matches AstV::Pipeline(st) && (cur_kind(env, ps) matches Some(
            k,
        ) && k is Pipe ==> st.len() > acc.len())),
    decreases env.toks.len() - ps.pos,
{
    if cur_kind(env, ps) matches Some(k) && k is Pipe {
        let ps1 = skip_seps(env, ps);
        if let Ok((node, ps2)) = expr(env, ps1) {
            if ps.pos < ps2.pos <= env.toks.len() {
                lemma_pipe_loop_wf_len(env, ps2, acc.push(node));
                lemma_pipeline_order(env, ps2, acc.push(node));
            }
        }
    }
}

/// A parse that succeeds reads every token.
pub proof fn lemma_parse_reads_all(env: PEnv, ps: Ps, acc: Seq<AstV>)
    requires
        0 <= ps.pos,
    ensures
        parse_loop(env, ps, acc) matches Ok((_, ps2)) ==> ps2.pos >= env.toks.len(),
    decreases env.toks.len() - ps.pos,
{
    if 0 <= ps.pos < env.toks.len() {
        if let Ok((node, ps2)) = build_ast(env, ps) {
            if let Some(k) = cur_kind(env, ps2) {
                if is_end(k) {
                    let ps3 = skip_seps(env, ps2);
                    if ps.pos < ps3.pos <= env.toks.len() {
                        lemma_parse_reads_all(env, ps3, acc.push(node));
                    }
                }
            }
        }
    }
}

/// Whether tokens are fit for the parser (see `tokens_ready`).
pub fn tokens_fit(tkns: &[TknSpan], cmd_buf: &str) -> (r: bool)
    ensures
        r == tokens_ready(crate::lexer::toks_view(tkns@), cmd_buf.spec_bytes()),
{
    let ghost toks = crate::lexer::toks_view(tkns@);
    let n = tkns.len();
    let blen = cmd_buf.as_bytes().len();
    let mut i: usize = 0;
    while i < n
        invariant
            n == tkns@.len(),
            toks == crate::lexer::toks_view(tkns@),
            toks.len() == n,
            blen == cmd_buf.spec_bytes().len(),
            i <= n,
            forall|j: int|
                0 <= j < i ==> (!((#[trigger] toks[j]).kind is Quote) ==> span_ok(
                    cmd_buf.spec_bytes(),
                    toks[j].start,
                    toks[j].end,
                )) && (is_redirect(toks[j].kind) ==> j + 1 < n),
        decreases n - i,
    {
        let t = &tkns[i];
        assert(toks[i as int] == t@);
        let is_quote = match t.kind {
            Tkn::Quote(_) => true,
            _ => false,
        };
        if !is_quote {
            let a = t.span.start;
            let e = t.span.end;
            if !(a <= e && e <= blen && cmd_buf.is_char_boundary(a) && cmd_buf.is_char_boundary(e)) {
                return false;
            }
        }
        let redirect = match t.kind {
            Tkn::RedirectIn | Tkn::RedirectOut | Tkn::RedirectAppend => true,
            _ => false,
        };
        if redirect && i + 1 >= n {
            return false;
        }
        i = i + 1;
    }
    true
}

/// The tokens of a command line that the lexer reads to its end are fit for
/// the parser: every token spans whole characters, and every redirection is
/// followed by its target.
pub proof fn lemma_lex_ready(b: Seq<u8>)
    requires
        valid_utf8(b),
        lex(b).end is Finished,
    ensures
        tokens_ready(lex(b).toks, b),
{
    lemma_lex_spans(b);
    lemma_redirect_followed(b, 0, fresh_state(), Seq::empty());
    let toks = lex(b).toks;
    assert forall|i: int| 0 <= i < toks.len() implies (!((#[trigger] toks[i]).kind is Quote) ==> span_ok(
        b,
        toks[i].start,
        toks[i].end,
    )) && (is_redirect(toks[i].kind) ==> i + 1 < toks.len()) by {}
}


/// A recursive-descent parser over the tokens of one command line.
pub struct Parser<'a> {
    tkns: &'a [TknSpan],
    pos: usize,
    cur_tkn: Option<usize>,
    heredocs: VecDeque<&'a str>,
    cmd_buf: &'a str,
    files: Vec<bool>,
    checks: Vec<Option<FileCheck>>,
}

/// The UTF-8 bytes of the heredoc bodies.
pub open spec fn hds_view(v: Seq<&str>) -> Seq<Seq<u8>> {
    Seq::new(v.len(), |i: int| v[i].spec_bytes())
}

/// The view of an optional list of trees.
pub open spec fn inner_view(o: Option<Vec<Box<AstNode>>>) -> Option<Seq<AstV>> {
    match o {
        Some(v) => Some(asts_view(v@)),
        None => None,
    }
}

/// How an executable result matches the result of the grammar functions.
pub open spec fn node_matches(r: Result<Box<AstNode>, ParseError>, fin: Ps, s: Result<(AstV, Ps), ParseErrorV>) -> bool {
    match r {
        Ok(n) => s == Ok::<(AstV, Ps), ParseErrorV>((ast_view(*n), fin)),
        Err(e) => s == Err::<(AstV, Ps), ParseErrorV>(e@),
    }
}

/// The parser's result agrees with the grammar's.
pub open spec fn nodes_matches(
    r: Result<Vec<Box<AstNode>>, ParseError>,
    fin: Ps,
    s: Result<(Seq<AstV>, Ps), ParseErrorV>,
) -> bool {
    match r {
        Ok(v) => s == Ok::<(Seq<AstV>, Ps), ParseErrorV>((asts_view(v@), fin)),
        Err(e) => s == Err::<(Seq<AstV>, Ps), ParseErrorV>(e@),
    }
}

impl<'a> Parser<'a> {
    /// What the parser reads.
    pub closed spec fn env(&self) -> PEnv {
        PEnv {
            toks: crate::lexer::toks_view(self.tkns@),
            buf: self.cmd_buf.spec_bytes(),
            files: self.files@,
        }
    }

    /// Where the parser is.
    pub closed spec fn state(&self) -> Ps {
        Ps {
            pos: self.pos as int,
            cur: match self.cur_tkn {
                Some(c) => Some(c as int),
                None => None,
            },
            hds: hds_view(self.heredocs@),
        }
    }

    /// The file checks that `parse` made, one per token.
    pub closed spec fn file_checks(&self) -> Seq<Option<FileCheck>> {
        self.checks@
    }

    /// The parser's position and current token lie within the tokens.
    pub closed spec fn wf(&self) -> bool {
        &&& self.pos <= self.tkns@.len()
        &&& self.cur_tkn matches Some(c) ==> c < self.tkns@.len()
    }

    /// Both parsers read the same tokens, command line and file checks.
    spec fn same_input(&self, other: &Self) -> bool {
        &&& self.tkns == other.tkns
        &&& self.cmd_buf == other.cmd_buf
        &&& self.files@ == other.files@
    }

    spec fn ready(&self) -> bool {
        &&& self.wf()
        &&& self.files@.len() == self.tkns@.len()
        &&& tokens_ready(self.env().toks, self.env().buf)
    }

    /// A parser over the tokens of `cmd_buf` and its heredoc bodies.
    pub fn new(tkns_: &'a [TknSpan], heredocs: VecDeque<&'a str>, cmd_buf: &'a str) -> (r: Self)
        ensures
            r.wf(),
            r.env().toks == crate::lexer::toks_view(tkns_@),
            r.env().buf == cmd_buf.spec_bytes(),
            r.state() == (Ps { pos: 0, cur: None, hds: hds_view(heredocs@) }),
    {
        Parser { tkns: tkns_, pos: 0, cur_tkn: None, heredocs, cmd_buf, files: Vec::new(), checks: Vec::new() }
    }

    fn advance(&mut self) -> (r: Option<usize>)
        requires
            old(self).ready(),
        ensures
            final(self).ready(),
            final(self).env() == old(self).env(),
            final(self).same_input(old(self)),
            final(self).state() == advance(old(self).env(), old(self).state()),
            r == final(self).cur_tkn,
    {
        if self.pos < self.tkns.len() {
            self.cur_tkn = Some(self.pos);
            self.pos = self.pos + 1;
        } else {
            self.cur_tkn = None;
        }
        self.cur_tkn
    }

    fn ignore_next_program_delims(&mut self)
        requires
            old(self).ready(),
        ensures
            final(self).ready(),
            final(self).env() == old(self).env(),
            final(self).same_input(old(self)),
            final(self).state() == skip_seps(old(self).env(), old(self).state()),
    {
        let ghost goal = skip_seps(self.env(), self.state());
        while self.pos < self.tkns.len() && sep_kind(&self.tkns[self.pos].kind)
            invariant
                self.ready(),
                self.env() == old(self).env(),
                self.same_input(old(self)),
                skip_seps(self.env(), self.state()) == goal,
                goal == skip_seps(old(self).env(), old(self).state()),
            decreases self.tkns@.len() - self.pos,
        {
            self.advance();
        }
    }
}

fn sep_kind(k: &Tkn) -> (r: bool)
    ensures
        r == is_sep(k@),
{
    match k {
        Tkn::Newline | Tkn::Semicolon => true,
        _ => false,
    }
}


fn delim_kind(k: &Tkn) -> (r: bool)
    ensures
        r == is_prog_delim(k@),
{
    match k {
        Tkn::Newline | Tkn::Semicolon | Tkn::CmdOr | Tkn::CmdAnd | Tkn::RParen | Tkn::Pipe => true,
        _ => false,
    }
}

/// Builds the node for a finished command.
fn finish_x<'a>(
    args: Vec<&'a str>,
    ins: Vec<Redirect>,
    outs: Vec<Redirect>,
    inner: Option<Vec<Box<AstNode<'a>>>>,
) -> (r: Result<Box<AstNode<'a>>, ParseError>)
    ensures
        match r {
            Ok(n) => finish(strs_view(args@), redirects_view(ins@), redirects_view(outs@), inner_view(inner))
                == Ok::<AstV, ParseErrorV>(ast_view(*n)),
            Err(e) => finish(strs_view(args@), redirects_view(ins@), redirects_view(outs@), inner_view(inner))
                == Err::<AstV, ParseErrorV>(e@),
        },
{
    if args.len() == 0 && inner.is_none() {
        return Err(ParseError::EmptyArgs);
    }
    match inner {
        Some(v) => {
            let ghost vv = v@;
            let node = AstNode::Subshell(Subsh { inner_ast: v, redirect_ins: ins, redirect_outs: outs });
            assert(ast_view(node) == AstV::Subshell { inner: asts_view(vv), ins: redirects_view(ins@), outs: redirects_view(outs@) }) by {
                if let AstV::Subshell { inner: iv, .. } = ast_view(node) {
                    assert(iv =~= asts_view(vv));
                }
            }
            Ok(Box::new(node))
        },
        None => {
            let name = args[0];
            if lookup_builtin(name).is_some() {
                Ok(Box::new(AstNode::Builtin(Builtin { args, redirect_ins: ins, redirect_outs: outs })))
            } else {
                Ok(Box::new(AstNode::Prog(ChildPr { args, redirect_ins: ins, redirect_outs: outs, prog_name: name })))
            }
        },
    }
}


fn is_kind_rparen(k: &Tkn) -> (r: bool)
    ensures
        r == (k@ is RParen),
{
    match k {
        Tkn::RParen => true,
        _ => false,
    }
}

fn is_kind_pipe(k: &Tkn) -> (r: bool)
    ensures
        r == (k@ is Pipe),
{
    match k {
        Tkn::Pipe => true,
        _ => false,
    }
}

impl<'a> Parser<'a> {
    fn cur_is_rparen(&self) -> (r: bool)
        requires
            self.wf(),
        ensures
            r == (cur_kind(self.env(), self.state()) matches Some(k) && k is RParen),
    {
        match self.cur_tkn {
            Some(c) => is_kind_rparen(&self.tkns[c].kind),
            None => false,
        }
    }

    fn cur_is_pipe(&self) -> (r: bool)
        requires
            self.wf(),
        ensures
            r == (cur_kind(self.env(), self.state()) matches Some(k) && k is Pipe),
    {
        match self.cur_tkn {
            Some(c) => is_kind_pipe(&self.tkns[c].kind),
            None => false,
        }
    }

    /// Reads one command (see `expr_loop`).
    #[verifier::rlimit(100)]
    fn expr(&mut self) -> (r: Result<Box<AstNode<'a>>, ParseError>)
        requires
            old(self).ready(),
        ensures
            final(self).ready(),
            final(self).env() == old(self).env(),
            final(self).same_input(old(self)),
            node_matches(r, final(self).state(), expr(old(self).env(), old(self).state())),
            r is Ok ==> final(self).pos > old(self).pos,
        decreases old(self).tkns@.len() - old(self).pos, 1int,
    {
        let ghost env = self.env();
        let ghost goal = expr(env, self.state());
        let tkns = self.tkns;
        let n = tkns.len();
        let mut args: Vec<&'a str> = Vec::new();
        let mut ins: Vec<Redirect> = Vec::new();
        let mut outs: Vec<Redirect> = Vec::new();
        let mut inner: Option<Vec<Box<AstNode<'a>>>> = None;
        assert(strs_view(args@) =~= Seq::<Seq<u8>>::empty());
        assert(redirects_view(ins@) =~= Seq::<RedirectV>::empty());
        assert(redirects_view(outs@) =~= Seq::<RedirectV>::empty());
        loop
            invariant
                self.ready(),
                self.env() == env,
                env == old(self).env(),
                self.same_input(old(self)),
                tkns == self.tkns,
                n == tkns@.len(),
                self.pos >= old(self).pos,
                goal == expr(env, old(self).state()),
                expr_loop(
                    env,
                    self.state(),
                    strs_view(args@),
                    redirects_view(ins@),
                    redirects_view(outs@),
                    inner_view(inner),
                ) == goal,
            decreases n - self.pos,
        {
            let i = self.pos;
            if i >= n {
                self.advance();
                return Err(ParseError::NoTokens);
            }
            self.advance();
            let t = &tkns[i];
            assert(env.toks[i as int] == t@);
            match &t.kind {
                Tkn::Word | Tkn::Quote(_) => {
                    let ghost a0 = args@;
                    args.push(crate::lexer::get_token_at(t, self.cmd_buf));
                    assert(strs_view(args@) =~= strs_view(a0).push(text(env, i as int)));
                },
                Tkn::RedirectIn => {
                    self.advance();
                    let f = crate::lexer::get_token_at(&tkns[i + 1], self.cmd_buf);
                    assert(f.spec_bytes() == text(env, i + 1));
                    if !self.files[i] {
                        return Err(ParseError::NotAFile(owned(f)));
                    }
                    let ghost r0 = ins@;
                    ins.push(Redirect { dir: Redir::In, file: owned(f) });
                    assert(redirects_view(ins@) =~= redirects_view(r0).push(
                        RedirectV { dir: Redir::In, file: text(env, i + 1) },
                    ));
                },
                Tkn::RedirectOut => {
                    self.advance();
                    let f = crate::lexer::get_token_at(&tkns[i + 1], self.cmd_buf);
                    let ghost r0 = outs@;
                    outs.push(Redirect { dir: Redir::Out, file: owned(f) });
                    assert(redirects_view(outs@) =~= redirects_view(r0).push(
                        RedirectV { dir: Redir::Out, file: text(env, i + 1) },
                    ));
                },
                Tkn::RedirectAppend => {
                    self.advance();
                    let f = crate::lexer::get_token_at(&tkns[i + 1], self.cmd_buf);
                    let ghost r0 = outs@;
                    outs.push(Redirect { dir: Redir::Append, file: owned(f) });
                    assert(redirects_view(outs@) =~= redirects_view(r0).push(
                        RedirectV { dir: Redir::Append, file: text(env, i + 1) },
                    ));
                },
                Tkn::Heredoc => {
                    let ghost h0 = self.heredocs@;
                    let content = match self.heredocs.pop_front() {
                        Some(h) => owned(h),
                        None => owned(""),
                    };
                    assert(hds_view(self.heredocs@) =~= if h0.len() > 0 {
                        hds_view(h0).drop_first()
                    } else {
                        hds_view(h0)
                    });
                    proof {
                        reveal_strlit("");
                        assert(sbytes(content) =~= if h0.len() > 0 {
                            hds_view(h0)[0]
                        } else {
                            Seq::empty()
                        });
                    }
                    let ghost r0 = ins@;
                    ins.push(Redirect { dir: Redir::Heredoc, file: content });
                    assert(redirects_view(ins@) =~= redirects_view(r0).push(
                        RedirectV { dir: Redir::Heredoc, file: sbytes(content) },
                    ));
                    if i + 1 >= n {
                        return Err(ParseError::MissingHeredocDelimiter);
                    }
                    assert(env.toks[i + 1] == tkns@[i + 1]@);
                    match &tkns[i + 1].kind {
                        Tkn::Word | Tkn::Quote(_) => {
                            self.advance();
                        },
                        _ => {
                            return Err(ParseError::BadHeredocDelimiter);
                        },
                    }
                },
                Tkn::LParen => {
                    if args.len() > 0 {
                        assert(strs_view(args@)[0] == args@[0].spec_bytes());
                        return Err(ParseError::ArgsBeforeSubshell(owned(args[0])));
                    }
                    match self.build_subshell() {
                        Err(e) => {
                            return Err(e);
                        },
                        Ok(v) => {
                            inner = Some(v);
                        },
                    }
                },
                Tkn::Newline | Tkn::Semicolon | Tkn::CmdOr | Tkn::CmdAnd | Tkn::RParen | Tkn::Pipe => {
                    return finish_x(args, ins, outs, inner);
                },
                _ => {
                    return Err(ParseError::UnexpectedInExpr);
                },
            }
        }
    }

    /// Reads the command lines of a subshell (see `subsh_loop`).
    #[verifier::rlimit(100)]
    fn build_subshell(&mut self) -> (r: Result<Vec<Box<AstNode<'a>>>, ParseError>)
        requires
            old(self).ready(),
        ensures
            final(self).ready(),
            final(self).env() == old(self).env(),
            final(self).same_input(old(self)),
            nodes_matches(r, final(self).state(), subsh_loop(old(self).env(), old(self).state(), Seq::empty())),
            r is Ok ==> final(self).pos >= old(self).pos,
        decreases old(self).tkns@.len() - old(self).pos, 4int,
    {
        let ghost env = self.env();
        let ghost goal = subsh_loop(env, self.state(), Seq::empty());
        let mut subsh: Vec<Box<AstNode<'a>>> = Vec::new();
        assert(asts_view(subsh@) =~= Seq::<AstV>::empty());
        loop
            invariant
                self.ready(),
                self.env() == env,
                env == old(self).env(),
                self.same_input(old(self)),
                self.pos >= old(self).pos,
                goal == subsh_loop(env, old(self).state(), Seq::empty()),
                subsh_loop(env, self.state(), asts_view(subsh@)) == goal,
            decreases self.tkns@.len() - self.pos,
        {
            let open = match self.cur_tkn {
                Some(c) => !is_kind_rparen(&self.tkns[c].kind),
                None => false,
            };
            if !open {
                return Ok(subsh);
            }
            let ghost p0 = self.pos;
            let node = match self.build_ast() {
                Err(e) => {
                    return Err(e);
                },
                Ok(node) => node,
            };
            let ghost s0 = subsh@;
            subsh.push(node);
            assert(asts_view(subsh@) =~= asts_view(s0).push(ast_view(*node)));
            if self.cur_is_rparen() {
                return Ok(subsh);
            }
            let ghost s_before = self.state();
            self.ignore_next_program_delims();
            proof {
                lemma_skip_seps(env, s_before);
            }
            if self.pos < self.tkns.len() && is_kind_rparen(&self.tkns[self.pos].kind) {
                self.advance();
            }
        }
    }

    /// Reads a pipeline (see `build_pipeline`).
    #[verifier::rlimit(100)]
    fn build_pipeline(&mut self) -> (r: Result<Box<AstNode<'a>>, ParseError>)
        requires
            old(self).ready(),
        ensures
            final(self).ready(),
            final(self).env() == old(self).env(),
            final(self).same_input(old(self)),
            node_matches(r, final(self).state(), build_pipeline(old(self).env(), old(self).state())),
            r is Ok ==> final(self).pos > old(self).pos,
        decreases old(self).tkns@.len() - old(self).pos, 2int,
    {
        let ghost env = self.env();
        let node = match self.expr() {
            Err(e) => {
                return Err(e);
            },
            Ok(n) => n,
        };
        if !self.cur_is_pipe() {
            return Ok(node);
        }
        let ghost goal = build_pipeline(env, old(self).state());
        let mut pipeline: Vec<Box<AstNode<'a>>> = Vec::new();
        pipeline.push(node);
        assert(asts_view(pipeline@) =~= seq![ast_view(*node)]);
        loop
            invariant
                self.ready(),
                self.env() == env,
                env == old(self).env(),
                self.same_input(old(self)),
                self.tkns@.len() == old(self).tkns@.len(),
                self.pos > old(self).pos,
                goal == build_pipeline(env, old(self).state()),
                pipe_loop(env, self.state(), asts_view(pipeline@)) == goal,
            decreases self.tkns@.len() - self.pos,
        {
            if !self.cur_is_pipe() {
                let ghost pv = asts_view(pipeline@);
                let r = Box::new(AstNode::Pipeline(pipeline));
                assert(ast_view(*r) == AstV::Pipeline(pv)) by {
                    if let AstV::Pipeline(x) = ast_view(*r) {
                        assert(x =~= pv);
                    }
                }
                return Ok(r);
            }
            let ghost s_before = self.state();
            self.ignore_next_program_delims();
            proof {
                lemma_skip_seps(env, s_before);
            }
            let node = match self.expr() {
                Err(e) => {
                    return Err(e);
                },
                Ok(n) => n,
            };
            let ghost s0 = pipeline@;
            pipeline.push(node);
            assert(asts_view(pipeline@) =~= asts_view(s0).push(ast_view(*node)));
        }
    }

    /// Reads a command line (see `build_ast`).
    fn build_ast(&mut self) -> (r: Result<Box<AstNode<'a>>, ParseError>)
        requires
            old(self).ready(),
        ensures
            final(self).ready(),
            final(self).env() == old(self).env(),
            final(self).same_input(old(self)),
            node_matches(r, final(self).state(), build_ast(old(self).env(), old(self).state())),
            r is Ok ==> final(self).pos > old(self).pos,
        decreases old(self).tkns@.len() - old(self).pos, 3int,
    {
        let ghost env = self.env();
        let ghost goal = build_ast(env, self.state());
        let mut node = match self.build_pipeline() {
            Err(e) => {
                return Err(e);
            },
            Ok(n) => n,
        };
        loop
            invariant
                self.ready(),
                self.env() == env,
                env == old(self).env(),
                self.same_input(old(self)),
                self.pos > old(self).pos,
                goal == build_ast(env, old(self).state()),
                ast_loop(env, self.state(), ast_view(*node)) == goal,
            decreases self.tkns@.len() - self.pos,
        {
            let c = match self.cur_tkn {
                None => {
                    return Err(ParseError::MissingToken);
                },
                Some(c) => c,
            };
            assert(env.toks[c as int] == self.tkns@[c as int]@);
            let op = match &self.tkns[c].kind {
                Tkn::Newline | Tkn::Semicolon | Tkn::RParen => {
                    return Ok(node);
                },
                Tkn::CmdOr => Tkn::CmdOr,
                Tkn::CmdAnd => Tkn::CmdAnd,
                _ => {
                    return Err(ParseError::UnexpectedAfterCommand);
                },
            };
            let rhs = match self.build_pipeline() {
                Err(e) => {
                    return Err(e);
                },
                Ok(n) => n,
            };
            node = Box::new(AstNode::Logical { lhs: node, operator: op, rhs });
        }
    }
}


fn end_kind(k: &Tkn) -> (r: bool)
    ensures
        r == is_end(k@),
{
    match k {
        Tkn::Newline | Tkn::Semicolon | Tkn::RParen => true,
        _ => false,
    }
}

impl<'a> Parser<'a> {
    /// Parses the command lines of the tokens, given for each token position
    /// whether the name after an input redirection there is a file.
    #[verifier::rlimit(100)]
    fn parse_all(&mut self) -> (r: Result<Vec<Box<AstNode<'a>>>, ParseError>)
        requires
            old(self).ready(),
        ensures
            final(self).wf(),
            nodes_matches(r, final(self).state(), parse_spec(old(self).env(), old(self).state())),
    {
        let ghost env = self.env();
        let ghost goal = parse_spec(env, self.state());
        let mut executables: Vec<Box<AstNode<'a>>> = Vec::new();
        self.ignore_next_program_delims();
        assert(asts_view(executables@) =~= Seq::<AstV>::empty());
        loop
            invariant
                self.ready(),
                self.env() == env,
                env == old(self).env(),
                goal == parse_spec(env, old(self).state()),
                parse_loop(env, self.state(), asts_view(executables@)) == goal,
            decreases self.tkns@.len() - self.pos,
        {
            if self.pos >= self.tkns.len() {
                return Ok(executables);
            }
            let node = match self.build_ast() {
                Err(e) => {
                    return Err(e);
                },
                Ok(n) => n,
            };
            let c = match self.cur_tkn {
                None => {
                    return Err(ParseError::MissingToken);
                },
                Some(c) => c,
            };
            assert(env.toks[c as int] == self.tkns@[c as int]@);
            if !end_kind(&self.tkns[c].kind) {
                return Err(ParseError::UnexpectedAtEnd);
            }
            let ghost e0 = executables@;
            executables.push(node);
            assert(asts_view(executables@) =~= asts_view(e0).push(ast_view(*node)));
            let ghost s_before = self.state();
            self.ignore_next_program_delims();
            proof {
                lemma_skip_seps(env, s_before);
            }
        }
    }

    /// Parses the command lines of the tokens, given for each token position
    /// whether the name after an input redirection there is a file.
    pub fn parse_with_files(&mut self, files: Vec<bool>) -> (r: Result<Vec<Box<AstNode<'a>>>, ParseError>)
        requires
            old(self).wf(),
            files@.len() == old(self).env().toks.len(),
            tokens_ready(old(self).env().toks, old(self).env().buf),
        ensures
            final(self).wf(),
            nodes_matches(
                r,
                final(self).state(),
                parse_spec(with_files(old(self).env(), files@), old(self).state()),
            ),
    {
        let ghost fv = files@;
        self.files = files;
        assert(self.env() == with_files(old(self).env(), fv));
        self.parse_all()
    }

    /// Parses the command lines of the tokens. Whether the name after each
    /// input redirection is a file is asked of the file system: the checks
    /// made, kept in the parser, are for exactly those names, and the result
    /// is that of `parse_with_files` for the answers they hold.
    pub fn parse(&mut self) -> (r: Result<Vec<Box<AstNode<'a>>>, ParseError>)
        requires
            old(self).wf(),
            tokens_ready(old(self).env().toks, old(self).env().buf),
        ensures
            final(self).wf(),
            checks_fit(final(self).file_checks(), old(self).env().toks, old(self).env().buf),
            nodes_matches(
                r,
                final(self).state(),
                parse_spec(with_files(old(self).env(), file_answers(final(self).file_checks())), old(self).state()),
            ),
            r matches Ok(v) ==> all_well_formed(asts_view(v@)) && final(self).state().pos >= old(self).env().toks.len(),
    {
        let ghost env0 = self.env();
        let ghost ps0 = self.state();
        let targets = redirect_targets(self.tkns, self.cmd_buf);
        let n = targets.len();
        let mut files: Vec<bool> = Vec::new();
        let mut checks: Vec<Option<FileCheck>> = Vec::new();
        let mut i: usize = 0;
        while i < n
            invariant
                n == targets@.len(),
                n == env0.toks.len(),
                i <= n,
                files@.len() == i,
                checks@.len() == i,
                forall|j: int| 0 <= j < i ==> (targets@[j] is Some <==> redirect_target(env0.toks, env0.buf, j) is Some)
                    && (targets@[j] matches Some(s) ==> s.spec_bytes() == redirect_target(env0.toks, env0.buf, j)->0),
                forall|j: int| 0 <= j < n ==> (targets@[j] is Some <==> redirect_target(env0.toks, env0.buf, j) is Some)
                    && (targets@[j] matches Some(s) ==> s.spec_bytes() == redirect_target(env0.toks, env0.buf, j)->0),
                forall|j: int| 0 <= j < i ==> (#[trigger] checks@[j] is Some <==> targets@[j] is Some),
                forall|j: int| 0 <= j < i ==> (#[trigger] checks@[j] matches Some(c) ==> targets@[j] matches Some(s) && c.path() == s@),
                files@ == file_answers(checks@),
            decreases n - i,
        {
            let ghost before = checks@;
            match targets[i] {
                Some(name) => {
                    let c = check_file(name);
                    files.push(c.is_file());
                    checks.push(Some(c));
                },
                None => {
                    files.push(true);
                    checks.push(None);
                },
            }
            assert(checks@ == before.push(checks@[i as int]));
            assert(files@ =~= file_answers(checks@));
            i = i + 1;
        }
        proof {
            assert forall|j: int| 0 <= j < n implies (#[trigger] checks@[j] matches Some(c) ==> encode_utf8(c.path())
                == redirect_target(env0.toks, env0.buf, j)->0) by {}
            assert(checks_fit(checks@, env0.toks, env0.buf));
        }
        let ghost f = files@;
        let r = self.parse_with_files(files);
        self.checks = checks;
        proof {
            lemma_parse_well_formed(with_files(env0, f), ps0);
            lemma_skip_seps(with_files(env0, f), ps0);
            lemma_parse_reads_all(with_files(env0, f), skip_seps(with_files(env0, f), ps0), Seq::empty());
        }
        r
    }

    /// The file checks that `parse` made.
    pub fn into_file_checks(self) -> (r: Vec<Option<FileCheck>>)
        ensures
            r@ == self.file_checks(),
    {
        self.checks
    }
}

} // verus!
