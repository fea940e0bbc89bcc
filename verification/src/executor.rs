use vstd::prelude::*;
use vstd::string::*;
use vstd::utf8::*;
use crate::text::{sbytes, str_eq};
use std::collections::VecDeque;
use crate::fscheck::FileCheck;
use crate::parser::{checks_fit, file_answers, AstNode, AstV, ast_view, asts_view, redirects_view, Parser, ParseError, ParseErrorV, PEnv, Ps, parse_spec, tokens_ready, hds_view, with_files, nodes_matches, well_formed, all_well_formed};
use crate::lexer::{Tkn, TknV, TknSpan, TknSpanV, toks_view};

verus! {

/// The direction of a redirection.
#[derive(PartialEq, Eq, Structural, Clone, Copy, Debug)]
pub enum Redir {
    In,
    Out,
    Append,
    Heredoc,
}

/// A redirection: the file it names, or for a heredoc, its body.
pub struct Redirect {
    pub dir: Redir,
    pub file: String,
}

/// A redirection as a mathematical value.
pub struct RedirectV {
    pub dir: Redir,
    pub file: Seq<u8>,
}

impl View for Redirect {
    type V = RedirectV;

    open spec fn view(&self) -> RedirectV {
        RedirectV { dir: self.dir, file: sbytes(self.file) }
    }
}

/// A command run by the shell itself.
pub struct Builtin<'a> {
    pub args: Vec<&'a str>,
    pub redirect_ins: Vec<Redirect>,
    pub redirect_outs: Vec<Redirect>,
}

/// A program run as a child process.
pub struct ChildPr<'a> {
    pub args: Vec<&'a str>,
    pub redirect_ins: Vec<Redirect>,
    pub redirect_outs: Vec<Redirect>,
    pub prog_name: &'a str,
}

/// A group of commands run by a child shell.
pub struct Subsh<'a> {
    pub inner_ast: Vec<Box<AstNode<'a>>>,
    pub redirect_ins: Vec<Redirect>,
    pub redirect_outs: Vec<Redirect>,
}

/// The commands the shell runs itself.
#[derive(PartialEq, Eq, Structural, Clone, Copy, Debug)]
pub enum BuiltinKind {
    Pwd,
    Cd,
    History,
    Exit,
}

/// The builtin a command name stands for.
pub open spec fn builtin_of(name: Seq<u8>) -> Option<BuiltinKind> {
    if name == encode_utf8("pwd"@) {
        Some(BuiltinKind::Pwd)
    } else if name == encode_utf8("cd"@) {
        Some(BuiltinKind::Cd)
    } else if name == encode_utf8("history"@) {
        Some(BuiltinKind::History)
    } else if name == encode_utf8("exit"@) {
        Some(BuiltinKind::Exit)
    } else {
        None
    }
}

/// The table of builtin commands, by name.
pub fn get_builtins() -> (r: Vec<(&'static str, BuiltinKind)>)
    ensures
        r@.len() == 4,
        r@[0].0@ == "pwd"@ && r@[0].1 == BuiltinKind::Pwd,
        r@[1].0@ == "cd"@ && r@[1].1 == BuiltinKind::Cd,
        r@[2].0@ == "history"@ && r@[2].1 == BuiltinKind::History,
        r@[3].0@ == "exit"@ && r@[3].1 == BuiltinKind::Exit,
        forall|i: int| 0 <= i < 4 ==> builtin_of((#[trigger] r@[i]).0.spec_bytes()) == Some(r@[i].1),
{
    let r = vec![
        ("pwd", BuiltinKind::Pwd),
        ("cd", BuiltinKind::Cd),
        ("history", BuiltinKind::History),
        ("exit", BuiltinKind::Exit),
    ];
    proof {
        broadcast use encode_utf8_decode_utf8;

        reveal_strlit("pwd");
        reveal_strlit("cd");
        reveal_strlit("history");
        reveal_strlit("exit");
        assert("pwd"@.len() != "cd"@.len());
        assert("pwd"@.len() != "history"@.len());
        assert("pwd"@.len() != "exit"@.len());
        assert("cd"@.len() != "history"@.len());
        assert("cd"@.len() != "exit"@.len());
        assert("history"@.len() != "exit"@.len());
        assert(decode_utf8(encode_utf8("pwd"@)) == "pwd"@);
        assert(decode_utf8(encode_utf8("cd"@)) == "cd"@);
        assert(decode_utf8(encode_utf8("history"@)) == "history"@);
        assert(decode_utf8(encode_utf8("exit"@)) == "exit"@);
        assert(builtin_of(r@[0].0.spec_bytes()) == Some(r@[0].1));
        assert(builtin_of(r@[1].0.spec_bytes()) == Some(r@[1].1));
        assert(builtin_of(r@[2].0.spec_bytes()) == Some(r@[2].1));
        assert(builtin_of(r@[3].0.spec_bytes()) == Some(r@[3].1));
    }
    r
}


/// The builtin that a command name stands for, if any.
pub fn lookup_builtin(name: &str) -> (r: Option<BuiltinKind>)
    ensures
        r == builtin_of(name.spec_bytes()),
{
    proof {
        broadcast use encode_utf8_decode_utf8;

        assert(decode_utf8(encode_utf8(name@)) == name@);
        assert(decode_utf8(encode_utf8("pwd"@)) == "pwd"@);
        assert(decode_utf8(encode_utf8("cd"@)) == "cd"@);
        assert(decode_utf8(encode_utf8("history"@)) == "history"@);
        assert(decode_utf8(encode_utf8("exit"@)) == "exit"@);
    }
    if str_eq(name, "pwd") {
        Some(BuiltinKind::Pwd)
    } else if str_eq(name, "cd") {
        Some(BuiltinKind::Cd)
    } else if str_eq(name, "history") {
        Some(BuiltinKind::History)
    } else if str_eq(name, "exit") {
        Some(BuiltinKind::Exit)
    } else {
        None
    }
}


// ---------------------------------------------------------------------------
// What redirections ask for
// ---------------------------------------------------------------------------

/// How an output redirection opens its file: both create it when it is missing.
#[derive(PartialEq, Eq, Structural, Clone, Copy, Debug)]
pub enum OutMode {
    /// `>`: empty the file first.
    Truncate,
    /// `>>`: write at its end.
    Append,
}

/// The message for an input redirection among output redirections.
pub open spec fn misplaced_in_msg() -> Seq<char> {
    "unreachable: got redirect in while executing redirect out"@
}

/// How an output redirection opens its file; `None` for an input redirection.
pub open spec fn mode_of(d: Redir) -> Option<OutMode> {
    match d {
        Redir::Out => Some(OutMode::Truncate),
        Redir::Append => Some(OutMode::Append),
        _ => None,
    }
}

/// How the output redirections open their files, in order, up to the first
/// one that is not an output redirection; and the error when there is such a
/// one. The files before it are opened (and created) before the error stops
/// the command.
pub fn out_modes(redirects: &Vec<Redirect>) -> (r: (Vec<OutMode>, Option<String>))
    ensures
        r.0@.len() <= redirects@.len(),
        forall|i: int| 0 <= i < r.0@.len() ==> mode_of(redirects@[i].dir) == Some(#[trigger] r.0@[i]),
        r.1 is None ==> r.0@.len() == redirects@.len(),
        r.1 is Some ==> r.0@.len() < redirects@.len() && mode_of(redirects@[r.0@.len() as int].dir) is None
            && r.1->0@ == misplaced_in_msg(),
{
    let mut modes: Vec<OutMode> = Vec::new();
    let mut i: usize = 0;
    while i < redirects.len()
        invariant
            i <= redirects@.len(),
            modes@.len() == i,
            forall|j: int| 0 <= j < i ==> mode_of(redirects@[j].dir) == Some(#[trigger] modes@[j]),
        decreases redirects.len() - i,
    {
        match redirects[i].dir {
            Redir::Out => modes.push(OutMode::Truncate),
            Redir::Append => modes.push(OutMode::Append),
            _ => {
                return (modes, Some(String::from_str("unreachable: got redirect in while executing redirect out")));
            },
        }
        i = i + 1;
    }
    (modes, None)
}

/// The exit code of a pipeline, from what waiting on each process it started
/// gave, in order (`None` where waiting failed or the process gave no code):
/// that of the last process, 1 when it gave none, and 0 when the pipeline
/// started no process (all its stages were builtins).
pub open spec fn pipeline_code_spec(waits: Seq<Option<i32>>) -> i32 {
    if waits.len() == 0 {
        0
    } else {
        match waits.last() {
            Some(c) => c,
            None => 1,
        }
    }
}

/// A pipeline's exit code is decided by its last process alone: whatever
/// the processes before it gave, the code is the last one's, or 1 when it
/// gave none.
pub proof fn lemma_pipeline_code_last(earlier: Seq<Option<i32>>, last: Option<i32>)
    ensures
        pipeline_code_spec(earlier.push(last)) == (match last {
            Some(c) => c,
            None => 1i32,
        }),
        pipeline_code_spec(earlier.push(last)) == pipeline_code_spec(seq![last]),
{
}

/// The exit code of a pipeline (see `pipeline_code_spec`).
pub fn pipeline_code(waits: &Vec<Option<i32>>) -> (r: i32)
    ensures
        r == pipeline_code_spec(waits@),
{
    let n = waits.len();
    if n == 0 {
        0
    } else {
        match waits[n - 1] {
            Some(c) => c,
            None => 1,
        }
    }
}

/// What goes into the standard input of a program with input redirections.
pub enum Feed {
    /// The body of a heredoc.
    Text(String),
    /// The contents of this file, when it can be opened.
    File(String),
}

/// A feed as a mathematical value.
pub enum FeedV {
    Text(Seq<u8>),
    File(Seq<u8>),
}

impl View for Feed {
    type V = FeedV;

    open spec fn view(&self) -> FeedV {
        match self {
            Feed::Text(t) => FeedV::Text(sbytes(*t)),
            Feed::File(f) => FeedV::File(sbytes(*f)),
        }
    }
}

/// What the input redirections feed, in order: heredoc bodies and files;
/// output redirections feed nothing.
pub open spec fn feeds_spec(rs: Seq<RedirectV>) -> Seq<FeedV>
    decreases rs.len(),
{
    if rs.len() == 0 {
        Seq::empty()
    } else {
        let rest = feeds_spec(rs.drop_last());
        let r = rs.last();
        match r.dir {
            Redir::Heredoc => rest.push(FeedV::Text(r.file)),
            Redir::In => rest.push(FeedV::File(r.file)),
            _ => rest,
        }
    }
}

/// The input redirections (`<` and heredocs) among `rs`, in their order.
pub open spec fn input_redirects(rs: Seq<RedirectV>) -> Seq<RedirectV>
    decreases rs.len(),
{
    if rs.len() == 0 {
        Seq::empty()
    } else if rs[0].dir == Redir::In || rs[0].dir == Redir::Heredoc {
        seq![rs[0]] + input_redirects(rs.drop_first())
    } else {
        input_redirects(rs.drop_first())
    }
}

/// A feed is what an input redirection asks for: a heredoc's body as text,
/// or the file a `<` names.
pub open spec fn feed_for(f: FeedV, r: RedirectV) -> bool {
    match f {
        FeedV::Text(t) => r.dir == Redir::Heredoc && r.file == t,
        FeedV::File(p) => r.dir == Redir::In && r.file == p,
    }
}

proof fn lemma_input_redirects_push(rs: Seq<RedirectV>, x: RedirectV)
    ensures
        input_redirects(rs.push(x)) == input_redirects(rs) + (if x.dir == Redir::In || x.dir == Redir::Heredoc {
            seq![x]
        } else {
            Seq::empty()
        }),
    decreases rs.len(),
{
    let tail = if x.dir == Redir::In || x.dir == Redir::Heredoc {
        seq![x]
    } else {
        Seq::<RedirectV>::empty()
    };
    if rs.len() == 0 {
        assert(rs.push(x) =~= seq![x]);
        assert(seq![x].drop_first() =~= Seq::<RedirectV>::empty());
        assert(input_redirects(Seq::<RedirectV>::empty()) == Seq::<RedirectV>::empty());
        assert(seq![x][0] == x);
        assert(Seq::<RedirectV>::empty() + tail =~= tail);
        assert(seq![x] + Seq::<RedirectV>::empty() =~= seq![x]);
        assert(input_redirects(seq![x]) == tail);
    } else {
        let y = rs.push(x);
        assert(y.drop_first() =~= rs.drop_first().push(x));
        assert(y[0] == rs[0]);
        lemma_input_redirects_push(rs.drop_first(), x);
        let a = input_redirects(rs.drop_first());
        assert(seq![rs[0]] + (a + tail) =~= (seq![rs[0]] + a) + tail);
        if rs[0].dir == Redir::In || rs[0].dir == Redir::Heredoc {
            assert(input_redirects(y) == seq![rs[0]] + input_redirects(y.drop_first()));
            assert(input_redirects(rs) == seq![rs[0]] + a);
        } else {
            assert(input_redirects(y) == input_redirects(y.drop_first()));
            assert(input_redirects(rs) == a);
        }
    }
}

/// Every input redirection feeds the standard input once, in order: there
/// are as many feeds as `<` and heredoc redirections, and the `j`-th feed
/// is the body or file of the `j`-th of them. Output redirections feed
/// nothing.
pub proof fn lemma_feeds_follow_inputs(rs: Seq<RedirectV>)
    ensures
        feeds_spec(rs).len() == input_redirects(rs).len(),
        forall|j: int| 0 <= j < feeds_spec(rs).len() ==> feed_for(#[trigger] feeds_spec(rs)[j], input_redirects(rs)[j]),
    decreases rs.len(),
{
    if rs.len() > 0 {
        let p = rs.drop_last();
        let x = rs.last();
        assert(p.push(x) =~= rs);
        lemma_feeds_follow_inputs(p);
        lemma_input_redirects_push(p, x);
        let f = feeds_spec(rs);
        let ir = input_redirects(rs);
        assert forall|j: int| 0 <= j < f.len() implies feed_for(#[trigger] f[j], ir[j]) by {
            if j < feeds_spec(p).len() {
                assert(f[j] == feeds_spec(p)[j]);
                assert(ir[j] == input_redirects(p)[j]);
            }
        }
    }
}

/// What the input redirections of a program feed into its standard input:
/// one feed per `<` or heredoc redirection, in their order.
pub fn stdin_feeds(redirects: &Vec<Redirect>) -> (r: Vec<Feed>)
    ensures
        r@.map_values(|f: Feed| f@) == feeds_spec(redirects_view(redirects@)),
        r@.len() == input_redirects(redirects_view(redirects@)).len(),
        forall|j: int|
            0 <= j < r@.len() ==> feed_for(#[trigger] r@[j]@, input_redirects(redirects_view(redirects@))[j]),
{
    proof {
        lemma_feeds_follow_inputs(redirects_view(redirects@));
    }
    let ghost rs = redirects_view(redirects@);
    let mut feeds: Vec<Feed> = Vec::new();
    let mut i: usize = 0;
    while i < redirects.len()
        invariant
            rs == redirects_view(redirects@),
            i <= rs.len(),
            feeds@.map_values(|f: Feed| f@) == feeds_spec(rs.take(i as int)),
        decreases redirects.len() - i,
    {
        assert(rs.take(i + 1).drop_last() =~= rs.take(i as int));
        let ghost before = feeds@.map_values(|f: Feed| f@);
        let r = &redirects[i];
        match r.dir {
            Redir::Heredoc => {
                let t = r.file.clone();
                feeds.push(Feed::Text(t));
                assert(feeds@.map_values(|f: Feed| f@) =~= before.push(FeedV::Text(rs[i as int].file)));
            },
            Redir::In => {
                let t = r.file.clone();
                feeds.push(Feed::File(t));
                assert(feeds@.map_values(|f: Feed| f@) =~= before.push(FeedV::File(rs[i as int].file)));
            },
            _ => {},
        }
        i = i + 1;
    }
    assert(rs.take(rs.len() as int) =~= rs);
    proof {
        lemma_feeds_follow_inputs(rs);
        assert forall|j: int| 0 <= j < feeds@.len() implies feed_for(
            #[trigger] feeds@[j]@,
            input_redirects(rs)[j],
        ) by {
            assert(feeds@.map_values(|f: Feed| f@)[j] == feeds@[j]@);
            assert(feed_for(feeds_spec(rs)[j], input_redirects(rs)[j]));
        }
    }
    feeds
}

// ---------------------------------------------------------------------------
// Input redirections of a subshell
// ---------------------------------------------------------------------------

/// Every pipeline on the path to the first command of a tree has a stage.
pub open spec fn first_reachable(n: AstV) -> bool
    decreases n,
{
    match n {
        AstV::Logical { lhs, .. } => first_reachable(*lhs),
        AstV::Pipeline(ps) => ps.len() > 0 && first_reachable(ps[0]),
        _ => true,
    }
}

/// A tree whose first command gets the input redirections `rs` after its own.
pub open spec fn with_first_ins(n: AstV, rs: Seq<RedirectV>) -> AstV
    decreases n,
{
    match n {
        AstV::Prog { name, args, ins, outs } => AstV::Prog { name, args, ins: ins + rs, outs },
        AstV::Builtin { args, ins, outs } => AstV::Builtin { args, ins: ins + rs, outs },
        AstV::Subshell { inner, ins, outs } => AstV::Subshell { inner, ins: ins + rs, outs },
        AstV::Logical { lhs, op, rhs } => AstV::Logical {
            lhs: Box::new(with_first_ins(*lhs, rs)),
            op,
            rhs,
        },
        AstV::Pipeline(ps) => if ps.len() > 0 {
            AstV::Pipeline(ps.update(0, with_first_ins(ps[0], rs)))
        } else {
            n
        },
    }
}

fn append_redirects(v: &mut Vec<Redirect>, redirects: Vec<Redirect>)
    ensures
        redirects_view(final(v)@) == redirects_view(old(v)@) + redirects_view(redirects@),
{
    let mut rs = redirects;
    let ghost a = redirects_view(v@);
    let ghost b = redirects_view(rs@);
    v.append(&mut rs);
    assert(redirects_view(v@) =~= a + b);
}

/// The first command of a tree: the one reached through left sides of
/// logical nodes and first stages of pipelines.
pub open spec fn first_command(n: AstV) -> AstV
    decreases n,
{
    match n {
        AstV::Logical { lhs, .. } => first_command(*lhs),
        AstV::Pipeline(ps) => if ps.len() > 0 {
            first_command(ps[0])
        } else {
            n
        },
        _ => n,
    }
}

/// The input redirections of a command (none for other nodes).
pub open spec fn ins_of(n: AstV) -> Seq<RedirectV> {
    match n {
        AstV::Prog { ins, .. } => ins,
        AstV::Builtin { ins, .. } => ins,
        AstV::Subshell { ins, .. } => ins,
        _ => Seq::empty(),
    }
}

/// Moving input redirections onto a tree gives its first command those
/// redirections after its own, and changes nothing else of that command.
pub proof fn lemma_first_command_gets_ins(n: AstV, rs: Seq<RedirectV>)
    requires
        first_reachable(n),
    ensures
        ins_of(first_command(with_first_ins(n, rs))) == ins_of(first_command(n)) + rs,
        first_command(n) is Prog ==> (first_command(with_first_ins(n, rs)) matches AstV::Prog { name, args, outs, .. }
            && name == first_command(n)->Prog_name && args == first_command(n)->Prog_args && outs == first_command(
            n,
        )->Prog_outs),
    decreases n,
{
    match n {
        AstV::Logical { lhs, .. } => lemma_first_command_gets_ins(*lhs, rs),
        AstV::Pipeline(ps) => {
            lemma_first_command_gets_ins(ps[0], rs);
            assert(ps.update(0, with_first_ins(ps[0], rs))[0] == with_first_ins(ps[0], rs));
        },
        _ => {},
    }
}

/// Whether the first command of a tree can be reached (see `first_reachable`).
pub fn first_command_reachable(n: &AstNode) -> (r: bool)
    ensures
        r == first_reachable(ast_view(*n)),
    decreases ast_view(*n),
{
    match n {
        AstNode::Logical { lhs, .. } => first_command_reachable(lhs),
        AstNode::Pipeline(ps) => {
            if ps.len() == 0 {
                false
            } else {
                assert(ast_view(*ps@[0]) == ast_view(*n)->Pipeline_0[0]);
                first_command_reachable(&ps[0])
            }
        },
        _ => true,
    }
}

impl<'a> Subsh<'a> {
    /// Moves the input redirections `redirects` onto the first command of a
    /// tree: the left side of a logical node, the first stage of a pipeline.
    fn apply_redirect_in(&self, redirects: Vec<Redirect>, first_node: &mut Box<AstNode<'a>>)
        requires
            first_reachable(ast_view(**old(first_node))),
        ensures
            ast_view(**final(first_node)) == with_first_ins(
                ast_view(**old(first_node)),
                redirects_view(redirects@),
            ),
        decreases ast_view(**old(first_node)),
    {
        let mut node = Box::new(AstNode::Pipeline(Vec::new()));
        std::mem::swap(first_node, &mut node);
        let ghost nv = ast_view(*node);
        let ghost rv = redirects_view(redirects@);
        let new_node = match *node {
            AstNode::Subshell(mut subsh) => {
                append_redirects(&mut subsh.redirect_ins, redirects);
                AstNode::Subshell(subsh)
            },
            AstNode::Prog(mut child_pr) => {
                append_redirects(&mut child_pr.redirect_ins, redirects);
                AstNode::Prog(child_pr)
            },
            AstNode::Builtin(mut builtin) => {
                append_redirects(&mut builtin.redirect_ins, redirects);
                AstNode::Builtin(builtin)
            },
            AstNode::Logical { mut lhs, operator, rhs } => {
                self.apply_redirect_in(redirects, &mut lhs);
                AstNode::Logical { lhs, operator, rhs }
            },
            AstNode::Pipeline(mut pipeline) => {
                let mut first = pipeline.remove(0);
                proof {
                    assert(ast_view(*first) == nv->Pipeline_0[0]);
                }
                self.apply_redirect_in(redirects, &mut first);
                let ghost fv = ast_view(*first);
                pipeline.insert(0, first);
                proof {
                    assert(asts_view(pipeline@) =~= nv->Pipeline_0.update(0, fv));
                }
                let r = AstNode::Pipeline(pipeline);
                proof {
                    assert(ast_view(r)->Pipeline_0 =~= nv->Pipeline_0.update(0, fv));
                }
                r
            },
        };
        proof {
            assert(ast_view(new_node) == with_first_ins(nv, rv));
        }
        *first_node = Box::new(new_node);
    }

    /// Takes the trees the subshell runs. When the subshell has input
    /// redirections, they move onto the first command of its first tree.
    pub fn take_inner_ast(&mut self) -> (r: Vec<Box<AstNode<'a>>>)
        requires
            old(self).redirect_ins@.len() > 0 ==> old(self).inner_ast@.len() > 0 && first_reachable(
                ast_view(*old(self).inner_ast@[0]),
            ),
        ensures
            final(self).inner_ast@.len() == 0,
            final(self).redirect_ins@.len() == 0,
            redirects_view(final(self).redirect_outs@) == redirects_view(old(self).redirect_outs@),
            old(self).redirect_ins@.len() == 0 ==> asts_view(r@) == asts_view(old(self).inner_ast@),
            old(self).redirect_ins@.len() > 0 ==> asts_view(r@) == asts_view(old(self).inner_ast@).update(
                0,
                with_first_ins(
                    ast_view(*old(self).inner_ast@[0]),
                    redirects_view(old(self).redirect_ins@),
                ),
            ),
    {
        let mut inner_ast = Vec::new();
        std::mem::swap(&mut self.inner_ast, &mut inner_ast);
        if self.redirect_ins.len() > 0 {
            let mut redirects = Vec::new();
            std::mem::swap(&mut self.redirect_ins, &mut redirects);
            let ghost before = asts_view(inner_ast@);
            let mut first = inner_ast.remove(0);
            self.apply_redirect_in(redirects, &mut first);
            let ghost fv = ast_view(*first);
            inner_ast.insert(0, first);
            proof {
                assert(asts_view(inner_ast@) =~= before.update(0, fv));
            }
        }
        inner_ast
    }
}

// ---------------------------------------------------------------------------
// Running the syntax trees
// ---------------------------------------------------------------------------

/// How a run of commands ends.
pub enum Outcome {
    /// With this exit code.
    Done(i32),
    /// On a logical node whose operator is neither `&&` nor `||`.
    Failed,
    /// Still waiting for the exit code of the last command started.
    Waiting,
}

/// A node that the shell starts as one unit: a program, a builtin, a
/// pipeline or a subshell. A program without words is not started.
pub open spec fn is_unit(n: AstV) -> bool {
    match n {
        AstV::Logical { .. } => false,
        AstV::Prog { args, .. } => args.len() > 0,
        _ => true,
    }
}

/// What follows the exit code `c` of the left side of `op`.
pub enum Then {
    /// Run the right side.
    RunRhs,
    /// The whole node ends with this code.
    Finish(i32),
    /// The operator is not a logical one.
    Invalid,
}

/// `&&` runs its right side when the left side exited with 0; `||` when it did not.
pub open spec fn then_decision(op: TknV, c: i32) -> Then {
    if op is CmdAnd {
        if c == 0 {
            Then::RunRhs
        } else {
            Then::Finish(c)
        }
    } else if op is CmdOr {
        if c != 0 {
            Then::RunRhs
        } else {
            Then::Finish(0)
        }
    } else {
        Then::Invalid
    }
}

/// Runs a node, given the exit codes of the units it starts, in order: gives how
/// it ends, how many codes it used, and the units it starts. A builtin exits with 0.
pub open spec fn eval_node(n: AstV, codes: Seq<i32>) -> (Outcome, int, Seq<AstV>)
    decreases n,
{
    match n {
        AstV::Logical { lhs, op, rhs } => {
            let (o1, k1, r1) = eval_node(*lhs, codes);
            match o1 {
                Outcome::Done(c) => match then_decision(op, c) {
                    Then::Invalid => (Outcome::Failed, k1, r1),
                    Then::Finish(d) => (Outcome::Done(d), k1, r1),
                    Then::RunRhs => {
                        let (o2, k2, r2) = eval_node(*rhs, codes.skip(k1));
                        (o2, k1 + k2, r1 + r2)
                    },
                },
                _ => (o1, k1, r1),
            }
        },
        _ => if !is_unit(n) {
            (Outcome::Done(0), 0, Seq::empty())
        } else if codes.len() == 0 {
            (Outcome::Waiting, 0, seq![n])
        } else {
            (
                Outcome::Done(
                    if n is Builtin {
                        0
                    } else {
                        codes[0]
                    },
                ),
                1,
                seq![n],
            )
        },
    }
}

/// Runs command lines one after the other; the exit code is that of the last
/// one, or `last` when there are none.
pub open spec fn eval_list(ns: Seq<AstV>, last: i32, codes: Seq<i32>) -> (Outcome, int, Seq<AstV>)
    decreases ns.len(),
{
    if ns.len() == 0 {
        (Outcome::Done(last), 0, Seq::empty())
    } else {
        let (o, k, r) = eval_node(ns[0], codes);
        match o {
            Outcome::Done(c) => {
                let (o2, k2, r2) = eval_list(ns.drop_first(), c, codes.skip(k));
                (o2, k + k2, r + r2)
            },
            _ => (o, k, r),
        }
    }
}


/// Work left to do: a node to run, or the right side of a logical node to run
/// or skip once its left side has an exit code.
enum Work<'a> {
    Node(Box<AstNode<'a>>),
    Then(Tkn, Box<AstNode<'a>>),
}

/// Work left to do, as a mathematical value.
enum WorkV {
    Node(AstV),
    Then(TknV, AstV),
}

spec fn work_view(w: Work) -> WorkV {
    match w {
        Work::Node(n) => WorkV::Node(ast_view(*n)),
        Work::Then(op, rhs) => WorkV::Then(op@, ast_view(*rhs)),
    }
}

spec fn works_view(s: Seq<Work>) -> Seq<WorkV> {
    Seq::new(s.len(), |i: int| work_view(s[i]))
}

/// How much work a node is: each logical node counts for its two sides and
/// the decision between them.
spec fn node_size(n: AstV) -> nat
    decreases n,
{
    match n {
        AstV::Logical { lhs, rhs, .. } => 2 + node_size(*lhs) + node_size(*rhs),
        _ => 1,
    }
}

spec fn item_size(w: WorkV) -> nat {
    match w {
        WorkV::Node(n) => node_size(n),
        WorkV::Then(_, rhs) => node_size(rhs) + 1,
    }
}

/// How much work is left on a stack; every step of the runner makes it smaller.
spec fn work_size(s: Seq<WorkV>) -> nat
    decreases s.len(),
{
    if s.len() == 0 {
        0
    } else {
        work_size(s.drop_last()) + item_size(s.last())
    }
}

proof fn lemma_node_size_pos(n: AstV)
    ensures
        node_size(n) >= 1,
{
}

/// The rest of a run from a stack of work (its top is the last item) and the
/// exit code of what ran last.
spec fn cont(work: Seq<WorkV>, last: i32, codes: Seq<i32>) -> (Outcome, int, Seq<AstV>)
    decreases work_size(work),
{
    if work.len() == 0 {
        (Outcome::Done(last), 0, Seq::empty())
    } else {
        let rest = work.drop_last();
        proof {
            lemma_node_size_pos(match work.last() {
                WorkV::Node(n) => n,
                WorkV::Then(_, r) => r,
            });
        }
        match work.last() {
            WorkV::Node(n) => {
                let (o, k, r) = eval_node(n, codes);
                match o {
                    Outcome::Done(c) => {
                        let (o2, k2, r2) = cont(rest, c, codes.skip(k));
                        (o2, k + k2, r + r2)
                    },
                    _ => (o, k, r),
                }
            },
            WorkV::Then(op, rhs) => match then_decision(op, last) {
                Then::Invalid => (Outcome::Failed, 0, Seq::empty()),
                Then::Finish(c) => cont(rest, c, codes),
                Then::RunRhs => {
                    proof {
                        assert(rest.push(WorkV::Node(rhs)).drop_last() =~= rest);
                    }
                    cont(rest.push(WorkV::Node(rhs)), last, codes)
                },
            },
        }
    }
}

proof fn lemma_eval_node_used(n: AstV, codes: Seq<i32>)
    ensures
        0 <= eval_node(n, codes).1 <= codes.len(),
    decreases n,
{
    if let AstV::Logical { lhs, op, rhs } = n {
        lemma_eval_node_used(*lhs, codes);
        let k1 = eval_node(*lhs, codes).1;
        lemma_eval_node_used(*rhs, codes.skip(k1));
    }
}

proof fn lemma_eval_list_used(ns: Seq<AstV>, last: i32, codes: Seq<i32>)
    ensures
        0 <= eval_list(ns, last, codes).1 <= codes.len(),
    decreases ns.len(),
{
    if ns.len() > 0 {
        lemma_eval_node_used(ns[0], codes);
        let k = eval_node(ns[0], codes).1;
        lemma_eval_list_used(ns.drop_first(), eval_node(ns[0], codes).0->Done_0, codes.skip(k));
    }
}

/// Replacing a logical node on the stack by its left side, with its operator
/// and right side underneath, does not change the rest of the run.
proof fn lemma_cont_split(rest: Seq<WorkV>, lhs: AstV, op: TknV, rhs: AstV, last: i32, codes: Seq<i32>)
    ensures
        cont(rest.push(WorkV::Then(op, rhs)).push(WorkV::Node(lhs)), last, codes) == cont(
            rest.push(WorkV::Node(AstV::Logical { lhs: Box::new(lhs), op, rhs: Box::new(rhs) })),
            last,
            codes,
        ),
{
    let mid = rest.push(WorkV::Then(op, rhs));
    let w1 = mid.push(WorkV::Node(lhs));
    let w2 = rest.push(WorkV::Node(AstV::Logical { lhs: Box::new(lhs), op, rhs: Box::new(rhs) }));
    assert(w1.drop_last() =~= mid);
    assert(mid.drop_last() =~= rest);
    assert(w2.drop_last() =~= rest);
    lemma_node_size_pos(lhs);
    lemma_node_size_pos(rhs);
    lemma_eval_node_used(lhs, codes);
    let (o1, k1, r1) = eval_node(lhs, codes);
    if let Outcome::Done(c) = o1 {
        let cs = codes.skip(k1);
        let m = cont(mid, c, cs);
        assert(cont(w1, last, codes) == (m.0, k1 + m.1, r1 + m.2));
        match then_decision(op, c) {
            Then::Invalid => {
                assert(m == (Outcome::Failed, 0int, Seq::<AstV>::empty()));
                assert(r1 + Seq::<AstV>::empty() =~= r1);
            },
            Then::Finish(d) => {
                assert(m == cont(rest, d, cs));
            },
            Then::RunRhs => {
                let w3 = rest.push(WorkV::Node(rhs));
                assert(w3.drop_last() =~= rest);
                assert(m == cont(w3, c, cs));
                lemma_eval_node_used(rhs, cs);
                let (o2, k2, r2) = eval_node(rhs, cs);
                if let Outcome::Done(c2) = o2 {
                    assert(cs.skip(k2) =~= codes.skip(k1 + k2));
                    let (o3, k3, r3) = cont(rest, c2, cs.skip(k2));
                    assert(cont(w3, c, cs) == (o3, k2 + k3, r2 + r3));
                    assert(r1 + (r2 + r3) =~= (r1 + r2) + r3);
                } else {
                    assert(cont(w3, c, cs) == (o2, k2, r2));
                }
            },
        }
    } else {
        assert(cont(w1, last, codes) == (o1, k1, r1));
    }
}

/// Starts the run of the trees of one command buffer, one after the other.
/// The runner it gives back hands out the units to start; the run ends with
/// the exit code of the last tree, or 0 when there are none.
pub fn execute_ast<'a>(executables: Vec<Box<AstNode<'a>>>) -> (r: Executor<'a>)
    ensures
        !r.awaiting(),
        forall|codes: Seq<i32>|
            #[trigger] r.outcome(codes) == eval_list(asts_view(executables@), 0, codes),
{
    Executor::new(executables)
}

/// What running the command buffer whose tokens these are comes to, when the
/// answers about files are `files`: a parse error, or the trees to run.
pub open spec fn parsed_buffer(toks: Seq<TknSpanV>, buf: Seq<u8>, hds: Seq<Seq<u8>>, files: Seq<bool>) -> Result<
    Seq<AstV>,
    ParseErrorV,
> {
    match parse_spec(PEnv { toks, buf, files }, Ps { pos: 0, cur: None, hds }) {
        Ok((nodes, _)) => Ok(nodes),
        Err(e) => Err(e),
    }
}

/// Parses the tokens of a command buffer and starts running its command
/// lines; nothing runs when the buffer does not parse. Whether the name after
/// each input redirection is a file is asked of the file system: the checks
/// made, given back, are for exactly those names, and the result is the parse
/// for the answers they hold, with a runner over its trees.
pub fn execute_cmd_buf<'w>(cmd_buf: &'w str, tkns: &'w [TknSpan], heredocs: VecDeque<&'w str>) -> (r: (
    Result<Executor<'w>, ParseError>,
    Vec<Option<FileCheck>>,
))
    requires
        tokens_ready(toks_view(tkns@), cmd_buf.spec_bytes()),
    ensures
        checks_fit(r.1@, toks_view(tkns@), cmd_buf.spec_bytes()),
        match parsed_buffer(toks_view(tkns@), cmd_buf.spec_bytes(), hds_view(heredocs@), file_answers(r.1@)) {
            Ok(nodes) => r.0 matches Ok(ex) && !ex.awaiting() && all_well_formed(nodes) && forall|codes: Seq<i32>|
                #[trigger] ex.outcome(codes) == eval_list(nodes, 0, codes),
            Err(e) => r.0 matches Err(pe) && pe@ == e,
        },
{
    let ghost hv = hds_view(heredocs@);
    let mut parser = Parser::new(tkns, heredocs, cmd_buf);
    let ghost env0 = parser.env();
    let ghost ps0 = parser.state();
    let parsed = parser.parse();
    let ghost f = file_answers(parser.file_checks());
    assert(with_files(env0, f) == PEnv { toks: toks_view(tkns@), buf: cmd_buf.spec_bytes(), files: f });
    assert(ps0 == Ps { pos: 0, cur: None, hds: hv });
    let checks = parser.into_file_checks();
    match parsed {
        Ok(executables) => {
            let ex = execute_ast(executables);
            (Ok(ex), checks)
        },
        Err(e) => (Err(e), checks),
    }
}

/// `&&` runs its right side exactly when its left side exits with 0; otherwise
/// the node exits with the left side's code and starts nothing more.
pub proof fn lemma_and(lhs: AstV, rhs: AstV, codes: Seq<i32>)
    ensures
        ({
            let (o1, k1, r1) = eval_node(lhs, codes);
            let n = AstV::Logical { lhs: Box::new(lhs), op: TknV::CmdAnd, rhs: Box::new(rhs) };
            match o1 {
                Outcome::Done(c) => if c == 0 {
                    let (o2, k2, r2) = eval_node(rhs, codes.skip(k1));
                    eval_node(n, codes) == (o2, k1 + k2, r1 + r2)
                } else {
                    eval_node(n, codes) == (Outcome::Done(c), k1, r1)
                },
                _ => eval_node(n, codes) == (o1, k1, r1),
            }
        }),
{
}

/// `||` runs its right side exactly when its left side exits with a code
/// other than 0; otherwise the node exits with 0 and starts nothing more.
pub proof fn lemma_or(lhs: AstV, rhs: AstV, codes: Seq<i32>)
    ensures
        ({
            let (o1, k1, r1) = eval_node(lhs, codes);
            let n = AstV::Logical { lhs: Box::new(lhs), op: TknV::CmdOr, rhs: Box::new(rhs) };
            match o1 {
                Outcome::Done(c) => if c != 0 {
                    let (o2, k2, r2) = eval_node(rhs, codes.skip(k1));
                    eval_node(n, codes) == (o2, k1 + k2, r1 + r2)
                } else {
                    eval_node(n, codes) == (Outcome::Done(0), k1, r1)
                },
                _ => eval_node(n, codes) == (o1, k1, r1),
            }
        }),
{
}

/// A well-formed tree (as the parser builds them) never ends in a failed run:
/// each of its logical nodes holds `&&` or `||`.
pub proof fn lemma_well_formed_never_fails(n: AstV, codes: Seq<i32>)
    requires
        well_formed(n),
    ensures
        !(eval_node(n, codes).0 is Failed),
    decreases n,
{
    if let AstV::Logical { lhs, op, rhs } = n {
        lemma_well_formed_never_fails(*lhs, codes);
        let k1 = eval_node(*lhs, codes).1;
        lemma_well_formed_never_fails(*rhs, codes.skip(k1));
    }
}

/// Command lines that are all well formed never end in a failed run.
pub proof fn lemma_well_formed_list_never_fails(ns: Seq<AstV>, last: i32, codes: Seq<i32>)
    requires
        all_well_formed(ns),
    ensures
        !(eval_list(ns, last, codes).0 is Failed),
    decreases ns.len(),
{
    if ns.len() > 0 {
        assert(well_formed(ns[0]));
        lemma_well_formed_never_fails(ns[0], codes);
        let (o, k, r) = eval_node(ns[0], codes);
        if let Outcome::Done(c) = o {
            assert forall|i: int| 0 <= i < ns.drop_first().len() implies well_formed(#[trigger] ns.drop_first()[i]) by {
                assert(ns.drop_first()[i] == ns[i + 1]);
            }
            lemma_well_formed_list_never_fails(ns.drop_first(), c, codes.skip(k));
        }
    }
}

/// The first command of a well-formed tree can always be reached: input
/// redirections of a subshell can always be moved onto it.
pub proof fn lemma_well_formed_first_reachable(n: AstV)
    requires
        well_formed(n),
    ensures
        first_reachable(n),
    decreases n,
{
    match n {
        AstV::Logical { lhs, .. } => lemma_well_formed_first_reachable(*lhs),
        AstV::Pipeline(ps) => {
            assert(well_formed(ps[0]));
            lemma_well_formed_first_reachable(ps[0]);
        },
        _ => {},
    }
}

/// Running command lines and then one more is running the lines, then the
/// last one on the exit codes left: the list exits with the code of its last
/// line.
pub proof fn lemma_list_push(ns: Seq<AstV>, n: AstV, last: i32, codes: Seq<i32>)
    ensures
        ({
            let (o, k, r) = eval_list(ns, last, codes);
            match o {
                Outcome::Done(c) => {
                    let (o2, k2, r2) = eval_node(n, codes.skip(k));
                    eval_list(ns.push(n), last, codes) == (o2, k + k2, r + r2)
                },
                _ => eval_list(ns.push(n), last, codes) == (o, k, r),
            }
        }),
    decreases ns.len(),
{
    let m = ns.push(n);
    if ns.len() == 0 {
        assert(m.drop_first() =~= Seq::<AstV>::empty());
        assert(m[0] == n);
        assert(codes.skip(0) =~= codes);
        assert(eval_list(ns, last, codes) == (Outcome::Done(last), 0int, Seq::<AstV>::empty()));
        let (o2, k2, r2) = eval_node(n, codes);
        assert(Seq::<AstV>::empty() + r2 =~= r2);
        if let Outcome::Done(c2) = o2 {
            assert(eval_list(m.drop_first(), c2, codes.skip(k2)) == (
                Outcome::Done(c2),
                0int,
                Seq::<AstV>::empty(),
            ));
            assert(r2 + Seq::<AstV>::empty() =~= r2);
        }
    } else {
        assert(m[0] == ns[0]);
        assert(m.drop_first() =~= ns.drop_first().push(n));
        lemma_eval_node_used(ns[0], codes);
        let (o, k, r) = eval_node(ns[0], codes);
        if let Outcome::Done(c) = o {
            let cs = codes.skip(k);
            lemma_list_push(ns.drop_first(), n, c, cs);
            let (o3, k3, r3) = eval_list(ns.drop_first(), c, cs);
            assert(eval_list(ns, last, codes) == (o3, k + k3, r + r3));
            let (oa, ka, ra) = eval_list(m.drop_first(), c, cs);
            assert(eval_list(m, last, codes) == (oa, k + ka, r + ra));
            lemma_eval_list_used(ns.drop_first(), c, cs);
            assert(cs.skip(k3) =~= codes.skip(k + k3));
            if let Outcome::Done(c3) = o3 {
                let (o2, k2, r2) = eval_node(n, codes.skip(k + k3));
                assert((oa, ka, ra) == (o2, k3 + k2, r3 + r2));
                assert(r + (r3 + r2) =~= (r + r3) + r2);
            }
        }
    }
}

proof fn lemma_work_size_push(s: Seq<WorkV>, w: WorkV)
    ensures
        work_size(s.push(w)) == work_size(s) + item_size(w),
{
    assert(s.push(w).drop_last() =~= s);
}

/// The stack of work for command lines run in order.
spec fn stack_of(ns: Seq<AstV>) -> Seq<WorkV>
    decreases ns.len(),
{
    if ns.len() == 0 {
        Seq::empty()
    } else {
        stack_of(ns.drop_first()).push(WorkV::Node(ns[0]))
    }
}

proof fn lemma_stack_of(ns: Seq<AstV>, last: i32, codes: Seq<i32>)
    ensures
        cont(stack_of(ns), last, codes) == eval_list(ns, last, codes),
    decreases ns.len(),
{
    if ns.len() > 0 {
        let w = stack_of(ns);
        assert(w.drop_last() =~= stack_of(ns.drop_first()));
        lemma_node_size_pos(ns[0]);
        let (o, k, r) = eval_node(ns[0], codes);
        if let Outcome::Done(c) = o {
            lemma_stack_of(ns.drop_first(), c, codes.skip(k));
        }
    }
}


/// The runner of a list of command lines. It hands out, one at a time, the
/// units to start (programs, builtins, pipelines, subshells), and is told the
/// exit code of each before it decides what comes next.
pub struct Executor<'a> {
    work: Vec<Work<'a>>,
    last: i32,
    pending: Option<bool>,
}

/// What the runner asks for next.
pub enum Action<'a> {
    /// Start this unit and report its exit code.
    Run(Box<AstNode<'a>>),
    /// Nothing is left to run; this is the exit code of the whole list.
    Finished(i32),
    /// A logical node holds an operator that is neither `&&` nor `||`.
    Invalid,
}

impl<'a> Executor<'a> {
    /// True while a unit has been handed out and its exit code not yet reported.
    pub closed spec fn awaiting(&self) -> bool {
        self.pending is Some
    }

    /// How the rest of the run goes, given the exit codes of the units still
    /// to be reported, in order (the one handed out last comes first).
    pub closed spec fn outcome(&self, codes: Seq<i32>) -> (Outcome, int, Seq<AstV>) {
        let w = works_view(self.work@);
        match self.pending {
            None => cont(w, self.last, codes),
            Some(is_builtin) => if codes.len() == 0 {
                (Outcome::Waiting, 0, Seq::empty())
            } else {
                let c = if is_builtin {
                    0
                } else {
                    codes[0]
                };
                let (o, k, r) = cont(w, c, codes.skip(1));
                (o, k + 1, r)
            },
        }
    }

    /// A runner for command lines run one after the other, as the shell runs
    /// the trees of one command buffer.
    fn new(executables: Vec<Box<AstNode<'a>>>) -> (r: Self)
        ensures
            !r.awaiting(),
            forall|codes: Seq<i32>|
                #[trigger] r.outcome(codes) == eval_list(asts_view(executables@), 0, codes),
    {
        let mut rev = executables;
        let mut work: Vec<Work<'a>> = Vec::new();
        let ghost all = asts_view(rev@);
        while rev.len() > 0
            invariant
                all.len() == rev@.len() + work@.len(),
                asts_view(rev@) =~= all.take(rev@.len() as int),
                works_view(work@) == stack_of(all.skip(rev@.len() as int)),
            decreases rev.len(),
        {
            let n = rev.pop().unwrap();
            let ghost nv = ast_view(*n);
            let ghost prev = works_view(work@);
            proof {
                let i = rev@.len() as int;
                assert(all.skip(i).drop_first() =~= all.skip(i + 1));
                assert(all.take(i + 1)[i] == all.skip(i)[0]);
            }
            work.push(Work::Node(n));
            proof {
                assert(works_view(work@) =~= prev.push(WorkV::Node(nv)));
            }
        }
        proof {
            assert(all.skip(0) =~= all);
            assert forall|codes: Seq<i32>| #[trigger] cont(works_view(work@), 0, codes) == eval_list(all, 0, codes) by {
                lemma_stack_of(all, 0, codes);
            }
        }
        Executor { work, last: 0, pending: None }
    }

    /// Takes the exit code of the unit handed out last. With no unit waiting,
    /// the code is ignored. A builtin counts as exiting with 0.
    pub fn report_exit(&mut self, code: i32)
        ensures
            !final(self).awaiting(),
            old(self).awaiting() ==> forall|codes: Seq<i32>|
                #[trigger] final(self).outcome(codes) == {
                    let (o, k, r) = old(self).outcome(seq![code] + codes);
                    (o, k - 1, r)
                },
            !old(self).awaiting() ==> forall|codes: Seq<i32>|
                #[trigger] final(self).outcome(codes) == old(self).outcome(codes),
    {
        match self.pending {
            Some(is_builtin) => {
                self.last = if is_builtin { 0 } else { code };
                self.pending = None;
                proof {
                    assert forall|codes: Seq<i32>| #[trigger] final(self).outcome(codes) == {
                        let (o, k, r) = old(self).outcome(seq![code] + codes);
                        (o, k - 1, r)
                    } by {
                        assert((seq![code] + codes).skip(1) =~= codes);
                    }
                }
            },
            None => {},
        }
    }

    /// Runs the decisions up to the next unit to start, or to the end of the
    /// list. `&&` starts its right side only after a left side that exited
    /// with 0, `||` only after one that did not; a program without words is
    /// not started and counts as exiting with 0.
    pub fn next_action(&mut self) -> (a: Action<'a>)
        requires
            !old(self).awaiting(),
        ensures
            match a {
                Action::Run(u) => {
                    &&& final(self).awaiting()
                    &&& is_unit(ast_view(*u))
                    &&& forall|codes: Seq<i32>|
                        #[trigger] old(self).outcome(codes) == {
                            let (o, k, r) = final(self).outcome(codes);
                            (o, k, seq![ast_view(*u)] + r)
                        }
                },
                Action::Finished(c) => forall|codes: Seq<i32>|
                    #[trigger] old(self).outcome(codes) == (Outcome::Done(c), 0int, Seq::<AstV>::empty()),
                Action::Invalid => forall|codes: Seq<i32>|
                    #[trigger] old(self).outcome(codes) == (Outcome::Failed, 0int, Seq::<AstV>::empty()),
            },
    {
        let ghost w0 = works_view(self.work@);
        let ghost l0 = self.last;
        loop
            invariant
                self.pending is None,
                old(self).pending is None,
                w0 == works_view(old(self).work@),
                l0 == old(self).last,
                forall|codes: Seq<i32>|
                    #[trigger] cont(w0, l0, codes) == cont(works_view(self.work@), self.last, codes),
            decreases work_size(works_view(self.work@)),
        {
            let ghost wv = works_view(self.work@);
            let ghost lv = self.last;
            let item = self.work.pop();
            match item {
                None => {
                    proof {
                        assert forall|codes: Seq<i32>| #[trigger] cont(w0, l0, codes) == (
                            Outcome::Done(self.last),
                            0int,
                            Seq::<AstV>::empty(),
                        ) by {
                            assert(wv.len() == 0);
                        }
                    }
                    return Action::Finished(self.last);
                },
                Some(Work::Node(n)) => {
                    let ghost rest = works_view(self.work@);
                    proof {
                        assert(wv.drop_last() =~= rest);
                        assert(wv.last() == WorkV::Node(ast_view(*n)));
                        assert(wv =~= rest.push(WorkV::Node(ast_view(*n))));
                        lemma_node_size_pos(ast_view(*n));
                    }
                    let ghost nv = ast_view(*n);
                    match *n {
                        AstNode::Logical { lhs, operator, rhs } => {
                            let ghost lv_ = ast_view(*lhs);
                            let ghost rv_ = ast_view(*rhs);
                            let ghost ov = operator@;
                            proof {
                                assert(ast_view(*n) == AstV::Logical { lhs: Box::new(lv_), op: ov, rhs: Box::new(rv_) });
                            }
                            self.work.push(Work::Then(operator, rhs));
                            self.work.push(Work::Node(lhs));
                            proof {
                                assert(works_view(self.work@) =~= rest.push(WorkV::Then(ov, rv_)).push(
                                    WorkV::Node(lv_),
                                ));
                                assert forall|codes: Seq<i32>| #[trigger]
                                    cont(w0, l0, codes) == cont(works_view(self.work@), self.last, codes) by {
                                    lemma_cont_split(rest, lv_, ov, rv_, lv, codes);
                                }
                                lemma_node_size_pos(rv_);
                                lemma_work_size_push(rest, WorkV::Node(nv));
                                lemma_work_size_push(rest, WorkV::Then(ov, rv_));
                                lemma_work_size_push(rest.push(WorkV::Then(ov, rv_)), WorkV::Node(lv_));
                            }
                        },
                        AstNode::Prog(c) => {
                            if c.args.len() == 0 {
                                self.last = 0;
                                proof {
                                    assert(!is_unit(nv));
                                    lemma_work_size_push(rest, WorkV::Node(nv));
                                    assert forall|codes: Seq<i32>| #[trigger]
                                        cont(w0, l0, codes) == cont(works_view(self.work@), self.last, codes) by {
                                        assert(codes.skip(0) =~= codes);
                                        assert(Seq::<AstV>::empty() + cont(rest, 0, codes).2 =~= cont(rest, 0, codes).2);
                                    }
                                }
                            } else {
                                let u = Box::new(AstNode::Prog(c));
                                self.pending = Some(false);
                                proof {
                                    assert forall|codes: Seq<i32>| #[trigger] cont(w0, l0, codes) == {
                                        let (o, k, r) = final(self).outcome(codes);
                                        (o, k, seq![ast_view(*u)] + r)
                                    } by {
                                        if codes.len() == 0 {
                                            assert(seq![ast_view(*u)] + Seq::<AstV>::empty() =~= seq![ast_view(*u)]);
                                        }
                                    }
                                }
                                return Action::Run(u);
                            }
                        },
                        other => {
                            let is_builtin = match other {
                                AstNode::Builtin(_) => true,
                                _ => false,
                            };
                            let u = Box::new(other);
                            self.pending = Some(is_builtin);
                            proof {
                                assert forall|codes: Seq<i32>| #[trigger] cont(w0, l0, codes) == {
                                    let (o, k, r) = final(self).outcome(codes);
                                    (o, k, seq![ast_view(*u)] + r)
                                } by {
                                    if codes.len() == 0 {
                                        assert(seq![ast_view(*u)] + Seq::<AstV>::empty() =~= seq![ast_view(*u)]);
                                    }
                                }
                            }
                            return Action::Run(u);
                        },
                    }
                },
                Some(Work::Then(op, rhs)) => {
                    let ghost rest = works_view(self.work@);
                    proof {
                        assert(wv.drop_last() =~= rest);
                        lemma_node_size_pos(ast_view(*rhs));
                    }
                    let (run_rhs, is_or) = match op {
                        Tkn::CmdAnd => (self.last == 0, false),
                        Tkn::CmdOr => (self.last != 0, true),
                        _ => {
                            proof {
                                assert forall|codes: Seq<i32>| #[trigger] cont(w0, l0, codes) == (
                                    Outcome::Failed,
                                    0int,
                                    Seq::<AstV>::empty(),
                                ) by {
                                    assert(wv.last() == WorkV::Then(op@, ast_view(*rhs)));
                                }
                            }
                            return Action::Invalid;
                        },
                    };
                    proof {
                        lemma_work_size_push(rest, wv.last());
                    }
                    if run_rhs {
                        let ghost rv_ = ast_view(*rhs);
                        self.work.push(Work::Node(rhs));
                        proof {
                            lemma_work_size_push(rest, WorkV::Node(rv_));
                            assert(works_view(self.work@) =~= rest.push(WorkV::Node(rv_)));
                            assert(works_view(self.work@).drop_last() =~= rest);
                        }
                    } else if is_or {
                        self.last = 0;
                    }
                },
            }
        }
    }
}

} // verus!
