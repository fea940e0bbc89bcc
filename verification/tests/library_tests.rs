use std::collections::VecDeque;

use rust_shell::builtins::{cd_target, history_listing, history_request, CdTarget, HistoryRequest};
use rust_shell::executor::{
    execute_ast, execute_cmd_buf, first_command_reachable, get_builtins, lookup_builtin, out_modes, pipeline_code,
    stdin_feeds, Action, BuiltinKind, ChildPr, Feed, OutMode, Redir, Redirect, Subsh,
};
use rust_shell::frontend::{get_editor_hist, PtyParser, ShellState};
use rust_shell::lexer::{get_token_at, lex_cmd_buf, lex_would_panic, LexerState, Tkn, TknSpan};
use rust_shell::parser::{redirect_targets, tokens_fit, AstNode, ParseError, Parser};
use rust_shell::prompt::{prompt_line, set_expected_closer_prompt, set_needs_continuation_prompt};
use rust_shell::repl::{on_input, InputAction};

fn lex(cmd: &str) -> (Vec<TknSpan>, VecDeque<&str>) {
    let mut st = LexerState::new();
    assert!(!lex_would_panic(cmd));
    lex_cmd_buf(&mut st, cmd).expect("complete command")
}

fn parse_all_files<'a>(cmd: &'a str, tkns: &'a [TknSpan], docs: VecDeque<&'a str>) -> Vec<Box<AstNode<'a>>> {
    let mut p = Parser::new(tkns, docs, cmd);
    match p.parse_with_files(vec![true; tkns.len()]) {
        Ok(v) => v,
        Err(_) => panic!("parse failed for {:?}", cmd),
    }
}

fn prog<'a>(name: &'a str, args: Vec<&'a str>) -> Box<AstNode<'a>> {
    Box::new(AstNode::Prog(ChildPr { args, redirect_ins: Vec::new(), redirect_outs: Vec::new(), prog_name: name }))
}

fn prog_name(node: &AstNode) -> String {
    match node {
        AstNode::Prog(c) => c.prog_name.to_string(),
        AstNode::Builtin(b) => b.args[0].to_string(),
        AstNode::Pipeline(_) => "<pipeline>".to_string(),
        AstNode::Subshell(_) => "<subshell>".to_string(),
        AstNode::Logical { .. } => "<logical>".to_string(),
    }
}

fn expect_run(a: Action) -> String {
    match a {
        Action::Run(n) => prog_name(&n),
        Action::Finished(c) => panic!("finished early with {}", c),
        Action::Invalid => panic!("invalid"),
    }
}

fn expect_finished(a: Action) -> i32 {
    match a {
        Action::Finished(c) => c,
        Action::Run(n) => panic!("still running {}", prog_name(&n)),
        Action::Invalid => panic!("invalid"),
    }
}

#[test]
fn parser_builds_logical_over_pipeline() {
    let cmd = "echo hello && cat file | grep x\n";
    let (tkns, docs) = lex(cmd);
    assert!(tokens_fit(&tkns, cmd));
    let v = parse_all_files(cmd, &tkns, docs);
    assert_eq!(v.len(), 1);
    match &*v[0] {
        AstNode::Logical { lhs, operator, rhs } => {
            assert!(matches!(operator, Tkn::CmdAnd));
            match &**lhs {
                AstNode::Prog(c) => {
                    assert_eq!(c.prog_name, "echo");
                    assert_eq!(c.args, vec!["echo", "hello"]);
                }
                _ => panic!("lhs is not a program"),
            }
            match &**rhs {
                AstNode::Pipeline(stages) => {
                    assert_eq!(stages.len(), 2);
                    assert_eq!(prog_name(&stages[0]), "cat");
                    assert_eq!(prog_name(&stages[1]), "grep");
                }
                _ => panic!("rhs is not a pipeline"),
            }
        }
        _ => panic!("not a logical node"),
    }
}

#[test]
fn parser_groups_logicals_from_the_left() {
    let cmd = "a || b && c\n";
    let (tkns, docs) = lex(cmd);
    let v = parse_all_files(cmd, &tkns, docs);
    match &*v[0] {
        AstNode::Logical { lhs, operator, rhs } => {
            assert!(matches!(operator, Tkn::CmdAnd));
            assert_eq!(prog_name(rhs), "c");
            match &**lhs {
                AstNode::Logical { operator, .. } => assert!(matches!(operator, Tkn::CmdOr)),
                _ => panic!("left side is not a logical node"),
            }
        }
        _ => panic!("not a logical node"),
    }
}

#[test]
fn parser_redirects_heredocs_and_builtins() {
    let cmd = "cat << EOF > out.txt >> log.txt\nbody\nEOF\npwd; cd /tmp\n";
    let (tkns, docs) = lex(cmd);
    let v = parse_all_files(cmd, &tkns, docs);
    assert_eq!(v.len(), 3);
    match &*v[0] {
        AstNode::Prog(c) => {
            assert_eq!(c.redirect_ins.len(), 1);
            assert_eq!(c.redirect_ins[0].dir, Redir::Heredoc);
            assert_eq!(c.redirect_ins[0].file, "body\n");
            assert_eq!(c.redirect_outs.len(), 2);
            assert_eq!(c.redirect_outs[0].dir, Redir::Out);
            assert_eq!(c.redirect_outs[0].file, "out.txt");
            assert_eq!(c.redirect_outs[1].dir, Redir::Append);
            assert_eq!(c.redirect_outs[1].file, "log.txt");
        }
        _ => panic!("not a program"),
    }
    assert!(matches!(&*v[1], AstNode::Builtin(b) if b.args == vec!["pwd"]));
    assert!(matches!(&*v[2], AstNode::Builtin(b) if b.args == vec!["cd", "/tmp"]));
}

#[test]
fn parser_reports_missing_input_file() {
    let cmd = "cat < definitely_missing_file_for_this_test.txt\n";
    let (tkns, docs) = lex(cmd);
    let mut p = Parser::new(&tkns, docs, cmd);
    match p.parse() {
        Err(ParseError::NotAFile(f)) => assert_eq!(f, "definitely_missing_file_for_this_test.txt"),
        _ => panic!("expected a missing file"),
    }
}

#[test]
fn parser_rejects_words_before_subshell() {
    let cmd = "echo (ls)\n";
    let (tkns, docs) = lex(cmd);
    let mut p = Parser::new(&tkns, docs, cmd);
    match p.parse_with_files(vec![true; tkns.len()]) {
        Err(ParseError::ArgsBeforeSubshell(w)) => assert_eq!(w, "echo"),
        _ => panic!("expected an error"),
    }
}

#[test]
fn runner_and_skips_after_failure() {
    let cmd = "false && echo no\n";
    let (tkns, docs) = lex(cmd);
    let mut ex = execute_ast(parse_all_files(cmd, &tkns, docs));
    assert_eq!(expect_run(ex.next_action()), "false");
    ex.report_exit(1);
    assert_eq!(expect_finished(ex.next_action()), 1);
}

#[test]
fn runner_and_runs_after_success() {
    let cmd = "true && echo yes\n";
    let (tkns, docs) = lex(cmd);
    let mut ex = execute_ast(parse_all_files(cmd, &tkns, docs));
    assert_eq!(expect_run(ex.next_action()), "true");
    ex.report_exit(0);
    assert_eq!(expect_run(ex.next_action()), "echo");
    ex.report_exit(3);
    assert_eq!(expect_finished(ex.next_action()), 3);
}

#[test]
fn runner_or_falls_back() {
    let cmd = "false || echo fallback\n";
    let (tkns, docs) = lex(cmd);
    let mut ex = execute_ast(parse_all_files(cmd, &tkns, docs));
    assert_eq!(expect_run(ex.next_action()), "false");
    ex.report_exit(1);
    assert_eq!(expect_run(ex.next_action()), "echo");
    ex.report_exit(0);
    assert_eq!(expect_finished(ex.next_action()), 0);

    let cmd2 = "true || echo no\n";
    let (tkns2, docs2) = lex(cmd2);
    let mut ex2 = execute_ast(parse_all_files(cmd2, &tkns2, docs2));
    assert_eq!(expect_run(ex2.next_action()), "true");
    ex2.report_exit(0);
    assert_eq!(expect_finished(ex2.next_action()), 0);
}

#[test]
fn runner_chain_of_logicals() {
    let cmd = "false ||true && echo step3&& false || echo final\n";
    let (tkns, docs) = lex(cmd);
    let mut ex = execute_ast(parse_all_files(cmd, &tkns, docs));
    assert_eq!(expect_run(ex.next_action()), "false");
    ex.report_exit(1);
    assert_eq!(expect_run(ex.next_action()), "true");
    ex.report_exit(0);
    assert_eq!(expect_run(ex.next_action()), "echo");
    ex.report_exit(0);
    assert_eq!(expect_run(ex.next_action()), "false");
    ex.report_exit(1);
    assert_eq!(expect_run(ex.next_action()), "echo");
    ex.report_exit(0);
    assert_eq!(expect_finished(ex.next_action()), 0);
}

#[test]
fn runner_builtins_exit_with_zero_and_last_line_counts() {
    let cmd = "pwd\nfalse\n";
    let (tkns, docs) = lex(cmd);
    let mut ex = execute_ast(parse_all_files(cmd, &tkns, docs));
    assert_eq!(expect_run(ex.next_action()), "pwd");
    ex.report_exit(7);
    assert_eq!(expect_run(ex.next_action()), "false");
    ex.report_exit(2);
    assert_eq!(expect_finished(ex.next_action()), 2);

    let cmd2 = "false; pwd\n";
    let (tkns2, docs2) = lex(cmd2);
    let mut ex2 = execute_ast(parse_all_files(cmd2, &tkns2, docs2));
    assert_eq!(expect_run(ex2.next_action()), "false");
    ex2.report_exit(1);
    assert_eq!(expect_run(ex2.next_action()), "pwd");
    ex2.report_exit(9);
    assert_eq!(expect_finished(ex2.next_action()), 0);
}

#[test]
fn runner_skips_empty_program_and_ends_empty_list_with_zero() {
    let mut ex = execute_ast(vec![prog("", vec![])]);
    assert_eq!(expect_finished(ex.next_action()), 0);
    let mut ex2 = execute_ast(Vec::new());
    assert_eq!(expect_finished(ex2.next_action()), 0);
}

#[test]
fn runner_reports_invalid_operator() {
    let node = Box::new(AstNode::Logical { lhs: prog("true", vec!["true"]), operator: Tkn::Pipe, rhs: prog("x", vec!["x"]) });
    let mut ex = execute_ast(vec![node]);
    assert_eq!(expect_run(ex.next_action()), "true");
    ex.report_exit(0);
    assert!(matches!(ex.next_action(), Action::Invalid));
}

#[test]
fn runner_pipeline_is_one_unit() {
    let cmd = "echo a | grep a\n";
    let (tkns, docs) = lex(cmd);
    match execute_cmd_buf(cmd, &tkns, docs).0 {
        Ok(mut ex) => {
            assert_eq!(expect_run(ex.next_action()), "<pipeline>");
            ex.report_exit(4);
            assert_eq!(expect_finished(ex.next_action()), 4);
        }
        Err(_) => panic!("parse failed"),
    }
}

#[test]
fn execute_cmd_buf_reports_parse_errors() {
    let cmd = "cat < no_such_input_file_here.txt\n";
    let (tkns, docs) = lex(cmd);
    match execute_cmd_buf(cmd, &tkns, docs).0 {
        Err(ParseError::NotAFile(f)) => assert_eq!(f, "no_such_input_file_here.txt"),
        _ => panic!("expected an error"),
    }
}

#[test]
fn subshell_input_moves_to_first_command() {
    let cmd = "(cat | grep x && echo y) < in.txt\n";
    let (tkns, docs) = lex(cmd);
    let mut v = parse_all_files(cmd, &tkns, docs);
    let node = v.remove(0);
    match *node {
        AstNode::Subshell(mut s) => {
            assert_eq!(s.redirect_ins.len(), 1);
            assert!(first_command_reachable(&s.inner_ast[0]));
            let inner = s.take_inner_ast();
            assert!(s.inner_ast.is_empty());
            assert!(s.redirect_ins.is_empty());
            assert_eq!(inner.len(), 1);
            match &*inner[0] {
                AstNode::Logical { lhs, .. } => match &**lhs {
                    AstNode::Pipeline(stages) => match &*stages[0] {
                        AstNode::Prog(c) => {
                            assert_eq!(c.prog_name, "cat");
                            assert_eq!(c.redirect_ins.len(), 1);
                            assert_eq!(c.redirect_ins[0].dir, Redir::In);
                            assert_eq!(c.redirect_ins[0].file, "in.txt");
                        }
                        _ => panic!("first stage is not a program"),
                    },
                    _ => panic!("not a pipeline"),
                },
                _ => panic!("not a logical node"),
            }
        }
        _ => panic!("not a subshell"),
    }
}

#[test]
fn subshell_without_input_keeps_its_trees() {
    let mut s = Subsh { inner_ast: vec![prog("ls", vec!["ls"])], redirect_ins: Vec::new(), redirect_outs: Vec::new() };
    let inner = s.take_inner_ast();
    assert_eq!(inner.len(), 1);
    assert!(matches!(&*inner[0], AstNode::Prog(c) if c.redirect_ins.is_empty()));
    assert!(!first_command_reachable(&AstNode::Pipeline(Vec::new())));
}

#[test]
fn output_redirection_modes() {
    let rs = vec![
        Redirect { dir: Redir::Out, file: "a".to_string() },
        Redirect { dir: Redir::Append, file: "b".to_string() },
    ];
    let (m, err) = out_modes(&rs);
    assert_eq!(m, vec![OutMode::Truncate, OutMode::Append]);
    assert!(err.is_none());
    let bad = vec![
        Redirect { dir: Redir::Out, file: "a".to_string() },
        Redirect { dir: Redir::In, file: "b".to_string() },
        Redirect { dir: Redir::Append, file: "c".to_string() },
    ];
    let (m, err) = out_modes(&bad);
    assert_eq!(m, vec![OutMode::Truncate]);
    assert_eq!(err, Some("unreachable: got redirect in while executing redirect out".to_string()));
}

#[test]
fn input_redirection_feeds() {
    let rs = vec![
        Redirect { dir: Redir::Heredoc, file: "body\n".to_string() },
        Redirect { dir: Redir::Out, file: "x".to_string() },
        Redirect { dir: Redir::In, file: "f.txt".to_string() },
    ];
    let feeds = stdin_feeds(&rs);
    assert_eq!(feeds.len(), 2);
    assert!(matches!(&feeds[0], Feed::Text(t) if t == "body\n"));
    assert!(matches!(&feeds[1], Feed::File(f) if f == "f.txt"));
}

#[test]
fn builtin_table() {
    let t = get_builtins();
    let names: Vec<&str> = t.iter().map(|e| e.0).collect();
    assert_eq!(names, vec!["pwd", "cd", "history", "exit"]);
    assert_eq!(lookup_builtin("cd"), Some(BuiltinKind::Cd));
    assert_eq!(lookup_builtin("exit"), Some(BuiltinKind::Exit));
    assert_eq!(lookup_builtin("ls"), None);
}

#[test]
fn cd_targets() {
    assert!(matches!(cd_target(&vec!["cd"]), Ok(CdTarget::Home)));
    assert!(matches!(cd_target(&vec!["cd", "~"]), Ok(CdTarget::Home)));
    assert!(matches!(cd_target(&vec!["cd", "~/"]), Ok(CdTarget::Home)));
    assert!(matches!(cd_target(&vec!["cd", "~/docs/x"]), Ok(CdTarget::HomeRelative(p)) if p == "docs/x"));
    assert!(matches!(cd_target(&vec!["cd", "~//a"]), Ok(CdTarget::HomeRelative(p)) if p == "a"));
    assert!(matches!(cd_target(&vec!["cd", "~user"]), Ok(CdTarget::Path(p)) if p == "~user"));
    assert!(matches!(cd_target(&vec!["cd", "../"]), Ok(CdTarget::Path(p)) if p == "../"));
    match cd_target(&vec!["cd", "a", "b"]) {
        Err(e) => assert_eq!(e, "ERR cd: too many arguments for cd; b is invalid"),
        Ok(_) => panic!("expected an error"),
    }
}

#[test]
fn history_requests() {
    assert_eq!(history_request(&vec!["history"]), Ok(HistoryRequest::List));
    assert_eq!(history_request(&vec!["history", "clear"]), Ok(HistoryRequest::Clear));
    assert_eq!(history_request(&vec!["history", "ClEaR"]), Ok(HistoryRequest::Clear));
    assert_eq!(
        history_request(&vec!["history", "clearly"]),
        Err("unrecognized history parameter clearly".to_string())
    );
}

#[test]
fn history_shows_last_fifteen() {
    let entries: Vec<String> = (0..20).map(|i| format!("cmd{}", i)).collect();
    let expected: Vec<String> = (5..20).map(|i| format!("cmd{}", i)).collect();
    assert_eq!(history_listing(&entries), expected.join("\n"));
    assert_eq!(history_listing(&vec!["a".to_string(), "b".to_string()]), "a\nb");
    assert_eq!(history_listing(&Vec::new()), "");
}

#[test]
fn prompts() {
    let mut p = String::new();
    set_needs_continuation_prompt(&mut p, "&&");
    assert_eq!(p, "CmdAnd> ");
    set_needs_continuation_prompt(&mut p, "||");
    assert_eq!(p, "CmdOr> ");
    set_needs_continuation_prompt(&mut p, "|");
    assert_eq!(p, "pipe> ");
    set_needs_continuation_prompt(&mut p, "\\");
    assert_eq!(p, "> ");
    set_expected_closer_prompt(&mut p, "'");
    assert_eq!(p, "quote> ");
    set_expected_closer_prompt(&mut p, "`");
    assert_eq!(p, "bquote> ");
    set_expected_closer_prompt(&mut p, "\"");
    assert_eq!(p, "dquote> ");
    set_expected_closer_prompt(&mut p, ")");
    assert_eq!(p, "subsh> ");
    set_expected_closer_prompt(&mut p, "EOF");
    assert_eq!(p, "missing EOF for heredoc> ");
    assert_eq!(
        prompt_line(Some("ann".to_string()), Some("my big mac".to_string()), "proj"),
        "[rust_shell] ann@my-big-mac: proj % "
    );
    assert_eq!(prompt_line(None, None, "d"), "[rust_shell] <unknown>@<unknown>: d % ");
}

#[test]
fn typed_lines() {
    let mut buf = String::new();
    assert_eq!(on_input(&mut buf, "   \t"), InputAction::Skip);
    assert_eq!(on_input(&mut buf, " ExIt \t"), InputAction::Exit);
    assert_eq!(buf, "");
    assert_eq!(on_input(&mut buf, "echo 'a"), InputAction::Lex);
    assert_eq!(buf, "echo 'a\n");
    assert_eq!(on_input(&mut buf, "exits"), InputAction::Lex);
    assert_eq!(buf, "echo 'a\nexits\n");
}

fn followup(cmd: &str) -> (Option<String>, String) {
    let mut st = LexerState::new();
    assert!(!lex_would_panic(cmd));
    assert!(lex_cmd_buf(&mut st, cmd).is_none());
    let mut prompt = "unchanged".to_string();
    let err = st.after_incomplete(&mut prompt);
    (err, prompt)
}

#[test]
fn incomplete_lines_ask_for_more() {
    assert_eq!(followup("echo 'abc\n"), (None, "quote> ".to_string()));
    assert_eq!(followup("cat file |\n"), (None, "pipe> ".to_string()));
    assert_eq!(followup("true &&\n"), (None, "CmdAnd> ".to_string()));
    assert_eq!(followup("(echo a\n"), (None, "subsh> ".to_string()));
    assert_eq!(followup("cat << EOF\nhello\n"), (None, "missing EOF for heredoc> ".to_string()));
    assert_eq!(followup("cat < \n"), (Some("not a valid delimiter for <".to_string()), "unchanged".to_string()));
}

#[test]
fn lexer_panic_inputs_are_detected() {
    assert!(lex_would_panic("cat << EOF\nhello"));
    assert!(!lex_would_panic("echo hi\n"));
}

#[test]
fn token_text_of_quotes_and_words() {
    let cmd = "echo \"a b\" c\n";
    let (tkns, _) = lex(cmd);
    assert_eq!(get_token_at(&tkns[0], cmd), "echo");
    assert_eq!(get_token_at(&tkns[1], cmd), "a b");
    assert_eq!(get_token_at(&tkns[2], cmd), "c");
}

#[test]
fn osc133_states() {
    let mut p = PtyParser::new();
    assert_eq!(p.shell_state, ShellState::CmdEnd);
    let fx = p.osc_dispatch(&vec![b"133".to_vec(), b"C".to_vec()]);
    assert!(fx.is_osc133 && fx.output_start && !fx.invalid_transition && !fx.invalid_sequence);
    assert_eq!(p.shell_state, ShellState::OutputStart);
    let fx = p.osc_dispatch(&vec![b"133".to_vec(), b"D".to_vec()]);
    assert!(!fx.invalid_transition);
    assert_eq!(p.shell_state, ShellState::CmdEnd);
    let fx = p.osc_dispatch(&vec![b"133".to_vec(), b"A".to_vec(), b"CmdAnd> ".to_vec()]);
    assert_eq!(fx.prompt_continue, Some("CmdAnd> ".to_string()));
    assert_eq!(p.shell_state, ShellState::PromptStart);
    let fx = p.osc_dispatch(&vec![b"133".to_vec(), b"B".to_vec()]);
    assert!(!fx.invalid_transition);
    let fx = p.osc_dispatch(&vec![b"133".to_vec(), b"D".to_vec()]);
    assert!(fx.invalid_transition);
    assert_eq!(p.shell_state, ShellState::CmdEnd);
    let fx = p.osc_dispatch(&vec![b"133".to_vec(), b"Z".to_vec()]);
    assert!(fx.invalid_sequence && !fx.invalid_transition);
    assert_eq!(p.shell_state, ShellState::CmdEnd);
    let fx = p.osc_dispatch(&vec![b"0".to_vec(), b"title".to_vec()]);
    assert!(!fx.is_osc133);
    let fx = p.osc_dispatch(&Vec::new());
    assert!(!fx.is_osc133 && fx.prompt_continue.is_none());
    assert!(p.output.is_empty());
}

#[test]
fn saved_history_entries() {
    let text = "#V2\nls -la\necho a\\nb\n".to_string();
    assert_eq!(
        get_editor_hist(Some(text)),
        Some(vec!["ls -la".to_string(), "echo a\nb".to_string(), "".to_string()])
    );
    let crlf = "#V2\nx\\r\\ny".to_string();
    assert_eq!(get_editor_hist(Some(crlf)), Some(vec!["x\ny".to_string()]));
    assert_eq!(get_editor_hist(Some("#V2".to_string())), Some(Vec::new()));
    assert_eq!(get_editor_hist(None), None);
}

#[test]
fn readme_heredocs_in_order() {
    let cmd = "cat << one << two << three\nFIRST\none\nSECOND\ntwo\nTHIRD\nthree\n";
    let (tkns, docs) = lex(cmd);
    assert_eq!(docs, VecDeque::from(vec!["FIRST\n", "SECOND\n", "THIRD\n"]));
    let v = parse_all_files(cmd, &tkns, docs);
    match &*v[0] {
        AstNode::Prog(c) => {
            let bodies: Vec<&str> = c.redirect_ins.iter().map(|r| r.file.as_str()).collect();
            assert_eq!(bodies, vec!["FIRST\n", "SECOND\n", "THIRD\n"]);
            assert!(c.redirect_ins.iter().all(|r| r.dir == Redir::Heredoc));
        }
        _ => panic!("not a program"),
    }
}

#[test]
fn readme_heredoc_into_pipeline_and_append() {
    let cmd = "cat << EOF | grep \"bin\" >> tmp.txt\nbingchilling\nbinturong\nEOF\n";
    let (tkns, docs) = lex(cmd);
    let v = parse_all_files(cmd, &tkns, docs);
    match &*v[0] {
        AstNode::Pipeline(stages) => {
            assert_eq!(stages.len(), 2);
            match &*stages[0] {
                AstNode::Prog(c) => assert_eq!(c.redirect_ins[0].file, "bingchilling\nbinturong\n"),
                _ => panic!("first stage is not a program"),
            }
            match &*stages[1] {
                AstNode::Prog(c) => {
                    assert_eq!(c.args, vec!["grep", "bin"]);
                    assert_eq!(c.redirect_outs[0].dir, Redir::Append);
                    assert_eq!(c.redirect_outs[0].file, "tmp.txt");
                }
                _ => panic!("second stage is not a program"),
            }
        }
        _ => panic!("not a pipeline"),
    }
}

#[test]
fn parse_error_messages() {
    assert_eq!(ParseError::NotAFile("x.txt".to_string()).message(), "ERR: x.txt is not a valid file");
    assert_eq!(ParseError::EmptyArgs.message(), "Syntax Err: empty args");
    assert_eq!(
        ParseError::ArgsBeforeSubshell("echo".to_string()).message(),
        "Syntax Err: found 'echo...' before subshell start"
    );
    let cmd = "| ls\n";
    let (tkns, docs) = lex(cmd);
    let mut p = Parser::new(&tkns, docs, cmd);
    match p.parse_with_files(vec![true; tkns.len()]) {
        Err(e) => assert_eq!(e.message(), "Syntax Err: empty args"),
        Ok(_) => panic!("expected an error"),
    }
}

fn lex_state_after(cmd: &str) -> (bool, LexerState) {
    let mut st = LexerState::new();
    assert!(!lex_would_panic(cmd));
    let complete = lex_cmd_buf(&mut st, cmd).is_some();
    (complete, st)
}

#[test]
fn backslash_at_end_asks_for_continuation() {
    let (complete, st) = lex_state_after("echo hi \\\n");
    assert!(!complete);
    assert_eq!(st.continuation_for, Some("\\".to_string()));
    assert!(st.syntax_err.is_none());
    assert_eq!(followup("echo hi \\\n"), (None, "> ".to_string()));
}

#[test]
fn operator_before_operator_is_a_syntax_error() {
    let (complete, st) = lex_state_after("cat file | | grep x\n");
    assert!(!complete);
    assert_eq!(st.syntax_err, Some("parse error near 12".to_string()));
}

#[test]
fn unclosed_quote_after_operator_asks_for_more() {
    let (complete, st) = lex_state_after("echo a | \"abc\n");
    assert!(!complete);
    assert_eq!(st.expected_closer, Some("\"".to_string()));
    assert!(st.syntax_err.is_none());
    assert_eq!(followup("echo a | \"abc\n"), (None, "dquote> ".to_string()));
    assert_eq!(followup("cat > 'out\n"), (None, "quote> ".to_string()));
}

#[test]
fn pipeline_exit_codes() {
    assert_eq!(pipeline_code(&Vec::new()), 0);
    assert_eq!(pipeline_code(&vec![Some(3), Some(0)]), 0);
    assert_eq!(pipeline_code(&vec![Some(0), Some(5)]), 5);
    assert_eq!(pipeline_code(&vec![Some(0), None]), 1);
}

fn parse_err(cmd: &str) -> String {
    let (tkns, docs) = lex(cmd);
    let mut p = Parser::new(&tkns, docs, cmd);
    match p.parse_with_files(vec![true; tkns.len()]) {
        Err(e) => e.message(),
        Ok(_) => panic!("expected an error for {:?}", cmd),
    }
}

#[test]
fn command_errors_by_kind() {
    assert_eq!(parse_err("()\n"), "Syntax Err: empty args");
    assert_eq!(parse_err("echo a &\n"), "Syntax Err: unexpected tkn in expression");
    assert_eq!(parse_err("echo (ls)\n"), "Syntax Err: found 'echo...' before subshell start");
    assert_eq!(parse_err("; && ls\n"), "Syntax Err: empty args");
}

#[test]
fn newline_ended_buffers_never_panic() {
    assert!(!lex_would_panic("cat << EOF\nhello\n"));
    assert!(!lex_would_panic("echo a | \"b\n"));
    assert!(!lex_would_panic("cat << A << B\nx\nA\n"));
}

#[test]
fn nested_subshells_after_operators() {
    let cmd = "(echo outer && (echo inner))\n";
    let (tkns, docs) = lex(cmd);
    let v = parse_all_files(cmd, &tkns, docs);
    assert_eq!(v.len(), 1);
    match &*v[0] {
        AstNode::Subshell(s) => {
            assert_eq!(s.inner_ast.len(), 1);
            match &*s.inner_ast[0] {
                AstNode::Logical { lhs, operator, rhs } => {
                    assert!(matches!(operator, Tkn::CmdAnd));
                    assert_eq!(prog_name(lhs), "echo");
                    match &**rhs {
                        AstNode::Subshell(inner) => {
                            assert_eq!(inner.inner_ast.len(), 1);
                            assert!(matches!(&*inner.inner_ast[0], AstNode::Prog(c) if c.args == vec!["echo", "inner"]));
                        }
                        _ => panic!("right side is not a subshell"),
                    }
                }
                _ => panic!("not a logical node"),
            }
        }
        _ => panic!("not a subshell"),
    }

    let cmd2 = "(true && (false || echo \"nested fallback\"))\n";
    let (tkns2, docs2) = lex(cmd2);
    assert_eq!(parse_all_files(cmd2, &tkns2, docs2).len(), 1);

    let cmd3 = "echo \"data stream\" | (cat | grep \"data\" && (echo \"deep match\"))\n";
    let (tkns3, docs3) = lex(cmd3);
    let v3 = parse_all_files(cmd3, &tkns3, docs3);
    match &*v3[0] {
        AstNode::Pipeline(stages) => {
            assert_eq!(stages.len(), 2);
            assert_eq!(prog_name(&stages[0]), "echo");
            assert_eq!(prog_name(&stages[1]), "<subshell>");
        }
        _ => panic!("not a pipeline"),
    }
    let (complete, _) = lex_state_after("a && (b)\n");
    assert!(complete);
}

#[test]
fn file_checks_are_for_redirect_targets() {
    let cmd = "cat < no_such_checked_file.txt | wc\n";
    let (tkns, docs) = lex(cmd);
    let targets = redirect_targets(&tkns, cmd);
    assert_eq!(targets, vec![None, Some("no_such_checked_file.txt"), None, None, None, None]);
    let (r, checks) = execute_cmd_buf(cmd, &tkns, docs);
    assert!(matches!(r, Err(ParseError::NotAFile(_))));
    assert_eq!(checks.len(), 6);
    match &checks[1] {
        Some(c) => {
            assert_eq!(c.name(), "no_such_checked_file.txt");
            assert!(!c.is_file());
        }
        None => panic!("the target was not checked"),
    }
    assert!(checks.iter().enumerate().all(|(i, c)| (i == 1) == c.is_some()));
}

#[test]
fn first_unclosed_heredoc_is_expected() {
    assert_eq!(followup("cat << A << B\nx\nA\ny\n"), (None, "missing B for heredoc> ".to_string()));
    assert_eq!(followup("cat << A << B\nx\ny\n"), (None, "missing A for heredoc> ".to_string()));
}

#[test]
fn pipeline_of_three_stages() {
    let cmd = "echo 'apple banana cherry' | tr ' ' '\\n' | grep a\n";
    let (tkns, docs) = lex(cmd);
    let v = parse_all_files(cmd, &tkns, docs);
    match &*v[0] {
        AstNode::Pipeline(stages) => {
            let names: Vec<String> = stages.iter().map(|s| prog_name(s)).collect();
            assert_eq!(names, vec!["echo", "tr", "grep"]);
        }
        _ => panic!("not a pipeline"),
    }
}
