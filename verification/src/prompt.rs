use vstd::prelude::*;
use vstd::string::*;
use crate::text::str_eq;

verus! {

/// The prompt shown while a command line ends with `\`, `&&`, `||` or `|`
/// and the user must type its continuation.
pub open spec fn continuation_prompt(op: Seq<char>) -> Seq<char> {
    if op == "&&"@ {
        "CmdAnd> "@
    } else if op == "||"@ {
        "CmdOr> "@
    } else if op == "|"@ {
        "pipe> "@
    } else {
        "> "@
    }
}

/// Sets `prompt` to the continuation prompt for the operator `op`.
pub fn set_needs_continuation_prompt(prompt: &mut String, op: &str)
    ensures
        final(prompt)@ == continuation_prompt(op@),
{
    if str_eq(op, "&&") {
        *prompt = String::from_str("CmdAnd> ");
    } else if str_eq(op, "||") {
        *prompt = String::from_str("CmdOr> ");
    } else if str_eq(op, "|") {
        *prompt = String::from_str("pipe> ");
    } else {
        *prompt = String::from_str("> ");
    }
}

/// The prompt shown while a quote, a subshell or a heredoc waits for its
/// closer.
pub open spec fn closer_prompt(closer: Seq<char>) -> Seq<char> {
    if closer == "'"@ {
        "quote> "@
    } else if closer == "`"@ {
        "bquote> "@
    } else if closer == "\""@ {
        "dquote> "@
    } else if closer == ")"@ {
        "subsh> "@
    } else {
        "missing "@ + closer + " for heredoc> "@
    }
}

/// Sets `prompt` to the prompt that asks for `closer`.
pub fn set_expected_closer_prompt(prompt: &mut String, closer: &str)
    ensures
        final(prompt)@ == closer_prompt(closer@),
{
    if str_eq(closer, "'") {
        *prompt = String::from_str("quote> ");
    } else if str_eq(closer, "`") {
        *prompt = String::from_str("bquote> ");
    } else if str_eq(closer, "\"") {
        *prompt = String::from_str("dquote> ");
    } else if str_eq(closer, ")") {
        *prompt = String::from_str("subsh> ");
    } else {
        let mut p = String::from_str("missing ");
        p.append(closer);
        p.append(" for heredoc> ");
        *prompt = p;
    }
}

/// `s` with each space replaced by `-`.
pub open spec fn dashed(s: Seq<char>) -> Seq<char> {
    s.map_values(|c: char| if c == ' ' { '-' } else { c })
}

/// The name shown for an account or a device that could not be found.
pub open spec fn or_unknown(name: Option<Seq<char>>) -> Seq<char> {
    match name {
        Some(n) => n,
        None => "<unknown>"@,
    }
}

/// The prompt of a fresh command line: `[rust_shell] user@device: dir % `.
pub open spec fn normal_prompt(user: Option<Seq<char>>, device: Option<Seq<char>>, dir: Seq<char>) -> Seq<char> {
    "[rust_shell] "@ + or_unknown(user) + "@"@ + dashed(or_unknown(device)) + ": "@ + dir + " % "@
}

/// The characters of an optional string.
pub open spec fn opt_chars(o: Option<String>) -> Option<Seq<char>> {
    match o {
        Some(s) => Some(s@),
        None => None,
    }
}

fn dash_spaces(s: &str) -> (r: String)
    ensures
        r@ == dashed(s@),
{
    let n = s.unicode_len();
    let mut out = String::new();
    let mut i: usize = 0;
    proof {
        reveal_strlit("-");
    }
    while i < n
        invariant
            n == s@.len(),
            i <= n,
            out@ == dashed(s@.subrange(0, i as int)),
            "-"@ == seq!['-'],
        decreases n - i,
    {
        let c = s.get_char(i);
        if c == ' ' {
            out.append("-");
        } else {
            out.append(s.substring_char(i, i + 1));
        }
        assert(dashed(s@.subrange(0, i + 1)) =~= dashed(s@.subrange(0, i as int)).push(
            if c == ' ' {
                '-'
            } else {
                c
            },
        ));
        i = i + 1;
    }
    assert(s@.subrange(0, n as int) =~= s@);
    out
}

/// The prompt of a fresh command line, from the account name and the device
/// name (when they could be found) and the name of the working directory.
pub fn prompt_line(user: Option<String>, device: Option<String>, dir: &str) -> (r: String)
    ensures
        r@ == normal_prompt(opt_chars(user), opt_chars(device), dir@),
{
    let u = match user {
        Some(u) => u,
        None => String::from_str("<unknown>"),
    };
    let d = match device {
        Some(d) => d,
        None => String::from_str("<unknown>"),
    };
    let mut p = String::from_str("[rust_shell] ");
    p.append(u.as_str());
    p.append("@");
    let dd = dash_spaces(d.as_str());
    p.append(dd.as_str());
    p.append(": ");
    p.append(dir);
    p.append(" % ");
    p
}

/// Sets `prompt` to the prompt of a fresh command line in the directory
/// named `dir`, asking the system for the account and device names.
pub fn set_normal_prompt(prompt: &mut String, dir: &str)
    ensures
        exists|user: Option<Seq<char>>, device: Option<Seq<char>>|
            final(prompt)@ == normal_prompt(user, device, dir@),
{
    let user = account_name();
    let device = device_name();
    let ghost u = opt_chars(user);
    let ghost d = opt_chars(device);
    *prompt = prompt_line(user, device, dir);
    assert(final(prompt)@ == normal_prompt(u, d, dir@));
}

/// The account name of the user, from `whoami::account`; `None` where the
/// system does not give one. Nothing is claimed of the name: it depends on
/// the machine.
#[verifier::external_body]
fn account_name() -> Option<String> {
    whoami::account().ok()
}

/// The name of the device, from `whoami::devicename`; `None` where the system
/// does not give one. Nothing is claimed of the name: it depends on the
/// machine.
#[verifier::external_body]
fn device_name() -> Option<String> {
    whoami::devicename().ok()
}

} // verus!
