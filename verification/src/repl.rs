use vstd::prelude::*;
use vstd::string::*;
use crate::builtins::{eq_ignore_case, same_letter};

verus! {

/// A Unicode white-space character, as `str::trim` removes them.
pub open spec fn is_space(c: char) -> bool {
    ||| c == '\t' || c == '\n' || c == '\x0B' || c == '\x0C' || c == '\r' || c == ' '
    ||| c == '\u{85}' || c == '\u{a0}' || c == '\u{1680}'
    ||| ('\u{2000}' <= c && c <= '\u{200a}')
    ||| c == '\u{2028}' || c == '\u{2029}' || c == '\u{202f}' || c == '\u{205f}' || c == '\u{3000}'
}

/// `s` without the white space it starts with.
pub open spec fn trim_start(s: Seq<char>) -> Seq<char>
    decreases s.len(),
{
    if s.len() > 0 && is_space(s[0]) {
        trim_start(s.drop_first())
    } else {
        s
    }
}

/// `s` without the white space it ends with.
pub open spec fn trim_end(s: Seq<char>) -> Seq<char>
    decreases s.len(),
{
    if s.len() > 0 && is_space(s.last()) {
        trim_end(s.drop_last())
    } else {
        s
    }
}

/// `s` without white space at either end.
pub open spec fn trim(s: Seq<char>) -> Seq<char> {
    trim_end(trim_start(s))
}

/// What the shell does with a line the user typed.
#[derive(PartialEq, Eq, Structural, Clone, Copy, Debug)]
pub enum InputAction {
    /// A blank line: ignore it.
    Skip,
    /// `exit`, in any case: save the history and leave.
    Exit,
    /// Anything else: the line was added to the command buffer, lex it.
    Lex,
}

/// What the shell does with the line `input`.
pub open spec fn input_action(input: Seq<char>) -> InputAction {
    if trim(input).len() == 0 {
        InputAction::Skip
    } else if eq_ignore_case(trim(input), "exit"@) {
        InputAction::Exit
    } else {
        InputAction::Lex
    }
}

fn is_space_x(c: char) -> (r: bool)
    ensures
        r == is_space(c),
{
    c == '\t' || c == '\n' || c == '\x0B' || c == '\x0C' || c == '\r' || c == ' ' || c == '\u{85}'
        || c == '\u{a0}' || c == '\u{1680}' || ('\u{2000}' <= c && c <= '\u{200a}') || c
        == '\u{2028}' || c == '\u{2029}' || c == '\u{202f}' || c == '\u{205f}' || c == '\u{3000}'
}

fn skip_spaces(s: &str, from: usize, n: usize) -> (r: usize)
    requires
        n == s@.len(),
        from <= n,
    ensures
        from <= r <= n,
        s@.subrange(r as int, n as int) == trim_start(s@.subrange(from as int, n as int)),
    decreases n - from,
{
    let ghost t = s@.subrange(from as int, n as int);
    if from < n && is_space_x(s.get_char(from)) {
        assert(t.drop_first() =~= s@.subrange(from + 1, n as int));
        skip_spaces(s, from + 1, n)
    } else {
        from
    }
}

fn back_spaces(s: &str, from: usize, to: usize) -> (r: usize)
    requires
        from <= to <= s@.len(),
    ensures
        from <= r <= to,
        s@.subrange(from as int, r as int) == trim_end(s@.subrange(from as int, to as int)),
    decreases to - from,
{
    let ghost t = s@.subrange(from as int, to as int);
    if from < to && is_space_x(s.get_char(to - 1)) {
        assert(t.drop_last() =~= s@.subrange(from as int, to - 1));
        back_spaces(s, from, to - 1)
    } else {
        to
    }
}

/// Decides what to do with the line `input`; when it is to be lexed, it is
/// added to the command buffer with the newline that reading took off.
pub fn on_input(cmd_buf: &mut String, input: &str) -> (a: InputAction)
    ensures
        a == input_action(input@),
        a == InputAction::Lex ==> final(cmd_buf)@ == old(cmd_buf)@ + input@ + "\n"@,
        a != InputAction::Lex ==> final(cmd_buf)@ == old(cmd_buf)@,
{
    let n = input.unicode_len();
    let i = skip_spaces(input, 0, n);
    let j = back_spaces(input, i, n);
    proof {
        assert(input@.subrange(0, n as int) =~= input@);
    }
    let ghost t = trim(input@);
    assert(t == input@.subrange(i as int, j as int));
    if i == j {
        return InputAction::Skip;
    }
    let word = "exit";
    proof {
        reveal_strlit("exit");
        assert(word@.len() == 4);
    }
    let mut same = j - i == 4;
    if same {
        let mut k: usize = 0;
        while k < 4
            invariant
                j - i == 4,
                i <= j <= n,
                n == input@.len(),
                t == input@.subrange(i as int, j as int),
                word@ == "exit"@,
                word@.len() == 4,
                k <= 4,
                same == forall|m: int| 0 <= m < k ==> same_letter(#[trigger] t[m], word@[m]),
            decreases 4 - k,
        {
            let c = input.get_char(i + k);
            assert(t[k as int] == c);
            let w = word.get_char(k);
            let ok = c == w || ('A' <= c && c <= 'Z' && (c as u32) + 32 == (w as u32));
            same = same && ok;
            k = k + 1;
        }
    }
    if same {
        InputAction::Exit
    } else {
        cmd_buf.append(input);
        cmd_buf.append("\n");
        InputAction::Lex
    }
}

} // verus!
