use vstd::prelude::*;
use vstd::string::*;
use vstd::utf8::*;
use crate::text::{sbytes, substr, push_str, lemma_cut, lemma_ascii_encoding};

verus! {

// ---------------------------------------------------------------------------
// Shell state seen by the desktop front end
// ---------------------------------------------------------------------------

/// Where the shell is in its cycle, as the OSC 133 marks it writes tell.
#[derive(PartialEq, Eq, Structural, Clone, Copy, Debug)]
pub enum ShellState {
    /// `A`: a prompt is being shown.
    PromptStart,
    /// `B`: the command line was read.
    PromptEnd,
    /// `C`: the command's output follows.
    OutputStart,
    /// `D`: the command finished.
    CmdEnd,
}

/// The mark an OSC 133 sequence carries, as its byte.
pub open spec fn state_of_mark(m: Seq<u8>) -> Option<ShellState> {
    if m == seq![65u8] {
        Some(ShellState::PromptStart)
    } else if m == seq![66u8] {
        Some(ShellState::PromptEnd)
    } else if m == seq![67u8] {
        Some(ShellState::OutputStart)
    } else if m == seq![68u8] {
        Some(ShellState::CmdEnd)
    } else {
        None
    }
}

/// The states from which the shell may move to `next`.
pub open spec fn valid_transition(prev: ShellState, next: ShellState) -> bool {
    match next {
        ShellState::PromptStart => true,
        ShellState::PromptEnd => prev == ShellState::PromptStart,
        ShellState::OutputStart => prev == ShellState::CmdEnd || prev == ShellState::PromptEnd,
        ShellState::CmdEnd => prev == ShellState::OutputStart,
    }
}

/// What an OSC sequence asks of the front end.
pub struct OscEffects {
    /// The sequence is an OSC 133 sequence.
    pub is_osc133: bool,
    /// The shell moved between states in an order it should not.
    pub invalid_transition: bool,
    /// The OSC 133 mark is unknown.
    pub invalid_sequence: bool,
    /// A continuation prompt to show.
    pub prompt_continue: Option<String>,
    /// Command output starts.
    pub output_start: bool,
}

/// The OSC 133 identifier.
pub open spec fn osc133() -> Seq<u8> {
    seq![49u8, 51u8, 51u8]
}

/// The parameters of an OSC sequence the front end can take: an OSC 133
/// sequence has a mark, and a continuation prompt is UTF-8.
pub open spec fn osc_params_ok(params: Seq<Seq<u8>>) -> bool {
    params.len() > 0 && params[0] == osc133() ==> {
        &&& params.len() >= 2
        &&& (params[1] == seq![65u8] && params.len() == 3 ==> valid_utf8(params[2]))
    }
}

/// The state after an OSC sequence with these parameters.
pub open spec fn osc_next_state(state: ShellState, params: Seq<Seq<u8>>) -> ShellState {
    if params.len() > 0 && params[0] == osc133() {
        match state_of_mark(params[1]) {
            Some(s) => s,
            None => state,
        }
    } else {
        state
    }
}

fn bytes_eq(a: &[u8], b: &[u8]) -> (r: bool)
    ensures
        r == (a@ == b@),
{
    if a.len() != b.len() {
        return false;
    }
    let mut i: usize = 0;
    while i < a.len()
        invariant
            a@.len() == b@.len(),
            i <= a@.len(),
            forall|j: int| 0 <= j < i ==> a@[j] == b@[j],
        decreases a.len() - i,
    {
        if a[i] != b[i] {
            return false;
        }
        i = i + 1;
    }
    assert(a@ =~= b@);
    true
}

/// The text of valid UTF-8 bytes, from `std::str::from_utf8`, which succeeds
/// exactly on valid UTF-8 and gives a string with the same bytes.
#[verifier::external_body]
fn str_from_utf8(v: &[u8]) -> (r: Option<&str>)
    ensures
        r is Some <==> valid_utf8(v@),
        r is Some ==> r->0.spec_bytes() == v@,
{
    std::str::from_utf8(v).ok()
}

/// The front end's reader of what the shell writes: the state the shell is
/// in, and the command output gathered so far.
pub struct PtyParser {
    pub shell_state: ShellState,
    pub output: Vec<u8>,
}

impl PtyParser {
    /// A reader that takes the shell to be between commands.
    pub fn new() -> (r: Self)
        ensures
            r.shell_state == ShellState::CmdEnd,
            r.output@.len() == 0,
    {
        PtyParser { shell_state: ShellState::CmdEnd, output: Vec::new() }
    }

    /// Follows one OSC sequence the shell wrote: an OSC 133 mark moves the
    /// shell state (a transition out of order is reported, and still taken);
    /// `A` with a third parameter asks for a continuation prompt, `C` tells
    /// that output starts. Other sequences change nothing.
    pub fn osc_dispatch(&mut self, params: &Vec<Vec<u8>>) -> (fx: OscEffects)
        requires
            osc_params_ok(params@.map_values(|p: Vec<u8>| p@)),
        ensures
            final(self).output@ == old(self).output@,
            next_state_effects(old(self).shell_state, final(self).shell_state, params@.map_values(|p: Vec<u8>| p@), fx),
    {
        let ghost out = self.output@;
        let fx = osc_step(&mut self.shell_state, params);
        assert(self.output@ == out);
        fx
    }
}

/// How an OSC sequence with these parameters moves the shell state from
/// `prev` to `next`, and what it asks of the front end.
pub open spec fn next_state_effects(prev: ShellState, next: ShellState, ps: Seq<Seq<u8>>, fx: OscEffects) -> bool {
    let is133 = ps.len() > 0 && ps[0] == osc133();
    let mark = if is133 {
        state_of_mark(ps[1])
    } else {
        None
    };
    &&& next == osc_next_state(prev, ps)
    &&& fx.is_osc133 == is133
    &&& fx.invalid_sequence == (is133 && mark is None)
    &&& fx.invalid_transition == (mark matches Some(s) && !valid_transition(prev, s))
    &&& fx.output_start == (mark == Some(ShellState::OutputStart))
    &&& (fx.prompt_continue is Some <==> mark == Some(ShellState::PromptStart) && ps.len() == 3)
    &&& (fx.prompt_continue matches Some(p) ==> p@ == decode_utf8(ps[2]))
}

fn osc_step(state: &mut ShellState, params: &Vec<Vec<u8>>) -> (fx: OscEffects)
    requires
        osc_params_ok(params@.map_values(|p: Vec<u8>| p@)),
    ensures
        next_state_effects(*old(state), *final(state), params@.map_values(|p: Vec<u8>| p@), fx),
{
    let ghost ps = params@.map_values(|p: Vec<u8>| p@);
    let mut fx = OscEffects {
        is_osc133: false,
        invalid_transition: false,
        invalid_sequence: false,
        prompt_continue: None,
        output_start: false,
    };
    if params.len() == 0 {
        return fx;
    }
    assert(ps[0] == params@[0]@);
    let id: [u8; 3] = [49, 51, 51];
    if !bytes_eq(params[0].as_slice(), id.as_slice()) {
        assert(id@ == osc133());
        return fx;
    }
    assert(id@ =~= osc133());
    fx.is_osc133 = true;
    assert(ps[1] == params@[1]@);
    let m = params[1].as_slice();
    let prev = *state;
    if m.len() == 1 && m[0] == 65 {
        assert(m@ =~= seq![65u8]);
        *state = ShellState::PromptStart;
        if params.len() == 3 {
            assert(ps[2] == params@[2]@);
            let text = str_from_utf8(params[2].as_slice());
            match text {
                Some(t) => {
                    proof {
                        broadcast use encode_utf8_decode_utf8;
                        assert(decode_utf8(encode_utf8(t@)) == t@);
                    }
                    fx.prompt_continue = Some(String::from_str(t));
                },
                None => {},
            }
        }
    } else if m.len() == 1 && m[0] == 66 {
        assert(m@ =~= seq![66u8]);
        fx.invalid_transition = prev != ShellState::PromptStart;
        *state = ShellState::PromptEnd;
    } else if m.len() == 1 && m[0] == 67 {
        assert(m@ =~= seq![67u8]);
        fx.invalid_transition = prev != ShellState::CmdEnd && prev != ShellState::PromptEnd;
        *state = ShellState::OutputStart;
        fx.output_start = true;
    } else if m.len() == 1 && m[0] == 68 {
        assert(m@ =~= seq![68u8]);
        fx.invalid_transition = prev != ShellState::OutputStart;
        *state = ShellState::CmdEnd;
    } else {
        assert(state_of_mark(m@) is None) by {
            if m@.len() == 1 {
                assert(m@ != seq![65u8]);
            }
        }
        fx.invalid_sequence = true;
    }
    fx
}

// ---------------------------------------------------------------------------
// The saved command history
// ---------------------------------------------------------------------------

/// `s` with each occurrence of `pat`, taken from the left and without
/// overlap, replaced by `rep`.
pub open spec fn replace_all(s: Seq<u8>, pat: Seq<u8>, rep: Seq<u8>) -> Seq<u8>
    decreases s.len(),
{
    if s.len() == 0 {
        s
    } else if 0 < pat.len() <= s.len() && s.take(pat.len() as int) == pat {
        rep + replace_all(s.skip(pat.len() as int), pat, rep)
    } else {
        seq![s[0]] + replace_all(s.drop_first(), pat, rep)
    }
}

/// The pieces of `s` between the bytes `sep`: one more than there are `sep`.
pub open spec fn split_on(s: Seq<u8>, sep: u8) -> Seq<Seq<u8>>
    decreases s.len(),
{
    if s.len() == 0 {
        seq![Seq::empty()]
    } else {
        let r = split_on(s.drop_last(), sep);
        if s.last() == sep {
            r.push(Seq::empty())
        } else {
            r.update(r.len() - 1, r.last().push(s.last()))
        }
    }
}

proof fn lemma_split_on_nonempty(s: Seq<u8>, sep: u8)
    ensures
        split_on(s, sep).len() >= 1,
    decreases s.len(),
{
    if s.len() > 0 {
        lemma_split_on_nonempty(s.drop_last(), sep);
    }
}

/// The two characters `\` and `n`, as a saved history writes a newline
/// inside an entry.
pub open spec fn escaped_newline() -> Seq<u8> {
    seq![92u8, 110u8]
}

/// The characters `\r\n`, which the saved history may hold in place of
/// `\n`.
pub open spec fn escaped_crlf() -> Seq<u8> {
    seq![92u8, 114u8, 92u8, 110u8]
}

/// The entries of a saved history file: its lines after the header line,
/// with each written newline turned back into a newline.
pub open spec fn history_entries(text: Seq<u8>) -> Seq<Seq<u8>> {
    let lines = split_on(replace_all(text, escaped_crlf(), escaped_newline()), 10u8);
    lines.drop_first().map_values(|l: Seq<u8>| replace_all(l, escaped_newline(), seq![10u8]))
}

/// Replaces in `s` each occurrence of the ASCII pattern `pat`, from the
/// left and without overlap, by `rep`.
fn replace_ascii(s: &str, pat: &[u8], rep: &str) -> (r: String)
    requires
        pat@.len() > 0,
        forall|i: int| 0 <= i < pat@.len() ==> pat@[i] < 128,
    ensures
        sbytes(r) == replace_all(s.spec_bytes(), pat@, rep.spec_bytes()),
{
    let b = s.as_bytes();
    let n = b.len();
    let m = pat.len();
    let ghost all = b@;
    proof {
        encode_utf8_valid_utf8(s@);
    }
    let mut out = String::new();
    let mut seg: usize = 0;
    let mut i: usize = 0;
    proof {
        assert(out@ =~= Seq::<char>::empty());
        assert(sbytes(out) =~= Seq::<u8>::empty());
        assert(all.subrange(0, 0) =~= Seq::<u8>::empty());
        assert(all.subrange(0, n as int) =~= all);
        assert(Seq::<u8>::empty() + Seq::<u8>::empty() + all =~= all);
    }
    while i < n
        invariant
            b@ == all,
            all == s.spec_bytes(),
            valid_utf8(all),
            n == all.len(),
            m == pat@.len(),
            m > 0,
            forall|k: int| 0 <= k < pat@.len() ==> pat@[k] < 128,
            seg <= i <= n,
            seg == 0 || all[seg - 1] < 128,
            sbytes(out) + all.subrange(seg as int, i as int) + replace_all(all.subrange(i as int, n as int), pat@, rep.spec_bytes())
                == replace_all(all, pat@, rep.spec_bytes()),
        decreases n - i,
    {
        let ghost t = all.subrange(i as int, n as int);
        let mut hit = m <= n - i;
        if hit {
            let mut k: usize = 0;
            while k < m
                invariant
                    b@ == all,
                    n == all.len(),
                    m == pat@.len(),
                    i + m <= n,
                    k <= m,
                    hit == forall|j: int| 0 <= j < k ==> all[i + j] == pat@[j],
                decreases m - k,
            {
                hit = hit && b[i + k] == pat[k];
                k = k + 1;
            }
        }
        proof {
            if hit {
                assert(t.take(m as int) =~= pat@);
            } else if m <= n - i {
                assert(t.take(m as int) != pat@) by {
                    let j = choose|j: int| 0 <= j < m && !(all[i + j] == pat@[j]);
                    assert(t.take(m as int)[j] == all[i + j]);
                }
            }
        }
        if hit {
            proof {
                assert(all[i + 0] == pat@[0]);
                lemma_cut(all, seg as int);
                lemma_cut(all, i as int);
            }
            let lit = substr(s, seg, i);
            push_str(&mut out, lit);
            push_str(&mut out, rep);
            proof {
                assert(t.skip(m as int) =~= all.subrange(i + m, n as int));
                assert(all[i + m - 1] == pat@[m - 1]);
                assert(all.subrange(i + m, i + m) =~= Seq::<u8>::empty());
            }
            i = i + m;
            seg = i;
        } else {
            proof {
                assert(t.drop_first() =~= all.subrange(i + 1, n as int));
                assert(all.subrange(seg as int, i + 1) =~= all.subrange(seg as int, i as int).push(all[i as int]));
            }
            i = i + 1;
        }
    }
    proof {
        lemma_cut(all, seg as int);
        lemma_cut(all, n as int);
        assert(all.subrange(n as int, n as int) =~= Seq::<u8>::empty());
    }
    let lit = substr(s, seg, n);
    push_str(&mut out, lit);
    out
}

/// The views of a list of strings, by their UTF-8 bytes.
pub open spec fn strings_bytes(v: Seq<String>) -> Seq<Seq<u8>> {
    Seq::new(v.len(), |i: int| sbytes(v[i]))
}

/// Cuts `s` at each newline.
fn split_lines(s: &str) -> (r: Vec<String>)
    ensures
        strings_bytes(r@) == split_on(s.spec_bytes(), 10u8),
{
    let b = s.as_bytes();
    let n = b.len();
    let ghost all = b@;
    proof {
        encode_utf8_valid_utf8(s@);
    }
    let mut lines: Vec<String> = Vec::new();
    let mut seg: usize = 0;
    let mut i: usize = 0;
    proof {
        assert(all.take(0) =~= Seq::<u8>::empty());
        assert(strings_bytes(lines@).push(all.subrange(0, 0)) =~= seq![Seq::<u8>::empty()]);
    }
    while i < n
        invariant
            b@ == all,
            all == s.spec_bytes(),
            valid_utf8(all),
            n == all.len(),
            seg <= i <= n,
            seg == 0 || all[seg - 1] == 10,
            strings_bytes(lines@).push(all.subrange(seg as int, i as int)) == split_on(all.take(i as int), 10u8),
        decreases n - i,
    {
        let ghost prev = split_on(all.take(i as int), 10u8);
        assert(all.take(i + 1).drop_last() =~= all.take(i as int));
        assert(all.take(i + 1).last() == all[i as int]);
        if b[i] == 10 {
            proof {
                lemma_cut(all, seg as int);
                lemma_cut(all, i as int);
            }
            let line = substr(s, seg, i);
            let ghost before = strings_bytes(lines@);
            let owned_line = String::from_str(line);
            proof {
                assert(sbytes(owned_line) == line.spec_bytes());
            }
            lines.push(owned_line);
            proof {
                assert(strings_bytes(lines@) =~= before.push(all.subrange(seg as int, i as int)));
                assert(all.subrange(i + 1, i + 1) =~= Seq::<u8>::empty());
            }
            i = i + 1;
            seg = i;
        } else {
            proof {
                lemma_split_on_nonempty(all.take(i as int), 10u8);
                assert(all.subrange(seg as int, i + 1) =~= all.subrange(seg as int, i as int).push(all[i as int]));
            }
            i = i + 1;
        }
    }
    proof {
        lemma_cut(all, seg as int);
        lemma_cut(all, n as int);
        assert(all.take(n as int) =~= all);
    }
    let line = substr(s, seg, n);
    let ghost before = strings_bytes(lines@);
    let owned_line = String::from_str(line);
    proof {
        assert(sbytes(owned_line) == line.spec_bytes());
    }
    lines.push(owned_line);
    proof {
        assert(strings_bytes(lines@) =~= before.push(all.subrange(seg as int, n as int)));
    }
    lines
}

/// The entries of the saved command history, from the text of the history
/// file (`None` where it could not be read): the lines after the header,
/// each with its written newlines turned back into newlines.
pub fn get_editor_hist(saved: Option<String>) -> (r: Option<Vec<String>>)
    ensures
        match saved {
            Some(text) => r is Some && strings_bytes(r->0@) == history_entries(sbytes(text)),
            None => r is None,
        },
{
    let text = match saved {
        Some(t) => t,
        None => {
            return None;
        },
    };
    let crlf: [u8; 4] = [92, 114, 92, 110];
    let esc: [u8; 2] = [92, 110];
    let esc_text = "\\n";
    let newline = "\n";
    proof {
        reveal_strlit("\\n");
        reveal_strlit("\n");
        lemma_ascii_encoding(esc_text@);
        lemma_ascii_encoding(newline@);
        assert(esc_text.spec_bytes() =~= escaped_newline());
        assert(newline.spec_bytes() =~= seq![10u8]);
        assert(crlf@ =~= escaped_crlf());
        assert(esc@ =~= escaped_newline());
    }
    let normalized = replace_ascii(text.as_str(), crlf.as_slice(), esc_text);
    let lines = split_lines(normalized.as_str());
    let ghost lv = strings_bytes(lines@);
    proof {
        lemma_split_on_nonempty(sbytes(normalized), 10u8);
    }
    let mut hist: Vec<String> = Vec::new();
    let mut i: usize = 1;
    while i < lines.len()
        invariant
            1 <= i <= lines@.len(),
            lv == strings_bytes(lines@),
            esc@ == escaped_newline(),
            newline.spec_bytes() == seq![10u8],
            strings_bytes(hist@) == lv.subrange(1, i as int).map_values(
                |l: Seq<u8>| replace_all(l, escaped_newline(), seq![10u8]),
            ),
        decreases lines.len() - i,
    {
        let line = lines[i].as_str();
        assert(line.spec_bytes() == lv[i as int]);
        let entry = replace_ascii(line, esc.as_slice(), newline);
        let ghost before = strings_bytes(hist@);
        let ghost ev = sbytes(entry);
        assert(ev == replace_all(lv[i as int], escaped_newline(), seq![10u8]));
        hist.push(entry);
        proof {
            assert(strings_bytes(hist@) =~= before.push(ev));
            assert(strings_bytes(hist@) =~= lv.subrange(1, i + 1).map_values(
                |l: Seq<u8>| replace_all(l, escaped_newline(), seq![10u8]),
            ));
        }
        i = i + 1;
    }
    proof {
        assert(lv.subrange(1, lv.len() as int) =~= lv.drop_first());
    }
    Some(hist)
}

} // verus!
