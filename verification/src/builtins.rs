use vstd::prelude::*;
use vstd::string::*;

verus! {

// ---------------------------------------------------------------------------
// cd
// ---------------------------------------------------------------------------

/// Where `cd` goes.
pub enum CdTarget {
    /// The home directory (`cd` alone, or `cd ~`).
    Home,
    /// This path below the home directory (`cd ~/path`).
    HomeRelative(String),
    /// This path, as given.
    Path(String),
}

/// Where `cd` goes, as a mathematical value.
pub enum CdTargetV {
    Home,
    HomeRelative(Seq<char>),
    Path(Seq<char>),
}

impl View for CdTarget {
    type V = CdTargetV;

    open spec fn view(&self) -> CdTargetV {
        match self {
            CdTarget::Home => CdTargetV::Home,
            CdTarget::HomeRelative(s) => CdTargetV::HomeRelative(s@),
            CdTarget::Path(s) => CdTargetV::Path(s@),
        }
    }
}

/// `s` without the `/` characters it starts with.
pub open spec fn strip_slashes(s: Seq<char>) -> Seq<char>
    decreases s.len(),
{
    if s.len() > 0 && s[0] == '/' {
        strip_slashes(s.drop_first())
    } else {
        s
    }
}

/// A path whose first component is `~`.
pub open spec fn is_tilde_path(p: Seq<char>) -> bool {
    p.len() > 0 && p[0] == '~' && (p.len() == 1 || p[1] == '/')
}

/// The message for a `cd` with more than one argument.
pub open spec fn cd_too_many_msg(extra: Seq<char>) -> Seq<char> {
    "ERR cd: too many arguments for cd; "@ + extra + " is invalid"@
}

/// What `cd` does with its words (the first is `cd` itself).
pub open spec fn cd_spec(args: Seq<Seq<char>>) -> Result<CdTargetV, Seq<char>> {
    if args.len() == 1 {
        Ok(CdTargetV::Home)
    } else if args.len() == 2 {
        let p = args[1];
        if is_tilde_path(p) {
            let rest = strip_slashes(p.drop_first());
            if rest.len() == 0 {
                Ok(CdTargetV::Home)
            } else {
                Ok(CdTargetV::HomeRelative(rest))
            }
        } else {
            Ok(CdTargetV::Path(p))
        }
    } else if args.len() > 2 {
        Err(cd_too_many_msg(args[2]))
    } else {
        Err("unreachable"@)
    }
}

/// `cd` with one argument that does not start with the component `~` goes
/// to that path exactly as given (an absolute path stays absolute); with no
/// argument it goes home.
pub proof fn lemma_cd_one_argument(cd: Seq<char>, p: Seq<char>)
    ensures
        cd_spec(seq![cd]) == Ok::<CdTargetV, Seq<char>>(CdTargetV::Home),
        !is_tilde_path(p) ==> cd_spec(seq![cd, p]) == Ok::<CdTargetV, Seq<char>>(CdTargetV::Path(p)),
{
    assert(seq![cd, p][1] == p);
}

/// `cd ~/rest` goes to `rest` below the home directory, and `cd ~` home.
pub proof fn lemma_cd_under_home(cd: Seq<char>, rest: Seq<char>)
    ensures
        cd_spec(seq![cd, seq!['~']]) == Ok::<CdTargetV, Seq<char>>(CdTargetV::Home),
        rest.len() > 0 && rest[0] != '/' ==> cd_spec(seq![cd, seq!['~', '/'] + rest]) == Ok::<
            CdTargetV,
            Seq<char>,
        >(CdTargetV::HomeRelative(rest)),
{
    let t = seq!['~'];
    assert(seq![cd, t][1] == t);
    assert(t.drop_first() =~= Seq::<char>::empty());
    let q = seq!['~', '/'] + rest;
    assert(seq![cd, q][1] == q);
    assert(q.drop_first() =~= seq!['/'] + rest);
    assert((seq!['/'] + rest).drop_first() =~= rest);
    if rest.len() > 0 && rest[0] != '/' {
        assert(q[0] == '~' && q[1] == '/');
        assert(is_tilde_path(q));
        assert((seq!['/'] + rest)[0] == '/');
        assert(strip_slashes(rest) == rest);
        assert(strip_slashes(seq!['/'] + rest) == strip_slashes(rest));
    }
}

/// The words of a command, as character sequences.
pub open spec fn words_view(args: Seq<&str>) -> Seq<Seq<char>> {
    Seq::new(args.len(), |i: int| args[i]@)
}

fn skip_slashes(s: &str, from: usize) -> (r: usize)
    requires
        from <= s@.len(),
    ensures
        from <= r <= s@.len(),
        s@.subrange(r as int, s@.len() as int) == strip_slashes(s@.subrange(from as int, s@.len() as int)),
    decreases s@.len() - from,
{
    let n = s.unicode_len();
    if from < n && s.get_char(from) == '/' {
        let r = skip_slashes(s, from + 1);
        assert(s@.subrange(from as int, s@.len() as int).drop_first() =~= s@.subrange(
            from + 1,
            s@.len() as int,
        ));
        r
    } else {
        let ghost t = s@.subrange(from as int, s@.len() as int);
        assert(!(t.len() > 0 && t[0] == '/'));
        from
    }
}

/// The directory that `cd` changes to, from the words of the command; an
/// error with more than one argument.
pub fn cd_target(args: &Vec<&str>) -> (r: Result<CdTarget, String>)
    ensures
        match r {
            Ok(t) => cd_spec(words_view(args@)) == Ok::<CdTargetV, Seq<char>>(t@),
            Err(e) => cd_spec(words_view(args@)) == Err::<CdTargetV, Seq<char>>(e@),
        },
{
    let ghost w = words_view(args@);
    if args.len() == 1 {
        Ok(CdTarget::Home)
    } else if args.len() == 2 {
        let p: &str = args[1];
        assert(w[1] == p@);
        let n = p.unicode_len();
        if n > 0 && p.get_char(0) == '~' && (n == 1 || p.get_char(1) == '/') {
            let start = skip_slashes(p, 1);
            assert(p@.drop_first() =~= p@.subrange(1, p@.len() as int));
            if start == n {
                assert(p@.subrange(start as int, n as int).len() == 0);
                Ok(CdTarget::Home)
            } else {
                let rest = p.substring_char(start, n);
                Ok(CdTarget::HomeRelative(String::from_str(rest)))
            }
        } else {
            Ok(CdTarget::Path(String::from_str(p)))
        }
    } else if args.len() > 2 {
        let mut msg = String::from_str("ERR cd: too many arguments for cd; ");
        msg.append(args[2]);
        msg.append(" is invalid");
        assert(w[2] == args@[2]@);
        Err(msg)
    } else {
        Err(String::from_str("unreachable"))
    }
}

// ---------------------------------------------------------------------------
// history
// ---------------------------------------------------------------------------

/// What `history` is asked to do.
#[derive(PartialEq, Eq, Structural, Clone, Copy, Debug)]
pub enum HistoryRequest {
    /// Show the last entries.
    List,
    /// Forget every entry.
    Clear,
}

/// How many entries `history` shows at most.
pub const HISTORY_SHOWN: usize = 15;

/// `c` is the letter `w`, in either case (for the letters A to Z).
pub open spec fn same_letter(c: char, w: char) -> bool {
    c == w || ('A' <= c && c <= 'Z' && (c as u32) + 32 == (w as u32))
}

/// `s` is `word`, a word in lower case, up to the case of the letters A to Z.
pub open spec fn eq_ignore_case(s: Seq<char>, word: Seq<char>) -> bool {
    s.len() == word.len() && forall|i: int| 0 <= i < s.len() ==> same_letter(#[trigger] s[i], word[i])
}

/// The message for an argument of `history` other than `clear`.
pub open spec fn history_bad_arg_msg(arg: Seq<char>) -> Seq<char> {
    "unrecognized history parameter "@ + arg
}

/// What `history` does with its words (the first is `history` itself).
pub open spec fn history_spec(args: Seq<Seq<char>>) -> Result<HistoryRequest, Seq<char>> {
    if args.len() > 1 {
        if eq_ignore_case(args[1], "clear"@) {
            Ok(HistoryRequest::Clear)
        } else {
            Err(history_bad_arg_msg(args[1]))
        }
    } else {
        Ok(HistoryRequest::List)
    }
}

/// What `history` is asked to do, from the words of the command: with an
/// argument, it must be `clear` in any case of its letters.
pub fn history_request(args: &Vec<&str>) -> (r: Result<HistoryRequest, String>)
    ensures
        match r {
            Ok(h) => history_spec(words_view(args@)) == Ok::<HistoryRequest, Seq<char>>(h),
            Err(e) => history_spec(words_view(args@)) == Err::<HistoryRequest, Seq<char>>(e@),
        },
{
    let ghost w = words_view(args@);
    if args.len() > 1 {
        let a: &str = args[1];
        assert(w[1] == a@);
        let word = "clear";
        proof {
            reveal_strlit("clear");
            assert(word@.len() == 5);
        }
        let n = a.unicode_len();
        let mut same = n == 5;
        if same {
            let mut i: usize = 0;
            while i < 5
                invariant
                    n == 5,
                    n == a@.len(),
                    word@ == "clear"@,
                    word@.len() == 5,
                    i <= 5,
                    same == forall|j: int| 0 <= j < i ==> same_letter(#[trigger] a@[j], word@[j]),
                decreases 5 - i,
            {
                let c = a.get_char(i);
                let w = word.get_char(i);
                let ok = c == w || ('A' <= c && c <= 'Z' && (c as u32) + 32 == (w as u32));
                same = same && ok;
                i = i + 1;
            }
        }
        if same {
            Ok(HistoryRequest::Clear)
        } else {
            let mut msg = String::from_str("unrecognized history parameter ");
            msg.append(a);
            Err(msg)
        }
    } else {
        Ok(HistoryRequest::List)
    }
}

/// The lines `ls`, each but the last followed by a newline.
pub open spec fn join_lines(ls: Seq<Seq<char>>) -> Seq<char>
    decreases ls.len(),
{
    if ls.len() == 0 {
        Seq::empty()
    } else if ls.len() == 1 {
        ls[0]
    } else {
        join_lines(ls.drop_last()) + "\n"@ + ls.last()
    }
}

/// The last `HISTORY_SHOWN` entries, or all of them when there are fewer.
pub open spec fn shown_entries(entries: Seq<Seq<char>>) -> Seq<Seq<char>> {
    if entries.len() > HISTORY_SHOWN {
        entries.skip(entries.len() - HISTORY_SHOWN)
    } else {
        entries
    }
}

/// What `history` prints: its last entries, one per line.
pub fn history_listing(entries: &Vec<String>) -> (r: String)
    ensures
        r@ == join_lines(shown_entries(Seq::new(entries@.len(), |i: int| entries@[i]@))),
{
    let ghost all = Seq::new(entries@.len(), |i: int| entries@[i]@);
    let len = entries.len();
    let start = if len > HISTORY_SHOWN { len - HISTORY_SHOWN } else { 0 };
    let ghost shown = shown_entries(all);
    assert(shown =~= all.subrange(start as int, len as int));
    let mut out = String::new();
    let mut i = start;
    proof {
        reveal_strlit("\n");
    }
    while i < len
        invariant
            start <= i <= len,
            len == entries@.len(),
            all == Seq::new(entries@.len(), |i: int| entries@[i]@),
            out@ == join_lines(all.subrange(start as int, i as int)),
            "\n"@ == seq!['\n'],
        decreases len - i,
    {
        let ghost prev = all.subrange(start as int, i as int);
        let ghost next = all.subrange(start as int, i + 1);
        assert(next.drop_last() =~= prev);
        assert(next.last() == all[i as int]);
        if i > start {
            out.append("\n");
        } else {
            assert(prev.len() == 0);
            assert(Seq::<char>::empty() + all[i as int] =~= all[i as int]);
        }
        out.append(entries[i].as_str());
        i = i + 1;
    }
    out
}

} // verus!
