use vstd::prelude::*;

use crate::parse_line::{
    check_split_result, line_complete_spec, line_to_tokens, line_unmatched_spec, split_line,
    split_line_spec, check_split_spec, SplitError, SplitVerdict,
};
use crate::strutil::{chars_to_string, str_eq, str_to_chars};
use vstd::string::StrSliceExecFns;

verus! {

/// `s` with every non-overlapping occurrence of `pat` (leftmost first)
/// replaced by `to`, as `str::replace` does it.
pub open spec fn replace_seq(s: Seq<char>, pat: Seq<char>, to: Seq<char>) -> Seq<char>
    decreases s.len(),
{
    if pat.len() == 0 || s.len() < pat.len() {
        s
    } else if s.take(pat.len() as int) == pat {
        to + replace_seq(s.skip(pat.len() as int), pat, to)
    } else {
        seq![s[0]] + replace_seq(s.skip(1), pat, to)
    }
}

fn is_prefix_at(s: &Vec<char>, i: usize, pat: &Vec<char>) -> (r: bool)
    requires
        i <= s@.len(),
    ensures
        r == (i + pat@.len() <= s@.len() && s@.subrange(i as int, i + pat@.len()) == pat@),
{
    let m = pat.len();
    let n = s.len();
    if n - i < m {
        proof {
            assert(i + pat@.len() > s@.len());
        }
        return false;
    }
    let mut j: usize = 0;
    while j < m
        invariant
            0 <= j <= m,
            m == pat@.len(),
            n == s@.len(),
            i + m <= n,
            forall|k: int| 0 <= k < j ==> s@[i + k] == pat@[k],
        decreases m - j,
    {
        if s[i + j] != pat[j] {
            proof {
                assert(s@.subrange(i as int, i + pat@.len())[j as int] != pat@[j as int]);
            }
            return false;
        }
        j = j + 1;
    }
    proof {
        assert(s@.subrange(i as int, i + pat@.len()) =~= pat@);
    }
    true
}

/// Replace every occurrence of `pat` in `s` by `to`, leftmost first, without
/// rescanning replaced text.
fn replace_chars(s: &Vec<char>, pat: &Vec<char>, to: &Vec<char>) -> (r: Vec<char>)
    requires
        pat@.len() > 0,
    ensures
        r@ == replace_seq(s@, pat@, to@),
{
    let n = s.len();
    let mut out: Vec<char> = Vec::new();
    let mut i: usize = 0;
    proof {
        assert(s@.skip(0) =~= s@);
        assert(out@ + replace_seq(s@, pat@, to@) =~= replace_seq(s@, pat@, to@));
    }
    while i < n
        invariant
            0 <= i <= n,
            n == s@.len(),
            pat@.len() > 0,
            out@ + replace_seq(s@.skip(i as int), pat@, to@) == replace_seq(s@, pat@, to@),
        decreases n - i,
    {
        let ghost rest = s@.skip(i as int);
        let ghost out0 = out@;
        if is_prefix_at(s, i, pat) {
            crate::strutil::chars_append(&mut out, to);
            proof {
                assert(rest.take(pat@.len() as int) =~= s@.subrange(i as int, i + pat@.len()));
                assert(rest.skip(pat@.len() as int) =~= s@.skip(i + pat@.len()));
                assert(out@ + replace_seq(s@.skip(i + pat@.len()), pat@, to@) =~= out0
                    + replace_seq(rest, pat@, to@));
            }
            i = i + pat.len();
        } else {
            out.push(s[i]);
            proof {
                if rest.len() >= pat@.len() {
                    assert(rest.take(pat@.len() as int) =~= s@.subrange(i as int, i + pat@.len()));
                    assert(rest.take(pat@.len() as int) != pat@);
                    assert(rest[0] == s@[i as int]);
                    assert(rest.skip(1) =~= s@.skip(i + 1));
                    assert(out@ + replace_seq(s@.skip(i + 1), pat@, to@) =~= out0 + replace_seq(
                        rest,
                        pat@,
                        to@,
                    ));
                } else {
                    assert(replace_seq(rest, pat@, to@) == rest);
                    assert(replace_seq(s@.skip(i + 1), pat@, to@) == s@.skip(i + 1)) by {
                        assert(s@.skip(i + 1).len() < pat@.len());
                    }
                    assert(rest =~= seq![s@[i as int]] + s@.skip(i + 1));
                    assert(out@ + s@.skip(i + 1) =~= out0 + rest);
                }
            }
            i = i + 1;
        }
    }
    proof {
        assert(s@.skip(n as int) =~= Seq::<char>::empty());
        assert(replace_seq(Seq::<char>::empty(), pat@, to@) == Seq::<char>::empty());
        assert(out@ =~= out@ + replace_seq(s@.skip(n as int), pat@, to@));
    }
    out
}

/// The line with every continuation-prompt insertion removed: the prompts the
/// editor added at line breaks disappear, and a heredoc continuation keeps its
/// newline.
pub open spec fn strip_prompts_spec(s: Seq<char>) -> Seq<char> {
    let s1 = replace_seq(s, "\ndquote> "@, Seq::<char>::empty());
    let s2 = replace_seq(s1, "\nbraceparam> "@, Seq::<char>::empty());
    let s3 = replace_seq(s2, "\ncmdsubst> "@, Seq::<char>::empty());
    let s4 = replace_seq(s3, "\ncmdand> "@, Seq::<char>::empty());
    let s5 = replace_seq(s4, "\ncmdor> "@, Seq::<char>::empty());
    let s6 = replace_seq(s5, "\nheredoc> "@, "\n"@);
    replace_seq(s6, "\n> "@, Seq::<char>::empty())
}

/// Remove the multi-line continuation prompts from an edited line before
/// running it.
pub fn remove_multiline_prompt(line: &str) -> (r: String)
    ensures
        r@ == strip_prompts_spec(line@),
{
    proof {
        reveal_strlit("\ndquote> ");
        reveal_strlit("\nbraceparam> ");
        reveal_strlit("\ncmdsubst> ");
        reveal_strlit("\ncmdand> ");
        reveal_strlit("\ncmdor> ");
        reveal_strlit("\nheredoc> ");
        reveal_strlit("\n> ");
        reveal_strlit("\n");
    }
    let empty: Vec<char> = Vec::new();
    let nl = str_to_chars("\n");
    let cur0 = str_to_chars(line);
    let p1 = str_to_chars("\ndquote> ");
    let cur1 = replace_chars(&cur0, &p1, &empty);
    let p2 = str_to_chars("\nbraceparam> ");
    let cur2 = replace_chars(&cur1, &p2, &empty);
    let p3 = str_to_chars("\ncmdsubst> ");
    let cur3 = replace_chars(&cur2, &p3, &empty);
    let p4 = str_to_chars("\ncmdand> ");
    let cur4 = replace_chars(&cur3, &p4, &empty);
    let p5 = str_to_chars("\ncmdor> ");
    let cur5 = replace_chars(&cur4, &p5, &empty);
    let p6 = str_to_chars("\nheredoc> ");
    let cur6 = replace_chars(&cur5, &p6, &nl);
    let p7 = str_to_chars("\n> ");
    let cur7 = replace_chars(&cur6, &p7, &empty);
    chars_to_string(&cur7)
}

/// The reply `InputCheck` owes the line editor when the user hits enter.
#[derive(Clone, Debug, PartialEq)]
pub enum InputDecision {
    /// The line is complete: submit it.
    Accept,
    /// The line is invalid (leading or consecutive operators): reject it,
    /// carrying the offending operator.
    Reject(String),
    /// The line awaits more input: insert a newline and this continuation
    /// prompt.
    Prompt(String),
    /// Nothing to do.
    NoAction,
}

/// The continuation prompt for a trailing operator.
pub open spec fn op_prompt(t: Seq<char>) -> Seq<char> {
    if t == seq!['&', '&'] {
        "cmdand> "@
    } else if t == seq!['|', '|'] {
        "cmdor> "@
    } else {
        "heredoc> "@
    }
}

/// The continuation prompt for an incomplete line: pending heredoc first,
/// then by the most recently opened quote or substitution character.
pub open spec fn incomplete_prompt(line: Seq<char>) -> Seq<char> {
    let hd = line_complete_spec(line).1;
    let un = line_unmatched_spec(line);
    if hd.len() > 0 {
        "heredoc> "@
    } else if un.len() > 0 && (un.last() == '"' || un.last() == '\'' || un.last() == '`') {
        "dquote> "@
    } else if un.len() > 0 && un.last() == '{' {
        "braceparam> "@
    } else if un.len() > 0 && un.last() == '(' {
        "cmdsubst> "@
    } else {
        "> "@
    }
}

/// What the decision owes on the path where no operator continuation applies:
/// accept a complete line; prompt for an incomplete one when the editor asked
/// for action; otherwise do nothing.
pub open spec fn completion_decision_matches(r: InputDecision, line: Seq<char>, count: int) -> bool {
    if line_complete_spec(line).0 {
        r == InputDecision::Accept
    } else if count > 0 {
        r matches InputDecision::Prompt(p) && p@ == incomplete_prompt(line)
    } else {
        r == InputDecision::NoAction
    }
}

/// Checks whether the edited line is ready to run when the user hits enter,
/// and selects the continuation prompt when it is not.
pub struct InputCheck;

impl InputCheck {
    /// Decide what to do with the line in the editor's buffer: reject an
    /// invalid line; prompt for continuation after a trailing `&&`/`||` or
    /// heredoc opener, or inside an open quote, substitution or heredoc;
    /// accept a complete line.
    pub fn check_line(&self, buf: &str, count: i32) -> (r: InputDecision)
        ensures
            ({
                let v = check_split_spec(split_line_spec(buf@));
                match v {
                    SplitVerdict::Invalid(t) => r matches InputDecision::Reject(s) && s@ == t,
                    SplitVerdict::Incomplete(t) => if count > 0 {
                        r matches InputDecision::Prompt(p) && p@ == op_prompt(t)
                    } else {
                        completion_decision_matches(r, buf@, count as int)
                    },
                    SplitVerdict::Accept => completion_decision_matches(r, buf@, count as int),
                }
            }),
    {
        proof {
            reveal_strlit("&&");
            reveal_strlit("||");
            assert("&&"@ =~= seq!['&', '&']);
            assert("||"@ =~= seq!['|', '|']);
        }
        let segs = split_line(buf);
        match check_split_result(&segs) {
            Err(SplitError::Invalid(t)) => {
                return InputDecision::Reject(t);
            },
            Err(SplitError::Incomplete(t)) => {
                if count > 0 {
                    let p: &str = if str_eq(t.as_str(), "&&") {
                        "cmdand> "
                    } else if str_eq(t.as_str(), "||") {
                        "cmdor> "
                    } else {
                        "heredoc> "
                    };
                    return InputDecision::Prompt(String::from_str(p));
                }
            },
            Ok(()) => {},
        }
        let li = line_to_tokens(buf);
        if li.is_complete {
            InputDecision::Accept
        } else if count > 0 {
            let un = li.unmatched.as_str();
            let n = un.unicode_len();
            let p: &str = if li.here_doc.as_str().unicode_len() > 0 {
                "heredoc> "
            } else if n > 0 && {
                let c = un.get_char(n - 1);
                c == '"' || c == '\'' || c == '`'
            } {
                "dquote> "
            } else if n > 0 && un.get_char(n - 1) == '{' {
                "braceparam> "
            } else if n > 0 && un.get_char(n - 1) == '(' {
                "cmdsubst> "
            } else {
                "> "
            };
            InputDecision::Prompt(String::from_str(p))
        } else {
            InputDecision::NoAction
        }
    }
}

} // verus!
