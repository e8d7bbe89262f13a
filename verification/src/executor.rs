use vstd::prelude::*;

use crate::strutil::str_to_chars;
use crate::types::{str_views, token_views, CmdInfo, QuoteKind, RedirKind, RedirTo, Tokens};
use vstd::string::StrSliceExecFns;

verus! {

/// The shell commands handled in-process instead of by fork and exec.
#[derive(Clone, Copy, PartialEq, Eq, Structural, Debug)]
pub enum Builtin {
    Cd,
    Which,
}

/// Decide whether a stage is dispatched to a builtin: its first argv token
/// names one. The caller runs the builtin itself; a stage with no recognized
/// name falls through to fork and exec, and the which builtin may still
/// decline part of its stage (see `which_report`).
pub fn try_run_builtin(cmd_info: &CmdInfo) -> (r: Option<Builtin>)
    ensures
        ({
            let toks = token_views(cmd_info.tokens@);
            if toks.len() == 0 {
                r is None
            } else if toks[0].1 == seq!['c', 'd'] {
                r == Some(Builtin::Cd)
            } else if toks[0].1 == seq!['w', 'h', 'i', 'c', 'h'] {
                r == Some(Builtin::Which)
            } else {
                r is None
            }
        }),
{
    if cmd_info.tokens.len() == 0 {
        return None;
    }
    let first = &cmd_info.tokens[0];
    proof {
        reveal_strlit("cd");
        reveal_strlit("which");
        assert("cd"@ =~= seq!['c', 'd']);
        assert("which"@ =~= seq!['w', 'h', 'i', 'c', 'h']);
        assert(token_views(cmd_info.tokens@)[0] == cmd_info.tokens@[0]@);
    }
    if crate::strutil::str_eq(first.text.as_str(), "cd") {
        Some(Builtin::Cd)
    } else if crate::strutil::str_eq(first.text.as_str(), "which") {
        Some(Builtin::Which)
    } else {
        None
    }
}

/// What a segment of a split line asks the run loop to do, given the previous
/// segment's exit status.
#[derive(Clone, Copy, PartialEq, Eq, Structural, Debug)]
pub enum StepAction {
    /// Run the segment as a pipeline.
    Execute,
    /// An operator segment: move on.
    Skip,
    /// Short-circuit: stop running this line.
    Stop,
}

/// The run loop's decision for one segment: `&&` stops the line after a
/// failure, `||` stops it after a success, operator segments (including the
/// background marker `&`) are skipped, and everything else runs.
pub fn step_action(token: &String, status: i32) -> (r: StepAction)
    ensures
        ({
            let t = token@;
            if t == seq!['&', '&'] && status != 0 {
                r == StepAction::Stop
            } else if t == seq!['|', '|'] && status == 0 {
                r == StepAction::Stop
            } else if t == seq!['&', '&'] || t == seq!['|', '|'] || t == seq![';'] || t == seq![
                '&',
            ] {
                r == StepAction::Skip
            } else {
                r == StepAction::Execute
            }
        }),
{
    proof {
        reveal_strlit("&&");
        reveal_strlit("||");
        reveal_strlit(";");
        reveal_strlit("&");
        assert("&&"@ =~= seq!['&', '&']);
        assert("||"@ =~= seq!['|', '|']);
        assert(";"@ =~= seq![';']);
        assert("&"@ =~= seq!['&']);
    }
    let is_and = crate::strutil::str_eq(token.as_str(), "&&");
    let is_or = crate::strutil::str_eq(token.as_str(), "||");
    let is_semi = crate::strutil::str_eq(token.as_str(), ";");
    let is_amp = crate::strutil::str_eq(token.as_str(), "&");
    if is_and && status != 0 {
        StepAction::Stop
    } else if is_or && status == 0 {
        StepAction::Stop
    } else if is_and || is_or || is_semi || is_amp {
        StepAction::Skip
    } else {
        StepAction::Execute
    }
}

/// Whether a segment is the background marker `&` the splitter emits after a
/// command; the run loop then runs the preceding command in the background.
pub fn is_background_marker(token: &String) -> (r: bool)
    ensures
        r == (token@ == seq!['&']),
{
    proof {
        reveal_strlit("&");
        assert("&"@ =~= seq!['&']);
    }
    crate::strutil::str_eq(token.as_str(), "&")
}

/// What the which builtin decides for one stage: the lines it prints for
/// arguments that name builtins, the residual argv (head plus the arguments
/// that named none) for the fall-through path lookup, and whether it fully
/// handled the stage. When it did not, the executor falls through to exec
/// the residual argv.
pub struct WhichOutcome {
    pub lines: Vec<String>,
    pub residual: Tokens,
    pub fully_handled: bool,
}

pub open spec fn is_builtin_name(t: (QuoteKind, Seq<char>)) -> bool {
    t.1 == seq!['c', 'd'] || t.1 == seq!['w', 'h', 'i', 'c', 'h']
}

/// The report lines for the arguments `toks[i..]`: one line per argument that
/// names a builtin.
pub open spec fn which_lines(toks: Seq<(QuoteKind, Seq<char>)>, i: int) -> Seq<Seq<char>>
    decreases toks.len() - i,
{
    if i < 0 || i >= toks.len() {
        Seq::<Seq<char>>::empty()
    } else if is_builtin_name(toks[i]) {
        seq![toks[i].1 + ": shell built-in command"@] + which_lines(toks, i + 1)
    } else {
        which_lines(toks, i + 1)
    }
}

/// The arguments of `toks[i..]` that name no builtin, in order.
pub open spec fn which_residual_args(toks: Seq<(QuoteKind, Seq<char>)>, i: int) -> Seq<
    (QuoteKind, Seq<char>),
>
    decreases toks.len() - i,
{
    if i < 0 || i >= toks.len() {
        Seq::<(QuoteKind, Seq<char>)>::empty()
    } else if is_builtin_name(toks[i]) {
        which_residual_args(toks, i + 1)
    } else {
        seq![toks[i]] + which_residual_args(toks, i + 1)
    }
}

/// Decide the which builtin's work for a stage: report each argument that
/// names a builtin, keep the rest as a residual argv, and fully handle the
/// stage exactly when no argument is left over.
pub fn which_report(cmd_info: &CmdInfo) -> (r: WhichOutcome)
    ensures
        ({
            let tv = token_views(cmd_info.tokens@);
            if tv.len() == 0 {
                r.lines@.len() == 0 && r.residual@.len() == 0 && r.fully_handled
            } else {
                str_views(r.lines@) == which_lines(tv, 1) && token_views(r.residual@) == seq![
                    tv[0],
                ] + which_residual_args(tv, 1) && r.fully_handled == (which_residual_args(
                    tv,
                    1,
                ).len() == 0)
            }
        }),
{
    let ghost tv = token_views(cmd_info.tokens@);
    let n = cmd_info.tokens.len();
    let mut lines: Vec<String> = Vec::new();
    let mut residual: Tokens = Vec::new();
    if n == 0 {
        return WhichOutcome { lines, residual, fully_handled: true };
    }
    proof {
        reveal_strlit("cd");
        reveal_strlit("which");
        reveal_strlit(": shell built-in command");
        assert(tv[0] == cmd_info.tokens@[0]@);
    }
    residual.push(crate::types::token_dup(&cmd_info.tokens[0]));
    proof {
        assert(str_views(lines@) + which_lines(tv, 1) =~~= which_lines(tv, 1));
        assert(token_views(residual@) + which_residual_args(tv, 1) =~~= seq![tv[0]]
            + which_residual_args(tv, 1));
    }
    let mut i: usize = 1;
    while i < n
        invariant
            1 <= i <= n,
            n == cmd_info.tokens@.len(),
            tv == token_views(cmd_info.tokens@),
            str_views(lines@) + which_lines(tv, i as int) == which_lines(tv, 1),
            token_views(residual@) + which_residual_args(tv, i as int) == seq![tv[0]]
                + which_residual_args(tv, 1),
        decreases n - i,
    {
        proof {
            reveal_strlit("cd");
            reveal_strlit("which");
            reveal_strlit(": shell built-in command");
            assert("cd"@ =~= seq!['c', 'd']);
            assert("which"@ =~= seq!['w', 'h', 'i', 'c', 'h']);
            assert(tv[i as int] == cmd_info.tokens@[i as int]@);
        }
        let t = &cmd_info.tokens[i];
        let named = crate::strutil::str_eq(t.text.as_str(), "cd") || crate::strutil::str_eq(
            t.text.as_str(),
            "which",
        );
        if named {
            let ghost lines0 = str_views(lines@);
            let mut lv = str_to_chars(t.text.as_str());
            let suffix = str_to_chars(": shell built-in command");
            crate::strutil::chars_append(&mut lv, &suffix);
            lines.push(crate::strutil::chars_to_string(&lv));
            proof {
                assert(lv@ == tv[i as int].1 + ": shell built-in command"@);
                assert(str_views(lines@) =~~= lines0 + seq![tv[i as int].1
                    + ": shell built-in command"@]);
                assert(str_views(lines@) + which_lines(tv, i + 1) =~~= lines0 + which_lines(
                    tv,
                    i as int,
                ));
            }
        } else {
            let ghost res0 = token_views(residual@);
            residual.push(crate::types::token_dup(t));
            proof {
                assert(token_views(residual@) =~~= res0.push(tv[i as int]));
                assert(token_views(residual@) + which_residual_args(tv, i + 1) =~~= res0
                    + which_residual_args(tv, i as int));
            }
        }
        i = i + 1;
    }
    proof {
        assert(which_lines(tv, n as int) =~~= Seq::<Seq<char>>::empty());
        assert(which_residual_args(tv, n as int) =~~= Seq::<(QuoteKind, Seq<char>)>::empty());
        assert(str_views(lines@) =~~= which_lines(tv, 1));
        assert(token_views(residual@) =~~= seq![tv[0]] + which_residual_args(tv, 1));
    }
    let fully_handled = residual.len() == 1;
    WhichOutcome { lines, residual, fully_handled }
}

/// Where a forked stage puts itself: the first stage founds the pipeline's
/// process group; later stages join it.
#[derive(Clone, Copy, PartialEq, Eq, Structural, Debug)]
pub enum PgidAction {
    NewGroup,
    Join(i32),
}

/// One descriptor operation a forked stage performs, in plan order.
#[derive(Clone, Debug)]
pub enum RedirAction {
    /// `dup2(src_fd, dst_fd)`.
    Dup { src_fd: i32, dst_fd: i32 },
    /// Open `path` (create; truncate or append), `dup2` it onto `dst_fd`,
    /// close the opened descriptor.
    Open { path: String, append: bool, dst_fd: i32 },
}

/// Everything a forked child must do for one stage, in order: place itself in
/// its process group, apply the redirections, close every pipe descriptor it
/// does not need, wire stdin and stdout to its neighbour pipes (closing the
/// originals after duplication), then exec `argv`.
#[derive(Clone, Debug)]
pub struct StagePlan {
    pub pgid_action: PgidAction,
    pub redirs: Vec<RedirAction>,
    pub close_fds: Vec<i32>,
    pub stdin_dup: Option<i32>,
    pub stdout_dup: Option<i32>,
    pub argv: Vec<String>,
}

/// How one planned descriptor operation realizes one resolved redirection.
pub open spec fn action_matches(a: RedirAction, r: (RedirKind, int, int, Seq<char>)) -> bool {
    match r.0 {
        RedirKind::DupFd => a matches RedirAction::Dup { src_fd, dst_fd } && src_fd as int == r.2
            && dst_fd as int == r.1,
        RedirKind::Truncate => a matches RedirAction::Open { path, append, dst_fd } && !append
            && path@ == r.3 && dst_fd as int == r.1,
        RedirKind::Append => a matches RedirAction::Open { path, append, dst_fd } && append && path@
            == r.3 && dst_fd as int == r.1,
    }
}

/// The pipe descriptors a stage must close, in order: every read end except
/// the one immediately upstream, and every write end except the one
/// immediately downstream.
pub open spec fn close_list(pipes: Seq<(i32, i32)>, cmd_idx: int, i: int) -> Seq<i32>
    decreases pipes.len() - i,
{
    if i < 0 || i >= pipes.len() {
        Seq::<i32>::empty()
    } else {
        let reads = if !(cmd_idx > 0 && i == cmd_idx - 1) {
            seq![pipes[i].0]
        } else {
            Seq::<i32>::empty()
        };
        let writes = if i != cmd_idx {
            seq![pipes[i].1]
        } else {
            Seq::<i32>::empty()
        };
        reads + writes + close_list(pipes, cmd_idx, i + 1)
    }
}

/// The texts of a token sequence.
pub open spec fn token_texts(ts: Seq<(QuoteKind, Seq<char>)>) -> Seq<Seq<char>> {
    ts.map(|i: int, t: (QuoteKind, Seq<char>)| t.1)
}

pub open spec fn has_nul(s: Seq<char>) -> bool {
    exists|i: int| 0 <= i < s.len() && s[i] == '\0'
}

/// Whether any argv text or redirection path of the stage contains a NUL,
/// which the process boundary cannot carry.
pub open spec fn stage_has_nul(c: CmdInfo) -> bool {
    ||| exists|i: int|
        0 <= i < c.tokens@.len() && has_nul((#[trigger] token_views(c.tokens@)[i]).1)
    ||| (c.redir_to matches Some(rv) && exists|i: int|
        0 <= i < rv@.len() && (#[trigger] redir_views_of(rv@)[i]).0 != RedirKind::DupFd && has_nul(
            redir_views_of(rv@)[i].3,
        ))
}

pub open spec fn redir_views_of(rs: Seq<RedirTo>) -> Seq<(RedirKind, int, int, Seq<char>)> {
    crate::types::redir_views(rs)
}

fn chars_have_nul(v: &Vec<char>) -> (r: bool)
    ensures
        r == has_nul(v@),
{
    let mut i: usize = 0;
    while i < v.len()
        invariant
            0 <= i <= v@.len(),
            forall|j: int| 0 <= j < i ==> v@[j] != '\0',
        decreases v@.len() - i,
    {
        if v[i] == '\0' {
            return true;
        }
        i = i + 1;
    }
    false
}

/// Plan one pipeline stage for the fork boundary. The plan fixes the process
/// group action, realizes each resolved redirection in order, closes exactly
/// the pipe ends the stage does not need, and wires stdin to the upstream
/// pipe and stdout to the downstream one. Fails exactly when the stage has no
/// argv or an argv text or redirection path contains a NUL.
pub fn plan_single_cmd(
    cmd_info: &CmdInfo,
    cmd_num: usize,
    cmd_idx: usize,
    pipes: &Vec<(i32, i32)>,
    pgid: i32,
) -> (r: Result<StagePlan, String>)
    requires
        cmd_idx < cmd_num,
        pipes@.len() + 1 == cmd_num,
    ensures
        ({
            let toks = token_views(cmd_info.tokens@);
            if toks.len() == 0 || stage_has_nul(*cmd_info) {
                r is Err
            } else {
                r matches Ok(p) && p.pgid_action == (if cmd_idx == 0 {
                    PgidAction::NewGroup
                } else {
                    PgidAction::Join(pgid)
                }) && (match cmd_info.redir_to {
                    Some(rv) => p.redirs@.len() == rv@.len() && (forall|k: int|
                        0 <= k < rv@.len() ==> action_matches(
                            #[trigger] p.redirs@[k],
                            redir_views_of(rv@)[k],
                        )),
                    None => p.redirs@.len() == 0,
                }) && p.close_fds@ == close_list(pipes@, cmd_idx as int, 0) && p.stdin_dup == (
                if cmd_idx > 0 {
                    Some(pipes@[cmd_idx - 1].0)
                } else {
                    None::<i32>
                }) && p.stdout_dup == (if cmd_idx + 1 < cmd_num {
                    Some(pipes@[cmd_idx as int].1)
                } else {
                    None::<i32>
                }) && str_views(p.argv@) == token_texts(toks)
            }
        }),
{
    proof {
        reveal_strlit("empty command");
        reveal_strlit("nul byte in command");
    }
    let ntok = cmd_info.tokens.len();
    if ntok == 0 {
        return Err(String::from_str("empty command"));
    }
    let mut argv: Vec<String> = Vec::new();
    let mut i: usize = 0;
    while i < ntok
        invariant
            0 <= i <= ntok,
            ntok == cmd_info.tokens@.len(),
            str_views(argv@).len() == i as int,
            forall|j: int|
                0 <= j < i ==> str_views(argv@)[j] == token_texts(token_views(cmd_info.tokens@))[j],
            forall|j: int| 0 <= j < i ==> !has_nul((#[trigger] token_views(cmd_info.tokens@)[j]).1),
        decreases ntok - i,
    {
        proof {
            reveal_strlit("nul byte in command");
            assert(token_views(cmd_info.tokens@)[i as int] == cmd_info.tokens@[i as int]@);
        }
        let t = &cmd_info.tokens[i];
        let tc = str_to_chars(t.text.as_str());
        if chars_have_nul(&tc) {
            proof {
                assert(has_nul(token_views(cmd_info.tokens@)[i as int].1));
            }
            return Err(String::from_str("nul byte in command"));
        }
        let ghost pre = argv@;
        argv.push(t.text.clone());
        proof {
            assert forall|j: int| 0 <= j < i + 1 implies str_views(argv@)[j] == token_texts(
                token_views(cmd_info.tokens@),
            )[j] by {
                if j < i as int {
                    assert(argv@[j] == pre[j]);
                    assert(str_views(pre)[j] == token_texts(token_views(cmd_info.tokens@))[j]);
                } else {
                    assert(argv@[j]@ == cmd_info.tokens@[j].text@);
                }
            }
        }
        i = i + 1;
    }
    let mut redirs: Vec<RedirAction> = Vec::new();
    match &cmd_info.redir_to {
        Some(rv) => {
            let m = rv.len();
            let mut k: usize = 0;
            while k < m
                invariant
                    0 <= k <= m,
                    m == rv@.len(),
                    cmd_info.redir_to == Some(*rv),
                    redirs@.len() == k as int,
                    forall|j: int|
                        0 <= j < k ==> action_matches(
                            #[trigger] redirs@[j],
                            redir_views_of(rv@)[j],
                        ),
                    forall|j: int|
                        0 <= j < k && (#[trigger] redir_views_of(rv@)[j]).0 != RedirKind::DupFd
                            ==> !has_nul(redir_views_of(rv@)[j].3),
                decreases m - k,
            {
                proof {
                    reveal_strlit("nul byte in command");
                    assert(redir_views_of(rv@)[k as int] == rv@[k as int]@);
                }
                let rd = &rv[k];
                match rd.redir_type {
                    RedirKind::DupFd => {
                        redirs.push(RedirAction::Dup { src_fd: rd.fd_after, dst_fd: rd.fd_before });
                    },
                    RedirKind::Truncate => {
                        let pc = str_to_chars(rd.file_after.as_str());
                        if chars_have_nul(&pc) {
                            proof {
                                assert(has_nul(redir_views_of(rv@)[k as int].3));
                            }
                            return Err(String::from_str("nul byte in command"));
                        }
                        redirs.push(
                            RedirAction::Open {
                                path: rd.file_after.clone(),
                                append: false,
                                dst_fd: rd.fd_before,
                            },
                        );
                    },
                    RedirKind::Append => {
                        let pc = str_to_chars(rd.file_after.as_str());
                        if chars_have_nul(&pc) {
                            proof {
                                assert(has_nul(redir_views_of(rv@)[k as int].3));
                            }
                            return Err(String::from_str("nul byte in command"));
                        }
                        redirs.push(
                            RedirAction::Open {
                                path: rd.file_after.clone(),
                                append: true,
                                dst_fd: rd.fd_before,
                            },
                        );
                    },
                }
                k = k + 1;
            }
        },
        None => {},
    }
    let np = pipes.len();
    let mut close_fds: Vec<i32> = Vec::new();
    let mut pi: usize = 0;
    proof {
        assert(close_fds@ + close_list(pipes@, cmd_idx as int, 0) =~= close_list(
            pipes@,
            cmd_idx as int,
            0,
        ));
    }
    while pi < np
        invariant
            0 <= pi <= np,
            np == pipes@.len(),
            close_fds@ + close_list(pipes@, cmd_idx as int, pi as int) == close_list(
                pipes@,
                cmd_idx as int,
                0,
            ),
        decreases np - pi,
    {
        let ghost before = close_fds@;
        if !(cmd_idx > 0 && pi == cmd_idx - 1) {
            close_fds.push(pipes[pi].0);
        }
        if pi != cmd_idx {
            close_fds.push(pipes[pi].1);
        }
        proof {
            let reads: Seq<i32> = if !(cmd_idx > 0 && pi as int == cmd_idx - 1) {
                seq![pipes@[pi as int].0]
            } else {
                Seq::<i32>::empty()
            };
            let writes: Seq<i32> = if pi as int != cmd_idx as int {
                seq![pipes@[pi as int].1]
            } else {
                Seq::<i32>::empty()
            };
            assert(close_fds@ =~= before + (reads + writes));
            assert(close_fds@ + close_list(pipes@, cmd_idx as int, pi + 1) =~= before + close_list(
                pipes@,
                cmd_idx as int,
                pi as int,
            ));
        }
        pi = pi + 1;
    }
    proof {
        assert(close_list(pipes@, cmd_idx as int, np as int) =~= Seq::<i32>::empty());
        assert(close_fds@ =~= close_list(pipes@, cmd_idx as int, 0));
    }
    let stdin_dup: Option<i32> = if cmd_idx > 0 {
        Some(pipes[cmd_idx - 1].0)
    } else {
        None
    };
    let stdout_dup: Option<i32> = if cmd_idx + 1 < cmd_num {
        Some(pipes[cmd_idx].1)
    } else {
        None
    };
    let pgid_action = if cmd_idx == 0 {
        PgidAction::NewGroup
    } else {
        PgidAction::Join(pgid)
    };
    proof {
        assert(str_views(argv@) =~~= token_texts(token_views(cmd_info.tokens@)));
    }
    Ok(StagePlan { pgid_action, redirs, close_fds, stdin_dup, stdout_dup, argv })
}

} // verus!
