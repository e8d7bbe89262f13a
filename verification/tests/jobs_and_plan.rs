use mumsh::executor::{
    is_background_marker, plan_single_cmd, step_action, try_run_builtin, which_report, Builtin,
    PgidAction, RedirAction, StepAction,
};
use mumsh::input::{remove_multiline_prompt, InputCheck, InputDecision};
use mumsh::mumsh::{apply_outcome, apply_poll_outcomes, Mumsh, WaitOutcome};
use mumsh::parse_line::tokens_check_redir_to;
use mumsh::strutil::{i32_to_string, parse_i32};
use mumsh::types::{CmdlineInfo, JobStatus, QuoteKind, Token, Tokens};

fn toks(words: &[&str]) -> Tokens {
    words.iter().map(|w| Token { kind: QuoteKind::NoQuote, text: w.to_string() }).collect()
}

#[test]
fn job_ids_fill_smallest_gap() {
    let mut sh = Mumsh::new();
    sh.insert_job(100, 500);
    sh.insert_job(200, 501);
    sh.insert_job(300, 502);
    let ids: Vec<i32> = sh.jobs.iter().map(|j| j.id).collect();
    assert_eq!(ids, vec![1, 2, 3]);
    // the job for pgid 200 finishes and leaves the table
    let idx = sh.jobs.iter().position(|j| j.pgid == 200).unwrap();
    let advance = apply_outcome(&mut sh.jobs[idx], 0, WaitOutcome::Exited(0));
    assert!(!advance);
    let lines = sh.remove_finished_jobs();
    assert_eq!(lines.len(), 1);
    assert_eq!(sh.jobs.len(), 2);
    // a new job takes the smallest unused id, 2, not 4
    sh.insert_job(400, 503);
    let new_job = sh.jobs.iter().find(|j| j.pgid == 400).unwrap();
    assert_eq!(new_job.id, 2);
}

#[test]
fn insert_existing_pgid_appends_member() {
    let mut sh = Mumsh::new();
    sh.insert_job(100, 500);
    sh.insert_job(100, 501);
    assert_eq!(sh.jobs.len(), 1);
    assert_eq!(sh.jobs[0].pids, vec![500, 501]);
    assert_eq!(sh.jobs[0].status.len(), 2);
    assert_eq!(sh.jobs[0].status[1], (501, JobStatus::Running));
}

#[test]
fn still_alive_outcome_changes_nothing() {
    let mut sh = Mumsh::new();
    sh.insert_job(100, 500);
    let before_pids = sh.jobs[0].pids.clone();
    let before_status = sh.jobs[0].status.clone();
    let advance = apply_outcome(&mut sh.jobs[0], 0, WaitOutcome::StillAlive);
    assert!(advance);
    assert_eq!(sh.jobs[0].pids, before_pids);
    assert_eq!(sh.jobs[0].status, before_status);
    // polling with no change is a no-op: nothing is removed, nothing reported
    let lines = sh.remove_finished_jobs();
    assert!(lines.is_empty());
    assert_eq!(sh.jobs.len(), 1);
}

#[test]
fn stopped_member_stays_in_job() {
    let mut sh = Mumsh::new();
    sh.insert_job(100, 500);
    let advance = apply_outcome(&mut sh.jobs[0], 0, WaitOutcome::Stopped(false));
    assert!(advance);
    assert_eq!(sh.jobs[0].pids, vec![500]);
    assert_eq!(sh.jobs[0].status[0], (500, JobStatus::Stopped));
    // a stopped job is retained by the sweep
    let lines = sh.remove_finished_jobs();
    assert!(lines.is_empty());
    assert_eq!(sh.jobs.len(), 1);
}

#[test]
fn job_leaves_table_only_when_empty() {
    let mut sh = Mumsh::new();
    sh.insert_job(100, 500);
    sh.insert_job(100, 501);
    assert!(!apply_outcome(&mut sh.jobs[0], 0, WaitOutcome::Exited(0)));
    // one member still runs: the job stays
    let lines = sh.remove_finished_jobs();
    assert!(lines.is_empty());
    assert_eq!(sh.jobs.len(), 1);
    assert_eq!(sh.jobs[0].pids, vec![501]);
    assert!(!apply_outcome(&mut sh.jobs[0], 0, WaitOutcome::Exited(3)));
    let lines = sh.remove_finished_jobs();
    assert_eq!(sh.jobs.len(), 0);
    assert_eq!(lines.len(), 2);
    let head = format!("{}{}", "[1]", " ".repeat(3));
    let done_col = format!("{}{}", "done", " ".repeat(11));
    let exit_col = format!("{}{}", "exit 3", " ".repeat(9));
    assert_eq!(lines[0], format!("{}{}  500", head, done_col));
    assert_eq!(lines[1], format!("{}{}  501", " ".repeat(6), exit_col));
}

#[test]
fn status_report_groups_consecutive_statuses() {
    let mut sh = Mumsh::new();
    sh.insert_job(100, 10);
    sh.insert_job(100, 11);
    sh.insert_job(100, 12);
    assert!(!apply_outcome(&mut sh.jobs[0], 0, WaitOutcome::Exited(0)));
    assert!(!apply_outcome(&mut sh.jobs[0], 0, WaitOutcome::Exited(0)));
    assert!(!apply_outcome(&mut sh.jobs[0], 0, WaitOutcome::Exited(1)));
    let lines = sh.jobs[0].status_lines();
    assert_eq!(lines.len(), 2);
    let done_col = format!("{}{}", "done", " ".repeat(11));
    let exit_col = format!("{}{}", "exit 1", " ".repeat(9));
    assert_eq!(lines[0], format!("[1]   {}  10  11", done_col));
    assert_eq!(lines[1], format!("{}{}  12", " ".repeat(6), exit_col));
}

#[test]
fn job_announcement_line() {
    let mut sh = Mumsh::new();
    sh.insert_job(100, 500);
    sh.insert_job(100, 501);
    let line = sh.job_line(100).unwrap();
    assert_eq!(line, "[1] 500 501");
    assert!(sh.job_line(999).is_none());
}

#[test]
fn builtin_dispatch() {
    let cd = tokens_check_redir_to(&toks(&["cd", "/tmp"])).unwrap();
    assert_eq!(try_run_builtin(&cd), Some(Builtin::Cd));
    let which = tokens_check_redir_to(&toks(&["which", "ls"])).unwrap();
    assert_eq!(try_run_builtin(&which), Some(Builtin::Which));
    let other = tokens_check_redir_to(&toks(&["ls"])).unwrap();
    assert_eq!(try_run_builtin(&other), None);
}

#[test]
fn step_actions_short_circuit() {
    let and = "&&".to_string();
    let or = "||".to_string();
    let semi = ";".to_string();
    let cmd = "echo hi".to_string();
    assert_eq!(step_action(&and, 1), StepAction::Stop);
    assert_eq!(step_action(&and, 0), StepAction::Skip);
    assert_eq!(step_action(&or, 0), StepAction::Stop);
    assert_eq!(step_action(&or, 1), StepAction::Skip);
    assert_eq!(step_action(&semi, 7), StepAction::Skip);
    assert_eq!(step_action(&cmd, 0), StepAction::Execute);
    let amp = "&".to_string();
    assert_eq!(step_action(&amp, 0), StepAction::Skip);
    assert!(is_background_marker(&amp));
    assert!(!is_background_marker(&and));
}

#[test]
fn which_reports_builtins_and_declines_the_rest() {
    // every argument names a builtin: fully handled
    let all = tokens_check_redir_to(&toks(&["which", "cd", "which"])).unwrap();
    let r = which_report(&all);
    assert!(r.fully_handled);
    assert_eq!(r.lines, vec!["cd: shell built-in command", "which: shell built-in command"]);
    let res: Vec<&str> = r.residual.iter().map(|t| t.text.as_str()).collect();
    assert_eq!(res, vec!["which"]);
    // a non-builtin argument declines: the residual argv execs the real which
    let mixed = tokens_check_redir_to(&toks(&["which", "cd", "ls"])).unwrap();
    let r = which_report(&mixed);
    assert!(!r.fully_handled);
    assert_eq!(r.lines, vec!["cd: shell built-in command"]);
    let res: Vec<&str> = r.residual.iter().map(|t| t.text.as_str()).collect();
    assert_eq!(res, vec!["which", "ls"]);
    // no arguments: handled with nothing to report
    let bare = tokens_check_redir_to(&toks(&["which"])).unwrap();
    let r = which_report(&bare);
    assert!(r.fully_handled);
    assert!(r.lines.is_empty());
}

#[test]
fn poll_with_no_state_change_is_a_no_op() {
    let mut sh = Mumsh::new();
    sh.insert_job(100, 500);
    sh.insert_job(100, 501);
    let before_pids = sh.jobs[0].pids.clone();
    let before_status = sh.jobs[0].status.clone();
    let outcomes = vec![WaitOutcome::StillAlive, WaitOutcome::StillAlive];
    apply_poll_outcomes(&mut sh.jobs[0], &outcomes);
    assert_eq!(sh.jobs[0].pids, before_pids);
    assert_eq!(sh.jobs[0].status, before_status);
}

#[test]
fn poll_applies_mixed_outcomes_in_member_order() {
    let mut sh = Mumsh::new();
    sh.insert_job(100, 500);
    sh.insert_job(100, 501);
    sh.insert_job(100, 502);
    let outcomes = vec![
        WaitOutcome::Exited(0),
        WaitOutcome::Stopped(false),
        WaitOutcome::StillAlive,
    ];
    apply_poll_outcomes(&mut sh.jobs[0], &outcomes);
    assert_eq!(sh.jobs[0].pids, vec![501, 502]);
    assert_eq!(sh.jobs[0].status[0], (500, JobStatus::Exited(0)));
    assert_eq!(sh.jobs[0].status[1], (501, JobStatus::Stopped));
    assert_eq!(sh.jobs[0].status[2], (502, JobStatus::Running));
}

#[test]
fn plan_wires_two_stage_pipeline() {
    let ci = CmdlineInfo::from("printf A | cat").unwrap();
    assert_eq!(ci.cmds.len(), 2);
    assert!(!ci.is_background);
    let pipes = vec![(3, 4)];
    let p0 = plan_single_cmd(&ci.cmds[0], 2, 0, &pipes, 0).unwrap();
    assert_eq!(p0.pgid_action, PgidAction::NewGroup);
    assert_eq!(p0.close_fds, vec![3]);
    assert_eq!(p0.stdin_dup, None);
    assert_eq!(p0.stdout_dup, Some(4));
    assert_eq!(p0.argv, vec!["printf", "A"]);
    let p1 = plan_single_cmd(&ci.cmds[1], 2, 1, &pipes, 1234).unwrap();
    assert_eq!(p1.pgid_action, PgidAction::Join(1234));
    assert_eq!(p1.close_fds, vec![4]);
    assert_eq!(p1.stdin_dup, Some(3));
    assert_eq!(p1.stdout_dup, None);
    assert_eq!(p1.argv, vec!["cat"]);
}

#[test]
fn plan_realizes_redirections_in_order() {
    let ci = CmdlineInfo::from("cmd > out 2>&1").unwrap();
    let pipes: Vec<(i32, i32)> = Vec::new();
    let p = plan_single_cmd(&ci.cmds[0], 1, 0, &pipes, 0).unwrap();
    assert_eq!(p.redirs.len(), 2);
    match &p.redirs[0] {
        RedirAction::Open { path, append, dst_fd } => {
            assert_eq!(path, "out");
            assert!(!append);
            assert_eq!(*dst_fd, 1);
        },
        other => panic!("expected an open action, got {:?}", other),
    }
    match &p.redirs[1] {
        RedirAction::Dup { src_fd, dst_fd } => {
            assert_eq!(*src_fd, 1);
            assert_eq!(*dst_fd, 2);
        },
        other => panic!("expected a dup action, got {:?}", other),
    }
}

#[test]
fn plan_rejects_empty_stage_and_nul() {
    let empty: Tokens = Vec::new();
    let cmd = tokens_check_redir_to(&empty).unwrap();
    let pipes: Vec<(i32, i32)> = Vec::new();
    assert!(plan_single_cmd(&cmd, 1, 0, &pipes, 0).is_err());
    let with_nul = tokens_check_redir_to(&toks(&["echo", "a\0b"])).unwrap();
    assert!(plan_single_cmd(&with_nul, 1, 0, &pipes, 0).is_err());
}

#[test]
fn foreground_bookkeeping_starts_clean() {
    let sh = Mumsh::new();
    assert_eq!(sh.fg_pgid, 0);
    assert_eq!(sh.current_dir, "");
    assert_eq!(sh.prev_dir, "");
    assert!(sh.jobs.is_empty());
}

#[test]
fn decimal_formatting_and_parsing() {
    assert_eq!(i32_to_string(0), "0");
    assert_eq!(i32_to_string(42), "42");
    assert_eq!(i32_to_string(-5), "-5");
    assert_eq!(i32_to_string(i32::MIN), "-2147483648");
    let chars: Vec<char> = "2".chars().collect();
    assert_eq!(parse_i32(&chars), Some(2));
    let chars: Vec<char> = "-17".chars().collect();
    assert_eq!(parse_i32(&chars), Some(-17));
    let chars: Vec<char> = "2147483648".chars().collect();
    assert_eq!(parse_i32(&chars), None);
    let chars: Vec<char> = "x1".chars().collect();
    assert_eq!(parse_i32(&chars), None);
}

#[test]
fn input_decisions() {
    let ic = InputCheck;
    assert_eq!(ic.check_line("echo hi", 1), InputDecision::Accept);
    match ic.check_line("echo 'a", 1) {
        InputDecision::Prompt(p) => assert_eq!(p, "dquote> "),
        other => panic!("expected a prompt, got {:?}", other),
    }
    match ic.check_line("ls &&", 1) {
        InputDecision::Prompt(p) => assert_eq!(p, "cmdand> "),
        other => panic!("expected a prompt, got {:?}", other),
    }
    match ic.check_line("ls ||", 1) {
        InputDecision::Prompt(p) => assert_eq!(p, "cmdor> "),
        other => panic!("expected a prompt, got {:?}", other),
    }
    match ic.check_line("cat << EOF", 1) {
        InputDecision::Prompt(p) => assert_eq!(p, "heredoc> "),
        other => panic!("expected a prompt, got {:?}", other),
    }
    match ic.check_line("echo ${x", 1) {
        InputDecision::Prompt(p) => assert_eq!(p, "braceparam> "),
        other => panic!("expected a prompt, got {:?}", other),
    }
    match ic.check_line("echo $(x", 1) {
        InputDecision::Prompt(p) => assert_eq!(p, "cmdsubst> "),
        other => panic!("expected a prompt, got {:?}", other),
    }
    match ic.check_line("&& ls", 1) {
        InputDecision::Reject(t) => assert_eq!(t, "&&"),
        other => panic!("expected a rejection, got {:?}", other),
    }
    assert_eq!(ic.check_line("echo 'a", 0), InputDecision::NoAction);
}

#[test]
fn multiline_prompts_are_stripped() {
    assert_eq!(remove_multiline_prompt("echo 'a\ndquote> b'"), "echo 'ab'");
    assert_eq!(remove_multiline_prompt("ls &&\ncmdand> pwd"), "ls &&pwd");
    assert_eq!(remove_multiline_prompt("cat << E\nheredoc> x\nheredoc> E"), "cat << E\nx\nE");
    assert_eq!(remove_multiline_prompt("a\nbraceparam> b\ncmdsubst> c\ncmdor> d\n> e"), "abcde");
    assert_eq!(remove_multiline_prompt("plain"), "plain");
}
