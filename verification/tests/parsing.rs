use mumsh::parse_line::{
    break_line_by_pipe, check_split_result, line_to_tokens, split_line, tokens_check_redir_to,
    SplitError,
};
use mumsh::types::{CmdlineInfo, QuoteKind, RedirKind, Token, Tokens};

fn tok(kind: QuoteKind, text: &str) -> Token {
    Token { kind, text: text.to_string() }
}

fn toks(words: &[&str]) -> Tokens {
    words.iter().map(|w| tok(QuoteKind::NoQuote, w)).collect()
}

#[test]
fn tokenize_quoted_words() {
    let r = line_to_tokens("echo \"a b\" c");
    assert!(r.is_complete);
    assert_eq!(r.unmatched, "");
    assert_eq!(r.here_doc, "");
    assert_eq!(r.tokens.len(), 3);
    assert_eq!(r.tokens[0].kind, QuoteKind::NoQuote);
    assert_eq!(r.tokens[0].text, "echo");
    assert_eq!(r.tokens[1].kind, QuoteKind::Double);
    assert_eq!(r.tokens[1].text, "a b");
    assert_eq!(r.tokens[2].kind, QuoteKind::NoQuote);
    assert_eq!(r.tokens[2].text, "c");
}

#[test]
fn tokenize_pipe_tokens() {
    let r = line_to_tokens("echo hi | wc -l");
    let texts: Vec<&str> = r.tokens.iter().map(|t| t.text.as_str()).collect();
    assert_eq!(texts, vec!["echo", "hi", "|", "wc", "-l"]);
    assert!(r.tokens.iter().all(|t| t.kind == QuoteKind::NoQuote));
}

#[test]
fn tokenize_unterminated_quote_is_incomplete() {
    let r = line_to_tokens("echo 'a b");
    assert!(!r.is_complete);
    assert_eq!(r.unmatched, "'");
    // the quoted text was not emitted as a token
    assert_eq!(r.tokens.len(), 1);
    assert_eq!(r.tokens[0].text, "echo");
}

#[test]
fn tokenize_odd_backticks_incomplete() {
    let r = line_to_tokens("echo `date` `");
    assert!(!r.is_complete);
    assert_eq!(r.unmatched, "`");
}

#[test]
fn tokenize_open_substitution_is_incomplete() {
    let r = line_to_tokens("echo $(ls");
    assert!(!r.is_complete);
    assert_eq!(r.unmatched, "(");
}

#[test]
fn tokenize_closed_substitution_is_complete() {
    let r = line_to_tokens("echo $(ls a b)");
    assert!(r.is_complete);
    let texts: Vec<&str> = r.tokens.iter().map(|t| t.text.as_str()).collect();
    assert_eq!(texts, vec!["echo", "$(ls a b)"]);
}

#[test]
fn tokenize_heredoc_pending() {
    let r = line_to_tokens("cat << EOF");
    assert!(!r.is_complete);
    assert_eq!(r.here_doc, "EOF");
    assert_eq!(r.unmatched, "");
}

#[test]
fn tokenize_heredoc_closed() {
    let r = line_to_tokens("cat << EOF\nhello\nEOF");
    assert!(r.is_complete);
    assert_eq!(r.here_doc, "");
}

#[test]
fn tokenize_trailing_heredoc_with_pending_delimiter_incomplete() {
    // the first delimiter is still pending, so the trailing bare marker must
    // not flip the line back to complete
    let r = line_to_tokens("a << b <<");
    assert!(!r.is_complete);
    assert_eq!(r.here_doc, "b");
    assert_eq!(r.unmatched, "");
}

#[test]
fn tokenize_empty_quotes_dropped() {
    let r = line_to_tokens("echo '' x");
    let texts: Vec<&str> = r.tokens.iter().map(|t| t.text.as_str()).collect();
    assert_eq!(texts, vec!["echo", "x"]);
}

#[test]
fn split_and_operator() {
    let segs = split_line("sleep 1 && echo ok");
    assert_eq!(segs, vec!["sleep 1", "&&", "echo ok"]);
}

#[test]
fn split_or_and_semicolon() {
    let segs = split_line("a || b; c");
    assert_eq!(segs, vec!["a", "||", "b", ";", "c"]);
}

#[test]
fn split_background_marker_own_segment() {
    let segs = split_line("sleep 5 &");
    assert_eq!(segs, vec!["sleep 5", "&"]);
    // >& and && never count as background markers
    let segs = split_line("ls >&2");
    assert_eq!(segs, vec!["ls >&2"]);
}

#[test]
fn split_keeps_quoted_operators() {
    let segs = split_line("echo 'a && b'");
    assert_eq!(segs, vec!["echo 'a && b'"]);
}

#[test]
fn check_leading_operator_rejected() {
    let segs = split_line("&& echo ok");
    assert_eq!(segs, vec!["&&", "echo ok"]);
    match check_split_result(&segs) {
        Err(SplitError::Invalid(t)) => assert_eq!(t, "&&"),
        other => panic!("expected a leading-operator rejection, got {:?}", other),
    }
}

#[test]
fn check_trailing_operator_awaits_continuation() {
    let segs = split_line("sleep 1 &&");
    assert_eq!(segs, vec!["sleep 1", "&&"]);
    match check_split_result(&segs) {
        Err(SplitError::Incomplete(t)) => assert_eq!(t, "&&"),
        other => panic!("expected a continuation flag, got {:?}", other),
    }
}

#[test]
fn check_consecutive_operators_rejected() {
    let segs = vec!["a".to_string(), ";".to_string(), ";".to_string(), "b".to_string()];
    match check_split_result(&segs) {
        Err(SplitError::Invalid(t)) => assert_eq!(t, ";"),
        other => panic!("expected a consecutive-operator rejection, got {:?}", other),
    }
}

#[test]
fn check_consecutive_operator_at_line_end_rejected() {
    let segs = split_line("a && ;");
    assert_eq!(segs, vec!["a", "&&", ";"]);
    match check_split_result(&segs) {
        Err(SplitError::Invalid(t)) => assert_eq!(t, ";"),
        other => panic!("expected a consecutive-operator rejection, got {:?}", other),
    }
    let segs = split_line("a ; ;");
    match check_split_result(&segs) {
        Err(SplitError::Invalid(t)) => assert_eq!(t, ";"),
        other => panic!("expected a consecutive-operator rejection, got {:?}", other),
    }
}

#[test]
fn check_trailing_heredoc_awaits_continuation() {
    let segs = vec!["cat <<".to_string()];
    match check_split_result(&segs) {
        Err(SplitError::Incomplete(t)) => assert_eq!(t, "<<"),
        other => panic!("expected a continuation flag, got {:?}", other),
    }
}

#[test]
fn check_plain_line_accepted() {
    let segs = split_line("echo hi");
    assert!(check_split_result(&segs).is_ok());
}

#[test]
fn redirection_truncate_with_separate_path() {
    let input = toks(&["echo", "hi", ">", "out.txt"]);
    let cmd = tokens_check_redir_to(&input).unwrap();
    let texts: Vec<&str> = cmd.tokens.iter().map(|t| t.text.as_str()).collect();
    assert_eq!(texts, vec!["echo", "hi"]);
    let redirs = cmd.redir_to.unwrap();
    assert_eq!(redirs.len(), 1);
    assert_eq!(redirs[0].redir_type, RedirKind::Truncate);
    assert_eq!(redirs[0].fd_before, 1);
    assert_eq!(redirs[0].file_after, "out.txt");
}

#[test]
fn redirection_dup_fd() {
    let input = toks(&["cmd", "2>&1"]);
    let cmd = tokens_check_redir_to(&input).unwrap();
    let texts: Vec<&str> = cmd.tokens.iter().map(|t| t.text.as_str()).collect();
    assert_eq!(texts, vec!["cmd"]);
    let redirs = cmd.redir_to.unwrap();
    assert_eq!(redirs.len(), 1);
    assert_eq!(redirs[0].redir_type, RedirKind::DupFd);
    assert_eq!(redirs[0].fd_before, 2);
    assert_eq!(redirs[0].fd_after, 1);
}

#[test]
fn redirection_append_inline_path() {
    let input = toks(&["cmd", "2>>log"]);
    let cmd = tokens_check_redir_to(&input).unwrap();
    let redirs = cmd.redir_to.unwrap();
    assert_eq!(redirs[0].redir_type, RedirKind::Append);
    assert_eq!(redirs[0].fd_before, 2);
    assert_eq!(redirs[0].file_after, "log");
}

#[test]
fn redirection_fd_from_previous_token() {
    let input = toks(&["echo", "2", ">", "f"]);
    let cmd = tokens_check_redir_to(&input).unwrap();
    let texts: Vec<&str> = cmd.tokens.iter().map(|t| t.text.as_str()).collect();
    assert_eq!(texts, vec!["echo"]);
    let redirs = cmd.redir_to.unwrap();
    assert_eq!(redirs[0].fd_before, 2);
    assert_eq!(redirs[0].file_after, "f");
}

#[test]
fn redirection_trailing_dup_is_error() {
    let input = toks(&["cmd", ">&"]);
    assert_eq!(tokens_check_redir_to(&input).unwrap_err(), ">&");
}

#[test]
fn redirection_trailing_truncate_is_error() {
    let input = toks(&["echo", ">"]);
    assert_eq!(tokens_check_redir_to(&input).unwrap_err(), ">");
}

#[test]
fn redirection_quoted_token_passes_through() {
    let mut input = toks(&["echo"]);
    input.push(tok(QuoteKind::Single, "a>b"));
    let cmd = tokens_check_redir_to(&input).unwrap();
    assert!(cmd.redir_to.is_none());
    assert_eq!(cmd.tokens.len(), 2);
    assert_eq!(cmd.tokens[1].text, "a>b");
}

#[test]
fn break_by_pipe_groups() {
    let input = toks(&["echo", "hi", "|", "wc", "-l"]);
    let groups = break_line_by_pipe(&input);
    assert_eq!(groups.len(), 2);
    let g0: Vec<&str> = groups[0].iter().map(|t| t.text.as_str()).collect();
    let g1: Vec<&str> = groups[1].iter().map(|t| t.text.as_str()).collect();
    assert_eq!(g0, vec!["echo", "hi"]);
    assert_eq!(g1, vec!["wc", "-l"]);
}

#[test]
fn break_by_pipe_keeps_quoted_pipe() {
    let mut input = toks(&["echo"]);
    input.push(tok(QuoteKind::Single, "|"));
    let groups = break_line_by_pipe(&input);
    assert_eq!(groups.len(), 1);
    assert_eq!(groups[0].len(), 2);
}

#[test]
fn pipeline_two_stages_foreground() {
    let ci = CmdlineInfo::from("echo hi | wc -l").unwrap();
    assert_eq!(ci.cmds.len(), 2);
    assert!(!ci.is_background);
    assert_eq!(ci.line, "echo hi | wc -l");
}

#[test]
fn pipeline_background_single_stage() {
    let ci = CmdlineInfo::from("sleep 5 &").unwrap();
    assert_eq!(ci.cmds.len(), 1);
    assert!(ci.is_background);
    let texts: Vec<&str> = ci.cmds[0].tokens.iter().map(|t| t.text.as_str()).collect();
    assert_eq!(texts, vec!["sleep", "5"]);
}

#[test]
fn pipeline_propagates_redirection_error() {
    assert_eq!(CmdlineInfo::from("echo hi >").unwrap_err(), ">");
}

#[test]
fn pipeline_with_redirection() {
    let ci = CmdlineInfo::from("echo hi > out.txt").unwrap();
    assert_eq!(ci.cmds.len(), 1);
    let redirs = ci.cmds[0].redir_to.as_ref().unwrap();
    assert_eq!(redirs[0].redir_type, RedirKind::Truncate);
    assert_eq!(redirs[0].file_after, "out.txt");
}

#[test]
fn empty_line_is_complete_and_empty() {
    let r = line_to_tokens("");
    assert!(r.is_complete);
    assert!(r.tokens.is_empty());
    assert_eq!(r.unmatched, "");
    assert_eq!(r.here_doc, "");
    assert!(split_line("").is_empty());
    let ci = CmdlineInfo::from("").unwrap();
    assert!(ci.cmds.is_empty());
    assert!(!ci.is_background);
}

#[test]
fn split_semicolon_without_spaces() {
    let segs = split_line("a;b");
    assert_eq!(segs, vec!["a", ";", "b"]);
}

#[test]
fn quoted_pipe_does_not_split_stages() {
    let ci = CmdlineInfo::from("echo '|'").unwrap();
    assert_eq!(ci.cmds.len(), 1);
    assert_eq!(ci.cmds[0].tokens.len(), 2);
    assert_eq!(ci.cmds[0].tokens[1].kind, QuoteKind::Single);
    assert_eq!(ci.cmds[0].tokens[1].text, "|");
}

#[test]
fn redirection_inline_fd_and_path() {
    let input = toks(&["cmd", "2>err.txt"]);
    let cmd = tokens_check_redir_to(&input).unwrap();
    let redirs = cmd.redir_to.unwrap();
    assert_eq!(redirs[0].redir_type, RedirKind::Truncate);
    assert_eq!(redirs[0].fd_before, 2);
    assert_eq!(redirs[0].file_after, "err.txt");
    let texts: Vec<&str> = cmd.tokens.iter().map(|t| t.text.as_str()).collect();
    assert_eq!(texts, vec!["cmd"]);
}

#[test]
fn redirection_residual_prefix_kept() {
    let input = toks(&["foo>bar"]);
    let cmd = tokens_check_redir_to(&input).unwrap();
    let texts: Vec<&str> = cmd.tokens.iter().map(|t| t.text.as_str()).collect();
    assert_eq!(texts, vec!["foo"]);
    let redirs = cmd.redir_to.unwrap();
    assert_eq!(redirs[0].redir_type, RedirKind::Truncate);
    assert_eq!(redirs[0].fd_before, 1);
    assert_eq!(redirs[0].file_after, "bar");
}
