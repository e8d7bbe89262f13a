use vstd::prelude::*;

use crate::strutil::{
    chars_from, chars_take, chars_to_string, count_char, digit_val, i32_str_val, is_i32_str,
    is_space, is_space_char, parse_i32, str_eq, str_to_chars, trim_chars, trim_spec,
};
use crate::types::{
    redir_views, str_views, token_dup, token_vec_dup, token_views, CmdInfo, CmdlineInfo, LineInfo,
    QuoteKind, RedirKind, RedirTo, Token, Tokens,
};
use vstd::string::StrSliceExecFns;

verus! {

/// The characters that open and close quoting for the operator splitter.
pub open spec fn is_quote_char(c: char) -> bool {
    c == '"' || c == '\'' || c == '`'
}

/// The scan state of the operator splitter: segments emitted so far, the
/// current segment buffer, and the stack of open quote characters.
pub ghost struct SplitSt {
    pub cmds: Seq<Seq<char>>,
    pub buf: Seq<char>,
    pub sep: Seq<char>,
}

pub open spec fn split_init() -> SplitSt {
    SplitSt { cmds: seq![], buf: seq![], sep: seq![] }
}

/// One step of the operator splitter on character `c`, with its neighbours.
/// Quote characters toggle the quote stack and stay in the segment. Outside
/// quotes, a lone `&` (not part of `&&` or `>&`) terminates the current
/// segment immediately and is emitted as its own segment, as `&&`, `||` and
/// `;` are.
pub open spec fn split_step(st: SplitSt, c: char, prev: Option<char>, next: Option<char>) -> SplitSt {
    let in_quotes = st.sep.len() > 0;
    let sep2 = if is_quote_char(c) {
        if in_quotes {
            if st.sep.last() == c {
                st.sep.drop_last()
            } else {
                st.sep.push(c)
            }
        } else {
            st.sep.push(c)
        }
    } else {
        st.sep
    };
    if c == '&' && !in_quotes && prev != Some('>') && prev != Some('&') && next != Some('&') {
        let head = trim_spec(st.buf);
        let cmds2 = if head.len() > 0 {
            st.cmds.push(head)
        } else {
            st.cmds
        };
        SplitSt { cmds: cmds2.push(seq!['&']), buf: seq![], sep: sep2 }
    } else if (c == '&' || c == '|') && !in_quotes && st.buf.len() == 0 {
        SplitSt { cmds: st.cmds, buf: seq![c], sep: sep2 }
    } else if (c == '&' || c == '|') && !in_quotes && st.buf.last() == c {
        let head = trim_spec(st.buf.subrange(0, st.buf.len() - 1));
        let cmds2 = if head.len() > 0 {
            st.cmds.push(head)
        } else {
            st.cmds
        };
        SplitSt { cmds: cmds2.push(seq![c, c]), buf: seq![], sep: sep2 }
    } else if c == ';' && !in_quotes {
        let head = trim_spec(st.buf);
        let cmds2 = if head.len() > 0 {
            st.cmds.push(head)
        } else {
            st.cmds
        };
        SplitSt { cmds: cmds2.push(seq![';']), buf: seq![], sep: sep2 }
    } else {
        SplitSt { cmds: st.cmds, buf: st.buf.push(c), sep: sep2 }
    }
}

/// The splitter state after the first `n` characters of `line`.
pub open spec fn split_scan(line: Seq<char>, n: int) -> SplitSt
    decreases n,
{
    if n <= 0 {
        split_init()
    } else {
        let prev = if n >= 2 {
            Some(line[n - 2])
        } else {
            None::<char>
        };
        let next = if n < line.len() {
            Some(line[n])
        } else {
            None::<char>
        };
        split_step(split_scan(line, n - 1), line[n - 1], prev, next)
    }
}

/// The segments the operator splitter produces for `line`.
pub open spec fn split_line_spec(line: Seq<char>) -> Seq<Seq<char>> {
    let st = split_scan(line, line.len() as int);
    let head = trim_spec(st.buf);
    if head.len() > 0 {
        st.cmds.push(head)
    } else {
        st.cmds
    }
}

/// Split a line into compound-command segments and the control operators
/// `&&`, `||`, `;` and trailing `&`, keeping quoted text intact.
pub fn split_line(line: &str) -> (r: Vec<String>)
    ensures
        str_views(r@) == split_line_spec(line@),
{
    let chars = str_to_chars(line);
    let n = chars.len();
    let mut cmds: Vec<String> = Vec::new();
    let mut buf: Vec<char> = Vec::new();
    let mut sep: Vec<char> = Vec::new();
    let mut i: usize = 0;
    while i < n
        invariant
            0 <= i <= n,
            n == chars.len(),
            chars@ == line@,
            str_views(cmds@) == split_scan(line@, i as int).cmds,
            buf@ == split_scan(line@, i as int).buf,
            sep@ == split_scan(line@, i as int).sep,
        decreases n - i,
    {
        let ghost st = split_scan(line@, i as int);
        let ghost prevopt = if i >= 1 {
            Some(line@[i - 1])
        } else {
            None::<char>
        };
        let ghost nextopt = if i + 1 < n {
            Some(line@[i + 1])
        } else {
            None::<char>
        };
        proof {
            assert(split_scan(line@, i + 1) == split_step(st, line@[i as int], prevopt, nextopt));
        }
        let c = chars[i];
        let in_quotes = sep.len() > 0;
        if c == '"' || c == '\'' || c == '`' {
            if in_quotes {
                if sep[sep.len() - 1] == c {
                    sep.pop();
                    proof {
                        assert(sep@ =~= st.sep.drop_last());
                    }
                } else {
                    sep.push(c);
                }
            } else {
                sep.push(c);
            }
        }
        let prev_bars_bg = i >= 1 && (chars[i - 1] == '>' || chars[i - 1] == '&');
        let next_bars_bg = i + 1 < n && chars[i + 1] == '&';
        if c == '&' && !in_quotes && !prev_bars_bg && !next_bars_bg {
            let head_chars = trim_chars(&buf);
            if head_chars.len() > 0 {
                let head = chars_to_string(&head_chars);
                cmds.push(head);
            }
            let mut amp: Vec<char> = Vec::new();
            amp.push('&');
            let ampstr = chars_to_string(&amp);
            cmds.push(ampstr);
            buf = Vec::new();
            proof {
                let head = trim_spec(st.buf);
                let cmds2 = if head.len() > 0 {
                    st.cmds.push(head)
                } else {
                    st.cmds
                };
                assert(amp@ =~= seq!['&']);
                assert(str_views(cmds@) =~~= cmds2.push(seq!['&']));
            }
        } else if (c == '&' || c == '|') && !in_quotes && buf.len() == 0 {
            buf.push(c);
        } else if (c == '&' || c == '|') && !in_quotes && buf[buf.len() - 1] == c {
            let head_chars = {
                let mut h = buf.clone();
                h.pop();
                trim_chars(&h)
            };
            proof {
                assert(buf@.subrange(0, buf@.len() - 1) =~= st.buf.subrange(0, st.buf.len() - 1));
            }
            if head_chars.len() > 0 {
                let head = chars_to_string(&head_chars);
                cmds.push(head);
            }
            let mut op: Vec<char> = Vec::new();
            op.push(c);
            op.push(c);
            let opstr = chars_to_string(&op);
            cmds.push(opstr);
            buf = Vec::new();
            proof {
                let head = trim_spec(st.buf.subrange(0, st.buf.len() - 1));
                let cmds2 = if head.len() > 0 {
                    st.cmds.push(head)
                } else {
                    st.cmds
                };
                assert(op@ =~= seq![c, c]);
                assert(str_views(cmds@) =~~= cmds2.push(seq![c, c]));
            }
        } else if c == ';' && !in_quotes {
            let head_chars = trim_chars(&buf);
            if head_chars.len() > 0 {
                let head = chars_to_string(&head_chars);
                cmds.push(head);
            }
            let mut sc: Vec<char> = Vec::new();
            sc.push(';');
            let scstr = chars_to_string(&sc);
            cmds.push(scstr);
            buf = Vec::new();
            proof {
                let head = trim_spec(st.buf);
                let cmds2 = if head.len() > 0 {
                    st.cmds.push(head)
                } else {
                    st.cmds
                };
                assert(sc@ =~= seq![';']);
                assert(str_views(cmds@) =~~= cmds2.push(seq![';']));
            }
        } else {
            buf.push(c);
        }
        i = i + 1;
    }
    let head_chars = trim_chars(&buf);
    if head_chars.len() > 0 {
        let head = chars_to_string(&head_chars);
        cmds.push(head);
        proof {
            assert(str_views(cmds@) =~~= split_line_spec(line@));
        }
    }
    cmds
}

/// The number of quote characters on the open-separator stack. The stack also
/// holds `(` and `{` for substitutions, which do not count.
pub open spec fn count_quotes(sep: Seq<char>) -> int
    decreases sep.len(),
{
    if sep.len() == 0 {
        0
    } else {
        count_quotes(sep.drop_last()) + if is_quote_char(sep.last()) {
            1int
        } else {
            0int
        }
    }
}

pub proof fn lemma_count_quotes_nonneg(sep: Seq<char>)
    ensures
        count_quotes(sep) >= 0,
    decreases sep.len(),
{
    if sep.len() > 0 {
        lemma_count_quotes_nonneg(sep.drop_last());
    }
}

pub proof fn lemma_count_quotes_push(sep: Seq<char>, c: char)
    ensures
        count_quotes(sep.push(c)) == count_quotes(sep) + if is_quote_char(c) {
            1int
        } else {
            0int
        },
{
    assert(sep.push(c).drop_last() =~= sep);
}

pub open spec fn quote_kind_of(c: char) -> QuoteKind {
    if c == '\'' {
        QuoteKind::Single
    } else if c == '"' {
        QuoteKind::Double
    } else {
        QuoteKind::Backtick
    }
}

/// The tokenizer scan state: tokens emitted so far, the current word buffer,
/// the stack of open quote and substitution characters, and whether the most
/// recent substitution opener is still unclosed.
pub ghost struct TokSt {
    pub toks: Seq<(QuoteKind, Seq<char>)>,
    pub buf: Seq<char>,
    pub sep: Seq<char>,
    pub met_paren: bool,
}

pub open spec fn tok_init() -> TokSt {
    TokSt { toks: seq![], buf: seq![], sep: seq![], met_paren: false }
}

/// One tokenizer step on character `c`; `md` says whether the previous
/// character was `$`. Closing a quote pair emits the buffered text untrimmed
/// under that quote's kind (an empty buffer emits nothing); `$(` and `${` open
/// a substitution; unquoted `|` and whitespace end the current word.
pub open spec fn tok_step(st: TokSt, c: char, md: bool) -> TokSt {
    if c == '$' {
        TokSt { toks: st.toks, buf: st.buf.push(c), sep: st.sep, met_paren: st.met_paren }
    } else if is_quote_char(c) {
        if st.sep.len() == 0 {
            TokSt { toks: st.toks, buf: st.buf, sep: st.sep.push(c), met_paren: st.met_paren }
        } else if count_quotes(st.sep) > 0 {
            if st.sep.last() == c {
                if st.buf.len() == 0 {
                    TokSt {
                        toks: st.toks,
                        buf: st.buf,
                        sep: st.sep.drop_last(),
                        met_paren: st.met_paren,
                    }
                } else {
                    TokSt {
                        toks: st.toks.push((quote_kind_of(c), st.buf)),
                        buf: seq![],
                        sep: st.sep.drop_last(),
                        met_paren: st.met_paren,
                    }
                }
            } else {
                TokSt { toks: st.toks, buf: st.buf.push(c), sep: st.sep, met_paren: st.met_paren }
            }
        } else {
            TokSt { toks: st.toks, buf: st.buf, sep: st.sep.push(c), met_paren: st.met_paren }
        }
    } else if c == '(' || c == '{' {
        let subshell = md && (!st.met_paren || st.sep.len() == 0 || st.sep.last() == '"');
        if subshell {
            TokSt { toks: st.toks, buf: st.buf.push(c), sep: st.sep.push(c), met_paren: true }
        } else {
            TokSt { toks: st.toks, buf: st.buf.push(c), sep: st.sep, met_paren: st.met_paren }
        }
    } else if c == ')' || c == '}' {
        if st.sep.len() > 0 && ((st.sep.last() == '(' && c == ')') || (st.sep.last() == '{' && c
            == '}')) {
            TokSt {
                toks: st.toks,
                buf: st.buf.push(c),
                sep: st.sep.drop_last(),
                met_paren: false,
            }
        } else {
            TokSt { toks: st.toks, buf: st.buf.push(c), sep: st.sep, met_paren: st.met_paren }
        }
    } else if c == '|' && !st.met_paren && count_quotes(st.sep) == 0 {
        let head = trim_spec(st.buf);
        let toks2 = if head.len() > 0 {
            st.toks.push((QuoteKind::NoQuote, head))
        } else {
            st.toks
        };
        TokSt {
            toks: toks2.push((QuoteKind::NoQuote, seq!['|'])),
            buf: seq![],
            sep: st.sep,
            met_paren: st.met_paren,
        }
    } else if is_space_char(c) && count_quotes(st.sep) == 0 && !st.met_paren {
        let head = trim_spec(st.buf);
        let toks2 = if head.len() > 0 {
            st.toks.push((QuoteKind::NoQuote, head))
        } else {
            st.toks
        };
        TokSt { toks: toks2, buf: seq![], sep: st.sep, met_paren: st.met_paren }
    } else {
        TokSt { toks: st.toks, buf: st.buf.push(c), sep: st.sep, met_paren: st.met_paren }
    }
}

/// The tokenizer state after the first `n` characters of `line`.
pub open spec fn tok_scan(line: Seq<char>, n: int) -> TokSt
    decreases n,
{
    if n <= 0 {
        tok_init()
    } else {
        let md = n >= 2 && line[n - 2] == '$';
        tok_step(tok_scan(line, n - 1), line[n - 1], md)
    }
}

/// The full token sequence of `line`: the scan's tokens plus the trimmed
/// remainder of the buffer. An unterminated quote or substitution suppresses
/// the emission of its buffered content.
pub open spec fn line_tokens_spec(line: Seq<char>) -> Seq<(QuoteKind, Seq<char>)> {
    let st = tok_scan(line, line.len() as int);
    let head = trim_spec(st.buf);
    if st.sep.len() == 0 && head.len() > 0 {
        st.toks.push((QuoteKind::NoQuote, head))
    } else {
        st.toks
    }
}

/// The unmatched separator stack left after scanning `line`.
pub open spec fn line_unmatched_spec(line: Seq<char>) -> Seq<char> {
    tok_scan(line, line.len() as int).sep
}

/// The heredoc completeness fold over the token sequence, starting at token
/// `i` with completeness `complete` and pending delimiter text `hd`. Each
/// unquoted `<<` marks the line incomplete and takes the next token as the
/// delimiter; the line is complete again only if that delimiter reappears,
/// unquoted, as the last token. A trailing `<<` with no delimiter leaves the
/// line complete only while no earlier delimiter is still pending.
pub open spec fn heredoc_scan(
    toks: Seq<(QuoteKind, Seq<char>)>,
    i: int,
    complete: bool,
    hd: Seq<char>,
) -> (bool, Seq<char>)
    decreases toks.len() - i,
{
    if i < 0 || i >= toks.len() {
        (complete, hd)
    } else {
        let t = toks[i];
        if t.0 == QuoteKind::NoQuote && t.1 == seq!['<', '<'] {
            let c2 = i + 1 >= toks.len() && hd.len() == 0;
            let hd2 = if i + 1 < toks.len() {
                hd + toks[i + 1].1
            } else {
                hd
            };
            let last = toks[toks.len() - 1];
            let matched = last.0 == QuoteKind::NoQuote && hd2 == last.1 && i + 1 != toks.len() - 1;
            let c3 = matched || c2;
            let hd3 = if matched {
                seq![]
            } else {
                hd2
            };
            heredoc_scan(toks, i + 1, c3, hd3)
        } else {
            heredoc_scan(toks, i + 1, complete, hd)
        }
    }
}

/// Whether `line` is complete, and its pending heredoc delimiter.
pub open spec fn line_complete_spec(line: Seq<char>) -> (bool, Seq<char>) {
    if line_unmatched_spec(line).len() == 0 {
        heredoc_scan(line_tokens_spec(line), 0, true, seq![])
    } else {
        (false, seq![])
    }
}

/// Everything the tokenizer reports for `line`: tokens, completeness, pending
/// heredoc delimiter, and the unmatched separator stack.
pub open spec fn line_to_tokens_spec(line: Seq<char>) -> (
    Seq<(QuoteKind, Seq<char>)>,
    bool,
    Seq<char>,
    Seq<char>,
) {
    (
        line_tokens_spec(line),
        line_complete_spec(line).0,
        line_complete_spec(line).1,
        line_unmatched_spec(line),
    )
}

/// Tokenize one line, tracking quote pairs, `$()`/`${}` substitution nesting
/// and heredoc markers, and report whether the line is syntactically complete.
pub fn line_to_tokens(line: &str) -> (r: LineInfo)
    ensures
        r@ == line_to_tokens_spec(line@),
{
    let chars = str_to_chars(line);
    let n = chars.len();
    let mut toks: Vec<Token> = Vec::new();
    let mut buf: Vec<char> = Vec::new();
    let mut sep: Vec<char> = Vec::new();
    let mut quote_cnt: usize = 0;
    let mut met_paren = false;
    let mut i: usize = 0;
    while i < n
        invariant
            0 <= i <= n,
            n == chars.len(),
            chars@ == line@,
            token_views(toks@) == tok_scan(line@, i as int).toks,
            buf@ == tok_scan(line@, i as int).buf,
            sep@ == tok_scan(line@, i as int).sep,
            met_paren == tok_scan(line@, i as int).met_paren,
            quote_cnt as int == count_quotes(sep@),
        decreases n - i,
    {
        let ghost st = tok_scan(line@, i as int);
        let ghost md_g = i >= 1 && line@[i - 1] == '$';
        proof {
            assert(tok_scan(line@, i + 1) == tok_step(st, line@[i as int], md_g));
            lemma_count_quotes_nonneg(sep@);
        }
        let c = chars[i];
        let md = i >= 1 && chars[i - 1] == '$';
        if c == '$' {
            buf.push(c);
        } else if c == '\'' || c == '"' || c == '`' {
            if sep.len() == 0 {
                sep.push(c);
                quote_cnt = quote_cnt + 1;
                proof {
                    lemma_count_quotes_push(st.sep, c);
                }
            } else if quote_cnt > 0 {
                if sep[sep.len() - 1] == c {
                    sep.pop();
                    quote_cnt = quote_cnt - 1;
                    proof {
                        assert(sep@ =~= st.sep.drop_last());
                        assert(st.sep =~= sep@.push(c));
                        lemma_count_quotes_push(sep@, c);
                    }
                    if buf.len() > 0 {
                        let kind = if c == '\'' {
                            QuoteKind::Single
                        } else if c == '"' {
                            QuoteKind::Double
                        } else {
                            QuoteKind::Backtick
                        };
                        let text = chars_to_string(&buf);
                        toks.push(Token { kind, text });
                        buf = Vec::new();
                        proof {
                            assert(token_views(toks@) =~~= st.toks.push(
                                (quote_kind_of(c), st.buf),
                            ));
                        }
                    }
                } else {
                    buf.push(c);
                }
            } else {
                sep.push(c);
                quote_cnt = quote_cnt + 1;
                proof {
                    lemma_count_quotes_push(st.sep, c);
                }
            }
        } else if c == '(' || c == '{' {
            let subshell = md && (!met_paren || sep.len() == 0 || sep[sep.len() - 1] == '"');
            if subshell {
                sep.push(c);
                buf.push(c);
                met_paren = true;
                proof {
                    lemma_count_quotes_push(st.sep, c);
                }
            } else {
                buf.push(c);
            }
        } else if c == ')' || c == '}' {
            buf.push(c);
            if sep.len() > 0 && ((sep[sep.len() - 1] == '(' && c == ')') || (sep[sep.len() - 1]
                == '{' && c == '}')) {
                let ghost top = st.sep.last();
                sep.pop();
                met_paren = false;
                proof {
                    assert(sep@ =~= st.sep.drop_last());
                    assert(st.sep =~= sep@.push(top));
                    lemma_count_quotes_push(sep@, top);
                }
            }
        } else if c == '|' && !met_paren && quote_cnt == 0 {
            let head = trim_chars(&buf);
            if head.len() > 0 {
                let text = chars_to_string(&head);
                toks.push(Token { kind: QuoteKind::NoQuote, text });
            }
            let mut pv: Vec<char> = Vec::new();
            pv.push('|');
            let ptext = chars_to_string(&pv);
            toks.push(Token { kind: QuoteKind::NoQuote, text: ptext });
            buf = Vec::new();
            proof {
                let headg = trim_spec(st.buf);
                let toks2 = if headg.len() > 0 {
                    st.toks.push((QuoteKind::NoQuote, headg))
                } else {
                    st.toks
                };
                assert(pv@ =~= seq!['|']);
                assert(token_views(toks@) =~~= toks2.push((QuoteKind::NoQuote, seq!['|'])));
            }
        } else if is_space(c) && quote_cnt == 0 && !met_paren {
            let head = trim_chars(&buf);
            if head.len() > 0 {
                let text = chars_to_string(&head);
                toks.push(Token { kind: QuoteKind::NoQuote, text });
                proof {
                    assert(token_views(toks@) =~~= st.toks.push(
                        (QuoteKind::NoQuote, trim_spec(st.buf)),
                    ));
                }
            }
            buf = Vec::new();
        } else {
            buf.push(c);
        }
        i = i + 1;
    }
    let ghost endst = tok_scan(line@, n as int);
    let head = trim_chars(&buf);
    if sep.len() == 0 && head.len() > 0 {
        let text = chars_to_string(&head);
        toks.push(Token { kind: QuoteKind::NoQuote, text });
        proof {
            assert(token_views(toks@) =~~= endst.toks.push((QuoteKind::NoQuote, trim_spec(
                endst.buf,
            ))));
        }
    }
    proof {
        assert(token_views(toks@) == line_tokens_spec(line@));
    }
    let unmatched = chars_to_string(&sep);
    let mut complete = sep.len() == 0;
    let mut hd = String::new();
    if complete {
        let ghost full = line_tokens_spec(line@);
        let m = toks.len();
        let mut j: usize = 0;
        while j < m
            invariant
                0 <= j <= m,
                m == toks.len(),
                token_views(toks@) == full,
                full == line_tokens_spec(line@),
                heredoc_scan(full, 0, true, Seq::empty()) == heredoc_scan(
                    full,
                    j as int,
                    complete,
                    hd@,
                ),
            decreases m - j,
        {
            let ghost complete0 = complete;
            let ghost hd0 = hd@;
            let is_marker = {
                let t = &toks[j];
                let unquoted = match t.kind {
                    QuoteKind::NoQuote => true,
                    _ => false,
                };
                unquoted && str_eq(t.text.as_str(), "<<")
            };
            proof {
                reveal_strlit("<<");
                assert("<<"@ =~= seq!['<', '<']);
                assert(full[j as int] == toks@[j as int]@);
            }
            if is_marker {
                complete = false;
                if j + 1 < m {
                    hd.append(toks[j + 1].text.as_str());
                    proof {
                        assert(full[j + 1].1 == toks@[j + 1]@.1);
                    }
                } else {
                    complete = hd.as_str().is_empty();
                }
                let last_unquoted = match toks[m - 1].kind {
                    QuoteKind::NoQuote => true,
                    _ => false,
                };
                let matched = last_unquoted && j + 1 != m - 1 && str_eq(
                    hd.as_str(),
                    toks[m - 1].text.as_str(),
                );
                proof {
                    assert(full[m - 1] == toks@[m - 1]@);
                }
                if matched {
                    complete = true;
                    hd = String::new();
                }
                proof {
                    assert(heredoc_scan(full, j as int, complete0, hd0) == heredoc_scan(
                        full,
                        j + 1,
                        complete,
                        hd@,
                    ));
                }
            } else {
                proof {
                    assert(heredoc_scan(full, j as int, complete0, hd0) == heredoc_scan(
                        full,
                        j + 1,
                        complete,
                        hd@,
                    ));
                }
            }
            j = j + 1;
        }
    }
    LineInfo { tokens: toks, is_complete: complete, here_doc: hd, unmatched }
}

/// Why a split line cannot run as it stands: `Invalid` rejects the line
/// outright (leading operator, consecutive operators); `Incomplete` asks the
/// caller to prompt for a continuation (trailing `&&`/`||`, open heredoc).
/// Each carries the offending operator text.
#[derive(Clone, Debug, PartialEq)]
pub enum SplitError {
    Invalid(String),
    Incomplete(String),
}

/// The outcome the split checker owes for a given segment sequence.
pub ghost enum SplitVerdict {
    Accept,
    Invalid(Seq<char>),
    Incomplete(Seq<char>),
}

pub open spec fn is_op2(t: Seq<char>) -> bool {
    t == seq!['&', '&'] || t == seq!['|', '|']
}

pub open spec fn is_sep_seg(t: Seq<char>) -> bool {
    is_op2(t) || t == seq![';']
}

/// The verdict on segments `toks[i..]`, given whether segment `i - 1` was an
/// operator. A leading `&&`/`||` and any two consecutive operator segments
/// are invalid; a trailing `&&`/`||` after a command, or a segment ending in
/// `<<`, awaits continuation.
pub open spec fn check_from(toks: Seq<Seq<char>>, i: int, prev_sep: bool) -> SplitVerdict
    decreases toks.len() - i,
{
    if i < 0 || i >= toks.len() {
        SplitVerdict::Accept
    } else {
        let t = toks[i];
        if i == 0 && is_op2(t) {
            SplitVerdict::Invalid(t)
        } else if prev_sep && is_sep_seg(t) {
            SplitVerdict::Invalid(t)
        } else if i == toks.len() - 1 {
            if is_op2(t) {
                SplitVerdict::Incomplete(t)
            } else if t.len() >= 2 && t[t.len() - 2] == '<' && t[t.len() - 1] == '<' {
                SplitVerdict::Incomplete(seq!['<', '<'])
            } else {
                SplitVerdict::Accept
            }
        } else {
            check_from(toks, i + 1, is_sep_seg(t))
        }
    }
}

pub open spec fn check_split_spec(toks: Seq<Seq<char>>) -> SplitVerdict {
    check_from(toks, 0, false)
}

pub open spec fn check_result_matches(r: Result<(), SplitError>, v: SplitVerdict) -> bool {
    match v {
        SplitVerdict::Accept => r is Ok,
        SplitVerdict::Invalid(s) => r matches Err(SplitError::Invalid(t)) && t@ == s,
        SplitVerdict::Incomplete(s) => r matches Err(SplitError::Incomplete(t)) && t@ == s,
    }
}

/// Check a split line: reject a leading `&&`/`||` and consecutive operators;
/// flag a trailing `&&`/`||` or heredoc opener as awaiting continuation.
pub fn check_split_result(tokens: &Vec<String>) -> (r: Result<(), SplitError>)
    ensures
        check_result_matches(r, check_split_spec(str_views(tokens@))),
{
    proof {
        reveal_strlit("&&");
        reveal_strlit("||");
        reveal_strlit(";");
        reveal_strlit("<<");
    }
    let ghost toks = str_views(tokens@);
    let len = tokens.len();
    let mut is_prev_sep = false;
    let mut i: usize = 0;
    while i < len
        invariant
            0 <= i <= len,
            len == tokens.len(),
            toks == str_views(tokens@),
            check_split_spec(toks) == check_from(toks, i as int, is_prev_sep),
            i == 0 ==> !is_prev_sep,
        decreases len - i,
    {
        let token = &tokens[i];
        let tok_amp = str_eq(token.as_str(), "&&");
        let tok_bar = str_eq(token.as_str(), "||");
        let tok_semi = str_eq(token.as_str(), ";");
        let is_curr_sep = tok_amp || tok_bar || tok_semi;
        proof {
            reveal_strlit("&&");
            reveal_strlit("||");
            reveal_strlit(";");
            reveal_strlit("<<");
            assert("&&"@ =~= seq!['&', '&']);
            assert("||"@ =~= seq!['|', '|']);
            assert(";"@ =~= seq![';']);
            assert("<<"@ =~= seq!['<', '<']);
            assert(toks[i as int] == token@);
        }
        if i == 0 && (tok_amp || tok_bar) {
            return Err(SplitError::Invalid(token.clone()));
        } else if is_prev_sep && is_curr_sep {
            return Err(SplitError::Invalid(token.clone()));
        } else if i == len - 1 {
            if tok_amp || tok_bar {
                return Err(SplitError::Incomplete(token.clone()));
            }
            let ts = token.as_str();
            let m = ts.unicode_len();
            if m >= 2 && ts.get_char(m - 2) == '<' && ts.get_char(m - 1) == '<' {
                let mut hv: Vec<char> = Vec::new();
                hv.push('<');
                hv.push('<');
                proof {
                    assert(hv@ =~= seq!['<', '<']);
                }
                return Err(SplitError::Incomplete(chars_to_string(&hv)));
            }
        }
        is_prev_sep = is_curr_sep;
        i = i + 1;
    }
    Ok(())
}

pub open spec fn is_digit19(c: char) -> bool {
    '1' <= c && c <= '9'
}

/// A recognized `N>&M` form: the explicit descriptors (`-1` where absent) and
/// the text left over after the matched prefix.
pub ghost struct DupMatch {
    pub fd_before: int,
    pub fd_after: int,
    pub rest: Seq<char>,
}

/// A recognized `N>path` / `N>>path` form: the explicit source descriptor
/// (`-1` if absent), the inline target path (possibly empty), and the text
/// before the operator, kept as a residual token.
pub ghost struct FileMatch {
    pub fd_before: int,
    pub file: Seq<char>,
    pub rest: Seq<char>,
}

/// Match `[1-9]?>&([1-9]|$)` at the start of a token: descriptor duplication,
/// with single-digit descriptors.
pub open spec fn match_dup(s: Seq<char>) -> Option<DupMatch> {
    if s.len() >= 3 && is_digit19(s[0]) && s[1] == '>' && s[2] == '&' {
        if s.len() == 3 {
            Some(DupMatch { fd_before: digit_val(s[0]), fd_after: -1, rest: seq![] })
        } else if is_digit19(s[3]) {
            Some(
                DupMatch { fd_before: digit_val(s[0]), fd_after: digit_val(s[3]), rest: s.skip(4) },
            )
        } else {
            None
        }
    } else if s.len() >= 2 && s[0] == '>' && s[1] == '&' {
        if s.len() == 2 {
            Some(DupMatch { fd_before: -1, fd_after: -1, rest: seq![] })
        } else if is_digit19(s[2]) {
            Some(DupMatch { fd_before: -1, fd_after: digit_val(s[2]), rest: s.skip(3) })
        } else {
            None
        }
    } else {
        None
    }
}

/// The first index where `>>` occurs in `s`, searching from `i`; `-1` if none.
pub open spec fn find_gtgt(s: Seq<char>, i: int) -> int
    decreases s.len() - i,
{
    if i < 0 || i + 1 >= s.len() {
        -1
    } else if s[i] == '>' && s[i + 1] == '>' {
        i
    } else {
        find_gtgt(s, i + 1)
    }
}

/// The first index where `>` occurs in `s`, searching from `i`; `-1` if none.
pub open spec fn find_gt(s: Seq<char>, i: int) -> int
    decreases s.len() - i,
{
    if i < 0 || i >= s.len() {
        -1
    } else if s[i] == '>' {
        i
    } else {
        find_gt(s, i + 1)
    }
}

/// Match an append form `[1-9]>>rest` at the start, or `>>rest` anywhere: the
/// leading digit counts as the source descriptor only when `>>` follows it
/// immediately at the start of the token.
pub open spec fn match_append(s: Seq<char>) -> Option<FileMatch> {
    let q = find_gtgt(s, 0);
    if q == -1 {
        None
    } else if q == 1 && is_digit19(s[0]) {
        Some(FileMatch { fd_before: digit_val(s[0]), file: s.skip(3), rest: seq![] })
    } else {
        Some(FileMatch { fd_before: -1, file: s.skip(q + 2), rest: s.take(q) })
    }
}

/// Match a truncate form `[1-9]>rest` at the start, or `>rest` anywhere.
pub open spec fn match_trunc(s: Seq<char>) -> Option<FileMatch> {
    let q = find_gt(s, 0);
    if q == -1 {
        None
    } else if q == 1 && is_digit19(s[0]) {
        Some(FileMatch { fd_before: digit_val(s[0]), file: s.skip(2), rest: seq![] })
    } else {
        Some(FileMatch { fd_before: -1, file: s.skip(q + 1), rest: s.take(q) })
    }
}

/// Whether an absent source descriptor is taken from the previous residual
/// token (it parses as an integer, and is then consumed).
pub open spec fn fixup_pops(toks: Seq<(QuoteKind, Seq<char>)>, i: int, raw: int) -> bool {
    raw == -1 && i > 0 && is_i32_str(toks[i - 1].1)
}

/// The source descriptor after the default rules: the explicit digit, else the
/// previous token's numeric value, else 1 (stdout).
pub open spec fn fd_before_fixup(toks: Seq<(QuoteKind, Seq<char>)>, i: int, raw: int) -> int {
    if raw != -1 {
        raw
    } else if i > 0 && is_i32_str(toks[i - 1].1) {
        i32_str_val(toks[i - 1].1)
    } else {
        1
    }
}

pub open spec fn pop_opt(acc_t: Seq<(QuoteKind, Seq<char>)>) -> Seq<(QuoteKind, Seq<char>)> {
    if acc_t.len() > 0 {
        acc_t.drop_last()
    } else {
        acc_t
    }
}

/// Resolve one recognized `>&` token: fix up the descriptors (taking the
/// following token as the target when absent), or fail with `>&`.
pub open spec fn dup_step(
    toks: Seq<(QuoteKind, Seq<char>)>,
    i: int,
    acc_t: Seq<(QuoteKind, Seq<char>)>,
    acc_r: Seq<(RedirKind, int, int, Seq<char>)>,
    m: DupMatch,
) -> Result<
    (Seq<(QuoteKind, Seq<char>)>, Seq<(RedirKind, int, int, Seq<char>)>, bool),
    Seq<char>,
> {
    let t = toks[i];
    let acc_t2 = if fixup_pops(toks, i, m.fd_before) {
        pop_opt(acc_t)
    } else {
        acc_t
    };
    let fdb = fd_before_fixup(toks, i, m.fd_before);
    let acc_t3 = if m.rest.len() > 0 {
        acc_t2.push((t.0, m.rest))
    } else {
        acc_t2
    };
    if m.fd_after != -1 {
        Ok((acc_t3, acc_r.push((RedirKind::DupFd, fdb, m.fd_after, seq![])), false))
    } else if i + 1 < toks.len() && is_i32_str(toks[i + 1].1) {
        Ok((acc_t3, acc_r.push((RedirKind::DupFd, fdb, i32_str_val(toks[i + 1].1), seq![])), true))
    } else {
        Err(seq!['>', '&'])
    }
}

/// Resolve one recognized `>` / `>>` token: fix up the source descriptor and
/// complete a missing path from the following token, or fail with `>`.
pub open spec fn file_step(
    toks: Seq<(QuoteKind, Seq<char>)>,
    i: int,
    acc_t: Seq<(QuoteKind, Seq<char>)>,
    acc_r: Seq<(RedirKind, int, int, Seq<char>)>,
    m: FileMatch,
    kind: RedirKind,
) -> Result<
    (Seq<(QuoteKind, Seq<char>)>, Seq<(RedirKind, int, int, Seq<char>)>, bool),
    Seq<char>,
> {
    let t = toks[i];
    let acc_t2 = if fixup_pops(toks, i, m.fd_before) {
        pop_opt(acc_t)
    } else {
        acc_t
    };
    let fdb = fd_before_fixup(toks, i, m.fd_before);
    let acc_t3 = if m.rest.len() > 0 {
        acc_t2.push((t.0, m.rest))
    } else {
        acc_t2
    };
    if m.file.len() > 0 {
        Ok((acc_t3, acc_r.push((kind, fdb, -1, m.file)), false))
    } else if i + 1 < toks.len() {
        Ok((acc_t3, acc_r.push((kind, fdb, -1, toks[i + 1].1)), true))
    } else {
        Err(seq!['>'])
    }
}

/// The redirection resolution of `toks[i..]`, given the residual tokens and
/// redirections accumulated so far and whether token `i` was already consumed
/// as a descriptor or path. Quoted tokens are never pattern-matched.
pub open spec fn resolve_from(
    toks: Seq<(QuoteKind, Seq<char>)>,
    i: int,
    acc_t: Seq<(QuoteKind, Seq<char>)>,
    acc_r: Seq<(RedirKind, int, int, Seq<char>)>,
    skip: bool,
) -> Result<(Seq<(QuoteKind, Seq<char>)>, Seq<(RedirKind, int, int, Seq<char>)>), Seq<char>>
    decreases toks.len() - i,
{
    if i < 0 || i >= toks.len() {
        Ok((acc_t, acc_r))
    } else if skip {
        resolve_from(toks, i + 1, acc_t, acc_r, false)
    } else {
        let t = toks[i];
        if t.0 != QuoteKind::NoQuote {
            resolve_from(toks, i + 1, acc_t.push(t), acc_r, false)
        } else {
            match match_dup(t.1) {
                Some(m) => match dup_step(toks, i, acc_t, acc_r, m) {
                    Ok(st) => resolve_from(toks, i + 1, st.0, st.1, st.2),
                    Err(e) => Err(e),
                },
                None => match match_append(t.1) {
                    Some(m) => match file_step(toks, i, acc_t, acc_r, m, RedirKind::Append) {
                        Ok(st) => resolve_from(toks, i + 1, st.0, st.1, st.2),
                        Err(e) => Err(e),
                    },
                    None => match match_trunc(t.1) {
                        Some(m) => match file_step(toks, i, acc_t, acc_r, m, RedirKind::Truncate) {
                            Ok(st) => resolve_from(toks, i + 1, st.0, st.1, st.2),
                            Err(e) => Err(e),
                        },
                        None => resolve_from(toks, i + 1, acc_t.push(t), acc_r, false),
                    },
                },
            }
        }
    }
}

/// The redirection resolution of a whole token sequence.
pub open spec fn resolve_spec(toks: Seq<(QuoteKind, Seq<char>)>) -> Result<
    (Seq<(QuoteKind, Seq<char>)>, Seq<(RedirKind, int, int, Seq<char>)>),
    Seq<char>,
> {
    resolve_from(toks, 0, seq![], seq![], false)
}

fn is_d19(c: char) -> (r: bool)
    ensures
        r == is_digit19(c),
{
    '1' <= c && c <= '9'
}

fn d19_val(c: char) -> (r: i32)
    requires
        is_digit19(c),
    ensures
        r as int == digit_val(c),
{
    ((c as u32) - 48) as i32
}

fn try_match_dup(s: &Vec<char>) -> (r: Option<(i32, i32, Vec<char>)>)
    ensures
        match match_dup(s@) {
            Some(m) => r matches Some(t) && t.0 as int == m.fd_before && t.1 as int == m.fd_after
                && t.2@ == m.rest,
            None => r is None,
        },
{
    let n = s.len();
    if n >= 3 && is_d19(s[0]) && s[1] == '>' && s[2] == '&' {
        let fdb = d19_val(s[0]);
        if n == 3 {
            Some((fdb, -1, Vec::new()))
        } else if is_d19(s[3]) {
            let fda = d19_val(s[3]);
            Some((fdb, fda, chars_from(s, 4)))
        } else {
            None
        }
    } else if n >= 2 && s[0] == '>' && s[1] == '&' {
        if n == 2 {
            Some((-1, -1, Vec::new()))
        } else if is_d19(s[2]) {
            let fda = d19_val(s[2]);
            Some((-1, fda, chars_from(s, 3)))
        } else {
            None
        }
    } else {
        None
    }
}

fn find_gtgt_exec(s: &Vec<char>) -> (r: Option<usize>)
    ensures
        match r {
            Some(q) => find_gtgt(s@, 0) == q as int && q + 1 < s@.len(),
            None => find_gtgt(s@, 0) == -1,
        },
{
    let n = s.len();
    if n < 2 {
        return None;
    }
    let mut j: usize = 0;
    while j + 1 < n
        invariant
            0 <= j,
            j + 1 <= n,
            n == s@.len(),
            find_gtgt(s@, 0) == find_gtgt(s@, j as int),
        decreases n - j,
    {
        if s[j] == '>' && s[j + 1] == '>' {
            return Some(j);
        }
        j = j + 1;
    }
    None
}

fn find_gt_exec(s: &Vec<char>) -> (r: Option<usize>)
    ensures
        match r {
            Some(q) => find_gt(s@, 0) == q as int && q < s@.len(),
            None => find_gt(s@, 0) == -1,
        },
{
    let n = s.len();
    let mut j: usize = 0;
    while j < n
        invariant
            0 <= j <= n,
            n == s@.len(),
            find_gt(s@, 0) == find_gt(s@, j as int),
        decreases n - j,
    {
        if s[j] == '>' {
            return Some(j);
        }
        j = j + 1;
    }
    None
}

fn try_match_append(s: &Vec<char>) -> (r: Option<(i32, Vec<char>, Vec<char>)>)
    ensures
        match match_append(s@) {
            Some(m) => r matches Some(t) && t.0 as int == m.fd_before && t.1@ == m.file && t.2@
                == m.rest,
            None => r is None,
        },
{
    match find_gtgt_exec(s) {
        None => None,
        Some(q) => {
            let n = s.len();
            proof {
                assert(q as int + 1 < n as int);
            }
            if q == 1 && is_d19(s[0]) {
                let fdb = d19_val(s[0]);
                Some((fdb, chars_from(s, 3), Vec::new()))
            } else {
                Some((-1, chars_from(s, q + 2), chars_take(s, q)))
            }
        },
    }
}

fn try_match_trunc(s: &Vec<char>) -> (r: Option<(i32, Vec<char>, Vec<char>)>)
    ensures
        match match_trunc(s@) {
            Some(m) => r matches Some(t) && t.0 as int == m.fd_before && t.1@ == m.file && t.2@
                == m.rest,
            None => r is None,
        },
{
    match find_gt_exec(s) {
        None => None,
        Some(q) => {
            let n = s.len();
            proof {
                assert((q as int) < (n as int));
            }
            if q == 1 && is_d19(s[0]) {
                let fdb = d19_val(s[0]);
                Some((fdb, chars_from(s, 2), Vec::new()))
            } else {
                Some((-1, chars_from(s, q + 1), chars_take(s, q)))
            }
        },
    }
}

/// How a `CmdInfo` result corresponds to the spec-level resolution.
pub open spec fn resolve_result_matches(
    r: Result<CmdInfo, String>,
    v: Result<(Seq<(QuoteKind, Seq<char>)>, Seq<(RedirKind, int, int, Seq<char>)>), Seq<char>>,
) -> bool {
    match v {
        Ok(p) => r matches Ok(c) && token_views(c.tokens@) == p.0 && c.redir_from is None && (if p.1.len()
            == 0 {
            c.redir_to is None
        } else {
            c.redir_to matches Some(rv) && redir_views(rv@) == p.1
        }),
        Err(e) => r matches Err(s) && s@ == e,
    }
}

/// Scan a command's tokens for `>`, `>>` and `>&` forms, extracting structured
/// redirections and leaving the residual argv tokens. Fails when a form
/// cannot be completed: a `>&` without a numeric target, or a `>`/`>>`
/// without a path.
pub fn tokens_check_redir_to(tokens: &Tokens) -> (r: Result<CmdInfo, String>)
    ensures
        resolve_result_matches(r, resolve_spec(token_views(tokens@))),
{
    let ghost full = token_views(tokens@);
    let n = tokens.len();
    let mut res_toks: Vec<Token> = Vec::new();
    let mut redirs: Vec<RedirTo> = Vec::new();
    let mut skip = false;
    let mut i: usize = 0;
    proof {
        assert(token_views(res_toks@) =~= Seq::<(QuoteKind, Seq<char>)>::empty());
        assert(redir_views(redirs@) =~= Seq::<(RedirKind, int, int, Seq<char>)>::empty());
    }
    while i < n
        invariant
            0 <= i <= n,
            n == tokens.len(),
            full == token_views(tokens@),
            resolve_spec(full) == resolve_from(
                full,
                i as int,
                token_views(res_toks@),
                redir_views(redirs@),
                skip,
            ),
        decreases n - i,
    {
        let ghost acc_t0 = token_views(res_toks@);
        let ghost acc_r0 = redir_views(redirs@);
        proof {
            assert(full[i as int] == tokens@[i as int]@);
        }
        if skip {
            skip = false;
            i = i + 1;
            continue;
        }
        let t = &tokens[i];
        let unquoted = match t.kind {
            QuoteKind::NoQuote => true,
            _ => false,
        };
        if !unquoted {
            res_toks.push(token_dup(t));
            proof {
                assert(token_views(res_toks@) =~~= acc_t0.push(full[i as int]));
            }
            i = i + 1;
            continue;
        }
        let tchars = str_to_chars(t.text.as_str());
        if let Some((mfdb, mfda, mrest)) = try_match_dup(&tchars) {
            let ghost m = match_dup(full[i as int].1).unwrap();
            let mut fdb = mfdb;
            if fdb == -1 {
                if i > 0 {
                    proof {
                        assert(full[i - 1] == tokens@[i - 1]@);
                    }
                    let prevchars = str_to_chars(tokens[i - 1].text.as_str());
                    match parse_i32(&prevchars) {
                        Some(v) => {
                            res_toks.pop();
                            fdb = v;
                        },
                        None => {
                            fdb = 1;
                        },
                    }
                } else {
                    fdb = 1;
                }
            }
            proof {
                assert(fdb as int == fd_before_fixup(full, i as int, m.fd_before));
                assert(token_views(res_toks@) =~~= (if fixup_pops(full, i as int, m.fd_before) {
                    pop_opt(acc_t0)
                } else {
                    acc_t0
                }));
            }
            let ghost acc_t2 = token_views(res_toks@);
            if mrest.len() > 0 {
                let text = chars_to_string(&mrest);
                res_toks.push(Token { kind: t.kind, text });
                proof {
                    assert(token_views(res_toks@) =~~= acc_t2.push((full[i as int].0, m.rest)));
                }
            }
            if mfda != -1 {
                redirs.push(
                    RedirTo {
                        redir_type: RedirKind::DupFd,
                        fd_before: fdb,
                        fd_after: mfda,
                        file_after: String::new(),
                    },
                );
            } else {
                if i + 1 < n {
                    proof {
                        assert(full[i + 1] == tokens@[i + 1]@);
                    }
                    let nextchars = str_to_chars(tokens[i + 1].text.as_str());
                    match parse_i32(&nextchars) {
                        Some(v) => {
                            redirs.push(
                                RedirTo {
                                    redir_type: RedirKind::DupFd,
                                    fd_before: fdb,
                                    fd_after: v,
                                    file_after: String::new(),
                                },
                            );
                            skip = true;
                        },
                        None => {
                            let mut ev: Vec<char> = Vec::new();
                            ev.push('>');
                            ev.push('&');
                            proof {
                                assert(ev@ =~= seq!['>', '&']);
                            }
                            return Err(chars_to_string(&ev));
                        },
                    }
                } else {
                    let mut ev: Vec<char> = Vec::new();
                    ev.push('>');
                    ev.push('&');
                    proof {
                        assert(ev@ =~= seq!['>', '&']);
                    }
                    return Err(chars_to_string(&ev));
                }
            }
            proof {
                let st = dup_step(full, i as int, acc_t0, acc_r0, m);
                assert(st is Ok);
                assert(token_views(res_toks@) =~~= (st->Ok_0).0);
                assert(redir_views(redirs@) =~~= (st->Ok_0).1);
                assert(skip == (st->Ok_0).2);
            }
            i = i + 1;
            continue;
        }
        let fm: Option<(RedirKind, i32, Vec<char>, Vec<char>)> = match try_match_append(&tchars) {
            Some((a, b, c)) => Some((RedirKind::Append, a, b, c)),
            None => match try_match_trunc(&tchars) {
                Some((a, b, c)) => Some((RedirKind::Truncate, a, b, c)),
                None => None,
            },
        };
        match fm {
            Some((kind, mfdb, mfile, mrest)) => {
                let ghost mg: FileMatch = if match_append(full[i as int].1) is Some {
                    match_append(full[i as int].1).unwrap()
                } else {
                    match_trunc(full[i as int].1).unwrap()
                };
                let ghost kindg: RedirKind = if match_append(full[i as int].1) is Some {
                    RedirKind::Append
                } else {
                    RedirKind::Truncate
                };
                let mut fdb = mfdb;
                if fdb == -1 {
                    if i > 0 {
                        proof {
                            assert(full[i - 1] == tokens@[i - 1]@);
                        }
                        let prevchars = str_to_chars(tokens[i - 1].text.as_str());
                        match parse_i32(&prevchars) {
                            Some(v) => {
                                res_toks.pop();
                                fdb = v;
                            },
                            None => {
                                fdb = 1;
                            },
                        }
                    } else {
                        fdb = 1;
                    }
                }
                proof {
                    assert(fdb as int == fd_before_fixup(full, i as int, mg.fd_before));
                    assert(token_views(res_toks@) =~~= (if fixup_pops(
                        full,
                        i as int,
                        mg.fd_before,
                    ) {
                        pop_opt(acc_t0)
                    } else {
                        acc_t0
                    }));
                }
                let ghost acc_t2 = token_views(res_toks@);
                if mrest.len() > 0 {
                    let text = chars_to_string(&mrest);
                    res_toks.push(Token { kind: t.kind, text });
                    proof {
                        assert(token_views(res_toks@) =~~= acc_t2.push((full[i as int].0, mg.rest)));
                    }
                }
                let file_s: String;
                if mfile.len() > 0 {
                    file_s = chars_to_string(&mfile);
                } else if i + 1 < n {
                    proof {
                        assert(full[i + 1] == tokens@[i + 1]@);
                    }
                    file_s = tokens[i + 1].text.clone();
                    skip = true;
                } else {
                    let mut ev: Vec<char> = Vec::new();
                    ev.push('>');
                    proof {
                        assert(ev@ =~= seq!['>']);
                    }
                    return Err(chars_to_string(&ev));
                }
                redirs.push(
                    RedirTo {
                        redir_type: kind,
                        fd_before: fdb,
                        fd_after: -1,
                        file_after: file_s,
                    },
                );
                proof {
                    let st = file_step(full, i as int, acc_t0, acc_r0, mg, kindg);
                    assert(st is Ok);
                    assert(token_views(res_toks@) =~~= (st->Ok_0).0);
                    assert(redir_views(redirs@) =~~= (st->Ok_0).1);
                    assert(skip == (st->Ok_0).2);
                }
                i = i + 1;
            },
            None => {
                res_toks.push(token_dup(t));
                proof {
                    assert(token_views(res_toks@) =~~= acc_t0.push(full[i as int]));
                }
                i = i + 1;
            },
        }
    }
    let redir_to: Option<Vec<RedirTo>> = if redirs.len() == 0 {
        None
    } else {
        Some(redirs)
    };
    Ok(CmdInfo { tokens: res_toks, redir_from: None, redir_to })
}

/// The views of a sequence of token groups.
pub open spec fn group_views(gs: Seq<Tokens>) -> Seq<Seq<(QuoteKind, Seq<char>)>> {
    gs.map(|i: int, g: Tokens| token_views(g@))
}

/// The pipe-splitting state: completed stage groups, and the current group.
pub ghost struct PipeSt {
    pub groups: Seq<Seq<(QuoteKind, Seq<char>)>>,
    pub cur: Seq<(QuoteKind, Seq<char>)>,
}

/// The pipe-splitting state after the first `n` tokens: an unquoted `|` token
/// ends the current group (possibly empty); every other token joins it.
pub open spec fn pipe_scan(toks: Seq<(QuoteKind, Seq<char>)>, n: int) -> PipeSt
    decreases n,
{
    if n <= 0 {
        PipeSt { groups: seq![], cur: seq![] }
    } else {
        let st = pipe_scan(toks, n - 1);
        let t = toks[n - 1];
        if t.0 == QuoteKind::NoQuote && t.1 == seq!['|'] {
            PipeSt { groups: st.groups.push(st.cur), cur: seq![] }
        } else {
            PipeSt { groups: st.groups, cur: st.cur.push(t) }
        }
    }
}

/// The stage groups of a token sequence, split at unquoted `|` tokens. A
/// trailing nonempty group is kept; a trailing empty one is dropped.
pub open spec fn break_by_pipe_spec(toks: Seq<(QuoteKind, Seq<char>)>) -> Seq<
    Seq<(QuoteKind, Seq<char>)>,
> {
    let st = pipe_scan(toks, toks.len() as int);
    if st.cur.len() > 0 {
        st.groups.push(st.cur)
    } else {
        st.groups
    }
}

/// Split a token sequence into pipeline stage groups at unquoted `|` tokens.
pub fn break_line_by_pipe(tokens: &Tokens) -> (r: Vec<Tokens>)
    ensures
        group_views(r@) == break_by_pipe_spec(token_views(tokens@)),
{
    let ghost full = token_views(tokens@);
    let n = tokens.len();
    let mut result: Vec<Tokens> = Vec::new();
    let mut temp: Vec<Token> = Vec::new();
    let mut i: usize = 0;
    while i < n
        invariant
            0 <= i <= n,
            n == tokens.len(),
            full == token_views(tokens@),
            group_views(result@) == pipe_scan(full, i as int).groups,
            token_views(temp@) == pipe_scan(full, i as int).cur,
        decreases n - i,
    {
        let ghost st = pipe_scan(full, i as int);
        proof {
            assert(full[i as int] == tokens@[i as int]@);
        }
        let t = &tokens[i];
        let unquoted = match t.kind {
            QuoteKind::NoQuote => true,
            _ => false,
        };
        let is_pipe = unquoted && str_eq(t.text.as_str(), "|");
        proof {
            reveal_strlit("|");
            assert("|"@ =~= seq!['|']);
        }
        if is_pipe {
            result.push(temp);
            temp = Vec::new();
            proof {
                assert(group_views(result@) =~~= st.groups.push(st.cur));
                assert(token_views(temp@) =~= Seq::<(QuoteKind, Seq<char>)>::empty());
            }
        } else {
            temp.push(token_dup(t));
            proof {
                assert(token_views(temp@) =~~= st.cur.push(full[i as int]));
            }
        }
        i = i + 1;
    }
    if temp.len() > 0 {
        result.push(temp);
        proof {
            assert(group_views(result@) =~~= break_by_pipe_spec(full));
        }
    }
    result
}

/// How one built stage corresponds to a spec-level resolution pair.
pub open spec fn cmdinfo_matches(
    c: CmdInfo,
    p: (Seq<(QuoteKind, Seq<char>)>, Seq<(RedirKind, int, int, Seq<char>)>),
) -> bool {
    &&& token_views(c.tokens@) == p.0
    &&& c.redir_from is None
    &&& (if p.1.len() == 0 {
        c.redir_to is None
    } else {
        c.redir_to matches Some(rv) && redir_views(rv@) == p.1
    })
}

/// The tokens a pipeline is built from: the line's tokens, less a trailing
/// unquoted `&`.
pub open spec fn background_spec(toks: Seq<(QuoteKind, Seq<char>)>) -> bool {
    toks.len() > 0 && toks.last().0 == QuoteKind::NoQuote && toks.last().1 == seq!['&']
}

/// The first `k` built stages all resolved successfully and match the spec.
pub open spec fn cmds_prefix_ok(
    cmds: Seq<CmdInfo>,
    groups: Seq<Seq<(QuoteKind, Seq<char>)>>,
    k: int,
) -> bool {
    forall|j: int|
        0 <= j < k ==> resolve_spec(#[trigger] groups[j]) is Ok && cmdinfo_matches(
            cmds[j],
            resolve_spec(groups[j])->Ok_0,
        )
}

pub open spec fn cmdline_tokens_spec(line: Seq<char>) -> Seq<(QuoteKind, Seq<char>)> {
    let toks = line_tokens_spec(line);
    if background_spec(toks) {
        toks.drop_last()
    } else {
        toks
    }
}

/// The index of the first stage group whose resolution fails; the group count
/// when none does.
pub open spec fn first_err_idx(groups: Seq<Seq<(QuoteKind, Seq<char>)>>, i: int) -> int
    decreases groups.len() - i,
{
    if i < 0 || i >= groups.len() {
        groups.len() as int
    } else if resolve_spec(groups[i]) is Err {
        i
    } else {
        first_err_idx(groups, i + 1)
    }
}

impl CmdInfo {
    /// Build one stage from its tokens by resolving its redirections.
    pub fn from(tokens: Tokens) -> (r: Result<CmdInfo, String>)
        ensures
            resolve_result_matches(r, resolve_spec(token_views(tokens@))),
    {
        tokens_check_redir_to(&tokens)
    }
}

impl CmdlineInfo {
    /// Build a whole pipeline from a raw line: tokenize it, take a trailing
    /// unquoted `&` as the background flag, split the tokens at unquoted `|`,
    /// and resolve each stage's redirections, propagating the first failure.
    pub fn from(line: &str) -> (r: Result<CmdlineInfo, String>)
        ensures
            ({
                let groups = break_by_pipe_spec(cmdline_tokens_spec(line@));
                let e = first_err_idx(groups, 0);
                if e == groups.len() {
                    r matches Ok(ci) && ci.line@ == line@ && ci.is_background == background_spec(
                        line_tokens_spec(line@),
                    ) && ci.cmds@.len() == groups.len() && cmds_prefix_ok(
                        ci.cmds@,
                        groups,
                        groups.len() as int,
                    )
                } else {
                    r matches Err(s) && s@ == resolve_spec(groups[e])->Err_0
                }
            }),
    {
        let mut lineinfo = line_to_tokens(line);
        let ghost all_toks = line_tokens_spec(line@);
        let mut is_background = false;
        if lineinfo.tokens.len() > 0 {
            let lt = &lineinfo.tokens[lineinfo.tokens.len() - 1];
            let unquoted = match lt.kind {
                QuoteKind::NoQuote => true,
                _ => false,
            };
            if unquoted && str_eq(lt.text.as_str(), "&") {
                is_background = true;
            }
            proof {
                reveal_strlit("&");
                assert("&"@ =~= seq!['&']);
                assert(all_toks.last() == lineinfo.tokens@.last()@);
            }
        }
        if is_background {
            lineinfo.tokens.pop();
            proof {
                assert(token_views(lineinfo.tokens@) =~~= all_toks.drop_last());
            }
        }
        proof {
            assert(token_views(lineinfo.tokens@) =~~= cmdline_tokens_spec(line@));
        }
        let sub_tokens = break_line_by_pipe(&lineinfo.tokens);
        let ghost groups = break_by_pipe_spec(cmdline_tokens_spec(line@));
        let m = sub_tokens.len();
        let mut cmds: Vec<CmdInfo> = Vec::new();
        let mut k: usize = 0;
        while k < m
            invariant
                0 <= k <= m,
                m == sub_tokens.len(),
                groups == group_views(sub_tokens@),
                groups == break_by_pipe_spec(cmdline_tokens_spec(line@)),
                cmds@.len() == k,
                first_err_idx(groups, 0) == first_err_idx(groups, k as int),
                cmds_prefix_ok(cmds@, groups, k as int),
            decreases m - k,
        {
            proof {
                assert(groups[k as int] == token_views(sub_tokens@[k as int]@));
            }
            let group = token_vec_dup(&sub_tokens[k]);
            let ghost gv = token_views(group@);
            proof {
                assert(gv == groups[k as int]);
            }
            match CmdInfo::from(group) {
                Ok(c) => {
                    let ghost pre = cmds@;
                    proof {
                        assert(resolve_spec(groups[k as int]) is Ok);
                        assert(cmdinfo_matches(c, resolve_spec(groups[k as int])->Ok_0));
                        assert(first_err_idx(groups, k as int) == first_err_idx(groups, k + 1));
                    }
                    cmds.push(c);
                    proof {
                        assert forall|j: int| 0 <= j < k + 1 implies resolve_spec(
                            #[trigger] groups[j],
                        ) is Ok && cmdinfo_matches(
                            cmds@[j],
                            resolve_spec(groups[j])->Ok_0,
                        ) by {
                            if j < k as int {
                                assert(cmds@[j] == pre[j]);
                                assert(resolve_spec(groups[j]) is Ok && cmdinfo_matches(
                                    pre[j],
                                    resolve_spec(groups[j])->Ok_0,
                                ));
                            } else {
                                assert(cmds@[j] == c);
                            }
                        }
                        assert(cmds_prefix_ok(cmds@, groups, k + 1));
                    }
                },
                Err(e) => {
                    proof {
                        assert(first_err_idx(groups, k as int) == k as int);
                    }
                    return Err(e);
                },
            }
            k = k + 1;
        }
        proof {
            assert(first_err_idx(groups, m as int) == m as int);
        }
        Ok(CmdlineInfo { line: line.to_owned(), cmds, is_background })
    }
}

proof fn lemma_scan_tokens_nonempty(line: Seq<char>, n: int)
    requires
        0 <= n <= line.len(),
    ensures
        forall|j: int|
            0 <= j < tok_scan(line, n).toks.len() ==> (#[trigger] tok_scan(line, n).toks[j]).1.len()
                > 0,
    decreases n,
{
    if n > 0 {
        lemma_scan_tokens_nonempty(line, n - 1);
        let st = tok_scan(line, n - 1);
        let st2 = tok_scan(line, n);
        assert forall|j: int| 0 <= j < st2.toks.len() implies (#[trigger] st2.toks[j]).1.len()
            > 0 by {
            if j < st.toks.len() {
                assert(st.toks[j].1.len() > 0);
            }
        }
    }
}

/// Every token the tokenizer emits has nonempty text.
pub proof fn lemma_tokens_nonempty(line: Seq<char>)
    ensures
        forall|j: int|
            0 <= j < line_tokens_spec(line).len() ==> (#[trigger] line_tokens_spec(
                line,
            )[j]).1.len() > 0,
{
    lemma_scan_tokens_nonempty(line, line.len() as int);
    let st = tok_scan(line, line.len() as int);
    let full = line_tokens_spec(line);
    assert forall|j: int| 0 <= j < full.len() implies (#[trigger] full[j]).1.len() > 0 by {
        if j < st.toks.len() {
            assert(st.toks[j].1.len() > 0);
        }
    }
}

proof fn lemma_heredoc_scan_pending(
    toks: Seq<(QuoteKind, Seq<char>)>,
    i: int,
    c: bool,
    hd: Seq<char>,
)
    requires
        forall|j: int| 0 <= j < toks.len() ==> (#[trigger] toks[j]).1.len() > 0,
        !c ==> hd.len() > 0,
    ensures
        !heredoc_scan(toks, i, c, hd).0 ==> heredoc_scan(toks, i, c, hd).1.len() > 0,
    decreases toks.len() - i,
{
    if 0 <= i && i < toks.len() {
        let t = toks[i];
        if t.0 == QuoteKind::NoQuote && t.1 == seq!['<', '<'] {
            let c2 = i + 1 >= toks.len() && hd.len() == 0;
            let hd2 = if i + 1 < toks.len() {
                hd + toks[i + 1].1
            } else {
                hd
            };
            let last = toks[toks.len() - 1];
            let matched = last.0 == QuoteKind::NoQuote && hd2 == last.1 && i + 1 != toks.len() - 1;
            let c3 = matched || c2;
            let hd3 = if matched {
                seq![]
            } else {
                hd2
            };
            if i + 1 < toks.len() {
                assert(toks[i + 1].1.len() > 0);
            }
            lemma_heredoc_scan_pending(toks, i + 1, c3, hd3);
        } else {
            lemma_heredoc_scan_pending(toks, i + 1, c, hd);
        }
    }
}

proof fn lemma_heredoc_scan_settled(
    toks: Seq<(QuoteKind, Seq<char>)>,
    i: int,
    c: bool,
    hd: Seq<char>,
)
    requires
        c ==> hd.len() == 0,
    ensures
        heredoc_scan(toks, i, c, hd).0 ==> heredoc_scan(toks, i, c, hd).1.len() == 0,
    decreases toks.len() - i,
{
    if 0 <= i && i < toks.len() {
        let t = toks[i];
        if t.0 == QuoteKind::NoQuote && t.1 == seq!['<', '<'] {
            let c2 = i + 1 >= toks.len() && hd.len() == 0;
            let hd2 = if i + 1 < toks.len() {
                hd + toks[i + 1].1
            } else {
                hd
            };
            let last = toks[toks.len() - 1];
            let matched = last.0 == QuoteKind::NoQuote && hd2 == last.1 && i + 1 != toks.len() - 1;
            let c3 = matched || c2;
            let hd3 = if matched {
                seq![]
            } else {
                hd2
            };
            lemma_heredoc_scan_settled(toks, i + 1, c3, hd3);
        } else {
            lemma_heredoc_scan_settled(toks, i + 1, c, hd);
        }
    }
}

/// The completeness invariant of a tokenized line: the line is complete
/// exactly when its scan leaves no open quote or substitution and no pending
/// heredoc delimiter.
pub proof fn lemma_line_completeness(line: Seq<char>)
    ensures
        line_complete_spec(line).0 <==> (line_unmatched_spec(line).len() == 0
            && line_complete_spec(line).1.len() == 0),
{
    if line_unmatched_spec(line).len() == 0 {
        lemma_tokens_nonempty(line);
        lemma_heredoc_scan_pending(line_tokens_spec(line), 0, true, seq![]);
        lemma_heredoc_scan_settled(line_tokens_spec(line), 0, true, seq![]);
    }
}

proof fn lemma_odd_quote_scan(line: Seq<char>, q: char, n: int)
    requires
        is_quote_char(q),
        0 <= n <= line.len(),
        forall|i: int|
            0 <= i < line.len() ==> line[i] == q || (!is_quote_char(#[trigger] line[i]) && line[i]
                != '(' && line[i] != '{'),
        ensures
            tok_scan(line, n).sep == if count_char(line.take(n), q) % 2 == 0 {
                Seq::<char>::empty()
            } else {
                seq![q]
            },
    decreases n,
{
    if n == 0 {
        assert(line.take(0) =~= Seq::<char>::empty());
    } else {
        lemma_odd_quote_scan(line, q, n - 1);
        let st = tok_scan(line, n - 1);
        let c = line[n - 1];
        assert(line.take(n).drop_last() =~= line.take(n - 1));
        assert(line.take(n).last() == c);
        if c == q {
            if st.sep.len() == 0 {
            } else {
                assert(st.sep == seq![q]);
                assert(count_quotes(st.sep) == 1) by {
                    assert(st.sep.len() == 1);
                    assert(st.sep.last() == q);
                    assert(is_quote_char(q));
                    assert(st.sep.drop_last() =~= Seq::<char>::empty());
                    assert(count_quotes(Seq::<char>::empty()) == 0);
                }
                assert(st.sep.last() == q);
            }
        }
        assert(tok_scan(line, n).sep == if count_char(line.take(n), q) % 2 == 0 {
            Seq::<char>::empty()
        } else {
            seq![q]
        });
    }
}

/// A line made of one kind of quote character and otherwise plain characters
/// (no other quotes, no substitution openers), with an odd number of that
/// quote, is incomplete, and the unmatched stack ends with that quote.
pub proof fn lemma_odd_quotes_incomplete(line: Seq<char>, q: char)
    requires
        is_quote_char(q),
        forall|i: int|
            0 <= i < line.len() ==> line[i] == q || (!is_quote_char(#[trigger] line[i]) && line[i]
                != '(' && line[i] != '{'),
        count_char(line, q) % 2 == 1,
    ensures
        !line_complete_spec(line).0,
        line_unmatched_spec(line).len() > 0,
        line_unmatched_spec(line).last() == q,
{
    lemma_odd_quote_scan(line, q, line.len() as int);
    assert(line.take(line.len() as int) =~= line);
}

} // verus!
