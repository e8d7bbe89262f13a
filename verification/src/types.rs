use vstd::prelude::*;

verus! {

/// The kind of quoting a token was extracted from: `NoQuote` for a bare word,
/// otherwise the quote character that enclosed it.
#[derive(Clone, Copy, PartialEq, Eq, Structural, Debug)]
pub enum QuoteKind {
    NoQuote,
    Single,
    Double,
    Backtick,
}

/// One word of a command line, together with the kind of quoting it came from.
#[derive(Clone, Debug)]
pub struct Token {
    pub kind: QuoteKind,
    pub text: String,
}

impl View for Token {
    type V = (QuoteKind, Seq<char>);

    open spec fn view(&self) -> (QuoteKind, Seq<char>) {
        (self.kind, self.text@)
    }
}

pub type Tokens = Vec<Token>;

/// A copy of a token, with its view preserved.
pub fn token_dup(t: &Token) -> (r: Token)
    ensures
        r@ == t@,
{
    Token { kind: t.kind, text: t.text.clone() }
}

/// A copy of a token vector, with every view preserved.
pub fn token_vec_dup(ts: &Tokens) -> (r: Tokens)
    ensures
        token_views(r@) == token_views(ts@),
{
    let mut r: Vec<Token> = Vec::new();
    let mut i: usize = 0;
    while i < ts.len()
        invariant
            0 <= i <= ts@.len(),
            r@.len() == i,
            forall|j: int| 0 <= j < i ==> (#[trigger] r@[j])@ == ts@[j]@,
        decreases ts@.len() - i,
    {
        r.push(token_dup(&ts[i]));
        i = i + 1;
    }
    proof {
        assert(token_views(r@) =~~= token_views(ts@));
    }
    r
}

/// The views of a sequence of tokens.
pub open spec fn token_views(ts: Seq<Token>) -> Seq<(QuoteKind, Seq<char>)> {
    ts.map(|i: int, t: Token| t@)
}

/// The views of a sequence of strings.
pub open spec fn str_views(ss: Seq<String>) -> Seq<Seq<char>> {
    ss.map(|i: int, s: String| s@)
}

/// How an output redirection writes its target.
#[derive(Clone, Copy, PartialEq, Eq, Structural, Debug)]
pub enum RedirKind {
    /// `N>&M`: duplicate descriptor `fd_after` onto `fd_before`.
    DupFd,
    /// `N>path`: open `file_after` truncating, duplicate onto `fd_before`.
    Truncate,
    /// `N>>path`: open `file_after` appending, duplicate onto `fd_before`.
    Append,
}

/// One output redirection extracted from a command's tokens.
#[derive(Clone, Debug)]
pub struct RedirTo {
    pub redir_type: RedirKind,
    pub fd_before: i32,
    pub fd_after: i32,
    pub file_after: String,
}

impl View for RedirTo {
    type V = (RedirKind, int, int, Seq<char>);

    open spec fn view(&self) -> (RedirKind, int, int, Seq<char>) {
        (self.redir_type, self.fd_before as int, self.fd_after as int, self.file_after@)
    }
}

/// The views of a sequence of output redirections.
pub open spec fn redir_views(rs: Seq<RedirTo>) -> Seq<(RedirKind, int, int, Seq<char>)> {
    rs.map(|i: int, r: RedirTo| r@)
}

/// An input redirection. Parsed into a reserved slot but never applied.
#[derive(Clone, Copy, Debug)]
pub struct RedirFrom {
    pub redir_type: RedirKind,
    pub fd_after: i32,
}

/// The result of tokenizing one line: the tokens, whether the line is
/// syntactically complete, a pending heredoc delimiter (empty if none), and the
/// stack of still-open quote and substitution characters.
#[derive(Clone, Debug)]
pub struct LineInfo {
    pub tokens: Tokens,
    pub is_complete: bool,
    pub here_doc: String,
    pub unmatched: String,
}

impl View for LineInfo {
    type V = (Seq<(QuoteKind, Seq<char>)>, bool, Seq<char>, Seq<char>);

    open spec fn view(&self) -> (Seq<(QuoteKind, Seq<char>)>, bool, Seq<char>, Seq<char>) {
        (token_views(self.tokens@), self.is_complete, self.here_doc@, self.unmatched@)
    }
}

/// One pipeline stage: its argv tokens and its redirections.
#[derive(Clone, Debug)]
pub struct CmdInfo {
    pub tokens: Tokens,
    pub redir_from: Option<RedirFrom>,
    pub redir_to: Option<Vec<RedirTo>>,
}

/// A whole pipeline: the raw line, its stages in order, and whether it runs in
/// the background.
#[derive(Clone, Debug)]
pub struct CmdlineInfo {
    pub line: String,
    pub cmds: Vec<CmdInfo>,
    pub is_background: bool,
}

/// What the job table knows about one process of a background job.
#[derive(Clone, Copy, PartialEq, Eq, Structural, Debug)]
pub enum JobStatus {
    Running,
    Exited(i32),
    Stopped,
}

/// One background job: its table id, its process group, the member pids still
/// running, and the last observed status of every member.
#[derive(Clone, Debug)]
pub struct Job {
    pub id: i32,
    pub pgid: i32,
    pub pids: Vec<i32>,
    pub status: Vec<(i32, JobStatus)>,
}

} // verus!
