//! Reaching a JMAP server: which capabilities a request names, where the server
//! is, and with which token.

use vstd::prelude::*;
use vstd::string::*;

use crate::config::TokenSource;
use crate::outside::{debug_str, debug_text};
use crate::search::{first_where, lemma_find_is, lemma_first_from, lemma_first_is, lemma_first_none, occurs_at, split_first};
use crate::text::{chars_of, has_prefix, has_suffix, split_once, starts_with, substring, trim, trimmed};

verus! {

// ---------------------------------------------------------------------------
// Capabilities
// ---------------------------------------------------------------------------

/// A capability that a request can name.
#[derive(Clone, Copy, Debug, PartialEq, Eq, Structural)]
pub enum Capability {
    Core,
    Mail,
    Submission,
    VacationResponse,
    Contacts,
    Calendars,
    WebSocket,
    Sieve,
    Blob,
    Quota,
    Principals,
}

/// The capabilities that every request names: what is used, and nothing that a
/// server might refuse.
pub open spec fn used_capabilities() -> Seq<Capability> {
    seq![Capability::Core, Capability::Mail, Capability::Submission]
}

/// Leaves the capabilities that are used, whatever was there.
pub fn apply_using_restriction(using: &mut Vec<Capability>)
    ensures
        final(using)@ == used_capabilities(),
{
    using.clear();
    using.push(Capability::Core);
    using.push(Capability::Mail);
    using.push(Capability::Submission);
    assert(using@ =~= used_capabilities());
}

// ---------------------------------------------------------------------------
// The server
// ---------------------------------------------------------------------------

/// The URL of a server: a host that has a scheme is one already.
pub open spec fn url_of(host: Seq<char>) -> Seq<char> {
    if has_prefix(host, "http://"@) || has_prefix(host, "https://"@) {
        host
    } else {
        "https://"@ + host
    }
}

/// The URL of a server.
pub fn endpoint_url(jmap_host: &str) -> (r: String)
    ensures
        r@ == url_of(jmap_host@),
{
    if starts_with(jmap_host, "http://") || starts_with(jmap_host, "https://") {
        jmap_host.to_owned()
    } else {
        let mut out: String = "https://".to_owned();
        out.append(jmap_host);
        out
    }
}

/// What follows the scheme, or all of it.
pub open spec fn after_scheme(url: Seq<char>) -> Seq<char> {
    match split_first(url, "://"@) {
        Some(p) => p.1,
        None => url,
    }
}

/// The character ends the host of a URL.
pub open spec fn ends_host(c: char) -> bool {
    c == '/' || c == ':'
}

/// The host of a URL, without scheme, port and path.
pub open spec fn host_part(url: Seq<char>) -> Seq<char> {
    let rest = after_scheme(url);
    match first_where(rest, |c: char| ends_host(c)) {
        Some(i) => rest.take(i),
        None => rest,
    }
}

/// The host of a URL; an error, with what the user reads, where it is empty.
pub fn extract_host(url: &str) -> (r: Result<String, String>)
    ensures
        match r {
            Ok(h) => h@ == host_part(url@) && h@.len() > 0,
            Err(e) => host_part(url@).len() == 0 && e@ == "could not extract host from "@
                + debug_text(url@),
        },
{
    let rest = match split_once(url, "://") {
        Some((_, tail)) => tail,
        None => url.to_owned(),
    };
    let v = chars_of(rest.as_str());
    let ghost p = |c: char| ends_host(c);
    let mut i: usize = 0;
    while i < v.len() && v[i] != '/' && v[i] != ':'
        invariant
            i <= v@.len(),
            p == (|c: char| ends_host(c)),
            forall|j: int| 0 <= j < i ==> !p(#[trigger] v@[j]),
        decreases v@.len() - i,
    {
        assert(!p(v@[i as int]));
        i += 1;
    }
    proof {
        if i < v@.len() {
            assert(p(v@[i as int]));
            lemma_first_is(v@, p, i as int);
        } else {
            lemma_first_none(v@, p);
        }
        assert(v@.subrange(0, i as int) =~= host_part(url@));
    }
    if i == 0 {
        let mut e: String = "could not extract host from ".to_owned();
        let shown = debug_str(url);
        e.append(shown.as_str());
        return Err(e);
    }
    Ok(substring(&v, 0, i))
}

/// A host holds none of the marks that end one.
pub proof fn law_host_is_bare(url: Seq<char>)
    ensures
        forall|i: int| 0 <= i < host_part(url).len() ==> !ends_host(#[trigger] host_part(url)[i]),
{
    let rest = after_scheme(url);
    let p = |c: char| ends_host(c);
    lemma_first_from(rest, p, 0);
    assert forall|i: int| 0 <= i < host_part(url).len() implies !ends_host(
        #[trigger] host_part(url)[i],
    ) by {
        assert(host_part(url)[i] == rest[i]);
        assert(!p(rest[i]));
    }
}

// ---------------------------------------------------------------------------
// The token
// ---------------------------------------------------------------------------

/// Why there is no token. `T` is a text.
#[derive(Debug)]
#[verifier::ext_equal]
pub enum TokenError<T = String> {
    /// The file cannot be read.
    Unreadable { path: T, reason: T },
    /// The command cannot be started.
    NotStarted { command: T, reason: T },
    /// The command did not succeed.
    Failed { status: T, stderr: T },
    /// What the command printed is no text.
    NotText { reason: T },
}

impl View for TokenError<String> {
    type V = TokenError<Seq<char>>;

    open spec fn view(&self) -> Self::V {
        match *self {
            TokenError::Unreadable { path, reason } => TokenError::Unreadable {
                path: path@,
                reason: reason@,
            },
            TokenError::NotStarted { command, reason } => TokenError::NotStarted {
                command: command@,
                reason: reason@,
            },
            TokenError::Failed { status, stderr } => TokenError::Failed {
                status: status@,
                stderr: stderr@,
            },
            TokenError::NotText { reason } => TokenError::NotText { reason: reason@ },
        }
    }
}

/// What the user reads.
pub open spec fn token_error_text(e: TokenError<Seq<char>>) -> Seq<char> {
    match e {
        TokenError::Unreadable { path, reason } => "reading token file "@ + path + ": "@ + reason,
        TokenError::NotStarted { command, reason } => "spawning jmap_token_cmd: "@ + command
            + ": "@ + reason,
        TokenError::Failed { status, stderr } => "jmap_token_cmd exited with status "@ + status
            + ": "@ + trimmed(stderr),
        TokenError::NotText { reason } => "jmap_token_cmd stdout was not UTF-8: "@ + reason,
    }
}

fn joined(a: &str, b: &str, c: &str) -> (r: String)
    ensures
        r@ == a@ + b@ + ": "@ + c@,
{
    let mut out: String = a.to_owned();
    out.append(b);
    out.append(": ");
    out.append(c);
    out
}

impl TokenError<String> {
    /// What the user reads.
    pub fn message(&self) -> (r: String)
        ensures
            r@ == token_error_text(self@),
    {
        match self {
            TokenError::Unreadable { path, reason } => joined(
                "reading token file ",
                path.as_str(),
                reason.as_str(),
            ),
            TokenError::NotStarted { command, reason } => joined(
                "spawning jmap_token_cmd: ",
                command.as_str(),
                reason.as_str(),
            ),
            TokenError::Failed { status, stderr } => {
                let shown = trim(stderr.as_str());
                joined("jmap_token_cmd exited with status ", status.as_str(), shown.as_str())
            },
            TokenError::NotText { reason } => {
                let mut out: String = "jmap_token_cmd stdout was not UTF-8: ".to_owned();
                out.append(reason.as_str());
                out
            },
        }
    }
}

/// How to get at a token.
#[derive(Debug)]
pub enum TokenStep {
    /// This is the token.
    Ready(String),
    /// It stands in the file.
    ReadFile(String),
    /// The shell command prints it.
    RunCommand(String),
}

/// How to get at an account's token.
pub fn resolve_token(source: &TokenSource) -> (r: TokenStep)
    ensures
        match *source {
            TokenSource::Inline { jmap_token } => r matches TokenStep::Ready(t) && t@
                == jmap_token@,
            TokenSource::File { jmap_token_file } => r matches TokenStep::ReadFile(p) && p@
                == jmap_token_file@,
            TokenSource::Cmd { jmap_token_cmd } => r matches TokenStep::RunCommand(c) && c@
                == jmap_token_cmd@,
        },
{
    match source {
        TokenSource::Inline { jmap_token } => TokenStep::Ready(jmap_token.clone()),
        TokenSource::File { jmap_token_file } => TokenStep::ReadFile(jmap_token_file.clone()),
        TokenSource::Cmd { jmap_token_cmd } => TokenStep::RunCommand(jmap_token_cmd.clone()),
    }
}

/// Without the line ends at the back.
pub open spec fn without_line_end(s: Seq<char>) -> Seq<char>
    decreases s.len(),
{
    if s.len() > 0 && (s.last() == '\n' || s.last() == '\r') {
        without_line_end(s.drop_last())
    } else {
        s
    }
}

fn trim_line_end(s: &str) -> (r: String)
    ensures
        r@ == without_line_end(s@),
{
    let v = chars_of(s);
    let mut n: usize = v.len();
    assert(v@.take(n as int) =~= v@);
    while n > 0 && (v[n - 1] == '\n' || v[n - 1] == '\r')
        invariant
            n <= v@.len(),
            without_line_end(v@.take(n as int)) == without_line_end(v@),
        decreases n,
    {
        assert(v@.take(n as int).last() == v@[n - 1]);
        assert(v@.take(n as int).drop_last() =~= v@.take(n - 1));
        n -= 1;
    }
    proof {
        if n > 0 {
            assert(v@.take(n as int).last() == v@[n - 1]);
        }
        assert(v@.subrange(0, n as int) =~= v@.take(n as int));
    }
    substring(&v, 0, n)
}

/// The token in a file, by what reading the file gave.
pub fn token_from_file(path: &str, read: Result<String, String>) -> (r: Result<String, TokenError>)
    ensures
        match read {
            Ok(text) => r matches Ok(t) && t@ == without_line_end(text@),
            Err(reason) => r matches Err(e) && e@ == (TokenError::Unreadable {
                path: path@,
                reason: reason@,
            }),
        },
{
    match read {
        Ok(text) => Ok(trim_line_end(text.as_str())),
        Err(reason) => Err(TokenError::Unreadable { path: path.to_owned(), reason }),
    }
}

/// How a command ended.
#[derive(Debug)]
pub struct CommandOutput {
    pub success: bool,
    /// The exit status as it is to be shown.
    pub status: String,
    /// What it printed, or why that is no text.
    pub stdout: Result<String, String>,
    pub stderr: String,
}

/// The token that a command printed, by how running it went.
pub fn token_from_command(command: &str, run: Result<CommandOutput, String>) -> (r: Result<
    String,
    TokenError,
>)
    ensures
        match run {
            Err(reason) => r matches Err(e) && e@ == (TokenError::NotStarted {
                command: command@,
                reason: reason@,
            }),
            Ok(out) => if !out.success {
                r matches Err(e) && e@ == (TokenError::Failed {
                    status: out.status@,
                    stderr: out.stderr@,
                })
            } else {
                match out.stdout {
                    Ok(text) => r matches Ok(t) && t@ == without_line_end(text@),
                    Err(reason) => r matches Err(e) && e@ == (TokenError::NotText {
                        reason: reason@,
                    }),
                }
            },
        },
{
    match run {
        Err(reason) => Err(TokenError::NotStarted { command: command.to_owned(), reason }),
        Ok(out) => if !out.success {
            Err(TokenError::Failed { status: out.status, stderr: out.stderr })
        } else {
            match out.stdout {
                Ok(text) => Ok(trim_line_end(text.as_str())),
                Err(reason) => Err(TokenError::NotText { reason }),
            }
        },
    }
}

// ---------------------------------------------------------------------------
// Laws
// ---------------------------------------------------------------------------

/// A request names what is used and nothing else, each once, whatever it named before.
pub proof fn law_requests_name_what_is_used(c: Capability)
    ensures
        forall|using: &mut Vec<Capability>| #[trigger]
            call_ensures(apply_using_restriction, (using,), ()) ==> {
                &&& final(using)@.contains(c) <==> c is Core || c is Mail || c is Submission
                &&& final(using)@.len() == 3
            },
{
    let s = used_capabilities();
    assert(s[0] == Capability::Core && s[1] == Capability::Mail && s[2] == Capability::Submission);
}

/// The URL of a server has a scheme and ends with what was configured. One that has a scheme
/// already is left alone, so that taking the URL of a URL changes nothing; any other gets
/// the safe one.
pub proof fn law_url_has_one_scheme(host: Seq<char>)
    ensures
        has_prefix(url_of(host), "http://"@) || has_prefix(url_of(host), "https://"@),
        has_suffix(url_of(host), host),
        has_prefix(host, "http://"@) || has_prefix(host, "https://"@) ==> url_of(host) == host,
        !has_prefix(host, "http://"@) && !has_prefix(host, "https://"@) ==> has_prefix(
            url_of(host),
            "https://"@,
        ) && url_of(host).len() == host.len() + 8,
        url_of(url_of(host)) == url_of(host),
{
    reveal_strlit("https://");
    let u = url_of(host);
    assert(u.subrange(u.len() - host.len(), u.len() as int) =~= host);
    if u != host {
        assert(u.subrange(0, 8) =~= "https://"@);
    }
}

/// The host of a URL is what stands between its scheme and its port or path.
pub proof fn law_host_stands_behind_the_scheme(
    scheme: Seq<char>,
    host: Seq<char>,
    rest: Seq<char>,
)
    requires
        !scheme.contains(':'),
        !host.contains('/') && !host.contains(':'),
        rest.len() == 0 || rest[0] == ':' || rest[0] == '/',
    ensures
        host_part(scheme + "://"@ + host + rest) == host,
{
    reveal_strlit("://");
    let url = scheme + "://"@ + host + rest;
    let n = scheme.len() as int;
    assert(url.subrange(n, n + 3) =~= "://"@);
    assert forall|j: int| j < n implies !occurs_at(url, "://"@, j) by {
        if occurs_at(url, "://"@, j) {
            assert(url.subrange(j, j + 3)[0] == ':');
            assert(url[j] == scheme[j]);
        }
    }
    lemma_find_is(url, "://"@, n);
    let tail = url.skip(n + 3);
    assert(tail =~= host + rest);
    let p = |c: char| ends_host(c);
    let h = host.len() as int;
    assert forall|j: int| 0 <= j < h implies !p(#[trigger] tail[j]) by {
        assert(tail[j] == host[j]);
        assert(host.contains(host[j]));
    }
    if rest.len() > 0 {
        assert(tail[h] == rest[0]);
        assert(p(tail[h]));
        lemma_first_is(tail, p, h);
        assert(tail.take(h) =~= host);
    } else {
        lemma_first_none(tail, p);
        assert(tail =~= host);
    }
}

/// There is a host exactly if it is not empty.
pub proof fn law_host_is_found_or_missed(url: &str, r: Result<String, String>)
    requires
        call_ensures(extract_host, (url,), r),
    ensures
        r is Ok <==> host_part(url@).len() > 0,
        r is Ok ==> r->Ok_0@ == host_part(url@),
        r is Ok ==> forall|i: int|
            0 <= i < r->Ok_0@.len() ==> #[trigger] r->Ok_0@[i] != '/' && r->Ok_0@[i] != ':',
{
    law_host_is_bare(url@);
    if r is Ok {
        let h = r->Ok_0@;
        assert forall|i: int| 0 <= i < h.len() implies #[trigger] h[i] != '/' && h[i] != ':' by {
            assert(!ends_host(host_part(url@)[i]));
        }
    }
}

/// The token comes from where the account says, and from nowhere else.
pub proof fn law_token_comes_from_its_source(source: &TokenSource, r: TokenStep)
    requires
        call_ensures(resolve_token, (source,), r),
    ensures
        r is Ready <==> source is Inline,
        r is ReadFile <==> source is File,
        r is RunCommand <==> source is Cmd,
        r is Ready ==> r->Ready_0@ == source->jmap_token@,
        r is ReadFile ==> r->ReadFile_0@ == source->jmap_token_file@,
        r is RunCommand ==> r->RunCommand_0@ == source->jmap_token_cmd@,
{
}

/// Line ends at the back go, however many there are, and nothing else does: not white space
/// of other kinds, nor line ends before it.
pub proof fn law_token_loses_its_line_ends(s: Seq<char>)
    ensures
        has_prefix(s, without_line_end(s)),
        forall|i: int|
            without_line_end(s).len() <= i < s.len() ==> #[trigger] s[i] == '\n' || s[i] == '\r',
        without_line_end(s).len() > 0 ==> without_line_end(s).last() != '\n' && without_line_end(
            s,
        ).last() != '\r',
    decreases s.len(),
{
    if s.len() > 0 && (s.last() == '\n' || s.last() == '\r') {
        let t = s.drop_last();
        law_token_loses_its_line_ends(t);
        let w = without_line_end(t);
        assert(s.subrange(0, w.len() as int) =~= t.subrange(0, w.len() as int));
        assert forall|i: int| w.len() <= i < s.len() implies #[trigger] s[i] == '\n' || s[i] == '\r' by {
            if i < t.len() {
                assert(t[i] == s[i]);
            }
        }
    } else {
        assert(s.subrange(0, s.len() as int) =~= s);
    }
}

/// There is a token exactly if the file was read, or the command was started, succeeded and
/// printed text. Otherwise what went wrong first is told.
pub proof fn law_token_or_what_went_wrong(
    path: &str,
    read: Result<String, String>,
    a: Result<String, TokenError>,
    command: &str,
    run: Result<CommandOutput, String>,
    b: Result<String, TokenError>,
)
    requires
        call_ensures(token_from_file, (path, read), a),
        call_ensures(token_from_command, (command, run), b),
    ensures
        a is Ok <==> read is Ok,
        a is Ok ==> a->Ok_0@ == without_line_end(read->Ok_0@),
        a is Err ==> a->Err_0 is Unreadable && a->Err_0->path@ == path@
            && a->Err_0->Unreadable_reason@ == read->Err_0@,
        b is Ok <==> run is Ok && run->Ok_0.success && run->Ok_0.stdout is Ok,
        b is Ok ==> b->Ok_0@ == without_line_end(run->Ok_0.stdout->Ok_0@),
        b is Err && b->Err_0 is NotStarted <==> run is Err,
        b is Err && b->Err_0 is Failed <==> run is Ok && !run->Ok_0.success,
        b is Err && b->Err_0 is NotText <==> run is Ok && run->Ok_0.success
            && run->Ok_0.stdout is Err,
        b is Err && b->Err_0 is Failed ==> b->Err_0->stderr@ == run->Ok_0.stderr@
            && b->Err_0->status@ == run->Ok_0.status@,
{
}

/// The user reads which file or which command it is about, and why there is no token.
pub proof fn law_token_error_says_why(e: TokenError<Seq<char>>)
    ensures
        e is Unreadable ==> has_suffix(
            token_error_text(e),
            e->path + ": "@ + e->Unreadable_reason,
        ),
        e is NotStarted ==> has_suffix(
            token_error_text(e),
            e->command + ": "@ + e->NotStarted_reason,
        ),
        e is Failed ==> has_suffix(
            token_error_text(e),
            e->status + ": "@ + trimmed(e->stderr),
        ),
        e is NotText ==> has_suffix(token_error_text(e), e->NotText_reason),
{
    let t = token_error_text(e);
    let tail = match e {
        TokenError::Unreadable { path, reason } => path + ": "@ + reason,
        TokenError::NotStarted { command, reason } => command + ": "@ + reason,
        TokenError::Failed { status, stderr } => status + ": "@ + trimmed(stderr),
        TokenError::NotText { reason } => reason,
    };
    assert(t.subrange(t.len() - tail.len(), t.len() as int) =~= tail);
}

} // verus!
