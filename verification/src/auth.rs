//! How a server is signed in to: what may be told of it, and the headers that carry it.

use crate::arguments::contains_name;
use crate::failure::text_pairs;
use crate::naming::{alphanumeric, is_alphanumeric};
use crate::table::{find_row, found, keys, lemma_found_values, rows, with_values};
use crate::text::{
    chars_of, lemma_lowered_raised, lower, lowered, lowered_text, optional_text, raise, raised,
    raised_text, same_text, texts,
};
use vstd::prelude::*;
use vstd::string::*;

verus! {

/// An access token as it is stored, with the time at which it runs out.
#[derive(Debug)]
pub struct StoredToken {
    pub access_token: String,
    pub expires_at: Option<u64>,
}

/// Where stored tokens are kept.
#[derive(Clone, Copy, Debug, PartialEq, Eq, Structural)]
pub enum StoreMode {
    Auto,
    File,
    Keyring,
}

/// The sources from which requests to a server over HTTP are signed in: a variable of
/// the environment that holds a token, fixed headers, headers whose values are in
/// variables of the environment, a stored token with the store it is kept in, and the
/// runtime itself.
#[derive(Debug)]
pub struct HttpAuth {
    pub bearer_token_env_var: Option<String>,
    pub http_headers: Vec<(String, String)>,
    pub env_http_headers: Vec<(String, String)>,
    pub mcp_oauth: Option<StoredToken>,
    pub store_mode: StoreMode,
    pub codex_runtime: bool,
}

/// How a server is reached.
#[derive(Debug)]
pub enum ServerTransport {
    Stdio,
    Http(HttpAuth),
}

/// What a `StoredToken` stands for.
pub struct TokenView {
    pub access_token: Seq<char>,
    pub expires_at: Option<u64>,
}

/// What an `HttpAuth` stands for.
pub struct AuthView {
    pub bearer_token_env_var: Option<Seq<char>>,
    pub http_headers: Seq<(Seq<char>, Seq<char>)>,
    pub env_http_headers: Seq<(Seq<char>, Seq<char>)>,
    pub mcp_oauth: Option<TokenView>,
    pub store_mode: StoreMode,
    pub codex_runtime: bool,
}

/// What a `ServerTransport` stands for.
pub enum TransportView {
    Stdio,
    Http(AuthView),
}

impl View for HttpAuth {
    type V = AuthView;

    open spec fn view(&self) -> AuthView {
        AuthView {
            bearer_token_env_var: optional_text(self.bearer_token_env_var),
            http_headers: text_pairs(self.http_headers@),
            env_http_headers: text_pairs(self.env_http_headers@),
            mcp_oauth: match self.mcp_oauth {
                Some(token) => Some(
                    TokenView {
                        access_token: token.access_token@,
                        expires_at: token.expires_at,
                    },
                ),
                None => None,
            },
            store_mode: self.store_mode,
            codex_runtime: self.codex_runtime,
        }
    }
}

impl View for ServerTransport {
    type V = TransportView;

    open spec fn view(&self) -> TransportView {
        match self {
            ServerTransport::Stdio => TransportView::Stdio,
            ServerTransport::Http(auth) => TransportView::Http(auth@),
        }
    }
}

/// The text ends with `suffix`.
pub open spec fn ends_with(text: Seq<char>, suffix: Seq<char>) -> bool {
    suffix.len() <= text.len() && text.skip(text.len() - suffix.len()) == suffix
}

/// A header that carries a secret. Names are the same in upper and lower case.
pub open spec fn sensitive(name: Seq<char>) -> bool {
    let key = lowered_text(name);
    ||| key == "authorization"@
    ||| key == "cookie"@
    ||| key == "x-api-key"@
    ||| ends_with(key, "-token"@)
    ||| ends_with(key, "-secret"@)
}

/// Whether a text ends with `suffix`.
fn has_suffix(text: &str, suffix: &str) -> (answer: bool)
    ensures
        answer == ends_with(text@, suffix@),
{
    let chars: Vec<char> = chars_of(text);
    let wanted: Vec<char> = chars_of(suffix);
    if wanted.len() > chars.len() {
        return false;
    }
    let start: usize = chars.len() - wanted.len();
    let mut i: usize = 0;
    while i < wanted.len()
        invariant
            i <= wanted.len(),
            chars@ == text@,
            wanted@ == suffix@,
            start + wanted.len() == chars.len(),
            forall|j: int| 0 <= j < i ==> text@[start + j] == #[trigger] suffix@[j],
        decreases wanted.len() - i,
    {
        if chars[start + i] != wanted[i] {
            assert(text@.skip(start as int)[i as int] != suffix@[i as int]);
            return false;
        }
        i += 1;
    }
    assert(text@.skip(start as int) =~= suffix@);
    true
}

/// Whether a header carries a secret.
pub fn is_sensitive_header(name: &str) -> (answer: bool)
    ensures
        answer == sensitive(name@),
{
    let chars: Vec<char> = chars_of(name);
    let mut key: String = String::new();
    let mut i: usize = 0;
    assert(key@ =~= lowered_text(name@).take(0));
    while i < chars.len()
        invariant
            i <= chars.len(),
            chars@ == name@,
            key@ == lowered_text(name@).take(i as int),
        decreases chars.len() - i,
    {
        key.push(lower(chars[i]));
        assert(key@ =~= lowered_text(name@).take(i + 1));
        i += 1;
    }
    assert(lowered_text(name@).take(name@.len() as int) =~= lowered_text(name@));
    same_text(key.as_str(), "authorization") || same_text(key.as_str(), "cookie") || same_text(
        key.as_str(),
        "x-api-key",
    ) || has_suffix(key.as_str(), "-token") || has_suffix(key.as_str(), "-secret")
}

/// A reason for which nothing can be told or handed out.
#[derive(Debug)]
pub enum AuthFailure {
    StdioUnsupported { server: String },
    RevealRequired,
    MissingEnvVar { name: String },
    RuntimeUnsupported { server: String },
}

/// What an `AuthFailure` stands for.
pub enum AuthFailureView {
    StdioUnsupported { server: Seq<char> },
    RevealRequired,
    MissingEnvVar { name: Seq<char> },
    RuntimeUnsupported { server: Seq<char> },
}

impl View for AuthFailure {
    type V = AuthFailureView;

    open spec fn view(&self) -> AuthFailureView {
        match self {
            AuthFailure::StdioUnsupported { server } => AuthFailureView::StdioUnsupported {
                server: server@,
            },
            AuthFailure::RevealRequired => AuthFailureView::RevealRequired,
            AuthFailure::MissingEnvVar { name } => AuthFailureView::MissingEnvVar { name: name@ },
            AuthFailure::RuntimeUnsupported { server } => AuthFailureView::RuntimeUnsupported {
                server: server@,
            },
        }
    }
}

impl AuthFailureView {
    /// The message.
    pub open spec fn text(self) -> Seq<char> {
        match self {
            AuthFailureView::StdioUnsupported { server } => "MCP server '"@ + server
                + "' uses stdio; auth commands support streamable HTTP servers only"@,
            AuthFailureView::RevealRequired =>
                "auth export prints secret header values; pass --reveal to confirm"@,
            AuthFailureView::MissingEnvVar { name } => "environment variable "@ + name
                + " is not set"@,
            AuthFailureView::RuntimeUnsupported { server } => "MCP server '"@ + server
                + "' is signed in by the Codex runtime; its auth cannot be exported"@,
        }
    }
}

impl AuthFailure {
    /// The message.
    pub fn message(&self) -> (message: String)
        ensures
            message@ == self@.text(),
    {
        match self {
            AuthFailure::StdioUnsupported { server } => {
                let mut message: String = "MCP server '".to_owned();
                message.append(server.as_str());
                message.append("' uses stdio; auth commands support streamable HTTP servers only");
                message
            }
            AuthFailure::RevealRequired =>
                "auth export prints secret header values; pass --reveal to confirm".to_owned(),
            AuthFailure::MissingEnvVar { name } => {
                let mut message: String = "environment variable ".to_owned();
                message.append(name.as_str());
                message.append(" is not set");
                message
            }
            AuthFailure::RuntimeUnsupported { server } => {
                let mut message: String = "MCP server '".to_owned();
                message.append(server.as_str());
                message.append(
                    "' is signed in by the Codex runtime; its auth cannot be exported",
                );
                message
            }
        }
    }
}

/// Something that the user should know.
#[derive(Clone, Copy, Debug, PartialEq, Eq, Structural)]
pub enum AuthWarning {
    TokenExpired,
    RuntimeAuth,
}

impl AuthWarning {
    /// The warning in words.
    pub open spec fn text(self) -> Seq<char> {
        match self {
            AuthWarning::TokenExpired =>
                "the stored access token has expired; the provider will reject it with 401"@,
            AuthWarning::RuntimeAuth =>
                "the Codex runtime signs requests in; the auth cannot be exported"@,
        }
    }

    /// Puts the warning in words.
    pub fn message(&self) -> (message: &'static str)
        ensures
            message@ == self.text(),
    {
        match self {
            AuthWarning::TokenExpired =>
                "the stored access token has expired; the provider will reject it with 401",
            AuthWarning::RuntimeAuth =>
                "the Codex runtime signs requests in; the auth cannot be exported",
        }
    }
}

/// The stored token has run out.
pub open spec fn expired(expires_at: Option<u64>, now: u64) -> bool {
    match expires_at {
        Some(time) => time <= now,
        None => false,
    }
}

/// The warning on a stored token that has run out.
pub open spec fn token_warnings(auth: AuthView, now: u64) -> Seq<AuthWarning> {
    match auth.mcp_oauth {
        Some(token) => if expired(token.expires_at, now) {
            seq![AuthWarning::TokenExpired]
        } else {
            Seq::empty()
        },
        None => Seq::empty(),
    }
}

/// Collects the warning on a stored token that has run out.
fn list_token_warnings(auth: &HttpAuth, now: u64) -> (warnings: Vec<AuthWarning>)
    ensures
        warnings@ == token_warnings(auth@, now),
{
    let mut warnings: Vec<AuthWarning> = Vec::new();
    if let Some(token) = &auth.mcp_oauth {
        if let Some(time) = token.expires_at {
            if time <= now {
                warnings.push(AuthWarning::TokenExpired);
            }
        }
    }
    assert(warnings@ =~= token_warnings(auth@, now));
    warnings
}

/// A fixed header by its name alone, and whether it carries a secret.
#[derive(Debug)]
pub struct HeaderReport {
    pub name: String,
    pub sensitive: bool,
}

/// The views of header reports.
pub open spec fn report_views(reports: Seq<HeaderReport>) -> Seq<(Seq<char>, bool)> {
    Seq::new(reports.len(), |i: int| (reports[i].name@, reports[i].sensitive))
}

/// What is told of the sign-in of a server.
#[derive(Debug)]
pub struct AuthReport {
    pub bearer_token_env_var: Option<String>,
    pub http_headers: Vec<HeaderReport>,
    pub env_http_headers: Vec<(String, String)>,
    pub oauth_expires_at: Option<Option<u64>>,
    pub store_mode: StoreMode,
    pub warnings: Vec<AuthWarning>,
}

/// What an `AuthReport` stands for.
pub struct AuthReportView {
    pub bearer_token_env_var: Option<Seq<char>>,
    pub http_headers: Seq<(Seq<char>, bool)>,
    pub env_http_headers: Seq<(Seq<char>, Seq<char>)>,
    pub oauth_expires_at: Option<Option<u64>>,
    pub store_mode: StoreMode,
    pub warnings: Seq<AuthWarning>,
}

impl View for AuthReport {
    type V = AuthReportView;

    open spec fn view(&self) -> AuthReportView {
        AuthReportView {
            bearer_token_env_var: optional_text(self.bearer_token_env_var),
            http_headers: report_views(self.http_headers@),
            env_http_headers: text_pairs(self.env_http_headers@),
            oauth_expires_at: self.oauth_expires_at,
            store_mode: self.store_mode,
            warnings: self.warnings@,
        }
    }
}

/// What may be told of headers.
pub open spec fn headers_told(headers: Seq<(Seq<char>, Seq<char>)>) -> Seq<(Seq<char>, bool)> {
    Seq::new(headers.len(), |i: int| (headers[i].0, sensitive(headers[i].0)))
}

/// What may be told of the sign-in of a server.
pub open spec fn inspection(
    server: Seq<char>,
    transport: TransportView,
    now: u64,
) -> Result<AuthReportView, AuthFailureView> {
    match transport {
        TransportView::Stdio => Err(AuthFailureView::StdioUnsupported { server }),
        TransportView::Http(auth) => Ok(
            AuthReportView {
                bearer_token_env_var: auth.bearer_token_env_var,
                http_headers: headers_told(auth.http_headers),
                env_http_headers: auth.env_http_headers,
                oauth_expires_at: match auth.mcp_oauth {
                    Some(token) => Some(token.expires_at),
                    None => None,
                },
                store_mode: auth.store_mode,
                warnings: if auth.codex_runtime {
                    token_warnings(auth, now).push(AuthWarning::RuntimeAuth)
                } else {
                    token_warnings(auth, now)
                },
            },
        ),
    }
}

/// What the result of an inspection stands for.
pub open spec fn inspection_view(result: Result<AuthReport, AuthFailure>) -> Result<
    AuthReportView,
    AuthFailureView,
> {
    match result {
        Ok(report) => Ok(report@),
        Err(failure) => Err(failure@),
    }
}

/// Copies pairs of texts.
fn copy_pairs(pairs: &Vec<(String, String)>) -> (copies: Vec<(String, String)>)
    ensures
        text_pairs(copies@) == text_pairs(pairs@),
{
    let mut copies: Vec<(String, String)> = Vec::new();
    let mut i: usize = 0;
    while i < pairs.len()
        invariant
            i <= pairs.len(),
            copies@.len() == i,
            forall|j: int|
                0 <= j < i ==> (#[trigger] copies@[j]).0@ == pairs@[j].0@ && copies@[j].1@
                    == pairs@[j].1@,
        decreases pairs.len() - i,
    {
        copies.push((pairs[i].0.clone(), pairs[i].1.clone()));
        i += 1;
    }
    assert(text_pairs(copies@) =~= text_pairs(pairs@));
    copies
}

/// Tells how a server is signed in to.
pub fn inspect_auth(server: &str, transport: &ServerTransport, now: u64) -> (result: Result<
    AuthReport,
    AuthFailure,
>)
    ensures
        inspection_view(result) == inspection(server@, transport@, now),
{
    let auth: &HttpAuth = match transport {
        ServerTransport::Stdio => {
            return Err(AuthFailure::StdioUnsupported { server: server.to_owned() });
        }
        ServerTransport::Http(auth) => auth,
    };
    let mut http_headers: Vec<HeaderReport> = Vec::new();
    let mut i: usize = 0;
    while i < auth.http_headers.len()
        invariant
            i <= auth.http_headers.len(),
            http_headers@.len() == i,
            forall|j: int|
                0 <= j < i ==> (#[trigger] http_headers@[j]).name@ == auth.http_headers@[j].0@
                    && http_headers@[j].sensitive == sensitive(auth.http_headers@[j].0@),
        decreases auth.http_headers.len() - i,
    {
        let name: String = auth.http_headers[i].0.clone();
        let is_sensitive: bool = is_sensitive_header(name.as_str());
        http_headers.push(HeaderReport { name, sensitive: is_sensitive });
        i += 1;
    }
    assert(report_views(http_headers@) =~= headers_told(auth@.http_headers));
    let mut warnings: Vec<AuthWarning> = list_token_warnings(auth, now);
    if auth.codex_runtime {
        warnings.push(AuthWarning::RuntimeAuth);
    }
    let bearer_token_env_var: Option<String> = match &auth.bearer_token_env_var {
        Some(name) => Some(name.clone()),
        None => None,
    };
    let oauth_expires_at: Option<Option<u64>> = match &auth.mcp_oauth {
        Some(token) => Some(token.expires_at),
        None => None,
    };
    Ok(
        AuthReport {
            bearer_token_env_var,
            http_headers,
            env_http_headers: copy_pairs(&auth.env_http_headers),
            oauth_expires_at,
            store_mode: auth.store_mode,
            warnings,
        },
    )
}

/// The headers that sign a request in, and the warnings that go with them.
#[derive(Debug)]
pub struct AuthExport {
    pub headers: Vec<(String, String)>,
    pub warnings: Vec<AuthWarning>,
}

/// What an `AuthExport` stands for.
pub struct ExportView {
    pub headers: Seq<(Seq<char>, Seq<char>)>,
    pub warnings: Seq<AuthWarning>,
}

impl View for AuthExport {
    type V = ExportView;

    open spec fn view(&self) -> ExportView {
        ExportView { headers: text_pairs(self.headers@), warnings: self.warnings@ }
    }
}

/// Headers with the values of the variables that they name, or the first variable that is
/// not set.
pub open spec fn resolved_headers(
    headers: Seq<(Seq<char>, Seq<char>)>,
    environment: Seq<(Seq<char>, Seq<char>)>,
) -> Result<Seq<(Seq<char>, Seq<char>)>, AuthFailureView>
    decreases headers.len(),
{
    if headers.len() == 0 {
        Ok(Seq::empty())
    } else {
        match resolved_headers(headers.drop_last(), environment) {
            Err(failure) => Err(failure),
            Ok(front) => match found(environment, headers.last().1) {
                None => Err(AuthFailureView::MissingEnvVar { name: headers.last().1 }),
                Some(value) => Ok(front.push((headers.last().0, value))),
            },
        }
    }
}

/// The header that carries a token.
pub open spec fn bearer_header(token: Seq<char>) -> (Seq<char>, Seq<char>) {
    ("Authorization"@, "Bearer "@ + token)
}

/// The header that carries the token: that of the variable, or else the stored one.
pub open spec fn token_header(
    auth: AuthView,
    environment: Seq<(Seq<char>, Seq<char>)>,
) -> Result<Seq<(Seq<char>, Seq<char>)>, AuthFailureView> {
    match auth.bearer_token_env_var {
        Some(name) => match found(environment, name) {
            Some(token) => Ok(seq![bearer_header(token)]),
            None => Err(AuthFailureView::MissingEnvVar { name }),
        },
        None => match auth.mcp_oauth {
            Some(token) => Ok(seq![bearer_header(token.access_token)]),
            None => Ok(Seq::empty()),
        },
    }
}

/// The headers that sign a request in: they are handed out only if that is asked for
/// in so many words.
pub open spec fn exported_auth(
    server: Seq<char>,
    transport: TransportView,
    reveal: bool,
    environment: Seq<(Seq<char>, Seq<char>)>,
    now: u64,
) -> Result<ExportView, AuthFailureView> {
    if !reveal {
        Err(AuthFailureView::RevealRequired)
    } else {
        match transport {
            TransportView::Stdio => Err(AuthFailureView::StdioUnsupported { server }),
            TransportView::Http(auth) => if auth.codex_runtime {
                Err(AuthFailureView::RuntimeUnsupported { server })
            } else {
                match resolved_headers(auth.env_http_headers, environment) {
                    Err(failure) => Err(failure),
                    Ok(resolved) => match token_header(auth, environment) {
                        Err(failure) => Err(failure),
                        Ok(token) => Ok(
                            ExportView {
                                headers: auth.http_headers + resolved + token,
                                warnings: token_warnings(auth, now),
                            },
                        ),
                    },
                }
            },
        }
    }
}

/// What the result of an export stands for.
pub open spec fn export_view(result: Result<AuthExport, AuthFailure>) -> Result<
    ExportView,
    AuthFailureView,
> {
    match result {
        Ok(export) => Ok(export@),
        Err(failure) => Err(failure@),
    }
}

/// The value of a variable.
fn find_value(environment: &Vec<(String, String)>, name: &str) -> (value: Option<String>)
    ensures
        optional_text(value) == found(text_pairs(environment@), name@),
{
    proof {
        let text_of = |text: String| text@;
        lemma_found_values(rows(environment@), name@, text_of);
        assert(with_values(rows(environment@), text_of) =~= text_pairs(environment@));
    }
    match find_row(environment, name) {
        Some(value) => Some(value.clone()),
        None => None,
    }
}

/// Appends headers with the values of the variables that they name.
fn append_resolved(
    headers: &mut Vec<(String, String)>,
    named: &Vec<(String, String)>,
    environment: &Vec<(String, String)>,
) -> (missing: Option<String>)
    ensures
        match resolved_headers(text_pairs(named@), text_pairs(environment@)) {
            Ok(resolved) => missing is None && text_pairs(final(headers)@) == text_pairs(
                old(headers)@,
            ) + resolved,
            Err(failure) => missing is Some && failure == (AuthFailureView::MissingEnvVar {
                name: missing->Some_0@,
            }),
        },
{
    let ghost start = text_pairs(headers@);
    let ghost views = text_pairs(named@);
    let ghost variables = text_pairs(environment@);
    let mut i: usize = 0;
    assert(start + Seq::<(Seq<char>, Seq<char>)>::empty() =~= start);
    while i < named.len()
        invariant
            i <= named.len(),
            start == text_pairs(old(headers)@),
            views == text_pairs(named@),
            variables == text_pairs(environment@),
            resolved_headers(views.take(i as int), variables) is Ok,
            text_pairs(headers@) == start + resolved_headers(views.take(i as int), variables)->Ok_0,
        decreases named.len() - i,
    {
        let ghost upto = views.take(i + 1);
        let ghost earlier = text_pairs(headers@);
        assert(upto.drop_last() =~= views.take(i as int));
        assert(upto.last() == (named@[i as int].0@, named@[i as int].1@));
        match find_value(environment, named[i].1.as_str()) {
            Some(value) => {
                let name: String = named[i].0.clone();
                headers.push((name, value));
                assert(text_pairs(headers@) =~= earlier.push((name@, value@)));
                assert(start + resolved_headers(upto, variables)->Ok_0 =~= earlier.push(
                    (name@, value@),
                ));
            }
            None => {
                proof {
                    lemma_missing(views, i + 1, variables);
                }
                return Some(named[i].1.clone());
            }
        }
        i += 1;
    }
    assert(views.take(views.len() as int) =~= views);
    None
}

/// The first variable that is not set decides, whatever comes behind it.
proof fn lemma_missing(
    headers: Seq<(Seq<char>, Seq<char>)>,
    upto: int,
    environment: Seq<(Seq<char>, Seq<char>)>,
)
    requires
        0 <= upto <= headers.len(),
        resolved_headers(headers.take(upto), environment) is Err,
    ensures
        resolved_headers(headers, environment) == resolved_headers(
            headers.take(upto),
            environment,
        ),
    decreases headers.len() - upto,
{
    if upto < headers.len() {
        assert(headers.take(upto + 1).drop_last() =~= headers.take(upto));
        lemma_missing(headers, upto + 1, environment);
    } else {
        assert(headers.take(upto) =~= headers);
    }
}

/// Makes the header that carries a token.
fn make_bearer(token: &str) -> (header: (String, String))
    ensures
        (header.0@, header.1@) == bearer_header(token@),
{
    let mut value: String = "Bearer ".to_owned();
    value.append(token);
    ("Authorization".to_owned(), value)
}

/// Hands out the headers that sign a request in.
pub fn export_auth(
    server: &str,
    transport: &ServerTransport,
    reveal: bool,
    environment: &Vec<(String, String)>,
    now: u64,
) -> (result: Result<AuthExport, AuthFailure>)
    ensures
        export_view(result) == exported_auth(
            server@,
            transport@,
            reveal,
            text_pairs(environment@),
            now,
        ),
{
    if !reveal {
        return Err(AuthFailure::RevealRequired);
    }
    let auth: &HttpAuth = match transport {
        ServerTransport::Stdio => {
            return Err(AuthFailure::StdioUnsupported { server: server.to_owned() });
        }
        ServerTransport::Http(auth) => auth,
    };
    if auth.codex_runtime {
        return Err(AuthFailure::RuntimeUnsupported { server: server.to_owned() });
    }
    let mut headers: Vec<(String, String)> = copy_pairs(&auth.http_headers);
    if let Some(name) = append_resolved(&mut headers, &auth.env_http_headers, environment) {
        return Err(AuthFailure::MissingEnvVar { name });
    }
    let ghost earlier = text_pairs(headers@);
    match &auth.bearer_token_env_var {
        Some(name) => match find_value(environment, name.as_str()) {
            Some(token) => {
                headers.push(make_bearer(token.as_str()));
                assert(text_pairs(headers@) =~= earlier + seq![bearer_header(token@)]);
            }
            None => {
                return Err(AuthFailure::MissingEnvVar { name: name.clone() });
            }
        },
        None => match &auth.mcp_oauth {
            Some(token) => {
                headers.push(make_bearer(token.access_token.as_str()));
                assert(text_pairs(headers@) =~= earlier + seq![bearer_header(token.access_token@)]);
            }
            None => {
                assert(text_pairs(headers@) =~= earlier + Seq::<(Seq<char>, Seq<char>)>::empty());
            }
        },
    }
    Ok(AuthExport { headers, warnings: list_token_warnings(auth, now) })
}

/// The two sign-ins differ in secrets alone: in the values of fixed headers and in the
/// stored token.
pub open spec fn same_but_secrets(left: AuthView, right: AuthView) -> bool {
    &&& left.bearer_token_env_var == right.bearer_token_env_var
    &&& keys(left.http_headers) == keys(right.http_headers)
    &&& left.env_http_headers == right.env_http_headers
    &&& left.store_mode == right.store_mode
    &&& left.codex_runtime == right.codex_runtime
    &&& match (left.mcp_oauth, right.mcp_oauth) {
        (Some(one), Some(other)) => one.expires_at == other.expires_at,
        (None, None) => true,
        _ => false,
    }
}

/// An inspection reveals no secret: what it tells is the same whatever the values of
/// fixed headers and the stored token are.
pub proof fn law_inspection_reveals_nothing(
    server: Seq<char>,
    left: AuthView,
    right: AuthView,
    now: u64,
)
    requires
        same_but_secrets(left, right),
    ensures
        inspection(server, TransportView::Http(left), now) == inspection(
            server,
            TransportView::Http(right),
            now,
        ),
{
    assert(left.http_headers.len() == keys(left.http_headers).len());
    assert(right.http_headers.len() == keys(right.http_headers).len());
    assert forall|i: int| 0 <= i < left.http_headers.len() implies left.http_headers[i].0
        == right.http_headers[i].0 by {
        assert(keys(left.http_headers)[i] == keys(right.http_headers)[i]);
    }
    assert(headers_told(left.http_headers) =~= headers_told(right.http_headers));
}

/// Nothing is handed out unless it is asked for in so many words, and nothing of a
/// server that is not reached over HTTP.
pub proof fn law_export_is_guarded(
    server: Seq<char>,
    transport: TransportView,
    reveal: bool,
    environment: Seq<(Seq<char>, Seq<char>)>,
    now: u64,
)
    ensures
        exported_auth(server, transport, reveal, environment, now) is Ok ==> reveal
            && transport is Http,
        !reveal ==> exported_auth(server, transport, reveal, environment, now) == Err::<
            ExportView,
            AuthFailureView,
        >(AuthFailureView::RevealRequired),
{
}

/// A token as it is stored, with the server that it is for.
#[derive(Debug)]
pub struct StoredEntry {
    pub server_name: String,
    pub server_url: String,
    pub access_token: String,
    pub expires_at: Option<u64>,
}

/// What a `StoredEntry` stands for.
pub struct StoredView {
    pub server_name: Seq<char>,
    pub server_url: Seq<char>,
    pub token: TokenView,
}

impl View for StoredEntry {
    type V = StoredView;

    open spec fn view(&self) -> StoredView {
        StoredView {
            server_name: self.server_name@,
            server_url: self.server_url@,
            token: TokenView { access_token: self.access_token@, expires_at: self.expires_at },
        }
    }
}

/// The views of stored tokens.
pub open spec fn stored_views(entries: Seq<StoredEntry>) -> Seq<StoredView> {
    Seq::new(entries.len(), |i: int| entries[i]@)
}

/// The first stored token that is for the server of that name at that address.
pub open spec fn token_for(
    entries: Seq<StoredView>,
    server: Seq<char>,
    url: Seq<char>,
) -> Option<TokenView>
    decreases entries.len(),
{
    if entries.len() == 0 {
        None
    } else if entries[0].server_name == server && entries[0].server_url == url {
        Some(entries[0].token)
    } else {
        token_for(entries.drop_first(), server, url)
    }
}

/// What an optional token stands for.
pub open spec fn optional_token(token: Option<StoredToken>) -> Option<TokenView> {
    match token {
        Some(token) => Some(
            TokenView { access_token: token.access_token@, expires_at: token.expires_at },
        ),
        None => None,
    }
}

/// Finds the stored token of a server.
pub fn find_token(entries: &Vec<StoredEntry>, server: &str, url: &str) -> (token: Option<
    StoredToken,
>)
    ensures
        optional_token(token) == token_for(stored_views(entries@), server@, url@),
{
    let ghost views = stored_views(entries@);
    let mut i: usize = 0;
    assert(views.skip(0) =~= views);
    while i < entries.len()
        invariant
            i <= entries.len(),
            views == stored_views(entries@),
            token_for(views, server@, url@) == token_for(views.skip(i as int), server@, url@),
        decreases entries.len() - i,
    {
        let entry: &StoredEntry = &entries[i];
        assert(views.skip(i as int)[0] == entry@);
        assert(views.skip(i as int).drop_first() =~= views.skip(i + 1));
        if same_text(entry.server_name.as_str(), server) && same_text(
            entry.server_url.as_str(),
            url,
        ) {
            return Some(
                StoredToken {
                    access_token: entry.access_token.clone(),
                    expires_at: entry.expires_at,
                },
            );
        }
        i += 1;
    }
    None
}

/// Whether the runtime signs a server in: it does for those that nobody configured.
pub fn is_signed_in_by_runtime(configured: &Vec<String>, server: &str) -> (answer: bool)
    ensures
        answer == !texts(configured@).contains(server@),
{
    !contains_name(configured, server)
}

/// A way to write headers down: as variables for a shell, or as options for `curl`.
#[derive(Clone, Copy, Debug, PartialEq, Eq, Structural)]
pub enum HeaderFormat {
    Env,
    Curl,
}

/// A header's name as the name of a variable: letters in upper case and digits, and `_`
/// for everything else.
pub open spec fn variable_name(header: Seq<char>) -> Seq<char> {
    Seq::new(
        header.len(),
        |i: int|
            if alphanumeric(header[i]) {
                raised(header[i])
            } else {
                '_'
            },
    )
}

/// The text with each single quote taken out of the quotes around it.
pub open spec fn escaped(text: Seq<char>) -> Seq<char>
    decreases text.len(),
{
    if text.len() == 0 {
        Seq::empty()
    } else if text[0] == '\'' {
        seq!['\'', '\\', '\'', '\''] + escaped(text.drop_first())
    } else {
        seq![text[0]] + escaped(text.drop_first())
    }
}

/// The text as one word of a shell's command line.
pub open spec fn quoted(text: Seq<char>) -> Seq<char> {
    seq!['\''] + escaped(text) + seq!['\'']
}

/// A header on a line of its own.
pub open spec fn header_line(header: (Seq<char>, Seq<char>), format: HeaderFormat) -> Seq<char> {
    match format {
        HeaderFormat::Env => variable_name(header.0) + "="@ + quoted(header.1) + "\n"@,
        HeaderFormat::Curl => "-H "@ + quoted(header.0 + ": "@ + header.1) + "\n"@,
    }
}

/// Headers, a line each.
pub open spec fn rendered(headers: Seq<(Seq<char>, Seq<char>)>, format: HeaderFormat) -> Seq<char>
    decreases headers.len(),
{
    if headers.len() == 0 {
        Seq::empty()
    } else {
        rendered(headers.drop_last(), format) + header_line(headers.last(), format)
    }
}

/// Makes the name of a variable of a header's name.
fn make_variable_name(header: &str) -> (name: String)
    ensures
        name@ == variable_name(header@),
{
    let chars: Vec<char> = chars_of(header);
    let mut name: String = String::new();
    let mut i: usize = 0;
    assert(name@ =~= variable_name(header@).take(0));
    while i < chars.len()
        invariant
            i <= chars.len(),
            chars@ == header@,
            name@ == variable_name(header@).take(i as int),
        decreases chars.len() - i,
    {
        if is_alphanumeric(chars[i]) {
            name.push(raise(chars[i]));
        } else {
            name.push('_');
        }
        assert(name@ =~= variable_name(header@).take(i + 1));
        i += 1;
    }
    assert(variable_name(header@).take(header@.len() as int) =~= variable_name(header@));
    name
}

/// Quotes a text for a shell.
fn quote(text: &str) -> (word: String)
    ensures
        word@ == quoted(text@),
{
    let chars: Vec<char> = chars_of(text);
    let mut word: String = String::new();
    word.push('\'');
    let mut i: usize = 0;
    assert(text@.skip(0) =~= text@);
    assert(word@ =~= seq!['\'']);
    while i < chars.len()
        invariant
            i <= chars.len(),
            chars@ == text@,
            word@ + escaped(text@.skip(i as int)) == seq!['\''] + escaped(text@),
        decreases chars.len() - i,
    {
        let ghost rest = text@.skip(i as int);
        let ghost earlier = word@;
        assert(rest[0] == chars@[i as int]);
        assert(rest.drop_first() =~= text@.skip(i + 1));
        if chars[i] == '\'' {
            word.push('\'');
            word.push('\\');
            word.push('\'');
            word.push('\'');
            assert(word@ =~= earlier + seq!['\'', '\\', '\'', '\'']);
        } else {
            word.push(chars[i]);
            assert(word@ =~= earlier + seq![rest[0]]);
        }
        assert(word@ + escaped(rest.drop_first()) =~= earlier + escaped(rest));
        i += 1;
    }
    assert(escaped(text@.skip(i as int)) =~= Seq::empty());
    assert(word@ =~= seq!['\''] + escaped(text@));
    word.push('\'');
    assert(word@ =~= quoted(text@));
    word
}

/// Writes headers down, a line each.
pub fn export_text(headers: &Vec<(String, String)>, format: HeaderFormat) -> (text: String)
    ensures
        text@ == rendered(text_pairs(headers@), format),
{
    let ghost views = text_pairs(headers@);
    let mut text: String = String::new();
    let mut i: usize = 0;
    assert(text@ =~= rendered(views.take(0), format));
    while i < headers.len()
        invariant
            i <= headers.len(),
            views == text_pairs(headers@),
            text@ == rendered(views.take(i as int), format),
        decreases headers.len() - i,
    {
        let header: &(String, String) = &headers[i];
        let ghost upto = views.take(i + 1);
        let ghost earlier = text@;
        assert(upto.drop_last() =~= views.take(i as int));
        assert(upto.last() == (header.0@, header.1@));
        match format {
            HeaderFormat::Env => {
                text.append(make_variable_name(header.0.as_str()).as_str());
                text.append("=");
                text.append(quote(header.1.as_str()).as_str());
            }
            HeaderFormat::Curl => {
                let mut whole: String = header.0.clone();
                whole.append(": ");
                whole.append(header.1.as_str());
                text.append("-H ");
                text.append(quote(whole.as_str()).as_str());
            }
        }
        text.append("\n");
        assert(text@ =~= earlier + header_line(upto.last(), format));
        i += 1;
    }
    assert(views.take(views.len() as int) =~= views);
    text
}

/// The word that a shell reads, outside or inside single quotes: inside them, every
/// character stands for itself; outside, a backslash makes the next one do so.
pub open spec fn shell_word(text: Seq<char>, inside: bool) -> Option<Seq<char>>
    decreases text.len(),
{
    if text.len() == 0 {
        if inside {
            None
        } else {
            Some(Seq::empty())
        }
    } else if text[0] == '\'' {
        shell_word(text.drop_first(), !inside)
    } else if text[0] == '\\' && !inside {
        if text.len() == 1 {
            None
        } else {
            led_by(text[1], shell_word(text.skip(2), inside))
        }
    } else {
        led_by(text[0], shell_word(text.drop_first(), inside))
    }
}

/// A word with a character in front.
pub open spec fn led_by(character: char, word: Option<Seq<char>>) -> Option<Seq<char>> {
    match word {
        Some(word) => Some(seq![character] + word),
        None => None,
    }
}

/// A shell reads a quoted text as the text itself, whatever it holds.
pub proof fn law_quoted_is_read_back(text: Seq<char>)
    ensures
        shell_word(quoted(text), false) == Some(text),
{
    lemma_escaped_is_read_back(text);
    assert(quoted(text).drop_first() =~= escaped(text) + seq!['\'']);
}

proof fn lemma_escaped_is_read_back(text: Seq<char>)
    ensures
        shell_word(escaped(text) + seq!['\''], true) == Some(text),
    decreases text.len(),
{
    let whole = escaped(text) + seq!['\''];
    if text.len() == 0 {
        assert(whole =~= seq!['\'']);
        assert(whole.drop_first() =~= Seq::empty());
        assert(shell_word(whole.drop_first(), false) == Some(Seq::<char>::empty()));
        assert(text =~= Seq::empty());
    } else {
        let rest = text.drop_first();
        let tail = escaped(rest) + seq!['\''];
        lemma_escaped_is_read_back(rest);
        assert(seq![text[0]] + rest =~= text);
        if text[0] == '\'' {
            assert(whole =~= seq!['\'', '\\', '\'', '\''] + tail);
            let second = whole.drop_first();
            let fourth = second.skip(2);
            assert(second =~= seq!['\\', '\'', '\''] + tail);
            assert(fourth =~= seq!['\''] + tail);
            assert(fourth.drop_first() =~= tail);
            assert(shell_word(fourth, false) == Some(rest));
            assert(shell_word(second, false) == led_by('\'', Some(rest)));
        } else {
            assert(whole =~= seq![text[0]] + tail);
            assert(whole.drop_first() =~= tail);
        }
    }
}

/// The headers that carry secrets are, in whatever case they are written, `Authorization`,
/// `Cookie`, `X-Api-Key`, and those that end with `-Token` or `-Secret`, and no others.
pub proof fn law_sensitive(name: Seq<char>)
    ensures
        sensitive(name) <==> ({
            let key = name.map_values(|character: char| lowered(character));
            ||| key == "authorization"@
            ||| key == "cookie"@
            ||| key == "x-api-key"@
            ||| exists|front: Seq<char>| key == #[trigger] (front + "-token"@)
            ||| exists|front: Seq<char>| key == #[trigger] (front + "-secret"@)
        }),
        sensitive(raised_text(name)) == sensitive(name),
{
    let key = name.map_values(|character: char| lowered(character));
    assert(key =~= lowered_text(name));
    lemma_ends_with(key, "-token"@);
    lemma_ends_with(key, "-secret"@);
    assert(lowered_text(raised_text(name)) =~= lowered_text(name)) by {
        assert forall|i: int| 0 <= i < name.len() implies lowered(raised(name[i])) == lowered(
            name[i],
        ) by {
            lemma_lowered_raised(name[i]);
        }
    }
}

proof fn lemma_ends_with(text: Seq<char>, suffix: Seq<char>)
    ensures
        ends_with(text, suffix) <==> exists|front: Seq<char>| text == #[trigger] (front + suffix),
{
    if ends_with(text, suffix) {
        let front = text.take(text.len() - suffix.len());
        assert(text.skip(text.len() - suffix.len()) == suffix);
        assert(text =~= front + suffix);
    }
    if exists|front: Seq<char>| text == #[trigger] (front + suffix) {
        let front = choose|front: Seq<char>| text == #[trigger] (front + suffix);
        assert(text.skip(text.len() - suffix.len()) =~= suffix);
    }
}

/// An inspection is refused for a server on stdio, and else tells the variable of the token,
/// the names of fixed headers and whether each carries a secret, the variables of the other
/// headers, when a stored token runs out and where it is kept; and it warns of a stored token
/// that has run out and of a sign-in by the runtime.
pub proof fn law_inspection(server: Seq<char>, auth: AuthView, now: u64, at: int)
    ensures
        inspection(server, TransportView::Stdio, now) == Err::<AuthReportView, AuthFailureView>(
            AuthFailureView::StdioUnsupported { server },
        ),
        ({
            &&& inspection(server, TransportView::Http(auth), now) matches Ok(report)
            &&& report.bearer_token_env_var == auth.bearer_token_env_var
            &&& report.http_headers.len() == auth.http_headers.len()
            &&& 0 <= at < auth.http_headers.len() ==> report.http_headers[at] == (
                auth.http_headers[at].0,
                sensitive(auth.http_headers[at].0),
            )
            &&& report.env_http_headers == auth.env_http_headers
            &&& report.oauth_expires_at is Some == auth.mcp_oauth is Some
            &&& auth.mcp_oauth matches Some(token) ==> report.oauth_expires_at == Some(
                token.expires_at,
            )
            &&& report.store_mode == auth.store_mode
            &&& report.warnings.contains(AuthWarning::TokenExpired) <==> has_run_out(auth, now)
            &&& report.warnings.contains(AuthWarning::RuntimeAuth) <==> auth.codex_runtime
            &&& report.warnings.no_duplicates()
        }),
{
    let warnings = inspection(server, TransportView::Http(auth), now)->Ok_0.warnings;
    lemma_warnings(auth, now);
    if has_run_out(auth, now) {
        assert(warnings[0] == AuthWarning::TokenExpired);
    }
    if auth.codex_runtime {
        assert(warnings[warnings.len() - 1] == AuthWarning::RuntimeAuth);
    }
}

/// A stored token is there, and the time at which it runs out has come.
pub open spec fn has_run_out(auth: AuthView, now: u64) -> bool {
    &&& auth.mcp_oauth matches Some(token)
    &&& token.expires_at matches Some(time)
    &&& time <= now
}

proof fn lemma_warnings(auth: AuthView, now: u64)
    ensures
        has_run_out(auth, now) ==> token_warnings(auth, now) == seq![AuthWarning::TokenExpired],
        !has_run_out(auth, now) ==> token_warnings(auth, now).len() == 0,
{
}

/// An export that is asked for in so many words hands out the fixed headers as they are, then
/// the others with the values of their variables, then the header with the token: that of the
/// variable, or else the stored one; and it warns of a stored token that has run out. It is
/// refused for a server on stdio and for one that the runtime signs in, and where a variable
/// is not set, with the name of the first such.
pub proof fn law_export(
    server: Seq<char>,
    auth: AuthView,
    environment: Seq<(Seq<char>, Seq<char>)>,
    now: u64,
)
    ensures
        exported_auth(server, TransportView::Stdio, true, environment, now) == Err::<
            ExportView,
            AuthFailureView,
        >(AuthFailureView::StdioUnsupported { server }),
        ({
            let export = exported_auth(server, TransportView::Http(auth), true, environment, now);
            let named = auth.env_http_headers;
            let fixed = auth.http_headers.len();
            let unset = exists|i: int|
                0 <= i < named.len() && found(environment, (#[trigger] named[i]).1) is None;
            let untold = auth.bearer_token_env_var is Some && found(
                environment,
                auth.bearer_token_env_var->Some_0,
            ) is None;
            let tokens = if auth.bearer_token_env_var is Some || auth.mcp_oauth is Some {
                1int
            } else {
                0int
            };
            &&& auth.codex_runtime ==> export == Err::<ExportView, AuthFailureView>(
                AuthFailureView::RuntimeUnsupported { server },
            )
            &&& !auth.codex_runtime ==> (export is Ok <==> !unset && !untold)
            &&& !auth.codex_runtime && export is Err ==> export->Err_0 is MissingEnvVar
            &&& !auth.codex_runtime && unset ==> exists|i: int|
                0 <= i < named.len() && (#[trigger] named[i]).1 == export->Err_0->name && found(
                    environment,
                    named[i].1,
                ) is None && forall|j: int|
                    0 <= j < i ==> found(environment, (#[trigger] named[j]).1) is Some
            &&& !auth.codex_runtime && !unset && untold ==> auth.bearer_token_env_var == Some(
                export->Err_0->name,
            )
            &&& export matches Ok(shown) ==> {
                &&& shown.headers.len() == fixed + named.len() + tokens
                &&& forall|i: int|
                    0 <= i < fixed ==> #[trigger] shown.headers[i] == auth.http_headers[i]
                &&& forall|i: int|
                    0 <= i < named.len() ==> shown.headers[fixed + i].0 == (
                    #[trigger] named[i]).0 && found(environment, named[i].1) == Some(
                        shown.headers[fixed + i].1,
                    )
                &&& tokens == 1 ==> shown.headers.last().0 == "Authorization"@
                &&& auth.bearer_token_env_var matches Some(variable) ==> found(
                    environment,
                    variable,
                ) matches Some(value) && shown.headers.last().1 == "Bearer "@ + value
                &&& auth.bearer_token_env_var is None ==> (auth.mcp_oauth matches Some(token)
                    ==> shown.headers.last().1 == "Bearer "@ + token.access_token)
                &&& shown.warnings.len() == if has_run_out(auth, now) {
                    1int
                } else {
                    0int
                }
                &&& has_run_out(auth, now) ==> shown.warnings[0] == AuthWarning::TokenExpired
            }
        }),
{
    lemma_resolved_headers(auth.env_http_headers, environment);
    lemma_warnings(auth, now);
}

proof fn lemma_resolved_headers(
    headers: Seq<(Seq<char>, Seq<char>)>,
    environment: Seq<(Seq<char>, Seq<char>)>,
)
    ensures
        resolved_headers(headers, environment) is Err <==> exists|i: int|
            0 <= i < headers.len() && found(environment, (#[trigger] headers[i]).1) is None,
        match resolved_headers(headers, environment) {
            Ok(resolved) => resolved.len() == headers.len() && forall|i: int|
                0 <= i < headers.len() ==> resolved[i].0 == (#[trigger] headers[i]).0 && found(
                    environment,
                    headers[i].1,
                ) == Some(resolved[i].1),
            Err(failure) => failure is MissingEnvVar && exists|i: int|
                0 <= i < headers.len() && (#[trigger] headers[i]).1 == failure->name && found(
                    environment,
                    headers[i].1,
                ) is None && forall|j: int|
                    0 <= j < i ==> found(environment, (#[trigger] headers[j]).1) is Some,
        },
    decreases headers.len(),
{
    if headers.len() > 0 {
        let front = headers.drop_last();
        lemma_resolved_headers(front, environment);
        if resolved_headers(front, environment) is Err {
            let failure = resolved_headers(front, environment)->Err_0;
            let i = choose|i: int|
                0 <= i < front.len() && (#[trigger] front[i]).1 == failure->name && found(
                    environment,
                    front[i].1,
                ) is None && forall|j: int|
                    0 <= j < i ==> found(environment, (#[trigger] front[j]).1) is Some;
            assert(headers[i] == front[i]);
            assert forall|j: int| 0 <= j < i implies found(
                environment,
                (#[trigger] headers[j]).1,
            ) is Some by {
                assert(front[j] == headers[j]);
            }
        } else {
            assert(headers[headers.len() - 1] == headers.last());
            if exists|i: int|
                0 <= i < headers.len() && found(environment, (#[trigger] headers[i]).1) is None {
                let i = choose|i: int|
                    0 <= i < headers.len() && found(environment, (#[trigger] headers[i]).1) is None;
                if i < front.len() {
                    assert(front[i] == headers[i]);
                }
            }
            match resolved_headers(headers, environment) {
                Ok(resolved) => {
                    assert forall|i: int| 0 <= i < headers.len() implies resolved[i].0 == (
                    #[trigger] headers[i]).0 && found(environment, headers[i].1) == Some(
                        resolved[i].1,
                    ) by {
                        if i < front.len() {
                            assert(front[i] == headers[i]);
                        }
                    }
                },
                Err(_) => {
                    assert forall|j: int| 0 <= j < front.len() implies found(
                        environment,
                        (#[trigger] headers[j]).1,
                    ) is Some by {
                        assert(front[j] == headers[j]);
                    }
                },
            }
        }
    }
}

/// The token of a server is that of the first stored entry with its name and its address,
/// and there is none exactly if no entry has both.
pub proof fn law_token(entries: Seq<StoredView>, server: Seq<char>, url: Seq<char>)
    ensures
        match token_for(entries, server, url) {
            Some(token) => exists|i: int|
                0 <= i < entries.len() && (#[trigger] entries[i]).token == token
                    && entries[i].server_name == server && entries[i].server_url == url && forall|
                    j: int,
                |
                    0 <= j < i ==> (#[trigger] entries[j]).server_name != server
                        || entries[j].server_url != url,
            None => forall|i: int|
                0 <= i < entries.len() ==> (#[trigger] entries[i]).server_name != server
                    || entries[i].server_url != url,
        },
    decreases entries.len(),
{
    if entries.len() > 0 {
        let rest = entries.drop_first();
        law_token(rest, server, url);
        if entries[0].server_name == server && entries[0].server_url == url {
            assert(entries[0].token == token_for(entries, server, url)->Some_0);
        } else {
            match token_for(rest, server, url) {
                Some(token) => {
                    let i = choose|i: int|
                        0 <= i < rest.len() && (#[trigger] rest[i]).token == token
                            && rest[i].server_name == server && rest[i].server_url == url && forall|
                            j: int,
                        |
                            0 <= j < i ==> (#[trigger] rest[j]).server_name != server
                                || rest[j].server_url != url;
                    assert(entries[i + 1] == rest[i]);
                    assert forall|j: int| 0 <= j < i + 1 implies (
                    #[trigger] entries[j]).server_name != server || entries[j].server_url != url by {
                        if j > 0 {
                            assert(rest[j - 1] == entries[j]);
                        }
                    }
                },
                None => {
                    assert forall|i: int| 0 <= i < entries.len() implies (
                    #[trigger] entries[i]).server_name != server || entries[i].server_url != url by {
                        if i > 0 {
                            assert(rest[i - 1] == entries[i]);
                        }
                    }
                },
            }
        }
    }
}

/// Headers are written one line each, in order: for a shell as a variable and its value, for
/// `curl` as an option with the name and the value in one word.
pub proof fn law_rendered(
    headers: Seq<(Seq<char>, Seq<char>)>,
    name: Seq<char>,
    value: Seq<char>,
    format: HeaderFormat,
    at: int,
)
    ensures
        rendered(Seq::empty(), format).len() == 0,
        rendered(headers.push((name, value)), HeaderFormat::Env) == rendered(
            headers,
            HeaderFormat::Env,
        ) + variable_name(name) + "="@ + quoted(value) + "\n"@,
        rendered(headers.push((name, value)), HeaderFormat::Curl) == rendered(
            headers,
            HeaderFormat::Curl,
        ) + "-H "@ + quoted(name + ": "@ + value) + "\n"@,
        variable_name(name).len() == name.len(),
        0 <= at < name.len() ==> variable_name(name)[at] == if alphanumeric(name[at]) {
            raised(name[at])
        } else {
            '_'
        },
{
    let more = headers.push((name, value));
    assert(more.drop_last() =~= headers);
    assert(rendered(more, HeaderFormat::Env) =~= rendered(headers, HeaderFormat::Env)
        + variable_name(name) + "="@ + quoted(value) + "\n"@);
    assert(rendered(more, HeaderFormat::Curl) =~= rendered(headers, HeaderFormat::Curl) + "-H "@
        + quoted(name + ": "@ + value) + "\n"@);
}

/// The messages say what is refused and why, with the names that they are about.
pub proof fn law_auth_messages(server: Seq<char>, name: Seq<char>)
    ensures
        (AuthFailureView::StdioUnsupported { server }).text() == "MCP server '"@ + server
            + "' uses stdio; auth commands support streamable HTTP servers only"@,
        AuthFailureView::RevealRequired.text()
            == "auth export prints secret header values; pass --reveal to confirm"@,
        (AuthFailureView::MissingEnvVar { name }).text() == "environment variable "@ + name
            + " is not set"@,
        (AuthFailureView::RuntimeUnsupported { server }).text() == "MCP server '"@ + server
            + "' is signed in by the Codex runtime; its auth cannot be exported"@,
        AuthWarning::TokenExpired.text()
            == "the stored access token has expired; the provider will reject it with 401"@,
        AuthWarning::RuntimeAuth.text()
            == "the Codex runtime signs requests in; the auth cannot be exported"@,
{
}

/// What the values of a sign-in stand for are their fields, each its own.
pub proof fn law_auth_views(
    auth: HttpAuth,
    report: AuthReport,
    export: AuthExport,
    entry: StoredEntry,
)
    ensures
        auth@.bearer_token_env_var == optional_text(auth.bearer_token_env_var),
        auth@.http_headers == text_pairs(auth.http_headers@),
        auth@.env_http_headers == text_pairs(auth.env_http_headers@),
        auth.mcp_oauth matches Some(token) ==> (auth@.mcp_oauth matches Some(shown)
            && shown.access_token == token.access_token@ && shown.expires_at == token.expires_at),
        auth.mcp_oauth is None ==> auth@.mcp_oauth is None,
        auth@.store_mode == auth.store_mode,
        auth@.codex_runtime == auth.codex_runtime,
        ServerTransport::Http(auth)@ == TransportView::Http(auth@),
        ServerTransport::Stdio@ is Stdio,
        report@.bearer_token_env_var == optional_text(report.bearer_token_env_var),
        report@.http_headers.len() == report.http_headers@.len(),
        forall|i: int|
            0 <= i < report.http_headers@.len() ==> #[trigger] report@.http_headers[i] == (
                report.http_headers@[i].name@,
                report.http_headers@[i].sensitive,
            ),
        report@.env_http_headers == text_pairs(report.env_http_headers@),
        report@.oauth_expires_at == report.oauth_expires_at,
        report@.store_mode == report.store_mode,
        report@.warnings == report.warnings@,
        export@.headers == text_pairs(export.headers@),
        export@.warnings == export.warnings@,
        entry@.server_name == entry.server_name@,
        entry@.server_url == entry.server_url@,
        entry@.token.access_token == entry.access_token@,
        entry@.token.expires_at == entry.expires_at,
{
}

/// What a refusal or a result stands for is that refusal or that result.
pub proof fn law_auth_results(
    report: AuthReport,
    export: AuthExport,
    failure: AuthFailure,
    token: StoredToken,
    entries: Seq<StoredEntry>,
    at: int,
)
    ensures
        inspection_view(Ok(report)) == Ok::<AuthReportView, AuthFailureView>(report@),
        inspection_view(Err(failure)) == Err::<AuthReportView, AuthFailureView>(failure@),
        export_view(Ok(export)) == Ok::<ExportView, AuthFailureView>(export@),
        export_view(Err(failure)) == Err::<ExportView, AuthFailureView>(failure@),
        optional_token(Some(token)) matches Some(shown) && shown.access_token
            == token.access_token@ && shown.expires_at == token.expires_at,
        optional_token(None) is None,
        stored_views(entries).len() == entries.len(),
        0 <= at < entries.len() ==> stored_views(entries)[at] == entries[at]@,
        match failure {
            AuthFailure::StdioUnsupported { server } =>
                failure@ matches AuthFailureView::StdioUnsupported { server: name } && name
                == server@,
            AuthFailure::RevealRequired => failure@ is RevealRequired,
            AuthFailure::MissingEnvVar { name } => failure@ matches AuthFailureView::MissingEnvVar {
                name: variable,
            } && variable == name@,
            AuthFailure::RuntimeUnsupported { server } =>
                failure@ matches AuthFailureView::RuntimeUnsupported { server: name } && name
                == server@,
        },
{
}

} // verus!
