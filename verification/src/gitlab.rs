//! GitLab settings, OAuth client set-up, the cache of GitLab projects and the
//! lookup of an archive id in a project's manifest.
use vstd::prelude::*;
use vstd::string::StrSliceExecFns;
use vstd::string::StringExecFns;
use crate::text::{chars_of, has_prefix_at, trim, trim_bounds};
use crate::extractor::{lemma_rfind_range, rfind};
use oauth2::{AuthUrl, RedirectUrl, TokenUrl};

verus! {

/// How to reach a GitLab instance.
pub struct GitlabConfig {
    pub url: String,
    pub token: Option<String>,
    pub app_id: Option<String>,
    pub app_secret: Option<String>,
}

/// `https://`
pub open spec fn https_prefix() -> Seq<char> {
    seq!['h', 't', 't', 'p', 's', ':', '/', '/']
}

/// `http://`
pub open spec fn http_prefix() -> Seq<char> {
    seq!['h', 't', 't', 'p', ':', '/', '/']
}

/// A URL without its `https://` or `http://` scheme, and whether the scheme
/// was plain `http`.
pub open spec fn split_url(url: Seq<char>) -> (Seq<char>, bool) {
    if https_prefix().is_prefix_of(url) {
        (url.skip(8), false)
    } else if http_prefix().is_prefix_of(url) {
        (url.skip(7), true)
    } else {
        (url, false)
    }
}

impl GitlabConfig {
    pub fn new(url: String, token: Option<String>, app_id: Option<String>, app_secret: Option<String>) -> (r: Self)
        ensures
            r.url == url,
            r.token == token,
            r.app_id == app_id,
            r.app_secret == app_secret,
    {
        GitlabConfig { url, token, app_id, app_secret }
    }

    /// The host part of `url` and whether it asks for plain `http`.
    pub fn split(url: &str) -> (r: (&str, bool))
        ensures
            (r.0@, r.1) == split_url(url@),
    {
        let v = chars_of(url);
        let https = chars_of("https://");
        let http = chars_of("http://");
        proof {
            reveal_strlit("https://");
            reveal_strlit("http://");
        }
        assert(v@.subrange(0, v@.len() as int) =~= v@);
        if has_prefix_at(&v, 0, v.len(), &https) {
            (url.substring_char(8, v.len()), false)
        } else if has_prefix_at(&v, 0, v.len(), &http) {
            (url.substring_char(7, v.len()), true)
        } else {
            (url, false)
        }
    }
}

/// The settings of a GitLab instance that OAuth needs.
pub struct GitLab {
    pub url: String,
    pub id: Option<String>,
    pub secret: Option<String>,
}

/// Why an OAuth client could not be set up.
pub enum OAuthError {
    InvalidAuthURL(String),
    InvalidTokenURL(String),
    InvalidRedirectURL(String),
    MissingAppID,
    MissingAppSecret,
}

/// The code a GitLab OAuth callback carries.
pub struct AuthRequest {
    pub code: String,
}

/// A GitLab user as the `/api/v4/user` endpoint describes it.
pub struct GitlabUser {
    pub id: i64,
    pub username: String,
    pub name: String,
    pub avatar_url: String,
    pub email: Option<String>,
    pub can_create_group: bool,
    pub can_create_project: bool,
}

/// A checked OAuth client description for a GitLab instance: its client
/// credentials and the texts of its authorization, token and redirect URLs,
/// each of which `oauth2` accepted.
pub struct GitLabOAuth {
    pub client_id: String,
    pub client_secret: String,
    pub auth_url: String,
    pub token_url: String,
    pub redirect_url: String,
    pub gitlab: GitLab,
}

#[verifier::external_type_specification]
#[verifier::external_body]
pub struct ExAuthUrl(oauth2::AuthUrl);

#[verifier::external_type_specification]
#[verifier::external_body]
pub struct ExTokenUrl(oauth2::TokenUrl);

#[verifier::external_type_specification]
#[verifier::external_body]
pub struct ExRedirectUrl(oauth2::RedirectUrl);

#[verifier::external_type_specification]
#[verifier::external_body]
pub struct ExParseError(url::ParseError);

/// Whether `oauth2::AuthUrl::new` accepts the text `url`.
pub uninterp spec fn auth_url_accepts(url: Seq<char>) -> bool;

/// Whether `oauth2::TokenUrl::new` accepts the text `url`.
pub uninterp spec fn token_url_accepts(url: Seq<char>) -> bool;

/// Whether `oauth2::RedirectUrl::new` accepts the text `url`.
pub uninterp spec fn redirect_url_accepts(url: Seq<char>) -> bool;

/// Calls `oauth2::AuthUrl::new`, which parses `url` with `url::Url::parse`.
/// Claimed: it succeeds exactly on the texts `auth_url_accepts` names, a
/// function of the text alone.
#[verifier::external_body]
fn new_auth_url(url: String) -> (r: Result<AuthUrl, url::ParseError>)
    ensures
        r is Ok <==> auth_url_accepts(url@),
{
    AuthUrl::new(url)
}

/// Calls `oauth2::TokenUrl::new`, which parses `url` with `url::Url::parse`.
/// Claimed: it succeeds exactly on the texts `token_url_accepts` names, a
/// function of the text alone.
#[verifier::external_body]
fn new_token_url(url: String) -> (r: Result<TokenUrl, url::ParseError>)
    ensures
        r is Ok <==> token_url_accepts(url@),
{
    TokenUrl::new(url)
}

/// Calls `oauth2::RedirectUrl::new`, which parses `url` with
/// `url::Url::parse`. Claimed: it succeeds exactly on the texts
/// `redirect_url_accepts` names, a function of the text alone.
#[verifier::external_body]
fn new_redirect_url(url: String) -> (r: Result<RedirectUrl, url::ParseError>)
    ensures
        r is Ok <==> redirect_url_accepts(url@),
{
    RedirectUrl::new(url)
}

/// `/oauth/authorize`
pub open spec fn authorize_path() -> Seq<char> {
    seq!['/', 'o', 'a', 'u', 't', 'h', '/', 'a', 'u', 't', 'h', 'o', 'r', 'i', 'z', 'e']
}

/// `/oauth/token`
pub open spec fn token_path() -> Seq<char> {
    seq!['/', 'o', 'a', 'u', 't', 'h', '/', 't', 'o', 'k', 'e', 'n']
}

/// `/api/v4/user`
pub open spec fn user_api_path() -> Seq<char> {
    seq!['/', 'a', 'p', 'i', '/', 'v', '4', '/', 'u', 's', 'e', 'r']
}

/// `base` followed by `suffix`.
fn joined(base: &String, suffix: &str) -> (r: String)
    ensures
        r@ == base@ + suffix@,
{
    let mut r = base.clone();
    r.append(suffix);
    r
}

/// A copy of an optional string.
pub fn clone_opt(o: &Option<String>) -> (r: Option<String>)
    ensures
        r == *o,
{
    match o {
        Some(s) => Some(s.clone()),
        None => None,
    }
}

impl GitLab {
    /// Sets up an OAuth client for this instance, redirecting to `redirect`.
    pub fn new_oauth(&self, redirect: &str) -> (r: Result<GitLabOAuth, OAuthError>)
        ensures
            match (self.id, self.secret) {
                (None, _) => r matches Err(OAuthError::MissingAppID),
                (Some(_), None) => r matches Err(OAuthError::MissingAppSecret),
                (Some(i), Some(s)) => {
                    let au = self.url@ + authorize_path();
                    let tu = self.url@ + token_path();
                    if !auth_url_accepts(au) {
                        r matches Err(OAuthError::InvalidAuthURL(e)) && e@ == au
                    } else if !token_url_accepts(tu) {
                        r matches Err(OAuthError::InvalidTokenURL(e)) && e@ == tu
                    } else if !redirect_url_accepts(redirect@) {
                        r matches Err(OAuthError::InvalidRedirectURL(e)) && e@ == redirect@
                    } else {
                        &&& r matches Ok(o)
                        &&& o.client_id@ == i@
                        &&& o.client_secret@ == s@
                        &&& o.auth_url@ == au
                        &&& o.token_url@ == tu
                        &&& o.redirect_url@ == redirect@
                        &&& o.gitlab.url@ == self.url@
                        &&& o.gitlab.id == self.id
                        &&& o.gitlab.secret == self.secret
                    }
                },
            },
    {
        let app_id = match &self.id {
            Some(i) => i,
            None => {
                return Err(OAuthError::MissingAppID);
            },
        };
        let app_secret = match &self.secret {
            Some(s) => s,
            None => {
                return Err(OAuthError::MissingAppSecret);
            },
        };
        proof {
            reveal_strlit("/oauth/authorize");
            reveal_strlit("/oauth/token");
            assert("/oauth/authorize"@ =~= authorize_path());
            assert("/oauth/token"@ =~= token_path());
        }
        let au = joined(&self.url, "/oauth/authorize");
        match new_auth_url(au.clone()) {
            Ok(_) => {},
            Err(_) => {
                return Err(OAuthError::InvalidAuthURL(au));
            },
        };
        let tu = joined(&self.url, "/oauth/token");
        match new_token_url(tu.clone()) {
            Ok(_) => {},
            Err(_) => {
                return Err(OAuthError::InvalidTokenURL(tu));
            },
        };
        match new_redirect_url(String::from_str(redirect)) {
            Ok(_) => {},
            Err(_) => {
                return Err(OAuthError::InvalidRedirectURL(String::from_str(redirect)));
            },
        };
        Ok(
            GitLabOAuth {
                client_id: app_id.clone(),
                client_secret: app_secret.clone(),
                auth_url: au,
                token_url: tu,
                redirect_url: String::from_str(redirect),
                gitlab: GitLab { url: self.url.clone(), id: clone_opt(&self.id), secret: clone_opt(&self.secret) },
            },
        )
    }

    /// The endpoint that describes the user a token belongs to.
    pub fn user_api_url(&self) -> (r: String)
        ensures
            r@ == self.url@ + user_api_path(),
    {
        proof {
            reveal_strlit("/api/v4/user");
            assert("/api/v4/user"@ =~= user_api_path());
        }
        joined(&self.url, "/api/v4/user")
    }
}

/// The text of `OAuthError::message`.
pub open spec fn oauth_error_text(e: OAuthError) -> Seq<char> {
    match e {
        OAuthError::InvalidAuthURL(s) => "Invalid auth url: "@ + s@,
        OAuthError::InvalidTokenURL(s) => "Invalid token url: "@ + s@,
        OAuthError::InvalidRedirectURL(s) => "Invalid redirect url: "@ + s@,
        OAuthError::MissingAppID => "Missing app id"@,
        OAuthError::MissingAppSecret => "Missing secret"@,
    }
}

impl OAuthError {
    /// A human-readable description of the error.
    pub fn message(&self) -> (r: String)
        ensures
            r@ == oauth_error_text(*self),
    {
        match self {
            OAuthError::InvalidAuthURL(s) => String::from_str("Invalid auth url: ").concat(s.as_str()),
            OAuthError::InvalidTokenURL(s) => String::from_str("Invalid token url: ").concat(s.as_str()),
            OAuthError::InvalidRedirectURL(s) => String::from_str("Invalid redirect url: ").concat(s.as_str()),
            OAuthError::MissingAppID => String::from_str("Missing app id"),
            OAuthError::MissingAppSecret => String::from_str("Missing secret"),
        }
    }
}

/// Whether an entry of a repository tree is a directory or a file.
#[derive(Clone, Copy, Debug, PartialEq, Eq, Structural)]
pub enum DirOrFile {
    Dir,
    File,
}

/// An entry of a repository tree.
pub struct TreeEntry {
    pub name: String,
    pub path: String,
    pub kind: DirOrFile,
}

/// `c` with an ASCII upper-case letter turned to lower case.
pub open spec fn ascii_lower(c: char) -> char {
    if 'A' <= c <= 'Z' {
        ((c as u32) + 32) as char
    } else {
        c
    }
}

/// Whether `a` and `b` agree up to ASCII case, as `str::eq_ignore_ascii_case`.
pub open spec fn eq_ascii_case(a: Seq<char>, b: Seq<char>) -> bool {
    &&& a.len() == b.len()
    &&& forall|i: int| 0 <= i < a.len() ==> ascii_lower(#[trigger] a[i]) == ascii_lower(b[i])
}

/// Whether `a` agrees with `lower` up to ASCII case, where `lower` holds no
/// ASCII upper-case letter.
fn eq_ignore_case(a: &str, lower: &str) -> (r: bool)
    requires
        forall|i: int| 0 <= i < lower@.len() ==> !('A' <= #[trigger] lower@[i] <= 'Z'),
    ensures
        r == eq_ascii_case(a@, lower@),
{
    let v = chars_of(a);
    let w = chars_of(lower);
    if v.len() != w.len() {
        return false;
    }
    let mut i: usize = 0;
    while i < v.len()
        invariant
            v@ == a@,
            w@ == lower@,
            v@.len() == w@.len(),
            i <= v@.len(),
            forall|j: int| 0 <= j < lower@.len() ==> !('A' <= #[trigger] lower@[j] <= 'Z'),
            forall|j: int| 0 <= j < i ==> ascii_lower(#[trigger] a@[j]) == ascii_lower(lower@[j]),
        decreases v@.len() - i,
    {
        let c = v[i];
        let d = w[i];
        let same = if 'A' <= c && c <= 'Z' {
            (c as u32) + 32 == (d as u32)
        } else {
            c == d
        };
        if !same {
            assert(!('A' <= lower@[i as int] <= 'Z'));
            assert(ascii_lower(a@[i as int]) != ascii_lower(lower@[i as int]));
            return false;
        }
        i = i + 1;
    }
    true
}

/// The index of the first entry whose `path` (or `name`, when `by_name`) is
/// `target` up to ASCII case and whose kind is `kind`, or -1.
pub open spec fn first_entry(entries: Seq<TreeEntry>, target: Seq<char>, by_name: bool, kind: DirOrFile) -> int
    decreases entries.len(),
{
    if entries.len() == 0 {
        -1
    } else if eq_ascii_case(if by_name { entries[0].name@ } else { entries[0].path@ }, target)
        && entries[0].kind == kind {
        0
    } else {
        let k = first_entry(entries.skip(1), target, by_name, kind);
        if k < 0 {
            -1
        } else {
            k + 1
        }
    }
}

/// `first_entry` is -1 or an index of `entries`.
proof fn lemma_first_entry_range(entries: Seq<TreeEntry>, target: Seq<char>, by_name: bool, kind: DirOrFile)
    ensures
        -1 <= first_entry(entries, target, by_name, kind) < entries.len(),
    decreases entries.len(),
{
    if entries.len() > 0 {
        lemma_first_entry_range(entries.skip(1), target, by_name, kind);
    }
}

/// The path of the first entry that matches, as `first_entry` picks it.
fn find_entry(entries: &Vec<TreeEntry>, target: &str, by_name: bool, kind: DirOrFile) -> (r: Option<String>)
    requires
        forall|i: int| 0 <= i < target@.len() ==> !('A' <= #[trigger] target@[i] <= 'Z'),
    ensures
        ({
            let k = first_entry(entries@, target@, by_name, kind);
            &&& -1 <= k < entries@.len()
            &&& match r {
                Some(p) => k >= 0 && p@ == entries@[k].path@,
                None => k == -1,
            }
        }),
{
    let mut i: usize = 0;
    assert(entries@.skip(0) =~= entries@);
    proof {
        lemma_first_entry_range(entries@, target@, by_name, kind);
    }
    while i < entries.len()
        invariant
            i <= entries@.len(),
            forall|j: int| 0 <= j < target@.len() ==> !('A' <= #[trigger] target@[j] <= 'Z'),
            first_entry(entries@, target@, by_name, kind) == (if first_entry(entries@.skip(i as int), target@, by_name, kind) < 0 {
                -1
            } else {
                first_entry(entries@.skip(i as int), target@, by_name, kind) + i
            }),
            -1 <= first_entry(entries@.skip(i as int), target@, by_name, kind) < entries@.len() - i,
        decreases entries@.len() - i,
    {
        let e = &entries[i];
        let key = if by_name {
            e.name.as_str()
        } else {
            e.path.as_str()
        };
        assert(entries@.skip(i as int)[0] == entries@[i as int]);
        if eq_ignore_case(key, target) && e.kind == kind {
            return Some(e.path.clone());
        }
        assert(entries@.skip(i as int).skip(1) =~= entries@.skip(i + 1));
        proof {
            lemma_first_entry_range(entries@.skip(i + 1), target@, by_name, kind);
        }
        i = i + 1;
    }
    None
}

/// The path of the `META-INF` directory among `entries`, matched up to
/// ASCII case.
pub fn find_meta_inf(entries: &Vec<TreeEntry>) -> (r: Option<String>)
    ensures
        ({
            let k = first_entry(entries@, "meta-inf"@, false, DirOrFile::Dir);
            match r {
                Some(p) => 0 <= k < entries@.len() && p@ == entries@[k].path@,
                None => k == -1,
            }
        }),
{
    proof {
        reveal_strlit("meta-inf");
    }
    find_entry(entries, "meta-inf", false, DirOrFile::Dir)
}

/// The path of the `MANIFEST.MF` file among `entries`, its name matched up
/// to ASCII case.
pub fn find_manifest(entries: &Vec<TreeEntry>) -> (r: Option<String>)
    ensures
        ({
            let k = first_entry(entries@, "manifest.mf"@, true, DirOrFile::File);
            match r {
                Some(p) => 0 <= k < entries@.len() && p@ == entries@[k].path@,
                None => k == -1,
            }
        }),
{
    proof {
        reveal_strlit("manifest.mf");
    }
    find_entry(entries, "manifest.mf", true, DirOrFile::File)
}

/// The index of the first line break in `s`, or its length.
pub open spec fn line_end(s: Seq<char>) -> int
    decreases s.len(),
{
    if s.len() == 0 || s[0] == '\n' {
        0
    } else {
        1 + line_end(s.skip(1))
    }
}

/// `line_end` is the first line break, or the end.
pub proof fn lemma_line_end(s: Seq<char>, k: int)
    requires
        0 <= k <= s.len(),
        k < s.len() ==> s[k] == '\n',
        forall|j: int| 0 <= j < k ==> s[j] != '\n',
    ensures
        line_end(s) == k,
    decreases s.len(),
{
    if s.len() > 0 && s[0] != '\n' {
        assert forall|j: int| 0 <= j < k - 1 implies s.skip(1)[j] != '\n' by {
            assert(s.skip(1)[j] == s[j + 1]);
        }
        lemma_line_end(s.skip(1), k - 1);
    }
}

/// `line_end` lies within `s`.
pub proof fn lemma_line_end_range(s: Seq<char>)
    ensures
        0 <= line_end(s) <= s.len(),
    decreases s.len(),
{
    if s.len() > 0 && s[0] != '\n' {
        lemma_line_end_range(s.skip(1));
    }
}

/// `id:`
pub open spec fn id_key() -> Seq<char> {
    seq!['i', 'd', ':']
}

/// The archive id a manifest declares: the trimmed rest of its first line
/// that starts with `id:` once trimmed.
pub open spec fn manifest_id(s: Seq<char>) -> Option<Seq<char>>
    decreases s.len(),
{
    let e = line_end(s);
    let line = trim(s.take(e));
    if id_key().is_prefix_of(line) {
        Some(trim(line.skip(3)))
    } else if e >= s.len() {
        None
    } else {
        proof {
            lemma_line_end_range(s);
        }
        manifest_id(s.skip(e + 1))
    }
}

/// The archive id declared in the text of a `MANIFEST.MF` file.
pub fn archive_id_from_manifest(text: &str) -> (r: Option<String>)
    ensures
        match r {
            Some(x) => manifest_id(text@) == Some(x@),
            None => manifest_id(text@) is None,
        },
{
    let v = chars_of(text);
    let key = chars_of("id:");
    proof {
        reveal_strlit("id:");
        assert(key@ =~= id_key());
        assert(v@.skip(0) =~= v@);
    }
    let mut pos: usize = 0;
    loop
        invariant
            v@ == text@,
            key@ == id_key(),
            pos <= v@.len(),
            manifest_id(v@) == manifest_id(v@.skip(pos as int)),
        decreases v@.len() - pos,
    {
        let mut e = pos;
        while e < v.len() && v[e] != '\n'
            invariant
                pos <= e <= v@.len(),
                forall|j: int| pos <= j < e ==> v@[j] != '\n',
            decreases v@.len() - e,
        {
            e = e + 1;
        }
        let ghost rest = v@.skip(pos as int);
        proof {
            lemma_line_end(rest, e - pos);
            assert(rest.take(e - pos) =~= v@.subrange(pos as int, e as int));
        }
        let (a, b) = trim_bounds(&v, pos, e);
        if has_prefix_at(&v, a, b, &key) {
            let (c, d) = trim_bounds(&v, a + 3, b);
            proof {
                assert(v@.subrange(a as int, b as int).skip(3) =~= v@.subrange(a + 3, b as int));
            }
            return Some(text.substring_char(c, d).to_owned());
        }
        if e == v.len() {
            return None;
        }
        proof {
            assert(rest.skip(e - pos + 1) =~= v@.skip(e + 1));
        }
        pos = e + 1;
    }
}

/// Whether the GitLab connection is absent, being set up, ready or failed.
pub enum MaybeGitlab {
    Absent,
    Loading,
    Loaded(GitLab),
    Failed,
}

/// What a wait for the GitLab connection does next.
pub enum GetStep {
    /// The wait is over, with the connection if there is one.
    Done(Option<GitLab>),
    /// The connection is still being set up: wait and ask again.
    Wait,
}

/// The process-wide GitLab connection state.
pub struct GLInstance {
    pub state: MaybeGitlab,
}

impl GLInstance {
    /// An instance with no GitLab configured.
    pub fn new() -> (r: Self)
        ensures
            r.state is Absent,
    {
        GLInstance { state: MaybeGitlab::Absent }
    }

    /// Whether a GitLab instance is configured at all.
    pub fn is_configured(&self) -> (r: bool)
        ensures
            r == !(self.state is Absent),
    {
        !matches!(self.state, MaybeGitlab::Absent)
    }

    /// Whether the connection is ready.
    pub fn has_loaded(&self) -> (r: bool)
        ensures
            r == (self.state is Loaded),
    {
        matches!(self.state, MaybeGitlab::Loaded(_))
    }

    /// Marks the connection as being set up.
    pub fn start_loading(&mut self)
        ensures
            final(self).state is Loading,
    {
        self.state = MaybeGitlab::Loading;
    }

    /// Records the outcome of setting up the connection.
    pub fn finish_loading(&mut self, outcome: Option<GitLab>)
        ensures
            match outcome {
                Some(g) => final(self).state == MaybeGitlab::Loaded(g),
                None => final(self).state is Failed,
            },
    {
        self.state = match outcome {
            Some(g) => MaybeGitlab::Loaded(g),
            None => MaybeGitlab::Failed,
        };
    }

    /// One step of waiting for the connection.
    pub fn poll(&self) -> (r: GetStep)
        ensures
            match self.state {
                MaybeGitlab::Absent | MaybeGitlab::Failed => r matches GetStep::Done(None),
                MaybeGitlab::Loading => r is Wait,
                MaybeGitlab::Loaded(g) => r matches GetStep::Done(Some(h)) && h.url@ == g.url@ && h.id
                    == g.id && h.secret == g.secret,
            },
    {
        match &self.state {
            MaybeGitlab::Absent | MaybeGitlab::Failed => GetStep::Done(None),
            MaybeGitlab::Loading => GetStep::Wait,
            MaybeGitlab::Loaded(g) => GetStep::Done(
                Some(GitLab { url: g.url.clone(), id: clone_opt(&g.id), secret: clone_opt(&g.secret) }),
            ),
        }
    }
}

/// A known project and, once looked up, the archive id its manifest declares.
pub struct ProjectWithId {
    pub project_id: u64,
    pub archive: Option<Option<String>>,
}

/// The projects known so far, at most one entry per project id.
pub struct ProjectCache {
    pub entries: Vec<ProjectWithId>,
}

/// The entry of `s` for project `id`, or -1.
pub open spec fn entry_of(s: Seq<ProjectWithId>, id: u64) -> int {
    rfind(s, id_is(id))
}

/// The predicate "is the entry of project `id`".
pub open spec fn id_is(id: u64) -> spec_fn(ProjectWithId) -> bool {
    |e: ProjectWithId| e.project_id == id
}

/// Whether `s` holds project `id`.
pub open spec fn has_project(s: Seq<ProjectWithId>, id: u64) -> bool {
    exists|i: int| 0 <= i < s.len() && #[trigger] s[i].project_id == id
}

/// What the cache holds for project `id`: the archive id looked up for
/// it, if it is known and was looked up.
pub open spec fn cached_result(s: Seq<ProjectWithId>, id: u64) -> Option<Option<String>> {
    let k = entry_of(s, id);
    if k >= 0 && s[k].archive is Some {
        s[k].archive
    } else {
        None
    }
}

/// The entries after recording `archive` for project `id`: the project's
/// entry gets it, if the project is known.
pub open spec fn resolved(s: Seq<ProjectWithId>, id: u64, archive: Option<String>) -> Seq<ProjectWithId> {
    let k = entry_of(s, id);
    if k >= 0 {
        s.update(k, ProjectWithId { project_id: id, archive: Some(archive) })
    } else {
        s
    }
}

/// After recording an archive id for a known project, the cache gives it
/// back for that project, and what it gives for any other project is
/// unchanged.
pub proof fn law_cached_after_resolve(s: Seq<ProjectWithId>, id: u64, archive: Option<String>, other: u64)
    requires
        has_project(s, id),
    ensures
        cached_result(resolved(s, id, archive), id) == Some(archive),
        other != id ==> cached_result(resolved(s, id, archive), other) == cached_result(s, other),
{
    let i = choose|i: int| 0 <= i < s.len() && #[trigger] s[i].project_id == id;
    crate::extractor::lemma_rfind_ge(s, id_is(id), i);
    let k = entry_of(s, id);
    let t = resolved(s, id, archive);
    assert forall|j: int| 0 <= j < s.len() implies id_is(id)(#[trigger] s[j]) == id_is(id)(t[j]) by {}
    crate::extractor::lemma_rfind_same_hits(s, t, id_is(id));
    assert forall|j: int| 0 <= j < s.len() implies id_is(other)(#[trigger] s[j]) == id_is(other)(t[j]) by {}
    crate::extractor::lemma_rfind_same_hits(s, t, id_is(other));
    crate::extractor::lemma_rfind_range(s, id_is(other));
}

impl ProjectCache {
    /// No two entries share a project id.
    pub open spec fn wf(&self) -> bool {
        forall|i: int, j: int|
            0 <= i < j < self.entries@.len() ==> #[trigger] self.entries@[i].project_id
                != #[trigger] self.entries@[j].project_id
    }

    pub fn new() -> (r: Self)
        ensures
            r.wf(),
            r.entries@.len() == 0,
    {
        ProjectCache { entries: Vec::new() }
    }

    /// The position of project `id`, if it is known.
    fn position(&self, id: u64) -> (r: Option<usize>)
        ensures
            match r {
                Some(k) => k == entry_of(self.entries@, id) && k < self.entries@.len()
                    && self.entries@[k as int].project_id == id,
                None => entry_of(self.entries@, id) == -1 && !has_project(self.entries@, id),
            },
    {
        let ghost p = id_is(id);
        let mut i = self.entries.len();
        while i > 0
            invariant
                p == id_is(id),
                i <= self.entries@.len(),
                forall|j: int| i <= j < self.entries@.len() ==> !p(#[trigger] self.entries@[j]),
            decreases i,
        {
            i = i - 1;
            if self.entries[i].project_id == id {
                proof {
                    assert(p(self.entries@[i as int]));
                    crate::extractor::lemma_rfind(self.entries@, p, i as int);
                }
                return Some(i);
            }
        }
        proof {
            crate::extractor::lemma_rfind(self.entries@, p, -1);
            assert forall|j: int| 0 <= j < self.entries@.len() implies #[trigger] self.entries@[j].project_id != id by {
                assert(!p(self.entries@[j]));
            }
        }
        None
    }

    /// Adds every project of `ids` that is not known yet, with no archive id
    /// looked up.
    pub fn register(&mut self, ids: &Vec<u64>)
        requires
            old(self).wf(),
        ensures
            final(self).wf(),
            final(self).entries@.take(old(self).entries@.len() as int) == old(self).entries@,
            forall|i: int|
                old(self).entries@.len() <= i < final(self).entries@.len()
                    ==> (#[trigger] final(self).entries@[i]).archive is None
                    && ids@.contains(final(self).entries@[i].project_id)
                    && !has_project(old(self).entries@, final(self).entries@[i].project_id),
            forall|i: int| 0 <= i < ids@.len() ==> has_project(final(self).entries@, #[trigger] ids@[i]),
    {
        let ghost old_entries = self.entries@;
        let mut i: usize = 0;
        while i < ids.len()
            invariant
                self.wf(),
                i <= ids@.len(),
                self.entries@.len() >= old_entries.len(),
                self.entries@.take(old_entries.len() as int) == old_entries,
                forall|k: int|
                    old_entries.len() <= k < self.entries@.len() ==> (#[trigger] self.entries@[k]).archive is None
                        && ids@.contains(self.entries@[k].project_id) && !has_project(
                        old_entries,
                        self.entries@[k].project_id,
                    ),
                forall|k: int| 0 <= k < i ==> has_project(self.entries@, #[trigger] ids@[k]),
            decreases ids@.len() - i,
        {
            let id = ids[i];
            match self.position(id) {
                Some(_) => {},
                None => {
                    let ghost before = self.entries@;
                    proof {
                        assert forall|j: int| 0 <= j < old_entries.len() implies #[trigger] old_entries[j].project_id != id by {
                            assert(before[j] == old_entries[j]);
                        }
                    }
                    self.entries.push(ProjectWithId { project_id: id, archive: None });
                    proof {
                        assert(self.entries@.take(old_entries.len() as int) =~= old_entries);
                        assert(self.entries@[before.len() as int].project_id == id);
                        assert forall|k: int| 0 <= k <= i implies has_project(self.entries@, #[trigger] ids@[k]) by {
                            if k < i {
                                let w = choose|w: int| 0 <= w < before.len() && #[trigger] before[w].project_id == ids@[k];
                                assert(self.entries@[w] == before[w]);
                            }
                        }
                    }
                },
            }
            i = i + 1;
        }
    }

    /// The archive id looked up earlier for project `id`, if any.
    pub fn cached(&self, id: u64) -> (r: Option<Option<String>>)
        ensures
            r == cached_result(self.entries@, id),
    {
        match self.position(id) {
            Some(k) => match &self.entries[k].archive {
                Some(a) => Some(clone_opt(a)),
                None => None,
            },
            None => None,
        }
    }

    /// Records the archive id found for project `id`, if the project is
    /// known.
    pub fn resolve(&mut self, id: u64, archive: Option<String>)
        requires
            old(self).wf(),
        ensures
            final(self).wf(),
            final(self).entries@ == resolved(old(self).entries@, id, archive),
    {
        match self.position(id) {
            Some(k) => {
                self.entries.set(k, ProjectWithId { project_id: id, archive: Some(archive) });
            },
            None => {},
        }
    }
}

} // verus!
