use flams::git_url::{GitUrl, GitUrlExt, Scheme};
use flams::gitlab::{
    archive_id_from_manifest, find_manifest, find_meta_inf, DirOrFile, GLInstance, GetStep, GitLab, GitlabConfig,
    OAuthError, ProjectCache, TreeEntry,
};

#[test]
fn config_keeps_its_fields() {
    let c = GitlabConfig::new("https://gl.example".to_string(), Some("tok".to_string()), None, Some("s".to_string()));
    assert_eq!(c.url, "https://gl.example");
    assert_eq!(c.token.as_deref(), Some("tok"));
    assert!(c.app_id.is_none());
    assert_eq!(c.app_secret.as_deref(), Some("s"));
}

#[test]
fn config_split_drops_the_scheme() {
    assert_eq!(GitlabConfig::split("https://gitlab.example.org"), ("gitlab.example.org", false));
    assert_eq!(GitlabConfig::split("http://gl.local:8080"), ("gl.local:8080", true));
    assert_eq!(GitlabConfig::split("gl.local"), ("gl.local", false));
    assert_eq!(GitlabConfig::split("https:/x"), ("https:/x", false));
}

fn gitlab(url: &str, id: Option<&str>, secret: Option<&str>) -> GitLab {
    GitLab { url: url.to_string(), id: id.map(|s| s.to_string()), secret: secret.map(|s| s.to_string()) }
}

#[test]
fn oauth_needs_id_and_secret() {
    let g = gitlab("https://gitlab.com", None, Some("s"));
    assert!(matches!(g.new_oauth("https://app/cb"), Err(OAuthError::MissingAppID)));
    let g = gitlab("https://gitlab.com", Some("i"), None);
    assert!(matches!(g.new_oauth("https://app/cb"), Err(OAuthError::MissingAppSecret)));
}

#[test]
fn oauth_checks_its_urls() {
    let g = gitlab("not a url", Some("i"), Some("s"));
    match g.new_oauth("https://app/cb") {
        Err(OAuthError::InvalidAuthURL(u)) => assert_eq!(u, "not a url/oauth/authorize"),
        _ => panic!("expected an invalid auth url"),
    }
    let g = gitlab("https://gitlab.com", Some("i"), Some("s"));
    match g.new_oauth("no redirect") {
        Err(OAuthError::InvalidRedirectURL(u)) => assert_eq!(u, "no redirect"),
        _ => panic!("expected an invalid redirect url"),
    }
}

#[test]
fn oauth_client_for_a_valid_instance() {
    let g = gitlab("https://gitlab.com", Some("app"), Some("secret"));
    let o = match g.new_oauth("https://app.example/cb") {
        Ok(o) => o,
        Err(e) => panic!("{}", e.message()),
    };
    assert_eq!(o.client_id, "app");
    assert_eq!(o.client_secret, "secret");
    assert_eq!(o.auth_url, "https://gitlab.com/oauth/authorize");
    assert_eq!(o.token_url, "https://gitlab.com/oauth/token");
    assert_eq!(o.redirect_url, "https://app.example/cb");
    assert_eq!(o.gitlab.url, "https://gitlab.com");
    assert_eq!(g.user_api_url(), "https://gitlab.com/api/v4/user");
}

#[test]
fn oauth_error_messages() {
    assert_eq!(OAuthError::MissingAppID.message(), "Missing app id");
    assert_eq!(OAuthError::MissingAppSecret.message(), "Missing secret");
    assert_eq!(OAuthError::InvalidAuthURL("x".to_string()).message(), "Invalid auth url: x");
    assert_eq!(OAuthError::InvalidTokenURL("y".to_string()).message(), "Invalid token url: y");
    assert_eq!(OAuthError::InvalidRedirectURL("z".to_string()).message(), "Invalid redirect url: z");
}

fn entry(name: &str, path: &str, kind: DirOrFile) -> TreeEntry {
    TreeEntry { name: name.to_string(), path: path.to_string(), kind }
}

#[test]
fn manifest_lookup_in_a_tree() {
    let top = vec![entry("source", "source", DirOrFile::Dir), entry("Meta-Inf", "META-INF", DirOrFile::Dir)];
    assert_eq!(find_meta_inf(&top), Some("META-INF".to_string()));
    let inner = vec![
        entry("other.txt", "META-INF/other.txt", DirOrFile::File),
        entry("MANIFEST.MF", "META-INF/MANIFEST.MF", DirOrFile::File),
    ];
    assert_eq!(find_manifest(&inner), Some("META-INF/MANIFEST.MF".to_string()));
    assert_eq!(find_manifest(&vec![entry("manifest.mf", "x", DirOrFile::Dir)]), None);
    assert_eq!(find_meta_inf(&vec![]), None);
}

#[test]
fn archive_id_from_manifest_text() {
    assert_eq!(
        archive_id_from_manifest("title: x\n  id:  smglom/sets  \nformat: stex"),
        Some("smglom/sets".to_string())
    );
    assert_eq!(archive_id_from_manifest("id:a\nid:b"), Some("a".to_string()));
    assert_eq!(archive_id_from_manifest("title: x\nformat: y"), None);
    assert_eq!(archive_id_from_manifest(""), None);
    assert_eq!(archive_id_from_manifest("xid: q"), None);
}

#[test]
fn gitlab_instance_states() {
    let mut gl = GLInstance::new();
    assert!(!gl.is_configured());
    assert!(matches!(gl.poll(), GetStep::Done(None)));
    gl.start_loading();
    assert!(gl.is_configured());
    assert!(!gl.has_loaded());
    assert!(matches!(gl.poll(), GetStep::Wait));
    gl.finish_loading(Some(gitlab("https://g", None, None)));
    assert!(gl.has_loaded());
    match gl.poll() {
        GetStep::Done(Some(g)) => assert_eq!(g.url, "https://g"),
        _ => panic!("expected the loaded instance"),
    }
    gl.finish_loading(None);
    assert!(matches!(gl.poll(), GetStep::Done(None)));
}

#[test]
fn project_cache_records_archives() {
    let mut c = ProjectCache::new();
    c.register(&vec![1, 2, 1]);
    assert_eq!(c.entries.len(), 2);
    assert_eq!(c.cached(1), None);
    c.resolve(1, Some("smglom/x".to_string()));
    assert_eq!(c.cached(1), Some(Some("smglom/x".to_string())));
    c.resolve(2, None);
    assert_eq!(c.cached(2), Some(None));
    assert_eq!(c.cached(1), Some(Some("smglom/x".to_string())));
    c.resolve(3, Some("y".to_string()));
    assert_eq!(c.cached(3), None);
    c.register(&vec![3]);
    assert_eq!(c.entries.len(), 3);
}

#[test]
fn git_urls_become_anonymous_https() {
    let u = GitUrl {
        host: Some("gitlab.example".to_string()),
        name: "repo".to_string(),
        owner: Some("me".to_string()),
        organization: None,
        fullname: "me/repo".to_string(),
        scheme: Scheme::Ssh,
        user: Some("git".to_string()),
        token: Some("SECRET-REDACTED".to_string()),
        port: None,
        path: "me/repo.git".to_string(),
        git_suffix: true,
        scheme_prefix: false,
    };
    let h = u.into_https();
    assert_eq!(h.scheme, Scheme::Https);
    assert!(h.user.is_none());
    assert!(h.token.is_none());
    assert!(h.scheme_prefix);
    assert_eq!(h.path, "/me/repo.git");
    assert_eq!(h.fullname, "me/repo");
    assert!(h.git_suffix);
}
