//! Git remote URLs and their normalisation to anonymous `https`.
use vstd::prelude::*;
use vstd::string::StrSliceExecFns;
use vstd::string::StringExecFns;

verus! {

/// The scheme of a git remote URL.
#[derive(Clone, Copy, Debug, PartialEq, Eq, Structural)]
pub enum Scheme {
    File,
    Ftp,
    Ftps,
    Git,
    GitSsh,
    Http,
    Https,
    Ssh,
    Unspecified,
}

/// A parsed git remote URL.
pub struct GitUrl {
    pub host: Option<String>,
    pub name: String,
    pub owner: Option<String>,
    pub organization: Option<String>,
    pub fullname: String,
    pub scheme: Scheme,
    pub user: Option<String>,
    pub token: Option<String>,
    pub port: Option<u16>,
    pub path: String,
    pub git_suffix: bool,
    pub scheme_prefix: bool,
}

/// `path` with a leading `/`, added where it has none.
pub open spec fn rooted(path: Seq<char>) -> Seq<char> {
    if path.len() > 0 && path[0] == '/' {
        path
    } else {
        seq!['/'] + path
    }
}

/// Normalisation of a remote URL for anonymous access over `https`.
pub trait GitUrlExt: Sized {
    fn into_https(self) -> Self;
}

impl GitUrlExt for GitUrl {
    /// Drops the credentials, switches to `https://` and roots the path.
    fn into_https(self) -> (r: Self)
        ensures
            r.user is None,
            r.token is None,
            r.scheme == Scheme::Https,
            r.scheme_prefix,
            r.path@ == rooted(self.path@),
            r.host == self.host,
            r.name == self.name,
            r.owner == self.owner,
            r.organization == self.organization,
            r.fullname == self.fullname,
            r.port == self.port,
            r.git_suffix == self.git_suffix,
    {
        let GitUrl { host, name, owner, organization, fullname, port, path, git_suffix, .. } = self;
        let starts_rooted = path.as_str().unicode_len() > 0 && path.as_str().get_char(0) == '/';
        let path = if starts_rooted {
            path
        } else {
            proof {
                reveal_strlit("/");
            }
            String::from_str("/").concat(path.as_str())
        };
        GitUrl {
            host,
            name,
            owner,
            organization,
            fullname,
            scheme: Scheme::Https,
            user: None,
            token: None,
            port,
            path,
            git_suffix,
            scheme_prefix: true,
        }
    }
}

} // verus!
