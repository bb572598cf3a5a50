use vstd::prelude::*;
use vstd::string::StringExecFns;

verus! {

/// Mathematical model of a hosting provider: GitHub, BitBucket, or a
/// GitLab-compatible instance identified by its domain.
pub enum HostView {
    GitHub,
    GitLab(Seq<char>),
    BitBucket,
}

/// Mathematical model of a repository identity.
pub struct RepoView {
    pub host: HostView,
    pub owner: Seq<char>,
    pub name: Seq<char>,
    pub subdir: Option<Seq<char>>,
    pub gitref: Option<Seq<char>>,
}

/// A hosting provider. Every domain that is neither GitHub's nor
/// BitBucket's is treated as a self-hosted GitLab-compatible instance.
#[derive(Debug, Clone)]
pub enum Host {
    GitHub,
    GitLab(String),
    BitBucket,
}

/// A parsed repository identity: host, owner and repository name, with an
/// optional subdirectory to restrict extraction to and an optional raw ref
/// (branch, tag, or commit-hash prefix).
#[derive(Debug, Clone)]
pub struct Repo {
    pub host: Host,
    pub owner: String,
    pub name: String,
    pub subdir: Option<String>,
    pub gitref: Option<String>,
}

impl View for Host {
    type V = HostView;

    open spec fn view(&self) -> HostView {
        match self {
            Host::GitHub => HostView::GitHub,
            Host::GitLab(d) => HostView::GitLab(d@),
            Host::BitBucket => HostView::BitBucket,
        }
    }
}

impl View for Repo {
    type V = RepoView;

    open spec fn view(&self) -> RepoView {
        RepoView {
            host: self.host@,
            owner: self.owner@,
            name: self.name@,
            subdir: match self.subdir {
                Some(s) => Some(s@),
                None => None,
            },
            gitref: match self.gitref {
                Some(s) => Some(s@),
                None => None,
            },
        }
    }
}

impl PartialEq for Host {
    fn eq(&self, other: &Host) -> (r: bool) {
        match (self, other) {
            (Host::GitHub, Host::GitHub) => true,
            (Host::BitBucket, Host::BitBucket) => true,
            (Host::GitLab(a), Host::GitLab(b)) => *a == *b,
            _ => false,
        }
    }
}

impl vstd::std_specs::cmp::PartialEqSpecImpl for Host {
    open spec fn obeys_eq_spec() -> bool {
        true
    }

    open spec fn eq_spec(&self, other: &Host) -> bool {
        self@ == other@
    }
}

impl PartialEq for Repo {
    fn eq(&self, other: &Repo) -> (r: bool) {
        let subdir_eq = match (&self.subdir, &other.subdir) {
            (Option::None, Option::None) => true,
            (Option::Some(a), Option::Some(b)) => *a == *b,
            _ => false,
        };
        let gitref_eq = match (&self.gitref, &other.gitref) {
            (Option::None, Option::None) => true,
            (Option::Some(a), Option::Some(b)) => *a == *b,
            _ => false,
        };
        self.host == other.host && self.owner == other.owner && self.name == other.name
            && subdir_eq && gitref_eq
    }
}

impl vstd::std_specs::cmp::PartialEqSpecImpl for Repo {
    open spec fn obeys_eq_spec() -> bool {
        true
    }

    open spec fn eq_spec(&self, other: &Repo) -> bool {
        self@ == other@
    }
}

/// The canonical web URL of a repository identity.
pub open spec fn url_spec(r: RepoView) -> Seq<char> {
    match r.host {
        HostView::GitHub => "https://github.com/"@ + r.owner + "/"@ + r.name,
        HostView::GitLab(domain) => "https://"@ + domain + "/"@ + r.owner + "/"@ + r.name,
        HostView::BitBucket => "https://bitbucket.org/"@ + r.owner + "/"@ + r.name,
    }
}

/// The provider-specific URL of the compressed archive of one commit.
pub open spec fn archive_url_spec(r: RepoView, hash: Seq<char>) -> Seq<char> {
    match r.host {
        HostView::GitHub => url_spec(r) + "/archive/"@ + hash + ".tar.gz"@,
        HostView::GitLab(_) => url_spec(r) + "/-/archive/"@ + hash + "/"@ + r.name + "-"@ + hash
            + ".tar.gz"@,
        HostView::BitBucket => url_spec(r) + "/get/"@ + hash + ".tar.gz"@,
    }
}

/// The display label of a host.
pub open spec fn host_label_spec(h: HostView) -> Seq<char> {
    match h {
        HostView::GitHub => "GitHub"@,
        HostView::GitLab(_) => "GitLab"@,
        HostView::BitBucket => "BitBucket"@,
    }
}

/// The plain-text description of a repository identity:
/// `owner/name[/subdir][#ref] from <host>`.
pub open spec fn describe_spec(r: RepoView) -> Seq<char> {
    let project = r.name + (match r.subdir {
        Some(sd) => "/"@ + sd,
        None => Seq::<char>::empty(),
    }) + (match r.gitref {
        Some(g) => "#"@ + g,
        None => Seq::<char>::empty(),
    });
    r.owner + "/"@ + project + " from "@ + host_label_spec(r.host)
}

impl Repo {
    /// The canonical web URL for this repository on its host.
    pub fn url(&self) -> (r: String)
        ensures
            r@ == url_spec(self@),
    {
        match &self.host {
            Host::GitHub => "https://github.com/".to_owned().concat(self.owner.as_str()).concat(
                "/",
            ).concat(self.name.as_str()),
            Host::GitLab(domain) => "https://".to_owned().concat(domain.as_str()).concat(
                "/",
            ).concat(self.owner.as_str()).concat("/").concat(self.name.as_str()),
            Host::BitBucket => "https://bitbucket.org/".to_owned().concat(
                self.owner.as_str(),
            ).concat("/").concat(self.name.as_str()),
        }
    }

    /// The URL of the gzipped tar archive of the given commit on this
    /// repository's host.
    pub fn archive_url(&self, hash: &str) -> (r: String)
        ensures
            r@ == archive_url_spec(self@, hash@),
    {
        match &self.host {
            Host::GitHub => self.url().concat("/archive/").concat(hash).concat(".tar.gz"),
            Host::GitLab(_) => self.url().concat("/-/archive/").concat(hash).concat("/").concat(
                self.name.as_str(),
            ).concat("-").concat(hash).concat(".tar.gz"),
            Host::BitBucket => self.url().concat("/get/").concat(hash).concat(".tar.gz"),
        }
    }

    /// A human-readable one-line description of this identity.
    pub fn describe(&self) -> (r: String)
        ensures
            r@ == describe_spec(self@),
    {
        let mut project = self.name.clone();
        if let Option::Some(subdir) = &self.subdir {
            project = project.concat("/").concat(subdir.as_str());
        }
        if let Option::Some(gitref) = &self.gitref {
            project = project.concat("#").concat(gitref.as_str());
        }
        let label = match &self.host {
            Host::GitHub => "GitHub",
            Host::GitLab(_) => "GitLab",
            Host::BitBucket => "BitBucket",
        };
        let r = self.owner.clone().concat("/").concat(project.as_str()).concat(" from ").concat(
            label,
        );
        proof {
            assert(r@ =~= describe_spec(self@));
        }
        r
    }
}

} // verus!
