use vstd::prelude::*;
use vstd::string::StrSliceExecFns;
use vstd::string::StringExecFns;
use crate::repo::{Host, HostView, Repo, RepoView};
use crate::strutil::{
    ends_with,
    find_char,
    find_char_in,
    find_last_char,
    find_last_char_in,
    lemma_find_char,
    lemma_find_last_char,
    starts_with,
    starts_with_str,
    str_eq,
};

verus! {

/// The source string could not be parsed as a repository specification.
#[derive(Debug, Clone, PartialEq, Eq, Structural)]
pub struct ParseError;

/// Whitespace characters, which no component of a source string may contain.
pub open spec fn is_space(c: char) -> bool {
    c == ' ' || c == '\t' || c == '\n' || c == '\r'
}

pub open spec fn has_space(s: Seq<char>) -> bool {
    exists|i: int| 0 <= i < s.len() && is_space(s[i])
}

/// The suffix that is stripped from a repository name.
pub open spec fn git_suffix() -> Seq<char> {
    seq!['.', 'g', 'i', 't']
}

/// Repeatedly strip a trailing ".git" from a repository name.
pub open spec fn strip_git(s: Seq<char>) -> Seq<char>
    decreases s.len(),
{
    if ends_with(s, git_suffix()) {
        strip_git(s.subrange(0, s.len() - 4))
    } else {
        s
    }
}

/// A domain contains a dot with at least one character on each side.
pub open spec fn domain_like(d: Seq<char>) -> bool {
    exists|i: int| 0 < i && i + 1 < d.len() && d[i] == '.'
}

/// Map an explicit domain to its host: GitHub's and BitBucket's domains are
/// recognized, every other domain is a self-hosted GitLab-compatible one.
pub open spec fn host_of_domain(d: Seq<char>) -> HostView {
    if d == "github.com"@ {
        HostView::GitHub
    } else if d == "bitbucket.org"@ {
        HostView::BitBucket
    } else {
        HostView::GitLab(d)
    }
}

/// Map a shorthand host prefix to its host; an unrecognized prefix is taken
/// as the domain of a GitLab-compatible instance.
pub open spec fn host_of_prefix(p: Seq<char>) -> HostView {
    if p == "github"@ || p == "gh"@ {
        HostView::GitHub
    } else if p == "gitlab"@ || p == "gl"@ {
        HostView::GitLab("gitlab.com"@)
    } else if p == "bitbucket"@ || p == "bb"@ {
        HostView::BitBucket
    } else {
        HostView::GitLab(p)
    }
}

/// Split the source at the first `#` into the body and the optional ref.
/// The ref must be non-empty and must not contain a second `#`.
pub open spec fn split_ref(s: Seq<char>) -> Option<(Seq<char>, Option<Seq<char>>)> {
    match find_char(s, '#') {
        None => Some((s, None)),
        Some(i) => {
            let body = s.subrange(0, i);
            let r = s.subrange(i + 1, s.len() as int);
            if r.len() == 0 || find_char(r, '#') is Some {
                None
            } else {
                Some((body, Some(r)))
            }
        },
    }
}

/// First `:` or `/`, whichever comes earlier.
pub open spec fn find_sep(s: Seq<char>) -> Option<int> {
    match (find_char(s, ':'), find_char(s, '/')) {
        (None, None) => None,
        (Some(i), None) => Some(i),
        (None, Some(j)) => Some(j),
        (Some(i), Some(j)) => Some(if i < j { i } else { j }),
    }
}

/// Detect the host indicator at the front of the body and return the host
/// together with the remaining `owner/name...` text, in order of precedence:
/// an `https://` URL, a `git@host` SSH-style form, a `prefix:` shorthand,
/// a bare domain, and finally no indicator at all (GitHub).
pub open spec fn split_host(body: Seq<char>) -> Option<(HostView, Seq<char>)> {
    if starts_with(body, "https://"@) {
        let after = body.skip("https://"@.len() as int);
        match find_char(after, '/') {
            None => None,
            Some(i) => {
                let dom = after.subrange(0, i);
                if domain_like(dom) && find_char(dom, ':') is None {
                    Some((host_of_domain(dom), after.subrange(i + 1, after.len() as int)))
                } else {
                    None
                }
            },
        }
    } else if starts_with(body, "git@"@) {
        let after = body.skip("git@"@.len() as int);
        match find_sep(after) {
            None => None,
            Some(i) => if i == 0 {
                None
            } else {
                Some(
                    (
                        host_of_domain(after.subrange(0, i)),
                        after.subrange(i + 1, after.len() as int),
                    ),
                )
            },
        }
    } else {
        let head = match find_char(body, '/') {
            None => body,
            Some(i) => body.subrange(0, i),
        };
        match find_last_char(head, ':') {
            Some(k) => if k == 0 {
                None
            } else {
                Some(
                    (
                        host_of_prefix(head.subrange(0, k)),
                        body.subrange(k + 1, body.len() as int),
                    ),
                )
            },
            None => if domain_like(head) && find_char(body, '/') is Some {
                Some(
                    (host_of_domain(head), body.subrange(head.len() as int + 1, body.len() as int)),
                )
            } else {
                Some((HostView::GitHub, body))
            },
        }
    }
}

/// A stored subdirectory is non-empty, has no leading or trailing slash,
/// and no empty path segment.
pub open spec fn valid_subdir(sd: Seq<char>) -> bool {
    &&& sd.len() > 0
    &&& sd[0] != '/'
    &&& sd[sd.len() - 1] != '/'
    &&& forall|k: int| 0 <= k < sd.len() - 1 ==> !(#[trigger] sd[k] == '/' && sd[k + 1] == '/')
}

/// Decompose the remainder after the host as `owner/name[/subdir...][/]`:
/// owner and name are required and non-empty, a trailing `.git` is stripped
/// from the name, further segments form the subdirectory, and one trailing
/// slash is tolerated.
pub open spec fn split_tail(rest: Seq<char>) -> Option<(Seq<char>, Seq<char>, Option<Seq<char>>)> {
    match find_char(rest, '/') {
        None => None,
        Some(i) => if i == 0 {
            None
        } else {
            let owner = rest.subrange(0, i);
            let after = rest.subrange(i + 1, rest.len() as int);
            let name_raw = match find_char(after, '/') {
                None => after,
                Some(k) => after.subrange(0, k),
            };
            if name_raw.len() == 0 {
                None
            } else {
                let name = strip_git(name_raw);
                match find_char(after, '/') {
                    None => Some((owner, name, None)),
                    Some(k) => {
                        let sub_rest = after.subrange(k + 1, after.len() as int);
                        if sub_rest.len() == 0 {
                            Some((owner, name, None))
                        } else {
                            let sd = if sub_rest[sub_rest.len() - 1] == '/' {
                                sub_rest.drop_last()
                            } else {
                                sub_rest
                            };
                            if valid_subdir(sd) {
                                Some((owner, name, Some(sd)))
                            } else {
                                None
                            }
                        }
                    },
                }
            }
        },
    }
}

/// The recognized shapes of a source string, as one mathematical function:
/// the parsed identity, or `None` where the input matches no shape.
pub open spec fn parse_spec(s: Seq<char>) -> Option<RepoView> {
    if has_space(s) {
        None
    } else {
        match split_ref(s) {
            None => None,
            Some((body, gitref)) => match split_host(body) {
                None => None,
                Some((host, rest)) => match split_tail(rest) {
                    None => None,
                    Some((owner, name, subdir)) => Some(
                        RepoView { host, owner, name, subdir, gitref },
                    ),
                },
            },
        }
    }
}

fn contains_space(s: &str) -> (b: bool)
    ensures
        b == has_space(s@),
{
    let n = s.unicode_len();
    let mut i: usize = 0;
    while i < n
        invariant
            n == s@.len(),
            0 <= i <= n,
            forall|j: int| 0 <= j < i ==> !is_space(s@[j]),
        decreases n - i,
    {
        let c = s.get_char(i);
        if c == ' ' || c == '\t' || c == '\n' || c == '\r' {
            return true;
        }
        i += 1;
    }
    false
}

fn domain_like_exec(d: &str) -> (b: bool)
    ensures
        b == domain_like(d@),
{
    let n = d.unicode_len();
    if n < 3 {
        return false;
    }
    let mut i: usize = 1;
    while i + 1 < n
        invariant
            n == d@.len(),
            1 <= i,
            i + 1 <= n,
            forall|j: int| 0 < j < i ==> d@[j] != '.',
        decreases n - i,
    {
        if d.get_char(i) == '.' {
            return true;
        }
        i += 1;
    }
    false
}

fn valid_subdir_exec(sd: &str) -> (b: bool)
    ensures
        b == valid_subdir(sd@),
{
    let n = sd.unicode_len();
    if n == 0 {
        return false;
    }
    if sd.get_char(0) == '/' {
        return false;
    }
    if sd.get_char(n - 1) == '/' {
        return false;
    }
    let mut i: usize = 0;
    while i + 1 < n
        invariant
            n == sd@.len(),
            n > 0,
            0 <= i,
            i + 1 <= n,
            sd@[0] != '/',
            sd@[n - 1] != '/',
            forall|k: int| 0 <= k < i ==> !(#[trigger] sd@[k] == '/' && sd@[k + 1] == '/'),
        decreases n - i,
    {
        if sd.get_char(i) == '/' && sd.get_char(i + 1) == '/' {
            return false;
        }
        i += 1;
    }
    true
}

/// Strip every trailing ".git" from a repository name.
fn strip_git_exec(s: &str) -> (r: String)
    ensures
        r@ == strip_git(s@),
{
    let n = s.unicode_len();
    let mut end: usize = n;
    proof {
        assert(s@.subrange(0, n as int) =~= s@);
    }
    loop
        invariant
            n == s@.len(),
            0 <= end <= n,
            strip_git(s@) == strip_git(s@.subrange(0, end as int)),
        ensures
            0 <= end <= n,
            strip_git(s@) == s@.subrange(0, end as int),
        decreases end,
    {
        let ghost cur = s@.subrange(0, end as int);
        if end >= 4 && s.get_char(end - 4) == '.' && s.get_char(end - 3) == 'g' && s.get_char(
            end - 2,
        ) == 'i' && s.get_char(end - 1) == 't' {
            proof {
                assert(cur.subrange(cur.len() - 4, cur.len() as int) =~= git_suffix());
                assert(ends_with(cur, git_suffix()));
                assert(cur.subrange(0, cur.len() - 4) =~= s@.subrange(0, end as int - 4));
            }
            end -= 4;
        } else {
            proof {
                if ends_with(cur, git_suffix()) {
                    assert(end >= 4);
                    assert(cur.subrange(cur.len() - 4, cur.len() as int)[0] == git_suffix()[0]);
                    assert(cur.subrange(cur.len() - 4, cur.len() as int)[1] == git_suffix()[1]);
                    assert(cur.subrange(cur.len() - 4, cur.len() as int)[2] == git_suffix()[2]);
                    assert(cur.subrange(cur.len() - 4, cur.len() as int)[3] == git_suffix()[3]);
                    assert(false);
                }
                assert(strip_git(cur) == cur);
            }
            break;
        }
    }
    let r = s.substring_char(0, end).to_owned();
    r
}

fn host_from_domain(d: &str) -> (h: Host)
    ensures
        h@ == host_of_domain(d@),
{
    if str_eq(d, "github.com") {
        Host::GitHub
    } else if str_eq(d, "bitbucket.org") {
        Host::BitBucket
    } else {
        Host::GitLab(d.to_owned())
    }
}

fn host_from_prefix(p: &str) -> (h: Host)
    ensures
        h@ == host_of_prefix(p@),
{
    if str_eq(p, "github") || str_eq(p, "gh") {
        Host::GitHub
    } else if str_eq(p, "gitlab") || str_eq(p, "gl") {
        Host::GitLab("gitlab.com".to_owned())
    } else if str_eq(p, "bitbucket") || str_eq(p, "bb") {
        Host::BitBucket
    } else {
        Host::GitLab(p.to_owned())
    }
}

fn find_sep_in(s: &str) -> (r: Option<usize>)
    ensures
        match r {
            Some(i) => find_sep(s@) == Some(i as int) && i < s@.len(),
            None => find_sep(s@) is None,
        },
{
    proof {
        lemma_find_char(s@, ':');
        lemma_find_char(s@, '/');
    }
    let c = find_char_in(s, ':');
    let sl = find_char_in(s, '/');
    match (c, sl) {
        (Option::None, Option::None) => Option::None,
        (Option::Some(i), Option::None) => Option::Some(i),
        (Option::None, Option::Some(j)) => Option::Some(j),
        (Option::Some(i), Option::Some(j)) => if i < j {
            Option::Some(i)
        } else {
            Option::Some(j)
        },
    }
}

/// Detect the host indicator at the front of the body, returning the host
/// and the remaining `owner/name...` text.
fn detect_host<'a>(body: &'a str) -> (r: Option<(Host, &'a str)>)
    ensures
        match r {
            Some(p) => split_host(body@) == Some((p.0@, p.1@)),
            None => split_host(body@) is None,
        },
{
    let n = body.unicode_len();
    if starts_with_str(body, "https://") {
        let m = "https://".unicode_len();
        let after = body.substring_char(m, n);
        proof {
            assert(after@ =~= body@.skip("https://"@.len() as int));
        }
        let i_opt = find_char_in(after, '/');
        if i_opt.is_none() {
            return None;
        }
        let i = i_opt.unwrap();
        proof {
            lemma_find_char(after@, '/');
        }
        let dom = after.substring_char(0, i);
        let colon = find_char_in(dom, ':');
        if domain_like_exec(dom) && colon.is_none() {
            let rest = after.substring_char(i + 1, after.unicode_len());
            Some((host_from_domain(dom), rest))
        } else {
            None
        }
    } else if starts_with_str(body, "git@") {
        let m = "git@".unicode_len();
        let after = body.substring_char(m, n);
        proof {
            assert(after@ =~= body@.skip("git@"@.len() as int));
        }
        let i_opt = find_sep_in(after);
        if i_opt.is_none() {
            return None;
        }
        let i = i_opt.unwrap();
        if i == 0 {
            return None;
        }
        let dom = after.substring_char(0, i);
        let rest = after.substring_char(i + 1, after.unicode_len());
        Some((host_from_domain(dom), rest))
    } else {
        let slash = find_char_in(body, '/');
        proof {
            lemma_find_char(body@, '/');
        }
        let head_end = match slash {
            Option::None => n,
            Option::Some(i) => i,
        };
        let head = body.substring_char(0, head_end);
        proof {
            if slash is None {
                assert(head@ =~= body@);
            }
        }
        let k_opt = find_last_char_in(head, ':');
        proof {
            lemma_find_last_char(head@, ':');
        }
        if let Some(k) = k_opt {
            if k == 0 {
                return None;
            }
            let prefix = head.substring_char(0, k);
            let rest = body.substring_char(k + 1, n);
            Some((host_from_prefix(prefix), rest))
        } else {
            if domain_like_exec(head) && head_end < n {
                let rest = body.substring_char(head_end + 1, n);
                Some((host_from_domain(head), rest))
            } else {
                Some((Host::GitHub, body))
            }
        }
    }
}

/// Decompose the remainder after the host as `owner/name[/subdir...][/]`.
fn split_tail_exec(rest: &str) -> (r: Option<(String, String, Option<String>)>)
    ensures
        match r {
            Some(t) => split_tail(rest@) == Some(
                (
                    t.0@,
                    t.1@,
                    match t.2 {
                        Some(sd) => Some(sd@),
                        None => None,
                    },
                ),
            ),
            None => split_tail(rest@) is None,
        },
{
    let n = rest.unicode_len();
    let i_opt = find_char_in(rest, '/');
    if i_opt.is_none() {
        return None;
    }
    let i = i_opt.unwrap();
    if i == 0 {
        return None;
    }
    proof {
        lemma_find_char(rest@, '/');
    }
    let owner = rest.substring_char(0, i).to_owned();
    let after = rest.substring_char(i + 1, n);
    let na = after.unicode_len();
    let j_opt = find_char_in(after, '/');
    proof {
        lemma_find_char(after@, '/');
    }
    if j_opt.is_none() {
        if na == 0 {
            return None;
        }
        let name = strip_git_exec(after);
        return Some((owner, name, None));
    }
    let k = j_opt.unwrap();
    if k == 0 {
        return None;
    }
    let name_raw = after.substring_char(0, k);
    let name = strip_git_exec(name_raw);
    let sub_rest = after.substring_char(k + 1, na);
    let m = sub_rest.unicode_len();
    if m == 0 {
        return Some((owner, name, None));
    }
    let sd = if sub_rest.get_char(m - 1) == '/' {
        sub_rest.substring_char(0, m - 1)
    } else {
        sub_rest
    };
    proof {
        if sub_rest@[sub_rest@.len() - 1] == '/' {
            assert(sd@ =~= sub_rest@.drop_last());
        }
    }
    if valid_subdir_exec(sd) {
        Some((owner, name, Some(sd.to_owned())))
    } else {
        None
    }
}

/// Parse a free-form source string into a repository identity.
///
/// Succeeds exactly on the inputs that `parse_spec` recognizes, and then
/// returns exactly the identity that `parse_spec` describes.
pub fn parse(src: &str) -> (r: Result<Repo, ParseError>)
    ensures
        match r {
            Ok(repo) => parse_spec(src@) == Some(repo@),
            Err(_) => parse_spec(src@) is None,
        },
{
    if contains_space(src) {
        return Err(ParseError);
    }
    let n = src.unicode_len();
    let hash_opt = find_char_in(src, '#');
    proof {
        lemma_find_char(src@, '#');
    }
    let mut gitref: Option<String> = None;
    let body: &str;
    if let Some(i) = hash_opt {
        let rtext = src.substring_char(i + 1, n);
        if rtext.unicode_len() == 0 {
            return Err(ParseError);
        }
        if find_char_in(rtext, '#').is_some() {
            return Err(ParseError);
        }
        gitref = Some(rtext.to_owned());
        body = src.substring_char(0, i);
    } else {
        body = src;
    }
    let ghost gitref_view: Option<Seq<char>> = match &gitref {
        Some(g) => Some(g@),
        None => None,
    };
    proof {
        assert(split_ref(src@) == Some((body@, gitref_view)));
    }
    let host_rest = detect_host(body);
    if host_rest.is_none() {
        return Err(ParseError);
    }
    let (host, rest) = host_rest.unwrap();
    let tail = split_tail_exec(rest);
    if tail.is_none() {
        return Err(ParseError);
    }
    let (owner, name, subdir) = tail.unwrap();
    let repo = Repo { host, owner, name, subdir, gitref };
    Ok(repo)
}

/// Accept a source string exactly when it parses; on failure, report a
/// message naming the offending input.
pub fn validate_src(src: String) -> (r: Result<(), String>)
    ensures
        r is Ok <==> parse_spec(src@) is Some,
        r matches Err(m) ==> m@ == "Could not parse src: "@ + src@,
{
    match parse(src.as_str()) {
        Ok(_) => Ok(()),
        Err(_) => Err("Could not parse src: ".to_owned().concat(src.as_str())),
    }
}

pub proof fn lemma_strip_git_no_suffix(s: Seq<char>)
    ensures
        !ends_with(strip_git(s), git_suffix()),
    decreases s.len(),
{
    if ends_with(s, git_suffix()) {
        lemma_strip_git_no_suffix(s.subrange(0, s.len() - 4));
    }
}

/// Law: whatever the shape of the input, the name of a successfully
/// parsed identity never retains a trailing ".git".
pub proof fn lemma_parsed_name_never_ends_git(s: Seq<char>)
    ensures
        match parse_spec(s) {
            Some(r) => !ends_with(r.name, git_suffix()),
            None => true,
        },
{
    if parse_spec(s) is Some {
        match split_ref(s) {
            Some((body, gitref)) => {
                match split_host(body) {
                    Some((host, rest)) => {
                        match find_char(rest, '/') {
                            Some(i) => {
                                let after = rest.subrange(i + 1, rest.len() as int);
                                match find_char(after, '/') {
                                    None => {
                                        lemma_strip_git_no_suffix(after);
                                    },
                                    Some(k) => {
                                        lemma_strip_git_no_suffix(after.subrange(0, k));
                                    },
                                }
                            },
                            None => {},
                        }
                    },
                    None => {},
                }
            },
            None => {},
        }
    }
}

/// Characters from which the equivalence of the shorthand forms is
/// stated: no separator, marker, or whitespace characters.
pub open spec fn plain_seg_char(c: char) -> bool {
    c != '/' && c != '#' && c != ':' && c != '.' && c != '@' && !is_space(c)
}

/// A plain, non-empty path segment.
pub open spec fn plain_seg(s: Seq<char>) -> bool {
    s.len() > 0 && forall|i: int| 0 <= i < s.len() ==> plain_seg_char(#[trigger] s[i])
}

proof fn lemma_plain_tail(owner: Seq<char>, name: Seq<char>)
    requires
        plain_seg(owner),
        plain_seg(name),
    ensures
        split_tail(owner + seq!['/'] + name) == Some((owner, strip_git(name), None::<Seq<char>>)),
        find_char(owner + seq!['/'] + name, '/') == Some(owner.len() as int),
{
    let rest = owner + seq!['/'] + name;
    assert(rest[owner.len() as int] == '/');
    assert forall|j: int| 0 <= j < owner.len() implies rest[j] != '/' by {
        assert(rest[j] == owner[j]);
    }
    crate::strutil::lemma_find_char_at(rest, '/', owner.len() as int);
    assert(rest.subrange(0, owner.len() as int) =~= owner);
    let after = rest.subrange(owner.len() as int + 1, rest.len() as int);
    assert(after =~= name);
    crate::strutil::lemma_find_char_none(name, '/');
}

proof fn lemma_form_plain(owner: Seq<char>, name: Seq<char>)
    requires
        plain_seg(owner),
        plain_seg(name),
    ensures
        !has_space(owner + seq!['/'] + name),
        split_ref(owner + seq!['/'] + name) == Some((owner + seq!['/'] + name, None::<Seq<char>>)),
        split_host(owner + seq!['/'] + name) == Some((HostView::GitHub, owner + seq!['/'] + name)),
{
    reveal_strlit("github:");
    reveal_strlit("github");
    reveal_strlit("gh");
    reveal_strlit("gitlab");
    reveal_strlit("gl");
    reveal_strlit("bitbucket");
    reveal_strlit("bb");
    reveal_strlit("github.com");
    reveal_strlit("https://");
    reveal_strlit("git@");
    reveal_strlit("https://github.com/");
    reveal_strlit("git@github.com:");
    lemma_plain_tail(owner, name);
    let tail = owner + seq!['/'] + name;
    // owner/name
    {
        let s = tail;
        assert forall|i: int| 0 <= i < s.len() implies !is_space(#[trigger] s[i]) by {
            if i < owner.len() {
                assert(s[i] == owner[i]);
            } else if i == owner.len() {
                assert(s[i] == '/');
            } else {
                assert(s[i] == name[i - owner.len() - 1]);
            }
        }
        assert(!has_space(s));
        assert forall|j: int| 0 <= j < s.len() implies s[j] != '#' by {
            if j < owner.len() {
                assert(s[j] == owner[j]);
            } else if j == owner.len() {
            } else {
                assert(s[j] == name[j - owner.len() - 1]);
            }
        }
        crate::strutil::lemma_find_char_none(s, '#');
        assert(split_ref(s) == Some((s, None::<Seq<char>>)));
        // not an https:// URL
        if starts_with(s, "https://"@) {
            if owner.len() <= 5 {
                assert(s.subrange(0, "https://"@.len() as int)[owner.len() as int] == s[
                    owner.len() as int
                ]);
                assert(false);
            } else {
                assert(s.subrange(0, "https://"@.len() as int)[5] == s[5]);
                assert(s[5] == owner[5]);
                assert(false);
            }
        }
        // not an SSH-style form
        if starts_with(s, "git@"@) {
            if owner.len() <= 3 {
                assert(s.subrange(0, "git@"@.len() as int)[owner.len() as int] == s[
                    owner.len() as int
                ]);
                assert(false);
            } else {
                assert(s.subrange(0, "git@"@.len() as int)[3] == s[3]);
                assert(s[3] == owner[3]);
                assert(false);
            }
        }
        let head = s.subrange(0, owner.len() as int);
        assert(head =~= owner);
        assert forall|j: int| 0 <= j < owner.len() implies owner[j] != ':' by {}
        crate::strutil::lemma_find_last_char_none(owner, ':');
        if domain_like(owner) {
            let i = choose|i: int| 0 < i && i + 1 < owner.len() && owner[i] == '.';
            assert(false);
        }
        assert(split_host(s) == Some((HostView::GitHub, s)));
    }

}

proof fn lemma_form_shorthand(owner: Seq<char>, name: Seq<char>)
    requires
        plain_seg(owner),
        plain_seg(name),
    ensures
        !has_space("github:"@ + owner + seq!['/'] + name),
        split_ref("github:"@ + owner + seq!['/'] + name) == Some(("github:"@ + owner + seq!['/'] + name, None::<Seq<char>>)),
        split_host("github:"@ + owner + seq!['/'] + name) == Some((HostView::GitHub, owner + seq!['/'] + name)),
{
    reveal_strlit("github:");
    reveal_strlit("github");
    reveal_strlit("gh");
    reveal_strlit("gitlab");
    reveal_strlit("gl");
    reveal_strlit("bitbucket");
    reveal_strlit("bb");
    reveal_strlit("github.com");
    reveal_strlit("https://");
    reveal_strlit("git@");
    reveal_strlit("https://github.com/");
    reveal_strlit("git@github.com:");
    lemma_plain_tail(owner, name);
    let tail = owner + seq!['/'] + name;
    // github:owner/name
    {
        let s = "github:"@ + owner + seq!['/'] + name;
        let lit = "github:"@;
        assert(lit.len() == 7);
        assert forall|i: int| 0 <= i < s.len() implies !is_space(#[trigger] s[i]) by {
            if i < 7 {
                assert(s[i] == lit[i]);
            } else if i < 7 + owner.len() {
                assert(s[i] == owner[i - 7]);
            } else if i == 7 + owner.len() {
                assert(s[i] == '/');
            } else {
                assert(s[i] == name[i - 7 - owner.len() - 1]);
            }
        }
        assert(!has_space(s));
        assert forall|j: int| 0 <= j < s.len() implies s[j] != '#' by {
            if j < 7 {
                assert(s[j] == lit[j]);
            } else if j < 7 + owner.len() {
                assert(s[j] == owner[j - 7]);
            } else if j == 7 + owner.len() {
            } else {
                assert(s[j] == name[j - 7 - owner.len() - 1]);
            }
        }
        crate::strutil::lemma_find_char_none(s, '#');
        assert(split_ref(s) == Some((s, None::<Seq<char>>)));
        if starts_with(s, "https://"@) {
            assert(s.subrange(0, "https://"@.len() as int)[0] == s[0]);
            assert(false);
        }
        if starts_with(s, "git@"@) {
            assert(s.subrange(0, "git@"@.len() as int)[3] == s[3]);
            assert(false);
        }
        // first slash
        assert(s[7 + owner.len() as int] == '/');
        assert forall|j: int| 0 <= j < 7 + owner.len() implies s[j] != '/' by {
            if j < 7 {
                assert(s[j] == lit[j]);
            } else {
                assert(s[j] == owner[j - 7]);
            }
        }
        crate::strutil::lemma_find_char_at(s, '/', 7 + owner.len() as int);
        let head = s.subrange(0, 7 + owner.len() as int);
        // last colon of the head
        assert(head[6] == ':');
        assert forall|j: int| 6 < j < head.len() implies head[j] != ':' by {
            assert(head[j] == owner[j - 7]);
        }
        crate::strutil::lemma_find_last_char_at(head, ':', 6);
        assert(head.subrange(0, 6) =~= "github"@);
        assert(host_of_prefix("github"@) == HostView::GitHub);
        let rest = s.subrange(7, s.len() as int);
        assert(rest =~= tail);
        assert(split_host(s) == Some((HostView::GitHub, tail)));
    }

}

proof fn lemma_form_https(owner: Seq<char>, name: Seq<char>)
    requires
        plain_seg(owner),
        plain_seg(name),
    ensures
        !has_space("https://github.com/"@ + owner + seq!['/'] + name),
        split_ref("https://github.com/"@ + owner + seq!['/'] + name) == Some(("https://github.com/"@ + owner + seq!['/'] + name, None::<Seq<char>>)),
        split_host("https://github.com/"@ + owner + seq!['/'] + name) == Some((HostView::GitHub, owner + seq!['/'] + name)),
{
    reveal_strlit("github:");
    reveal_strlit("github");
    reveal_strlit("gh");
    reveal_strlit("gitlab");
    reveal_strlit("gl");
    reveal_strlit("bitbucket");
    reveal_strlit("bb");
    reveal_strlit("github.com");
    reveal_strlit("https://");
    reveal_strlit("git@");
    reveal_strlit("https://github.com/");
    reveal_strlit("git@github.com:");
    lemma_plain_tail(owner, name);
    let tail = owner + seq!['/'] + name;
    // https://github.com/owner/name
    {
        let s = "https://github.com/"@ + owner + seq!['/'] + name;
        let lit = "https://github.com/"@;
        assert(lit.len() == 19);
        assert forall|i: int| 0 <= i < s.len() implies !is_space(#[trigger] s[i]) by {
            if i < 19 {
                assert(s[i] == lit[i]);
            } else if i < 19 + owner.len() {
                assert(s[i] == owner[i - 19]);
            } else if i == 19 + owner.len() {
                assert(s[i] == '/');
            } else {
                assert(s[i] == name[i - 19 - owner.len() - 1]);
            }
        }
        assert(!has_space(s));
        assert forall|j: int| 0 <= j < s.len() implies s[j] != '#' by {
            if j < 19 {
                assert(s[j] == lit[j]);
            } else if j < 19 + owner.len() {
                assert(s[j] == owner[j - 19]);
            } else if j == 19 + owner.len() {
            } else {
                assert(s[j] == name[j - 19 - owner.len() - 1]);
            }
        }
        crate::strutil::lemma_find_char_none(s, '#');
        assert(split_ref(s) == Some((s, None::<Seq<char>>)));
        assert(s.subrange(0, "https://"@.len() as int) =~= "https://"@);
        assert(starts_with(s, "https://"@));
        let after = s.skip("https://"@.len() as int);
        assert(after[10] == lit[18]);
        assert(after[10] == '/');
        assert forall|j: int| 0 <= j < 10 implies after[j] != '/' by {
            assert(after[j] == lit[j + 8]);
        }
        crate::strutil::lemma_find_char_at(after, '/', 10);
        let dom = after.subrange(0, 10);
        assert(dom =~= "github.com"@);
        assert(dom[6] == '.');
        assert(domain_like(dom));
        assert forall|j: int| 0 <= j < dom.len() implies dom[j] != ':' by {}
        crate::strutil::lemma_find_char_none(dom, ':');
        assert(host_of_domain(dom) == HostView::GitHub);
        let rest = after.subrange(11, after.len() as int);
        assert(rest =~= tail);
        assert(split_host(s) == Some((HostView::GitHub, tail)));
    }

}

proof fn lemma_form_ssh(owner: Seq<char>, name: Seq<char>)
    requires
        plain_seg(owner),
        plain_seg(name),
    ensures
        !has_space("git@github.com:"@ + owner + seq!['/'] + name),
        split_ref("git@github.com:"@ + owner + seq!['/'] + name) == Some(("git@github.com:"@ + owner + seq!['/'] + name, None::<Seq<char>>)),
        split_host("git@github.com:"@ + owner + seq!['/'] + name) == Some((HostView::GitHub, owner + seq!['/'] + name)),
{
    reveal_strlit("github:");
    reveal_strlit("github");
    reveal_strlit("gh");
    reveal_strlit("gitlab");
    reveal_strlit("gl");
    reveal_strlit("bitbucket");
    reveal_strlit("bb");
    reveal_strlit("github.com");
    reveal_strlit("https://");
    reveal_strlit("git@");
    reveal_strlit("https://github.com/");
    reveal_strlit("git@github.com:");
    lemma_plain_tail(owner, name);
    let tail = owner + seq!['/'] + name;
    // git@github.com:owner/name
    {
        let s = "git@github.com:"@ + owner + seq!['/'] + name;
        let lit = "git@github.com:"@;
        assert(lit.len() == 15);
        assert forall|i: int| 0 <= i < s.len() implies !is_space(#[trigger] s[i]) by {
            if i < 15 {
                assert(s[i] == lit[i]);
            } else if i < 15 + owner.len() {
                assert(s[i] == owner[i - 15]);
            } else if i == 15 + owner.len() {
                assert(s[i] == '/');
            } else {
                assert(s[i] == name[i - 15 - owner.len() - 1]);
            }
        }
        assert(!has_space(s));
        assert forall|j: int| 0 <= j < s.len() implies s[j] != '#' by {
            if j < 15 {
                assert(s[j] == lit[j]);
            } else if j < 15 + owner.len() {
                assert(s[j] == owner[j - 15]);
            } else if j == 15 + owner.len() {
            } else {
                assert(s[j] == name[j - 15 - owner.len() - 1]);
            }
        }
        crate::strutil::lemma_find_char_none(s, '#');
        assert(split_ref(s) == Some((s, None::<Seq<char>>)));
        if starts_with(s, "https://"@) {
            assert(s.subrange(0, "https://"@.len() as int)[0] == s[0]);
            assert(false);
        }
        assert(s.subrange(0, "git@"@.len() as int) =~= "git@"@);
        assert(starts_with(s, "git@"@));
        let after = s.skip("git@"@.len() as int);
        // first colon
        assert(after[10] == lit[14]);
        assert(after[10] == ':');
        assert forall|j: int| 0 <= j < 10 implies after[j] != ':' by {
            assert(after[j] == lit[j + 4]);
        }
        crate::strutil::lemma_find_char_at(after, ':', 10);
        // first slash
        assert(after[11 + owner.len() as int] == '/');
        assert forall|j: int| 0 <= j < 11 + owner.len() implies after[j] != '/' by {
            if j < 11 {
                assert(after[j] == lit[j + 4]);
            } else {
                assert(after[j] == owner[j - 11]);
            }
        }
        crate::strutil::lemma_find_char_at(after, '/', 11 + owner.len() as int);
        assert(find_sep(after) == Some(10int));
        let dom = after.subrange(0, 10);
        assert(dom =~= "github.com"@);
        assert(host_of_domain(dom) == HostView::GitHub);
        let rest = after.subrange(11, after.len() as int);
        assert(rest =~= tail);
        assert(split_host(s) == Some((HostView::GitHub, tail)));
    }
}

/// Law: every way of naming a GitHub repository -- plain `owner/name`,
/// the `github:` shorthand, the full HTTPS URL, and the SSH-style form --
/// parses to the same identity.
pub proof fn lemma_equivalent_forms(owner: Seq<char>, name: Seq<char>)
    requires
        plain_seg(owner),
        plain_seg(name),
    ensures
        parse_spec(owner + seq!['/'] + name) == Some(
            RepoView {
                host: HostView::GitHub,
                owner: owner,
                name: strip_git(name),
                subdir: None,
                gitref: None,
            },
        ),
        parse_spec("github:"@ + owner + seq!['/'] + name) == parse_spec(owner + seq!['/'] + name),
        parse_spec("https://github.com/"@ + owner + seq!['/'] + name) == parse_spec(
            owner + seq!['/'] + name,
        ),
        parse_spec("git@github.com:"@ + owner + seq!['/'] + name) == parse_spec(
            owner + seq!['/'] + name,
        ),
{
    lemma_plain_tail(owner, name);
    lemma_form_plain(owner, name);
    lemma_form_shorthand(owner, name);
    lemma_form_https(owner, name);
    lemma_form_ssh(owner, name);
}

/// A subdirectory component as the parser stores it, with no ref marker
/// or whitespace inside.
pub open spec fn plain_subdir(sd: Seq<char>) -> bool {
    valid_subdir(sd) && forall|i: int|
        0 <= i < sd.len() ==> #[trigger] sd[i] != '#' && !is_space(sd[i])
}

/// A non-empty ref with no second ref marker and no whitespace.
pub open spec fn plain_ref(g: Seq<char>) -> bool {
    g.len() > 0 && forall|i: int| 0 <= i < g.len() ==> #[trigger] g[i] != '#' && !is_space(g[i])
}

proof fn lemma_body_with_subdir(owner: Seq<char>, name: Seq<char>, sub: Seq<char>)
    requires
        plain_seg(owner),
        plain_seg(name),
        plain_subdir(sub),
    ensures
        !has_space(owner + seq!['/'] + name + seq!['/'] + sub),
        find_char(owner + seq!['/'] + name + seq!['/'] + sub, '#') is None,
        split_host(owner + seq!['/'] + name + seq!['/'] + sub) == Some(
            (HostView::GitHub, owner + seq!['/'] + name + seq!['/'] + sub),
        ),
        split_tail(owner + seq!['/'] + name + seq!['/'] + sub) == Some(
            (owner, strip_git(name), Some(sub)),
        ),
{
    reveal_strlit("https://");
    reveal_strlit("git@");
    let body = owner + seq!['/'] + name + seq!['/'] + sub;
    let ol = owner.len() as int;
    let nl = name.len() as int;
    assert forall|i: int| 0 <= i < body.len() implies !is_space(#[trigger] body[i]) && body[i]
        != '#' by {
        if i < ol {
            assert(body[i] == owner[i]);
        } else if i == ol {
            assert(body[i] == '/');
        } else if i < ol + 1 + nl {
            assert(body[i] == name[i - ol - 1]);
        } else if i == ol + 1 + nl {
            assert(body[i] == '/');
        } else {
            assert(body[i] == sub[i - ol - 1 - nl - 1]);
        }
    }
    assert(!has_space(body));
    crate::strutil::lemma_find_char_none(body, '#');
    // not an https:// URL and not an SSH-style form
    if starts_with(body, "https://"@) {
        if owner.len() <= 5 {
            assert(body.subrange(0, "https://"@.len() as int)[ol] == body[ol]);
            assert(false);
        } else {
            assert(body.subrange(0, "https://"@.len() as int)[5] == body[5]);
            assert(body[5] == owner[5]);
            assert(false);
        }
    }
    if starts_with(body, "git@"@) {
        if owner.len() <= 3 {
            assert(body.subrange(0, "git@"@.len() as int)[ol] == body[ol]);
            assert(false);
        } else {
            assert(body.subrange(0, "git@"@.len() as int)[3] == body[3]);
            assert(body[3] == owner[3]);
            assert(false);
        }
    }
    // the head is the owner, with no colon and no domain dot
    assert(body[ol] == '/');
    assert forall|j: int| 0 <= j < ol implies body[j] != '/' by {
        assert(body[j] == owner[j]);
    }
    crate::strutil::lemma_find_char_at(body, '/', ol);
    assert(body.subrange(0, ol) =~= owner);
    crate::strutil::lemma_find_last_char_none(owner, ':');
    if domain_like(owner) {
        let i = choose|i: int| 0 < i && i + 1 < owner.len() && owner[i] == '.';
        assert(false);
    }
    assert(split_host(body) == Some((HostView::GitHub, body)));
    // the tail: owner, then the name, then the subdirectory
    let after = body.subrange(ol + 1, body.len() as int);
    assert(after =~= name + seq!['/'] + sub);
    assert(after[nl] == '/');
    assert forall|j: int| 0 <= j < nl implies after[j] != '/' by {
        assert(after[j] == name[j]);
    }
    crate::strutil::lemma_find_char_at(after, '/', nl);
    assert(after.subrange(0, nl) =~= name);
    let sub_rest = after.subrange(nl + 1, after.len() as int);
    assert(sub_rest =~= sub);
    assert(sub[sub.len() - 1] != '/');
    assert(split_tail(body) == Some((owner, strip_git(name), Some(sub))));
}

/// Law: `owner/name/subdir` parses with exactly that subdirectory and no
/// ref, and `owner/name/subdir#ref` parses with exactly that subdirectory
/// and that ref, for every well-formed choice of the four components.
pub proof fn lemma_subdir_and_ref_forms(
    owner: Seq<char>,
    name: Seq<char>,
    sub: Seq<char>,
    gitref: Seq<char>,
)
    requires
        plain_seg(owner),
        plain_seg(name),
        plain_subdir(sub),
        plain_ref(gitref),
    ensures
        parse_spec(owner + seq!['/'] + name + seq!['/'] + sub) == Some(
            RepoView {
                host: HostView::GitHub,
                owner: owner,
                name: strip_git(name),
                subdir: Some(sub),
                gitref: None,
            },
        ),
        parse_spec(owner + seq!['/'] + name + seq!['/'] + sub + seq!['#'] + gitref) == Some(
            RepoView {
                host: HostView::GitHub,
                owner: owner,
                name: strip_git(name),
                subdir: Some(sub),
                gitref: Some(gitref),
            },
        ),
{
    lemma_body_with_subdir(owner, name, sub);
    let body = owner + seq!['/'] + name + seq!['/'] + sub;
    assert(split_ref(body) == Some((body, None::<Seq<char>>)));
    let s = body + seq!['#'] + gitref;
    let bl = body.len() as int;
    assert forall|i: int| 0 <= i < s.len() implies !is_space(#[trigger] s[i]) by {
        if i < bl {
            assert(s[i] == body[i]);
        } else if i == bl {
            assert(s[i] == '#');
        } else {
            assert(s[i] == gitref[i - bl - 1]);
        }
    }
    assert(!has_space(s));
    assert(s[bl] == '#');
    crate::strutil::lemma_find_char(body, '#');
    assert forall|j: int| 0 <= j < bl implies s[j] != '#' by {
        assert(s[j] == body[j]);
    }
    crate::strutil::lemma_find_char_at(s, '#', bl);
    let r = s.subrange(bl + 1, s.len() as int);
    assert(r =~= gitref);
    crate::strutil::lemma_find_char_none(gitref, '#');
    assert(s.subrange(0, bl) =~= body);
    assert(split_ref(s) == Some((body, Some(gitref))));
}

/// A bare domain: dotted, non-empty, and free of separators and markers.
pub open spec fn plain_domain(d: Seq<char>) -> bool {
    &&& d.len() > 0
    &&& domain_like(d)
    &&& forall|i: int|
        0 <= i < d.len() ==> #[trigger] d[i] != '/' && d[i] != ':' && d[i] != '#' && d[i] != '@'
            && !is_space(d[i])
}

/// Law: the `gitlab:` shorthand selects GitLab's own domain, and an
/// unrecognized bare domain selects a GitLab-compatible host under
/// exactly that domain.
pub proof fn lemma_gitlab_hosts(domain: Seq<char>, owner: Seq<char>, name: Seq<char>)
    requires
        plain_domain(domain),
        domain != "github.com"@,
        domain != "bitbucket.org"@,
        plain_seg(owner),
        plain_seg(name),
    ensures
        parse_spec("gitlab:"@ + owner + seq!['/'] + name) == Some(
            RepoView {
                host: HostView::GitLab("gitlab.com"@),
                owner: owner,
                name: strip_git(name),
                subdir: None,
                gitref: None,
            },
        ),
        parse_spec(domain + seq!['/'] + owner + seq!['/'] + name) == Some(
            RepoView {
                host: HostView::GitLab(domain),
                owner: owner,
                name: strip_git(name),
                subdir: None,
                gitref: None,
            },
        ),
{
    reveal_strlit("gitlab:");
    reveal_strlit("gitlab");
    reveal_strlit("github");
    reveal_strlit("gh");
    reveal_strlit("gl");
    reveal_strlit("bitbucket");
    reveal_strlit("bb");
    reveal_strlit("https://");
    reveal_strlit("git@");
    lemma_plain_tail(owner, name);
    let tail = owner + seq!['/'] + name;

    // gitlab:owner/name
    {
        let s = "gitlab:"@ + owner + seq!['/'] + name;
        let lit = "gitlab:"@;
        assert(lit.len() == 7);
        assert forall|i: int| 0 <= i < s.len() implies !is_space(#[trigger] s[i]) && s[i]
            != '#' by {
            if i < 7 {
                assert(s[i] == lit[i]);
            } else if i < 7 + owner.len() {
                assert(s[i] == owner[i - 7]);
            } else if i == 7 + owner.len() {
                assert(s[i] == '/');
            } else {
                assert(s[i] == name[i - 7 - owner.len() - 1]);
            }
        }
        assert(!has_space(s));
        crate::strutil::lemma_find_char_none(s, '#');
        assert(split_ref(s) == Some((s, None::<Seq<char>>)));
        if starts_with(s, "https://"@) {
            assert(s.subrange(0, "https://"@.len() as int)[0] == s[0]);
            assert(false);
        }
        if starts_with(s, "git@"@) {
            assert(s.subrange(0, "git@"@.len() as int)[3] == s[3]);
            assert(false);
        }
        assert(s[7 + owner.len() as int] == '/');
        assert forall|j: int| 0 <= j < 7 + owner.len() implies s[j] != '/' by {
            if j < 7 {
                assert(s[j] == lit[j]);
            } else {
                assert(s[j] == owner[j - 7]);
            }
        }
        crate::strutil::lemma_find_char_at(s, '/', 7 + owner.len() as int);
        let head = s.subrange(0, 7 + owner.len() as int);
        assert(head[6] == ':');
        assert forall|j: int| 6 < j < head.len() implies head[j] != ':' by {
            assert(head[j] == owner[j - 7]);
        }
        crate::strutil::lemma_find_last_char_at(head, ':', 6);
        assert(head.subrange(0, 6) =~= "gitlab"@);
        if "gitlab"@ == "github"@ {
            assert("gitlab"@[3] == "github"@[3]);
            assert(false);
        }
        assert(host_of_prefix("gitlab"@) == HostView::GitLab("gitlab.com"@));
        let rest = s.subrange(7, s.len() as int);
        assert(rest =~= tail);
        assert(split_host(s) == Some((HostView::GitLab("gitlab.com"@), tail)));
    }

    // domain/owner/name
    {
        let s = domain + seq!['/'] + owner + seq!['/'] + name;
        let dl = domain.len() as int;
        let ol = owner.len() as int;
        assert forall|i: int| 0 <= i < s.len() implies !is_space(#[trigger] s[i]) && s[i]
            != '#' by {
            if i < dl {
                assert(s[i] == domain[i]);
            } else if i == dl {
                assert(s[i] == '/');
            } else if i < dl + 1 + ol {
                assert(s[i] == owner[i - dl - 1]);
            } else if i == dl + 1 + ol {
                assert(s[i] == '/');
            } else {
                assert(s[i] == name[i - dl - 1 - ol - 1]);
            }
        }
        assert(!has_space(s));
        crate::strutil::lemma_find_char_none(s, '#');
        assert(split_ref(s) == Some((s, None::<Seq<char>>)));
        if starts_with(s, "https://"@) {
            if domain.len() <= 5 {
                assert(s.subrange(0, "https://"@.len() as int)[dl] == s[dl]);
                assert(false);
            } else {
                assert(s.subrange(0, "https://"@.len() as int)[5] == s[5]);
                assert(s[5] == domain[5]);
                assert(false);
            }
        }
        if starts_with(s, "git@"@) {
            if domain.len() <= 3 {
                assert(s.subrange(0, "git@"@.len() as int)[dl] == s[dl]);
                assert(false);
            } else {
                assert(s.subrange(0, "git@"@.len() as int)[3] == s[3]);
                assert(s[3] == domain[3]);
                assert(false);
            }
        }
        assert(s[dl] == '/');
        assert forall|j: int| 0 <= j < dl implies s[j] != '/' by {
            assert(s[j] == domain[j]);
        }
        crate::strutil::lemma_find_char_at(s, '/', dl);
        let head = s.subrange(0, dl);
        assert(head =~= domain);
        crate::strutil::lemma_find_last_char_none(domain, ':');
        assert(host_of_domain(domain) == HostView::GitLab(domain));
        let rest = s.subrange(dl + 1, s.len() as int);
        assert(rest =~= tail);
        assert(split_host(s) == Some((HostView::GitLab(domain), tail)));
    }
}

} // verus!
