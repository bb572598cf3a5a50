use vstd::prelude::*;
use vstd::string::StrSliceExecFns;
use vstd::string::StringExecFns;
use crate::repo::Repo;
use crate::strutil::{
    find_char,
    find_char_in,
    lemma_find_char,
    starts_with,
    starts_with_str,
    str_eq,
};

verus! {

/// Model of the kind of one remote reference.
pub enum RefTypeView {
    Head,
    Branch,
    Tag,
    Other(Seq<char>),
}

/// Model of one entry of a remote's reference list.
pub struct GitRefView {
    pub ref_type: RefTypeView,
    pub name: Seq<char>,
    pub hash: Seq<char>,
}

/// The kind of one remote reference: the HEAD entry, a branch, a tag, or
/// any other reference namespace, carried by its label.
#[derive(Debug, Clone)]
pub enum RefType {
    Head,
    Branch,
    Tag,
    Other(String),
}

/// One entry of a remote's reference list: its kind, short name, and
/// commit hash.
#[derive(Debug, Clone)]
pub struct GitRef {
    pub ref_type: RefType,
    pub name: String,
    pub hash: String,
}

/// The remote's reference list was malformed, or no reference matched the
/// request.
#[derive(Debug, Clone, PartialEq, Eq, Structural)]
pub enum RefError {
    Malformed,
    NotFound,
}

impl View for RefType {
    type V = RefTypeView;

    open spec fn view(&self) -> RefTypeView {
        match self {
            RefType::Head => RefTypeView::Head,
            RefType::Branch => RefTypeView::Branch,
            RefType::Tag => RefTypeView::Tag,
            RefType::Other(s) => RefTypeView::Other(s@),
        }
    }
}

impl DeepView for RefType {
    type V = RefTypeView;

    open spec fn deep_view(&self) -> RefTypeView {
        self.view()
    }
}

impl View for GitRef {
    type V = GitRefView;

    open spec fn view(&self) -> GitRefView {
        GitRefView { ref_type: self.ref_type@, name: self.name@, hash: self.hash@ }
    }
}

impl DeepView for GitRef {
    type V = GitRefView;

    open spec fn deep_view(&self) -> GitRefView {
        self.view()
    }
}

impl PartialEq for RefType {
    fn eq(&self, other: &RefType) -> (r: bool) {
        match (self, other) {
            (RefType::Head, RefType::Head) => true,
            (RefType::Branch, RefType::Branch) => true,
            (RefType::Tag, RefType::Tag) => true,
            (RefType::Other(a), RefType::Other(b)) => *a == *b,
            _ => false,
        }
    }
}

impl vstd::std_specs::cmp::PartialEqSpecImpl for RefType {
    open spec fn obeys_eq_spec() -> bool {
        true
    }

    open spec fn eq_spec(&self, other: &RefType) -> bool {
        self@ == other@
    }
}

impl PartialEq for GitRef {
    fn eq(&self, other: &GitRef) -> (r: bool) {
        self.ref_type == other.ref_type && self.name == other.name && self.hash == other.hash
    }
}

impl vstd::std_specs::cmp::PartialEqSpecImpl for GitRef {
    open spec fn obeys_eq_spec() -> bool {
        true
    }

    open spec fn eq_spec(&self, other: &GitRef) -> bool {
        self@ == other@
    }
}

/// ASCII letters, digits and the underscore: the characters allowed in the
/// namespace segment of a reference path.
pub open spec fn is_word_char(c: char) -> bool {
    let u = c as u32;
    (97 <= u && u <= 122) || (65 <= u && u <= 90) || (48 <= u && u <= 57) || u == 95
}

pub open spec fn all_word(s: Seq<char>) -> bool {
    forall|i: int| 0 <= i < s.len() ==> is_word_char(#[trigger] s[i])
}

/// Kind of a reference from its namespace segment: `heads` are branches,
/// `tags` are tags, anything else keeps its label.
pub open spec fn ref_kind_of(seg: Seq<char>) -> RefTypeView {
    if seg == "heads"@ {
        RefTypeView::Branch
    } else if seg == "tags"@ {
        RefTypeView::Tag
    } else {
        RefTypeView::Other(seg)
    }
}

/// One line of the reference listing: `<hash>\t<ref-path>`, where the path
/// is the literal `HEAD` or `refs/<segment>/<rest>` with a non-empty
/// word-character segment and a non-empty rest.
pub open spec fn parse_ref_line_spec(s: Seq<char>) -> Option<GitRefView> {
    match find_char(s, '\t') {
        None => None,
        Some(i) => {
            let hash = s.subrange(0, i);
            let path = s.subrange(i + 1, s.len() as int);
            if find_char(path, '\t') is Some {
                None
            } else if path == "HEAD"@ {
                Some(GitRefView { ref_type: RefTypeView::Head, name: "HEAD"@, hash })
            } else if starts_with(path, "refs/"@) {
                let after = path.skip("refs/"@.len() as int);
                match find_char(after, '/') {
                    None => None,
                    Some(j) => {
                        let seg = after.subrange(0, j);
                        let rest = after.subrange(j + 1, after.len() as int);
                        if seg.len() > 0 && all_word(seg) && rest.len() > 0 {
                            Some(GitRefView { ref_type: ref_kind_of(seg), name: rest, hash })
                        } else {
                            None
                        }
                    },
                }
            } else {
                None
            }
        },
    }
}

/// Drop one trailing carriage return from a line.
pub open spec fn strip_cr(s: Seq<char>) -> Seq<char> {
    if s.len() > 0 && s[s.len() - 1] == '\r' {
        s.drop_last()
    } else {
        s
    }
}

/// The references contributed by one line: an empty line contributes
/// nothing, any other line must parse.
pub open spec fn line_refs(line: Seq<char>) -> Option<Seq<GitRefView>> {
    if line.len() == 0 {
        Some(Seq::<GitRefView>::empty())
    } else {
        match parse_ref_line_spec(line) {
            Some(r) => Some(seq![r]),
            None => None,
        }
    }
}

/// The whole reference listing, line by line; a single malformed line
/// invalidates the entire listing.
pub open spec fn parse_listing_spec(s: Seq<char>) -> Option<Seq<GitRefView>>
    decreases s.len(),
{
    match find_char(s, '\n') {
        None => line_refs(strip_cr(s)),
        Some(i) => if 0 <= i < s.len() {
            let first = line_refs(strip_cr(s.subrange(0, i)));
            let rest = parse_listing_spec(s.subrange(i + 1, s.len() as int));
            match (first, rest) {
                (Some(a), Some(b)) => Some(a + b),
                _ => None,
            }
        } else {
            None
        },
    }
}

fn word_char(c: char) -> (b: bool)
    ensures
        b == is_word_char(c),
{
    let u = c as u32;
    (97 <= u && u <= 122) || (65 <= u && u <= 90) || (48 <= u && u <= 57) || u == 95
}

fn all_word_exec(s: &str) -> (b: bool)
    ensures
        b == all_word(s@),
{
    let n = s.unicode_len();
    let mut i: usize = 0;
    while i < n
        invariant
            n == s@.len(),
            0 <= i <= n,
            forall|j: int| 0 <= j < i ==> is_word_char(#[trigger] s@[j]),
        decreases n - i,
    {
        if !word_char(s.get_char(i)) {
            return false;
        }
        i += 1;
    }
    true
}

/// Parse one line of the remote reference listing.
pub fn parse_ref_line(line: &str) -> (r: Option<GitRef>)
    ensures
        match r {
            Some(g) => parse_ref_line_spec(line@) == Some(g@),
            None => parse_ref_line_spec(line@) is None,
        },
{
    let n = line.unicode_len();
    let t_opt = find_char_in(line, '\t');
    if t_opt.is_none() {
        return None;
    }
    let i = t_opt.unwrap();
    proof {
        lemma_find_char(line@, '\t');
    }
    let hash = line.substring_char(0, i).to_owned();
    let path = line.substring_char(i + 1, n);
    if find_char_in(path, '\t').is_some() {
        return None;
    }
    if str_eq(path, "HEAD") {
        return Some(GitRef { ref_type: RefType::Head, name: "HEAD".to_owned(), hash });
    }
    if !starts_with_str(path, "refs/") {
        return None;
    }
    let m = "refs/".unicode_len();
    let after = path.substring_char(m, path.unicode_len());
    proof {
        assert(after@ =~= path@.skip("refs/"@.len() as int));
    }
    let j_opt = find_char_in(after, '/');
    if j_opt.is_none() {
        return None;
    }
    let j = j_opt.unwrap();
    proof {
        lemma_find_char(after@, '/');
    }
    if j == 0 {
        return None;
    }
    let seg = after.substring_char(0, j);
    let rest = after.substring_char(j + 1, after.unicode_len());
    if !all_word_exec(seg) {
        return None;
    }
    if rest.unicode_len() == 0 {
        return None;
    }
    let ref_type = if str_eq(seg, "heads") {
        RefType::Branch
    } else if str_eq(seg, "tags") {
        RefType::Tag
    } else {
        RefType::Other(seg.to_owned())
    };
    Some(GitRef { ref_type, name: rest.to_owned(), hash })
}

/// Parse the whole reference listing, skipping empty lines and tolerating
/// a trailing carriage return on each line; fails on the first malformed
/// line.
pub fn parse_ref_listing(text: &str) -> (r: Result<Vec<GitRef>, RefError>)
    ensures
        match r {
            Ok(refs) => parse_listing_spec(text@) == Some(refs.deep_view()),
            Err(e) => parse_listing_spec(text@) is None && e == RefError::Malformed,
        },
{
    let n = text.unicode_len();
    let mut acc: Vec<GitRef> = Vec::new();
    let mut pos: usize = 0;
    proof {
        assert(text@.subrange(0, n as int) =~= text@);
        assert(acc.deep_view() =~= Seq::<GitRefView>::empty());
    }
    loop
        invariant
            n == text@.len(),
            0 <= pos <= n,
            parse_listing_spec(text@) == (match parse_listing_spec(
                text@.subrange(pos as int, n as int),
            ) {
                Some(rest) => Some(acc.deep_view() + rest),
                None => None,
            }),
        decreases n - pos,
    {
        let suffix = text.substring_char(pos, n);
        let ghost suf = text@.subrange(pos as int, n as int);
        let nl = find_char_in(suffix, '\n');
        proof {
            lemma_find_char(suf, '\n');
        }
        if nl.is_none() {
            let m = suffix.unicode_len();
            let line = if m > 0 && suffix.get_char(m - 1) == '\r' {
                suffix.substring_char(0, m - 1)
            } else {
                suffix
            };
            proof {
                assert(line@ =~= strip_cr(suf));
            }
            if line.unicode_len() == 0 {
                proof {
                    assert(acc.deep_view() + Seq::<GitRefView>::empty() =~= acc.deep_view());
                }
                return Ok(acc);
            }
            let g_opt = parse_ref_line(line);
            if g_opt.is_none() {
                return Err(RefError::Malformed);
            }
            let g = g_opt.unwrap();
            let ghost gv = g@;
            let ghost acc_before = acc.deep_view();
            acc.push(g);
            proof {
                assert(acc.deep_view() =~= acc_before.push(gv));
                assert(acc_before + seq![gv] =~= acc.deep_view());
            }
            return Ok(acc);
        }
        let i = nl.unwrap();
        let line_end = if i > 0 && suffix.get_char(i - 1) == '\r' {
            i - 1
        } else {
            i
        };
        let line = suffix.substring_char(0, line_end);
        proof {
            if i > 0 && suf[i as int - 1] == '\r' {
                assert(suf.subrange(0, i as int).drop_last() =~= suf.subrange(0, i as int - 1));
            }
            assert(line@ =~= strip_cr(suf.subrange(0, i as int)));
        }
        let ghost acc_old = acc.deep_view();
        let ghost a: Seq<GitRefView>;
        if line.unicode_len() == 0 {
            proof {
                a = Seq::<GitRefView>::empty();
                assert(line_refs(strip_cr(suf.subrange(0, i as int))) == Some(a));
                assert(acc.deep_view() =~= acc_old + a);
            }
        } else {
            let g_opt = parse_ref_line(line);
            if g_opt.is_none() {
                return Err(RefError::Malformed);
            }
            let g = g_opt.unwrap();
            let ghost gv = g@;
            acc.push(g);
            proof {
                a = seq![gv];
                assert(line_refs(strip_cr(suf.subrange(0, i as int))) == Some(a));
                assert(acc.deep_view() =~= acc_old + a);
            }
        }
        pos = pos + i + 1;
        proof {
            assert(text@.subrange(pos as int, n as int) =~= suf.subrange(i + 1, suf.len() as int));
            match parse_listing_spec(suf.subrange(i + 1, suf.len() as int)) {
                Some(b) => {
                    assert(parse_listing_spec(suf) == Some(a + b));
                    assert(acc_old + (a + b) =~= (acc_old + a) + b);
                },
                None => {
                    assert(parse_listing_spec(suf) is None);
                },
            }
        }
    }
}

/// A reference answers the request `q` when its short name equals `q` or
/// its hash starts with `q`.
pub open spec fn ref_matches(g: GitRefView, q: Seq<char>) -> bool {
    g.name == q || starts_with(g.hash, q)
}

/// Hash of the first reference, in listing order, that answers `q`.
pub open spec fn scan_match(refs: Seq<GitRefView>, q: Seq<char>) -> Option<Seq<char>>
    decreases refs.len(),
{
    if refs.len() == 0 {
        None
    } else if ref_matches(refs[0], q) {
        Some(refs[0].hash)
    } else {
        scan_match(refs.drop_first(), q)
    }
}

/// Hash of the first HEAD-kind entry, if any.
pub open spec fn head_hash(refs: Seq<GitRefView>) -> Option<Seq<char>>
    decreases refs.len(),
{
    if refs.len() == 0 {
        None
    } else if refs[0].ref_type is Head {
        Some(refs[0].hash)
    } else {
        head_hash(refs.drop_first())
    }
}

/// Resolution of a requested ref against a reference list: no ref, or the
/// literal `HEAD`, takes the HEAD entry's hash when one exists; otherwise
/// the first entry matching by name or hash prefix wins.
pub open spec fn resolve_spec(refs: Seq<GitRefView>, gitref: Option<Seq<char>>) -> Option<
    Seq<char>,
> {
    let want_head = gitref is None || gitref == Some("HEAD"@);
    if want_head && head_hash(refs) is Some {
        head_hash(refs)
    } else {
        match gitref {
            None => None,
            Some(q) => scan_match(refs, q),
        }
    }
}

/// Resolve the identity's requested ref against a reference list and
/// return the commit hash it denotes.
pub fn get_hash(repo: &Repo, refs: &Vec<GitRef>) -> (r: Result<String, RefError>)
    ensures
        match r {
            Ok(h) => resolve_spec(refs.deep_view(), repo@.gitref) == Some(h@),
            Err(e) => resolve_spec(refs.deep_view(), repo@.gitref) is None && e
                == RefError::NotFound,
        },
{
    let ghost dv = refs.deep_view();
    let ghost grv = repo@.gitref;
    let n = refs.len();
    let want_head: bool;
    match &repo.gitref {
        Option::None => {
            want_head = true;
            proof {
                assert(grv is None);
                assert(want_head == (grv is None || grv == Some("HEAD"@)));
            }
        },
        Option::Some(g) => {
            want_head = str_eq(g.as_str(), "HEAD");
            proof {
                assert(grv == Some(g@));
                assert(want_head == (grv is None || grv == Some("HEAD"@)));
            }
        },
    }
    if want_head {
        let mut i: usize = 0;
        proof {
            assert(dv.skip(0) =~= dv);
        }
        while i < n
            invariant
                n == refs.len(),
                dv == refs.deep_view(),
                0 <= i <= n,
                head_hash(dv) == head_hash(dv.skip(i as int)),
                want_head == (grv is None || grv == Some("HEAD"@)),
                want_head,
                grv == repo@.gitref,
            decreases n - i,
        {
            let entry = &refs[i];
            proof {
                assert(dv.skip(i as int)[0] == dv[i as int]);
                assert(dv[i as int] == refs[i as int].deep_view());
            }
            let is_head = match &entry.ref_type {
                RefType::Head => true,
                _ => false,
            };
            if is_head {
                proof {
                    assert(dv[i as int].ref_type is Head);
                    assert(head_hash(dv.skip(i as int)) == Some(dv[i as int].hash));
                }
                return Ok(entry.hash.clone());
            }
            proof {
                assert(!(dv[i as int].ref_type is Head));
                assert(head_hash(dv.skip(i as int)) == head_hash(
                    dv.skip(i as int).drop_first(),
                ));
                assert(dv.skip(i as int).drop_first() =~= dv.skip(i as int + 1));
            }
            i += 1;
        }
        proof {
            assert(dv.skip(n as int) =~= Seq::<GitRefView>::empty());
            assert(head_hash(dv) is None);
        }
    }
    match &repo.gitref {
        Option::None => {
            proof {
                assert(grv is None);
            }
            Err(RefError::NotFound)
        },
        Option::Some(g) => {
            let ghost q = g@;
            proof {
                assert(grv == Some(q));
            }
            let mut i: usize = 0;
            proof {
                assert(dv.skip(0) =~= dv);
            }
            while i < n
                invariant
                    n == refs.len(),
                    dv == refs.deep_view(),
                    0 <= i <= n,
                    scan_match(dv, q) == scan_match(dv.skip(i as int), q),
                    q == g@,
                    grv == Some(q),
                    grv == repo@.gitref,
                    want_head == (grv is None || grv == Some("HEAD"@)),
                    want_head ==> head_hash(dv) is None,
                decreases n - i,
            {
                let entry = &refs[i];
                proof {
                    assert(dv.skip(i as int)[0] == dv[i as int]);
                    assert(dv[i as int] == refs[i as int].deep_view());
                }
                let hit = str_eq(entry.name.as_str(), g.as_str()) || starts_with_str(
                    entry.hash.as_str(),
                    g.as_str(),
                );
                if hit {
                    proof {
                        assert(ref_matches(dv[i as int], q));
                        assert(scan_match(dv.skip(i as int), q) == Some(dv[i as int].hash));
                    }
                    return Ok(entry.hash.clone());
                }
                proof {
                    assert(!ref_matches(dv[i as int], q));
                    assert(scan_match(dv.skip(i as int), q) == scan_match(
                        dv.skip(i as int).drop_first(),
                        q,
                    ));
                    assert(dv.skip(i as int).drop_first() =~= dv.skip(i as int + 1));
                }
                i += 1;
            }
            proof {
                assert(dv.skip(n as int) =~= Seq::<GitRefView>::empty());
                assert(scan_match(dv, q) is None);
            }
            Err(RefError::NotFound)
        },
    }
}

/// Law: when the listing has a HEAD entry, requesting no ref at all or the
/// literal `HEAD` resolves to that entry's hash.
pub proof fn lemma_resolve_head(refs: Seq<GitRefView>, gitref: Option<Seq<char>>)
    requires
        head_hash(refs) is Some,
        gitref is None || gitref == Some("HEAD"@),
    ensures
        resolve_spec(refs, gitref) == head_hash(refs),
{
}

/// Law: when some entry answers the request by exact name or hash prefix,
/// resolution of that request succeeds.
pub proof fn lemma_resolve_finds_match(refs: Seq<GitRefView>, q: Seq<char>)
    requires
        exists|i: int| 0 <= i < refs.len() && ref_matches(#[trigger] refs[i], q),
    ensures
        scan_match(refs, q) is Some,
        resolve_spec(refs, Some(q)) is Some,
    decreases refs.len(),
{
    if refs.len() > 0 && !ref_matches(refs[0], q) {
        let i = choose|i: int| 0 <= i < refs.len() && ref_matches(#[trigger] refs[i], q);
        assert(refs.drop_first()[i - 1] == refs[i]);
        lemma_resolve_finds_match(refs.drop_first(), q);
    }
}

/// Law: a request that is not the literal `HEAD` and that no entry answers
/// fails to resolve.
pub proof fn lemma_resolve_no_match(refs: Seq<GitRefView>, q: Seq<char>)
    requires
        q != "HEAD"@,
        forall|i: int| 0 <= i < refs.len() ==> !ref_matches(#[trigger] refs[i], q),
    ensures
        resolve_spec(refs, Some(q)) is None,
    decreases refs.len(),
{
    if refs.len() > 0 {
        assert(forall|i: int|
            0 <= i < refs.drop_first().len() ==> refs.drop_first()[i] == refs[i + 1]);
        lemma_resolve_no_match(refs.drop_first(), q);
    }
}

} // verus!
