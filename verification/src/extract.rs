use vstd::prelude::*;
use vstd::string::StrSliceExecFns;
use vstd::string::StringExecFns;
use crate::strutil::{find_char, find_char_in, lemma_find_char, lemma_find_char_at, str_eq};

verus! {

/// Split a path on `/`, keeping empty parts (an empty path yields one
/// empty part, as `str::split` does).
pub open spec fn split_slash(s: Seq<char>) -> Seq<Seq<char>>
    decreases s.len(),
{
    if s.len() == 0 {
        seq![Seq::<char>::empty()]
    } else if s[0] == '/' {
        seq![Seq::<char>::empty()] + split_slash(s.drop_first())
    } else {
        let rest = split_slash(s.drop_first());
        seq![seq![s[0]] + rest[0]] + rest.drop_first()
    }
}

/// A path component that names something: neither empty nor the current
/// directory.
pub open spec fn keep_seg(seg: Seq<char>) -> bool {
    seg.len() > 0 && seg != seq!['.']
}

pub open spec fn filter_segs(parts: Seq<Seq<char>>) -> Seq<Seq<char>>
    decreases parts.len(),
{
    if parts.len() == 0 {
        Seq::<Seq<char>>::empty()
    } else if keep_seg(parts[0]) {
        seq![parts[0]] + filter_segs(parts.drop_first())
    } else {
        filter_segs(parts.drop_first())
    }
}

/// The meaningful components of a slash-separated path.
pub open spec fn segments(p: Seq<char>) -> Seq<Seq<char>> {
    filter_segs(split_slash(p))
}

/// Join components back into a slash-separated path.
pub open spec fn join_slash(parts: Seq<Seq<char>>) -> Seq<char>
    decreases parts.len(),
{
    if parts.len() == 0 {
        Seq::<char>::empty()
    } else if parts.len() == 1 {
        parts[0]
    } else {
        parts[0] + seq!['/'] + join_slash(parts.drop_first())
    }
}

/// `a` is a component-wise prefix of `b`.
pub open spec fn seg_prefix(a: Seq<Seq<char>>, b: Seq<Seq<char>>) -> bool {
    a.len() <= b.len() && forall|i: int| 0 <= i < a.len() ==> a[i] == b[i]
}

pub open spec fn opt_str_view(o: Option<String>) -> Option<Seq<char>> {
    match o {
        Some(s) => Some(s@),
        None => None,
    }
}

/// Where an archive entry lands: its first component (the archive's
/// synthetic root) is stripped unconditionally; with a subdirectory filter
/// the entry must lie under it, and the filter's components are stripped
/// too; `None` means the entry is skipped.
pub open spec fn extract_spec(path: Seq<char>, subdir: Option<Seq<char>>) -> Option<Seq<char>> {
    let segs = segments(path);
    if segs.len() == 0 {
        None
    } else {
        let stripped = segs.drop_first();
        match subdir {
            None => Some(join_slash(stripped)),
            Some(sd) => {
                let sdsegs = segments(sd);
                if seg_prefix(sdsegs, stripped) {
                    Some(join_slash(stripped.skip(sdsegs.len() as int)))
                } else {
                    None
                }
            },
        }
    }
}

pub proof fn lemma_split_slash_nonempty(s: Seq<char>)
    ensures
        split_slash(s).len() >= 1,
    decreases s.len(),
{
    if s.len() > 0 {
        lemma_split_slash_nonempty(s.drop_first());
    }
}

/// Unfold `split_slash` at the first slash.
pub proof fn lemma_split_slash_step(s: Seq<char>)
    ensures
        match find_char(s, '/') {
            None => split_slash(s) == seq![s],
            Some(i) => split_slash(s) == seq![s.subrange(0, i)] + split_slash(
                s.subrange(i + 1, s.len() as int),
            ),
        },
    decreases s.len(),
{
    lemma_find_char(s, '/');
    if s.len() == 0 {
        assert(s =~= Seq::<char>::empty());
        assert(split_slash(s) =~= seq![s]);
    } else if s[0] == '/' {
        assert(s.subrange(0, 0) =~= Seq::<char>::empty());
        assert(s.subrange(1, s.len() as int) =~= s.drop_first());
        assert(split_slash(s) =~= seq![s.subrange(0, 0)] + split_slash(
            s.subrange(1, s.len() as int),
        ));
    } else {
        let df = s.drop_first();
        lemma_split_slash_step(df);
        lemma_split_slash_nonempty(df);
        lemma_find_char(df, '/');
        match find_char(df, '/') {
            None => {
                assert(split_slash(df) == seq![df]);
                assert(split_slash(df).drop_first() =~= Seq::<Seq<char>>::empty());
                assert(seq![s[0]] + df =~= s);
                assert(split_slash(s) =~= seq![s]);
            },
            Some(k) => {
                assert(split_slash(df)[0] == df.subrange(0, k));
                assert(split_slash(df).drop_first() =~= split_slash(
                    df.subrange(k + 1, df.len() as int),
                ));
                assert(seq![s[0]] + df.subrange(0, k) =~= s.subrange(0, k + 1));
                assert(df.subrange(k + 1, df.len() as int) =~= s.subrange(k + 2, s.len() as int));
                assert(find_char(s, '/') == Some(k + 1));
                assert(split_slash(s) =~= seq![s.subrange(0, k + 1)] + split_slash(
                    s.subrange(k + 2, s.len() as int),
                ));
            },
        }
    }
}

/// Appending one more component to a non-empty join adds one slash.
pub proof fn lemma_join_snoc(ps: Seq<Seq<char>>, x: Seq<char>)
    requires
        ps.len() >= 1,
    ensures
        join_slash(ps.push(x)) == join_slash(ps) + seq!['/'] + x,
    decreases ps.len(),
{
    if ps.len() == 1 {
        assert(ps.push(x).drop_first() =~= seq![x]);
        assert(join_slash(seq![x]) == x);
        assert(join_slash(ps.push(x)) =~= ps[0] + seq!['/'] + x);
    } else {
        assert(ps.push(x).drop_first() =~= ps.drop_first().push(x));
        lemma_join_snoc(ps.drop_first(), x);
        assert(join_slash(ps.push(x)) =~= ps[0] + seq!['/'] + (join_slash(ps.drop_first())
            + seq!['/'] + x));
        assert(ps[0] + seq!['/'] + (join_slash(ps.drop_first()) + seq!['/'] + x) =~= (ps[0]
            + seq!['/'] + join_slash(ps.drop_first())) + seq!['/'] + x);
    }
}

/// The meaningful components of a path, as executable code.
fn split_segments(s: &str) -> (v: Vec<String>)
    ensures
        v.deep_view() == segments(s@),
{
    let n = s.unicode_len();
    let mut acc: Vec<String> = Vec::new();
    let mut pos: usize = 0;
    proof {
        assert(s@.subrange(0, n as int) =~= s@);
        assert(acc.deep_view() =~= Seq::<Seq<char>>::empty());
        assert(segments(s@) == acc.deep_view() + filter_segs(
            split_slash(s@.subrange(pos as int, n as int)),
        ));
    }
    loop
        invariant
            n == s@.len(),
            0 <= pos <= n,
            segments(s@) == acc.deep_view() + filter_segs(
                split_slash(s@.subrange(pos as int, n as int)),
            ),
        decreases n - pos,
    {
        let suffix = s.substring_char(pos, n);
        let ghost suf = s@.subrange(pos as int, n as int);
        let sl = find_char_in(suffix, '/');
        proof {
            lemma_find_char(suf, '/');
            lemma_split_slash_step(suf);
        }
        if sl.is_none() {
            let keep = suffix.unicode_len() > 0 && !str_eq(suffix, ".");
            proof {
                reveal_strlit(".");
                assert("."@ =~= seq!['.']);
                assert(split_slash(suf) == seq![suf]);
                assert(seq![suf].drop_first() =~= Seq::<Seq<char>>::empty());
                assert(keep == keep_seg(suf));
            }
            let ghost acc_old = acc.deep_view();
            if keep {
                acc.push(suffix.to_owned());
                proof {
                    assert(acc.deep_view() =~= acc_old.push(suf));
                    assert(seq![suf][0] == suf);
                    assert(seq![suf].drop_first() =~= Seq::<Seq<char>>::empty());
                    assert(filter_segs(Seq::<Seq<char>>::empty()) == Seq::<Seq<char>>::empty());
                    assert(filter_segs(seq![suf]) =~= seq![suf]);
                    assert(acc_old + filter_segs(split_slash(suf)) =~= acc.deep_view());
                }
            } else {
                proof {
                    assert(seq![suf][0] == suf);
                    assert(seq![suf].drop_first() =~= Seq::<Seq<char>>::empty());
                    assert(filter_segs(Seq::<Seq<char>>::empty()) == Seq::<Seq<char>>::empty());
                    assert(filter_segs(seq![suf]) =~= Seq::<Seq<char>>::empty());
                    assert(acc_old + filter_segs(split_slash(suf)) =~= acc.deep_view());
                }
            }
            return acc;
        }
        let i = sl.unwrap();
        let part = suffix.substring_char(0, i);
        let keep = i > 0 && !str_eq(part, ".");
        let ghost partv = suf.subrange(0, i as int);
        let ghost tail = suf.subrange(i + 1, suf.len() as int);
        proof {
            reveal_strlit(".");
            assert("."@ =~= seq!['.']);
            assert(keep == keep_seg(partv));
            assert(split_slash(suf) == seq![partv] + split_slash(tail));
            assert((seq![partv] + split_slash(tail)).drop_first() =~= split_slash(tail));
            assert((seq![partv] + split_slash(tail))[0] == partv);
        }
        let ghost acc_old = acc.deep_view();
        if keep {
            acc.push(part.to_owned());
            proof {
                assert(acc.deep_view() =~= acc_old.push(partv));
                assert(filter_segs(split_slash(suf)) == seq![partv] + filter_segs(
                    split_slash(tail),
                ));
                assert(acc_old + (seq![partv] + filter_segs(split_slash(tail))) =~= acc.deep_view()
                    + filter_segs(split_slash(tail)));
            }
        } else {
            proof {
                assert(filter_segs(split_slash(suf)) == filter_segs(split_slash(tail)));
            }
        }
        pos = pos + i + 1;
        proof {
            assert(s@.subrange(pos as int, n as int) =~= tail);
        }
    }
}

/// Join the components of `v` from position `from` on.
fn join_segments(v: &Vec<String>, from: usize) -> (r: String)
    requires
        from <= v@.len(),
    ensures
        r@ == join_slash(v.deep_view().skip(from as int)),
{
    let ghost dv = v.deep_view();
    if from >= v.len() {
        proof {
            assert(dv.skip(from as int) =~= Seq::<Seq<char>>::empty());
        }
        return String::new();
    }
    let mut r = v[from].clone();
    let mut k = from + 1;
    proof {
        assert(dv.subrange(from as int, from as int + 1) =~= seq![dv[from as int]]);
        assert(join_slash(seq![dv[from as int]]) == dv[from as int]);
        assert(dv[from as int] == v[from as int]@);
    }
    while k < v.len()
        invariant
            dv == v.deep_view(),
            from < k <= v@.len(),
            r@ == join_slash(dv.subrange(from as int, k as int)),
        decreases v@.len() - k,
    {
        r.append("/");
        r.append(v[k].as_str());
        proof {
            reveal_strlit("/");
            assert("/"@ =~= seq!['/']);
            assert(dv.subrange(from as int, k as int + 1) =~= dv.subrange(
                from as int,
                k as int,
            ).push(dv[k as int]));
            lemma_join_snoc(dv.subrange(from as int, k as int), dv[k as int]);
            assert(dv[k as int] == v[k as int]@);
            assert(r@ =~= join_slash(dv.subrange(from as int, k as int)) + seq!['/'] + dv[
                k as int
            ]);
        }
        k += 1;
    }
    proof {
        assert(dv.subrange(from as int, v@.len() as int) =~= dv.skip(from as int));
    }
    r
}

/// Rewrite one archive entry path for the destination tree: strip the
/// synthetic root, apply the optional subdirectory filter, and say whether
/// the entry is written at all.
pub fn entry_destination(path: &str, subdir: &Option<String>) -> (r: Option<String>)
    ensures
        match r {
            Some(p) => extract_spec(path@, opt_str_view(*subdir)) == Some(p@),
            None => extract_spec(path@, opt_str_view(*subdir)) is None,
        },
{
    let segs = split_segments(path);
    let ghost dv = segs.deep_view();
    if segs.len() == 0 {
        return None;
    }
    match subdir {
        Option::None => {
            proof {
                assert(opt_str_view(*subdir) is None);
            }
            let joined = join_segments(&segs, 1);
            proof {
                assert(dv.skip(1) =~= dv.drop_first());
            }
            Some(joined)
        },
        Option::Some(sd) => {
            proof {
                assert(opt_str_view(*subdir) == Some(sd@));
            }
            let sdsegs = split_segments(sd.as_str());
            let ghost sdv = sdsegs.deep_view();
            if sdsegs.len() > segs.len() - 1 {
                proof {
                    assert(dv.drop_first().len() == dv.len() - 1);
                    assert(!seg_prefix(sdv, dv.drop_first()));
                }
                return None;
            }
            let mut k: usize = 0;
            while k < sdsegs.len()
                invariant
                    dv == segs.deep_view(),
                    sdv == sdsegs.deep_view(),
                    dv == segments(path@),
                    sdv == segments(sd@),
                    opt_str_view(*subdir) == Some(sd@),
                    sdv.len() <= dv.len() - 1,
                    dv.len() >= 1,
                    0 <= k <= sdv.len(),
                    forall|j: int| 0 <= j < k ==> sdv[j] == dv.drop_first()[j],
                decreases sdv.len() - k,
            {
                proof {
                    assert(dv[k as int + 1] == segs[k as int + 1]@);
                    assert(sdv[k as int] == sdsegs[k as int]@);
                    assert(dv.drop_first()[k as int] == dv[k as int + 1]);
                }
                if !str_eq(segs[k + 1].as_str(), sdsegs[k].as_str()) {
                    proof {
                        assert(sdv[k as int] != dv.drop_first()[k as int]);
                        assert(!seg_prefix(sdv, dv.drop_first()));
                    }
                    return None;
                }
                k += 1;
            }
            proof {
                assert(seg_prefix(sdv, dv.drop_first()));
            }
            let joined = join_segments(&segs, 1 + sdsegs.len());
            proof {
                assert(dv.skip(1 + sdv.len() as int) =~= dv.drop_first().skip(sdv.len() as int));
            }
            Some(joined)
        },
    }
}

/// Law: for an entry path `root/rest` whose first component is the
/// archive's synthetic root, extraction strips exactly that root; without
/// a filter every remaining component is preserved, and with a filter the
/// entry survives exactly when it lies under the filter, which is then
/// stripped as well.
pub proof fn lemma_extract_strips_root(root: Seq<char>, rest: Seq<char>, subdir: Option<Seq<char>>)
    requires
        keep_seg(root),
        find_char(root, '/') is None,
    ensures
        segments(root + seq!['/'] + rest) == seq![root] + segments(rest),
        extract_spec(root + seq!['/'] + rest, None) == Some(join_slash(segments(rest))),
        (match subdir {
            Some(sd) => extract_spec(root + seq!['/'] + rest, Some(sd)) == (if seg_prefix(
                segments(sd),
                segments(rest),
            ) {
                Some(join_slash(segments(rest).skip(segments(sd).len() as int)))
            } else {
                None
            }),
            None => true,
        }),
{
    let p = root + seq!['/'] + rest;
    lemma_find_char(root, '/');
    assert(p[root.len() as int] == '/');
    assert(forall|j: int| 0 <= j < root.len() ==> p[j] == root[j]);
    lemma_find_char_at(p, '/', root.len() as int);
    lemma_split_slash_step(p);
    assert(p.subrange(0, root.len() as int) =~= root);
    assert(p.subrange(root.len() as int + 1, p.len() as int) =~= rest);
    assert(split_slash(p) == seq![root] + split_slash(rest));
    assert((seq![root] + split_slash(rest)).drop_first() =~= split_slash(rest));
    assert((seq![root] + split_slash(rest))[0] == root);
    assert(segments(p) == seq![root] + segments(rest));
    assert((seq![root] + segments(rest)).drop_first() =~= segments(rest));
}

} // verus!
