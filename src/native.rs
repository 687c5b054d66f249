//! The native backend's own logic: where a path lies under the backend's
//! root directory, and which listed real paths map back to paths.
use crate::fs::{Error, ErrorKind, FileType, Result};
use crate::path::{
    components_of, joined, lemma_boundary_after_ascii, lemma_components_concat,
    lemma_components_parts, lemma_components_trail_sep, lemma_components_word, no_sep, slice, Path,
    PathBuf, SEP,
};
use vstd::prelude::*;
use vstd::string::StringSliceAdditionalSpecFns;
use vstd::utf8::*;

verus! {

broadcast use vstd::utf8::group_utf8_lib;

/// The real location of the path with components `cs` under `root`; onto
/// an empty location a component is put without a separator.
pub open spec fn resolved(root: Seq<u8>, cs: Seq<Seq<u8>>) -> Seq<u8>
    decreases cs.len(),
{
    if cs.len() == 0 {
        root
    } else if resolved(root, cs.drop_last()).len() == 0 {
        cs.last()
    } else {
        joined(resolved(root, cs.drop_last()), cs.last())
    }
}

/// `target` is `root` itself or lies below it; everything lies below an
/// empty root.
pub open spec fn within(root: Seq<u8>, target: Seq<u8>) -> bool {
    root.len() == 0 || within_named(root, target)
}

/// `target` is the non-empty `root` itself or lies below it.
pub open spec fn within_named(root: Seq<u8>, target: Seq<u8>) -> bool {
    &&& root.len() <= target.len()
    &&& target.subrange(0, root.len() as int) == root
    &&& (target.len() == root.len() || target[root.len() as int] == SEP || (root.len() > 0
        && root.last() == SEP))
}

/// The part of `target` beyond `root`, when `target` lies within it.
pub open spec fn relative(root: Seq<u8>, target: Seq<u8>) -> Option<Seq<u8>> {
    if within(root, target) {
        Some(target.subrange(root.len() as int, target.len() as int))
    } else {
        None
    }
}

/// The paths, relative to `root`, of the listed real paths that lie
/// within it, in order; entries that are absent or lie elsewhere are
/// left out.
pub open spec fn kept(root: Seq<u8>, listed: Seq<Option<String>>) -> Seq<Seq<u8>>
    decreases listed.len(),
{
    if listed.len() == 0 {
        Seq::empty()
    } else {
        let prev = kept(root, listed.drop_last());
        match listed.last() {
            Some(s) => match relative(root, encode_utf8(s@)) {
                Some(p) => prev.push(p),
                None => prev,
            },
            None => prev,
        }
    }
}

/// A filesystem rooted at a real directory: every path is resolved
/// below that directory.
pub struct Native {
    root: String,
}

impl Native {
    /// The bytes of the root directory.
    pub closed spec fn root(&self) -> Seq<u8> {
        encode_utf8(self.root@)
    }

    pub fn new(root: &str) -> (r: Native)
        ensures
            r.root() == root.spec_bytes(),
    {
        Native { root: String::from_str(root) }
    }

    /// The real location of `path`: its components pushed, in order, onto
    /// the root.
    pub fn path(&self, path: Path<'_>) -> (r: String)
        ensures
            encode_utf8(r@) == resolved(self.root(), components_of(path@)),
    {
        let mut target = PathBuf::from(self.root.as_str());
        let mut comps = path.components();
        let ghost all = components_of(path@);
        let ghost mut done: Seq<Seq<u8>> = Seq::empty();
        let mut finished = false;
        while !finished
            invariant
                comps.wf(),
                all == done + comps.remaining(),
                target@ == resolved(self.root(), done),
                finished ==> comps.remaining().len() == 0,
            decreases comps.remaining().len() + if finished {
                0int
            } else {
                1int
            },
        {
            match comps.next() {
                Some(part) => {
                    if target.as_str().as_bytes().len() == 0 {
                        target = PathBuf::from(part.as_str());
                    } else {
                        target.push(part.as_str());
                    }
                    proof {
                        let prev = done;
                        done = done.push(part@);
                        assert(done.drop_last() =~= prev);
                        assert(all =~= done + comps.remaining());
                    }
                },
                None => {
                    finished = true;
                },
            }
        }
        proof {
            assert(all =~= done);
        }
        target.into_string()
    }

    /// The path of `target` relative to the root; `None` when `target` does
    /// not lie within the root.
    pub fn unpath(&self, target: &str) -> (r: Option<PathBuf>)
        ensures
            relative(self.root(), target.spec_bytes()) == match r {
                None => None,
                Some(p) => Some(p@),
            },
    {
        let rb = self.root.as_str().as_bytes();
        let b = target.as_bytes();
        let ghost root = self.root();
        let ghost bs = target.spec_bytes();
        if rb.len() > b.len() {
            return None;
        }
        let mut k: usize = 0;
        while k < rb.len()
            invariant
                k <= rb@.len() <= b@.len(),
                rb@ == root,
                b@ == bs,
                root == self.root(),
                bs == target.spec_bytes(),
                forall|m: int| 0 <= m < k ==> bs[m] == root[m],
            decreases rb.len() - k,
        {
            if b[k] != rb[k] {
                proof {
                    assert(bs.subrange(0, root.len() as int)[k as int] != root[k as int]);
                    assert(bs.subrange(0, root.len() as int) != root);
                }
                return None;
            }
            k = k + 1;
        }
        proof {
            assert(bs.subrange(0, root.len() as int) =~= root);
        }
        let n = rb.len();
        if n == 0 || b.len() == n || b[n] == SEP || rb[n - 1] == SEP {
            proof {
                assert(valid_utf8(bs));
                is_char_boundary_start_end_of_seq(bs);
                if 0 < n < bs.len() {
                    if bs[n as int] == SEP {
                        is_char_boundary_iff_not_is_continuation_byte(bs, n as int);
                    } else {
                        assert(bs[n - 1] == SEP);
                        is_char_boundary_iff_not_is_continuation_byte(bs, n - 1);
                        lemma_boundary_after_ascii(bs, n - 1);
                    }
                }
            }
            Some(PathBuf::from(slice(target, n, b.len())))
        } else {
            None
        }
    }

    /// The paths of the listed real entries that lie within the root, in
    /// order; an absent entry (one that could not be read) or one outside
    /// the root is skipped.
    pub fn entries(&self, listed: &Vec<Option<String>>) -> (r: Vec<PathBuf>)
        ensures
            r@.map_values(|p: PathBuf| p@) == kept(self.root(), listed@),
    {
        let mut out: Vec<PathBuf> = Vec::new();
        let mut i: usize = 0;
        while i < listed.len()
            invariant
                i <= listed@.len(),
                out@.map_values(|p: PathBuf| p@) == kept(self.root(), listed@.subrange(0, i as int)),
            decreases listed.len() - i,
        {
            let ghost before = out@.map_values(|p: PathBuf| p@);
            proof {
                assert(listed@.subrange(0, i + 1).drop_last() =~= listed@.subrange(0, i as int));
                assert(listed@.subrange(0, i + 1).last() == listed@[i as int]);
            }
            match &listed[i] {
                Some(s) => {
                    match self.unpath(s.as_str()) {
                        Some(p) => {
                            out.push(p);
                            proof {
                                assert(out@.map_values(|p: PathBuf| p@) =~= before.push(p@));
                            }
                        },
                        None => {},
                    }
                },
                None => {},
            }
            i = i + 1;
        }
        proof {
            assert(listed@.subrange(0, listed@.len() as int) =~= listed@);
        }
        out
    }

    /// What lies at a real location, from the outcome of looking it up:
    /// whether it is a file and whether it is a directory, or the error of
    /// the lookup, passed on unchanged. A location that is neither file nor
    /// directory is `NotFound`.
    pub fn classify(lookup: core::result::Result<(bool, bool), Error>) -> (r: Result<FileType>)
        ensures
            match lookup {
                Ok((is_file, is_dir)) => match r {
                    Ok(t) => if is_file {
                        t == FileType::File
                    } else {
                        is_dir && t == FileType::Dir
                    },
                    Err(e) => !is_file && !is_dir && e.kind == ErrorKind::NotFound,
                },
                Err(e) => r == Err::<FileType, Error>(e),
            },
    {
        match lookup {
            Ok((is_file, is_dir)) => {
                if is_file {
                    Ok(FileType::File)
                } else if is_dir {
                    Ok(FileType::Dir)
                } else {
                    Err(Error::new(ErrorKind::NotFound, "File not found."))
                }
            },
            Err(e) => Err(e),
        }
    }
}

/// Whatever path is resolved, the real location lies within the root:
/// no path leads out of the backend's directory.
pub proof fn lemma_resolved_within(root: Seq<u8>, cs: Seq<Seq<u8>>)
    ensures
        within(root, resolved(root, cs)),
    decreases cs.len(),
{
    if root.len() == 0 {
    } else if cs.len() == 0 {
        assert(root.subrange(0, root.len() as int) =~= root);
    } else {
        let prev = resolved(root, cs.drop_last());
        lemma_resolved_within(root, cs.drop_last());
        assert(prev.len() > 0);
        let c = cs.last();
        let r = joined(prev, c);
        assert(r.subrange(0, root.len() as int) =~= prev.subrange(0, root.len() as int));
        if prev.len() > root.len() {
            assert(r[root.len() as int] == prev[root.len() as int]);
        } else {
            assert(prev =~= prev.subrange(0, root.len() as int));
            if !(root.len() > 0 && root.last() == SEP) {
                if c.len() > 0 && c[0] == SEP {
                    assert(r[root.len() as int] == c[0]);
                } else {
                    assert(r[root.len() as int] == SEP);
                }
            }
        }
    }
}

proof fn lemma_resolved_grows(root: Seq<u8>, cs: Seq<Seq<u8>>)
    requires
        forall|k: int| 0 <= k < cs.len() ==> #[trigger] cs[k].len() > 0 && no_sep(cs[k]),
    ensures
        resolved(root, cs).len() >= root.len() + if cs.len() > 0 {
            1int
        } else {
            0int
        },
    decreases cs.len(),
{
    if cs.len() > 0 {
        let init = cs.drop_last();
        assert forall|k: int| 0 <= k < init.len() implies #[trigger] init[k].len() > 0 && no_sep(
            init[k],
        ) by {
            assert(init[k] == cs[k]);
        }
        lemma_resolved_grows(root, init);
        assert(cs.last() == cs[cs.len() - 1]);
        assert(cs.last()[0] != SEP);
    }
}

/// Every path that a listing under the root yields, resolved again,
/// lies within the root, and strictly below it unless the path has no
/// component (the listed entry was the root itself).
pub proof fn lemma_listing_stays_within(root: Seq<u8>, listed: Seq<Option<String>>, k: int)
    requires
        0 <= k < kept(root, listed).len(),
    ensures
        within(root, resolved(root, components_of(kept(root, listed)[k]))),
        components_of(kept(root, listed)[k]).len() > 0 ==> resolved(
            root,
            components_of(kept(root, listed)[k]),
        ).len() > root.len(),
{
    let cs = components_of(kept(root, listed)[k]);
    lemma_resolved_within(root, cs);
    lemma_components_parts(kept(root, listed)[k]);
    lemma_resolved_grows(root, cs);
}

proof fn lemma_resolved_tail(root: Seq<u8>, cs: Seq<Seq<u8>>)
    requires
        forall|k: int| 0 <= k < cs.len() ==> #[trigger] cs[k].len() > 0 && no_sep(cs[k]),
    ensures
        root.len() <= resolved(root, cs).len(),
        resolved(root, cs).subrange(0, root.len() as int) == root,
        components_of(resolved(root, cs).subrange(root.len() as int, resolved(root, cs).len() as int))
            == cs,
    decreases cs.len(),
{
    let rl = root.len() as int;
    if cs.len() == 0 {
        assert(root.subrange(0, rl) =~= root);
        assert(root.subrange(rl, rl) =~= Seq::<u8>::empty());
        assert(components_of(Seq::<u8>::empty()) =~= cs);
    } else {
        let init = cs.drop_last();
        assert forall|k: int| 0 <= k < init.len() implies #[trigger] init[k].len() > 0 && no_sep(
            init[k],
        ) by {
            assert(init[k] == cs[k]);
        }
        lemma_resolved_tail(root, init);
        let prev = resolved(root, init);
        let t = prev.subrange(rl, prev.len() as int);
        let c = cs.last();
        assert(c == cs[cs.len() - 1]);
        lemma_components_word(c);
        let n = resolved(root, cs);
        let tn = n.subrange(rl, n.len() as int);
        if prev.len() == 0 {
            assert(n == c);
            assert(tn =~= c);
            assert(t =~= Seq::<u8>::empty());
            assert(components_of(t) =~= Seq::<Seq<u8>>::empty());
            assert(init =~= Seq::<Seq<u8>>::empty());
            assert(n.subrange(0, rl) =~= root);
        } else if prev.len() > 0 && prev.last() == SEP {
            assert(n.subrange(0, rl) =~= prev.subrange(0, rl));
            assert(tn =~= t + c);
            if t.len() == 0 {
                assert(tn =~= c);
                assert(components_of(t) =~= Seq::<Seq<u8>>::empty());
                assert(init =~= Seq::<Seq<u8>>::empty());
            } else {
                assert(t.last() == SEP);
                assert(t + c =~= t.drop_last() + seq![SEP] + c);
                lemma_components_concat(t.drop_last(), c);
                lemma_components_trail_sep(t);
            }
        } else {
            assert(n.subrange(0, rl) =~= prev.subrange(0, rl));
            assert(c[0] != SEP);
            assert(tn =~= t + seq![SEP] + c);
            lemma_components_concat(t, c);
        }
        assert(init + seq![c] =~= cs);
    }
}

/// Resolving a path under the root and taking the result back relative
/// to the root recovers the path's components.
pub proof fn lemma_unpath_recovers(root: Seq<u8>, p: Seq<u8>)
    ensures
        relative(root, resolved(root, components_of(p))) matches Some(q) && components_of(q)
            == components_of(p),
{
    lemma_components_parts(p);
    lemma_resolved_within(root, components_of(p));
    lemma_resolved_tail(root, components_of(p));
}

} // verus!
