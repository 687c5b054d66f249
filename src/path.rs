//! Paths that always use `/` as separator and are never rooted: `"/a/b"`
//! and `"a/b"` name the same path. A path is, in effect, its sequence of
//! non-empty components.
use core::cmp::Ordering;
use vstd::prelude::*;
use vstd::string::StringSliceAdditionalSpecFns;
use vstd::utf8::*;

verus! {

broadcast use vstd::utf8::group_utf8_lib;

/// The separator byte, `/`.
pub const SEP: u8 = 0x2f;

/// The byte `.`, which starts an extension.
pub const DOT: u8 = 0x2e;

/// The components of a path whose word being read so far is `cur`.
pub open spec fn flush(cur: Seq<u8>) -> Seq<Seq<u8>> {
    if cur.len() == 0 {
        Seq::empty()
    } else {
        seq![cur]
    }
}

/// Splits `s` at separators, dropping empty words; `cur` is the word that
/// precedes `s` and is not yet finished.
pub open spec fn split_from(s: Seq<u8>, cur: Seq<u8>) -> Seq<Seq<u8>>
    decreases s.len(),
{
    if s.len() == 0 {
        flush(cur)
    } else if s[0] == SEP {
        flush(cur) + split_from(s.drop_first(), Seq::empty())
    } else {
        split_from(s.drop_first(), cur.push(s[0]))
    }
}

/// The components of the path whose bytes are `s`.
pub open spec fn components_of(s: Seq<u8>) -> Seq<Seq<u8>> {
    split_from(s, Seq::empty())
}

/// `s` holds no separator.
pub open spec fn no_sep(s: Seq<u8>) -> bool {
    forall|k: int| 0 <= k < s.len() ==> s[k] != SEP
}

/// The first index at or after `i` (and at most `j`) whose byte is not a
/// separator (`sep`) or not a non-separator (`!sep`).
pub open spec fn skip_fwd(s: Seq<u8>, i: int, j: int, sep: bool) -> int
    decreases j - i,
{
    if i < j && (s[i] == SEP) == sep {
        skip_fwd(s, i + 1, j, sep)
    } else {
        i
    }
}

/// The mirror of `skip_fwd`: moves `j` down while the byte before it is
/// a separator (`sep`) or a non-separator (`!sep`), never below `i`.
pub open spec fn skip_back(s: Seq<u8>, i: int, j: int, sep: bool) -> int
    decreases j - i,
{
    if i < j && (s[j - 1] == SEP) == sep {
        skip_back(s, i, j - 1, sep)
    } else {
        j
    }
}

/// The end of what remains of `s` after its last component is dropped.
pub open spec fn parent_end(s: Seq<u8>) -> int {
    skip_back(s, 0, skip_back(s, 0, skip_back(s, 0, s.len() as int, true), false), true)
}

/// The last component of `s`, if it has one.
pub open spec fn file_name_of(s: Seq<u8>) -> Option<Seq<u8>> {
    if components_of(s).len() == 0 {
        None
    } else {
        Some(components_of(s).last())
    }
}

/// The index of the last `.` in `s`, or -1.
pub open spec fn last_dot(s: Seq<u8>) -> int
    decreases s.len(),
{
    if s.len() == 0 {
        -1
    } else if s.last() == DOT {
        s.len() - 1
    } else {
        last_dot(s.drop_last())
    }
}

/// What follows the last `.` of a file name, if it holds one.
pub open spec fn extension_of(name: Seq<u8>) -> Option<Seq<u8>> {
    if last_dot(name) < 0 {
        None
    } else {
        Some(name.subrange(last_dot(name) + 1, name.len() as int))
    }
}

/// The extension of the last component of `s`.
pub open spec fn path_extension_of(s: Seq<u8>) -> Option<Seq<u8>> {
    match file_name_of(s) {
        None => None,
        Some(name) => extension_of(name),
    }
}

/// The bytes of `a` joined to `b`, with exactly one separator between
/// them: one is added when neither supplies it, and the leading one of
/// `b` is dropped when both do.
pub open spec fn joined(a: Seq<u8>, b: Seq<u8>) -> Seq<u8> {
    if (a.len() > 0 && a.last() == SEP) && (b.len() > 0 && b[0] == SEP) {
        a + b.drop_first()
    } else if (a.len() > 0 && a.last() == SEP) || (b.len() > 0 && b[0] == SEP) {
        a + b
    } else {
        a + seq![SEP] + b
    }
}

proof fn lemma_split_concat(a: Seq<u8>, b: Seq<u8>, cur: Seq<u8>)
    ensures
        split_from(a + seq![SEP] + b, cur) == split_from(a, cur) + components_of(b),
    decreases a.len(),
{
    let s = a + seq![SEP] + b;
    if a.len() == 0 {
        assert(s.drop_first() =~= b);
    } else {
        assert(s.drop_first() =~= a.drop_first() + seq![SEP] + b);
        if a[0] == SEP {
            lemma_split_concat(a.drop_first(), b, Seq::empty());
            assert(split_from(s, cur) =~= split_from(a, cur) + components_of(b));
        } else {
            lemma_split_concat(a.drop_first(), b, cur.push(a[0]));
        }
    }
}

proof fn lemma_split_word(w: Seq<u8>, cur: Seq<u8>)
    requires
        no_sep(w),
    ensures
        split_from(w, cur) == flush(cur + w),
    decreases w.len(),
{
    if w.len() == 0 {
        assert(cur + w =~= cur);
    } else {
        lemma_split_word(w.drop_first(), cur.push(w[0]));
        assert(cur.push(w[0]) + w.drop_first() =~= cur + w);
    }
}

proof fn lemma_split_parts(s: Seq<u8>, cur: Seq<u8>)
    requires
        no_sep(cur),
    ensures
        forall|k: int|
            0 <= k < split_from(s, cur).len() ==> #[trigger] split_from(s, cur)[k].len() > 0
                && no_sep(split_from(s, cur)[k]),
    decreases s.len(),
{
    if s.len() == 0 {
        let f = flush(cur);
        assert(split_from(s, cur) == f);
        assert forall|k: int| 0 <= k < f.len() implies #[trigger] f[k].len() > 0 && no_sep(
            f[k],
        ) by {
            assert(f[k] == cur);
        }
    } else {
        if s[0] == SEP {
            lemma_split_parts(s.drop_first(), Seq::empty());
            let f = flush(cur);
            let rest = split_from(s.drop_first(), Seq::empty());
            assert(split_from(s, cur) == f + rest);
            assert forall|k: int| 0 <= k < (f + rest).len() implies #[trigger] (f + rest)[k].len()
                > 0 && no_sep((f + rest)[k]) by {
                if k >= f.len() {
                    assert((f + rest)[k] == rest[k - f.len()]);
                } else {
                    assert((f + rest)[k] == cur);
                }
            }
        } else {
            assert(no_sep(cur.push(s[0])));
            lemma_split_parts(s.drop_first(), cur.push(s[0]));
            assert(split_from(s, cur) == split_from(s.drop_first(), cur.push(s[0])));
        }
    }
}

/// Every component is non-empty and holds no separator.
pub proof fn lemma_components_parts(s: Seq<u8>)
    ensures
        forall|k: int|
            0 <= k < components_of(s).len() ==> #[trigger] components_of(s)[k].len() > 0
                && no_sep(components_of(s)[k]),
{
    lemma_split_parts(s, Seq::empty());
}

/// Components concatenate across a separator.
pub proof fn lemma_components_concat(a: Seq<u8>, b: Seq<u8>)
    ensures
        components_of(a + seq![SEP] + b) == components_of(a) + components_of(b),
{
    lemma_split_concat(a, b, Seq::empty());
}

/// A separator in front adds no component.
pub proof fn lemma_components_lead_sep(s: Seq<u8>)
    requires
        s.len() > 0,
        s[0] == SEP,
    ensures
        components_of(s) == components_of(s.drop_first()),
{
    assert(flush(Seq::empty()) + split_from(s.drop_first(), Seq::empty()) =~= components_of(
        s.drop_first(),
    ));
}

/// A separator at the end adds no component.
pub proof fn lemma_components_trail_sep(s: Seq<u8>)
    requires
        s.len() > 0,
        s.last() == SEP,
    ensures
        components_of(s) == components_of(s.drop_last()),
{
    let e: Seq<u8> = Seq::empty();
    assert(s =~= s.drop_last() + seq![SEP] + e);
    lemma_components_concat(s.drop_last(), e);
    assert(components_of(s.drop_last()) + components_of(e) =~= components_of(s.drop_last()));
}

/// A run of two separators splits a path exactly as one does.
pub proof fn lemma_doubled_separator(a: Seq<u8>, b: Seq<u8>)
    ensures
        components_of(a + seq![SEP, SEP] + b) == components_of(a + seq![SEP] + b),
{
    let b2 = seq![SEP] + b;
    assert(a + seq![SEP, SEP] + b =~= a + seq![SEP] + b2);
    lemma_components_concat(a, b2);
    lemma_components_concat(a, b);
    lemma_components_lead_sep(b2);
    assert(b2.drop_first() =~= b);
}

/// A non-empty word without separators is one component.
pub proof fn lemma_components_word(w: Seq<u8>)
    requires
        no_sep(w),
        w.len() > 0,
    ensures
        components_of(w) == seq![w],
{
    lemma_split_word(w, Seq::empty());
    assert(Seq::<u8>::empty() + w =~= w);
}

proof fn lemma_front_word(r: Seq<u8>, e: int)
    requires
        0 < e <= r.len(),
        no_sep(r.subrange(0, e)),
        e == r.len() || r[e] == SEP,
    ensures
        components_of(r) == seq![r.subrange(0, e)] + components_of(r.subrange(e, r.len() as int)),
{
    let w = r.subrange(0, e);
    lemma_components_word(w);
    if e == r.len() {
        assert(r =~= w);
        assert(components_of(r.subrange(e, r.len() as int)) =~= Seq::empty());
        assert(seq![w] + Seq::<Seq<u8>>::empty() =~= seq![w]);
    } else {
        let rest = r.subrange(e + 1, r.len() as int);
        assert(r =~= w + seq![SEP] + rest);
        lemma_components_concat(w, rest);
        lemma_components_lead_sep(r.subrange(e, r.len() as int));
        assert(r.subrange(e, r.len() as int).drop_first() =~= rest);
    }
}

proof fn lemma_back_word(r: Seq<u8>, k: int)
    requires
        0 <= k < r.len(),
        no_sep(r.subrange(k, r.len() as int)),
        k == 0 || r[k - 1] == SEP,
    ensures
        components_of(r) == components_of(r.subrange(0, k)) + seq![r.subrange(k, r.len() as int)],
{
    let w = r.subrange(k, r.len() as int);
    lemma_components_word(w);
    if k == 0 {
        assert(r =~= w);
        assert(components_of(r.subrange(0, k)) =~= Seq::empty());
        assert(Seq::<Seq<u8>>::empty() + seq![w] =~= seq![w]);
    } else {
        let front = r.subrange(0, k - 1);
        assert(r =~= front + seq![SEP] + w);
        lemma_components_concat(front, w);
        lemma_components_trail_sep(r.subrange(0, k));
        assert(r.subrange(0, k).drop_last() =~= front);
    }
}

/// An ASCII byte at a character boundary is a whole character.
pub(crate) proof fn lemma_boundary_after_ascii(b: Seq<u8>, k: int)
    requires
        valid_utf8(b),
        is_char_boundary(b, k),
        0 <= k < b.len(),
        b[k] < 0x80,
    ensures
        is_char_boundary(b, k + 1),
    decreases b.len(),
{
    let l = length_of_first_scalar(b);
    assert(valid_first_scalar(b) && valid_utf8(pop_first_scalar(b)));
    if k > 0 {
        assert(is_char_boundary(pop_first_scalar(b), k - l));
        assert(k - l >= 0);
        assert(pop_first_scalar(b)[k - l] == b[k]);
        lemma_boundary_after_ascii(pop_first_scalar(b), k - l);
    } else {
        assert(is_leading_byte_width_1(b[0]));
        assert(l == 1);
        assert(is_char_boundary(pop_first_scalar(b), 0));
    }
}

/// The bytes of `segs` pushed one after the other onto an empty path.
pub open spec fn joined_all(segs: Seq<Seq<u8>>) -> Seq<u8>
    decreases segs.len(),
{
    if segs.len() == 0 {
        Seq::empty()
    } else {
        joined(joined_all(segs.drop_last()), segs.last())
    }
}

/// Joining two paths concatenates their components, wherever the
/// separators stand.
pub proof fn lemma_joined_components(a: Seq<u8>, b: Seq<u8>)
    ensures
        components_of(joined(a, b)) == components_of(a) + components_of(b),
{
    if (a.len() > 0 && a.last() == SEP) && (b.len() > 0 && b[0] == SEP) {
        assert(a + b.drop_first() =~= a.drop_last() + seq![SEP] + b.drop_first());
        lemma_components_concat(a.drop_last(), b.drop_first());
        lemma_components_trail_sep(a);
        lemma_components_lead_sep(b);
    } else if a.len() > 0 && a.last() == SEP {
        assert(a + b =~= a.drop_last() + seq![SEP] + b);
        lemma_components_concat(a.drop_last(), b);
        lemma_components_trail_sep(a);
    } else if b.len() > 0 && b[0] == SEP {
        assert(a + b =~= a + seq![SEP] + b.drop_first());
        lemma_components_concat(a, b.drop_first());
        lemma_components_lead_sep(b);
    } else {
        lemma_components_concat(a, b);
    }
}

/// Pushing non-empty, separator-free segments one by one onto an empty
/// path and reading its components back gives the segments, in order.
pub proof fn lemma_components_round_trip(segs: Seq<Seq<u8>>)
    requires
        forall|k: int| 0 <= k < segs.len() ==> #[trigger] segs[k].len() > 0 && no_sep(segs[k]),
    ensures
        components_of(joined_all(segs)) == segs,
    decreases segs.len(),
{
    if segs.len() == 0 {
        assert(components_of(Seq::empty()) =~= Seq::<Seq<u8>>::empty());
    } else {
        let init = segs.drop_last();
        assert forall|k: int| 0 <= k < init.len() implies #[trigger] init[k].len() > 0 && no_sep(
            init[k],
        ) by {
            assert(init[k] == segs[k]);
        }
        lemma_components_round_trip(init);
        lemma_joined_components(joined_all(init), segs.last());
        assert(segs.last() == segs[segs.len() - 1]);
        lemma_components_word(segs.last());
        assert(init + seq![segs.last()] =~= segs);
    }
}

proof fn lemma_encode_concat(a: Seq<char>, b: Seq<char>)
    ensures
        encode_utf8(a + b) == encode_utf8(a) + encode_utf8(b),
    decreases a.len(),
{
    if a.len() == 0 {
        assert(a + b =~= b);
        assert(encode_utf8(a) + encode_utf8(b) =~= encode_utf8(b));
    } else {
        lemma_encode_concat(a.drop_first(), b);
        assert((a + b).drop_first() =~= a.drop_first() + b);
        assert((a + b)[0] == a[0]);
        assert(encode_utf8(a + b) =~= encode_utf8(a) + encode_utf8(b));
    }
}

/// Borrows the part of `s` between two character boundaries.
pub(crate) fn slice<'b>(s: &'b str, a: usize, e: usize) -> (r: &'b str)
    requires
        a <= e <= s.spec_bytes().len(),
        is_char_boundary(s.spec_bytes(), a as int),
        is_char_boundary(s.spec_bytes(), e as int),
    ensures
        r.spec_bytes() == s.spec_bytes().subrange(a as int, e as int),
{
    let (_, tail) = s.split_at(a);
    proof {
        let b = s.spec_bytes();
        let t = tail.spec_bytes();
        assert(valid_utf8(b));
        assert(valid_utf8(t));
        if (e as int) < b.len() {
            is_char_boundary_iff_not_is_continuation_byte(b, e as int);
            is_char_boundary_iff_not_is_continuation_byte(t, e - a);
            assert(t[e - a] == b[e as int]);
        } else {
            is_char_boundary_start_end_of_seq(t);
        }
    }
    let (word, _) = tail.split_at(e - a);
    proof {
        assert(word.spec_bytes() =~= s.spec_bytes().subrange(a as int, e as int));
    }
    word
}

/// A path borrowed from a string.
#[derive(Clone, Copy, Debug)]
pub struct Path<'a> {
    inner: &'a str,
}

impl<'a> View for Path<'a> {
    type V = Seq<u8>;

    /// The bytes of the path.
    closed spec fn view(&self) -> Seq<u8> {
        self.inner.spec_bytes()
    }
}

/// An iterator over the components of a path, from the front, from the
/// back, or both.
#[derive(Clone, Copy, Debug)]
pub struct Components<'a> {
    path: &'a str,
    i: usize,
    j: usize,
}

impl<'a> Components<'a> {
    /// The bytes of the whole path.
    pub closed spec fn source(&self) -> Seq<u8> {
        self.path.spec_bytes()
    }

    /// The front cursor.
    pub closed spec fn front(&self) -> int {
        self.i as int
    }

    /// The back cursor.
    pub closed spec fn back(&self) -> int {
        self.j as int
    }

    /// The cursors lie in order within the path, on character boundaries.
    pub closed spec fn wf(&self) -> bool {
        &&& self.i <= self.j <= self.path.spec_bytes().len()
        &&& is_char_boundary(self.path.spec_bytes(), self.i as int)
        &&& is_char_boundary(self.path.spec_bytes(), self.j as int)
    }

    /// In a well-formed iterator the cursors lie in order within the path.
    pub proof fn lemma_wf_bounds(&self)
        requires
            self.wf(),
        ensures
            0 <= self.front() <= self.back() <= self.source().len(),
    {
    }

    /// The bytes between the cursors.
    pub open spec fn rest(&self) -> Seq<u8> {
        self.source().subrange(self.front(), self.back())
    }

    /// The components not yet consumed from either end.
    pub open spec fn remaining(&self) -> Seq<Seq<u8>> {
        components_of(self.rest())
    }

    fn trim_left(&mut self) -> (r: usize)
        requires
            old(self).wf(),
        ensures
            final(self).wf(),
            final(self).path == old(self).path,
            final(self).j == old(self).j,
            final(self).i == skip_fwd(old(self).source(), old(self).front(), old(self).back(), true),
            final(self).remaining() == old(self).remaining(),
            final(self).i < final(self).j ==> final(self).source()[final(self).front()] != SEP,
            r == final(self).i,
    {
        let p = self.path;
        let bytes = p.as_bytes();
        let ghost s = p.spec_bytes();
        let ghost i0 = self.i as int;
        let ghost j0 = self.j;
        let ghost rem = self.remaining();
        while self.i < self.j && bytes[self.i] == SEP
            invariant
                self.j == j0,
                self.wf(),
                self.path == p,
                bytes@ == s,
                s == p.spec_bytes(),
                skip_fwd(s, self.i as int, self.j as int, true) == skip_fwd(s, i0, self.j as int, true),
                self.remaining() == rem,
            decreases self.j - self.i,
        {
            proof {
                assert(valid_utf8(s));
                lemma_boundary_after_ascii(s, self.i as int);
                let r = s.subrange(self.i as int, self.j as int);
                lemma_components_lead_sep(r);
                assert(r.drop_first() =~= s.subrange(self.i + 1, self.j as int));
            }
            self.i = self.i + 1;
        }
        self.i
    }

    fn trim_right(&mut self) -> (r: usize)
        requires
            old(self).wf(),
        ensures
            final(self).wf(),
            final(self).path == old(self).path,
            final(self).i == old(self).i,
            final(self).j == skip_back(old(self).source(), old(self).front(), old(self).back(), true),
            final(self).remaining() == old(self).remaining(),
            final(self).i < final(self).j ==> final(self).source()[final(self).back() - 1] != SEP,
            r == final(self).j,
    {
        let p = self.path;
        let bytes = p.as_bytes();
        let ghost s = p.spec_bytes();
        let ghost j0 = self.j as int;
        let ghost i0 = self.i;
        let ghost rem = self.remaining();
        while self.i < self.j && bytes[self.j - 1] == SEP
            invariant
                self.i == i0,
                self.wf(),
                self.path == p,
                bytes@ == s,
                s == p.spec_bytes(),
                skip_back(s, self.i as int, self.j as int, true) == skip_back(s, self.i as int, j0, true),
                self.remaining() == rem,
            decreases self.j - self.i,
        {
            proof {
                assert(valid_utf8(s));
                is_char_boundary_iff_not_is_continuation_byte(s, self.j - 1);
                let r = s.subrange(self.i as int, self.j as int);
                lemma_components_trail_sep(r);
                assert(r.drop_last() =~= s.subrange(self.i as int, self.j - 1));
            }
            self.j = self.j - 1;
        }
        self.j
    }

    /// Consumes the next component from the front.
    pub fn next(&mut self) -> (r: Option<Path<'a>>)
        requires
            old(self).wf(),
        ensures
            final(self).wf(),
            final(self).source() == old(self).source(),
            final(self).back() == old(self).back(),
            ({
                let s = old(self).source();
                let a = skip_fwd(s, old(self).front(), old(self).back(), true);
                let e = skip_fwd(s, a, old(self).back(), false);
                &&& final(self).front() == skip_fwd(s, e, old(self).back(), true)
                &&& match r {
                    None => a == e,
                    Some(p) => a != e && p@ == s.subrange(a, e),
                }
            }),
            match r {
                None => old(self).remaining().len() == 0 && final(self).remaining().len() == 0,
                Some(p) => old(self).remaining() == seq![p@] + final(self).remaining(),
            },
    {
        let ghost s = self.source();
        let start = self.trim_left();
        let p = self.path;
        let bytes = p.as_bytes();
        let ghost j0 = self.j;
        while self.i < self.j && bytes[self.i] != SEP
            invariant
                start <= self.i <= self.j,
                self.j == j0,
                self.j <= s.len(),
                self.path == p,
                bytes@ == s,
                s == p.spec_bytes(),
                skip_fwd(s, self.i as int, self.j as int, false) == skip_fwd(
                    s,
                    start as int,
                    self.j as int,
                    false,
                ),
                forall|k: int| start <= k < self.i ==> s[k] != SEP,
                is_char_boundary(s, start as int),
                is_char_boundary(s, self.j as int),
            decreases self.j - self.i,
        {
            self.i = self.i + 1;
        }
        let end = self.i;
        proof {
            assert(valid_utf8(s));
            if end < self.j {
                is_char_boundary_iff_not_is_continuation_byte(s, end as int);
            }
            if start < end {
                let r = s.subrange(start as int, self.j as int);
                assert(r.subrange(0, end - start) =~= s.subrange(start as int, end as int));
                assert(r.subrange(end - start, r.len() as int) =~= s.subrange(
                    end as int,
                    self.j as int,
                ));
                lemma_front_word(r, end - start);
            } else {
                assert(s.subrange(start as int, self.j as int) =~= Seq::empty());
            }
        }
        self.trim_left();
        if start == end {
            None
        } else {
            Some(Path { inner: slice(p, start, end) })
        }
    }

    /// Consumes the next component from the back.
    pub fn next_back(&mut self) -> (r: Option<Path<'a>>)
        requires
            old(self).wf(),
        ensures
            final(self).wf(),
            final(self).source() == old(self).source(),
            final(self).front() == old(self).front(),
            ({
                let s = old(self).source();
                let e = skip_back(s, old(self).front(), old(self).back(), true);
                let a = skip_back(s, old(self).front(), e, false);
                &&& final(self).back() == skip_back(s, old(self).front(), a, true)
                &&& match r {
                    None => a == e,
                    Some(p) => a != e && p@ == s.subrange(a, e),
                }
            }),
            match r {
                None => old(self).remaining().len() == 0 && final(self).remaining().len() == 0,
                Some(p) => old(self).remaining() == final(self).remaining() + seq![p@],
            },
    {
        let ghost s = self.source();
        let end = self.trim_right();
        let p = self.path;
        let bytes = p.as_bytes();
        let ghost i0 = self.i;
        while self.i < self.j && bytes[self.j - 1] != SEP
            invariant
                self.i <= self.j <= end,
                self.i == i0,
                end <= s.len(),
                self.path == p,
                bytes@ == s,
                s == p.spec_bytes(),
                skip_back(s, self.i as int, self.j as int, false) == skip_back(
                    s,
                    self.i as int,
                    end as int,
                    false,
                ),
                forall|k: int| self.j <= k < end ==> s[k] != SEP,
                is_char_boundary(s, end as int),
                is_char_boundary(s, self.i as int),
            decreases self.j - self.i,
        {
            self.j = self.j - 1;
        }
        let start = self.j;
        proof {
            assert(valid_utf8(s));
            if start > self.i {
                is_char_boundary_iff_not_is_continuation_byte(s, start - 1);
                lemma_boundary_after_ascii(s, start - 1);
            }
            if start < end {
                let r = s.subrange(self.i as int, end as int);
                assert(r.subrange(0, start - self.i) =~= s.subrange(self.i as int, start as int));
                assert(r.subrange(start - self.i, r.len() as int) =~= s.subrange(
                    start as int,
                    end as int,
                ));
                lemma_back_word(r, start - self.i);
            } else {
                assert(s.subrange(self.i as int, end as int) =~= Seq::empty());
            }
        }
        self.trim_right();
        if start == end {
            None
        } else {
            Some(Path { inner: slice(p, start, end) })
        }
    }

    /// What is left of the path: the bytes between the cursors.
    pub fn as_path(&self) -> (r: Path<'a>)
        requires
            self.wf(),
        ensures
            r@ == self.rest(),
    {
        Path { inner: slice(self.path, self.i, self.j) }
    }
}

impl<'a> Path<'a> {
    /// Views a string as a path; any string will do.
    pub fn new(s: &'a str) -> (r: Path<'a>)
        ensures
            r@ == s.spec_bytes(),
    {
        Path { inner: s }
    }

    pub fn as_str(&self) -> (r: &'a str)
        ensures
            r.spec_bytes() == self@,
    {
        self.inner
    }

    pub fn to_path_buf(&self) -> (r: PathBuf)
        ensures
            r@ == self@,
    {
        PathBuf { inner: String::from_str(self.inner) }
    }

    /// An iterator over the path's components, with both cursors at the
    /// ends of the path.
    pub fn components(&self) -> (r: Components<'a>)
        ensures
            r.wf(),
            r.source() == self@,
            r.front() == 0,
            r.back() == self@.len(),
            r.remaining() == components_of(self@),
    {
        proof {
            let b = self.inner.spec_bytes();
            assert(valid_utf8(b));
            is_char_boundary_start_end_of_seq(b);
            assert(b.subrange(0, b.len() as int) =~= b);
        }
        Components { path: self.inner, i: 0, j: self.inner.as_bytes().len() }
    }

    /// The path without its last component; `None` when it has no
    /// component at all.
    pub fn parent(&self) -> (r: Option<Path<'a>>)
        ensures
            match r {
                None => components_of(self@).len() == 0,
                Some(p) => {
                    &&& components_of(self@).len() > 0
                    &&& p@ == self@.subrange(0, parent_end(self@))
                    &&& components_of(p@) == components_of(self@).drop_last()
                },
            },
    {
        let mut comps = self.components();
        match comps.next_back() {
            Some(last) => {
                let r = comps.as_path();
                proof {
                    assert((components_of(r@) + seq![last@]).drop_last() =~= components_of(r@));
                }
                Some(r)
            },
            None => None,
        }
    }

    /// The path with `path` pushed onto it.
    pub fn join(&self, path: &str) -> (r: PathBuf)
        ensures
            r@ == joined(self@, path.spec_bytes()),
            components_of(r@) == components_of(self@) + components_of(path.spec_bytes()),
    {
        let mut owned = self.to_path_buf();
        owned.push(path);
        owned
    }

    /// The last component, if there is one.
    pub fn file_name(&self) -> (r: Option<&'a str>)
        ensures
            file_name_of(self@) == match r {
                None => None,
                Some(n) => Some(n.spec_bytes()),
            },
    {
        let mut comps = self.components();
        match comps.next_back() {
            Some(last) => {
                proof {
                    assert((components_of(comps.rest()) + seq![last@]).last() == last@);
                }
                Some(last.inner)
            },
            None => None,
        }
    }

    /// What follows the last `.` of the file name; `None` when there is no
    /// file name or it holds no `.`.
    pub fn extension(&self) -> (r: Option<&'a str>)
        ensures
            path_extension_of(self@) == match r {
                None => None,
                Some(x) => Some(x.spec_bytes()),
            },
    {
        match self.file_name() {
            None => None,
            Some(name) => {
                let bytes = name.as_bytes();
                let ghost nb = name.spec_bytes();
                let mut k: usize = bytes.len();
                proof {
                    assert(nb.subrange(0, nb.len() as int) =~= nb);
                }
                while k > 0 && bytes[k - 1] != DOT
                    invariant
                        k <= nb.len(),
                        bytes@ == nb,
                        last_dot(nb.subrange(0, k as int)) == last_dot(nb),
                    decreases k,
                {
                    proof {
                        assert(nb.subrange(0, k as int).drop_last() =~= nb.subrange(0, k - 1));
                    }
                    k = k - 1;
                }
                if k == 0 {
                    proof {
                        assert(nb.subrange(0, 0) =~= Seq::<u8>::empty());
                    }
                    None
                } else {
                    proof {
                        assert(nb.subrange(0, k as int).last() == DOT);
                        assert(valid_utf8(nb));
                        is_char_boundary_iff_not_is_continuation_byte(nb, k - 1);
                        lemma_boundary_after_ascii(nb, k - 1);
                        is_char_boundary_start_end_of_seq(nb);
                    }
                    Some(slice(name, k, bytes.len()))
                }
            },
        }
    }
}

/// Whether two byte strings are equal.
fn same_bytes(a: &[u8], b: &[u8]) -> (r: bool)
    ensures
        r == (a@ == b@),
{
    if a.len() != b.len() {
        return false;
    }
    let mut k: usize = 0;
    while k < a.len()
        invariant
            k <= a@.len() == b@.len(),
            forall|m: int| 0 <= m < k ==> a@[m] == b@[m],
        decreases a.len() - k,
    {
        if a[k] != b[k] {
            return false;
        }
        k = k + 1;
    }
    proof {
        assert(a@ =~= b@);
    }
    true
}

/// Paths are equal when their components are, whatever separators
/// surround them.
impl<'a> PartialEq for Path<'a> {
    fn eq(&self, other: &Path<'a>) -> (r: bool) {
        let mut c1 = self.components();
        let mut c2 = other.components();
        let ghost mut done: Seq<Seq<u8>> = Seq::empty();
        loop
            invariant
                c1.wf(),
                c2.wf(),
                components_of(self@) == done + c1.remaining(),
                components_of(other@) == done + c2.remaining(),
            decreases c1.remaining().len(),
        {
            let ghost r1 = c1.remaining();
            let ghost r2 = c2.remaining();
            match (c1.next(), c2.next()) {
                (None, None) => {
                    proof {
                        assert(components_of(self@) =~= components_of(other@));
                    }
                    return true;
                },
                (Some(x), Some(y)) => {
                    if !same_bytes(x.as_str().as_bytes(), y.as_str().as_bytes()) {
                        proof {
                            assert(components_of(self@)[done.len() as int] == x@);
                            assert(components_of(other@)[done.len() as int] == y@);
                        }
                        return false;
                    }
                    proof {
                        done = done.push(x@);
                        assert(components_of(self@) =~= done + c1.remaining());
                        assert(components_of(other@) =~= done + c2.remaining());
                    }
                },
                (Some(x), None) => {
                    proof {
                        assert((done + r1).len() != (done + r2).len());
                    }
                    return false;
                },
                (None, Some(y)) => {
                    proof {
                        assert((done + r1).len() != (done + r2).len());
                    }
                    return false;
                },
            }
        }
    }
}

impl<'a> vstd::std_specs::cmp::PartialEqSpecImpl for Path<'a> {
    open spec fn obeys_eq_spec() -> bool {
        true
    }

    open spec fn eq_spec(&self, other: &Path<'a>) -> bool {
        components_of(self@) == components_of(other@)
    }
}

/// Byte strings in lexicographic order.
pub open spec fn cmp_bytes(a: Seq<u8>, b: Seq<u8>) -> Ordering
    decreases a.len(),
{
    if a.len() == 0 {
        if b.len() == 0 {
            Ordering::Equal
        } else {
            Ordering::Less
        }
    } else if b.len() == 0 {
        Ordering::Greater
    } else if a[0] < b[0] {
        Ordering::Less
    } else if a[0] > b[0] {
        Ordering::Greater
    } else {
        cmp_bytes(a.drop_first(), b.drop_first())
    }
}

/// Component sequences in lexicographic order, each component compared
/// as a byte string.
pub open spec fn cmp_components(a: Seq<Seq<u8>>, b: Seq<Seq<u8>>) -> Ordering
    decreases a.len(),
{
    if a.len() == 0 {
        if b.len() == 0 {
            Ordering::Equal
        } else {
            Ordering::Less
        }
    } else if b.len() == 0 {
        Ordering::Greater
    } else if cmp_bytes(a[0], b[0]) != Ordering::Equal {
        cmp_bytes(a[0], b[0])
    } else {
        cmp_components(a.drop_first(), b.drop_first())
    }
}

proof fn lemma_cmp_bytes_equal(a: Seq<u8>, b: Seq<u8>)
    ensures
        (cmp_bytes(a, b) == Ordering::Equal) == (a == b),
    decreases a.len(),
{
    if a.len() == 0 && b.len() == 0 {
        assert(a =~= b);
    } else if a.len() > 0 && b.len() > 0 && a[0] == b[0] {
        lemma_cmp_bytes_equal(a.drop_first(), b.drop_first());
        if a.drop_first() == b.drop_first() {
            assert(a =~= seq![a[0]] + a.drop_first());
            assert(b =~= seq![b[0]] + b.drop_first());
        }
    }
}

proof fn lemma_cmp_components_equal(a: Seq<Seq<u8>>, b: Seq<Seq<u8>>)
    ensures
        (cmp_components(a, b) == Ordering::Equal) == (a == b),
    decreases a.len(),
{
    if a.len() == 0 && b.len() == 0 {
        assert(a =~= b);
    } else if a.len() > 0 && b.len() > 0 {
        lemma_cmp_bytes_equal(a[0], b[0]);
        if a[0] == b[0] {
            lemma_cmp_components_equal(a.drop_first(), b.drop_first());
            if a.drop_first() == b.drop_first() {
                assert(a =~= seq![a[0]] + a.drop_first());
                assert(b =~= seq![b[0]] + b.drop_first());
            }
        }
    }
}

/// Two paths compare as `Equal` exactly when they are equal, that is when
/// their components are.
pub proof fn lemma_order_agrees_with_equality(a: Seq<u8>, b: Seq<u8>)
    ensures
        (cmp_components(components_of(a), components_of(b)) == Ordering::Equal) == (components_of(a)
            == components_of(b)),
{
    lemma_cmp_components_equal(components_of(a), components_of(b));
}

fn compare_bytes(a: &[u8], b: &[u8]) -> (r: Ordering)
    ensures
        r == cmp_bytes(a@, b@),
{
    let mut k: usize = 0;
    proof {
        assert(a@.subrange(0, a@.len() as int) =~= a@);
        assert(b@.subrange(0, b@.len() as int) =~= b@);
    }
    loop
        invariant
            k <= a@.len(),
            k <= b@.len(),
            cmp_bytes(a@, b@) == cmp_bytes(
                a@.subrange(k as int, a@.len() as int),
                b@.subrange(k as int, b@.len() as int),
            ),
        decreases a.len() - k,
    {
        let ghost ra = a@.subrange(k as int, a@.len() as int);
        let ghost rb = b@.subrange(k as int, b@.len() as int);
        if k == a.len() {
            return if k == b.len() {
                Ordering::Equal
            } else {
                Ordering::Less
            };
        }
        if k == b.len() {
            return Ordering::Greater;
        }
        assert(ra[0] == a@[k as int] && rb[0] == b@[k as int]);
        if a[k] < b[k] {
            return Ordering::Less;
        }
        if a[k] > b[k] {
            return Ordering::Greater;
        }
        proof {
            assert(ra.drop_first() =~= a@.subrange(k + 1, a@.len() as int));
            assert(rb.drop_first() =~= b@.subrange(k + 1, b@.len() as int));
        }
        k = k + 1;
    }
}

/// Paths are ordered by their components, in lexicographic order.
impl<'a> PartialOrd for Path<'a> {
    fn partial_cmp(&self, other: &Path<'a>) -> (r: Option<Ordering>) {
        let mut c1 = self.components();
        let mut c2 = other.components();
        loop
            invariant
                c1.wf(),
                c2.wf(),
                cmp_components(components_of(self@), components_of(other@)) == cmp_components(
                    c1.remaining(),
                    c2.remaining(),
                ),
            decreases c1.remaining().len(),
        {
            let ghost r1 = c1.remaining();
            let ghost r2 = c2.remaining();
            match (c1.next(), c2.next()) {
                (None, None) => {
                    return Some(Ordering::Equal);
                },
                (None, Some(_)) => {
                    return Some(Ordering::Less);
                },
                (Some(_), None) => {
                    return Some(Ordering::Greater);
                },
                (Some(x), Some(y)) => {
                    assert(r1[0] == x@ && r2[0] == y@);
                    assert(r1.drop_first() =~= c1.remaining());
                    assert(r2.drop_first() =~= c2.remaining());
                    let o = compare_bytes(x.as_str().as_bytes(), y.as_str().as_bytes());
                    match o {
                        Ordering::Equal => {},
                        _ => {
                            return Some(o);
                        },
                    }
                },
            }
        }
    }
}

impl<'a> vstd::std_specs::cmp::PartialOrdSpecImpl for Path<'a> {
    open spec fn obeys_partial_cmp_spec() -> bool {
        true
    }

    open spec fn partial_cmp_spec(&self, other: &Path<'a>) -> Option<Ordering> {
        Some(cmp_components(components_of(self@), components_of(other@)))
    }
}

/// An owned path.
#[derive(Clone, Debug)]
pub struct PathBuf {
    inner: String,
}

impl View for PathBuf {
    type V = Seq<u8>;

    /// The bytes of the path.
    closed spec fn view(&self) -> Seq<u8> {
        encode_utf8(self.inner@)
    }
}

impl PathBuf {
    /// The empty path.
    pub fn new() -> (r: PathBuf)
        ensures
            r@ == Seq::<u8>::empty(),
    {
        PathBuf { inner: String::new() }
    }

    /// An owned copy of `s`.
    pub fn from(s: &str) -> (r: PathBuf)
        ensures
            r@ == s.spec_bytes(),
    {
        PathBuf { inner: String::from_str(s) }
    }

    pub fn into_string(self) -> (r: String)
        ensures
            encode_utf8(r@) == self@,
    {
        self.inner
    }

    pub fn as_path(&self) -> (r: Path<'_>)
        ensures
            r@ == self@,
    {
        Path { inner: self.inner.as_str() }
    }

    pub fn as_str(&self) -> (r: &str)
        ensures
            r.spec_bytes() == self@,
    {
        self.inner.as_str()
    }

    /// Appends `path`, with exactly one separator where the two meet.
    pub fn push(&mut self, path: &str)
        ensures
            final(self)@ == joined(old(self)@, path.spec_bytes()),
            components_of(final(self)@) == components_of(old(self)@) + components_of(
                path.spec_bytes(),
            ),
    {
        let ends_with_sep = {
            let own = self.inner.as_str().as_bytes();
            own.len() > 0 && own[own.len() - 1] == SEP
        };
        let pb = path.as_bytes();
        let starts_with_sep = pb.len() > 0 && pb[0] == SEP;
        let seg = if ends_with_sep && starts_with_sep {
            proof {
                let b = path.spec_bytes();
                assert(valid_utf8(b));
                is_char_boundary_start_end_of_seq(b);
                lemma_boundary_after_ascii(b, 0);
            }
            slice(path, 1, pb.len())
        } else {
            path
        };
        let ghost before = self.inner@;
        if !ends_with_sep && !starts_with_sep {
            self.inner.append("/");
            proof {
                reveal_strlit("/");
                assert("/"@ =~= seq!['/']);
                assert(self.inner@ == before + seq!['/']);
                lemma_encode_concat(before, seq!['/']);
                assert(0x2fu32 & 0x7f == 0x2f) by (bit_vector);
                assert(('/' as u32) == 0x2f);
                let c = seq!['/'];
                assert(c.drop_first() =~= Seq::<char>::empty());
                assert(encode_utf8(c.drop_first()) =~= Seq::<u8>::empty());
                assert(encode_scalar(c[0] as u32) =~= seq![SEP]);
                assert(encode_utf8(c) =~= seq![SEP]);
                assert(encode_utf8(self.inner@) == encode_utf8(before) + seq![SEP]);
            }
        }
        let ghost mid = self.inner@;
        self.inner.append(seg);
        proof {
            let a = encode_utf8(before);
            let b = path.spec_bytes();
            assert(ends_with_sep == (a.len() > 0 && a.last() == SEP));
            assert(starts_with_sep == (b.len() > 0 && b[0] == SEP));
            lemma_encode_concat(mid, seg@);
            assert(self@ == encode_utf8(mid) + seg.spec_bytes());
            if ends_with_sep && starts_with_sep {
                assert(seg.spec_bytes() =~= b.drop_first());
            }
            if !ends_with_sep && !starts_with_sep {
                assert(encode_utf8(mid) == a + seq![SEP]);
            } else {
                assert(mid == before);
            }
            lemma_joined_components(a, b);
        }
    }
}

/// Owned paths are equal when their components are.
impl PartialEq for PathBuf {
    fn eq(&self, other: &PathBuf) -> (r: bool) {
        self.as_path() == other.as_path()
    }
}

impl vstd::std_specs::cmp::PartialEqSpecImpl for PathBuf {
    open spec fn obeys_eq_spec() -> bool {
        true
    }

    open spec fn eq_spec(&self, other: &PathBuf) -> bool {
        components_of(self@) == components_of(other@)
    }
}

/// Owned paths are ordered by their components, as borrowed ones are.
impl PartialOrd for PathBuf {
    fn partial_cmp(&self, other: &PathBuf) -> (r: Option<Ordering>) {
        self.as_path().partial_cmp(&other.as_path())
    }
}

impl vstd::std_specs::cmp::PartialOrdSpecImpl for PathBuf {
    open spec fn obeys_partial_cmp_spec() -> bool {
        true
    }

    open spec fn partial_cmp_spec(&self, other: &PathBuf) -> Option<Ordering> {
        Some(cmp_components(components_of(self@), components_of(other@)))
    }
}

} // verus!
