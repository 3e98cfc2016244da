//! Absolute slash-rooted paths: parsing, validation, rendering and
//! manipulation.
//!
//! A path is a sequence of non-empty name segments; a segment may not
//! contain any of `/ \ : * ? " < > |`.  The root path has no segments.

use vstd::prelude::*;
use vstd::string::{StringExecFns, StringSliceAdditionalSpecFns};
use vstd::utf8::{decode_utf8, decode_utf8_encode_utf8, encode_utf8, valid_utf8};

verus! {

/// A byte no path segment may contain.
pub open spec fn forbidden_byte(b: u8) -> bool {
    b == 47 || b == 92 || b == 58 || b == 42 || b == 63 || b == 34 || b == 60 || b == 62 || b
        == 124
}

/// A valid segment in byte form: non-empty, with no forbidden byte.
pub open spec fn seg_bytes_valid(b: Seq<u8>) -> bool {
    b.len() > 0 && forall|i: int| 0 <= i < b.len() ==> !forbidden_byte(#[trigger] b[i])
}

/// End of the segment starting at `i`: the first position at or past `i`
/// holding a slash, or the end of the text.
pub open spec fn seg_end(b: Seq<u8>, i: int) -> int
    decreases b.len() - i,
{
    if i < 0 || i >= b.len() || b[i] == 47 {
        i
    } else {
        seg_end(b, i + 1)
    }
}

pub proof fn lemma_seg_end(b: Seq<u8>, i: int)
    requires
        0 <= i <= b.len(),
    ensures
        i <= seg_end(b, i) <= b.len(),
        forall|k: int| i <= k < seg_end(b, i) ==> b[k] != 47,
        seg_end(b, i) < b.len() ==> b[seg_end(b, i)] == 47,
    decreases b.len() - i,
{
    if i < b.len() && b[i] != 47 {
        lemma_seg_end(b, i + 1);
        assert forall|k: int| i <= k < seg_end(b, i) implies b[k] != 47 by {
            if k > i {
                assert(b[k] != 47);
            }
        }
    }
}

/// Parse the text after the leading slash, from position `i`: segments
/// separated by slashes, every one valid and decodable.
pub open spec fn parse_from(b: Seq<u8>, i: int) -> Option<Seq<Seq<u8>>>
    decreases b.len() - i,
    via parse_from_dec
{
    if i < 0 || i > b.len() {
        None
    } else {
        let e = seg_end(b, i);
        let sg = b.subrange(i, e);
        if !(seg_bytes_valid(sg) && valid_utf8(sg)) {
            None
        } else if e >= b.len() {
            Some(seq![sg])
        } else {
            match parse_from(b, e + 1) {
                Option::None => None,
                Option::Some(r) => Some(seq![sg] + r),
            }
        }
    }
}

#[via_fn]
proof fn parse_from_dec(b: Seq<u8>, i: int) {
    if 0 <= i <= b.len() {
        lemma_seg_end(b, i);
    }
}

/// What a path text means: nothing unless it starts with a slash; the
/// root for `/` alone; otherwise the parsed segments after the slash.
pub open spec fn spec_from_str(b: Seq<u8>) -> Option<Seq<Seq<u8>>> {
    if b.len() == 0 || b[0] != 47 {
        None
    } else if b.len() == 1 {
        Some(Seq::empty())
    } else {
        parse_from(b, 1)
    }
}


/// The rendered text of the segments from `i` on: each preceded by a
/// slash.
pub open spec fn spec_render_from(segs: Seq<Seq<char>>, i: int) -> Seq<char>
    decreases segs.len() - i,
{
    if i < 0 || i >= segs.len() {
        Seq::empty()
    } else {
        seq!['/'] + segs[i] + spec_render_from(segs, i + 1)
    }
}

/// The rendered text of a whole path: `/` alone for the root.
pub open spec fn spec_render(segs: Seq<Seq<char>>) -> Seq<char> {
    if segs.len() == 0 {
        seq!['/']
    } else {
        spec_render_from(segs, 0)
    }
}

/// An absolute path: its name segments, root being none at all.
#[derive(Debug, PartialEq, Eq)]
pub struct Path {
    pub segs: Vec<String>,
}

/// The path's segments in byte form.
pub open spec fn path_bytes_view(p: Path) -> Seq<Seq<u8>> {
    p.segs@.map(|i: int, s: String| encode_utf8(s@))
}

impl Path {
    /// The segments as character sequences.
    pub open spec fn view_segs(&self) -> Seq<Seq<char>> {
        self.segs@.map(|i: int, s: String| s@)
    }

    /// Every segment of the path is valid.
    pub open spec fn wf(&self) -> bool {
        forall|k: int|
            0 <= k < self.segs@.len() ==> seg_bytes_valid(
                encode_utf8((#[trigger] self.segs@[k])@),
            )
    }

    /// The root path.
    pub fn root() -> (r: Path)
        ensures
            r.segs@.len() == 0,
            r.wf(),
    {
        Path { segs: Vec::new() }
    }

    /// Whether this is the root path.
    pub fn is_root(&self) -> (r: bool)
        ensures
            r == (self.segs@.len() == 0),
    {
        self.segs.len() == 0
    }

    /// Whether `seg` may stand as a path segment.
    pub fn check_seg_valid(seg: &str) -> (r: bool)
        ensures
            r == seg_bytes_valid(seg.spec_bytes()),
    {
        let bytes: &[u8] = seg.as_bytes();
        let n = bytes.len();
        if n == 0 {
            return false;
        }
        let mut i: usize = 0;
        while i < n
            invariant
                n == seg.spec_bytes().len(),
                bytes@ == seg.spec_bytes(),
                0 <= i <= n,
                forall|k: int| 0 <= k < i ==> !forbidden_byte(#[trigger] bytes@[k]),
            decreases n - i,
        {
            let c = bytes[i];
            if c == 47 || c == 92 || c == 58 || c == 42 || c == 63 || c == 34 || c == 60 || c == 62
                || c == 124 {
                return false;
            }
            i = i + 1;
        }
        true
    }

    /// Parse an absolute path: the text must start with `/`, and the text
    /// after it must split on `/` into valid segments; `/` alone is the
    /// root.
    pub fn from_str(path: &str) -> (r: Option<Path>)
        ensures
            match r {
                Some(p) => spec_from_str(path.spec_bytes()) == Some(path_bytes_view(p)) && p.wf(),
                None => spec_from_str(path.spec_bytes()) is None,
            },
    {
        let bytes: &[u8] = path.as_bytes();
        let ghost b = path.spec_bytes();
        let n = bytes.len();
        if n == 0 || bytes[0] != 47 {
            return None;
        }
        if n == 1 {
            return Some(Path { segs: Vec::new() });
        }
        let mut segs: Vec<String> = Vec::new();
        let mut i: usize = 1;
        loop
            invariant
                b == bytes@,
                b == path.spec_bytes(),
                n == b.len(),
                2 <= n,
                1 <= i <= n,
                b[0] == 47,
                i == 1 || b[i - 1] == 47,
                forall|k: int|
                    0 <= k < segs@.len() ==> seg_bytes_valid(
                        encode_utf8((#[trigger] segs@[k])@),
                    ),
                ({
                    let v = segs@.map(|q: int, s: String| encode_utf8(s@));
                    parse_from(b, 1) == match parse_from(b, i as int) {
                        Option::None => Option::<Seq<Seq<u8>>>::None,
                        Option::Some(r2) => Option::Some(v + r2),
                    }
                }),
            decreases n - i,
        {
            proof {
                lemma_seg_end(b, i as int);
            }
            let mut e: usize = i;
            let mut sg: Vec<u8> = Vec::new();
            while e < n && bytes[e] != 47
                invariant
                    b == bytes@,
                    n == b.len(),
                    i <= e <= n,
                    i <= seg_end(b, i as int) <= n,
                    forall|k: int| i <= k < seg_end(b, i as int) ==> b[k] != 47,
                    seg_end(b, i as int) < n ==> b[seg_end(b, i as int)] == 47,
                    e <= seg_end(b, i as int),
                    forall|k: int| i <= k < e ==> b[k] != 47,
                    sg@ =~= b.subrange(i as int, e as int),
                decreases n - e,
            {
                let c = bytes[e];
                sg.push(c);
                proof {
                    assert(b.subrange(i as int, e + 1) =~= b.subrange(i as int, e as int).push(
                        b[e as int],
                    ));
                }
                e = e + 1;
            }
            proof {
                assert(e == seg_end(b, i as int));
                assert(sg@ =~= b.subrange(i as int, e as int));
            }
            // Validate the segment.
            let sn = sg.len();
            let mut ok = sn > 0;
            let mut t: usize = 0;
            while t < sn
                invariant
                    sn == sg@.len(),
                    0 <= t <= sn,
                    ok == (sn > 0 && forall|k: int|
                        0 <= k < t ==> !forbidden_byte(#[trigger] sg@[k])),
                decreases sn - t,
            {
                let c = sg[t];
                if c == 47 || c == 92 || c == 58 || c == 42 || c == 63 || c == 34 || c == 60 || c
                    == 62 || c == 124 {
                    ok = false;
                }
                t = t + 1;
            }
            if !ok {
                proof {
                    assert(!seg_bytes_valid(sg@));
                    assert(parse_from(b, i as int) is None);
                }
                return None;
            }
            let name = match crate::dir::bytes_to_string(&sg) {
                Some(s) => s,
                None => {
                    proof {
                        assert(!valid_utf8(sg@));
                        assert(parse_from(b, i as int) is None);
                    }
                    return None;
                },
            };
            proof {
                broadcast use decode_utf8_encode_utf8;

                assert(encode_utf8(name@) == sg@);
            }
            let ghost oldsegs = segs@;
            segs.push(name);
            proof {
                assert(segs@.map(|q: int, s: String| encode_utf8(s@)) =~= oldsegs.map(
                    |q: int, s: String| encode_utf8(s@),
                ).push(sg@)) by {
                    let m1 = segs@.map(|q: int, s: String| encode_utf8(s@));
                    let m2 = oldsegs.map(|q: int, s: String| encode_utf8(s@)).push(sg@);
                    assert forall|q: int| 0 <= q < m1.len() implies m1[q] == m2[q] by {
                        if q < oldsegs.len() {
                            assert(segs@[q] == oldsegs[q]);
                        }
                    }
                }
            }
            if e == n {
                proof {
                    assert(parse_from(b, i as int) == Some(seq![sg@]));
                    let v = oldsegs.map(|q: int, s: String| encode_utf8(s@));
                    assert(v + seq![sg@] =~= segs@.map(|q: int, s: String| encode_utf8(s@)));
                    assert(parse_from(b, 1) == Some(path_bytes_view(Path { segs })));
                }
                return Some(Path { segs });
            }
            proof {
                assert(b[e as int] == 47);
                assert(parse_from(b, i as int) == match parse_from(b, e + 1) {
                    Option::None => Option::<Seq<Seq<u8>>>::None,
                    Option::Some(r2) => Option::Some(seq![sg@] + r2),
                });
                let v = oldsegs.map(|q: int, s: String| encode_utf8(s@));
                let v2 = segs@.map(|q: int, s: String| encode_utf8(s@));
                assert forall|r2: Seq<Seq<u8>>| true implies v + (seq![sg@] + r2) =~= v2
                    + r2 by {}
            }
            i = e + 1;
        }
    }

    /// Render the path: `/` for the root, else the segments each preceded
    /// by `/`.
    pub fn to_str(&self) -> (r: String)
        ensures
            r@ == spec_render(self.view_segs()),
    {
        let ghost v = self.view_segs();
        if self.segs.len() == 0 {
            let mut s = String::new();
            s.append("/");
            proof {
                reveal_strlit("/");
                assert(s@ =~= seq!['/']);
            }
            return s;
        }
        let mut s = String::new();
        let n = self.segs.len();
        let mut k: usize = 0;
        while k < n
            invariant
                v == self.view_segs(),
                n == self.segs@.len(),
                n > 0,
                0 <= k <= n,
                spec_render_from(v, 0) == s@ + spec_render_from(v, k as int),
            decreases n - k,
        {
            let ghost pre = s@;
            s.append("/");
            s.append(self.segs[k].as_str());
            proof {
                reveal_strlit("/");
                assert(s@ =~= pre + (seq!['/'] + v[k as int]));
                assert(spec_render_from(v, k as int) =~= seq!['/'] + v[k as int]
                    + spec_render_from(v, k + 1));
                assert(spec_render_from(v, 0) =~= s@ + spec_render_from(v, k + 1)) by {
                    assert(pre + (seq!['/'] + v[k as int]) + spec_render_from(v, k + 1) =~= pre
                        + spec_render_from(v, k as int));
                }
            }
            k = k + 1;
        }
        proof {
            assert(spec_render_from(v, n as int) =~= Seq::<char>::empty());
            assert(s@ =~= s@ + spec_render_from(v, n as int));
        }
        s
    }

    /// The segments.
    pub fn segs(&self) -> (r: &Vec<String>)
        ensures
            r@ == self.segs@,
    {
        &self.segs
    }

    /// Drop the last segment; nothing to drop at the root.
    pub fn parent(self) -> (r: Option<Path>)
        ensures
            match r {
                Some(p) => self.segs@.len() > 0 && p.segs@ == self.segs@.drop_last(),
                None => self.segs@.len() == 0,
            },
    {
        let ghost oldsegs = self.segs@;
        let mut segs = self.segs;
        if segs.len() == 0 {
            return None;
        }
        segs.pop();
        proof {
            assert(segs@ =~= oldsegs.drop_last());
        }
        Some(Path { segs })
    }

    /// Append a segment, which must be valid.
    pub fn push(&mut self, seg: String)
        requires
            seg_bytes_valid(encode_utf8(seg@)),
        ensures
            final(self).segs@ == old(self).segs@.push(seg),
    {
        self.segs.push(seg);
    }

    /// Append a segment, taking and returning the path.
    pub fn move_push(self, seg: String) -> (r: Path)
        requires
            seg_bytes_valid(encode_utf8(seg@)),
        ensures
            r.segs@ == self.segs@.push(seg),
    {
        let mut p = self;
        p.push(seg);
        p
    }

    /// The last segment, if any.
    pub fn current(&self) -> (r: Option<&String>)
        ensures
            match r {
                Some(s) => self.segs@.len() > 0 && s == self.segs@.last(),
                None => self.segs@.len() == 0,
            },
    {
        if self.segs.len() == 0 {
            None
        } else {
            Some(&self.segs[self.segs.len() - 1])
        }
    }
}


/// Whether two string slices hold the same characters.
pub fn str_eq(a: &str, b: &str) -> (r: bool)
    ensures
        r == (a@ == b@),
{
    let ab: &[u8] = a.as_bytes();
    let bb: &[u8] = b.as_bytes();
    proof {
        broadcast use vstd::utf8::encode_utf8_decode_utf8;

        assert(encode_utf8(a@) == encode_utf8(b@) ==> a@ == b@) by {
            if encode_utf8(a@) == encode_utf8(b@) {
                assert(decode_utf8(encode_utf8(a@)) == decode_utf8(encode_utf8(b@)));
            }
        }
    }
    if ab.len() != bb.len() {
        return false;
    }
    let n = ab.len();
    let mut i: usize = 0;
    while i < n
        invariant
            n == ab@.len(),
            n == bb@.len(),
            ab@ == a.spec_bytes(),
            bb@ == b.spec_bytes(),
            0 <= i <= n,
            forall|k: int| 0 <= k < i ==> ab@[k] == bb@[k],
        decreases n - i,
    {
        if ab[i] != bb[i] {
            proof {
                assert(a.spec_bytes() != b.spec_bytes());
            }
            return false;
        }
        i = i + 1;
    }
    proof {
        assert(ab@ =~= bb@);
    }
    true
}


impl Clone for Path {
    /// A copy carrying the same segments.
    fn clone(&self) -> (r: Path)
        ensures
            r.segs@ == self.segs@,
    {
        let mut segs: Vec<String> = Vec::new();
        let n = self.segs.len();
        let mut i: usize = 0;
        while i < n
            invariant
                n == self.segs@.len(),
                0 <= i <= n,
                segs@ =~= self.segs@.take(i as int),
            decreases n - i,
        {
            segs.push(self.segs[i].clone());
            proof {
                assert(self.segs@.take(i + 1) =~= self.segs@.take(i as int).push(
                    self.segs@[i as int],
                ));
            }
            i = i + 1;
        }
        proof {
            assert(self.segs@.take(n as int) =~= self.segs@);
        }
        Path { segs }
    }
}

} // verus!
