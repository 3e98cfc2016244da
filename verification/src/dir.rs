//! The directory service's data: entry lists and their serialized form.
//!
//! A directory's payload is a textual encoding of its entry list.  Each
//! entry is written as a fixed ten-digit decimal byte length, `:`, the
//! name's UTF-8 bytes, `=`, a ten-digit decimal inum, and `;`; the list is
//! wrapped in `[` and `]`.  Names are length-delimited, so any name a path
//! segment can carry round-trips exactly.

use vstd::prelude::*;
use vstd::utf8::{
    decode_utf8, decode_utf8_encode_utf8, encode_utf8, encode_utf8_decode_utf8,
    encode_utf8_valid_utf8, valid_utf8,
};
use vstd::arithmetic::div_mod::lemma_div_denominator;
use crate::repr::{
    IndexRegion, index_region_wf, spec_block_count_for, ALIGN_SIZE, DATA_BITMAP_WORDS,
    DATA_BLOCK_COUNT, DIRECT_BLOCK_COUNT, INDEX_BITMAP_WORDS, INDEX_BLOCK_COUNT,
    INDIRECT_CAPACITY, INODE_COUNT, MAX_FILE_BLOCKS,
};
use crate::bitmap::{bm_bit, count_clear};
use crate::data::{
    inode_readable, inode_writable, read_data, spec_byte, write_data, raw_pos,
};
use crate::inode::{get_inode, inode_wf, same_inode_meta, spec_dnum};
use crate::shrink::resize;

verus! {

/// One directory entry: a name and the inum it references.
#[derive(PartialEq, Eq, Debug, Hash, Clone)]
pub struct DirectoryEntry {
    pub name: String,
    pub inum: u32,
}

/// A directory's entry list, kept in insertion order.
#[derive(PartialEq, Eq, Debug, Hash, Clone)]
pub struct DirectoryData {
    pub entries: Vec<DirectoryEntry>,
}

/// An entry as the codec sees it: the name's UTF-8 bytes and the inum.
pub open spec fn entry_view(e: DirectoryEntry) -> (Seq<u8>, u32) {
    (encode_utf8(e.name@), e.inum)
}

/// The whole entry list as the codec sees it.
pub open spec fn dir_view(d: DirectoryData) -> Seq<(Seq<u8>, u32)> {
    d.entries@.map(|i: int, e: DirectoryEntry| entry_view(e))
}

/// An entry list the codec can carry: every name's byte form is valid
/// UTF-8 and no longer than `u32::MAX`.
pub open spec fn dir_entries_wf(s: Seq<(Seq<u8>, u32)>) -> bool {
    forall|k: int|
        0 <= k < s.len() ==> (#[trigger] s[k]).0.len() <= u32::MAX && valid_utf8(s[k].0)
}

/// The view of a real entry list is always one the codec can carry.
pub proof fn lemma_dir_view_wf(d: DirectoryData)
    requires
        forall|k: int|
            0 <= k < d.entries@.len()
                ==> encode_utf8((#[trigger] d.entries@[k]).name@).len() <= u32::MAX,
    ensures
        dir_entries_wf(dir_view(d)),
{
    broadcast use encode_utf8_valid_utf8;

    assert forall|k: int| 0 <= k < dir_view(d).len() implies (#[trigger] dir_view(d)[k]).0.len()
        <= u32::MAX && valid_utf8(dir_view(d)[k].0) by {
        assert(dir_view(d)[k] == entry_view(d.entries@[k]));
    }
}

/// `10^w`.
pub open spec fn pow10(w: nat) -> int
    decreases w,
{
    if w == 0 {
        1
    } else {
        10 * pow10((w - 1) as nat)
    }
}

/// `n` written as exactly `w` decimal digit bytes, most significant first.
pub open spec fn spec_decw(n: int, w: nat) -> Seq<u8>
    decreases w,
{
    if w == 0 {
        Seq::empty()
    } else {
        spec_decw(n / 10, (w - 1) as nat).push((48 + n % 10) as u8)
    }
}

/// `n` as the codec's fixed ten-digit field.
pub open spec fn spec_dec10(n: int) -> Seq<u8> {
    spec_decw(n, 10)
}

/// The value of a run of decimal digit bytes.
pub open spec fn spec_parse_digits(b: Seq<u8>) -> int
    decreases b.len(),
{
    if b.len() == 0 {
        0
    } else {
        spec_parse_digits(b.drop_last()) * 10 + (b.last() - 48)
    }
}

/// An ASCII decimal digit.
pub open spec fn is_digit_byte(b: u8) -> bool {
    48 <= b <= 57
}

pub proof fn lemma_pow10_10()
    ensures
        pow10(10) == 10_000_000_000,
{
    assert(pow10(0) == 1);
    assert(pow10(1) == 10);
    assert(pow10(2) == 100);
    assert(pow10(3) == 1000);
    assert(pow10(4) == 10000);
    assert(pow10(5) == 100000);
    assert(pow10(6) == 1000000);
    assert(pow10(7) == 10000000);
    assert(pow10(8) == 100000000);
    assert(pow10(9) == 1000000000);
}

/// A fixed-width decimal field is `w` digit bytes.
pub proof fn lemma_decw_digits(n: int, w: nat)
    requires
        n >= 0,
    ensures
        spec_decw(n, w).len() == w,
        forall|i: int| 0 <= i < w ==> is_digit_byte(#[trigger] spec_decw(n, w)[i]),
    decreases w,
{
    if w > 0 {
        lemma_decw_digits(n / 10, (w - 1) as nat);
    }
}

/// Reading a fixed-width decimal field back gives the value written, for
/// any value the width can carry.
pub proof fn lemma_parse_decw(n: int, w: nat)
    requires
        0 <= n < pow10(w),
    ensures
        spec_parse_digits(spec_decw(n, w)) == n,
    decreases w,
{
    if w > 0 {
        lemma_parse_decw(n / 10, (w - 1) as nat);
        assert(spec_decw(n, w).drop_last() =~= spec_decw(n / 10, (w - 1) as nat));
    }
}

/// `n` as exactly `w` decimal digit bytes.
pub fn decw(n: u32, w: usize) -> (r: Vec<u8>)
    ensures
        r@ =~= spec_decw(n as int, w as nat),
    decreases w,
{
    if w == 0 {
        Vec::new()
    } else {
        let mut v = decw(n / 10, w - 1);
        v.push(48 + (n % 10) as u8);
        v
    }
}

/// The value of the `w` digit bytes of `buf` starting at `at`.
pub fn parse_digits_at(buf: &Vec<u8>, at: usize, w: usize) -> (r: u64)
    requires
        at + w <= buf@.len(),
        w <= 10,
        forall|i: int| at <= i < at + w ==> is_digit_byte(#[trigger] buf@[i]),
    ensures
        r == spec_parse_digits(buf@.subrange(at as int, at + w)),
        r < pow10(w as nat),
{
    proof {
        lemma_pow10_10();
    }
    let blen = buf.len();
    let mut acc: u64 = 0;
    let mut i: usize = 0;
    while i < w
        invariant
            at + w <= blen,
            blen == buf@.len(),
            w <= 10,
            0 <= i <= w,
            forall|j: int| at <= j < at + w ==> is_digit_byte(#[trigger] buf@[j]),
            acc == spec_parse_digits(buf@.subrange(at as int, at + i)),
            acc < pow10(i as nat),
            pow10(10) == 10_000_000_000,
        decreases w - i,
    {
        proof {
            assert(pow10(i as nat) <= pow10(10)) by {
                lemma_pow10_monotone(i as nat, 10);
            };
            assert(buf@.subrange(at as int, at + i + 1).drop_last() =~= buf@.subrange(
                at as int,
                at + i,
            ));
        }
        let d = buf[at + i];
        acc = acc * 10 + (d - 48) as u64;
        i = i + 1;
    }
    acc
}

/// `10^a <= 10^b` when `a <= b`.
pub proof fn lemma_pow10_monotone(a: nat, b: nat)
    requires
        a <= b,
    ensures
        pow10(a) <= pow10(b),
        pow10(a) >= 1,
    decreases b,
{
    if b > 0 {
        if a == b {
            lemma_pow10_monotone((a - 1) as nat, (b - 1) as nat);
        } else {
            lemma_pow10_monotone(a, (b - 1) as nat);
        }
    }
}

/// The serialized form of one entry.
pub open spec fn spec_enc_entry(name: Seq<u8>, inum: u32) -> Seq<u8> {
    spec_dec10(name.len() as int) + seq![58u8] + name + seq![61u8] + spec_dec10(inum as int)
        + seq![59u8]
}

/// The serialized form of an entry list, in order.
pub open spec fn spec_enc_entries(s: Seq<(Seq<u8>, u32)>) -> Seq<u8>
    decreases s.len(),
{
    if s.len() == 0 {
        Seq::empty()
    } else {
        spec_enc_entry(s[0].0, s[0].1) + spec_enc_entries(s.drop_first())
    }
}

/// The whole serialized directory payload.
pub open spec fn spec_encode_dir(s: Seq<(Seq<u8>, u32)>) -> Seq<u8> {
    seq![91u8] + spec_enc_entries(s) + seq![93u8]
}

/// Appending one entry appends its serialized form.
pub proof fn lemma_enc_entries_snoc(s: Seq<(Seq<u8>, u32)>, k: int)
    requires
        0 <= k < s.len(),
    ensures
        spec_enc_entries(s.take(k + 1)) =~= spec_enc_entries(s.take(k)) + spec_enc_entry(
            s[k].0,
            s[k].1,
        ),
    decreases k,
{
    if k == 0 {
        assert(s.take(1).drop_first() =~= Seq::<(Seq<u8>, u32)>::empty());
        assert(s.take(1)[0] == s[0]);
        assert(s.take(0) =~= Seq::<(Seq<u8>, u32)>::empty());
    } else {
        lemma_enc_entries_snoc(s.drop_first(), k - 1);
        assert(s.take(k + 1).drop_first() =~= s.drop_first().take(k));
        assert(s.take(k).drop_first() =~= s.drop_first().take(k - 1));
        assert(s.take(k + 1)[0] == s[0]);
        assert(s.take(k)[0] == s[0]);
        assert(s.drop_first()[k - 1] == s[k]);
    }
}

/// The serialization splits around any one entry.
pub proof fn lemma_enc_entries_split(s: Seq<(Seq<u8>, u32)>, m: int)
    requires
        0 <= m < s.len(),
    ensures
        spec_enc_entries(s) =~= spec_enc_entries(s.take(m)) + spec_enc_entry(s[m].0, s[m].1)
            + spec_enc_entries(s.skip(m + 1)),
    decreases m,
{
    if m == 0 {
        assert(s.take(0) =~= Seq::<(Seq<u8>, u32)>::empty());
        assert(s.skip(1) =~= s.drop_first());
    } else {
        lemma_enc_entries_split(s.drop_first(), m - 1);
        assert(s.take(m).drop_first() =~= s.drop_first().take(m - 1));
        assert(s.take(m)[0] == s[0]);
        assert(s.drop_first()[m - 1] == s[m]);
        assert(s.drop_first().skip(m) =~= s.skip(m + 1));
    }
}

/// Serialize an entry list.
pub fn serialize_dir(data: &DirectoryData) -> (r: Vec<u8>)
    requires
        forall|k: int|
            0 <= k < data.entries@.len()
                ==> encode_utf8((#[trigger] data.entries@[k]).name@).len() <= u32::MAX,
    ensures
        r@ == spec_encode_dir(dir_view(*data)),
        dir_entries_wf(dir_view(*data)),
{
    proof {
        lemma_dir_view_wf(*data);
    }
    let ghost v = dir_view(*data);
    let mut out: Vec<u8> = Vec::new();
    out.push(91);
    let n = data.entries.len();
    let mut k: usize = 0;
    while k < n
        invariant
            n == data.entries@.len(),
            v == dir_view(*data),
            dir_entries_wf(v),
            forall|kk: int|
                0 <= kk < data.entries@.len()
                    ==> encode_utf8((#[trigger] data.entries@[kk]).name@).len() <= u32::MAX,
            0 <= k <= n,
            out@ =~= seq![91u8] + spec_enc_entries(v.take(k as int)),
        decreases n - k,
    {
        let e = &data.entries[k];
        let nb: &[u8] = e.name.as_str().as_bytes();
        proof {
            assert(nb@ == encode_utf8(e.name@));
            assert(v[k as int] == entry_view(data.entries@[k as int]));
        }
        let mut d = decw(nb.len() as u32, 10);
        out.append(&mut d);
        out.push(58);
        let mut t: usize = 0;
        while t < nb.len()
            invariant
                0 <= t <= nb@.len(),
                out@ =~= seq![91u8] + spec_enc_entries(v.take(k as int)) + spec_dec10(
                    nb@.len() as int,
                ) + seq![58u8] + nb@.take(t as int),
            decreases nb@.len() - t,
        {
            let b = nb[t];
            out.push(b);
            proof {
                assert(nb@.take(t + 1) =~= nb@.take(t as int).push(nb@[t as int]));
            }
            t = t + 1;
        }
        proof {
            assert(nb@.take(nb@.len() as int) =~= nb@);
        }
        out.push(61);
        let mut d2 = decw(e.inum, 10);
        out.append(&mut d2);
        out.push(59);
        proof {
            lemma_enc_entries_snoc(v, k as int);
            assert(out@ =~= seq![91u8] + spec_enc_entries(v.take(k + 1)));
        }
        k = k + 1;
    }
    out.push(93);
    proof {
        assert(v.take(n as int) =~= v);
        assert(out@ =~= spec_encode_dir(v));
    }
    out
}


/// One serialized entry occupies its name's length plus the 23 bytes of
/// framing.
pub proof fn lemma_enc_entry_len(name: Seq<u8>, inum: u32)
    ensures
        spec_enc_entry(name, inum).len() == 23 + name.len(),
{
    lemma_decw_digits(name.len() as int, 10);
    lemma_decw_digits(inum as int, 10);
}

/// The serialization concatenates over any split of the entry list.
pub proof fn lemma_enc_entries_cat(s: Seq<(Seq<u8>, u32)>, k: int)
    requires
        0 <= k <= s.len(),
    ensures
        spec_enc_entries(s) =~= spec_enc_entries(s.take(k)) + spec_enc_entries(s.skip(k)),
    decreases k,
{
    if k == 0 {
        assert(s.take(0) =~= Seq::<(Seq<u8>, u32)>::empty());
        assert(s.skip(0) =~= s);
    } else {
        lemma_enc_entries_cat(s.drop_first(), k - 1);
        assert(s.take(k).drop_first() =~= s.drop_first().take(k - 1));
        assert(s.take(k)[0] == s[0]);
        assert(s.drop_first().skip(k - 1) =~= s.skip(k));
    }
}

/// Two entry lists the codec can carry with the same serialized entries
/// are the same list.
pub proof fn lemma_enc_entries_injective(s1: Seq<(Seq<u8>, u32)>, s2: Seq<(Seq<u8>, u32)>)
    requires
        dir_entries_wf(s1),
        dir_entries_wf(s2),
        spec_enc_entries(s1) == spec_enc_entries(s2),
    ensures
        s1 =~= s2,
    decreases s1.len(),
{
    lemma_pow10_10();
    if s1.len() == 0 && s2.len() == 0 {
    } else if s1.len() == 0 {
        lemma_enc_entry_len(s2[0].0, s2[0].1);
        assert(false);
    } else if s2.len() == 0 {
        lemma_enc_entry_len(s1[0].0, s1[0].1);
        assert(false);
    } else {
        let n1 = s1[0].0;
        let v1 = s1[0].1;
        let n2 = s2[0].0;
        let v2 = s2[0].1;
        let e1 = spec_enc_entry(n1, v1);
        let e2 = spec_enc_entry(n2, v2);
        let b = spec_enc_entries(s1);
        lemma_enc_entry_len(n1, v1);
        lemma_enc_entry_len(n2, v2);
        lemma_decw_digits(n1.len() as int, 10);
        lemma_decw_digits(n2.len() as int, 10);
        lemma_decw_digits(v1 as int, 10);
        lemma_decw_digits(v2 as int, 10);
        assert(b =~= e1 + spec_enc_entries(s1.drop_first()));
        assert(b =~= e2 + spec_enc_entries(s2.drop_first()));
        assert(spec_dec10(n1.len() as int) =~= spec_dec10(n2.len() as int)) by {
            assert forall|j: int| 0 <= j < 10 implies spec_dec10(n1.len() as int)[j]
                == spec_dec10(n2.len() as int)[j] by {
                assert(e1[j] == spec_dec10(n1.len() as int)[j]);
                assert(e2[j] == spec_dec10(n2.len() as int)[j]);
                assert(e1[j] == b[j]);
                assert(e2[j] == b[j]);
            }
        }
        lemma_parse_decw(n1.len() as int, 10);
        lemma_parse_decw(n2.len() as int, 10);
        assert(n1.len() == n2.len());
        assert(n1 =~= n2) by {
            assert forall|j: int| 0 <= j < n1.len() implies n1[j] == n2[j] by {
                assert(e1[11 + j] == n1[j]);
                assert(e2[11 + j] == n2[j]);
                assert(e1[11 + j] == b[11 + j]);
                assert(e2[11 + j] == b[11 + j]);
            }
        }
        assert(spec_dec10(v1 as int) =~= spec_dec10(v2 as int)) by {
            assert forall|j: int| 0 <= j < 10 implies spec_dec10(v1 as int)[j] == spec_dec10(
                v2 as int,
            )[j] by {
                let off = 12 + n1.len() as int;
                assert(e1[off + j] == spec_dec10(v1 as int)[j]);
                assert(e2[off + j] == spec_dec10(v2 as int)[j]);
                assert(e1[off + j] == b[off + j]);
                assert(e2[off + j] == b[off + j]);
            }
        }
        lemma_parse_decw(v1 as int, 10);
        lemma_parse_decw(v2 as int, 10);
        assert(v1 == v2);
        assert(spec_enc_entries(s1.drop_first()) =~= spec_enc_entries(s2.drop_first())) by {
            let r1 = spec_enc_entries(s1.drop_first());
            let r2 = spec_enc_entries(s2.drop_first());
            assert(r1.len() == b.len() - e1.len());
            assert(r2.len() == b.len() - e2.len());
            assert forall|j: int| 0 <= j < r1.len() implies r1[j] == r2[j] by {
                assert(r1[j] == b[e1.len() + j]);
                assert(r2[j] == b[e2.len() + j]);
            }
        }
        assert(dir_entries_wf(s1.drop_first())) by {
            assert forall|k: int| 0 <= k < s1.drop_first().len() implies (#[trigger] s1
                .drop_first()[k]).0.len() <= u32::MAX && valid_utf8(s1.drop_first()[k].0) by {
                assert(s1.drop_first()[k] == s1[k + 1]);
            }
        }
        assert(dir_entries_wf(s2.drop_first())) by {
            assert forall|k: int| 0 <= k < s2.drop_first().len() implies (#[trigger] s2
                .drop_first()[k]).0.len() <= u32::MAX && valid_utf8(s2.drop_first()[k].0) by {
                assert(s2.drop_first()[k] == s2[k + 1]);
            }
        }
        lemma_enc_entries_injective(s1.drop_first(), s2.drop_first());
        assert(s1 =~= s2) by {
            assert(s1[0] == s2[0]);
            assert forall|k: int| 0 < k < s1.len() implies s1[k] == s2[k] by {
                assert(s1.drop_first()[k - 1] == s2.drop_first()[k - 1]);
            }
        }
    }
}

/// Directory serialization is injective: two entry lists with the same
/// payload are the same list, so deserializing a serialization can only
/// give back the entries that were serialized.
pub proof fn lemma_encode_dir_injective(s1: Seq<(Seq<u8>, u32)>, s2: Seq<(Seq<u8>, u32)>)
    requires
        dir_entries_wf(s1),
        dir_entries_wf(s2),
        spec_encode_dir(s1) == spec_encode_dir(s2),
    ensures
        s1 =~= s2,
{
    let b1 = spec_encode_dir(s1);
    assert(spec_enc_entries(s1) =~= spec_enc_entries(s2)) by {
        assert(spec_enc_entries(s1).len() == b1.len() - 2);
        assert(spec_enc_entries(s2).len() == b1.len() - 2);
        assert forall|j: int| 0 <= j < spec_enc_entries(s1).len() implies spec_enc_entries(s1)[j]
            == spec_enc_entries(s2)[j] by {
            assert(spec_enc_entries(s1)[j] == b1[1 + j]);
            assert(spec_enc_entries(s2)[j] == b1[1 + j]);
        }
    }
    lemma_enc_entries_injective(s1, s2);
}

/// Relies on core::str::from_utf8 (with str::to_owned): returns the string
/// whose UTF-8 encoding is `v`, exactly when `v` is valid UTF-8.
#[verifier::external_body]
pub(crate) fn bytes_to_string(v: &Vec<u8>) -> (r: Option<String>)
    ensures
        match r {
            Some(s) => valid_utf8(v@) && s@ == decode_utf8(v@),
            None => !valid_utf8(v@),
        },
{
    match core::str::from_utf8(v.as_slice()) {
        Ok(s) => Some(s.to_owned()),
        Err(_) => None,
    }
}

/// Deserialize a directory payload back into its entry list.  The payload
/// must be a serialization of some well-formed entry list; the result is
/// exactly that list.
pub fn deserialize_dir(buf: &Vec<u8>) -> (r: DirectoryData)
    requires
        exists|s: Seq<(Seq<u8>, u32)>| dir_entries_wf(s) && buf@ == spec_encode_dir(s),
    ensures
        dir_entries_wf(dir_view(r)),
        buf@ == spec_encode_dir(dir_view(r)),
        forall|s: Seq<(Seq<u8>, u32)>|
            dir_entries_wf(s) && buf@ == spec_encode_dir(s) ==> s =~= dir_view(r),
{
    let ghost s0 = choose|s: Seq<(Seq<u8>, u32)>|
        dir_entries_wf(s) && buf@ == spec_encode_dir(s);
    proof {
        lemma_pow10_10();
    }
    let blen = buf.len();
    let mut entries: Vec<DirectoryEntry> = Vec::new();
    let mut i: usize = 1;
    while buf[i] != 93u8
        invariant
            dir_entries_wf(s0),
            buf@ == spec_encode_dir(s0),
            blen == buf@.len(),
            pow10(10) == 10_000_000_000,
            entries@.len() <= s0.len(),
            entries@.map(|q: int, e: DirectoryEntry| entry_view(e)) =~= s0.take(
                entries@.len() as int,
            ),
            1 <= i <= blen - 1,
            i == 1 + spec_enc_entries(s0.take(entries@.len() as int)).len(),
        decreases blen - i,
    {
        let ghost m = entries@.len() as int;
        proof {
            lemma_enc_entries_cat(s0, m);
            if m == s0.len() {
                assert(s0.take(m) =~= s0);
                assert(i == blen - 1);
                assert(buf@[i as int] == 93u8);
                assert(false);
            }
            lemma_enc_entries_split(s0, m);
        }
        let ghost nm = s0[m].0;
        let ghost vm = s0[m].1;
        let ghost e = spec_enc_entry(nm, vm);
        proof {
            lemma_enc_entry_len(nm, vm);
            lemma_decw_digits(nm.len() as int, 10);
            lemma_decw_digits(vm as int, 10);
            assert(buf@ =~= seq![91u8] + spec_enc_entries(s0.take(m)) + e + spec_enc_entries(
                s0.skip(m + 1),
            ) + seq![93u8]);
            assert forall|j: int| 0 <= j < e.len() implies buf@[i + j] == e[j] by {}
            assert forall|j: int| i <= j < i + 10 implies is_digit_byte(#[trigger] buf@[j]) by {
                assert(buf@[j] == e[j - i]);
                assert(e[j - i] == spec_dec10(nm.len() as int)[j - i]);
            }
            assert(buf@.subrange(i as int, i + 10) =~= spec_dec10(nm.len() as int));
            lemma_parse_decw(nm.len() as int, 10);
        }
        let len64 = parse_digits_at(buf, i, 10);
        proof {
            assert(len64 == nm.len());
        }
        let len_v = len64 as usize;
        let mut nb: Vec<u8> = Vec::new();
        let mut t: usize = 0;
        while t < len_v
            invariant
                0 <= t <= len_v,
                len_v == nm.len(),
                blen == buf@.len(),
                i + 23 + len_v <= blen,
                forall|j: int| 0 <= j < e.len() ==> buf@[i + j] == e[j],
                e == spec_enc_entry(nm, vm),
                e.len() == 23 + nm.len(),
                forall|j: int| 0 <= j < nm.len() ==> e[11 + j] == nm[j],
                nb@ =~= nm.take(t as int),
            decreases len_v - t,
        {
            let b = buf[i + 11 + t];
            nb.push(b);
            proof {
                assert(buf@[i + 11 + t] == e[11 + t]);
                assert(nm.take(t + 1) =~= nm.take(t as int).push(nm[t as int]));
            }
            t = t + 1;
        }
        proof {
            assert(nb@ =~= nm);
        }
        let name = match bytes_to_string(&nb) {
            Some(s) => s,
            None => {
                proof {
                    assert(valid_utf8(nm));
                    assert(false);
                }
                String::new()
            },
        };
        proof {
            assert forall|j: int|
                i + 12 + len_v <= j < i + 22 + len_v implies is_digit_byte(
                #[trigger] buf@[j],
            ) by {
                assert(buf@[j] == e[j - i]);
                assert(e[j - i] == spec_dec10(vm as int)[j - i - 12 - nm.len()]);
            }
            assert(buf@.subrange(i + 12 + len_v, i + 22 + len_v) =~= spec_dec10(vm as int)) by {
                assert forall|j: int| 0 <= j < 10 implies buf@.subrange(
                    i + 12 + len_v,
                    i + 22 + len_v,
                )[j] == spec_dec10(vm as int)[j] by {
                    assert(buf@[i + 12 + len_v + j] == e[12 + len_v + j]);
                }
            }
            lemma_parse_decw(vm as int, 10);
        }
        let inum64 = parse_digits_at(buf, i + 12 + len_v, 10);
        proof {
            assert(inum64 == vm);
        }
        let entry = DirectoryEntry { name, inum: inum64 as u32 };
        entries.push(entry);
        proof {
            broadcast use decode_utf8_encode_utf8;

            assert(encode_utf8(decode_utf8(nm)) == nm);
            assert(entries@.map(|q: int, e2: DirectoryEntry| entry_view(e2)) =~= s0.take(m + 1))
                by {
                let mapped = entries@.map(|q: int, e2: DirectoryEntry| entry_view(e2));
                assert forall|q: int| 0 <= q < mapped.len() implies mapped[q] == s0.take(
                    m + 1,
                )[q] by {
                    if q < m {
                        assert(mapped[q] == entry_view(entries@[q]));
                    } else {
                        assert(mapped[q] == entry_view(entries@[m]));
                    }
                }
            }
            lemma_enc_entries_snoc(s0, m);
        }
        i = i + 23 + len_v;
        proof {
            lemma_enc_entries_cat(s0, m + 1);
            assert(i == 1 + spec_enc_entries(s0.take(m + 1)).len());
            assert(i <= blen - 1);
        }
    }
    proof {
        let m = entries@.len() as int;
        if m < s0.len() {
            lemma_enc_entries_split(s0, m);
            lemma_enc_entry_len(s0[m].0, s0[m].1);
            lemma_decw_digits(s0[m].0.len() as int, 10);
            assert(buf@ =~= seq![91u8] + spec_enc_entries(s0.take(m)) + spec_enc_entry(
                s0[m].0,
                s0[m].1,
            ) + spec_enc_entries(s0.skip(m + 1)) + seq![93u8]);
            assert(buf@[i as int] == spec_enc_entry(s0[m].0, s0[m].1)[0]);
            assert(is_digit_byte(buf@[i as int]));
            assert(false);
        }
        assert(s0.take(m) =~= s0);
    }
    let r = DirectoryData { entries };
    proof {
        assert(dir_view(r) =~= s0);
        assert forall|s: Seq<(Seq<u8>, u32)>|
            dir_entries_wf(s) && buf@ == spec_encode_dir(s) implies s =~= dir_view(r) by {
            lemma_encode_dir_injective(s, s0);
        }
    }
    r
}


/// Byte `j` of the little-endian 32-bit form of `n`.
pub open spec fn spec_le32_byte(n: int, j: int) -> u8 {
    if j == 0 {
        (n % 256) as u8
    } else if j == 1 {
        ((n / 256) % 256) as u8
    } else if j == 2 {
        ((n / 65536) % 256) as u8
    } else {
        ((n / 16777216) % 256) as u8
    }
}

/// The four little-endian bytes of `n` determine `n`.
pub proof fn lemma_le32_reconstruct(n: int)
    requires
        0 <= n < 4294967296,
    ensures
        spec_le32_byte(n, 0) + 256 * (spec_le32_byte(n, 1) + 256 * (spec_le32_byte(n, 2) + 256
            * spec_le32_byte(n, 3))) == n,
{
    lemma_div_denominator(n, 256, 256);
    lemma_div_denominator(n, 65536, 256);
    assert(n % 256 + 256 * ((n / 256) % 256 + 256 * ((n / 65536) % 256 + 256 * ((n / 16777216)
        % 256))) == n) by {
        assert(n == 256 * (n / 256) + n % 256);
        assert(n / 256 == 256 * (n / 256 / 256) + (n / 256) % 256);
        assert(n / 65536 == 256 * (n / 65536 / 256) + (n / 65536) % 256);
        assert(n / 16777216 < 256);
        assert((n / 16777216) % 256 == n / 16777216);
    }
}

/// The little-endian 32-bit form of `n`.
pub fn le32_bytes(n: u32) -> (r: Vec<u8>)
    ensures
        r@.len() == 4,
        forall|j: int| 0 <= j < 4 ==> r@[j] == spec_le32_byte(n as int, j),
{
    let mut r: Vec<u8> = Vec::new();
    r.push((n % 256) as u8);
    r.push(((n / 256) % 256) as u8);
    r.push(((n / 65536) % 256) as u8);
    r.push(((n / 16777216) % 256) as u8);
    r
}

/// A serialization of the entry list `s`, prefixed by its 32-bit
/// little-endian byte length, lies within inode `inum` at byte `start`.
pub open spec fn spec_dir_stored(
    ib: IndexRegion,
    data: Seq<u8>,
    inum: int,
    start: int,
    s: Seq<(Seq<u8>, u32)>,
) -> bool {
    let blob = spec_encode_dir(s);
    &&& start + 4 + blob.len() <= ib.inodes@[inum].size
    &&& forall|j: int|
        0 <= j < 4 ==> spec_byte(ib, data, inum, start + j) == spec_le32_byte(
            blob.len() as int,
            j,
        )
    &&& forall|j: int| 0 <= j < blob.len() ==> spec_byte(ib, data, inum, start + 4 + j) == blob[j]
}

/// Only one well-formed entry list can be stored at a given place.
pub proof fn lemma_dir_stored_unique(
    ib: IndexRegion,
    data: Seq<u8>,
    inum: int,
    start: int,
    s1: Seq<(Seq<u8>, u32)>,
    s2: Seq<(Seq<u8>, u32)>,
)
    requires
        dir_entries_wf(s1),
        dir_entries_wf(s2),
        0 <= start,
        spec_dir_stored(ib, data, inum, start, s1),
        spec_dir_stored(ib, data, inum, start, s2),
    ensures
        s1 =~= s2,
{
    let b1 = spec_encode_dir(s1);
    let b2 = spec_encode_dir(s2);
    lemma_le32_reconstruct(b1.len() as int);
    lemma_le32_reconstruct(b2.len() as int);
    assert(b1.len() == b2.len());
    assert(b1 =~= b2) by {
        assert forall|j: int| 0 <= j < b1.len() implies b1[j] == b2[j] by {
            assert(spec_byte(ib, data, inum, start + 4 + j) == b1[j]);
            assert(spec_byte(ib, data, inum, start + 4 + j) == b2[j]);
        }
    }
    lemma_encode_dir_injective(s1, s2);
}

/// Read the entry list stored at byte `start_pos` of inode `inum`: a
/// four-byte little-endian length, then that many bytes of serialized
/// entries.
pub fn read_data_struct(
    data_blocks: &Vec<u8>,
    index_blocks: &IndexRegion,
    inum: usize,
    start_pos: usize,
) -> (r: DirectoryData)
    requires
        data_blocks@.len() == DATA_BLOCK_COUNT * ALIGN_SIZE,
        index_region_wf(*index_blocks),
        inum < INODE_COUNT,
        inode_readable(*index_blocks, inum as int),
        exists|s: Seq<(Seq<u8>, u32)>|
            dir_entries_wf(s) && spec_dir_stored(
                *index_blocks,
                data_blocks@,
                inum as int,
                start_pos as int,
                s,
            ),
    ensures
        dir_entries_wf(dir_view(r)),
        spec_dir_stored(*index_blocks, data_blocks@, inum as int, start_pos as int, dir_view(r)),
        forall|s: Seq<(Seq<u8>, u32)>|
            dir_entries_wf(s) && spec_dir_stored(
                *index_blocks,
                data_blocks@,
                inum as int,
                start_pos as int,
                s,
            ) ==> s =~= dir_view(r),
{
    let ghost s0 = choose|s: Seq<(Seq<u8>, u32)>|
        dir_entries_wf(s) && spec_dir_stored(
            *index_blocks,
            data_blocks@,
            inum as int,
            start_pos as int,
            s,
        );
    let ghost blob = spec_encode_dir(s0);
    let mut len_buf: Vec<u8> = vec![0u8; 4];
    read_data(data_blocks, index_blocks, inum, start_pos, &mut len_buf);
    proof {
        lemma_le32_reconstruct(blob.len() as int);
    }
    let n = len_buf[0] as usize + 256 * (len_buf[1] as usize + 256 * (len_buf[2] as usize + 256
        * (len_buf[3] as usize)));
    proof {
        assert(n == blob.len());
    }
    let mut body: Vec<u8> = vec![0u8; n];
    read_data(data_blocks, index_blocks, inum, start_pos + 4, &mut body);
    proof {
        assert(body@ =~= blob);
    }
    let r = deserialize_dir(&body);
    proof {
        assert forall|s: Seq<(Seq<u8>, u32)>|
            dir_entries_wf(s) && spec_dir_stored(
                *index_blocks,
                data_blocks@,
                inum as int,
                start_pos as int,
                s,
            ) implies s =~= dir_view(r) by {
            lemma_dir_stored_unique(
                *index_blocks,
                data_blocks@,
                inum as int,
                start_pos as int,
                s,
                s0,
            );
        }
        assert(spec_dir_stored(
            *index_blocks,
            data_blocks@,
            inum as int,
            start_pos as int,
            dir_view(r),
        )) by {
            assert(dir_view(r) =~= s0);
            assert(spec_encode_dir(dir_view(r)) == blob);
        }
    }
    r
}

/// Store the entry list at byte `start_pos` of inode `inum`, which must
/// already be large enough; returns the stored byte count, prefix
/// included.
pub fn write_data_struct(
    data_blocks: &mut Vec<u8>,
    index_blocks: &IndexRegion,
    inum: usize,
    start_pos: usize,
    data: &DirectoryData,
) -> (r: usize)
    requires
        old(data_blocks)@.len() == DATA_BLOCK_COUNT * ALIGN_SIZE,
        index_region_wf(*index_blocks),
        inum < INODE_COUNT,
        inode_writable(*index_blocks, inum as int),
        forall|k: int|
            0 <= k < data.entries@.len()
                ==> encode_utf8((#[trigger] data.entries@[k]).name@).len() <= u32::MAX,
        start_pos + 4 + spec_encode_dir(dir_view(*data)).len()
            <= index_blocks.inodes@[inum as int].size,
    ensures
        final(data_blocks)@.len() == old(data_blocks)@.len(),
        dir_entries_wf(dir_view(*data)),
        spec_dir_stored(
            *index_blocks,
            final(data_blocks)@,
            inum as int,
            start_pos as int,
            dir_view(*data),
        ),
        r == 4 + spec_encode_dir(dir_view(*data)).len(),
        forall|p: int|
            0 <= p < index_blocks.inodes@[inum as int].size && !(start_pos <= p < start_pos + 4
                + spec_encode_dir(dir_view(*data)).len()) ==> spec_byte(
                *index_blocks,
                final(data_blocks)@,
                inum as int,
                p,
            ) == spec_byte(*index_blocks, old(data_blocks)@, inum as int, p),
        forall|q: int|
            0 <= q < old(data_blocks)@.len() && !(exists|k: int|
                0 <= k < index_blocks.inodes@[inum as int].block_count
                    && (#[trigger] spec_dnum(*index_blocks, inum as int, k)) == q / 4096)
                ==> final(data_blocks)@[q] == old(data_blocks)@[q],
{
    let ghost olddata = data_blocks@;
    let buf = serialize_dir(data);
    let ghost blob = spec_encode_dir(dir_view(*data));
    let len = buf.len() as u32;
    let len_bytes = le32_bytes(len);
    write_data(data_blocks, index_blocks, inum, start_pos, &len_bytes);
    let ghost middata = data_blocks@;
    write_data(data_blocks, index_blocks, inum, start_pos + 4, &buf);
    proof {
        assert forall|j: int| 0 <= j < 4 implies spec_byte(
            *index_blocks,
            data_blocks@,
            inum as int,
            start_pos + j,
        ) == spec_le32_byte(blob.len() as int, j) by {
            assert(spec_byte(*index_blocks, middata, inum as int, start_pos + j) == len_bytes@[j]);
        }
        assert forall|q: int|
            0 <= q < olddata.len() && !(exists|k: int|
                0 <= k < index_blocks.inodes@[inum as int].block_count
                    && (#[trigger] spec_dnum(*index_blocks, inum as int, k)) == q / 4096)
            implies data_blocks@[q] == olddata[q] by {
            assert forall|i: int|
                0 <= i < len_bytes@.len() implies #[trigger] raw_pos(
                *index_blocks,
                inum as int,
                start_pos + i,
            ) != q by {
                assert(spec_dnum(*index_blocks, inum as int, (start_pos + i) / 4096) == raw_pos(
                    *index_blocks,
                    inum as int,
                    start_pos + i,
                ) / 4096);
            }
            assert forall|i: int|
                0 <= i < buf@.len() implies #[trigger] raw_pos(
                *index_blocks,
                inum as int,
                start_pos + 4 + i,
            ) != q by {
                assert(spec_dnum(*index_blocks, inum as int, (start_pos + 4 + i) / 4096)
                    == raw_pos(*index_blocks, inum as int, start_pos + 4 + i) / 4096);
            }
            assert(middata[q] == olddata[q]);
        }
    }
    4 + buf.len()
}

/// Store the entry list at byte `start_pos` of inode `inum`, first
/// resizing the inode so the file ends exactly where the stored bytes do;
/// returns the stored byte count, prefix included.
pub fn write_data_struct_auto_resize(
    index_bitmap_blocks: &mut Vec<u32>,
    data_bitmap_blocks: &mut Vec<u32>,
    index_blocks: &mut IndexRegion,
    data_blocks: &mut Vec<u8>,
    inum: usize,
    start_pos: usize,
    data: &DirectoryData,
) -> (r: usize)
    requires
        old(index_bitmap_blocks)@.len() == INDEX_BITMAP_WORDS,
        old(data_bitmap_blocks)@.len() == DATA_BITMAP_WORDS,
        index_region_wf(*old(index_blocks)),
        old(data_blocks)@.len() == DATA_BLOCK_COUNT * ALIGN_SIZE,
        inum < INODE_COUNT,
        forall|k: int|
            0 <= k < data.entries@.len()
                ==> encode_utf8((#[trigger] data.entries@[k]).name@).len() <= u32::MAX,
        start_pos + 4 + spec_encode_dir(dir_view(*data)).len() <= MAX_FILE_BLOCKS * ALIGN_SIZE,
        bm_bit(old(index_bitmap_blocks)@, 0),
        inode_wf(
            *old(index_blocks),
            old(index_bitmap_blocks)@,
            old(data_bitmap_blocks)@,
            inum as int,
        ),
        (start_pos + 4 + spec_encode_dir(dir_view(*data)).len() + 4095) / 4096 > old(
            index_blocks,
        ).inodes@[inum as int].block_count ==> count_clear(
            old(data_bitmap_blocks)@,
            DATA_BLOCK_COUNT as int,
        ) >= (start_pos + 4 + spec_encode_dir(dir_view(*data)).len() + 4095) / 4096 - old(
            index_blocks,
        ).inodes@[inum as int].block_count,
        ((start_pos + 4 + spec_encode_dir(dir_view(*data)).len() + 4095) / 4096
            > DIRECT_BLOCK_COUNT && old(index_blocks).inodes@[inum as int].block_count
            <= DIRECT_BLOCK_COUNT) ==> exists|w: int|
            0 <= w < INDEX_BLOCK_COUNT && old(index_bitmap_blocks)@[w] == 0u32,
    ensures
        final(index_bitmap_blocks)@.len() == INDEX_BITMAP_WORDS,
        final(data_bitmap_blocks)@.len() == DATA_BITMAP_WORDS,
        index_region_wf(*final(index_blocks)),
        final(data_blocks)@.len() == old(data_blocks)@.len(),
        forall|i: int|
            0 <= i < INODE_COUNT && i != inum
                ==> final(index_blocks).inodes@[i] == old(index_blocks).inodes@[i],
        inode_wf(
            *final(index_blocks),
            final(index_bitmap_blocks)@,
            final(data_bitmap_blocks)@,
            inum as int,
        ),
        final(index_blocks).inodes@[inum as int].size == start_pos + 4 + spec_encode_dir(
            dir_view(*data),
        ).len(),
        same_inode_meta(
            final(index_blocks).inodes@[inum as int],
            old(index_blocks).inodes@[inum as int],
        ),
        dir_entries_wf(dir_view(*data)),
        spec_dir_stored(
            *final(index_blocks),
            final(data_blocks)@,
            inum as int,
            start_pos as int,
            dir_view(*data),
        ),
        r == 4 + spec_encode_dir(dir_view(*data)).len(),
        forall|j: int|
            0 <= j < DATA_BITMAP_WORDS * 32 && bm_bit(old(data_bitmap_blocks)@, j) && !(
            exists|k: int|
                0 <= k < old(index_blocks).inodes@[inum as int].block_count && (
                #[trigger] spec_dnum(*old(index_blocks), inum as int, k)) == j) ==> bm_bit(
                final(data_bitmap_blocks)@,
                j,
            ),
        forall|w: int|
            0 <= w < INDEX_BITMAP_WORDS && old(index_bitmap_blocks)@[w] != 0u32 && !(old(
                index_blocks,
            ).inodes@[inum as int].block_count > DIRECT_BLOCK_COUNT && w == old(
                index_blocks,
            ).inodes@[inum as int].block_indirect as int / 32)
                ==> final(index_bitmap_blocks)@[w] == old(index_bitmap_blocks)@[w],
        forall|q: int|
            0 <= q < old(data_blocks)@.len() && !(exists|k: int|
                0 <= k < final(index_blocks).inodes@[inum as int].block_count && (
                #[trigger] spec_dnum(*final(index_blocks), inum as int, k)) == q / 4096)
                ==> final(data_blocks)@[q] == old(data_blocks)@[q],
        count_clear(final(data_bitmap_blocks)@, DATA_BLOCK_COUNT as int) == count_clear(
            old(data_bitmap_blocks)@,
            DATA_BLOCK_COUNT as int,
        ) - (final(index_blocks).inodes@[inum as int].block_count
            - old(index_blocks).inodes@[inum as int].block_count),
        forall|k: int|
            0 <= k < final(index_blocks).inodes@[inum as int].block_count && k < old(
                index_blocks,
            ).inodes@[inum as int].block_count ==> spec_dnum(
                *final(index_blocks),
                inum as int,
                k,
            ) == spec_dnum(*old(index_blocks), inum as int, k),
        forall|k: int|
            old(index_blocks).inodes@[inum as int].block_count <= k
                < final(index_blocks).inodes@[inum as int].block_count ==> !bm_bit(
                old(data_bitmap_blocks)@,
                (#[trigger] spec_dnum(*final(index_blocks), inum as int, k)) as int,
            ) && bm_bit(
                final(data_bitmap_blocks)@,
                spec_dnum(*final(index_blocks), inum as int, k) as int,
            ),
        final(index_blocks).inodes@[inum as int].block_count >= old(
            index_blocks,
        ).inodes@[inum as int].block_count ==> crate::grow::dbm_extended(
            *final(index_blocks),
            final(data_bitmap_blocks)@,
            old(data_bitmap_blocks)@,
            inum as int,
            old(index_blocks).inodes@[inum as int].block_count as int,
            final(index_blocks).inodes@[inum as int].block_count as int,
        ),
        (spec_block_count_for((start_pos + 4 + spec_encode_dir(dir_view(*data)).len()) as u32)
            <= DIRECT_BLOCK_COUNT && spec_block_count_for(
            (start_pos + 4 + spec_encode_dir(dir_view(*data)).len()) as u32,
        ) >= old(index_blocks).inodes@[inum as int].block_count)
            ==> final(index_bitmap_blocks)@ == old(index_bitmap_blocks)@,
        (final(index_blocks).inodes@[inum as int].block_count >= old(
            index_blocks,
        ).inodes@[inum as int].block_count && old(index_blocks).inodes@[inum as int].block_count
            > DIRECT_BLOCK_COUNT) ==> final(index_bitmap_blocks)@ == old(index_bitmap_blocks)@,
        final(index_blocks).inodes@[inum as int].block_count <= old(
            index_blocks,
        ).inodes@[inum as int].block_count ==> forall|j: int|
            0 <= j < DATA_BITMAP_WORDS * 32 && !bm_bit(old(data_bitmap_blocks)@, j) ==> !bm_bit(
                final(data_bitmap_blocks)@,
                j,
            ),
        (final(index_blocks).inodes@[inum as int].block_count <= DIRECT_BLOCK_COUNT && old(
            index_blocks,
        ).inodes@[inum as int].block_count > DIRECT_BLOCK_COUNT)
            ==> final(index_bitmap_blocks)@ == old(index_bitmap_blocks)@.update(
                old(index_blocks).inodes@[inum as int].block_indirect as int / 32,
                0u32,
            ),
        (final(index_blocks).inodes@[inum as int].block_count > DIRECT_BLOCK_COUNT || old(
            index_blocks,
        ).inodes@[inum as int].block_count <= DIRECT_BLOCK_COUNT)
            && final(index_blocks).inodes@[inum as int].block_count <= old(
            index_blocks,
        ).inodes@[inum as int].block_count ==> final(index_bitmap_blocks)@ == old(
            index_bitmap_blocks,
        )@,
        forall|w: int|
            0 <= w < INDEX_BLOCK_COUNT * INDIRECT_CAPACITY && !(
            final(index_blocks).inodes@[inum as int].block_count > DIRECT_BLOCK_COUNT && w / (
            INDIRECT_CAPACITY as int) == final(index_blocks).inodes@[inum as int].block_indirect
                as int / 32) && !(old(index_blocks).inodes@[inum as int].block_count
                > DIRECT_BLOCK_COUNT && w / (INDIRECT_CAPACITY as int) == old(
                index_blocks,
            ).inodes@[inum as int].block_indirect as int / 32)
                ==> final(index_blocks).indirect@[w] == old(index_blocks).indirect@[w],
{
    let ghost v = dir_view(*data);
    let buf = serialize_dir(data);
    let new_size = start_pos + 4 + buf.len();
    let inode = get_inode(index_blocks, inum);
    if new_size != inode.size as usize {
        resize(index_bitmap_blocks, data_bitmap_blocks, index_blocks, inum, new_size);
    }
    let len = buf.len() as u32;
    let len_bytes = le32_bytes(len);
    write_data(data_blocks, index_blocks, inum, start_pos, &len_bytes);
    let ghost middata = data_blocks@;
    write_data(data_blocks, index_blocks, inum, start_pos + 4, &buf);
    proof {
        let blob = spec_encode_dir(v);
        assert forall|j: int| 0 <= j < 4 implies spec_byte(
            *index_blocks,
            data_blocks@,
            inum as int,
            start_pos + j,
        ) == spec_le32_byte(blob.len() as int, j) by {
            assert(spec_byte(*index_blocks, middata, inum as int, start_pos + j) == len_bytes@[j]);
        }
    }
    4 + buf.len()
}

} // verus!
