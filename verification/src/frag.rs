//! Fragmentation and reassembly.
//!
//! A file is split into consecutive blocks of `fragment_size` bytes,
//! the last block possibly short, and an empty file yields one empty
//! block.  Reassembly concatenates the blocks in index order and
//! compares the CRC-64 of the result against the digest.  Reading and
//! writing the files themselves is the caller's business: everything
//! here maps bytes to bytes.

use vstd::prelude::*;
use vstd::string::StringExecFns;
use vstd::arithmetic::mul::lemma_mul_inequality;
use vstd::arithmetic::div_mod::{lemma_fundamental_div_mod, lemma_fundamental_div_mod_converse};
use crate::records::{frag_count, FragmentationDigest};
use crate::crc::{crc64, crc64_of};

verus! {

/// The bytes of fragment `i` of `data` at fragment size `s`: the slice
/// from `i * s` to `(i + 1) * s`, clipped to the end of the data.
pub open spec fn frag_slice(data: Seq<u8>, s: nat, i: nat) -> Seq<u8>
    recommends
        s >= 1,
        i < frag_count(data.len(), s),
{
    let start = (i * s) as int;
    let end = if (i + 1) * s < data.len() {
        ((i + 1) * s) as int
    } else {
        data.len() as int
    };
    data.subrange(start, end)
}

/// All fragments of `data` at fragment size `s`, in index order.
pub open spec fn frag_slices(data: Seq<u8>, s: nat) -> Seq<Seq<u8>> {
    Seq::new(frag_count(data.len(), s), |i: int| frag_slice(data, s, i as nat))
}

/// The concatenation of a list of fragments, in order.
pub open spec fn concat_frags(fs: Seq<Seq<u8>>) -> Seq<u8>
    decreases fs.len(),
{
    if fs.len() == 0 {
        Seq::empty()
    } else {
        concat_frags(fs.drop_last()) + fs.last()
    }
}

/// The views of a vector of fragment buffers.
pub open spec fn frag_views(fs: Seq<Vec<u8>>) -> Seq<Seq<u8>> {
    Seq::new(fs.len(), |i: int| fs[i]@)
}

/// The fragment count is at least one, covers all of the data, and the
/// last fragment starts before the end of the data.
pub proof fn lemma_frag_count_bounds(len: nat, s: nat)
    requires
        s >= 1,
    ensures
        frag_count(len, s) >= 1,
        len <= frag_count(len, s) * s,
        len > 0 ==> (frag_count(len, s) - 1) * s < len,
        len > 0 ==> frag_count(len, s) == (len - 1) / (s as int) + 1,
{
    if len == 0 {
        assert(frag_count(len, s) == 1);
        assert(1 * s == s) by (nonlinear_arith);
    } else {
        let c = frag_count(len, s) as int;
        lemma_fundamental_div_mod((len + s - 1) as int, s as int);
        let m = ((len + s - 1) as int) % (s as int);
        assert(len + s - 1 == s * c + m);
        assert(s * c == c * s) by (nonlinear_arith);
        assert(c * s == len - 1 - m + s);
        assert(c * s >= len);
        assert(c >= 1) by (nonlinear_arith)
            requires
                c * s >= len,
                len > 0,
                s >= 1,
        ;
        assert((c - 1) * s == c * s - s) by (nonlinear_arith);
        assert((c - 1) * s == len - 1 - m);
        assert((c - 1) * s < len);
        lemma_fundamental_div_mod_converse(len - 1, s as int, c - 1, m);
    }
}

/// Splits `data` into its fragments and builds the fragmentation
/// digest: `key` as the name, the data's length and CRC-64, the
/// fragment size, and the number of fragments — the ceiling of
/// `len / fragment_size`, and one for empty data.
pub fn fragment(data: &Vec<u8>, key: &str, fragment_size: usize) -> (r: (
    Vec<Vec<u8>>,
    FragmentationDigest,
))
    requires
        fragment_size >= 1,
        frag_count(data@.len(), fragment_size as nat) <= u32::MAX,
    ensures
        r.0@.len() == frag_count(data@.len(), fragment_size as nat),
        forall|k: int|
            0 <= k < r.0@.len() ==> (#[trigger] r.0@[k])@ == frag_slice(
                data@,
                fragment_size as nat,
                k as nat,
            ),
        frag_views(r.0@) == frag_slices(data@, fragment_size as nat),
        r.1.name@ == key@,
        r.1.size == data@.len(),
        r.1.crc == crc64_of(data@),
        r.1.fragment_size == fragment_size,
        r.1.fragments == r.0@.len(),
        r.1.wf(),
{
    let ghost s = fragment_size as nat;
    proof {
        lemma_frag_count_bounds(data@.len(), s);
    }
    let len = data.len();
    let count: usize = if len == 0 {
        1
    } else {
        (len - 1) / fragment_size + 1
    };
    let mut frags: Vec<Vec<u8>> = Vec::new();
    let mut i: usize = 0;
    while i < count
        invariant
            fragment_size >= 1,
            s == fragment_size as nat,
            len == data@.len(),
            count == frag_count(data@.len(), s),
            count <= u32::MAX,
            0 <= i <= count,
            frags@.len() == i,
            forall|k: int|
                0 <= k < i ==> (#[trigger] frags@[k])@ == frag_slice(data@, s, k as nat),
        decreases count - i,
    {
        proof {
            lemma_frag_count_bounds(data@.len(), s);
            if len > 0 {
                lemma_mul_inequality(i as int, count - 1, fragment_size as int);
                assert((count - 1) * fragment_size < len);
                assert(i * fragment_size < len);
            } else {
                assert(i == 0);
                assert(0 * fragment_size == 0) by (nonlinear_arith);
            }
        }
        let start = i * fragment_size;
        let end = if len - start > fragment_size {
            start + fragment_size
        } else {
            len
        };
        proof {
            assert((i + 1) * fragment_size == i * fragment_size + fragment_size)
                by (nonlinear_arith);
        }
        let mut chunk: Vec<u8> = Vec::new();
        let mut j = start;
        proof {
            assert(data@.subrange(start as int, start as int) =~= Seq::<u8>::empty());
        }
        while j < end
            invariant
                start <= j <= end,
                end <= len,
                len == data@.len(),
                chunk@ =~= data@.subrange(start as int, j as int),
            decreases end - j,
        {
            chunk.push(data[j]);
            proof {
                assert(chunk@ =~= data@.subrange(start as int, j + 1));
            }
            j = j + 1;
        }
        proof {
            assert(chunk@ =~= frag_slice(data@, s, i as nat));
        }
        frags.push(chunk);
        i = i + 1;
    }
    let crc = crc64(data.as_slice());
    let digest = FragmentationDigest {
        name: String::from_str(key),
        size: len as u64,
        crc,
        fragment_size,
        fragments: count as u32,
    };
    proof {
        assert(frag_views(frags@) =~= frag_slices(data@, s));
    }
    (frags, digest)
}

/// Concatenates the fragments in index order and verifies the result
/// against the digest: the second component is true exactly when the
/// CRC-64 of the reassembled bytes equals the digest's CRC.
pub fn defragment(frags: &Vec<Vec<u8>>, digest: &FragmentationDigest) -> (r: (Vec<u8>, bool))
    ensures
        r.0@ == concat_frags(frag_views(frags@)),
        r.1 == (crc64_of(r.0@) == digest.crc),
{
    let mut out: Vec<u8> = Vec::new();
    let mut i: usize = 0;
    proof {
        assert(frag_views(frags@).take(0) =~= Seq::<Seq<u8>>::empty());
    }
    while i < frags.len()
        invariant
            0 <= i <= frags@.len(),
            out@ == concat_frags(frag_views(frags@).take(i as int)),
        decreases frags@.len() - i,
    {
        let ghost old_out = out@;
        let frag = &frags[i];
        let mut j: usize = 0;
        while j < frag.len()
            invariant
                0 <= j <= frag@.len(),
                frag@ == frags@[i as int]@,
                i < frags@.len(),
                out@ =~= old_out + frag@.take(j as int),
            decreases frag@.len() - j,
        {
            out.push(frag[j]);
            proof {
                assert(out@ =~= old_out + frag@.take(j + 1));
            }
            j = j + 1;
        }
        proof {
            let views = frag_views(frags@);
            assert(frag@.take(frag@.len() as int) =~= frag@);
            assert(views.take(i + 1).drop_last() =~= views.take(i as int));
            assert(views.take(i + 1).last() == frag@);
            assert(out@ =~= concat_frags(views.take(i + 1)));
        }
        i = i + 1;
    }
    proof {
        assert(frag_views(frags@).take(frags@.len() as int) =~= frag_views(frags@));
    }
    let ok = crc64(out.as_slice()) == digest.crc;
    (out, ok)
}

/// Reassembling the fragments of any data restores the data: the
/// concatenation of `frag_slices(data, s)` in index order is `data`
/// itself, for every fragment size `s >= 1`.  Together with the
/// contracts of `fragment` and `defragment` this is the round trip:
/// `defragment` applied to the output of `fragment` returns the
/// original bytes, and the digest's CRC equals their CRC-64, so the
/// verification flag is true.
pub proof fn lemma_fragment_defragment_roundtrip(data: Seq<u8>, s: nat)
    requires
        s >= 1,
    ensures
        concat_frags(frag_slices(data, s)) == data,
{
    lemma_frag_count_bounds(data.len(), s);
    let count = frag_count(data.len(), s);
    lemma_concat_prefix(data, s, count);
    assert(frag_slices(data, s).take(count as int) =~= frag_slices(data, s));
    assert(count * s >= data.len());
    assert(data.take(data.len() as int) =~= data);
}

/// The concatenation of the first `k` fragments is the data up to
/// `k * s`, clipped to the end.
proof fn lemma_concat_prefix(data: Seq<u8>, s: nat, k: nat)
    requires
        s >= 1,
        k <= frag_count(data.len(), s),
    ensures
        concat_frags(frag_slices(data, s).take(k as int)) == data.take(
            if k * s < data.len() {
                (k * s) as int
            } else {
                data.len() as int
            },
        ),
    decreases k,
{
    let slices = frag_slices(data, s);
    let len = data.len();
    if k == 0 {
        assert(k * s == 0) by (nonlinear_arith)
            requires
                k == 0,
        ;
        assert(slices.take(0) =~= Seq::<Seq<u8>>::empty());
        assert(data.take(0) =~= Seq::<u8>::empty());
    } else {
        lemma_frag_count_bounds(len, s);
        lemma_concat_prefix(data, s, (k - 1) as nat);
        let prev = ((k - 1) * s) as int;
        assert((k - 1) * s <= (frag_count(len, s) - 1) * s) by {
            lemma_mul_inequality(k - 1, frag_count(len, s) - 1, s as int);
        }
        if len > 0 {
            assert(prev < len);
        } else {
            assert(frag_count(len, s) == 1 && k == 1);
            assert((k - 1) * s == 0) by (nonlinear_arith)
                requires
                    k == 1,
            ;
        }
        let this_end = if k * s < len {
            (k * s) as int
        } else {
            len as int
        };
        assert(k * s == (k - 1) * s + s) by (nonlinear_arith);
        assert(prev <= this_end <= len);
        assert(slices.take(k as int).drop_last() =~= slices.take(k - 1));
        assert(slices.take(k as int).last() == frag_slice(data, s, (k - 1) as nat));
        assert(((k - 1) as nat + 1) * s == k * s);
        assert(frag_slice(data, s, (k - 1) as nat) == data.subrange(prev, this_end));
        assert(concat_frags(slices.take(k - 1)) == data.take(prev));
        assert(data.take(prev) + data.subrange(prev, this_end) =~= data.take(this_end));
        assert(concat_frags(slices.take(k as int)) == concat_frags(slices.take(k - 1))
            + frag_slice(data, s, (k - 1) as nat));
    }
}

} // verus!
