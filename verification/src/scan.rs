//! The matcher and the scanner.
//!
//! The matcher tests one signature against one offset of a logical image;
//! the scanner runs the matcher over every candidate offset and collects the
//! matching absolute addresses, up to a caller-supplied cap.

use vstd::prelude::*;

use crate::image::LogicalImage;
use crate::sigbyte::SigByte;

verus! {

/// Whether one signature byte accepts one image byte: a wildcard accepts
/// anything, a literal accepts only its own value.
pub open spec fn byte_matches(sb: SigByte, b: u8) -> bool {
    match sb {
        SigByte::Wildcard => true,
        SigByte::Match(v) => v == b,
    }
}

/// Whether `sig` matches `img` at `off`: the whole signature must lie inside
/// the image, and every literal byte must equal the image byte under it.
pub open spec fn matches_at(sig: Seq<SigByte>, img: Seq<u8>, off: int) -> bool {
    &&& 0 <= off
    &&& off + sig.len() <= img.len()
    &&& forall|i: int| 0 <= i < sig.len() ==> byte_matches(sig[i], img[off + i])
}

/// The last candidate offset (exclusive) the scanner examines: one short of
/// the largest offset at which the signature still fits, and none at all when
/// the signature does not fit twice over. The final fitting offset is
/// deliberately left out.
pub open spec fn scan_bound(sig_len: int, img_len: int) -> int {
    if img_len > sig_len {
        img_len - sig_len - 1
    } else {
        0
    }
}

/// The offsets below `n` at which `sig` matches `img`, in increasing order.
pub open spec fn match_offsets(sig: Seq<SigByte>, img: Seq<u8>, n: int) -> Seq<int>
    decreases n,
{
    if n <= 0 {
        Seq::empty()
    } else if matches_at(sig, img, n - 1) {
        match_offsets(sig, img, n - 1).push(n - 1)
    } else {
        match_offsets(sig, img, n - 1)
    }
}

/// How many offsets inside the scanner's range match the signature.
pub open spec fn match_count(sig: Seq<SigByte>, img: Seq<u8>) -> int {
    match_offsets(sig, img, scan_bound(sig.len() as int, img.len() as int)).len() as int
}

/// Every offset collected below `n` lies below `n` and matches; conversely
/// every matching offset below `n` is collected, in increasing order.
pub proof fn lemma_match_offsets(sig: Seq<SigByte>, img: Seq<u8>, n: int)
    ensures
        forall|j: int| 0 <= j < match_offsets(sig, img, n).len()
            ==> 0 <= #[trigger] match_offsets(sig, img, n)[j] < n
                && matches_at(sig, img, match_offsets(sig, img, n)[j]),
        forall|j: int, k: int| 0 <= j < k < match_offsets(sig, img, n).len()
            ==> #[trigger] match_offsets(sig, img, n)[j] < #[trigger] match_offsets(sig, img, n)[k],
    decreases n,
{
    if n > 0 {
        lemma_match_offsets(sig, img, n - 1);
        let prev = match_offsets(sig, img, n - 1);
        let cur = match_offsets(sig, img, n);
        if matches_at(sig, img, n - 1) {
            assert(cur == prev.push(n - 1));
            assert forall|j: int| 0 <= j < cur.len() implies 0 <= cur[j] < n && matches_at(
                sig,
                img,
                cur[j],
            ) by {
                if j < prev.len() {
                    assert(cur[j] == prev[j]);
                } else {
                    assert(cur[j] == n - 1);
                }
            }
            assert forall|j: int, k: int| 0 <= j < k < cur.len() implies cur[j] < cur[k] by {
                if k < prev.len() {
                    assert(cur[j] == prev[j] && cur[k] == prev[k]);
                } else {
                    assert(cur[k] == n - 1);
                    assert(cur[j] == prev[j]);
                    assert(prev[j] < n - 1);
                }
            }
        }
    }
}

/// Extending the counted range never loses a match: the shorter range's
/// offsets are a prefix of the longer range's.
pub proof fn lemma_match_offsets_mono(sig: Seq<SigByte>, img: Seq<u8>, m: int, n: int)
    requires
        m <= n,
    ensures
        match_offsets(sig, img, m).len() <= match_offsets(sig, img, n).len(),
        match_offsets(sig, img, m) == match_offsets(sig, img, n).take(
            match_offsets(sig, img, m).len() as int,
        ),
    decreases n - m,
{
    if m < n {
        lemma_match_offsets_mono(sig, img, m, n - 1);
        assert(match_offsets(sig, img, m) =~= match_offsets(sig, img, n).take(
            match_offsets(sig, img, m).len() as int,
        ));
    } else {
        assert(match_offsets(sig, img, m) =~= match_offsets(sig, img, n).take(
            match_offsets(sig, img, m).len() as int,
        ));
    }
}

/// Tests whether `signature` matches `buffer` at `offset`.
///
/// True exactly when the signature fits inside the buffer at that offset and
/// every literal byte equals the buffer byte under it; wildcard positions
/// always pass. An empty signature matches at every offset inside the buffer.
pub fn sig_matches(signature: &Vec<SigByte>, buffer: &Vec<u8>, offset: u64) -> (r: bool)
    ensures
        r == matches_at(signature@, buffer@, offset as int),
{
    let slen = signature.len();
    let blen = buffer.len();
    if slen > blen {
        return false;
    }
    if offset > (blen - slen) as u64 {
        return false;
    }
    let off = offset as usize;
    let mut index: usize = 0;
    while index < slen
        invariant
            slen == signature@.len(),
            blen == buffer@.len(),
            slen <= blen,
            off == offset as int,
            off + slen <= blen,
            index <= slen,
            forall|i: int| 0 <= i < index ==> byte_matches(signature@[i], buffer@[off + i]),
        decreases slen - index,
    {
        let good = match signature[index] {
            SigByte::Wildcard => true,
            SigByte::Match(value) => value == buffer[off + index],
        };
        if !good {
            return false;
        }
        index += 1;
    }
    true
}

/// An all-wildcard signature matches at every offset at which it fits.
pub proof fn lemma_all_wildcards_match(sig: Seq<SigByte>, img: Seq<u8>, off: int)
    requires
        forall|i: int| 0 <= i < sig.len() ==> sig[i] == SigByte::Wildcard,
        0 <= off,
        off + sig.len() <= img.len(),
    ensures
        matches_at(sig, img, off),
{
}

/// A signature that stopped matching at an offset never matches there again,
/// however it is later extended.
pub proof fn lemma_extension_preserves_mismatch(
    sig: Seq<SigByte>,
    ext: Seq<SigByte>,
    img: Seq<u8>,
    off: int,
)
    requires
        !matches_at(sig, img, off),
    ensures
        !matches_at(sig + ext, img, off),
{
    if matches_at(sig + ext, img, off) {
        assert forall|i: int| 0 <= i < sig.len() implies byte_matches(sig[i], img[off + i]) by {
            assert((sig + ext)[i] == sig[i]);
        }
    }
}

/// Scans the whole image for `signature` and returns the absolute addresses
/// of the first matches found, in increasing order, at most `maxmatches` of
/// them. Fewer than `maxmatches` addresses come back exactly when the range
/// holds fewer matches than that; the scan stops early once the cap is hit.
pub fn find_signature(signature: &Vec<SigByte>, image: &LogicalImage, maxmatches: usize) -> (r: Vec<
    u64,
>)
    requires
        image.wf(),
    ensures
        r@.len() <= maxmatches,
        r@.len() == vstd::math::min(maxmatches as int, match_count(signature@, image.bytes@)),
        forall|j: int| 0 <= j < r@.len()
            ==> r@[j] == image.start + match_offsets(
                signature@,
                image.bytes@,
                scan_bound(signature@.len() as int, image.bytes@.len() as int),
            )[j],
        r@.len() < maxmatches ==> r@.len() == match_count(signature@, image.bytes@),
{
    let ghost bound = scan_bound(signature@.len() as int, image.bytes@.len() as int);
    let mut matches: Vec<u64> = Vec::new();
    if maxmatches == 0 {
        proof {
            lemma_match_offsets_mono(signature@, image.bytes@, 0, bound);
        }
        return matches;
    }
    if image.bytes.len() <= signature.len() {
        return matches;
    }
    let end: usize = image.bytes.len() - signature.len() - 1;
    let mut address: usize = 0;
    while address < end
        invariant
            image.wf(),
            end == bound,
            bound == scan_bound(signature@.len() as int, image.bytes@.len() as int),
            bound <= image.bytes@.len(),
            address <= end,
            maxmatches > 0,
            matches@.len() <= maxmatches,
            matches@.len() == match_offsets(signature@, image.bytes@, address as int).len(),
            matches@.len() < maxmatches,
            forall|j: int| 0 <= j < matches@.len()
                ==> matches@[j] == image.start + match_offsets(
                    signature@,
                    image.bytes@,
                    address as int,
                )[j],
        decreases end - address,
    {
        if sig_matches(signature, &image.bytes, address as u64) {
            proof {
                lemma_match_offsets_mono(signature@, image.bytes@, address + 1, bound);
            }
            matches.push(image.start + address as u64);
            if matches.len() >= maxmatches {
                proof {
                    let prevo = match_offsets(signature@, image.bytes@, address as int);
                    let part = match_offsets(signature@, image.bytes@, address + 1);
                    let full = match_offsets(signature@, image.bytes@, bound);
                    assert(part == prevo.push(address as int));
                    assert(matches@.len() == part.len());
                    assert(part == full.take(part.len() as int));
                    assert(full.len() >= part.len());
                    assert forall|j: int| 0 <= j < matches@.len() implies matches@[j] == image.start
                        + full[j] by {
                        if j < prevo.len() {
                            assert(part[j] == prevo[j]);
                            assert(matches@[j] == image.start + prevo[j]);
                        } else {
                            assert(part[j] == address as int);
                            assert(matches@[j] == image.start + address as int);
                        }
                        assert(part[j] == full.take(part.len() as int)[j]);
                    }
                }
                return matches;
            }
        }
        address += 1;
    }
    proof {
        lemma_match_offsets_mono(signature@, image.bytes@, address as int, bound);
    }
    matches
}

} // verus!
