//! The logical image: one contiguous byte view of a binary's mapped address
//! space, from its lowest mapped address to its highest, with unmapped gaps
//! materialized as zero bytes so that offsets into the buffer stay aligned
//! with true addresses.

use vstd::prelude::*;

verus! {

/// A flat byte buffer standing for the image's address space, anchored at
/// its lowest mapped address. Offsets into `bytes` are `address - start`.
pub struct LogicalImage {
    pub bytes: Vec<u8>,
    pub start: u64,
}

impl LogicalImage {
    /// Every buffer offset must translate back to a representable address.
    pub open spec fn wf(&self) -> bool {
        self.start + self.bytes@.len() <= u64::MAX
    }
}

/// One mapped, readable run of the binary: its lowest address and its raw
/// bytes.
pub struct Segment {
    pub start: u64,
    pub bytes: Vec<u8>,
}

/// The address one past a segment's last byte.
pub open spec fn seg_end(s: Segment) -> int {
    s.start + s.bytes@.len()
}

/// A run of zero bytes of the given length (empty for a negative length).
pub open spec fn zeros(n: int) -> Seq<u8> {
    Seq::new(if n >= 0 { n as nat } else { 0 }, |i: int| 0u8)
}

/// What the segment list must look like: addresses representable, the first
/// segment at or after the image base, and the segments in address order
/// without overlap.
pub open spec fn segs_wf(segs: Seq<Segment>, img_start: int) -> bool {
    &&& forall|k: int| 0 <= k < segs.len() ==> seg_end(#[trigger] segs[k]) <= u64::MAX
    &&& segs.len() > 0 ==> segs[0].start >= img_start
    &&& forall|k: int| 0 <= k < segs.len() - 1 ==> seg_end(#[trigger] segs[k]) <= segs[k + 1].start
}

/// The address a segment list's last segment starts filling from: the end of
/// the segment before it, or the image base when there is none.
pub open spec fn prev_end(segs: Seq<Segment>, img_start: int) -> int {
    if segs.len() <= 1 {
        img_start
    } else {
        seg_end(segs[segs.len() - 2])
    }
}

/// The buffer the reader assembles: each segment's bytes in order, with the
/// gap before each segment filled by zeros, and nothing after the last
/// segment's end.
pub open spec fn built(segs: Seq<Segment>, img_start: int) -> Seq<u8>
    decreases segs.len(),
{
    if segs.len() == 0 {
        Seq::empty()
    } else {
        built(segs.drop_last(), img_start) + zeros(
            segs.last().start - prev_end(segs, img_start),
        ) + segs.last().bytes@
    }
}

/// At most this many segments are assembled; a pathological layout with more
/// has its tail dropped rather than looping without bound.
pub const MAX_SEGMENTS: usize = 1000;

/// How many leading segments the builder uses.
pub open spec fn used_segs(segs: Seq<Segment>) -> int {
    vstd::math::min(segs.len() as int, MAX_SEGMENTS as int)
}

/// Dropping the last segment keeps the list well formed.
proof fn lemma_wf_drop_last(segs: Seq<Segment>, img_start: int)
    requires
        segs_wf(segs, img_start),
        segs.len() > 0,
    ensures
        segs_wf(segs.drop_last(), img_start),
{
    assert(forall|k: int| 0 <= k < segs.len() - 1 ==> segs.drop_last()[k] == segs[k]);
}

/// The built buffer spans the image base up to the last used segment's end.
pub proof fn lemma_built_len(segs: Seq<Segment>, img_start: int)
    requires
        segs_wf(segs, img_start),
    ensures
        built(segs, img_start).len() == if segs.len() == 0 { 0int } else {
            seg_end(segs.last()) - img_start
        },
    decreases segs.len(),
{
    if segs.len() > 0 {
        lemma_wf_drop_last(segs, img_start);
        lemma_built_len(segs.drop_last(), img_start);
        if segs.len() >= 2 {
            assert(segs.drop_last().last() == segs[segs.len() - 2]);
        }
    }
}

/// One byte of one mapped segment lands in the built buffer at its own
/// address's offset.
pub proof fn lemma_built_mapped(segs: Seq<Segment>, img_start: int, k: int, i: int)
    requires
        segs_wf(segs, img_start),
        0 <= k < segs.len(),
        0 <= i < segs[k].bytes@.len(),
    ensures
        0 <= segs[k].start + i - img_start < built(segs, img_start).len(),
        built(segs, img_start)[segs[k].start + i - img_start] == segs[k].bytes@[i],
    decreases segs.len(),
{
    lemma_built_len(segs, img_start);
    lemma_wf_drop_last(segs, img_start);
    let short = segs.drop_last();
    lemma_built_len(short, img_start);
    let prev = built(short, img_start);
    let pe = prev_end(segs, img_start);
    assert(segs.len() >= 2 ==> short.last() == segs[segs.len() - 2]);
    assert(prev.len() == pe - img_start);
    if k == segs.len() - 1 {
        let pos = segs[k].start + i - img_start;
        assert(pos >= prev.len() + zeros(segs[k].start - pe).len());
        assert(built(segs, img_start)[pos] == segs[k].bytes@[i]);
    } else {
        assert(short[k] == segs[k]);
        lemma_built_mapped(short, img_start, k, i);
        lemma_seg_le_prev_end(segs, img_start, k);
        assert(segs[k].start + i - img_start < prev.len());
        assert(built(segs, img_start)[segs[k].start + i - img_start] == prev[segs[k].start + i
            - img_start]);
    }
}

/// A buffer offset no segment covers reads as zero.
pub proof fn lemma_built_zero(segs: Seq<Segment>, img_start: int, j: int)
    requires
        segs_wf(segs, img_start),
        0 <= j < built(segs, img_start).len(),
        forall|k: int|
            0 <= k < segs.len() ==> !(segs[k].start <= img_start + j < seg_end(#[trigger] segs[k])),
    ensures
        built(segs, img_start)[j] == 0,
    decreases segs.len(),
{
    lemma_built_len(segs, img_start);
    if segs.len() > 0 {
        lemma_wf_drop_last(segs, img_start);
        let short = segs.drop_last();
        lemma_built_len(short, img_start);
        let prev = built(short, img_start);
        let pe = prev_end(segs, img_start);
        let last = segs.last();
        assert(segs.len() >= 2 ==> short.last() == segs[segs.len() - 2]);
        assert(prev.len() == pe - img_start);
        if j < prev.len() {
            assert(forall|k: int| 0 <= k < short.len() ==> short[k] == segs[k]);
            lemma_built_zero(short, img_start, j);
            assert(built(segs, img_start)[j] == prev[j]);
        } else if j < prev.len() + zeros(last.start - pe).len() {
            assert(built(segs, img_start)[j] == zeros(last.start - pe)[j - prev.len()]);
        } else {
            assert(last == segs[segs.len() - 1]);
            assert(last.start <= img_start + j < seg_end(last));
        }
    }
}

/// Every earlier segment ends at or before the second-to-last segment's end.
proof fn lemma_seg_le_prev_end(segs: Seq<Segment>, img_start: int, k: int)
    requires
        segs_wf(segs, img_start),
        0 <= k < segs.len() - 1,
    ensures
        seg_end(segs[k]) <= seg_end(segs[segs.len() - 2]),
    decreases segs.len(),
{
    if k < segs.len() - 2 {
        lemma_wf_drop_last(segs, img_start);
        let short = segs.drop_last();
        assert(forall|j: int| 0 <= j < segs.len() - 1 ==> short[j] == segs[j]);
        lemma_seg_le_prev_end(short, img_start, k);
        assert(seg_end(segs[segs.len() - 3]) <= segs[segs.len() - 2].start);
    }
}

/// Assembles the logical image from the mapped segments, in address order:
/// the gap between the image base and the first segment, and between any two
/// segments, is zero-filled, and the buffer ends at the last segment's end.
/// At most [`MAX_SEGMENTS`] segments are used; a longer list has its tail
/// dropped.
#[verifier::rlimit(50)]
pub fn build_logical_image(segments: &Vec<Segment>, image_start: u64) -> (r: LogicalImage)
    requires
        segs_wf(segments@, image_start as int),
    ensures
        r.start == image_start,
        r.wf(),
        r.bytes@ == built(segments@.take(used_segs(segments@)), image_start as int),
        r.bytes@.len() == if used_segs(segments@) == 0 { 0int } else {
            seg_end(segments@[used_segs(segments@) - 1]) - image_start
        },
{
    let count: usize = if segments.len() > MAX_SEGMENTS {
        MAX_SEGMENTS
    } else {
        segments.len()
    };
    let ghost used = segments@.take(count as int);
    proof {
        assert(forall|k: int| 0 <= k < count ==> used[k] == segments@[k]);
        assert(segs_wf(used, image_start as int));
    }
    let mut bytes: Vec<u8> = Vec::new();
    let mut current_end: u64 = image_start;
    let mut k: usize = 0;
    while k < count
        invariant
            segs_wf(segments@, image_start as int),
            count <= segments@.len(),
            count == used_segs(segments@),
            k <= count,
            current_end == if k == 0 { image_start as int } else { seg_end(segments@[k - 1]) },
            image_start <= current_end,
            bytes@ == built(segments@.take(k as int), image_start as int),
            bytes@.len() == current_end - image_start,
        decreases count - k,
    {
        let seg = &segments[k];
        proof {
            if k > 0 {
                assert(seg_end(segments@[k as int - 1]) <= segments@[k as int].start);
            }
        }
        let gap: u64 = seg.start - current_end;
        let ghost base = bytes@;
        let mut g: u64 = 0;
        while g < gap
            invariant
                g <= gap,
                bytes@ == base + zeros(g as int),
            decreases gap - g,
        {
            proof {
                assert((base + zeros(g as int)).push(0u8) =~= base + zeros(g + 1));
            }
            bytes.push(0u8);
            g += 1;
        }
        let ghost mid = bytes@;
        let mut i: usize = 0;
        while i < seg.bytes.len()
            invariant
                i <= seg.bytes@.len(),
                seg == segments@[k as int],
                k < count <= segments@.len(),
                bytes@ == mid + seg.bytes@.take(i as int),
            decreases seg.bytes.len() - i,
        {
            proof {
                assert((mid + seg.bytes@.take(i as int)).push(seg.bytes@[i as int]) =~= mid
                    + seg.bytes@.take(i + 1));
            }
            let b = seg.bytes[i];
            bytes.push(b);
            i += 1;
        }
        proof {
            let t1 = segments@.take(k + 1);
            assert(t1.drop_last() =~= segments@.take(k as int));
            assert(t1.last() == segments@[k as int]);
            assert(seg.bytes@.take(seg.bytes@.len() as int) =~= seg.bytes@);
            if k > 0 {
                assert(t1[t1.len() - 2] == segments@[k - 1]);
            }
            assert(prev_end(t1, image_start as int) == current_end as int);
            assert(bytes@ =~= built(t1, image_start as int));
        }
        current_end = seg.start + seg.bytes.len() as u64;
        k += 1;
    }
    proof {
        assert(used =~= segments@.take(count as int));
        lemma_built_len(used, image_start as int);
        if count > 0 {
            assert(used.last() == segments@[count - 1]);
        }
    }
    LogicalImage { bytes, start: image_start }
}

} // verus!
