//! The proportional mapper: the forward (paint) mapping that assigns each
//! file of a flattened sequence a size-proportional sub-interval of a linear
//! extent, and the inverse (hit-test) mapping that resolves a linear
//! position back to the file whose interval contains it.
//!
//! All interval arithmetic is exact: a position `p` inside an extent `w`
//! corresponds to the running-size target `total * p / w`, and every
//! comparison is carried out on integer products, never on quotients, so
//! the forward and inverse mappings agree exactly.

use vstd::arithmetic::mul::lemma_mul_inequality;
use vstd::prelude::*;

use crate::flatten::lemma_sum_sizes_nonneg;
use crate::flatten::lemma_sum_take_le;
use crate::flatten::sum_sizes;
use crate::tree::clone_file;
use crate::tree::FileNode;

verus! {

/// Every node of the sequence is a file leaf: the shape of a flattened
/// tree, which is all the mapper ever works on.
pub open spec fn all_files(s: Seq<FileNode>) -> bool {
    forall|i: int| 0 <= i < s.len() ==> (#[trigger] s[i]) is File
}

/// Whether the running size through file `i` reaches the target that a
/// click at `position` of `extent` denotes. The target is the exact
/// rational `total * position / extent`; the comparison is carried out on
/// products so that no rounding is involved.
pub open spec fn hit(files: Seq<FileNode>, total: int, extent: int, position: int, i: int) -> bool {
    sum_sizes(files.take(i + 1)) * extent >= total * position
}

/// The first index at or after `i` whose file is hit, if any.
pub open spec fn first_hit_from(
    files: Seq<FileNode>,
    total: int,
    extent: int,
    position: int,
    i: int,
) -> Option<int>
    decreases files.len() - i,
{
    if i < 0 || i >= files.len() {
        None
    } else if hit(files, total, extent, position, i) {
        Some(i)
    } else {
        first_hit_from(files, total, extent, position, i + 1)
    }
}

/// What the inverse mapping resolves: the first file whose running size
/// reaches the click's target, none when the sequence is exhausted before
/// the target is reached, and none whenever the total or the extent is
/// zero (an empty bar has nothing to hit).
pub open spec fn resolve_spec(
    files: Seq<FileNode>,
    total: int,
    extent: int,
    position: int,
) -> Option<FileNode> {
    if total <= 0 || extent <= 0 {
        None
    } else {
        match first_hit_from(files, total, extent, position, 0) {
            Some(i) => Some(files[i]),
            None => None,
        }
    }
}

/// The lower bound of file `i`'s painted interval, scaled by `total`: the
/// interval of file `i` within the extent is `[seg_lo / total, seg_hi /
/// total)`.
pub open spec fn seg_lo(files: Seq<FileNode>, extent: int, i: int) -> int {
    sum_sizes(files.take(i)) * extent
}

/// The upper bound of file `i`'s painted interval, scaled by `total`.
pub open spec fn seg_hi(files: Seq<FileNode>, extent: int, i: int) -> int {
    sum_sizes(files.take(i + 1)) * extent
}

/// Skipping over misses does not change which file is first hit.
proof fn lemma_first_hit_skip(files: Seq<FileNode>, total: int, extent: int, position: int, i: int)
    requires
        0 <= i <= files.len(),
        forall|j: int| 0 <= j < i ==> !hit(files, total, extent, position, j),
    ensures
        first_hit_from(files, total, extent, position, 0) == first_hit_from(
            files,
            total,
            extent,
            position,
            i,
        ),
    decreases i,
{
    if i > 0 {
        lemma_first_hit_skip(files, total, extent, position, i - 1);
    }
}

/// Resolve a clicked linear `position` within `extent` to the file whose
/// proportional interval contains the click's target, walking the flattened
/// sequence and accumulating sizes: the first file whose running size
/// reaches `total * position / extent` is the one. `None` when the click
/// lands past all content, or when the total or the extent is zero.
pub fn resolve(files: &Vec<FileNode>, total: u64, extent: u64, position: u64) -> (r: Option<
    FileNode,
>)
    requires
        total as int == sum_sizes(files@),
        all_files(files@),
    ensures
        r == resolve_spec(files@, total as int, extent as int, position as int),
{
    if total == 0 || extent == 0 {
        return None;
    }
    proof {
        assert((total as int) * (position as int) <= u128::MAX as int) by (nonlinear_arith)
            requires
                0 <= total as int <= u64::MAX as int,
                0 <= position as int <= u64::MAX as int,
        ;
    }
    let target = (total as u128) * (position as u128);
    let mut acc: u64 = 0;
    let mut i: usize = 0;
    while i < files.len()
        invariant
            total as int == sum_sizes(files@),
            all_files(files@),
            total > 0,
            extent > 0,
            0 <= i <= files.len(),
            acc as int == sum_sizes(files@.take(i as int)),
            target == (total as int) * (position as int),
            forall|j: int|
                0 <= j < i ==> !hit(files@, total as int, extent as int, position as int, j),
        decreases files.len() - i,
    {
        let s = files[i].size();
        proof {
            assert(files@.take(i + 1).drop_last() =~= files@.take(i as int));
            assert(files@.take(i + 1).last() == files@[i as int]);
            lemma_sum_take_le(files@, i + 1, files@.len() as int);
            assert(files@.take(files@.len() as int) =~= files@);
        }
        let acc2 = acc + s;
        proof {
            assert((acc2 as int) * (extent as int) <= u128::MAX as int) by (nonlinear_arith)
                requires
                    0 <= acc2 as int <= u64::MAX as int,
                    0 <= extent as int <= u64::MAX as int,
            ;
        }
        let reach = (acc2 as u128) * (extent as u128);
        if reach >= target {
            proof {
                lemma_first_hit_skip(
                    files@,
                    total as int,
                    extent as int,
                    position as int,
                    i as int,
                );
            }
            return Some(clone_file(&files[i]));
        }
        proof {
            assert(!hit(files@, total as int, extent as int, position as int, i as int));
        }
        acc = acc2;
        i = i + 1;
    }
    proof {
        lemma_first_hit_skip(
            files@,
            total as int,
            extent as int,
            position as int,
            files@.len() as int,
        );
    }
    None
}

/// One painted segment: a file leaf together with the half-open interval it
/// occupies. The bounds are scaled by `total`: the interval within the
/// extent is `[lo / total, hi / total)`, kept as exact numerators so that
/// adjacent segments meet with no gap and no overlap.
pub struct Segment {
    pub file: FileNode,
    pub lo: u128,
    pub hi: u128,
}

/// The forward (paint) mapping: walk the flattened sequence once and give
/// each file the interval proportional to its share of the total. An empty
/// segment list when `total` is zero, so that nothing is drawn and no
/// division by zero can arise.
pub fn paint_segments(files: &Vec<FileNode>, total: u64, extent: u64) -> (segs: Vec<Segment>)
    requires
        total as int == sum_sizes(files@),
        all_files(files@),
    ensures
        total == 0 ==> segs@.len() == 0,
        total > 0 ==> segs@.len() == files@.len(),
        total > 0 ==> forall|i: int|
            0 <= i < files@.len() ==> {
                &&& (#[trigger] segs@[i]).file == files@[i]
                &&& segs@[i].lo as int == seg_lo(files@, extent as int, i)
                &&& segs@[i].hi as int == seg_hi(files@, extent as int, i)
            },
{
    let mut segs: Vec<Segment> = Vec::new();
    if total == 0 {
        return segs;
    }
    let mut acc: u64 = 0;
    let mut i: usize = 0;
    while i < files.len()
        invariant
            total as int == sum_sizes(files@),
            all_files(files@),
            total > 0,
            0 <= i <= files.len(),
            acc as int == sum_sizes(files@.take(i as int)),
            segs@.len() == i,
            forall|j: int|
                0 <= j < i ==> {
                    &&& (#[trigger] segs@[j]).file == files@[j]
                    &&& segs@[j].lo as int == seg_lo(files@, extent as int, j)
                    &&& segs@[j].hi as int == seg_hi(files@, extent as int, j)
                },
        decreases files.len() - i,
    {
        let s = files[i].size();
        proof {
            assert(files@.take(i + 1).drop_last() =~= files@.take(i as int));
            assert(files@.take(i + 1).last() == files@[i as int]);
            lemma_sum_take_le(files@, i + 1, files@.len() as int);
            assert(files@.take(files@.len() as int) =~= files@);
        }
        let acc2 = acc + s;
        proof {
            assert((acc as int) * (extent as int) <= u128::MAX as int && (acc2 as int) * (
            extent as int) <= u128::MAX as int) by (nonlinear_arith)
                requires
                    0 <= acc as int <= u64::MAX as int,
                    0 <= acc2 as int <= u64::MAX as int,
                    0 <= extent as int <= u64::MAX as int,
            ;
        }
        let lo = (acc as u128) * (extent as u128);
        let hi = (acc2 as u128) * (extent as u128);
        segs.push(Segment { file: clone_file(&files[i]), lo, hi });
        acc = acc2;
        i = i + 1;
    }
    segs
}

/// Coverage of the forward mapping: in the scaled coordinates of the
/// painted intervals, the first segment starts at 0, every segment ends
/// exactly where the next one begins, no segment is reversed, and the last
/// segment ends exactly at `total * extent` — position `extent` once the
/// scaling by `total` is divided out. The union of the intervals is
/// therefore exactly `[0, extent]`: no gap and no overlap anywhere.
pub proof fn lemma_coverage(files: Seq<FileNode>, total: int, extent: int)
    requires
        total == sum_sizes(files),
        extent >= 0,
    ensures
        files.len() > 0 ==> seg_lo(files, extent, 0) == 0,
        forall|i: int|
            0 <= i < files.len() - 1 ==> seg_hi(files, extent, i) == seg_lo(files, extent, i + 1),
        files.len() > 0 ==> seg_hi(files, extent, files.len() - 1) == total * extent,
        forall|i: int| 0 <= i < files.len() ==> seg_lo(files, extent, i) <= seg_hi(files, extent, i),
{
    assert(files.take(0) =~= Seq::<FileNode>::empty());
    assert(sum_sizes(Seq::<FileNode>::empty()) == 0);
    assert(files.take(files.len() as int) =~= files);
    assert forall|i: int| 0 <= i < files.len() implies seg_lo(files, extent, i) <= seg_hi(
        files,
        extent,
        i,
    ) by {
        lemma_sum_take_le(files, i, i + 1);
        lemma_mul_inequality(sum_sizes(files.take(i)), sum_sizes(files.take(i + 1)), extent);
    }
}

/// A position whose exact target lies above file `i`'s scaled lower bound
/// and at or below its upper bound resolves to file `i` and to no other.
pub proof fn lemma_resolve_in_segment(
    files: Seq<FileNode>,
    total: int,
    extent: int,
    position: int,
    i: int,
)
    requires
        total > 0,
        extent > 0,
        0 <= i < files.len(),
        seg_lo(files, extent, i) < total * position,
        total * position <= seg_hi(files, extent, i),
    ensures
        resolve_spec(files, total, extent, position) == Some(files[i]),
{
    assert forall|j: int| 0 <= j < i implies !hit(files, total, extent, position, j) by {
        lemma_sum_take_le(files, j + 1, i);
        lemma_mul_inequality(sum_sizes(files.take(j + 1)), sum_sizes(files.take(i)), extent);
    }
    lemma_first_hit_skip(files, total, extent, position, i);
}

/// Hits are invariant under a common rescaling of extent and position.
proof fn lemma_first_hit_scale(
    files: Seq<FileNode>,
    total: int,
    extent: int,
    position: int,
    k: int,
    i: int,
)
    requires
        k > 0,
        0 <= i <= files.len(),
    ensures
        first_hit_from(files, total, k * extent, k * position, i) == first_hit_from(
            files,
            total,
            extent,
            position,
            i,
        ),
    decreases files.len() - i,
{
    if i < files.len() {
        let p = sum_sizes(files.take(i + 1));
        assert((p * (k * extent) >= total * (k * position)) <==> (p * extent >= total * position))
            by (nonlinear_arith)
            requires
                k > 0,
        ;
        lemma_first_hit_scale(files, total, extent, position, k, i + 1);
    }
}

/// Resolution depends only on the fraction `position / extent`: rescaling
/// both by a common positive factor resolves to the same file.
pub proof fn lemma_resolve_scale(
    files: Seq<FileNode>,
    total: int,
    extent: int,
    position: int,
    k: int,
)
    requires
        k > 0,
    ensures
        resolve_spec(files, total, k * extent, k * position) == resolve_spec(
            files,
            total,
            extent,
            position,
        ),
{
    assert((k * extent > 0) <==> (extent > 0)) by (nonlinear_arith)
        requires
            k > 0,
    ;
    if total > 0 && extent > 0 {
        lemma_first_hit_scale(files, total, extent, position, k, 0);
    }
}

/// Forward/inverse round trip: for every file with a nonzero size in a
/// sequence with a nonzero total, resolving the midpoint of the file's
/// painted interval returns that very file. The midpoint `(seg_lo + seg_hi)
/// / 2` need not be a whole position, so position and extent are both
/// scaled: against the extent `2 * total * extent`, the position `seg_lo +
/// seg_hi` denotes exactly the fraction `((seg_lo + seg_hi) / 2) / (total *
/// extent)` — the midpoint of the interval `[seg_lo / total, seg_hi /
/// total)` within `extent` — and by `lemma_resolve_scale` such a common
/// rescaling leaves resolution unchanged. A file of size zero is excluded:
/// its painted interval is empty and has no midpoint of its own.
pub proof fn lemma_round_trip(files: Seq<FileNode>, total: int, extent: int, i: int)
    requires
        total == sum_sizes(files),
        total > 0,
        extent > 0,
        0 <= i < files.len(),
        files[i].size_spec() > 0,
    ensures
        resolve_spec(
            files,
            total,
            2 * total * extent,
            seg_lo(files, extent, i) + seg_hi(files, extent, i),
        ) == Some(files[i]),
{
    let p0 = sum_sizes(files.take(i));
    let p1 = sum_sizes(files.take(i + 1));
    assert(files.take(i + 1).drop_last() =~= files.take(i));
    assert(files.take(i + 1).last() == files[i]);
    assert(p1 == p0 + files[i].size_spec());
    lemma_sum_sizes_nonneg(files.take(i));
    let ext2 = 2 * total * extent;
    let pos2 = p0 * extent + p1 * extent;
    assert(p0 * ext2 < total * pos2) by (nonlinear_arith)
        requires
            ext2 == 2 * total * extent,
            pos2 == p0 * extent + p1 * extent,
            0 <= p0 < p1,
            total > 0,
            extent > 0,
    ;
    assert(total * pos2 <= p1 * ext2) by (nonlinear_arith)
        requires
            ext2 == 2 * total * extent,
            pos2 == p0 * extent + p1 * extent,
            0 <= p0 <= p1,
            total > 0,
            extent > 0,
    ;
    assert(ext2 > 0) by (nonlinear_arith)
        requires
            total > 0,
            extent > 0,
            ext2 == 2 * total * extent,
    ;
    lemma_resolve_in_segment(files, total, ext2, pos2, i);
}

} // verus!
