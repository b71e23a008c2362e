//! The mathematical model of the skyline contour: contiguity, coverage,
//! and the two structural updates (clipping after an insertion, and merging
//! adjacent runs of equal height), with the lemmas the packer's proofs need.

use crate::rect::ranges_overlap;
use crate::rect::Rect;
use vstd::prelude::*;

verus! {

/// One run of the skyline contour: every canvas column in `[x, x + w)`
/// currently has occupied height `y`.
#[derive(Clone, Copy, Debug, PartialEq, Eq, Structural)]
pub struct Skyline {
    pub x: u32,
    pub y: u32,
    pub w: u32,
}

/// The exclusive right end of a segment's column range.
pub open spec fn seg_end(s: Skyline) -> int {
    s.x + s.w
}

/// The segments tile `[a, b)` without gap or overlap: the first starts at
/// `a`, each next one starts where the previous ends, and the last ends at
/// `b`. An empty sequence tiles only an empty range.
pub open spec fn piece(s: Seq<Skyline>, a: int, b: int) -> bool {
    if s.len() == 0 {
        a == b
    } else {
        &&& s[0].x == a
        &&& (forall|i: int| 1 <= i < s.len() ==> s[i].x == seg_end(s[i - 1]))
        &&& seg_end(s[s.len() - 1]) == b
    }
}

/// The contiguity invariant of a whole contour: at least one segment, and
/// together they tile `[0, max_width)` exactly.
pub open spec fn contiguous(s: Seq<Skyline>, max_width: int) -> bool {
    s.len() >= 1 && piece(s, 0, max_width)
}

/// Every segment height stays within the configured maximum.
pub open spec fn heights_ok(s: Seq<Skyline>, max_height: int) -> bool {
    forall|i: int| 0 <= i < s.len() ==> #[trigger] s[i].y <= max_height
}

/// Whether a segment's column range shares a column with `[lo, hi)`.
pub open spec fn seg_overlaps(s: Skyline, lo: int, hi: int) -> bool {
    ranges_overlap(s.x as int, seg_end(s), lo, hi)
}

/// Every segment that shares a column with `[lo, hi)` has height at least
/// `b`: the columns of `[lo, hi)` are filled up to at least `b`.
pub open spec fn covers(s: Seq<Skyline>, lo: int, hi: int, b: int) -> bool {
    forall|k: int| 0 <= k < s.len() && #[trigger] seg_overlaps(s[k], lo, hi) ==> b <= s[k].y
}

/// No two adjacent segments share a height, so no merge step applies.
pub open spec fn fully_merged(s: Seq<Skyline>) -> bool {
    forall|i: int| 1 <= i < s.len() ==> #[trigger] s[i].y != s[i - 1].y
}

/// The sum of all segment widths.
pub open spec fn widths_sum(s: Seq<Skyline>) -> int
    decreases s.len(),
{
    if s.len() == 0 {
        0
    } else {
        s[0].w + widths_sum(s.skip(1))
    }
}

/// Two adjacent equal-height segments combined into one wider segment.
pub open spec fn join(a: Skyline, b: Skyline) -> Skyline {
    Skyline { x: a.x, y: a.y, w: (a.w + b.w) as u32 }
}

/// The merge step: one scan that combines every run of adjacent segments of
/// equal height into a single wider segment.
pub open spec fn merge_spec(s: Seq<Skyline>) -> Seq<Skyline>
    decreases s.len(),
{
    if s.len() <= 1 {
        s
    } else if s[0].y == s[1].y {
        merge_spec(seq![join(s[0], s[1])] + s.skip(2))
    } else {
        seq![s[0]] + merge_spec(s.skip(1))
    }
}

/// What remains of a tail of the contour once the columns left of `e` are
/// taken by a new segment: fully covered segments disappear, a segment that
/// crosses `e` is shrunk to start at `e`, the rest stay.
pub open spec fn clip(rest: Seq<Skyline>, e: int) -> Seq<Skyline>
    decreases rest.len(),
{
    if rest.len() == 0 {
        rest
    } else if seg_end(rest[0]) <= e {
        clip(rest.skip(1), e)
    } else if rest[0].x < e {
        seq![Skyline { x: e as u32, y: rest[0].y, w: (seg_end(rest[0]) - e) as u32 }] + rest.skip(
            1,
        )
    } else {
        rest
    }
}

/// The segment a committed placement adds to the contour: its newly created
/// top edge.
pub open spec fn raised(r: Rect) -> Skyline {
    Skyline { x: r.x, y: (r.y + r.h) as u32, w: r.w }
}

/// The whole contour after committing `r` at `index`: the prefix is kept,
/// the new top edge is inserted, and the tail is clipped to start where the
/// new segment ends.
pub open spec fn split_seq(s: Seq<Skyline>, index: int, r: Rect) -> Seq<Skyline> {
    s.take(index) + seq![raised(r)] + clip(s.skip(index), r.x + r.w)
}

/// In a chain of adjacent segments, starts and ends are monotone in the
/// index, and distinct segments' ranges are disjoint.
pub proof fn lemma_chain_mono(s: Seq<Skyline>, i: int, j: int)
    requires
        forall|k: int| 1 <= k < s.len() ==> s[k].x == seg_end(s[k - 1]),
        0 <= i <= j < s.len(),
    ensures
        s[i].x <= s[j].x,
        i < j ==> seg_end(s[i]) <= s[j].x,
    decreases j - i,
{
    if i < j {
        lemma_chain_mono(s, i, j - 1);
    }
}

/// Every segment of a tiling of `[a, b)` lies inside `[a, b)`.
pub proof fn lemma_piece_bounds(s: Seq<Skyline>, a: int, b: int, k: int)
    requires
        piece(s, a, b),
        0 <= k < s.len(),
    ensures
        a <= s[k].x,
        seg_end(s[k]) <= b,
{
    lemma_chain_mono(s, 0, k);
    lemma_chain_mono(s, k, s.len() - 1);
}

/// In a tiling of `[a, b)`, every column of `[a, b)` lies in some segment.
pub proof fn lemma_coverage(s: Seq<Skyline>, a: int, b: int, c: int) -> (k: int)
    requires
        piece(s, a, b),
        a <= c < b,
    ensures
        0 <= k < s.len(),
        s[k].x <= c < seg_end(s[k]),
{
    lemma_coverage_from(s, a, b, c, 0)
}

proof fn lemma_coverage_from(s: Seq<Skyline>, a: int, b: int, c: int, k0: int) -> (k: int)
    requires
        piece(s, a, b),
        0 <= k0 < s.len(),
        s[k0].x <= c < b,
    ensures
        k0 <= k < s.len(),
        s[k].x <= c < seg_end(s[k]),
    decreases s.len() - k0,
{
    if c < seg_end(s[k0]) {
        k0
    } else {
        assert(k0 < s.len() - 1) by {
            if k0 == s.len() - 1 {
                assert(seg_end(s[k0]) == b);
            }
        }
        lemma_coverage_from(s, a, b, c, k0 + 1)
    }
}

/// The widths of a tiling of `[a, b)` sum to the width of the range.
pub proof fn lemma_piece_widths_sum(s: Seq<Skyline>, a: int, b: int)
    requires
        piece(s, a, b),
    ensures
        widths_sum(s) == b - a,
    decreases s.len(),
{
    if s.len() == 0 {
    } else {
        let t = s.skip(1);
        assert(piece(t, seg_end(s[0]), b)) by {
            if t.len() > 0 {
                assert forall|i: int| 1 <= i < t.len() implies #[trigger] t[i].x == seg_end(
                    t[i - 1],
                ) by {
                    assert(t[i] == s[i + 1] && t[i - 1] == s[i]);
                }
                assert(t[t.len() - 1] == s[s.len() - 1]);
            }
        }
        lemma_piece_widths_sum(t, seg_end(s[0]), b);
    }
}

/// The contiguity invariant in the words of the interface: segments are
/// sorted by `x`, each ends exactly where the next begins, and the widths
/// sum to the configured maximum width.
pub proof fn lemma_contiguity(s: Seq<Skyline>, max_width: int)
    requires
        contiguous(s, max_width),
    ensures
        forall|i: int, j: int| 0 <= i <= j < s.len() ==> s[i].x <= s[j].x,
        forall|i: int| 1 <= i < s.len() ==> s[i].x == seg_end(s[i - 1]),
        widths_sum(s) == max_width,
{
    assert forall|i: int, j: int| 0 <= i <= j < s.len() implies s[i].x <= s[j].x by {
        lemma_chain_mono(s, i, j);
    }
    lemma_piece_widths_sum(s, 0, max_width);
}

/// Dropping the first segment of a tiling leaves a tiling of the rest of the
/// range.
pub proof fn lemma_piece_skip(s: Seq<Skyline>, a: int, b: int)
    requires
        piece(s, a, b),
        s.len() >= 1,
    ensures
        piece(s.skip(1), seg_end(s[0]), b),
{
    let t = s.skip(1);
    if t.len() > 0 {
        assert forall|i: int| 1 <= i < t.len() implies #[trigger] t[i].x == seg_end(t[i - 1]) by {
            assert(t[i] == s[i + 1] && t[i - 1] == s[i]);
        }
        assert(t[0] == s[1]);
        assert(t[t.len() - 1] == s[s.len() - 1]);
    }
}

/// A prefix of a tiling tiles the range up to the first kept-out segment.
pub proof fn lemma_piece_take(s: Seq<Skyline>, a: int, b: int, n: int)
    requires
        piece(s, a, b),
        0 <= n < s.len(),
    ensures
        piece(s.take(n), a, s[n].x as int),
{
    let t = s.take(n);
    if n > 0 {
        assert forall|i: int| 1 <= i < t.len() implies #[trigger] t[i].x == seg_end(t[i - 1]) by {
            assert(t[i] == s[i] && t[i - 1] == s[i - 1]);
        }
        assert(t[t.len() - 1] == s[n - 1]);
    }
}

/// A suffix of a tiling tiles the range from its first segment on.
pub proof fn lemma_piece_skip_n(s: Seq<Skyline>, a: int, b: int, n: int)
    requires
        piece(s, a, b),
        0 <= n < s.len(),
    ensures
        piece(s.skip(n), s[n].x as int, b),
{
    let t = s.skip(n);
    assert forall|i: int| 1 <= i < t.len() implies #[trigger] t[i].x == seg_end(t[i - 1]) by {
        assert(t[i] == s[i + n] && t[i - 1] == s[i + n - 1]);
    }
    assert(t[0] == s[n]);
    assert(t[t.len() - 1] == s[s.len() - 1]);
}

/// Two tilings of adjacent ranges concatenate to a tiling of the union.
pub proof fn lemma_piece_concat(p: Seq<Skyline>, q: Seq<Skyline>, a: int, m: int, b: int)
    requires
        piece(p, a, m),
        piece(q, m, b),
    ensures
        piece(p + q, a, b),
{
    let t = p + q;
    if t.len() > 0 {
        if p.len() == 0 {
            assert(t =~= q);
        } else if q.len() == 0 {
            assert(t =~= p);
        } else {
            assert forall|i: int| 1 <= i < t.len() implies #[trigger] t[i].x == seg_end(
                t[i - 1],
            ) by {
                if i < p.len() {
                    assert(t[i] == p[i] && t[i - 1] == p[i - 1]);
                } else if i == p.len() {
                    assert(t[i] == q[0] && t[i - 1] == p[p.len() - 1]);
                } else {
                    assert(t[i] == q[i - p.len()] && t[i - 1] == q[i - p.len() - 1]);
                }
            }
            assert(t[0] == p[0]);
            assert(t[t.len() - 1] == q[q.len() - 1]);
        }
    }
}

/// Merging never loses the first segment's position or height.
pub proof fn lemma_merge_first(s: Seq<Skyline>)
    requires
        s.len() >= 1,
    ensures
        merge_spec(s).len() >= 1,
        merge_spec(s)[0].x == s[0].x,
        merge_spec(s)[0].y == s[0].y,
    decreases s.len(),
{
    if s.len() <= 1 {
    } else if s[0].y == s[1].y {
        let t = seq![join(s[0], s[1])] + s.skip(2);
        lemma_merge_first(t);
    } else {
        lemma_merge_first(s.skip(1));
    }
}

/// Merging a tiling of `[a, b)` yields a tiling of `[a, b)`.
pub proof fn lemma_merge_piece(s: Seq<Skyline>, a: int, b: int)
    requires
        piece(s, a, b),
        0 <= a,
        b <= u32::MAX,
    ensures
        piece(merge_spec(s), a, b),
    decreases s.len(),
{
    if s.len() <= 1 {
    } else if s[0].y == s[1].y {
        let t = seq![join(s[0], s[1])] + s.skip(2);
        assert(piece(t, a, b)) by {
            lemma_piece_bounds(s, a, b, 1);
            assert(seg_end(join(s[0], s[1])) == seg_end(s[1]));
            assert forall|i: int| 1 <= i < t.len() implies #[trigger] t[i].x == seg_end(
                t[i - 1],
            ) by {
                assert(t[i] == s[i + 1]);
                if i >= 2 {
                    assert(t[i - 1] == s[i]);
                }
            }
            if s.len() > 2 {
                assert(t[t.len() - 1] == s[s.len() - 1]);
            }
        }
        lemma_merge_piece(t, a, b);
    } else {
        lemma_piece_skip(s, a, b);
        lemma_merge_piece(s.skip(1), seg_end(s[0]), b);
        let m = merge_spec(s.skip(1));
        let r = seq![s[0]] + m;
        assert(piece(r, a, b)) by {
            if s.len() == 2 && m.len() == 0 {
            } else {
                lemma_merge_first(s.skip(1));
                assert forall|i: int| 1 <= i < r.len() implies #[trigger] r[i].x == seg_end(
                    r[i - 1],
                ) by {
                    assert(r[i] == m[i - 1]);
                    if i >= 2 {
                        assert(r[i - 1] == m[i - 2]);
                    }
                }
                assert(r[r.len() - 1] == m[m.len() - 1]);
            }
        }
    }
}

/// Merging keeps every height that was below the bound below the bound.
pub proof fn lemma_merge_heights(s: Seq<Skyline>, max_height: int)
    requires
        heights_ok(s, max_height),
    ensures
        heights_ok(merge_spec(s), max_height),
    decreases s.len(),
{
    if s.len() <= 1 {
    } else if s[0].y == s[1].y {
        let t = seq![join(s[0], s[1])] + s.skip(2);
        assert(heights_ok(t, max_height)) by {
            assert forall|i: int| 0 <= i < t.len() implies #[trigger] t[i].y <= max_height by {
                if i >= 1 {
                    assert(t[i] == s[i + 1]);
                }
            }
        }
        lemma_merge_heights(t, max_height);
    } else {
        assert(heights_ok(s.skip(1), max_height)) by {
            assert forall|i: int| 0 <= i < s.skip(1).len() implies #[trigger] s.skip(1)[i].y
                <= max_height by {
                assert(s.skip(1)[i] == s[i + 1]);
            }
        }
        lemma_merge_heights(s.skip(1), max_height);
    }
}

/// Merging a tiling keeps every coverage fact: if all columns of `[lo, hi)`
/// were filled up to `bd`, they still are.
pub proof fn lemma_merge_covers(s: Seq<Skyline>, a: int, b: int, lo: int, hi: int, bd: int)
    requires
        piece(s, a, b),
        0 <= a,
        b <= u32::MAX,
        covers(s, lo, hi, bd),
    ensures
        covers(merge_spec(s), lo, hi, bd),
    decreases s.len(),
{
    if s.len() <= 1 {
    } else if s[0].y == s[1].y {
        let t = seq![join(s[0], s[1])] + s.skip(2);
        assert(piece(t, a, b)) by {
            lemma_piece_bounds(s, a, b, 1);
            assert(seg_end(join(s[0], s[1])) == seg_end(s[1]));
            assert forall|i: int| 1 <= i < t.len() implies #[trigger] t[i].x == seg_end(
                t[i - 1],
            ) by {
                assert(t[i] == s[i + 1]);
                if i >= 2 {
                    assert(t[i - 1] == s[i]);
                }
            }
            if s.len() > 2 {
                assert(t[t.len() - 1] == s[s.len() - 1]);
            }
        }
        assert(covers(t, lo, hi, bd)) by {
            assert forall|k: int|
                0 <= k < t.len() && #[trigger] seg_overlaps(t[k], lo, hi) implies bd <= t[k].y by {
                if k == 0 {
                    let j = join(s[0], s[1]);
                    lemma_piece_bounds(s, a, b, 1);
                    assert(seg_end(j) == seg_end(s[1]));
                    if seg_overlaps(s[0], lo, hi) {
                        assert(bd <= s[0].y);
                    } else {
                        assert(seg_overlaps(s[1], lo, hi));
                        assert(bd <= s[1].y);
                    }
                } else {
                    assert(t[k] == s[k + 1]);
                    assert(seg_overlaps(s[k + 1], lo, hi));
                }
            }
        }
        lemma_merge_covers(t, a, b, lo, hi, bd);
    } else {
        lemma_piece_skip(s, a, b);
        assert(covers(s.skip(1), lo, hi, bd)) by {
            assert forall|k: int|
                0 <= k < s.skip(1).len() && #[trigger] seg_overlaps(s.skip(1)[k], lo, hi) implies bd
                <= s.skip(1)[k].y by {
                assert(s.skip(1)[k] == s[k + 1]);
                assert(seg_overlaps(s[k + 1], lo, hi));
            }
        }
        lemma_merge_covers(s.skip(1), seg_end(s[0]), b, lo, hi, bd);
        let m = merge_spec(s.skip(1));
        assert forall|k: int|
            0 <= k < (seq![s[0]] + m).len() && #[trigger] seg_overlaps(
                (seq![s[0]] + m)[k],
                lo,
                hi,
            ) implies bd <= (seq![s[0]] + m)[k].y by {
            if k == 0 {
                assert(seg_overlaps(s[0], lo, hi));
            } else {
                assert((seq![s[0]] + m)[k] == m[k - 1]);
                assert(seg_overlaps(m[k - 1], lo, hi));
            }
        }
    }
}

/// One merge step at the front: equal heights combine.
pub proof fn lemma_merge_step_join(last: Skyline, rest: Seq<Skyline>)
    requires
        rest.len() >= 1,
        last.y == rest[0].y,
    ensures
        merge_spec(seq![last] + rest) == merge_spec(seq![join(last, rest[0])] + rest.skip(1)),
{
    let c = seq![last] + rest;
    assert(c[0] == last && c[1] == rest[0]);
    assert(c.skip(2) =~= rest.skip(1));
    assert(seq![join(c[0], c[1])] + c.skip(2) =~= seq![join(last, rest[0])] + rest.skip(1));
}

/// One merge step at the front: unequal heights keep the first segment.
pub proof fn lemma_merge_step_keep(last: Skyline, rest: Seq<Skyline>)
    requires
        rest.len() >= 1,
        last.y != rest[0].y,
    ensures
        merge_spec(seq![last] + rest) == seq![last] + merge_spec(rest),
{
    let c = seq![last] + rest;
    assert(c[0] == last && c[1] == rest[0]);
    assert(c.skip(1) =~= rest);
}

/// Replacing two adjacent segments of a tiling by their join leaves a
/// tiling of the same range.
pub proof fn lemma_piece_join_at(c: Seq<Skyline>, n: int, a: int, b: int)
    requires
        piece(c, a, b),
        1 <= n < c.len(),
        0 <= a,
        b <= u32::MAX,
    ensures
        piece(c.take(n - 1) + (seq![join(c[n - 1], c[n])] + c.skip(n + 1)), a, b),
{
    let j = join(c[n - 1], c[n]);
    let r = c.take(n - 1) + (seq![j] + c.skip(n + 1));
    lemma_piece_bounds(c, a, b, n);
    lemma_piece_bounds(c, a, b, n - 1);
    assert(c[n].x == seg_end(c[n - 1]));
    assert(seg_end(j) == seg_end(c[n]));
    assert(r[0] == if n == 1 {
        j
    } else {
        c[0]
    });
    assert forall|i: int| 1 <= i < r.len() implies #[trigger] r[i].x == seg_end(r[i - 1]) by {
        if i < n - 1 {
            assert(r[i] == c[i] && r[i - 1] == c[i - 1]);
        } else if i == n - 1 {
            assert(r[i] == j && r[i - 1] == c[i - 1]);
        } else {
            assert(r[i] == c[i + 1]);
            if i == n {
                assert(r[i - 1] == j);
            } else {
                assert(r[i - 1] == c[i]);
            }
        }
    }
    assert(r[r.len() - 1] == if n == c.len() - 1 {
        j
    } else {
        c[c.len() - 1]
    });
}

/// One step of the merging scan when the incoming segment matches the last
/// height gathered so far: the two combine in place, and the scan's claims
/// carry over.
#[verifier::rlimit(60)]
pub proof fn lemma_merge_scan_join(outv: Seq<Skyline>, s0: Seq<Skyline>, i: int, mw: int)
    requires
        outv.len() >= 1,
        0 <= i < s0.len(),
        0 <= mw <= u32::MAX,
        piece(outv + s0.skip(i), 0, mw),
        outv.last().y == s0[i].y,
        merge_spec(s0) == outv.take(outv.len() - 1) + merge_spec(seq![outv.last()] + s0.skip(i)),
    ensures
        ({
            let out2 = outv.update(outv.len() - 1, join(outv.last(), s0[i]));
            &&& outv.last().w + s0[i].w <= u32::MAX
            &&& s0[i].x == seg_end(outv.last())
            &&& piece(out2 + s0.skip(i + 1), 0, mw)
            &&& merge_spec(s0) == out2.take(out2.len() - 1) + merge_spec(
                seq![out2.last()] + s0.skip(i + 1),
            )
        }),
{
    let n = outv.len() as int;
    let c = outv + s0.skip(i);
    let last = outv.last();
    assert(c[n - 1] == last);
    assert(s0.skip(i)[0] == s0[i]);
    assert(c[n] == s0[i]);
    assert(s0.skip(i).skip(1) =~= s0.skip(i + 1));
    assert(s0[i].x == seg_end(c[n - 1]));
    lemma_piece_bounds(c, 0, mw, n);
    assert(last.w + s0[i].w <= u32::MAX);
    lemma_merge_step_join(last, s0.skip(i));
    lemma_piece_join_at(c, n, 0, mw);
    let out2 = outv.update(n - 1, join(last, s0[i]));
    assert(out2.take(n - 1) =~= c.take(n - 1));
    assert(out2.take(n - 1) =~= outv.take(n - 1));
    assert(out2.last() == join(last, s0[i]));
    assert(out2 + s0.skip(i + 1) =~= c.take(n - 1) + (seq![join(c[n - 1], c[n])] + c.skip(n + 1)));
    assert(seq![out2.last()] + s0.skip(i + 1) =~= seq![join(last, s0[i])] + s0.skip(i).skip(1));
}

/// One step of the merging scan when the incoming segment has a new height:
/// it is kept as the next gathered segment, and the scan's claims carry
/// over.
#[verifier::rlimit(60)]
pub proof fn lemma_merge_scan_keep(outv: Seq<Skyline>, s0: Seq<Skyline>, i: int, mw: int)
    requires
        outv.len() >= 1,
        0 <= i < s0.len(),
        0 <= mw <= u32::MAX,
        piece(outv + s0.skip(i), 0, mw),
        outv.last().y != s0[i].y,
        merge_spec(s0) == outv.take(outv.len() - 1) + merge_spec(seq![outv.last()] + s0.skip(i)),
    ensures
        ({
            let out2 = outv.push(s0[i]);
            &&& piece(out2 + s0.skip(i + 1), 0, mw)
            &&& merge_spec(s0) == out2.take(out2.len() - 1) + merge_spec(
                seq![out2.last()] + s0.skip(i + 1),
            )
        }),
{
    let n = outv.len() as int;
    let c = outv + s0.skip(i);
    let last = outv.last();
    assert(c[n - 1] == last);
    assert(s0.skip(i)[0] == s0[i]);
    assert(c[n] == s0[i]);
    assert(s0.skip(i).skip(1) =~= s0.skip(i + 1));
    lemma_merge_step_keep(last, s0.skip(i));
    let out2 = outv.push(s0[i]);
    assert(out2 + s0.skip(i + 1) =~= c);
    assert(out2.take(out2.len() - 1) =~= c.take(n).take(n - 1) + seq![last]);
    assert(c.take(n).take(n - 1) =~= c.take(n - 1));
    assert(c.take(n - 1) =~= outv.take(n - 1));
    assert(out2.take(out2.len() - 1) =~= outv.take(n - 1) + seq![last]);
    assert(out2.last() == s0[i]);
    assert(seq![out2.last()] + s0.skip(i + 1) =~= s0.skip(i));
    assert(outv.take(n - 1) + seq![last] + merge_spec(s0.skip(i)) =~= outv.take(n - 1) + (seq![
        last,
    ] + merge_spec(s0.skip(i))));
}

/// The merged contour has no two adjacent segments of equal height.
pub proof fn lemma_merge_fully_merged(s: Seq<Skyline>)
    ensures
        fully_merged(merge_spec(s)),
    decreases s.len(),
{
    if s.len() <= 1 {
    } else if s[0].y == s[1].y {
        lemma_merge_fully_merged(seq![join(s[0], s[1])] + s.skip(2));
    } else {
        lemma_merge_fully_merged(s.skip(1));
        let m = merge_spec(s.skip(1));
        let r = seq![s[0]] + m;
        assert forall|i: int| 1 <= i < r.len() implies #[trigger] r[i].y != r[i - 1].y by {
            assert(r[i] == m[i - 1]);
            if i == 1 {
                lemma_merge_first(s.skip(1));
                assert(m[0].y == s.skip(1)[0].y);
                assert(s.skip(1)[0] == s[1]);
            } else {
                assert(r[i - 1] == m[i - 2]);
            }
        }
    }
}

/// A contour with no two adjacent equal heights is left unchanged by the
/// merge step.
pub proof fn lemma_merge_id(s: Seq<Skyline>)
    requires
        fully_merged(s),
    ensures
        merge_spec(s) == s,
    decreases s.len(),
{
    if s.len() <= 1 {
    } else {
        assert(s[1].y != s[0].y);
        assert(fully_merged(s.skip(1))) by {
            assert forall|i: int| 1 <= i < s.skip(1).len() implies #[trigger] s.skip(1)[i].y != s.skip(
                1,
            )[i - 1].y by {
                assert(s.skip(1)[i] == s[i + 1] && s.skip(1)[i - 1] == s[i]);
            }
        }
        lemma_merge_id(s.skip(1));
        assert(seq![s[0]] + s.skip(1) =~= s);
    }
}

/// Applying the merge step twice in succession yields the same contour as
/// applying it once.
pub proof fn lemma_merge_stable(s: Seq<Skyline>)
    ensures
        merge_spec(merge_spec(s)) == merge_spec(s),
{
    lemma_merge_fully_merged(s);
    lemma_merge_id(merge_spec(s));
}

/// Clipping a tiling of `[a, b)` at `e` leaves a tiling of `[e, b)`.
pub proof fn lemma_clip_piece(rest: Seq<Skyline>, a: int, b: int, e: int)
    requires
        piece(rest, a, b),
        0 <= a <= e <= b,
        b <= u32::MAX,
    ensures
        piece(clip(rest, e), e, b),
    decreases rest.len(),
{
    if rest.len() == 0 {
    } else if seg_end(rest[0]) <= e {
        lemma_piece_skip(rest, a, b);
        lemma_clip_piece(rest.skip(1), seg_end(rest[0]), b, e);
    } else if rest[0].x < e {
        let shr = Skyline { x: e as u32, y: rest[0].y, w: (seg_end(rest[0]) - e) as u32 };
        let r = seq![shr] + rest.skip(1);
        assert(seg_end(shr) == seg_end(rest[0]));
        assert forall|i: int| 1 <= i < r.len() implies #[trigger] r[i].x == seg_end(r[i - 1]) by {
            assert(r[i] == rest[i]);
            if i >= 2 {
                assert(r[i - 1] == rest[i - 1]);
            }
        }
        if rest.len() >= 2 {
            assert(r[r.len() - 1] == rest[rest.len() - 1]);
        }
    } else {
    }
}

/// Clipping keeps every coverage fact of the clipped tail.
pub proof fn lemma_clip_covers(rest: Seq<Skyline>, a: int, b: int, e: int, lo: int, hi: int, bd: int)
    requires
        piece(rest, a, b),
        0 <= a,
        b <= u32::MAX,
        covers(rest, lo, hi, bd),
    ensures
        covers(clip(rest, e), lo, hi, bd),
    decreases rest.len(),
{
    if rest.len() == 0 {
    } else if seg_end(rest[0]) <= e {
        lemma_piece_skip(rest, a, b);
        assert(covers(rest.skip(1), lo, hi, bd)) by {
            assert forall|k: int|
                0 <= k < rest.skip(1).len() && #[trigger] seg_overlaps(
                    rest.skip(1)[k],
                    lo,
                    hi,
                ) implies bd <= rest.skip(1)[k].y by {
                assert(rest.skip(1)[k] == rest[k + 1]);
                assert(seg_overlaps(rest[k + 1], lo, hi));
            }
        }
        lemma_clip_covers(rest.skip(1), seg_end(rest[0]), b, e, lo, hi, bd);
    } else if rest[0].x < e {
        lemma_piece_bounds(rest, a, b, 0);
        let shr = Skyline { x: e as u32, y: rest[0].y, w: (seg_end(rest[0]) - e) as u32 };
        let r = seq![shr] + rest.skip(1);
        assert forall|k: int|
            0 <= k < r.len() && #[trigger] seg_overlaps(r[k], lo, hi) implies bd <= r[k].y by {
            if k == 0 {
                assert(seg_overlaps(rest[0], lo, hi));
            } else {
                assert(r[k] == rest[k]);
                assert(seg_overlaps(rest[k], lo, hi));
            }
        }
    } else {
    }
}

/// What committing a placement does to a well-formed contour: the contour
/// stays a tiling with bounded heights, the placement's columns are filled
/// up to its bottom edge, and every coverage fact that clears the new top
/// edge (or misses its columns) survives.
pub proof fn lemma_commit_facts(s0: Seq<Skyline>, mw: int, mh: int, i: int, rect: Rect)
    requires
        contiguous(s0, mw),
        heights_ok(s0, mh),
        0 <= mw <= u32::MAX,
        mh <= u32::MAX,
        0 <= i < s0.len(),
        rect.x == s0[i].x,
        rect.x + rect.w <= mw,
        rect.y + rect.h <= mh,
    ensures
        contiguous(split_seq(s0, i, rect), mw),
        contiguous(merge_spec(split_seq(s0, i, rect)), mw),
        heights_ok(merge_spec(split_seq(s0, i, rect)), mh),
        covers(
            merge_spec(split_seq(s0, i, rect)),
            rect.x as int,
            rect.x + rect.w,
            rect.y + rect.h,
        ),
        forall|lo: int, hi: int, bd: int|
            #[trigger] covers(s0, lo, hi, bd) && (bd <= rect.y + rect.h || !ranges_overlap(
                lo,
                hi,
                rect.x as int,
                rect.x + rect.w,
            )) ==> covers(merge_spec(split_seq(s0, i, rect)), lo, hi, bd),
{
    let e = rect.x + rect.w as int;
    let bot = rect.y + rect.h as int;
    let s1 = split_seq(s0, i, rect);
    let cl = clip(s0.skip(i), e);
    lemma_piece_take(s0, 0, mw, i);
    lemma_piece_skip_n(s0, 0, mw, i);
    lemma_clip_piece(s0.skip(i), s0[i].x as int, mw, e);
    assert(piece(seq![raised(rect)], rect.x as int, e));
    lemma_piece_concat(s0.take(i), seq![raised(rect)], 0, rect.x as int, e);
    lemma_piece_concat(s0.take(i) + seq![raised(rect)], cl, 0, e, mw);
    assert(piece(s1, 0, mw));
    assert(heights_ok(s0.skip(i), mh)) by {
        assert forall|k: int| 0 <= k < s0.skip(i).len() implies #[trigger] s0.skip(i)[k].y
            <= mh by {
            assert(s0.skip(i)[k] == s0[k + i]);
        }
    }
    lemma_clip_heights(s0.skip(i), e, mh);
    assert(heights_ok(s1, mh)) by {
        assert forall|k: int| 0 <= k < s1.len() implies #[trigger] s1[k].y <= mh by {
            if k < i {
                assert(s1[k] == s0[k]);
            } else if k == i {
                assert(s1[k] == raised(rect));
            } else {
                assert(s1[k] == cl[k - i - 1]);
            }
        }
    }
    assert(covers(s1, rect.x as int, e, bot)) by {
        assert forall|k: int|
            0 <= k < s1.len() && #[trigger] seg_overlaps(s1[k], rect.x as int, e) implies bot
            <= s1[k].y by {
            if k < i {
                assert(s1[k] == s0[k]);
                lemma_chain_mono(s0, k, i);
                assert(false);
            } else if k == i {
                assert(s1[k] == raised(rect));
            } else {
                assert(s1[k] == cl[k - i - 1]);
                lemma_piece_bounds(cl, e, mw, k - i - 1);
                assert(false);
            }
        }
    }
    assert forall|lo: int, hi: int, bd: int|
        #[trigger] covers(s0, lo, hi, bd) && (bd <= bot || !ranges_overlap(
            lo,
            hi,
            rect.x as int,
            e,
        )) implies covers(s1, lo, hi, bd) by {
        assert(covers(s0.skip(i), lo, hi, bd)) by {
            assert forall|k: int|
                0 <= k < s0.skip(i).len() && #[trigger] seg_overlaps(
                    s0.skip(i)[k],
                    lo,
                    hi,
                ) implies bd <= s0.skip(i)[k].y by {
                assert(s0.skip(i)[k] == s0[k + i]);
                assert(seg_overlaps(s0[k + i], lo, hi));
            }
        }
        lemma_clip_covers(s0.skip(i), s0[i].x as int, mw, e, lo, hi, bd);
        assert forall|k: int|
            0 <= k < s1.len() && #[trigger] seg_overlaps(s1[k], lo, hi) implies bd <= s1[k].y by {
            if k < i {
                assert(s1[k] == s0[k]);
                assert(seg_overlaps(s0[k], lo, hi));
            } else if k == i {
                assert(s1[k] == raised(rect));
            } else {
                assert(s1[k] == cl[k - i - 1]);
                assert(seg_overlaps(cl[k - i - 1], lo, hi));
            }
        }
    }
    lemma_merge_piece(s1, 0, mw);
    lemma_merge_first(s1);
    lemma_merge_heights(s1, mh);
    lemma_merge_covers(s1, 0, mw, rect.x as int, e, bot);
    assert forall|lo: int, hi: int, bd: int|
        #[trigger] covers(s0, lo, hi, bd) && (bd <= bot || !ranges_overlap(
            lo,
            hi,
            rect.x as int,
            e,
        )) implies covers(merge_spec(s1), lo, hi, bd) by {
        lemma_merge_covers(s1, 0, mw, lo, hi, bd);
    }
}

/// The index of the segment on which a run of `left` columns, starting at
/// segment `i`'s left edge, ends: the first segment, walking right from `i`,
/// whose width absorbs what is still left of the run.
pub open spec fn fit_end(s: Seq<Skyline>, i: int, left: int) -> int
    decreases s.len() - i,
    when 0 <= i < s.len()
{
    if s[i].w >= left {
        i
    } else if i + 1 < s.len() {
        fit_end(s, i + 1, left - s[i].w)
    } else {
        i
    }
}

/// The maximum height among segments `i..=j`.
pub open spec fn seg_max_y(s: Seq<Skyline>, i: int, j: int) -> int
    decreases j - i,
    when i <= j
{
    if j <= i {
        s[i].y as int
    } else if s[j].y as int > seg_max_y(s, i, j - 1) {
        s[j].y as int
    } else {
        seg_max_y(s, i, j - 1)
    }
}

/// Where the run ends in a tiling: the run is absorbed within the contour,
/// every earlier touched segment ends strictly inside the run, and the end
/// segment reaches the run's right edge.
pub proof fn lemma_fit_end_props(s: Seq<Skyline>, a: int, b: int, i: int, left: int)
    requires
        piece(s, a, b),
        0 <= i < s.len(),
        s[i].x + left <= b,
    ensures
        i <= fit_end(s, i, left) < s.len(),
        seg_end(s[fit_end(s, i, left)]) >= s[i].x + left,
        forall|k: int| i <= k < fit_end(s, i, left) ==> seg_end(s[k]) < s[i].x + left,
    decreases s.len() - i,
{
    if s[i].w >= left {
    } else {
        assert(i + 1 < s.len()) by {
            if i == s.len() - 1 {
                assert(seg_end(s[i]) == b);
            }
        }
        lemma_fit_end_props(s, a, b, i + 1, left - s[i].w);
    }
}

/// Every segment in `i..=j` is at most the maximum over `i..=j`.
pub proof fn lemma_seg_max_in(s: Seq<Skyline>, i: int, j: int, k: int)
    requires
        i <= k <= j,
    ensures
        s[k].y <= seg_max_y(s, i, j),
    decreases j - i,
{
    if k < j {
        lemma_seg_max_in(s, i, j - 1, k);
    }
}

/// Extending the range can only raise the maximum.
pub proof fn lemma_seg_max_mono(s: Seq<Skyline>, i: int, j1: int, j2: int)
    requires
        i <= j1 <= j2,
    ensures
        seg_max_y(s, i, j1) <= seg_max_y(s, i, j2),
    decreases j2 - j1,
{
    if j1 < j2 {
        lemma_seg_max_mono(s, i, j1, j2 - 1);
    }
}

/// A bound on every segment of `i..=j` bounds their maximum.
pub proof fn lemma_seg_max_le(s: Seq<Skyline>, i: int, j: int, bound: int)
    requires
        i <= j,
        forall|k: int| i <= k <= j ==> #[trigger] s[k].y <= bound,
    ensures
        seg_max_y(s, i, j) <= bound,
    decreases j - i,
{
    if i < j {
        lemma_seg_max_le(s, i, j - 1, bound);
    }
}

/// Clipping keeps every height bound of the clipped tail.
pub proof fn lemma_clip_heights(rest: Seq<Skyline>, e: int, max_height: int)
    requires
        heights_ok(rest, max_height),
    ensures
        heights_ok(clip(rest, e), max_height),
    decreases rest.len(),
{
    if rest.len() == 0 {
    } else if seg_end(rest[0]) <= e {
        assert(heights_ok(rest.skip(1), max_height)) by {
            assert forall|k: int| 0 <= k < rest.skip(1).len() implies #[trigger] rest.skip(1)[k].y
                <= max_height by {
                assert(rest.skip(1)[k] == rest[k + 1]);
            }
        }
        lemma_clip_heights(rest.skip(1), e, max_height);
    } else if rest[0].x < e {
        let shr = Skyline { x: e as u32, y: rest[0].y, w: (seg_end(rest[0]) - e) as u32 };
        let r = seq![shr] + rest.skip(1);
        assert forall|k: int| 0 <= k < r.len() implies #[trigger] r[k].y <= max_height by {
            if k >= 1 {
                assert(r[k] == rest[k]);
            }
        }
    } else {
    }
}

} // verus!
