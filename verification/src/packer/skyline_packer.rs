//! The skyline packer: keeps the free-space contour and serves placement
//! requests by searching it, then committing the chosen rectangle with a
//! split-and-merge update.

use crate::config::TexturePackerConfig;
use crate::frame::Frame;
use crate::packer::skyline::clip;
use crate::packer::skyline::covers;
use crate::rect::ranges_overlap;
use crate::texture::Texture;
use crate::packer::skyline::contiguous;
use crate::packer::skyline::fit_end;
use crate::packer::skyline::heights_ok;
use crate::packer::skyline::join;
use crate::packer::skyline::lemma_chain_mono;
use crate::packer::skyline::lemma_commit_facts;
use crate::packer::skyline::lemma_merge_scan_join;
use crate::packer::skyline::lemma_merge_scan_keep;
use crate::packer::skyline::lemma_fit_end_props;
use crate::packer::skyline::lemma_piece_bounds;
use crate::packer::skyline::lemma_seg_max_in;
use crate::packer::skyline::lemma_seg_max_le;
use crate::packer::skyline::lemma_seg_max_mono;
use crate::packer::skyline::merge_spec;
use crate::packer::skyline::piece;
use crate::packer::skyline::raised;
use crate::packer::skyline::seg_end;
use crate::packer::skyline::seg_max_y;
use crate::packer::skyline::seg_overlaps;
use crate::packer::skyline::split_seq;
use crate::packer::skyline::Skyline;
use crate::rect::Rect;
use vstd::prelude::*;

verus! {

/// Whether a candidate with resulting top edge `top`, starting on a segment
/// of width `sw`, beats the running minima `min_h` and `min_w`.
pub open spec fn better(top: int, sw: int, min_h: int, min_w: int) -> bool {
    top < min_h || (top == min_h && sw < min_w)
}

/// A packer that models free space as a skyline contour over the canvas.
pub struct SkylinePacker {
    config: TexturePackerConfig,
    skylines: Vec<Skyline>,
}

impl SkylinePacker {
    /// The configuration this packer was created with.
    pub closed spec fn cfg(self) -> TexturePackerConfig {
        self.config
    }

    /// The current contour, as a sequence of segments.
    pub closed spec fn segs(self) -> Seq<Skyline> {
        self.skylines@
    }

    /// The contour tiles `[0, max_width)` and no segment height exceeds
    /// `max_height`.
    pub open spec fn wf(self) -> bool {
        &&& contiguous(self.segs(), self.cfg().max_width as int)
        &&& heights_ok(self.segs(), self.cfg().max_height as int)
    }

    /// A new packer: one segment spanning the full configured width at
    /// height zero.
    pub fn new(config: TexturePackerConfig) -> (r: SkylinePacker)
        ensures
            r.cfg() == config,
            r.wf(),
            r.segs() =~= seq![Skyline { x: 0u32, y: 0u32, w: config.max_width }],
    {
        let mut skylines: Vec<Skyline> = Vec::new();
        skylines.push(Skyline { x: 0, y: 0, w: config.max_width });
        SkylinePacker { config, skylines }
    }

    /// Whether a `w` by `h` rectangle can rest on the contour starting at
    /// segment `i`, and if so on which top edge: the placement is rejected
    /// if it would stick out to the right or, once its top edge is fixed at
    /// the maximum height among the segments it spans, out of the bottom.
    pub open spec fn can_put_spec(self, i: int, w: u32, h: u32) -> Option<u32> {
        let s = self.segs();
        if s[i].x + w > self.cfg().max_width {
            None
        } else {
            let j = fit_end(s, i, w as int);
            let y = seg_max_y(s, i, j);
            if y + h > self.cfg().max_height {
                None
            } else {
                Some(y as u32)
            }
        }
    }

    #[verifier::rlimit(60)]
    fn can_put(&self, i: usize, w: u32, h: u32) -> (r: Option<u32>)
        requires
            self.wf(),
            i < self.segs().len(),
        ensures
            r == self.can_put_spec(i as int, w, h),
            (r matches Some(y) ==> y + h <= self.cfg().max_height),
    {
        let ghost s = self.segs();
        let ghost mw = self.cfg().max_width as int;
        let ghost mh = self.cfg().max_height as int;
        let x = self.skylines[i].x;
        proof {
            lemma_piece_bounds(s, 0, mw, i as int);
        }
        if w > self.config.max_width - x {
            return None;
        }
        let ghost jend = fit_end(s, i as int, w as int);
        proof {
            lemma_fit_end_props(s, 0, mw, i as int, w as int);
            vstd::std_specs::vec::axiom_spec_len(&self.skylines);
        }
        let mut j = i;
        let mut width_left = w;
        let mut y = self.skylines[i].y;
        let mut fits = false;
        while !fits
            invariant
                self.wf(),
                s == self.segs(),
                mw == self.cfg().max_width as int,
                mh == self.cfg().max_height as int,
                i <= j < s.len(),
                s[i as int].x + w <= mw,
                s[j as int].x + width_left == s[i as int].x + w,
                jend == fit_end(s, j as int, width_left as int),
                jend == fit_end(s, i as int, w as int),
                i <= jend < s.len(),
                j <= jend,
                s.len() <= usize::MAX,
                y == seg_max_y(s, i as int, j as int),
                fits ==> j == jend && y + h <= mh,
            decreases s.len() - j + (if fits {
                0int
            } else {
                1int
            }),
        {
            proof {
                lemma_seg_max_le(s, i as int, j as int, mh);
            }
            if h > self.config.max_height - y {
                proof {
                    lemma_seg_max_mono(s, i as int, j as int, jend);
                }
                return None;
            }
            if self.skylines[j].w >= width_left {
                assert(j == jend);
                fits = true;
            } else {
                assert(j + 1 < s.len()) by {
                    if j == s.len() - 1 {
                        assert(seg_end(s[j as int]) == mw);
                    }
                }
                assert(jend == fit_end(s, j + 1, width_left - s[j as int].w));
                proof {
                    lemma_fit_end_props(s, 0, mw, j + 1, width_left - s[j as int].w);
                }
                width_left = width_left - self.skylines[j].w;
                j = j + 1;
                if self.skylines[j].y > y {
                    y = self.skylines[j].y;
                }
            }
        }
        Some(y)
    }

    /// One candidate examined by the search: starting segment `i` with a
    /// `cw` by `ch` request. It becomes the incumbent when no candidate is
    /// held yet, when it yields a strictly lower resulting top edge, or an
    /// equal one while starting on a narrower segment. `acc` carries the
    /// incumbent with the running minima of resulting top edge and
    /// starting-segment width.
    pub open spec fn upd(self, i: int, cw: u32, ch: u32, acc: (Option<(int, Rect)>, int, int)) -> (
        Option<(int, Rect)>,
        int,
        int,
    ) {
        match self.can_put_spec(i, cw, ch) {
            Some(y) => {
                if acc.0 is None || better(y + ch, self.segs()[i].w as int, acc.1, acc.2) {
                    (
                        Some((i, Rect { x: self.segs()[i].x, y: y, w: cw, h: ch })),
                        y + ch,
                        self.segs()[i].w as int,
                    )
                } else {
                    acc
                }
            },
            None => acc,
        }
    }

    /// The search from starting segment `i` on: at each index the plain
    /// request is examined first and, when rotation is allowed, the swapped
    /// request after it.
    pub open spec fn find_loop(self, w: u32, h: u32, i: int, acc: (Option<(int, Rect)>, int, int)) -> (
        Option<(int, Rect)>,
        int,
        int,
    )
        decreases self.segs().len() - i,
        when 0 <= i
    {
        if i >= self.segs().len() {
            acc
        } else {
            let acc1 = self.upd(i, w, h, acc);
            let acc2 = if self.cfg().allow_rotation {
                self.upd(i, h, w, acc1)
            } else {
                acc1
            };
            self.find_loop(w, h, i + 1, acc2)
        }
    }

    /// The placement the search selects for a `w` by `h` request, if any:
    /// the valid candidate over all starting segments and permitted
    /// orientations with the lowest resulting top edge, ties broken towards
    /// the narrower starting segment, earlier candidates winning ties
    /// otherwise.
    pub open spec fn find_spec(self, w: u32, h: u32) -> Option<(int, Rect)> {
        self.find_loop(w, h, 0, (None, u32::MAX as int, u32::MAX as int)).0
    }

    /// What holds of any candidate the search can select: a real starting
    /// segment, the rectangle flush against its left edge, accepted by the
    /// fit check, and of the requested size in one of the permitted
    /// orientations.
    pub open spec fn cand_ok(self, w: u32, h: u32, i: int, r: Rect) -> bool {
        &&& 0 <= i < self.segs().len()
        &&& r.x == self.segs()[i].x
        &&& self.can_put_spec(i, r.w, r.h) == Some(r.y)
        &&& ((r.w == w && r.h == h) || (self.cfg().allow_rotation && r.w == h && r.h == w))
    }

    proof fn lemma_upd_ok(self, w: u32, h: u32, i: int, cw: u32, ch: u32, acc: (
        Option<(int, Rect)>,
        int,
        int,
    ))
        requires
            (acc.0 matches Some(c) ==> self.cand_ok(w, h, c.0, c.1)),
            0 <= i < self.segs().len(),
            (cw == w && ch == h) || (self.cfg().allow_rotation && cw == h && ch == w),
        ensures
            (self.upd(i, cw, ch, acc).0 matches Some(c) ==> self.cand_ok(w, h, c.0, c.1)),
    {
    }

    proof fn lemma_find_loop_ok(self, w: u32, h: u32, i: int, acc: (Option<(int, Rect)>, int, int))
        requires
            0 <= i,
            (acc.0 matches Some(c) ==> self.cand_ok(w, h, c.0, c.1)),
        ensures
            (self.find_loop(w, h, i, acc).0 matches Some(c) ==> self.cand_ok(w, h, c.0, c.1)),
        decreases self.segs().len() - i,
    {
        if i >= self.segs().len() {
        } else {
            let acc1 = self.upd(i, w, h, acc);
            self.lemma_upd_ok(w, h, i, w, h, acc);
            let acc2 = if self.cfg().allow_rotation {
                self.lemma_upd_ok(w, h, i, h, w, acc1);
                self.upd(i, h, w, acc1)
            } else {
                acc1
            };
            self.lemma_find_loop_ok(w, h, i + 1, acc2);
        }
    }

    /// What the fit check guarantees of a selected candidate: it stays
    /// inside both configured bounds, and its top edge is at or above every
    /// segment its columns span.
    proof fn lemma_cand_props(self, i: int, r: Rect)
        requires
            self.wf(),
            0 <= i < self.segs().len(),
            r.x == self.segs()[i].x,
            self.can_put_spec(i, r.w, r.h) == Some(r.y),
        ensures
            r.x + r.w <= self.cfg().max_width,
            r.y + r.h <= self.cfg().max_height,
            forall|k: int|
                0 <= k < self.segs().len() && #[trigger] seg_overlaps(
                    self.segs()[k],
                    r.x as int,
                    r.x + r.w,
                ) ==> self.segs()[k].y <= r.y,
    {
        let s = self.segs();
        let mw = self.cfg().max_width as int;
        let j = fit_end(s, i, r.w as int);
        lemma_fit_end_props(s, 0, mw, i, r.w as int);
        let ym = seg_max_y(s, i, j);
        assert(ym <= u32::MAX) by {
            lemma_seg_max_le(s, i, j, u32::MAX as int);
        }
        assert(ym >= 0) by {
            lemma_seg_max_in(s, i, j, i);
        }
        assert(r.y == ym);
        assert forall|k: int|
            0 <= k < s.len() && #[trigger] seg_overlaps(s[k], r.x as int, r.x + r.w) implies s[k].y
            <= r.y by {
            if k < i {
                lemma_chain_mono(s, k, i);
            } else if k > j {
                lemma_chain_mono(s, j, k);
            } else {
                lemma_seg_max_in(s, i, j, k);
            }
        }
    }

    fn find_skyline(&self, w: u32, h: u32) -> (r: Option<(usize, Rect)>)
        requires
            self.wf(),
        ensures
            match r {
                Some((i, rect)) => self.find_spec(w, h) == Some((i as int, rect)),
                None => self.find_spec(w, h) is None,
            },
    {
        let mut min_height: u32 = u32::MAX;
        let mut min_width: u32 = u32::MAX;
        let mut index: Option<usize> = None;
        let mut rect = Rect::new(0, 0, 0, 0);
        let ghost init: (Option<(int, Rect)>, int, int) = (
            None,
            u32::MAX as int,
            u32::MAX as int,
        );
        let mut i: usize = 0;
        proof {
            vstd::std_specs::vec::axiom_spec_len(&self.skylines);
        }
        while i < self.skylines.len()
            invariant
                self.wf(),
                i <= self.segs().len(),
                self.segs().len() <= usize::MAX,
                (match index {
                    Some(ix) => ix < self.segs().len() && self.find_loop(w, h, 0, init) == self.find_loop(
                        w,
                        h,
                        i as int,
                        (Some((ix as int, rect)), min_height as int, min_width as int),
                    ),
                    None => self.find_loop(w, h, 0, init) == self.find_loop(
                        w,
                        h,
                        i as int,
                        (None, min_height as int, min_width as int),
                    ),
                }),
            decreases self.segs().len() - i,
        {
            let ghost acc0: (Option<(int, Rect)>, int, int) = (
                match index {
                    Some(ix) => Some((ix as int, rect)),
                    None => None,
                },
                min_height as int,
                min_width as int,
            );
            if let Some(y) = self.can_put(i, w, h) {
                if index.is_none() || y + h < min_height || (y + h == min_height
                    && self.skylines[i].w < min_width) {
                    min_height = y + h;
                    min_width = self.skylines[i].w;
                    index = Some(i);
                    rect = Rect { x: self.skylines[i].x, y, w, h };
                }
            }
            let ghost acc1 = self.upd(i as int, w, h, acc0);
            proof {
                assert(acc1 == (
                    match index {
                        Some(ix) => Some((ix as int, rect)),
                        None => None::<(int, Rect)>,
                    },
                    min_height as int,
                    min_width as int,
                ));
            }
            if self.config.allow_rotation {
                if let Some(y) = self.can_put(i, h, w) {
                    if index.is_none() || y + w < min_height || (y + w == min_height
                        && self.skylines[i].w < min_width) {
                        min_height = y + w;
                        min_width = self.skylines[i].w;
                        index = Some(i);
                        rect = Rect { x: self.skylines[i].x, y, w: h, h: w };
                    }
                }
                proof {
                    assert(self.upd(i as int, h, w, acc1) == (
                        match index {
                            Some(ix) => Some((ix as int, rect)),
                            None => None::<(int, Rect)>,
                        },
                        min_height as int,
                        min_width as int,
                    ));
                }
            }
            i = i + 1;
        }
        match index {
            Some(ix) => Some((ix, rect)),
            None => None,
        }
    }

    /// Commit a placement: insert its newly created top edge at `index` and
    /// clip the segments it shadows, so the contour stays a tiling.
    fn split(&mut self, index: usize, rect: &Rect)
        requires
            old(self).wf(),
            index < old(self).segs().len(),
            rect.x == old(self).segs()[index as int].x,
            rect.x + rect.w <= old(self).cfg().max_width,
            rect.y + rect.h <= old(self).cfg().max_height,
        ensures
            final(self).cfg() == old(self).cfg(),
            final(self).segs() == split_seq(old(self).segs(), index as int, *rect),
    {
        let ghost s0 = self.skylines@;
        let ghost mw = self.config.max_width as int;
        let e = rect.x + rect.w;
        proof {
            vstd::std_specs::vec::axiom_spec_len(&self.skylines);
            assert forall|k2: int| 0 <= k2 < s0.len() implies #[trigger] seg_end(s0[k2])
                <= mw by {
                lemma_piece_bounds(s0, 0, mw, k2);
            }
        }
        let mut out: Vec<Skyline> = Vec::new();
        let mut k: usize = 0;
        while k < index
            invariant
                self.config == old(self).config,
                self.skylines@ == s0,
                k <= index,
                index < s0.len(),
                s0.len() <= usize::MAX,
                out@ == s0.take(k as int),
            decreases index - k,
        {
            out.push(self.skylines[k]);
            proof {
                assert(out@ =~= s0.take(k + 1));
            }
            k = k + 1;
        }
        out.push(Skyline { x: rect.x, y: rect.y + rect.h, w: rect.w });
        proof {
            assert(out@ =~= s0.take(index as int) + seq![raised(*rect)]);
        }
        while k < self.skylines.len() && self.skylines[k].x + self.skylines[k].w <= e
            invariant
                self.config == old(self).config,
                self.skylines@ == s0,
                mw == self.cfg().max_width as int,
                index <= k <= s0.len(),
                s0.len() <= usize::MAX,
                forall|k2: int| 0 <= k2 < s0.len() ==> #[trigger] seg_end(s0[k2]) <= mw,
                clip(s0.skip(index as int), e as int) == clip(s0.skip(k as int), e as int),
                out@ == s0.take(index as int) + seq![raised(*rect)],
            decreases s0.len() - k,
        {
            proof {
                assert(s0.skip(k as int)[0] == s0[k as int]);
                assert(s0.skip(k as int).skip(1) =~= s0.skip(k + 1));
            }
            k = k + 1;
        }
        let ghost cl = clip(s0.skip(index as int), e as int);
        if k < self.skylines.len() {
            let sk = self.skylines[k];
            proof {
                assert(s0.skip(k as int)[0] == s0[k as int]);
                assert(s0.skip(k as int).skip(1) =~= s0.skip(k + 1));
            }
            if sk.x < e {
                out.push(Skyline { x: e, y: sk.y, w: sk.x + sk.w - e });
                proof {
                    assert(cl =~= seq![
                        Skyline { x: e, y: sk.y, w: (sk.x + sk.w - e) as u32 },
                    ] + s0.skip(k + 1));
                }
                k = k + 1;
            } else {
                proof {
                    assert(cl =~= s0.skip(k as int));
                }
            }
        } else {
            proof {
                assert(s0.skip(k as int) =~= Seq::<Skyline>::empty());
            }
        }
        while k < self.skylines.len()
            invariant
                self.config == old(self).config,
                self.skylines@ == s0,
                k <= s0.len(),
                s0.len() <= usize::MAX,
                out@ + s0.skip(k as int) == s0.take(index as int) + seq![raised(*rect)] + cl,
            decreases s0.len() - k,
        {
            proof {
                assert(s0.skip(k as int) =~= seq![s0[k as int]] + s0.skip(k + 1));
            }
            out.push(self.skylines[k]);
            k = k + 1;
        }
        proof {
            assert(s0.skip(s0.len() as int) =~= Seq::<Skyline>::empty());
            assert(out@ =~= out@ + s0.skip(s0.len() as int));
        }
        self.skylines = out;
    }

    /// The re-merge pass: one scan combining every run of adjacent segments
    /// of equal height into a single wider segment.
    #[verifier::rlimit(100)]
    #[verifier::spinoff_prover]
    fn merge(&mut self)
        requires
            contiguous(old(self).segs(), old(self).cfg().max_width as int),
        ensures
            final(self).cfg() == old(self).cfg(),
            final(self).segs() == merge_spec(old(self).segs()),
    {
        let ghost s0 = self.skylines@;
        let ghost mw = self.config.max_width as int;
        let mut out: Vec<Skyline> = Vec::new();
        out.push(self.skylines[0]);
        let mut i: usize = 1;
        proof {
            vstd::std_specs::vec::axiom_spec_len(&self.skylines);
            assert(out@ + s0.skip(1) =~= s0);
            assert(seq![out@.last()] + s0.skip(1) =~= s0);
            assert(out@.take(0) + merge_spec(s0) =~= merge_spec(s0));
        }
        while i < self.skylines.len()
            invariant
                self.config == old(self).config,
                self.skylines@ == s0,
                mw == self.cfg().max_width as int,
                1 <= i <= s0.len(),
                s0.len() <= usize::MAX,
                out@.len() >= 1,
                piece(out@ + s0.skip(i as int), 0, mw),
                merge_spec(s0) == out@.take(out@.len() - 1) + merge_spec(
                    seq![out@.last()] + s0.skip(i as int),
                ),
            decreases s0.len() - i,
        {
            let n = out.len();
            let last = out[n - 1];
            let si = self.skylines[i];
            proof {
                assert(s0.skip(i as int)[0] == s0[i as int]);
            }
            if last.y == si.y {
                proof {
                    lemma_merge_scan_join(out@, s0, i as int, mw);
                    assert(out@.update(n - 1, join(last, si)) == out@.update(
                        n - 1,
                        Skyline { x: last.x, y: last.y, w: (last.w + si.w) as u32 },
                    ));
                }
                out[n - 1] = Skyline { x: last.x, y: last.y, w: last.w + si.w };
            } else {
                proof {
                    lemma_merge_scan_keep(out@, s0, i as int, mw);
                }
                out.push(si);
            }
            i = i + 1;
        }
        proof {
            assert(s0.skip(s0.len() as int) =~= Seq::<Skyline>::empty());
            assert(seq![out@.last()] + s0.skip(s0.len() as int) =~= seq![out@.last()]);
            assert(merge_spec(seq![out@.last()]) == seq![out@.last()]);
            assert(out@.take(out@.len() - 1) + seq![out@.last()] =~= out@);
        }
        self.skylines = out;
    }

    /// Pack one image: search the contour for the placement of its size
    /// (and, when rotation is allowed, of its swapped size) with the lowest
    /// resulting top edge, commit the winner, and return the placement
    /// record. `None` — with the contour untouched — when nothing fits.
    #[verifier::rlimit(100)]
    pub fn pack<T: Texture>(&mut self, key: String, texture: &T) -> (r: Option<Frame>)
        requires
            old(self).wf(),
        ensures
            final(self).wf(),
            final(self).cfg() == old(self).cfg(),
            (match old(self).find_spec(texture.spec_width(), texture.spec_height()) {
                None => r is None && *final(self) == *old(self),
                Some((i, rect)) => {
                    &&& r is Some
                    &&& (r matches Some(f) ==> {
                        &&& f.key == key
                        &&& f.frame == rect
                        &&& f.trimmed == false
                        &&& f.rotated == (rect.w != texture.spec_width())
                        &&& f.source == (Rect {
                            x: 0,
                            y: 0,
                            w: texture.spec_width(),
                            h: texture.spec_height(),
                        })
                    })
                    &&& final(self).segs() == merge_spec(split_seq(old(self).segs(), i, rect))
                    &&& rect.x + rect.w <= old(self).cfg().max_width
                    &&& rect.y + rect.h <= old(self).cfg().max_height
                    &&& (!old(self).cfg().allow_rotation ==> rect.w == texture.spec_width()
                        && rect.h == texture.spec_height())
                    &&& covers(final(self).segs(), rect.x as int, rect.x + rect.w, rect.y + rect.h)
                    &&& (forall|k: int|
                        0 <= k < old(self).segs().len() && #[trigger] seg_overlaps(
                            old(self).segs()[k],
                            rect.x as int,
                            rect.x + rect.w,
                        ) ==> old(self).segs()[k].y <= rect.y)
                    &&& (forall|lo: int, hi: int, bd: int|
                        #[trigger] covers(old(self).segs(), lo, hi, bd) && (bd <= rect.y + rect.h
                            || !ranges_overlap(lo, hi, rect.x as int, rect.x + rect.w))
                            ==> covers(final(self).segs(), lo, hi, bd))
                },
            }),
    {
        let width = texture.width();
        let height = texture.height();
        match self.find_skyline(width, height) {
            Some((i, rect)) => {
                let ghost s0 = self.segs();
                let ghost mw = self.cfg().max_width as int;
                let ghost mh = self.cfg().max_height as int;
                proof {
                    self.lemma_find_loop_ok(
                        width,
                        height,
                        0,
                        (None, u32::MAX as int, u32::MAX as int),
                    );
                    self.lemma_cand_props(i as int, rect);
                }
                self.split(i, &rect);
                proof {
                    lemma_commit_facts(s0, mw, mh, i as int, rect);
                }
                self.merge();
                Some(
                    Frame {
                        key,
                        frame: rect,
                        rotated: width != rect.w,
                        trimmed: false,
                        source: Rect { x: 0, y: 0, w: width, h: height },
                    },
                )
            },
            None => None,
        }
    }
}

impl SkylinePacker {
    proof fn lemma_find_loop_none(self, w: u32, h: u32, i: int, acc: (Option<(int, Rect)>, int, int))
        requires
            0 <= i,
        ensures
            self.find_loop(w, h, i, acc).0 is None ==> {
                &&& self.find_loop(w, h, i, acc) == acc
                &&& (forall|j: int|
                    #![trigger self.segs()[j]]
                    i <= j < self.segs().len() ==> {
                        &&& self.can_put_spec(j, w, h) is None
                        &&& (self.cfg().allow_rotation ==> self.can_put_spec(j, h, w) is None)
                    })
            },
        decreases self.segs().len() - i,
    {
        if i >= self.segs().len() {
        } else {
            let acc1 = self.upd(i, w, h, acc);
            let acc2 = if self.cfg().allow_rotation {
                self.upd(i, h, w, acc1)
            } else {
                acc1
            };
            self.lemma_find_loop_none(w, h, i + 1, acc2);
            if self.find_loop(w, h, i, acc).0 is None {
                assert(self.find_loop(w, h, i, acc) == self.find_loop(w, h, i + 1, acc2));
                assert(acc2.0 is None);
                assert(acc1 == acc && acc2 == acc);
            }
        }
    }

    proof fn lemma_find_loop_mono(self, w: u32, h: u32, i: int, acc: (Option<(int, Rect)>, int, int))
        requires
            0 <= i,
        ensures
            acc.0 is Some ==> {
                &&& self.find_loop(w, h, i, acc).0 is Some
                &&& self.find_loop(w, h, i, acc).1 <= acc.1
            },
        decreases self.segs().len() - i,
    {
        if i < self.segs().len() {
            let acc1 = self.upd(i, w, h, acc);
            let acc2 = if self.cfg().allow_rotation {
                self.upd(i, h, w, acc1)
            } else {
                acc1
            };
            self.lemma_find_loop_mono(w, h, i + 1, acc2);
        }
    }

    proof fn lemma_find_loop_min(
        self,
        w: u32,
        h: u32,
        i: int,
        acc: (Option<(int, Rect)>, int, int),
        j: int,
        cw: u32,
        ch: u32,
    )
        requires
            0 <= i <= j < self.segs().len(),
            (cw == w && ch == h) || (self.cfg().allow_rotation && cw == h && ch == w),
            self.can_put_spec(j, cw, ch) is Some,
        ensures
            (match self.can_put_spec(j, cw, ch) {
                Some(y) => self.find_loop(w, h, i, acc).1 <= y + ch,
                None => true,
            }),
        decreases self.segs().len() - i,
    {
        let acc1 = self.upd(i, w, h, acc);
        let acc2 = if self.cfg().allow_rotation {
            self.upd(i, h, w, acc1)
        } else {
            acc1
        };
        if i < j {
            self.lemma_find_loop_min(w, h, i + 1, acc2, j, cw, ch);
        } else {
            self.lemma_find_loop_mono(w, h, i + 1, acc2);
        }
    }

    proof fn lemma_find_loop_top(self, w: u32, h: u32, i: int, acc: (Option<(int, Rect)>, int, int))
        requires
            0 <= i,
            (acc.0 matches Some(c) ==> acc.1 == c.1.y + c.1.h),
        ensures
            (self.find_loop(w, h, i, acc).0 matches Some(c) ==> self.find_loop(w, h, i, acc).1
                == c.1.y + c.1.h),
        decreases self.segs().len() - i,
    {
        if i < self.segs().len() {
            let acc1 = self.upd(i, w, h, acc);
            let acc2 = if self.cfg().allow_rotation {
                self.upd(i, h, w, acc1)
            } else {
                acc1
            };
            self.lemma_find_loop_top(w, h, i + 1, acc2);
        }
    }
}

/// The search is complete: whenever some starting segment accepts the
/// request in a permitted orientation, the search selects a placement — it
/// returns nothing only when the item fits in no orientation at any starting
/// segment, capacity being exhausted for this item.
pub proof fn lemma_find_spec_complete(p: SkylinePacker, w: u32, h: u32, j: int, cw: u32, ch: u32)
    requires
        0 <= j < p.segs().len(),
        (cw == w && ch == h) || (p.cfg().allow_rotation && cw == h && ch == w),
        p.can_put_spec(j, cw, ch) is Some,
    ensures
        p.find_spec(w, h) is Some,
{
    let init: (Option<(int, Rect)>, int, int) = (None, u32::MAX as int, u32::MAX as int);
    if p.find_spec(w, h) is None {
        p.lemma_find_loop_none(w, h, 0, init);
        assert(p.segs()[j] == p.segs()[j]);
        assert(false);
    }
}

/// The search fails only on exhausted capacity: when it selects nothing, no
/// starting segment accepts the request in any permitted orientation.
pub proof fn lemma_find_spec_exhausted(p: SkylinePacker, w: u32, h: u32)
    requires
        p.find_spec(w, h) is None,
    ensures
        forall|j: int|
            #![trigger p.segs()[j]]
            0 <= j < p.segs().len() ==> {
                &&& p.can_put_spec(j, w, h) is None
                &&& (p.cfg().allow_rotation ==> p.can_put_spec(j, h, w) is None)
            },
{
    let init: (Option<(int, Rect)>, int, int) = (None, u32::MAX as int, u32::MAX as int);
    p.lemma_find_loop_none(w, h, 0, init);
}

/// The search is minimal: the placement it selects has a resulting top edge
/// at or below that of every candidate the configuration permits.
pub proof fn lemma_find_spec_minimal(p: SkylinePacker, w: u32, h: u32, j: int, cw: u32, ch: u32)
    requires
        0 <= j < p.segs().len(),
        (cw == w && ch == h) || (p.cfg().allow_rotation && cw == h && ch == w),
        p.can_put_spec(j, cw, ch) is Some,
    ensures
        (match (p.find_spec(w, h), p.can_put_spec(j, cw, ch)) {
            (Some((i2, rect)), Some(y)) => rect.y + rect.h <= y + ch,
            _ => true,
        }),
{
    let init: (Option<(int, Rect)>, int, int) = (None, u32::MAX as int, u32::MAX as int);
    p.lemma_find_loop_top(w, h, 0, init);
    p.lemma_find_loop_min(w, h, 0, init, j, cw, ch);
}

proof fn lemma_find_loop_eq(
    p1: SkylinePacker,
    p2: SkylinePacker,
    w: u32,
    h: u32,
    i: int,
    acc: (Option<(int, Rect)>, int, int),
)
    requires
        p1.cfg() == p2.cfg(),
        p1.segs() == p2.segs(),
        0 <= i,
    ensures
        p1.find_loop(w, h, i, acc) == p2.find_loop(w, h, i, acc),
    decreases p1.segs().len() - i,
{
    if i < p1.segs().len() {
        assert(p1.can_put_spec(i, w, h) == p2.can_put_spec(i, w, h));
        assert(p1.can_put_spec(i, h, w) == p2.can_put_spec(i, h, w));
        let acc1 = p1.upd(i, w, h, acc);
        assert(acc1 == p2.upd(i, w, h, acc));
        let acc2 = if p1.cfg().allow_rotation {
            assert(p1.upd(i, h, w, acc1) == p2.upd(i, h, w, acc1));
            p1.upd(i, h, w, acc1)
        } else {
            acc1
        };
        lemma_find_loop_eq(p1, p2, w, h, i + 1, acc2);
    }
}

/// Packing is deterministic: the placement the search selects, and the
/// contour left behind by committing it, are functions of the packer's
/// configuration, its contour and the requested size alone. Since `pack`'s
/// contract pins its returned frame and its new contour to exactly these
/// values, packing the same ordered sizes against the same configuration
/// always yields the same frames.
pub proof fn lemma_pack_deterministic(p1: SkylinePacker, p2: SkylinePacker, w: u32, h: u32)
    requires
        p1.cfg() == p2.cfg(),
        p1.segs() == p2.segs(),
    ensures
        p1.find_spec(w, h) == p2.find_spec(w, h),
        (match p1.find_spec(w, h) {
            Some((i, rect)) => merge_spec(split_seq(p1.segs(), i, rect)) == merge_spec(
                split_seq(p2.segs(), i, rect),
            ),
            None => true,
        }),
{
    lemma_find_loop_eq(p1, p2, w, h, 0, (None, u32::MAX as int, u32::MAX as int));
}

} // verus!
