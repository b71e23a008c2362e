//! The atlas facade: owns the submitted images and their placement records,
//! and exposes the composite as one addressable read-only surface.

use crate::config::TexturePackerAlrogithm;
use crate::config::TexturePackerConfig;
use crate::frame::Frame;
use crate::packer::skyline::covers;
use crate::packer::skyline::lemma_coverage;
use crate::packer::skyline::merge_spec;
use crate::packer::skyline::seg_overlaps;
use crate::packer::skyline::split_seq;
use crate::packer::skyline::Skyline;
use crate::packer::skyline_packer::SkylinePacker;
use crate::rect::ranges_overlap;
use crate::rect::rects_intersect;
use crate::rect::spec_bottom;
use crate::rect::spec_contains_point;
use crate::rect::spec_right;
use crate::rect::Rect;
use crate::texture::Texture;
use vstd::prelude::*;

verus! {

/// The texture stored under a key, looking from the front of the list: the
/// entry for a key is replaced in place when the key is submitted again.
pub open spec fn tex_find<T>(s: Seq<(String, T)>, k: Seq<char>) -> Option<T>
    decreases s.len(),
{
    if s.len() == 0 {
        None
    } else if s[0].0@ == k {
        Some(s[0].1)
    } else {
        tex_find(s.skip(1), k)
    }
}

/// The first frame, in insertion order, whose rectangle contains the point.
pub open spec fn frame_at(frames: Seq<Frame>, x: u32, y: u32) -> Option<Frame>
    decreases frames.len(),
{
    if frames.len() == 0 {
        None
    } else if spec_contains_point(frames[0].frame, x, y) {
        Some(frames[0])
    } else {
        frame_at(frames.skip(1), x, y)
    }
}

/// The largest exclusive right edge over all frames, zero when there are
/// none.
pub open spec fn max_right(frames: Seq<Frame>) -> int
    decreases frames.len(),
{
    if frames.len() == 0 {
        0
    } else if spec_right(frames.last().frame) > max_right(frames.drop_last()) {
        spec_right(frames.last().frame)
    } else {
        max_right(frames.drop_last())
    }
}

/// The largest exclusive bottom edge over all frames, zero when there are
/// none.
pub open spec fn max_bottom(frames: Seq<Frame>) -> int
    decreases frames.len(),
{
    if frames.len() == 0 {
        0
    } else if spec_bottom(frames.last().frame) > max_bottom(frames.drop_last()) {
        spec_bottom(frames.last().frame)
    } else {
        max_bottom(frames.drop_last())
    }
}

proof fn lemma_tex_find_absent<T>(s: Seq<(String, T)>, k: Seq<char>)
    requires
        forall|j: int| 0 <= j < s.len() ==> #[trigger] s[j].0@ != k,
    ensures
        tex_find(s, k) is None,
    decreases s.len(),
{
    if s.len() > 0 {
        assert forall|j: int| 0 <= j < s.skip(1).len() implies #[trigger] s.skip(1)[j].0@ != k by {
            assert(s.skip(1)[j] == s[j + 1]);
        }
        lemma_tex_find_absent(s.skip(1), k);
    }
}

proof fn lemma_tex_find_push<T>(s: Seq<(String, T)>, e: (String, T), k: Seq<char>)
    ensures
        tex_find(s.push(e), k) == (if tex_find(s, k) is Some {
            tex_find(s, k)
        } else if e.0@ == k {
            Some(e.1)
        } else {
            None
        }),
    decreases s.len(),
{
    if s.len() == 0 {
        assert(s.push(e)[0] == e);
        assert(s.push(e).skip(1) =~= Seq::<(String, T)>::empty());
        assert(tex_find(Seq::<(String, T)>::empty(), k) is None);
        if e.0@ == k {
            assert(tex_find(s.push(e), k) == Some(e.1));
        } else {
            assert(tex_find(s.push(e), k) == tex_find(s.push(e).skip(1), k));
        }
    } else {
        assert(s.push(e)[0] == s[0]);
        assert(s.push(e).skip(1) =~= s.skip(1).push(e));
        lemma_tex_find_push(s.skip(1), e, k);
    }
}

proof fn lemma_tex_find_update<T>(s: Seq<(String, T)>, i: int, e: (String, T), k: Seq<char>)
    requires
        0 <= i < s.len(),
        forall|j: int| 0 <= j < i ==> #[trigger] s[j].0@ != s[i].0@,
        e.0@ == s[i].0@,
    ensures
        tex_find(s.update(i, e), k) == (if k == s[i].0@ {
            Some(e.1)
        } else {
            tex_find(s, k)
        }),
    decreases i,
{
    let su = s.update(i, e);
    if i == 0 {
        assert(su[0] == e);
        assert(su.skip(1) =~= s.skip(1));
    } else {
        assert(su[0] == s[0]);
        assert(su.skip(1) =~= s.skip(1).update(i - 1, e));
        assert forall|j: int| 0 <= j < i - 1 implies #[trigger] s.skip(1)[j].0@ != s.skip(1)[i
            - 1].0@ by {
            assert(s.skip(1)[j] == s[j + 1] && s.skip(1)[i - 1] == s[i]);
        }
        assert(s.skip(1)[i - 1] == s[i]);
        lemma_tex_find_update(s.skip(1), i - 1, e, k);
    }
}

/// The atlas facade: the submitted images, the placement records in
/// insertion order, and the packer whose contour placed them. The composite
/// is a read-only projection over the owned sources: there is no way to
/// write a pixel of it, by design.
pub struct TexturePacker<T> {
    textures: Vec<(String, T)>,
    frames: Vec<Frame>,
    packer: SkylinePacker,
}

impl<T: Texture> TexturePacker<T> {
    /// The packer that places the frames.
    pub closed spec fn packer(self) -> SkylinePacker {
        self.packer
    }

    /// The placement records, in insertion order.
    pub closed spec fn frames_view(self) -> Seq<Frame> {
        self.frames@
    }

    /// The stored images with their keys, in insertion order.
    pub closed spec fn textures_view(self) -> Seq<(String, T)> {
        self.textures@
    }

    /// The configuration of this packing session.
    pub open spec fn cfg(self) -> TexturePackerConfig {
        self.packer().cfg()
    }

    /// What holds of every stored placement record: it stays inside both
    /// configured bounds, its columns are filled up to its bottom edge in
    /// the current contour, it is not rotated unless rotation is allowed,
    /// and its key has a stored image.
    pub open spec fn frame_ok(self, f: Frame) -> bool {
        &&& spec_right(f.frame) <= self.cfg().max_width
        &&& spec_bottom(f.frame) <= self.cfg().max_height
        &&& covers(self.packer().segs(), f.frame.x as int, spec_right(f.frame), spec_bottom(f.frame))
        &&& (!self.cfg().allow_rotation ==> !f.rotated)
        &&& tex_find(self.textures_view(), f.key@) is Some
    }

    /// The facade's invariant: a well-formed contour, every frame well
    /// placed under it, and no two frames' rectangles intersecting.
    pub open spec fn wf(self) -> bool {
        &&& self.packer().wf()
        &&& (forall|i: int|
            0 <= i < self.frames_view().len() ==> self.frame_ok(#[trigger] self.frames_view()[i]))
        &&& (forall|i: int, j: int|
            0 <= i < j < self.frames_view().len() ==> !#[trigger] rects_intersect(
                self.frames_view()[i].frame,
                self.frames_view()[j].frame,
            ))
    }

    /// A new facade: no images, no frames, and a fresh contour of one
    /// segment spanning the full configured width at height zero.
    pub fn new(config: TexturePackerConfig) -> (r: TexturePacker<T>)
        ensures
            r.wf(),
            r.cfg() == config,
            r.frames_view() == Seq::<Frame>::empty(),
            r.packer().segs() == seq![Skyline { x: 0u32, y: 0u32, w: config.max_width }],
            forall|k: Seq<char>| #[trigger] tex_find(r.textures_view(), k) is None,
    {
        let packer = match config.algorithm {
            TexturePackerAlrogithm::Skyline => SkylinePacker::new(config),
        };
        let r = TexturePacker { textures: Vec::new(), frames: Vec::new(), packer };
        proof {
            assert(r.frames_view() =~= Seq::<Frame>::empty());
            assert(r.textures_view() =~= Seq::<(String, T)>::empty());
        }
        r
    }

    fn insert_texture(&mut self, key: String, texture: T)
        ensures
            final(self).packer() == old(self).packer(),
            final(self).frames_view() == old(self).frames_view(),
            forall|k: Seq<char>|
                #[trigger] tex_find(final(self).textures_view(), k) == (if k == key@ {
                    Some(texture)
                } else {
                    tex_find(old(self).textures_view(), k)
                }),
    {
        let ghost s = self.textures@;
        let mut i: usize = 0;
        proof {
            vstd::std_specs::vec::axiom_spec_len(&self.textures);
        }
        while i < self.textures.len()
            invariant
                *self == *old(self),
                s == self.textures@,
                i <= s.len(),
                s.len() <= usize::MAX,
                forall|j: int| 0 <= j < i ==> #[trigger] s[j].0@ != key@,
            decreases s.len() - i,
        {
            if self.textures[i].0.eq(&key) {
                proof {
                    lemma_tex_find_update(s, i as int, (key, texture), key@);
                    assert forall|k: Seq<char>| k != key@ implies tex_find(
                        s.update(i as int, (key, texture)),
                        k,
                    ) == tex_find(s, k) by {
                        lemma_tex_find_update(s, i as int, (key, texture), k);
                    }
                }
                self.textures[i] = (key, texture);
                return ;
            }
            i = i + 1;
        }
        proof {
            lemma_tex_find_absent(s, key@);
            lemma_tex_find_push(s, (key, texture), key@);
            assert forall|k: Seq<char>| k != key@ implies tex_find(
                s.push((key, texture)),
                k,
            ) == tex_find(s, k) by {
                lemma_tex_find_push(s, (key, texture), k);
            }
        }
        self.textures.push((key, texture));
    }

    /// Submit one image under a key: ask the packer for a placement and, on
    /// success, record the resulting frame; either way the image is stored
    /// under its key (replacing any earlier image with the same key). On
    /// capacity failure nothing else changes, and the caller decides what to
    /// do.
    pub fn pack(&mut self, key: String, texture: T)
        requires
            old(self).wf(),
        ensures
            final(self).wf(),
            final(self).cfg() == old(self).cfg(),
            (match old(self).packer().find_spec(texture.spec_width(), texture.spec_height()) {
                None => final(self).frames_view() == old(self).frames_view() && final(self).packer()
                    == old(self).packer(),
                Some((i, rect)) => {
                    &&& final(self).frames_view() == old(self).frames_view().push(
                        Frame {
                            key: key,
                            frame: rect,
                            rotated: (rect.w != texture.spec_width()),
                            trimmed: false,
                            source: (Rect {
                                x: 0,
                                y: 0,
                                w: texture.spec_width(),
                                h: texture.spec_height(),
                            }),
                        },
                    )
                    &&& final(self).packer().segs() == merge_spec(
                        split_seq(old(self).packer().segs(), i, rect),
                    )
                },
            }),
            forall|k: Seq<char>|
                #[trigger] tex_find(final(self).textures_view(), k) == (if k == key@ {
                    Some(texture)
                } else {
                    tex_find(old(self).textures_view(), k)
                }),
    {
        let ghost s0 = self.packer.segs();
        let ghost fr0 = self.frames@;
        let ghost mw = self.packer.cfg().max_width as int;
        let frame_opt = self.packer.pack(key.clone(), &texture);
        if let Some(frame) = frame_opt {
            let ghost rect = frame.frame;
            proof {
                // the new frame cannot intersect any stored frame: a shared
                // column would lie in some old contour segment that stands
                // at or above the old frame's bottom and at or below the
                // new frame's top.
                assert forall|a: int|
                    0 <= a < fr0.len() implies !rects_intersect(
                    fr0[a].frame,
                    rect,
                ) && covers(
                    self.packer.segs(),
                    fr0[a].frame.x as int,
                    spec_right(fr0[a].frame),
                    spec_bottom(fr0[a].frame),
                ) by {
                    assert(old(self).frame_ok(old(self).frames_view()[a]));
                    assert(old(self).frames_view()[a] == fr0[a]);
                    let g = fr0[a].frame;
                    assert(covers(s0, g.x as int, spec_right(g), spec_bottom(g)));
                    if ranges_overlap(g.x as int, spec_right(g), rect.x as int, spec_right(rect)) {
                        let c = if g.x > rect.x {
                            g.x as int
                        } else {
                            rect.x as int
                        };
                        let k = lemma_coverage(s0, 0, mw, c);
                        assert(seg_overlaps(s0[k], g.x as int, spec_right(g)));
                        assert(seg_overlaps(s0[k], rect.x as int, spec_right(rect)));
                        assert(spec_bottom(g) <= s0[k].y);
                        assert(s0[k].y <= rect.y);
                        assert(spec_bottom(g) <= spec_bottom(rect));
                        assert(!ranges_overlap(
                            g.y as int,
                            spec_bottom(g),
                            rect.y as int,
                            spec_bottom(rect),
                        ));
                    }
                }
            }
            let ghost gframe = frame;
            self.frames.push(frame);
            proof {
                assert(self.frames@ == fr0.push(gframe));
                assert forall|a: int, b: int|
                    0 <= a < b < self.frames@.len() implies !#[trigger] rects_intersect(
                    self.frames@[a].frame,
                    self.frames@[b].frame,
                ) by {
                    assert(self.frames@[a] == fr0[a]);
                    if b < fr0.len() {
                        assert(self.frames@[b] == fr0[b]);
                        assert(old(self).frames_view()[a] == fr0[a]);
                        assert(old(self).frames_view()[b] == fr0[b]);
                        assert(!rects_intersect(
                            old(self).frames_view()[a].frame,
                            old(self).frames_view()[b].frame,
                        ));
                    } else {
                        assert(self.frames@[b] == gframe);
                        assert(!rects_intersect(fr0[a].frame, rect));
                        assert(gframe.frame == rect);
                    }
                }
            }
        }
        let ghost mid = *self;
        self.insert_texture(key, texture);
        proof {
            assert(self.frames_view() == mid.frames_view());
            assert(self.packer() == mid.packer());
            assert forall|i2: int| 0 <= i2 < self.frames_view().len() implies self.frame_ok(
                #[trigger] self.frames_view()[i2],
            ) by {
                let f = self.frames_view()[i2];
                if i2 < fr0.len() {
                    assert(old(self).frame_ok(old(self).frames_view()[i2]));
                    assert(old(self).frames_view()[i2] == fr0[i2]);
                    assert(f == fr0[i2]);
                } else {
                    assert(f == mid.frames_view()[i2]);
                }
            }
            assert forall|a: int, b: int|
                0 <= a < b < self.frames_view().len() implies !#[trigger] rects_intersect(
                self.frames_view()[a].frame,
                self.frames_view()[b].frame,
            ) by {
                assert(self.frames_view()[a] == mid.frames_view()[a]);
                assert(self.frames_view()[b] == mid.frames_view()[b]);
                if b < fr0.len() {
                    assert(old(self).frames_view()[a] == fr0[a]);
                    assert(old(self).frames_view()[b] == fr0[b]);
                    assert(!rects_intersect(
                        old(self).frames_view()[a].frame,
                        old(self).frames_view()[b].frame,
                    ));
                }
            }
        }
    }

    /// The first frame, in insertion order, containing the point, if any.
    fn get_frame_at(&self, x: u32, y: u32) -> (r: Option<&Frame>)
        ensures
            (match r {
                Some(f) => frame_at(self.frames_view(), x, y) == Some(*f) && spec_contains_point(
                    f.frame,
                    x,
                    y,
                ),
                None => frame_at(self.frames_view(), x, y) is None,
            }),
    {
        let ghost fr = self.frames@;
        let mut i: usize = 0;
        proof {
            vstd::std_specs::vec::axiom_spec_len(&self.frames);
            assert(fr.skip(0) =~= fr);
        }
        while i < self.frames.len()
            invariant
                fr == self.frames@,
                i <= fr.len(),
                fr.len() <= usize::MAX,
                frame_at(fr, x, y) == frame_at(fr.skip(i as int), x, y),
            decreases fr.len() - i,
        {
            proof {
                assert(fr.skip(i as int)[0] == fr[i as int]);
                assert(fr.skip(i as int).skip(1) =~= fr.skip(i + 1));
            }
            if self.frames[i].frame.contains_point(x, y) {
                return Some(&self.frames[i]);
            }
            i = i + 1;
        }
        proof {
            assert(fr.skip(i as int) =~= Seq::<Frame>::empty());
        }
        None
    }

    /// The image stored under a key, if any.
    fn find_texture(&self, key: &String) -> (r: Option<&T>)
        ensures
            (match r {
                Some(t) => tex_find(self.textures_view(), key@) == Some(*t),
                None => tex_find(self.textures_view(), key@) is None,
            }),
    {
        let ghost s = self.textures@;
        let mut i: usize = 0;
        proof {
            vstd::std_specs::vec::axiom_spec_len(&self.textures);
            assert(s.skip(0) =~= s);
        }
        while i < self.textures.len()
            invariant
                s == self.textures@,
                i <= s.len(),
                s.len() <= usize::MAX,
                tex_find(s, key@) == tex_find(s.skip(i as int), key@),
            decreases s.len() - i,
        {
            proof {
                assert(s.skip(i as int)[0] == s[i as int]);
                assert(s.skip(i as int).skip(1) =~= s.skip(i + 1));
            }
            if self.textures[i].0.eq(key) {
                return Some(&self.textures[i].1);
            }
            i = i + 1;
        }
        proof {
            assert(s.skip(i as int) =~= Seq::<(String, T)>::empty());
        }
        None
    }

    /// The placement records, in insertion order.
    pub fn get_frames(&self) -> (r: &Vec<Frame>)
        ensures
            r@ == self.frames_view(),
    {
        &self.frames
    }

    /// The composite's reported width: one more than the largest exclusive
    /// right edge over all frames. An atlas with no placements reports 1;
    /// callers should treat the empty atlas as a distinct case.
    pub fn width(&self) -> (r: u32)
        requires
            self.wf(),
            max_right(self.frames_view()) < u32::MAX,
        ensures
            r == max_right(self.frames_view()) + 1,
    {
        let ghost fr = self.frames@;
        let mut right: u32 = 0;
        let mut i: usize = 0;
        proof {
            vstd::std_specs::vec::axiom_spec_len(&self.frames);
            assert(fr.take(0) =~= Seq::<Frame>::empty());
        }
        while i < self.frames.len()
            invariant
                self.wf(),
                fr == self.frames@,
                i <= fr.len(),
                fr.len() <= usize::MAX,
                right == max_right(fr.take(i as int)),
                right <= self.cfg().max_width,
            decreases fr.len() - i,
        {
            proof {
                assert(self.frame_ok(self.frames_view()[i as int]));
                assert(self.frames_view()[i as int] == fr[i as int]);
                assert(fr.take(i + 1).drop_last() =~= fr.take(i as int));
                assert(fr.take(i + 1).last() == fr[i as int]);
            }
            let f = &self.frames[i];
            if f.frame.right() > right {
                right = f.frame.right();
            }
            i = i + 1;
        }
        proof {
            assert(fr.take(fr.len() as int) =~= fr);
        }
        right + 1
    }

    /// The composite's reported height: one more than the largest exclusive
    /// bottom edge over all frames. An atlas with no placements reports 1;
    /// callers should treat the empty atlas as a distinct case.
    pub fn height(&self) -> (r: u32)
        requires
            self.wf(),
            max_bottom(self.frames_view()) < u32::MAX,
        ensures
            r == max_bottom(self.frames_view()) + 1,
    {
        let ghost fr = self.frames@;
        let mut bottom: u32 = 0;
        let mut i: usize = 0;
        proof {
            vstd::std_specs::vec::axiom_spec_len(&self.frames);
            assert(fr.take(0) =~= Seq::<Frame>::empty());
        }
        while i < self.frames.len()
            invariant
                self.wf(),
                fr == self.frames@,
                i <= fr.len(),
                fr.len() <= usize::MAX,
                bottom == max_bottom(fr.take(i as int)),
                bottom <= self.cfg().max_height,
            decreases fr.len() - i,
        {
            proof {
                assert(self.frame_ok(self.frames_view()[i as int]));
                assert(self.frames_view()[i as int] == fr[i as int]);
                assert(fr.take(i + 1).drop_last() =~= fr.take(i as int));
                assert(fr.take(i + 1).last() == fr[i as int]);
            }
            let f = &self.frames[i];
            if f.frame.bottom() > bottom {
                bottom = f.frame.bottom();
            }
            i = i + 1;
        }
        proof {
            assert(fr.take(fr.len() as int) =~= fr);
        }
        bottom + 1
    }

    /// The pixel of the composite at `(x, y)`: the first frame containing
    /// the point wins — sound because frames never overlap — and the point
    /// is translated into that frame and sampled from its source image,
    /// with axes swapped when the frame was placed sideways. Nothing is
    /// returned where no frame contains the point or the frame's image is
    /// gone.
    pub open spec fn spec_get(self, x: u32, y: u32) -> Option<T::Pixel> {
        match frame_at(self.frames_view(), x, y) {
            None => None,
            Some(f) => match tex_find(self.textures_view(), f.key@) {
                None => None,
                Some(t) => if f.rotated {
                    t.spec_get_rotated((x - f.frame.x) as u32, (y - f.frame.y) as u32)
                } else {
                    t.spec_get((x - f.frame.x) as u32, (y - f.frame.y) as u32)
                },
            },
        }
    }

    /// Read one pixel of the composite.
    pub fn get(&self, x: u32, y: u32) -> (r: Option<T::Pixel>)
        ensures
            r == self.spec_get(x, y),
    {
        match self.get_frame_at(x, y) {
            Some(frame) => match self.find_texture(&frame.key) {
                Some(texture) => {
                    let lx = x - frame.frame.x;
                    let ly = y - frame.frame.y;
                    if frame.rotated {
                        texture.get_rotated(lx, ly)
                    } else {
                        texture.get(lx, ly)
                    }
                },
                None => None,
            },
            None => None,
        }
    }
}

/// No two frames a well-formed facade holds intersect: every sequence of
/// `pack` calls leaves the frames pairwise disjoint, since `new` establishes
/// this invariant and `pack` preserves it.
pub proof fn lemma_frames_disjoint<T: Texture>(tp: TexturePacker<T>, i: int, j: int)
    requires
        tp.wf(),
        0 <= i < tp.frames_view().len(),
        0 <= j < tp.frames_view().len(),
        i != j,
    ensures
        !rects_intersect(tp.frames_view()[i].frame, tp.frames_view()[j].frame),
{
    if i < j {
    } else {
        assert(!rects_intersect(tp.frames_view()[j].frame, tp.frames_view()[i].frame));
    }
}

} // verus!
