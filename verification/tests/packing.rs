use texture_packer::MemoryTexture;
use texture_packer::Rect;
use texture_packer::SkylinePacker;
use texture_packer::TexturePacker;
use texture_packer::TexturePackerAlrogithm;
use texture_packer::TexturePackerConfig;

fn config(max_width: u32, max_height: u32, allow_rotation: bool) -> TexturePackerConfig {
    TexturePackerConfig {
        max_width,
        max_height,
        allow_rotation,
        algorithm: TexturePackerAlrogithm::Skyline,
    }
}

fn tex(w: u32, h: u32) -> MemoryTexture<u8> {
    MemoryTexture::new(w, h, vec![0u8; (w * h) as usize])
}

#[test]
fn scenario_three_squares_fill_rows() {
    let mut packer = SkylinePacker::new(config(100, 100, false));
    let f1 = packer.pack("a".to_string(), &tex(50, 50)).unwrap();
    let f2 = packer.pack("b".to_string(), &tex(50, 50)).unwrap();
    let f3 = packer.pack("c".to_string(), &tex(50, 50)).unwrap();
    assert_eq!(f1.frame, Rect::new(0, 0, 50, 50));
    assert_eq!(f2.frame, Rect::new(50, 0, 50, 50));
    assert_eq!(f3.frame, Rect::new(0, 50, 50, 50));
    assert!(!f1.rotated && !f2.rotated && !f3.rotated);
}

#[test]
fn scenario_rotation_candidates_both_considered() {
    let mut packer = SkylinePacker::new(config(100, 100, true));
    let f1 = packer.pack("a".to_string(), &tex(60, 40)).unwrap();
    assert_eq!(f1.frame, Rect::new(0, 0, 60, 40));
    assert!(!f1.rotated);
    // the 40x60 item is tried both ways; upright beside the first item
    // yields top edge 60, rotated on top of it would yield 80
    let f2 = packer.pack("b".to_string(), &tex(40, 60)).unwrap();
    assert_eq!(f2.frame, Rect::new(60, 0, 40, 60));
    assert!(!f2.rotated);
}

#[test]
fn scenario_capacity_failure_leaves_state_unchanged() {
    let mut packer = SkylinePacker::new(config(10, 10, false));
    assert!(packer.pack("too-wide".to_string(), &tex(20, 5)).is_none());
    // the skyline is still the single full-width segment at height zero
    let f = packer.pack("full".to_string(), &tex(10, 10)).unwrap();
    assert_eq!(f.frame, Rect::new(0, 0, 10, 10));
}

#[test]
fn scenario_facade_reports_tight_bounds_plus_one() {
    let mut atlas: TexturePacker<MemoryTexture<u8>> = TexturePacker::new(config(200, 100, false));
    atlas.pack("a".to_string(), tex(149, 89));
    let frames = atlas.get_frames();
    assert_eq!(frames.len(), 1);
    assert_eq!(frames[0].frame, Rect::new(0, 0, 149, 89));
    assert_eq!(atlas.width(), 150);
    assert_eq!(atlas.height(), 90);
}

#[test]
fn empty_atlas_reports_one_by_one() {
    let atlas: TexturePacker<MemoryTexture<u8>> = TexturePacker::new(config(64, 64, false));
    assert_eq!(atlas.width(), 1);
    assert_eq!(atlas.height(), 1);
}

#[test]
fn rotation_gating_without_rotation_nothing_rotates() {
    // a 5x20 item fits a 30x10 canvas only sideways
    let mut upright = SkylinePacker::new(config(30, 10, false));
    assert!(upright.pack("a".to_string(), &tex(5, 20)).is_none());
    let mut sideways = SkylinePacker::new(config(30, 10, true));
    let f = sideways.pack("a".to_string(), &tex(5, 20)).unwrap();
    assert_eq!(f.frame, Rect::new(0, 0, 20, 5));
    assert!(f.rotated);
}

#[test]
fn rotation_picked_when_it_lowers_the_top_edge() {
    let mut packer = SkylinePacker::new(config(100, 100, true));
    let f1 = packer.pack("base".to_string(), &tex(100, 30)).unwrap();
    assert_eq!(f1.frame, Rect::new(0, 0, 100, 30));
    let f2 = packer.pack("tall".to_string(), &tex(30, 70)).unwrap();
    assert_eq!(f2.frame, Rect::new(0, 30, 70, 30));
    assert!(f2.rotated);
    assert_eq!(f2.source, Rect::new(0, 0, 30, 70));
}

#[test]
fn frames_never_overlap_and_stay_in_bounds() {
    let mut packer = SkylinePacker::new(config(100, 100, true));
    let sizes = [(30, 40), (25, 25), (60, 10), (40, 40), (10, 90), (90, 10), (33, 33)];
    let mut frames = Vec::new();
    for (i, (w, h)) in sizes.iter().enumerate() {
        if let Some(f) = packer.pack(format!("item-{}", i), &tex(*w, *h)) {
            frames.push(f);
        }
    }
    assert!(frames.len() >= 4);
    for f in frames.iter() {
        assert!(f.frame.right() <= 100);
        assert!(f.frame.bottom() <= 100);
        assert!(!f.trimmed);
    }
    for a in 0..frames.len() {
        for b in 0..frames.len() {
            if a != b {
                assert!(!frames[a].frame.intersects(&frames[b].frame));
            }
        }
    }
}

#[test]
fn packing_is_deterministic() {
    let sizes = [(30, 40), (25, 25), (60, 10), (40, 40), (10, 90), (17, 23)];
    let mut p1 = SkylinePacker::new(config(120, 80, true));
    let mut p2 = SkylinePacker::new(config(120, 80, true));
    for (i, (w, h)) in sizes.iter().enumerate() {
        let key = format!("k{}", i);
        let f1 = p1.pack(key.clone(), &tex(*w, *h));
        let f2 = p2.pack(key, &tex(*w, *h));
        assert_eq!(f1, f2);
    }
}

#[test]
fn first_row_fills_exactly_then_drops_a_level() {
    let mut packer = SkylinePacker::new(config(100, 100, false));
    // two frames fill the whole first row; the contour merges back into a
    // single level, and the next frame starts flush left on it
    let f1 = packer.pack("a".to_string(), &tex(70, 20)).unwrap();
    let f2 = packer.pack("b".to_string(), &tex(30, 20)).unwrap();
    let f3 = packer.pack("c".to_string(), &tex(100, 20)).unwrap();
    assert_eq!(f1.frame, Rect::new(0, 0, 70, 20));
    assert_eq!(f2.frame, Rect::new(70, 0, 30, 20));
    assert_eq!(f3.frame, Rect::new(0, 20, 100, 20));
}

#[test]
fn narrower_segment_wins_an_equal_top_edge_tie() {
    let mut packer = SkylinePacker::new(config(90, 100, false));
    let a = packer.pack("a".to_string(), &tex(40, 40)).unwrap();
    let b = packer.pack("b".to_string(), &tex(20, 50)).unwrap();
    let c = packer.pack("c".to_string(), &tex(30, 40)).unwrap();
    assert_eq!(a.frame, Rect::new(0, 0, 40, 40));
    assert_eq!(b.frame, Rect::new(40, 0, 20, 50));
    assert_eq!(c.frame, Rect::new(60, 0, 30, 40));
    // the contour is now 40 / 50 / 40 high over 40 / 20 / 30 wide runs: a
    // 10x10 item reaches top edge 50 on the first and the third run alike,
    // and the narrower third run wins the tie
    let d = packer.pack("d".to_string(), &tex(10, 10)).unwrap();
    assert_eq!(d.frame, Rect::new(60, 40, 10, 10));
}

#[test]
fn full_canvas_then_capacity_exhausted() {
    let mut packer = SkylinePacker::new(config(100, 100, false));
    for i in 0..4 {
        assert!(packer.pack(format!("t{}", i), &tex(50, 50)).is_some());
    }
    assert!(packer.pack("extra".to_string(), &tex(50, 50)).is_none());
    assert!(packer.pack("sliver".to_string(), &tex(1, 1)).is_none());
}

#[test]
fn facade_replaces_texture_under_same_key() {
    let mut atlas: TexturePacker<MemoryTexture<u8>> = TexturePacker::new(config(50, 50, false));
    atlas.pack("a".to_string(), MemoryTexture::new(2, 1, vec![1u8, 2]));
    atlas.pack("a".to_string(), MemoryTexture::new(2, 1, vec![9u8, 8]));
    // both packs placed a frame, but lookups by key now see the new pixels
    assert_eq!(atlas.get_frames().len(), 2);
    assert_eq!(atlas.get(0, 0), Some(9));
}
