use texture_packer::MemoryTexture;
use texture_packer::Rect;
use texture_packer::Texture;
use texture_packer::TexturePacker;
use texture_packer::TexturePackerAlrogithm;
use texture_packer::TexturePackerConfig;

fn config(max_width: u32, max_height: u32, allow_rotation: bool) -> TexturePackerConfig {
    TexturePackerConfig {
        max_width,
        max_height,
        allow_rotation,
        algorithm: TexturePackerAlrogithm::Skyline,
    }
}

#[test]
fn memory_texture_samples_row_major() {
    let t = MemoryTexture::new(2, 1, vec![1u8, 2]);
    assert_eq!(t.width(), 2);
    assert_eq!(t.height(), 1);
    assert_eq!(t.get(0, 0), Some(1));
    assert_eq!(t.get(1, 0), Some(2));
    assert_eq!(t.get(2, 0), None);
    assert_eq!(t.get(0, 1), None);
    // axes swapped relative to get
    assert_eq!(t.get_rotated(0, 0), Some(1));
    assert_eq!(t.get_rotated(0, 1), Some(2));
    assert_eq!(t.get_rotated(1, 0), None);
}

#[test]
fn atlas_samples_through_the_owning_frame() {
    let mut atlas: TexturePacker<MemoryTexture<u8>> = TexturePacker::new(config(10, 10, false));
    atlas.pack("a".to_string(), MemoryTexture::new(2, 1, vec![1u8, 2]));
    let frames = atlas.get_frames();
    assert_eq!(frames[0].frame, Rect::new(0, 0, 2, 1));
    assert_eq!(atlas.get(0, 0), Some(1));
    assert_eq!(atlas.get(1, 0), Some(2));
    assert_eq!(atlas.get(2, 0), None);
    assert_eq!(atlas.get(0, 5), None);
    assert_eq!(atlas.width(), 3);
    assert_eq!(atlas.height(), 2);
}

#[test]
fn atlas_samples_rotated_frames_with_axes_swapped() {
    // a 10x2 image fits a 2-wide canvas only sideways
    let mut atlas: TexturePacker<MemoryTexture<u8>> = TexturePacker::new(config(2, 10, true));
    let data: Vec<u8> = (0u8..20).collect();
    atlas.pack("a".to_string(), MemoryTexture::new(10, 2, data));
    let frames = atlas.get_frames();
    assert_eq!(frames.len(), 1);
    assert_eq!(frames[0].frame, Rect::new(0, 0, 2, 10));
    assert!(frames[0].rotated);
    // composite (x, y) reads source (y, x): row-major index y + 10 * x
    assert_eq!(atlas.get(0, 0), Some(0));
    assert_eq!(atlas.get(1, 0), Some(10));
    assert_eq!(atlas.get(0, 9), Some(9));
    assert_eq!(atlas.get(1, 9), Some(19));
    assert_eq!(atlas.get(0, 10), None);
}

#[test]
fn atlas_with_two_images_routes_each_point_to_its_source() {
    let mut atlas: TexturePacker<MemoryTexture<u8>> = TexturePacker::new(config(4, 4, false));
    atlas.pack("left".to_string(), MemoryTexture::new(2, 2, vec![1u8, 2, 3, 4]));
    atlas.pack("right".to_string(), MemoryTexture::new(2, 2, vec![5u8, 6, 7, 8]));
    let frames = atlas.get_frames();
    assert_eq!(frames[0].frame, Rect::new(0, 0, 2, 2));
    assert_eq!(frames[1].frame, Rect::new(2, 0, 2, 2));
    assert_eq!(atlas.get(0, 0), Some(1));
    assert_eq!(atlas.get(1, 1), Some(4));
    assert_eq!(atlas.get(2, 0), Some(5));
    assert_eq!(atlas.get(3, 1), Some(8));
    assert_eq!(atlas.get(0, 2), None);
}

#[test]
fn image_stored_even_when_placement_fails() {
    let mut atlas: TexturePacker<MemoryTexture<u8>> = TexturePacker::new(config(2, 2, false));
    atlas.pack("big".to_string(), MemoryTexture::new(5, 5, vec![0u8; 25]));
    // no frame was created, so the composite shows nothing of it
    assert_eq!(atlas.get_frames().len(), 0);
    assert_eq!(atlas.get(0, 0), None);
    // but the canvas is still free for a fitting image
    atlas.pack("small".to_string(), MemoryTexture::new(1, 1, vec![7u8]));
    assert_eq!(atlas.get(0, 0), Some(7));
}
