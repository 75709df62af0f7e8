use temporal_pattern::pattern::Pattern;
use temporal_pattern::pipeline::{on_frames, on_sent, GroupDimensions, SizeMismatch, TransformerState};
use temporal_pattern::readback::{dispatch_size, extract_luma, readback_layout, u32_div_ceil};

#[test]
fn layout_pads_rows() {
    let l = readback_layout(1, 3, 2, 256).unwrap();
    assert_eq!(l.bytes_per_row, 256);
    assert_eq!(l.buffer_size, 2 * 256 * 3);
    let l = readback_layout(64, 1, 2, 256).unwrap();
    assert_eq!(l.bytes_per_row, 256);
    let l = readback_layout(65, 10, 2, 256).unwrap();
    assert_eq!(l.bytes_per_row, 512);
    assert_eq!(l.buffer_size, 10240);
    let l = readback_layout(3840, 2160, 2, 256).unwrap();
    assert_eq!(l.bytes_per_row, 15360);
    assert_eq!(l.buffer_size, 2 * 15360 * 2160);
}

#[test]
fn layout_overflow_is_refused() {
    assert!(readback_layout(u32::MAX / 4 + 1, 1, 1, 256).is_none());
    assert!(readback_layout(u32::MAX / 4, 1, 1, 256).is_none());
    assert!(readback_layout(65536, 65536, 2, 256).is_none());
}

#[test]
fn div_ceil_values() {
    assert_eq!(u32_div_ceil(0, 4), 0);
    assert_eq!(u32_div_ceil(8, 4), 2);
    assert_eq!(u32_div_ceil(9, 4), 3);
    assert_eq!(u32_div_ceil(u32::MAX, 2), 2147483648);
}

#[test]
fn dispatch_covers_image() {
    let d = dispatch_size(1920, 1080, 2, Pattern::Regular2f2w2h).unwrap();
    assert_eq!(d.cell_cols, 480);
    assert_eq!(d.cell_rows, 270);
    assert_eq!(d.groups_x, 30);
    assert_eq!(d.groups_y, 17);
    let d = dispatch_size(5, 3, 1, Pattern::Regular2f2w2h).unwrap();
    assert_eq!((d.cell_cols, d.cell_rows, d.groups_x, d.groups_y), (3, 2, 1, 1));
}

#[test]
fn dispatch_refuses_zero_or_huge_pixels() {
    assert!(dispatch_size(100, 100, 0, Pattern::Regular2f2w2h).is_none());
    assert!(dispatch_size(100, 100, u32::MAX, Pattern::Regular2f2w2h).is_none());
}

#[test]
fn luma_is_first_byte_of_each_texel() {
    // 2 frames of 2 x 2 pixels, rows padded to 12 bytes.
    let bpr = 12u32;
    let (w, h, g) = (2u32, 2u32, 2u32);
    let mut data = vec![0u8; (g * bpr * h) as usize];
    for i in 0..g {
        for y in 0..h {
            for x in 0..w {
                let at = (i * bpr * h + y * bpr + x * 4) as usize;
                data[at] = (100 * i + 10 * y + x) as u8;
                data[at + 1] = 255;
            }
        }
    }
    let out = extract_luma(&data, w, h, bpr, g);
    assert_eq!(out, vec![vec![0, 1, 10, 11], vec![100, 101, 110, 111]]);
}

#[test]
fn group_frames_must_share_size() {
    let mut d = GroupDimensions::new();
    assert_eq!(d.size(), None);
    assert_eq!(d.accept(640, 480), Ok(()));
    assert_eq!(d.accept(640, 480), Ok(()));
    assert_eq!(d.size(), Some((640, 480)));
    assert_eq!(d.accept(320, 480), Err(SizeMismatch::Width { expected: 640, found: 320 }));
    assert_eq!(d.accept(640, 200), Err(SizeMismatch::Height { expected: 480, found: 200 }));
    assert_eq!(d.size(), Some((640, 480)));
}

#[test]
fn transformer_rebuilds_on_size_change() {
    let (s, rebuild) = on_frames(TransformerState::NoContext, 10, 20);
    assert!(rebuild);
    assert_eq!(s, TransformerState::Context { width: 10, height: 20 });
    let (s, rebuild) = on_frames(s, 10, 20);
    assert!(!rebuild);
    let (s2, rebuild) = on_frames(s, 11, 20);
    assert!(rebuild);
    assert_eq!(s2, TransformerState::Context { width: 11, height: 20 });
    assert_eq!(on_sent(s2, true), s2);
    assert_eq!(on_sent(s2, false), TransformerState::NoContext);
}
