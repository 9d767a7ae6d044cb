use rocom_pets::mask::{build, pick_readback, Rect, CELL};

/// Bytes per row of a read-back texture are padded to this many.
const ROW_ALIGNMENT: u32 = 256;

/// Canvas bytes with one opaque block `(x0, y0, x1, y1)`.
fn canvas(width: u32, height: u32, opaque: (u32, u32, u32, u32)) -> (Vec<u8>, u32) {
    let padded_row = (width * 4).next_multiple_of(ROW_ALIGNMENT);
    let mut bytes = vec![0u8; (padded_row * height) as usize];
    let (x0, y0, x1, y1) = opaque;
    for y in y0..y1 {
        for x in x0..x1 {
            bytes[(y * padded_row + x * 4) as usize + 3] = 255;
        }
    }
    (bytes, padded_row)
}

fn contains(r: &Rect, x: f32, y: f32) -> bool {
    x >= r.x as f32 && y >= r.y as f32 && x < r.x as f32 + r.w as f32 && y < r.y as f32 + r.h as f32
}

#[test]
fn rects_cover_opaque_and_scale_to_logical() {
    let (bytes, padded) = canvas(64, 64, (16, 16, 48, 48));
    let mask = build(&bytes, (64, 64), padded);
    // 64 physical pixels to 32 logical: every rectangle halves
    let rects = mask.rects((32, 32));
    assert!(!rects.is_empty());
    assert!(rects.iter().any(|r| contains(r, 16.0, 16.0)), "logical (16,16) is covered");
    assert!(!rects.iter().any(|r| contains(r, 2.0, 2.0)), "logical (2,2) is outside");
    for r in &rects {
        assert!(r.x >= 0 && r.y >= 0 && r.x as u32 + r.w <= 32 && r.y as u32 + r.h <= 32);
    }
}

#[test]
fn empty_canvas_yields_empty_mask() {
    let (bytes, padded) = canvas(32, 32, (0, 0, 0, 0));
    let mask = build(&bytes, (32, 32), padded);
    assert!(mask.is_empty());
    assert!(mask.rects((32, 32)).is_empty());
}

#[test]
fn cells_follow_the_opaque_block() {
    let (bytes, padded) = canvas(64, 64, (16, 16, 48, 48));
    let mask = build(&bytes, (64, 64), padded);
    assert_eq!((mask.cols(), mask.rows()), (64 / CELL, 64 / CELL));
    assert!(mask.covered_at(2, 2));
    assert!(mask.covered_at(5, 5));
    assert!(!mask.covered_at(1, 1));
    assert!(!mask.covered_at(6, 2));
    assert!(!mask.covered_at(100, 100), "outside the grid is not covered");
    assert!(!mask.is_empty());
    // one rectangle per covered row run, at full scale
    let rects = mask.rects((64, 64));
    assert_eq!(rects.len(), 4);
    assert_eq!(rects[0], Rect { x: 16, y: 16, w: 32, h: 8 });
}

#[test]
fn a_faint_pixel_does_not_count() {
    let padded = 256u32;
    let mut bytes = vec![0u8; (padded * 8) as usize];
    // below the alpha threshold
    bytes[3] = 10;
    let mask = build(&bytes, (8, 8), padded);
    assert!(mask.is_empty());
    bytes[3] = 200;
    let mask = build(&bytes, (8, 8), padded);
    assert!(!mask.is_empty());
}

#[test]
fn one_due_pet_is_read_back_per_frame_going_round() {
    assert_eq!(pick_readback(&vec![], 5), (None, 5));
    assert_eq!(pick_readback(&vec![true, true, true], 0), (Some(0), 1));
    assert_eq!(pick_readback(&vec![true, true, true], 1), (Some(1), 2));
    // the cursor wraps, and a pet still in its pause is skipped
    assert_eq!(pick_readback(&vec![true, false, false], 2), (Some(0), 0));
    assert_eq!(pick_readback(&vec![false, false, true], 7), (Some(2), 2));
    assert_eq!(pick_readback(&vec![false, false], 1), (None, 0));
}
