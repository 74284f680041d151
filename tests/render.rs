use raytrace::axis::Axis;
use raytrace::render::{PixelCursor, Raster};

#[test]
fn zero_height_is_raised_to_one() {
    let r = Raster::new(2, 0);
    assert_eq!(r, Raster { width: 2, height: 1 });
    assert_eq!(r.pixel_count(), 2);
    assert_eq!(Raster::new(400, 225).pixel_count(), 90000);
}

#[test]
fn cursor_walks_rows_from_the_top() {
    let mut cur = PixelCursor::start(Raster::new(3, 2));
    let mut seen: Vec<(u32, u32)> = Vec::new();
    let mut progress: Vec<u32> = Vec::new();
    while let Some(p) = cur.current() {
        if cur.starts_row() {
            progress.push(cur.scanlines_remaining());
        }
        seen.push(p);
        cur.advance();
    }
    assert_eq!(seen, vec![(0, 0), (1, 0), (2, 0), (0, 1), (1, 1), (2, 1)]);
    assert_eq!(progress, vec![2, 1]);
    assert_eq!(cur.scanlines_remaining(), 0);
    assert!(!cur.starts_row());
}

#[test]
fn cursor_on_single_pixel() {
    let mut cur = PixelCursor::start(Raster::new(1, 1));
    assert_eq!(cur.current(), Some((0, 0)));
    cur.advance();
    assert_eq!(cur.current(), None);
}

#[test]
fn axis_indices_do_not_wrap() {
    assert_eq!(Axis::from_index(0), Some(Axis::X));
    assert_eq!(Axis::from_index(1), Some(Axis::Y));
    assert_eq!(Axis::from_index(2), Some(Axis::Z));
    assert_eq!(Axis::from_index(3), None);
    assert_eq!(Axis::from_index(4), None);
}
