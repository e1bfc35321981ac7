use pathtracer::framebuffer::{FrameBuffer, Grid};
use pathtracer::render::{round_robin, RenderSettings};

#[test]
fn grid_iter_walks_columns() {
    let g = Grid { pos: (2, 5), size: (2, 3) };
    let cells = g.iter();
    assert_eq!(cells, vec![(2, 5), (2, 6), (2, 7), (3, 5), (3, 6), (3, 7)]);
}

#[test]
fn grid_iter_empty() {
    let g = Grid { pos: (7, 7), size: (0, 4) };
    assert!(g.iter().is_empty());
}

#[test]
fn pixel_iter_row_by_row() {
    let fb = FrameBuffer::new(3, 2);
    assert_eq!(fb.pixel_iter(), vec![(0, 0), (1, 0), (2, 0), (0, 1), (1, 1), (2, 1)]);
}

#[test]
fn new_framebuffer_is_black() {
    let fb = FrameBuffer::new(4, 3);
    assert_eq!(fb.width(), 4);
    assert_eq!(fb.height(), 3);
    assert_eq!(fb.ppm().data, vec![0u8; 36]);
}

#[test]
fn put_rgb_writes_one_pixel() {
    let mut fb = FrameBuffer::new(3, 2);
    fb.put_rgb((2, 1), (10, 20, 30));
    let data = &fb.ppm().data;
    let o = (1 * 3 + 2) * 3;
    assert_eq!(&data[o..o + 3], &[10, 20, 30]);
    let others: usize = data.iter().filter(|b| **b != 0).count();
    assert_eq!(others, 3);
}

#[test]
fn split_clips_border_tiles() {
    let fb = FrameBuffer::new(5, 3);
    let tiles = fb.split_to_tile(2);
    let expect = vec![
        Grid { pos: (0, 0), size: (2, 2) },
        Grid { pos: (0, 2), size: (2, 1) },
        Grid { pos: (2, 0), size: (2, 2) },
        Grid { pos: (2, 2), size: (2, 1) },
        Grid { pos: (4, 0), size: (1, 2) },
        Grid { pos: (4, 2), size: (1, 1) },
    ];
    assert_eq!(tiles, expect);
}

#[test]
fn split_exact_multiple() {
    let fb = FrameBuffer::new(4, 4);
    let tiles = fb.split_to_tile(2);
    assert_eq!(tiles.len(), 4);
    assert!(tiles.iter().all(|t| t.size == (2, 2)));
}

#[test]
fn split_tile_larger_than_image() {
    let fb = FrameBuffer::new(3, 2);
    assert_eq!(fb.split_to_tile(32), vec![Grid { pos: (0, 0), size: (3, 2) }]);
}

#[test]
fn split_empty_image() {
    let fb = FrameBuffer::new(0, 5);
    assert!(fb.split_to_tile(4).is_empty());
}

#[test]
fn tiles_cover_each_pixel_once() {
    let fb = FrameBuffer::new(37, 23);
    let mut seen = vec![0u32; 37 * 23];
    for tile in fb.split_to_tile(8) {
        for (x, y) in tile.iter() {
            seen[(y * 37 + x) as usize] += 1;
        }
    }
    assert!(seen.iter().all(|c| *c == 1));
}

#[test]
fn round_robin_deals_in_turn() {
    let items = vec![10, 11, 12, 13, 14, 15, 16];
    let r = round_robin(&items, 3);
    assert_eq!(r, vec![vec![10, 13, 16], vec![11, 14], vec![12, 15]]);
}

#[test]
fn round_robin_more_workers_than_items() {
    let items = vec![1, 2];
    let r = round_robin(&items, 4);
    assert_eq!(r, vec![vec![1], vec![2], vec![], vec![]]);
}

#[test]
fn tasks_cover_each_pixel_once() {
    let fb = FrameBuffer::new(50, 40);
    let tasks = RenderSettings::generate_tasks(&fb, 3, 16);
    assert_eq!(tasks.len(), 3);
    let mut seen = vec![0u32; 50 * 40];
    for task in &tasks {
        for tile in task {
            for (x, y) in tile.iter() {
                seen[(y * 50 + x) as usize] += 1;
            }
        }
    }
    assert!(seen.iter().all(|c| *c == 1));
    let tiles = fb.split_to_tile(16);
    assert_eq!(tasks[1][1], tiles[4]);
}

#[test]
fn settings_defaults_and_setters() {
    let mut s = RenderSettings::new();
    assert_eq!((s.samples(), s.max_depth(), s.thread_num(), s.tile_size()), (32, 32, 8, 32));
    s.set_quality(512, 50);
    s.set_performance(4, 16);
    assert_eq!((s.samples(), s.max_depth(), s.thread_num(), s.tile_size()), (512, 50, 4, 16));
}
