use multithread_raycaster_game::render::{
    block_size, cache_index, check_frame_fits, render_voxel_tree, chunk_start_row, color_value, fill_voxel_rect, leaf_span, new_voxel_cache, render_cell,
    Renderer, VOXEL_RANGE,
};
use multithread_raycaster_game::voxel::{SparseVoxelOctree, Voxel, VoxelColor};

#[test]
fn renderer_starts_black() {
    let r = Renderer::new(4, 3);
    assert_eq!(r.render_width, 4);
    assert_eq!(r.render_height, 3);
    assert_eq!(r.buffer, vec![0u32; 12]);
}

#[test]
fn block_size_rounds_up() {
    assert_eq!(block_size(10, 3), 4);
    assert_eq!(block_size(9, 3), 3);
    assert_eq!(block_size(1920 * 1080, 12), 172800);
    assert_eq!(block_size(0, 4), 0);
}

#[test]
fn chunk_rows() {
    assert_eq!(chunk_start_row(0, 40, 10), 0);
    assert_eq!(chunk_start_row(3, 40, 10), 12);
    assert_eq!(chunk_start_row(1, 15, 10), 1);
}

#[test]
fn color_value_is_argb() {
    let c = VoxelColor { r: 0x12, g: 0x34, b: 0x56, a: 0x78 };
    assert_eq!(color_value(c), 0x78123456);
    assert_eq!(color_value(VoxelColor { r: 255, g: 0, b: 0, a: 255 }), 0xFFFF0000);
}

#[test]
fn cache_slots() {
    assert_eq!(cache_index(0, 0, 0), 0);
    assert_eq!(cache_index(1, 2, 3), 1 + 64 + 3072);
    assert_eq!(cache_index(31, 31, 31), 32767);
    let cache = new_voxel_cache();
    assert_eq!(cache.len(), VOXEL_RANGE * VOXEL_RANGE * VOXEL_RANGE);
    assert!(cache.iter().all(|c| c.is_none()));
}

#[test]
fn leaf_spans() {
    assert_eq!(leaf_span(16), 1);
    assert_eq!(leaf_span(15), 2);
    assert_eq!(leaf_span(0), 65536);
}

#[test]
fn fill_paints_the_square() {
    let mut buf = vec![0u32; 5 * 4];
    fill_voxel_rect(&mut buf, 5, 4, 0, 1, 1, 2, 7);
    let expected = vec![
        0, 0, 0, 0, 0, //
        0, 7, 7, 0, 0, //
        0, 7, 7, 0, 0, //
        0, 0, 0, 0, 0,
    ];
    assert_eq!(buf, expected);
}

#[test]
fn fill_clips_to_the_screen() {
    let mut buf = vec![0u32; 4 * 3];
    fill_voxel_rect(&mut buf, 4, 3, 0, 3, 2, 5, 9);
    let mut expected = vec![0u32; 12];
    expected[2 * 4 + 3] = 9;
    assert_eq!(buf, expected);
}

#[test]
fn fill_only_touches_the_rows_of_the_slice() {
    // slice holds screen rows 2 and 3 of a 3-wide screen
    let mut buf = vec![1u32; 6];
    fill_voxel_rect(&mut buf, 3, 10, 2, 0, 1, 2, 5);
    assert_eq!(buf, vec![5, 5, 1, 1, 1, 1]);
    let mut buf = vec![1u32; 6];
    fill_voxel_rect(&mut buf, 3, 10, 2, 0, 6, 2, 5);
    assert_eq!(buf, vec![1; 6]);
}

#[test]
fn render_cell_fills_cache_and_paints() {
    let mut svo = SparseVoxelOctree::new();
    svo.insert(1, 0, 0, Voxel { color: VoxelColor { r: 0, g: 0, b: 1, a: 0 } });
    let mut cache = new_voxel_cache();
    let mut buf = vec![0u32; 4 * 4];
    render_cell(&mut buf, &mut cache, &svo, 1, 0, 0, 2, 0, 2, 4, 4, 0);
    assert!(cache[1].is_some());
    assert_eq!(buf[2], 1);
    assert_eq!(buf[3], 1);
    assert_eq!(buf[6], 1);
    assert_eq!(buf[7], 1);
    assert_eq!(buf.iter().filter(|&&p| p == 1).count(), 4);
    // an empty cell paints nothing and caches nothing
    render_cell(&mut buf, &mut cache, &svo, 2, 0, 0, 0, 0, 2, 4, 4, 0);
    assert!(cache[2].is_none());
    assert_eq!(buf.iter().filter(|&&p| p == 1).count(), 4);
}

#[test]
fn whole_slice_is_drawn_from_the_tree() {
    let mut svo = SparseVoxelOctree::new();
    svo.insert(1, 1, 0, Voxel { color: VoxelColor { r: 0, g: 0, b: 2, a: 0 } });
    svo.insert(0, 0, 5, Voxel { color: VoxelColor { r: 0, g: 0, b: 3, a: 0 } });
    // two pixels per voxel coordinate, voxels 2x2
    let screen_pos: Vec<usize> = (0..32768).map(|v| v * 2).collect();
    assert!(check_frame_fits(&svo, &screen_pos, 2));
    let mut buf = vec![0u32; 6 * 6];
    render_voxel_tree(&mut buf, &svo, &screen_pos, 2, 6, 6, 0);
    for row in 0..6 {
        for col in 0..6 {
            let expected = if row < 2 && col < 2 {
                3
            } else if (2..4).contains(&row) && (2..4).contains(&col) {
                2
            } else {
                0
            };
            assert_eq!(buf[row * 6 + col], expected, "pixel ({}, {})", col, row);
        }
    }
}

#[test]
fn empty_tree_does_not_fit_the_cache() {
    // an empty root is a childless node: its whole cube would be drawn
    let svo = SparseVoxelOctree::new();
    let screen_pos: Vec<usize> = (0..32768).collect();
    assert!(!check_frame_fits(&svo, &screen_pos, 1));
}

#[test]
fn positions_that_overflow_do_not_fit() {
    let mut svo = SparseVoxelOctree::new();
    svo.insert(0, 0, 0, Voxel { color: VoxelColor { r: 0, g: 0, b: 1, a: 0 } });
    let mut screen_pos: Vec<usize> = (0..32768).collect();
    assert!(check_frame_fits(&svo, &screen_pos, 1));
    screen_pos[3] = usize::MAX;
    assert!(!check_frame_fits(&svo, &screen_pos, 1));
}

#[test]
fn zero_width_screen_draws_nothing() {
    let mut buf = vec![4u32; 3];
    fill_voxel_rect(&mut buf, 0, 5, 0, 0, 0, 0, 1);
    assert_eq!(buf, vec![4, 4, 4]);
    let mut svo = SparseVoxelOctree::new();
    svo.insert(0, 0, 0, Voxel { color: VoxelColor { r: 0, g: 0, b: 1, a: 0 } });
    let screen_pos: Vec<usize> = vec![0; 32768];
    assert!(check_frame_fits(&svo, &screen_pos, 0));
    render_voxel_tree(&mut buf, &svo, &screen_pos, 0, 0, 5, 0);
    assert_eq!(buf, vec![4, 4, 4]);
}

#[test]
fn slices_draw_like_the_whole_screen() {
    let mut svo = SparseVoxelOctree::new();
    svo.insert(1, 1, 0, Voxel { color: VoxelColor { r: 0, g: 0, b: 2, a: 0 } });
    svo.insert(0, 2, 5, Voxel { color: VoxelColor { r: 0, g: 7, b: 3, a: 0 } });
    let screen_pos: Vec<usize> = (0..32768).map(|v| v * 2).collect();
    let mut whole = vec![0u32; 6 * 6];
    render_voxel_tree(&mut whole, &svo, &screen_pos, 2, 6, 6, 0);
    for k in 0..=6usize {
        let mut top = vec![0u32; 6 * k];
        let mut rest = vec![0u32; 6 * (6 - k)];
        render_voxel_tree(&mut top, &svo, &screen_pos, 2, 6, 6, 0);
        render_voxel_tree(&mut rest, &svo, &screen_pos, 2, 6, 6, k);
        top.extend_from_slice(&rest);
        assert_eq!(top, whole, "split after {} rows", k);
    }
}

#[test]
fn overlapping_squares_show_the_last_voxel_drawn() {
    let mut svo = SparseVoxelOctree::new();
    // depth-first order draws (1, 1, 0) before (0, 0, 5)
    svo.insert(1, 1, 0, Voxel { color: VoxelColor { r: 0, g: 0, b: 2, a: 0 } });
    svo.insert(0, 0, 5, Voxel { color: VoxelColor { r: 0, g: 0, b: 3, a: 0 } });
    let screen_pos: Vec<usize> = (0..32768).map(|v| v * 2).collect();
    assert!(check_frame_fits(&svo, &screen_pos, 3));
    let mut buf = vec![9u32; 6 * 6];
    render_voxel_tree(&mut buf, &svo, &screen_pos, 3, 6, 6, 0);
    for row in 0..6 {
        for col in 0..6 {
            let expected = if row < 3 && col < 3 {
                3
            } else if (2..5).contains(&row) && (2..5).contains(&col) {
                2
            } else {
                9
            };
            assert_eq!(buf[row * 6 + col], expected, "pixel ({}, {})", col, row);
        }
    }
}
