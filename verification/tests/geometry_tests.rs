use casting::caster::{key_action, CastCtrl, KeyAction, KeyKind};
use casting::point_info::build_point_info;
use casting::segments::meshes_to_segments;

#[test]
fn segments_close_each_polygon() {
    let meshes: Vec<Vec<u32>> = vec![vec![1, 2, 3], vec![4]];
    let mut segments: Vec<u32> = vec![9];
    let count = meshes_to_segments(&meshes, &mut segments);
    assert_eq!(count, 4);
    assert_eq!(segments, vec![9, 1, 2, 2, 3, 3, 1, 4, 4]);
}

#[test]
fn segments_are_two_endpoints_per_point() {
    let meshes: Vec<Vec<(i32, i32)>> =
        vec![vec![(0, 0), (1, 0), (1, 1), (0, 1)], vec![(5, 5), (6, 5)]];
    let mut segments = Vec::new();
    let count = meshes_to_segments(&meshes, &mut segments);
    assert_eq!(segments.len(), 2 * count);
    // every edge of the square, in order, the last one closing it
    let pairs: Vec<((i32, i32), (i32, i32))> =
        segments.chunks(2).map(|c| (c[0], c[1])).collect();
    assert_eq!(pairs[3], ((0, 1), (0, 0)));
    assert_eq!(pairs[5], ((6, 5), (5, 5)));
}

#[test]
fn point_table_lists_meshes_then_the_square() {
    let meshes: Vec<Vec<u8>> = vec![vec![1, 2, 3], vec![4]];
    let info = build_point_info(&meshes, &[10, 11, 12, 13]);
    assert_eq!(info.points, vec![1, 2, 3, 4, 10, 11, 12, 13]);
    assert_eq!(info.next_ids, vec![2, 0, -2, 0, 3, 0, 0, -3]);
}

#[test]
fn point_table_offsets_wrap_as_i8() {
    let meshes: Vec<Vec<u16>> = vec![(0..200).collect(), (0..127).collect()];
    let info = build_point_info(&meshes, &[0, 0, 0, 0]);
    assert_eq!(info.next_ids.len(), info.points.len());
    // 200 taken as an i8 is -56, and the offset is one less
    assert_eq!(info.next_ids[0], -57);
    assert_eq!(info.next_ids[199], 57);
    assert_eq!(info.next_ids[200], 126);
    assert_eq!(info.next_ids[326], -126);
    assert!(info.next_ids[1..199].iter().all(|&i| i == 0));
}

#[test]
fn caster_starts_empty() {
    let ctrl: CastCtrl<(f32, f32)> = CastCtrl::new(12);
    assert!(ctrl.viz_pts.is_empty());
    assert_eq!(ctrl.total_pt_num, 12);
    assert_eq!(ctrl.shadow_buffer_len(), 24);
}

#[test]
fn shadow_buffer_len_wraps_like_a_shift() {
    let ctrl: CastCtrl<u8> = CastCtrl::new(usize::MAX);
    assert_eq!(ctrl.shadow_buffer_len(), usize::MAX << 1);
}

#[test]
fn caster_takes_the_valid_prefix() {
    let mut ctrl: CastCtrl<u8> = CastCtrl::new(3);
    ctrl.viz_pts = vec![7, 7];
    ctrl.take_visible(&vec![1, 2, 3, 4, 5, 6], 4);
    assert_eq!(ctrl.viz_pts, vec![1, 2, 3, 4]);
    assert_eq!(ctrl.total_pt_num, 3);
    ctrl.take_visible(&vec![1, 2], 0);
    assert!(ctrl.viz_pts.is_empty());
}

#[test]
fn keys_map_to_actions() {
    assert_eq!(key_action(KeyKind::P), KeyAction::PrintPose);
    assert_eq!(key_action(KeyKind::Escape), KeyAction::Exit);
    assert_eq!(key_action(KeyKind::Other), KeyAction::Ignore);
}
