use voxel_terrain::math::IVec3;
use voxel_terrain::utils::{
    generate_indices, get_edging_chunk, index_to_ivec3, index_to_ivec3_bounds,
    index_to_ivec3_bounds_reverse, is_on_edge, make_vertex_u32, vec3_to_index,
};

#[test]
fn index_functions() {
    for z in 0..32 {
        for y in 0..32 {
            for x in 0..32 {
                let pos = IVec3::new(x, y, z);
                let index = vec3_to_index(pos, 32);
                let from_index = index_to_ivec3_bounds(index as i32, 32);
                assert_eq!(pos, from_index);
            }
        }
    }
}

#[test]
fn index_to_ivec3_splits_x_fastest() {
    assert_eq!(index_to_ivec3(1 + 2 * 32 + 3 * 1024), IVec3::new(1, 2, 3));
    assert_eq!(index_to_ivec3(0), IVec3::new(0, 0, 0));
    assert_eq!(index_to_ivec3(32767), IVec3::new(31, 31, 31));
}

#[test]
fn index_to_ivec3_bounds_reverse_splits_z_fastest() {
    assert_eq!(index_to_ivec3_bounds_reverse(1 + 2 * 3 + 2 * 9, 3), IVec3::new(2, 2, 1));
}

#[test]
fn vec3_to_index_flattens() {
    assert_eq!(vec3_to_index(IVec3::new(1, 2, 3), 32), 1 + 2 * 32 + 3 * 1024);
    assert_eq!(vec3_to_index(IVec3::new(1, 1, 1), 3), 13);
}

#[test]
fn vertex_word_layout() {
    let v = make_vertex_u32(IVec3::new(1, 2, 3), 2, 3, 1);
    assert_eq!(v, 1 | 2 << 6 | 3 << 12 | 2 << 18 | 3 << 21 | 1 << 25);
    assert_eq!(v & 63, 1);
    assert_eq!((v >> 6) & 63, 2);
    assert_eq!((v >> 12) & 63, 3);
    assert_eq!((v >> 18) & 7, 2);
    assert_eq!((v >> 21) & 15, 3);
    assert_eq!(v >> 25, 1);
    let top = make_vertex_u32(IVec3::new(33, 33, 33), 3, 5, 2);
    assert_eq!(top & 63, 33);
    assert_eq!(top >> 25, 2);
}

#[test]
fn indices_follow_quad_pattern() {
    assert_eq!(generate_indices(8), vec![0, 1, 2, 0, 2, 3, 4, 5, 6, 4, 6, 7]);
    assert_eq!(generate_indices(0), Vec::<u32>::new());
    assert_eq!(generate_indices(6).len(), 6);
}

#[test]
fn edging_chunk_of_border_positions() {
    assert_eq!(get_edging_chunk(IVec3::new(0, 5, 31)), Some(IVec3::new(-1, 0, 1)));
    assert_eq!(get_edging_chunk(IVec3::new(0, 0, 0)), Some(IVec3::new(-1, -1, -1)));
    assert_eq!(get_edging_chunk(IVec3::new(15, 15, 15)), None);
    assert_eq!(get_edging_chunk(IVec3::new(15, 0, 0)), Some(IVec3::new(0, -1, -1)));
}

#[test]
fn on_edge_planes() {
    assert!(is_on_edge(IVec3::new(0, 5, 5)));
    assert!(is_on_edge(IVec3::new(5, 32, 5)));
    assert!(!is_on_edge(IVec3::new(31, 5, 5)));
}
