use topo_core::mesh::MeshError;
use topo_core::mesh::compute_work_group_count;
use topo_core::mesh::generate_indices;

#[test]
fn placeholder_quad_indices() {
    // A 2x2 grid has one interior cell; both diagonal choices.
    let inds = generate_indices(4, 2, 2, &vec![true; 4]).unwrap();
    assert_eq!(inds, vec![1, 0, 2, 2, 3, 1]);
    let inds = generate_indices(4, 2, 2, &vec![false; 4]).unwrap();
    assert_eq!(inds, vec![3, 1, 0, 0, 2, 3]);
}

#[test]
fn three_by_three_grid_has_four_cells() {
    let inds = generate_indices(9, 3, 3, &vec![false; 9]).unwrap();
    assert_eq!(inds.len(), 24);
    // Cell at vertex 0: bl 0, br 1, tl 3, tr 4.
    assert_eq!(&inds[0..6], &[4, 1, 0, 0, 3, 4]);
    // Cell at vertex 4: bl 4, br 5, tl 7, tr 8.
    assert_eq!(&inds[18..24], &[8, 5, 4, 4, 7, 8]);
    // Every index addresses a vertex.
    assert!(inds.iter().all(|&i| (i as usize) < 9));
}

#[test]
fn vertex_count_mismatch_is_rejected() {
    let r = generate_indices(5, 2, 2, &vec![true; 5]);
    assert_eq!(r.unwrap_err(), MeshError::VertexCountMismatch);
    assert_eq!(
        MeshError::VertexCountMismatch.message(),
        "The length of produced vertices doesn't match the original raster width and height!"
    );
}

#[test]
fn empty_raster_yields_no_indices() {
    let inds = generate_indices(0, 0, 0, &vec![]).unwrap();
    assert!(inds.is_empty());
}

#[test]
fn workgroup_counts_round_up() {
    assert_eq!(compute_work_group_count((100, 50), (16, 16)), (7, 4));
    assert_eq!(compute_work_group_count((64, 64), (16, 16)), (4, 4));
    assert_eq!(compute_work_group_count((1, 1), (16, 16)), (1, 1));
    assert_eq!(compute_work_group_count((0, 0), (16, 16)), (0, 0));
}
