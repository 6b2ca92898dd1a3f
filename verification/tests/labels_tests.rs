use topo_core::geo::GeoLocation;
use topo_core::labels::LabelId;
use topo_core::labels::LabelRequest;
use topo_core::labels::layout_labels;
use topo_core::labels::process_label_layout;

fn requests(positions: &[u32], widths: &[u32]) -> Vec<LabelRequest> {
    let location = GeoLocation::from_coord(0, 0);
    positions
        .iter()
        .zip(widths.iter())
        .enumerate()
        .map(|(i, (&x, &w))| LabelRequest {
            location,
            id: LabelId(i as u32),
            x,
            y: 0,
            width: Some(w),
        })
        .collect()
}

fn layout_rows(positions: &[u32], widths: &[u32]) -> Vec<(u32, usize)> {
    layout_labels(&requests(positions, widths))
        .into_iter()
        .map(|l| (l.x, l.row))
        .collect()
}

#[test]
fn layout_table_matches_reference_rows() {
    let cases: &[(&[u32], &[u32], &[(u32, usize)])] = &[
        (&[0, 5, 2], &[1, 1, 5], &[(0, 0), (5, 0), (2, 1)]),
        (&[0, 6, 2], &[1, 2, 5], &[(0, 0), (6, 0), (2, 1)]),
        (&[0, 8, 2], &[1, 1, 5], &[(0, 0), (8, 0), (2, 0)]),
        (&[1, 5, 2], &[2, 1, 5], &[(1, 0), (5, 0), (2, 1)]),
        (&[1, 6, 2], &[2, 2, 5], &[(1, 0), (6, 0), (2, 1)]),
        (&[1, 8, 2], &[2, 1, 5], &[(1, 0), (8, 0), (2, 1)]),
        (&[3, 5, 2], &[1, 1, 5], &[(3, 0), (5, 0), (2, 1)]),
        (&[3, 6, 2], &[1, 2, 5], &[(3, 0), (6, 0), (2, 1)]),
        (&[3, 8, 2], &[1, 1, 5], &[(3, 0), (8, 0), (2, 1)]),
        (&[1, 9, 2], &[7, 1, 5], &[(1, 0), (9, 0), (2, 1)]),
    ];
    for (positions, widths, expected) in cases {
        let got = layout_rows(positions, widths);
        assert_eq!(&got[..], *expected, "positions {positions:?} widths {widths:?}");
    }
}

#[test]
fn label_without_width_is_skipped() {
    let location = GeoLocation::from_coord(0, 0);
    let reqs = vec![
        LabelRequest { location, id: LabelId(0), x: 0, y: 0, width: Some(1) },
        LabelRequest { location, id: LabelId(1), x: 0, y: 0, width: None },
        LabelRequest { location, id: LabelId(2), x: 0, y: 0, width: Some(1) },
    ];
    let placed = layout_labels(&reqs);
    let ids: Vec<u32> = placed.iter().map(|l| l.id.0).collect();
    assert_eq!(ids, vec![0, 2]);
    assert_eq!(placed[0].row, 0);
    assert_eq!(placed[1].row, 1);
}

#[test]
fn row_cap_drops_label() {
    // Nine labels over the same span: eight rows fill, the ninth label
    // is dropped for this pass.
    let positions = [0u32; 9];
    let widths = [4u32; 9];
    let placed = layout_labels(&requests(&positions, &widths));
    assert_eq!(placed.len(), 8);
    for (i, l) in placed.iter().enumerate() {
        assert_eq!(l.row, i);
    }
}

#[test]
fn process_label_layout_reports_chosen_row() {
    let mut rows = Vec::new();
    assert_eq!(process_label_layout(&mut rows, 0, 1), Some(0));
    assert_eq!(process_label_layout(&mut rows, 5, 1), Some(0));
    assert_eq!(process_label_layout(&mut rows, 2, 5), Some(1));
    assert_eq!(rows.len(), 2);
}
