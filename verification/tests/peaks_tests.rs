use topo_core::camera::ViewMode;
use topo_core::peaks::Peak;
use topo_core::peaks::PeaksError;
use topo_core::peaks::read_peaks;
use topo_core::peaks::sort_peaks_by_elevation;

#[test]
fn read_from_csv() {
    let csv_sample = r#"
latitude,longitude,name,elevation
49.542824,20.111383,Turbacz,1310.0
50.054916,19.893354,Kopiec Kościuszki,326.5"#;

    let expected = vec![
        Peak {
            latitude_micro: 49_542_824,
            longitude_micro: 20_111_383,
            name: "Turbacz".to_owned(),
            elevation_micro: 1_310_000_000,
        },
        Peak {
            latitude_micro: 50_054_916,
            longitude_micro: 19_893_354,
            name: "Kopiec Kościuszki".to_owned(),
            elevation_micro: 326_500_000,
        },
    ];

    let read = read_peaks(csv_sample);

    if let Err(e) = &read {
        println!("error: {e:?}");
    }

    assert_eq!(read.unwrap(), expected);
}

#[test]
fn empty_input_has_no_peaks() {
    assert_eq!(read_peaks(""), Ok(vec![]));
    assert_eq!(read_peaks("\n\n"), Ok(vec![]));
}

#[test]
fn wrong_header_is_rejected() {
    let r = read_peaks("name,elevation\nTurbacz,1310.0\n");
    assert_eq!(r, Err(PeaksError::BadHeader));
}

#[test]
fn malformed_rows_are_collected() {
    let input = "latitude,longitude,name,elevation\n\
                 49.5,20.1,Turbacz,1310.0\n\
                 not-a-number,20.1,Broken,10\n\
                 49.0,19.0,Radziejowa,1262.0\n\
                 49.0,19.0,too,many,fields\n";
    match read_peaks(input) {
        Err(PeaksError::MalformedRows(rows)) => assert_eq!(rows, vec![1, 3]),
        other => panic!("expected malformed rows, got {other:?}"),
    }
}

#[test]
fn negative_coordinates_and_windows_line_ends() {
    let input = "latitude,longitude,name,elevation\r\n-33.962,18.409,Table Mountain,1085.0\r\n";
    let peaks = read_peaks(input).unwrap();
    assert_eq!(peaks.len(), 1);
    assert_eq!(peaks[0].latitude_micro, -33_962_000);
    assert_eq!(peaks[0].longitude_micro, 18_409_000);
    assert_eq!(peaks[0].name, "Table Mountain");
    assert_eq!(peaks[0].elevation_micro, 1_085_000_000);
}

#[test]
fn peaks_sort_highest_first() {
    let peak = |name: &str, elevation_micro: i64| Peak {
        latitude_micro: 0,
        longitude_micro: 0,
        name: name.to_owned(),
        elevation_micro,
    };
    let sorted = sort_peaks_by_elevation(vec![
        peak("low", 326_500_000),
        peak("high", 2_499_000_000),
        peak("mid", 1_310_000_000),
        peak("mid twin", 1_310_000_000),
    ]);
    let names: Vec<&str> = sorted.iter().map(|p| p.name.as_str()).collect();
    assert_eq!(names, vec!["high", "mid", "mid twin", "low"]);
}

#[test]
fn view_mode_cycles() {
    let m = ViewMode::Default;
    let m = m.toggle();
    assert_eq!(m, ViewMode::Normals);
    let m = m.toggle();
    assert_eq!(m, ViewMode::Position);
    let m = m.toggle();
    assert_eq!(m, ViewMode::Default);
}
