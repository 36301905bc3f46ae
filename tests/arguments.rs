use gpx_map_movie::arguments::{get_date_parameter, DateParamError, Opts};

fn opts(start: Option<&str>, end: Option<&str>) -> Opts {
    Opts {
        gpx_file: "ride.gpx".to_string(),
        dest_file: "dest.mp4".to_string(),
        start_dt: start.map(|s| s.to_string()),
        end_dt: end.map(|s| s.to_string()),
        map_image_size: 400,
        zoom: 16,
        tile_dir: "tiles".to_string(),
    }
}

#[test]
fn missing_parameter_is_none() {
    assert_eq!(get_date_parameter(&None), Ok(None));
    assert_eq!(opts(None, None).get_start_date(), Ok(None));
    assert_eq!(opts(None, None).get_end_date(), Ok(None));
}

#[test]
fn malformed_parameter_is_rejected() {
    assert_eq!(get_date_parameter(&Some("2020/07/31 22:27:46".to_string())), Err(DateParamError::Malformed));
    assert_eq!(opts(Some("yesterday"), None).get_start_date(), Err(DateParamError::Malformed));
    assert_eq!(opts(None, Some("2020-07-31 24:00:00")).get_end_date(), Err(DateParamError::Malformed));
}

#[test]
fn well_formed_parameter_gives_an_instant() {
    let start = opts(Some("2020-07-31 22:27:46"), Some("2020-07-31 22:30:46"));
    let a = start.get_start_date().unwrap().unwrap();
    let b = start.get_end_date().unwrap().unwrap();
    assert_eq!(b - a, 180_000);
    assert_eq!(a % 1000, 0);
}
