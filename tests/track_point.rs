use chrono::{TimeZone, Utc};
use gpx_map_movie::track_point::{GroupIterater, Track, TrackIter, TrackPoint, TrackSegment, Waypoint};

fn wp(time: Option<i64>, lat: i32, lng: i32) -> Waypoint {
    Waypoint { time, lat, lng }
}

fn track_of(points: Vec<Waypoint>) -> Track {
    Track { segments: vec![TrackSegment { points }] }
}

fn collect(mut iter: TrackIter) -> Vec<TrackPoint> {
    let mut out = Vec::new();
    while let Some(p) = iter.next() {
        out.push(p);
    }
    out
}

fn ride_start() -> i64 {
    Utc.with_ymd_and_hms(2020, 7, 31, 22, 27, 46).unwrap().timestamp_millis()
}

fn ride() -> Track {
    let s = ride_start();
    Track {
        segments: vec![
            TrackSegment {
                points: vec![
                    wp(Some(s - 4000), 356_120_000, 1_392_270_000),
                    wp(None, 356_120_500, 1_392_270_500),
                    wp(Some(s - 1000), 356_121_000, 1_392_271_000),
                ],
            },
            TrackSegment {
                points: vec![
                    wp(Some(s), 356_122_000, 1_392_272_500),
                    wp(Some(s + 3000), 356_125_000, 1_392_276_000),
                    wp(Some(s + 181_000), 356_300_000, 1_392_500_000),
                ],
            },
        ],
    }
}

#[test]
fn hoge() {
    let track = ride();
    let start_date = Some(ride_start());
    let end_date: Option<i64> = None;

    let mut iter = TrackIter::get_iter(&track, 60, start_date, end_date);
    let r = iter.move_to_dt(start_date.unwrap());
    let next = iter.point_next().unwrap();
    let prev = iter.point_prev().unwrap();

    assert_eq!(r, true);
    let r2 = iter.move_to_dt(start_date.unwrap());
    let next2 = iter.point_next().unwrap();
    let prev2 = iter.point_prev().unwrap();

    assert_eq!(r2, true);

    assert_eq!(prev.time, prev2.time);
    assert_eq!(next.time, next2.time);

    println!("{:?} {:?}", prev, next);
    println!("{:?} {:?}", prev2, next2);

    let r = TrackIter::calc_position(&prev, &next, start_date.unwrap());
    println!("{:?}", r);

    assert_eq!(next.lat, r.lat);
    assert_eq!(next.lng, r.lng);
}

#[test]
fn hage() {
    let track = ride();
    let start_date = Some(ride_start());
    let end_date = Some(Utc.with_ymd_and_hms(2020, 7, 31, 22, 30, 46).unwrap().timestamp_millis());

    let iter = TrackIter::get_iter(&track, 2, start_date, end_date);
    let mut count = 0;
    for track in collect(iter) {
        println!("{:?}", track);
        count += 1;
    }
    assert_eq!(count, 180 * 2 + 1);
}

fn three_fixes() -> Track {
    track_of(vec![
        wp(Some(0), 350_000_000, 1_390_000_000),
        wp(Some(2000), 350_002_000, 1_390_002_000),
        wp(Some(5000), 350_010_000, 1_390_010_000),
    ])
}

#[test]
fn three_fixes_at_one_sample_per_second() {
    let samples = collect(TrackIter::get_iter(&three_fixes(), 1, None, None));
    let times: Vec<i64> = samples.iter().map(|p| p.time).collect();
    assert_eq!(times, vec![0, 1000, 2000, 3000, 4000, 5000]);
    assert_eq!(samples[0], TrackPoint { time: 0, lat: 350_000_000, lng: 1_390_000_000 });
    assert_eq!((samples[1].lat, samples[1].lng), (350_001_000, 1_390_001_000));
    assert_eq!((samples[2].lat, samples[2].lng), (350_002_000, 1_390_002_000));
    assert_eq!((samples[3].lat, samples[3].lng), (350_004_666, 1_390_004_666));
    assert_eq!((samples[4].lat, samples[4].lng), (350_007_333, 1_390_007_333));
    assert_eq!((samples[5].lat, samples[5].lng), (350_010_000, 1_390_010_000));
}

#[test]
fn end_bound_is_inclusive_and_stops_the_run() {
    let mut iter = TrackIter::get_iter(&three_fixes(), 1, None, Some(4000));
    let mut times = Vec::new();
    while let Some(p) = iter.next() {
        times.push(p.time);
    }
    assert_eq!(times, vec![0, 1000, 2000, 3000, 4000]);
    assert_eq!(iter.next(), None);
    assert_eq!(iter.next(), None);
}

#[test]
fn first_sample_without_start_is_first_fix() {
    let mut iter = TrackIter::get_iter(&three_fixes(), 30, None, None);
    assert_eq!(iter.next(), Some(TrackPoint { time: 0, lat: 350_000_000, lng: 1_390_000_000 }));
}

#[test]
fn start_before_first_fix_is_clamped() {
    let mut iter = TrackIter::get_iter(&three_fixes(), 1, Some(-1500), None);
    let first = TrackPoint { time: 0, lat: 350_000_000, lng: 1_390_000_000 };
    assert_eq!(iter.next(), Some(first));
    assert_eq!(iter.next(), Some(first));
    assert_eq!(iter.next().map(|p| p.time), Some(500));
}

#[test]
fn single_fix_gives_exactly_one_sample() {
    let fix = wp(Some(7000), 350_000_000, 1_390_000_000);
    for fps in [1usize, 2, 30, 60, 1000] {
        let samples = collect(TrackIter::get_iter(&track_of(vec![fix]), fps, None, None));
        assert_eq!(samples, vec![TrackPoint { time: 7000, lat: 350_000_000, lng: 1_390_000_000 }]);
    }
}

#[test]
fn resampling_twice_gives_the_same_samples() {
    let a = collect(TrackIter::get_iter(&three_fixes(), 7, Some(300), Some(4800)));
    let b = collect(TrackIter::get_iter(&three_fixes(), 7, Some(300), Some(4800)));
    assert!(!a.is_empty());
    assert_eq!(a, b);
}

#[test]
fn sample_times_increase_with_rounded_offsets() {
    let samples = collect(TrackIter::get_iter(&three_fixes(), 3, None, None));
    let times: Vec<i64> = samples.iter().map(|p| p.time).collect();
    assert_eq!(
        times,
        vec![0, 333, 667, 1000, 1333, 1667, 2000, 2333, 2667, 3000, 3333, 3667, 4000, 4333, 4667, 5000]
    );
    for w in times.windows(2) {
        assert!(w[0] < w[1]);
    }
}

#[test]
fn fixes_without_time_are_dropped() {
    let track = track_of(vec![
        wp(None, 1, 1),
        wp(Some(1000), 10, 20),
        wp(None, 5, 5),
        wp(Some(3000), 30, 40),
    ]);
    let samples = collect(TrackIter::get_iter(&track, 1, None, None));
    let times: Vec<i64> = samples.iter().map(|p| p.time).collect();
    assert_eq!(times, vec![1000, 2000, 3000]);
    assert_eq!((samples[1].lat, samples[1].lng), (20, 30));
}

#[test]
fn empty_track_gives_nothing() {
    let mut iter = TrackIter::get_iter(&Track { segments: vec![] }, 30, None, None);
    assert_eq!(iter.next(), None);
    let mut iter = TrackIter::get_iter(&track_of(vec![wp(None, 1, 2)]), 30, None, None);
    assert_eq!(iter.next(), None);
    assert_eq!(iter.point_next(), None);
}

#[test]
fn start_after_last_fix_gives_nothing() {
    let mut iter = TrackIter::get_iter(&three_fixes(), 1, Some(5001), None);
    assert_eq!(iter.next(), None);
}

#[test]
fn calc_position_blends_and_rounds_toward_prev() {
    let prev = TrackPoint { time: 1000, lat: 100, lng: -100 };
    let next = TrackPoint { time: 4000, lat: 110, lng: -110 };
    assert_eq!(TrackIter::calc_position(&prev, &next, 1000), TrackPoint { time: 1000, lat: 100, lng: -100 });
    assert_eq!(TrackIter::calc_position(&prev, &next, 2000), TrackPoint { time: 2000, lat: 103, lng: -103 });
    assert_eq!(TrackIter::calc_position(&prev, &next, 2500), TrackPoint { time: 2500, lat: 105, lng: -105 });
    assert_eq!(TrackIter::calc_position(&prev, &next, 4000), TrackPoint { time: 4000, lat: 110, lng: -110 });
    assert_eq!(TrackIter::calc_position(&prev, &prev, 9000), prev);
}

#[test]
fn calc_position_spans_the_whole_coordinate_range() {
    let prev = TrackPoint { time: i64::MIN, lat: -900_000_000, lng: -1_800_000_000 };
    let next = TrackPoint { time: i64::MAX, lat: 900_000_000, lng: 1_800_000_000 };
    let mid = TrackIter::calc_position(&prev, &next, 0);
    assert_eq!(mid.lat, 0);
    assert_eq!(mid.lng, 0);
}

#[test]
fn batches_are_consecutive_runs_of_samples() {
    let all = collect(TrackIter::get_iter(&three_fixes(), 1, None, None));
    let mut groups = GroupIterater::new(TrackIter::get_iter(&three_fixes(), 1, None, None), 4);
    let first = groups.next().unwrap();
    let second = groups.next().unwrap();
    assert_eq!(first.len(), 4);
    assert_eq!(second.len(), 2);
    assert_eq!(groups.next(), None);
    let joined: Vec<TrackPoint> = first.into_iter().chain(second).collect();
    assert_eq!(joined, all);
}

#[test]
fn batch_size_zero_gives_single_samples() {
    let mut groups = GroupIterater::new(TrackIter::get_iter(&three_fixes(), 1, None, Some(1000)), 0);
    assert_eq!(groups.next().map(|g| g.len()), Some(1));
    assert_eq!(groups.next().map(|g| g.len()), Some(1));
    assert_eq!(groups.next(), None);
}
