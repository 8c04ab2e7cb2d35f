use media_compressor::job::{base_name_of, Job, Outcome};
use media_compressor::marker::{chars_of, parse_line};
use media_compressor::registry::{ProgressEntry, Registry};

fn s(x: &str) -> String {
    x.to_string()
}

#[test]
fn duration_at_lower_bound() {
    let m = parse_line("  Duration: 00:00:00.00, start: 0.000000, bitrate: 0 kb/s");
    assert_eq!(m.total, Some(0));
    assert_eq!(m.position, None);
}

#[test]
fn duration_at_upper_bound() {
    let m = parse_line("  Duration: 23:59:59.99, start: 0.000000");
    assert_eq!(m.total, Some(23 * 3600 + 59 * 60 + 59));
}

#[test]
fn duration_formula() {
    assert_eq!(parse_line("Duration: 01:02:03").total, Some(3723));
    assert_eq!(parse_line("Duration: 00:01:30").total, Some(90));
}

#[test]
fn position_marker() {
    let m = parse_line("frame=  240 fps= 24 q=28.0 size=    512kB time=00:00:45.12 bitrate= 93.2kbits/s");
    assert_eq!(m.position, Some(45));
    assert_eq!(m.total, None);
}

#[test]
fn line_without_marker() {
    let m = parse_line("Stream #0:0: Video: h264");
    assert_eq!(m.total, None);
    assert_eq!(m.position, None);
    assert_eq!(parse_line("").total, None);
}

#[test]
fn malformed_marker_is_no_marker() {
    assert_eq!(parse_line("  Duration: N/A, start: 0.000000").total, None);
    assert_eq!(parse_line("time=N/A bitrate=N/A").position, None);
    assert_eq!(parse_line("Duration: 12:34").total, None);
    assert_eq!(parse_line("Duration:00:00:10").total, None);
}

#[test]
fn oversized_marker_is_no_marker() {
    assert_eq!(parse_line("Duration: 99999999999999999999:00:00").total, None);
    assert_eq!(parse_line("Duration: 5124095576030432:00:00").total, None);
    assert_eq!(parse_line("Duration: 5124095576030431:00:15").total, Some(u64::MAX));
    assert_eq!(parse_line("Duration: 5124095576030431:00:16").total, None);
}

#[test]
fn leftmost_marker_wins() {
    let m = parse_line("Duration: N/A Duration: 00:00:07 Duration: 00:00:09");
    assert_eq!(m.total, Some(7));
}

#[test]
fn line_with_both_markers() {
    let m = parse_line("Duration: 00:00:10 time=00:00:04");
    assert_eq!(m.total, Some(10));
    assert_eq!(m.position, Some(4));
}

#[test]
fn chars_are_kept_in_order() {
    assert_eq!(chars_of("aé/b"), vec!['a', 'é', '/', 'b']);
}

#[test]
fn base_name_of_paths() {
    assert_eq!(base_name_of("in/dir/clip.mp4"), "clip.mp4");
    assert_eq!(base_name_of("C:\\videos\\clip.mp4"), "clip.mp4");
    assert_eq!(base_name_of("clip.mp4"), "clip.mp4");
    assert_eq!(base_name_of("in/"), "");
}

#[test]
fn duration_then_time_gives_half() {
    let mut reg = Registry::new();
    let mut job = Job::new(s("in/movie.mp4"), s("out/movie.mp4"));
    job.on_line(&mut reg, "  Duration: 00:01:30.00, start: 0.000000");
    job.on_line(&mut reg, "frame= 100 time=00:00:45.00 bitrate=1.0kbits/s");
    assert_eq!(reg.entry(&s("movie.mp4")), Some((90, 45)));
    let snap = reg.snapshot();
    assert_eq!(snap.len(), 1);
    assert_eq!(snap[0].label, "movie.mp4");
    assert_eq!(snap[0].percent(), Some(50));
}

#[test]
fn position_before_duration_is_ignored() {
    let mut reg = Registry::new();
    let mut job = Job::new(s("in/a.mp4"), s("out/a.mp4"));
    job.on_line(&mut reg, "time=00:00:12.00");
    assert!(!job.total_seen);
    assert_eq!(reg.entry(&s("a.mp4")), None);
    assert_eq!(reg.snapshot().len(), 0);
    job.on_line(&mut reg, "Duration: 00:00:40.00");
    assert_eq!(reg.entry(&s("a.mp4")), Some((40, 0)));
}

#[test]
fn advance_without_entry_creates_none() {
    let mut reg = Registry::new();
    reg.advance(&s("ghost.mp4"), 10);
    assert_eq!(reg.snapshot().len(), 0);
}

#[test]
fn first_total_stays() {
    let mut reg = Registry::new();
    reg.upsert_total(&s("a.mp4"), 100);
    reg.upsert_total(&s("a.mp4"), 200);
    assert_eq!(reg.entry(&s("a.mp4")), Some((100, 0)));
    assert_eq!(reg.snapshot().len(), 1);
}

#[test]
fn position_never_goes_back() {
    let mut reg = Registry::new();
    reg.upsert_total(&s("a.mp4"), 100);
    reg.advance(&s("a.mp4"), 60);
    reg.advance(&s("a.mp4"), 30);
    assert_eq!(reg.entry(&s("a.mp4")), Some((100, 60)));
}

#[test]
fn labels_advance_independently() {
    let mut reg = Registry::new();
    let mut a = Job::new(s("in/a.mp4"), s("out/a.mp4"));
    let mut b = Job::new(s("in/b.mp4"), s("out/b.mp4"));
    a.on_line(&mut reg, "Duration: 00:00:50");
    b.on_line(&mut reg, "Duration: 00:02:00");
    a.on_line(&mut reg, "time=00:00:25");
    assert_eq!(reg.entry(&s("a.mp4")), Some((50, 25)));
    assert_eq!(reg.entry(&s("b.mp4")), Some((120, 0)));
    b.on_line(&mut reg, "time=00:01:00");
    assert_eq!(reg.entry(&s("a.mp4")), Some((50, 25)));
    assert_eq!(reg.entry(&s("b.mp4")), Some((120, 60)));
}

#[test]
fn percent_with_unknown_total() {
    let e = ProgressEntry { label: s("x.mp4"), total: 0, current: 5 };
    assert_eq!(e.percent(), None);
    let f = ProgressEntry { label: s("y.mp4"), total: 3, current: 2 };
    assert_eq!(f.percent(), Some(66));
    let g = ProgressEntry { label: s("z.mp4"), total: 1, current: u64::MAX };
    assert_eq!(g.percent(), Some(u64::MAX as u128 * 100));
}

#[test]
fn source_deleted_only_on_success() {
    let job = Job::new(s("in/a.mp4"), s("out/a.mp4"));
    assert_eq!(job.on_exit(true), Outcome::DeleteSource);
    assert_eq!(job.on_exit(false), Outcome::KeepSource);
}

#[test]
fn invocation_outside_windows() {
    let job = Job::new(s("in/a.mp4"), s("out/a.mp4"));
    assert_eq!(
        job.invocation(false),
        vec![
            s("sh"),
            s("-c"),
            s("cpulimit -l 50 -- ffmpeg -i in/a.mp4 -loglevel debug -vcodec libx265 -crf 28 -tune zerolatency -preset medium out/a.mp4 -y 2>&1"),
        ]
    );
}

#[test]
fn invocation_on_windows() {
    let job = Job::new(s("in\\a.mp4"), s("out/a.mp4"));
    assert_eq!(
        job.invocation(true),
        vec![
            s("cmd"),
            s("/C"),
            s("ffmpeg -i in\\a.mp4 -loglevel debug -vcodec libx265 -crf 28 -tune zerolatency -preset medium out/a.mp4 -y 2>&1"),
        ]
    );
    assert_eq!(job.label, "a.mp4");
}
