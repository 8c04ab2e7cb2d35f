use media_compressor::schedule::{is_media_file, scan, Dispatcher, Step, WorkItem};

fn names(xs: &[&str]) -> Vec<String> {
    xs.iter().map(|x| x.to_string()).collect()
}

#[test]
fn media_extension_filter() {
    assert!(is_media_file("a.mp4"));
    assert!(is_media_file(".mp4"));
    assert!(!is_media_file("mp4"));
    assert!(!is_media_file("a.mp4.part"));
    assert!(!is_media_file("a.MP4"));
    assert!(!is_media_file("a.mkv"));
}

#[test]
fn scan_keeps_media_files_in_order() {
    let items = scan(&names(&["b.mp4", "notes.txt", "a.mp4", "mp4"]), "in", "out");
    let got: Vec<(String, String)> =
        items.iter().map(|w| (w.source.clone(), w.destination.clone())).collect();
    assert_eq!(
        got,
        vec![
            ("in/b.mp4".to_string(), "out/b.mp4".to_string()),
            ("in/a.mp4".to_string(), "out/a.mp4".to_string()),
        ]
    );
}

#[test]
fn scan_of_empty_listing() {
    assert!(scan(&Vec::new(), "in", "out").is_empty());
}

fn run_cycle(n: usize, limit: usize) -> (Vec<String>, usize) {
    let items: Vec<WorkItem> = (0..n)
        .map(|i| WorkItem { source: format!("in/{}.mp4", i), destination: format!("out/{}.mp4", i) })
        .collect();
    let mut d = Dispatcher::new(items, limit);
    let mut trace = Vec::new();
    let mut peak = 0;
    loop {
        match d.step() {
            Step::Dispatch(w) => trace.push(w.source),
            Step::AwaitBatch => {
                trace.push("await".to_string());
                d.batch_done();
            }
            Step::Sleep => break,
        }
        peak = peak.max(d.in_flight());
    }
    (trace, peak)
}

#[test]
fn batches_respect_the_limit() {
    let (trace, peak) = run_cycle(5, 2);
    assert_eq!(
        trace,
        vec!["in/0.mp4", "in/1.mp4", "await", "in/2.mp4", "in/3.mp4", "await", "in/4.mp4", "await"]
    );
    assert_eq!(peak, 2);
}

#[test]
fn limit_of_one_runs_one_at_a_time() {
    let (trace, peak) = run_cycle(3, 1);
    assert_eq!(trace, vec!["in/0.mp4", "await", "in/1.mp4", "await", "in/2.mp4", "await"]);
    assert_eq!(peak, 1);
}

#[test]
fn limit_above_listing_size() {
    let (trace, peak) = run_cycle(2, 8);
    assert_eq!(trace, vec!["in/0.mp4", "in/1.mp4", "await"]);
    assert_eq!(peak, 2);
}

#[test]
fn empty_cycle_sleeps_at_once() {
    let (trace, peak) = run_cycle(0, 3);
    assert!(trace.is_empty());
    assert_eq!(peak, 0);
}

#[test]
fn rescan_finds_only_the_failed_file() {
    let first = scan(&names(&["a.mp4", "b.mp4", "c.mp4", "readme.txt"]), "in", "out");
    assert_eq!(first.len(), 3);
    // a.mp4 and c.mp4 succeeded and were removed; b.mp4 failed and stays.
    let second = scan(&names(&["b.mp4", "readme.txt"]), "in", "out");
    assert_eq!(second.len(), 1);
    assert_eq!(second[0].source, "in/b.mp4");
    assert_eq!(second[0].destination, "out/b.mp4");
}
