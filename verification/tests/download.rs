use rominator::download::{download_events, start_download, Chunk, DownloadError, Event, UPDATE_INTERVAL};

const MS: u128 = 1_000_000;

fn progress_of(event: &Event) -> (u64, u64, u128, bool) {
    let p = event.progress();
    (p.transfered, p.percentage, p.elapsed, event.is_complete())
}

#[test]
fn missing_content_length_is_an_error() {
    let r = start_download(String::from("a"), 200, None);
    assert!(matches!(r, Err(DownloadError::MissingContentLength)));
    let r = download_events(String::from("a"), 200, None, &vec![]);
    assert!(matches!(r, Err(DownloadError::MissingContentLength)));
}

#[test]
fn response_without_success_is_an_error() {
    for status in [0u16, 100, 199, 300, 301, 404, 500, u16::MAX] {
        let r = start_download(String::from("a"), status, Some(10));
        assert!(matches!(r, Err(DownloadError::BadStatus)));
        let r = download_events(String::from("a"), status, None, &vec![]);
        assert!(matches!(r, Err(DownloadError::BadStatus)));
    }
    for status in [200u16, 204, 206, 299] {
        assert!(start_download(String::from("a"), status, Some(10)).is_ok());
    }
}

#[test]
fn fresh_download_has_nothing_transferred() {
    let d = start_download(String::from("id-7"), 200, Some(4096)).unwrap();
    assert_eq!(d.progress.download_id, "id-7");
    assert_eq!(d.progress.filesize, 4096);
    assert_eq!(d.progress.transfered, 0);
    assert_eq!(d.progress.percentage, 0);
    assert_eq!(d.progress.elapsed, 0);
    assert_eq!(d.last_update, 0);
}

#[test]
fn chunk_updates_count_and_truncated_percentage() {
    let mut d = start_download(String::from("x"), 200, Some(1000)).unwrap();
    assert!(d.on_chunk(333, 10 * MS).is_none());
    assert_eq!(d.progress.transfered, 333);
    assert_eq!(d.progress.percentage, 33);
    assert_eq!(d.progress.elapsed, 10 * MS);
    assert!(d.on_chunk(333, 20 * MS).is_none());
    assert_eq!(d.progress.transfered, 666);
    assert_eq!(d.progress.percentage, 66);
}

#[test]
fn transferred_is_clamped_to_the_declared_size() {
    let mut d = start_download(String::from("x"), 200, Some(100)).unwrap();
    d.on_chunk(60, MS);
    d.on_chunk(60, 2 * MS);
    assert_eq!(d.progress.transfered, 100);
    assert_eq!(d.progress.percentage, 100);
    d.on_chunk(u64::MAX, 3 * MS);
    assert_eq!(d.progress.transfered, 100);
    assert_eq!(d.progress.percentage, 100);
}

#[test]
fn percentage_of_a_huge_file_does_not_overflow() {
    let mut d = start_download(String::from("x"), 200, Some(u64::MAX)).unwrap();
    d.on_chunk(u64::MAX / 2, MS);
    assert_eq!(d.progress.percentage, 49);
}

#[test]
fn event_is_due_exactly_at_the_interval() {
    let mut d = start_download(String::from("x"), 200, Some(1000)).unwrap();
    assert!(d.on_chunk(1, UPDATE_INTERVAL - 1).is_none());
    assert_eq!(d.last_update, 0);
    let p = d.on_chunk(1, UPDATE_INTERVAL).unwrap();
    assert_eq!(p.transfered, 2);
    assert_eq!(p.elapsed, UPDATE_INTERVAL);
    assert_eq!(d.last_update, UPDATE_INTERVAL);
    assert!(d.on_chunk(1, 2 * UPDATE_INTERVAL - 1).is_none());
    assert!(d.on_chunk(1, 2 * UPDATE_INTERVAL).is_some());
}

#[test]
fn a_clock_that_goes_back_emits_nothing() {
    let mut d = start_download(String::from("x"), 200, Some(1000)).unwrap();
    assert!(d.on_chunk(1, 600 * MS).is_some());
    assert!(d.on_chunk(1, 50 * MS).is_none());
    assert_eq!(d.last_update, 600 * MS);
}

#[test]
fn finish_gives_progress_then_complete() {
    let mut d = start_download(String::from("dl"), 200, Some(10)).unwrap();
    d.on_chunk(4, 5 * MS);
    let events = d.finish();
    assert_eq!(events.len(), 2);
    assert_eq!(progress_of(&events[0]), (10, 100, 5 * MS, false));
    assert_eq!(progress_of(&events[1]), (10, 100, 5 * MS, true));
    assert_eq!(events[0].channel(), "rom://download:progress");
    assert_eq!(events[1].channel(), "rom://download:complete");
    assert_eq!(events[1].progress().download_id, "dl");
}

#[test]
fn empty_body_still_completes() {
    let events = download_events(String::from("e"), 200, Some(0), &vec![]).unwrap();
    assert_eq!(events.len(), 2);
    assert_eq!(progress_of(&events[0]), (0, 100, 0, false));
    assert_eq!(progress_of(&events[1]), (0, 100, 0, true));
}

#[test]
fn fast_download_emits_only_the_terminal_events() {
    let chunks = vec![Chunk { len: 500, at: MS }, Chunk { len: 500, at: 2 * MS }];
    let events = download_events(String::from("f"), 200, Some(1000), &chunks).unwrap();
    assert_eq!(events.len(), 2);
    assert!(!events[0].is_complete());
    assert!(events[1].is_complete());
}

#[test]
fn ten_megabytes_in_small_chunks() {
    let mut chunks = Vec::new();
    for k in 1..=10_000u128 {
        chunks.push(Chunk { len: 1000, at: k * 150_000 });
    }
    let events = download_events(String::from("big"), 200, Some(10_000_000), &chunks).unwrap();
    let n = events.len();
    assert_eq!(n, 4);
    for k in 0..n - 2 {
        let p = events[k].progress();
        assert!(!events[k].is_complete());
        let earlier = if k == 0 { 0 } else { events[k - 1].progress().elapsed };
        assert!(p.elapsed - earlier >= 500 * MS);
    }
    assert_eq!(events[0].progress().elapsed, 500_100_000);
    assert_eq!(events[0].progress().transfered, 3_334_000);
    assert_eq!(events[0].progress().percentage, 33);
    assert_eq!(events[n - 2].progress().percentage, 100);
    assert_eq!(events[n - 1].progress().percentage, 100);
    assert_eq!(events[n - 1].progress().transfered, 10_000_000);
    assert!(events[n - 1].is_complete());
    assert_eq!(events.iter().filter(|e| e.is_complete()).count(), 1);
}

#[test]
fn transferred_never_decreases_nor_exceeds_the_size() {
    let chunks = vec![
        Chunk { len: 40, at: 600 * MS },
        Chunk { len: 40, at: 1200 * MS },
        Chunk { len: 40, at: 1800 * MS },
        Chunk { len: 40, at: 2400 * MS },
    ];
    let events = download_events(String::from("m"), 200, Some(100), &chunks).unwrap();
    let seen: Vec<u64> = events.iter().map(|e| e.progress().transfered).collect();
    assert_eq!(seen, vec![40, 80, 100, 100, 100, 100]);
}

#[test]
fn short_body_is_still_reported_complete() {
    let chunks = vec![Chunk { len: 10, at: 700 * MS }];
    let events = download_events(String::from("s"), 200, Some(100), &chunks).unwrap();
    assert_eq!(events.len(), 3);
    assert_eq!(progress_of(&events[0]), (10, 10, 700 * MS, false));
    assert_eq!(progress_of(&events[1]), (100, 100, 700 * MS, false));
    assert_eq!(progress_of(&events[2]), (100, 100, 700 * MS, true));
}

#[test]
fn whole_rate_is_bytes_per_second() {
    let mut d = start_download(String::from("r"), 200, Some(10_000)).unwrap();
    assert_eq!(d.progress.whole_rate(), 0);
    d.on_chunk(1000, 500 * MS);
    assert_eq!(d.progress.whole_rate(), 2000);
    d.on_chunk(0, 3000 * MS);
    assert_eq!(d.progress.whole_rate(), 333);
    d.on_chunk(9000, 1);
    assert_eq!(d.progress.whole_rate(), 10_000_000_000_000);
}

#[test]
fn events_carry_a_snapshot() {
    let mut d = start_download(String::from("snap"), 200, Some(50)).unwrap();
    d.on_chunk(25, MS);
    let a = d.progress.emit_progress();
    let b = d.progress.emit_finished();
    d.on_chunk(25, 2 * MS);
    assert_eq!(progress_of(&a), (25, 50, MS, false));
    assert_eq!(progress_of(&b), (25, 50, MS, true));
    assert_eq!(a.progress().download_id, "snap");
}
