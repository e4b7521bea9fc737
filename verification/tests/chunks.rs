use rust_downloader::chunks::{
    all_chunks_done, all_part_paths, file_name_from_url, fresh_meta, join_path, layout_fits, mark_chunk_done,
    meta_to_use, part_path, pending_jobs, range_header, resume_from,
};
use rust_downloader::meta::{meta_path, MetaData};
use rust_downloader::tuning::{calculate_optimal_chunks, download_pool_size, optimal_chunks, pool_size};
use rust_downloader::headers::{after_range_probe, content_length_size, content_length_value, content_range_size, HeaderValue, ProbeAction};

#[test]
fn names_and_paths() {
    assert_eq!(file_name_from_url("https://x.com/a/b/movie.mkv"), "movie.mkv");
    assert_eq!(file_name_from_url("https://x.com/a/"), "");
    assert_eq!(file_name_from_url("plain"), "plain");
    assert_eq!(join_path("downloads", "movie.mkv"), "downloads/movie.mkv");
    assert_eq!(part_path("downloads/m.mkv", 0), "downloads/m.mkv.part0");
    assert_eq!(part_path("downloads/m.mkv", 123), "downloads/m.mkv.part123");
    assert_eq!(meta_path("downloads/m.mkv"), "downloads/m.mkv.meta.json");
    assert_eq!(range_header(0, 0), "bytes=0-0");
    assert_eq!(range_header(1024, 2047), "bytes=1024-2047");
    assert_eq!(all_part_paths("f", 2), vec!["f.part0".to_string(), "f.part1".to_string()]);
}

#[test]
fn fresh_meta_rounds_chunk_size_up() {
    let m = fresh_meta("u", "f", 10, 4);
    assert_eq!(m.chunk_size, 3);
    assert_eq!(m.chunks, 4);
    assert_eq!(m.size, 10);
    assert_eq!(m.progress, vec![false; 4]);
    assert_eq!(m.url, "u");
    assert_eq!(m.file, "f");
}

#[test]
fn fresh_chunks_tile_the_file() {
    let m = fresh_meta("u", "f", 10, 4);
    assert!(layout_fits(10, &m));
    let jobs = pending_jobs("f", 10, &m);
    let ranges: Vec<(usize, u64, u64)> = jobs.iter().map(|j| (j.index, j.start, j.end)).collect();
    assert_eq!(ranges, vec![(0, 0, 2), (1, 3, 5), (2, 6, 8), (3, 9, 9)]);
    assert_eq!(jobs[3].part_path, "f.part3");
}

#[test]
fn layout_that_overruns_the_file_is_refused() {
    let m = fresh_meta("u", "f", 5, 4);
    assert!(!layout_fits(5, &m));
    let m = fresh_meta("u", "f", 3, 4);
    assert!(!layout_fits(3, &m));
    let mut short = fresh_meta("u", "f", 10, 2);
    short.progress = vec![false];
    assert!(!layout_fits(10, &short));
}

#[test]
fn finished_chunks_are_skipped() {
    let mut m = fresh_meta("u", "f", 10, 4);
    mark_chunk_done(&mut m, 1);
    mark_chunk_done(&mut m, 3);
    assert_eq!(m.progress, vec![false, true, false, true]);
    assert!(!all_chunks_done(&m.progress));
    let jobs = pending_jobs("f", 10, &m);
    let idx: Vec<usize> = jobs.iter().map(|j| j.index).collect();
    assert_eq!(idx, vec![0, 2]);
    mark_chunk_done(&mut m, 0);
    mark_chunk_done(&mut m, 2);
    assert!(all_chunks_done(&m.progress));
    assert!(pending_jobs("f", 10, &m).is_empty());
}

#[test]
fn loaded_meta_wins() {
    let loaded = MetaData { url: "old".to_string(), file: "g".to_string(), size: 7, chunk_size: 7, chunks: 1, progress: vec![true] };
    let m = meta_to_use("new", "f", 10, 4, Some(loaded));
    assert_eq!(m.url, "old");
    assert_eq!(m.chunks, 1);
    let m = meta_to_use("new", "f", 10, 4, None);
    assert_eq!(m.url, "new");
    assert_eq!(m.chunk_size, 3);
}

#[test]
fn resume_points() {
    assert_eq!(resume_from(100, 199, 0), Some(100));
    assert_eq!(resume_from(100, 199, 50), Some(150));
    assert_eq!(resume_from(100, 199, 100), None);
    assert_eq!(resume_from(100, 199, 150), None);
}

#[test]
fn optimal_chunk_counts() {
    assert_eq!(optimal_chunks(0, 1, 1), 2);
    assert_eq!(optimal_chunks(100 * 1024 * 1024, 4, 1), 10);
    assert_eq!(optimal_chunks(1 << 40, 4, 4), 32);
    assert_eq!(optimal_chunks(0, 40, 1), 32);
    assert_eq!(optimal_chunks(0, 5, 8), 16);
    assert_eq!(pool_size(4), 8);
    assert_eq!(pool_size(64), 32);
    let n = calculate_optimal_chunks(0, 1).unwrap();
    assert!(n >= 2 && n <= 32);
    let p = download_pool_size().unwrap();
    assert!(p >= 2 && p <= 32 && p % 2 == 0);
}

#[test]
fn size_headers() {
    assert_eq!(content_length_size(&HeaderValue::Text("1234".to_string())), Some(1234));
    assert_eq!(content_length_size(&HeaderValue::Text("0".to_string())), None);
    assert_eq!(content_length_size(&HeaderValue::Text("abc".to_string())), None);
    assert_eq!(content_length_size(&HeaderValue::Unreadable), None);
    assert_eq!(content_length_size(&HeaderValue::Missing), None);
    assert_eq!(content_range_size(&HeaderValue::Text("bytes 0-0/5000".to_string())), Some(5000));
    assert_eq!(content_range_size(&HeaderValue::Text("bytes 0-0/*".to_string())), None);
    assert_eq!(content_range_size(&HeaderValue::Text("5000".to_string())), None);
    assert_eq!(content_range_size(&HeaderValue::Text("a/b/0".to_string())), None);
    assert_eq!(content_range_size(&HeaderValue::Missing), None);
    assert_eq!(content_length_value(&HeaderValue::Unreadable), Some(0));
    assert_eq!(content_length_value(&HeaderValue::Text("0".to_string())), Some(0));
    assert_eq!(content_length_value(&HeaderValue::Text("12".to_string())), Some(12));
    assert_eq!(content_length_value(&HeaderValue::Text("x".to_string())), None);
    assert_eq!(content_length_value(&HeaderValue::Missing), None);
}

#[test]
fn size_probe_steps() {
    assert!(matches!(after_range_probe(0, &HeaderValue::Text("bytes 0-0/77".to_string())), ProbeAction::Found(77)));
    assert!(matches!(after_range_probe(0, &HeaderValue::Missing), ProbeAction::Wait { next: Some(1) }));
    assert!(matches!(after_range_probe(8, &HeaderValue::Unreadable), ProbeAction::Wait { next: Some(9) }));
    assert!(matches!(after_range_probe(9, &HeaderValue::Missing), ProbeAction::Wait { next: None }));
}

#[test]
fn saved_records_keep_layout() {
    let mut m = meta_to_use("https://x.com/v.mkv", "v.mkv", 100, 3, None);
    for i in [2usize, 0, 1] {
        mark_chunk_done(&mut m, i);
        assert_eq!(m.url, "https://x.com/v.mkv");
        assert_eq!(m.file, "v.mkv");
        assert_eq!(m.size, 100);
        assert_eq!(m.chunks, 3);
        assert_eq!(m.chunk_size, 34);
        assert_eq!(m.progress.len(), 3);
    }
    assert!(all_chunks_done(&m.progress));
}
