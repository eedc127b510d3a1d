//! Opening files, loading pools, measuring.
use std::sync::Arc;

use ffp::bench::FIRST_FRAME_LIMIT;
use ffp::bench::first_of_kind;
use ffp::bench::gives_up;
use ffp::bench::longest;
use ffp::bench::percentile_duration;
use ffp::bench::split_queries;
use ffp::bench::synthetic_path;
use ffp::bench::FileKind;
use ffp::bench::GraceModel;
use ffp::clock::Timestamp;
use ffp::entry::FileEntry;
use ffp::entry::FileMetadata;
use ffp::fd::listed_path;
use ffp::fd::stat_worker_count;
use ffp::launch::AfterExit;
use ffp::launch::after_exit;
use ffp::launch::find_kitty_sockets;
use ffp::launch::get_rss_kb;
use ffp::launch::kitty_socket_candidates;
use ffp::launch::mime_type;
use ffp::launch::normalize_socket;
use ffp::launch::opens_as_text;
use ffp::launch::FoundSocket;
use ffp::launch::NearbyFile;
use ffp::launch::ToolOutput;
use ffp::lru::LruCache;
use ffp::pool::begin_loading;
use ffp::pool::feed_all_pool;
use ffp::pool::finish_load;
use ffp::pool::finish_step;
use ffp::pool::is_recent_load;
use ffp::pool::load_entries;
use ffp::pool::load_fd_entries;
use ffp::pool::load_files;
use ffp::pool::mark_entries_changed;
use ffp::pool::publish_entries;
use ffp::pool::push_entry_if_wanted;
use ffp::pool::sort_loaded_entries;
use ffp::pool::try_begin_load;
use ffp::pool::EntryLoad;
use ffp::pool::EntryPool;
use ffp::pool::LoadStep;
use ffp::pool::ScanOptions;
use ffp::pool::RECENT_POOL_LIMIT;
use ffp::recency::RecencyIndex;
use ffp::trace::duration_detail;
use ffp::trace::is_trace_enabled;
use ffp::trace::log_line;
use ffp::trace::slow_threshold;

fn at(secs: i128) -> Timestamp {
    Timestamp { nanos: secs * 1_000_000_000 }
}

fn file(path: &str, secs: i128) -> FileEntry {
    FileEntry::from_metadata(path.to_string(), metadata(secs), &RecencyIndex::default())
}

fn metadata(secs: i128) -> Option<FileMetadata> {
    Some(FileMetadata { is_dir: false, modified: Some(at(secs)), accessed: None })
}

fn socket(secs: i128, path: &str) -> FoundSocket {
    FoundSocket { modified: at(secs), path: path.to_string() }
}

#[test]
fn addresses_are_tried_from_the_one_that_is_set_on() {
    assert_eq!(normalize_socket("tcp:localhost:5000".to_string()), "tcp:localhost:5000");
    assert_eq!(normalize_socket("/tmp/kitty".to_string()), "unix:/tmp/kitty");
    let candidates = kitty_socket_candidates(
        None,
        Some("/tmp/b".to_string()),
        vec![socket(1, "/tmp/a"), socket(3, "/tmp/c"), socket(2, "/tmp/b"), socket(3, "/tmp/d")],
    );
    assert_eq!(candidates, vec!["unix:/tmp/b", "unix:/tmp/d", "unix:/tmp/c", "unix:/tmp/a"]);
    let candidates = kitty_socket_candidates(Some("x:y".to_string()), None, Vec::new());
    assert_eq!(candidates, vec!["x:y"]);
}

#[test]
fn sockets_are_known_by_their_name() {
    let near = |name: &str, is_socket: Option<bool>, modified: Option<Timestamp>| NearbyFile {
        name: name.to_string(),
        path: format!("/tmp/{}", name),
        is_socket,
        modified,
    };
    let found = find_kitty_sockets(&vec![
        near("kitty.sock-1", Some(true), Some(at(5))),
        near("kitty.sock-2", Some(false), Some(at(5))),
        near("kitty.sock-3", None, Some(at(5))),
        near("other.sock", Some(true), Some(at(5))),
        near("kitty.sock-4", Some(true), None),
    ]);
    assert_eq!(found.len(), 2);
    assert_eq!(found[0].path, "/tmp/kitty.sock-1");
    assert_eq!(found[1].modified, at(0));
}

#[test]
fn the_type_of_content_decides_how_a_file_is_opened() {
    let printed = ToolOutput { success: true, printed: b" text/plain\n".to_vec() };
    assert_eq!(mime_type(Some(printed)), "text/plain");
    let failed = ToolOutput { success: false, printed: b"text/plain".to_vec() };
    assert_eq!(mime_type(Some(failed)), "");
    assert_eq!(mime_type(None), "");
    assert!(opens_as_text("/a/photo.jpg", "text/plain"));
    assert!(!opens_as_text("/a/notes.md", "image/png"));
    assert!(opens_as_text("/a/notes.md", ""));
}

#[test]
fn memory_is_counted_in_pages() {
    assert_eq!(get_rss_kb(Some("1000 25 3 4".to_string())), 100);
    assert_eq!(get_rss_kb(Some("1000".to_string())), 0);
    assert_eq!(get_rss_kb(Some("1000 x".to_string())), 0);
    assert_eq!(get_rss_kb(None), 0);
}

#[test]
fn the_least_recently_used_goes_first() {
    let mut cache: LruCache<u8> = LruCache::new(2);
    cache.insert("a".to_string(), 1);
    cache.insert("b".to_string(), 2);
    assert_eq!(cache.get("a"), Some(&1));
    cache.insert("c".to_string(), 3);
    assert!(!cache.has("b"));
    assert_eq!(cache.get("a"), Some(&1));
    assert_eq!(cache.get("c"), Some(&3));
    cache.clear();
    assert_eq!(cache.get("a"), None);
}

#[test]
fn pools_are_claimed_once() {
    let mut pool = EntryPool::new();
    let mut all = EntryPool::new();
    assert_eq!(begin_loading(&mut pool, &mut all, true, false, true), Some(true));
    assert!(pool.loading && all.loading);
    assert_eq!(begin_loading(&mut pool, &mut all, true, false, true), None);
    assert!(!try_begin_load(&mut all));
    let version = pool.version;
    publish_entries(&mut pool, &vec![file("/a", 1)]);
    assert_eq!(pool.version, version + 1);
    mark_entries_changed(&mut pool);
    assert_eq!(pool.version, version + 2);
    pool.loading = false;
    assert!(!try_begin_load(&mut pool));
}

#[test]
fn pools_are_loaded_in_steps() {
    let steps = load_files();
    assert_eq!(steps.len(), 3);
    assert_eq!(steps[0], LoadStep::KnownPaths);
    assert_eq!(
        load_entries(true, true, true),
        vec![LoadStep::Scan {
            changed_recently: false,
            options: ScanOptions { recent_only: false, record_seen: false },
            feeds_all: false,
        }]
    );
    assert!(matches!(
        load_entries(false, true, true)[2],
        LoadStep::Scan { changed_recently: false, feeds_all: true, .. }
    ));
}

#[test]
fn loaded_entries_are_recent_and_come_once() {
    let index = RecencyIndex::default();
    let now = at(1_000_000);
    let mut load = EntryLoad::new(0);
    let mut pool = EntryPool::new();
    let options = ScanOptions { recent_only: true, record_seen: true };
    push_entry_if_wanted(
        "/known".to_string(),
        metadata(999_000),
        &mut load.buffer,
        &mut load.seen,
        &index,
        true,
        now,
    );
    push_entry_if_wanted(
        "/gone".to_string(),
        None,
        &mut load.buffer,
        &mut load.seen,
        &index,
        true,
        now,
    );
    for (path, secs) in [("/known", 999_000), ("/old", 10), ("/new", 999_999), ("/new", 999_999)] {
        load_fd_entries(file(path, secs), &mut load, &mut pool, &index, options, now, 0);
    }
    assert_eq!(load.buffer.len(), 2);
    finish_step(&mut load, &mut pool, true, 0);
    let paths: Vec<&str> = pool.files.iter().map(|e| e.path()).collect();
    assert_eq!(paths, vec!["/new", "/known"]);
    assert!(load.buffer.is_empty());
}

#[test]
fn full_batches_are_taken_over() {
    let index = RecencyIndex::default();
    let mut load = EntryLoad::new(0);
    let mut pool = EntryPool::new();
    let options = ScanOptions { recent_only: false, record_seen: false };
    for i in 0..256 {
        let e = file(&format!("/f{}", i), i);
        load_fd_entries(e, &mut load, &mut pool, &index, options, at(0), 100_000_000);
    }
    assert!(load.buffer.is_empty());
    assert_eq!(load.loaded.len(), 256);
    assert_eq!(pool.files.len(), 256);
    assert_eq!(load.last_publish, 100_000_000);
}

#[test]
fn the_pool_of_all_entries_takes_every_one() {
    let mut all = EntryPool::new();
    let mut loaded = Vec::new();
    let mut last = 0u64;
    feed_all_pool(&file("/a", 1), &mut loaded, &mut all, &mut last, 99_999_999);
    assert!(all.files.is_empty());
    feed_all_pool(&file("/a", 1), &mut loaded, &mut all, &mut last, 100_000_000);
    assert_eq!(all.files.len(), 2);
    assert_eq!((all.version, last), (1, 100_000_000));
}

#[test]
fn queries_are_split_at_commas() {
    assert_eq!(split_queries("rs, main ,,doc"), vec!["rs", "main", "doc"]);
    assert!(split_queries(" , ").is_empty());
}

#[test]
fn percentiles_are_samples() {
    let mut samples = vec![30u64, 10, 20];
    assert_eq!(longest(&samples), 30);
    assert_eq!(percentile_duration(&mut samples, 1), 20);
    assert_eq!(samples, vec![10, 20, 30]);
    assert_eq!(percentile_duration(&mut samples, 9), 30);
    assert_eq!(percentile_duration(&mut Vec::new(), 0), 0);
}

#[test]
fn made_up_paths_differ() {
    assert_eq!(synthetic_path(1000), "/home/user/project-23/src/module_46/file_1000.rs");
}

#[test]
fn files_of_a_kind_are_found() {
    let files: Arc<Vec<FileEntry>> = Arc::new(
        ["/a.png", "/b.mp4", "/c.png", "/d.md", "/e.png"].map(|p| file(p, 0)).into_iter().collect(),
    );
    assert_eq!(first_of_kind(&files, FileKind::Image, 2), vec![0, 2]);
    assert_eq!(first_of_kind(&files, FileKind::Video, 3), vec![1]);
    assert_eq!(first_of_kind(&files, FileKind::Text, 1), vec![3]);
}

#[test]
fn the_grace_for_input_skips_drawings() {
    let mut model = GraceModel::new();
    for cycle in 0..12 {
        model.step(cycle, GraceModel::has_input(cycle));
    }
    assert_eq!((model.without, model.with, model.skipped), (3, 2, 1));
}

#[test]
fn the_log_is_switched_on_by_argument_or_setting() {
    let none: Vec<String> = Vec::new();
    assert!(is_trace_enabled(&vec!["--trace-responsive".to_string()], None));
    assert!(is_trace_enabled(&none, Some("1".to_string())));
    assert!(!is_trace_enabled(&none, Some("0".to_string())));
    assert!(!is_trace_enabled(&none, Some("FALSE".to_string())));
    assert!(!is_trace_enabled(&none, None));
    assert_eq!(slow_threshold(None), 8);
    assert_eq!(slow_threshold(Some("25".to_string())), 25);
    assert_eq!(slow_threshold(Some("soon".to_string())), 8);
}

#[test]
fn only_what_takes_long_is_logged() {
    assert_eq!(log_line(12, "draw", "x=1"), "12 event=draw x=1\n");
    assert_eq!(duration_detail(8_000_000, 8, "x=1").as_deref(), Some("duration_us=8000 x=1"));
    assert_eq!(duration_detail(7_999_999, 8, "x=1"), None);
}

#[test]
fn the_recent_pool_keeps_the_most_recent() {
    let numbered = |i: usize| file(&format!("/f{}", i), (i * 7 % 20_011) as i128);
    let mut pool = EntryPool::new();
    let mut cut: Vec<FileEntry> = (0..20_005).map(numbered).collect();
    sort_loaded_entries(&mut pool, &mut cut, true);
    assert_eq!(cut.len(), RECENT_POOL_LIMIT);
    cut.extend((20_005..20_010).map(numbered));
    sort_loaded_entries(&mut pool, &mut cut, true);

    let mut whole: Vec<FileEntry> = (0..20_010).map(numbered).collect();
    sort_loaded_entries(&mut pool, &mut whole, true);
    let paths = |list: &Vec<FileEntry>| -> Vec<String> {
        list.iter().map(|e| e.path().to_string()).collect()
    };
    assert_eq!(paths(&cut), paths(&whole));
    assert_eq!(whole[0].mtime(), at(20_010));
    assert_eq!(whole.len(), RECENT_POOL_LIMIT);
}

#[test]
fn listed_lines_are_paths() {
    assert_eq!(listed_path(b""), None);
    assert_eq!(listed_path("/a/\u{e9}t\u{e9}".as_bytes()).as_deref(), Some("/a/\u{e9}t\u{e9}"));
    assert_eq!(listed_path(b"/a/\xff").as_deref(), Some("/a/\u{fffd}"));
}

#[test]
fn the_first_frame_is_not_waited_for_forever() {
    assert_eq!(FIRST_FRAME_LIMIT, 30_000_000_000);
    assert!(!gives_up(0));
    assert!(!gives_up(30_000_000_000));
    assert!(gives_up(30_000_000_001));
}

#[test]
fn what_has_opened_is_recorded() {
    match after_exit("/a.txt".to_string(), Ok(())) {
        AfterExit::Record(path) => assert_eq!(path, "/a.txt"),
        AfterExit::Notify(_) => panic!("it has opened"),
    }
    match after_exit("/a.txt".to_string(), Err("no editor".to_string())) {
        AfterExit::Notify(message) => assert_eq!(message, "/a.txt: no editor"),
        AfterExit::Record(_) => panic!("it has not opened"),
    }
}

#[test]
fn a_load_ends_in_both_pools() {
    let mut load = EntryLoad::new(0);
    load.buffer.push(file("/older", 5));
    load.buffer.push(file("/newer", 9));
    let mut pool = EntryPool::new();
    pool.loading = true;
    let mut all = EntryPool::new();
    all.loading = true;
    let mut all_loaded = vec![file("/x", 1), file("/y", 2)];
    finish_load(&mut load, &mut pool, true, &mut all_loaded, &mut all, true, 0);
    let paths: Vec<&str> = pool.files.iter().map(|e| e.path()).collect();
    assert_eq!(paths, vec!["/newer", "/older"]);
    let paths: Vec<&str> = all.files.iter().map(|e| e.path()).collect();
    assert_eq!(paths, vec!["/y", "/x"]);
    assert!(!pool.loading && !all.loading);
    assert_eq!(all.version, 1);
}

#[test]
fn a_load_of_one_pool_leaves_the_other() {
    let mut load = EntryLoad::new(0);
    let mut pool = EntryPool::new();
    pool.loading = true;
    let mut all = EntryPool::new();
    all.loading = true;
    let mut all_loaded = vec![file("/x", 1)];
    finish_load(&mut load, &mut pool, true, &mut all_loaded, &mut all, false, 0);
    assert!(!pool.loading);
    assert!(all.loading);
    assert_eq!((all.version, all.files.len(), all_loaded.len()), (0, 0, 1));
}

#[test]
fn no_path_is_loaded_twice_over_all_steps() {
    let index = RecencyIndex::default();
    let now = at(1_000_000);
    let mut load = EntryLoad::new(0);
    let mut pool = EntryPool::new();
    let options = ScanOptions { recent_only: true, record_seen: true };
    for _ in 0..2 {
        for path in ["/a", "/b"] {
            push_entry_if_wanted(
                path.to_string(),
                metadata(999_000),
                &mut load.buffer,
                &mut load.seen,
                &index,
                true,
                now,
            );
        }
        finish_step(&mut load, &mut pool, true, 0);
        for path in ["/b", "/c", "/c"] {
            load_fd_entries(file(path, 999_001), &mut load, &mut pool, &index, options, now, 0);
        }
        finish_step(&mut load, &mut pool, true, 0);
    }
    let mut paths: Vec<&str> = pool.files.iter().map(|e| e.path()).collect();
    paths.sort();
    assert_eq!(paths, vec!["/a", "/b", "/c"]);
}

#[test]
fn some_threads_look_at_files() {
    assert_eq!(stat_worker_count(None), 4);
    assert_eq!(stat_worker_count(Some(1)), 2);
    assert_eq!(stat_worker_count(Some(5)), 5);
    assert_eq!(stat_worker_count(Some(64)), 8);
}

#[test]
fn directories_are_never_recent() {
    assert!(is_recent_load(false, true));
    assert!(!is_recent_load(true, true));
    assert!(!is_recent_load(false, false));
}
