//! Times of files, where they come from and how they are kept.
use std::time::SystemTime;

use ffp::clock::is_within_recent_window;
use ffp::clock::recent_window;
use ffp::clock::system_time_to_unix_secs;
use ffp::clock::time_ago;
use ffp::clock::unix_secs_to_system_time;
use ffp::clock::unix_time_ms;
use ffp::clock::Timestamp;
use ffp::clock::FILE_LOOKBACK_WINDOW;
use ffp::clock::FILE_LOOKBACK_WINDOW_SECS;
use ffp::desktop::decode_xml_entities;
use ffp::desktop::file_uri_to_path;
use ffp::desktop::hex_value;
use ffp::desktop::load_desktop_recent;
use ffp::desktop::percent_decode;
use ffp::desktop::xml_attr;
use ffp::entry::FileEntry;
use ffp::entry::FileMetadata;
use ffp::fd::build_fd_args;
use ffp::history::escape_history_path;
use ffp::history::load_ffp_history;
use ffp::history::read_ffp_history_entries;
use ffp::history::record_file_interaction;
use ffp::history::unescape_history_path;
use ffp::history::TimeIndex;
use ffp::incremental::SearchScope;
use ffp::paths::normalize_path;
use ffp::paths::normalized_path_key_with_cwd;
use ffp::paths::path_is_normalized_absolute;
use ffp::recency::best_recency;
use ffp::recency::RecencyIndex;
use ffp::recency::RecencySource;
use ffp::rfc3339::days_from_civil;
use ffp::rfc3339::parse_rfc3339_to_system_time;

const SECOND: i128 = 1_000_000_000;

fn at(secs: i128) -> Timestamp {
    Timestamp { nanos: secs * SECOND }
}

fn now() -> Timestamp {
    let since = SystemTime::now().duration_since(SystemTime::UNIX_EPOCH).unwrap();
    Timestamp { nanos: since.as_nanos() as i128 }
}

#[test]
fn build_fd_args_uses_lookback_only_for_recent_file_search() {
    let recent_args = build_fd_args("/home/user", false, true);
    assert!(recent_args.iter().any(|arg| arg == "--changed-within"));
    assert!(recent_args.iter().any(|arg| arg == FILE_LOOKBACK_WINDOW));

    let all_args = build_fd_args("/home/user", false, false);
    assert!(!all_args.iter().any(|arg| arg == "--changed-within"));
    assert!(!all_args.iter().any(|arg| arg == FILE_LOOKBACK_WINDOW));

    let dir_args = build_fd_args("/home/user", true, true);
    assert!(!dir_args.iter().any(|arg| arg == "--changed-within"));
}

#[test]
fn fd_args_name_the_places_and_leave_caches_out() {
    let args = build_fd_args("/home/user", true, false);
    assert_eq!(args[..6], [".", "/home/user", "/tmp", "-t", "d", "-H"]);
    assert_eq!(args[6], "-E");
    assert_eq!(args[7], ".git");
    assert_eq!(args.last().unwrap(), "go/pkg/mod");
    assert_eq!(args.len(), 6 + 24);
}

#[test]
fn recency_prefers_ffp_history_over_filesystem_times() {
    let path = "/tmp/history-recency.txt".to_string();
    let created = now();
    let history_time = Timestamp { nanos: created.nanos + 60 * SECOND };
    let mut history = TimeIndex::new();
    history.insert(normalized_path_key_with_cwd(&path, "/"), history_time);
    let recency_index = RecencyIndex::new(history, TimeIndex::new(), "/".to_string());

    let metadata =
        FileMetadata { is_dir: false, modified: Some(created), accessed: Some(created) };
    let entry = FileEntry::from_metadata(path, Some(metadata), &recency_index);
    assert_eq!(entry.recency_time(), history_time);
    assert_eq!(entry.recency_source(), RecencySource::FfpHistory);
}

#[test]
fn recency_window_filters_old_times() {
    assert!(is_within_recent_window(now(), now()));
    let old = Timestamp { nanos: now().nanos - (FILE_LOOKBACK_WINDOW_SECS as i128 + 60) * SECOND };
    assert!(!is_within_recent_window(now(), old));
}

#[test]
fn recent_scope_label_shows_lookback_cutoff() {
    assert_eq!(SearchScope::Recent.label(), format!("recent ({})", FILE_LOOKBACK_WINDOW));
    assert_eq!(SearchScope::All.label(), "all");
}

#[test]
fn scopes_alternate() {
    assert_eq!(SearchScope::Recent.toggle(), SearchScope::All);
    assert_eq!(SearchScope::All.toggle().toggle(), SearchScope::All);
    assert_eq!(recent_window(), 9 * 24 * 60 * 60);
}

#[test]
fn history_path_escaping_round_trips() {
    let path = "/tmp/ffp path/with\\slashes\tand\nnewlines.txt";
    assert_eq!(unescape_history_path(&escape_history_path(path)), path);
}

#[test]
fn escaped_paths_hold_no_tab_and_no_newline() {
    assert_eq!(escape_history_path("a\tb\nc\\d\re"), "a\\tb\\nc\\\\d\\re");
    assert_eq!(unescape_history_path("a\\xb\\"), "a\\xb\\");
}

#[test]
fn file_entry_name_dir_accessors() {
    let entry = FileEntry::new("/home/jeremy/Documents/Notes.TXT".to_string());
    assert_eq!(entry.name(), "Notes.TXT");
    assert_eq!(entry.name_lower(), "notes.txt");
    assert_eq!(entry.dir(), "/home/jeremy/Documents");
    assert_eq!(entry.path_lower(), "/home/jeremy/documents/notes.txt");

    let root_file = FileEntry::new("/swapfile".to_string());
    assert_eq!(root_file.name(), "swapfile");
    assert_eq!(root_file.dir(), "/");

    let bare = FileEntry::new("README.md".to_string());
    assert_eq!(bare.name(), "README.md");
    assert_eq!(bare.dir(), "");
}

#[test]
fn file_entry_handles_multibyte_lowercase_boundary() {
    // 'İ' lowercases to a longer sequence, shifting byte offsets.
    let entry = FileEntry::new("/tmp/İstanbul/İzmir.TXT".to_string());
    assert_eq!(entry.name(), "İzmir.TXT");
    assert_eq!(entry.name_lower(), "İzmir.TXT".to_lowercase());
    assert_eq!(entry.dir(), "/tmp/İstanbul");
}

#[test]
fn normalized_absolute_paths_skip_rekeying() {
    assert!(path_is_normalized_absolute("/home/jeremy/file.txt"));
    assert!(path_is_normalized_absolute("/"));
    assert!(!path_is_normalized_absolute("relative/file.txt"));
    assert!(!path_is_normalized_absolute("/home/./file.txt"));
    assert!(!path_is_normalized_absolute("/home/../file.txt"));
    assert!(!path_is_normalized_absolute("/home//file.txt"));
    assert!(!path_is_normalized_absolute("/home/jeremy/"));
}

#[test]
fn path_key_matches_normalized_form() {
    let index =
        RecencyIndex::new(TimeIndex::new(), TimeIndex::new(), "/home/jeremy".to_string());
    assert_eq!(index.path_key("/a/b.txt"), "/a/b.txt");
    assert_eq!(
        index.path_key("/a/./b.txt"),
        normalized_path_key_with_cwd("/a/./b.txt", index.cwd())
    );
    assert_eq!(index.path_key("b.txt"), "/home/jeremy/b.txt");
}

#[test]
fn normalizing_twice_changes_nothing() {
    assert_eq!(normalize_path("/a/./b/../c//d"), "/a/c/d");
    assert_eq!(normalize_path(&normalize_path("/a/./b/../c//d")), "/a/c/d");
    assert_eq!(normalized_path_key_with_cwd("../x", "/home/jeremy"), "/home/x");
}

#[test]
fn desktop_file_uri_decoding_handles_percent_encoding() {
    assert_eq!(
        file_uri_to_path("file:///home/jeremy/a%20b%23c.txt").as_deref(),
        Some("/home/jeremy/a b#c.txt")
    );
    assert_eq!(
        file_uri_to_path("file://localhost/tmp/hello.txt").as_deref(),
        Some("/tmp/hello.txt")
    );
    assert!(file_uri_to_path("file://other-host/tmp/hello.txt").is_none());
}

#[test]
fn percent_signs_without_digits_stay() {
    assert_eq!(hex_value(b'f'), Some(15));
    assert_eq!(hex_value(b'A'), Some(10));
    assert_eq!(hex_value(b'g'), None);
    assert_eq!(percent_decode("100%"), "100%");
    assert_eq!(percent_decode("%zz%41"), "%zzA");
    // Bytes that are no text are replaced.
    assert_eq!(percent_decode("%ff"), "\u{fffd}");
}

#[test]
fn attributes_are_read_and_decoded() {
    let tag = "<bookmark href=\"file:///tmp/a&amp;b.txt\" visited='x'";
    assert_eq!(
        xml_attr(tag, "href").map(|v| decode_xml_entities(&v)).as_deref(),
        Some("file:///tmp/a&b.txt")
    );
    assert!(xml_attr(tag, "modified").is_none());
    assert_eq!(decode_xml_entities("&lt;&gt;&quot;&apos;&amp;"), "<>\"'&");
}

#[test]
fn rfc3339_parser_handles_utc_and_offsets() {
    assert_eq!(
        parse_rfc3339_to_system_time("1970-01-01T00:00:00Z"),
        Some(Timestamp::epoch())
    );
    assert_eq!(
        parse_rfc3339_to_system_time("1970-01-01T01:00:00+01:00"),
        Some(Timestamp::epoch())
    );
    assert_eq!(
        parse_rfc3339_to_system_time("1969-12-31T23:00:00-01:00"),
        Some(Timestamp::epoch())
    );
}

#[test]
fn dates_count_days_from_the_epoch() {
    assert_eq!(days_from_civil(1970, 1, 1), 0);
    assert_eq!(days_from_civil(2000, 3, 1), 11_017);
    assert_eq!(days_from_civil(1969, 12, 31), -1);
    assert_eq!(parse_rfc3339_to_system_time("2000-03-01T00:00:10Z"), Some(at(951_868_810)));
    assert!(parse_rfc3339_to_system_time("2000-13-01T00:00:10Z").is_none());
    assert!(parse_rfc3339_to_system_time("not a date").is_none());
}

#[test]
fn file_entry_marks_directories() {
    let metadata = FileMetadata { is_dir: true, modified: None, accessed: None };
    let entry = FileEntry::from_metadata(
        "/tmp/dir-entry".to_string(),
        Some(metadata),
        &RecencyIndex::default(),
    );
    assert!(entry.is_dir());
}

#[test]
fn files_that_cannot_be_looked_at_are_left_out() {
    let index = RecencyIndex::default();
    assert!(FileEntry::try_new_with_recency("/gone".to_string(), None, &index).is_none());
}

#[test]
fn the_latest_time_counts() {
    assert_eq!(
        best_recency(at(5), at(3), Some(at(4)), None),
        (at(5), RecencySource::Modified)
    );
    assert_eq!(
        best_recency(at(1), at(7), Some(at(4)), Some(at(6))),
        (at(7), RecencySource::Accessed)
    );
    assert_eq!(
        best_recency(at(1), at(2), Some(at(4)), Some(at(6))),
        (at(6), RecencySource::DesktopRecent)
    );
    assert_eq!(RecencySource::DesktopRecent.label(), "desk");
}

#[test]
fn times_survive_in_whole_seconds() {
    assert_eq!(system_time_to_unix_secs(Timestamp { nanos: 1_999_999_999 }), 1);
    assert_eq!(system_time_to_unix_secs(Timestamp { nanos: -5 }), 0);
    assert_eq!(unix_secs_to_system_time(7), at(7));
    assert_eq!(unix_time_ms(Timestamp { nanos: 1_234_567_890 }), 1234);
}

#[test]
fn ages_are_short() {
    assert_eq!(time_ago(at(100), at(41)), "59s");
    assert_eq!(time_ago(at(100), at(40)), "1m");
    assert_eq!(time_ago(at(7200), at(0)), "2h");
    assert_eq!(time_ago(at(86_400 * 3), at(0)), "3d");
    assert_eq!(time_ago(at(0), at(50)), "0s");
}

#[test]
fn used_paths_are_remembered() {
    let first = record_file_interaction("", "/tmp/a b.txt", "/", at(100));
    assert_eq!(first, "100\t/tmp/a b.txt\n");
    let second = record_file_interaction(&first, "notes.txt", "/home/u", at(200));
    assert_eq!(second, "200\t/home/u/notes.txt\n100\t/tmp/a b.txt\n");
    let again = record_file_interaction(&second, "/tmp/a b.txt", "/", at(300));
    assert_eq!(again, "300\t/tmp/a b.txt\n200\t/home/u/notes.txt\n");
    let history = load_ffp_history(&again);
    assert_eq!(history.get("/tmp/a b.txt"), Some(at(300)));
    assert_eq!(history.get("/home/u/notes.txt"), Some(at(200)));
    assert_eq!(history.get("/tmp"), None);
}

#[test]
fn odd_lines_of_the_history_are_skipped() {
    let entries = read_ffp_history_entries("x\t/a\n12\t/b\\tc\nnothing\n");
    assert_eq!(entries.len(), 1);
    assert_eq!(entries[0].path, "/b\tc");
    assert_eq!(entries[0].time, at(12));
}

#[test]
fn the_desktop_list_gives_times() {
    let list = "<xbel>\n<bookmark href=\"file:///tmp/a%20b\" added=\"1970-01-01T00:00:01Z\" \
                modified=\"1970-01-01T00:00:02Z\" visited=\"1970-01-01T00:00:03Z\">\n</bookmark>\n</xbel>";
    let times = load_desktop_recent(list, "/");
    assert_eq!(times.get("/tmp/a b"), Some(at(3)));
}

#[test]
fn known_paths_come_from_both_lists() {
    let index = RecencyIndex::load(
        "100\t/a\n300\t/b\n",
        "<bookmark href=\"file:///c\" visited=\"1970-01-01T00:03:20Z\">",
        "/".to_string(),
    );
    assert_eq!(index.candidate_paths(), vec!["/b", "/c", "/a"]);
    assert_eq!(index.recency_times("/b"), (Some(at(300)), None));
    assert_eq!(index.recency_times("/c"), (None, Some(at(200))));
}
