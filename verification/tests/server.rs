//! The server's rules: its command line, its log, its cache, its listings and its archives.
use lanfile::access_log::{
    access_line, log_mode, render_line, render_line_stack, AccessLine, LogMode, PeerIp, Stamp,
    Version, LINE_STACK,
};
use lanfile::assets::{choose_headers, FileHeaders, has_seccomp_filter, serve, serve_pull, OpenAction, OpenEvent, ServeFiles, ServePlan};
use lanfile::chunked_file::{ChunkError, ChunkedFile, LazyFile, LazyStep};
use lanfile::decimal::{decimal_string, parse_uint};
use lanfile::file_cache::{FileCache, FileMeta, CAPACITY_PER_SHARD, REVALIDATE_MILLIS, SHARDS};
use lanfile::lan_ip::{detect_lan_ip, Interface, Ipv4, Ipv4Addr};
use lanfile::listing::{
    display_path, list_directory, resolve_under, FileKind, LanIpCache, ListApi, ListReply, Listed,
    RawEntry, Stat, LAN_IP_NANOS,
};
use lanfile::log_sink::{
    shard_index, LogPart, LogSink, LOG_BATCH, LOG_PENDING_MAX, LOG_PENDING_MAX_PER_SHARD,
    SHARDS as SINK_SHARDS,
};
use lanfile::paths::{file_name, folder_name, join, starts_with};
use lanfile::routes::{
    accept_next, files_sub_path, needs_error_page, route, AcceptAction, AcceptEvent, Method, Route,
};
use lanfile::serve_args::parse_args;
use lanfile::walk::{sort_by_name, Child, Entry, RawChild, Walk, WalkAction, WalkEvent};
use lanfile::zip::{
    content_disposition, feed, write_item, FeedAction, FeedEvent, FeedState, Item, Resolved,
    WriteAction, ZipApi, ZipReply, DIR_PERMISSIONS,
};
use std::collections::HashMap;

fn args(items: &[&str]) -> Vec<String> {
    items.iter().map(ToString::to_string).collect()
}

#[test]
fn defaults_without_args() {
    let (port, dir) = parse_args(args(&[]));
    assert_eq!(port, 8000_u16);
    assert_eq!(dir, ".");
}

#[test]
fn single_path_arg_is_served_directory() {
    let (port, dir) = parse_args(args(&["/srv/www"]));
    assert_eq!(port, 8000_u16);
    assert_eq!(dir, "/srv/www");
}

#[test]
fn single_port_arg_keeps_default_directory() {
    let (port, dir) = parse_args(args(&["8080"]));
    assert_eq!(port, 8080_u16);
    assert_eq!(dir, ".");
}

#[test]
fn port_arg_sets_port_with_explicit_directory() {
    let (port, dir) = parse_args(args(&["8080", "/srv/www"]));
    assert_eq!(port, 8080_u16);
    assert_eq!(dir, "/srv/www");
}

#[test]
fn arg_order_does_not_matter() {
    let (port, dir) = parse_args(args(&["/srv/www", "8080"]));
    assert_eq!(port, 8080_u16);
    assert_eq!(dir, "/srv/www");
}

#[test]
fn last_path_arg_wins() {
    let (port, dir) = parse_args(args(&["/srv/www", "/data"]));
    assert_eq!(port, 8000_u16);
    assert_eq!(dir, "/data");
}

#[test]
fn a_number_that_is_no_port_is_a_directory() {
    let (port, dir) = parse_args(args(&["65536"]));
    assert_eq!((port, dir.as_str()), (8000, "65536"));
    let (port, _) = parse_args(args(&["+99"]));
    assert_eq!(port, 99);
}

#[test]
fn numbers_are_read_and_written() {
    assert_eq!(parse_uint(b"", 9), None);
    assert_eq!(parse_uint(b"+", 9), None);
    assert_eq!(parse_uint(b"-0", 9), None);
    assert_eq!(parse_uint(b"007", 9), Some(7));
    assert_eq!(parse_uint(b"10", 9), None);
    assert_eq!(parse_uint(b"18446744073709551615", u64::MAX), Some(u64::MAX));
    assert_eq!(parse_uint(b"18446744073709551616", u64::MAX), None);
    assert_eq!(decimal_string(0), "0");
    assert_eq!(decimal_string(u64::MAX), "18446744073709551615");
}

#[test]
fn sink_keeps_lines_buffered_until_the_threshold() {
    let mut sink = LogSink::new();
    assert!(!sink.append(0, b"one\n"));
    assert!(!sink.append(0, b"two\n"));
    let mut out = Vec::new();
    sink.flush(&mut out);
    assert_eq!(out.as_slice(), b"one\ntwo\n");
}

#[test]
fn sink_asks_for_a_wakeup_once_a_batch_is_full() {
    let mut sink = LogSink::new();
    let almost = vec![b'x'; LOG_BATCH - 1];
    assert!(!sink.append(0, &almost));
    assert!(sink.append(0, b"x"));
    assert!(!sink.append(1, b"x"));
}

#[test]
fn sink_writes_each_batch_only_once() {
    let mut sink = LogSink::new();
    let batch = vec![b'a'; LOG_BATCH];
    sink.append(0, &batch);
    let mut out = Vec::new();
    sink.flush(&mut out);
    sink.flush(&mut out);
    assert_eq!(out.len(), LOG_BATCH);
    assert!(sink.is_empty());
}

#[test]
fn sink_drops_lines_once_the_buffer_is_full() {
    let mut sink = LogSink::new();
    let full = vec![b'x'; LOG_PENDING_MAX_PER_SHARD];
    sink.append(0, &full);
    assert!(!sink.append(0, b"dropped\n"));
    let mut out = Vec::new();
    sink.flush(&mut out);
    assert_eq!(out, full);
}

#[test]
fn a_piece_that_crosses_the_limit_is_dropped() {
    let mut sink = LogSink::new();
    sink.append(0, &vec![b'x'; LOG_PENDING_MAX_PER_SHARD - 1]);
    assert!(!sink.append(0, b"12345678"));
    assert_eq!(sink.take(0).len(), LOG_PENDING_MAX_PER_SHARD - 1);
    sink.append(0, &vec![b'x'; LOG_PENDING_MAX_PER_SHARD - 1]);
    assert!(sink.append(0, b"y"), "what just fits is kept");
    assert!(!sink.append(0, b""), "a part that is full takes nothing");
    assert_eq!(sink.take(0).len(), LOG_PENDING_MAX_PER_SHARD);
    assert!(!sink.append(0, &vec![b'x'; LOG_PENDING_MAX_PER_SHARD + 1]));
    assert!(sink.is_empty());
    for shard in 0..SINK_SHARDS {
        for _ in 0..3 {
            sink.append(shard, &vec![b'x'; 60_000]);
        }
    }
    let mut out = Vec::new();
    sink.flush(&mut out);
    assert_eq!(out.len(), SINK_SHARDS * 120_000);
    assert!(out.len() <= LOG_PENDING_MAX);
}

#[test]
fn a_part_stands_alone() {
    let mut part = LogPart::new();
    assert!(part.is_empty());
    assert!(!part.append(b"line\n"));
    assert!(!part.is_empty());
    assert_eq!(part.take(), b"line\n");
    assert!(part.append(&vec![b'x'; LOG_BATCH]));
}

#[test]
fn a_part_is_taken_once() {
    let mut sink = LogSink::new();
    sink.append(2, b"x");
    sink.append(3, b"y");
    assert_eq!(sink.take(2), b"x");
    assert_eq!(sink.take(2), b"");
    let mut out = Vec::new();
    sink.flush(&mut out);
    assert_eq!(out, b"y");
}

#[test]
fn parts_are_written_one_after_the_other() {
    let mut sink = LogSink::new();
    assert!(sink.is_empty());
    sink.append(shard_index(33), b"b");
    sink.append(shard_index(0), b"a");
    assert!(!sink.is_empty());
    let mut out = b">".to_vec();
    sink.flush(&mut out);
    assert_eq!(out, b">ab");
}

fn local_peer() -> Option<PeerIp> {
    Some(PeerIp::V4(Ipv4 { a: 127, b: 0, c: 0, d: 1 }))
}

fn assert_line(line: &AccessLine<'_>, expected: &str) {
    let mut stack = [0_u8; LINE_STACK];
    let len = render_line_stack("STAMP", line, &mut stack).unwrap();
    assert_eq!(format!("STAMP{expected}").as_bytes(), &stack[..len]);
    let mut direct = String::new();
    render_line(line, &mut direct);
    assert_eq!(expected, direct);
}

#[test]
fn direct_line_matches_tracing() {
    assert_line(
        &AccessLine {
            ip: local_peer(),
            method: "GET",
            path: "/files/one.bin",
            version: Version::Http11,
            status: 206,
            size: "9",
        },
        "  INFO lanfile: access ip=Some(127.0.0.1) method=GET path=/files/one.bin \
         version=HTTP/1.1 status=206 size=9\n",
    );
    assert_line(
        &AccessLine {
            ip: None,
            method: "POST",
            path: "/api/zip/target",
            version: Version::Http2,
            status: 200,
            size: "-",
        },
        "  INFO lanfile: access ip=None method=POST path=/api/zip/target version=HTTP/2.0 \
         status=200 size=-\n",
    );
}

#[test]
fn stack_line_gives_up_when_full() {
    let path = "a".repeat(LINE_STACK);
    let line = AccessLine {
        ip: local_peer(),
        method: "GET",
        path: &path,
        version: Version::Http11,
        status: 200,
        size: "1",
    };
    let mut stack = [0_u8; LINE_STACK];
    assert!(render_line_stack("STAMP", &line, &mut stack).is_none());
    let mut direct = String::new();
    render_line(&line, &mut direct);
    assert!(direct.contains(&path));
}

#[test]
fn stack_line_gives_up_on_ipv6() {
    let line = AccessLine {
        ip: Some(PeerIp::V6("::1".to_string())),
        method: "GET",
        path: "/files/one.bin",
        version: Version::Http11,
        status: 200,
        size: "1",
    };
    let mut stack = [0_u8; LINE_STACK];
    assert!(render_line_stack("STAMP", &line, &mut stack).is_none());
    assert!(line.text().starts_with("access ip=Some(::1) method=GET "));
}

#[test]
fn a_line_fits_exactly_or_not_at_all() {
    let line = access_line(None, "G", "/", Version::Http10, None, None);
    assert_eq!((line.status, line.size), (200, "-"));
    let mut text = "S".to_string();
    render_line(&line, &mut text);
    let mut exact = vec![0_u8; text.len()];
    assert_eq!(render_line_stack("S", &line, &mut exact), Some(text.len()));
    assert_eq!(exact, text.as_bytes());
    let mut short = vec![0_u8; text.len() - 1];
    assert_eq!(render_line_stack("S", &line, &mut short), None);
    let other = access_line(None, "G", "/", Version::Http3, Some(0), Some("12"));
    assert!(other.text().ends_with("version=HTTP/3.0 status=0 size=12"));
}

#[test]
fn the_log_goes_where_it_is_told() {
    assert!(log_mode(false, true) == LogMode::Off);
    assert!(log_mode(true, true) == LogMode::Tracing);
    assert!(log_mode(true, false) == LogMode::Direct);
    let mut stamp = Stamp::new();
    assert_eq!(stamp.get(5), None);
    stamp.set(5, "five".to_string());
    assert_eq!(stamp.get(5), Some("five"));
    assert_eq!(stamp.get(6), None);
}

#[test]
fn sub_path_matches_the_router() {
    let cases: &[(&str, Option<&str>)] = &[
        ("/files/f.bin", Some("f.bin")),
        ("/files//f.bin", Some("f.bin")),
        ("/files/./f.bin", Some("./f.bin")),
        ("/files/sub//g.txt", Some("sub//g.txt")),
        ("/files/sub/../f.bin", Some("sub/../f.bin")),
        ("/files/a%20b.txt", Some("a b.txt")),
        ("/files/a+b.txt", Some("a+b.txt")),
        ("/files/%2e%2e/f.bin", Some("../f.bin")),
        ("/files/", Some("")),
        ("/files/f.bin/", Some("")),
        ("/files//", Some("")),
        ("/files", None),
        ("/", None),
        ("/api/list", None),
        ("/static/x.css", None),
    ];
    for (path, expected) in cases {
        assert_eq!(files_sub_path(path).as_deref(), *expected, "{path}");
    }
}

#[test]
fn sub_path_borrows_when_nothing_is_encoded() {
    assert_eq!(files_sub_path("/files/f.bin").as_deref(), Some("f.bin"));
}

#[test]
fn requests_are_routed_by_path_and_method() {
    assert!(matches!(route("/files/a", Method::Get), Route::Files(sub) if sub == "a"));
    assert!(matches!(route("/pull/a%20b", Method::Head), Route::Pull(sub) if sub == "a b"));
    assert!(matches!(route("/files/a", Method::Other), Route::NoFile));
    assert!(matches!(route("/pull/a", Method::Other), Route::NoFile));
    assert!(matches!(route("/api/list", Method::Get), Route::Router));
    assert!(needs_error_page(false, Some(404), false));
    assert!(needs_error_page(false, Some(599), false));
    assert!(!needs_error_page(true, Some(404), false));
    assert!(!needs_error_page(false, Some(404), true));
    assert!(!needs_error_page(false, Some(200), false));
    assert!(!needs_error_page(false, None, false));
}

#[test]
fn no_failure_to_accept_ends_the_server() {
    assert!(accept_next(AcceptEvent::Accepted(false)) == AcceptAction::BackOff);
    assert!(accept_next(AcceptEvent::Accepted(true)) == AcceptAction::ReadLocalAddr);
    assert!(accept_next(AcceptEvent::LocalAddr(false)) == AcceptAction::BackOff);
    assert!(accept_next(AcceptEvent::LocalAddr(true)) == AcceptAction::SetNoDelay);
    assert!(accept_next(AcceptEvent::NoDelay(false)) == AcceptAction::Serve);
}

fn meta(ino: u64, len: u64) -> FileMeta {
    FileMeta { ino, len, mtime: 1, mtime_nsec: 2 }
}

#[test]
fn hits_while_the_file_is_unchanged() {
    let mut cache = FileCache::new();
    assert_eq!(cache.insert("file.txt", 11, meta(1, 5), 0), None);
    let hit = cache.get("file.txt", meta(1, 5), 10).unwrap();
    assert_eq!(hit.handle, 11);
    assert_eq!(hit.meta.len, 5);
    assert!(cache.get("other.txt", meta(1, 5), 10).is_none());
}

#[test]
fn misses_after_the_file_changes() {
    let mut cache = FileCache::new();
    cache.insert("file.txt", 1, meta(1, 5), 0);
    assert!(cache.get("file.txt", meta(1, 12), 0).is_none());
    let touched = FileMeta { mtime: 9, ..meta(1, 5) };
    assert!(cache.get("file.txt", touched, 0).is_none());
    let touched = FileMeta { mtime_nsec: 9, ..meta(1, 5) };
    assert!(cache.get("file.txt", touched, 0).is_none());
}

#[test]
fn misses_after_the_file_is_replaced() {
    let mut cache = FileCache::new();
    cache.insert("file.txt", 1, meta(1, 5), 0);
    assert!(cache.get("file.txt", meta(2, 5), 0).is_none());
}

fn file_headers(content_type: &str, etag: Option<&str>, disposition: Option<&str>) -> FileHeaders {
    FileHeaders {
        content_type: content_type.to_string(),
        last_modified: None,
        etag: etag.map(ToString::to_string),
        disposition: disposition.map(ToString::to_string),
    }
}

#[test]
fn keeps_the_encoded_headers() {
    let mut cache = FileCache::new();
    let mut kept = HashMap::new();
    kept.insert(3_u64, file_headers("text/plain; charset=utf-8", Some("\"abc-1\""), Some("inline")));
    cache.insert("file.txt", 3, meta(1, 5), 0);
    let hit = cache.get("file.txt", meta(1, 5), 0).unwrap();
    let made = file_headers("application/json", Some("\"other\""), None);
    let sent = choose_headers(kept.get(&hit.handle), made);
    assert_eq!(sent.etag.as_deref(), Some("\"abc-1\""));
    assert_eq!(sent.disposition.as_deref(), Some("inline"));
}

#[test]
fn cache_hit_reuses_the_open_file() {
    let mut cache = FileCache::new();
    let files = ServeFiles::new(b"/root".to_vec(), true, false);
    let (first, _) = files.open(&mut cache, "ok.txt", 0, OpenEvent::Begin);
    assert!(matches!(first, OpenAction::Stat), "the first request is no hit");
    let mut kept = HashMap::new();
    let made = || file_headers("text/plain", Some("\"ok-1\""), Some("inline"));
    kept.insert(1_u64, choose_headers(None, made()));
    cache.insert("ok.txt", 1, meta(1, 5), 0);
    let (second, _) = files.open(&mut cache, "ok.txt", 0, OpenEvent::Begin);
    let OpenAction::UseCached(entry) = second else {
        panic!("the second request is a hit");
    };
    let sent = choose_headers(kept.get(&entry.handle), file_headers("other", None, None));
    assert_eq!(sent.content_type, "text/plain");
    assert_eq!(sent.etag.as_deref(), Some("\"ok-1\""));
    assert_eq!(sent.disposition.as_deref(), Some("inline"));
}

#[test]
fn headers_that_were_not_kept_are_made() {
    let kept = file_headers("a/b", None, Some("inline"));
    let mut made = file_headers("c/d", Some("\"e\""), Some("attachment"));
    made.last_modified = Some("now".to_string());
    let sent = choose_headers(Some(&kept), made);
    assert_eq!(sent.content_type, "a/b");
    assert_eq!(sent.etag.as_deref(), Some("\"e\""));
    assert_eq!(sent.disposition.as_deref(), Some("inline"));
    assert_eq!(sent.last_modified.as_deref(), Some("now"));
}

#[test]
fn remove_drops_the_entry() {
    let mut cache = FileCache::new();
    cache.insert("file.txt", 7, meta(1, 5), 0);
    assert_eq!(cache.remove("file.txt"), Some(7));
    assert_eq!(cache.remove("file.txt"), None);
    assert!(cache.get("file.txt", meta(1, 5), 0).is_none());
}

#[test]
fn revalidates_at_most_once_per_interval() {
    let mut cache = FileCache::new();
    let path = "file.txt";
    cache.insert(path, 1, meta(1, 5), 0);
    assert!(cache.get_fresh(path, 0).is_some());
    assert!(cache.get_fresh(path, REVALIDATE_MILLIS - 1).is_some());
    assert!(cache.get_fresh("other.txt", 0).is_none());
    // A fresh hit does not make the entry valid for longer.
    assert!(cache.get_fresh(path, REVALIDATE_MILLIS).is_none());
    assert!(cache.get(path, meta(1, 5), REVALIDATE_MILLIS).is_some());
    assert!(cache.get_fresh(path, REVALIDATE_MILLIS).is_some());
    assert!(cache.get_fresh(path, 2 * REVALIDATE_MILLIS).is_none());
}

#[test]
fn stays_bounded_under_many_paths() {
    let mut cache = FileCache::new();
    for i in 0..2000_u64 {
        assert!(cache.ready());
        cache.insert(&format!("path-{i}"), i, meta(1, 5), 0);
    }
    assert!(cache.total_len() <= SHARDS * CAPACITY_PER_SHARD);
    assert!(cache.get("path-1999", meta(1, 5), 0).is_some());
}

#[test]
fn evicts_the_least_recently_used() {
    let mut cache = FileCache::new();
    let paths: Vec<String> = (0..CAPACITY_PER_SHARD).map(|i| format!("same-shard-{i}")).collect();
    for (i, path) in paths.iter().enumerate() {
        assert_eq!(cache.insert_at(3, path, i as u64, meta(1, 5), 0), None);
    }
    assert!(cache.get_at(3, &paths[0], meta(1, 5), 0).is_some());
    assert_eq!(cache.insert_at(3, "extra", 99, meta(1, 5), 0), Some(1));
    assert!(cache.get_at(3, &paths[0], meta(1, 5), 0).is_some());
    assert!(cache.get_at(3, &paths[1], meta(1, 5), 0).is_none());
    assert_eq!(cache.insert_at(3, "extra", 100, meta(1, 6), 0), Some(99));
    assert_eq!(cache.total_len(), CAPACITY_PER_SHARD);
}

#[test]
fn a_file_is_opened_under_the_root_only() {
    let mut cache = FileCache::new();
    let files = ServeFiles::new(b"/srv/www".to_vec(), true, false);
    let mut open = |event| files.open(&mut cache, "a", 0, event).0;
    assert!(matches!(open(OpenEvent::Begin), OpenAction::Stat));
    assert!(matches!(open(OpenEvent::Stat(None)), OpenAction::Refuse));
    assert!(matches!(
        open(OpenEvent::Stat(Some((false, meta(1, 5))))),
        OpenAction::Refuse
    ));
    assert!(matches!(
        open(OpenEvent::Stat(Some((true, meta(1, 5))))),
        OpenAction::OpenBeneath
    ));
    assert!(matches!(open(OpenEvent::OpenedBeneath(true)), OpenAction::ReadMeta));
    assert!(matches!(open(OpenEvent::OpenedBeneath(false)), OpenAction::Resolve));
    let inside = OpenEvent::Resolved(Some(b"/srv/www/a".to_vec()));
    assert!(matches!(open(inside), OpenAction::OpenResolved(_)));
    let outside = OpenEvent::Resolved(Some(b"/srv/www2/a".to_vec()));
    assert!(matches!(open(outside), OpenAction::Refuse));
    assert!(matches!(open(OpenEvent::Resolved(None)), OpenAction::Refuse));
    assert!(matches!(open(OpenEvent::Opened(true)), OpenAction::ReadMeta));
    assert!(matches!(open(OpenEvent::Opened(false)), OpenAction::Refuse));
    assert!(matches!(
        open(OpenEvent::Meta(Some(meta(1, 4096)))),
        OpenAction::Use { read_ahead: false, .. }
    ));
    assert!(matches!(
        open(OpenEvent::Meta(Some(meta(1, 4097)))),
        OpenAction::Use { read_ahead: true, .. }
    ));
    assert!(matches!(open(OpenEvent::Meta(None)), OpenAction::Refuse));
}

#[test]
fn a_cached_file_is_used_and_a_missing_one_forgotten() {
    let mut cache = FileCache::new();
    let files = ServeFiles::new(b"/srv".to_vec(), true, true);
    cache.insert("a", 42, meta(1, 5), 0);
    let (action, _) = files.open(&mut cache, "a", 10, OpenEvent::Begin);
    assert!(matches!(action, OpenAction::UseCached(entry) if entry.handle == 42));
    let (action, _) = files.open(&mut cache, "a", 5000, OpenEvent::Begin);
    assert!(matches!(action, OpenAction::Stat));
    let found = OpenEvent::Stat(Some((true, meta(1, 5))));
    let (action, _) = files.open(&mut cache, "a", 5000, found);
    assert!(matches!(action, OpenAction::UseCached(_)));
    let changed = OpenEvent::Stat(Some((true, meta(1, 6))));
    let (action, _) = files.open(&mut cache, "a", 5000, changed);
    assert!(matches!(action, OpenAction::Resolve));
    let (action, left) = files.open(&mut cache, "a", 5000, OpenEvent::Stat(None));
    assert!(matches!(action, OpenAction::Refuse));
    assert_eq!(left, Some(42));
}

#[test]
fn a_file_is_sent_by_method_and_connection() {
    assert!(matches!(serve(Method::Other, Some(true), true), ServePlan::Status(404)));
    assert!(matches!(serve(Method::Get, None, true), ServePlan::Status(404)));
    let ServePlan::Send(plan) = serve(Method::Get, Some(false), true) else {
        panic!("an open file is sent");
    };
    assert_eq!(
        (plan.reuse_headers, plan.write_body, plan.store, plan.upgrade),
        (false, false, true, true)
    );
    let ServePlan::Send(plan) = serve(Method::Head, Some(true), false) else {
        panic!("an open file is sent");
    };
    assert_eq!(
        (plan.reuse_headers, plan.write_body, plan.store, plan.upgrade),
        (true, false, false, false)
    );
    let ServePlan::Send(plan) = serve_pull(Method::Get, true, false) else {
        panic!("an open file is sent");
    };
    assert_eq!(
        (plan.reuse_headers, plan.write_body, plan.store, plan.upgrade),
        (false, true, false, true)
    );
    assert!(matches!(serve_pull(Method::Get, false, true), ServePlan::Status(404)));
    assert!(matches!(serve_pull(Method::Other, true, true), ServePlan::Status(404)));
}

#[test]
fn detects_seccomp_filter() {
    assert!(has_seccomp_filter(
        "Name:\tlanfile\nSeccomp:\t2\nSeccomp_filters:\t1\n"
    ));
    assert!(!has_seccomp_filter("Name:\tlanfile\nSeccomp:\t0\n"));
    assert!(!has_seccomp_filter("Seccomp_filters:\t1\n"));
    assert!(has_seccomp_filter("Seccomp: 2\r\n"));
    assert!(!has_seccomp_filter(""));
}

fn raw(name: &[u8], kind: FileKind, mode: u32) -> RawEntry {
    RawEntry {
        name: name.to_vec(),
        kind,
        stat: Some(Stat { mode, size: 7, mtime: 1_735_732_800 }),
    }
}

#[test]
fn listings_put_directories_first_and_leave_links_out() {
    let entries = list_directory(vec![
        raw(b".", FileKind::Dir, 0),
        raw(b"..", FileKind::Dir, 0),
        raw(b"b.txt", FileKind::File, 0),
        raw(b".hidden", FileKind::File, 0),
        raw(b"zdir", FileKind::Dir, 0),
        raw(b"link", FileKind::Symlink, 0),
        raw(b"other", FileKind::Unknown, 0o040_755),
        raw(b"pipe", FileKind::Unknown, 0o010_644),
        raw(b"deep-link", FileKind::Unknown, 0o120_777),
        raw(b"bad\xff", FileKind::File, 0),
        RawEntry { name: b"gone".to_vec(), kind: FileKind::File, stat: None },
    ]);
    let names: Vec<&str> = entries.iter().map(|e| e.name.as_str()).collect();
    assert_eq!(names, vec!["other", "zdir", ".hidden", "b.txt", "bad\u{fffd}", "pipe"]);
    assert_eq!((entries[0].entry_type, entries[0].size), ("dir", None));
    assert_eq!((entries[2].entry_type, entries[2].size), ("file", Some(7)));
    assert_eq!(entries[0].modified, "2025-01-01 12:00:00");
}

#[test]
fn a_time_out_of_range_has_no_text() {
    let far = RawEntry {
        name: b"x".to_vec(),
        kind: FileKind::File,
        stat: Some(Stat { mode: 0, size: 0, mtime: i64::MAX }),
    };
    assert_eq!(list_directory(vec![far])[0].modified, "");
}

#[test]
fn many_entries_are_sorted() {
    let raws = (0..500_u32)
        .map(|i| raw(format!("{:03}", (i * 7919) % 500).as_bytes(), FileKind::File, 0))
        .collect();
    let entries = list_directory(raws);
    assert_eq!(entries.len(), 500);
    for (i, entry) in entries.iter().enumerate() {
        assert_eq!(entry.name, format!("{i:03}"));
    }
}

#[test]
fn a_listing_is_answered_with_its_path() {
    let api = ListApi::new(b"/srv".to_vec(), 9000);
    assert_eq!(api.root(), b"/srv");
    assert_eq!(display_path(""), "/");
    assert_eq!(display_path("sub"), "/sub");
    assert_eq!(api.resolve(Some(b"/srv/sub".to_vec())), Some(b"/srv/sub".to_vec()));
    assert_eq!(api.resolve(Some(b"/etc".to_vec())), None);
    assert_eq!(resolve_under(b"/srv", None), None);
    assert!(matches!(api.handle("x", Listed::Failed, None), ListReply::Status(500)));
    assert!(matches!(api.handle("x", Listed::NoDirectory, None), ListReply::Status(404)));
    let raws = vec![raw(b"a", FileKind::File, 0)];
    let ListReply::Listing(listing) = api.handle("sub", Listed::Entries(raws), Some("ip".into()))
    else {
        panic!("a directory is listed");
    };
    assert_eq!(listing.path, "/sub");
    assert_eq!(listing.port, 9000);
    assert_eq!(listing.lan_ip.as_deref(), Some("ip"));
    assert_eq!(listing.entries.len(), 1);
}

#[test]
fn an_address_is_looked_up_once_a_second() {
    let mut cache = LanIpCache::new();
    assert!(cache.get(5).is_none());
    cache.store(Some("192.168.1.2".to_string()), 5);
    assert_eq!(cache.get(5 + LAN_IP_NANOS - 1), Some(Some("192.168.1.2".to_string())));
    assert!(cache.get(5 + LAN_IP_NANOS).is_none());
    cache.store(None, 9);
    assert_eq!(cache.get(9), Some(None));
}

fn interface(name: &str, ip: [u8; 4], mask: u8) -> Interface {
    let ip = Ipv4 { a: ip[0], b: ip[1], c: ip[2], d: ip[3] };
    let netmask = Ipv4 { a: 255, b: 255, c: 255, d: mask };
    Interface { name: name.to_string(), addr: Some(Ipv4Addr { ip, netmask }) }
}

#[test]
fn the_address_of_the_local_network_is_shown() {
    let shown = detect_lan_ip(vec![
        interface("lo", [127, 0, 0, 1], 0),
        interface("foo0", [10, 0, 0, 9], 0),
        interface("TUN0", [10, 8, 0, 1], 0),
        interface("ETH0", [192, 168, 1, 20], 0),
    ]);
    assert_eq!(shown.as_deref(), Some("192.168.1.20"));
    let shown = detect_lan_ip(vec![
        interface("eth0", [169, 254, 3, 4], 0),
        interface("wlan0", [10, 1, 1, 1], 255),
        interface("foo0", [10, 0, 0, 9], 0),
    ]);
    assert_eq!(shown.as_deref(), Some("10.0.0.9"));
    let none = detect_lan_ip(vec![
        interface("docker0", [172, 17, 0, 1], 0),
        interface("en0", [0, 0, 0, 0], 0),
        Interface { name: "eth1".to_string(), addr: None },
    ]);
    assert_eq!(none, None);
}

#[test]
fn paths_are_compared_step_by_step() {
    assert!(starts_with(b"/srv/www/a", b"/srv/www"));
    assert!(starts_with(b"/srv//www/./a", b"/srv/www/"));
    assert!(!starts_with(b"/srv/www2", b"/srv/www"));
    assert!(!starts_with(b"srv/www", b"/srv"));
    assert!(starts_with(b"./a", b"."));
    assert!(!starts_with(b"a", b"."));
    assert!(starts_with(b"./a", b""));
    assert_eq!(file_name(b"/usr/bin/"), Some(b"bin".to_vec()));
    assert_eq!(file_name(b"foo.txt/."), Some(b"foo.txt".to_vec()));
    assert_eq!(file_name(b"foo/.."), None);
    assert_eq!(file_name(b"/"), None);
    assert_eq!(join(b"/srv", b"a/b"), b"/srv/a/b".to_vec());
    assert_eq!(join(b"/srv/", b""), b"/srv/".to_vec());
    assert_eq!(join(b"/srv", b"/etc"), b"/etc".to_vec());
    assert_eq!(folder_name(b"/data/photos"), "photos");
    assert_eq!(folder_name(b"/"), "root");
    assert_eq!(folder_name(b"/a/\xff"), "\u{fffd}");
}

#[test]
fn archives_are_named_after_their_folder() {
    assert_eq!(
        content_disposition("a b/中"),
        "attachment; filename*=UTF-8''a%20b%2F%E4%B8%AD.zip"
    );
    let api = ZipApi::new(b"/srv".to_vec());
    assert!(matches!(api.handle(Resolved::Failed), ZipReply::Status(500)));
    assert!(matches!(api.handle(Resolved::Missing), ZipReply::Status(404)));
    let file = Resolved::Found { path: b"/srv/f".to_vec(), is_dir: false };
    assert!(matches!(api.handle(file), ZipReply::Status(404)));
    let outside = Resolved::Found { path: b"/etc".to_vec(), is_dir: true };
    assert!(matches!(api.handle(outside), ZipReply::Status(404)));
    let inside = Resolved::Found { path: b"/srv/docs".to_vec(), is_dir: true };
    let ZipReply::Archive(archive) = api.handle(inside) else {
        panic!("a directory is packed");
    };
    assert_eq!(archive.folder, "docs");
    assert_eq!(archive.content_type, "application/zip");
    assert_eq!(archive.content_disposition, "attachment; filename*=UTF-8''docs.zip");
}

fn child(name: &str, kind: FileKind) -> RawChild {
    RawChild { kind, name: name.as_bytes().to_vec() }
}

/// Walks root/{a, b, dir/{c, d, e}, link} until `on_entry` wants no more.
fn walk_tree(on_entry: &mut dyn FnMut(Entry) -> bool) {
    let mut walk = Walk::new(b"/t/root", "root");
    let mut event = WalkEvent::Start;
    loop {
        event = match walk.step(event) {
            WalkAction::Open { dir } => WalkEvent::Listed(match dir.as_slice() {
                b"/t/root" => Some(vec![
                    child("link", FileKind::Symlink),
                    child("b", FileKind::File),
                    child("..", FileKind::Dir),
                    child("dir", FileKind::Unknown),
                    child("locked", FileKind::Dir),
                    child("a", FileKind::File),
                    child(".", FileKind::Dir),
                ]),
                b"/t/root/dir" => Some(vec![
                    child("e", FileKind::File),
                    child("d", FileKind::File),
                    child("c", FileKind::Unknown),
                    child("x", FileKind::Unknown),
                ]),
                _ => None,
            }),
            WalkAction::Stat { name, .. } => WalkEvent::Mode(match name.as_str() {
                "dir" => Some(0o040_755),
                "c" => Some(0o100_644),
                _ => None,
            }),
            WalkAction::Emit(entry) => WalkEvent::Emitted(on_entry(entry)),
            WalkAction::Done => return,
        };
    }
}

#[test]
fn walk_emits_all_entries_with_structure() {
    let mut out = Vec::new();
    walk_tree(&mut |entry| {
        out.push(match entry {
            Entry::Dir { name } => name,
            Entry::File { abs, name } => {
                assert_eq!(abs, format!("/t/{name}").into_bytes());
                name
            }
        });
        true
    });
    assert_eq!(
        out,
        vec!["root/", "root/a", "root/b", "root/dir/", "root/dir/c", "root/dir/d", "root/dir/e"]
    );
}

#[test]
fn walk_stops_when_callback_returns_false() {
    let mut count = 0;
    walk_tree(&mut |_entry| {
        count += 1;
        count < 4
    });
    assert_eq!(count, 4);
}

#[test]
fn children_are_sorted_by_name() {
    let one = |name: &str| Child { kind: FileKind::File, name: name.to_string() };
    let sorted = sort_by_name(vec![one("b"), one("B"), one("ab"), one("a"), one("中")]);
    let names: Vec<&str> = sorted.iter().map(|c| c.name.as_str()).collect();
    assert_eq!(names, vec!["B", "a", "ab", "b", "中"]);
}

#[test]
fn a_file_is_fed_as_start_chunks_and_end() {
    let record = Entry::File { abs: b"/f".to_vec(), name: "f".to_string() };
    let (state, action) = feed(FeedState::Idle, FeedEvent::Record(record));
    assert!(matches!(action, FeedAction::SendStart { name } if name == "f"));
    let (state, action) = feed(state, FeedEvent::Sent(true));
    assert!(matches!(action, FeedAction::Open { abs } if abs == b"/f"));
    let (state, action) = feed(state, FeedEvent::Opened(true));
    assert!(matches!(action, FeedAction::Read));
    let (state, action) = feed(state, FeedEvent::Read(10));
    assert!(matches!(action, FeedAction::SendChunk { len: 10 }));
    let (state, action) = feed(state, FeedEvent::Sent(true));
    assert!(matches!(action, FeedAction::Read));
    let (state, action) = feed(state, FeedEvent::Read(0));
    assert!(matches!(action, FeedAction::SendEnd));
    let (state, action) = feed(state, FeedEvent::Sent(true));
    assert!(matches!(action, FeedAction::Done(true)));
    assert!(matches!(state, FeedState::Idle));

    let dir = Entry::Dir { name: "d/".to_string() };
    let (state, action) = feed(FeedState::Idle, FeedEvent::Record(dir));
    assert!(matches!(action, FeedAction::SendDir { .. }));
    let (_, action) = feed(state, FeedEvent::Sent(false));
    assert!(matches!(action, FeedAction::Done(false)));

    let (_, action) = feed(FeedState::Opening, FeedEvent::Opened(false));
    assert!(matches!(action, FeedAction::SendEnd));
}

#[test]
fn items_are_written_as_records() {
    let (inside, action) = write_item(false, Some(Item::Dir { name: "d/".to_string() }));
    assert!(!inside);
    match action {
        WriteAction::WriteDir { name, permissions } => {
            assert_eq!(name, "d/");
            assert_eq!(permissions, 0o40755);
            assert_eq!(permissions, DIR_PERMISSIONS);
        }
        _ => panic!("a directory is written"),
    }
    let (inside, action) = write_item(false, Some(Item::FileStart { name: "f".to_string() }));
    assert!(inside);
    assert!(matches!(action, WriteAction::BeginFile { .. }));
    let (inside, action) = write_item(true, Some(Item::Chunk { data: vec![1, 2, 3], len: 2 }));
    assert!(inside);
    assert!(matches!(action, WriteAction::WriteChunk { len: 2, .. }));
    let (inside, action) = write_item(true, Some(Item::FileEnd));
    assert!(!inside);
    assert!(matches!(action, WriteAction::EndFile));
    assert!(matches!(write_item(true, None), (false, WriteAction::EndFile)));
    assert!(matches!(write_item(false, None), (false, WriteAction::EndArchive)));
    assert!(matches!(write_item(false, Some(Item::FileEnd)), (false, WriteAction::Skip)));
}

#[test]
fn a_range_is_read_in_chunks() {
    let mut file = ChunkedFile::new(10, 4, 100);
    let mut seen = Vec::new();
    while let Some((offset, max)) = file.poll_next() {
        seen.push((offset, max));
        let read: Result<u64, String> = Ok(max);
        assert!(matches!(file.chunk_read(read), Ok(n) if n == max));
    }
    assert_eq!(seen, vec![(100, 4), (104, 4), (108, 2)]);
    let content: Vec<u8> = (0..=255).collect();
    let joined: Vec<u8> = seen
        .iter()
        .flat_map(|(at, n)| content[*at as usize..(at + n) as usize].to_vec())
        .collect();
    assert_eq!(joined, &content[100..110]);
    let mut short = ChunkedFile::new(10, 4, 0);
    let read: Result<u64, String> = Ok(0);
    assert!(matches!(short.chunk_read(read), Err(ChunkError::UnexpectedEof)));
    let read: Result<u64, String> = Err("io".to_string());
    assert!(matches!(short.chunk_read(read), Err(ChunkError::Read(_))));
    assert_eq!(short.poll_next(), Some((0, 4)));
}

#[test]
fn lazy_file_duplicates_only_when_it_starts_reading() {
    let mut lazy: LazyFile<&str, String> = LazyFile::new("shared");
    assert!(lazy.handle().is_none(), "no duplicate before the first read");
    let LazyStep::Duplicate(source) = lazy.prepare() else {
        panic!("the first read duplicates the handle");
    };
    lazy.duplicated(format!("copy of {source}"));
    assert!(matches!(lazy.prepare(), LazyStep::Ready));
    assert_eq!(lazy.handle().map(String::as_str), Some("copy of shared"));
    let mut failed: LazyFile<&str, String> = LazyFile::new("shared");
    assert!(matches!(failed.prepare(), LazyStep::Duplicate("shared")));
    assert!(matches!(failed.prepare(), LazyStep::NoHandle));
}

#[test]
fn clocks_and_addresses_have_a_text() {
    assert_eq!(lanfile::file_cache::millis(12, 345_678_901), 12_345);
    assert_eq!(lanfile::serve_args::listen_addr(9000), "0.0.0.0:9000");
}
