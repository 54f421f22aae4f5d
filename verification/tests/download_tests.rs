use downloader_cli::color::ShellColor;
use downloader_cli::download::{split_lines, join_path, Download, DownloadAction, DownloadEvent, ExistingFile, UrlSource};

fn make(url: &str, des: Option<&str>, overwrite: bool, resume: bool, batch: bool) -> Download {
    Download::new(
        url.to_string(),
        des.map(|d| d.to_string()),
        overwrite,
        resume,
        false,
        false,
        batch,
        "#".to_string(),
        "-".to_string(),
        "#".to_string(),
        "[]".to_string(),
        String::new(),
        String::new(),
        String::new(),
        ShellColor::new(),
    )
}

fn make_icons(done: &str, left: &str, current: &str, border: &str, colors: [&str; 3]) -> Download {
    Download::new(
        "https://example.com/f".to_string(),
        None,
        false,
        false,
        false,
        false,
        false,
        done.to_string(),
        left.to_string(),
        current.to_string(),
        border.to_string(),
        colors[0].to_string(),
        colors[1].to_string(),
        colors[2].to_string(),
        ShellColor::new(),
    )
}

fn make_quiet(url: &str, des: Option<&str>, overwrite: bool) -> Download {
    Download::new(
        url.to_string(),
        des.map(|d| d.to_string()),
        overwrite,
        false,
        false,
        true,
        false,
        "#".to_string(),
        "-".to_string(),
        "#".to_string(),
        "|".to_string(),
        String::new(),
        String::new(),
        String::new(),
        ShellColor::new(),
    )
}

#[test]
fn border_icons() {
    assert_eq!(Download::extract_border_icon("[]"), ('[', ']'));
    assert_eq!(Download::extract_border_icon("*"), ('*', '*'));
    assert_eq!(Download::extract_border_icon(""), ('|', '|'));
    assert_eq!(Download::extract_border_icon("abc"), ('a', 'b'));
    assert_eq!(Download::extract_border_icon("▓x"), ('▓', 'x'));
}

#[test]
fn names_from_urls() {
    assert_eq!(make("https://example.com/file.zip", None, false, false, false).get_name(), "file.zip");
    assert_eq!(make("https://example.com/a/b.tar.gz?x=1", None, false, false, false).get_name(), "b.tar.gz");
    assert_eq!(make("https://e.com/f.zip?x=a/b", None, false, false, false).get_name(), "b");
    assert_eq!(make("https://example.com/", None, false, false, false).get_name(), "");
    assert_eq!(make("noslash?q", None, false, false, false).get_name(), "noslash");
    assert_eq!(make("plain", None, false, false, false).get_name(), "plain");
}

#[test]
fn name_is_plain() {
    for url in ["https://a.b/c/d?e/f?g", "x/y/z", "?/?", "a?b?c"] {
        let n = make(url, None, false, false, false).get_name();
        assert!(!n.contains('/') && !n.contains('?'), "{}", url);
        assert!(url.contains(n.as_str()));
    }
}

#[test]
fn destination_without_des_is_the_name() {
    let mut d = make("https://example.com/file.zip", None, false, false, false);
    assert_eq!(d.get_destination(), "");
    d.parse_destination(false);
    assert_eq!(d.get_destination(), "file.zip");
}

#[test]
fn destination_to_file_or_directory() {
    let mut d = make("https://example.com/file.zip", Some("out.bin"), false, false, false);
    d.parse_destination(false);
    assert_eq!(d.get_destination(), "out.bin");
    let mut d = make("https://example.com/file.zip", Some("/tmp"), false, false, false);
    d.parse_destination(true);
    assert_eq!(d.get_destination(), "/tmp/file.zip");
    let mut d = make("https://example.com/file.zip", Some("/tmp/"), false, false, false);
    d.parse_destination(true);
    assert_eq!(d.get_destination(), "/tmp/file.zip");
}

#[test]
fn joining_paths() {
    assert_eq!(join_path("/tmp", "a"), "/tmp/a");
    assert_eq!(join_path("/tmp/", "a"), "/tmp/a");
    assert_eq!(join_path("", "a"), "a");
    assert_eq!(join_path("dir", ""), "dir/");
    assert_eq!(join_path("dir", "/abs"), "/abs");
}

#[test]
fn existing_file_decisions() {
    let d = make("https://e.com/f", None, true, false, false);
    assert!(!d.needs_size_probe());
    assert_eq!(d.parse_exists(None), ExistingFile::Overwrite);
    let d = make("https://e.com/f", None, true, true, false);
    assert_eq!(d.parse_exists(Some((10, Some(5)))), ExistingFile::Overwrite);
    let d = make("https://e.com/f", None, false, true, false);
    assert!(d.needs_size_probe());
    assert_eq!(d.parse_exists(Some((10, Some(20)))), ExistingFile::Resume);
    assert_eq!(d.parse_exists(Some((20, Some(20)))), ExistingFile::Refuse);
    assert_eq!(d.parse_exists(Some((30, Some(20)))), ExistingFile::Refuse);
    assert_eq!(d.parse_exists(Some((30, None))), ExistingFile::ResumeUnchecked);
    assert_eq!(d.parse_exists(None), ExistingFile::Refuse);
    let d = make("https://e.com/f", None, false, false, false);
    assert!(!d.needs_size_probe());
    assert_eq!(d.parse_exists(Some((1, Some(2)))), ExistingFile::Refuse);
}

#[test]
fn range_headers() {
    for (resume, text) in [(0u64, "bytes=0-"), (7, "bytes=7-"), (1024, "bytes=1024-"), (u64::MAX, "bytes=18446744073709551615-")] {
        let h = Download::build_headers(resume);
        assert_eq!(h.len(), 1);
        assert_eq!(h.get("range").unwrap().to_str().unwrap(), text);
        assert_eq!(h.get("Range").unwrap().as_bytes(), text.as_bytes());
    }
}

#[test]
fn resume_offsets() {
    let d = make("https://e.com/f", None, false, true, false);
    assert_eq!(d.resume_offset(true, Some(42)), Some(42));
    assert_eq!(d.resume_offset(true, None), None);
    assert_eq!(d.resume_offset(false, Some(42)), None);
    assert!(d.appends(true));
    assert!(!d.appends(false));
    let d = make("https://e.com/f", None, false, false, false);
    assert_eq!(d.resume_offset(true, Some(42)), None);
    assert!(!d.appends(true));
}

#[test]
fn destination_messages() {
    let mut d = make("https://e.com/f.bin", None, true, false, false);
    d.parse_destination(false);
    assert_eq!(d.destination_message(true), "Overwriting: f.bin");
    assert_eq!(d.destination_message(false), "Saving as: f.bin");
    let mut d = make("https://e.com/f.bin", None, false, false, false);
    d.parse_destination(false);
    assert_eq!(d.destination_message(true), "Saving as: f.bin");
}

#[test]
fn quiet_mode_announces_bare_destination() {
    let mut d = make_quiet("https://example.com/file.zip", Some("/tmp/"), false);
    d.parse_destination(true);
    assert!(d.is_quiet());
    assert_eq!(d.destination_message(false), "/tmp/file.zip");
    assert_eq!(format!("{}...success", d.destination_message(false)), "/tmp/file.zip...success");
    let mut d = make_quiet("https://example.com/file.zip", None, true);
    d.parse_destination(false);
    assert_eq!(d.destination_message(true), "file.zip");
}

#[test]
fn truncation_when_not_appending() {
    let d = make("https://e.com/f", None, true, false, false);
    assert!(d.truncates(true));
    assert!(d.truncates(false));
    let d = make("https://e.com/f", None, false, true, false);
    assert!(!d.truncates(true));
    assert!(d.truncates(false));
    for exists in [true, false] {
        assert_ne!(d.truncates(exists), d.appends(exists));
    }
}

#[test]
fn file_sizes() {
    let mut d = make("https://e.com/f.bin", None, false, false, false);
    assert_eq!(d.file_size(), None);
    d.set_file_size(Some(99));
    assert_eq!(d.file_size(), Some(99));
    d.set_file_size(None);
    assert_eq!(d.file_size(), None);
    assert!(!d.is_quiet());
}

#[test]
fn bar_lengths() {
    assert_eq!(Download::bar_length(120), 40);
    assert_eq!(Download::bar_length(90), 40);
    assert_eq!(Download::bar_length(89), 39);
    assert_eq!(Download::bar_length(70), 20);
    assert_eq!(Download::bar_length(50), 0);
    assert_eq!(Download::bar_length(10), 0);
}

#[test]
fn progress_bar_plain() {
    let d = make_icons("#", "-", "@", "[]", ["", "", ""]);
    assert_eq!(d.progress_bar(2, 6), "|[##@---| ]");
    assert_eq!(d.progress_bar(0, 3), "|[@--| ]");
    assert_eq!(d.progress_bar(6, 6), "|[######| ]");
    assert_eq!(d.progress_bar(9, 3), "|[###| ]");
    assert_eq!(d.progress_bar(0, 0), "|[| ]");
}

#[test]
fn progress_bar_shows_current_icon() {
    let d = make_icons("#", "-", "@", "||", ["", "", ""]);
    assert_eq!(d.progress_bar(1, 3), "||#@-| |");
    for done in 0..5usize {
        assert!(d.progress_bar(done, 5).contains('@'));
    }
    assert!(!d.progress_bar(5, 5).contains('@'));
}

#[test]
fn progress_bar_replaces_wide_icons() {
    let d = make_icons("##", "▒", "#", "", ["", "", ""]);
    assert_eq!(d.progress_bar(1, 3), "||▓#░| |");
    let d = make_icons("", "x", "", "<", ["", "", ""]);
    assert_eq!(d.progress_bar(3, 5), "|<x| <");
    let d = make_icons("#", "-", "▶▶", "", ["", "", ""]);
    assert_eq!(d.progress_bar(0, 2), "||▓-| |");
}

#[test]
fn progress_bar_coloured() {
    let d = make_icons("#", "-", "@", "||", ["green", "red", "cyan"]);
    assert_eq!(
        d.progress_bar(1, 3),
        "||\u{1b}[1;32m#\u{1b}[0m\u{1b}[1;36m@\u{1b}[0m\u{1b}[1;31m-\u{1b}[0m| |"
    );
}

#[test]
fn bar_fills() {
    assert_eq!(Download::bar_fill(50, 100, 40), 20);
    assert_eq!(Download::bar_fill(0, 100, 40), 0);
    assert_eq!(Download::bar_fill(100, 100, 40), 40);
    assert_eq!(Download::bar_fill(150, 100, 40), 40);
    assert_eq!(Download::bar_fill(1, 3, 40), 13);
    assert_eq!(Download::bar_fill(5, 0, 40), 40);
    assert_eq!(Download::bar_fill(u64::MAX, u64::MAX, 40), 40);
    assert_eq!(Download::bar_fill(u64::MAX - 1, u64::MAX, 40), 39);
    assert_eq!(Download::bar_fill(7, 10, 0), 0);
}

#[test]
fn bytes_still_to_come() {
    assert_eq!(Download::bytes_left(100, 30), 70);
    assert_eq!(Download::bytes_left(100, 100), 0);
    assert_eq!(Download::bytes_left(100, 150), 0);
    assert_eq!(Download::bytes_left(0, 0), 0);
}

#[test]
fn lines_of_batch_files() {
    assert_eq!(split_lines("a\r\nb\n"), vec!["a", "b"]);
    assert_eq!(split_lines("a\n\nb"), vec!["a", "", "b"]);
    assert_eq!(split_lines("x\r"), vec!["x\r"]);
    assert_eq!(split_lines(""), Vec::<String>::new());
    assert_eq!(split_lines("\n"), vec![""]);
    assert_eq!(split_lines("one"), vec!["one"]);
}

#[test]
fn lines_match_std() {
    for text in ["a\r\nb\n", "a\n\nb", "x\r", "", "\n", "\r\n\r\n", "u1\nu2\r\nu3", "\rq\n"] {
        let ours = split_lines(text);
        let std_lines: Vec<String> = text.lines().map(|s| s.to_string()).collect();
        assert_eq!(ours, std_lines, "{:?}", text);
        assert!(ours.iter().all(|l| !l.contains('\n')));
    }
}

#[test]
fn urls_are_recognised() {
    match make("https://example.com/f", None, false, false, false).parse_url("/home/u") {
        UrlSource::Single(u) => assert_eq!(u, "https://example.com/f"),
        other => panic!("{:?}", other),
    }
    match make("http://example.com/f", None, false, false, true).parse_url("/home/u") {
        UrlSource::Single(u) => assert_eq!(u, "http://example.com/f"),
        other => panic!("{:?}", other),
    }
    match make("file:///tmp/x", None, false, false, false).parse_url("/home/u") {
        UrlSource::Single(u) => assert_eq!(u, "file:///tmp/x"),
        other => panic!("{:?}", other),
    }
}

#[test]
fn non_urls_without_batch() {
    for url in ["list.txt", "ftp://example.com/f", "xhttps://a", "HTTP://a"] {
        match make(url, None, false, false, false).parse_url("/home/u") {
            UrlSource::NotAUrl => {}
            other => panic!("{}: {:?}", url, other),
        }
    }
}

#[test]
fn batch_files() {
    match make("list.txt", None, false, false, true).parse_url("/home/u") {
        UrlSource::BatchFile(p) => assert_eq!(p, "list.txt"),
        other => panic!("{:?}", other),
    }
    match make("~user/list.txt", None, false, false, true).parse_url("/home/u") {
        UrlSource::BatchFile(p) => assert_eq!(p, "~user/list.txt"),
        other => panic!("{:?}", other),
    }
    match make("~/list.txt", None, false, false, true).parse_url("/home/u") {
        UrlSource::BatchFile(p) => assert_eq!(p, "/home/u/list.txt"),
        other => panic!("{:?}", other),
    }
    match make("~", None, false, false, true).parse_url("/root") {
        UrlSource::BatchFile(p) => assert_eq!(p, "/root"),
        other => panic!("{:?}", other),
    }
    match make("a/~/list.txt", None, false, false, true).parse_url("/home/u") {
        UrlSource::BatchFile(p) => assert_eq!(p, "a/~/list.txt"),
        other => panic!("{:?}", other),
    }
}

#[test]
fn batch_files_with_this_home() {
    let (source, home) = make("~/list.txt", None, false, false, true).find_urls();
    match source {
        UrlSource::BatchFile(p) => assert_eq!(p, format!("{}/list.txt", home)),
        other => panic!("{:?}", other),
    }
    let (source, _) = make("list.txt", None, false, false, true).find_urls();
    match source {
        UrlSource::BatchFile(p) => assert_eq!(p, "list.txt"),
        other => panic!("{:?}", other),
    }
    let (source, _) = make("https://e.com/x", None, false, false, false).find_urls();
    assert!(matches!(source, UrlSource::Single(u) if u == "https://e.com/x"));
}

#[test]
fn url_source_from_results() {
    let d = make("name", None, false, false, true);
    match d.url_source(true, "ignored".to_string()) {
        UrlSource::Single(u) => assert_eq!(u, "name"),
        other => panic!("{:?}", other),
    }
    match d.url_source(false, "/home/x/name".to_string()) {
        UrlSource::BatchFile(p) => assert_eq!(p, "/home/x/name"),
        other => panic!("{:?}", other),
    }
    let d = make("name", None, false, false, false);
    assert!(matches!(d.url_source(false, String::new()), UrlSource::NotAUrl));
}

#[test]
fn run_over_no_urls_succeeds() {
    let mut d = make("ignored", None, false, false, true);
    assert_eq!(d.download(DownloadEvent::Begin(vec![])), DownloadAction::Stop(true));
}

#[test]
fn run_fetches_in_order_and_succeeds() {
    let mut d = make("ignored", None, false, false, true);
    let urls = vec!["https://e.com/a".to_string(), "https://e.com/b".to_string(), "https://e.com/c".to_string()];
    let mut fetched = Vec::new();
    let mut action = d.download(DownloadEvent::Begin(urls));
    while action == DownloadAction::Fetch {
        fetched.push(d.get_name());
        action = d.download(DownloadEvent::Finished(true));
    }
    assert_eq!(action, DownloadAction::Stop(true));
    assert_eq!(fetched, vec!["a", "b", "c"]);
}

#[test]
fn run_stops_at_first_failure() {
    let mut d = make("ignored", None, false, false, true);
    let urls = vec!["https://e.com/a".to_string(), "https://e.com/b".to_string(), "https://e.com/c".to_string()];
    assert_eq!(d.download(DownloadEvent::Begin(urls)), DownloadAction::Fetch);
    assert_eq!(d.download(DownloadEvent::Finished(true)), DownloadAction::Fetch);
    assert_eq!(d.get_name(), "b");
    assert_eq!(d.download(DownloadEvent::Finished(false)), DownloadAction::Stop(false));
    assert_eq!(d.get_url(), "https://e.com/b");
}

#[test]
fn run_ends_at_failed_url_with_its_destination() {
    let mut d = make("ignored", Some("/data"), false, false, true);
    let urls = vec!["https://e.com/a.zip".to_string(), "https://e.com/b.zip".to_string(), "https://e.com/c.zip".to_string()];
    let mut action = d.download(DownloadEvent::Begin(urls));
    let mut outcomes = vec![true, false, true].into_iter();
    while action == DownloadAction::Fetch {
        d.parse_destination(true);
        action = d.download(DownloadEvent::Finished(outcomes.next().unwrap()));
    }
    assert_eq!(action, DownloadAction::Stop(false));
    assert_eq!(d.get_url(), "https://e.com/b.zip");
    assert_eq!(d.get_destination(), "/data/b.zip");
}

#[test]
fn batch_stays_in_directory() {
    let mut d = make("ignored", Some("/data"), false, false, true);
    let urls = vec!["https://e.com/a.zip".to_string(), "https://e.com/b.zip".to_string()];
    assert_eq!(d.download(DownloadEvent::Begin(urls)), DownloadAction::Fetch);
    d.parse_destination(true);
    assert_eq!(d.get_destination(), "/data/a.zip");
    assert_eq!(d.download(DownloadEvent::Finished(true)), DownloadAction::Fetch);
    d.parse_destination(true);
    assert_eq!(d.get_destination(), "/data/b.zip");
    assert_eq!(d.download(DownloadEvent::Finished(true)), DownloadAction::Stop(true));
}
