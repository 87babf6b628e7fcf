use wdr::Bookmark;
use wdr::add_bookmark;
use wdr::bookmark_file_path;
use wdr::find_bookmark;
use wdr::list_bookmarks;
use wdr::load_bookmarks;
use wdr::pop_bookmark;
use wdr::save_bookmarks;

#[test]
fn oldtests_test_bookmark_file_path_env_override() {
    let custom_path = "/tmp/somewhere/custom_bookmarks.txt".to_string();
    let path = bookmark_file_path(Some(custom_path.clone()), Some("/home/user".to_string()), None);
    assert_eq!(path, custom_path);
}

#[test]
fn bookmark_tests_test_bookmark_file_path_env_override() {
    let custom_path = "relative/custom_bookmarks.txt".to_string();
    let path = bookmark_file_path(
        Some(custom_path.clone()),
        Some("/home/user".to_string()),
        Some("/var/tmp".to_string()),
    );
    assert_eq!(path, custom_path);
}

#[test]
fn test_bookmark_file_path_defaults() {
    let home = "/home/user".to_string();
    let path = bookmark_file_path(None, Some(home.clone()), None);
    let expected = format!("{}/.bookmarks", home);
    assert_eq!(path, expected);
}

#[test]
fn test_bookmark_file_path_cwd_fallback() {
    let path = bookmark_file_path(None, None, Some("/var/tmp".to_string()));
    assert_eq!(path, "/var/tmp/.bookmarks");
}

#[test]
fn test_bookmark_file_path_last_resort() {
    let path = bookmark_file_path(None, None, None);
    assert_eq!(path, "./.bookmarks");
}

#[test]
fn oldtests_test_load_bookmarks_empty_file() {
    let result = load_bookmarks("");
    assert_eq!(result.len(), 0);
}

#[test]
fn lib_test_load_bookmarks_empty_file() {
    let result = load_bookmarks("");
    assert_eq!(result.len(), 0);
}

#[test]
fn bookmark_tests_test_load_bookmarks_empty_file() {
    let result = load_bookmarks("");
    assert_eq!(result.len(), 0);
}

#[test]
fn oldtests_test_add_bookmark_creates_file() {
    let record = add_bookmark("test_bookmark", "/some/dir");
    assert!(record.contains("test_bookmark|"));
}

#[test]
fn lib_test_add_bookmark_creates_file() {
    let record = add_bookmark("test_bookmark", "/another/dir");
    assert!(record.contains("test_bookmark|"));
}

#[test]
fn bookmark_tests_test_add_bookmark_creates_file() {
    let record = add_bookmark("test_bookmark", "/a/third/dir");
    assert!(record.contains("test_bookmark|"));
}

#[test]
fn oldtests_test_load_ignores_invalid_lines() {
    let mut content = String::new();
    content.push_str("valid|/path\n");
    content.push_str("invalid line\n");
    content.push_str("different, delimiter, here\n");
    content.push_str("# in case you want comments\n");
    content.push_str("\n");
    let bookmarks = load_bookmarks(&content);
    assert_eq!(bookmarks.len(), 1);
    assert_eq!(bookmarks[0].name, "valid");
    assert_eq!(bookmarks[0].path, "/path");
}

#[test]
fn bookmark_tests_test_load_ignores_invalid_lines() {
    let content = "valid|/path\ninvalid line\ndifferent, delimiter, here\n# in case you want comments\n\n";
    let bookmarks = load_bookmarks(content);
    assert_eq!(bookmarks.len(), 1);
    assert_eq!(bookmarks[0].name, "valid");
    assert_eq!(bookmarks[0].path, "/path");
}

#[test]
fn test_find_bookmark_missing() {
    let bookmarks = load_bookmarks("");
    let result = find_bookmark("nonexistent", &bookmarks);
    assert!(result.is_none());
}

#[test]
fn test_from_line_splits_at_first_delimiter() {
    let bm = Bookmark::from_line("a|b|c").unwrap();
    assert_eq!(bm.name, "a");
    assert_eq!(bm.path, "b|c");
}

#[test]
fn test_from_line_empty_name() {
    let bm = Bookmark::from_line("|/path").unwrap();
    assert_eq!(bm.name, "");
    assert_eq!(bm.path, "/path");
}

#[test]
fn test_from_line_no_delimiter() {
    assert!(Bookmark::from_line("no delimiter here").is_none());
    assert!(Bookmark::from_line("").is_none());
}

#[test]
fn test_to_line_exact() {
    let bm = Bookmark::new("n".to_string(), "/p".to_string());
    assert_eq!(bm.to_line(), "n|/p");
}

#[test]
fn test_add_bookmark_record_exact() {
    let record = add_bookmark("x", "/cwd");
    assert_eq!(record, "x|/cwd\n");
}

#[test]
fn test_save_bookmarks_writes_oldest_first() {
    let newest_first = vec![
        Bookmark::new("b".to_string(), "/y".to_string()),
        Bookmark::new("a".to_string(), "/x".to_string()),
    ];
    let content = save_bookmarks(&newest_first);
    assert_eq!(content, "a|/x\nb|/y\n");
}

#[test]
fn test_round_trip_preserves_order_and_content() {
    let newest_first = vec![
        Bookmark::new("c".to_string(), "/pc".to_string()),
        Bookmark::new("b".to_string(), "/pb".to_string()),
        Bookmark::new("a".to_string(), "/pa".to_string()),
    ];
    let content = save_bookmarks(&newest_first);
    let reloaded = load_bookmarks(&content);
    assert_eq!(reloaded.len(), 3);
    for i in 0..3 {
        assert_eq!(reloaded[i].name, newest_first[i].name);
        assert_eq!(reloaded[i].path, newest_first[i].path);
    }
}

#[test]
fn test_save_of_load_reproduces_file() {
    let content = "a|/x\nb|/y\nc|/z\n";
    let bookmarks = load_bookmarks(content);
    assert_eq!(save_bookmarks(&bookmarks), content);
}

#[test]
fn test_load_newest_first() {
    let bookmarks = load_bookmarks("a|/pa\nb|/pb\nc|/pc\n");
    assert_eq!(bookmarks.len(), 3);
    assert_eq!(bookmarks[0].name, "c");
    assert_eq!(bookmarks[1].name, "b");
    assert_eq!(bookmarks[2].name, "a");
}

#[test]
fn test_load_without_trailing_newline() {
    let bookmarks = load_bookmarks("a|/pa\nb|/pb");
    assert_eq!(bookmarks.len(), 2);
    assert_eq!(bookmarks[0].name, "b");
    assert_eq!(bookmarks[1].name, "a");
}

#[test]
fn test_load_blank_lines_only() {
    let bookmarks = load_bookmarks("\n\n");
    assert_eq!(bookmarks.len(), 0);
}

#[test]
fn test_append_preserves_prior_entries() {
    let prior = "a|/pa\nb|/pb\n";
    let mut content = prior.to_string();
    content.push_str(&add_bookmark("x", "/cwd"));
    assert!(content.starts_with(prior));
    let bookmarks = load_bookmarks(&content);
    assert_eq!(bookmarks.len(), 3);
    assert_eq!(bookmarks[0].name, "x");
    assert_eq!(bookmarks[0].path, "/cwd");
    assert_eq!(bookmarks[1].name, "b");
    assert_eq!(bookmarks[2].name, "a");
}

#[test]
fn test_pop_returns_newest_and_keeps_rest() {
    let mut bookmarks = load_bookmarks("a|/pa\nb|/pb\nc|/pc\n");
    let popped = pop_bookmark(&mut bookmarks);
    assert_eq!(popped.unwrap(), "/pc");
    let content = save_bookmarks(&bookmarks);
    assert_eq!(content, "a|/pa\nb|/pb\n");
    let reloaded = load_bookmarks(&content);
    assert_eq!(reloaded.len(), 2);
    assert_eq!(reloaded[0].name, "b");
    assert_eq!(reloaded[1].name, "a");
}

#[test]
fn test_pop_on_empty_store() {
    let mut bookmarks = load_bookmarks("");
    let popped = pop_bookmark(&mut bookmarks);
    assert!(popped.is_none());
    assert_eq!(bookmarks.len(), 0);
}

#[test]
fn test_find_most_recent_wins() {
    let bookmarks = load_bookmarks("x|/old\nx|/new\n");
    let found = find_bookmark("x", &bookmarks);
    assert_eq!(found.unwrap(), "/new");
}

#[test]
fn test_find_path_may_contain_delimiter() {
    let bookmarks = load_bookmarks("x|/a|b\n");
    let found = find_bookmark("x", &bookmarks);
    assert_eq!(found.unwrap(), "/a|b");
}

#[test]
fn test_list_bookmarks_newest_first() {
    let bookmarks = load_bookmarks("a|/x\nb|/y\n");
    let shown = list_bookmarks(&bookmarks);
    assert_eq!(shown, "b|/y\na|/x\n");
}

#[test]
fn test_list_bookmarks_empty() {
    let bookmarks = load_bookmarks("");
    assert_eq!(list_bookmarks(&bookmarks), "");
}
