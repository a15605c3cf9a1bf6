use m3u_playlist::configuration::Configuration;
use m3u_playlist::path::extension;
use m3u_playlist::scan::{Entry, ListingError, Scan, ScanError, ScanResult, Step};

/// A folder tree held in memory: each path, and whether it is a folder.
struct Tree {
    nodes: Vec<(String, bool)>,
}

impl Tree {
    fn new(folders: &[&str], files: &[&str]) -> Tree {
        let mut nodes = Vec::new();
        for f in folders {
            nodes.push((f.to_string(), true));
        }
        for f in files {
            nodes.push((f.to_string(), false));
        }
        Tree { nodes }
    }

    fn listing(&self, folder: &str) -> Result<Vec<Entry>, ListingError> {
        if !self.nodes.iter().any(|(p, dir)| *dir && p == folder) {
            return Err(ListingError::Unreadable("No such file or directory".to_string()));
        }
        let prefix = format!("{folder}/");
        let mut entries = Vec::new();
        for (p, dir) in &self.nodes {
            if let Some(rest) = p.strip_prefix(&prefix) {
                if !rest.is_empty() && !rest.contains('/') {
                    entries.push(if *dir { Entry::Folder(p.clone()) } else { Entry::File(p.clone()) });
                }
            }
        }
        Ok(entries)
    }
}

fn run(configuration: Configuration, tree: &Tree) -> Result<ScanResult, ScanError> {
    let mut scan = Scan::scan(configuration);
    loop {
        match scan.next_step() {
            Step::ReadFolder(folder) => {
                let listing = tree.listing(&folder);
                scan = scan.enter_folder(listing)?;
            }
            Step::Finished => return Ok(scan.finish()),
        }
    }
}

fn config(scan: &[&str], extensions: &[&str]) -> Configuration {
    Configuration {
        scan: scan.iter().map(|s| s.to_string()).collect(),
        extensions: extensions.iter().map(|s| s.to_string()).collect(),
        ..Default::default()
    }
}

fn sample_tree() -> Tree {
    Tree::new(
        &[
            "./doc/test_folder_to_scan/foo",
            "./doc/test_folder_to_scan/foo/subfoo",
            "./doc/test_folder_to_scan/bar",
        ],
        &[
            "./doc/test_folder_to_scan/foo/a.mp4",
            "./doc/test_folder_to_scan/foo/b.mp4",
            "./doc/test_folder_to_scan/foo/c.mpg",
            "./doc/test_folder_to_scan/foo/subfoo/x.mp4",
            "./doc/test_folder_to_scan/foo/subfoo/z.mpg",
            "./doc/test_folder_to_scan/bar/n.mpg",
            "./doc/test_folder_to_scan/bar/o.mpg",
            "./doc/test_folder_to_scan/bar/p.mp4",
        ],
    )
}

#[test]
fn it_scans_folders() {
    let configuration = config(
        &["./doc/test_folder_to_scan/foo", "./doc/test_folder_to_scan/bar"],
        &["mp4", "mpg"],
    );
    let result = run(configuration, &sample_tree()).unwrap();
    let mut sorted_found_file_paths = result.found_file_paths.clone();
    sorted_found_file_paths.sort();

    let mut expected_found_file_paths = vec![
        "./doc/test_folder_to_scan/bar/n.mpg".to_string(),
        "./doc/test_folder_to_scan/bar/o.mpg".to_string(),
        "./doc/test_folder_to_scan/bar/p.mp4".to_string(),
        "./doc/test_folder_to_scan/foo/subfoo/x.mp4".to_string(),
        "./doc/test_folder_to_scan/foo/subfoo/z.mpg".to_string(),
        "./doc/test_folder_to_scan/foo/a.mp4".to_string(),
        "./doc/test_folder_to_scan/foo/b.mp4".to_string(),
        "./doc/test_folder_to_scan/foo/c.mpg".to_string(),
    ];
    expected_found_file_paths.sort();

    assert_eq!(sorted_found_file_paths.len(), expected_found_file_paths.len());
    assert_eq!(sorted_found_file_paths, expected_found_file_paths);
}

#[test]
fn walks_depth_first_in_listing_order() {
    let tree = Tree::new(&["r", "r/sub", "s"], &["r/a.mp4", "r/sub/x.mp4", "r/b.mp4", "s/c.mp4"]);
    // the listing of `r` holds `r/sub` before the two files
    let result = run(config(&["s", "r"], &["mp4"]), &tree).unwrap();
    assert_eq!(result.found_file_paths, vec!["s/c.mp4", "r/sub/x.mp4", "r/a.mp4", "r/b.mp4"]);
}

#[test]
fn missing_root_folder_is_an_error() {
    let tree = sample_tree();
    match run(config(&["./nowhere"], &[]), &tree) {
        Err(ScanError::DirectoryRead { path, cause }) => {
            assert_eq!(path, "./nowhere");
            assert_eq!(cause, "No such file or directory");
        }
        other => panic!("unexpected outcome: {other:?}"),
    }
}

#[test]
fn missing_root_aborts_before_later_roots() {
    let tree = sample_tree();
    let outcome = run(config(&["./doc/test_folder_to_scan/bar", "./nowhere", "./doc/test_folder_to_scan/foo"], &["mp4"]), &tree);
    assert!(matches!(outcome, Err(ScanError::DirectoryRead { ref path, .. }) if path == "./nowhere"));
}

#[test]
fn unusable_path_is_an_error() {
    let mut scan = Scan::scan(config(&["d"], &[]));
    match scan.next_step() {
        Step::ReadFolder(folder) => assert_eq!(folder, "d"),
        Step::Finished => panic!("the root was not read"),
    }
    match scan.enter_folder(Err(ListingError::PathEncoding("d/\u{fffd}.mp4".to_string()))) {
        Err(ScanError::PathEncoding { path }) => assert_eq!(path, "d/\u{fffd}.mp4"),
        _ => panic!("expected a path encoding error"),
    }
}

#[test]
fn empty_extensions_accept_every_file() {
    let tree = Tree::new(&["d"], &["d/noext", "d/x.txt"]);
    let result = run(config(&["d"], &[]), &tree).unwrap();
    assert_eq!(result.found_file_paths, vec!["d/noext", "d/x.txt"]);
    assert!(result.excluded_extensions.is_empty());
}

#[test]
fn listed_extension_filters_others() {
    let tree = Tree::new(&["d"], &["d/a.mp4", "d/b.txt"]);
    let result = run(config(&["d"], &["mp4"]), &tree).unwrap();
    assert_eq!(result.found_file_paths, vec!["d/a.mp4"]);
    assert_eq!(result.excluded_extensions, vec!["txt"]);
}

#[test]
fn found_paths_have_listed_extensions() {
    let tree = Tree::new(
        &["d", "d/x.mp4.d"],
        &["d/A.MP4", "d/noext", "d/.mp4", "d/x.mp4.d/inner", "d/c.mpg", "d/e.Mp4"],
    );
    let result = run(config(&["d"], &["mp4"]), &tree).unwrap();
    assert_eq!(result.found_file_paths, vec!["d/A.MP4", "d/e.Mp4"]);
    assert_eq!(result.excluded_extensions, vec!["mpg"]);
}

#[test]
fn excluded_extensions_are_distinct() {
    let tree = Tree::new(&["d", "d/s"], &["d/a.txt", "d/b.txt", "d/s/c.txt", "d/d.TXT", "d/e.jpg", "d/f.jpg"]);
    let result = run(config(&["d"], &["mp4"]), &tree).unwrap();
    assert!(result.found_file_paths.is_empty());
    assert_eq!(result.excluded_extensions, vec!["txt", "TXT", "jpg"]);
}

#[test]
fn scanning_twice_gives_the_same_result() {
    let tree = sample_tree();
    let roots = ["./doc/test_folder_to_scan/foo", "./doc/test_folder_to_scan/bar"];
    let first = run(config(&roots, &["mp4"]), &tree).unwrap();
    let second = run(config(&roots, &["mp4"]), &tree).unwrap();
    assert_eq!(first.found_file_paths, second.found_file_paths);
    assert_eq!(first.excluded_extensions, second.excluded_extensions);
    assert_eq!(first.excluded_extensions, vec!["mpg"]);
}

#[test]
fn no_roots_finish_at_once() {
    let mut scan = Scan::scan(config(&[], &[]));
    assert!(matches!(scan.next_step(), Step::Finished));
    let result = scan.finish();
    assert!(result.found_file_paths.is_empty());
    assert!(result.excluded_extensions.is_empty());
}

#[test]
fn extension_follows_the_last_dot_of_the_name() {
    assert_eq!(extension("a/b.mp4"), Some("mp4".to_string()));
    assert_eq!(extension("a.tar.gz"), Some("gz".to_string()));
    assert_eq!(extension("dir.d/file"), None);
    assert_eq!(extension("dir/.profile"), None);
    assert_eq!(extension("x."), Some(String::new()));
    assert_eq!(extension("Clip.MKV"), Some("MKV".to_string()));
    assert_eq!(extension(""), None);
}

#[test]
fn new_result_is_empty() {
    let r = ScanResult::new();
    assert!(r.found_file_paths.is_empty());
    assert!(r.excluded_extensions.is_empty());
}

#[test]
fn report_lists_excluded_extensions_when_verbose() {
    let result = ScanResult {
        found_file_paths: vec!["a.mp4".to_string()],
        excluded_extensions: vec!["txt".to_string(), "jpg".to_string()],
    };
    let quiet = Configuration::default();
    assert!(result.report(&quiet).is_empty());
    let verbose = Configuration { verbose: true, ..Default::default() };
    assert_eq!(result.report(&verbose), vec!["Excluded extensions:", "  - txt", "  - jpg"]);
}
