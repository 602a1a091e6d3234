use markov_chains_bot::search::{search_files, FileSearch, PathKind, SearchAction};
use std::collections::HashMap;

fn run(paths: Vec<&str>, fs: &HashMap<&str, Vec<&str>>, files: &[&str]) -> Vec<String> {
    let mut search = FileSearch::new(paths.iter().map(|p| p.to_string()).collect());
    let mut report = None;
    loop {
        match search_files(&mut search, report.take()) {
            SearchAction::Probe(path) => {
                let kind = if files.contains(&path.as_str()) {
                    PathKind::File
                } else if let Some(entries) = fs.get(path.as_str()) {
                    PathKind::Directory(entries.iter().map(|e| e.to_string()).collect())
                } else {
                    PathKind::Other
                };
                report = Some((path, kind));
            }
            SearchAction::Finish(found) => return found,
        }
    }
}

#[test]
fn search_walks_depth_first_from_the_last_path() {
    let mut fs = HashMap::new();
    fs.insert("d", vec!["d/a", "d/sub", "d/b"]);
    fs.insert("d/sub", vec!["d/sub/x"]);
    let files = ["f", "d/a", "d/b", "d/sub/x", "g"];
    let found = run(vec!["f", "d", "missing", "g"], &fs, &files);
    assert_eq!(found, vec!["g", "d/b", "d/sub/x", "d/a", "f"]);
}

#[test]
fn search_of_nothing_finishes_at_once() {
    let mut search = FileSearch::new(vec![]);
    assert_eq!(search_files(&mut search, None), SearchAction::Finish(vec![]));
}

#[test]
fn search_step_records_a_file() {
    let mut search = FileSearch::new(vec!["a".to_string()]);
    assert_eq!(search_files(&mut search, None), SearchAction::Probe("a".to_string()));
    assert_eq!(
        search_files(&mut search, Some(("a".to_string(), PathKind::File))),
        SearchAction::Finish(vec!["a".to_string()])
    );
}

#[test]
fn unreadable_directory_adds_nothing() {
    let mut search = FileSearch::new(vec!["d".to_string()]);
    assert_eq!(search_files(&mut search, None), SearchAction::Probe("d".to_string()));
    assert_eq!(
        search_files(&mut search, Some(("d".to_string(), PathKind::Directory(vec![])))),
        SearchAction::Finish(vec![])
    );
}

fn tree() -> (HashMap<&'static str, Vec<&'static str>>, Vec<&'static str>) {
    let mut fs = HashMap::new();
    fs.insert("d", vec!["d/a", "d/sub", "d/b"]);
    fs.insert("d/sub", vec!["d/sub/x"]);
    fs.insert("empty", vec![]);
    (fs, vec!["f", "d/a", "d/b", "d/sub/x", "g"])
}

#[test]
fn search_of_concatenation_is_later_then_earlier() {
    let (fs, files) = tree();
    let a = vec!["f", "d"];
    let b = vec!["g", "f"];
    let mut both = a.clone();
    both.extend(b.clone());
    let mut expected = run(b, &fs, &files);
    expected.extend(run(a, &fs, &files));
    assert_eq!(run(both, &fs, &files), expected);
}

#[test]
fn directory_searches_like_its_entries() {
    let (fs, files) = tree();
    assert_eq!(run(vec!["d"], &fs, &files), run(vec!["d/a", "d/sub", "d/b"], &fs, &files));
    assert_eq!(run(vec!["empty"], &fs, &files), Vec::<String>::new());
}

#[test]
fn missing_path_is_skipped() {
    let (fs, files) = tree();
    assert_eq!(run(vec!["nowhere"], &fs, &files), Vec::<String>::new());
    assert_eq!(run(vec!["f", "d", "nowhere"], &fs, &files), run(vec!["f", "d"], &fs, &files));
    assert_eq!(run(vec!["f"], &fs, &files), vec!["f"]);
}

#[test]
fn directory_searches_entries_last_first() {
    let (fs, files) = tree();
    let mut expected = run(vec!["d/b"], &fs, &files);
    expected.extend(run(vec!["d/sub"], &fs, &files));
    expected.extend(run(vec!["d/a"], &fs, &files));
    assert_eq!(run(vec!["d"], &fs, &files), expected);
}

#[test]
fn acyclic_search_ends() {
    let (fs, files) = tree();
    assert_eq!(run(vec!["d", "empty", "f", "nowhere"], &fs, &files), vec!["f", "d/b", "d/sub/x", "d/a"]);
}
