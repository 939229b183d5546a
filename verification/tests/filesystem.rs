use glob::{glob, Paths, Query, Reply, Step};
use std::path::Path;

/// Answers a question of the traversal from the filesystem of this machine.
fn answer(query: &Query<String>) -> Reply {
    match query {
        Query::IsDirectory(path) => Reply::Flag(Path::new(path).is_dir()),
        Query::Exists(path) => Reply::Flag(Path::new(path).exists()),
        Query::ListChildren(path) => match Path::new(path).read_dir() {
            Ok(entries) => Reply::Children(
                entries
                    .filter_map(|entry| entry.ok())
                    .filter_map(|entry| entry.file_name().into_string().ok())
                    .collect(),
            ),
            Err(_) => Reply::Nothing,
        },
    }
}

/// The next path of the traversal, if there is one.
fn next(paths: &mut Paths) -> Option<String> {
    let mut reply = Reply::Nothing;
    loop {
        match paths.advance(reply) {
            Step::Found(path) => return Some(path),
            Step::Ask(query) => reply = answer(&query),
            Step::Done => return None,
        }
    }
}

#[test]
fn test_absolute_pattern() {
    // assume that the filesystem is not empty!
    assert!(next(&mut glob("/*").unwrap()).is_some());
    assert!(next(&mut glob("//").unwrap()).is_some());
}

#[test]
fn test_lots_of_files() {
    // this is a good test because it touches lots of differently named files
    let mut paths = glob("/*/*/*/*").unwrap();
    for _ in 0..10000 {
        if next(&mut paths).is_none() {
            break;
        }
    }
    next(&mut paths);
}
