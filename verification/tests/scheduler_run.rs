use std::sync::mpsc::channel;

use locstat::cache::CacheManager;
use locstat::config::Config;
use locstat::parser::{CodeStat, CommonParser, ParserState, Parser};
use locstat::scheduler::{FileAction, Scheduler};
use threadpool::ThreadPool;

fn rs_config() -> Config {
    Config::new("[rs]\nline = [\"//\"]\nblock = [[\"/*\", \"*/\"]]\n").unwrap()
}

#[test]
fn unknown_extension_is_excluded() {
    let scheduler = Scheduler::new(".", rs_config(), CacheManager::new());
    let action = scheduler.plan_file("notes.xyz", "xyz");
    assert!(matches!(action, FileAction::Skip));
    // nothing is dispatched and nothing reported: the report stays empty
    assert_eq!(scheduler.parsers.len(), 0);
    assert_eq!(scheduler.task_left(), 0);
}

#[test]
fn cache_hit_short_circuits_the_classifier() {
    let mut cache = CacheManager::new();
    let mut stat = CodeStat::new(String::from("src/a.rs"));
    stat.code = 42;
    cache.set_cache(stat);
    let scheduler = Scheduler::new(".", rs_config(), cache);
    match scheduler.plan_file("src/a.rs", "rs") {
        FileAction::Cached(s) => {
            // the cached result is reported as is; no parser is built
            assert_eq!(s.code, 42);
            assert_eq!(s.path, "src/a.rs");
        },
        _ => panic!("expected the cached result"),
    }
}

#[test]
fn cache_miss_dispatches_with_the_extension_rules() {
    let scheduler = Scheduler::new(".", rs_config(), CacheManager::new());
    match scheduler.plan_file("src/a.rs", "rs") {
        FileAction::Parse(ts) => {
            assert_eq!(ts.len(), 2);
            assert_eq!(ts[0].as_line_token(), Some("//"));
        },
        _ => panic!("expected a dispatch"),
    }
}

#[test]
fn events_drive_counter_and_report() {
    let mut scheduler = Scheduler::new(".", rs_config(), CacheManager::new());
    scheduler.handle_event(String::from("a.rs"), ParserState::Ready);
    assert_eq!(scheduler.task_left(), 1);
    scheduler.handle_event(String::from("b.rs"), ParserState::Ready);
    assert_eq!(scheduler.task_left(), 2);
    scheduler.handle_event(String::from("a.rs"), ParserState::Parsing);
    assert_eq!(scheduler.task_left(), 2);
    let mut done = CodeStat::new(String::from("a.rs"));
    done.code = 3;
    scheduler.handle_event(String::from("a.rs"), ParserState::Complete(done));
    assert_eq!(scheduler.task_left(), 1);
    scheduler.handle_event(String::from("b.rs"), ParserState::Error(String::from("unreadable")));
    assert_eq!(scheduler.task_left(), 0);
    assert_eq!(scheduler.parsers.len(), 2);
    for (path, state) in scheduler.parsers.iter() {
        if path == "a.rs" {
            assert!(matches!(state, ParserState::Complete(s) if s.code == 3));
        } else {
            assert_eq!(path, "b.rs");
            assert!(matches!(state, ParserState::Error(m) if m == "unreadable"));
        }
    }
}

#[test]
fn start_folds_a_whole_trace() {
    let scheduler = Scheduler::new(".", rs_config(), CacheManager::new());
    let mut finished = CodeStat::new(String::from("a.rs"));
    finished.comment = 2;
    let events: Vec<(String, ParserState)> = vec![
        (String::from("a.rs"), ParserState::Ready),
        (String::from("b.rs"), ParserState::Ready),
        (String::from("a.rs"), ParserState::Parsing),
        (String::from("a.rs"), ParserState::Complete(finished)),
        (String::from("b.rs"), ParserState::Error(String::from("open failed"))),
    ];
    let done = scheduler.start(events);
    assert_eq!(done.task_left(), 0);
    assert_eq!(done.parsers.len(), 2);
    for (path, state) in done.parsers.iter() {
        if path == "a.rs" {
            assert!(matches!(state, ParserState::Complete(s) if s.comment == 2));
        } else {
            assert!(matches!(state, ParserState::Error(_)));
        }
    }
}

#[test]
fn pool_of_three_completes_nine_files() {
    // more files than workers: every file must still end Complete with
    // its own counts, and the outstanding counter must return to zero
    let n_files: usize = 9;
    let pool = ThreadPool::new(3);
    let (tx, rx) = channel::<(String, ParserState)>();
    let mut scheduler = Scheduler::new(".", rs_config(), CacheManager::new());

    for i in 0..n_files {
        let path = format!("src/f{}.rs", i);
        // i lines of code, one comment line
        let mut content = String::new();
        for k in 0..i {
            content.push_str(&format!("let x{} = {};\n", k, k));
        }
        content.push_str("// end\n");
        scheduler.handle_event(path.clone(), ParserState::Ready);
        let tx = tx.clone();
        pool.execute(move || {
            tx.send((path.clone(), ParserState::Parsing)).unwrap();
            let rules = vec![
                locstat::parser::CommentToken::Line(String::from("//")),
                locstat::parser::CommentToken::Block(String::from("/*"), String::from("*/")),
            ];
            let stat = CommonParser::new(path.as_str(), rules).parse(content.as_str());
            tx.send((path, ParserState::Complete(stat))).unwrap();
        });
    }
    drop(tx);
    assert_eq!(scheduler.task_left(), n_files as u64);
    while let Ok((path, state)) = rx.recv() {
        scheduler.handle_event(path, state);
    }
    pool.join();

    assert_eq!(scheduler.task_left(), 0);
    assert_eq!(scheduler.parsers.len(), n_files);
    for (path, state) in scheduler.parsers.iter() {
        let i: u64 = path["src/f".len()..path.len() - ".rs".len()].parse().unwrap();
        match state {
            ParserState::Complete(s) => {
                assert_eq!(s.code, i);
                assert_eq!(s.comment, 1);
                assert_eq!(s.blank, 0);
                assert_eq!(&s.path, path);
            },
            _ => panic!("file did not complete"),
        }
    }
}

#[test]
fn report_presents_paths_in_sorted_order() {
    let mut scheduler = Scheduler::new(".", rs_config(), CacheManager::new());
    scheduler.handle_event(String::from("z.rs"), ParserState::Ready);
    scheduler.handle_event(String::from("a.rs"), ParserState::Ready);
    scheduler.handle_event(String::from("m.rs"), ParserState::Ready);
    let paths: Vec<&String> = scheduler.parsers.iter().map(|e| &e.0).collect();
    assert_eq!(paths, vec!["a.rs", "m.rs", "z.rs"]);
    // a later state change keeps the position
    scheduler.handle_event(String::from("m.rs"), ParserState::Parsing);
    assert_eq!(scheduler.parsers.len(), 3);
    assert_eq!(scheduler.parsers[1].0, "m.rs");
    assert!(matches!(scheduler.parsers[1].1, ParserState::Parsing));
}
