use locstat::cache::CacheManager;
use locstat::config::{tokens_from_lists, Config};
use locstat::parser::{CodeStat, CommentToken};

fn py_toml() -> String {
    String::from(
        "[py]\nline = [\"#\"]\nblock = [[\"'''\", \"'''\"], [\"\\\"\\\"\\\"\", \"\\\"\\\"\\\"\"]]\n",
    )
}

#[test]
fn test_get_token_map() {
    let map = Config::get_token_map(py_toml().as_str()).unwrap();
    let py: &Vec<CommentToken> = &map.iter().find(|e| e.0 == "py").unwrap().1;
    assert_eq!(py.len(), 3);
    assert_eq!(py[0].as_line_token(), Some("#"));
    assert!(py[1].is_block());
    assert!(py[2].is_block());
}

#[test]
fn config_lookup_known_and_unknown() {
    let text = "[rs]\nline = [\"//\"]\nblock = [[\"/*\", \"*/\"]]\n";
    let config = Config::new(text).unwrap();
    let rs = config.get_comment_tokens("rs").unwrap();
    assert_eq!(rs.len(), 2);
    assert_eq!(rs[0].as_line_token(), Some("//"));
    assert_eq!(rs[1].as_block_tokens(), Some(("/*", "*/")));
    assert!(config.get_comment_tokens("xyz").is_none());
}

#[test]
fn config_rejects_text_that_is_not_toml() {
    assert!(Config::new("not toml ![").is_none());
    assert!(Config::get_token_map("= 3 =").is_none());
}

#[test]
fn config_rejects_missing_rule_arrays() {
    // no block array
    assert!(Config::new("[rs]\nline = [\"//\"]\n").is_none());
    // no line array
    assert!(Config::new("[rs]\nblock = [[\"/*\", \"*/\"]]\n").is_none());
}

#[test]
fn config_rejects_malformed_entries() {
    // a block pair with a single delimiter
    assert!(Config::new("[rs]\nline = [\"//\"]\nblock = [[\"/*\"]]\n").is_none());
    // a line token that is not a string
    assert!(Config::new("[rs]\nline = [3]\nblock = []\n").is_none());
    // a block entry that is not an array
    assert!(Config::new("[rs]\nline = [\"//\"]\nblock = [7]\n").is_none());
}

#[test]
fn set_comment_token_merges_and_overrides() {
    let mut config = Config::new("[c]\nline = [\"//\"]\nblock = [[\"/*\", \"*/\"]]\n").unwrap();
    config.set_comment_token("[c]\nline = [\"#\"]\nblock = []\n");
    let c = config.get_comment_tokens("c").unwrap();
    assert_eq!(c.len(), 1);
    assert_eq!(c[0].as_line_token(), Some("#"));
    // adding a second extension keeps the first
    config.set_comment_token("[sh]\nline = [\"#\"]\nblock = []\n");
    assert!(config.get_comment_tokens("c").is_some());
    assert!(config.get_comment_tokens("sh").is_some());
}

#[test]
fn set_comment_token_ignores_malformed_text() {
    let mut config = Config::new("[c]\nline = [\"//\"]\nblock = []\n").unwrap();
    config.set_comment_token("![[ broken");
    let c = config.get_comment_tokens("c").unwrap();
    assert_eq!(c.len(), 1);
    assert_eq!(c[0].as_line_token(), Some("//"));
}

#[test]
fn tokens_from_lists_keeps_order() {
    let lines = vec![String::from("//"), String::from("#")];
    let blocks = vec![(String::from("/*"), String::from("*/"))];
    let ts = tokens_from_lists(&lines, &blocks);
    assert_eq!(ts.len(), 3);
    assert_eq!(ts[0].as_line_token(), Some("//"));
    assert_eq!(ts[1].as_line_token(), Some("#"));
    assert_eq!(ts[2].as_block_tokens(), Some(("/*", "*/")));
}

#[test]
fn cache_roundtrip() {
    let mut cache = CacheManager::new();
    assert!(cache.get_cache("src/a.rs").is_none());
    let mut stat = CodeStat::new(String::from("src/a.rs"));
    stat.code = 10;
    stat.blank = 2;
    stat.comment = 3;
    cache.set_cache(stat);
    let hit = cache.get_cache("src/a.rs").unwrap();
    assert_eq!(hit.code, 10);
    assert_eq!(hit.blank, 2);
    assert_eq!(hit.comment, 3);
    assert!(cache.get_cache("src/b.rs").is_none());
}

#[test]
fn cache_overwrites_same_path() {
    let mut cache = CacheManager::new();
    let mut first = CodeStat::new(String::from("src/a.rs"));
    first.code = 1;
    cache.set_cache(first);
    let mut second = CodeStat::new(String::from("src/a.rs"));
    second.code = 7;
    cache.set_cache(second);
    let hit = cache.get_cache("src/a.rs").unwrap();
    assert_eq!(hit.code, 7);
}
