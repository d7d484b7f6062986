use locstat::parser::{CodeStat, CommentToken, CommonParser, Parser};

fn html_rules() -> Vec<CommentToken> {
    vec![
        CommentToken::Line(String::from("//")),
        CommentToken::Block(String::from("/*"), String::from("*/")),
        CommentToken::Block(String::from("<!--"), String::from("-->")),
    ]
}

fn run(path: &str, rules: Vec<CommentToken>, content: &str) -> CodeStat {
    CommonParser::new(path, rules).parse(content)
}

#[test]
fn parse() {
    let content = "<!--\nheader comment\n-->\n\n<html>\n// inline note\n<body>\n</body>\n</html>\n/* done */\n";
    let stats = run("tests/window2.html", html_rules(), content);
    assert_eq!(stats.comment, 5);
    assert_eq!(stats.blank, 1);
    assert_eq!(stats.code, 4);
    assert_eq!(stats.path, "tests/window2.html");
}

#[test]
fn scenario_line_rule() {
    let rules = vec![CommentToken::Line(String::from("//"))];
    let stats = run("a.c", rules, "// hello\n\nint x = 1;");
    assert_eq!(stats.comment, 1);
    assert_eq!(stats.blank, 1);
    assert_eq!(stats.code, 1);
}

#[test]
fn scenario_block_rule() {
    let rules = vec![CommentToken::Block(String::from("/*"), String::from("*/"))];
    let stats = run("a.c", rules, "/* start\nstill comment\nend */\ncode();");
    assert_eq!(stats.comment, 3);
    assert_eq!(stats.code, 1);
    assert_eq!(stats.blank, 0);
}

#[test]
fn scenario_unterminated_block() {
    let rules = vec![CommentToken::Block(String::from("/*"), String::from("*/"))];
    let stats = run("a.c", rules, "/* open\nstill open\nnever closed");
    assert_eq!(stats.comment, 3);
    assert_eq!(stats.code, 0);
    assert_eq!(stats.blank, 0);
}

#[test]
fn classifier_idempotent() {
    let content = "// a\n\nfn main() {}\n/* b\n c */\n";
    let s1 = run("x.rs", html_rules(), content);
    let s2 = run("x.rs", html_rules(), content);
    assert_eq!(s1.code, s2.code);
    assert_eq!(s1.blank, s2.blank);
    assert_eq!(s1.comment, s2.comment);
    assert_eq!(s1.path, s2.path);
}

#[test]
fn rule_order_line_wins_when_first() {
    // the first line matches both the line rule and the block rule; with
    // the line rule earlier no block is opened, so the next line is code
    let rules = vec![
        CommentToken::Line(String::from("#")),
        CommentToken::Block(String::from("#"), String::from("#end")),
    ];
    let stats = run("a.sh", rules, "# title\nbody");
    assert_eq!(stats.comment, 1);
    assert_eq!(stats.code, 1);
}

#[test]
fn rule_order_block_wins_when_first() {
    // same two rules the other way round: the block rule opens, so the
    // next line is comment
    let rules = vec![
        CommentToken::Block(String::from("#"), String::from("#end")),
        CommentToken::Line(String::from("#")),
    ];
    let stats = run("a.sh", rules, "# title\nbody");
    assert_eq!(stats.comment, 2);
    assert_eq!(stats.code, 0);
}

#[test]
fn cross_syntax_close_does_not_end_block() {
    let rules = vec![
        CommentToken::Block(String::from("/*"), String::from("*/")),
        CommentToken::Block(String::from("<!--"), String::from("-->")),
    ];
    // the second line ends with the other syntax's close token and must
    // not close the block opened by the first rule
    let stats = run("a.c", rules, "/* a\nb -->\nc */\nd");
    assert_eq!(stats.comment, 3);
    assert_eq!(stats.code, 1);
}

#[test]
fn blank_inside_block_counts_comment() {
    let rules = vec![CommentToken::Block(String::from("/*"), String::from("*/"))];
    let stats = run("a.c", rules, "/*\n\n*/\nx");
    assert_eq!(stats.comment, 3);
    assert_eq!(stats.blank, 0);
    assert_eq!(stats.code, 1);
}

#[test]
fn lines_are_trimmed_before_classification() {
    let rules = vec![CommentToken::Line(String::from("//"))];
    let stats = run("a.c", rules, "   // indented comment\n \t \nlet y = 2; ");
    assert_eq!(stats.comment, 1);
    assert_eq!(stats.blank, 1);
    assert_eq!(stats.code, 1);
}

#[test]
fn every_line_counted_exactly_once() {
    let cases: Vec<(&str, u64)> = vec![
        ("", 0),
        ("\n", 1),
        ("a", 1),
        ("a\n", 1),
        ("a\nb", 2),
        ("// x\n\n/* y\nz */\ncode\n", 5),
    ];
    for (content, lines) in cases {
        let stats = run("t.c", html_rules(), content);
        assert_eq!(stats.code + stats.blank + stats.comment, lines);
    }
}

#[test]
fn parse_line_steps_accumulate() {
    let mut p = CommonParser::new("s.c", html_rules());
    p.parse_line("// x");
    p.parse_line("");
    p.parse_line("y();");
    let stats = p.into_stat();
    assert_eq!(stats.comment, 1);
    assert_eq!(stats.blank, 1);
    assert_eq!(stats.code, 1);
}

#[test]
fn token_accessors() {
    let l = CommentToken::Line(String::from("//"));
    let b = CommentToken::Block(String::from("/*"), String::from("*/"));
    assert!(l.is_line());
    assert!(!l.is_block());
    assert!(b.is_block());
    assert!(!b.is_line());
    assert_eq!(l.as_line_token(), Some("//"));
    assert_eq!(b.as_line_token(), None);
    assert_eq!(b.as_block_tokens(), Some(("/*", "*/")));
    assert_eq!(l.as_block_tokens(), None);
}

#[test]
fn fresh_stat_is_zero() {
    let s = CodeStat::new(String::from("p"));
    assert_eq!(s.code, 0);
    assert_eq!(s.blank, 0);
    assert_eq!(s.comment, 0);
    assert_eq!(s.path, "p");
}

#[test]
fn opening_line_does_not_close_its_own_block() {
    let rules = vec![CommentToken::Block(String::from("/*"), String::from("*/"))];
    // the first line holds both delimiters, yet the block stays open,
    // so the next line is still comment
    let stats = run("a.c", rules, "/* done */\nx");
    assert_eq!(stats.comment, 2);
    assert_eq!(stats.code, 0);
}

#[test]
fn no_rules_means_everything_nonblank_is_code() {
    let stats = run("a.c", Vec::new(), "alpha\n\nbeta");
    assert_eq!(stats.code, 2);
    assert_eq!(stats.blank, 1);
    assert_eq!(stats.comment, 0);
}
