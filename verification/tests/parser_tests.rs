use stream_groups::ast::AST;
use stream_groups::error::ParseError;
use stream_groups::parser::parse;

fn chars(source: &str) -> Vec<char> {
    source.chars().collect()
}

#[test]
fn recognizes_garbage() {
    let sources: Vec<&str> = vec![
        "<>",
        "<random characters>",
        "<<<<>",
        "<{!>}>",
        "<!!>",
        "<!!!>>",
        "<{o\"i!a,<{i<a>",
    ];
    for source in sources {
        match parse(&chars(source)).unwrap() {
            AST::Garbage(_) => (),
            node => panic!("Expected Garbage; received {:?}", node),
        }
    }
}

#[test]
fn recognizes_groups() {
    let sources: Vec<&str> = vec![
        "{}",
        "{{{}}}",
        "{{},{}}",
        "{{{},{},{{}}}}",
        "{<{},{},{{}}>}",
        "{<a>,<a>,<a>,<a>}",
        "{{<a>},{<a>},{<a>},{<a>}}",
        "{{<!>},{<!>},{<!>},{<a>}}",
    ];
    for source in sources {
        match parse(&chars(source)).unwrap() {
            AST::Group(_) => (),
            node => panic!("Expected Group; received {:?}", node),
        }
    }
}

#[test]
fn syntax_errors() {
    let sources: Vec<&str> = vec![
        "",
        "x",
        "<",
        "<!",
        "<random characters",
        "<random characters!>",
        "{",
        "{<",
        "{<>",
        "{<!>}",
        "{{}",
    ];
    for s in sources {
        let result = parse(&chars(s));
        assert!(result.is_err(), "{} -> {:?}", s, result);
    }
}

#[test]
fn count_groups() {
    let cases: Vec<(&str, usize)> = vec![
        ("{}", 1),
        ("{{{}}}", 3),
        ("{{},{}}", 3),
        ("{{{},{},{{}}}}", 6),
        ("{<{},{},{{}}>}", 1),
        ("{<a>,<a>,<a>,<a>}", 1),
        ("{{<a>},{<a>},{<a>},{<a>}}", 5),
        ("{{<!>},{<!>},{<!>},{<a>}}", 2),
    ];
    for (source, count) in cases {
        let node = parse(&chars(source)).unwrap();
        assert_eq!(node.count_groups(), count, "in {}", source);
    }
}

#[test]
fn scores() {
    let cases: Vec<(&str, usize)> = vec![
        ("{}", 1),
        ("{{{}}}", 6),
        ("{{},{}}", 5),
        ("{{{},{},{{}}}}", 16),
        ("{<a>,<a>,<a>,<a>}", 1),
        ("{{<ab>},{<ab>},{<ab>},{<ab>}}", 9),
        ("{{<!!>},{<!!>},{<!!>},{<!!>}}", 9),
        ("{{<a!>},{<a!>},{<a!>},{<ab>}}", 3),
    ];
    for (source, score) in cases {
        let node = parse(&chars(source)).unwrap();
        assert_eq!(node.score(), score, "in {} {:?}", source, node);
    }
}

#[test]
fn garbage_len() {
    let cases: Vec<(&str, usize)> = vec![
        ("<>", 0),
        ("<random characters>", 17),
        ("<<<<>", 3),
        ("<{!>}>", 2),
        ("<!!>", 0),
        ("<!!!>>", 0),
        ("<{o\"i!a,<{i<a>", 10),
    ];
    for (source, length) in cases {
        let node = parse(&chars(source)).unwrap();
        assert_eq!(node.garbage_len(), length, "in {} {:?}", source, node);
    }
}

#[test]
fn error_variants() {
    assert_eq!(parse(&chars("")).unwrap_err(), ParseError::EmptyInput);
    assert_eq!(
        parse(&chars("x")).unwrap_err(),
        ParseError::UnexpectedLeadingCharacter('x')
    );
    assert_eq!(
        parse(&chars(" {}")).unwrap_err(),
        ParseError::UnexpectedLeadingCharacter(' ')
    );
    assert_eq!(parse(&chars("{")).unwrap_err(), ParseError::UnterminatedGroup);
    assert_eq!(parse(&chars("{{}")).unwrap_err(), ParseError::UnterminatedGroup);
    assert_eq!(parse(&chars("<")).unwrap_err(), ParseError::UnterminatedGarbage);
    assert_eq!(parse(&chars("{<>")).unwrap_err(), ParseError::UnterminatedGroup);
    assert_eq!(parse(&chars("<!")).unwrap_err(), ParseError::DanglingEscape);
    assert_eq!(parse(&chars("{<!")).unwrap_err(), ParseError::DanglingEscape);
    assert_eq!(
        parse(&chars("<random characters!>")).unwrap_err(),
        ParseError::UnterminatedGarbage
    );
}

#[test]
fn error_messages() {
    assert_eq!(
        parse(&chars("")).unwrap_err().format(),
        "expected non-empty string"
    );
    assert_eq!(parse(&chars("q")).unwrap_err().format(), "expected '<' or '{'");
    assert_eq!(parse(&chars("{")).unwrap_err().format(), "unterminated '{'");
    assert_eq!(parse(&chars("{<")).unwrap_err().format(), "unterminated '<'");
    assert_eq!(
        parse(&chars("<ab!")).unwrap_err().format(),
        "unexpected end of string after '!'"
    );
}

#[test]
fn error_as_result() {
    let r: Result<u32, ParseError> = ParseError::UnterminatedGroup.result();
    assert_eq!(r.unwrap_err(), ParseError::UnterminatedGroup);
}

#[test]
fn score_of_top_level_garbage_is_zero() {
    let node = parse(&chars("<random characters>")).unwrap();
    assert_eq!(node.score(), 0);
    assert_eq!(node.count_groups(), 0);
    assert_eq!(node.garbage_len(), 17);
}

#[test]
fn garbage_len_adds_across_spans() {
    // Two independent spans of 2 and 3 literal characters.
    assert_eq!(parse(&chars("<ab>")).unwrap().garbage_len(), 2);
    assert_eq!(parse(&chars("{<cde>}")).unwrap().garbage_len(), 3);
    assert_eq!(parse(&chars("{<ab>,<cde>}")).unwrap().garbage_len(), 5);
}

#[test]
fn nested_groups_score_formula() {
    // n groups nested directly inside one another score n * (n + 1) / 2.
    assert_eq!(parse(&chars("{}")).unwrap().score(), 1);
    assert_eq!(parse(&chars("{{}}")).unwrap().score(), 3);
    assert_eq!(parse(&chars("{{{}}}")).unwrap().score(), 6);
    assert_eq!(parse(&chars("{{{{}}}}")).unwrap().score(), 10);
    assert_eq!(parse(&chars("{{{{{}}}}}")).unwrap().score(), 15);
}

#[test]
fn skeleton_reparse_keeps_structure() {
    // Stripping filler characters outside garbage leaves the skeleton:
    // the same group count and the same score.
    let full = parse(&chars("{a{bb},ccc{},{dd{}}e,}")).unwrap();
    let skeleton = parse(&chars("{{},{},{{}}}")).unwrap();
    assert_eq!(full.count_groups(), skeleton.count_groups());
    assert_eq!(full.score(), skeleton.score());

    let full = parse(&chars("{{<a>x},y{<b>}}")).unwrap();
    let skeleton = parse(&chars("{{<a>},{<b>}}")).unwrap();
    assert_eq!(full.count_groups(), skeleton.count_groups());
    assert_eq!(full.score(), skeleton.score());
}

#[test]
fn escape_pairs_contribute_nothing() {
    assert_eq!(parse(&chars("<!!>")).unwrap().garbage_len(), 0);
    assert_eq!(parse(&chars("<!!!>>")).unwrap().garbage_len(), 0);
    assert_eq!(parse(&chars("<a!!b>")).unwrap().garbage_len(), 2);
    assert_eq!(parse(&chars("<a!>b>")).unwrap().garbage_len(), 2);
}

#[test]
fn trailing_characters_are_ignored() {
    // The top-level construct ends the parse; what follows is not read.
    let node = parse(&chars("{}garbage afterwards")).unwrap();
    assert_eq!(node.count_groups(), 1);
    let node = parse(&chars("<a>{}")).unwrap();
    assert_eq!(node.garbage_len(), 1);
}
