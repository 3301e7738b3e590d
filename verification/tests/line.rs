use nom::branch::alt;
use nom::bytes::complete::{tag, take_while_m_n};
use nom::character::complete::{char, i64, not_line_ending, satisfy, space0};
use nom::combinator::{all_consuming, opt};
use nom::multi::count;
use nom::sequence::{preceded, tuple};
use rkd::event::Event;
use rkd::line::{hexhash, hexhash_bad, hexhash_good, LineError, LogLine};

const DIGEST: &str = "0123456789abcdef0123456789ABCDEF";
const DASHES: &str = "-------------------------------";

fn parse(line: &str) -> Result<Option<LogLine>, LineError> {
    let mut count: usize = 0;
    let mut out: Vec<Event> = Vec::new();
    LogLine::parse(line, &mut count, 0, &mut out)
}

fn entry(line: &str) -> (i64, Option<String>, String) {
    match parse(line) {
        Ok(Some(parsed)) => (parsed.by, parsed.hash.map(|h| h.fmt()), parsed.path),
        other => panic!("{:?}", other.map(|_| ())),
    }
}

fn error(line: &str) -> LineError {
    match parse(line) {
        Err(e) => e,
        Ok(_) => panic!("{line}"),
    }
}

#[test]
fn entry_is_read() {
    let line = format!("42  {DIGEST}  dir/file name");
    let hash = Some("[0123456789abcdef0123456789abcdef]".to_string());
    assert_eq!(entry(&line), (42, hash, "dir/file name".to_string()));
}

#[test]
fn blanks_sign_and_here_are_dropped() {
    let hash = Some("[0123456789abcdef0123456789abcdef]".to_string());
    assert_eq!(entry(&format!(" \t 7  {DIGEST}  ./x")), (7, hash.clone(), "x".to_string()));
    assert_eq!(entry(&format!("+7  {DIGEST}  x")), (7, hash.clone(), "x".to_string()));
    assert_eq!(entry(&format!("-7  {DIGEST}  ././x")), (-7, hash.clone(), "./x".to_string()));
    assert_eq!(entry(&format!("007  {DIGEST}  ")), (7, hash, String::new()));
}

#[test]
fn size_limits_are_read() {
    assert_eq!(entry(&format!("9223372036854775807  {DIGEST}  x")).0, i64::MAX);
    assert_eq!(entry(&format!("-9223372036854775808  {DIGEST}  x")).0, i64::MIN);
    assert_eq!(error(&format!("9223372036854775808  {DIGEST}  x")), LineError::Size);
    assert_eq!(error(&format!("-9223372036854775809  {DIGEST}  x")), LineError::Size);
}

#[test]
fn missing_hash_is_read_and_counted() {
    let mut count: usize = 3;
    let mut out: Vec<Event> = Vec::new();
    let line = format!("5  {DASHES}-  ./a b");
    match LogLine::parse(&line, &mut count, 0, &mut out) {
        Ok(Some(parsed)) => {
            assert!(parsed.hash.is_none());
            assert_eq!(parsed.path, "a b");
        }
        _ => panic!(),
    }
    let line = format!("5  {DASHES}D  c");
    assert!(matches!(LogLine::parse(&line, &mut count, 1, &mut out), Ok(Some(_))));
    assert_eq!(count, 5);
    let texts: Vec<String> = out
        .into_iter()
        .map(|e| match e {
            Event::Warning(text) => text,
            _ => panic!(),
        })
        .collect();
    assert_eq!(
        texts,
        vec![
            "\u{1b}[93m[WARNING] Missing hash [<]: a b\u{1b}[39m".to_string(),
            "\u{1b}[93m[WARNING] Missing hash [>]: c\u{1b}[39m".to_string(),
        ]
    );
}

#[test]
fn comments_and_empty_lines_are_skipped() {
    assert!(matches!(parse(""), Ok(None)));
    assert!(matches!(parse("# 5  x"), Ok(None)));
    assert_eq!(error(" # x"), LineError::Size);
}

#[test]
fn each_error_is_told() {
    assert_eq!(error("x"), LineError::Size);
    assert_eq!(error("+"), LineError::Size);
    assert_eq!(error(&format!("5 {DIGEST}  x")), LineError::Separator);
    assert_eq!(error(&format!("5  {DIGEST} x")), LineError::Separator);
    assert_eq!(error("5  0123456789abcdef0123456789abcde"), LineError::ShortHash);
    assert_eq!(error("5  0123456789abcdefg123456789abcdef  x"), LineError::Dashes);
    assert_eq!(error(&format!("5  {DASHES}7  x")), LineError::Marker);
    assert_eq!(error(&format!("5  {DIGEST}  a\nb")), LineError::LineEnding);
    assert_eq!(error(&format!("5  {DIGEST}  a\rb")), LineError::LineEnding);
}

#[test]
fn first_error_wins() {
    assert_eq!(error("5  --- short"), LineError::ShortHash);
    assert_eq!(error(&format!("5  {DASHES}7\n")), LineError::Marker);
}

#[test]
fn hash_fields_are_cut_off() {
    assert_eq!(hexhash_good(&format!("{DIGEST}ab")), Some(("ab", DIGEST)));
    assert_eq!(hexhash_good("0123"), None);
    assert_eq!(hexhash_bad(&format!("{DASHES}Zab")), Ok(("ab", 'Z')));
    assert_eq!(hexhash_bad("--Z"), Err(LineError::Dashes));
    let (rest, hash) = hexhash(&format!("{DIGEST}  x")).map(|(r, h)| (r.len(), h)).unwrap();
    assert_eq!(rest, 3);
    assert_eq!(hash.unwrap().key(), 0x0123456789abcdef0123456789abcdef);
    assert!(hexhash(&format!("{DASHES}-")).unwrap().1.is_none());
    assert!(matches!(hexhash(&format!("{DASHES}")), Err(LineError::ShortHash)));
}

/// Reads a line with parser combinators.
fn reference(line: &str) -> Result<Option<(i64, Option<String>, String)>, ()> {
    if line.is_empty() || line.starts_with('#') {
        return Ok(None);
    }
    let good = nom::combinator::map(take_while_m_n(32, 32, |c: char| c.is_ascii_hexdigit()), |s: &str| {
        Some(s.to_ascii_lowercase())
    });
    let bad = nom::combinator::map(
        tuple((count(char('-'), 31), satisfy(|c| c.is_ascii_alphabetic() || c == '-'))),
        |_| None,
    );
    let res: nom::IResult<&str, (i64, Option<String>, &str)> = all_consuming(tuple((
        preceded(space0, i64),
        preceded(tag("  "), alt((good, bad))),
        preceded(tag("  "), preceded(opt(tag("./")), not_line_ending)),
    )))(line);
    match res {
        Ok((_, (by, hash, path))) => Ok(Some((by, hash, path.to_string()))),
        Err(_) => Err(()),
    }
}

#[test]
fn grammar_agrees_with_combinators() {
    let sizes = ["0", "12", "-3", "+4", "", "-", "9223372036854775807", "9223372036854775808", "1x"];
    let blanks = ["", " ", "\t ", "\n"];
    let hashes = [
        DIGEST.to_string(),
        format!("{DASHES}-"),
        format!("{DASHES}q"),
        format!("{DASHES}5"),
        format!("{DASHES}"),
        "0123456789abcdef0123456789abcdeg".to_string(),
        "0123456789abcdef0123456789abcdef0".to_string(),
        "\u{e9}".repeat(16),
    ];
    let separators = ["  ", " ", "   ", "\t\t"];
    let paths = ["a", "./a", "./", "", " a ", "a\n", "a\r\n", "\u{e9}/b", ".//x", "#"];
    for blank in blanks {
        for size in sizes {
            for hash in &hashes {
                for one in separators {
                    for two in separators {
                        for path in paths {
                            let line = format!("{blank}{size}{one}{hash}{two}{path}");
                            let ours = match parse(&line) {
                                Ok(None) => Ok(None),
                                Ok(Some(p)) => Ok(Some((
                                    p.by,
                                    p.hash.map(|h| {
                                        let text = h.fmt();
                                        text[1..text.len() - 1].to_string()
                                    }),
                                    p.path,
                                ))),
                                Err(_) => Err(()),
                            };
                            assert_eq!(ours, reference(&line), "{line:?}");
                        }
                    }
                }
            }
        }
    }
    assert_eq!(reference(""), Ok(None));
    assert_eq!(reference("#x"), Ok(None));
}
