use rkd::event::{Color, Event};
use rkd::line::LineError;
use rkd::node::FSNode;
use rkd::report::{FSOp, ReportError};
use rkd::rkd::{DiffError, Options, RKD};

const A: &str = "aaaaaaaaaaaaaaaaaaaaaaaaaaaaaaaa";
const B: &str = "bbbbbbbbbbbbbbbbbbbbbbbbbbbbbbbb";
const C: &str = "cccccccccccccccccccccccccccccccc";
const D: &str = "dddddddddddddddddddddddddddddddd";
const EMPTY: &str = "d41d8cd98f00b204e9800998ecf8427e";
const NONE: &str = "--------------------------------";

const ON: &str = "\u{1b}[97m";
const OFF: &str = "\u{1b}[39m";
const WARN: &str = "\u{1b}[93m[WARNING]";

fn options() -> Options {
    Options { exclude: Vec::new(), timings: false, no_prefix: false }
}

fn log(entries: &[(i64, &str, &str)]) -> Vec<String> {
    entries.iter().map(|(by, hash, path)| format!("{by}  {hash}  ./{path}")).collect()
}

fn mark(color: Option<Color>) -> &'static str {
    match color {
        None => "",
        Some(Color::Red) => "<red>",
        Some(Color::Green) => "<green>",
        Some(Color::Cyan) => "<cyan>",
        Some(Color::Magenta) => "<magenta>",
        Some(Color::BrightBlue) => "<bright blue>",
        Some(Color::White) => "<white>",
    }
}

fn render(events: &[Event]) -> Vec<String> {
    events
        .iter()
        .map(|event| match event {
            Event::Line(spans) => {
                spans.iter().map(|s| format!("{}{}", mark(s.color), s.text)).collect()
            }
            Event::Warning(text) => format!("warning {text}"),
            Event::Timing { context, .. } => format!("timing {context}"),
        })
        .collect()
}

fn run(
    left: &[(i64, &str, &str)],
    right: &[(i64, &str, &str)],
    options: &Options,
) -> (Result<i32, DiffError>, Vec<String>) {
    let mut out: Vec<Event> = Vec::new();
    let res = RKD::new().diff(&log(left), &log(right), options, &mut out);
    (res, render(&out))
}

fn lines(left: &[(i64, &str, &str)], right: &[(i64, &str, &str)]) -> Vec<String> {
    let (res, out) = run(left, right, &options());
    assert_eq!(res, Ok(0));
    out
}

#[test]
fn equal_trees_give_no_lines() {
    let tree = [(1, A, "a"), (2, B, "dir/b"), (0, EMPTY, "empty"), (1, A, "copy")];
    let shuffled = [(1, A, "copy"), (0, EMPTY, "empty"), (2, B, "dir/b"), (1, A, "a")];
    assert_eq!(lines(&tree, &tree), Vec::<String>::new());
    assert_eq!(lines(&tree, &shuffled), Vec::<String>::new());
    assert_eq!(lines(&[], &[]), Vec::<String>::new());
}

#[test]
fn removed_and_created_files_are_told() {
    assert_eq!(
        lines(&[(1, A, "gone"), (1, C, "kept")], &[(1, C, "kept"), (2, B, "new file")]),
        vec!["<red>RM <white>gone", "<green>CR <white>'new file'"]
    );
}

#[test]
fn empty_files_are_not_matched() {
    assert_eq!(
        lines(&[(0, EMPTY, "old")], &[(0, EMPTY, "new")]),
        vec!["<red>RM <white>old", "<green>CR <white>new"]
    );
}

#[test]
fn files_without_a_hash_are_not_matched() {
    assert_eq!(
        lines(&[(3, NONE, "old")], &[(3, NONE, "new")]),
        vec![
            format!("warning {WARN} Missing hash [<]: old{OFF}"),
            format!("warning {WARN} Missing hash [>]: new{OFF}"),
            "<red>RM <bright blue>old".to_string(),
            "<green>CR <bright blue>new".to_string(),
            format!("warning {WARN} Ambiguous files: < 1, > 1{OFF}"),
        ]
    );
}

#[test]
fn modified_file_is_told_once() {
    assert_eq!(
        lines(&[(1, A, "it's")], &[(2, B, "it's")]),
        vec!["\u{1b}[33mMD\u{1b}[39m 'it'\\''s'"]
    );
    assert_eq!(lines(&[(0, EMPTY, "f")], &[(2, B, "f")]), vec!["\u{1b}[33mMD\u{1b}[39m f"]);
}

#[test]
fn renamed_file_is_moved() {
    assert_eq!(
        lines(&[(1, A, "dir/sub/old")], &[(1, A, "dir/sub/new")]),
        vec![format!("<magenta>MV {ON}dir/sub/{OFF} old new")]
    );
    assert_eq!(
        lines(&[(1, A, "old")], &[(1, A, "new")]),
        vec![format!("<magenta>MV {ON}{OFF}old new")]
    );
}

#[test]
fn duplicated_file_is_copied() {
    assert_eq!(
        lines(&[(1, A, "d/a")], &[(1, A, "d/a"), (1, A, "d/b")]),
        vec![format!("<cyan>CP {ON}d/{OFF} a b")]
    );
}

#[test]
fn source_is_moved_once_and_copied_after() {
    assert_eq!(
        lines(&[(1, A, "a")], &[(1, A, "y"), (1, A, "x")]),
        vec![format!("<magenta>MV {ON}{OFF}a x"), format!("<cyan>CP {ON}{OFF}a y")]
    );
}

#[test]
fn sources_are_matched_by_the_ends_of_paths() {
    assert_eq!(
        lines(
            &[(1, A, "old/one"), (1, A, "old/two")],
            &[(1, A, "new/two"), (1, A, "new/one")],
        ),
        vec![
            format!("<magenta>MV {ON}{OFF}old/one new/one"),
            format!("<magenta>MV {ON}{OFF}old/two new/two"),
        ]
    );
}

#[test]
fn swapped_contents_are_moved() {
    assert_eq!(
        lines(&[(1, A, "x"), (2, B, "y")], &[(2, B, "x"), (1, A, "y")]),
        vec![format!("<magenta>MV {ON}{OFF}x y"), format!("<magenta>MV {ON}{OFF}y x")]
    );
}

#[test]
fn moves_come_before_modifications_and_creations() {
    assert_eq!(
        lines(
            &[(1, A, "gone"), (2, B, "changed"), (3, C, "from")],
            &[(4, D, "changed"), (3, C, "to"), (5, "0123456789abcdef0123456789abcdef", "new")],
        ),
        vec![
            format!("<magenta>MV {ON}{OFF}from to"),
            "<red>RM <white>gone".to_string(),
            "\u{1b}[33mMD\u{1b}[39m changed".to_string(),
            "<green>CR <white>new".to_string(),
        ]
    );
}

#[test]
fn full_paths_are_written_unquoted() {
    let full = Options { no_prefix: true, ..options() };
    let (res, out) = run(&[(1, A, "dir/an old")], &[(1, A, "dir/a new")], &full);
    assert_eq!(res, Ok(0));
    assert_eq!(out, vec!["<magenta>MV dir/an old dir/a new"]);
}

#[test]
fn rests_of_paths_are_quoted() {
    assert_eq!(
        lines(&[(1, A, "d/an old")], &[(1, A, "d/new!")]),
        vec![format!("<magenta>MV {ON}d/{OFF} 'an old' 'new'\\!''")]
    );
    assert_eq!(
        lines(&[(1, A, "my dir/a")], &[(1, A, "my dir/b")]),
        vec![format!("<magenta>MV {ON}my dir/{OFF} a b")]
    );
    assert_eq!(
        lines(&[(1, A, "d/")], &[(1, A, "d/x")]),
        vec![format!("<magenta>MV {ON}d/{OFF}  x")]
    );
}

#[test]
fn excluded_paths_are_passed_over() {
    let some = Options { exclude: vec!["cache".to_string(), "/.".to_string()], ..options() };
    let (res, out) = run(
        &[(1, A, "keep"), (1, B, "my-cache/x")],
        &[(2, C, "d/.hidden"), (1, A, "keep"), (1, NONE, "cache")],
        &some,
    );
    assert_eq!(res, Ok(0));
    assert_eq!(
        out,
        vec![
            format!("warning {WARN} Missing hash [>]: cache{OFF}"),
            format!("warning {WARN} Ambiguous files: < 0, > 1{OFF}"),
        ]
    );
}

#[test]
fn empty_exclude_passes_over_everything() {
    let all = Options { exclude: vec![String::new()], ..options() };
    assert_eq!(run(&[(1, A, "a")], &[(1, B, "b")], &all), (Ok(0), Vec::new()));
}

#[test]
fn size_mismatch_is_warned_of_and_not_taken_as_unchanged() {
    assert_eq!(
        lines(&[(1, A, "a"), (2, A, "b")], &[(3, C, "c")]),
        vec![
            format!("warning {WARN} File-size mismatch [<]: b{OFF}"),
            "<red>RM <white>a".to_string(),
            "<red>RM <white>b".to_string(),
            "<green>CR <white>c".to_string(),
            format!("warning {WARN} Ambiguous files: < 1, > 0{OFF}"),
        ]
    );
    assert_eq!(
        lines(&[(5, A, "a")], &[(6, A, "a")]),
        vec![
            format!("warning {WARN} File-size mismatch [>]: a{OFF}"),
            "\u{1b}[33mMD\u{1b}[39m a".to_string(),
            format!("warning {WARN} Ambiguous files: < 0, > 1{OFF}"),
        ]
    );
}

#[test]
fn mismatch_lasts() {
    let (res, out) = run(
        &[(1, A, "a"), (2, A, "b"), (1, A, "c")],
        &[(1, A, "d")],
        &Options { no_prefix: true, ..options() },
    );
    assert_eq!(res, Ok(0));
    assert_eq!(
        out,
        vec![
            format!("warning {WARN} File-size mismatch [<]: b{OFF}"),
            format!("warning {WARN} File-size mismatch [<]: c{OFF}"),
            format!("warning {WARN} File-size mismatch [>]: d{OFF}"),
            "<red>RM <white>a".to_string(),
            "<red>RM <white>b".to_string(),
            "<red>RM <white>c".to_string(),
            "<green>CR <white>d".to_string(),
            format!("warning {WARN} Ambiguous files: < 2, > 1{OFF}"),
        ]
    );
}

#[test]
fn last_entry_for_a_path_counts() {
    assert_eq!(
        lines(&[(1, A, "p"), (2, B, "p")], &[(2, B, "p")]),
        Vec::<String>::new()
    );
    assert_eq!(
        lines(&[(1, A, "p")], &[(2, B, "p"), (1, A, "p")]),
        Vec::<String>::new()
    );
}

#[test]
fn shared_directory_is_found_by_characters() {
    assert_eq!(
        lines(&[(1, A, "\u{e9}")], &[(1, A, "\u{e9}a")]),
        vec![format!("<magenta>MV {ON}{OFF}'\u{e9}' '\u{e9}a'")]
    );
    assert_eq!(
        lines(&[(1, A, "\u{e9}/a/x")], &[(1, A, "\u{e9}/a/y")]),
        vec![format!("<magenta>MV {ON}\u{e9}/a/{OFF} x y")]
    );
    assert_eq!(
        lines(&[(1, A, "dir/ab")], &[(1, A, "dir/ac")]),
        vec![format!("<magenta>MV {ON}dir/{OFF} ab ac")]
    );
    let full = Options { no_prefix: true, ..options() };
    let (res, out) = run(&[(1, A, "\u{e9}x")], &[(1, A, "\u{e9}y")], &full);
    assert_eq!(res, Ok(0));
    assert_eq!(out, vec!["<magenta>MV \u{e9}x \u{e9}y"]);
}

#[test]
fn copy_onto_its_own_path_ends_the_comparison() {
    let (res, out) = run(&[(1, A, "a"), (2, B, "a")], &[(1, A, "a")], &options());
    assert_eq!(res, Err(DiffError::Report(ReportError::SamePath)));
    assert_eq!(out, Vec::<String>::new());
}

#[test]
fn files_of_another_size_are_not_matched() {
    assert_eq!(
        lines(&[(1, A, "a"), (1, C, "c")], &[(2, A, "b"), (1, C, "d")]),
        vec![
            format!("warning {WARN} File-size mismatch [>]: b{OFF}"),
            format!("<magenta>MV {ON}{OFF}c d"),
            "<red>RM <white>a".to_string(),
            "<green>CR <white>b".to_string(),
            format!("warning {WARN} Ambiguous files: < 0, > 1{OFF}"),
        ]
    );
    assert_eq!(
        lines(&[(1, A, "a")], &[(1, A, "a"), (1, A, "b"), (2, A, "c")]),
        vec![
            format!("warning {WARN} File-size mismatch [>]: c{OFF}"),
            "<green>CR <white>b".to_string(),
            "<green>CR <white>c".to_string(),
            format!("warning {WARN} Ambiguous files: < 0, > 1{OFF}"),
        ]
    );
}

#[test]
fn files_of_negative_size_are_matched() {
    assert_eq!(
        lines(&[(-5, A, "a")], &[(-5, A, "b")]),
        vec![format!("<magenta>MV {ON}{OFF}a b")]
    );
    assert_eq!(
        lines(&[(-1, A, "a"), (-1, A, "c")], &[(-1, A, "b"), (-1, A, "c")]),
        vec![format!("<cyan>CP {ON}{OFF}c b"), "<red>RM <white>a".to_string()]
    );
}

#[test]
fn rest_of_the_shared_directory_is_empty() {
    assert_eq!(
        lines(&[(1, A, "d/x")], &[(1, A, "d/")]),
        vec![format!("<magenta>MV {ON}d/{OFF} x ")]
    );
    assert_eq!(
        lines(&[(1, A, "")], &[(1, A, "x")]),
        vec![format!("<magenta>MV {ON}{OFF}'' x")]
    );
}

#[test]
fn moved_file_is_not_removed_and_its_target_not_created() {
    assert_eq!(
        lines(&[(1, A, "x"), (2, B, "y")], &[(1, A, "y"), (3, C, "x")]),
        vec![
            format!("<magenta>MV {ON}{OFF}x y"),
            "\u{1b}[33mMD\u{1b}[39m y".to_string(),
            "<green>CR <white>x".to_string(),
        ]
    );
}

#[test]
fn passed_over_lines_leave_no_trace() {
    let plain = log(&[(1, A, "a"), (2, B, "b")]);
    let mut noisy = plain.clone();
    noisy.insert(0, "# comment".to_string());
    noisy.insert(2, String::new());
    noisy.push(format!("9  {B}  skip/b"));
    let with = Options { exclude: vec!["skip".to_string()], ..options() };
    for log_l in [&plain, &noisy] {
        let mut out: Vec<Event> = Vec::new();
        let right = log(&[(2, B, "b2")]);
        assert_eq!(RKD::new().diff(log_l, &right, &with, &mut out), Ok(0));
        assert_eq!(
            render(&out),
            vec![format!("<magenta>MV {ON}{OFF}b b2"), "<red>RM <white>a".to_string()]
        );
    }
}

#[test]
fn unreadable_line_ends_the_comparison() {
    let mut out: Vec<Event> = Vec::new();
    let left = vec!["# header".to_string(), String::new(), format!("1  {NONE}  a"), "2".to_string()];
    let res = RKD::new().diff(&left, &log(&[(1, A, "x")]), &options(), &mut out);
    assert_eq!(res, Err(DiffError::Line(LineError::Separator)));
    assert_eq!(render(&out), vec![format!("warning {WARN} Missing hash [<]: a{OFF}")]);

    let mut out: Vec<Event> = Vec::new();
    let right = vec!["x".to_string()];
    let res = RKD::new().diff(&log(&[(1, A, "x")]), &right, &options(), &mut out);
    assert_eq!(res, Err(DiffError::Line(LineError::Size)));
    assert!(out.is_empty());
}

#[test]
fn phases_are_timed_on_request() {
    let timed = Options { timings: true, ..options() };
    let (res, out) = run(&[(1, A, "old")], &[(1, A, "new"), (2, B, "b")], &timed);
    assert_eq!(res, Ok(0));
    assert_eq!(
        out,
        vec![
            "timing parse_log".to_string(),
            "timing parse_log".to_string(),
            format!("<magenta>MV {ON}{OFF}old new"),
            "timing diff_cpmv".to_string(),
            "<green>CR <white>b".to_string(),
            "timing diff_remaining".to_string(),
        ]
    );
}

#[test]
fn disabled_report_marks_without_a_line() {
    let mut nodes = vec![
        FSNode::new("a".to_string(), None),
        FSNode::new("b".to_string(), None),
        FSNode::new("c".to_string(), None),
    ];
    let mut out: Vec<Event> = Vec::new();
    let op = FSOp::CopyMove { src: 0 };
    assert_eq!(FSNode::report(&mut nodes, 1, true, false, &op, &mut out), Ok(()));
    assert!(out.is_empty());
    assert_eq!(nodes.iter().map(|n| n.is_done()).collect::<Vec<_>>(), vec![true, true, false]);
    assert_eq!(FSNode::report(&mut nodes, 1, false, false, &FSOp::Create, &mut out), Ok(()));
    assert!(out.is_empty());
    assert_eq!(FSNode::report(&mut nodes, 2, false, false, &FSOp::Modify { lhs: 0 }, &mut out), Ok(()));
    assert_eq!(render(&out), vec!["\u{1b}[33mMD\u{1b}[39m c"]);
    assert!(nodes[2].is_done());
}

#[test]
fn report_on_itself_is_refused() {
    let mut nodes = vec![FSNode::new("a".to_string(), None), FSNode::new("a".to_string(), None)];
    let mut out: Vec<Event> = Vec::new();
    let op = FSOp::CopyMove { src: 0 };
    assert_eq!(
        FSNode::report(&mut nodes, 1, false, true, &op, &mut out),
        Err(ReportError::SamePath)
    );
    assert!(out.is_empty());
    assert!(!nodes[0].is_done() && !nodes[1].is_done());
}

#[test]
fn odd_paths_are_quoted() {
    assert_eq!(
        lines(&[(1, A, ""), (1, B, "a\u{e9}"), (1, C, "x!y"), (1, D, "Az09-_=/,.+")], &[]),
        vec![
            "<red>RM <white>''",
            "<red>RM <white>'a\u{e9}'",
            "<red>RM <white>'x'\\!'y'",
            "<red>RM <white>Az09-_=/,.+",
        ]
    );
}

#[test]
fn everything_is_said_about_each_path() {
    let mut rkd = RKD::new();
    let mut out: Vec<Event> = Vec::new();
    let left = log(&[(1, A, "a"), (2, B, "b"), (3, C, "c"), (0, EMPTY, "e")]);
    let right = log(&[(1, A, "x"), (2, B, "b"), (4, D, "c"), (1, NONE, "n")]);
    assert_eq!(rkd.diff(&left, &right, &options(), &mut out), Ok(0));
    assert_eq!(rkd.sides.len(), 2);
    for side in &rkd.sides {
        assert_eq!(side.order.len(), 4);
        for path in &side.order {
            let id = side.get(path).unwrap();
            assert_eq!(&rkd.nodes[id].path, path);
            assert!(rkd.nodes[id].is_done());
        }
    }
}

#[test]
fn hashes_are_told_of_in_the_order_of_the_logs() {
    assert_eq!(
        lines(
            &[(0, EMPTY, "z"), (2, B, "b"), (1, A, "a")],
            &[(1, A, "a2"), (2, B, "b2"), (0, EMPTY, "z2")],
        ),
        vec![
            format!("<magenta>MV {ON}{OFF}b b2"),
            format!("<magenta>MV {ON}{OFF}a a2"),
            "<red>RM <white>z".to_string(),
            "<green>CR <white>z2".to_string(),
        ]
    );
}
