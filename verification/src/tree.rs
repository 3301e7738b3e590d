//! The trees to compare: where their logs come from, and whether they can be had.
use vstd::prelude::*;
use vstd::string::*;

use crate::color;
use crate::text::{ascii_at, split_ascii};

verus! {

/// The path that stands for standard input.
pub open spec fn stdin_path() -> Seq<char> {
    seq!['-']
}

/// Tells whether `path` stands for standard input.
pub fn is_stdin(path: &str) -> (res: bool)
    ensures
        res == (path@ == stdin_path()),
{
    match ascii_at(path, 0) {
        Some('-') => {
            let rest = split_ascii(path, 1).1;
            assert(rest@.len() == 0 ==> path@ =~= stdin_path());
            rest.is_empty()
        },
        _ => false,
    }
}

/// Why the trees cannot be compared: what to say, line by line, and the exit code.
#[derive(Debug)]
pub struct TreeError {
    pub messages: Vec<String>,
    pub code: i32,
}

/// An error message in bright red.
pub open spec fn error_message(text: Seq<char>) -> Seq<char> {
    color::bright_red() + text + color::default_color()
}

/// The message that a tree cannot be found.
pub open spec fn not_found_message(tree: Seq<char>, path: Seq<char>) -> Seq<char> {
    error_message("[ERROR]: "@ + tree + " tree '"@ + path + "' not found"@)
}

/// Whether the tree at `path` is missing, given whether there is something there. Standard input
/// is not looked for.
pub open spec fn is_missing(path: Seq<char>, exists: bool) -> bool {
    path != stdin_path() && !exists
}

/// The exit code for the trees that are missing: 1 for the left one, 2 for the right one, 3 for
/// both.
pub open spec fn missing_code(left: bool, right: bool) -> int {
    (if right {
        2int
    } else {
        0
    }) + (if left {
        1int
    } else {
        0
    })
}

/// The messages for the trees that are missing.
pub open spec fn missing_messages(
    path_l: Seq<char>,
    path_r: Seq<char>,
    left: bool,
    right: bool,
) -> Seq<Seq<char>> {
    (if left {
        seq![not_found_message("Left"@, path_l)]
    } else {
        seq![]
    }) + (if right {
        seq![not_found_message("Right"@, path_r)]
    } else {
        seq![]
    })
}

fn error_string(text: &str) -> (res: String)
    ensures
        res@ == error_message(text@),
{
    let mut res: String = color::color_bright_red().to_owned();
    res.append(text);
    res.append(color::color_reset());
    res
}

fn not_found_string(tree: &str, path: &str) -> (res: String)
    ensures
        res@ == not_found_message(tree@, path@),
{
    let mut text: String = "[ERROR]: ".to_owned();
    text.append(tree);
    text.append(" tree '");
    text.append(path);
    text.append("' not found");
    error_string(text.as_str())
}

/// Checks whether the trees at `path_l` and `path_r` can be compared, given whether there is
/// something at these paths.
pub fn check_trees(path_l: &str, path_r: &str, exists_l: bool, exists_r: bool) -> (res: Result<
    (),
    TreeError,
>)
    ensures
        ({
            let both_stdin = path_l@ == stdin_path() && path_r@ == stdin_path();
            let left = is_missing(path_l@, exists_l);
            let right = is_missing(path_r@, exists_r);
            match res {
                Ok(()) => !both_stdin && !left && !right,
                Err(e) => if both_stdin {
                    &&& e.code == 3
                    &&& e.messages@.map_values(|m: String| m@) == seq![
                        error_message("[ERROR]: cannot compare stdin with itself"@),
                    ]
                } else {
                    &&& left || right
                    &&& e.code == missing_code(left, right)
                    &&& e.messages@.map_values(|m: String| m@) == missing_messages(
                        path_l@,
                        path_r@,
                        left,
                        right,
                    )
                },
            }
        }),
{
    let stdin_l = is_stdin(path_l);
    let stdin_r = is_stdin(path_r);
    let mut messages: Vec<String> = Vec::new();
    if stdin_l && stdin_r {
        messages.push(error_string("[ERROR]: cannot compare stdin with itself"));
        assert(messages@.map_values(|m: String| m@) =~= seq![
            error_message("[ERROR]: cannot compare stdin with itself"@),
        ]);
        return Err(TreeError { messages, code: 3 });
    }
    let missing_l = !stdin_l && !exists_l;
    let missing_r = !stdin_r && !exists_r;
    let mut code: i32 = 0;
    if missing_l {
        messages.push(not_found_string("Left", path_l));
        code = code + 1;
    }
    if missing_r {
        messages.push(not_found_string("Right", path_r));
        code = code + 2;
    }
    if code == 0 {
        return Ok(());
    }
    assert(messages@.map_values(|m: String| m@) =~= missing_messages(
        path_l@,
        path_r@,
        missing_l,
        missing_r,
    ));
    Err(TreeError { messages, code })
}

/// Where a log comes from.
#[derive(Debug)]
pub enum Source {
    /// Standard input.
    Stdin,
    /// The file at the path.
    File,
    /// The output of a command, which lists the tree at the path.
    Command(Vec<String>),
}

/// Tells where the log for `path` comes from, given whether there is a directory at that path.
pub fn fsnode_source(path: &str, is_dir: bool) -> (res: Source)
    ensures
        match res {
            Source::Stdin => path@ == stdin_path(),
            Source::File => path@ != stdin_path() && !is_dir,
            Source::Command(words) => {
                &&& path@ != stdin_path()
                &&& is_dir
                &&& words@.map_values(|w: String| w@) == seq!["sudo"@, "rk"@, "-rQe"@, path@]
            },
        },
{
    if is_stdin(path) {
        return Source::Stdin;
    }
    if !is_dir {
        return Source::File;
    }
    let mut words: Vec<String> = Vec::new();
    words.push("sudo".to_owned());
    words.push("rk".to_owned());
    words.push("-rQe".to_owned());
    words.push(path.to_owned());
    assert(words@.map_values(|w: String| w@) =~= seq!["sudo"@, "rk"@, "-rQe"@, path@]);
    Source::Command(words)
}

} // verus!
