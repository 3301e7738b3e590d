//! The lines of the report: what happened to a file, and which other file it comes from.
use vstd::prelude::*;
use vstd::string::*;

use crate::color;
use crate::event::{events_view, lemma_events_push, Color, Event, EventView, Span, SpanView};
use crate::node::{nodes_view, FSNode, NodeView};
use crate::text::{
    behind_last_slash, chars_of, common_chars, find_behind_last_slash, lemma_common_chars,
    prefix_match_len,
};

verus! {

/// Whether a shell takes `c` as it stands.
pub open spec fn is_plain(c: char) -> bool {
    ||| 'a' <= c <= 'z'
    ||| 'A' <= c <= 'Z'
    ||| '0' <= c <= '9'
    ||| c == '-'
    ||| c == '_'
    ||| c == '='
    ||| c == '/'
    ||| c == ','
    ||| c == '.'
    ||| c == '+'
}

/// How `c` is written between single quotes: a single quote and an exclamation mark stand outside
/// of them, behind a backslash.
pub open spec fn quoted_char(c: char) -> Seq<char> {
    if c == '\'' || c == '!' {
        seq!['\'', '\\', c, '\'']
    } else {
        seq![c]
    }
}

/// How `text` is written between single quotes.
pub open spec fn quoted_chars(text: Seq<char>) -> Seq<char>
    decreases text.len(),
{
    if text.len() == 0 {
        seq![]
    } else {
        quoted_chars(text.drop_last()) + quoted_char(text.last())
    }
}

/// How `text` is written for a shell: as it stands if it is not empty and the shell takes all of
/// it so, else between single quotes.
pub open spec fn shell_quoted(text: Seq<char>) -> Seq<char> {
    if text.len() > 0 && forall|i: int| 0 <= i < text.len() ==> is_plain(#[trigger] text[i]) {
        text
    } else {
        seq!['\''] + quoted_chars(text) + seq!['\'']
    }
}

/// Calls `shell_escape::unix::escape`. It hands back a text that is not empty and holds only
/// ASCII letters and digits and `-_=/,.+`; any other it puts between single quotes, with each
/// single quote and exclamation mark in it taken out of the quotes, behind a backslash.
#[verifier::external_body]
fn escape(text: &str) -> (res: String)
    ensures
        res@ == shell_quoted(text@),
{
    shell_escape::unix::escape(std::borrow::Cow::Borrowed(text)).into_owned()
}

/// What happened to a file. Other files are named by their indices.
#[derive(Clone, Copy, Debug, PartialEq, Eq, Structural)]
pub enum FSOp {
    Delete,
    Create,
    CopyMove { src: usize },
    Modify { lhs: usize },
}

/// Why nothing can be reported.
#[derive(Clone, Copy, Debug, PartialEq, Eq, Structural)]
pub enum ReportError {
    /// A file would have been copied or moved to its own path.
    SamePath,
}

/// How many characters the path of the directory that `src` and `dst` share has: the longest start
/// that they have in common and that is empty or ends in a slash.
pub open spec fn shared_len(src: Seq<char>, dst: Seq<char>) -> int {
    behind_last_slash(dst, common_chars(src, dst) as int)
}

/// Why the report of `op` on the node `id` fails, if it does.
pub open spec fn report_error(nodes: Seq<NodeView>, id: usize, op: FSOp) -> Option<ReportError> {
    let node = nodes[id as int];
    match op {
        FSOp::CopyMove { src } if !node.done && nodes[src as int].path == node.path => Some(
            ReportError::SamePath,
        ),
        _ => None,
    }
}

/// A stretch without colour.
pub open spec fn plain_span(text: Seq<char>) -> SpanView {
    SpanView { color: None, text }
}

/// A coloured stretch.
pub open spec fn color_span(color: Color, text: Seq<char>) -> SpanView {
    SpanView { color: Some(color), text }
}

/// The line for a file that only one of the trees has.
pub open spec fn single_line(node: NodeView, deleted: bool) -> EventView {
    EventView::Line(
        seq![
            if deleted {
                color_span(Color::Red, "RM"@)
            } else {
                color_span(Color::Green, "CR"@)
            },
            plain_span(" "@),
            color_span(
                if node.hash is None {
                    Color::BrightBlue
                } else {
                    Color::White
                },
                shell_quoted(node.path),
            ),
        ],
    )
}

/// How what stands behind the first `pos` characters of `path` is written for a shell. Nothing is
/// written for the directory that these characters name.
pub open spec fn rest_text(path: Seq<char>, pos: int) -> Seq<char> {
    if pos > 0 && path.len() == pos {
        seq![]
    } else {
        shell_quoted(path.skip(pos))
    }
}

/// What a line for a copy or move says behind the verb: the directory that the paths share, and each
/// path from there on.
pub open spec fn shared_text(src: Seq<char>, dst: Seq<char>) -> Seq<char> {
    let pos = shared_len(src, dst);
    " "@ + color::bright_white() + dst.take(pos) + color::default_color() + (if pos == 0 {
        ""@
    } else {
        " "@
    }) + rest_text(src, pos) + " "@ + rest_text(dst, pos)
}

/// The line for a file that was copied or moved from another.
pub open spec fn copy_move_line(
    copy: bool,
    no_prefix: bool,
    src: Seq<char>,
    dst: Seq<char>,
) -> EventView {
    EventView::Line(
        seq![
            if copy {
                color_span(Color::Cyan, "CP"@)
            } else {
                color_span(Color::Magenta, "MV"@)
            },
            plain_span(
                if no_prefix {
                    " "@ + src + " "@ + dst
                } else {
                    shared_text(src, dst)
                },
            ),
        ],
    )
}

/// The line for a file whose contents differ between the trees.
pub open spec fn modify_line(path: Seq<char>) -> EventView {
    EventView::Line(
        seq![
            plain_span(
                color::yellow() + "MD"@ + color::default_color() + " "@ + shell_quoted(path),
            ),
        ],
    )
}

/// What the report of `op` on the node `id` adds to the events.
pub open spec fn report_events(
    nodes: Seq<NodeView>,
    id: usize,
    disable: bool,
    no_prefix: bool,
    op: FSOp,
) -> Seq<EventView> {
    let node = nodes[id as int];
    if node.done || disable {
        seq![]
    } else {
        seq![
            match op {
                FSOp::Delete => single_line(node, true),
                FSOp::Create => single_line(node, false),
                FSOp::CopyMove { src } => copy_move_line(
                    nodes[src as int].done,
                    no_prefix,
                    nodes[src as int].path,
                    node.path,
                ),
                FSOp::Modify { lhs } => modify_line(node.path),
            },
        ]
    }
}

/// The nodes with everything said about the node `id`.
pub open spec fn mark_done(nodes: Seq<NodeView>, id: usize) -> Seq<NodeView> {
    nodes.update(id as int, NodeView { done: true, ..nodes[id as int] })
}

/// The nodes behind the report of `op` on the node `id`: everything has been said about it and
/// about the other file of `op`.
pub open spec fn report_nodes(nodes: Seq<NodeView>, id: usize, op: FSOp) -> Seq<NodeView> {
    if nodes[id as int].done {
        nodes
    } else {
        match op {
            FSOp::Delete => mark_done(nodes, id),
            FSOp::Create => mark_done(nodes, id),
            FSOp::CopyMove { src } => mark_done(mark_done(nodes, src), id),
            FSOp::Modify { lhs } => mark_done(mark_done(nodes, lhs), id),
        }
    }
}

/// Whether the other file of `op`, if there is one, is a node.
pub open spec fn op_in_bounds(op: FSOp, len: nat) -> bool {
    match op {
        FSOp::CopyMove { src } => src < len,
        FSOp::Modify { lhs } => lhs < len,
        _ => true,
    }
}

fn plain(text: String) -> (res: Span)
    ensures
        res@ == plain_span(text@),
{
    Span { color: None, text }
}

fn colored(color: Color, text: String) -> (res: Span)
    ensures
        res@ == color_span(color, text@),
{
    Span { color: Some(color), text }
}

/// Builds the line for a file that only one of the trees has.
fn single_event(node: &FSNode, deleted: bool) -> (res: Event)
    ensures
        res@ == single_line(node@, deleted),
{
    let mut spans: Vec<Span> = Vec::new();
    if deleted {
        spans.push(colored(Color::Red, "RM".to_owned()));
    } else {
        spans.push(colored(Color::Green, "CR".to_owned()));
    }
    spans.push(plain(" ".to_owned()));
    let color = if node.hash.is_none() {
        Color::BrightBlue
    } else {
        Color::White
    };
    spans.push(colored(color, escape(node.path.as_str())));
    let res = Event::Line(spans);
    assert(spans@.map_values(|s: Span| s@) =~= single_line(node@, deleted)->Line_0);
    res
}

/// Writes what stands behind the first `pos` characters of `path` for a shell.
fn rest_string(path: &str, pos: usize) -> (res: String)
    requires
        pos <= path@.len(),
    ensures
        res@ == rest_text(path@, pos as int),
{
    let len = chars_of(path).len();
    if pos > 0 && len == pos {
        return String::new();
    }
    let rest = path.substring_char(pos, len);
    assert(rest@ =~= path@.skip(pos as int));
    escape(rest)
}

/// Builds what a line for a copy or move says behind the verb: the directory that the paths share,
/// and each path from there on.
fn shared_string(src: &str, dst: &str) -> (res: String)
    ensures
        res@ == shared_text(src@, dst@),
{
    let len = prefix_match_len(src, dst);
    proof {
        lemma_common_chars(src@, dst@, 0);
    }
    let pos = find_behind_last_slash(&chars_of(dst), len);
    assert(dst@.subrange(0, pos as int) =~= dst@.take(pos as int));
    let mut text: String = " ".to_owned();
    text.append(color::color_bright_white());
    text.append(dst.substring_char(0, pos));
    text.append(color::color_reset());
    text.append(if pos == 0 { "" } else { " " });
    text.append(rest_string(src, pos).as_str());
    text.append(" ");
    text.append(rest_string(dst, pos).as_str());
    text
}

/// Builds the line for a file that was copied or moved from another.
fn copy_move_event(copy: bool, no_prefix: bool, src: &str, dst: &str) -> (res: Event)
    ensures
        res@ == copy_move_line(copy, no_prefix, src@, dst@),
{
    let text = if no_prefix {
        let mut text: String = " ".to_owned();
        text.append(src);
        text.append(" ");
        text.append(dst);
        text
    } else {
        shared_string(src, dst)
    };
    let mut spans: Vec<Span> = Vec::new();
    if copy {
        spans.push(colored(Color::Cyan, "CP".to_owned()));
    } else {
        spans.push(colored(Color::Magenta, "MV".to_owned()));
    }
    spans.push(plain(text));
    let res = Event::Line(spans);
    assert(spans@.map_values(|s: Span| s@) =~= copy_move_line(
        copy,
        no_prefix,
        src@,
        dst@,
    )->Line_0);
    res
}

/// Builds the line for a file whose contents differ between the trees.
fn modify_event(path: &str) -> (res: Event)
    ensures
        res@ == modify_line(path@),
{
    let mut text: String = color::color_yellow().to_owned();
    text.append("MD");
    text.append(color::color_reset());
    text.append(" ");
    text.append(escape(path).as_str());
    let mut spans: Vec<Span> = Vec::new();
    spans.push(plain(text));
    let res = Event::Line(spans);
    assert(spans@.map_values(|s: Span| s@) =~= modify_line(path@)->Line_0);
    res
}

/// Marking a node in a list of nodes marks its contents.
proof fn lemma_mark_done(before: Seq<FSNode>, after: Seq<FSNode>, id: usize)
    requires
        id < before.len(),
        after.len() == before.len(),
        after[id as int]@ == (NodeView { done: true, ..before[id as int]@ }),
        forall|i: int| 0 <= i < before.len() && i != id ==> after[i] == before[i],
    ensures
        nodes_view(after) == mark_done(nodes_view(before), id),
{
    assert(nodes_view(after) =~= mark_done(nodes_view(before), id));
}

/// Records that everything has been said about the node `id`.
pub(crate) fn set_node_done(nodes: &mut Vec<FSNode>, id: usize)
    requires
        id < old(nodes)@.len(),
    ensures
        nodes_view(final(nodes)@) == mark_done(nodes_view(old(nodes)@), id),
        final(nodes)@.len() == old(nodes)@.len(),
{
    nodes[id].set_done();
    proof {
        lemma_mark_done(old(nodes)@, nodes@, id);
    }
}

impl FSNode {
    /// Reports what happened to the node `id`, unless everything has been said about it.
    /// With `disable` on, the nodes are marked but no line is written. With `no_prefix` on, the
    /// line for a copy or move names both paths in full, unquoted.
    pub fn report(
        nodes: &mut Vec<FSNode>,
        id: usize,
        disable: bool,
        no_prefix: bool,
        op: &FSOp,
        out: &mut Vec<Event>,
    ) -> (res: Result<(), ReportError>)
        requires
            id < old(nodes)@.len(),
            op_in_bounds(*op, old(nodes)@.len()),
        ensures
            final(nodes)@.len() == old(nodes)@.len(),
            match res {
                Ok(()) => {
                    &&& report_error(nodes_view(old(nodes)@), id, *op) is None
                    &&& nodes_view(final(nodes)@) == report_nodes(nodes_view(old(nodes)@), id, *op)
                    &&& events_view(final(out)@) == events_view(old(out)@) + report_events(
                        nodes_view(old(nodes)@),
                        id,
                        disable,
                        no_prefix,
                        *op,
                    )
                },
                Err(e) => {
                    &&& report_error(nodes_view(old(nodes)@), id, *op) == Some(e)
                    &&& *final(nodes) == *old(nodes)
                    &&& *final(out) == *old(out)
                },
            },
    {
        let ghost before = nodes_view(nodes@);
        let ghost expected = events_view(out@) + report_events(before, id, disable, no_prefix, *op);
        assert(events_view(out@) + Seq::<EventView>::empty() =~= events_view(out@));
        assert(before[id as int] == nodes@[id as int]@);
        if nodes[id].is_done() {
            return Ok(());
        }
        if let FSOp::CopyMove { src } = op {
            assert(before[*src as int] == nodes@[*src as int]@);
            if nodes[*src].path == nodes[id].path {
                return Err(ReportError::SamePath);
            }
        }
        if !disable {
            let event = match op {
                FSOp::Delete => single_event(&nodes[id], true),
                FSOp::Create => single_event(&nodes[id], false),
                FSOp::CopyMove { src } => {
                    copy_move_event(
                        nodes[*src].is_done(),
                        no_prefix,
                        nodes[*src].path.as_str(),
                        nodes[id].path.as_str(),
                    )
                },
                FSOp::Modify { .. } => modify_event(nodes[id].path.as_str()),
            };
            proof {
                lemma_events_push(out@, event);
            }
            out.push(event);
        }
        assert(events_view(out@) =~= expected);
        match op {
            FSOp::CopyMove { src } => {
                set_node_done(nodes, *src);
            },
            FSOp::Modify { lhs } => {
                set_node_done(nodes, *lhs);
            },
            _ => {},
        }
        set_node_done(nodes, id);
        Ok(())
    }
}

} // verus!
