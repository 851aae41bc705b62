//! The decisions of the command-line front end: print modes, which documents
//! to search, and the lines to print for the matches.

use vstd::prelude::*;

use crate::node::{
    convert_length, convert_single_node, decimal, decimal_text, length_spec, rendered, Node,
};
use crate::path::{index_spec, parse_index, same_text};
use crate::traverse::{views, VisitedNode};

verus! {

/// What each output line shows of a match.
#[derive(Debug, Clone, Copy, PartialEq, Eq, Structural)]
pub enum PrintMode {
    Value,
    Path,
    ValueAndPath,
}

/// The print mode that `m` names: `p`, `pv` or `vp`; anything else means `v`.
pub open spec fn print_mode_spec(m: Seq<char>) -> PrintMode {
    if m == "p"@ {
        PrintMode::Path
    } else if m == "pv"@ || m == "vp"@ {
        PrintMode::ValueAndPath
    } else {
        PrintMode::Value
    }
}

pub fn parse_print_mode(mode: &str) -> (r: PrintMode)
    ensures
        r == print_mode_spec(mode@),
{
    if same_text(mode, "p") {
        PrintMode::Path
    } else if same_text(mode, "pv") || same_text(mode, "vp") {
        PrintMode::ValueAndPath
    } else {
        PrintMode::Value
    }
}

/// Why no document can be searched.
#[derive(Debug, Clone, Copy, PartialEq, Eq, Structural)]
pub enum DocIndexError {
    /// The input holds no document.
    NoDocuments,
    /// The requested index is neither `*` nor a number.
    BadIndex,
    /// The requested index is past the last document.
    OutOfRange(usize),
}

/// The range of documents, out of `count`, to search for the requested
/// index: all for none or `*`, else the one it names.
pub open spec fn selection_spec(count: usize, doc_idx: Option<Seq<char>>) -> Result<
    (usize, usize),
    DocIndexError,
> {
    if count == 0 {
        Err(DocIndexError::NoDocuments)
    } else {
        match doc_idx {
            None => Ok((0, count)),
            Some(s) => if s == "*"@ {
                Ok((0, count))
            } else {
                match index_spec(s) {
                    None => Err(DocIndexError::BadIndex),
                    Some(i) => if i < count {
                        Ok((i, (i + 1) as usize))
                    } else {
                        Err(DocIndexError::OutOfRange(i))
                    },
                }
            },
        }
    }
}

pub fn select_documents(count: usize, doc_idx: Option<&str>) -> (r: Result<
    (usize, usize),
    DocIndexError,
>)
    ensures
        r == selection_spec(
            count,
            match doc_idx {
                Some(s) => Some(s@),
                None => None,
            },
        ),
{
    if count == 0 {
        return Err(DocIndexError::NoDocuments);
    }
    match doc_idx {
        None => Ok((0, count)),
        Some(s) => {
            if same_text(s, "*") {
                return Ok((0, count));
            }
            match parse_index(s) {
                None => Err(DocIndexError::BadIndex),
                Some(i) => if i < count {
                    Ok((i, i + 1))
                } else {
                    Err(DocIndexError::OutOfRange(i))
                },
            }
        },
    }
}

/// The output line for the match `v`: its path, its value (or length), or
/// both as `path: value`, with `- ` in front of values and paths when
/// collecting.
pub open spec fn line_spec(v: (Node, Seq<char>), mode: PrintMode, length: bool, collect: bool) -> Seq<
    char,
> {
    let (node, path) = v;
    if length {
        match mode {
            PrintMode::Path => path,
            PrintMode::Value => length_spec(node),
            PrintMode::ValueAndPath => path + ": "@ + length_spec(node),
        }
    } else {
        let pre = if collect {
            "- "@
        } else {
            seq![]
        };
        match mode {
            PrintMode::Path => pre + path,
            PrintMode::Value => pre + rendered(node),
            PrintMode::ValueAndPath => pre + path + ": "@ + rendered(node),
        }
    }
}

/// The output for the matches `vs`: their count alone when both counting
/// lengths and collecting, else one line per match.
pub open spec fn lines_spec(vs: Seq<(Node, Seq<char>)>, mode: PrintMode, length: bool, collect: bool) -> Seq<
    Seq<char>,
> {
    if length && collect {
        seq![decimal(vs.len())]
    } else {
        vs.map_values(|v: (Node, Seq<char>)| line_spec(v, mode, length, collect))
    }
}

fn output_line(v: &VisitedNode, mode: PrintMode, length: bool, collect: bool) -> (r: String)
    ensures
        r@ == line_spec(v@, mode, length, collect),
{
    if length {
        return match mode {
            PrintMode::Path => v.path.clone(),
            PrintMode::Value => convert_length(v.yml),
            PrintMode::ValueAndPath => {
                let mut s = v.path.clone();
                s.append(": ");
                s.append(convert_length(v.yml).as_str());
                s
            },
        };
    }
    let mut line = if collect {
        String::from_str("- ")
    } else {
        String::new()
    };
    match mode {
        PrintMode::Path => {
            line.append(v.path.as_str());
        },
        PrintMode::Value => {
            line.append(convert_single_node(v.yml).as_str());
        },
        PrintMode::ValueAndPath => {
            line.append(v.path.as_str());
            line.append(": ");
            line.append(convert_single_node(v.yml).as_str());
        },
    }
    line
}

/// The lines to print for the matches `visited`.
pub fn output_lines(visited: &Vec<VisitedNode>, mode: PrintMode, length: bool, collect: bool) -> (r:
    Vec<String>)
    ensures
        r.deep_view() == lines_spec(views(visited@), mode, length, collect),
{
    let ghost vs = views(visited@);
    let mut out: Vec<String> = Vec::new();
    if length && collect {
        out.push(decimal_text(visited.len() as u64));
        assert(out.deep_view() =~= seq![decimal(vs.len())]);
        return out;
    }
    let mut i: usize = 0;
    while i < visited.len()
        invariant
            i <= visited@.len(),
            vs == views(visited@),
            out.deep_view() =~= vs.subrange(0, i as int).map_values(
                |v: (Node, Seq<char>)| line_spec(v, mode, length, collect),
            ),
        decreases visited.len() - i,
    {
        let line = output_line(&visited[i], mode, length, collect);
        let ghost before = out.deep_view();
        out.push(line);
        assert(out.deep_view() =~= before.push(line@));
        i += 1;
        assert(vs.subrange(0, i as int).map_values(
            |v: (Node, Seq<char>)| line_spec(v, mode, length, collect),
        ) =~= before.push(line@));
    }
    assert(vs.subrange(0, i as int) =~= vs);
    out
}

} // verus!
