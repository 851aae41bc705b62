//! The evaluator: walks a document along parsed segments and collects every
//! match with its path. `traverse_spec` states what a walk yields; the
//! functions below are proved to yield exactly that.

use vstd::prelude::*;

use crate::node::{convert_single_node, decimal, decimal_text, is_scalar, rendered, Node};
use crate::path::{
    index_spec, is_bracketed, is_bracketed_spec, is_child_filter, is_child_filter_spec,
    matches_pattern, matches_spec, msg_bad_filter, msg_bad_index, parse_array_indexing_operation,
    parse_path, parse_path_spec, same_text, split_child_filter, split_filter_spec, ArrayIndices,
    ParseError, SPLAT,
};

verus! {

/// A node that a query selected, and the path at which it was found.
#[derive(Debug)]
pub struct VisitedNode<'a> {
    pub yml: &'a Node,
    pub path: String,
}

impl<'a> View for VisitedNode<'a> {
    type V = (Node, Seq<char>);

    open spec fn view(&self) -> (Node, Seq<char>) {
        (*self.yml, self.path@)
    }
}

/// Why a query could not be answered.
#[derive(Debug)]
pub enum TraverseError {
    /// A child filter, its sub-path or an array index is malformed.
    Parse(ParseError),
    /// A mapping on the way holds a key that is not a string.
    NonStringKey,
}

/// What a `TraverseError` says, as a value.
pub enum Fault {
    Parse(Seq<char>),
    NonStringKey,
}

impl View for TraverseError {
    type V = Fault;

    open spec fn view(&self) -> Fault {
        match self {
            TraverseError::Parse(e) => Fault::Parse(e@),
            TraverseError::NonStringKey => Fault::NonStringKey,
        }
    }
}

/// The indices that an array segment selects.
pub enum Selection {
    Every,
    Listed(Seq<usize>),
}

impl View for ArrayIndices {
    type V = Selection;

    open spec fn view(&self) -> Selection {
        match self {
            ArrayIndices::Star => Selection::Every,
            ArrayIndices::Indices(v) => Selection::Listed(v@),
        }
    }
}

/// What a walk yields: the matches it appends, in order, and the fault that
/// stopped it, if one did (the matches are then those found before it).
pub struct Outcome {
    pub visits: Seq<(Node, Seq<char>)>,
    pub fault: Option<Fault>,
}

pub open spec fn none() -> Outcome {
    Outcome { visits: seq![], fault: None }
}

pub open spec fn fail(f: Fault) -> Outcome {
    Outcome { visits: seq![], fault: Some(f) }
}

/// `a`, then `b` unless `a` stopped at a fault.
pub open spec fn then(a: Outcome, b: Outcome) -> Outcome {
    if a.fault is Some {
        a
    } else {
        Outcome { visits: a.visits + b.visits, fault: b.fault }
    }
}

pub open spec fn splat_seg() -> Seq<char> {
    SPLAT@
}

/// `s` without its first and last characters; empty when that leaves nothing.
pub open spec fn unwrap_spec(s: Seq<char>) -> Seq<char> {
    if s.len() < 2 {
        seq![]
    } else {
        s.subrange(1, s.len() - 1)
    }
}

/// The path of a mapping's value under `key`, below the path `p`.
pub open spec fn hash_path(p: Seq<char>, key: Seq<char>) -> Seq<char> {
    if p.len() > 0 {
        p + seq!['.'] + key
    } else {
        key
    }
}

/// The path of a sequence's element at `idx`, below the path `p`.
pub open spec fn array_path(p: Seq<char>, idx: nat) -> Seq<char> {
    p + seq!['['] + decimal(idx) + seq![']']
}

/// Whether the value `v` passes the final child filter `filter`: every value
/// passes `*`, and under `path==pattern` its rendered text must match the
/// pattern.
pub open spec fn value_match_spec(v: Node, filter: Seq<char>) -> Result<bool, Fault> {
    if filter == "*"@ {
        Ok(true)
    } else {
        match split_filter_spec(filter) {
            None => Err(Fault::Parse(msg_bad_filter(filter))),
            Some((_, pattern)) => Ok(matches_spec(rendered(v), pattern)),
        }
    }
}

/// The matches below `node`, which was reached at `path` by the segment
/// `head`, for the segments `tail` still to match; `splat` says that a deep
/// search is open.
pub open spec fn traverse_spec(
    node: Node,
    head: Seq<char>,
    tail: Seq<Seq<char>>,
    path: Seq<char>,
    splat: bool,
) -> Outcome
    decreases node, 2nat, 0int,
{
    if splat {
        if head == splat_seg() {
            if tail.len() > 0 {
                recurse_spec(node, tail[0], tail.drop_first(), path, true)
            } else if node.is_scalar_spec() {
                visit_spec(node, tail, path)
            } else {
                recurse_spec(node, head, tail, path, false)
            }
        } else if !node.is_scalar_spec() {
            recurse_spec(node, head, tail, path, true)
        } else {
            none()
        }
    } else if tail.len() > 0 && !node.is_scalar_spec() {
        recurse_spec(node, tail[0], tail.drop_first(), path, false)
    } else {
        visit_spec(node, tail, path)
    }
}

/// A node reached with no segments left is a match, unless the document
/// marks it as a bad value.
pub open spec fn visit_spec(node: Node, tail: Seq<Seq<char>>, path: Seq<char>) -> Outcome {
    if tail.len() == 0 && !(node is BadValue) {
        Outcome { visits: seq![(node, path)], fault: None }
    } else {
        none()
    }
}

/// The matches below the children of `node` that the segment `head` selects.
pub open spec fn recurse_spec(
    node: Node,
    head: Seq<char>,
    tail: Seq<Seq<char>>,
    path: Seq<char>,
    splat: bool,
) -> Outcome
    decreases node, 1nat, 0int,
{
    match node {
        Node::Mapping(h) => hash_from(h@, 0, head, tail, path, splat),
        Node::Sequence(v) => array_spec(v@, head, tail, path, splat),
        _ => none(),
    }
}

/// The matches below the entries of a mapping from index `i` on.
pub open spec fn hash_from(
    entries: Seq<(Node, Node)>,
    i: int,
    head: Seq<char>,
    tail: Seq<Seq<char>>,
    path: Seq<char>,
    splat: bool,
) -> Outcome
    decreases entries, 0nat, entries.len() - i,
{
    if i < 0 || i >= entries.len() {
        none()
    } else {
        let v = entries[i].1;
        match entries[i].0 {
            Node::Str(k) => {
                let p = hash_path(path, k@);
                let deeper = if splat {
                    traverse_spec(v, head, tail, p, true)
                } else {
                    none()
                };
                let here = if matches_spec(k@, head) {
                    traverse_spec(v, head, tail, p, head == splat_seg())
                } else if is_child_filter_spec(head) && tail.len() == 0 {
                    match value_match_spec(v, unwrap_spec(head)) {
                        Err(f) => fail(f),
                        Ok(true) => traverse_spec(v, head, tail, p, false),
                        Ok(false) => none(),
                    }
                } else {
                    none()
                };
                then(then(deeper, here), hash_from(entries, i + 1, head, tail, path, splat))
            },
            _ => fail(Fault::NonStringKey),
        }
    }
}

/// Every index of a sequence of `n` items.
pub open spec fn every_index(n: nat) -> Seq<usize> {
    Seq::new(n, |i: int| i as usize)
}

/// The matches below the elements of a sequence: all of them while a deep
/// search is open, then those that `head` selects.
pub open spec fn array_spec(
    items: Seq<Node>,
    head: Seq<char>,
    tail: Seq<Seq<char>>,
    path: Seq<char>,
    splat: bool,
) -> Outcome
    decreases items, 3nat, 0int,
{
    let deeper = if splat {
        items_from(items, every_index(items.len()), 0, head, tail, path, true)
    } else {
        none()
    };
    let chosen = match array_idx_spec(head, items, tail.len() == 0) {
        Err(f) => fail(f),
        Ok(Selection::Every) => items_from(
            items,
            every_index(items.len()),
            0,
            head,
            tail,
            path,
            head == splat_seg(),
        ),
        Ok(Selection::Listed(ix)) => if forall|k: int| 0 <= k < ix.len() ==> ix[k] < items.len() {
            items_from(items, ix, 0, head, tail, path, head == splat_seg())
        } else {
            none()
        },
    };
    then(deeper, chosen)
}

/// The matches below the elements at the indices `ix[k..]`, in that order.
pub open spec fn items_from(
    items: Seq<Node>,
    ix: Seq<usize>,
    k: int,
    head: Seq<char>,
    tail: Seq<Seq<char>>,
    path: Seq<char>,
    splat: bool,
) -> Outcome
    decreases items, 0nat, ix.len() - k,
{
    if k < 0 || k >= ix.len() || ix[k] >= items.len() {
        none()
    } else {
        then(
            traverse_spec(items[ix[k] as int], head, tail, array_path(path, ix[k] as nat), splat),
            items_from(items, ix, k + 1, head, tail, path, splat),
        )
    }
}

/// The indices of `items` that the segment `head` selects: all for the
/// splat, `*` and `[*]`, those a child filter keeps, the one a bracketed
/// index names, and none for any other segment.
pub open spec fn array_idx_spec(head: Seq<char>, items: Seq<Node>, is_final: bool) -> Result<
    Selection,
    Fault,
>
    decreases items, 2nat, 0int,
{
    if head == splat_seg() {
        Ok(Selection::Every)
    } else if is_child_filter_spec(head) {
        child_filter_spec(unwrap_spec(head), items, is_final)
    } else if is_bracketed_spec(head) {
        let c = unwrap_spec(head);
        if c == "*"@ {
            Ok(Selection::Every)
        } else {
            match index_spec(c) {
                Some(v) => Ok(Selection::Listed(seq![v])),
                None => Err(Fault::Parse(msg_bad_index(c))),
            }
        }
    } else if head == "*"@ {
        Ok(Selection::Every)
    } else {
        Ok(Selection::Listed(seq![]))
    }
}

/// The indices of `items` that the child filter `filter` keeps.
pub open spec fn child_filter_spec(filter: Seq<char>, items: Seq<Node>, is_final: bool) -> Result<
    Selection,
    Fault,
>
    decreases items, 1nat, 0int,
{
    if filter == "*"@ {
        Ok(Selection::Every)
    } else {
        match split_filter_spec(filter) {
            None => Err(Fault::Parse(msg_bad_filter(filter))),
            Some((sub, pattern)) => match parse_path_spec(sub) {
                Err(m) => Err(Fault::Parse(m)),
                Ok(segs) => match filter_from(items, 0, segs, pattern, is_final) {
                    Err(f) => Err(f),
                    Ok(kept) => Ok(Selection::Listed(kept)),
                },
            },
        }
    }
}

/// Whether the element `item` passes a child filter: as the final segment,
/// its own rendered text must match `pattern`; otherwise the sub-path `segs`
/// must select exactly one node below it, whose rendered text matches.
pub open spec fn keeps_spec(item: Node, segs: Seq<Seq<char>>, pattern: Seq<char>, is_final: bool) -> Result<
    bool,
    Fault,
>
    decreases item, 3nat, 0int,
{
    if is_final {
        Ok(matches_spec(rendered(item), pattern))
    } else {
        let o = traverse_spec(item, seq![], segs, seq![], false);
        match o.fault {
            Some(f) => Err(f),
            None => if o.visits.len() != 1 {
                Ok(false)
            } else {
                Ok(matches_spec(rendered(o.visits[0].0), pattern))
            },
        }
    }
}

/// The indices from `j` on of the elements that pass the child filter.
pub open spec fn filter_from(
    items: Seq<Node>,
    j: int,
    segs: Seq<Seq<char>>,
    pattern: Seq<char>,
    is_final: bool,
) -> Result<Seq<usize>, Fault>
    decreases items, 0nat, items.len() - j,
{
    if j < 0 || j >= items.len() {
        Ok(seq![])
    } else {
        match keeps_spec(items[j], segs, pattern, is_final) {
            Err(f) => Err(f),
            Ok(keep) => match filter_from(items, j + 1, segs, pattern, is_final) {
                Err(f) => Err(f),
                Ok(rest) => Ok(
                    if keep {
                        seq![j as usize] + rest
                    } else {
                        rest
                    },
                ),
            },
        }
    }
}

/// The views of the visited nodes in `s`.
pub open spec fn views<'a>(s: Seq<VisitedNode<'a>>) -> Seq<(Node, Seq<char>)> {
    s.map_values(|v: VisitedNode<'a>| v@)
}

/// A walk that took the visited list from `before` to `after` and returned
/// `r` did what `o` describes: it appended `o`'s matches, and failed exactly
/// with `o`'s fault.
pub open spec fn reports<'a>(
    before: Seq<VisitedNode<'a>>,
    after: Seq<VisitedNode<'a>>,
    r: Result<(), TraverseError>,
    o: Outcome,
) -> bool {
    &&& views(after) == views(before) + o.visits
    &&& match o.fault {
        None => r is Ok,
        Some(f) => r matches Err(e) && e@ == f,
    }
}

proof fn lemma_then_assoc(a: Outcome, b: Outcome, c: Outcome)
    ensures
        then(then(a, b), c) == then(a, then(b, c)),
{
    assert(a.visits + (b.visits + c.visits) =~= (a.visits + b.visits) + c.visits);
}

proof fn lemma_none_then(a: Outcome)
    ensures
        then(none(), a) == a,
{
    assert(seq![] + a.visits =~= a.visits);
}

proof fn lemma_reports_none<'a>(s: Seq<VisitedNode<'a>>)
    ensures
        reports(s, s, Ok(()), none()),
{
    assert(views(s) + seq![] =~= views(s));
}

proof fn lemma_reports_fail<'a>(s: Seq<VisitedNode<'a>>, e: TraverseError)
    ensures
        reports(s, s, Err(e), fail(e@)),
{
    assert(views(s) + seq![] =~= views(s));
}

/// One step of a walk: what was done before (`acc`) and the part `o` just
/// done make `then(acc, o)`, and what is left after `o` is `rest`.
proof fn lemma_step<'a>(
    before: Seq<VisitedNode<'a>>,
    mid: Seq<VisitedNode<'a>>,
    after: Seq<VisitedNode<'a>>,
    r: Result<(), TraverseError>,
    acc: Outcome,
    o: Outcome,
    rest: Outcome,
    total: Outcome,
)
    requires
        reports(before, mid, Ok(()), acc),
        reports(mid, after, r, o),
        then(acc, then(o, rest)) == total,
    ensures
        reports(before, after, r, then(acc, o)),
        r is Err ==> reports(before, after, r, total),
        then(then(acc, o), rest) == total,
{
    assert(views(before) + (acc.visits + o.visits) =~= (views(before) + acc.visits) + o.visits);
    lemma_then_assoc(acc, o, rest);
}

/// The element `head` and the rest `tail` of the segments `segs`.
proof fn lemma_split_first(segs: &[String], rest: &[String])
    requires
        segs@.len() > 0,
        rest@ == segs@.subrange(1, segs@.len() as int),
    ensures
        segs.deep_view()[0] == segs@[0]@,
        rest.deep_view() == segs.deep_view().drop_first(),
{
    assert(rest.deep_view() =~= segs.deep_view().drop_first());
}

/// `s` without its first and last characters, or `""` when it has fewer than two.
pub fn unwrap(s: &str) -> (r: &str)
    ensures
        r@ == unwrap_spec(s@),
{
    let n = s.unicode_len();
    if n < 2 {
        proof {
            reveal_strlit("");
        }
        return "";
    }
    s.substring_char(1, n - 1)
}

/// The path `p` extended by the mapping key `extend`.
pub fn extend_hash_path(p: &String, extend: &str) -> (r: String)
    ensures
        r@ == hash_path(p@, extend@),
{
    let mut new_path = p.clone();
    if p.as_str().unicode_len() > 0 {
        proof {
            reveal_strlit(".");
        }
        new_path.append(".");
    }
    new_path.append(extend);
    new_path
}

/// The path `p` extended by the sequence index `idx`.
pub fn extend_array_path(p: &String, idx: usize) -> (r: String)
    ensures
        r@ == array_path(p@, idx as nat),
{
    let mut new_path = p.clone();
    proof {
        reveal_strlit("[");
        reveal_strlit("]");
    }
    new_path.append("[");
    new_path.append(decimal_text(idx as u64).as_str());
    new_path.append("]");
    new_path
}

/// Appends `node` at `path` to `visited` when no segments are left, unless
/// the document marks it as a bad value.
pub fn visit<'a>(node: &'a Node, tail: &[String], path: String, visited: &mut Vec<VisitedNode<'a>>)
    ensures
        reports(old(visited)@, final(visited)@, Ok(()), visit_spec(*node, tail.deep_view(), path@)),
{
    let ghost before = visited@;
    if tail.len() == 0 {
        match node {
            Node::BadValue => {},
            _ => {
                let ghost p = path@;
                visited.push(VisitedNode { yml: node, path });
                assert(views(visited@) =~= views(before) + seq![(*node, p)]);
                return ;
            },
        }
    }
    proof {
        lemma_reports_none(before);
    }
}

/// Walks `node`, reached at `path` by the segment `head`, along the segments
/// `tail`, and appends every match to `visited` in document order.
/// `following_splat` says that a deep search opened by `**` is under way.
pub fn traverse<'a>(
    node: &'a Node,
    head: &str,
    tail: &[String],
    path: String,
    following_splat: bool,
    visited: &mut Vec<VisitedNode<'a>>,
) -> (r: Result<(), TraverseError>)
    ensures
        reports(
            old(visited)@,
            final(visited)@,
            r,
            traverse_spec(*node, head@, tail.deep_view(), path@, following_splat),
        ),
    decreases *node, 2nat, 0int,
{
    if following_splat {
        if same_text(head, SPLAT) {
            if tail.len() > 0 {
                let (_, rest) = tail.split_at(1);
                proof {
                    lemma_split_first(tail, rest);
                }
                return recurse(node, tail[0].as_str(), rest, path, true, visited);
            } else if is_scalar(node) {
                visit(node, tail, path, visited);
                return Ok(());
            } else {
                return recurse(node, head, tail, path, false, visited);
            }
        } else if !is_scalar(node) {
            return recurse(node, head, tail, path, true, visited);
        }
        proof {
            lemma_reports_none(visited@);
        }
        return Ok(());
    }
    if tail.len() > 0 && !is_scalar(node) {
        let (_, rest) = tail.split_at(1);
        proof {
            lemma_split_first(tail, rest);
        }
        recurse(node, tail[0].as_str(), rest, path, false, visited)
    } else {
        visit(node, tail, path, visited);
        Ok(())
    }
}

fn recurse<'a>(
    node: &'a Node,
    head: &str,
    tail: &[String],
    path: String,
    following_splat: bool,
    visited: &mut Vec<VisitedNode<'a>>,
) -> (r: Result<(), TraverseError>)
    ensures
        reports(
            old(visited)@,
            final(visited)@,
            r,
            recurse_spec(*node, head@, tail.deep_view(), path@, following_splat),
        ),
    decreases *node, 1nat, 0int,
{
    match node {
        Node::Mapping(h) => recurse_hash(h, head, tail, path, following_splat, visited),
        Node::Sequence(v) => recurse_array(v, head, tail, path, following_splat, visited),
        _ => {
            proof {
                lemma_reports_none(visited@);
            }
            Ok(())
        },
    }
}

fn recurse_hash<'a>(
    hash: &'a Vec<(Node, Node)>,
    head: &str,
    tail: &[String],
    path: String,
    following_splat: bool,
    visited: &mut Vec<VisitedNode<'a>>,
) -> (r: Result<(), TraverseError>)
    ensures
        reports(
            old(visited)@,
            final(visited)@,
            r,
            hash_from(hash@, 0, head@, tail.deep_view(), path@, following_splat),
        ),
    decreases hash@, 0nat, 0int,
{
    let ghost segs = tail.deep_view();
    let ghost total = hash_from(hash@, 0, head@, segs, path@, following_splat);
    let ghost before = visited@;
    let ghost mut acc = none();
    proof {
        lemma_reports_none(before);
        lemma_none_then(total);
    }
    let mut i: usize = 0;
    while i < hash.len()
        invariant
            i <= hash@.len(),
            segs == tail.deep_view(),
            total == hash_from(hash@, 0, head@, segs, path@, following_splat),
            before == old(visited)@,
            reports(before, visited@, Ok(()), acc),
            then(acc, hash_from(hash@, i as int, head@, segs, path@, following_splat)) == total,
        decreases hash.len() - i,
    {
        let k = &hash[i].0;
        let v = &hash[i].1;
        let ghost rest = hash_from(hash@, i + 1, head@, segs, path@, following_splat);
        match k {
            Node::Str(k_str) => {
                let ghost p = hash_path(path@, k_str@);
                let ghost deeper = if following_splat {
                    traverse_spec(*v, head@, segs, p, true)
                } else {
                    none()
                };
                let ghost here = if matches_spec(k_str@, head@) {
                    traverse_spec(*v, head@, segs, p, head@ == splat_seg())
                } else if is_child_filter_spec(head@) && segs.len() == 0 {
                    match value_match_spec(*v, unwrap_spec(head@)) {
                        Err(f) => fail(f),
                        Ok(true) => traverse_spec(*v, head@, segs, p, false),
                        Ok(false) => none(),
                    }
                } else {
                    none()
                };
                assert(hash_from(hash@, i as int, head@, segs, path@, following_splat) == then(
                    then(deeper, here),
                    rest,
                ));
                proof {
                    lemma_then_assoc(deeper, here, rest);
                }
                let ghost mid = visited@;
                if following_splat {
                    let new_path = extend_hash_path(&path, k_str.as_str());
                    let r = traverse(v, head, tail, new_path, true, visited);
                    proof {
                        lemma_step(before, mid, visited@, r, acc, deeper, then(here, rest), total);
                    }
                    if r.is_err() {
                        return r;
                    }
                } else {
                    proof {
                        lemma_reports_none(mid);
                        lemma_step(before, mid, visited@, Ok(()), acc, deeper, then(here, rest), total);
                    }
                }
                proof {
                    acc = then(acc, deeper);
                }
                let ghost mid = visited@;
                let r = if matches_pattern(k_str.as_str(), head) {
                    let new_path = extend_hash_path(&path, k_str.as_str());
                    traverse(v, head, tail, new_path, same_text(head, SPLAT), visited)
                } else if is_child_filter(head) && tail.len() == 0 {
                    match is_child_filter_value_match(v, unwrap(head)) {
                        Err(e) => {
                            proof {
                                lemma_reports_fail(mid, e);
                            }
                            Err(e)
                        },
                        Ok(true) => {
                            let new_path = extend_hash_path(&path, k_str.as_str());
                            traverse(v, head, tail, new_path, false, visited)
                        },
                        Ok(false) => {
                            proof {
                                lemma_reports_none(mid);
                            }
                            Ok(())
                        },
                    }
                } else {
                    proof {
                        lemma_reports_none(mid);
                    }
                    Ok(())
                };
                proof {
                    lemma_step(before, mid, visited@, r, acc, here, rest, total);
                }
                if r.is_err() {
                    return r;
                }
                proof {
                    acc = then(acc, here);
                }
            },
            _ => {
                assert(hash_from(hash@, i as int, head@, segs, path@, following_splat) == fail(
                    Fault::NonStringKey,
                ));
                proof {
                    lemma_reports_fail(visited@, TraverseError::NonStringKey);
                    lemma_none_then(rest);
                    lemma_step(
                        before,
                        visited@,
                        visited@,
                        Err(TraverseError::NonStringKey),
                        acc,
                        fail(Fault::NonStringKey),
                        none(),
                        total,
                    );
                }
                return Err(TraverseError::NonStringKey);
            },
        }
        i += 1;
    }
    proof {
        assert(acc.visits + seq![] =~= acc.visits);
    }
    Ok(())
}

/// Whether the value `v` passes the final child filter `filter`.
pub fn is_child_filter_value_match(v: &Node, filter: &str) -> (r: Result<bool, TraverseError>)
    ensures
        match value_match_spec(*v, filter@) {
            Ok(b) => r == Ok::<bool, TraverseError>(b),
            Err(f) => r matches Err(e) && e@ == f,
        },
{
    if same_text(filter, "*") {
        return Ok(true);
    }
    let parts = match split_child_filter(filter) {
        Ok(parts) => parts,
        Err(e) => return Err(TraverseError::Parse(e)),
    };
    Ok(matches_pattern(convert_single_node(v).as_str(), parts[1]))
}

fn recurse_array<'a>(
    array: &'a Vec<Node>,
    head: &str,
    tail: &[String],
    path: String,
    following_splat: bool,
    visited: &mut Vec<VisitedNode<'a>>,
) -> (r: Result<(), TraverseError>)
    ensures
        reports(
            old(visited)@,
            final(visited)@,
            r,
            array_spec(array@, head@, tail.deep_view(), path@, following_splat),
        ),
    decreases array@, 3nat, 0int,
{
    let ghost segs = tail.deep_view();
    let ghost before = visited@;
    let ghost every = every_index(array@.len());
    let ghost deeper = if following_splat {
        items_from(array@, every, 0, head@, segs, path@, true)
    } else {
        none()
    };
    let ghost chosen = match array_idx_spec(head@, array@, segs.len() == 0) {
        Err(f) => fail(f),
        Ok(Selection::Every) => items_from(array@, every, 0, head@, segs, path@, head@ == splat_seg()),
        Ok(Selection::Listed(ix)) => if forall|k: int|
            0 <= k < ix.len() ==> ix[k] < array@.len() {
            items_from(array@, ix, 0, head@, segs, path@, head@ == splat_seg())
        } else {
            none()
        },
    };
    proof {
        lemma_reports_none(before);
        lemma_none_then(then(deeper, chosen));
    }
    let all = all_indices(array.len());
    if following_splat {
        let r = traverse_indices(array, &all, head, tail, &path, true, visited);
        proof {
            lemma_step(before, before, visited@, r, none(), deeper, chosen, then(deeper, chosen));
        }
        if r.is_err() {
            return r;
        }
    } else {
        proof {
            lemma_step(before, before, visited@, Ok(()), none(), deeper, chosen, then(deeper, chosen));
        }
    }
    let ghost mid = visited@;
    let is_splat = same_text(head, SPLAT);
    let r = match get_array_idx(head, array, tail.len() == 0) {
        Err(e) => {
            proof {
                lemma_reports_fail(mid, e);
            }
            Err(e)
        },
        Ok(ArrayIndices::Star) => traverse_indices(array, &all, head, tail, &path, is_splat, visited),
        Ok(ArrayIndices::Indices(indices)) => {
            if all_below(&indices, array.len()) {
                traverse_indices(array, &indices, head, tail, &path, is_splat, visited)
            } else {
                proof {
                    lemma_reports_none(mid);
                }
                Ok(())
            }
        },
    };
    proof {
        lemma_none_then(deeper);
        lemma_step(before, mid, visited@, r, deeper, chosen, none(), then(deeper, chosen));
        assert(then(chosen, none()) == chosen) by {
            assert(chosen.visits + seq![] =~= chosen.visits);
        }
    }
    r
}

/// The indices `0..n`.
fn all_indices(n: usize) -> (r: Vec<usize>)
    ensures
        r@ == every_index(n as nat),
{
    let mut r: Vec<usize> = Vec::new();
    let mut i: usize = 0;
    while i < n
        invariant
            i <= n,
            r@ == every_index(i as nat),
        decreases n - i,
    {
        r.push(i);
        i += 1;
        assert(r@ =~= every_index(i as nat));
    }
    r
}

/// Whether every index in `ix` is below `n`.
fn all_below(ix: &Vec<usize>, n: usize) -> (r: bool)
    ensures
        r == forall|k: int| 0 <= k < ix@.len() ==> ix@[k] < n,
{
    let mut i: usize = 0;
    while i < ix.len()
        invariant
            i <= ix@.len(),
            forall|k: int| 0 <= k < i ==> ix@[k] < n,
        decreases ix.len() - i,
    {
        if ix[i] >= n {
            return false;
        }
        i += 1;
    }
    true
}

/// Walks the elements of `array` at the indices `indices`, in that order.
fn traverse_indices<'a>(
    array: &'a Vec<Node>,
    indices: &Vec<usize>,
    head: &str,
    tail: &[String],
    path: &String,
    following_splat: bool,
    visited: &mut Vec<VisitedNode<'a>>,
) -> (r: Result<(), TraverseError>)
    requires
        forall|k: int| 0 <= k < indices@.len() ==> indices@[k] < array@.len(),
    ensures
        reports(
            old(visited)@,
            final(visited)@,
            r,
            items_from(array@, indices@, 0, head@, tail.deep_view(), path@, following_splat),
        ),
    decreases array@, 0nat, 0int,
{
    let ghost segs = tail.deep_view();
    let ghost total = items_from(array@, indices@, 0, head@, segs, path@, following_splat);
    let ghost before = visited@;
    let ghost mut acc = none();
    proof {
        lemma_reports_none(before);
        lemma_none_then(total);
    }
    let mut k: usize = 0;
    while k < indices.len()
        invariant
            k <= indices@.len(),
            forall|j: int| 0 <= j < indices@.len() ==> indices@[j] < array@.len(),
            segs == tail.deep_view(),
            total == items_from(array@, indices@, 0, head@, segs, path@, following_splat),
            before == old(visited)@,
            reports(before, visited@, Ok(()), acc),
            then(acc, items_from(array@, indices@, k as int, head@, segs, path@, following_splat))
                == total,
        decreases indices.len() - k,
    {
        let idx = indices[k];
        let ghost o = traverse_spec(array@[idx as int], head@, segs, array_path(path@, idx as nat), following_splat);
        let ghost rest = items_from(array@, indices@, k + 1, head@, segs, path@, following_splat);
        assert(items_from(array@, indices@, k as int, head@, segs, path@, following_splat) == then(o, rest));
        let ghost mid = visited@;
        let r = traverse(&array[idx], head, tail, extend_array_path(path, idx), following_splat, visited);
        proof {
            lemma_step(before, mid, visited@, r, acc, o, rest, total);
        }
        if r.is_err() {
            return r;
        }
        proof {
            acc = then(acc, o);
        }
        k += 1;
    }
    proof {
        assert(acc.visits + seq![] =~= acc.visits);
    }
    Ok(())
}

/// The indices of `array_node` that the segment `path_elem` selects: all for
/// the splat, `*` and `[*]`, those a child filter keeps, the one a bracketed
/// index names, and none for any other segment.
pub fn get_array_idx(path_elem: &str, array_node: &Vec<Node>, is_final_path_elem: bool) -> (r: Result<
    ArrayIndices,
    TraverseError,
>)
    ensures
        match array_idx_spec(path_elem@, array_node@, is_final_path_elem) {
            Ok(sel) => r matches Ok(a) && a@ == sel,
            Err(f) => r matches Err(e) && e@ == f,
        },
    decreases array_node@, 2nat, 0int,
{
    if same_text(path_elem, SPLAT) {
        Ok(ArrayIndices::Star)
    } else if is_child_filter(path_elem) {
        parse_array_child_filter(unwrap(path_elem), array_node, is_final_path_elem)
    } else if is_bracketed(path_elem) {
        match parse_array_indexing_operation(unwrap(path_elem)) {
            Ok(a) => Ok(a),
            Err(e) => Err(TraverseError::Parse(e)),
        }
    } else if same_text(path_elem, "*") {
        Ok(ArrayIndices::Star)
    } else {
        Ok(ArrayIndices::Indices(Vec::new()))
    }
}

/// `pre` followed by the indices of `r`, or the fault of `r`.
pub open spec fn prepend_kept(pre: Seq<usize>, r: Result<Seq<usize>, Fault>) -> Result<Seq<usize>, Fault> {
    match r {
        Ok(rest) => Ok(pre + rest),
        Err(f) => Err(f),
    }
}

/// The indices of `array_node` whose elements pass the child filter
/// `path_elem` (`*`, or `path==pattern`); `is_final_path_elem` says whether
/// the filter is the last segment of its query.
pub fn parse_array_child_filter(path_elem: &str, array_node: &Vec<Node>, is_final_path_elem: bool) -> (r: Result<
    ArrayIndices,
    TraverseError,
>)
    ensures
        match child_filter_spec(path_elem@, array_node@, is_final_path_elem) {
            Ok(sel) => r matches Ok(a) && a@ == sel,
            Err(f) => r matches Err(e) && e@ == f,
        },
    decreases array_node@, 1nat, 0int,
{
    if same_text(path_elem, "*") {
        return Ok(ArrayIndices::Star);
    }
    let parts = match split_child_filter(path_elem) {
        Ok(parts) => parts,
        Err(e) => return Err(TraverseError::Parse(e)),
    };
    let parsed_path = match parse_path(parts[0]) {
        Ok(p) => p,
        Err(e) => return Err(TraverseError::Parse(e)),
    };
    let ghost segs = parsed_path.deep_view();
    let ghost pattern = parts[1]@;
    let ghost total = filter_from(array_node@, 0, segs, pattern, is_final_path_elem);
    let ghost answer = match total {
        Err(f) => Err(f),
        Ok(kept) => Ok(Selection::Listed(kept)),
    };
    assert(child_filter_spec(path_elem@, array_node@, is_final_path_elem) == answer);
    let mut indices: Vec<usize> = Vec::new();
    let mut j: usize = 0;
    proof {
        if let Ok(t) = total {
            assert(Seq::<usize>::empty() + t =~= t);
        }
    }
    while j < array_node.len()
        invariant
            j <= array_node@.len(),
            segs == parsed_path.deep_view(),
            pattern == parts[1]@,
            total == filter_from(array_node@, 0, segs, pattern, is_final_path_elem),
            child_filter_spec(path_elem@, array_node@, is_final_path_elem) == answer,
            answer == (match total {
                Err(f) => Err(f),
                Ok(kept) => Ok(Selection::Listed(kept)),
            }),
            prepend_kept(indices@, filter_from(array_node@, j as int, segs, pattern, is_final_path_elem)) == total,
        decreases array_node.len() - j,
    {
        let keep = match keeps(&array_node[j], &parsed_path, parts[1], is_final_path_elem) {
            Ok(b) => b,
            Err(e) => {
                proof {
                    lemma_filter_fails(array_node@, j as int, segs, pattern, is_final_path_elem, indices@);
                }
                return Err(e);
            },
        };
        proof {
            lemma_filter_step(array_node@, j as int, segs, pattern, is_final_path_elem, indices@, keep);
        }
        if keep {
            indices.push(j);
        }
        j += 1;
    }
    proof {
        assert(indices@ + seq![] =~= indices@);
    }
    Ok(ArrayIndices::Indices(indices))
}

proof fn lemma_filter_step(
    items: Seq<Node>,
    j: int,
    segs: Seq<Seq<char>>,
    pattern: Seq<char>,
    is_final: bool,
    kept: Seq<usize>,
    keep: bool,
)
    requires
        0 <= j < items.len(),
        keeps_spec(items[j], segs, pattern, is_final) == Ok::<bool, Fault>(keep),
    ensures
        prepend_kept(kept, filter_from(items, j, segs, pattern, is_final)) == prepend_kept(
            if keep {
                kept.push(j as usize)
            } else {
                kept
            },
            filter_from(items, j + 1, segs, pattern, is_final),
        ),
{
    if let Ok(t) = filter_from(items, j + 1, segs, pattern, is_final) {
        if keep {
            assert(kept + (seq![j as usize] + t) =~= kept.push(j as usize) + t);
        }
    }
}

proof fn lemma_filter_fails(
    items: Seq<Node>,
    j: int,
    segs: Seq<Seq<char>>,
    pattern: Seq<char>,
    is_final: bool,
    kept: Seq<usize>,
)
    requires
        0 <= j < items.len(),
        keeps_spec(items[j], segs, pattern, is_final) is Err,
    ensures
        prepend_kept(kept, filter_from(items, j, segs, pattern, is_final)) == Err::<Seq<usize>, Fault>(
            keeps_spec(items[j], segs, pattern, is_final)->Err_0,
        ),
{
}

/// Whether the element `item` passes the child filter with sub-path
/// `parsed_path` and pattern `pattern`: see `keeps_spec`.
fn keeps(item: &Node, parsed_path: &Vec<String>, pattern: &str, is_final_path_elem: bool) -> (r: Result<
    bool,
    TraverseError,
>)
    ensures
        match keeps_spec(*item, parsed_path.deep_view(), pattern@, is_final_path_elem) {
            Ok(b) => r == Ok::<bool, TraverseError>(b),
            Err(f) => r matches Err(e) && e@ == f,
        },
    decreases *item, 3nat, 0int,
{
    if is_final_path_elem {
        return Ok(matches_pattern(convert_single_node(item).as_str(), pattern));
    }
    let mut visited: Vec<VisitedNode> = Vec::new();
    let segs = parsed_path.as_slice();
    assert(segs.deep_view() =~= parsed_path.deep_view());
    proof {
        reveal_strlit("");
    }
    let r = traverse(item, "", segs, String::new(), false, &mut visited);
    assert(views(visited@) =~= traverse_spec(*item, seq![], parsed_path.deep_view(), seq![], false).visits) by {
        assert(views(Seq::<VisitedNode>::empty()) =~= seq![]);
    }
    match r {
        Err(e) => Err(e),
        Ok(()) => {
            if visited.len() != 1 {
                return Ok(false);
            }
            assert(views(visited@)[0] == visited@[0]@);
            Ok(matches_pattern(convert_single_node(visited[0].yml).as_str(), pattern))
        },
    }
}

} // verus!