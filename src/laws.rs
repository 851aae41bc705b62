//! General properties of parsing and evaluation, proved over the
//! specifications that the functions' contracts use.

use vstd::prelude::*;

use crate::node::{unique_keys, Node};
use crate::path::{
    class_of, find_class, find_special, is_child_filter_spec, matches_spec, parse_from,
    parse_path_spec, trim_stars, PathElem,
};
use crate::path::SPLAT;
use crate::traverse::{
    array_path, array_spec, every_index, hash_from, hash_path, items_from, recurse_spec, reports,
    none, then, traverse_spec, views, visit_spec, Outcome, TraverseError, VisitedNode,
};

verus! {

/// `k` is a plain key: non-empty, free of the path syntax's special
/// characters, and neither the splat nor a prefix pattern.
pub open spec fn plain_key(k: Seq<char>) -> bool {
    &&& k.len() > 0
    &&& forall|m: int| 0 <= m < k.len() ==> class_of(#[trigger] k[m]) == PathElem::Char
    &&& k.last() != '*'
}

/// The keys `keys` joined by dots.
pub open spec fn dotted(keys: Seq<Seq<char>>) -> Seq<char>
    decreases keys.len(),
{
    if keys.len() <= 1 {
        if keys.len() == 1 {
            keys[0]
        } else {
            seq![]
        }
    } else {
        keys[0] + seq!['.'] + dotted(keys.drop_first())
    }
}

/// Entry `i` of the mapping entries `h` is the only one under `key`, and
/// every key of `h` is a string.
pub open spec fn sole_entry(h: Seq<(Node, Node)>, key: Seq<char>, i: int) -> bool {
    &&& 0 <= i < h.len()
    &&& forall|j: int| 0 <= j < h.len() ==> (#[trigger] h[j]).0 is Str
    &&& h[i].0->Str_0@ == key
    &&& forall|j: int| 0 <= j < h.len() && j != i ==> (#[trigger] h[j]).0->Str_0@ != key
}

/// Looking up `keys` one after the other, each in a mapping whose keys are
/// all strings, leads from `node` to `leaf`.
pub open spec fn holds_chain(node: Node, keys: Seq<Seq<char>>, leaf: Node) -> bool
    decreases keys.len(),
{
    if keys.len() == 0 {
        node == leaf
    } else {
        match node {
            Node::Mapping(h) => (forall|j: int| 0 <= j < h@.len() ==> (#[trigger] h@[j]).0 is Str)
                && exists|i: int|
                0 <= i < h@.len() && h@[i].0->Str_0@ == keys[0] && holds_chain(
                    #[trigger] h@[i].1,
                    keys.drop_first(),
                    leaf,
                ),
            _ => false,
        }
    }
}

/// The path reached from `p` by the keys `keys`.
pub open spec fn key_path(p: Seq<char>, keys: Seq<Seq<char>>) -> Seq<char>
    decreases keys.len(),
{
    if keys.len() == 0 {
        p
    } else {
        key_path(hash_path(p, keys[0]), keys.drop_first())
    }
}

proof fn lemma_plain_run(p: Seq<char>, i: int, j: int)
    requires
        0 <= i <= j <= p.len(),
        forall|m: int| i <= m < j ==> class_of(#[trigger] p[m]) == PathElem::Char,
    ensures
        find_special(p, i) == find_special(p, j),
    decreases j - i,
{
    if i < j {
        lemma_plain_run(p, i + 1, j);
    }
}

/// The dotted plain keys parse back into those keys.
proof fn lemma_parse_dotted(p: Seq<char>, i: int, keys: Seq<Seq<char>>)
    requires
        keys.len() >= 1,
        forall|k: int| 0 <= k < keys.len() ==> plain_key(#[trigger] keys[k]),
        0 <= i <= p.len(),
        p.subrange(i, p.len() as int) == dotted(keys),
    ensures
        parse_from(p, i) == Ok::<Seq<Seq<char>>, Seq<char>>(keys),
    decreases keys.len(),
{
    let k0 = keys[0];
    assert(plain_key(k0));
    let j = i + k0.len();
    if keys.len() == 1 {
        assert(p.subrange(i, p.len() as int) == k0);
        assert forall|m: int| i <= m < p.len() implies class_of(#[trigger] p[m]) == PathElem::Char by {
            assert(p[m] == k0[m - i]);
        }
        lemma_plain_run(p, i, p.len() as int);
        assert(seq![p.subrange(i, p.len() as int)] =~= keys);
    } else {
        let ks = keys.drop_first();
        let rest = dotted(ks);
        assert(p.subrange(i, p.len() as int) == k0 + seq!['.'] + rest);
        assert forall|m: int| i <= m < j implies class_of(#[trigger] p[m]) == PathElem::Char by {
            assert(p[m] == p.subrange(i, p.len() as int)[m - i]);
        }
        lemma_plain_run(p, i, j);
        assert(p[j] == p.subrange(i, p.len() as int)[k0.len() as int]);
        assert(p.subrange(i, j) =~= k0);
        let sub = p.subrange(i, p.len() as int);
        assert(sub.subrange(k0.len() + 1int, sub.len() as int) =~= rest);
        assert(p.subrange(j + 1, p.len() as int) =~= sub.subrange(k0.len() + 1int, sub.len() as int));
        assert forall|k: int| 0 <= k < ks.len() implies plain_key(#[trigger] ks[k]) by {
            assert(ks[k] == keys[k + 1]);
        }
        lemma_parse_dotted(p, j + 1, ks);
        assert(seq![k0] + ks =~= keys);
    }
}

/// The entries from `i` on of a mapping in which entry `idx` is the only
/// one under the plain key `key` yield what the value at `idx` yields,
/// once `i` has not passed it.
proof fn lemma_lookup_entries(
    h: Seq<(Node, Node)>,
    i: int,
    idx: int,
    key: Seq<char>,
    tail: Seq<Seq<char>>,
    p: Seq<char>,
    found: Outcome,
)
    requires
        plain_key(key),
        sole_entry(h, key, idx),
        0 <= i,
        found == traverse_spec(h[idx].1, key, tail, hash_path(p, key), false),
        found.fault is None,
    ensures
        hash_from(h, i, key, tail, p, false) == (if i <= idx {
            found
        } else {
            Outcome { visits: seq![], fault: None }
        }),
    decreases h.len() - i,
{
    reveal_strlit("**");
    assert(key != seq!['*', '*']) by {
        assert(key.last() != '*');
    }
    if i < h.len() {
        lemma_lookup_entries(h, i + 1, idx, key, tail, p, found);
        assert(h[i].0 is Str);
        let k = h[i].0->Str_0@;
        assert(k == key <==> i == idx);
        if i != idx {
            assert(!matches_spec(k, key));
            assert(key[0] != '(' && key[0] != '[') by {
                assert(class_of(key[0]) == PathElem::Char);
            }
        }
        let rest = hash_from(h, i + 1, key, tail, p, false);
        if i == idx {
            assert(found.visits + rest.visits =~= found.visits);
        } else {
            assert(seq![] + (seq![] + rest.visits) =~= rest.visits);
        }
    }
}

/// Walking down the chain `keys` from `node`, reached at `p`, yields `leaf`
/// alone, at the path the keys extend `p` to.
proof fn lemma_lookup_chain(node: Node, head: Seq<char>, keys: Seq<Seq<char>>, p: Seq<char>, leaf: Node)
    requires
        forall|k: int| 0 <= k < keys.len() ==> plain_key(#[trigger] keys[k]),
        unique_keys(node),
        holds_chain(node, keys, leaf),
        leaf.is_scalar_spec(),
        !(leaf is BadValue),
    ensures
        traverse_spec(node, head, keys, p, false) == (Outcome {
            visits: seq![(leaf, key_path(p, keys))],
            fault: None,
        }),
    decreases keys.len(),
{
    if keys.len() > 0 {
        let key = keys[0];
        let ks = keys.drop_first();
        assert(plain_key(key));
        if let Node::Mapping(h) = node {
            let idx = choose|i: int|
                0 <= i < h@.len() && h@[i].0->Str_0@ == key && holds_chain(
                    #[trigger] h@[i].1,
                    ks,
                    leaf,
                );
            assert forall|j: int| 0 <= j < h@.len() && j != idx implies (#[trigger] h@[j]).0->Str_0@
                != key by {
                assert(h@[j].0 is Str && h@[idx].0 is Str);
            }
            assert(sole_entry(h@, key, idx));
            assert(unique_keys(h@[idx].1));
            assert forall|k: int| 0 <= k < ks.len() implies plain_key(#[trigger] ks[k]) by {
                assert(ks[k] == keys[k + 1]);
            }
            lemma_lookup_chain(h@[idx].1, key, ks, hash_path(p, key), leaf);
            let found = traverse_spec(h@[idx].1, key, ks, hash_path(p, key), false);
            lemma_lookup_entries(h@, 0, idx, key, ks, p, found);
        }
    }
}

proof fn lemma_key_path_dotted(p: Seq<char>, keys: Seq<Seq<char>>)
    requires
        keys.len() >= 1,
        forall|k: int| 0 <= k < keys.len() ==> plain_key(#[trigger] keys[k]),
    ensures
        key_path(p, keys) == hash_path(p, dotted(keys)),
    decreases keys.len(),
{
    let k0 = keys[0];
    let ks = keys.drop_first();
    assert(plain_key(k0));
    assert(key_path(p, keys) == key_path(hash_path(p, k0), ks));
    if keys.len() == 1 {
        assert(key_path(hash_path(p, k0), ks) == hash_path(p, k0));
    } else {
        assert forall|k: int| 0 <= k < ks.len() implies plain_key(#[trigger] ks[k]) by {
            assert(ks[k] == keys[k + 1]);
        }
        lemma_key_path_dotted(hash_path(p, k0), ks);
        assert(hash_path(p, k0).len() > 0);
        assert(dotted(keys) == k0 + seq!['.'] + dotted(ks));
        if p.len() > 0 {
            assert(p + seq!['.'] + k0 + seq!['.'] + dotted(ks) =~= p + seq!['.'] + (k0 + seq!['.']
                + dotted(ks)));
        }
    }
}

/// Looking up a chain of plain keys: where, in a document whose mappings
/// never repeat a key, `keys` lead through mappings with only string keys to
/// a scalar `leaf`, the
/// expression that joins `keys` by dots parses back into `keys`, and walking
/// the document along them yields `leaf` alone, at that same dotted path.
pub proof fn law_key_chain_lookup(root: Node, keys: Seq<Seq<char>>, leaf: Node)
    requires
        keys.len() >= 1,
        forall|k: int| 0 <= k < keys.len() ==> plain_key(#[trigger] keys[k]),
        unique_keys(root),
        holds_chain(root, keys, leaf),
        leaf.is_scalar_spec(),
        !(leaf is BadValue),
    ensures
        parse_path_spec(dotted(keys)) == Ok::<Seq<Seq<char>>, Seq<char>>(keys),
        traverse_spec(root, seq![], keys, seq![], false) == (Outcome {
            visits: seq![(leaf, dotted(keys))],
            fault: None,
        }),
{
    let s = dotted(keys);
    assert(s.subrange(0, s.len() as int) =~= s);
    lemma_parse_dotted(s, 0, keys);
    lemma_lookup_chain(root, seq![], keys, seq![], leaf);
    lemma_key_path_dotted(seq![], keys);
}

/// Walking the same document along the same segments twice, each time into
/// an empty list, yields the same matches in the same order, and fails, if
/// it fails, with the same error.
pub proof fn law_traverse_idempotent<'a>(
    root: Node,
    segs: Seq<Seq<char>>,
    first: Seq<VisitedNode<'a>>,
    r1: Result<(), TraverseError>,
    second: Seq<VisitedNode<'a>>,
    r2: Result<(), TraverseError>,
)
    requires
        reports(seq![], first, r1, traverse_spec(root, seq![], segs, seq![], false)),
        reports(seq![], second, r2, traverse_spec(root, seq![], segs, seq![], false)),
    ensures
        views(first) == views(second),
        r1 is Ok <==> r2 is Ok,
        r1 matches Err(e1) ==> r2 matches Err(e2) && e1@ == e2@,
{
    let o = traverse_spec(root, seq![], segs, seq![], false);
    assert(views(first) =~= o.visits);
    assert(views(second) =~= o.visits);
}

/// Every mapping key in `node`, at any depth, is a string.
pub open spec fn string_keys(node: Node) -> bool
    decreases node,
{
    match node {
        Node::Mapping(h) => forall|i: int|
            0 <= i < h@.len() ==> (#[trigger] h@[i]).0 is Str && string_keys(h@[i].1),
        Node::Sequence(v) => forall|i: int| 0 <= i < v@.len() ==> string_keys(#[trigger] v@[i]),
        _ => true,
    }
}

/// The scalars at `n`, reached at path `p`, or below it, in document order,
/// each with its path; bad values are left out.
pub open spec fn scalars_from(n: Node, p: Seq<char>) -> Seq<(Node, Seq<char>)>
    decreases n, 2nat, 0int,
{
    if n.is_scalar_spec() {
        if n is BadValue {
            seq![]
        } else {
            seq![(n, p)]
        }
    } else {
        scalars_below(n, p)
    }
}

/// The scalars strictly below `n`, reached at path `p`, in document order.
pub open spec fn scalars_below(n: Node, p: Seq<char>) -> Seq<(Node, Seq<char>)>
    decreases n, 1nat, 0int,
{
    match n {
        Node::Mapping(h) => entry_scalars(h@, 0, p),
        Node::Sequence(v) => item_scalars(v@, 0, p),
        _ => seq![],
    }
}

pub open spec fn entry_scalars(h: Seq<(Node, Node)>, i: int, p: Seq<char>) -> Seq<(Node, Seq<char>)>
    decreases h, 0nat, h.len() - i,
{
    if i < 0 || i >= h.len() {
        seq![]
    } else {
        scalars_from(h[i].1, hash_path(p, h[i].0->Str_0@)) + entry_scalars(h, i + 1, p)
    }
}

pub open spec fn item_scalars(v: Seq<Node>, k: int, p: Seq<char>) -> Seq<(Node, Seq<char>)>
    decreases v, 0nat, v.len() - k,
{
    if k < 0 || k >= v.len() {
        seq![]
    } else {
        scalars_from(v[k], array_path(p, k as nat)) + item_scalars(v, k + 1, p)
    }
}

pub open spec fn found(vs: Seq<(Node, Seq<char>)>) -> Outcome {
    Outcome { visits: vs, fault: None }
}

proof fn lemma_splat_from(n: Node, p: Seq<char>)
    requires
        string_keys(n),
    ensures
        traverse_spec(n, SPLAT@, seq![], p, true) == found(scalars_from(n, p)),
    decreases n, 2nat, 0int,
{
    if !n.is_scalar_spec() {
        lemma_splat_below(n, p);
    }
}

proof fn lemma_splat_below(n: Node, p: Seq<char>)
    requires
        string_keys(n),
        !n.is_scalar_spec(),
    ensures
        recurse_spec(n, SPLAT@, seq![], p, false) == found(scalars_below(n, p)),
    decreases n, 1nat, 0int,
{
    match n {
        Node::Mapping(h) => {
            lemma_splat_entries(h@, 0, p);
        },
        Node::Sequence(v) => {
            assert(v@.len() == v.len());
            lemma_splat_items(v@, 0, p);
            let every = every_index(v@.len());
            assert(array_spec(v@, SPLAT@, seq![], p, false) == items_from(
                v@,
                every,
                0,
                SPLAT@,
                seq![],
                p,
                true,
            ));
        },
        _ => {},
    }
}

proof fn lemma_splat_entries(h: Seq<(Node, Node)>, i: int, p: Seq<char>)
    requires
        0 <= i,
        forall|j: int| 0 <= j < h.len() ==> (#[trigger] h[j]).0 is Str && string_keys(h[j].1),
    ensures
        hash_from(h, i, SPLAT@, seq![], p, false) == found(entry_scalars(h, i, p)),
    decreases h, 0nat, h.len() - i,
{
    if i < h.len() {
        assert(h[i].0 is Str && string_keys(h[i].1));
        lemma_splat_from(h[i].1, hash_path(p, h[i].0->Str_0@));
        lemma_splat_entries(h, i + 1, p);
        let here = scalars_from(h[i].1, hash_path(p, h[i].0->Str_0@));
        let rest = entry_scalars(h, i + 1, p);
        assert(seq![] + here + rest =~= here + rest);
    }
}

proof fn lemma_splat_items(v: Seq<Node>, k: int, p: Seq<char>)
    requires
        0 <= k,
        v.len() <= usize::MAX,
        forall|j: int| 0 <= j < v.len() ==> string_keys(#[trigger] v[j]),
    ensures
        items_from(v, every_index(v.len()), k, SPLAT@, seq![], p, true) == found(
            item_scalars(v, k, p),
        ),
    decreases v, 0nat, v.len() - k,
{
    if k < v.len() {
        assert(string_keys(v[k]));
        assert(every_index(v.len())[k] == k as usize);
        lemma_splat_from(v[k], array_path(p, k as nat));
        lemma_splat_items(v, k + 1, p);
    }
}

/// A trailing deep wildcard: walking a mapping or sequence whose keys are
/// all strings along the single segment `**` yields each scalar below it
/// exactly once, in document order, with its path (bad values left out),
/// and never a mapping or sequence itself.
pub proof fn law_trailing_splat_lists_scalars(node: Node, head: Seq<char>, p: Seq<char>)
    requires
        string_keys(node),
        !node.is_scalar_spec(),
    ensures
        traverse_spec(node, head, seq![SPLAT@], p, false) == found(scalars_below(node, p)),
{
    assert(seq![SPLAT@].drop_first() =~= Seq::<Seq<char>>::empty());
    lemma_splat_below(node, p);
}

/// The values under the keys of `h`, from entry `i` on, that start with
/// `pfx`, in order and each at its key; bad values are left out.
pub open spec fn prefixed_values(h: Seq<(Node, Node)>, i: int, pfx: Seq<char>) -> Seq<
    (Node, Seq<char>),
>
    decreases h.len() - i,
{
    if i < 0 || i >= h.len() {
        seq![]
    } else {
        let k = h[i].0->Str_0@;
        let v = h[i].1;
        (if pfx.is_prefix_of(k) && !(v is BadValue) {
            seq![(v, k)]
        } else {
            seq![]
        }) + prefixed_values(h, i + 1, pfx)
    }
}

proof fn lemma_prefixed_entries(h: Seq<(Node, Node)>, i: int, pfx: Seq<char>)
    requires
        0 <= i,
        forall|j: int| 0 <= j < h.len() ==> (#[trigger] h[j]).0 is Str,
        forall|m: int|
            0 <= m < pfx.len() ==> class_of(#[trigger] pfx[m]) == PathElem::Char && pfx[m] != '*',
    ensures
        hash_from(h, i, pfx.push('*'), seq![], seq![], false) == found(prefixed_values(h, i, pfx)),
    decreases h.len() - i,
{
    let pat = pfx.push('*');
    reveal_strlit("**");
    if i < h.len() {
        lemma_prefixed_entries(h, i + 1, pfx);
        assert(pat.drop_last() =~= pfx);
        assert(trim_stars(pfx) == pfx) by {
            if pfx.len() > 0 {
                assert(pfx.last() == pfx[pfx.len() - 1]);
            }
        }
        assert(pat.last() == '*');
        assert(trim_stars(pat) == trim_stars(pat.drop_last()));
        assert(pat != seq!['*', '*']) by {
            if pfx.len() == 1 {
                assert(pat[0] == pfx[0]);
            } else if pfx.len() != 1 {
                assert(pat.len() != 2);
            }
        }
        assert(!is_child_filter_spec(pat)) by {
            if pfx.len() > 0 {
                assert(pat[0] == pfx[0]);
            }
        }
        let k = h[i].0->Str_0@;
        let v = h[i].1;
        let here = if matches_spec(k, pat) {
            traverse_spec(v, pat, seq![], k, false)
        } else {
            none()
        };
        assert(hash_path(seq![], k) == k);
        assert(hash_from(h, i, pat, seq![], seq![], false) == then(
            then(none(), here),
            hash_from(h, i + 1, pat, seq![], seq![], false),
        ));
        assert(traverse_spec(v, pat, seq![], k, false) == visit_spec(v, seq![], k));
        assert(matches_spec(k, pat) == pfx.is_prefix_of(k)) by {
            if k == pat {
                assert(k.subrange(0, pfx.len() as int) =~= pfx);
            }
        }
        let rest = prefixed_values(h, i + 1, pfx);
        assert(seq![] + (seq![] + rest) =~= rest);
        assert(seq![] + (seq![(h[i].1, k)] + rest) =~= seq![(h[i].1, k)] + rest);
    }
}

/// A prefix pattern: on a mapping whose keys are all strings, the single
/// segment `pfx*`, with `pfx` free of the path syntax's special characters
/// and of `*`, selects the values of exactly the keys that start with `pfx`,
/// in the mapping's order, each at its key (bad values left out).
pub proof fn law_prefix_pattern_selects(root: Node, pfx: Seq<char>)
    requires
        root is Mapping,
        forall|j: int|
            0 <= j < root->Mapping_0@.len() ==> (#[trigger] root->Mapping_0@[j]).0 is Str,
        forall|m: int|
            0 <= m < pfx.len() ==> class_of(#[trigger] pfx[m]) == PathElem::Char && pfx[m] != '*',
    ensures
        traverse_spec(root, seq![], seq![pfx.push('*')], seq![], false) == found(
            prefixed_values(root->Mapping_0@, 0, pfx),
        ),
{
    assert(seq![pfx.push('*')].drop_first() =~= Seq::<Seq<char>>::empty());
    lemma_prefixed_entries(root->Mapping_0@, 0, pfx);
}

/// The keys `keys`, each in double quotes, joined by dots.
pub open spec fn quoted(keys: Seq<Seq<char>>) -> Seq<char>
    decreases keys.len(),
{
    if keys.len() == 0 {
        seq![]
    } else if keys.len() == 1 {
        seq!['"'] + keys[0] + seq!['"']
    } else {
        seq!['"'] + keys[0] + seq!['"', '.'] + quoted(keys.drop_first())
    }
}

proof fn lemma_no_quote_run(p: Seq<char>, i: int, j: int)
    requires
        0 <= i <= j <= p.len(),
        forall|m: int| i <= m < j ==> #[trigger] p[m] != '"',
    ensures
        find_class(p, i, PathElem::Quote) == find_class(p, j, PathElem::Quote),
    decreases j - i,
{
    if i < j {
        lemma_no_quote_run(p, i + 1, j);
    }
}

proof fn lemma_parse_quoted(p: Seq<char>, i: int, keys: Seq<Seq<char>>)
    requires
        keys.len() >= 1,
        forall|k: int, m: int|
            0 <= k < keys.len() && 0 <= m < keys[k].len() ==> #[trigger] keys[k][m] != '"',
        0 <= i <= p.len(),
        p.subrange(i, p.len() as int) == quoted(keys),
    ensures
        parse_from(p, i) == Ok::<Seq<Seq<char>>, Seq<char>>(keys),
    decreases keys.len(),
{
    let k0 = keys[0];
    let sub = p.subrange(i, p.len() as int);
    let e = i + 1 + k0.len();
    let t = if keys.len() == 1 {
        seq!['"']
    } else {
        seq!['"', '.'] + quoted(keys.drop_first())
    };
    assert(sub =~= seq!['"'] + k0 + t);
    assert(sub.len() >= k0.len() + 2);
    assert(sub.len() == p.len() - i);
    assert(sub[0] == '"');
    assert(p[i] == sub[0]);
    assert(find_special(p, i) == Some(i));
    assert forall|m: int| i + 1 <= m < e implies #[trigger] p[m] != '"' by {
        assert(p[m] == sub[m - i]);
        assert(sub[m - i] == k0[m - i - 1]);
        assert(keys[0][m - i - 1] != '"');
    }
    lemma_no_quote_run(p, i + 1, e);
    assert(p[e] == sub[1int + k0.len()]);
    assert forall|m: int| 0 <= m < k0.len() implies p.subrange(i + 1, e)[m] == k0[m] by {
        assert(p.subrange(i + 1, e)[m] == p[i + 1 + m]);
        assert(p[i + 1 + m] == sub[1 + m]);
    }
    assert(p.subrange(i + 1, e) =~= k0);
    assert(class_of(p[i]) == PathElem::Quote);
    assert(find_class(p, e, PathElem::Quote) == Some(e));
    let after = parse_from(p, e + 1);
    assert(parse_from(p, i) == (match after {
        Ok(segs) => Ok(seq![p.subrange(i + 1, e)] + segs),
        Err(m) => Err(m),
    }));
    if keys.len() == 1 {
        assert(p.len() == e + 1);
        assert(after == Ok::<Seq<Seq<char>>, Seq<char>>(seq![]));
        assert(seq![k0] + seq![] =~= keys);
    } else {
        let ks = keys.drop_first();
        assert(p[e + 1] == sub[2int + k0.len()]);
        assert(find_special(p, e + 1) == Some(e + 1));
        assert(sub.subrange(k0.len() + 3int, sub.len() as int) =~= quoted(ks));
        assert(p.subrange(e + 2, p.len() as int) =~= sub.subrange(k0.len() + 3int, sub.len() as int));
        assert forall|k: int, m: int| 0 <= k < ks.len() && 0 <= m < ks[k].len() implies #[trigger] ks[k][m]
            != '"' by {
            assert(ks[k] == keys[k + 1]);
        }
        lemma_parse_quoted(p, e + 2, ks);
        assert(class_of(p[e + 1]) == PathElem::Dot);
        assert(after == parse_from(p, e + 2));
        assert(seq![k0] + ks =~= keys);
    }
}

/// Quoting: keys free of `"`, each put in double quotes and joined by dots,
/// parse back into exactly those keys, whatever else they hold (dots,
/// brackets, parentheses included).
pub proof fn law_quoted_keys_round_trip(keys: Seq<Seq<char>>)
    requires
        keys.len() >= 1,
        forall|k: int, m: int|
            0 <= k < keys.len() && 0 <= m < keys[k].len() ==> #[trigger] keys[k][m] != '"',
    ensures
        parse_path_spec(quoted(keys)) == Ok::<Seq<Seq<char>>, Seq<char>>(keys),
{
    let s = quoted(keys);
    assert(s.subrange(0, s.len() as int) =~= s);
    lemma_parse_quoted(s, 0, keys);
}

/// Outside a deep search the segment that reached a node plays no part.
proof fn lemma_head_unused(n: Node, h1: Seq<char>, h2: Seq<char>, tail: Seq<Seq<char>>, p: Seq<char>)
    ensures
        traverse_spec(n, h1, tail, p, false) == traverse_spec(n, h2, tail, p, false),
{
}

/// Walking down the chain `keys` from `node` and then along `rest` yields
/// what walking `rest` from the chain's end yields, where that walk does not
/// fail.
proof fn lemma_chain_then(
    node: Node,
    head: Seq<char>,
    keys: Seq<Seq<char>>,
    rest: Seq<Seq<char>>,
    p: Seq<char>,
    target: Node,
)
    requires
        forall|k: int| 0 <= k < keys.len() ==> plain_key(#[trigger] keys[k]),
        unique_keys(node),
        holds_chain(node, keys, target),
        traverse_spec(target, head, rest, key_path(p, keys), false).fault is None,
    ensures
        traverse_spec(node, head, keys + rest, p, false) == traverse_spec(
            target,
            head,
            rest,
            key_path(p, keys),
            false,
        ),
    decreases keys.len(),
{
    if keys.len() == 0 {
        assert(keys + rest =~= rest);
    } else {
        let key = keys[0];
        let ks = keys.drop_first();
        assert(plain_key(key));
        assert((keys + rest)[0] == key);
        assert((keys + rest).drop_first() =~= ks + rest);
        if let Node::Mapping(h) = node {
            let idx = choose|i: int|
                0 <= i < h@.len() && h@[i].0->Str_0@ == key && holds_chain(
                    #[trigger] h@[i].1,
                    ks,
                    target,
                );
            assert forall|j: int| 0 <= j < h@.len() && j != idx implies (#[trigger] h@[j]).0->Str_0@
                != key by {
                assert(h@[j].0 is Str && h@[idx].0 is Str);
            }
            assert(sole_entry(h@, key, idx));
            assert(unique_keys(h@[idx].1));
            assert forall|k: int| 0 <= k < ks.len() implies plain_key(#[trigger] ks[k]) by {
                assert(ks[k] == keys[k + 1]);
            }
            let q = hash_path(p, key);
            lemma_head_unused(target, head, key, rest, key_path(q, ks));
            lemma_chain_then(h@[idx].1, key, ks, rest, q, target);
            let reached = traverse_spec(h@[idx].1, key, ks + rest, q, false);
            lemma_lookup_entries(h@, 0, idx, key, ks + rest, p, reached);
        }
    }
}

/// A deep wildcard after a chain of plain keys: where, in a document whose
/// mappings never repeat a key, `keys` (possibly none) lead through mappings
/// with only string keys to a mapping or sequence `target` whose keys are
/// all strings, the segments `keys` then `**` yield each scalar below
/// `target` exactly once, in document order, each at its path below the
/// chain's path (bad values left out), and never a mapping or sequence.
pub proof fn law_splat_after_keys(root: Node, keys: Seq<Seq<char>>, target: Node)
    requires
        forall|k: int| 0 <= k < keys.len() ==> plain_key(#[trigger] keys[k]),
        unique_keys(root),
        holds_chain(root, keys, target),
        string_keys(target),
        !target.is_scalar_spec(),
    ensures
        traverse_spec(root, seq![], keys.push(SPLAT@), seq![], false) == found(
            scalars_below(target, key_path(seq![], keys)),
        ),
{
    let kp = key_path(seq![], keys);
    law_trailing_splat_lists_scalars(target, seq![], kp);
    lemma_chain_then(root, seq![], keys, seq![SPLAT@], seq![], target);
    assert(keys + seq![SPLAT@] =~= keys.push(SPLAT@));
}

} // verus!
