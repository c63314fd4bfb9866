//! The insertion engine: merging one template segment at a time into the trie.
use vstd::prelude::*;
use crate::route_node::{
    parameter_children, Label, RouteNode, Shape, after, node_label, children_ok, has_route, has_route_from, lemma_has_route_unfold,
    lemma_key_order, lemma_segment_shape_split, lemma_starts_with_concat, node_less, node_shape,
    segment_shape, shape_from, starts_with,
};
use crate::route_node_parse::{clone_strings, copy_range};
use crate::string::{chars_of, common_prefix_len, find_common_prefix_length, lemma_common_prefix_len};
use crate::route_node_stringify::{Segment, parameter_count, segments_view};
use crate::route_node_parse::{captured, consume, match_children, match_node};
use crate::template::{pair_view, pairs_spec, parse_template_pairs, placeholder_literals_of, placeholder_names_of, views_of};
use vstd::string::StringExecFns;

verus! {

/// Why a route could not be inserted.
#[derive(Debug, PartialEq, Eq, Structural, Clone, Copy)]
pub enum RouteError {
    /// Another route already ends at exactly the same place in the trie.
    AmbiguousRoute,
}

/// An existing child `c` can take a new segment (`anchor`, `has_parameter`): it is
/// of the same kind and its anchor shares the segment's first character (or equals
/// the segment's anchor).
pub open spec fn compatible(c: RouteNode, anchor: Seq<char>, has_parameter: bool) -> bool {
    c.has_parameter == has_parameter && (common_prefix_len(c.anchor@, anchor) > 0 || c.anchor@
        == anchor)
}

/// `n` has the given key and no route or children.
pub open spec fn is_bare(n: RouteNode, anchor: Seq<char>, has_parameter: bool) -> bool {
    &&& n.anchor@ == anchor
    &&& n.has_parameter == has_parameter
    &&& n.route_name is None
    &&& n.route_parameter_names@.len() == 0
    &&& n.children@.len() == 0
}

/// A fresh node with the given key and nothing below it.
fn bare_node(anchor: Vec<char>, has_parameter: bool) -> (r: RouteNode)
    ensures
        is_bare(r, anchor@, has_parameter),
        r.wf(),
{
    let r = RouteNode {
        route_name: None,
        route_parameter_names: Vec::new(),
        anchor,
        has_parameter,
        children: Vec::new(),
    };
    assert(r.wf());
    r
}

/// `x` could join the siblings `s` without breaking their conditions.
pub open spec fn fits_among(s: Seq<RouteNode>, x: RouteNode) -> bool {
    forall|i: int|
        0 <= i < s.len() ==> {
            &&& (x.has_parameter == (#[trigger] s[i]).has_parameter && x.anchor@.len() > 0
                && s[i].anchor@.len() > 0 ==> x.anchor@[0] != s[i].anchor@[0])
            &&& (x.anchor@, x.has_parameter) != (s[i].anchor@, s[i].has_parameter)
        }
}

/// Siblings keep their conditions when one is removed.
proof fn lemma_children_ok_remove(s: Seq<RouteNode>, k: int)
    requires
        children_ok(s),
        0 <= k < s.len(),
    ensures
        children_ok(s.remove(k)),
        fits_among(s.remove(k), s[k]),
{
    let t = s.remove(k);
    assert forall|i: int, j: int| 0 <= i < j < t.len() implies node_less(#[trigger] t[i], #[trigger] t[j]) by {
        let a = if i < k { i } else { i + 1 };
        let b = if j < k { j } else { j + 1 };
        assert(node_less(s[a], s[b]));
    }
    assert forall|i: int, j: int|
        0 <= i < t.len() && 0 <= j < t.len() && (#[trigger] t[i]).has_parameter
            == (#[trigger] t[j]).has_parameter && t[i].anchor@.len() > 0 && t[j].anchor@.len()
            > 0 && t[i].anchor@[0] == t[j].anchor@[0] implies i == j by {
        let a = if i < k { i } else { i + 1 };
        let b = if j < k { j } else { j + 1 };
        assert(s[a].has_parameter == s[b].has_parameter);
    }
    assert forall|i: int| 0 <= i < t.len() implies {
        &&& (s[k].has_parameter == (#[trigger] t[i]).has_parameter && s[k].anchor@.len() > 0
            && t[i].anchor@.len() > 0 ==> s[k].anchor@[0] != t[i].anchor@[0])
        &&& (s[k].anchor@, s[k].has_parameter) != (t[i].anchor@, t[i].has_parameter)
    } by {
        let a = if i < k { i } else { i + 1 };
        assert(t[i] == s[a]);
        if a < k {
            assert(node_less(s[a], s[k]));
        } else {
            assert(node_less(s[k], s[a]));
        }
        lemma_key_order(s[k].anchor@, s[k].has_parameter, s[a].anchor@, s[a].has_parameter, s[a].anchor@, s[a].has_parameter);
    }
}

/// Siblings keep their conditions when one is replaced by a node with the same key.
proof fn lemma_children_ok_same_key(s: Seq<RouteNode>, k: int, c: RouteNode)
    requires
        children_ok(s),
        0 <= k < s.len(),
        c.anchor@ == s[k].anchor@,
        c.has_parameter == s[k].has_parameter,
    ensures
        children_ok(s.update(k, c)),
{
    let t = s.update(k, c);
    assert forall|i: int, j: int| 0 <= i < j < t.len() implies node_less(#[trigger] t[i], #[trigger] t[j]) by {
        assert(node_less(s[i], s[j]));
    }
    assert forall|i: int, j: int|
        0 <= i < t.len() && 0 <= j < t.len() && (#[trigger] t[i]).has_parameter
            == (#[trigger] t[j]).has_parameter && t[i].anchor@.len() > 0 && t[j].anchor@.len()
            > 0 && t[i].anchor@[0] == t[j].anchor@[0] implies i == j by {
        assert(s[i].has_parameter == s[j].has_parameter);
    }
}

/// Seen from `before`, `after` keeps every route. When `r` is `Err` (another route
/// name already had shape `s`) it holds no other; when `r` is `Ok` it also holds a
/// route of shape `s` under `name`'s name: the one it had already, with its parameter
/// names kept, or else the new route `name`.
pub open spec fn route_added(before: RouteNode, after: RouteNode, s: Shape, name: Label, r: Result<(), RouteError>) -> bool {
    &&& forall|t: Shape, nm: Label|
        #[trigger] has_route_from(before, t, nm) ==> has_route_from(after, t, nm)
    &&& forall|t: Shape, nm: Label|
        #[trigger] has_route_from(after, t, nm) ==> has_route_from(before, t, nm) || (r is Ok && t
            == s && nm == name)
    &&& r is Ok ==> exists|ps: Seq<Seq<char>>| #[trigger] has_route_from(after, s, (name.0, ps))
    &&& r is Err ==> exists|o: Label| o.0 != name.0 && #[trigger] has_route_from(before, s, o)
}

/// The same as `route_added`, for the routes of the subtrees themselves.
pub open spec fn subtree_route_added(before: RouteNode, after: RouteNode, s: Shape, name: Label, r: Result<(), RouteError>) -> bool {
    &&& forall|t: Shape, nm: Label|
        #[trigger] has_route(before, t, nm) ==> has_route(after, t, nm)
    &&& forall|t: Shape, nm: Label|
        #[trigger] has_route(after, t, nm) ==> has_route(before, t, nm) || (r is Ok && t == s
            && nm == name)
    &&& r is Ok ==> exists|ps: Seq<Seq<char>>| #[trigger] has_route(after, s, (name.0, ps))
    &&& r is Err ==> exists|o: Label| o.0 != name.0 && #[trigger] has_route(before, s, o)
}

/// A shape that starts with `a` is `a` followed by the rest.
proof fn lemma_starts_after(t: Shape, a: Shape)
    requires
        starts_with(t, a),
    ensures
        t == a + after(t, a.len() as int),
{
    assert(t =~= t.subrange(0, a.len() as int) + after(t, a.len() as int));
}

/// The rest of `a + s` after `a` is `s`.
pub proof fn lemma_after_concat(a: Shape, s: Shape)
    ensures
        starts_with(a + s, a),
        after(a + s, a.len() as int) == s,
{
    assert((a + s).subrange(0, a.len() as int) =~= a);
    assert(after(a + s, a.len() as int) =~= s);
}

/// Route changes seen from a node carry over to its subtree, whose routes all start
/// with the node's own shape.
proof fn lemma_lift(before: RouteNode, after_node: RouteNode, s: Shape, name: Label, r: Result<(), RouteError>)
    requires
        route_added(before, after_node, s, name, r),
        node_shape(before) == node_shape(after_node),
    ensures
        subtree_route_added(before, after_node, node_shape(before) + s, name, r),
{
    let ns = node_shape(before);
    assert forall|t: Shape, nm: Label| #[trigger] has_route(before, t, nm) implies has_route(after_node, t, nm) by {
        lemma_has_route_unfold(before, t, nm);
        lemma_has_route_unfold(after_node, t, nm);
        let u = after(t, ns.len() as int);
        assert(has_route_from(before, u, nm));
        if !has_route_from(after_node, u, nm) {
            lemma_starts_after(t, ns);
        }
    }
    assert forall|t: Shape, nm: Label| #[trigger] has_route(after_node, t, nm) implies has_route(before, t, nm) || (r is Ok && t == ns + s && nm == name) by {
        lemma_has_route_unfold(before, t, nm);
        lemma_has_route_unfold(after_node, t, nm);
        let u = after(t, ns.len() as int);
        assert(has_route_from(after_node, u, nm));
        if !has_route_from(before, u, nm) {
            lemma_starts_after(t, ns);
        }
    }
    lemma_after_concat(ns, s);
    if r is Ok {
        let ps = choose|ps: Seq<Seq<char>>| #[trigger] has_route_from(after_node, s, (name.0, ps));
        lemma_has_route_unfold(after_node, ns + s, (name.0, ps));
    }
    if r is Err {
        let o = choose|o: Label| o.0 != name.0 && #[trigger] has_route_from(before, s, o);
        lemma_has_route_unfold(before, ns + s, o);
    }
}

/// Nodes with the same routes can stand for each other before a change.
proof fn lemma_same_routes(a: RouteNode, b: RouteNode, c: RouteNode, s: Shape, name: Label, r: Result<(), RouteError>)
    requires
        forall|t: Shape, nm: Label| has_route(a, t, nm) == has_route(b, t, nm),
        subtree_route_added(b, c, s, name, r),
    ensures
        subtree_route_added(a, c, s, name, r),
{
    if r is Err {
        let o = choose|o: Label| o.0 != name.0 && #[trigger] has_route(b, s, o);
        assert(has_route(a, s, o));
    }
}

/// Replacing child `k` of `before` by `x`, placed at `p`, changes the routes below
/// `before` as `x` changes those of the child.
proof fn lemma_replace_child(before: RouteNode, after_node: RouteNode, k: int, p: int, x: RouteNode, s: Shape, name: Label, r: Result<(), RouteError>)
    requires
        0 <= k < before.children@.len(),
        0 <= p <= before.children@.len() - 1,
        after_node.children@ == before.children@.remove(k).insert(p, x),
        node_label(after_node) == node_label(before),
        subtree_route_added(before.children@[k], x, s, name, r),
    ensures
        route_added(before, after_node, s, name, r),
{
    let sb = before.children@;
    let sa = after_node.children@;
    let c = sb[k];
    // position in `sa` of the old child `i` (other than `k`)
    assert forall|t: Shape, nm: Label| #[trigger] has_route_from(before, t, nm) implies has_route_from(after_node, t, nm) by {
        if !(t.len() == 0 && node_label(before) == Some(nm)) {
            let i = choose|i: int| 0 <= i < sb.len() && has_route(#[trigger] sb[i], t, nm);
            if i == k {
                assert(has_route(sa[p], t, nm));
            } else {
                let j = if i < k { i } else { i - 1 };
                let j2 = if j < p { j } else { j + 1 };
                assert(sa[j2] == sb[i]);
                assert(has_route(sa[j2], t, nm));
            }
        }
    }
    assert forall|t: Shape, nm: Label| #[trigger] has_route_from(after_node, t, nm) implies has_route_from(before, t, nm) || (r is Ok && t == s && nm == name) by {
        if !(t.len() == 0 && node_label(after_node) == Some(nm)) {
            let i = choose|i: int| 0 <= i < sa.len() && has_route(#[trigger] sa[i], t, nm);
            if i == p {
                if !(r is Ok && t == s && nm == name) {
                    assert(has_route(sb[k], t, nm));
                }
            } else {
                let j = if i < p { i } else { i - 1 };
                let j2 = if j < k { j } else { j + 1 };
                assert(sb[j2] == sa[i]);
                assert(has_route(sb[j2], t, nm));
            }
        }
    }
    if r is Ok {
        let ps = choose|ps: Seq<Seq<char>>| #[trigger] has_route(x, s, (name.0, ps));
        assert(has_route(sa[p], s, (name.0, ps)));
        assert(has_route_from(after_node, s, (name.0, ps)));
    }
    if r is Err {
        let o = choose|o: Label| o.0 != name.0 && #[trigger] has_route(c, s, o);
        assert(has_route(sb[k], s, o));
        assert(has_route_from(before, s, o));
    }
}

/// Adding child `x` at `p` to `before`, when `x` holds route `name` of shape `s`
/// and nothing else, adds that route below `before`.
proof fn lemma_add_child(before: RouteNode, after_node: RouteNode, p: int, x: RouteNode, s: Shape, name: Label)
    requires
        0 <= p <= before.children@.len(),
        after_node.children@ == before.children@.insert(p, x),
        node_label(after_node) == node_label(before),
        forall|t: Shape, nm: Label| #[trigger] has_route(x, t, nm) ==> t == s && nm == name,
        has_route(x, s, name),
    ensures
        route_added(before, after_node, s, name, Ok(())),
{
    let sb = before.children@;
    let sa = after_node.children@;
    assert forall|t: Shape, nm: Label| #[trigger] has_route_from(before, t, nm) implies has_route_from(after_node, t, nm) by {
        if !(t.len() == 0 && node_label(before) == Some(nm)) {
            let i = choose|i: int| 0 <= i < sb.len() && has_route(#[trigger] sb[i], t, nm);
            let j = if i < p { i } else { i + 1 };
            assert(sa[j] == sb[i]);
            assert(has_route(sa[j], t, nm));
        }
    }
    assert forall|t: Shape, nm: Label| #[trigger] has_route_from(after_node, t, nm) implies has_route_from(before, t, nm) || (t == s && nm == name) by {
        if !(t.len() == 0 && node_label(after_node) == Some(nm)) {
            let i = choose|i: int| 0 <= i < sa.len() && has_route(#[trigger] sa[i], t, nm);
            if i != p {
                let j = if i < p { i } else { i - 1 };
                assert(sb[j] == sa[i]);
                assert(has_route(sb[j], t, nm));
            }
        }
    }
    assert(has_route(sa[p], s, name));
    assert(has_route_from(after_node, s, (name.0, name.1)));
}

/// A node built fresh (no route, no children) holds exactly the one route that was
/// added to it.
proof fn lemma_fresh_routes(m0: RouteNode, m: RouteNode, s: Shape, name: Label, r: Result<(), RouteError>)
    requires
        m0.route_name is None,
        m0.children@.len() == 0,
        route_added(m0, m, s, name, r),
        node_shape(m0) == node_shape(m),
    ensures
        r is Ok,
        forall|t: Shape, nm: Label| #[trigger] has_route(m, t, nm) ==> t == node_shape(m) + s && nm == name,
        has_route(m, node_shape(m) + s, name),
{
    let ns = node_shape(m);
    if r is Err {
        let o = choose|o: Label| o.0 != name.0 && #[trigger] has_route_from(m0, s, o);
    }
    assert forall|t: Shape, nm: Label| #[trigger] has_route(m, t, nm) implies t == ns + s && nm == name by {
        lemma_has_route_unfold(m, t, nm);
        let u = after(t, ns.len() as int);
        assert(has_route_from(m, u, nm));
        assert(!has_route_from(m0, u, nm));
        lemma_starts_after(t, ns);
    }
    lemma_after_concat(ns, s);
    lemma_has_route_unfold(m, ns + s, name);
}

/// A node cut to the rest of its anchor (after `c` characters) below a new node that
/// holds the first `c` characters keeps the routes it had.
proof fn lemma_cut_routes(c0: RouteNode, cut: RouteNode, prefix: Seq<char>, c: int, t: Shape, nm: Label)
    requires
        0 <= c <= c0.anchor@.len(),
        cut.children == c0.children,
        node_label(cut) == node_label(c0),
        !cut.has_parameter,
        cut.anchor@ == c0.anchor@.subrange(c, c0.anchor@.len() as int),
        prefix == c0.anchor@.subrange(0, c),
    ensures
        (starts_with(t, segment_shape(prefix, c0.has_parameter)) && has_route(
            cut,
            after(t, segment_shape(prefix, c0.has_parameter).len() as int),
            nm,
        )) <==> has_route(c0, t, nm),
{
    let a = segment_shape(prefix, c0.has_parameter);
    let b = node_shape(cut);
    lemma_segment_shape_split(c0.anchor@, c0.has_parameter, c);
    assert(node_shape(c0) == a + b);
    lemma_starts_with_concat(t, a, b);
    lemma_has_route_unfold(c0, t, nm);
    lemma_has_route_unfold(cut, after(t, a.len() as int), nm);
    assert forall|x: Shape| has_route_from(cut, x, nm) == has_route_from(c0, x, nm) by {
    }
}

/// A new node with the first `c` characters of a child's anchor, with the cut child
/// as its only child, holds the same routes as the child did.
proof fn lemma_regraft(c0: RouteNode, n0: RouteNode, cut: RouteNode, c: int)
    requires
        0 <= c <= c0.anchor@.len(),
        cut.children == c0.children,
        node_label(cut) == node_label(c0),
        !cut.has_parameter,
        cut.anchor@ == c0.anchor@.subrange(c, c0.anchor@.len() as int),
        n0.anchor@ == c0.anchor@.subrange(0, c),
        n0.has_parameter == c0.has_parameter,
        n0.route_name is None,
        n0.children@ == seq![cut],
    ensures
        forall|t: Shape, nm: Label| has_route(n0, t, nm) == has_route(c0, t, nm),
{
    assert forall|t: Shape, nm: Label| has_route(n0, t, nm) == has_route(c0, t, nm) by {
        let a = node_shape(n0);
        lemma_cut_routes(c0, cut, n0.anchor@, c, t, nm);
        lemma_has_route_unfold(n0, t, nm);
        let u = after(t, a.len() as int);
        if has_route(cut, u, nm) {
            assert(n0.children@[0] == cut);
        }
    }
}

/// An intermediate node with the first `c` characters of a child's anchor, over the
/// cut child and a fresh node that holds route `name` of shape `s` alone, holds the
/// child's routes and that one.
proof fn lemma_intermediate_routes(c0: RouteNode, i0: RouteNode, cut: RouteNode, m: RouteNode, c: int, s: Shape, name: Label)
    requires
        0 <= c <= c0.anchor@.len(),
        cut.children == c0.children,
        node_label(cut) == node_label(c0),
        !cut.has_parameter,
        cut.anchor@ == c0.anchor@.subrange(c, c0.anchor@.len() as int),
        i0.anchor@ == c0.anchor@.subrange(0, c),
        i0.has_parameter == c0.has_parameter,
        i0.route_name is None,
        i0.children@ == seq![cut, m] || i0.children@ == seq![m, cut],
        forall|t: Shape, nm: Label| #[trigger] has_route(m, t, nm) ==> t == s && nm == name,
        has_route(m, s, name),
    ensures
        subtree_route_added(c0, i0, node_shape(i0) + s, name, Ok(())),
{
    let a = node_shape(i0);
    let (ci, mi) = if i0.children@ == seq![cut, m] {
        (0int, 1int)
    } else {
        (1int, 0int)
    };
    assert(i0.children@[ci] == cut && i0.children@[mi] == m);
    assert forall|t: Shape, nm: Label| #[trigger] has_route(c0, t, nm) implies has_route(i0, t, nm) by {
        lemma_cut_routes(c0, cut, i0.anchor@, c, t, nm);
        lemma_has_route_unfold(i0, t, nm);
        assert(has_route(i0.children@[ci], after(t, a.len() as int), nm));
    }
    assert forall|t: Shape, nm: Label| #[trigger] has_route(i0, t, nm) implies has_route(c0, t, nm) || (t == a + s && nm == name) by {
        lemma_cut_routes(c0, cut, i0.anchor@, c, t, nm);
        lemma_has_route_unfold(i0, t, nm);
        let u = after(t, a.len() as int);
        let j = choose|j: int| 0 <= j < i0.children@.len() && has_route(#[trigger] i0.children@[j], u, nm);
        if j == mi {
            lemma_starts_after(t, a);
        }
    }
    lemma_after_concat(a, s);
    lemma_has_route_unfold(i0, a + s, name);
    assert(has_route(i0.children@[mi], after(a + s, a.len() as int), name));
    assert(has_route(i0, a + s, (name.0, name.1)));
}

/// The place of `x` among sorted siblings `s` (searching from `i`): before the first
/// sibling that it precedes.
pub open spec fn sorted_place(s: Seq<RouteNode>, x: RouteNode, i: int) -> int
    decreases s.len() - i,
{
    if i < 0 || i >= s.len() {
        s.len() as int
    } else if node_less(x, s[i]) {
        i
    } else {
        sorted_place(s, x, i + 1)
    }
}

/// The siblings `s` with `x` inserted at its place.
pub open spec fn placed(s: Seq<RouteNode>, x: RouteNode) -> Seq<RouteNode> {
    s.insert(sorted_place(s, x, 0), x)
}

/// The first sibling in `s` (searching from `i`) that can take the segment.
pub open spec fn first_compatible(s: Seq<RouteNode>, anchor: Seq<char>, has_parameter: bool, i: int) -> Option<int>
    decreases s.len() - i,
{
    if i < 0 || i >= s.len() {
        None
    } else if compatible(s[i], anchor, has_parameter) {
        Some(i)
    } else {
        first_compatible(s, anchor, has_parameter, i + 1)
    }
}

proof fn lemma_first_compatible(s: Seq<RouteNode>, anchor: Seq<char>, has_parameter: bool, k: int, i: int)
    requires
        0 <= i <= k <= s.len(),
        k < s.len() ==> compatible(s[k], anchor, has_parameter),
        forall|j: int| 0 <= j < k ==> !compatible(#[trigger] s[j], anchor, has_parameter),
    ensures
        first_compatible(s, anchor, has_parameter, i) == if k < s.len() { Some(k) } else { None },
    decreases k - i,
{
    if i < k {
        lemma_first_compatible(s, anchor, has_parameter, k, i + 1);
    }
}

/// `cut` is `c` with its first `n` anchor characters (and any parameter) taken off.
pub open spec fn cut_from(c: RouteNode, cut: RouteNode, n: int) -> bool {
    &&& cut.anchor@ == c.anchor@.subrange(n, c.anchor@.len() as int)
    &&& !cut.has_parameter
    &&& cut.route_name == c.route_name
    &&& cut.route_parameter_names == c.route_parameter_names
    &&& cut.children == c.children
}

/// `after` is `before` marked as the end of route `label`: unchanged when it already
/// ends a route (an error when that route has another name), else carrying `label`.
pub open spec fn marked(before: RouteNode, after: RouteNode, label: Label, r: Result<(), RouteError>) -> bool {
    match before.route_name {
        Some(n) => after == before && r == (if n@ == label.0 {
            Ok(())
        } else {
            Err(RouteError::AmbiguousRoute)
        }),
        None => {
            &&& after.anchor == before.anchor
            &&& after.has_parameter == before.has_parameter
            &&& after.children == before.children
            &&& node_label(after) == Some(label)
            &&& r == Ok::<(), RouteError>(())
        },
    }
}

/// `after` is `before` with the segments of `segs` from `index` on walked in below
/// it and the last node reached marked with `label`, with outcome `r`.
pub open spec fn walked(before: RouteNode, after: RouteNode, segs: Seq<Segment>, index: int, label: Label, r: Result<(), RouteError>) -> bool
    decreases segs.len() - index, 0int,
{
    if index < 0 || index >= segs.len() {
        marked(before, after, label, r)
    } else {
        merged(before, after, segs[index].0, segs[index].1, segs, index + 1, label, r)
    }
}

/// `after` is `before` with a fresh child for the segment (`anchor`,
/// `has_parameter`), below which the segments of `segs` from `next` on are walked.
pub open spec fn grown(before: RouteNode, after: RouteNode, anchor: Seq<char>, has_parameter: bool, segs: Seq<Segment>, next: int, label: Label, r: Result<(), RouteError>) -> bool
    decreases segs.len() - next, 2 * anchor.len() + 1,
{
    exists|x0: RouteNode, x: RouteNode|
        #![trigger is_bare(x0, anchor, has_parameter), placed(before.children@, x)]
        is_bare(x0, anchor, has_parameter) && walked(x0, x, segs, next, label, r) && after.children@
            == placed(before.children@, x)
}

/// `after` is `before` with the segment (`anchor`, `has_parameter`) merged into its
/// children as the insertion engine does it (a new child; a join; the rest of the
/// segment below a child whose anchor is a proper prefix; a new node over a child
/// whose anchor it prefixes; or an intermediate node over both), and the segments of
/// `segs` from `next` on walked in below the node reached, with outcome `r`.
pub open spec fn merged(before: RouteNode, after: RouteNode, anchor: Seq<char>, has_parameter: bool, segs: Seq<Segment>, next: int, label: Label, r: Result<(), RouteError>) -> bool
    decreases segs.len() - next, 2 * anchor.len() + 2,
{
    let s = before.children@;
    &&& after.anchor == before.anchor
    &&& after.has_parameter == before.has_parameter
    &&& after.route_name == before.route_name
    &&& after.route_parameter_names == before.route_parameter_names
    &&& match first_compatible(s, anchor, has_parameter, 0) {
        None => grown(before, after, anchor, has_parameter, segs, next, label, r),
        Some(k) => {
            let c = s[k];
            let n = common_prefix_len(c.anchor@, anchor) as int;
            let rest = s.remove(k);
            if n == c.anchor@.len() && n == anchor.len() {
                exists|x: RouteNode| walked(c, x, segs, next, label, r) && after.children@ == s.update(k, x)
            } else if n == c.anchor@.len() && 0 < n && n <= anchor.len() {
                exists|x: RouteNode|
                    merged(c, x, anchor.subrange(n, anchor.len() as int), false, segs, next, label, r)
                        && after.children@ == s.update(k, x)
            } else if n == anchor.len() {
                exists|cut: RouteNode, x0: RouteNode, x: RouteNode|
                    #![trigger cut_from(c, cut, n), x0.anchor, placed(rest, x)]
                    cut_from(c, cut, n) && x0.anchor@ == anchor && x0.has_parameter == has_parameter
                        && x0.route_name is None && x0.route_parameter_names@.len() == 0
                        && x0.children@ == seq![cut] && walked(x0, x, segs, next, label, r)
                        && after.children@ == placed(rest, x)
            } else {
                exists|cut: RouteNode, m0: RouteNode, m: RouteNode, i: RouteNode|
                    #![trigger cut_from(c, cut, n), is_bare(m0, anchor.subrange(n, anchor.len() as int), false), node_less(m, cut), placed(rest, i)]
                    cut_from(c, cut, n) && is_bare(m0, anchor.subrange(n, anchor.len() as int), false)
                        && walked(m0, m, segs, next, label, r) && i.anchor@ == c.anchor@.subrange(0, n)
                        && i.has_parameter == c.has_parameter && i.route_name is None
                        && i.route_parameter_names@.len() == 0
                        && i.children@ == (if node_less(m, cut) {
                        seq![m, cut]
                    } else {
                        seq![cut, m]
                    }) && after.children@ == placed(rest, i)
            }
        },
    }
}

proof fn lemma_merged_new(before: RouteNode, after: RouteNode, anchor: Seq<char>, has_parameter: bool, segs: Seq<Segment>, next: int, label: Label, r: Result<(), RouteError>, x0: RouteNode, x: RouteNode)
    requires
        after.anchor == before.anchor,
        after.has_parameter == before.has_parameter,
        after.route_name == before.route_name,
        after.route_parameter_names == before.route_parameter_names,
        first_compatible(before.children@, anchor, has_parameter, 0) is None,
        is_bare(x0, anchor, has_parameter),
        walked(x0, x, segs, next, label, r),
        after.children@ == placed(before.children@, x),
    ensures
        merged(before, after, anchor, has_parameter, segs, next, label, r),
{
    assert(grown(before, after, anchor, has_parameter, segs, next, label, r));
}


/// Inserts `x` among the siblings at its place in canonical order.
fn insert_sorted(children: &mut Vec<RouteNode>, x: RouteNode) -> (p: usize)
    requires
        children_ok(old(children)@),
        fits_among(old(children)@, x),
    ensures
        p <= old(children)@.len(),
        final(children)@ == old(children)@.insert(p as int, x),
        children_ok(final(children)@),
        p == sorted_place(old(children)@, x, 0),
{
    let ghost s = children@;
    let mut p: usize = 0;
    while p < children.len() && children[p].precedes(&x)
        invariant
            children@ == s,
            p <= s.len(),
            forall|j: int| 0 <= j < p ==> node_less(#[trigger] s[j], x),
            sorted_place(s, x, 0) == sorted_place(s, x, p as int),
        decreases s.len() - p,
    {
        proof {
            lemma_key_order(x.anchor@, x.has_parameter, s[p as int].anchor@, s[p as int].has_parameter, x.anchor@, x.has_parameter);
        }
        p += 1;
    }
    proof {
        if p < s.len() {
            lemma_key_order(x.anchor@, x.has_parameter, s[p as int].anchor@, s[p as int].has_parameter, x.anchor@, x.has_parameter);
        }
        assert forall|j: int| p <= j < s.len() implies node_less(x, #[trigger] s[j]) by {
            if j > p {
                assert(node_less(s[p as int], s[j]));
                lemma_key_order(x.anchor@, x.has_parameter, s[p as int].anchor@, s[p as int].has_parameter, s[j].anchor@, s[j].has_parameter);
            }
        }
    }
    children.insert(p, x);
    proof {
        let t = children@;
        assert forall|i: int, j: int| 0 <= i < j < t.len() implies node_less(#[trigger] t[i], #[trigger] t[j]) by {
            if i < p && j < p {
                assert(node_less(s[i], s[j]));
            } else if i < p && j == p {
            } else if i < p {
                assert(node_less(s[i], x));
                assert(node_less(x, s[j - 1]));
                lemma_key_order(s[i].anchor@, s[i].has_parameter, x.anchor@, x.has_parameter, s[j - 1].anchor@, s[j - 1].has_parameter);
            } else if i == p {
                assert(node_less(x, s[j - 1]));
            } else {
                assert(node_less(s[i - 1], s[j - 1]));
            }
        }
        assert forall|i: int, j: int|
            0 <= i < t.len() && 0 <= j < t.len() && (#[trigger] t[i]).has_parameter
                == (#[trigger] t[j]).has_parameter && t[i].anchor@.len() > 0 && t[j].anchor@.len()
                > 0 && t[i].anchor@[0] == t[j].anchor@[0] implies i == j by {
            let a = if i < p { i } else { i - 1 };
            let b = if j < p { j } else { j - 1 };
            if i != p && j != p {
                assert(s[a].has_parameter == s[b].has_parameter);
            } else if i != p {
                assert(t[i] == s[a]);
            } else if j != p {
                assert(t[j] == s[b]);
            }
        }
    }
    p
}

impl RouteNode {
    /// The first child that can take the segment (`anchor`, `has_parameter`), with
    /// the length of the prefix that its anchor shares with `anchor`.
    pub fn find_similar_child(&self, anchor: &Vec<char>, has_parameter: bool) -> (r: Option<(usize, usize)>)
        ensures
            match r {
                Some((k, c)) => {
                    &&& k < self.children@.len()
                    &&& compatible(self.children@[k as int], anchor@, has_parameter)
                    &&& c == common_prefix_len(self.children@[k as int].anchor@, anchor@)
                    &&& forall|j: int| 0 <= j < k ==> !compatible(#[trigger] self.children@[j], anchor@, has_parameter)
                },
                None => forall|j: int|
                    0 <= j < self.children@.len() ==> !compatible(#[trigger] self.children@[j], anchor@, has_parameter),
            },
    {
        let mut i: usize = 0;
        while i < self.children.len()
            invariant
                i <= self.children@.len(),
                forall|j: int| 0 <= j < i ==> !compatible(#[trigger] self.children@[j], anchor@, has_parameter),
            decreases self.children@.len() - i,
        {
            let child = &self.children[i];
            let c = find_common_prefix_length(&child.anchor, anchor);
            proof {
                lemma_common_prefix_len(child.anchor@, anchor@);
                if c == child.anchor.len() && c == anchor.len() {
                    assert(child.anchor@ =~= anchor@);
                }
            }
            let ok = child.has_parameter == has_parameter && (c > 0 || (c == child.anchor.len()
                && c == anchor.len()));
            if ok {
                return Some((i, c));
            }
            i += 1;
        }
        None
    }
}

/// Marks `node` as the end of route `name` with parameters `names`; when it ends
/// route `name` already, its parameter names are kept; it fails when it ends a route
/// of another name.
fn route_node_merge_terminal(node: &mut RouteNode, name: &String, names: &Vec<String>) -> (r: Result<(), RouteError>)
    ensures
        final(node).anchor == old(node).anchor,
        final(node).has_parameter == old(node).has_parameter,
        final(node).children == old(node).children,
        old(node).route_name is Some ==> *final(node) == *old(node),
        marked(*old(node), *final(node), (name@, views_of(names@)), r),
        route_added(*old(node), *final(node), Seq::<Option<char>>::empty(), (name@, views_of(names@)), r),
{
    let ghost before = *node;
    let ghost label = (name@, views_of(names@));
    let ghost empty = Seq::<Option<char>>::empty();
    match &node.route_name {
        Some(existing) => {
            assert(has_route_from(before, empty, node_label(before)->Some_0));
            if existing.eq(name) {
                assert(has_route_from(before, empty, (label.0, views_of(before.route_parameter_names@))));
                return Ok(());
            } else {
                return Err(RouteError::AmbiguousRoute);
            }
        },
        None => {},
    }
    node.route_name = Some(name.clone());
    node.route_parameter_names = clone_strings(names);
    proof {
        assert(node.children == before.children);
        assert(node_label(*node) == Some(label));
        assert forall|t: Shape, nm: Label| #[trigger] has_route_from(before, t, nm) implies has_route_from(*node, t, nm) by {
            let i = choose|i: int| 0 <= i < before.children@.len() && has_route(#[trigger] before.children@[i], t, nm);
            assert(has_route(node.children@[i], t, nm));
        }
        assert forall|t: Shape, nm: Label| #[trigger] has_route_from(*node, t, nm) implies has_route_from(before, t, nm) || (t == empty && nm == label) by {
            if t.len() == 0 && nm == label {
                assert(t =~= empty);
            } else {
                let i = choose|i: int| 0 <= i < node.children@.len() && has_route(#[trigger] node.children@[i], t, nm);
                assert(has_route(before.children@[i], t, nm));
            }
        }
        assert(has_route_from(*node, empty, (label.0, label.1)));
    }
    Ok(())
}

/// Walks the segments of `pairs` from `index` on down from `node`, creating and
/// restructuring nodes as needed, and marks the last one as the end of route `name`.
fn route_node_extend(
    node: &mut RouteNode,
    pairs: &Vec<(Vec<char>, bool)>,
    index: usize,
    name: &String,
    names: &Vec<String>,
) -> (r: Result<(), RouteError>)
    requires
        old(node).wf(),
        index <= pairs@.len(),
        forall|j: int| 1 <= j < pairs@.len() ==> (#[trigger] pairs@[j]).1,
    ensures
        walked(*old(node), *final(node), segments_view(pairs@), index as int, (name@, views_of(names@)), r),
        index >= 1 && parameter_children(*old(node)) ==> parameter_children(*final(node)),
        final(node).wf(),
        final(node).anchor == old(node).anchor,
        final(node).has_parameter == old(node).has_parameter,
        route_added(*old(node), *final(node), shape_from(segments_view(pairs@), index as int), (name@, views_of(names@)), r),
    decreases pairs@.len() - index, 0int,
{
    if index == pairs.len() {
        route_node_merge_terminal(node, name, names)
    } else {
        let anchor = &pairs[index].0;
        let has_parameter = pairs[index].1;
        assert(segments_view(pairs@)[index as int] == (anchor@, has_parameter));
        route_node_merge(node, anchor, has_parameter, pairs, index + 1, name, names)
    }
}

/// Merges the segment (`anchor`, `has_parameter`) into the children of `parent` and
/// continues with the segments of `pairs` from `next` on.
pub fn route_node_merge(
    parent: &mut RouteNode,
    anchor: &Vec<char>,
    has_parameter: bool,
    pairs: &Vec<(Vec<char>, bool)>,
    next: usize,
    name: &String,
    names: &Vec<String>,
) -> (r: Result<(), RouteError>)
    requires
        old(parent).wf(),
        1 <= next <= pairs@.len(),
        forall|j: int| 1 <= j < pairs@.len() ==> (#[trigger] pairs@[j]).1,
    ensures
        merged(*old(parent), *final(parent), anchor@, has_parameter, segments_view(pairs@), next as int, (name@, views_of(names@)), r),
        has_parameter && parameter_children(*old(parent)) ==> parameter_children(*final(parent)),
        final(parent).wf(),
        final(parent).anchor == old(parent).anchor,
        final(parent).has_parameter == old(parent).has_parameter,
        final(parent).route_name == old(parent).route_name,
        route_added(
            *old(parent),
            *final(parent),
            segment_shape(anchor@, has_parameter) + shape_from(segments_view(pairs@), next as int),
            (name@, views_of(names@)),
            r,
        ),
        final(parent).children@.len() == (old(parent).children@.len() + (if exists|j: int|
            0 <= j < old(parent).children@.len() && compatible(#[trigger] old(parent).children@[j], anchor@, has_parameter) {
            0int
        } else {
            1int
        })),
    decreases pairs@.len() - next, 2 * anchor@.len() + 2,
{
    match parent.find_similar_child(anchor, has_parameter) {
        None => {
            proof {
                lemma_first_compatible(parent.children@, anchor@, has_parameter, parent.children@.len() as int, 0);
            }
            route_node_merge_new(parent, anchor, has_parameter, pairs, next, name, names)
        },
        Some((k, c)) => {
            proof {
                lemma_first_compatible(parent.children@, anchor@, has_parameter, k as int, 0);
            }
            let child_len = parent.children[k].anchor.len();
            proof {
                lemma_common_prefix_len(parent.children@[k as int].anchor@, anchor@);
            }
            if c == child_len && c == anchor.len() {
                route_node_merge_join(parent, k, anchor, has_parameter, pairs, next, name, names)
            } else if c == child_len {
                route_node_merge_add_to_child(parent, k, c, anchor, has_parameter, pairs, next, name, names)
            } else if c == anchor.len() {
                route_node_merge_add_to_new(parent, k, c, anchor, has_parameter, pairs, next, name, names)
            } else {
                route_node_merge_intermediate(parent, k, c, anchor, has_parameter, pairs, next, name, names)
            }
        },
    }
}

/// No child can take the segment: it becomes a new child.
fn route_node_merge_new(
    parent: &mut RouteNode,
    anchor: &Vec<char>,
    has_parameter: bool,
    pairs: &Vec<(Vec<char>, bool)>,
    next: usize,
    name: &String,
    names: &Vec<String>,
) -> (r: Result<(), RouteError>)
    requires
        old(parent).wf(),
        1 <= next <= pairs@.len(),
        forall|j: int| 1 <= j < pairs@.len() ==> (#[trigger] pairs@[j]).1,
        forall|j: int| 0 <= j < old(parent).children@.len() ==> !compatible(#[trigger] old(parent).children@[j], anchor@, has_parameter),
        first_compatible(old(parent).children@, anchor@, has_parameter, 0) is None,
    ensures
        merged(*old(parent), *final(parent), anchor@, has_parameter, segments_view(pairs@), next as int, (name@, views_of(names@)), r),
        has_parameter && parameter_children(*old(parent)) ==> parameter_children(*final(parent)),
        final(parent).wf(),
        final(parent).anchor == old(parent).anchor,
        final(parent).has_parameter == old(parent).has_parameter,
        final(parent).route_name == old(parent).route_name,
        route_added(
            *old(parent),
            *final(parent),
            segment_shape(anchor@, has_parameter) + shape_from(segments_view(pairs@), next as int),
            (name@, views_of(names@)),
            r,
        ),
        exists|p: int, x: RouteNode|
            0 <= p <= old(parent).children@.len() && final(parent).children@ == old(parent).children@.insert(p, x)
                && x.anchor@ == anchor@ && x.has_parameter == has_parameter,
    decreases pairs@.len() - next, 2 * anchor@.len() + 1,
{
    let ghost old_parent = *parent;
    let ghost s_next = shape_from(segments_view(pairs@), next as int);
    let mut node = bare_node(copy_range(anchor, 0, anchor.len()), has_parameter);
    assert(node.anchor@ =~= anchor@);
    let ghost m0 = node;
    let r = route_node_extend(&mut node, pairs, next, name, names);
    let ghost m = node;
    proof {
        lemma_fresh_routes(m0, m, s_next, (name@, views_of(names@)), r);
    }
    proof {
        let s = parent.children@;
        assert forall|i: int| 0 <= i < s.len() implies {
            &&& (node.has_parameter == (#[trigger] s[i]).has_parameter && node.anchor@.len() > 0
                && s[i].anchor@.len() > 0 ==> node.anchor@[0] != s[i].anchor@[0])
            &&& (node.anchor@, node.has_parameter) != (s[i].anchor@, s[i].has_parameter)
        } by {
            assert(!compatible(s[i], anchor@, has_parameter));
            if node.has_parameter == s[i].has_parameter && node.anchor@.len() > 0 && s[i].anchor@.len() > 0 && node.anchor@[0] == s[i].anchor@[0] {
                assert(common_prefix_len(s[i].anchor@, anchor@) > 0);
            }
        }
    }
    let ghost old_children = parent.children@;
    let p = insert_sorted(&mut parent.children, node);
    proof {
        lemma_add_child(old_parent, *parent, p as int, m, node_shape(m) + s_next, (name@, views_of(names@)));
        assert forall|i: int| 0 <= i < parent.children@.len() implies (#[trigger] parent.children@[i]).wf() by {
            if i < p {
                assert(parent.children@[i] == old_children[i]);
            } else if i > p {
                assert(parent.children@[i] == old_children[i - 1]);
            }
        }
    }
    proof {
        assert(old_children == old_parent.children@);
        assert(parent.children@ == placed(old_children, m));
        lemma_merged_new(old_parent, *parent, anchor@, has_parameter, segments_view(pairs@), next as int, (name@, views_of(names@)), r, m0, m);
    }
    r
}

/// The child has exactly the segment's key: continue below it.
fn route_node_merge_join(
    parent: &mut RouteNode,
    k: usize,
    anchor: &Vec<char>,
    has_parameter: bool,
    pairs: &Vec<(Vec<char>, bool)>,
    next: usize,
    name: &String,
    names: &Vec<String>,
) -> (r: Result<(), RouteError>)
    requires
        old(parent).wf(),
        1 <= next <= pairs@.len(),
        forall|j: int| 1 <= j < pairs@.len() ==> (#[trigger] pairs@[j]).1,
        k < old(parent).children@.len(),
        compatible(old(parent).children@[k as int], anchor@, has_parameter),
        common_prefix_len(old(parent).children@[k as int].anchor@, anchor@) == anchor@.len(),
        common_prefix_len(old(parent).children@[k as int].anchor@, anchor@) == old(parent).children@[k as int].anchor@.len(),
        first_compatible(old(parent).children@, anchor@, has_parameter, 0) == Some(k as int),
    ensures
        merged(*old(parent), *final(parent), anchor@, has_parameter, segments_view(pairs@), next as int, (name@, views_of(names@)), r),
        has_parameter && parameter_children(*old(parent)) ==> parameter_children(*final(parent)),
        final(parent).wf(),
        final(parent).anchor == old(parent).anchor,
        final(parent).has_parameter == old(parent).has_parameter,
        final(parent).route_name == old(parent).route_name,
        route_added(
            *old(parent),
            *final(parent),
            segment_shape(anchor@, has_parameter) + shape_from(segments_view(pairs@), next as int),
            (name@, views_of(names@)),
            r,
        ),
        exists|x: RouteNode|
            final(parent).children@ == old(parent).children@.update(k as int, x) && x.anchor == old(parent).children@[k as int].anchor
                && x.has_parameter == old(parent).children@[k as int].has_parameter,
    decreases pairs@.len() - next, 2 * anchor@.len() + 1,
{
    let ghost old_parent = *parent;
    let ghost s_next = shape_from(segments_view(pairs@), next as int);
    let ghost s = parent.children@;
    let mut child = parent.children.remove(k);
    let ghost c0 = child;
    assert(child.wf());
    let r = route_node_extend(&mut child, pairs, next, name, names);
    proof {
        lemma_common_prefix_len(c0.anchor@, anchor@);
        assert(c0.anchor@ =~= anchor@);
        lemma_lift(c0, child, s_next, (name@, views_of(names@)), r);
    }
    parent.children.insert(k, child);
    proof {
        assert(parent.children@ =~= s.remove(k as int).insert(k as int, child));
        lemma_replace_child(old_parent, *parent, k as int, k as int, child, segment_shape(anchor@, has_parameter) + s_next, (name@, views_of(names@)), r);
        assert(parent.children@ =~= s.update(k as int, child));
        lemma_children_ok_same_key(s, k as int, child);
        assert forall|i: int| 0 <= i < parent.children@.len() implies (#[trigger] parent.children@[i]).wf() by {
            if i != k {
                assert(parent.children@[i] == s[i]);
            }
        }
    }
    r
}

/// The child's anchor is a proper prefix of the segment's: merge the rest of the
/// segment below the child.
fn route_node_merge_add_to_child(
    parent: &mut RouteNode,
    k: usize,
    c: usize,
    anchor: &Vec<char>,
    has_parameter: bool,
    pairs: &Vec<(Vec<char>, bool)>,
    next: usize,
    name: &String,
    names: &Vec<String>,
) -> (r: Result<(), RouteError>)
    requires
        old(parent).wf(),
        1 <= next <= pairs@.len(),
        forall|j: int| 1 <= j < pairs@.len() ==> (#[trigger] pairs@[j]).1,
        k < old(parent).children@.len(),
        compatible(old(parent).children@[k as int], anchor@, has_parameter),
        c == common_prefix_len(old(parent).children@[k as int].anchor@, anchor@),
        c == old(parent).children@[k as int].anchor@.len(),
        c < anchor@.len(),
        c > 0,
        first_compatible(old(parent).children@, anchor@, has_parameter, 0) == Some(k as int),
    ensures
        merged(*old(parent), *final(parent), anchor@, has_parameter, segments_view(pairs@), next as int, (name@, views_of(names@)), r),
        has_parameter && parameter_children(*old(parent)) ==> parameter_children(*final(parent)),
        final(parent).wf(),
        final(parent).anchor == old(parent).anchor,
        final(parent).has_parameter == old(parent).has_parameter,
        final(parent).route_name == old(parent).route_name,
        route_added(
            *old(parent),
            *final(parent),
            segment_shape(anchor@, has_parameter) + shape_from(segments_view(pairs@), next as int),
            (name@, views_of(names@)),
            r,
        ),
        exists|x: RouteNode|
            final(parent).children@ == old(parent).children@.update(k as int, x) && x.anchor == old(parent).children@[k as int].anchor
                && x.has_parameter == old(parent).children@[k as int].has_parameter,
    decreases pairs@.len() - next, 2 * anchor@.len() + 1,
{
    let ghost old_parent = *parent;
    let ghost s_next = shape_from(segments_view(pairs@), next as int);
    let ghost s = parent.children@;
    let mut child = parent.children.remove(k);
    let ghost c0 = child;
    assert(child.wf());
    let rest = copy_range(anchor, c, anchor.len());
    let r = route_node_merge(&mut child, &rest, false, pairs, next, name, names);
    proof {
        lemma_lift(c0, child, segment_shape(rest@, false) + s_next, (name@, views_of(names@)), r);
        lemma_common_prefix_len(c0.anchor@, anchor@);
        assert(c0.anchor@ =~= anchor@.subrange(0, c as int));
        lemma_segment_shape_split(anchor@, has_parameter, c as int);
        assert(node_shape(c0) + (segment_shape(rest@, false) + s_next) =~= segment_shape(anchor@, has_parameter) + s_next);
    }
    parent.children.insert(k, child);
    proof {
        assert(parent.children@ =~= s.remove(k as int).insert(k as int, child));
        lemma_replace_child(old_parent, *parent, k as int, k as int, child, segment_shape(anchor@, has_parameter) + s_next, (name@, views_of(names@)), r);
        assert(parent.children@ =~= s.update(k as int, child));
        lemma_children_ok_same_key(s, k as int, child);
        assert forall|i: int| 0 <= i < parent.children@.len() implies (#[trigger] parent.children@[i]).wf() by {
            if i != k {
                assert(parent.children@[i] == s[i]);
            }
        }
    }
    r
}

/// A node that takes a removed sibling's place, with the same parameter flag and the
/// same first character, fits where that sibling did.
proof fn lemma_fits_in_place(t: Seq<RouteNode>, c: RouteNode, x: RouteNode)
    requires
        fits_among(t, c),
        x.has_parameter == c.has_parameter,
        x.anchor@.len() > 0,
        c.anchor@.len() > 0,
        x.anchor@[0] == c.anchor@[0],
    ensures
        fits_among(t, x),
{
    assert forall|i: int| 0 <= i < t.len() implies {
        &&& (x.has_parameter == (#[trigger] t[i]).has_parameter && x.anchor@.len() > 0
            && t[i].anchor@.len() > 0 ==> x.anchor@[0] != t[i].anchor@[0])
        &&& (x.anchor@, x.has_parameter) != (t[i].anchor@, t[i].has_parameter)
    } by {
        if x.has_parameter == t[i].has_parameter && x.anchor@ == t[i].anchor@ {
            assert(x.anchor@[0] == t[i].anchor@[0]);
        }
    }
}

/// A node's well-formedness depends on its children alone.
proof fn lemma_wf_children(a: RouteNode, b: RouteNode)
    requires
        a.wf(),
        a.children == b.children,
    ensures
        b.wf(),
{
}

/// The segment's anchor is a proper prefix of the child's: a new node with the
/// segment's anchor takes the child's place, and the child, cut to the rest of its
/// anchor, goes below it.
fn route_node_merge_add_to_new(
    parent: &mut RouteNode,
    k: usize,
    c: usize,
    anchor: &Vec<char>,
    has_parameter: bool,
    pairs: &Vec<(Vec<char>, bool)>,
    next: usize,
    name: &String,
    names: &Vec<String>,
) -> (r: Result<(), RouteError>)
    requires
        old(parent).wf(),
        1 <= next <= pairs@.len(),
        forall|j: int| 1 <= j < pairs@.len() ==> (#[trigger] pairs@[j]).1,
        k < old(parent).children@.len(),
        compatible(old(parent).children@[k as int], anchor@, has_parameter),
        c == common_prefix_len(old(parent).children@[k as int].anchor@, anchor@),
        c == anchor@.len(),
        c < old(parent).children@[k as int].anchor@.len(),
        first_compatible(old(parent).children@, anchor@, has_parameter, 0) == Some(k as int),
    ensures
        merged(*old(parent), *final(parent), anchor@, has_parameter, segments_view(pairs@), next as int, (name@, views_of(names@)), r),
        has_parameter && parameter_children(*old(parent)) ==> parameter_children(*final(parent)),
        final(parent).wf(),
        final(parent).anchor == old(parent).anchor,
        final(parent).has_parameter == old(parent).has_parameter,
        final(parent).route_name == old(parent).route_name,
        route_added(
            *old(parent),
            *final(parent),
            segment_shape(anchor@, has_parameter) + shape_from(segments_view(pairs@), next as int),
            (name@, views_of(names@)),
            r,
        ),
        exists|p: int, x: RouteNode|
            0 <= p < old(parent).children@.len() && final(parent).children@ == old(parent).children@.remove(k as int).insert(p, x)
                && x.anchor@ == anchor@ && x.has_parameter == has_parameter,
    decreases pairs@.len() - next, 2 * anchor@.len() + 1,
{
    let ghost old_parent = *parent;
    let ghost s_next = shape_from(segments_view(pairs@), next as int);
    let ghost s = parent.children@;
    let mut child = parent.children.remove(k);
    let ghost old_child = child;
    proof {
        lemma_children_ok_remove(s, k as int);
        lemma_common_prefix_len(child.anchor@, anchor@);
    }
    let clen = child.anchor.len();
    child.anchor = copy_range(&child.anchor, c, clen);
    child.has_parameter = false;
    proof {
        lemma_wf_children(old_child, child);
    }
    let ghost cut = child;
    let mut kids: Vec<RouteNode> = Vec::new();
    kids.push(child);
    let mut node = RouteNode {
        route_name: None,
        route_parameter_names: Vec::new(),
        anchor: copy_range(anchor, 0, anchor.len()),
        has_parameter,
        children: kids,
    };
    assert(node.children@ =~= seq![child]);
    assert(node.wf());
    let ghost n0 = node;
    proof {
        assert(old_child.anchor@.subrange(0, c as int) =~= anchor@);
        assert(n0.anchor@ =~= anchor@);
        lemma_regraft(old_child, n0, child, c as int);
    }
    let r = route_node_extend(&mut node, pairs, next, name, names);
    proof {
        lemma_lift(n0, node, s_next, (name@, views_of(names@)), r);
        assert(node_shape(n0) == segment_shape(anchor@, has_parameter));
        lemma_same_routes(old_child, n0, node, segment_shape(anchor@, has_parameter) + s_next, (name@, views_of(names@)), r);
    }
    proof {
        assert(node.anchor@[0] == anchor@[0]);
        lemma_fits_in_place(s.remove(k as int), old_child, node);
    }
    let ghost old_children = parent.children@;
    let ghost nf = node;
    let p = insert_sorted(&mut parent.children, node);
    proof {
        lemma_replace_child(old_parent, *parent, k as int, p as int, nf, segment_shape(anchor@, has_parameter) + s_next, (name@, views_of(names@)), r);
        assert forall|i: int| 0 <= i < parent.children@.len() implies (#[trigger] parent.children@[i]).wf() by {
            if i < p {
                assert(parent.children@[i] == old_children[i]);
            } else if i > p {
                assert(parent.children@[i] == old_children[i - 1]);
            }
        }
    }
    proof {
        assert(cut_from(old_child, cut, c as int));
        assert(n0.children@ == seq![cut]);
        assert(old_children == s.remove(k as int));
        assert(parent.children@ == placed(old_children, nf));
        assert(n0.anchor@ == anchor@);
        assert(walked(n0, nf, segments_view(pairs@), next as int, (name@, views_of(names@)), r));
    }
    r
}

/// The anchors part after a shared prefix: an intermediate node holding the prefix
/// takes the child's place, with the cut child and a new node for the rest of the
/// segment below it.
#[verifier::rlimit(80)]
fn route_node_merge_intermediate(
    parent: &mut RouteNode,
    k: usize,
    c: usize,
    anchor: &Vec<char>,
    has_parameter: bool,
    pairs: &Vec<(Vec<char>, bool)>,
    next: usize,
    name: &String,
    names: &Vec<String>,
) -> (r: Result<(), RouteError>)
    requires
        old(parent).wf(),
        1 <= next <= pairs@.len(),
        forall|j: int| 1 <= j < pairs@.len() ==> (#[trigger] pairs@[j]).1,
        k < old(parent).children@.len(),
        compatible(old(parent).children@[k as int], anchor@, has_parameter),
        c == common_prefix_len(old(parent).children@[k as int].anchor@, anchor@),
        c < anchor@.len(),
        c < old(parent).children@[k as int].anchor@.len(),
        first_compatible(old(parent).children@, anchor@, has_parameter, 0) == Some(k as int),
    ensures
        merged(*old(parent), *final(parent), anchor@, has_parameter, segments_view(pairs@), next as int, (name@, views_of(names@)), r),
        has_parameter && parameter_children(*old(parent)) ==> parameter_children(*final(parent)),
        final(parent).wf(),
        final(parent).anchor == old(parent).anchor,
        final(parent).has_parameter == old(parent).has_parameter,
        final(parent).route_name == old(parent).route_name,
        route_added(
            *old(parent),
            *final(parent),
            segment_shape(anchor@, has_parameter) + shape_from(segments_view(pairs@), next as int),
            (name@, views_of(names@)),
            r,
        ),
        exists|p: int, x: RouteNode|
            0 <= p < old(parent).children@.len() && final(parent).children@ == old(parent).children@.remove(k as int).insert(p, x)
                && x.anchor@ == anchor@.subrange(0, c as int) && x.has_parameter == has_parameter
                && x.children@.len() == 2,
    decreases pairs@.len() - next, 2 * anchor@.len() + 1,
{
    let ghost old_parent = *parent;
    let ghost s_next = shape_from(segments_view(pairs@), next as int);
    let ghost s = parent.children@;
    let mut child = parent.children.remove(k);
    let ghost old_child = child;
    proof {
        lemma_children_ok_remove(s, k as int);
        lemma_common_prefix_len(child.anchor@, anchor@);
    }
    let clen = child.anchor.len();
    let prefix = copy_range(&child.anchor, 0, c);
    let intermediate_parameter = child.has_parameter;
    child.anchor = copy_range(&child.anchor, c, clen);
    child.has_parameter = false;
    proof {
        lemma_wf_children(old_child, child);
    }
    let mut node = bare_node(copy_range(anchor, c, anchor.len()), false);
    let ghost m0 = node;
    let r = route_node_extend(&mut node, pairs, next, name, names);
    let ghost m = node;
    let ghost cut = child;
    proof {
        lemma_fresh_routes(m0, m, s_next, (name@, views_of(names@)), r);
    }
    assert(node.anchor@[0] != child.anchor@[0]);
    let mut kids: Vec<RouteNode> = Vec::new();
    let first = node.precedes(&child);
    proof {
        lemma_key_order(node.anchor@, false, child.anchor@, false, node.anchor@, false);
    }
    if first {
        kids.push(node);
        kids.push(child);
        assert(kids@ =~= seq![m, cut]);
    } else {
        kids.push(child);
        kids.push(node);
        assert(kids@ =~= seq![cut, m]);
    }
    let intermediate = RouteNode {
        route_name: None,
        route_parameter_names: Vec::new(),
        anchor: prefix,
        has_parameter: intermediate_parameter,
        children: kids,
    };
    assert(intermediate.wf());
    proof {
        assert(prefix@ =~= old_child.anchor@.subrange(0, c as int));
        lemma_intermediate_routes(old_child, intermediate, cut, m, c as int, node_shape(m) + s_next, (name@, views_of(names@)));
        assert(old_child.anchor@.subrange(0, c as int) =~= anchor@.subrange(0, c as int));
        lemma_segment_shape_split(anchor@, has_parameter, c as int);
        assert(node_shape(intermediate) + (node_shape(m) + s_next) =~= segment_shape(anchor@, has_parameter) + s_next);
        assert(intermediate.anchor@[0] == old_child.anchor@[0]);
        lemma_fits_in_place(s.remove(k as int), old_child, intermediate);
    }
    let ghost old_children = parent.children@;
    let ghost inter = intermediate;
    let p = insert_sorted(&mut parent.children, intermediate);
    proof {
        lemma_replace_child(old_parent, *parent, k as int, p as int, inter, segment_shape(anchor@, has_parameter) + s_next, (name@, views_of(names@)), r);
        assert forall|i: int| 0 <= i < parent.children@.len() implies (#[trigger] parent.children@[i]).wf() by {
            if i < p {
                assert(parent.children@[i] == old_children[i]);
            } else if i > p {
                assert(parent.children@[i] == old_children[i - 1]);
            }
        }
    }
    proof {
        assert(cut_from(old_child, cut, c as int));
        assert(m0.anchor@ =~= anchor@.subrange(c as int, anchor@.len() as int));
        assert(is_bare(m0, anchor@.subrange(c as int, anchor@.len() as int), false));
        assert(first == node_less(m, cut));
        assert(inter.children@ == (if node_less(m, cut) {
            seq![m, cut]
        } else {
            seq![cut, m]
        }));
        assert(old_children == s.remove(k as int));
        assert(parent.children@ == placed(old_children, inter));
        assert(walked(m0, m, segments_view(pairs@), next as int, (name@, views_of(names@)), r));
    }
    r
}

/// Adding a route under a name that has no route of that shape yet adds exactly it.
proof fn lemma_add_fresh(before: RouteNode, after_node: RouteNode, s: Shape, name: Label)
    requires
        route_added(before, after_node, s, name, Ok(())),
        forall|ps: Seq<Seq<char>>| !#[trigger] has_route_from(before, s, (name.0, ps)),
    ensures
        forall|t: Shape, nm: Label|
            #[trigger] has_route_from(after_node, t, nm) <==> has_route_from(before, t, nm) || (t == s
                && nm == name),
{
    assert forall|t: Shape, nm: Label|
        #[trigger] has_route_from(after_node, t, nm) <==> has_route_from(before, t, nm) || (t == s
            && nm == name) by {
        if has_route_from(before, t, nm) && t == s && nm.0 == name.0 {
            assert(!has_route_from(before, s, (name.0, nm.1)));
        }
    }
}

/// Insertion order does not change the routes held: when routes of two different
/// names, neither of which yet has a route of its shape, are both added successfully
/// to `t0`, first one then the other or the other way round, the two tries hold the
/// same routes.
pub proof fn lemma_insertion_order(
    t0: RouteNode,
    t1: RouteNode,
    t2: RouteNode,
    u1: RouteNode,
    u2: RouteNode,
    a: Shape,
    name_a: Label,
    b: Shape,
    name_b: Label,
)
    requires
        name_a.0 != name_b.0,
        forall|ps: Seq<Seq<char>>| !#[trigger] has_route_from(t0, a, (name_a.0, ps)),
        forall|ps: Seq<Seq<char>>| !#[trigger] has_route_from(t0, b, (name_b.0, ps)),
        route_added(t0, t1, a, name_a, Ok(())),
        route_added(t1, t2, b, name_b, Ok(())),
        route_added(t0, u1, b, name_b, Ok(())),
        route_added(u1, u2, a, name_a, Ok(())),
    ensures
        forall|t: Shape, nm: Label| has_route_from(t2, t, nm) == has_route_from(u2, t, nm),
{
    lemma_add_fresh(t0, t1, a, name_a);
    lemma_add_fresh(t0, u1, b, name_b);
    assert forall|ps: Seq<Seq<char>>| !#[trigger] has_route_from(t1, b, (name_b.0, ps)) by {
        assert(!has_route_from(t0, b, (name_b.0, ps)));
    }
    assert forall|ps: Seq<Seq<char>>| !#[trigger] has_route_from(u1, a, (name_a.0, ps)) by {
        assert(!has_route_from(t0, a, (name_a.0, ps)));
    }
    lemma_add_fresh(t1, t2, b, name_b);
    lemma_add_fresh(u1, u2, a, name_a);
    assert forall|t: Shape, nm: Label| has_route_from(t2, t, nm) == has_route_from(u2, t, nm) by {
        assert(has_route_from(t1, t, nm) == (has_route_from(t0, t, nm) || (t == a && nm == name_a)));
        assert(has_route_from(u1, t, nm) == (has_route_from(t0, t, nm) || (t == b && nm == name_b)));
    }
}

/// The segments of a template: each literal anchor, and whether a parameter precedes it.
pub open spec fn template_segments(template: Seq<char>) -> Seq<Segment> {
    pairs_spec(placeholder_literals_of(template), placeholder_names_of(template)).map_values(
        |p: (Seq<char>, Option<Seq<char>>)| (p.0, p.1 is Some),
    )
}

/// The segments and parameter names of a template.
pub(crate) fn template_parts(template: &str) -> (r: (Vec<(Vec<char>, bool)>, Vec<String>))
    ensures
        segments_view(r.0@) == template_segments(template@),
        views_of(r.1@) == placeholder_names_of(template@),
        r.0@.len() >= 1,
        placeholder_literals_of(template@).len() == placeholder_names_of(template@).len() + 1,
        forall|j: int| 1 <= j < r.0@.len() ==> (#[trigger] r.0@[j]).1,
        !template@.contains('{') ==> placeholder_literals_of(template@) == seq![template@]
            && placeholder_names_of(template@).len() == 0,
{
    let pairs = parse_template_pairs(template);
    let ghost pv = pairs_spec(placeholder_literals_of(template@), placeholder_names_of(template@));
    assert(pairs@.map_values(|p: (String, Option<String>)| pair_view(p)) == pv);
    assert(pv.len() == pairs@.len());
    let mut segs: Vec<(Vec<char>, bool)> = Vec::new();
    let mut names: Vec<String> = Vec::new();
    let mut i: usize = 0;
    while i < pairs.len()
        invariant
            i <= pairs@.len(),
            pv.len() == pairs@.len(),
            pv.len() == placeholder_names_of(template@).len() + 1,
            pv == pairs_spec(placeholder_literals_of(template@), placeholder_names_of(template@)),
            pairs@.map_values(|p: (String, Option<String>)| pair_view(p)) == pv,
            segs@.len() == i,
            forall|j: int| 0 <= j < i ==> (#[trigger] segs@[j]).0@ == pv[j].0 && segs@[j].1 == (pv[j].1 is Some),
            i > 0 ==> names@.len() == i - 1,
            i == 0 ==> names@.len() == 0,
            forall|j: int| 0 <= j < names@.len() ==> (#[trigger] names@[j])@ == placeholder_names_of(template@)[j],
        decreases pairs@.len() - i,
    {
        assert(pair_view(pairs@[i as int]) == pv[i as int]);
        let anchor = chars_of(pairs[i].0.as_str());
        match &pairs[i].1 {
            Some(n) => {
                segs.push((anchor, true));
                names.push(n.clone());
            },
            None => {
                segs.push((anchor, false));
            },
        }
        i += 1;
    }
    assert(segments_view(segs@) =~= template_segments(template@));
    assert forall|j: int| 1 <= j < segs@.len() implies (#[trigger] segs@[j]).1 by {
        assert(segs@[j].1 == (pv[j].1 is Some));
    }
    assert(views_of(names@) =~= placeholder_names_of(template@));
    (segs, names)
}

/// The shape of a template: its segments' shapes, in order.
pub open spec fn template_shape(template: Seq<char>) -> Shape {
    shape_from(template_segments(template), 0)
}

/// How many parameter slots a shape has.
pub open spec fn parameter_slots(t: Shape) -> nat
    decreases t.len(),
{
    if t.len() == 0 {
        0
    } else {
        parameter_slots(t.drop_last()) + if t.last() is None {
            1nat
        } else {
            0nat
        }
    }
}

pub proof fn lemma_slots_concat(a: Shape, b: Shape)
    ensures
        parameter_slots(a + b) == parameter_slots(a) + parameter_slots(b),
    decreases b.len(),
{
    if b.len() > 0 {
        assert((a + b).drop_last() =~= a + b.drop_last());
        lemma_slots_concat(a, b.drop_last());
    } else {
        assert(a + b =~= a);
    }
}

pub proof fn lemma_slots_literal(anchor: Seq<char>)
    ensures
        parameter_slots(anchor.map_values(|c: char| Some(c))) == 0,
    decreases anchor.len(),
{
    if anchor.len() > 0 {
        assert(anchor.map_values(|c: char| Some(c)).drop_last() =~= anchor.drop_last().map_values(|c: char| Some(c)));
        lemma_slots_literal(anchor.drop_last());
    }
}

proof fn lemma_slots_from(segs: Seq<(Seq<char>, bool)>, i: int)
    requires
        1 <= i <= segs.len(),
        forall|j: int| 1 <= j < segs.len() ==> (#[trigger] segs[j]).1,
    ensures
        parameter_slots(shape_from(segs, i)) == segs.len() - i,
    decreases segs.len() - i,
{
    if i < segs.len() {
        lemma_slots_from(segs, i + 1);
        let flag: Shape = seq![None];
        lemma_slots_concat(segment_shape(segs[i].0, true), shape_from(segs, i + 1));
        lemma_slots_concat(flag, segs[i].0.map_values(|c: char| Some(c)));
        lemma_slots_literal(segs[i].0);
        assert(flag.drop_last() =~= Seq::<Option<char>>::empty());
        assert(flag.last() is None);
        assert(parameter_slots(flag.drop_last()) == 0);
        assert(parameter_slots(flag) == 1);
        assert(segs[i].1);
        assert(segment_shape(segs[i].0, true) == flag + segs[i].0.map_values(|c: char| Some(c)));
        assert(shape_from(segs, i) == segment_shape(segs[i].0, true) + shape_from(segs, i + 1));
    }
}

/// A template's shape has one parameter slot per placeholder name.
pub proof fn lemma_template_slots(template: Seq<char>)
    requires
        placeholder_literals_of(template).len() == placeholder_names_of(template).len() + 1,
    ensures
        parameter_slots(template_shape(template)) == placeholder_names_of(template).len(),
{
    let segs = template_segments(template);
    assert(segs.len() >= 1);
    lemma_slots_from(segs, 1);
    lemma_slots_concat(segment_shape(segs[0].0, false), shape_from(segs, 1));
    lemma_slots_literal(segs[0].0);
    assert(segment_shape(segs[0].0, false) =~= segs[0].0.map_values(|c: char| Some(c)));
}

proof fn lemma_count_prefix(segs: Seq<(Seq<char>, bool)>, k: int)
    requires
        1 <= k <= segs.len(),
        !segs[0].1,
        forall|j: int| 1 <= j < segs.len() ==> (#[trigger] segs[j]).1,
    ensures
        parameter_count(segs.subrange(0, k)) == k - 1,
    decreases k,
{
    assert(segs.subrange(0, k).last() == segs[k - 1]);
    assert(parameter_count(Seq::<(Seq<char>, bool)>::empty()) == 0);
    if k > 1 {
        lemma_count_prefix(segs, k - 1);
        assert(segs.subrange(0, k).drop_last() =~= segs.subrange(0, k - 1));
        assert(segs[k - 1].1);
    } else {
        assert(segs.subrange(0, k).drop_last() =~= Seq::<(Seq<char>, bool)>::empty());
    }
}

/// A template's segments hold one parameter segment per placeholder name.
pub proof fn lemma_template_count(template: Seq<char>)
    requires
        placeholder_literals_of(template).len() == placeholder_names_of(template).len() + 1,
    ensures
        parameter_count(template_segments(template)) == placeholder_names_of(template).len(),
{
    let segs = template_segments(template);
    lemma_count_prefix(segs, segs.len() as int);
    assert(segs.subrange(0, segs.len() as int) =~= segs);
}

/// The shape of the segments `segs`.
fn shape_of_segments(segs: &Vec<(Vec<char>, bool)>) -> (r: Vec<Option<char>>)
    ensures
        r@ == shape_from(segments_view(segs@), 0),
{
    let ghost sv = segments_view(segs@);
    let mut acc: Vec<Option<char>> = Vec::new();
    let mut i: usize = segs.len();
    while i > 0
        invariant
            sv == segments_view(segs@),
            i <= segs@.len(),
            acc@ == shape_from(sv, i as int),
        decreases i,
    {
        i -= 1;
        let mut seg: Vec<Option<char>> = Vec::new();
        if segs[i].1 {
            seg.push(None);
        }
        let ghost flag_part = seg@;
        let anchor = &segs[i].0;
        let mut k: usize = 0;
        while k < anchor.len()
            invariant
                k <= anchor@.len(),
                seg@ == flag_part + anchor@.subrange(0, k as int).map_values(|c: char| Some(c)),
            decreases anchor@.len() - k,
        {
            seg.push(Some(anchor[k]));
            k += 1;
            assert(seg@ =~= flag_part + anchor@.subrange(0, k as int).map_values(|c: char| Some(c)));
        }
        assert(anchor@.subrange(0, k as int) =~= anchor@);
        assert(seg@ =~= segment_shape(sv[i as int].0, sv[i as int].1));
        let ghost old_acc = acc@;
        seg.append(&mut acc);
        acc = seg;
        assert(acc@ =~= shape_from(sv, i as int));
    }
    acc
}

/// Whether `shape` from `start` on begins with the shape of `node`, and where it
/// continues.
fn match_node_shape(node: &RouteNode, shape: &Vec<Option<char>>, start: usize) -> (r: (bool, usize))
    requires
        start <= shape@.len(),
    ensures
        r.0 == starts_with(shape@.subrange(start as int, shape@.len() as int), node_shape(*node)),
        r.0 ==> r.1 == start + node_shape(*node).len() && r.1 <= shape@.len(),
{
    let ghost t = shape@.subrange(start as int, shape@.len() as int);
    let ghost ns = node_shape(*node);
    let ghost flag: Shape = if node.has_parameter { seq![None] } else { Seq::empty() };
    let mut pos = start;
    if node.has_parameter {
        if pos >= shape.len() || shape[pos].is_some() {
            proof {
                if starts_with(t, ns) {
                    assert(t.subrange(0, ns.len() as int)[0] == ns[0]);
                }
            }
            return (false, start);
        }
        pos += 1;
    }
    let anchor = &node.anchor;
    let mut k: usize = 0;
    while k < anchor.len()
        invariant
            pos == start + flag.len() + k,
            pos <= shape@.len(),
            k <= anchor@.len(),
            ns == flag + anchor@.map_values(|c: char| Some(c)),
            ns == node_shape(*node),
            t == shape@.subrange(start as int, shape@.len() as int),
            forall|j: int| 0 <= j < flag.len() + k ==> t[j] == ns[j],
        decreases anchor@.len() - k,
    {
        if pos >= shape.len() {
            assert(ns.len() == flag.len() + anchor@.len());
            assert(t.len() <= flag.len() + k);
            assert(!starts_with(t, ns));
            return (false, start);
        }
        let same = match shape[pos] {
            Some(c) => c == anchor[k],
            None => false,
        };
        if !same {
            proof {
                if starts_with(t, ns) {
                    assert(ns[flag.len() + k] == Some(anchor@[k as int]));
                    assert(t.subrange(0, ns.len() as int)[flag.len() + k] == ns[flag.len() + k]);
                    assert(t[flag.len() + k] == shape@[pos as int]);
                }
                assert(!starts_with(t, ns));
            }
            return (false, start);
        }
        assert(t[flag.len() + k] == ns[flag.len() + k]);
        pos += 1;
        k += 1;
    }
    assert(t.subrange(0, ns.len() as int) =~= ns);
    (true, pos)
}

/// Whether a route of another name than `name` has shape `shape` from `start` on,
/// seen from `node`.
fn route_conflict(node: &RouteNode, shape: &Vec<Option<char>>, start: usize, name: &String) -> (r: bool)
    requires
        start <= shape@.len(),
    ensures
        r == exists|o: Label|
            o.0 != name@ && #[trigger] has_route_from(*node, shape@.subrange(start as int, shape@.len() as int), o),
    decreases node,
{
    let ghost t = shape@.subrange(start as int, shape@.len() as int);
    if start == shape.len() {
        match &node.route_name {
            Some(n) => {
                if !n.eq(name) {
                    assert(has_route_from(*node, t, node_label(*node)->Some_0));
                    return true;
                }
            },
            None => {},
        }
    }
    let mut i: usize = 0;
    while i < node.children.len()
        invariant
            i <= node.children@.len(),
            start <= shape@.len(),
            t == shape@.subrange(start as int, shape@.len() as int),
            forall|j: int, o: Label|
                0 <= j < i && o.0 != name@ ==> !#[trigger] has_route(node.children@[j], t, o),
        decreases node.children@.len() - i,
    {
        let child = &node.children[i];
        let (ok, pos) = match_node_shape(child, shape, start);
        let ghost u = shape@.subrange(pos as int, shape@.len() as int);
        proof {
            if ok {
                assert(after(t, node_shape(*child).len() as int) =~= u);
            }
        }
        if ok && route_conflict(child, shape, pos, name) {
            proof {
                let o = choose|o: Label| o.0 != name@ && #[trigger] has_route_from(*child, u, o);
                lemma_has_route_unfold(*child, t, o);
                assert(has_route(node.children@[i as int], t, o));
                assert(has_route_from(*node, t, o));
            }
            return true;
        }
        proof {
            assert forall|o: Label| o.0 != name@ implies !#[trigger] has_route(node.children@[i as int], t, o) by {
                lemma_has_route_unfold(*child, t, o);
                if ok {
                    assert(!has_route_from(*child, u, o));
                }
            }
        }
        i += 1;
    }
    proof {
        assert forall|o: Label| o.0 != name@ implies !#[trigger] has_route_from(*node, t, o) by {
            if t.len() == 0 && node_label(*node) == Some(o) {
                assert(start == shape@.len());
            }
            if exists|j: int| 0 <= j < node.children@.len() && has_route(#[trigger] node.children@[j], t, o) {
                let j = choose|j: int| 0 <= j < node.children@.len() && has_route(#[trigger] node.children@[j], t, o);
                assert(!has_route(node.children@[j], t, o));
            }
        }
    }
    false
}

/// The segments from the root to a route's terminal node: each anchor, and whether
/// a parameter precedes it.
pub type LeafPath = Vec<(Vec<char>, bool)>;

/// `a` and `b` are the same tree: the same keys and routes, node by node.
pub open spec fn same_tree(a: RouteNode, b: RouteNode) -> bool
    decreases a,
{
    &&& a.anchor@ == b.anchor@
    &&& a.has_parameter == b.has_parameter
    &&& node_label(a) == node_label(b)
    &&& a.children@.len() == b.children@.len()
    &&& forall|i: int|
        0 <= i < a.children@.len() ==> same_tree(#[trigger] a.children@[i], b.children@[i])
}

/// Sibling lists of the same trees, place by place.
pub open spec fn same_list(s1: Seq<RouteNode>, s2: Seq<RouteNode>) -> bool {
    s1.len() == s2.len() && forall|i: int| 0 <= i < s1.len() ==> same_tree(#[trigger] s1[i], s2[i])
}

proof fn lemma_first_compatible_same(s1: Seq<RouteNode>, s2: Seq<RouteNode>, anchor: Seq<char>, p: bool, i: int)
    requires
        same_list(s1, s2),
    ensures
        first_compatible(s1, anchor, p, i) == first_compatible(s2, anchor, p, i),
    decreases s1.len() - i,
{
    if 0 <= i < s1.len() {
        assert(same_tree(s1[i], s2[i]));
        lemma_first_compatible_same(s1, s2, anchor, p, i + 1);
    }
}

proof fn lemma_first_compatible_range(s: Seq<RouteNode>, anchor: Seq<char>, p: bool, i: int)
    requires
        0 <= i,
    ensures
        first_compatible(s, anchor, p, i) is Some ==> (i <= first_compatible(s, anchor, p, i)->Some_0 < s.len()),
    decreases s.len() - i,
{
    if i < s.len() {
        lemma_first_compatible_range(s, anchor, p, i + 1);
    }
}

proof fn lemma_sorted_place_same(s1: Seq<RouteNode>, s2: Seq<RouteNode>, x1: RouteNode, x2: RouteNode, i: int)
    requires
        same_list(s1, s2),
        x1.anchor@ == x2.anchor@,
        x1.has_parameter == x2.has_parameter,
    ensures
        sorted_place(s1, x1, i) == sorted_place(s2, x2, i),
    decreases s1.len() - i,
{
    if 0 <= i < s1.len() {
        assert(same_tree(s1[i], s2[i]));
        lemma_sorted_place_same(s1, s2, x1, x2, i + 1);
    }
}

proof fn lemma_placed_same(s1: Seq<RouteNode>, s2: Seq<RouteNode>, x1: RouteNode, x2: RouteNode)
    requires
        same_list(s1, s2),
        same_tree(x1, x2),
    ensures
        same_list(placed(s1, x1), placed(s2, x2)),
{
    lemma_sorted_place_same(s1, s2, x1, x2, 0);
    let p = sorted_place(s1, x1, 0);
    assert(0 <= p <= s1.len()) by {
        lemma_sorted_place_range(s1, x1, 0);
    }
    let t1 = placed(s1, x1);
    let t2 = placed(s2, x2);
    assert forall|i: int| 0 <= i < t1.len() implies same_tree(#[trigger] t1[i], t2[i]) by {
        if i < p {
            assert(same_tree(s1[i], s2[i]));
        } else if i > p {
            assert(same_tree(s1[i - 1], s2[i - 1]));
        }
    }
}

proof fn lemma_sorted_place_range(s: Seq<RouteNode>, x: RouteNode, i: int)
    requires
        0 <= i <= s.len(),
    ensures
        i <= sorted_place(s, x, i) <= s.len(),
    decreases s.len() - i,
{
    if i < s.len() {
        lemma_sorted_place_range(s, x, i + 1);
    }
}

proof fn lemma_remove_same(s1: Seq<RouteNode>, s2: Seq<RouteNode>, k: int)
    requires
        same_list(s1, s2),
        0 <= k < s1.len(),
    ensures
        same_list(s1.remove(k), s2.remove(k)),
{
    let t1 = s1.remove(k);
    let t2 = s2.remove(k);
    assert forall|i: int| 0 <= i < t1.len() implies same_tree(#[trigger] t1[i], t2[i]) by {
        if i < k {
            assert(same_tree(s1[i], s2[i]));
        } else {
            assert(same_tree(s1[i + 1], s2[i + 1]));
        }
    }
}

proof fn lemma_update_same(s1: Seq<RouteNode>, s2: Seq<RouteNode>, k: int, x1: RouteNode, x2: RouteNode)
    requires
        same_list(s1, s2),
        0 <= k < s1.len(),
        same_tree(x1, x2),
    ensures
        same_list(s1.update(k, x1), s2.update(k, x2)),
{
    let t1 = s1.update(k, x1);
    let t2 = s2.update(k, x2);
    assert forall|i: int| 0 <= i < t1.len() implies same_tree(#[trigger] t1[i], t2[i]) by {
        if i != k {
            assert(same_tree(s1[i], s2[i]));
        }
    }
}

/// Walking the same segments into the same tree gives the same tree and outcome:
/// `walked` fixes the trie that an insertion builds.
pub proof fn lemma_walked_deterministic(b1: RouteNode, b2: RouteNode, a1: RouteNode, a2: RouteNode, segs: Seq<Segment>, index: int, label: Label, r1: Result<(), RouteError>, r2: Result<(), RouteError>)
    requires
        same_tree(b1, b2),
        walked(b1, a1, segs, index, label, r1),
        walked(b2, a2, segs, index, label, r2),
    ensures
        same_tree(a1, a2),
        r1 == r2,
    decreases segs.len() - index, 0int,
{
    if index < 0 || index >= segs.len() {
        if b1.route_name is Some {
            assert(node_label(b1) == node_label(b2));
            assert(b1.route_name->Some_0@ == b2.route_name->Some_0@);
        }
        assert(same_tree(a1, a2));
    } else {
        lemma_merged_deterministic(b1, b2, a1, a2, segs[index].0, segs[index].1, segs, index + 1, label, r1, r2);
    }
}

/// Merging the same segment into the same tree gives the same tree and outcome.
pub proof fn lemma_merged_deterministic(b1: RouteNode, b2: RouteNode, a1: RouteNode, a2: RouteNode, anchor: Seq<char>, p: bool, segs: Seq<Segment>, next: int, label: Label, r1: Result<(), RouteError>, r2: Result<(), RouteError>)
    requires
        same_tree(b1, b2),
        merged(b1, a1, anchor, p, segs, next, label, r1),
        merged(b2, a2, anchor, p, segs, next, label, r2),
    ensures
        same_tree(a1, a2),
        r1 == r2,
    decreases segs.len() - next, 2 * anchor.len() + 2,
{
    let s1 = b1.children@;
    let s2 = b2.children@;
    assert(same_list(s1, s2));
    lemma_first_compatible_same(s1, s2, anchor, p, 0);
    match first_compatible(s1, anchor, p, 0) {
        None => {
            assert(grown(b1, a1, anchor, p, segs, next, label, r1));
            assert(grown(b2, a2, anchor, p, segs, next, label, r2));
            let (y0, y) = choose|x0: RouteNode, x: RouteNode|
                #![trigger is_bare(x0, anchor, p), placed(s1, x)]
                is_bare(x0, anchor, p) && walked(x0, x, segs, next, label, r1) && a1.children@ == placed(s1, x);
            let (z0, z) = choose|x0: RouteNode, x: RouteNode|
                #![trigger is_bare(x0, anchor, p), placed(s2, x)]
                is_bare(x0, anchor, p) && walked(x0, x, segs, next, label, r2) && a2.children@ == placed(s2, x);
            assert(same_tree(y0, z0));
            lemma_walked_deterministic(y0, z0, y, z, segs, next, label, r1, r2);
            lemma_placed_same(s1, s2, y, z);
        },
        Some(k) => {
            lemma_first_compatible_range(s1, anchor, p, 0);
            assert(same_tree(s1[k], s2[k]));
            let c1 = s1[k];
            let c2 = s2[k];
            let n = common_prefix_len(c1.anchor@, anchor) as int;
            if n == c1.anchor@.len() && n == anchor.len() {
                let y = choose|x: RouteNode| walked(c1, x, segs, next, label, r1) && a1.children@ == s1.update(k, x);
                let z = choose|x: RouteNode| walked(c2, x, segs, next, label, r2) && a2.children@ == s2.update(k, x);
                lemma_walked_deterministic(c1, c2, y, z, segs, next, label, r1, r2);
                lemma_update_same(s1, s2, k, y, z);
            } else if n == c1.anchor@.len() && 0 < n && n <= anchor.len() {
                let rest = anchor.subrange(n, anchor.len() as int);
                let y = choose|x: RouteNode| merged(c1, x, rest, false, segs, next, label, r1) && a1.children@ == s1.update(k, x);
                let z = choose|x: RouteNode| merged(c2, x, rest, false, segs, next, label, r2) && a2.children@ == s2.update(k, x);
                lemma_merged_deterministic(c1, c2, y, z, rest, false, segs, next, label, r1, r2);
                lemma_update_same(s1, s2, k, y, z);
            } else if n == anchor.len() {
                let rest1 = s1.remove(k);
                let rest2 = s2.remove(k);
                lemma_remove_same(s1, s2, k);
                let (cut1, y0, y) = choose|cut: RouteNode, x0: RouteNode, x: RouteNode|
                    #![trigger cut_from(c1, cut, n), x0.anchor, placed(rest1, x)]
                    cut_from(c1, cut, n) && x0.anchor@ == anchor && x0.has_parameter == p
                        && x0.route_name is None && x0.route_parameter_names@.len() == 0
                        && x0.children@ == seq![cut] && walked(x0, x, segs, next, label, r1)
                        && a1.children@ == placed(rest1, x);
                let (cut2, z0, z) = choose|cut: RouteNode, x0: RouteNode, x: RouteNode|
                    #![trigger cut_from(c2, cut, n), x0.anchor, placed(rest2, x)]
                    cut_from(c2, cut, n) && x0.anchor@ == anchor && x0.has_parameter == p
                        && x0.route_name is None && x0.route_parameter_names@.len() == 0
                        && x0.children@ == seq![cut] && walked(x0, x, segs, next, label, r2)
                        && a2.children@ == placed(rest2, x);
                assert forall|i: int| 0 <= i < cut1.children@.len() implies same_tree(#[trigger] cut1.children@[i], cut2.children@[i]) by {
                    assert(same_tree(c1.children@[i], c2.children@[i]));
                }
                assert(same_tree(cut1, cut2));
                assert(same_tree(y0.children@[0], z0.children@[0]));
                assert(same_tree(y0, z0));
                lemma_walked_deterministic(y0, z0, y, z, segs, next, label, r1, r2);
                lemma_placed_same(rest1, rest2, y, z);
            } else {
                let rest1 = s1.remove(k);
                let rest2 = s2.remove(k);
                lemma_remove_same(s1, s2, k);
                let tail = anchor.subrange(n, anchor.len() as int);
                let (cut1, m01, m1, i1) = choose|cut: RouteNode, m0: RouteNode, m: RouteNode, i: RouteNode|
                    #![trigger cut_from(c1, cut, n), is_bare(m0, tail, false), node_less(m, cut), placed(rest1, i)]
                    cut_from(c1, cut, n) && is_bare(m0, tail, false)
                        && walked(m0, m, segs, next, label, r1) && i.anchor@ == c1.anchor@.subrange(0, n)
                        && i.has_parameter == c1.has_parameter && i.route_name is None
                        && i.route_parameter_names@.len() == 0
                        && i.children@ == (if node_less(m, cut) {
                        seq![m, cut]
                    } else {
                        seq![cut, m]
                    }) && a1.children@ == placed(rest1, i);
                let (cut2, m02, m2, i2) = choose|cut: RouteNode, m0: RouteNode, m: RouteNode, i: RouteNode|
                    #![trigger cut_from(c2, cut, n), is_bare(m0, tail, false), node_less(m, cut), placed(rest2, i)]
                    cut_from(c2, cut, n) && is_bare(m0, tail, false)
                        && walked(m0, m, segs, next, label, r2) && i.anchor@ == c2.anchor@.subrange(0, n)
                        && i.has_parameter == c2.has_parameter && i.route_name is None
                        && i.route_parameter_names@.len() == 0
                        && i.children@ == (if node_less(m, cut) {
                        seq![m, cut]
                    } else {
                        seq![cut, m]
                    }) && a2.children@ == placed(rest2, i);
                assert forall|j: int| 0 <= j < cut1.children@.len() implies same_tree(#[trigger] cut1.children@[j], cut2.children@[j]) by {
                    assert(same_tree(c1.children@[j], c2.children@[j]));
                }
                assert(same_tree(cut1, cut2));
                assert(same_tree(m01, m02));
                lemma_walked_deterministic(m01, m02, m1, m2, segs, next, label, r1, r2);
                assert(same_tree(i1.children@[0], i2.children@[0]));
                assert(same_tree(i1.children@[1], i2.children@[1]));
                assert(same_tree(i1, i2));
                lemma_placed_same(rest1, rest2, i1, i2);
            }
        },
    }
}

/// A template without placeholders, inserted into an empty trie, is matched by its
/// own text exactly, with no parameters (the empty template by the empty path).
pub proof fn lemma_literal_template_matches(root: RouteNode, after: RouteNode, template: Seq<char>, name: Seq<char>, max: nat)
    requires
        root.anchor@.len() == 0,
        !root.has_parameter,
        root.children@.len() == 0,
        walked(root, after, seq![(template, false)], 0, (name, Seq::empty()), Ok(())),
    ensures
        match_node(after, template, max) == Some((name, Seq::<Seq<char>>::empty(), Seq::<Seq<char>>::empty())),
{
    let segs = seq![(template, false)];
    let label = (name, Seq::<Seq<char>>::empty());
    assert(merged(root, after, template, false, segs, 1, label, Ok(())));
    assert(first_compatible(root.children@, template, false, 0) is None);
    assert(grown(root, after, template, false, segs, 1, label, Ok(())));
    let (x0, x) = choose|x0: RouteNode, x: RouteNode|
        #![trigger is_bare(x0, template, false), placed(root.children@, x)]
        is_bare(x0, template, false) && walked(x0, x, segs, 1, label, Ok(())) && after.children@
            == placed(root.children@, x);
    assert(marked(x0, x, label, Ok(())));
    assert(after.children@ =~= seq![x]);
    assert(after.anchor@.len() == 0);
    let empty = Seq::<char>::empty();
    assert(template.subrange(0, 0) =~= after.anchor@);
    assert(template.subrange(0, template.len() as int) =~= template);
    assert(consume(after, template, max) == Some((None::<Seq<char>>, template)));
    assert(template.subrange(template.len() as int, template.len() as int) =~= empty);
    assert(consume(x, template, max) == Some((None::<Seq<char>>, empty)));
    assert(match_children(x, 0, empty, max) is None);
    assert(views_of(x.route_parameter_names@) == Seq::<Seq<char>>::empty());
    assert(match_node(x, template, max) == Some((name, Seq::<Seq<char>>::empty(), captured(None))));
    assert(match_children(after, 0, template, max) == Some((name, Seq::<Seq<char>>::empty(), Seq::<Seq<char>>::empty())));
    assert(captured(None) + Seq::<Seq<char>>::empty() =~= Seq::<Seq<char>>::empty());
}

/// A successful insertion hands back the template's segments.
pub open spec fn leaf_segments(r: Result<LeafPath, RouteError>, template: Seq<char>) -> bool {
    match r {
        Ok(segs) => segments_view(segs@) == template_segments(template),
        Err(_) => true,
    }
}

/// Whether an insertion succeeded.
pub open spec fn outcome<T>(r: Result<T, RouteError>) -> Result<(), RouteError> {
    match r {
        Ok(_) => Ok(()),
        Err(e) => Err(e),
    }
}

/// Inserts route `name` with template `template` into the trie rooted at
/// `root_node_rc` and returns the segments from the root to the route's terminal
/// node. It fails, changing nothing, exactly when a route of another name already
/// has the template's shape. Otherwise the trie is the old one with the template's
/// segments walked in as `walked` states, step by step: it keeps all its routes, with
/// their parameter names, and holds route `name` at the template's shape, the one it
/// had already or else the new one with the template's parameter names.
pub fn route_node_insert(root_node_rc: &mut RouteNode, name: &str, template: &str) -> (r: Result<LeafPath, RouteError>)
    requires
        old(root_node_rc).wf(),
    ensures
        final(root_node_rc).wf(),
        final(root_node_rc).anchor == old(root_node_rc).anchor,
        final(root_node_rc).has_parameter == old(root_node_rc).has_parameter,
        r is Err <==> exists|o: Label|
            o.0 != name@ && #[trigger] has_route_from(*old(root_node_rc), template_shape(template@), o),
        r is Err ==> *final(root_node_rc) == *old(root_node_rc),
        placeholder_literals_of(template@).len() == placeholder_names_of(template@).len() + 1,
        route_added(*old(root_node_rc), *final(root_node_rc), template_shape(template@), (name@, placeholder_names_of(template@)), outcome(r)),
        leaf_segments(r, template@),
        !template@.contains('{') ==> template_segments(template@) == seq![(template@, false)]
            && placeholder_names_of(template@).len() == 0,
        r is Ok ==> walked(
            *old(root_node_rc),
            *final(root_node_rc),
            template_segments(template@),
            0,
            (name@, placeholder_names_of(template@)),
            Ok(()),
        ),
{
    let ghost old_root = *root_node_rc;
    let ghost label = (name@, placeholder_names_of(template@));
    let (segs, names) = template_parts(template);
    proof {
        if !template@.contains('{') {
            assert(template_segments(template@) =~= seq![(template@, false)]);
        }
    }
    let shape = shape_of_segments(&segs);
    let name = String::from_str(name);
    assert(shape@.subrange(0, shape@.len() as int) =~= shape@);
    if route_conflict(root_node_rc, &shape, 0, &name) {
        let ghost o = choose|o: Label| o.0 != name@ && #[trigger] has_route_from(*root_node_rc, template_shape(template@), o);
        assert(has_route_from(*root_node_rc, template_shape(template@), o));
        return Err(RouteError::AmbiguousRoute);
    }
    let inner = route_node_extend(root_node_rc, &segs, 0, &name, &names);
    assert(segments_view(segs@) == template_segments(template@));
    assert(views_of(names@) == placeholder_names_of(template@));
    assert((name@, views_of(names@)) == label);
    assert(walked(old_root, *root_node_rc, segments_view(segs@), 0int, (name@, views_of(names@)), inner));
    assert(walked(old_root, *root_node_rc, template_segments(template@), 0int, label, inner));
    match inner {
        Ok(u) => {
            assert(u == ());
            assert(inner == Ok::<(), RouteError>(()));
            assert(walked(old_root, *root_node_rc, template_segments(template@), 0int, label, Ok(())));
            Ok(segs)
        },
        Err(e) => Err(e),
    }
}

} // verus!
