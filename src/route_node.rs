//! The trie node, its canonical sibling order and its well-formedness.
use vstd::prelude::*;
use crate::string::{common_prefix_len, find_common_prefix_length};
use crate::template::views_of;

verus! {

/// One step of matching: an optional parameter value followed by a literal anchor.
#[derive(Debug, PartialEq, Eq)]
pub struct RouteNode {
    /// The route that ends at this node, if any.
    pub route_name: Option<String>,
    /// The route's parameter names in template order; meaningful when `route_name` is set.
    pub route_parameter_names: Vec<String>,
    /// Literal text that must follow the parameter value (if any).
    pub anchor: Vec<char>,
    /// Whether this node first consumes a parameter value.
    pub has_parameter: bool,
    /// The continuations, kept in canonical order.
    pub children: Vec<RouteNode>,
}

/// Code-point lexicographic order on character sequences.
pub open spec fn lex_less(a: Seq<char>, b: Seq<char>) -> bool
    decreases a.len(),
{
    if a.len() == 0 || b.len() == 0 {
        a.len() == 0 && b.len() > 0
    } else if a[0] != b[0] {
        a[0] < b[0]
    } else {
        lex_less(a.drop_first(), b.drop_first())
    }
}

/// The canonical order of siblings: longer anchors first; among equal lengths,
/// literal nodes before parameter nodes; then anchors in ascending order.
pub open spec fn key_less(a_anchor: Seq<char>, a_param: bool, b_anchor: Seq<char>, b_param: bool) -> bool {
    if a_anchor.len() != b_anchor.len() {
        a_anchor.len() > b_anchor.len()
    } else if a_param != b_param {
        !a_param
    } else {
        lex_less(a_anchor, b_anchor)
    }
}

/// `a` comes strictly before `b` among siblings.
pub open spec fn node_less(a: RouteNode, b: RouteNode) -> bool {
    key_less(a.anchor@, a.has_parameter, b.anchor@, b.has_parameter)
}

/// The nodes of `s` are in strictly increasing canonical order.
pub open spec fn sorted_nodes(s: Seq<RouteNode>) -> bool {
    forall|i: int, j: int| 0 <= i < j < s.len() ==> node_less(#[trigger] s[i], #[trigger] s[j])
}

/// Siblings of the same kind (literal or parameter) with non-empty anchors start
/// with distinct characters.
pub open spec fn distinct_heads(s: Seq<RouteNode>) -> bool {
    forall|i: int, j: int|
        0 <= i < s.len() && 0 <= j < s.len() && (#[trigger] s[i]).has_parameter
            == (#[trigger] s[j]).has_parameter && s[i].anchor@.len() > 0 && s[j].anchor@.len()
            > 0 && s[i].anchor@[0] == s[j].anchor@[0] ==> i == j
}

/// The conditions that one node's children meet.
pub open spec fn children_ok(s: Seq<RouteNode>) -> bool {
    &&& sorted_nodes(s)
    &&& distinct_heads(s)
}

/// Every child of `n` takes a parameter.
pub open spec fn parameter_children(n: RouteNode) -> bool {
    forall|j: int| 0 <= j < n.children@.len() ==> (#[trigger] n.children@[j]).has_parameter
}

impl RouteNode {
    /// Every node's children are in strictly increasing canonical order, no two of
    /// the same kind start alike, and below the root a node with an empty anchor
    /// continues only with parameter nodes.
    pub open spec fn wf(self) -> bool
        decreases self,
    {
        &&& children_ok(self.children@)
        &&& forall|i: int|
            0 <= i < self.children@.len() ==> (#[trigger] self.children@[i]).wf() && (
            self.children@[i].anchor@.len() == 0 ==> parameter_children(self.children@[i]))
    }
}

/// The shape of a route: `None` for a parameter slot, `Some(c)` for a literal character.
pub type Shape = Seq<Option<char>>;

/// The shape of one segment: a parameter slot (if any) followed by the anchor.
pub open spec fn segment_shape(anchor: Seq<char>, has_parameter: bool) -> Shape {
    (if has_parameter {
        seq![None]
    } else {
        Seq::<Option<char>>::empty()
    }) + anchor.map_values(|c: char| Some(c))
}

/// The shape that a node adds to the routes below its parent.
pub open spec fn node_shape(n: RouteNode) -> Shape {
    segment_shape(n.anchor@, n.has_parameter)
}

/// The shape of the segments of `segs` from index `i` on.
pub open spec fn shape_from(segs: Seq<(Seq<char>, bool)>, i: int) -> Shape
    decreases segs.len() - i,
{
    if i < 0 || i >= segs.len() {
        Seq::empty()
    } else {
        segment_shape(segs[i].0, segs[i].1) + shape_from(segs, i + 1)
    }
}

/// `t` begins with `a`.
pub open spec fn starts_with(t: Shape, a: Shape) -> bool {
    a.len() <= t.len() && t.subrange(0, a.len() as int) == a
}

/// What is left of `t` after its first `n` tokens.
pub open spec fn after(t: Shape, n: int) -> Shape {
    t.subrange(n, t.len() as int)
}

/// A route's label: its name and its parameter names in template order.
pub type Label = (Seq<char>, Seq<Seq<char>>);

/// The label of the route that ends at `n`, if any.
pub open spec fn node_label(n: RouteNode) -> Option<Label> {
    match n.route_name {
        Some(s) => Some((s@, views_of(n.route_parameter_names@))),
        None => None,
    }
}

/// A route labelled `name` of shape `t` (relative to the node's parent) ends in the
/// subtree at `n`.
pub open spec fn has_route(n: RouteNode, t: Shape, name: Label) -> bool
    decreases n,
{
    starts_with(t, node_shape(n)) && {
        let rest = after(t, node_shape(n).len() as int);
        (rest.len() == 0 && node_label(n) == Some(name)) || exists|i: int|
            0 <= i < n.children@.len() && has_route(#[trigger] n.children@[i], rest, name)
    }
}

/// A route labelled `name` of shape `t` (relative to `n` itself) ends at `n` or below it.
pub open spec fn has_route_from(n: RouteNode, t: Shape, name: Label) -> bool {
    (t.len() == 0 && node_label(n) == Some(name)) || exists|i: int|
        0 <= i < n.children@.len() && has_route(#[trigger] n.children@[i], t, name)
}

/// A route below `n` is a route below `n`'s shape.
pub proof fn lemma_has_route_unfold(n: RouteNode, t: Shape, name: Label)
    ensures
        has_route(n, t, name) <==> starts_with(t, node_shape(n)) && has_route_from(
            n,
            after(t, node_shape(n).len() as int),
            name,
        ),
{
}

/// Splitting a prefix in two.
pub proof fn lemma_starts_with_concat(t: Shape, a: Shape, b: Shape)
    ensures
        (starts_with(t, a) && starts_with(after(t, a.len() as int), b)) <==> starts_with(t, a + b),
        starts_with(t, a + b) ==> after(after(t, a.len() as int), b.len() as int) == after(
            t,
            (a + b).len() as int,
        ),
{
    if starts_with(t, a) && starts_with(after(t, a.len() as int), b) {
        assert(t.subrange(0, (a + b).len() as int) =~= a + b) by {
            assert forall|i: int| 0 <= i < (a + b).len() implies t.subrange(0, (a + b).len() as int)[i] == (a + b)[i] by {
                if i < a.len() {
                    assert(t.subrange(0, a.len() as int)[i] == a[i]);
                } else {
                    assert(after(t, a.len() as int).subrange(0, b.len() as int)[i - a.len()] == b[i - a.len()]);
                }
            }
        }
    }
    if starts_with(t, a + b) {
        assert(t.subrange(0, a.len() as int) =~= a) by {
            assert forall|i: int| 0 <= i < a.len() implies t.subrange(0, a.len() as int)[i] == a[i] by {
                assert(t.subrange(0, (a + b).len() as int)[i] == (a + b)[i]);
            }
        }
        assert(after(t, a.len() as int).subrange(0, b.len() as int) =~= b) by {
            assert forall|i: int| 0 <= i < b.len() implies after(t, a.len() as int).subrange(0, b.len() as int)[i] == b[i] by {
                assert(t.subrange(0, (a + b).len() as int)[i + a.len()] == (a + b)[i + a.len()]);
            }
        }
        assert(after(after(t, a.len() as int), b.len() as int) =~= after(t, (a + b).len() as int));
    }
}

/// A segment's shape is the shape of its anchor's first part followed by the shape
/// of the literal rest.
pub proof fn lemma_segment_shape_split(anchor: Seq<char>, has_parameter: bool, c: int)
    requires
        0 <= c <= anchor.len(),
    ensures
        segment_shape(anchor, has_parameter) == (segment_shape(anchor.subrange(0, c), has_parameter)
            + segment_shape(anchor.subrange(c, anchor.len() as int), false)),
{
    let m = |x: char| Some(x);
    assert(anchor.map_values(m) =~= anchor.subrange(0, c).map_values(m) + anchor.subrange(c, anchor.len() as int).map_values(m));
    assert(segment_shape(anchor.subrange(c, anchor.len() as int), false) =~= anchor.subrange(c, anchor.len() as int).map_values(m));
    assert(segment_shape(anchor, has_parameter) =~= segment_shape(anchor.subrange(0, c), has_parameter)
            + segment_shape(anchor.subrange(c, anchor.len() as int), false));
}

proof fn lemma_lex_irreflexive(a: Seq<char>)
    ensures
        !lex_less(a, a),
    decreases a.len(),
{
    if a.len() > 0 {
        lemma_lex_irreflexive(a.drop_first());
    }
}

proof fn lemma_lex_transitive(a: Seq<char>, b: Seq<char>, c: Seq<char>)
    requires
        lex_less(a, b),
        lex_less(b, c),
    ensures
        lex_less(a, c),
    decreases a.len(),
{
    if a.len() > 0 && b.len() > 0 && c.len() > 0 && a[0] == b[0] && b[0] == c[0] {
        lemma_lex_transitive(a.drop_first(), b.drop_first(), c.drop_first());
    }
}

proof fn lemma_lex_total(a: Seq<char>, b: Seq<char>)
    requires
        a != b,
    ensures
        lex_less(a, b) || lex_less(b, a),
    decreases a.len(),
{
    if a.len() > 0 && b.len() > 0 && a[0] == b[0] {
        if a.drop_first() == b.drop_first() {
            assert(a =~= seq![a[0]] + a.drop_first());
            assert(b =~= seq![b[0]] + b.drop_first());
        }
        lemma_lex_total(a.drop_first(), b.drop_first());
    } else if a.len() > 0 && b.len() > 0 {
        assert(a[0] != b[0]);
    } else if a.len() == 0 && b.len() == 0 {
        assert(a =~= b);
    }
}

/// `key_less` is a strict total order.
pub proof fn lemma_key_order(a: Seq<char>, ap: bool, b: Seq<char>, bp: bool, c: Seq<char>, cp: bool)
    ensures
        !key_less(a, ap, a, ap),
        key_less(a, ap, b, bp) && key_less(b, bp, c, cp) ==> key_less(a, ap, c, cp),
        (a, ap) != (b, bp) ==> key_less(a, ap, b, bp) || key_less(b, bp, a, ap),
        key_less(a, ap, b, bp) ==> !key_less(b, bp, a, ap),
{
    lemma_lex_irreflexive(a);
    if key_less(a, ap, b, bp) && key_less(b, bp, c, cp) && a.len() == b.len() && b.len()
        == c.len() && ap == bp && bp == cp {
        lemma_lex_transitive(a, b, c);
    }
    if (a, ap) != (b, bp) && a.len() == b.len() && ap == bp {
        lemma_lex_total(a, b);
    }
    if key_less(a, ap, b, bp) && key_less(b, bp, a, ap) && a.len() == b.len() && ap == bp {
        lemma_lex_transitive(a, b, a);
    }
}

/// Among siblings, which matching tries in order, a longer anchor comes first, and
/// at equal length a literal node comes before a parameter node.
pub proof fn lemma_sibling_priority(n: RouteNode, i: int, j: int)
    requires
        n.wf(),
        0 <= i < n.children@.len(),
        0 <= j < n.children@.len(),
        n.children@[i].anchor@.len() > n.children@[j].anchor@.len() || (n.children@[i].anchor@.len()
            == n.children@[j].anchor@.len() && !n.children@[i].has_parameter
            && n.children@[j].has_parameter),
    ensures
        i < j,
{
    let a = n.children@[i];
    let b = n.children@[j];
    lemma_key_order(a.anchor@, a.has_parameter, b.anchor@, b.has_parameter, a.anchor@, a.has_parameter);
    if j < i {
        assert(node_less(b, a));
    }
}

proof fn lemma_lex_by_prefix(a: Seq<char>, b: Seq<char>)
    ensures
        lex_less(a, b) <==> {
            let k = common_prefix_len(a, b) as int;
            (k < a.len() && k < b.len() && a[k] < b[k]) || (k == a.len() && k
                < b.len())
        },
    decreases a.len(),
{
    if a.len() > 0 && b.len() > 0 && a[0] == b[0] {
        lemma_lex_by_prefix(a.drop_first(), b.drop_first());
    }
}

impl RouteNode {
    /// A root: no anchor, no parameter, no route and no children.
    pub fn new() -> (r: RouteNode)
        ensures
            r.wf(),
            r.anchor@.len() == 0,
            !r.has_parameter,
            r.route_name is None,
            r.children@.len() == 0,
    {
        let r = RouteNode {
            route_name: None,
            route_parameter_names: Vec::new(),
            anchor: Vec::new(),
            has_parameter: false,
            children: Vec::new(),
        };
        assert(r.wf());
        r
    }

    /// Whether a node with key (`anchor`, `has_parameter`) comes strictly before
    /// this one among siblings.
    pub fn key_precedes(&self, anchor: &Vec<char>, has_parameter: bool) -> (r: bool)
        ensures
            r == key_less(anchor@, has_parameter, self.anchor@, self.has_parameter),
    {
        key_precedes(anchor, has_parameter, &self.anchor, self.has_parameter)
    }

    /// Whether this node comes strictly before `other` among siblings.
    pub fn precedes(&self, other: &RouteNode) -> (r: bool)
        ensures
            r == node_less(*self, *other),
    {
        key_precedes(&self.anchor, self.has_parameter, &other.anchor, other.has_parameter)
    }
}

/// Whether key (`a`, `a_param`) comes strictly before key (`b`, `b_param`).
pub fn key_precedes(a: &Vec<char>, a_param: bool, b: &Vec<char>, b_param: bool) -> (r: bool)
    ensures
        r == key_less(a@, a_param, b@, b_param),
{
    if a.len() != b.len() {
        a.len() > b.len()
    } else if a_param != b_param {
        !a_param
    } else {
        let k = find_common_prefix_length(a, b);
        proof {
            lemma_lex_by_prefix(a@, b@);
        }
        k < a.len() && a[k] < b[k]
    }
}

} // verus!
