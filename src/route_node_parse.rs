//! The match engine: bounded backtracking descent through the trie.
use vstd::prelude::*;
use vstd::string::{StrSliceExecFns, StringExecFns};
use crate::route_node::{RouteNode, Shape, has_route, has_route_from, lemma_has_route_unfold, node_shape};
use crate::route_node_merge::{lemma_after_concat, lemma_slots_concat, lemma_slots_literal, parameter_slots};
use crate::string::chars_of;
use crate::template::views_of;

verus! {

/// A match: the route's name, its parameter names and the captured values.
pub type MatchView = (Seq<char>, Seq<Seq<char>>, Seq<Seq<char>>);

/// `pat` occurs in `s` at position `i`.
pub open spec fn occurs_at(s: Seq<char>, pat: Seq<char>, i: int) -> bool {
    0 <= i && i + pat.len() <= s.len() && s.subrange(i, i + pat.len()) == pat
}

/// The first position at or after `i` where `pat` occurs in `s`.
pub open spec fn find_from(s: Seq<char>, pat: Seq<char>, i: int) -> Option<int>
    decreases s.len() + 1 - i,
{
    if i < 0 || i + pat.len() > s.len() {
        None
    } else if occurs_at(s, pat, i) {
        Some(i)
    } else {
        find_from(s, pat, i + 1)
    }
}

/// What a node consumes from the front of `path`: the captured parameter value (for
/// a parameter node) and the rest of the path; `None` when the node does not match.
/// A parameter value is searched for only within the first `anchor.len() + max`
/// characters, and an empty anchor takes the whole remaining path.
pub open spec fn consume(n: RouteNode, path: Seq<char>, max: nat) -> Option<(Option<Seq<char>>, Seq<char>)> {
    let anchor = n.anchor@;
    if n.has_parameter {
        if path.len() == 0 {
            None
        } else if anchor.len() == 0 {
            Some((Some(path), Seq::<char>::empty()))
        } else {
            let end = if anchor.len() + max < path.len() {
                (anchor.len() + max) as int
            } else {
                path.len() as int
            };
            match find_from(path.subrange(0, end), anchor, 0) {
                Some(k) => Some((Some(path.subrange(0, k)), path.subrange(k + anchor.len(), path.len() as int))),
                None => None,
            }
        }
    } else if occurs_at(path, anchor, 0) {
        Some((None, path.subrange(anchor.len() as int, path.len() as int)))
    } else {
        None
    }
}

/// The seq holding the captured value, if any.
pub open spec fn captured(v: Option<Seq<char>>) -> Seq<Seq<char>> {
    match v {
        Some(x) => seq![x],
        None => Seq::empty(),
    }
}

/// The first match of `path` in the subtree at `n`: children are tried in order,
/// then `n` itself accepts when nothing is left and it ends a route.
pub open spec fn match_node(n: RouteNode, path: Seq<char>, max: nat) -> Option<MatchView>
    decreases n, n.children@.len() + 1,
{
    match consume(n, path, max) {
        None => None,
        Some((v, rest)) => match match_children(n, 0, rest, max) {
            Some(r) => Some((r.0, r.1, captured(v) + r.2)),
            None => if rest.len() == 0 && n.route_name is Some {
                Some((n.route_name->Some_0@, views_of(n.route_parameter_names@), captured(v)))
            } else {
                None
            },
        },
    }
}

/// The first match of `path` among the children of `n` from index `i` on.
pub open spec fn match_children(n: RouteNode, i: nat, path: Seq<char>, max: nat) -> Option<MatchView>
    decreases n, n.children@.len() - i,
{
    if i >= n.children@.len() {
        None
    } else {
        match match_node(n.children@[i as int], path, max) {
            Some(r) => Some(r),
            None => match_children(n, i + 1, path, max),
        }
    }
}

/// A parameter node with a non-empty anchor captures at most `max` characters: the
/// anchor is looked for only within the first `anchor.len() + max` characters.
pub proof fn lemma_capture_within_window(n: RouteNode, path: Seq<char>, max: nat)
    requires
        n.has_parameter,
        n.anchor@.len() > 0,
        consume(n, path, max) is Some,
    ensures
        consume(n, path, max)->Some_0.0 is Some,
        consume(n, path, max)->Some_0.0->Some_0.len() <= max,
{
    let anchor = n.anchor@;
    let end = if anchor.len() + max < path.len() {
        (anchor.len() + max) as int
    } else {
        path.len() as int
    };
    lemma_find_from_found(path.subrange(0, end), anchor, 0);
}

/// The number of parameter slots of a node's own shape.
proof fn lemma_node_slots(n: RouteNode)
    ensures
        parameter_slots(node_shape(n)) == if n.has_parameter { 1nat } else { 0nat },
{
    let flag: Shape = if n.has_parameter { seq![None] } else { Seq::empty() };
    lemma_slots_concat(flag, n.anchor@.map_values(|c: char| Some(c)));
    lemma_slots_literal(n.anchor@);
    if n.has_parameter {
        assert(flag.drop_last() =~= Seq::<Option<char>>::empty());
        assert(parameter_slots(Seq::<Option<char>>::empty()) == 0);
    }
}

/// A match found below `n` is a route that `n`'s subtree holds, with one captured
/// value per parameter slot of its shape.
pub proof fn lemma_match_sound(n: RouteNode, path: Seq<char>, max: nat)
    requires
        match_node(n, path, max) is Some,
    ensures
        ({
            let m = match_node(n, path, max)->Some_0;
            exists|t: Shape| #[trigger] has_route(n, t, (m.0, m.1)) && m.2.len() == parameter_slots(t)
        }),
    decreases n, n.children@.len() + 1,
{
    let (v, rest) = consume(n, path, max)->Some_0;
    let ns = node_shape(n);
    lemma_node_slots(n);
    assert(captured(v).len() == if n.has_parameter { 1nat } else { 0nat });
    match match_children(n, 0, rest, max) {
        Some(r) => {
            let j = lemma_match_children_sound(n, 0, rest, max);
            let t2 = choose|t2: Shape| #[trigger] has_route(n.children@[j], t2, (r.0, r.1)) && r.2.len() == parameter_slots(t2);
            let t = ns + t2;
            lemma_after_concat(ns, t2);
            lemma_has_route_unfold(n, t, (r.0, r.1));
            assert(has_route_from(n, t2, (r.0, r.1)));
            lemma_slots_concat(ns, t2);
            assert(has_route(n, t, (r.0, r.1)));
            assert(match_node(n, path, max) == Some((r.0, r.1, captured(v) + r.2)));
            assert((captured(v) + r.2).len() == parameter_slots(t));
            let m = match_node(n, path, max)->Some_0;
            assert(has_route(n, t, (m.0, m.1)) && m.2.len() == parameter_slots(t));
        },
        None => {
            let t = ns;
            lemma_after_concat(ns, Seq::<Option<char>>::empty());
            assert(ns + Seq::<Option<char>>::empty() =~= ns);
            lemma_has_route_unfold(n, t, (n.route_name->Some_0@, views_of(n.route_parameter_names@)));
            assert(has_route(n, t, (n.route_name->Some_0@, views_of(n.route_parameter_names@))));
            assert(match_node(n, path, max) == Some((n.route_name->Some_0@, views_of(n.route_parameter_names@), captured(v))));
            let m = match_node(n, path, max)->Some_0;
            assert(has_route(n, t, (m.0, m.1)));
            assert(m.2.len() == parameter_slots(t));
        },
    }
}

/// A match found among the children of `n` from `i` on comes from some child `j`,
/// whose subtree holds it as a route with one value per parameter slot.
proof fn lemma_match_children_sound(n: RouteNode, i: nat, path: Seq<char>, max: nat) -> (j: int)
    requires
        match_children(n, i, path, max) is Some,
    ensures
        0 <= j < n.children@.len(),
        ({
            let m = match_children(n, i, path, max)->Some_0;
            exists|t: Shape| #[trigger] has_route(n.children@[j], t, (m.0, m.1)) && m.2.len() == parameter_slots(t)
        }),
    decreases n, n.children@.len() - i,
{
    match match_node(n.children@[i as int], path, max) {
        Some(r) => {
            lemma_match_sound(n.children@[i as int], path, max);
            i as int
        },
        None => lemma_match_children_sound(n, i + 1, path, max),
    }
}

/// The view of a match result.
pub open spec fn match_result_view(r: Option<(String, Vec<String>, Vec<String>)>) -> Option<MatchView> {
    match r {
        Some(m) => Some((m.0@, views_of(m.1@), views_of(m.2@))),
        None => None,
    }
}

/// Whether `pat` occurs in `s` at position `i`.
fn occurs_at_exec(s: &Vec<char>, pat: &Vec<char>, i: usize) -> (r: bool)
    ensures
        r == occurs_at(s@, pat@, i as int),
{
    if i > s.len() || pat.len() > s.len() - i {
        return false;
    }
    let mut k: usize = 0;
    let mut same = true;
    while same && k < pat.len()
        invariant
            i + pat@.len() <= s.len(),
            k <= pat@.len(),
            forall|j: int| 0 <= j < k ==> s@[i + j] == pat@[j],
            !same ==> k < pat@.len() && s@[i + k] != pat@[k as int],
        decreases pat@.len() - k, if same { 1int } else { 0int },
    {
        if s[i + k] == pat[k] {
            k += 1;
        } else {
            same = false;
        }
    }
    proof {
        let w = s@.subrange(i as int, i + pat@.len());
        if k == pat.len() {
            assert(w =~= pat@);
        } else {
            assert(w[k as int] != pat@[k as int]);
        }
    }
    k == pat.len()
}

/// The first position where `pat` occurs in `s`.
fn find_first(s: &Vec<char>, pat: &Vec<char>) -> (r: Option<usize>)
    ensures
        match r {
            Some(k) => find_from(s@, pat@, 0) == Some(k as int),
            None => find_from(s@, pat@, 0) is None,
        },
{
    if pat.len() == 0 {
        assert(s@.subrange(0, 0) =~= pat@);
        return Some(0);
    }
    let mut i: usize = 0;
    while i <= s.len() && pat.len() <= s.len() - i
        invariant
            pat@.len() > 0,
            find_from(s@, pat@, 0) == find_from(s@, pat@, i as int),
        decreases s@.len() + 1 - i,
    {
        if occurs_at_exec(s, pat, i) {
            return Some(i);
        }
        i += 1;
    }
    None
}

/// The characters of `v` from `from` up to `to`.
pub(crate) fn copy_range(v: &Vec<char>, from: usize, to: usize) -> (r: Vec<char>)
    requires
        from <= to <= v@.len(),
    ensures
        r@ == v@.subrange(from as int, to as int),
{
    let mut r: Vec<char> = Vec::new();
    let mut i: usize = from;
    while i < to
        invariant
            from <= i <= to,
            to <= v@.len(),
            r@ == v@.subrange(from as int, i as int),
        decreases to - i,
    {
        r.push(v[i]);
        i += 1;
        assert(r@ =~= v@.subrange(from as int, i as int));
    }
    r
}

/// Copies of the strings of `v`.
pub(crate) fn clone_strings(v: &Vec<String>) -> (r: Vec<String>)
    ensures
        r@ == v@,
{
    let mut r: Vec<String> = Vec::new();
    let mut i: usize = 0;
    while i < v.len()
        invariant
            i <= v@.len(),
            r@ == v@.subrange(0, i as int),
        decreases v@.len() - i,
    {
        r.push(v[i].clone());
        i += 1;
        assert(r@ =~= v@.subrange(0, i as int));
    }
    assert(r@ =~= v@);
    r
}

/// The match of the path from `start` on in the subtree at `node`.
fn parse_from(node: &RouteNode, path: &str, chars: &Vec<char>, start: usize, max: usize) -> (r: Option<(String, Vec<String>, Vec<String>)>)
    requires
        chars@ == path@,
        start <= chars@.len(),
    ensures
        match_result_view(r) == match_node(*node, chars@.subrange(start as int, chars@.len() as int), max as nat),
    decreases node,
{
    let n = chars.len();
    let ghost rest0 = chars@.subrange(start as int, n as int);
    let alen = node.anchor.len();
    let mut own: Vec<String> = Vec::new();
    let pos: usize;
    if node.has_parameter {
        if start == n {
            return None;
        }
        if alen == 0 {
            own.push(String::from_str(path.substring_char(start, n)));
            pos = n;
        } else {
            let room = n - start;
            let end: usize = if max < room && alen < room - max {
                alen + max
            } else {
                room
            };
            let window = copy_range(chars, start, start + end);
            assert(window@ =~= rest0.subrange(0, end as int));
            match find_first(&window, &node.anchor) {
                Some(k) => {
                    proof {
                        assert(occurs_at(window@, node.anchor@, k as int)) by {
                            reveal_with_fuel(find_from, 1);
                            lemma_find_from_found(window@, node.anchor@, 0);
                        }
                    }
                    own.push(String::from_str(path.substring_char(start, start + k)));
                    pos = start + k + alen;
                    assert(own@[0]@ =~= rest0.subrange(0, k as int));
                    assert(chars@.subrange(pos as int, n as int) =~= rest0.subrange(k + alen, rest0.len() as int));
                },
                None => {
                    return None;
                },
            }
        }
    } else {
        if !occurs_at_exec(chars, &node.anchor, start) {
            assert(!occurs_at(rest0, node.anchor@, 0)) by {
                if occurs_at(rest0, node.anchor@, 0) {
                    assert(chars@.subrange(start as int, start + alen) =~= rest0.subrange(0, alen as int));
                }
            }
            return None;
        }
        assert(chars@.subrange(start as int, start + alen) =~= rest0.subrange(0, alen as int));
        pos = start + alen;
        assert(chars@.subrange(pos as int, n as int) =~= rest0.subrange(alen as int, rest0.len() as int));
    }
    let ghost rest = chars@.subrange(pos as int, n as int);
    let ghost v = consume(*node, rest0, max as nat)->Some_0.0;
    assert(consume(*node, rest0, max as nat) == Some((v, rest)));
    assert(views_of(own@) =~= captured(v));
    let mut i: usize = 0;
    while i < node.children.len()
        invariant
            i <= node.children@.len(),
            pos <= n,
            n == chars@.len(),
            chars@ == path@,
            rest == chars@.subrange(pos as int, n as int),
            match_children(*node, 0, rest, max as nat) == match_children(*node, i as nat, rest, max as nat),
            rest0 == chars@.subrange(start as int, n as int),
            consume(*node, rest0, max as nat) == Some((v, rest)),
            views_of(own@) == captured(v),
        decreases node.children@.len() - i,
    {
        let r = parse_from(&node.children[i], path, chars, pos, max);
        match r {
            Some((name, names, mut values)) => {
                let ghost own_v = own@;
                let ghost values_v = values@;
                let mut all = own;
                all.append(&mut values);
                assert(views_of(all@) =~= views_of(own_v) + views_of(values_v));
                return Some((name, names, all));
            },
            None => {
                i += 1;
            },
        }
    }
    if pos == n {
        match &node.route_name {
            Some(name) => {
                assert(rest.len() == 0);
                return Some((name.clone(), clone_strings(&node.route_parameter_names), own));
            },
            None => {},
        }
    }
    None
}

/// A found position is an occurrence.
proof fn lemma_find_from_found(s: Seq<char>, pat: Seq<char>, i: int)
    requires
        find_from(s, pat, i) is Some,
    ensures
        occurs_at(s, pat, find_from(s, pat, i)->Some_0),
    decreases s.len() + 1 - i,
{
    if !(i < 0 || i + pat.len() > s.len()) && !occurs_at(s, pat, i) {
        lemma_find_from_found(s, pat, i + 1);
    }
}

/// The first match of `path` in the trie rooted at `node_rc`: the route name, its
/// parameter names, and the captured parameter values in template order.
pub fn route_node_parse(node_rc: &RouteNode, path: &str, maximum_parameter_value_length: usize) -> (r: Option<(String, Vec<String>, Vec<String>)>)
    ensures
        match_result_view(r) == match_node(*node_rc, path@, maximum_parameter_value_length as nat),
{
    let chars = chars_of(path);
    assert(chars@.subrange(0, chars@.len() as int) =~= path@);
    parse_from(node_rc, path, &chars, 0, maximum_parameter_value_length)
}

} // verus!
