//! The router: a trie of named templates, with value encoding and the scan bound.
use vstd::prelude::*;
use vstd::string::StringExecFns;
use crate::codec::{decode_parameter_value, decoded_or_raw, encode_value, percent_encoded};
use crate::route::Route;
use crate::route_node::RouteNode;
use crate::route_node::{Label, Shape, after, has_route, has_route_from, lemma_has_route_unfold, node_shape};
use crate::route_node_merge::{walked, lemma_template_count, lemma_template_slots, parameter_slots, route_added, route_node_insert, template_parts, template_segments, template_shape, RouteError};
use crate::route_node_parse::{lemma_match_sound, match_node, route_node_parse};
use crate::route_node_stringify::{Segment, segments_view, parameter_count, route_node_stringify, rendered};
use crate::template::{placeholder_names_of, views_of};

verus! {

/// The scan bound a new router starts with.
pub const DEFAULT_MAXIMUM_PARAMETER_VALUE_LENGTH: usize = 20;

/// Matches paths against named templates and renders paths from them.
pub struct Router {
    /// The trie's root; its children hold the templates' first segments.
    pub root_node: RouteNode,
    /// How far past a parameter node's anchor length a match looks for the anchor.
    pub maximum_parameter_value_length: usize,
    /// What each successful insertion registered under its name, latest first.
    pub registrations: Vec<Registration>,
}

/// A route name's registration: its template's segments and parameter names.
pub struct Registration {
    pub name: String,
    pub segments: Vec<(Vec<char>, bool)>,
    pub parameter_names: Vec<String>,
}

/// The segments and parameter names registered under `name`: the first entry of
/// `regs` from index `i` on with that name.
pub open spec fn registration_of(regs: Seq<Registration>, name: Seq<char>, i: int) -> Option<(Seq<Segment>, Seq<Seq<char>>)>
    decreases regs.len() - i,
{
    if i < 0 || i >= regs.len() {
        None
    } else if regs[i].name@ == name {
        Some((segments_view(regs[i].segments@), views_of(regs[i].parameter_names@)))
    } else {
        registration_of(regs, name, i + 1)
    }
}

/// Registered segments and names agree in number when every registration's do.
proof fn lemma_registration_count(regs: Seq<Registration>, name: Seq<char>, i: int)
    requires
        0 <= i,
        forall|j: int| 0 <= j < regs.len() ==> parameter_count(segments_view(#[trigger] regs[j].segments@))
            == regs[j].parameter_names@.len(),
    ensures
        registration_of(regs, name, i) is Some ==> parameter_count(registration_of(regs, name, i)->Some_0.0)
            == registration_of(regs, name, i)->Some_0.1.len(),
    decreases regs.len() - i,
{
    if i < regs.len() && regs[i].name@ != name {
        lemma_registration_count(regs, name, i + 1);
    }
}

/// A registration put in front shadows the others only for its own name.
proof fn lemma_registration_front(x: Registration, regs: Seq<Registration>, name: Seq<char>, i: int)
    requires
        0 <= i <= regs.len(),
    ensures
        registration_of(seq![x] + regs, name, i + 1) == registration_of(regs, name, i),
    decreases regs.len() - i,
{
    if i < regs.len() {
        assert((seq![x] + regs)[i + 1] == regs[i]);
        lemma_registration_front(x, regs, name, i + 1);
    }
}

/// The value stored under `key` (the first pair with that key).
pub open spec fn lookup(params: Seq<(String, String)>, key: Seq<char>) -> Option<Seq<char>>
    decreases params.len(),
{
    if params.len() == 0 {
        None
    } else if params[0].0@ == key {
        Some(params[0].1@)
    } else {
        lookup(params.drop_first(), key)
    }
}

/// The path that rendering route `name` (as last registered) with `params` gives:
/// `None` when the name is not registered or a parameter of it has no value.
pub open spec fn stringify_route_spec(regs: Seq<Registration>, name: Seq<char>, params: Seq<(String, String)>) -> Option<Seq<char>> {
    match registration_of(regs, name, 0) {
        None => None,
        Some((segs, names)) => if (forall|j: int| 0 <= j < names.len() ==> lookup(params, #[trigger] names[j]) is Some) {
            let vals = Seq::new(names.len(), |j: int| percent_encoded(lookup(params, names[j])->Some_0));
            if parameter_count(segs) == vals.len() {
                Some(rendered(segs, vals))
            } else {
                None
            }
        } else {
            None
        },
    }
}

/// The value of `key` in `params`.
fn lookup_value<'a>(params: &'a Vec<(String, String)>, key: &String) -> (r: Option<&'a String>)
    ensures
        match r {
            Some(v) => lookup(params@, key@) == Some(v@),
            None => lookup(params@, key@) is None,
        },
{
    let mut i: usize = 0;
    assert(params@.subrange(0, params@.len() as int) =~= params@);
    while i < params.len()
        invariant
            i <= params@.len(),
            lookup(params@, key@) == lookup(params@.subrange(i as int, params@.len() as int), key@),
        decreases params@.len() - i,
    {
        let ghost rest = params@.subrange(i as int, params@.len() as int);
        assert(rest.drop_first() =~= params@.subrange(i + 1, params@.len() as int));
        if params[i].0.eq(key) {
            return Some(&params[i].1);
        }
        i += 1;
    }
    None
}

impl Router {
    /// The router's trie is well formed with an empty root, each route's parameter names number its
    /// parameter slots, and each registration has one parameter name per parameter
    /// segment.
    pub open spec fn wf(&self) -> bool {
        &&& self.root_node.wf()
        &&& self.root_node.anchor@.len() == 0
        &&& !self.root_node.has_parameter
        &&& forall|t: Shape, l: Label| #[trigger] has_route_from(self.root_node, t, l) ==> l.1.len() == parameter_slots(t)
        &&& forall|i: int| 0 <= i < self.registrations@.len() ==> parameter_count(segments_view(#[trigger] self.registrations@[i].segments@))
            == self.registrations@[i].parameter_names@.len()
    }

    /// An empty router with the default scan bound.
    pub fn new() -> (r: Router)
        ensures
            r.wf(),
            r.root_node.children@.len() == 0,
            r.root_node.route_name is None,
            r.root_node.anchor@.len() == 0,
            !r.root_node.has_parameter,
            r.maximum_parameter_value_length == DEFAULT_MAXIMUM_PARAMETER_VALUE_LENGTH,
            r.registrations@.len() == 0,
    {
        Router {
            root_node: RouteNode::new(),
            maximum_parameter_value_length: DEFAULT_MAXIMUM_PARAMETER_VALUE_LENGTH,
            registrations: Vec::new(),
        }
    }

    /// Sets how far past an anchor's length a parameter match may look.
    pub fn set_maximum_parameter_value_length(&mut self, value: usize)
        ensures
            final(self).maximum_parameter_value_length == value,
            final(self).root_node == old(self).root_node,
            final(self).registrations == old(self).registrations,
    {
        self.maximum_parameter_value_length = value;
    }

    /// Registers route `name` with template `template`. It fails, changing nothing,
    /// exactly when a route of another name already has the template's shape.
    /// Otherwise the trie holds this route with the template's parameter names (in
    /// place of an earlier one of that name and shape) and its other routes, and the
    /// name's registration, which rendering uses, becomes this template's.
    pub fn insert_route(&mut self, name: &str, template: &str) -> (r: Result<(), RouteError>)
        requires
            old(self).wf(),
        ensures
            final(self).wf(),
            final(self).maximum_parameter_value_length == old(self).maximum_parameter_value_length,
            r is Err <==> exists|o: Label|
                o.0 != name@ && #[trigger] has_route_from(old(self).root_node, template_shape(template@), o),
            route_added(old(self).root_node, final(self).root_node, template_shape(template@), (name@, placeholder_names_of(template@)), r),
            r is Err ==> final(self).root_node == old(self).root_node && final(self).registrations@ == old(self).registrations@,
            r is Ok ==> registration_of(final(self).registrations@, name@, 0) == Some((template_segments(template@), placeholder_names_of(template@))),
            forall|n: Seq<char>| n != name@ ==> #[trigger] registration_of(final(self).registrations@, n, 0) == registration_of(old(self).registrations@, n, 0),
            !template@.contains('{') ==> template_segments(template@) == seq![(template@, false)]
                && placeholder_names_of(template@).len() == 0,
            r is Ok ==> walked(
                old(self).root_node,
                final(self).root_node,
                template_segments(template@),
                0,
                (name@, placeholder_names_of(template@)),
                Ok(()),
            ),
    {
        let ghost old_root = self.root_node;
        let inserted = route_node_insert(&mut self.root_node, name, template);
        let r = match &inserted {
            Ok(_) => Ok(()),
            Err(e) => Err(*e),
        };
        proof {
            lemma_template_slots(template@);
            assert forall|t: Shape, l: Label| #[trigger] has_route_from(self.root_node, t, l) implies l.1.len() == parameter_slots(t) by {
                if !has_route_from(old_root, t, l) {
                }
            }
        }
        if let Ok(segments) = inserted {
            let (_, parameter_names) = template_parts(template);
            let ghost before = self.registrations@;
            let reg = Registration { name: String::from_str(name), segments, parameter_names };
            self.registrations.insert(0, reg);
            proof {
                lemma_template_count(template@);
                assert(self.registrations@ =~= seq![reg] + before);
                assert forall|n: Seq<char>| n != name@ implies #[trigger] registration_of(self.registrations@, n, 0) == registration_of(before, n, 0) by {
                    lemma_registration_front(reg, before, n, 0);
                }
            }
        }
        r
    }

    /// Matches `path`: the first route in canonical order that takes it, with its
    /// parameter names paired with the decoded captured values.
    pub fn parse_route(&self, path: &str) -> (r: Option<Route>)
        ensures
            match match_node(self.root_node, path@, self.maximum_parameter_value_length as nat) {
                None => r is None,
                Some(m) => r is Some && {
                    let route = r->Some_0;
                    &&& route.name@ == m.0
                    &&& route.parameters@.len() == if m.1.len() < m.2.len() { m.1.len() } else { m.2.len() }
                    &&& forall|i: int| 0 <= i < route.parameters@.len() ==> (#[trigger] route.parameters@[i]).0@ == m.1[i]
                        && route.parameters@[i].1@ == decoded_or_raw(m.2[i])
                },
            },
            self.wf() && r is Some ==> ({
                let m = match_node(self.root_node, path@, self.maximum_parameter_value_length as nat)->Some_0;
                m.1.len() == m.2.len() && r->Some_0.parameters@.len() == m.1.len()
            }),
    {
        proof {
            let m = match_node(self.root_node, path@, self.maximum_parameter_value_length as nat);
            if self.wf() && m is Some {
                lemma_match_sound(self.root_node, path@, self.maximum_parameter_value_length as nat);
                let mm = m->Some_0;
                let t = choose|t: Shape| #[trigger] has_route(self.root_node, t, (mm.0, mm.1)) && mm.2.len() == parameter_slots(t);
                lemma_has_route_unfold(self.root_node, t, (mm.0, mm.1));
                assert(node_shape(self.root_node) =~= Seq::<Option<char>>::empty());
                assert(after(t, 0) =~= t);
                assert(has_route_from(self.root_node, t, (mm.0, mm.1)));
            }
        }
        match route_node_parse(&self.root_node, path, self.maximum_parameter_value_length) {
            None => None,
            Some((name, names, values)) => {
                let ghost m = (name@, views_of(names@), views_of(values@));
                let n = if names.len() < values.len() { names.len() } else { values.len() };
                let mut parameters: Vec<(String, String)> = Vec::new();
                let mut i: usize = 0;
                while i < n
                    invariant
                        n <= names@.len(),
                        n <= values@.len(),
                        i <= n,
                        m == (name@, views_of(names@), views_of(values@)),
                        parameters@.len() == i,
                        forall|j: int| 0 <= j < i ==> (#[trigger] parameters@[j]).0@ == m.1[j]
                            && parameters@[j].1@ == decoded_or_raw(m.2[j]),
                    decreases n - i,
                {
                    let value = decode_parameter_value(values[i].as_str());
                    parameters.push((names[i].clone(), value));
                    i += 1;
                }
                Some(Route { name, parameters })
            },
        }
    }

    /// Renders the path of route `route_name` with the values in `route_parameters`
    /// percent-encoded; `None` when the route is unknown or a parameter has no value.
    pub fn stringify_route(&self, route_name: &str, route_parameters: &Vec<(String, String)>) -> (r: Option<String>)
        ensures
            match r {
                Some(s) => stringify_route_spec(self.registrations@, route_name@, route_parameters@) == Some(s@),
                None => stringify_route_spec(self.registrations@, route_name@, route_parameters@) is None,
            },
            self.wf() ==> (r is Some <==> registration_of(self.registrations@, route_name@, 0) is Some && {
                let names = registration_of(self.registrations@, route_name@, 0)->Some_0.1;
                forall|j: int| 0 <= j < names.len() ==> lookup(route_parameters@, #[trigger] names[j]) is Some
            }),
    {
        proof {
            if self.wf() {
                lemma_registration_count(self.registrations@, route_name@, 0);
            }
        }
        let target = String::from_str(route_name);
        let regs = &self.registrations;
        let mut k: usize = 0;
        while k < regs.len() && !regs[k].name.eq(&target)
            invariant
                k <= regs@.len(),
                registration_of(regs@, route_name@, 0) == registration_of(regs@, route_name@, k as int),
                target@ == route_name@,
            decreases regs@.len() - k,
        {
            k += 1;
        }
        if k == regs.len() {
            return None;
        }
        let segs = &regs[k].segments;
        let names = &regs[k].parameter_names;
        let ghost nv = views_of(names@);
        assert(registration_of(regs@, route_name@, 0) == Some((segments_view(segs@), nv)));
        let mut values: Vec<String> = Vec::new();
        let mut j: usize = 0;
        while j < names.len()
            invariant
                j <= names@.len(),
                nv == views_of(names@),
                registration_of(regs@, route_name@, 0) == Some((segments_view(segs@), nv)),
                regs@ == self.registrations@,
                values@.len() == j,
                forall|i: int| 0 <= i < j ==> lookup(route_parameters@, #[trigger] nv[i]) is Some,
                forall|i: int| 0 <= i < j ==> (#[trigger] values@[i])@ == percent_encoded(lookup(route_parameters@, nv[i])->Some_0),
            decreases names@.len() - j,
        {
            match lookup_value(route_parameters, &names[j]) {
                None => {
                    assert(lookup(route_parameters@, nv[j as int]) is None);
                    return None;
                },
                Some(v) => {
                    assert(nv[j as int] == names@[j as int]@);
                    values.push(encode_value(v.as_str()));
                },
            }
            j += 1;
        }
        let ghost vals = Seq::new(nv.len(), |i: int| percent_encoded(lookup(route_parameters@, nv[i])->Some_0));
        assert(views_of(values@) =~= vals);
        route_node_stringify(segs, &values)
    }
}

impl Default for Router {
    /// The same as `Router::new`.
    fn default() -> (r: Router)
        ensures
            r.wf(),
            r.root_node.children@.len() == 0,
            r.root_node.route_name is None,
            r.maximum_parameter_value_length == DEFAULT_MAXIMUM_PARAMETER_VALUE_LENGTH,
            r.registrations@.len() == 0,
    {
        Router::new()
    }
}

} // verus!
