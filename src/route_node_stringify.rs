//! The path renderer: rebuilding a concrete path from a route and its values.
use vstd::prelude::*;
use crate::string::string_of;
use crate::template::views_of;

verus! {

/// One step of a route: a node's anchor and whether it takes a parameter first.
pub type Segment = (Seq<char>, bool);

/// How many of the segments take a parameter.
pub open spec fn parameter_count(segs: Seq<Segment>) -> nat
    decreases segs.len(),
{
    if segs.len() == 0 {
        0
    } else {
        parameter_count(segs.drop_last()) + if segs.last().1 {
            1nat
        } else {
            0nat
        }
    }
}

/// The path spelled by `segs` (root first) with `vals` standing for the parameters
/// in order; `vals` holds one value per parameter segment.
pub open spec fn rendered(segs: Seq<Segment>, vals: Seq<Seq<char>>) -> Seq<char>
    decreases segs.len(),
{
    if segs.len() == 0 {
        Seq::empty()
    } else if segs.last().1 {
        rendered(segs.drop_last(), vals.drop_last()) + vals.last() + segs.last().0
    } else {
        rendered(segs.drop_last(), vals) + segs.last().0
    }
}

/// The view of a list of segments.
pub open spec fn segments_view(segs: Seq<(Vec<char>, bool)>) -> Seq<Segment> {
    segs.map_values(|s: (Vec<char>, bool)| (s.0@, s.1))
}

/// Renders the path of a route from its segments (root first, as `route_node_insert`
/// returns them for the route's terminal node), with `parameter_values` for its
/// parameter segments in order; `None` when the number of values is not the number
/// of parameter segments.
pub fn route_node_stringify(segs: &Vec<(Vec<char>, bool)>, parameter_values: &Vec<String>) -> (r: Option<String>)
    ensures
        match r {
            Some(s) => parameter_count(segments_view(segs@)) == parameter_values@.len() && s@
                == rendered(segments_view(segs@), views_of(parameter_values@)),
            None => parameter_count(segments_view(segs@)) != parameter_values@.len(),
        },
{
    let ghost sv = segments_view(segs@);
    let ghost vals = views_of(parameter_values@);
    let mut out: Vec<char> = Vec::new();
    let mut used: usize = 0;
    let mut k: usize = 0;
    while k < segs.len()
        invariant
            sv == segments_view(segs@),
            vals == views_of(parameter_values@),
            k <= segs@.len(),
            used == parameter_count(sv.subrange(0, k as int)),
            used <= parameter_values@.len(),
            out@ == rendered(sv.subrange(0, k as int), vals.subrange(0, used as int)),
        decreases segs@.len() - k,
    {
        let ghost prev = sv.subrange(0, k as int);
        assert(sv.subrange(0, k + 1).drop_last() =~= prev);
        if segs[k].1 {
            if used == parameter_values.len() {
                proof {
                    lemma_parameter_count_prefix(sv, k as int + 1);
                    assert(sv.subrange(0, k + 1).last() == sv[k as int]);
                    assert(parameter_count(sv.subrange(0, k + 1)) == used + 1);
                }
                return None;
            }
            let vc = crate::string::chars_of(parameter_values[used].as_str());
            out.extend_from_slice(vc.as_slice());
            used += 1;
            assert(vals.subrange(0, used as int).drop_last() =~= vals.subrange(0, used - 1));
        }
        out.extend_from_slice(segs[k].0.as_slice());
        k += 1;
        assert(out@ =~= rendered(sv.subrange(0, k as int), vals.subrange(0, used as int)));
    }
    assert(sv.subrange(0, k as int) =~= sv);
    if used != parameter_values.len() {
        return None;
    }
    assert(vals.subrange(0, used as int) =~= vals);
    Some(string_of(out.as_slice()))
}

/// Parameter counts only grow along longer prefixes.
proof fn lemma_parameter_count_prefix(segs: Seq<Segment>, k: int)
    requires
        0 <= k <= segs.len(),
    ensures
        parameter_count(segs.subrange(0, k)) <= parameter_count(segs),
    decreases segs.len() - k,
{
    if k < segs.len() {
        lemma_parameter_count_prefix(segs, k + 1);
        assert(segs.subrange(0, k + 1).drop_last() =~= segs.subrange(0, k));
    } else {
        assert(segs.subrange(0, k) =~= segs);
    }
}

} // verus!
