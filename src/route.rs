//! A matched route.
use vstd::prelude::*;

verus! {

/// The outcome of matching a path: the route's name and its parameters, as
/// (name, decoded value) pairs in template order.
#[derive(Debug)]
pub struct Route {
    pub name: String,
    pub parameters: Vec<(String, String)>,
}

} // verus!
