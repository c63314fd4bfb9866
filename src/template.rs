//! Splitting a route template into literal anchors and `{name}` placeholders.
use vstd::prelude::*;

verus! {

/// The pieces of a template between its placeholders, in order.
pub uninterp spec fn placeholder_literals_of(template: Seq<char>) -> Seq<Seq<char>>;

/// The names inside a template's placeholders, in order.
pub uninterp spec fn placeholder_names_of(template: Seq<char>) -> Seq<Seq<char>>;

/// The views of a sequence of strings.
pub open spec fn views_of(v: Seq<String>) -> Seq<Seq<char>> {
    v.map_values(|s: String| s@)
}

/// Relies on regex's `Regex::split` with the placeholder pattern `\{(.*?)\}`: the
/// pieces of the template around the placeholder matches, one more than there are
/// matches (leading and trailing pieces are kept, even when empty); a template
/// without `{` has no match and comes back whole.
#[verifier::external_body]
fn split_around_placeholders(template: &str) -> (r: Vec<String>)
    ensures
        views_of(r@) == placeholder_literals_of(template@),
        r@.len() == placeholder_names_of(template@).len() + 1,
        !template@.contains('{') ==> views_of(r@) == seq![template@],
{
    let re = regex::Regex::new(r"\{(.*?)\}").unwrap();
    re.split(template).map(String::from).collect()
}

/// Relies on regex's `Regex::captures_iter` with the placeholder pattern
/// `\{(.*?)\}`: the text of the first group of each match, in order; none for a
/// template without `{`.
#[verifier::external_body]
fn placeholder_names(template: &str) -> (r: Vec<String>)
    ensures
        views_of(r@) == placeholder_names_of(template@),
        !template@.contains('{') ==> r@.len() == 0,
{
    let re = regex::Regex::new(r"\{(.*?)\}").unwrap();
    re.captures_iter(template).map(|c| c[1].to_string()).collect()
}

/// A template segment: the literal anchor, preceded by the parameter it follows (if any).
pub open spec fn pair_view(p: (String, Option<String>)) -> (Seq<char>, Option<Seq<char>>) {
    (
        p.0@,
        match p.1 {
            Some(n) => Some(n@),
            None => None,
        },
    )
}

/// The segment pairs of a template whose literals are `lits` and whose placeholder
/// names are `names`: the first literal stands alone, every later literal follows
/// the placeholder before it.
pub open spec fn pairs_spec(lits: Seq<Seq<char>>, names: Seq<Seq<char>>) -> Seq<
    (Seq<char>, Option<Seq<char>>),
> {
    Seq::new(
        lits.len(),
        |i: int|
            if i == 0 {
                (lits[0], None)
            } else {
                (lits[i], Some(names[i - 1]))
            },
    )
}

/// Pairs each literal with the placeholder that precedes it.
pub fn pairs_from_parts(literals: &Vec<String>, names: &Vec<String>) -> (r: Vec<(String, Option<String>)>)
    requires
        literals@.len() == names@.len() + 1,
    ensures
        r@.map_values(|p: (String, Option<String>)| pair_view(p)) == pairs_spec(
            views_of(literals@),
            views_of(names@),
        ),
{
    let mut r: Vec<(String, Option<String>)> = Vec::new();
    let mut i: usize = 0;
    while i < literals.len()
        invariant
            literals@.len() == names@.len() + 1,
            i <= literals@.len(),
            r@.len() == i,
            forall|j: int|
                0 <= j < i ==> pair_view(#[trigger] r@[j]) == pairs_spec(
                    views_of(literals@),
                    views_of(names@),
                )[j],
        decreases literals@.len() - i,
    {
        let parameter = if i == 0 {
            None
        } else {
            Some(names[i - 1].clone())
        };
        r.push((literals[i].clone(), parameter));
        i += 1;
    }
    assert(r@.map_values(|p: (String, Option<String>)| pair_view(p)) =~= pairs_spec(
        views_of(literals@),
        views_of(names@),
    ));
    r
}

/// Segments `template` into `(literal, parameter)` pairs: the first pair has no
/// parameter, each later one pairs a placeholder's name with the literal after it.
pub fn parse_template_pairs(template: &str) -> (r: Vec<(String, Option<String>)>)
    ensures
        r@.map_values(|p: (String, Option<String>)| pair_view(p)) == pairs_spec(
            placeholder_literals_of(template@),
            placeholder_names_of(template@),
        ),
        r@.len() >= 1,
        placeholder_literals_of(template@).len() == placeholder_names_of(template@).len() + 1,
        !template@.contains('{') ==> placeholder_literals_of(template@) == seq![template@]
            && placeholder_names_of(template@).len() == 0,
{
    let literals = split_around_placeholders(template);
    let names = placeholder_names(template);
    let r = pairs_from_parts(&literals, &names);
    assert(r@.len() == pairs_spec(views_of(literals@), views_of(names@)).len());
    r
}

/// The interleaving of literals and placeholder names: literal, name, literal, ...
pub open spec fn interleave_spec(lits: Seq<Seq<char>>, names: Seq<Seq<char>>) -> Seq<Seq<char>> {
    Seq::new(
        (2 * lits.len() - 1) as nat,
        |i: int|
            if i % 2 == 0 {
                lits[i / 2]
            } else {
                names[i / 2]
            },
    )
}

/// Splits `template` into alternating literal pieces and placeholder names,
/// starting and ending with a literal piece.
pub fn parse_placeholders(template: &str) -> (r: Vec<String>)
    ensures
        views_of(r@) == interleave_spec(
            placeholder_literals_of(template@),
            placeholder_names_of(template@),
        ),
{
    let literals = split_around_placeholders(template);
    let names = placeholder_names(template);
    let mut r: Vec<String> = Vec::new();
    let mut i: usize = 0;
    while i < literals.len()
        invariant
            literals@.len() == names@.len() + 1,
            i <= literals@.len(),
            i > 0 ==> r@.len() == 2 * i - 1,
            i == 0 ==> r@.len() == 0,
            forall|j: int|
                0 <= j < r@.len() ==> (#[trigger] r@[j])@ == interleave_spec(
                    views_of(literals@),
                    views_of(names@),
                )[j],
        decreases literals@.len() - i,
    {
        if i > 0 {
            r.push(names[i - 1].clone());
        }
        r.push(literals[i].clone());
        i += 1;
    }
    assert(views_of(r@) =~= interleave_spec(views_of(literals@), views_of(names@)));
    r
}

} // verus!
