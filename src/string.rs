//! Character-sequence helpers shared by the trie and the router.
use vstd::prelude::*;
use vstd::string::StrSliceExecFns;

verus! {

/// Length of the longest common prefix of `a` and `b`.
pub open spec fn common_prefix_len(a: Seq<char>, b: Seq<char>) -> nat
    decreases a.len(),
{
    if a.len() == 0 || b.len() == 0 || a[0] != b[0] {
        0
    } else {
        1 + common_prefix_len(a.drop_first(), b.drop_first())
    }
}

/// The defining facts of `common_prefix_len`.
pub proof fn lemma_common_prefix_len(a: Seq<char>, b: Seq<char>)
    ensures
        common_prefix_len(a, b) <= a.len(),
        common_prefix_len(a, b) <= b.len(),
        forall|i: int| 0 <= i < common_prefix_len(a, b) ==> a[i] == b[i],
        common_prefix_len(a, b) < a.len() && common_prefix_len(a, b) < b.len() ==> a[
            common_prefix_len(a, b) as int] != b[common_prefix_len(a, b) as int],
    decreases a.len(),
{
    if a.len() == 0 || b.len() == 0 || a[0] != b[0] {
    } else {
        lemma_common_prefix_len(a.drop_first(), b.drop_first());
        assert forall|i: int| 0 <= i < common_prefix_len(a, b) implies a[i] == b[i] by {
            if i > 0 {
                assert(a.drop_first()[i - 1] == b.drop_first()[i - 1]);
            }
        }
    }
}

/// A prefix length with the defining facts is the common prefix length.
pub proof fn lemma_common_prefix_len_unique(a: Seq<char>, b: Seq<char>, k: int)
    requires
        0 <= k <= a.len(),
        k <= b.len(),
        forall|i: int| 0 <= i < k ==> a[i] == b[i],
        k < a.len() && k < b.len() ==> a[k] != b[k],
    ensures
        common_prefix_len(a, b) == k,
{
    lemma_common_prefix_len(a, b);
    let c = common_prefix_len(a, b) as int;
    if c < k {
        assert(a[c] == b[c]);
    } else if k < c {
        assert(a[k] == b[k]);
    }
}

/// Number of leading characters that `chars_left` and `chars_right` share.
pub fn find_common_prefix_length(chars_left: &Vec<char>, chars_right: &Vec<char>) -> (r: usize)
    ensures
        r == common_prefix_len(chars_left@, chars_right@),
{
    let common_length: usize = if chars_left.len() < chars_right.len() {
        chars_left.len()
    } else {
        chars_right.len()
    };
    let mut index: usize = 0;
    while index < common_length && chars_left[index] == chars_right[index]
        invariant
            index <= common_length,
            common_length <= chars_left.len(),
            common_length <= chars_right.len(),
            common_length == chars_left.len() || common_length == chars_right.len(),
            forall|i: int| 0 <= i < index ==> chars_left@[i] == chars_right@[i],
        decreases common_length - index,
    {
        index += 1;
    }
    proof {
        lemma_common_prefix_len_unique(chars_left@, chars_right@, index as int);
    }
    index
}

} // verus!

verus! {

/// The characters of `s`, in order.
pub fn chars_of(s: &str) -> (r: Vec<char>)
    ensures
        r@ == s@,
{
    let n = s.unicode_len();
    let mut r: Vec<char> = Vec::new();
    let mut i: usize = 0;
    while i < n
        invariant
            n == s@.len(),
            i <= n,
            r@ == s@.subrange(0, i as int),
        decreases n - i,
    {
        r.push(s.get_char(i));
        i += 1;
        assert(r@ =~= s@.subrange(0, i as int));
    }
    assert(r@ =~= s@);
    r
}

/// Relies on std's `String::from_iter`: the string holds the characters in order.
#[verifier::external_body]
pub(crate) fn string_of(chars: &[char]) -> (r: String)
    ensures
        r@ == chars@,
{
    chars.iter().collect()
}

} // verus!
