use vstd::prelude::*;

verus! {

/// Relies on uuid::Uuid::new_v4 (and Uuid::as_u128): a random version-4
/// identifier, as a plain integer. Nothing is promised about the value.
#[verifier::external_body]
pub(crate) fn random_id() -> (r: u128) {
    uuid::Uuid::new_v4().as_u128()
}

/// Returns `candidate` when no element of `used` equals it, and otherwise the
/// smallest integer that does not occur in `used`.
pub fn pick_fresh_id(candidate: u128, used: &Vec<u128>) -> (r: u128)
    ensures
        !used@.contains(r),
        !used@.contains(candidate) ==> r == candidate,
{
    if !contains_id(used, candidate) {
        return candidate;
    }
    let n = used.len();
    let mut k: u128 = 0;
    while k <= n as u128
        invariant
            0 <= k <= n + 1,
            n == used@.len(),
            used@.contains(candidate),
            forall|j: u128| j < k ==> used@.contains(j),
        decreases n + 1 - k,
    {
        if !contains_id(used, k) {
            return k;
        }
        k = k + 1;
    }
    proof {
        lemma_range_not_covered(used@);
    }
    0
}

/// True when some element of `v` equals `x`.
pub fn contains_id(v: &Vec<u128>, x: u128) -> (r: bool)
    ensures
        r == v@.contains(x),
{
    let mut i: usize = 0;
    while i < v.len()
        invariant
            0 <= i <= v.len(),
            forall|j: int| 0 <= j < i ==> v@[j] != x,
        decreases v.len() - i,
    {
        if v[i] == x {
            return true;
        }
        i = i + 1;
    }
    false
}

/// A sequence of `n` integers cannot hold every value in `0..=n`.
proof fn lemma_range_not_covered(s: Seq<u128>)
    requires
        s.len() < u128::MAX,
    ensures
        exists|j: u128| j <= s.len() && !s.contains(j),
{
    if forall|j: u128| j <= s.len() ==> s.contains(j) {
        let r = Set::new(|x: u128| (x as int) <= s.len());
        let full = s.to_set();
        assert(r.subset_of(full));
        s.lemma_cardinality_of_set();
        lemma_small_range_len(s.len());
        vstd::set_lib::lemma_len_subset(r, full);
    }
}

/// The set of `u128` values up to `n` has `n + 1` elements.
proof fn lemma_small_range_len(n: nat)
    requires
        n < u128::MAX,
    ensures
        Set::new(|x: u128| (x as int) <= n).finite(),
        Set::new(|x: u128| (x as int) <= n).len() == n + 1,
    decreases n,
{
    let r = Set::new(|x: u128| (x as int) <= n);
    if n == 0 {
        assert(r =~= set![0u128]);
    } else {
        lemma_small_range_len((n - 1) as nat);
        let q = Set::new(|x: u128| (x as int) <= n - 1);
        assert(r =~= q.insert(n as u128));
    }
}

} // verus!
