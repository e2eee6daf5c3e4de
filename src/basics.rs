//! Small language-level helpers: arithmetic, string lengths, lifetimes and a
//! validating constructor with its own error type.
use vstd::prelude::*;
use vstd::string::StringExecFns;

verus! {

/// The sum of two integers.
pub fn add(a: i64, b: i64) -> (r: i64)
    requires
        i64::MIN <= a + b <= i64::MAX,
    ensures
        r == a + b,
{
    a + b
}

/// The sum of the first `n` elements of `s`.
pub open spec fn sum_prefix(s: Seq<i64>, n: int) -> int
    decreases n,
{
    if n <= 0 {
        0
    } else {
        sum_prefix(s, n - 1) + s[n - 1]
    }
}

/// The sum of the numbers, added from the first to the last; every partial
/// sum must fit in an `i64`.
pub fn sum(nums: &[i64]) -> (r: i64)
    requires
        forall|n: int| 0 <= n <= nums@.len() ==> i64::MIN <= #[trigger] sum_prefix(nums@, n) <= i64::MAX,
    ensures
        r == sum_prefix(nums@, nums@.len() as int),
{
    let mut total: i64 = 0;
    let mut i: usize = 0;
    while i < nums.len()
        invariant
            0 <= i <= nums@.len(),
            total == sum_prefix(nums@, i as int),
            forall|n: int| 0 <= n <= nums@.len() ==> i64::MIN <= #[trigger] sum_prefix(nums@, n) <= i64::MAX,
        decreases nums@.len() - i,
    {
        assert(i64::MIN <= sum_prefix(nums@, i + 1) <= i64::MAX);
        total = total + nums[i];
        i = i + 1;
    }
    total
}

/// A greeting from a nested module.
pub fn hello() -> (r: &'static str)
    ensures
        r@ == "hello from nested"@,
{
    "hello from nested"
}

/// A greeting for callers inside the crate and out.
pub fn hidden() -> (r: &'static str)
    ensures
        r@ == "hidden"@,
{
    "hidden"
}

/// The errors of identifier validation.
#[derive(Clone, Copy, Debug, PartialEq, Eq, Structural)]
pub enum AppError {
    InvalidId(u64),
}

/// Accepts every identifier but zero.
pub fn validate_id(id: u64) -> (r: Result<u64, AppError>)
    ensures
        id == 0 ==> r == Err::<u64, AppError>(AppError::InvalidId(id)),
        id != 0 ==> r == Ok::<u64, AppError>(id),
{
    if id == 0 {
        Err(AppError::InvalidId(id))
    } else {
        Ok(id)
    }
}

/// The longer of two strings, by length in bytes; the first on a tie.
pub fn longest<'a>(a: &'a str, b: &'a str) -> (r: &'a str)
    ensures
        r == (if a.len() >= b.len() { a } else { b }),
{
    if a.len() >= b.len() {
        a
    } else {
        b
    }
}

/// The length in bytes of a borrowed string.
pub fn len_shared(s: &String) -> (r: usize)
    ensures
        r == vstd::utf8::encode_utf8(s@).len() as usize,
{
    s.as_str().len()
}

/// Appends " world" through an exclusive borrow.
pub fn push_exclusive(s: &mut String)
    ensures
        final(s)@ == old(s)@ + " world"@,
{
    s.append(" world");
}

} // verus!
