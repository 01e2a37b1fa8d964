//! Splitting a fixed-size array in two.
use vstd::prelude::*;

verus! {

/// `From<[T; N]> for Vec<T>`: a vector of the array's elements, in order.
#[verifier::external_body]
pub(crate) fn array_to_vec<T, const N: usize>(arr: [T; N]) -> (v: Vec<T>)
    ensures
        v@ == arr@,
{
    Vec::from(arr)
}

/// `TryFrom<Vec<T>> for [T; N]`: an array of the vector's elements, in
/// order, where it has exactly `N` of them; otherwise the vector back.
#[verifier::external_body]
fn array_try_from<T, const N: usize>(v: Vec<T>) -> (r: Result<[T; N], Vec<T>>)
    ensures
        r is Ok <==> v@.len() == N,
        r matches Ok(a) ==> a@ == v@,
        r matches Err(w) ==> w@ == v@,
{
    <[T; N]>::try_from(v)
}

/// The array of the `N` elements of `v`, in order.
pub(crate) fn vec_to_array<T, const N: usize>(v: Vec<T>) -> (arr: [T; N])
    requires
        v@.len() == N,
    ensures
        arr@ == v@,
{
    match array_try_from(v) {
        Ok(a) => a,
        Err(_) => vstd::pervasive::unreached(),
    }
}

/// Splits `arr` after its first `LEFT` elements.
pub fn split_array<const LEFT: usize, const RIGHT: usize, const LEN: usize, T>(arr: [T; LEN]) -> (r: (
    [T; LEFT],
    [T; RIGHT],
))
    requires
        LEFT + RIGHT == LEN,
    ensures
        r.0@ == arr@.take(LEFT as int),
        r.1@ == arr@.skip(LEFT as int),
{
    let mut left = array_to_vec(arr);
    assert(left@.len() == LEN);
    let right = left.split_off(LEFT);
    proof {
        assert(left@ =~= arr@.take(LEFT as int));
        assert(right@ =~= arr@.skip(LEFT as int));
    }
    (vec_to_array(left), vec_to_array(right))
}

} // verus!
