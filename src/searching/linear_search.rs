use vstd::prelude::*;
use vstd::std_specs::cmp::PartialEqSpec;

verus! {

/// Sequential search: the position of the first element of `arr` equal to `item`.
///
/// Where the element type's `==` follows its specification, the result is the
/// least index whose element is equal to `item`, or `None` when there is none.
pub fn linear_search<T: PartialEq>(item: &T, arr: &[T]) -> (r: Option<usize>)
    ensures
        T::obeys_eq_spec() ==> match r {
            Some(i) => {
                &&& i < arr@.len()
                &&& arr@[i as int].eq_spec(item)
                &&& forall|j: int| 0 <= j < i ==> !(#[trigger] arr@[j]).eq_spec(item)
            },
            None => forall|j: int| 0 <= j < arr@.len() ==> !(#[trigger] arr@[j]).eq_spec(item),
        },
{
    let mut i: usize = 0;
    while i < arr.len()
        invariant
            i <= arr@.len(),
            T::obeys_eq_spec() ==> forall|j: int| 0 <= j < i ==> !(#[trigger] arr@[j]).eq_spec(item),
        decreases arr@.len() - i,
    {
        if arr[i].eq(item) {
            return Some(i);
        }
        i = i + 1;
    }
    None
}

} // verus!
