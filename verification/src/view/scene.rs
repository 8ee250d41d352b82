//! Ids of scene nodes and the lists that hold them.

use vstd::prelude::*;

verus! {

/// Identity of a scene node.
#[derive(Clone, Copy, Debug, PartialEq, Eq, Structural, Hash, PartialOrd, Ord)]
pub struct NodeId {
    pub id: i32,
}

/// Whether a node is drawn opaque or see-through.
#[derive(Clone, Copy, Debug, PartialEq, Eq, Structural)]
pub enum SceneNodeType {
    Normal,
    Transparent,
}

/// The index of the first occurrence of `value` in `s`.
pub open spec fn first_index(s: Seq<NodeId>, value: NodeId) -> int {
    choose|i: int| 0 <= i < s.len() && s[i] == value && forall|j: int| 0 <= j < i ==> s[j] != value
}

/// `s` without its element at `i`, the last element taking its place.
pub open spec fn swap_removed(s: Seq<NodeId>, i: int) -> Seq<NodeId> {
    s.update(i, s.last()).drop_last()
}

/// Removes the first occurrence of `value` from `vec`, moving the last
/// element into its place, and returns it; `None` (and `vec` unchanged)
/// where `value` is not there.
pub fn vec_rem_opt(vec: &mut Vec<NodeId>, value: NodeId) -> (r: Option<NodeId>)
    ensures
        r is Some <==> old(vec)@.contains(value),
        r matches Some(v) ==> v == value && final(vec)@ == swap_removed(old(vec)@, first_index(old(vec)@, value)),
        r is None ==> final(vec)@ == old(vec)@,
{
    let mut i: usize = 0;
    while i < vec.len()
        invariant
            vec@ == old(vec)@,
            0 <= i <= vec@.len(),
            forall|j: int| 0 <= j < i ==> vec@[j] != value,
        decreases vec@.len() - i,
    {
        if vec[i] == value {
            proof {
                let f = first_index(old(vec)@, value);
                assert(vec@[i as int] == value);
                assert(0 <= f < vec@.len() && vec@[f] == value && forall|j: int| 0 <= j < f ==> vec@[j] != value);
                assert(!(f < i as int));
                assert(!(f > i as int));
            }
            let last = vec.pop().unwrap();
            if i < vec.len() {
                vec.set(i, last);
            }
            proof {
                assert(vec@ =~= swap_removed(old(vec)@, i as int));
            }
            return Some(value);
        }
        i = i + 1;
    }
    None
}

/// Removes `value`, which must be in `vec`, as `vec_rem_opt` does.
pub fn vec_rem(vec: &mut Vec<NodeId>, value: NodeId)
    requires
        old(vec)@.contains(value),
    ensures
        final(vec)@ == swap_removed(old(vec)@, first_index(old(vec)@, value)),
{
    vec_rem_opt(vec, value);
}

} // verus!
