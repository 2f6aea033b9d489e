//! Integer core of a path-tracing renderer: the bounding-volume-hierarchy
//! layout, the Perlin lattice permutations, image-texture texel lookup and the
//! row partition of the parallel render driver.
use vstd::prelude::*;

pub mod bvh;
pub mod perlin;
pub mod render;
pub mod rtweekend;
pub mod texture;

pub use perlin::Perlin;
pub use render::{image_row, is_ci, row_band};
pub use rtweekend::random_i32_1;
pub use texture::ImageTexture;

verus! {

/// Trading the entries at `i` and `t` leaves the multiset of a sequence as it
/// was.
pub(crate) proof fn lemma_swap_keeps_multiset<A>(s: Seq<A>, i: int, t: int)
    requires
        0 <= i < s.len(),
        0 <= t < s.len(),
    ensures
        s.update(i, s[t]).update(t, s[i]).to_multiset() == s.to_multiset(),
{
    broadcast use vstd::seq_lib::to_multiset_update;
    broadcast use vstd::seq_lib::group_to_multiset_ensures;
    broadcast use vstd::multiset::group_multiset_axioms;

    let s1 = s.update(i, s[t]);
    assert(s1[t] == s[t]);
    assert(s1.update(t, s[i]).to_multiset() =~= s.to_multiset());
}

} // verus!
