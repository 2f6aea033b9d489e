//! The lattice permutations behind Perlin noise. The gradient vectors and the
//! interpolation are floating point and live with the caller; this module owns
//! the three integer permutations and the hash that picks a gradient for each
//! lattice corner.
use vstd::prelude::*;

use crate::lemma_swap_keeps_multiset;
use crate::rtweekend::random_i32_1;

verus! {

broadcast use vstd::seq_lib::group_to_multiset_ensures;

/// Number of lattice gradients, and the length of each permutation.
pub const POINT_COUNT: i32 = 256;

/// `s` holds each of `0..n` exactly once.
pub open spec fn is_permutation(s: Seq<i32>, n: int) -> bool {
    &&& s.len() == n
    &&& forall|k: int| 0 <= k < n ==> 0 <= #[trigger] s[k] < n
    &&& s.no_duplicates()
}

/// The three permutation tables, one per axis.
pub struct PerlinTables {
    pub x: Seq<i32>,
    pub y: Seq<i32>,
    pub z: Seq<i32>,
}

/// Index of the gradient of lattice corner `(i, j, k)`: the corner's
/// coordinates, reduced modulo the table length, pass through their axis's
/// permutation and the three results are combined by exclusive or.
pub open spec fn corner_hash(t: PerlinTables, i: int, j: int, k: int) -> usize {
    (t.x[i % 256] as usize) ^ (t.y[j % 256] as usize) ^ (t.z[k % 256] as usize)
}

pub struct Perlin {
    perm_x: Vec<i32>,
    perm_y: Vec<i32>,
    perm_z: Vec<i32>,
}

impl View for Perlin {
    type V = PerlinTables;

    closed spec fn view(&self) -> PerlinTables {
        PerlinTables { x: self.perm_x@, y: self.perm_y@, z: self.perm_z@ }
    }
}

impl Perlin {
    /// Each table is a permutation of `0..POINT_COUNT`.
    pub open spec fn wf(&self) -> bool {
        &&& is_permutation(self@.x, 256)
        &&& is_permutation(self@.y, 256)
        &&& is_permutation(self@.z, 256)
    }

    /// Three freshly shuffled tables.
    pub fn new() -> (r: Perlin)
        ensures
            r.wf(),
    {
        let perm_x = Perlin::perlin_generate_perm();
        let perm_y = Perlin::perlin_generate_perm();
        let perm_z = Perlin::perlin_generate_perm();
        let r = Perlin { perm_x, perm_y, perm_z };
        assert(r@.x == perm_x@);
        assert(r@.y == perm_y@);
        assert(r@.z == perm_z@);
        r
    }

    /// A random permutation of `0..POINT_COUNT`.
    pub fn perlin_generate_perm() -> (r: Vec<i32>)
        ensures
            is_permutation(r@, 256),
    {
        let mut p: Vec<i32> = Vec::new();
        let mut i: i32 = 0;
        while i < POINT_COUNT
            invariant
                0 <= i <= 256,
                p@.len() == i,
                forall|k: int| 0 <= k < i ==> #[trigger] p@[k] == k,
            decreases 256 - i,
        {
            p.push(i);
            i = i + 1;
        }
        let ghost identity = p@;
        proof {
            assert(identity.no_duplicates());
            identity.lemma_multiset_has_no_duplicates();
        }
        Perlin::permute(&mut p, POINT_COUNT);
        proof {
            assert forall|x: i32| p@.to_multiset().contains(x) implies p@.to_multiset().count(x)
                == 1 by {
                assert(identity.to_multiset().contains(x));
            }
            p@.lemma_multiset_has_no_duplicates_conv();
            assert forall|k: int| 0 <= k < 256 implies 0 <= #[trigger] p@[k] < 256 by {
                assert(p@.contains(p@[k]));
                assert(identity.to_multiset().count(p@[k]) > 0);
                let w = choose|w: int| 0 <= w < identity.len() && identity[w] == p@[k];
                assert(identity[w] == w);
            }
        }
        p
    }

    /// Shuffles the first `n` entries of `p` in place: for each `i` in `1..n`
    /// the entry at `i` trades places with one at a random index below
    /// `n - i`. The entries are only moved, never changed, and those from
    /// index `n` on stay where they are.
    pub fn permute(p: &mut Vec<i32>, n: i32)
        requires
            0 <= n <= old(p)@.len(),
        ensures
            final(p)@.len() == old(p)@.len(),
            final(p)@.to_multiset() == old(p)@.to_multiset(),
            forall|k: int| n <= k < old(p)@.len() ==> #[trigger] final(p)@[k] == old(p)@[k],
    {
        let ghost start = p@;
        let mut i: i32 = 1;
        while i < n
            invariant
                1 <= i,
                n <= p@.len(),
                p@.len() == start.len(),
                p@.to_multiset() == start.to_multiset(),
                forall|k: int| n <= k < start.len() ==> #[trigger] p@[k] == start[k],
            decreases n - i,
        {
            let target = random_i32_1(0, n - i) as usize;
            let a = p[i as usize];
            let b = p[target];
            let ghost before = p@;
            p.set(i as usize, b);
            p.set(target, a);
            proof {
                lemma_swap_keeps_multiset(before, i as int, target as int);
            }
            i = i + 1;
        }
    }

    /// Index of the gradient for lattice corner `(i, j, k)`, always below
    /// `POINT_COUNT`.
    pub fn lattice_index(&self, i: i32, j: i32, k: i32) -> (r: usize)
        requires
            self.wf(),
        ensures
            r == corner_hash(self@, i as int, j as int, k as int),
            r < 256,
    {
        let a = self.perm_x[wrap(i)] as usize;
        let b = self.perm_y[wrap(j)] as usize;
        let c = self.perm_z[wrap(k)] as usize;
        assert(a < 256 && b < 256 && c < 256);
        let r = a ^ b ^ c;
        assert(r < 256) by (bit_vector)
            requires
                a < 256usize,
                b < 256usize,
                c < 256usize,
                r == a ^ b ^ c,
        ;
        r
    }
}

/// `i` reduced into `0..POINT_COUNT`, wrapping negative values round.
fn wrap(i: i32) -> (r: usize)
    ensures
        r == i as int % 256,
        r < 256,
{
    match i.checked_rem_euclid(POINT_COUNT) {
        Some(m) => m as usize,
        None => 0,
    }
}

} // verus!
