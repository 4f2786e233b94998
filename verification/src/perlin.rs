//! Permutation tables for gradient noise.
//!
//! The noise texture hashes each lattice point through three independently
//! shuffled index tables of 256 entries, XOR-combining the three looked-up
//! values to pick one of 256 gradient vectors.  The shuffle consumes one
//! uniformly drawn target position per step; the draws are handed in as
//! plain integers, so the result is verified to stay a permutation of
//! `0 .. 256` whatever the randomness did, and every XOR-combined lookup
//! is verified to stay inside the gradient table.

use vstd::prelude::*;

use crate::world::lemma_multiset_elem_transfer;

verus! {

broadcast use vstd::seq_lib::group_to_multiset_ensures, vstd::multiset::group_multiset_axioms;

/// The identity table `0, 1, .., n-1`.
pub open spec fn identity_table(n: int) -> Seq<usize> {
    Seq::new(n as nat, |i: int| i as usize)
}

/// The table with the entries at positions `i` and `j` exchanged.
pub open spec fn swap_entries(s: Seq<usize>, i: int, j: int) -> Seq<usize> {
    s.update(i, s[j]).update(j, s[i])
}

/// The table after swapping each of the positions `k-1, k-2, .., 0`, in
/// that order, with its drawn target position.
pub open spec fn shuffled(s: Seq<usize>, targets: Seq<usize>, k: int) -> Seq<usize>
    decreases k,
{
    if k <= 0 {
        s
    } else {
        shuffled(swap_entries(s, k - 1, targets[k - 1] as int), targets, k - 1)
    }
}

/// Number of entries of each permutation table, and of the gradient table.
pub const TABLE_SIZE: usize = 256;

/// Shuffles `values` in place, swapping each position, from the last one
/// down, with a caller-chosen target position at or below it (the renderer
/// draws the targets uniformly at random).  Whatever the targets are, the
/// result holds exactly the same entries as before.
pub fn permute(values: &mut Vec<usize>, targets: &Vec<usize>)
    requires
        targets@.len() == old(values)@.len(),
        forall|k: int| 0 <= k < targets@.len() ==> #[trigger] targets@[k] <= k,
    ensures
        final(values)@.len() == old(values)@.len(),
        final(values)@ == shuffled(old(values)@, targets@, old(values)@.len() as int),
        final(values)@.to_multiset() == old(values)@.to_multiset(),
{
    let ghost orig = values@;
    let mut index: usize = values.len();
    while index > 0
        invariant
            index <= values@.len(),
            values@.len() == orig.len(),
            targets@.len() == orig.len(),
            forall|k: int| 0 <= k < targets@.len() ==> #[trigger] targets@[k] <= k,
            values@.to_multiset() == orig.to_multiset(),
            shuffled(values@, targets@, index as int) == shuffled(
                orig,
                targets@,
                orig.len() as int,
            ),
        decreases index,
    {
        index = index - 1;
        let target: usize = targets[index];
        let a: usize = values[index];
        let b: usize = values[target];
        let ghost before = values@;
        values.remove(index);
        values.insert(index, b);
        let ghost middle = values@;
        values.remove(target);
        values.insert(target, a);
        proof {
            assert(middle =~= before.update(index as int, b));
            assert(values@ =~= middle.update(target as int, a));
            assert(before.contains(before[index as int]));
            assert(before.to_multiset().count(a) > 0);
            lemma_update_multiset(before, index as int, b);
            if target != index {
                assert(middle[target as int] == before[target as int]);
            }
            assert(middle.contains(middle[target as int]));
            assert(middle.to_multiset().count(middle[target as int]) > 0);
            lemma_update_multiset(middle, target as int, a);
            assert(values@.to_multiset() =~= before.to_multiset());
            assert(values@ =~= swap_entries(before, index as int, target as int));
        }
    }
}

/// Overwriting one position exchanges exactly that entry in the multiset.
proof fn lemma_update_multiset<A>(s: Seq<A>, i: int, a: A)
    requires
        0 <= i < s.len(),
    ensures
        s.update(i, a).to_multiset() == s.to_multiset().remove(s[i]).insert(a),
{
    assert(s.update(i, a) =~= s.remove(i).insert(i, a));
    assert(s.remove(i).to_multiset() == s.to_multiset().remove(s[i]));
    assert(s.remove(i).insert(i, a).to_multiset() == s.remove(i).to_multiset().insert(a));
}

/// Builds one shuffled index table: the identity table `0 .. 256`,
/// permuted by the caller's draw targets.  The result is a permutation of
/// `0 .. 256`, so in particular every entry is a valid gradient index.
pub fn perlin_generate_perm(targets: &Vec<usize>) -> (perm: Vec<usize>)
    requires
        targets@.len() == TABLE_SIZE,
        forall|k: int| 0 <= k < targets@.len() ==> #[trigger] targets@[k] <= k,
    ensures
        perm@.len() == TABLE_SIZE,
        perm@ == shuffled(identity_table(TABLE_SIZE as int), targets@, TABLE_SIZE as int),
        perm@.to_multiset() == identity_table(TABLE_SIZE as int).to_multiset(),
        forall|k: int| 0 <= k < perm@.len() ==> #[trigger] perm@[k] < TABLE_SIZE,
{
    let mut array: Vec<usize> = Vec::new();
    let mut index: usize = 0;
    while index < TABLE_SIZE
        invariant
            index <= TABLE_SIZE,
            array@ =~= identity_table(index as int),
        decreases TABLE_SIZE - index,
    {
        array.push(index);
        proof {
            assert(array@ =~= identity_table(index + 1));
        }
        index = index + 1;
    }
    permute(&mut array, targets);
    proof {
        lemma_multiset_elem_transfer(array@, identity_table(TABLE_SIZE as int));
        assert forall|k: int| 0 <= k < array@.len() implies #[trigger] array@[k] < TABLE_SIZE by {
            assert(identity_table(TABLE_SIZE as int).contains(array@[k]));
            let j = choose|j: int|
                0 <= j < TABLE_SIZE && identity_table(TABLE_SIZE as int)[j] == array@[k];
        }
    }
    array
}

/// Hashes one lattice corner: each coordinate is wrapped to the table
/// width, looked up in its own permutation table, and the three entries
/// are XOR-combined.  With in-range tables the result always addresses a
/// valid gradient.
pub fn gradient_index(
    perm_x: &Vec<usize>,
    perm_y: &Vec<usize>,
    perm_z: &Vec<usize>,
    i: i32,
    j: i32,
    k: i32,
) -> (g: usize)
    requires
        perm_x@.len() == TABLE_SIZE,
        perm_y@.len() == TABLE_SIZE,
        perm_z@.len() == TABLE_SIZE,
        forall|t: int| 0 <= t < perm_x@.len() ==> #[trigger] perm_x@[t] < TABLE_SIZE,
        forall|t: int| 0 <= t < perm_y@.len() ==> #[trigger] perm_y@[t] < TABLE_SIZE,
        forall|t: int| 0 <= t < perm_z@.len() ==> #[trigger] perm_z@[t] < TABLE_SIZE,
    ensures
        g == (perm_x@[((i as u32) & 255) as int] ^ perm_y@[((j as u32) & 255) as int] ^ perm_z@[((
        k as u32) & 255) as int]),
        g < TABLE_SIZE,
{
    let xi: u32 = (i as u32) & 255;
    let yj: u32 = (j as u32) & 255;
    let zk: u32 = (k as u32) & 255;
    proof {
        assert((i as u32) & 255 < 256 && (j as u32) & 255 < 256 && (k as u32) & 255 < 256)
            by (bit_vector);
    }
    let g = perm_x[xi as usize] ^ perm_y[yj as usize] ^ perm_z[zk as usize];
    proof {
        let a = perm_x@[xi as int];
        let b = perm_y@[yj as int];
        let c = perm_z@[zk as int];
        assert(a < 256 && b < 256 && c < 256 ==> (a ^ b ^ c) < 256) by (bit_vector);
    }
    g
}

} // verus!
