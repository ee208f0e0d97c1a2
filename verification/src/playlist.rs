//! Playlists as the rest of the library sees them.
use vstd::prelude::*;

verus! {

/// A playlist the user can switch to: its name and the file it lives in.
#[derive(Debug)]
pub struct PlaylistEntry {
    pub name: String,
    pub path: String,
}

impl PlaylistEntry {
    /// An ordinary (top-level) playlist.
    pub fn normal(name: String, path: String) -> (e: Self)
        ensures
            e.name == name,
            e.path == path,
    {
        PlaylistEntry { name, path }
    }
}


/// `v` lists each of `0..n` exactly once.
pub open spec fn is_permutation_of(v: Seq<usize>, n: nat) -> bool {
    &&& v.len() == n
    &&& forall|i: int| 0 <= i < n ==> #[trigger] v[i] < n
    &&& forall|i: int, j: int| 0 <= i < n && 0 <= j < n && i != j ==> v[i] != v[j]
}

/// The SplitMix64 state after one step from `s`: `s` plus the golden-ratio
/// increment, modulo 2^64.
pub open spec fn splitmix_state(s: u64) -> u64 {
    vstd::wrapping::u64_specs::wrapping_add(s, 0x9E37_79B9_7F4A_7C15)
}

/// The number SplitMix64 outputs for the state `z`: two xor-shift-multiply
/// rounds and a final xor-shift, the products taken modulo 2^64.
pub open spec fn splitmix_output(z: u64) -> u64 {
    let z1 = vstd::wrapping::u64_specs::wrapping_mul(z ^ (z >> 30u64), 0xBF58_476D_1CE4_E5B9);
    let z2 = vstd::wrapping::u64_specs::wrapping_mul(z1 ^ (z1 >> 27u64), 0x94D0_49BB_1331_11EB);
    z2 ^ (z2 >> 31u64)
}

/// One step of the SplitMix64 generator: advances `state` and returns the next
/// pseudo-random number.
fn splitmix64(state: &mut u64) -> (r: u64)
    ensures
        *final(state) == splitmix_state(*old(state)),
        r == splitmix_output(*final(state)),
{
    *state = state.wrapping_add(0x9E37_79B9_7F4A_7C15);
    let mut z = *state;
    z = (z ^ (z >> 30u64)).wrapping_mul(0xBF58_476D_1CE4_E5B9);
    z = (z ^ (z >> 27u64)).wrapping_mul(0x94D0_49BB_1331_11EB);
    z ^ (z >> 31u64)
}

/// The order `0..n`.
pub open spec fn identity_order(n: nat) -> Seq<usize> {
    Seq::new(n, |k: int| k as usize)
}

/// Fisher–Yates from `order` with `i` places left to settle: draw the next
/// SplitMix64 number after `state`, swap place `i - 1` with the place that
/// number picks among `0..i`, and go on with the places before it.
pub open spec fn fisher_yates_from(order: Seq<usize>, state: u64, i: nat) -> Seq<usize>
    decreases i,
{
    if i <= 1 {
        order
    } else {
        let next = splitmix_state(state);
        let j = splitmix_output(next) as int % i as int;
        let last = i - 1;
        fisher_yates_from(order.update(last, order[j]).update(j, order[last]), next, last as nat)
    }
}

/// The play order `shuffled_indices` gives: Fisher–Yates over `0..n`, driven
/// by SplitMix64 seeded with `seed`.
pub open spec fn fisher_yates(n: nat, seed: u64) -> Seq<usize> {
    fisher_yates_from(identity_order(n), seed, n)
}

/// A shuffled play order of `n` tracks: every index of `0..n` exactly once,
/// in an order that depends on `seed` alone (Fisher–Yates driven by
/// SplitMix64).
pub fn shuffled_indices(n: usize, seed: u64) -> (order: Vec<usize>)
    ensures
        order@ == fisher_yates(n as nat, seed),
        is_permutation_of(order@, n as nat),
{
    let mut order: Vec<usize> = Vec::new();
    let mut k: usize = 0;
    while k < n
        invariant
            k <= n,
            order.len() == k,
            forall|i: int| 0 <= i < k ==> order@[i] == i,
        decreases n - k,
    {
        order.push(k);
        k = k + 1;
    }
    assert(order@ =~= identity_order(n as nat));
    let mut state = seed;
    let mut i = n;
    while i > 1
        invariant
            i <= n,
            order.len() == n,
            is_permutation_of(order@, n as nat),
            fisher_yates_from(order@, state, i as nat) == fisher_yates(n as nat, seed),
        decreases i,
    {
        let ghost before = order@;
        let ghost old_state = state;
        i = i - 1;
        let r = splitmix64(&mut state);
        let j = (r % (i as u64 + 1)) as usize;
        let a = order[i];
        let b = order[j];
        order.set(i, b);
        order.set(j, a);
        assert(order@ == before.update(i as int, before[j as int]).update(j as int, before[i as int]));
    }
    order
}

/// The places a Fisher–Yates pass has already settled stay as they are.
proof fn lemma_fisher_yates_keeps_settled(order: Seq<usize>, state: u64, i: nat, k: int)
    requires
        i <= k < order.len(),
        i <= order.len(),
    ensures
        fisher_yates_from(order, state, i).len() == order.len(),
        fisher_yates_from(order, state, i)[k] == order[k],
    decreases i,
{
    if i > 1 {
        let next = splitmix_state(state);
        let j = splitmix_output(next) as int % i as int;
        let last = i - 1;
        let o2 = order.update(last, order[j]).update(j, order[last]);
        lemma_fisher_yates_keeps_settled(o2, next, last as nat, k);
    }
}

/// Each draw settles one place: with `i` places left to settle (in an order
/// of any length from `i` on), place `i - 1` ends up holding the element the
/// next SplitMix64 number picks among the first `i` — and every place from
/// `i` on keeps its element. Applied from `n` down, every place but the first
/// is settled by its own draw, `n - 1` draws in all.
pub proof fn law_each_draw_settles_a_place(order: Seq<usize>, state: u64, i: nat)
    requires
        2 <= i <= order.len(),
    ensures
        fisher_yates_from(order, state, i).len() == order.len(),
        fisher_yates_from(order, state, i)[i - 1] == order[splitmix_output(splitmix_state(state))
            as int % i as int],
        forall|k: int|
            i <= k < order.len() ==> #[trigger] fisher_yates_from(order, state, i)[k] == order[k],
{
    let next = splitmix_state(state);
    let j = splitmix_output(next) as int % i as int;
    let last = (i - 1) as int;
    let o2 = order.update(last, order[j]).update(j, order[last]);
    if j == last {
        assert(o2[last] == order[j]);
    } else {
        assert(o2[last] == order[j]);
    }
    lemma_fisher_yates_keeps_settled(o2, next, (i - 1) as nat, last);
    assert forall|k: int| i <= k < order.len() implies #[trigger] fisher_yates_from(
        order,
        state,
        i,
    )[k] == order[k] by {
        lemma_fisher_yates_keeps_settled(o2, next, (i - 1) as nat, k);
    }
}

/// Shuffling really reorders: for twelve tracks, one of the seeds 1 to 5
/// gives an order other than `0..12` (seed 1 moves track 5 to the end).
pub proof fn law_shuffle_reorders()
    ensures
        exists|s: u64| 1 <= s <= 5 && fisher_yates(12, s) != identity_order(12),
{
    let z: u64 = 0x9E37_79B9_7F4A_7C16;
    assert(splitmix_state(1) == z);
    assert(z ^ (z >> 30u64) == 0x9E37_79BB_0797_9AF3u64) by (bit_vector)
        requires
            z == 0x9E37_79B9_7F4A_7C16u64,
    ;
    let b: u64 = 0xAD70_FC62_AE96_589B;
    assert(vstd::wrapping::u64_specs::wrapping_mul(0x9E37_79BB_0797_9AF3u64, 0xBF58_476D_1CE4_E5B9)
        == b);
    assert(b ^ (b >> 27u64) == 0xAD70_FC77_0089_D4CEu64) by (bit_vector)
        requires
            b == 0xAD70_FC62_AE96_589Bu64,
    ;
    let d: u64 = 0x910A_2DED_AB16_071A;
    assert(vstd::wrapping::u64_specs::wrapping_mul(0xAD70_FC77_0089_D4CEu64, 0x94D0_49BB_1331_11EB)
        == d);
    assert(d ^ (d >> 31u64) == 0x910A_2DEC_8902_5CC1u64) by (bit_vector)
        requires
            d == 0x910A_2DED_AB16_071Au64,
    ;
    assert(splitmix_output(z) == 0x910A_2DEC_8902_5CC1u64);
    assert(0x910A_2DEC_8902_5CC1u64 as int % 12 == 5);
    let id = identity_order(12);
    let o2 = id.update(11, id[5]).update(5, id[11]);
    assert(o2[11] == 5);
    lemma_fisher_yates_keeps_settled(o2, z, 11, 11);
    assert(fisher_yates(12, 1) == fisher_yates_from(o2, z, 11));
    assert(fisher_yates(12, 1)[11] == 5);
    assert(id[11] == 11);
}

} // verus!
