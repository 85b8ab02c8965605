//! Merkle membership: the off-circuit side of the membership chip.
//!
//! Each level orders `(left, right)` from `(current, sibling)` by a
//! position bit through a conditional-swap gate, then hashes the pair with
//! Poseidon. This module yields the values the chip assigns on each level
//! and states its swap gates.

use vstd::prelude::*;

use crate::field::{fadd, fmul, fsub, fneg, modulus, Fe};
use crate::hash::{
    cvals, permute, poseidon_fn, round_constants, spec_poseidon, spec_round_constants, ROUNDS,
};
use crate::tree::{fold_path, vals};
use vstd::arithmetic::power2::pow2;

verus! {

/// The booleanity gate: `b · (1 - b) = 0`.
pub open spec fn bool_gate(b: nat) -> bool {
    fmul(b, fsub(1, b)) == 0
}

/// The swap gates of one level: `pos` is boolean,
/// `left = current + pos · (sibling - current)` and
/// `right = current + sibling - left`.
#[verifier::opaque]
pub open spec fn swap_gates(pos: nat, current: nat, sibling: nat, left: nat, right: nat) -> bool {
    &&& bool_gate(pos)
    &&& left == fadd(current, fmul(pos, fsub(sibling, current)))
    &&& right == fsub(fadd(current, sibling), left)
}

/// Both 0 and 1 pass the booleanity gate.
pub proof fn lemma_bool_gate_bits()
    ensures
        bool_gate(0),
        bool_gate(1),
{
    let p = modulus() as int;
    vstd::arithmetic::div_mod::lemma_mod_self_0(p);
    vstd::arithmetic::div_mod::lemma_small_mod((p - 1) as nat, p as nat);
    assert(fneg(1) == p - 1);
    assert(fsub(1, 1) == 0);
}

/// `(x + (p - y) % p) % p` is `x - y` when `y <= x < p`, and `x + p - y`
/// when `x < y < p`.
proof fn lemma_sub_mod(x: nat, y: nat)
    requires
        x < modulus(),
        y < modulus(),
    ensures
        fsub(x, y) == if y <= x { (x - y) as nat } else { (x + modulus() - y) as nat },
{
    let p = modulus() as int;
    if y == 0 {
        vstd::arithmetic::div_mod::lemma_mod_self_0(p);
        vstd::arithmetic::div_mod::lemma_small_mod(x, p as nat);
    } else {
        vstd::arithmetic::div_mod::lemma_small_mod((p - y) as nat, p as nat);
        if y <= x {
            vstd::arithmetic::div_mod::lemma_mod_add_multiples_vanish(x - y, p);
            vstd::arithmetic::div_mod::lemma_small_mod((x - y) as nat, p as nat);
        } else {
            vstd::arithmetic::div_mod::lemma_small_mod((x + p - y) as nat, p as nat);
        }
    }
}

/// With a boolean position bit and canonical inputs, the swap gates hold
/// exactly when `(left, right)` is `(current, sibling)` for bit 0 and
/// `(sibling, current)` for bit 1.
pub proof fn lemma_swap_gates(pos: nat, current: nat, sibling: nat, left: nat, right: nat)
    requires
        pos == 0 || pos == 1,
        current < modulus(),
        sibling < modulus(),
    ensures
        swap_gates(pos, current, sibling, left, right) <==> (if pos == 1 {
            left == sibling && right == current
        } else {
            left == current && right == sibling
        }),
{
    reveal(swap_gates);
    let p = modulus() as int;
    lemma_bool_gate_bits();
    vstd::arithmetic::div_mod::lemma_small_mod(current, p as nat);
    vstd::arithmetic::div_mod::lemma_small_mod(sibling, p as nat);
    lemma_sub_mod(sibling, current);
    let d = fsub(sibling, current);
    assert(d < p);
    vstd::arithmetic::div_mod::lemma_small_mod(d, p as nat);
    let s = fadd(current, sibling);
    assert(s < p);
    if current + sibling < p {
        vstd::arithmetic::div_mod::lemma_small_mod((current + sibling) as nat, p as nat);
    } else {
        vstd::arithmetic::div_mod::lemma_mod_add_multiples_vanish(current + sibling - p, p);
        vstd::arithmetic::div_mod::lemma_small_mod((current + sibling - p) as nat, p as nat);
    }
    lemma_sub_mod(s, current);
    lemma_sub_mod(s, sibling);
    if pos == 1 {
        assert(fmul(1, d) == d);
        if current <= sibling {
            vstd::arithmetic::div_mod::lemma_small_mod(sibling, p as nat);
        } else {
            vstd::arithmetic::div_mod::lemma_mod_add_multiples_vanish(sibling as int, p);
        }
        assert(fadd(current, d) == sibling);
    } else {
        assert(fmul(0, d) == 0);
        assert(fadd(current, 0) == current);
    }
}


/// Position bit of `position` on level `level`.
pub open spec fn pos_bit(position: usize, level: usize) -> nat {
    ((position >> level) & 1usize) as nat
}

/// The values of one swap row.
#[derive(Clone, Copy, Debug)]
pub struct SwapWitness {
    pub pos_bit: Fe,
    pub left: Fe,
    pub right: Fe,
}

/// The swap row of level `level` for a leaf at `position`: the position bit
/// and the ordered pair, `(current, sibling)` for bit 0 and
/// `(sibling, current)` for bit 1.
pub fn swap_witness(position: usize, level: usize, current: Fe, sibling: Fe) -> (w: SwapWitness)
    requires
        level < usize::BITS,
    ensures
        pos_bit(position, level) <= 1,
        w.pos_bit@ == pos_bit(position, level),
        pos_bit(position, level) == 1 ==> w.left == sibling && w.right == current,
        pos_bit(position, level) == 0 ==> w.left == current && w.right == sibling,
        swap_gates(w.pos_bit@, current@, sibling@, w.left@, w.right@),
{
    let bit = (position >> level) & 1;
    assert(bit <= 1) by (bit_vector)
        requires
            bit == (position >> level) & 1usize,
    ;
    let pos_bit_val = Fe::from_u64(bit as u64);
    let (left, right) = if bit == 1 {
        (sibling, current)
    } else {
        (current, sibling)
    };
    proof {
        current.lemma_lt_modulus();
        sibling.lemma_lt_modulus();
        lemma_swap_gates(pos_bit_val@, current@, sibling@, left@, right@);
    }
    SwapWitness { pos_bit: pos_bit_val, left, right }
}

/// The values one level of the membership chip assigns.
#[derive(Clone, Copy, Debug)]
pub struct LevelWitness {
    pub pos_bit: Fe,
    pub current: Fe,
    pub sibling: Fe,
    pub left: Fe,
    pub right: Fe,
    /// Poseidon of `(left, right)`: the `current` of the next level.
    pub parent: Fe,
}

/// Facts of the position bits used along the path.
proof fn lemma_shift_step(position: usize, level: usize)
    requires
        level < usize::BITS,
    ensures
        ((position >> level) & 1usize) == (position >> level) % 2,
        level + 1 < usize::BITS ==> position >> ((level + 1) as usize) == (position >> level) / 2,
{
    assert(((position >> level) & 1usize) == (position >> level) % 2) by (bit_vector);
    assert(level + 1 < usize::BITS ==> position >> ((level + 1) as usize) == (position >> level) / 2)
        by (bit_vector);
}

/// The facts of one level of a membership witness, apart from where its
/// `current` comes from.
#[verifier::opaque]
pub open spec fn level_valid(w: LevelWitness, position: usize, l: int, sibling: Fe, cs: Seq<(nat, nat, nat)>) -> bool {
    &&& w.sibling == sibling
    &&& w.pos_bit@ == pos_bit(position, l as usize)
    &&& swap_gates(w.pos_bit@, w.current@, w.sibling@, w.left@, w.right@)
    &&& (pos_bit(position, l as usize) == 1 ==> w.left == w.sibling && w.right == w.current)
    &&& (pos_bit(position, l as usize) == 0 ==> w.left == w.current && w.right == w.sibling)
    &&& w.parent@ == spec_poseidon(cs, w.left@, w.right@)
}

/// The membership witness of `leaf` at `position` with the sibling hashes
/// `path`, leaf level first: on each level the swap row and the parent hash.
/// `None` exactly when the round constants cannot be drawn. The last parent
/// (the leaf itself when the path is empty) is the root that folding the
/// path with Poseidon gives.
#[verifier::rlimit(30)]
pub fn membership_witness(leaf: Fe, path: &[Fe], position: usize, depth: usize) -> (r: Option<
    Vec<LevelWitness>,
>)
    requires
        path@.len() == depth,
        depth <= usize::BITS,
    ensures
        r is Some <==> spec_round_constants() is Some,
        r matches Some(ls) ==> {
            let cs = spec_round_constants().unwrap();
            &&& ls@.len() == depth
            &&& forall|l: int|
                0 <= l < depth ==> {
                    &&& (#[trigger] ls@[l]).current == (if l == 0 {
                        leaf
                    } else {
                        ls@[l - 1].parent
                    })
                    &&& level_valid(ls@[l], position, l, path@[l], cs)
                    &&& ls@[l].pos_bit@ == ((position >> (l as usize)) & 1usize) as nat
                    &&& ls@[l].pos_bit@ <= 1
                    &&& ls@[l].sibling == path@[l]
                    &&& fmul(ls@[l].pos_bit@, fsub(1, ls@[l].pos_bit@)) == 0
                    &&& ls@[l].left@ == fadd(ls@[l].current@, fmul(ls@[l].pos_bit@, fsub(ls@[l].sibling@, ls@[l].current@)))
                    &&& ls@[l].right@ == fsub(fadd(ls@[l].current@, ls@[l].sibling@), ls@[l].left@)
                    &&& ls@[l].parent@ == spec_poseidon(cs, ls@[l].left@, ls@[l].right@)
                }
            &&& bits_to_index(Seq::new(depth as nat, |l: int| ls@[l].pos_bit@)) == position as nat
                % pow2(depth as nat)
            &&& (if depth == 0 {
                leaf
            } else {
                ls@[depth - 1].parent
            })@ == fold_path(poseidon_fn(cs), leaf@, vals(path@), position as nat)
        },
{
    let constants = match round_constants() {
        Some(c) => c,
        None => {
            return None;
        },
    };
    let ghost cs = cvals(constants@);
    let ghost h = poseidon_fn(cs);
    let mut levels: Vec<LevelWitness> = Vec::new();
    let mut current = leaf;
    let mut level: usize = 0;
    let ghost mut idx: nat = position as nat;
    proof {
        assert(vals(path@).skip(0) =~= vals(path@));
        assert(position >> 0usize == position) by (bit_vector);
    }
    while level < depth
        invariant
            path@.len() == depth,
            depth <= usize::BITS,
            level <= depth,
            constants@.len() == ROUNDS,
            cs == cvals(constants@),
            cs == spec_round_constants().unwrap(),
            h == poseidon_fn(cs),
            levels@.len() == level,
            level < usize::BITS ==> idx == (position >> level) as nat,
            current == (if level == 0 {
                leaf
            } else {
                levels@[level - 1].parent
            }),
            fold_path(h, current@, vals(path@).skip(level as int), idx) == fold_path(
                h,
                leaf@,
                vals(path@),
                position as nat,
            ),
            forall|l: int|
                0 <= l < level ==> {
                    &&& (#[trigger] levels@[l]).current == (if l == 0 {
                        leaf
                    } else {
                        levels@[l - 1].parent
                    })
                    &&& level_valid(levels@[l], position, l, path@[l], cs)
                },
        decreases depth - level,
    {
        let sibling = path[level];
        let swap = swap_witness(position, level, current, sibling);
        let parent = permute(&constants, swap.left, swap.right);
        let w = LevelWitness {
            pos_bit: swap.pos_bit,
            current,
            sibling,
            left: swap.left,
            right: swap.right,
            parent,
        };
        proof {
            reveal(level_valid);
            assert(level_valid(w, position, level as int, sibling, cs));
            lemma_shift_step(position, level);
            let s = vals(path@).skip(level as int);
            assert(s[0] == sibling@);
            assert(s.drop_first() =~= vals(path@).skip(level + 1));
            let next = if idx % 2 == 0 { h(current@, s[0]) } else { h(s[0], current@) };
            assert(next == parent@);
        }
        levels.push(w);
        current = parent;
        proof {
            idx = idx / 2;
        }
        level += 1;
    }
    proof {
        assert(vals(path@).skip(depth as int) =~= Seq::<nat>::empty());
        reveal(level_valid);
        reveal(swap_gates);
        assert forall|l: int| 0 <= l < depth implies #[trigger] levels@[l].pos_bit@ == ((position
            >> (l as usize)) & 1usize) as nat && levels@[l].pos_bit@ <= 1 by {
            assert(level_valid(levels@[l], position, l, path@[l], cs));
            lemma_bit_le_one(position, l as usize);
        }
        lemma_position_bits(position, depth as nat);
        assert(Seq::new(depth as nat, |l: int| levels@[l].pos_bit@) =~= position_bits(
            position,
            depth as nat,
        ));
    }
    Some(levels)
}


/// The index whose binary digits, least significant first, are `bits`.
pub open spec fn bits_to_index(bits: Seq<nat>) -> nat
    decreases bits.len(),
{
    if bits.len() == 0 {
        0
    } else {
        bits[0] + 2 * bits_to_index(bits.drop_first())
    }
}

/// The value entering level `l` of a membership proof: the leaf, then the
/// parent of the level below.
pub open spec fn level_input(leaf: nat, parent: Seq<nat>, l: int) -> nat {
    if l == 0 {
        leaf
    } else {
        parent[l - 1]
    }
}

/// The gates of the membership chip along a path: on each level the
/// position bit is boolean-valued, the swap gates order
/// `(current, sibling)` into `(left, right)`, the parent is the hash of
/// `(left, right)`, and the next level's `current` is that parent.
pub open spec fn membership_gates(
    cs: Seq<(nat, nat, nat)>,
    leaf: nat,
    pos: Seq<nat>,
    sibling: Seq<nat>,
    left: Seq<nat>,
    right: Seq<nat>,
    parent: Seq<nat>,
) -> bool {
    &&& pos.len() == sibling.len()
    &&& left.len() == sibling.len()
    &&& right.len() == sibling.len()
    &&& parent.len() == sibling.len()
    &&& leaf < modulus()
    &&& forall|l: int|
        0 <= l < sibling.len() ==> {
            &&& (#[trigger] pos[l] == 0 || pos[l] == 1)
            &&& sibling[l] < modulus()
            &&& parent[l] < modulus()
            &&& swap_gates(pos[l], level_input(leaf, parent, l), sibling[l], left[l], right[l])
            &&& parent[l] == spec_poseidon(cs, left[l], right[l])
        }
}

/// The lowest digit and the rest of an index given by its binary digits.
proof fn lemma_bits_step(bits: Seq<nat>)
    requires
        bits.len() > 0,
        bits[0] == 0 || bits[0] == 1,
    ensures
        bits_to_index(bits) % 2 == bits[0],
        bits_to_index(bits) / 2 == bits_to_index(bits.drop_first()),
{
}

proof fn lemma_membership_suffix(
    cs: Seq<(nat, nat, nat)>,
    leaf: nat,
    pos: Seq<nat>,
    sibling: Seq<nat>,
    left: Seq<nat>,
    right: Seq<nat>,
    parent: Seq<nat>,
    l: int,
)
    requires
        membership_gates(cs, leaf, pos, sibling, left, right, parent),
        0 <= l <= sibling.len(),
    ensures
        fold_path(poseidon_fn(cs), level_input(leaf, parent, l), sibling.skip(l), bits_to_index(pos.skip(l)))
            == level_input(leaf, parent, sibling.len() as int),
    decreases sibling.len() - l,
{
    let d = sibling.len() as int;
    if l == d {
        assert(sibling.skip(l) =~= Seq::<nat>::empty());
    } else {
        lemma_membership_suffix(cs, leaf, pos, sibling, left, right, parent, l + 1);
        let cur = level_input(leaf, parent, l);
        assert(pos[l] == 0 || pos[l] == 1);
        if l > 0 {
            assert(pos[l - 1] == 0 || pos[l - 1] == 1);
            assert(parent[l - 1] < modulus());
        }
        assert(cur < modulus());
        lemma_swap_gates(pos[l], cur, sibling[l], left[l], right[l]);
        let s = sibling.skip(l);
        assert(s.drop_first() =~= sibling.skip(l + 1));
        assert(pos.skip(l).drop_first() =~= pos.skip(l + 1));
        lemma_bits_step(pos.skip(l));
        assert(level_input(leaf, parent, l + 1) == parent[l]);
    }
}

/// Soundness of the membership chip: whatever boolean position bits and
/// values satisfy its gates along a path, the last parent is the root that
/// folding the sibling hashes into the leaf gives, at the index whose
/// binary digits are the position bits.
pub proof fn lemma_membership_gates_determine_root(
    cs: Seq<(nat, nat, nat)>,
    leaf: nat,
    pos: Seq<nat>,
    sibling: Seq<nat>,
    left: Seq<nat>,
    right: Seq<nat>,
    parent: Seq<nat>,
)
    requires
        membership_gates(cs, leaf, pos, sibling, left, right, parent),
    ensures
        level_input(leaf, parent, sibling.len() as int) == fold_path(
            poseidon_fn(cs),
            leaf,
            sibling,
            bits_to_index(pos),
        ),
{
    lemma_membership_suffix(cs, leaf, pos, sibling, left, right, parent, 0);
    assert(sibling.skip(0) =~= sibling);
    assert(pos.skip(0) =~= pos);
}


/// The first `d` binary digits of `position`, least significant first.
pub open spec fn position_bits(position: usize, d: nat) -> Seq<nat> {
    Seq::new(d, |l: int| ((position >> (l as usize)) & 1usize) as nat)
}

/// A masked bit is 0 or 1.
proof fn lemma_bit_le_one(p: usize, l: usize)
    ensures
        ((p >> l) & 1usize) <= 1,
{
    assert(((p >> l) & 1usize) <= 1) by (bit_vector);
}

/// Shifting by `l + 1` is shifting by one, then by `l`.
proof fn lemma_shift_compose(p: usize, l: usize)
    requires
        l + 1 < usize::BITS,
    ensures
        p >> ((l + 1) as usize) == (p >> 1usize) >> l,
{
    assert(p >> ((l + 1) as usize) == (p >> 1usize) >> l) by (bit_vector)
        requires
            l + 1 < usize::BITS,
    ;
}

/// The position bits are the binary digits of the position: read back as
/// an index, the first `d` of them give the position modulo `2^d`.
pub proof fn lemma_position_bits(position: usize, d: nat)
    requires
        d <= usize::BITS,
    ensures
        position_bits(position, d).len() == d,
        forall|l: int| 0 <= l < d ==> #[trigger] position_bits(position, d)[l] <= 1,
        bits_to_index(position_bits(position, d)) == position as nat % pow2(d),
    decreases d,
{
    assert forall|l: int| 0 <= l < d implies #[trigger] position_bits(position, d)[l] <= 1 by {
        lemma_bit_le_one(position, l as usize);
    }
    if d == 0 {
        vstd::arithmetic::power2::lemma2_to64();
    } else {
        let half = position >> 1usize;
        lemma_position_bits(half, (d - 1) as nat);
        let bits = position_bits(position, d);
        let rest = position_bits(half, (d - 1) as nat);
        assert forall|l: int| 0 <= l < d - 1 implies #[trigger] bits.drop_first()[l] == rest[l] by {
            lemma_shift_compose(position, l as usize);
        }
        assert(bits.drop_first() =~= rest);
        assert(bits[0] == position as nat % 2) by {
            assert(position >> 0usize == position) by (bit_vector);
            assert((position & 1usize) == position % 2) by (bit_vector);
        }
        assert(half == position / 2) by (bit_vector)
            requires
                half == position >> 1usize,
        ;
        let m = pow2((d - 1) as nat);
        vstd::arithmetic::power2::lemma_pow2_pos((d - 1) as nat);
        vstd::arithmetic::power2::lemma_pow2_unfold(d);
        vstd::arithmetic::div_mod::lemma_mod_breakdown(position as int, 2, m as int);
        assert(bits_to_index(bits) == bits[0] + 2 * bits_to_index(rest));
    }
}

} // verus!
