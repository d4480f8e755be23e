//! An ordered map built on a scapegoat tree.
//!
//! All nodes live in one arena and are addressed by slot indices; the tree
//! keeps no per-node balance metadata and instead restores its depth bound
//! by occasionally flattening and rebuilding an unbalanced subtree in place.

use vstd::arithmetic::power::pow;
use vstd::prelude::*;

use crate::arena::Arena;
use crate::error::SGErr;
use crate::model::{child_link, lemma_height_le_size, lemma_lg2_mono, lemma_parent_outside, lg2, lemma_replace_child, lemma_subtree_at, redirect_link, is_max_key, is_min_key, lemma_fuel_any, lemma_fuel_mono, lemma_frame, lemma_idxs_le_len, lemma_node_compose, lemma_node_unfold, lemma_size_le_len, lemma_wf_props, sub_height, sub_idxs, sub_map, sub_size, sub_wf};
use crate::node::{Node, NodeGetHelper};
use crate::stack::{stack_seq, IdxStack};

verus! {

/// A memory-efficient, self-balancing binary search tree mapping `u64` keys
/// to values of type `V`, with nominal capacity `N`.
pub struct SGTree<V, const N: usize> {
    // Storage
    arena: Arena<V, N>,
    root_idx: Option<usize>,
    // Query cache
    max_idx: usize,
    min_idx: usize,
    curr_size: usize,
    // Balance control
    alpha_num: u64,
    alpha_denom: u64,
    max_size: usize,
    rebal_cnt: usize,
}

impl<V, const N: usize> View for SGTree<V, N> {
    type V = Map<u64, V>;

    open spec fn view(&self) -> Map<u64, V> {
        self.as_map()
    }
}

/// `d` is the depth limit for high-water mark `val`: the largest depth with
/// `(denom/num)^d <= val`, the floor of the base-`denom/num` logarithm of
/// `val`.
pub open spec fn is_alpha_depth(num: nat, denom: nat, val: nat, d: nat) -> bool {
    &&& pow(denom as int, d) <= val * pow(num as int, d)
    &&& pow(denom as int, (d + 1) as nat) > val * pow(num as int, (d + 1) as nat)
}

/// The greatest common divisor, by the classical remainder rule.
pub open spec fn gcd(a: nat, b: nat) -> nat
    decreases b,
{
    if b == 0 {
        a
    } else {
        gcd(b, a % b)
    }
}

/// An admissible balance parameter: a ratio in the half-open interval from
/// one half to one.
pub open spec fn valid_alpha(num: u64, denom: u64) -> bool {
    1 <= num < denom <= 2 * num
}

// The greatest common divisor is positive and divides both arguments.
proof fn lemma_gcd_divides(a: nat, b: nat)
    requires
        a > 0,
    ensures
        gcd(a, b) > 0,
        a % gcd(a, b) == 0,
        b % gcd(a, b) == 0,
    decreases b,
{
    let g = gcd(a, b);
    if b == 0 {
        vstd::arithmetic::div_mod::lemma_mod_self_0(a as int);
        vstd::arithmetic::div_mod::lemma_small_mod(0, a);
    } else {
        lemma_gcd_divides(b, a % b);
        assert(g == gcd(b, a % b));
        // g divides b and the remainder, so it divides a as well
        vstd::arithmetic::div_mod::lemma_fundamental_div_mod(a as int, b as int);
        vstd::arithmetic::div_mod::lemma_fundamental_div_mod(b as int, g as int);
        assert(b * (a as int / b as int) == ((b as int / g as int) * (a as int / b as int)) * g)
            by (nonlinear_arith)
            requires
                b == g * (b as int / g as int),
        ;
        vstd::arithmetic::div_mod::lemma_mod_multiples_basic(
            (b as int / g as int) * (a as int / b as int),
            g as int,
        );
        vstd::arithmetic::div_mod::lemma_add_mod_noop(
            b * (a as int / b as int),
            (a % b) as int,
            g as int,
        );
        vstd::arithmetic::div_mod::lemma_small_mod(0, g);
    }
}

// A depth limit computed for the reduced balance parameter is the depth
// limit for the stored one: scaling both sides of the ratio changes neither
// inequality.
proof fn lemma_alpha_depth_scale(g: nat, rn: nat, rd: nat, val: nat, d: nat)
    requires
        g >= 1,
        rn >= 1,
        is_alpha_depth(rn, rd, val, d),
    ensures
        is_alpha_depth(g * rn, g * rd, val, d),
{
    vstd::arithmetic::power::lemma_pow_distributes(g as int, rn as int, d);
    vstd::arithmetic::power::lemma_pow_distributes(g as int, rd as int, d);
    vstd::arithmetic::power::lemma_pow_distributes(g as int, rn as int, (d + 1) as nat);
    vstd::arithmetic::power::lemma_pow_distributes(g as int, rd as int, (d + 1) as nat);
    vstd::arithmetic::power::lemma_pow_positive(g as int, d);
    vstd::arithmetic::power::lemma_pow_positive(g as int, (d + 1) as nat);
    assert(pow(g as int, d) * pow(rd as int, d) <= val * (pow(g as int, d) * pow(rn as int, d)))
        by (nonlinear_arith)
        requires
            pow(rd as int, d) <= val * pow(rn as int, d),
            pow(g as int, d) > 0,
            val >= 0,
    ;
    assert(pow(g as int, (d + 1) as nat) * pow(rd as int, (d + 1) as nat) > val * (pow(
        g as int,
        (d + 1) as nat,
    ) * pow(rn as int, (d + 1) as nat))) by (nonlinear_arith)
        requires
            pow(rd as int, (d + 1) as nat) > val * pow(rn as int, (d + 1) as nat),
            pow(g as int, (d + 1) as nat) > 0,
            val >= 0,
    ;
}

// The greatest common divisor, computed by the remainder loop.
#[verifier::loop_isolation(false)]
fn euclid_gcd(a: u64, b: u64) -> (r: u64)
    requires
        a >= 1,
    ensures
        r == gcd(a as nat, b as nat),
        r >= 1,
    decreases b,
{
    proof {
        lemma_gcd_divides(a as nat, b as nat);
    }
    let mut x = a;
    let mut y = b;
    while y != 0
        invariant
            x >= 1,
            gcd(x as nat, y as nat) == gcd(a as nat, b as nat),
        decreases y,
    {
        let t = x % y;
        x = y;
        y = t;
    }
    x
}

// Powers are monotone in the base.
proof fn lemma_pow_base_mono(a: nat, b: nat, e: nat)
    requires
        1 <= a <= b,
    ensures
        pow(a as int, e) <= pow(b as int, e),
    decreases e,
{
    reveal(vstd::arithmetic::power::pow);
    vstd::arithmetic::power::lemma_pow0(a as int);
    vstd::arithmetic::power::lemma_pow0(b as int);
    if e > 0 {
        lemma_pow_base_mono(a, b, (e - 1) as nat);
        vstd::arithmetic::power::lemma_pow_positive(a as int, (e - 1) as nat);
        vstd::arithmetic::power::lemma_pow_positive(b as int, (e - 1) as nat);
        assert(pow(a as int, e) == a * pow(a as int, (e - 1) as nat));
        assert(pow(b as int, e) == b * pow(b as int, (e - 1) as nat));
        assert(a * pow(a as int, (e - 1) as nat) <= b * pow(b as int, (e - 1) as nat))
            by (nonlinear_arith)
            requires
                a <= b,
                0 < pow(a as int, (e - 1) as nat) <= pow(b as int, (e - 1) as nat),
        ;
    }
}

// The value of a small base raised to the 53rd power, by repeated squaring.
proof fn lemma_pow_53(b: int, b2: int, b4: int, b8: int, b16: int, b32: int, b48: int, b52: int, b53: int)
    requires
        1 <= b,
        b2 == b * b,
        b4 == b2 * b2,
        b8 == b4 * b4,
        b16 == b8 * b8,
        b32 == b16 * b16,
        b48 == b32 * b16,
        b52 == b48 * b4,
        b53 == b52 * b,
    ensures
        pow(b, 53) == b53,
{
    vstd::arithmetic::power::lemma_pow1(b);
    vstd::arithmetic::power::lemma_pow_adds(b, 1, 1);
    vstd::arithmetic::power::lemma_pow_adds(b, 2, 2);
    vstd::arithmetic::power::lemma_pow_adds(b, 4, 4);
    vstd::arithmetic::power::lemma_pow_adds(b, 8, 8);
    vstd::arithmetic::power::lemma_pow_adds(b, 16, 16);
    vstd::arithmetic::power::lemma_pow_adds(b, 32, 16);
    vstd::arithmetic::power::lemma_pow_adds(b, 48, 4);
    vstd::arithmetic::power::lemma_pow_adds(b, 52, 1);
}

// At depth 53 the balance ratio already exceeds the largest admissible
// high-water mark, for every numerator the exact arithmetic carries.
proof fn lemma_alpha_base_53(num: nat)
    requires
        1 <= num <= 4,
    ensures
        pow((num + 1) as int, 53) > 131070 * pow(num as int, 53),
{
    vstd::arithmetic::power::lemma1_pow(53);
    lemma_pow_53(
        2,
        4,
        16,
        256,
        65536,
        4294967296,
        281474976710656,
        4503599627370496,
        9007199254740992,
    );
    lemma_pow_53(
        3,
        9,
        81,
        6561,
        43046721,
        1853020188851841,
        79766443076872509863361,
        6461081889226673298932241,
        19383245667680019896796723,
    );
    lemma_pow_53(
        4,
        16,
        256,
        65536,
        4294967296,
        18446744073709551616,
        79228162514264337593543950336,
        20282409603651670423947251286016,
        81129638414606681695789005144064,
    );
    lemma_pow_53(
        5,
        25,
        625,
        390625,
        152587890625,
        23283064365386962890625,
        3552713678800500929355621337890625,
        2220446049250313080847263336181640625,
        11102230246251565404236316680908203125,
    );
}

// A depth that satisfies the balance inequality is at most 52 for every
// small-numerator ratio and admissible high-water mark; this bounds the
// depth-limit loop and keeps its arithmetic within the machine word.
proof fn lemma_alpha_depth_bound(num: nat, denom: nat, val: nat, e: nat)
    requires
        1 <= num <= 4,
        num < denom,
        1 <= val <= 131070,
        pow(denom as int, e) <= val * pow(num as int, e),
    ensures
        e <= 52,
{
    if e > 52 {
        let b = (num + 1) as nat;
        lemma_pow_base_mono(b, denom, e);
        vstd::arithmetic::power::lemma_pow_positive(num as int, e);
        let c: nat = 53;
        lemma_alpha_base_53(num);
        let rest = (e - c) as nat;
        vstd::arithmetic::power::lemma_pow_adds(b as int, c, rest);
        vstd::arithmetic::power::lemma_pow_adds(num as int, c, rest);
        lemma_pow_base_mono(num, b, rest);
        vstd::arithmetic::power::lemma_pow_positive(num as int, rest);
        vstd::arithmetic::power::lemma_pow_positive(b as int, rest);
        vstd::arithmetic::power::lemma_pow_positive(num as int, c);
        assert(pow(b as int, e) > val * pow(num as int, e)) by (nonlinear_arith)
            requires
                pow(b as int, e) == pow(b as int, c) * pow(b as int, rest),
                pow(num as int, e) == pow(num as int, c) * pow(num as int, rest),
                pow(b as int, c) > 131070 * pow(num as int, c),
                pow(b as int, rest) >= pow(num as int, rest),
                pow(num as int, rest) > 0,
                pow(num as int, c) > 0,
                0 < val <= 131070,
        ;
        assert(pow(b as int, e) <= pow(denom as int, e));
    }
}

// Powers of a small numerator stay far below the 128-bit limit.
proof fn lemma_pow_fits(b: nat, e: nat)
    requires
        1 <= b <= 4,
        e <= 53,
    ensures
        pow(b as int, e) <= pow(2, 106),
        pow(2, 106) == 0x400_0000_0000_0000_0000_0000_0000,
{
    lemma_pow_base_mono(b, 4, e);
    vstd::arithmetic::power::lemma_pow_increases(4, e, 53);
    vstd::arithmetic::power::lemma_pow_multiplies(2, 2, 53);
    assert(pow(2, 2) == 4) by {
        reveal_with_fuel(vstd::arithmetic::power::pow, 3);
    }
    vstd::arithmetic::power::lemma_pow_adds(2, 64, 42);
    vstd::arithmetic::power2::lemma_pow2(64);
    vstd::arithmetic::power2::lemma_pow2(42);
    vstd::arithmetic::power2::lemma2_to64();
    vstd::arithmetic::power2::lemma2_to64_rest();
    assert(pow(2, 106) == 0x400_0000_0000_0000_0000_0000_0000);
}

/// Some position of `q` within `[lo, hi]` holds `j`.
spec fn range_has(q: Seq<usize>, lo: int, hi: int, j: usize) -> bool {
    exists|t: int| lo <= t <= hi && q[t] == j
}

impl<V, const N: usize> SGTree<V, N> {
    /// Fuel that always suffices to unfold this tree's structure.
    pub closed spec fn fuel(self) -> nat {
        self.arena@.len() + 1
    }

    /// The key-value map this tree holds.
    pub closed spec fn as_map(self) -> Map<u64, V> {
        sub_map(self.arena@, self.root_idx, self.fuel())
    }

    /// The rebalance counter.
    pub closed spec fn spec_rebal_cnt(self) -> usize {
        self.rebal_cnt
    }

    /// The high-water mark of the tree's size since the last full rebuild.
    pub closed spec fn spec_max_size(self) -> usize {
        self.max_size
    }

    /// The balance parameter as `(numerator, denominator)`.
    pub closed spec fn spec_alpha(self) -> (u64, u64) {
        (self.alpha_num, self.alpha_denom)
    }

    /// The maximum number of nodes on any root-to-leaf path.
    pub closed spec fn spec_height(self) -> nat {
        sub_height(self.arena@, self.root_idx, self.fuel())
    }

    /// Structural well-formedness except the deletion-threshold bound:
    /// everything `wf` states other than the relation between the size and
    /// its high-water mark. Removal re-establishes that relation only at the
    /// operation boundary.
    spec fn wf_core(self) -> bool {
        &&& self.arena.inv()
        &&& sub_wf(self.arena@, self.root_idx, self.fuel())
        &&& self.curr_size == sub_size(self.arena@, self.root_idx, self.fuel())
        &&& (forall|i: usize|
            i < self.arena@.len() && self.arena@[i as int] is Some ==> #[trigger] sub_idxs(
                self.arena@,
                self.root_idx,
                self.fuel(),
            ).contains(i))
        &&& (self.root_idx is Some ==> {
            &&& sub_idxs(self.arena@, self.root_idx, self.fuel()).contains(self.min_idx)
            &&& sub_idxs(self.arena@, self.root_idx, self.fuel()).contains(self.max_idx)
            &&& is_min_key(self.as_map(), self.arena@[self.min_idx as int].unwrap().key)
            &&& is_max_key(self.as_map(), self.arena@[self.max_idx as int].unwrap().key)
        })
        &&& self.curr_size <= self.max_size
        &&& self.curr_size <= 0xFFFF
        &&& valid_alpha(self.alpha_num, self.alpha_denom)
        &&& N <= 0xFFFF
    }

    /// Structural well-formedness: the arena's free-slot discipline holds,
    /// the slots reachable from the root form a strictly ordered binary
    /// search tree and are exactly the occupied slots, the cached size,
    /// minimum and maximum are accurate, the balance parameter is in range,
    /// and the deletion threshold discipline relates size and high-water mark.
    pub closed spec fn wf(self) -> bool {
        &&& self.wf_core()
        &&& self.max_size <= 2 * self.curr_size
    }

    /// Makes a new, empty tree with the default balance parameter 2/3.
    ///
    /// The nominal capacity may not exceed the largest slot index, `0xFFFF`.
    pub fn new() -> (t: Self)
        requires
            N <= 0xFFFF,
        ensures
            t.wf(),
            t@ == Map::<u64, V>::empty(),
            t.spec_rebal_cnt() == 0,
            t.spec_alpha() == (2u64, 3u64),
            t.spec_max_size() == 0,
    {
        let t = SGTree {
            arena: Arena::new(),
            root_idx: None,
            max_idx: 0,
            min_idx: 0,
            curr_size: 0,
            alpha_num: 2,
            alpha_denom: 3,
            max_size: 0,
            rebal_cnt: 0,
        };
        proof {
            assert(t.as_map() =~= Map::<u64, V>::empty());
        }
        t
    }

    /// The scapegoat balance parameter `alpha = num / denom` can be chosen in
    /// the range `1/2 <= alpha < 1`; it tunes how aggressively the tree
    /// rebalances. Low values rebuild often and keep lookups fast; high
    /// values rebuild rarely and keep insertions fast.
    ///
    /// Returns `Err(SGErr::RebalanceFactorOutOfRange)` and leaves the tree
    /// unchanged unless `1/2 <= num / denom < 1`.
    pub fn set_rebal_param(&mut self, alpha_num: u64, alpha_denom: u64) -> (r: Result<(), SGErr>)
        requires
            old(self).wf(),
        ensures
            final(self).wf(),
            r is Ok <==> valid_alpha(alpha_num, alpha_denom),
            r is Ok ==> final(self).spec_alpha() == (alpha_num, alpha_denom),
            r is Err ==> *final(self) == *old(self) && r == Err::<(), SGErr>(
                SGErr::RebalanceFactorOutOfRange,
            ),
            final(self)@ == old(self)@,
            final(self).spec_rebal_cnt() == old(self).spec_rebal_cnt(),
    {
        if 1 <= alpha_num && alpha_num < alpha_denom && (alpha_denom as u128) <= 2 * (
        alpha_num as u128) {
            self.alpha_num = alpha_num;
            self.alpha_denom = alpha_denom;
            Ok(())
        } else {
            Err(SGErr::RebalanceFactorOutOfRange)
        }
    }

    /// The current rebalance parameter, as `(numerator, denominator)`.
    pub fn rebal_param(&self) -> (r: (u64, u64))
        ensures
            r == self.spec_alpha(),
    {
        (self.alpha_num, self.alpha_denom)
    }

    /// Total capacity: the number of pairs the capacity-checked operations
    /// accept. The unchecked operations may store pairs beyond this.
    pub fn capacity(&self) -> (r: usize)
        ensures
            r == N,
    {
        self.arena.capacity()
    }

    /// The size of an individual node of this tree, in bytes.
    pub fn node_size(&self) -> (r: usize)
        ensures
            r == vstd::layout::size_of::<Node<V>>(),
    {
        self.arena.node_size()
    }

    /// Returns the number of elements in the tree.
    pub fn len(&self) -> (r: usize)
        requires
            self.wf(),
        ensures
            r == self@.dom().len(),
            self@.dom().finite(),
    {
        proof {
            lemma_wf_props(self.arena@, self.root_idx, self.fuel());
        }
        self.curr_size
    }

    /// Returns `true` if the tree contains no elements.
    pub fn is_empty(&self) -> (r: bool)
        requires
            self.wf(),
        ensures
            r <==> self@ == Map::<u64, V>::empty(),
    {
        proof {
            lemma_wf_props(self.arena@, self.root_idx, self.fuel());
            if self.root_idx is None {
                assert(self@ =~= Map::<u64, V>::empty());
            } else {
                assert(self@.dom().contains(
                    self.arena@[self.root_idx.unwrap() as int].unwrap().key,
                ));
            }
        }
        self.root_idx.is_none()
    }

    /// The number of times this tree has rebalanced itself. Wraps around on
    /// overflow.
    pub fn rebal_cnt(&self) -> (r: usize)
        ensures
            r == self.spec_rebal_cnt(),
    {
        self.rebal_cnt
    }

    // Iterative search. If the key is found, reports its slot, its parent's
    // slot, and whether the found slot is its parent's right child.
    #[verifier::loop_isolation(false)]
    fn priv_get(&self, key: &u64) -> (ngh: NodeGetHelper)
        requires
            self.wf_core(),
        ensures
            self@.dom().contains(*key) <==> ngh.node_idx is Some,
            ngh.node_idx is Some ==> {
                let i = ngh.node_idx.unwrap();
                &&& sub_idxs(self.arena@, self.root_idx, self.fuel()).contains(i)
                &&& self.arena@[i as int].unwrap().key == *key
                &&& self.arena@[i as int].unwrap().val == self@[*key]
                &&& (ngh.parent_idx is None ==> Some(i) == self.root_idx)
                &&& (ngh.parent_idx is Some ==> {
                    let p = ngh.parent_idx.unwrap();
                    &&& sub_idxs(self.arena@, self.root_idx, self.fuel()).contains(p)
                    &&& (if ngh.is_right_child {
                        self.arena@[p as int].unwrap().right == Some(i)
                    } else {
                        self.arena@[p as int].unwrap().left == Some(i)
                    })
                })
            },
            ngh.node_idx is None ==> ngh.parent_idx is None && !ngh.is_right_child,
    {
        proof {
            lemma_wf_props(self.arena@, self.root_idx, self.fuel());
        }
        match self.root_idx {
            None => NodeGetHelper { node_idx: None, parent_idx: None, is_right_child: false },
            Some(root) => {
                let mut opt_parent_idx: Option<usize> = None;
                let mut curr_idx = root;
                let mut is_right_child = false;
                loop
                    invariant
                        sub_idxs(self.arena@, self.root_idx, self.fuel()).contains(curr_idx),
                        sub_wf(self.arena@, Some(curr_idx), self.fuel()),
                        self@.dom().contains(*key) <==> sub_map(
                            self.arena@,
                            Some(curr_idx),
                            self.fuel(),
                        ).dom().contains(*key),
                        self@.dom().contains(*key) ==> self@[*key] == sub_map(
                            self.arena@,
                            Some(curr_idx),
                            self.fuel(),
                        )[*key],
                        match opt_parent_idx {
                            None => curr_idx == root,
                            Some(p) => sub_idxs(self.arena@, self.root_idx, self.fuel()).contains(
                                p,
                            ) && (if is_right_child {
                                self.arena@[p as int].unwrap().right == Some(curr_idx)
                            } else {
                                self.arena@[p as int].unwrap().left == Some(curr_idx)
                            }),
                        },
                    decreases sub_size(self.arena@, Some(curr_idx), self.fuel()),
                {
                    let node = self.arena.node_ref(curr_idx);
                    let ghost fl = (self.fuel() - 1) as nat;
                    proof {
                        lemma_wf_props(self.arena@, Some(curr_idx), self.fuel());
                        if node.left is Some {
                            lemma_fuel_mono(self.arena@, node.left, fl, self.fuel());
                        }
                        if node.right is Some {
                            lemma_fuel_mono(self.arena@, node.right, fl, self.fuel());
                        }
                    }
                    if *key < node.key {
                        proof {
                            assert(!sub_map(self.arena@, node.right, fl).dom().contains(*key));
                        }
                        match node.left {
                            Some(lt_idx) => {
                                opt_parent_idx = Some(curr_idx);
                                curr_idx = lt_idx;
                                is_right_child = false;
                            },
                            None => {
                                proof {
                                    assert(sub_map(self.arena@, node.left, fl)
                                        =~= Map::<u64, V>::empty());
                                    assert(!sub_map(
                                        self.arena@,
                                        Some(curr_idx),
                                        self.fuel(),
                                    ).dom().contains(*key));
                                }
                                return NodeGetHelper {
                                    node_idx: None,
                                    parent_idx: None,
                                    is_right_child: false,
                                };
                            },
                        }
                    } else if *key > node.key {
                        proof {
                            assert(!sub_map(self.arena@, node.left, fl).dom().contains(*key));
                        }
                        match node.right {
                            Some(gt_idx) => {
                                opt_parent_idx = Some(curr_idx);
                                curr_idx = gt_idx;
                                is_right_child = true;
                            },
                            None => {
                                proof {
                                    assert(sub_map(self.arena@, node.right, fl)
                                        =~= Map::<u64, V>::empty());
                                    assert(!sub_map(
                                        self.arena@,
                                        Some(curr_idx),
                                        self.fuel(),
                                    ).dom().contains(*key));
                                }
                                return NodeGetHelper {
                                    node_idx: None,
                                    parent_idx: None,
                                    is_right_child: false,
                                };
                            },
                        }
                    } else {
                        proof {
                            assert(sub_map(self.arena@, Some(curr_idx), self.fuel()).dom().contains(
                                *key,
                            ));
                            assert(sub_map(self.arena@, Some(curr_idx), self.fuel())[*key]
                                == node.val);
                        }
                        return NodeGetHelper {
                            node_idx: Some(curr_idx),
                            parent_idx: opt_parent_idx,
                            is_right_child,
                        };
                    }
                }
            },
        }
    }

    // Sorted insert of a pair into the subtree rooted at `idx` (inner).
    // Appends the slots visited on the way down to `path`, this subtree's
    // root first. If the key is already present, overwrites that node's key
    // and value in place and returns the displaced value; otherwise links a
    // fresh leaf below the last visited node and returns the leaf's slot.
    #[verifier::rlimit(100)]
    #[verifier::spinoff_prover]
    fn priv_insert(
        arena: &mut Arena<V, N>,
        idx: usize,
        key: u64,
        val: V,
        path: &mut IdxStack,
    ) -> (r: (Option<V>, Option<usize>))
        requires
            old(arena).inv(),
            sub_wf(old(arena)@, Some(idx), old(arena)@.len() + 1),
        ensures
            final(arena).inv(),
            old(arena)@.len() <= final(arena)@.len() <= old(arena)@.len() + 1,
            ({
                let s1 = old(arena)@;
                let s2 = final(arena)@;
                let f1 = s1.len() + 1;
                let f2 = s2.len() + 1;
                let m1 = sub_map(s1, Some(idx), f1);
                &&& sub_wf(s2, Some(idx), f2)
                &&& sub_map(s2, Some(idx), f2) == m1.insert(key, val)
                &&& r.0 == (if m1.dom().contains(key) {
                    Some(m1[key])
                } else {
                    None::<V>
                })
                &&& (r.1 is Some <==> !m1.dom().contains(key))
                &&& (match r.1 {
                    Some(j) => {
                        &&& j < s2.len()
                        &&& s2[j as int] is Some
                        &&& s2[j as int].unwrap().key == key
                        &&& !sub_idxs(s1, Some(idx), f1).contains(j)
                        &&& sub_idxs(s2, Some(idx), f2) == sub_idxs(s1, Some(idx), f1).insert(j)
                        &&& (j < s1.len() ==> s1[j as int] is None && s2.len() == s1.len())
                        &&& (j >= s1.len() ==> j == s1.len() && s2.len() == s1.len() + 1)
                    },
                    None => sub_idxs(s2, Some(idx), f2) == sub_idxs(s1, Some(idx), f1) && s2.len()
                        == s1.len(),
                })
                &&& (forall|t: int|
                    0 <= t < s1.len() && !sub_idxs(s1, Some(idx), f1).contains(t as usize) && r.1
                        != Some(t as usize) ==> s2[t] == s1[t])
                &&& (forall|t: usize| #[trigger]
                    sub_idxs(s1, Some(idx), f1).contains(t) ==> s2[t as int] is Some
                        && s2[t as int].unwrap().key == s1[t as int].unwrap().key)
                &&& stack_seq(*final(path)).len() > stack_seq(*old(path)).len()
                &&& stack_seq(*final(path)).subrange(0, stack_seq(*old(path)).len() as int)
                    == stack_seq(*old(path))
                &&& stack_seq(*final(path))[stack_seq(*old(path)).len() as int] == idx
                &&& (forall|t: int|
                    stack_seq(*old(path)).len() <= t < stack_seq(*final(path)).len()
                        ==> sub_idxs(s2, Some(idx), f2).contains(
                        #[trigger] stack_seq(*final(path))[t],
                    ))
                &&& (forall|t: int|
                    stack_seq(*old(path)).len() <= t < stack_seq(*final(path)).len() - 1
                        ==> child_link(
                        s2,
                        #[trigger] stack_seq(*final(path))[t],
                        stack_seq(*final(path))[t + 1],
                    ))
            }),
        decreases sub_size(old(arena)@, Some(idx), old(arena)@.len() + 1),
    {
        let ghost s1 = arena@;
        let ghost f1 = s1.len() + 1;
        let ghost n1 = s1[idx as int].unwrap();
        let ghost ml1 = sub_map(s1, n1.left, f1);
        let ghost mr1 = sub_map(s1, n1.right, f1);
        let ghost il1 = sub_idxs(s1, n1.left, f1);
        let ghost ir1 = sub_idxs(s1, n1.right, f1);
        let ghost m1 = sub_map(s1, Some(idx), f1);
        let ghost pth0 = stack_seq(*path);
        proof {
            lemma_node_unfold(s1, idx, f1);
            lemma_wf_props(s1, Some(idx), f1);
            lemma_wf_props(s1, n1.left, f1);
            lemma_wf_props(s1, n1.right, f1);
        }
        path.push(idx);
        let node = arena.node_ref(idx);
        let node_key = node.key;
        let node_left = node.left;
        let node_right = node.right;
        if key < node_key {
            match node_left {
                Some(l) => {
                    let rr = Self::priv_insert(arena, l, key, val, path);
                    proof {
                        let s2 = arena@;
                        let f2 = s2.len() + 1;
                        // the root's own slot and the right subtree are outside the
                        // left subtree and the fresh slot, hence unchanged
                        assert(rr.1 != Some(idx));
                        assert(s2[idx as int] == s1[idx as int]);
                        assert forall|t: usize| #[trigger] ir1.contains(t) implies s2[t as int]
                            == s1[t as int] by {
                            assert(s1[t as int] is Some);
                            assert(rr.1 != Some(t));
                            assert(!il1.contains(t));
                        }
                        lemma_frame(s1, s2, n1.right, f1);
                        lemma_fuel_mono(s2, n1.right, f1, f2);
                        lemma_wf_props(s2, Some(l), f2);
                        lemma_wf_props(s2, n1.right, f2);
                        // fuel covers the assembled size
                        let u = sub_idxs(s2, Some(l), f2).union(sub_idxs(s2, n1.right, f2));
                        assert(sub_idxs(s2, n1.right, f2) == ir1);
                        assert forall|t: usize| #[trigger] sub_idxs(s2, Some(l), f2).contains(t)
                            implies !ir1.contains(t) by {
                            if rr.1 == Some(t) {
                                assert(s1[t as int] is None || t >= s1.len());
                            } else {
                                assert(il1.contains(t));
                            }
                        }
                        vstd::set_lib::lemma_set_disjoint_lens(sub_idxs(s2, Some(l), f2), ir1);
                        lemma_idxs_le_len(u, s2.len());
                        lemma_node_compose(s2, idx, f2);
                        // the assembled map is the old map with (key, val) set
                        assert(!mr1.dom().contains(key));
                        assert(sub_map(s2, Some(idx), f2) =~= m1.insert(key, val));
                        // the assembled index set
                        match rr.1 {
                            Some(j) => {
                                assert(sub_idxs(s2, Some(idx), f2) =~= sub_idxs(
                                    s1,
                                    Some(idx),
                                    f1,
                                ).insert(j));
                            },
                            None => {
                                assert(sub_idxs(s2, Some(idx), f2) =~= sub_idxs(s1, Some(idx), f1));
                            },
                        }
                        // the displaced value comes from the left subtree
                        assert(m1.dom().contains(key) <==> ml1.dom().contains(key));
                        if ml1.dom().contains(key) {
                            assert(m1[key] == ml1[key]);
                        }
                        // path bookkeeping
                        let pm = pth0.push(idx);
                        let pf = stack_seq(*path);
                        assert(pf.subrange(0, pm.len() as int) == pm);
                        assert forall|t: int| 0 <= t < pth0.len() implies pf[t] == pth0[t] by {
                            assert(pf.subrange(0, pm.len() as int)[t] == pf[t]);
                            assert(pm[t] == pth0[t]);
                        }
                        assert(pf.subrange(0, pth0.len() as int) =~= pth0);
                        assert(pf[pth0.len() as int] == pm[pth0.len() as int]) by {
                            assert(pf.subrange(0, pm.len() as int)[pth0.len() as int] == pf[pth0.len() as int]);
                        }
                        assert forall|t: int|
                            pth0.len() <= t < pf.len() implies sub_idxs(s2, Some(idx), f2).contains(
                            #[trigger] pf[t],
                        ) by {
                            if t == pth0.len() {
                                assert(pf[t] == idx);
                            } else {
                                assert(sub_idxs(s2, Some(l), f2).contains(pf[t]));
                            }
                        }
                        assert forall|t: int|
                            pth0.len() <= t < pf.len() - 1 implies child_link(
                            s2,
                            #[trigger] pf[t],
                            pf[t + 1],
                        ) by {
                            if t == pth0.len() {
                                assert(pf[t] == idx);
                                assert(pf[t + 1] == l);
                                assert(s2[idx as int].unwrap().left == Some(l));
                            }
                        }
                    }
                    rr
                },
                None => {
                    let j = arena.add(key, val);
                    let ghost sa = arena@;
                    arena.set_left(idx, Some(j));
                    proof {
                        let s2 = arena@;
                        let f2 = s2.len() + 1;
                        let leaf = Node { key, val, left: None, right: None };
                        assert(ml1 =~= Map::<u64, V>::empty());
                        assert(il1 =~= Set::<usize>::empty());
                        assert(j != idx);
                        assert(s2[j as int] == Some(leaf));
                        assert(s2[idx as int] == Some(Node { left: Some(j), ..n1 }));
                        // the fresh leaf is a well-formed singleton subtree
                        assert(sub_map(s2, None, 0) =~= Map::<u64, V>::empty());
                        assert(sub_idxs(s2, None, 0) =~= Set::<usize>::empty());
                        assert(sub_wf(s2, None, 0));
                        assert(sub_wf(s2, Some(j), 1));
                        lemma_fuel_mono(s2, Some(j), 1, f2);
                        assert(sub_map(s2, Some(j), 1) =~= Map::<u64, V>::empty().insert(key, val));
                        assert(sub_idxs(s2, Some(j), 1) =~= Set::<usize>::empty().insert(j));
                        assert(sub_size(s2, None, 0) == 0);
                        assert(sub_size(s2, Some(j), 1) == 1);
                        // the right subtree is untouched
                        assert forall|t: usize| #[trigger] ir1.contains(t) implies s2[t as int]
                            == s1[t as int] by {
                            assert(s1[t as int] is Some);
                            assert(t != j && t != idx);
                        }
                        lemma_frame(s1, s2, n1.right, f1);
                        lemma_fuel_mono(s2, n1.right, f1, f2);
                        lemma_wf_props(s2, n1.right, f2);
                        // fuel covers the assembled size
                        let u = sub_idxs(s2, Some(j), f2).union(sub_idxs(s2, n1.right, f2));
                        assert(!ir1.contains(j));
                        vstd::set_lib::lemma_set_disjoint_lens(sub_idxs(s2, Some(j), f2), ir1);
                        lemma_idxs_le_len(u, s2.len());
                        lemma_node_compose(s2, idx, f2);
                        assert(!mr1.dom().contains(key));
                        assert(!m1.dom().contains(key));
                        assert(sub_map(s2, Some(idx), f2) =~= m1.insert(key, val));
                        assert(sub_idxs(s2, Some(idx), f2) =~= sub_idxs(s1, Some(idx), f1).insert(
                            j,
                        ));
                        // path bookkeeping: only this slot was appended
                        let pf = stack_seq(*path);
                        assert(pf == pth0.push(idx));
                        assert(pf.subrange(0, pth0.len() as int) =~= pth0);
                    }
                    (None, Some(j))
                },
            }
        } else if key > node_key {
            match node_right {
                Some(g) => {
                    let rr = Self::priv_insert(arena, g, key, val, path);
                    proof {
                        let s2 = arena@;
                        let f2 = s2.len() + 1;
                        assert(rr.1 != Some(idx));
                        assert(s2[idx as int] == s1[idx as int]);
                        assert forall|t: usize| #[trigger] il1.contains(t) implies s2[t as int]
                            == s1[t as int] by {
                            assert(s1[t as int] is Some);
                            assert(rr.1 != Some(t));
                            assert(!ir1.contains(t));
                        }
                        lemma_frame(s1, s2, n1.left, f1);
                        lemma_fuel_mono(s2, n1.left, f1, f2);
                        lemma_wf_props(s2, Some(g), f2);
                        lemma_wf_props(s2, n1.left, f2);
                        let u = sub_idxs(s2, n1.left, f2).union(sub_idxs(s2, Some(g), f2));
                        assert(sub_idxs(s2, n1.left, f2) == il1);
                        assert forall|t: usize| #[trigger] sub_idxs(s2, Some(g), f2).contains(t)
                            implies !il1.contains(t) by {
                            if rr.1 == Some(t) {
                                assert(s1[t as int] is None || t >= s1.len());
                            } else {
                                assert(ir1.contains(t));
                            }
                        }
                        vstd::set_lib::lemma_set_disjoint_lens(il1, sub_idxs(s2, Some(g), f2));
                        lemma_idxs_le_len(u, s2.len());
                        lemma_node_compose(s2, idx, f2);
                        assert(!ml1.dom().contains(key));
                        assert(sub_map(s2, Some(idx), f2) =~= m1.insert(key, val));
                        match rr.1 {
                            Some(j) => {
                                assert(sub_idxs(s2, Some(idx), f2) =~= sub_idxs(
                                    s1,
                                    Some(idx),
                                    f1,
                                ).insert(j));
                            },
                            None => {
                                assert(sub_idxs(s2, Some(idx), f2) =~= sub_idxs(s1, Some(idx), f1));
                            },
                        }
                        assert(m1.dom().contains(key) <==> mr1.dom().contains(key));
                        if mr1.dom().contains(key) {
                            assert(m1[key] == mr1[key]);
                        }
                        let pm = pth0.push(idx);
                        let pf = stack_seq(*path);
                        assert(pf.subrange(0, pm.len() as int) == pm);
                        assert forall|t: int| 0 <= t < pth0.len() implies pf[t] == pth0[t] by {
                            assert(pf.subrange(0, pm.len() as int)[t] == pf[t]);
                            assert(pm[t] == pth0[t]);
                        }
                        assert(pf.subrange(0, pth0.len() as int) =~= pth0);
                        assert(pf[pth0.len() as int] == pm[pth0.len() as int]) by {
                            assert(pf.subrange(0, pm.len() as int)[pth0.len() as int] == pf[pth0.len() as int]);
                        }
                        assert forall|t: int|
                            pth0.len() <= t < pf.len() implies sub_idxs(s2, Some(idx), f2).contains(
                            #[trigger] pf[t],
                        ) by {
                            if t == pth0.len() {
                                assert(pf[t] == idx);
                            } else {
                                assert(sub_idxs(s2, Some(g), f2).contains(pf[t]));
                            }
                        }
                        assert forall|t: int|
                            pth0.len() <= t < pf.len() - 1 implies child_link(
                            s2,
                            #[trigger] pf[t],
                            pf[t + 1],
                        ) by {
                            if t == pth0.len() {
                                assert(pf[t] == idx);
                                assert(pf[t + 1] == g);
                                assert(s2[idx as int].unwrap().right == Some(g));
                            }
                        }
                    }
                    rr
                },
                None => {
                    let j = arena.add(key, val);
                    let ghost sa = arena@;
                    arena.set_right(idx, Some(j));
                    proof {
                        let s2 = arena@;
                        let f2 = s2.len() + 1;
                        let leaf = Node { key, val, left: None, right: None };
                        assert(mr1 =~= Map::<u64, V>::empty());
                        assert(ir1 =~= Set::<usize>::empty());
                        assert(j != idx);
                        assert(s2[j as int] == Some(leaf));
                        assert(s2[idx as int] == Some(Node { right: Some(j), ..n1 }));
                        assert(sub_map(s2, None, 0) =~= Map::<u64, V>::empty());
                        assert(sub_idxs(s2, None, 0) =~= Set::<usize>::empty());
                        assert(sub_wf(s2, None, 0));
                        assert(sub_wf(s2, Some(j), 1));
                        lemma_fuel_mono(s2, Some(j), 1, f2);
                        assert(sub_map(s2, Some(j), 1) =~= Map::<u64, V>::empty().insert(key, val));
                        assert(sub_idxs(s2, Some(j), 1) =~= Set::<usize>::empty().insert(j));
                        assert(sub_size(s2, None, 0) == 0);
                        assert(sub_size(s2, Some(j), 1) == 1);
                        assert forall|t: usize| #[trigger] il1.contains(t) implies s2[t as int]
                            == s1[t as int] by {
                            assert(s1[t as int] is Some);
                            assert(t != j && t != idx);
                        }
                        lemma_frame(s1, s2, n1.left, f1);
                        lemma_fuel_mono(s2, n1.left, f1, f2);
                        lemma_wf_props(s2, n1.left, f2);
                        let u = sub_idxs(s2, n1.left, f2).union(sub_idxs(s2, Some(j), f2));
                        assert(!il1.contains(j));
                        vstd::set_lib::lemma_set_disjoint_lens(il1, sub_idxs(s2, Some(j), f2));
                        lemma_idxs_le_len(u, s2.len());
                        lemma_node_compose(s2, idx, f2);
                        assert(!ml1.dom().contains(key));
                        assert(!m1.dom().contains(key));
                        assert(sub_map(s2, Some(idx), f2) =~= m1.insert(key, val));
                        assert(sub_idxs(s2, Some(idx), f2) =~= sub_idxs(s1, Some(idx), f1).insert(
                            j,
                        ));
                        let pf = stack_seq(*path);
                        assert(pf == pth0.push(idx));
                        assert(pf.subrange(0, pth0.len() as int) =~= pth0);
                    }
                    (None, Some(j))
                },
            }
        } else {
            arena.set_key(idx, key);
            let ghost sa = arena@;
            let displaced = arena.replace_val(idx, val);
            proof {
                let s2 = arena@;
                let f2 = s2.len() + 1;
                assert(key == n1.key);
                assert(sa =~= s1);
                assert(s2 =~= s1.update(
                    idx as int,
                    Some(Node { key: n1.key, val, left: n1.left, right: n1.right }),
                ));
                assert forall|t: usize| #[trigger] il1.contains(t) implies s2[t as int]
                    == s1[t as int] by {
                    assert(t != idx);
                }
                assert forall|t: usize| #[trigger] ir1.contains(t) implies s2[t as int]
                    == s1[t as int] by {
                    assert(t != idx);
                }
                lemma_frame(s1, s2, n1.left, f1);
                lemma_frame(s1, s2, n1.right, f1);
                lemma_fuel_mono(s2, n1.left, f1, f2);
                lemma_fuel_mono(s2, n1.right, f1, f2);
                lemma_size_le_len(s1, Some(idx), f1);
                lemma_wf_props(s2, n1.left, f2);
                lemma_wf_props(s2, n1.right, f2);
                let u = sub_idxs(s2, n1.left, f2).union(sub_idxs(s2, n1.right, f2));
                vstd::set_lib::lemma_set_disjoint_lens(il1, ir1);
                lemma_idxs_le_len(u, s2.len());
                lemma_node_compose(s2, idx, f2);
                assert(sub_map(s2, Some(idx), f2) =~= m1.insert(key, val));
                assert(sub_idxs(s2, Some(idx), f2) =~= sub_idxs(s1, Some(idx), f1));
                assert(m1.dom().contains(key));
                assert(m1[key] == n1.val);
                let pf = stack_seq(*path);
                assert(pf == pth0.push(idx));
                assert(pf.subrange(0, pth0.len() as int) =~= pth0);
            }
            (Some(displaced), None)
        }
    }

    // Sorted insert of a pair into the tree (outer). Maintains the cached
    // minimum and maximum and the size counters.
    #[verifier::rlimit(50)]
    fn priv_balancing_insert(&mut self, key: u64, val: V) -> (r: Option<V>)
        requires
            old(self).wf(),
            old(self)@.dom().contains(key) || old(self)@.dom().len() < 0xFFFF,
        ensures
            final(self).wf(),
            final(self)@ == old(self)@.insert(key, val),
            r == (if old(self)@.dom().contains(key) {
                Some(old(self)@[key])
            } else {
                None::<V>
            }),
            final(self).spec_alpha() == old(self).spec_alpha(),
            old(self)@.dom().contains(key) ==> final(self).spec_max_size() == old(
                self,
            ).spec_max_size(),
            !old(self)@.dom().contains(key) ==> final(self).spec_max_size() == old(
                self,
            ).spec_max_size() + 1,
            // an overwrite changes no structure, so it never rebalances
            old(self)@.dom().contains(key)
                ==> final(self).spec_rebal_cnt() == old(self).spec_rebal_cnt(),
    {
        proof {
            lemma_wf_props(self.arena@, self.root_idx, self.fuel());
        }
        match self.root_idx {
            None => {
                let ghost s1 = self.arena@;
                proof {
                    assert(self@ =~= Map::<u64, V>::empty());
                }
                let idx = self.arena.add(key, val);
                self.root_idx = Some(idx);
                self.min_idx = idx;
                self.max_idx = idx;
                self.curr_size = 1;
                self.max_size = self.max_size + 1;
                proof {
                    let s2 = self.arena@;
                    let f2 = s2.len() + 1;
                    let leaf = Node { key, val, left: None, right: None };
                    assert(s2[idx as int] == Some(leaf));
                    assert(sub_map(s2, None, 0) =~= Map::<u64, V>::empty());
                    assert(sub_idxs(s2, None, 0) =~= Set::<usize>::empty());
                    assert(sub_size(s2, None, 0) == 0);
                    assert(sub_wf(s2, None, 0));
                    assert(sub_wf(s2, Some(idx), 1));
                    assert(sub_map(s2, Some(idx), 1) =~= Map::<u64, V>::empty().insert(key, val));
                    assert(sub_idxs(s2, Some(idx), 1) =~= Set::<usize>::empty().insert(idx));
                    assert(sub_size(s2, Some(idx), 1) == 1);
                    lemma_fuel_mono(s2, Some(idx), 1, f2);
                    // every other occupied slot of the old arena would have been
                    // reachable from the old (empty) root
                    assert(sub_idxs(s1, None, s1.len() + 1) =~= Set::<usize>::empty());
                    assert forall|t: usize|
                        t < s2.len() && s2[t as int] is Some implies #[trigger] sub_idxs(
                        s2,
                        self.root_idx,
                        f2,
                    ).contains(t) by {
                        if t != idx {
                            assert(s1[t as int] == s2[t as int]);
                        }
                    }
                    assert(self@ =~= old(self)@.insert(key, val));
                }
                None
            },
            Some(root) => {
                let update_min = key < self.arena.node_ref(self.min_idx).key;
                let update_max = key > self.arena.node_ref(self.max_idx).key;
                let mut path = IdxStack::new();
                let ghost s1 = self.arena@;
                let ghost f1 = s1.len() + 1;
                let ghost m1 = sub_map(s1, Some(root), f1);
                let (opt_val, new_leaf) = Self::priv_insert(
                    &mut self.arena,
                    root,
                    key,
                    val,
                    &mut path,
                );
                let ghost s2 = self.arena@;
                let ghost f2 = s2.len() + 1;
                proof {
                    lemma_wf_props(s2, Some(root), f2);
                    vstd::set_lib::lemma_len_subset(
                        m1.dom(),
                        sub_map(s2, Some(root), f2).dom(),
                    );
                }
                match new_leaf {
                    Some(j) => {
                        self.curr_size = self.curr_size + 1;
                        self.max_size = self.max_size + 1;
                        if update_min {
                            self.min_idx = j;
                        }
                        if update_max {
                            self.max_idx = j;
                        }
                        proof {
                            assert(sub_map(s2, Some(root), f2).dom() =~= m1.dom().insert(key));
                            // occupied slots are exactly the reachable ones
                            assert forall|t: usize|
                                t < s2.len() && s2[t as int] is Some implies #[trigger] sub_idxs(
                                s2,
                                self.root_idx,
                                f2,
                            ).contains(t) by {
                                if t != j && !sub_idxs(s1, Some(root), f1).contains(t) {
                                    assert(s2[t as int] == s1[t as int]);
                                    assert(sub_idxs(s1, Some(root), f1).contains(t));
                                }
                            }
                            // cached minimum
                            let mk1 = s1[old(self).min_idx as int].unwrap().key;
                            let xk1 = s1[old(self).max_idx as int].unwrap().key;
                            if update_min {
                                assert(s2[j as int].unwrap().key == key);
                                assert forall|k2: u64|
                                    sub_map(s2, Some(root), f2).dom().contains(k2) implies key
                                    <= k2 by {
                                    if k2 != key {
                                        assert(m1.dom().contains(k2));
                                        assert(mk1 <= k2);
                                    }
                                }
                            } else {
                                assert(s2[old(self).min_idx as int].unwrap().key == mk1);
                                assert forall|k2: u64|
                                    sub_map(s2, Some(root), f2).dom().contains(k2) implies mk1
                                    <= k2 by {
                                    if k2 != key {
                                        assert(m1.dom().contains(k2));
                                    }
                                }
                            }
                            // cached maximum
                            if update_max {
                                assert(s2[j as int].unwrap().key == key);
                                assert forall|k2: u64|
                                    sub_map(s2, Some(root), f2).dom().contains(k2) implies key
                                    >= k2 by {
                                    if k2 != key {
                                        assert(m1.dom().contains(k2));
                                        assert(xk1 >= k2);
                                    }
                                }
                            } else {
                                assert(s2[old(self).max_idx as int].unwrap().key == xk1);
                                assert forall|k2: u64|
                                    sub_map(s2, Some(root), f2).dom().contains(k2) implies xk1
                                    >= k2 by {
                                    if k2 != key {
                                        assert(m1.dom().contains(k2));
                                    }
                                }
                            }
                        }
                    },
                    None => {
                        proof {
                            assert(sub_map(s2, Some(root), f2).dom() =~= m1.dom());
                            assert forall|t: usize|
                                t < s2.len() && s2[t as int] is Some implies #[trigger] sub_idxs(
                                s2,
                                self.root_idx,
                                f2,
                            ).contains(t) by {
                                if !sub_idxs(s1, Some(root), f1).contains(t) {
                                    assert(s2[t as int] == s1[t as int]);
                                    assert(sub_idxs(s1, Some(root), f1).contains(t));
                                }
                            }
                            let mk1 = s1[old(self).min_idx as int].unwrap().key;
                            let xk1 = s1[old(self).max_idx as int].unwrap().key;
                            assert(s2[old(self).min_idx as int].unwrap().key == mk1);
                            assert(s2[old(self).max_idx as int].unwrap().key == xk1);
                        }
                    },
                }
                if new_leaf.is_some() {
                    proof {
                        assert(self.wf());
                    }
                    // potential rebalance: only a structural insert can push a
                    // path below the depth limit; an overwrite changes no links
                    if path.len() > self.alpha_balance_depth(self.max_size) {
                        if let Some(scapegoat_idx) = self.find_scapegoat(&path) {
                            self.rebuild(scapegoat_idx);
                        }
                    }
                }
                opt_val
            },
        }
    }

    /// Inserts a key-value pair into the tree.
    ///
    /// If the key was not present, `None` is returned and the pair is added;
    /// the tree grows into dynamic storage beyond its nominal capacity, up to
    /// the largest slot index. If the key was present, both the key and the
    /// value are updated (accommodating key types whose equality ignores some
    /// fields) and the old value is returned.
    pub fn insert(&mut self, key: u64, val: V) -> (r: Option<V>)
        requires
            old(self).wf(),
            // a structural insert needs a fresh slot index; an overwrite does not
            old(self)@.dom().contains(key) || old(self)@.dom().len() < 0xFFFF,
        ensures
            final(self).wf(),
            final(self)@ == old(self)@.insert(key, val),
            r == (if old(self)@.dom().contains(key) {
                Some(old(self)@[key])
            } else {
                None::<V>
            }),
            final(self).spec_alpha() == old(self).spec_alpha(),
            // an overwrite changes no structure, so it never rebalances
            old(self)@.dom().contains(key)
                ==> final(self).spec_rebal_cnt() == old(self).spec_rebal_cnt(),
    {
        self.priv_balancing_insert(key, val)
    }

    /// Attempts to insert a key-value pair into the tree.
    ///
    /// Returns `Err(SGErr::StackCapacityExceeded)` and leaves the tree
    /// unchanged if the tree already holds `capacity()` pairs; otherwise
    /// behaves as [`SGTree::insert`] and returns the displaced value, if any,
    /// inside `Ok`.
    pub fn try_insert(&mut self, key: u64, val: V) -> (r: Result<Option<V>, SGErr>)
        requires
            old(self).wf(),
        ensures
            final(self).wf(),
            old(self)@.dom().len() < N ==> {
                &&& final(self)@ == old(self)@.insert(key, val)
                &&& r == Ok::<Option<V>, SGErr>(
                    if old(self)@.dom().contains(key) {
                        Some(old(self)@[key])
                    } else {
                        None::<V>
                    },
                )
            },
            old(self)@.dom().len() >= N ==> *final(self) == *old(self) && r == Err::<
                Option<V>,
                SGErr,
            >(SGErr::StackCapacityExceeded),
            // an overwrite changes no structure, so it never rebalances
            old(self)@.dom().len() < N && old(self)@.dom().contains(key)
                ==> final(self).spec_rebal_cnt() == old(self).spec_rebal_cnt(),
    {
        if self.len() < self.capacity() {
            Ok(self.insert(key, val))
        } else {
            Err(SGErr::StackCapacityExceeded)
        }
    }

    // Unlinks the minimum node of the subtree rooted at `idx`. Returns the
    // detached node's slot (still occupied, still holding its pair, its links
    // stale) and the subtree's new root.
    #[verifier::rlimit(100)]
    fn unlink_min(arena: &mut Arena<V, N>, idx: usize) -> (r: (usize, Option<usize>))
        requires
            old(arena).inv(),
            sub_wf(old(arena)@, Some(idx), old(arena)@.len() + 1),
        ensures
            final(arena).inv(),
            final(arena)@.len() == old(arena)@.len(),
            ({
                let s1 = old(arena)@;
                let s2 = final(arena)@;
                let f = s1.len() + 1;
                let mk = s1[r.0 as int].unwrap().key;
                &&& sub_idxs(s1, Some(idx), f).contains(r.0)
                &&& s2[r.0 as int] == s1[r.0 as int]
                &&& is_min_key(sub_map(s1, Some(idx), f), mk)
                &&& sub_wf(s2, r.1, f)
                &&& sub_map(s2, r.1, f) == sub_map(s1, Some(idx), f).remove(mk)
                &&& sub_idxs(s2, r.1, f) == sub_idxs(s1, Some(idx), f).remove(r.0)
                &&& (forall|t: int|
                    0 <= t < s1.len() && !sub_idxs(s1, Some(idx), f).contains(t as usize) ==> s2[t]
                        == s1[t])
                &&& (forall|t: usize| #[trigger]
                    sub_idxs(s1, Some(idx), f).contains(t) ==> s2[t as int] is Some
                        && s2[t as int].unwrap().key == s1[t as int].unwrap().key
                        && s2[t as int].unwrap().val == s1[t as int].unwrap().val)
            }),
        decreases sub_size(old(arena)@, Some(idx), old(arena)@.len() + 1),
    {
        let ghost s1 = arena@;
        let ghost f = s1.len() + 1;
        let ghost n1 = s1[idx as int].unwrap();
        let ghost ml1 = sub_map(s1, n1.left, f);
        let ghost mr1 = sub_map(s1, n1.right, f);
        let ghost il1 = sub_idxs(s1, n1.left, f);
        let ghost ir1 = sub_idxs(s1, n1.right, f);
        let ghost m1 = sub_map(s1, Some(idx), f);
        proof {
            lemma_node_unfold(s1, idx, f);
            lemma_wf_props(s1, Some(idx), f);
            lemma_wf_props(s1, n1.left, f);
            lemma_wf_props(s1, n1.right, f);
        }
        let node = arena.node_ref(idx);
        let node_left = node.left;
        let node_right = node.right;
        match node_left {
            None => {
                proof {
                    assert(ml1 =~= Map::<u64, V>::empty());
                    assert(il1 =~= Set::<usize>::empty());
                    assert forall|k2: u64| m1.dom().contains(k2) implies n1.key <= k2 by {
                        if k2 != n1.key {
                            assert(mr1.dom().contains(k2));
                        }
                    }
                    assert(sub_map(s1, n1.right, f) =~= m1.remove(n1.key));
                    assert(sub_idxs(s1, n1.right, f) =~= sub_idxs(s1, Some(idx), f).remove(idx));
                }
                (idx, node_right)
            },
            Some(l) => {
                let rr = Self::unlink_min(arena, l);
                let ghost sa = arena@;
                arena.set_left(idx, rr.1);
                proof {
                    let s2 = arena@;
                    let m = rr.0;
                    let mk = s1[m as int].unwrap().key;
                    assert(il1.contains(m));
                    assert(m != idx);
                    assert(s2[m as int] == s1[m as int]);
                    assert(s2[idx as int] == Some(Node { left: rr.1, ..n1 }));
                    // the right subtree is untouched
                    assert forall|t: usize| #[trigger] ir1.contains(t) implies s2[t as int] == s1[t as int] by {
                        assert(s1[t as int] is Some);
                        assert(t != idx && !il1.contains(t));
                    }
                    lemma_frame(s1, s2, n1.right, f);
                    // the rebuilt left subtree is untouched by the relink of idx
                    assert(!sub_idxs(sa, rr.1, f).contains(idx));
                    assert forall|t: usize| #[trigger] sub_idxs(sa, rr.1, f).contains(t) implies s2[t as int] == sa[t as int] by {
                        assert(t != idx);
                    }
                    lemma_frame(sa, s2, rr.1, f);
                    // reassemble the node
                    assert(sub_map(s2, rr.1, f) == ml1.remove(mk));
                    assert forall|k2: u64| #[trigger]
                        sub_map(s2, rr.1, f).dom().contains(k2) implies k2 < n1.key by {
                        assert(ml1.dom().contains(k2));
                    }
                    lemma_size_le_len(s2, rr.1, f);
                    lemma_fuel_any(s2, rr.1, f, (f - 1) as nat);
                    lemma_size_le_len(s2, n1.right, f);
                    lemma_fuel_any(s2, n1.right, f, (f - 1) as nat);
                    assert(sub_wf(s2, Some(idx), f));
                    lemma_node_unfold(s2, idx, f);
                    assert(sub_map(s2, Some(idx), f) =~= m1.remove(mk));
                    assert(sub_idxs(s2, Some(idx), f) =~= sub_idxs(s1, Some(idx), f).remove(m));
                    // the detached key is the global minimum
                    assert forall|k2: u64| m1.dom().contains(k2) implies mk <= k2 by {
                        if k2 != n1.key && !ml1.dom().contains(k2) {
                            assert(mr1.dom().contains(k2));
                            assert(mk < n1.key);
                        }
                    }
                    assert(is_min_key(m1, mk));
                }
                (rr.0, Some(idx))
            },
        }
    }

    // Removes a key from the subtree rooted at `idx`, re-linking the
    // remaining nodes. Returns the removed pair, the subtree's new root, and
    // the freed slot. A node with two children is removed by structurally
    // promoting its in-order successor; no key or value is copied between
    // nodes.
    #[verifier::rlimit(100)]
    fn priv_remove(arena: &mut Arena<V, N>, idx: usize, key: &u64) -> (r: (
        Option<(u64, V)>,
        Option<usize>,
        Option<usize>,
    ))
        requires
            old(arena).inv(),
            sub_wf(old(arena)@, Some(idx), old(arena)@.len() + 1),
        ensures
            final(arena).inv(),
            final(arena)@.len() == old(arena)@.len(),
            ({
                let s1 = old(arena)@;
                let s2 = final(arena)@;
                let f = s1.len() + 1;
                let m1 = sub_map(s1, Some(idx), f);
                &&& sub_wf(s2, r.1, f)
                &&& sub_map(s2, r.1, f) == m1.remove(*key)
                &&& r.0 == (if m1.dom().contains(*key) {
                    Some((*key, m1[*key]))
                } else {
                    None::<(u64, V)>
                })
                &&& (r.2 is Some <==> m1.dom().contains(*key))
                &&& (match r.2 {
                    Some(j) => {
                        &&& sub_idxs(s1, Some(idx), f).contains(j)
                        &&& s1[j as int].unwrap().key == *key
                        &&& s2[j as int] is None
                        &&& sub_idxs(s2, r.1, f) == sub_idxs(s1, Some(idx), f).remove(j)
                    },
                    None => *final(arena) == *old(arena) && r.1 == Some(idx),
                })
                &&& (forall|t: int|
                    0 <= t < s1.len() && !sub_idxs(s1, Some(idx), f).contains(t as usize) ==> s2[t]
                        == s1[t])
                &&& (forall|t: usize| #[trigger]
                    sub_idxs(s1, Some(idx), f).contains(t) && r.2 != Some(t) ==> s2[t as int]
                        is Some && s2[t as int].unwrap().key == s1[t as int].unwrap().key
                        && s2[t as int].unwrap().val == s1[t as int].unwrap().val)
            }),
        decreases sub_size(old(arena)@, Some(idx), old(arena)@.len() + 1),
    {
        let ghost s1 = arena@;
        let ghost f = s1.len() + 1;
        let ghost n1 = s1[idx as int].unwrap();
        let ghost ml1 = sub_map(s1, n1.left, f);
        let ghost mr1 = sub_map(s1, n1.right, f);
        let ghost il1 = sub_idxs(s1, n1.left, f);
        let ghost ir1 = sub_idxs(s1, n1.right, f);
        let ghost m1 = sub_map(s1, Some(idx), f);
        proof {
            lemma_node_unfold(s1, idx, f);
            lemma_wf_props(s1, Some(idx), f);
            lemma_wf_props(s1, n1.left, f);
            lemma_wf_props(s1, n1.right, f);
        }
        let node = arena.node_ref(idx);
        let node_key = node.key;
        let node_left = node.left;
        let node_right = node.right;
        if *key < node_key {
            proof {
                assert(!mr1.dom().contains(*key));
            }
            match node_left {
                Some(l) => {
                    let rr = Self::priv_remove(arena, l, key);
                    if rr.2.is_some() {
                        let ghost sa = arena@;
                        arena.set_left(idx, rr.1);
                        proof {
                            let s2 = arena@;
                            let j = rr.2.unwrap();
                            assert(s2[idx as int] == Some(Node { left: rr.1, ..n1 }));
                            assert forall|t: usize| #[trigger] ir1.contains(t) implies s2[t as int]
                                == s1[t as int] by {
                                assert(s1[t as int] is Some);
                                assert(t != idx && !il1.contains(t));
                            }
                            lemma_frame(s1, s2, n1.right, f);
                            assert(!sub_idxs(sa, rr.1, f).contains(idx));
                            assert forall|t: usize| #[trigger]
                                sub_idxs(sa, rr.1, f).contains(t) implies s2[t as int]
                                == sa[t as int] by {
                                assert(t != idx);
                            }
                            lemma_frame(sa, s2, rr.1, f);
                            assert forall|k2: u64| #[trigger]
                                sub_map(s2, rr.1, f).dom().contains(k2) implies k2 < n1.key by {
                                assert(ml1.remove(*key).dom().contains(k2));
                                assert(ml1.dom().contains(k2));
                            }
                            lemma_size_le_len(s2, rr.1, f);
                            lemma_fuel_any(s2, rr.1, f, (f - 1) as nat);
                            lemma_size_le_len(s2, n1.right, f);
                            lemma_fuel_any(s2, n1.right, f, (f - 1) as nat);
                            assert(sub_wf(s2, Some(idx), f));
                            lemma_node_unfold(s2, idx, f);
                            assert(sub_map(s2, Some(idx), f) =~= m1.remove(*key));
                            assert(il1.contains(j));
                            assert(j != idx);
                            assert(sub_idxs(s2, Some(idx), f) =~= sub_idxs(
                                s1,
                                Some(idx),
                                f,
                            ).remove(j));
                            assert(m1.dom().contains(*key) <==> ml1.dom().contains(*key));
                            assert(m1[*key] == ml1[*key]);
                        }
                    } else {
                        proof {
                            // the key was absent, so nothing was touched
                            assert(arena@ == s1);
                            assert(!ml1.dom().contains(*key));
                            assert(!m1.dom().contains(*key));
                            assert(sub_map(s1, Some(idx), f) =~= m1.remove(*key));
                        }
                    }
                    (rr.0, Some(idx), rr.2)
                },
                None => {
                    proof {
                        assert(ml1 =~= Map::<u64, V>::empty());
                        assert(!m1.dom().contains(*key));
                        assert(sub_map(s1, Some(idx), f) =~= m1.remove(*key));
                    }
                    (None, Some(idx), None)
                },
            }
        } else if *key > node_key {
            proof {
                assert(!ml1.dom().contains(*key));
            }
            match node_right {
                Some(g) => {
                    let rr = Self::priv_remove(arena, g, key);
                    if rr.2.is_some() {
                        let ghost sa = arena@;
                        arena.set_right(idx, rr.1);
                        proof {
                            let s2 = arena@;
                            let j = rr.2.unwrap();
                            assert(s2[idx as int] == Some(Node { right: rr.1, ..n1 }));
                            assert forall|t: usize| #[trigger] il1.contains(t) implies s2[t as int]
                                == s1[t as int] by {
                                assert(s1[t as int] is Some);
                                assert(t != idx && !ir1.contains(t));
                            }
                            lemma_frame(s1, s2, n1.left, f);
                            assert(!sub_idxs(sa, rr.1, f).contains(idx));
                            assert forall|t: usize| #[trigger]
                                sub_idxs(sa, rr.1, f).contains(t) implies s2[t as int]
                                == sa[t as int] by {
                                assert(t != idx);
                            }
                            lemma_frame(sa, s2, rr.1, f);
                            assert forall|k2: u64| #[trigger]
                                sub_map(s2, rr.1, f).dom().contains(k2) implies k2 > n1.key by {
                                assert(mr1.remove(*key).dom().contains(k2));
                                assert(mr1.dom().contains(k2));
                            }
                            lemma_size_le_len(s2, rr.1, f);
                            lemma_fuel_any(s2, rr.1, f, (f - 1) as nat);
                            lemma_size_le_len(s2, n1.left, f);
                            lemma_fuel_any(s2, n1.left, f, (f - 1) as nat);
                            assert(sub_wf(s2, Some(idx), f));
                            lemma_node_unfold(s2, idx, f);
                            assert(sub_map(s2, Some(idx), f) =~= m1.remove(*key));
                            assert(ir1.contains(j));
                            assert(j != idx);
                            assert(sub_idxs(s2, Some(idx), f) =~= sub_idxs(
                                s1,
                                Some(idx),
                                f,
                            ).remove(j));
                            assert(m1.dom().contains(*key) <==> mr1.dom().contains(*key));
                            assert(m1[*key] == mr1[*key]);
                        }
                    } else {
                        proof {
                            // the key was absent, so nothing was touched
                            assert(arena@ == s1);
                            assert(!mr1.dom().contains(*key));
                            assert(!m1.dom().contains(*key));
                            assert(sub_map(s1, Some(idx), f) =~= m1.remove(*key));
                        }
                    }
                    (rr.0, Some(idx), rr.2)
                },
                None => {
                    proof {
                        assert(mr1 =~= Map::<u64, V>::empty());
                        assert(!m1.dom().contains(*key));
                        assert(sub_map(s1, Some(idx), f) =~= m1.remove(*key));
                    }
                    (None, Some(idx), None)
                },
            }
        } else {
            // the node to remove is `idx` itself
            match (node_left, node_right) {
                (None, None) => {
                    let kv = arena.hard_remove(idx);
                    proof {
                        let s2 = arena@;
                        assert(ml1 =~= Map::<u64, V>::empty());
                        assert(sub_map(s2, None, f) =~= m1.remove(*key));
                        assert(sub_idxs(s2, None, f) =~= sub_idxs(s1, Some(idx), f).remove(idx));
                        assert(m1[*key] == n1.val);
                    }
                    (Some(kv), None, Some(idx))
                },
                (Some(l), None) => {
                    let kv = arena.hard_remove(idx);
                    proof {
                        let s2 = arena@;
                        assert forall|t: usize| #[trigger] il1.contains(t) implies s2[t as int]
                            == s1[t as int] by {
                            assert(t != idx);
                        }
                        lemma_frame(s1, s2, n1.left, f);
                        assert(mr1 =~= Map::<u64, V>::empty());
                        assert(sub_map(s2, Some(l), f) =~= m1.remove(*key));
                        assert(sub_idxs(s2, Some(l), f) =~= sub_idxs(s1, Some(idx), f).remove(idx));
                        assert(m1[*key] == n1.val);
                    }
                    (Some(kv), Some(l), Some(idx))
                },
                (None, Some(g)) => {
                    let kv = arena.hard_remove(idx);
                    proof {
                        let s2 = arena@;
                        assert forall|t: usize| #[trigger] ir1.contains(t) implies s2[t as int]
                            == s1[t as int] by {
                            assert(t != idx);
                        }
                        lemma_frame(s1, s2, n1.right, f);
                        assert(ml1 =~= Map::<u64, V>::empty());
                        assert(sub_map(s2, Some(g), f) =~= m1.remove(*key));
                        assert(sub_idxs(s2, Some(g), f) =~= sub_idxs(s1, Some(idx), f).remove(idx));
                        assert(m1[*key] == n1.val);
                    }
                    (Some(kv), Some(g), Some(idx))
                },
                (Some(l), Some(g)) => {
                    // find the in-order successor, unlink it, and promote it
                    // into the removed node's structural position
                    let rr = Self::unlink_min(arena, g);
                    let m = rr.0;
                    let ghost sa = arena@;
                    let ghost mk = s1[m as int].unwrap().key;
                    let ghost mv = s1[m as int].unwrap().val;
                    proof {
                        assert(ir1.contains(m));
                        assert(m != idx && !il1.contains(m));
                        assert(mr1.dom().contains(mk) && mr1[mk] == mv);
                        assert(sa[m as int] == s1[m as int]);
                        assert(sa[idx as int] == s1[idx as int]);
                        assert forall|t: usize| #[trigger] il1.contains(t) implies sa[t as int]
                            == s1[t as int] by {
                            assert(s1[t as int] is Some);
                            assert(t != idx && !ir1.contains(t));
                        }
                        lemma_frame(s1, sa, n1.left, f);
                    }
                    arena.set_left(m, Some(l));
                    let ghost sb = arena@;
                    arena.set_right(m, rr.1);
                    let ghost sc = arena@;
                    proof {
                        assert(sc[m as int] == Some(
                            Node { key: mk, val: mv, left: Some(l), right: rr.1 },
                        ));
                        // the left subtree and the unlinked right remainder are
                        // untouched by the two relinks of m
                        assert(!sub_idxs(sa, rr.1, f).contains(m));
                        assert forall|t: usize| #[trigger]
                            sub_idxs(sa, rr.1, f).contains(t) implies sc[t as int] == sa[t as int] by {
                            assert(t != m);
                        }
                        lemma_frame(sa, sc, rr.1, f);
                        assert forall|t: usize| #[trigger]
                            sub_idxs(sa, n1.left, f).contains(t) implies sc[t as int] == sa[t as int] by {
                            assert(il1.contains(t));
                            assert(t != m);
                        }
                        lemma_frame(sa, sc, n1.left, f);
                        // orderings around the promoted node
                        assert forall|k2: u64| #[trigger]
                            sub_map(sc, Some(l), f).dom().contains(k2) implies k2 < mk by {
                            assert(ml1.dom().contains(k2));
                            assert(k2 < n1.key);
                            assert(n1.key < mk);
                        }
                        assert forall|k2: u64| #[trigger]
                            sub_map(sc, rr.1, f).dom().contains(k2) implies k2 > mk by {
                            assert(mr1.remove(mk).dom().contains(k2));
                            assert(mr1.dom().contains(k2));
                            assert(mk <= k2 && k2 != mk);
                        }
                        lemma_size_le_len(sc, rr.1, f);
                        lemma_fuel_any(sc, rr.1, f, (f - 1) as nat);
                        lemma_size_le_len(sc, n1.left, f);
                        lemma_fuel_any(sc, n1.left, f, (f - 1) as nat);
                        assert(sub_wf(sc, Some(m), f));
                        lemma_node_unfold(sc, m, f);
                    }
                    let kv = arena.hard_remove(idx);
                    proof {
                        let s2 = arena@;
                        assert(!sub_idxs(sc, Some(m), f).contains(idx));
                        assert forall|t: usize| #[trigger]
                            sub_idxs(sc, Some(m), f).contains(t) implies s2[t as int] == sc[t as int] by {
                            assert(t != idx);
                        }
                        lemma_frame(sc, s2, Some(m), f);
                        assert(sub_map(s2, Some(m), f) =~= m1.remove(*key));
                        assert(sub_idxs(s2, Some(m), f) =~= sub_idxs(s1, Some(idx), f).remove(idx));
                        assert(m1[*key] == n1.val);
                        assert(kv.0 == n1.key && kv.1 == n1.val);
                    }
                    (Some(kv), Some(m), Some(idx))
                },
            }
        }
    }

    // Recomputes the cached minimum by walking the left spine from the root.
    #[verifier::loop_isolation(false)]
    fn update_min_idx(&mut self)
        requires
            old(self).arena.inv(),
            sub_wf(old(self).arena@, old(self).root_idx, old(self).arena@.len() + 1),
        ensures
            *final(self) == (SGTree { min_idx: final(self).min_idx, ..*old(self) }),
            old(self).root_idx is Some ==> sub_idxs(
                old(self).arena@,
                old(self).root_idx,
                old(self).arena@.len() + 1,
            ).contains(final(self).min_idx) && is_min_key(
                old(self).as_map(),
                old(self).arena@[final(self).min_idx as int].unwrap().key,
            ),
            old(self).root_idx is None ==> final(self).min_idx == 0,
    {
        proof {
            lemma_wf_props(self.arena@, self.root_idx, self.fuel());
        }
        match self.root_idx {
            Some(root_idx) => {
                let mut curr_idx = root_idx;
                loop
                    invariant
                        *self == *old(self),
                        sub_idxs(self.arena@, self.root_idx, self.fuel()).contains(curr_idx),
                        sub_wf(self.arena@, Some(curr_idx), self.fuel()),
                        sub_map(self.arena@, Some(curr_idx), self.fuel()).dom().subset_of(
                            self.as_map().dom(),
                        ),
                        forall|k2: u64|
                            self.as_map().dom().contains(k2) && !sub_map(
                                self.arena@,
                                Some(curr_idx),
                                self.fuel(),
                            ).dom().contains(k2) ==> forall|k3: u64|
                                sub_map(self.arena@, Some(curr_idx), self.fuel()).dom().contains(
                                    k3,
                                ) ==> k3 < k2,
                    decreases sub_size(self.arena@, Some(curr_idx), self.fuel()),
                {
                    let node = self.arena.node_ref(curr_idx);
                    let ghost mc = sub_map(self.arena@, Some(curr_idx), self.fuel());
                    proof {
                        lemma_node_unfold(self.arena@, curr_idx, self.fuel());
                        lemma_wf_props(self.arena@, Some(curr_idx), self.fuel());
                    }
                    match node.left {
                        Some(lt_idx) => {
                            proof {
                                let n = self.arena@[curr_idx as int].unwrap();
                                let ml = sub_map(self.arena@, n.left, self.fuel());
                                assert forall|k2: u64|
                                    self.as_map().dom().contains(k2) && !ml.dom().contains(
                                        k2,
                                    ) implies forall|k3: u64|
                                    ml.dom().contains(k3) ==> k3 < k2 by {
                                    if mc.dom().contains(k2) {
                                        assert forall|k3: u64|
                                            ml.dom().contains(k3) implies k3 < k2 by {
                                            assert(k3 < n.key);
                                            if k2 != n.key {
                                                assert(sub_map(
                                                    self.arena@,
                                                    n.right,
                                                    self.fuel(),
                                                ).dom().contains(k2));
                                            }
                                        }
                                    } else {
                                        assert forall|k3: u64|
                                            ml.dom().contains(k3) implies k3 < k2 by {
                                            assert(mc.dom().contains(k3));
                                        }
                                    }
                                }
                            }
                            curr_idx = lt_idx;
                        },
                        None => {
                            proof {
                                let n = self.arena@[curr_idx as int].unwrap();
                                assert(sub_map(self.arena@, n.left, self.fuel())
                                    =~= Map::<u64, V>::empty());
                                assert(mc.dom().contains(n.key));
                                assert forall|k2: u64|
                                    self.as_map().dom().contains(k2) implies n.key <= k2 by {
                                    if mc.dom().contains(k2) {
                                        if k2 != n.key {
                                            assert(sub_map(
                                                self.arena@,
                                                n.right,
                                                self.fuel(),
                                            ).dom().contains(k2));
                                        }
                                    } else {
                                        assert(mc.dom().contains(n.key));
                                    }
                                }
                            }
                            self.min_idx = curr_idx;
                            return ;
                        },
                    }
                }
            },
            None => {
                self.min_idx = 0;
            },
        }
    }

    // Recomputes the cached maximum by walking the right spine from the root.
    #[verifier::loop_isolation(false)]
    fn update_max_idx(&mut self)
        requires
            old(self).arena.inv(),
            sub_wf(old(self).arena@, old(self).root_idx, old(self).arena@.len() + 1),
        ensures
            *final(self) == (SGTree { max_idx: final(self).max_idx, ..*old(self) }),
            old(self).root_idx is Some ==> sub_idxs(
                old(self).arena@,
                old(self).root_idx,
                old(self).arena@.len() + 1,
            ).contains(final(self).max_idx) && is_max_key(
                old(self).as_map(),
                old(self).arena@[final(self).max_idx as int].unwrap().key,
            ),
            old(self).root_idx is None ==> final(self).max_idx == 0,
    {
        proof {
            lemma_wf_props(self.arena@, self.root_idx, self.fuel());
        }
        match self.root_idx {
            Some(root_idx) => {
                let mut curr_idx = root_idx;
                loop
                    invariant
                        *self == *old(self),
                        sub_idxs(self.arena@, self.root_idx, self.fuel()).contains(curr_idx),
                        sub_wf(self.arena@, Some(curr_idx), self.fuel()),
                        sub_map(self.arena@, Some(curr_idx), self.fuel()).dom().subset_of(
                            self.as_map().dom(),
                        ),
                        forall|k2: u64|
                            self.as_map().dom().contains(k2) && !sub_map(
                                self.arena@,
                                Some(curr_idx),
                                self.fuel(),
                            ).dom().contains(k2) ==> forall|k3: u64|
                                sub_map(self.arena@, Some(curr_idx), self.fuel()).dom().contains(
                                    k3,
                                ) ==> k3 > k2,
                    decreases sub_size(self.arena@, Some(curr_idx), self.fuel()),
                {
                    let node = self.arena.node_ref(curr_idx);
                    let ghost mc = sub_map(self.arena@, Some(curr_idx), self.fuel());
                    proof {
                        lemma_node_unfold(self.arena@, curr_idx, self.fuel());
                        lemma_wf_props(self.arena@, Some(curr_idx), self.fuel());
                    }
                    match node.right {
                        Some(gt_idx) => {
                            proof {
                                let n = self.arena@[curr_idx as int].unwrap();
                                let mr = sub_map(self.arena@, n.right, self.fuel());
                                assert forall|k2: u64|
                                    self.as_map().dom().contains(k2) && !mr.dom().contains(
                                        k2,
                                    ) implies forall|k3: u64|
                                    mr.dom().contains(k3) ==> k3 > k2 by {
                                    if mc.dom().contains(k2) {
                                        assert forall|k3: u64|
                                            mr.dom().contains(k3) implies k3 > k2 by {
                                            assert(k3 > n.key);
                                            if k2 != n.key {
                                                assert(sub_map(
                                                    self.arena@,
                                                    n.left,
                                                    self.fuel(),
                                                ).dom().contains(k2));
                                            }
                                        }
                                    } else {
                                        assert forall|k3: u64|
                                            mr.dom().contains(k3) implies k3 > k2 by {
                                            assert(mc.dom().contains(k3));
                                        }
                                    }
                                }
                            }
                            curr_idx = gt_idx;
                        },
                        None => {
                            proof {
                                let n = self.arena@[curr_idx as int].unwrap();
                                assert(sub_map(self.arena@, n.right, self.fuel())
                                    =~= Map::<u64, V>::empty());
                                assert(mc.dom().contains(n.key));
                                assert forall|k2: u64|
                                    self.as_map().dom().contains(k2) implies n.key >= k2 by {
                                    if mc.dom().contains(k2) {
                                        if k2 != n.key {
                                            assert(sub_map(
                                                self.arena@,
                                                n.left,
                                                self.fuel(),
                                            ).dom().contains(k2));
                                        }
                                    } else {
                                        assert(mc.dom().contains(n.key));
                                    }
                                }
                            }
                            self.max_idx = curr_idx;
                            return ;
                        },
                    }
                }
            },
            None => {
                self.max_idx = 0;
            },
        }
    }

    // In-order collection of the subtree rooted at `idx`: appends the
    // subtree's slot indices to `out` in ascending key order.
    #[verifier::rlimit(50)]
    fn flatten_rec(arena: &Arena<V, N>, idx: usize, out: &mut Vec<usize>)
        requires
            sub_wf(arena@, Some(idx), arena@.len() + 1),
        ensures
            ({
                let s = arena@;
                let f = s.len() + 1;
                let q1 = old(out)@;
                let q2 = final(out)@;
                &&& q2.len() == q1.len() + sub_size(s, Some(idx), f)
                &&& q2.subrange(0, q1.len() as int) == q1
                &&& (forall|t: int|
                    q1.len() <= t < q2.len() ==> sub_idxs(s, Some(idx), f).contains(
                        #[trigger] q2[t],
                    ))
                &&& (forall|j: usize| #[trigger]
                    sub_idxs(s, Some(idx), f).contains(j) ==> exists|t: int|
                        q1.len() <= t < q2.len() && q2[t] == j)
                &&& (forall|t1: int, t2: int|
                    q1.len() <= t1 < t2 < q2.len() ==> s[#[trigger] q2[t1] as int].unwrap().key
                        < s[#[trigger] q2[t2] as int].unwrap().key)
            }),
        decreases sub_size(arena@, Some(idx), arena@.len() + 1),
    {
        let ghost s = arena@;
        let ghost f = s.len() + 1;
        let ghost n1 = s[idx as int].unwrap();
        let ghost q1 = out@;
        proof {
            lemma_node_unfold(s, idx, f);
            lemma_wf_props(s, Some(idx), f);
            lemma_wf_props(s, n1.left, f);
            lemma_wf_props(s, n1.right, f);
        }
        let node = arena.node_ref(idx);
        let node_left = node.left;
        let node_right = node.right;
        if let Some(l) = node_left {
            Self::flatten_rec(arena, l, out);
        }
        let ghost qa = out@;
        out.push(idx);
        let ghost qb = out@;
        if let Some(g) = node_right {
            Self::flatten_rec(arena, g, out);
        }
        proof {
            let q2 = out@;
            let il = sub_idxs(s, n1.left, f);
            let ir = sub_idxs(s, n1.right, f);
            if n1.left is None {
                assert(il =~= Set::<usize>::empty());
                assert(sub_size(s, n1.left, f) == 0);
                assert(qa == q1);
            }
            if n1.right is None {
                assert(ir =~= Set::<usize>::empty());
                assert(sub_size(s, n1.right, f) == 0);
                assert(q2 == qb);
            }
            assert(qb == qa.push(idx));
            assert(qb.subrange(0, q1.len() as int) =~= q1);
            assert(q2.subrange(0, q1.len() as int) =~= q1);
            assert(qb[qa.len() as int] == idx);
            assert(q2[qa.len() as int] == idx);
            // membership of every appended element
            assert forall|t: int|
                q1.len() <= t < q2.len() implies sub_idxs(s, Some(idx), f).contains(
                #[trigger] q2[t],
            ) by {
                if t < qa.len() {
                    assert(q2[t] == qb[t] == qa[t]);
                    assert(il.contains(qa[t]));
                } else if t == qa.len() {
                    assert(q2[t] == idx);
                } else {
                    assert(ir.contains(q2[t]));
                }
            }
            // completeness
            assert forall|j: usize| #[trigger]
                sub_idxs(s, Some(idx), f).contains(j) implies exists|t: int|
                q1.len() <= t < q2.len() && q2[t] == j by {
                if j == idx {
                    assert(q2[qa.len() as int] == j);
                } else if il.contains(j) {
                    let t = choose|t: int| q1.len() <= t < qa.len() && qa[t] == j;
                    assert(q2[t] == qb[t] == qa[t] == j);
                } else {
                    assert(ir.contains(j));
                    let t = choose|t: int| qb.len() <= t < q2.len() && q2[t] == j;
                    assert(q2[t] == j);
                }
            }
            // ascending keys
            assert forall|t1: int, t2: int|
                q1.len() <= t1 < t2 < q2.len() implies s[#[trigger] q2[t1] as int].unwrap().key < s[
                #[trigger] q2[t2] as int].unwrap().key by {
                let k1 = s[q2[t1] as int].unwrap().key;
                let k2 = s[q2[t2] as int].unwrap().key;
                if t1 < qa.len() {
                    assert(q2[t1] == qb[t1] == qa[t1]);
                    assert(il.contains(qa[t1]));
                    assert(sub_map(s, n1.left, f).dom().contains(k1));
                    assert(k1 < n1.key);
                    if t2 < qa.len() {
                        assert(q2[t2] == qb[t2] == qa[t2]);
                    } else if t2 == qa.len() {
                        assert(q2[t2] == idx);
                    } else {
                        assert(ir.contains(q2[t2]));
                        assert(sub_map(s, n1.right, f).dom().contains(k2));
                    }
                } else if t1 == qa.len() {
                    assert(q2[t1] == idx);
                    assert(ir.contains(q2[t2]));
                    assert(sub_map(s, n1.right, f).dom().contains(k2));
                } else {
                    assert(ir.contains(q2[t1]) && ir.contains(q2[t2]));
                }
            }
        }
    }

    // Flattens the subtree rooted at `idx` into a vector of its slot indices,
    // sorted by the nodes' keys.
    fn flatten_subtree_to_sorted_idxs(&self, idx: usize) -> (r: Vec<usize>)
        requires
            self.arena.inv(),
            sub_wf(self.arena@, Some(idx), self.fuel()),
        ensures
            ({
                let s = self.arena@;
                let f = self.fuel();
                &&& r@.len() == sub_size(s, Some(idx), f)
                &&& (forall|t: int|
                    0 <= t < r@.len() ==> sub_idxs(s, Some(idx), f).contains(#[trigger] r@[t]))
                &&& (forall|j: usize| #[trigger]
                    sub_idxs(s, Some(idx), f).contains(j) ==> exists|t: int|
                        0 <= t < r@.len() && r@[t] == j)
                &&& (forall|t1: int, t2: int|
                    0 <= t1 < t2 < r@.len() ==> s[#[trigger] r@[t1] as int].unwrap().key < s[
                        #[trigger] r@[t2] as int].unwrap().key)
            }),
    {
        let mut out: Vec<usize> = Vec::new();
        Self::flatten_rec(&self.arena, idx, &mut out);
        out
    }

    // Rebuilds the slots listed in `sorted[lo..=hi]` (ascending by key) into
    // a height-balanced subtree by the midpoint rule; returns the new subtree
    // root. Only child links are rewritten; no node moves between slots.
    #[verifier::rlimit(100)]
    fn build_balanced(arena: &mut Arena<V, N>, sorted: &Vec<usize>, lo: usize, hi: usize) -> (root:
        usize)
        requires
            old(arena).inv(),
            lo <= hi < sorted@.len(),
            hi - lo < old(arena)@.len(),
            forall|t: int|
                lo <= t <= hi ==> (#[trigger] sorted@[t] as int) < old(arena)@.len() && old(
                    arena,
                )@[sorted@[t] as int] is Some,
            forall|t1: int, t2: int|
                lo <= t1 < t2 <= hi ==> old(arena)@[#[trigger] sorted@[t1] as int].unwrap().key
                    < old(arena)@[#[trigger] sorted@[t2] as int].unwrap().key,
        ensures
            final(arena).inv(),
            final(arena)@.len() == old(arena)@.len(),
            root == sorted@[lo + (hi - lo) / 2],
            ({
                let s1 = old(arena)@;
                let s2 = final(arena)@;
                let f = s1.len() + 1;
                &&& sub_wf(s2, Some(root), f)
                &&& sub_size(s2, Some(root), f) == hi - lo + 1
                &&& sub_height(s2, Some(root), f) <= lg2((hi - lo + 1) as nat) + 1
                &&& (forall|t: int|
                    lo <= t <= hi ==> sub_idxs(s2, Some(root), f).contains(#[trigger] sorted@[t]))
                &&& (forall|j: usize| #[trigger]
                    sub_idxs(s2, Some(root), f).contains(j) ==> range_has(
                        sorted@,
                        lo as int,
                        hi as int,
                        j,
                    ))
                &&& (forall|t: int|
                    lo <= t <= hi ==> sub_map(s2, Some(root), f).dom().contains(
                        #[trigger] s1[sorted@[t] as int].unwrap().key,
                    ) && sub_map(s2, Some(root), f)[s1[sorted@[t] as int].unwrap().key]
                        == s1[sorted@[t] as int].unwrap().val)
                &&& (forall|k: u64| #[trigger]
                    sub_map(s2, Some(root), f).dom().contains(k) ==> exists|t: int|
                        lo <= t <= hi && s1[sorted@[t] as int].unwrap().key == k)
                &&& (forall|u: usize|
                    u < s1.len() && !range_has(sorted@, lo as int, hi as int, u) ==> s2[u as int]
                        == s1[u as int])
                &&& (forall|t: int|
                    lo <= t <= hi ==> s2[#[trigger] sorted@[t] as int] is Some
                        && s2[sorted@[t] as int].unwrap().key == s1[sorted@[t] as int].unwrap().key
                        && s2[sorted@[t] as int].unwrap().val == s1[sorted@[t] as int].unwrap().val)
            }),
        decreases hi - lo,
    {
        let ghost s1 = arena@;
        let ghost f = s1.len() + 1;
        proof {
            assert forall|t1: int, t2: int|
                lo <= t1 <= hi && lo <= t2 <= hi && t1 != t2 implies sorted@[t1]
                != sorted@[t2] by {
                if t1 < t2 {
                    assert(s1[sorted@[t1] as int].unwrap().key < s1[sorted@[t2] as int].unwrap().key);
                } else {
                    assert(s1[sorted@[t2] as int].unwrap().key < s1[sorted@[t1] as int].unwrap().key);
                }
            }
        }
        let mid = lo + (hi - lo) / 2;
        let root = sorted[mid];
        let olroot: Option<usize> = if lo < mid {
            let lroot = Self::build_balanced(arena, sorted, lo, mid - 1);
            Some(lroot)
        } else {
            None
        };
        let ghost sa = arena@;
        proof {
            if lo < mid {
                assert(!range_has(sorted@, lo as int, mid - 1, root)) by {
                    if range_has(sorted@, lo as int, mid - 1, root) {
                        let t = choose|t: int|
                            lo <= t <= mid - 1 && sorted@[t] == root;
                        assert(sorted@[t] != sorted@[mid as int]);
                    }
                }
                assert(sa[root as int] == s1[root as int]);
            }
        }
        arena.set_left(root, olroot);
        let ghost sb = arena@;
        let orroot: Option<usize> = if mid < hi {
            proof {
                // the upper range is untouched by the left build and the relink
                assert forall|t: int| mid + 1 <= t <= hi implies sb[#[trigger] sorted@[t] as int]
                    == s1[sorted@[t] as int] by {
                    assert(sorted@[t] != sorted@[mid as int]);
                    if lo < mid {
                        assert(!range_has(sorted@, lo as int, mid - 1, sorted@[t])) by {
                            if range_has(sorted@, lo as int, mid - 1, sorted@[t]) {
                                let t2 = choose|t2: int|
                                    lo <= t2 <= mid - 1 && sorted@[t2] == sorted@[t];
                                assert(sorted@[t2] != sorted@[t]);
                            }
                        }
                    }
                }
            }
            let rroot = Self::build_balanced(arena, sorted, mid + 1, hi);
            Some(rroot)
        } else {
            None
        };
        let ghost sc = arena@;
        proof {
            if mid < hi {
                assert(!range_has(sorted@, mid + 1, hi as int, root)) by {
                    if range_has(sorted@, mid + 1, hi as int, root) {
                        let t = choose|t: int|
                            mid + 1 <= t <= hi && sorted@[t] == root;
                        assert(sorted@[t] != sorted@[mid as int]);
                    }
                }
                assert(sc[root as int] == sb[root as int]);
            }
        }
        arena.set_right(root, orroot);
        proof {
            let s2 = arena@;
            let nroot = s2[root as int].unwrap();
            assert(nroot.key == s1[root as int].unwrap().key);
            assert(nroot.val == s1[root as int].unwrap().val);
            assert(nroot.left == olroot && nroot.right == orroot);
            // the left subtree, built first, survives the later steps
            if lo < mid {
                assert forall|j: usize| #[trigger]
                    sub_idxs(sa, olroot, f).contains(j) implies j < s2.len()
                    && s2[j as int] == sa[j as int] by {
                    assert(range_has(sorted@, lo as int, mid - 1, j));
                    let t = choose|t: int| lo <= t <= mid - 1 && sorted@[t] == j;
                    assert(sorted@[t] != sorted@[mid as int]);
                    assert(j != root);
                    if mid < hi {
                        assert(!range_has(sorted@, mid + 1, hi as int, j)) by {
                            if range_has(sorted@, mid + 1, hi as int, j) {
                                let t2 = choose|t2: int|
                                    mid + 1 <= t2 <= hi && sorted@[t2] == j;
                                assert(sorted@[t2] != sorted@[t]);
                            }
                        }
                    }
                }
                lemma_frame(sa, s2, olroot, f);
            } else {
                assert(sub_wf(s2, olroot, f));
                assert(sub_map(s2, olroot, f) =~= Map::<u64, V>::empty());
                assert(sub_idxs(s2, olroot, f) =~= Set::<usize>::empty());
                assert(sub_size(s2, olroot, f) == 0);
            }
            // the right subtree is untouched by the final relink
            if mid < hi {
                assert forall|j: usize| #[trigger]
                    sub_idxs(sc, orroot, f).contains(j) implies j < s2.len()
                    && s2[j as int] == sc[j as int] by {
                    assert(range_has(sorted@, mid + 1, hi as int, j));
                    let t = choose|t: int| mid + 1 <= t <= hi && sorted@[t] == j;
                    assert(sorted@[t] != sorted@[mid as int]);
                    assert(j != root);
                }
                lemma_frame(sc, s2, orroot, f);
            } else {
                assert(sub_wf(s2, orroot, f));
                assert(sub_map(s2, orroot, f) =~= Map::<u64, V>::empty());
                assert(sub_idxs(s2, orroot, f) =~= Set::<usize>::empty());
                assert(sub_size(s2, orroot, f) == 0);
            }
            // orderings at the new root
            assert forall|k: u64| #[trigger] sub_map(s2, olroot, f).dom().contains(k) implies k
                < nroot.key by {
                if lo < mid {
                    let t = choose|t: int|
                        lo <= t <= mid - 1 && s1[sorted@[t] as int].unwrap().key == k;
                    assert(s1[sorted@[t] as int].unwrap().key < s1[sorted@[mid as int] as int].unwrap().key);
                }
            }
            assert forall|k: u64| #[trigger] sub_map(s2, orroot, f).dom().contains(k) implies k
                > nroot.key by {
                if mid < hi {
                    let t = choose|t: int|
                        mid + 1 <= t <= hi && sb[sorted@[t] as int].unwrap().key == k;
                    assert(sb[sorted@[t] as int] == s1[sorted@[t] as int]);
                    assert(s1[sorted@[mid as int] as int].unwrap().key < s1[sorted@[t] as int].unwrap().key);
                }
            }
            // assemble
            lemma_size_le_len(s2, olroot, f);
            lemma_fuel_any(s2, olroot, f, (f - 1) as nat);
            lemma_size_le_len(s2, orroot, f);
            lemma_fuel_any(s2, orroot, f, (f - 1) as nat);
            assert(sub_wf(s2, Some(root), f));
            lemma_node_unfold(s2, root, f);
            // midpoint halving keeps the height logarithmic
            assert(sub_height(s2, Some(root), f) <= lg2((hi - lo + 1) as nat) + 1) by {
                let n: nat = (hi - lo + 1) as nat;
                let hl = sub_height(s2, olroot, f);
                let hr = sub_height(s2, orroot, f);
                assert(sub_height(s2, Some(root), f) == 1 + (if hl >= hr {
                    hl
                } else {
                    hr
                }));
                if lo < mid {
                    assert(hl == sub_height(sa, olroot, f));
                    assert(hl <= lg2((mid - 1 - lo + 1) as nat) + 1);
                    lemma_lg2_mono((mid - lo) as nat, n / 2);
                } else {
                    assert(hl == 0);
                }
                if mid < hi {
                    assert(hr == sub_height(sc, orroot, f));
                    assert(hr <= lg2((hi - (mid + 1) + 1) as nat) + 1);
                    lemma_lg2_mono((hi - mid) as nat, n / 2);
                } else {
                    assert(hr == 0);
                }
                if n >= 2 {
                    assert(lg2(n) == 1 + lg2(n / 2));
                }
            }
            // membership, completeness and the pointwise map relation
            assert forall|t: int|
                lo <= t <= hi implies sub_idxs(s2, Some(root), f).contains(#[trigger] sorted@[t])
                    && sub_map(s2, Some(root), f).dom().contains(
                    s1[sorted@[t] as int].unwrap().key,
                ) && sub_map(s2, Some(root), f)[s1[sorted@[t] as int].unwrap().key]
                == s1[sorted@[t] as int].unwrap().val && s2[sorted@[t] as int] is Some
                && s2[sorted@[t] as int].unwrap().key == s1[sorted@[t] as int].unwrap().key
                && s2[sorted@[t] as int].unwrap().val == s1[sorted@[t] as int].unwrap().val by {
                let k = s1[sorted@[t] as int].unwrap().key;
                if t < mid {
                    assert(sub_idxs(sa, olroot, f).contains(sorted@[t]));
                    assert(sub_map(sa, olroot, f).dom().contains(k));
                    assert(sub_map(sa, olroot, f)[k] == s1[sorted@[t] as int].unwrap().val);
                    assert(!sub_map(s2, orroot, f).dom().contains(k));
                    assert(k < nroot.key);
                } else if t == mid {
                    assert(sorted@[t] == root);
                } else {
                    assert(sb[sorted@[t] as int] == s1[sorted@[t] as int]);
                    assert(sub_idxs(sc, orroot, f).contains(sorted@[t]));
                    assert(sub_map(sc, orroot, f).dom().contains(k));
                    assert(sub_map(sc, orroot, f)[k] == s1[sorted@[t] as int].unwrap().val);
                    assert(k > nroot.key);
                }
            }
            assert forall|j: usize| #[trigger]
                sub_idxs(s2, Some(root), f).contains(j) implies range_has(
                sorted@,
                lo as int,
                hi as int,
                j,
            ) by {
                if j == root {
                    assert(lo <= mid <= hi && sorted@[mid as int] == j);
                } else if sub_idxs(s2, olroot, f).contains(j) {
                    assert(range_has(sorted@, lo as int, mid - 1, j));
                    let t = choose|t: int| lo <= t <= mid - 1 && sorted@[t] == j;
                    assert(lo <= t <= hi && sorted@[t] == j);
                } else {
                    assert(range_has(sorted@, mid + 1, hi as int, j));
                    let t = choose|t: int| mid + 1 <= t <= hi && sorted@[t] == j;
                    assert(lo <= t <= hi && sorted@[t] == j);
                }
            }
            assert forall|k: u64| #[trigger]
                sub_map(s2, Some(root), f).dom().contains(k) implies exists|t: int|
                lo <= t <= hi && s1[sorted@[t] as int].unwrap().key == k by {
                if k == nroot.key {
                    assert(lo <= mid <= hi && s1[sorted@[mid as int] as int].unwrap().key == k);
                } else if sub_map(s2, olroot, f).dom().contains(k) {
                    let t = choose|t: int|
                        lo <= t <= mid - 1 && s1[sorted@[t] as int].unwrap().key == k;
                    assert(lo <= t <= hi && s1[sorted@[t] as int].unwrap().key == k);
                } else {
                    let t = choose|t: int|
                        mid + 1 <= t <= hi && sb[sorted@[t] as int].unwrap().key == k;
                    assert(sb[sorted@[t] as int] == s1[sorted@[t] as int]);
                    assert(lo <= t <= hi && s1[sorted@[t] as int].unwrap().key == k);
                }
            }
            // slots outside the range are untouched
            assert forall|u: usize|
                u < s1.len() && !range_has(sorted@, lo as int, hi as int, u) implies s2[u as int]
                == s1[u as int] by {
                assert(u != root) by {
                    if u == root {
                        assert(lo <= mid <= hi && sorted@[mid as int] == u);
                    }
                }
                if lo < mid {
                    assert(!range_has(sorted@, lo as int, mid - 1, u)) by {
                        if range_has(sorted@, lo as int, mid - 1, u) {
                            let t = choose|t: int| lo <= t <= mid - 1 && sorted@[t] == u;
                            assert(lo <= t <= hi && sorted@[t] == u);
                        }
                    }
                }
                if mid < hi {
                    assert(!range_has(sorted@, mid + 1, hi as int, u)) by {
                        if range_has(sorted@, mid + 1, hi as int, u) {
                            let t = choose|t: int| mid + 1 <= t <= hi && sorted@[t] == u;
                            assert(lo <= t <= hi && sorted@[t] == u);
                        }
                    }
                }
            }
        }
        root
    }

    // Height-rebalances the subtree rooted at `old_subtree_root_idx` in
    // place, given its slot indices sorted by key, and rewires the tree root
    // or the subtree's parent link to the new subtree root.
    #[verifier::rlimit(100)]
    #[verifier::spinoff_prover]
    fn rebalance_subtree_from_sorted_idxs(
        &mut self,
        old_subtree_root_idx: usize,
        sorted: &Vec<usize>,
    )
        requires
            old(self).wf_core(),
            sub_idxs(old(self).arena@, old(self).root_idx, old(self).fuel()).contains(
                old_subtree_root_idx,
            ),
            sorted@.len() == sub_size(
                old(self).arena@,
                Some(old_subtree_root_idx),
                old(self).fuel(),
            ),
            forall|t: int|
                0 <= t < sorted@.len() ==> sub_idxs(
                    old(self).arena@,
                    Some(old_subtree_root_idx),
                    old(self).fuel(),
                ).contains(#[trigger] sorted@[t]),
            forall|j: usize| #[trigger]
                sub_idxs(old(self).arena@, Some(old_subtree_root_idx), old(self).fuel()).contains(
                    j,
                ) ==> range_has(sorted@, 0, sorted@.len() - 1, j),
            forall|t1: int, t2: int|
                0 <= t1 < t2 < sorted@.len() ==> old(self).arena@[#[trigger] sorted@[t1] as int]
                    .unwrap().key < old(self).arena@[#[trigger] sorted@[t2] as int].unwrap().key,
        ensures
            final(self).wf_core(),
            final(self)@ == old(self)@,
            *final(self) == (SGTree {
                arena: final(self).arena,
                root_idx: final(self).root_idx,
                ..*old(self)
            }),
            final(self).arena@.len() == old(self).arena@.len(),
            // a subtree of at most one node is left entirely alone
            sorted@.len() <= 1 ==> *final(self) == *old(self),
            // no node moves between slots: occupancy, keys and values stay
            forall|t: int|
                0 <= t < old(self).arena@.len() ==> ((#[trigger] final(self).arena@[t] is Some
                    <==> old(self).arena@[t] is Some) && (old(self).arena@[t] is Some
                    ==> final(self).arena@[t].unwrap().key == old(self).arena@[t].unwrap().key
                    && final(self).arena@[t].unwrap().val == old(self).arena@[t].unwrap().val)),
            // otherwise the listed slots are rebuilt by the midpoint rule:
            // the middle slot roots them all, to logarithmic height
            sorted@.len() >= 2 ==> ({
                let nr = sorted@[(sorted@.len() - 1) as int / 2];
                &&& sub_wf(final(self).arena@, Some(nr), final(self).fuel())
                &&& sub_idxs(final(self).arena@, Some(nr), final(self).fuel()) == sub_idxs(
                    old(self).arena@,
                    Some(old_subtree_root_idx),
                    old(self).fuel(),
                )
                &&& sub_height(final(self).arena@, Some(nr), final(self).fuel()) <= lg2(
                    sorted@.len(),
                ) + 1
                &&& (old(self).root_idx == Some(old_subtree_root_idx) ==> final(self).root_idx
                    == Some(nr))
            }),
    {
        let ghost s1 = self.arena@;
        let ghost f = self.fuel();
        let ghost r = old_subtree_root_idx;
        let ghost d = sub_idxs(s1, Some(r), f);
        let ghost dm = sub_map(s1, Some(r), f);
        let arena_len = self.arena.len();
        proof {
            lemma_wf_props(s1, self.root_idx, f);
            lemma_subtree_at(s1, self.root_idx, f, old_subtree_root_idx);
            lemma_wf_props(s1, Some(r), f);
            lemma_size_le_len(s1, Some(r), f);
        }
        if sorted.len() <= 1 {
            // a subtree of at most one node is already balanced
            return ;
        }
        let last = sorted.len() - 1;
        proof {
            assert forall|t: int|
                0 <= t <= last implies (#[trigger] sorted@[t] as int) < s1.len() && s1[sorted@[t] as int]
                is Some by {
                assert(d.contains(sorted@[t]));
            }
        }
        let rt = match self.root_idx {
            Some(rt) => rt,
            None => vstd::pervasive::unreached(),
        };
        if old_subtree_root_idx == rt {
            let new_root = Self::build_balanced(&mut self.arena, sorted, 0, last);
            self.root_idx = Some(new_root);
            proof {
                let s2 = self.arena@;
                // the rebuilt subtree holds exactly the old tree's pairs
                assert forall|k: u64| #[trigger] old(self)@.dom().contains(k) implies sub_map(
                    s2,
                    Some(new_root),
                    f,
                ).dom().contains(k) && sub_map(s2, Some(new_root), f)[k] == old(self)@[k] by {
                    let j = choose|j: usize|
                        d.contains(j) && s1[j as int].unwrap().key == k && s1[j as int].unwrap().val
                            == dm[k];
                    assert(range_has(sorted@, 0, last as int, j));
                    let t = choose|t: int| 0 <= t <= last && sorted@[t] == j;
                    assert(sub_map(s2, Some(new_root), f).dom().contains(
                        s1[sorted@[t] as int].unwrap().key,
                    ));
                    assert(sub_idxs(s1, old(self).root_idx, f).contains(j));
                }
                assert forall|k: u64| #[trigger]
                    sub_map(s2, Some(new_root), f).dom().contains(k) implies old(
                    self,
                )@.dom().contains(k) by {
                    let t = choose|t: int|
                        0 <= t <= last && s1[sorted@[t] as int].unwrap().key == k;
                    assert(d.contains(sorted@[t]));
                    assert(dm.dom().contains(k));
                }
                assert(self@ =~= old(self)@);
                // occupancy is unchanged, and reachability matches it
                assert forall|i2: usize|
                    i2 < s2.len() && s2[i2 as int] is Some implies #[trigger] sub_idxs(
                    s2,
                    self.root_idx,
                    f,
                ).contains(i2) by {
                    if range_has(sorted@, 0, last as int, i2) {
                        let t = choose|t: int| 0 <= t <= last && sorted@[t] == i2;
                        assert(sub_idxs(s2, Some(new_root), f).contains(sorted@[t]));
                    } else {
                        assert(s2[i2 as int] == s1[i2 as int]);
                        assert(sub_idxs(s1, old(self).root_idx, f).contains(i2));
                        assert(d.contains(i2));
                        assert(range_has(sorted@, 0, last as int, i2));
                    }
                }
                assert forall|j: usize| #[trigger]
                    sub_idxs(s2, self.root_idx, f).contains(j) implies j < s2.len() && s2[j as int]
                    is Some by {
                    lemma_wf_props(s2, self.root_idx, f);
                }
                // size, minimum and maximum carry over
                lemma_wf_props(s2, self.root_idx, f);
                vstd::set_lib::lemma_len_subset(old(self)@.dom(), self@.dom());
                vstd::set_lib::lemma_len_subset(self@.dom(), old(self)@.dom());
                let mi = old(self).min_idx;
                let xi = old(self).max_idx;
                assert(d.contains(mi) && d.contains(xi));
                assert(s2[mi as int] is Some && s2[mi as int].unwrap().key == s1[mi as int].unwrap().key)
                    by {
                    let t = choose|t: int| 0 <= t <= last && sorted@[t] == mi;
                    assert(s2[sorted@[t] as int].unwrap().key == s1[sorted@[t] as int].unwrap().key);
                }
                assert(s2[xi as int] is Some && s2[xi as int].unwrap().key == s1[xi as int].unwrap().key)
                    by {
                    let t = choose|t: int| 0 <= t <= last && sorted@[t] == xi;
                    assert(s2[sorted@[t] as int].unwrap().key == s1[sorted@[t] as int].unwrap().key);
                }
                assert(sub_idxs(s2, self.root_idx, f).contains(mi)) by {
                    let t = choose|t: int| 0 <= t <= last && sorted@[t] == mi;
                    assert(sub_idxs(s2, Some(new_root), f).contains(sorted@[t]));
                }
                assert(sub_idxs(s2, self.root_idx, f).contains(xi)) by {
                    let t = choose|t: int| 0 <= t <= last && sorted@[t] == xi;
                    assert(sub_idxs(s2, Some(new_root), f).contains(sorted@[t]));
                }
                // no slot changes occupancy, key or value
                assert forall|t: int|
                    0 <= t < s1.len() implies ((s2[t] is Some <==> s1[t] is Some) && (s1[t]
                    is Some ==> s2[t].unwrap().key == s1[t].unwrap().key && s2[t].unwrap().val
                    == s1[t].unwrap().val)) by {
                    if range_has(sorted@, 0, last as int, t as usize) {
                        let t2 = choose|t2: int| 0 <= t2 <= last && sorted@[t2] == t as usize;
                        assert(s2[sorted@[t2] as int] is Some);
                        assert(s1[sorted@[t2] as int] is Some);
                    } else {
                        assert(s2[t] == s1[t]);
                    }
                }
            }
        } else {
            // find the subtree's parent before any relinking
            let skey = self.arena.node_ref(old_subtree_root_idx).key;
            let ngh = self.priv_get(&skey);
            proof {
                lemma_wf_props(s1, self.root_idx, f);
                assert(self@.dom().contains(skey)) by {
                    assert(sub_idxs(s1, self.root_idx, f).contains(r));
                }
                assert(ngh.node_idx is Some);
                assert(ngh.node_idx.unwrap() == r) by {
                    let i2 = ngh.node_idx.unwrap();
                    if i2 != r {
                        assert(s1[i2 as int].unwrap().key != s1[r as int].unwrap().key);
                    }
                }
                assert(ngh.parent_idx is Some);
            }
            let p = match ngh.parent_idx {
                Some(p) => p,
                None => vstd::pervasive::unreached(),
            };
            proof {
                lemma_parent_outside(s1, self.root_idx, f, p, old_subtree_root_idx);
                lemma_subtree_at(s1, self.root_idx, f, p);
                assert(!range_has(sorted@, 0, last as int, p)) by {
                    if range_has(sorted@, 0, last as int, p) {
                        let t = choose|t: int| 0 <= t <= last && sorted@[t] == p;
                        assert(d.contains(sorted@[t]));
                    }
                }
                lemma_node_unfold(s1, p, f);
                lemma_wf_props(s1, Some(r), f);
                assert(!(s1[p as int].unwrap().left == Some(r) && s1[p as int].unwrap().right
                    == Some(r))) by {
                    if s1[p as int].unwrap().left == Some(r) && s1[p as int].unwrap().right == Some(
                        r,
                    ) {
                        assert(sub_idxs(s1, s1[p as int].unwrap().left, f).contains(r));
                        assert(sub_idxs(s1, s1[p as int].unwrap().right, f).contains(r));
                    }
                }
            }
            let new_root = Self::build_balanced(&mut self.arena, sorted, 0, last);
            let ghost sb = self.arena@;
            proof {
                assert(sb[p as int] == s1[p as int]);
            }
            if ngh.is_right_child {
                self.arena.set_right(p, Some(new_root));
            } else {
                self.arena.set_left(p, Some(new_root));
            }
            proof {
                let s2 = self.arena@;
                let np1 = s1[p as int].unwrap();
                // the parent's slot now carries the redirected link
                assert(ngh.is_right_child ==> np1.right == Some(r) && np1.left != Some(r));
                assert(!ngh.is_right_child ==> np1.left == Some(r) && np1.right != Some(r));
                assert(s2[p as int] == Some(
                    Node {
                        left: redirect_link(np1.left, r, Some(new_root)),
                        right: redirect_link(np1.right, r, Some(new_root)),
                        ..np1
                    },
                ));
                // the rebuilt subtree survives the parent relink
                assert forall|j: usize| #[trigger]
                    sub_idxs(sb, Some(new_root), f).contains(j) implies j < s2.len() && s2[j as int]
                    == sb[j as int] by {
                    assert(range_has(sorted@, 0, last as int, j));
                    assert(j != p);
                }
                lemma_frame(sb, s2, Some(new_root), f);
                // its slots and keys come from the replaced subtree
                assert forall|j: usize| #[trigger]
                    sub_idxs(s2, Some(new_root), f).contains(j) implies d.contains(j) by {
                    assert(range_has(sorted@, 0, last as int, j));
                    let t = choose|t: int| 0 <= t <= last && sorted@[t] == j;
                    assert(d.contains(sorted@[t]));
                }
                assert forall|k: u64| #[trigger]
                    sub_map(s2, Some(new_root), f).dom().contains(k) implies dm.dom().contains(
                    k,
                ) by {
                    let t = choose|t: int|
                        0 <= t <= last && s1[sorted@[t] as int].unwrap().key == k;
                    assert(d.contains(sorted@[t]));
                }
                // every other slot outside the replaced subtree is untouched
                assert forall|t: usize|
                    t < s1.len() && t != p && !(#[trigger] d.contains(t)) implies s2[t as int]
                    == s1[t as int] by {
                    assert(!range_has(sorted@, 0, last as int, t)) by {
                        if range_has(sorted@, 0, last as int, t) {
                            let t2 = choose|t2: int| 0 <= t2 <= last && sorted@[t2] == t;
                            assert(d.contains(sorted@[t2]));
                        }
                    }
                }
                lemma_replace_child(s1, s2, self.root_idx, f, p, r, Some(new_root), f);
                lemma_size_le_len(s2, self.root_idx, (f + f) as nat);
                lemma_fuel_any(s2, self.root_idx, (f + f) as nat, f);
                // the tree map is unchanged: the replaced keys return with
                // their old values
                assert forall|k: u64| #[trigger] dm.dom().contains(k) implies sub_map(
                    s2,
                    Some(new_root),
                    f,
                ).dom().contains(k) && sub_map(s2, Some(new_root), f)[k] == old(self)@[k] by {
                    let j = choose|j: usize|
                        d.contains(j) && s1[j as int].unwrap().key == k && s1[j as int].unwrap().val
                            == dm[k];
                    assert(range_has(sorted@, 0, last as int, j));
                    let t = choose|t: int| 0 <= t <= last && sorted@[t] == j;
                    assert(sub_map(s2, Some(new_root), f).dom().contains(
                        s1[sorted@[t] as int].unwrap().key,
                    ));
                    assert(sub_idxs(s1, self.root_idx, f).contains(j));
                }
                assert(self@ =~= old(self)@);
                assert(sub_idxs(s2, self.root_idx, f) =~= sub_idxs(s1, old(self).root_idx, f));
                // occupancy is unchanged
                assert forall|i2: usize|
                    i2 < s2.len() && s2[i2 as int] is Some implies #[trigger] sub_idxs(
                    s2,
                    self.root_idx,
                    f,
                ).contains(i2) by {
                    if i2 != p && !d.contains(i2) {
                        assert(s2[i2 as int] == s1[i2 as int]);
                    }
                    assert(sub_idxs(s1, self.root_idx, f).contains(i2));
                }
                // size, minimum and maximum carry over
                lemma_wf_props(s2, self.root_idx, f);
                vstd::set_lib::lemma_len_subset(old(self)@.dom(), self@.dom());
                vstd::set_lib::lemma_len_subset(self@.dom(), old(self)@.dom());
                let mi = old(self).min_idx;
                let xi = old(self).max_idx;
                assert(s2[mi as int] is Some && s2[mi as int].unwrap().key == s1[mi as int].unwrap().key)
                    by {
                    if mi != p && !d.contains(mi) {
                        assert(s2[mi as int] == s1[mi as int]);
                    } else if d.contains(mi) {
                        assert(range_has(sorted@, 0, last as int, mi));
                        let t = choose|t: int| 0 <= t <= last && sorted@[t] == mi;
                        assert(sb[sorted@[t] as int].unwrap().key == s1[sorted@[t] as int].unwrap().key);
                        assert(mi != p);
                    }
                }
                assert(s2[xi as int] is Some && s2[xi as int].unwrap().key == s1[xi as int].unwrap().key)
                    by {
                    if xi != p && !d.contains(xi) {
                        assert(s2[xi as int] == s1[xi as int]);
                    } else if d.contains(xi) {
                        assert(range_has(sorted@, 0, last as int, xi));
                        let t = choose|t: int| 0 <= t <= last && sorted@[t] == xi;
                        assert(sb[sorted@[t] as int].unwrap().key == s1[sorted@[t] as int].unwrap().key);
                        assert(xi != p);
                    }
                }
                // no slot changes occupancy, key or value
                assert forall|t: int|
                    0 <= t < s1.len() implies ((s2[t] is Some <==> s1[t] is Some) && (s1[t]
                    is Some ==> s2[t].unwrap().key == s1[t].unwrap().key && s2[t].unwrap().val
                    == s1[t].unwrap().val)) by {
                    if t == p as int {
                    } else if range_has(sorted@, 0, last as int, t as usize) {
                        let t2 = choose|t2: int| 0 <= t2 <= last && sorted@[t2] == t as usize;
                        assert(d.contains(sorted@[t2]));
                        assert(sorted@[t2] != p);
                        assert(sb[sorted@[t2] as int] is Some);
                        assert(s2[sorted@[t2] as int] == sb[sorted@[t2] as int]);
                        assert(s1[sorted@[t2] as int] is Some);
                    } else {
                        assert(!d.contains(t as usize)) by {
                            if d.contains(t as usize) {
                                assert(range_has(sorted@, 0, last as int, t as usize));
                            }
                        }
                        assert(s2[t] == s1[t]);
                    }
                }
            }
        }
    }

    // Rebuilds the subtree rooted at `idx` to perfect height balance and
    // counts the completed rebuild, wrapping on overflow.
    fn rebuild(&mut self, idx: usize)
        requires
            old(self).wf_core(),
            sub_idxs(old(self).arena@, old(self).root_idx, old(self).fuel()).contains(idx),
        ensures
            final(self).wf_core(),
            final(self)@ == old(self)@,
            *final(self) == (SGTree {
                arena: final(self).arena,
                root_idx: final(self).root_idx,
                rebal_cnt: final(self).rebal_cnt,
                ..*old(self)
            }),
            final(self).arena@.len() == old(self).arena@.len(),
            final(self).spec_rebal_cnt() == (if old(self).spec_rebal_cnt() == usize::MAX {
                0usize
            } else {
                (old(self).spec_rebal_cnt() + 1) as usize
            }),
            // the replaced subtree comes back over the same slots, height
            // balanced; a whole-tree rebuild reroots the tree at it
            exists|nr: usize|
                {
                    &&& #[trigger] sub_idxs(final(self).arena@, Some(nr), final(self).fuel())
                        == sub_idxs(old(self).arena@, Some(idx), old(self).fuel())
                    &&& sub_wf(final(self).arena@, Some(nr), final(self).fuel())
                    &&& sub_height(final(self).arena@, Some(nr), final(self).fuel()) <= lg2(
                        sub_size(old(self).arena@, Some(idx), old(self).fuel()),
                    ) + 1
                    &&& (old(self).root_idx == Some(idx) ==> final(self).root_idx == Some(nr))
                },
    {
        proof {
            lemma_subtree_at(self.arena@, self.root_idx, self.fuel(), idx);
            lemma_wf_props(self.arena@, Some(idx), self.fuel());
        }
        let sorted_sub = self.flatten_subtree_to_sorted_idxs(idx);
        proof {
            assert forall|j: usize| #[trigger]
                sub_idxs(self.arena@, Some(idx), self.fuel()).contains(j) implies range_has(
                sorted_sub@,
                0,
                sorted_sub@.len() - 1,
                j,
            ) by {
                let t = choose|t: int| 0 <= t < sorted_sub@.len() && sorted_sub@[t] == j;
                assert(0 <= t <= sorted_sub@.len() - 1 && sorted_sub@[t] == j);
            }
        }
        self.rebalance_subtree_from_sorted_idxs(idx, &sorted_sub);
        self.rebal_cnt = if self.rebal_cnt == usize::MAX {
            0
        } else {
            self.rebal_cnt + 1
        };
        proof {
            let fl = self.fuel();
            if sorted_sub.len() <= 1 {
                // the subtree was a single node: it already has height one
                lemma_height_le_size(old(self).arena@, Some(idx), old(self).fuel());
                assert(lg2(1) == 0);
                assert(sub_idxs(self.arena@, Some(idx), fl) == sub_idxs(
                    old(self).arena@,
                    Some(idx),
                    old(self).fuel(),
                ));
                assert(sub_height(self.arena@, Some(idx), fl) <= lg2(
                    sub_size(old(self).arena@, Some(idx), old(self).fuel()),
                ) + 1);
            } else {
                let nr = sorted_sub@[(sorted_sub@.len() - 1) as int / 2];
                assert(sub_idxs(self.arena@, Some(nr), fl) == sub_idxs(
                    old(self).arena@,
                    Some(idx),
                    old(self).fuel(),
                ));
                assert(sub_height(self.arena@, Some(nr), fl) <= lg2(
                    sub_size(old(self).arena@, Some(idx), old(self).fuel()),
                ) + 1);
            }
        }
    }

    // Removes a key from the tree, maintaining the size and the cached
    // minimum and maximum; the deletion-threshold rebuild is the caller's
    // business.
    #[verifier::rlimit(50)]
    fn priv_remove_by_key(&mut self, key: &u64) -> (r: Option<(u64, V)>)
        requires
            old(self).wf(),
        ensures
            final(self).wf_core(),
            final(self)@ == old(self)@.remove(*key),
            r == (if old(self)@.dom().contains(*key) {
                Some((*key, old(self)@[*key]))
            } else {
                None::<(u64, V)>
            }),
            *final(self) == (SGTree {
                arena: final(self).arena,
                root_idx: final(self).root_idx,
                min_idx: final(self).min_idx,
                max_idx: final(self).max_idx,
                curr_size: final(self).curr_size,
                ..*old(self)
            }),
            final(self).curr_size == final(self)@.dom().len(),
            old(self)@.dom().contains(*key) ==> final(self).curr_size + 1 == old(self).curr_size,
            !old(self)@.dom().contains(*key) ==> *final(self) == *old(self),
    {
        let ghost s1 = self.arena@;
        let ghost f = self.fuel();
        proof {
            lemma_wf_props(s1, self.root_idx, f);
        }
        match self.root_idx {
            None => {
                proof {
                    assert(self@ =~= old(self)@.remove(*key));
                }
                None
            },
            Some(root) => {
                let rr = Self::priv_remove(&mut self.arena, root, key);
                let ghost s2 = self.arena@;
                match rr.2 {
                    Some(j) => {
                        self.root_idx = rr.1;
                        self.curr_size = self.curr_size - 1;
                        proof {
                            lemma_wf_props(s2, self.root_idx, f);
                            assert(old(self)@.dom().remove(*key) =~= sub_map(
                                s2,
                                self.root_idx,
                                f,
                            ).dom());
                            // occupied slots are exactly the reachable ones
                            assert forall|t: usize|
                                t < s2.len() && s2[t as int] is Some implies #[trigger] sub_idxs(
                                s2,
                                self.root_idx,
                                f,
                            ).contains(t) by {
                                if !sub_idxs(s1, Some(root), f).contains(t) {
                                    assert(s2[t as int] == s1[t as int]);
                                    assert(sub_idxs(s1, Some(root), f).contains(t));
                                } else {
                                    assert(t != j);
                                }
                            }
                        }
                        let freed_min = j == self.min_idx;
                        let freed_max = j == self.max_idx;
                        if freed_min {
                            self.update_min_idx();
                        }
                        if freed_max {
                            self.update_max_idx();
                        }
                        proof {
                            lemma_wf_props(s2, self.root_idx, f);
                            if self.root_idx is Some {
                                let mi = self.min_idx;
                                let xi = self.max_idx;
                                if !freed_min {
                                    assert(sub_idxs(s1, Some(root), f).contains(mi));
                                    assert(mi != j);
                                    assert(sub_idxs(s2, self.root_idx, f).contains(mi));
                                    assert(s2[mi as int].unwrap().key == s1[mi as int].unwrap().key);
                                    let mk = s1[mi as int].unwrap().key;
                                    assert(mk != *key) by {
                                        if mk == *key {
                                            assert(s1[j as int].unwrap().key == *key);
                                        }
                                    }
                                    assert(is_min_key(self.as_map(), mk));
                                }
                                if !freed_max {
                                    assert(sub_idxs(s1, Some(root), f).contains(xi));
                                    assert(xi != j);
                                    assert(sub_idxs(s2, self.root_idx, f).contains(xi));
                                    assert(s2[xi as int].unwrap().key == s1[xi as int].unwrap().key);
                                    let xk = s1[xi as int].unwrap().key;
                                    assert(xk != *key) by {
                                        if xk == *key {
                                            assert(s1[j as int].unwrap().key == *key);
                                        }
                                    }
                                    assert(is_max_key(self.as_map(), xk));
                                }
                            }
                        }
                        rr.0
                    },
                    None => {
                        proof {
                            assert(self.arena@ == s1);
                            assert(self@ =~= old(self)@.remove(*key));
                        }
                        rr.0
                    },
                }
            },
        }
    }

    /// Removes a key from the tree, returning the stored key and value if the
    /// key was present. If the removal leaves the high-water mark above twice
    /// the size, the whole tree is rebuilt and the mark is reset to the size.
    pub fn remove_entry(&mut self, key: &u64) -> (r: Option<(u64, V)>)
        requires
            old(self).wf(),
        ensures
            final(self).wf(),
            final(self)@ == old(self)@.remove(*key),
            r == (if old(self)@.dom().contains(*key) {
                Some((*key, old(self)@[*key]))
            } else {
                None::<(u64, V)>
            }),
            final(self)@.dom().len() == 0 || final(self).spec_max_size() <= 2 * final(self)@
                .dom().len(),
            final(self).spec_alpha() == old(self).spec_alpha(),
            !old(self)@.dom().contains(*key) ==> *final(self) == *old(self),
            ({
                // a removal that leaves the high-water mark above twice the
                // size rebuilds the whole tree, resets the mark to the size
                // and counts the rebuild; any other call moves neither
                let crossed = old(self)@.dom().contains(*key) && old(self).spec_max_size() > 2 * (
                old(self)@.dom().len() - 1);
                &&& (!crossed ==> final(self).spec_max_size() == old(self).spec_max_size()
                    && final(self).spec_rebal_cnt() == old(self).spec_rebal_cnt())
                &&& (crossed && final(self)@.dom().len() > 0 ==> final(self).spec_max_size()
                    == final(self)@.dom().len() && final(self).spec_rebal_cnt() == (
                if old(self).spec_rebal_cnt() == usize::MAX {
                    0usize
                } else {
                    (old(self).spec_rebal_cnt() + 1) as usize
                }) && final(self).spec_height() <= lg2(final(self)@.dom().len()) + 1)
                &&& (crossed && final(self)@.dom().len() == 0 ==> final(self).spec_max_size() == 0
                    && final(self).spec_rebal_cnt() == old(self).spec_rebal_cnt())
            }),
    {
        proof {
            lemma_wf_props(self.arena@, self.root_idx, self.fuel());
        }
        match self.priv_remove_by_key(key) {
            Some(kv) => {
                if self.max_size > 2 * self.curr_size {
                    match self.root_idx {
                        Some(root_idx) => {
                            proof {
                                lemma_wf_props(self.arena@, self.root_idx, self.fuel());
                            }
                            let ghost pre = *self;
                            self.rebuild(root_idx);
                            proof {
                                // the whole tree was rebuilt: it is now
                                // height balanced
                                let nr = choose|nr: usize|
                                    {
                                        &&& #[trigger] sub_idxs(
                                            self.arena@,
                                            Some(nr),
                                            self.fuel(),
                                        ) == sub_idxs(pre.arena@, Some(root_idx), pre.fuel())
                                        &&& sub_wf(self.arena@, Some(nr), self.fuel())
                                        &&& sub_height(self.arena@, Some(nr), self.fuel()) <= lg2(
                                            sub_size(pre.arena@, Some(root_idx), pre.fuel()),
                                        ) + 1
                                        &&& (pre.root_idx == Some(root_idx) ==> self.root_idx
                                            == Some(nr))
                                    };
                                assert(self.root_idx == Some(nr));
                                lemma_wf_props(self.arena@, self.root_idx, self.fuel());
                            }
                            self.max_size = self.curr_size;
                        },
                        None => {
                            self.max_size = self.curr_size;
                        },
                    }
                }
                proof {
                    lemma_wf_props(self.arena@, self.root_idx, self.fuel());
                }
                Some(kv)
            },
            None => None,
        }
    }

    /// Removes a key from the tree, returning the stored value if the key was
    /// present. May trigger a full rebuild, as [`SGTree::remove_entry`] does.
    pub fn remove(&mut self, key: &u64) -> (r: Option<V>)
        requires
            old(self).wf(),
        ensures
            final(self).wf(),
            final(self)@ == old(self)@.remove(*key),
            r == (if old(self)@.dom().contains(*key) {
                Some(old(self)@[*key])
            } else {
                None::<V>
            }),
            final(self)@.dom().len() == 0 || final(self).spec_max_size() <= 2 * final(self)@
                .dom().len(),
            final(self).spec_alpha() == old(self).spec_alpha(),
            !old(self)@.dom().contains(*key) ==> *final(self) == *old(self),
            ({
                // the deletion threshold behaves exactly as for remove_entry
                let crossed = old(self)@.dom().contains(*key) && old(self).spec_max_size() > 2 * (
                old(self)@.dom().len() - 1);
                &&& (!crossed ==> final(self).spec_max_size() == old(self).spec_max_size()
                    && final(self).spec_rebal_cnt() == old(self).spec_rebal_cnt())
                &&& (crossed && final(self)@.dom().len() > 0 ==> final(self).spec_max_size()
                    == final(self)@.dom().len() && final(self).spec_height() <= lg2(
                    final(self)@.dom().len(),
                ) + 1 && final(self).spec_rebal_cnt() == (
                if old(self).spec_rebal_cnt() == usize::MAX {
                    0usize
                } else {
                    (old(self).spec_rebal_cnt() + 1) as usize
                }))
                &&& (crossed && final(self)@.dom().len() == 0 ==> final(self).spec_max_size() == 0
                    && final(self).spec_rebal_cnt() == old(self).spec_rebal_cnt())
            }),
    {
        match self.remove_entry(key) {
            Some(kv) => Some(kv.1),
            None => None,
        }
    }

    // Removes the node stored in the given arena slot, if it is occupied, by
    // removing its key; applies the deletion threshold.
    fn priv_remove_by_idx(&mut self, idx: usize) -> (r: Option<(u64, V)>)
        requires
            old(self).wf(),
        ensures
            final(self).wf(),
            ({
                let occupied = idx < old(self).arena@.len() && old(self).arena@[idx as int]
                    is Some;
                &&& (occupied ==> {
                    let k = old(self).arena@[idx as int].unwrap().key;
                    &&& old(self)@.dom().contains(k)
                    &&& final(self)@ == old(self)@.remove(k)
                    &&& r == Some((k, old(self)@[k]))
                })
                &&& (!occupied ==> r is None && *final(self) == *old(self))
            }),
            final(self).spec_alpha() == old(self).spec_alpha(),
    {
        proof {
            lemma_wf_props(self.arena@, self.root_idx, self.fuel());
        }
        if self.arena.is_occupied(idx) {
            proof {
                assert(sub_idxs(self.arena@, self.root_idx, self.fuel()).contains(idx));
            }
            let k = self.arena.node_ref(idx).key;
            self.remove_entry(&k)
        } else {
            None
        }
    }

    /// Removes and returns the first element of the tree, the pair with the
    /// minimum key, if any.
    pub fn pop_first(&mut self) -> (r: Option<(u64, V)>)
        requires
            old(self).wf(),
        ensures
            final(self).wf(),
            match r {
                Some(kv) => is_min_key(old(self)@, kv.0) && kv.1 == old(self)@[kv.0]
                    && final(self)@ == old(self)@.remove(kv.0),
                None => old(self)@ == Map::<u64, V>::empty() && *final(self) == *old(self),
            },
            final(self).spec_alpha() == old(self).spec_alpha(),
    {
        proof {
            lemma_wf_props(self.arena@, self.root_idx, self.fuel());
            if self.root_idx is None {
                assert forall|t: usize| t < self.arena@.len() implies self.arena@[t as int]
                    is None by {
                    if self.arena@[t as int] is Some {
                        assert(sub_idxs(self.arena@, self.root_idx, self.fuel()).contains(t));
                    }
                }
                assert(self@ =~= Map::<u64, V>::empty());
            }
        }
        self.priv_remove_by_idx(self.min_idx)
    }

    /// Removes and returns the last element of the tree, the pair with the
    /// maximum key, if any.
    pub fn pop_last(&mut self) -> (r: Option<(u64, V)>)
        requires
            old(self).wf(),
        ensures
            final(self).wf(),
            match r {
                Some(kv) => is_max_key(old(self)@, kv.0) && kv.1 == old(self)@[kv.0]
                    && final(self)@ == old(self)@.remove(kv.0),
                None => old(self)@ == Map::<u64, V>::empty() && *final(self) == *old(self),
            },
            final(self).spec_alpha() == old(self).spec_alpha(),
    {
        proof {
            lemma_wf_props(self.arena@, self.root_idx, self.fuel());
            if self.root_idx is None {
                assert forall|t: usize| t < self.arena@.len() implies self.arena@[t as int]
                    is None by {
                    if self.arena@[t as int] is Some {
                        assert(sub_idxs(self.arena@, self.root_idx, self.fuel()).contains(t));
                    }
                }
                assert(self@ =~= Map::<u64, V>::empty());
            }
        }
        self.priv_remove_by_idx(self.max_idx)
    }

    /// Returns the key-value pair corresponding to the given key.
    pub fn get_key_value(&self, key: &u64) -> (r: Option<(&u64, &V)>)
        requires
            self.wf(),
        ensures
            match r {
                Some(kv) => self@.dom().contains(*key) && *kv.0 == *key && *kv.1 == self@[*key],
                None => !self@.dom().contains(*key),
            },
    {
        let ngh = self.priv_get(key);
        match ngh.node_idx {
            Some(idx) => {
                proof {
                    lemma_wf_props(self.arena@, self.root_idx, self.fuel());
                }
                let node = self.arena.node_ref(idx);
                Some((&node.key, &node.val))
            },
            None => None,
        }
    }

    /// Returns a reference to the value corresponding to the given key.
    pub fn get(&self, key: &u64) -> (r: Option<&V>)
        requires
            self.wf(),
        ensures
            match r {
                Some(v) => self@.dom().contains(*key) && *v == self@[*key],
                None => !self@.dom().contains(*key),
            },
    {
        match self.get_key_value(key) {
            Some(kv) => Some(kv.1),
            None => None,
        }
    }

    /// Returns `true` if the tree contains a value for the given key.
    pub fn contains_key(&self, key: &u64) -> (r: bool)
        requires
            self.wf(),
        ensures
            r == self@.dom().contains(*key),
    {
        self.get(key).is_some()
    }

    // In-order collection of the subtree's entries: appends `(key, &value)`
    // pairs in ascending key order.
    #[verifier::rlimit(50)]
    fn iter_rec<'a>(arena: &'a Arena<V, N>, idx: usize, out: &mut Vec<(u64, &'a V)>)
        requires
            sub_wf(arena@, Some(idx), arena@.len() + 1),
        ensures
            ({
                let s = arena@;
                let f = s.len() + 1;
                let m = sub_map(s, Some(idx), f);
                let q1 = old(out)@;
                let q2 = final(out)@;
                &&& q2.len() == q1.len() + sub_size(s, Some(idx), f)
                &&& q2.subrange(0, q1.len() as int) == q1
                &&& (forall|t: int|
                    q1.len() <= t < q2.len() ==> m.dom().contains(#[trigger] q2[t].0) && *q2[t].1
                        == m[q2[t].0])
                &&& (forall|k: u64| #[trigger]
                    m.dom().contains(k) ==> exists|t: int|
                        q1.len() <= t < q2.len() && q2[t].0 == k)
                &&& (forall|t1: int, t2: int|
                    q1.len() <= t1 < t2 < q2.len() ==> (#[trigger] q2[t1].0) < (#[trigger] q2[t2].0))
            }),
        decreases sub_size(arena@, Some(idx), arena@.len() + 1),
    {
        let ghost s = arena@;
        let ghost f = s.len() + 1;
        let ghost n1 = s[idx as int].unwrap();
        let ghost q1 = out@;
        proof {
            lemma_node_unfold(s, idx, f);
            lemma_wf_props(s, Some(idx), f);
            lemma_wf_props(s, n1.left, f);
            lemma_wf_props(s, n1.right, f);
        }
        let node = arena.node_ref(idx);
        if let Some(l) = node.left {
            Self::iter_rec(arena, l, out);
        }
        let ghost qa = out@;
        out.push((node.key, &node.val));
        let ghost qb = out@;
        if let Some(g) = node.right {
            Self::iter_rec(arena, g, out);
        }
        proof {
            let q2 = out@;
            let m = sub_map(s, Some(idx), f);
            let ml = sub_map(s, n1.left, f);
            let mr = sub_map(s, n1.right, f);
            if n1.left is None {
                assert(ml =~= Map::<u64, V>::empty());
                assert(sub_size(s, n1.left, f) == 0);
                assert(qa == q1);
            }
            if n1.right is None {
                assert(mr =~= Map::<u64, V>::empty());
                assert(sub_size(s, n1.right, f) == 0);
                assert(q2 == qb);
            }
            assert(qb[qa.len() as int].0 == n1.key);
            assert(*qb[qa.len() as int].1 == n1.val);
            if n1.right is Some {
                assert(q2.subrange(0, qb.len() as int) == qb);
                assert(q2.subrange(0, qb.len() as int)[qa.len() as int] == q2[qa.len() as int]);
            }
            assert(q2[qa.len() as int] == qb[qa.len() as int]);
            assert forall|t: int| 0 <= t < qa.len() implies q2[t] == qa[t] by {
                assert(q2.subrange(0, qb.len() as int)[t] == q2[t]);
                assert(qb[t] == qa[t]);
            }
            assert(qb.subrange(0, q1.len() as int) =~= q1);
            assert(q2.subrange(0, q1.len() as int) =~= q1);
            assert(q2[qa.len() as int].0 == n1.key);
            assert(*q2[qa.len() as int].1 == n1.val);
            assert(m.dom().contains(n1.key) && m[n1.key] == n1.val);
            assert forall|t: int|
                q1.len() <= t < q2.len() implies m.dom().contains(#[trigger] q2[t].0) && *q2[t].1
                == m[q2[t].0] by {
                if t < qa.len() {
                    assert(q2[t] == qa[t]);
                    assert(ml.dom().contains(qa[t].0) && *qa[t].1 == ml[qa[t].0]);
                    assert(qa[t].0 < n1.key);
                    assert(!mr.dom().contains(qa[t].0));
                } else if t == qa.len() {
                } else {
                    assert(mr.dom().contains(q2[t].0) && *q2[t].1 == mr[q2[t].0]);
                    assert(q2[t].0 > n1.key);
                }
            }
            assert forall|k: u64| #[trigger] m.dom().contains(k) implies exists|t: int|
                q1.len() <= t < q2.len() && q2[t].0 == k by {
                if k == n1.key {
                    assert(q2[qa.len() as int].0 == k);
                } else if ml.dom().contains(k) {
                    let t = choose|t: int| q1.len() <= t < qa.len() && qa[t].0 == k;
                    assert(q2[t] == qa[t]);
                    assert(q2[t].0 == k);
                } else {
                    assert(mr.dom().contains(k));
                    let t = choose|t: int| qb.len() <= t < q2.len() && q2[t].0 == k;
                    assert(q2[t].0 == k);
                }
            }
            assert forall|t1: int, t2: int|
                q1.len() <= t1 < t2 < q2.len() implies (#[trigger] q2[t1].0) < (
            #[trigger] q2[t2].0) by {
                if t1 < qa.len() {
                    assert(q2[t1] == qa[t1]);
                    assert(ml.dom().contains(qa[t1].0));
                    assert(q2[t1].0 < n1.key);
                    if t2 < qa.len() {
                        assert(q2[t2] == qa[t2]);
                    } else if t2 == qa.len() {
                        assert(q2[t2].0 == n1.key);
                    } else {
                        assert(mr.dom().contains(q2[t2].0));
                    }
                } else if t1 == qa.len() {
                    assert(q2[t1].0 == n1.key);
                    assert(mr.dom().contains(q2[t2].0));
                } else {
                    assert(mr.dom().contains(q2[t1].0) && mr.dom().contains(q2[t2].0));
                }
            }
        }
    }

    /// The tree's entries, in ascending key order.
    ///
    /// The result lists every pair of the tree exactly once: entry `t` holds
    /// the `t`-smallest key and a reference to its value.
    pub fn iter(&self) -> (r: Vec<(u64, &V)>)
        requires
            self.wf(),
        ensures
            r@.len() == self@.dom().len(),
            forall|t: int|
                0 <= t < r@.len() ==> self@.dom().contains(#[trigger] r@[t].0) && *r@[t].1
                    == self@[r@[t].0],
            forall|t1: int, t2: int| 0 <= t1 < t2 < r@.len() ==> (#[trigger] r@[t1].0) < (#[trigger] r@[t2].0),
            forall|k: u64| #[trigger]
                self@.dom().contains(k) ==> exists|t: int| 0 <= t < r@.len() && r@[t].0 == k,
    {
        proof {
            lemma_wf_props(self.arena@, self.root_idx, self.fuel());
        }
        let mut out: Vec<(u64, &V)> = Vec::new();
        match self.root_idx {
            Some(root) => {
                Self::iter_rec(&self.arena, root, &mut out);
            },
            None => {
                proof {
                    assert(self@ =~= Map::<u64, V>::empty());
                }
            },
        }
        out
    }

    /// Removes every entry from the tree, returning the owned pairs in
    /// ascending key order; the tree is left empty. The consuming
    /// counterpart of [`SGTree::iter`].
    #[verifier::loop_isolation(false)]
    pub fn drain(&mut self) -> (r: Vec<(u64, V)>)
        requires
            old(self).wf(),
        ensures
            final(self).wf(),
            final(self)@ == Map::<u64, V>::empty(),
            r@.len() == old(self)@.dom().len(),
            forall|t: int|
                0 <= t < r@.len() ==> old(self)@.dom().contains(#[trigger] r@[t].0) && r@[t].1
                    == old(self)@[r@[t].0],
            forall|t1: int, t2: int|
                0 <= t1 < t2 < r@.len() ==> (#[trigger] r@[t1].0) < (#[trigger] r@[t2].0),
            forall|k: u64| #[trigger]
                old(self)@.dom().contains(k) ==> exists|t: int| 0 <= t < r@.len() && r@[t].0 == k,
    {
        let mut out: Vec<(u64, V)> = Vec::new();
        proof {
            lemma_wf_props(self.arena@, self.root_idx, self.fuel());
        }
        while !self.is_empty()
            invariant
                self.wf(),
                forall|t: int|
                    0 <= t < out@.len() ==> old(self)@.dom().contains(#[trigger] out@[t].0)
                        && out@[t].1 == old(self)@[out@[t].0],
                forall|t1: int, t2: int|
                    0 <= t1 < t2 < out@.len() ==> (#[trigger] out@[t1].0) < (#[trigger] out@[t2].0),
                forall|k: u64| #[trigger]
                    self@.dom().contains(k) ==> old(self)@.dom().contains(k) && self@[k] == old(
                        self,
                    )@[k],
                forall|k: u64| #[trigger]
                    old(self)@.dom().contains(k) ==> self@.dom().contains(k) || exists|t: int|
                        0 <= t < out@.len() && out@[t].0 == k,
                forall|t: int, k: u64|
                    0 <= t < out@.len() && #[trigger] self@.dom().contains(k) ==> (
                    #[trigger] out@[t].0) < k,
                out@.len() + self@.dom().len() == old(self)@.dom().len(),
            decreases self@.dom().len(),
        {
            proof {
                lemma_wf_props(self.arena@, self.root_idx, self.fuel());
            }
            let ghost pre = self@;
            let ghost preout = out@;
            match self.pop_first() {
                Some(kv) => {
                    out.push(kv);
                    proof {
                        assert(out@ == preout.push(kv));
                        assert(out@[out@.len() - 1] == kv);
                        assert forall|k: u64| #[trigger]
                            old(self)@.dom().contains(k) implies self@.dom().contains(k) || exists|
                        t: int|
                            0 <= t < out@.len() && out@[t].0 == k by {
                            if pre.dom().contains(k) {
                                if k == kv.0 {
                                    assert(out@[out@.len() - 1].0 == k);
                                }
                            } else {
                                let t = choose|t: int|
                                    0 <= t < preout.len() && preout[t].0 == k;
                                assert(out@[t].0 == k);
                            }
                        }
                        assert forall|t: int, k: u64|
                            0 <= t < out@.len() && #[trigger] self@.dom().contains(k) implies (
                        #[trigger] out@[t].0) < k by {
                            assert(pre.dom().contains(k));
                            if t == out@.len() - 1 {
                                assert(kv.0 <= k && kv.0 != k);
                            }
                        }
                        assert forall|t1: int, t2: int|
                            0 <= t1 < t2 < out@.len() implies (#[trigger] out@[t1].0) < (
                        #[trigger] out@[t2].0) by {
                            if t2 == out@.len() - 1 {
                                assert(pre.dom().contains(kv.0));
                            }
                        }
                    }
                },
                None => {
                    proof {
                        assert(false);
                    }
                },
            }
        }
        proof {
            assert(self@ =~= Map::<u64, V>::empty());
        }
        out
    }

    /// Returns the first key-value pair of the tree: the pair whose key is
    /// the minimum, read from the cache in constant time.
    pub fn first_key_value(&self) -> (r: Option<(&u64, &V)>)
        requires
            self.wf(),
        ensures
            match r {
                Some(kv) => is_min_key(self@, *kv.0) && *kv.1 == self@[*kv.0],
                None => self@ == Map::<u64, V>::empty(),
            },
    {
        proof {
            lemma_wf_props(self.arena@, self.root_idx, self.fuel());
            if self.root_idx is None {
                assert(self@ =~= Map::<u64, V>::empty());
            }
        }
        match self.root_idx {
            Some(_) => {
                let node = self.arena.node_ref(self.min_idx);
                Some((&node.key, &node.val))
            },
            None => None,
        }
    }

    /// Returns a reference to the first (minimum) key of the tree, if any.
    pub fn first_key(&self) -> (r: Option<&u64>)
        requires
            self.wf(),
        ensures
            match r {
                Some(k) => is_min_key(self@, *k),
                None => self@ == Map::<u64, V>::empty(),
            },
    {
        match self.first_key_value() {
            Some(kv) => Some(kv.0),
            None => None,
        }
    }

    /// Returns the last key-value pair of the tree: the pair whose key is the
    /// maximum, read from the cache in constant time.
    pub fn last_key_value(&self) -> (r: Option<(&u64, &V)>)
        requires
            self.wf(),
        ensures
            match r {
                Some(kv) => is_max_key(self@, *kv.0) && *kv.1 == self@[*kv.0],
                None => self@ == Map::<u64, V>::empty(),
            },
    {
        proof {
            lemma_wf_props(self.arena@, self.root_idx, self.fuel());
            if self.root_idx is None {
                assert(self@ =~= Map::<u64, V>::empty());
            }
        }
        match self.root_idx {
            Some(_) => {
                let node = self.arena.node_ref(self.max_idx);
                Some((&node.key, &node.val))
            },
            None => None,
        }
    }

    /// Returns a reference to the last (maximum) key of the tree, if any.
    pub fn last_key(&self) -> (r: Option<&u64>)
        requires
            self.wf(),
        ensures
            match r {
                Some(k) => is_max_key(self@, *k),
                None => self@ == Map::<u64, V>::empty(),
            },
    {
        match self.last_key_value() {
            Some(kv) => Some(kv.0),
            None => None,
        }
    }

    /// The maximum number of nodes on any root-to-leaf path of the tree.
    pub fn height(&self) -> (r: usize)
        requires
            self.wf(),
        ensures
            r == self.spec_height(),
            r <= self@.dom().len(),
    {
        proof {
            lemma_wf_props(self.arena@, self.root_idx, self.fuel());
            lemma_height_le_size(self.arena@, self.root_idx, self.fuel());
        }
        match self.root_idx {
            Some(root) => Self::subtree_height(&self.arena, root),
            None => 0,
        }
    }

    // Computes the height of the subtree rooted at `idx`.
    fn subtree_height(arena: &Arena<V, N>, idx: usize) -> (r: usize)
        requires
            sub_wf(arena@, Some(idx), arena@.len() + 1),
        ensures
            r == sub_height(arena@, Some(idx), arena@.len() + 1),
        decreases sub_size(arena@, Some(idx), arena@.len() + 1),
    {
        let ghost s = arena@;
        let ghost f = s.len() + 1;
        let arena_len = arena.len();
        proof {
            lemma_node_unfold(s, idx, f);
            lemma_wf_props(s, Some(idx), f);
            lemma_height_le_size(s, s[idx as int].unwrap().left, f);
            lemma_height_le_size(s, s[idx as int].unwrap().right, f);
            lemma_size_le_len(s, Some(idx), f);
            assert(sub_height(s, s[idx as int].unwrap().left, f) < arena_len);
            assert(sub_height(s, s[idx as int].unwrap().right, f) < arena_len);
        }
        let node = arena.node_ref(idx);
        let hl = match node.left {
            Some(l) => Self::subtree_height(arena, l),
            None => 0,
        };
        let hr = match node.right {
            Some(g) => Self::subtree_height(arena, g),
            None => 0,
        };
        proof {
            let n = s[idx as int].unwrap();
            if node.left is None {
                assert(sub_height(s, n.left, f) == 0);
            }
            if node.right is None {
                assert(sub_height(s, n.right, f) == 0);
            }
            lemma_size_le_len(s, n.left, f);
            lemma_fuel_any(s, n.left, f, (f - 1) as nat);
            lemma_size_le_len(s, n.right, f);
            lemma_fuel_any(s, n.right, f, (f - 1) as nat);
            assert(sub_height(s, Some(idx), f) == 1 + (if sub_height(s, n.left, f) >= sub_height(
                s,
                n.right,
                f,
            ) {
                sub_height(s, n.left, f)
            } else {
                sub_height(s, n.right, f)
            }));
        }
        if hl >= hr {
            hl + 1
        } else {
            hr + 1
        }
    }

    // Iterative subtree size computation.
    fn get_subtree_size(&self, idx: usize) -> (r: usize)
        requires
            sub_wf(self.arena@, Some(idx), self.fuel()),
        ensures
            r == sub_size(self.arena@, Some(idx), self.fuel()),
        decreases sub_size(self.arena@, Some(idx), self.fuel()),
    {
        let ghost s = self.arena@;
        let ghost f = self.fuel();
        let arena_len = self.arena.len();
        proof {
            lemma_node_unfold(s, idx, f);
            lemma_wf_props(s, Some(idx), f);
            lemma_size_le_len(s, Some(idx), f);
        }
        let node = self.arena.node_ref(idx);
        let sl = match node.left {
            Some(l) => self.get_subtree_size(l),
            None => 0,
        };
        let sr = match node.right {
            Some(g) => self.get_subtree_size(g),
            None => 0,
        };
        proof {
            let n = s[idx as int].unwrap();
            if node.left is None {
                assert(sub_size(s, n.left, f) == 0);
            }
            if node.right is None {
                assert(sub_size(s, n.right, f) == 0);
            }
        }
        1 + sl + sr
    }

    // Differential subtree size helper: computes a parent's subtree size from
    // one child's by walking only the other child.
    fn get_subtree_size_differential(
        &self,
        parent_idx: usize,
        child_idx: usize,
        child_subtree_size: usize,
    ) -> (r: usize)
        requires
            sub_wf(self.arena@, Some(parent_idx), self.fuel()),
            self.arena@[parent_idx as int].unwrap().left == Some(child_idx) || self.arena@[
                parent_idx as int].unwrap().right == Some(child_idx),
            child_subtree_size == sub_size(self.arena@, Some(child_idx), self.fuel()),
        ensures
            r == sub_size(self.arena@, Some(parent_idx), self.fuel()),
    {
        let ghost s = self.arena@;
        let ghost f = self.fuel();
        let arena_len = self.arena.len();
        proof {
            lemma_node_unfold(s, parent_idx, f);
            lemma_wf_props(s, Some(parent_idx), f);
            lemma_size_le_len(s, Some(parent_idx), f);
        }
        let parent = self.arena.node_ref(parent_idx);
        let mut is_right_child = false;
        if let Some(right_child_idx) = parent.right {
            if right_child_idx == child_idx {
                is_right_child = true;
            }
        }
        let other = if is_right_child {
            parent.left
        } else {
            parent.right
        };
        let other_child_subtree_size = match other {
            Some(o) => self.get_subtree_size(o),
            None => 0,
        };
        proof {
            let n = s[parent_idx as int].unwrap();
            if other is None {
                if is_right_child {
                    assert(sub_size(s, n.left, f) == 0);
                } else {
                    assert(sub_size(s, n.right, f) == 0);
                }
            }
        }
        child_subtree_size + other_child_subtree_size + 1
    }

    // The exact depth limit for a reduced, small-numerator ratio: the
    // largest `d` with `(denom/num)^d <= val`, by exact power comparison.
    #[verifier::loop_isolation(false)]
    fn exact_alpha_depth(num: u64, denom: u64, val: usize) -> (r: usize)
        requires
            1 <= num <= 4,
            num < denom <= 2 * num,
            1 <= val <= 131070,
        ensures
            is_alpha_depth(num as nat, denom as nat, val as nat, r as nat),
    {
        let mut d: usize = 0;
        proof {
            assert((val as int) * (num as int) <= 131070 * 4) by (nonlinear_arith)
                requires
                    val <= 131070,
                    num <= 4,
                    0 <= val,
                    0 <= num,
            ;
            vstd::arithmetic::power::lemma_pow0(denom as int);
            vstd::arithmetic::power::lemma_pow1(denom as int);
            vstd::arithmetic::power::lemma_pow0(num as int);
            vstd::arithmetic::power::lemma_pow1(num as int);
        }
        let mut pd: u128 = denom as u128;
        let mut pmn: u128 = (val as u128) * (num as u128);
        while pd <= pmn
            invariant
                pd == pow(denom as int, (d + 1) as nat),
                pmn == val * pow(num as int, (d + 1) as nat),
                pow(denom as int, d as nat) <= val * pow(num as int, d as nat),
                d <= 52,
            decreases 53 - d,
        {
            proof {
                lemma_alpha_depth_bound(num as nat, denom as nat, val as nat, (d + 1) as nat);
                assert(d + 1 <= 52);
                vstd::arithmetic::power::lemma_pow_adds(num as int, (d + 1) as nat, 1);
                vstd::arithmetic::power::lemma_pow_adds(denom as int, (d + 1) as nat, 1);
                vstd::arithmetic::power::lemma_pow1(num as int);
                vstd::arithmetic::power::lemma_pow1(denom as int);
                lemma_pow_fits(num as nat, (d + 1) as nat);
                lemma_pow_fits(num as nat, (d + 2) as nat);
                vstd::arithmetic::power::lemma_pow_positive(num as int, (d + 1) as nat);
                vstd::arithmetic::power::lemma_pow_positive(num as int, (d + 2) as nat);
                // the updated products stay within the machine word
                assert((pmn as int) * (num as int) == val * pow(num as int, (d + 2) as nat))
                    by (nonlinear_arith)
                    requires
                        pmn == val * pow(num as int, (d + 1) as nat),
                        pow(num as int, (d + 2) as nat) == pow(num as int, (d + 1) as nat) * (
                        num as int),
                ;
                assert(val * pow(num as int, (d + 2) as nat) <= 131070 * pow(2, 106))
                    by (nonlinear_arith)
                    requires
                        0 <= val <= 131070,
                        0 < pow(num as int, (d + 2) as nat) <= pow(2, 106),
                ;
                assert((pd as int) * (denom as int) <= (pmn as int) * 8) by (nonlinear_arith)
                    requires
                        0 <= pd <= pmn,
                        0 < denom <= 8,
                ;
                assert(pmn <= 131070 * pow(2, 106)) by (nonlinear_arith)
                    requires
                        pmn == val * pow(num as int, (d + 1) as nat),
                        0 <= val <= 131070,
                        0 < pow(num as int, (d + 1) as nat) <= pow(2, 106),
                ;
                assert(131070 * pow(2, 106) * 8 < 0x1_0000_0000_0000_0000_0000_0000_0000_0000)
                    by {
                    lemma_pow_fits(1, 0);
                }
            }
            d = d + 1;
            pd = pd * (denom as u128);
            pmn = pmn * (num as u128);
        }
        d
    }

    // Alpha weight balance computation helper: a depth limit for the stored
    // ratio, exact in integer arithmetic whenever the reduced numerator is at
    // most four, and otherwise the exact limit of the tightest such ratio at
    // least as large — an under-approximation, so rebalancing triggers no
    // later than the true limit demands.
    fn alpha_balance_depth(&self, val: usize) -> (r: usize)
        requires
            valid_alpha(self.spec_alpha().0, self.spec_alpha().1),
            1 <= val <= 131070,
        ensures
            // the returned depth never exceeds the true limit
            pow(self.spec_alpha().1 as int, r as nat) <= val * pow(
                self.spec_alpha().0 as int,
                r as nat,
            ),
            // and is the true limit whenever it is exactly computable
            (self.spec_alpha().0 as nat) / gcd(
                self.spec_alpha().0 as nat,
                self.spec_alpha().1 as nat,
            ) <= 4 ==> is_alpha_depth(
                self.spec_alpha().0 as nat,
                self.spec_alpha().1 as nat,
                val as nat,
                r as nat,
            ),
            // otherwise it is the true limit of the coarsened ratio
            (self.spec_alpha().0 as nat) / gcd(
                self.spec_alpha().0 as nat,
                self.spec_alpha().1 as nat,
            ) > 4 ==> exists|k: nat|
                1 <= k <= 4 && (self.spec_alpha().0 as nat) * (k + 1) >= (
                self.spec_alpha().1 as nat) * k && #[trigger] is_alpha_depth(
                    k,
                    k + 1,
                    val as nat,
                    r as nat,
                ),
    {
        // reduce the ratio: the depth limit depends only on it
        let g = euclid_gcd(self.alpha_num, self.alpha_denom);
        proof {
            lemma_gcd_divides(self.alpha_num as nat, self.alpha_denom as nat);
            vstd::arithmetic::div_mod::lemma_fundamental_div_mod(self.alpha_num as int, g as int);
            vstd::arithmetic::div_mod::lemma_fundamental_div_mod(
                self.alpha_denom as int,
                g as int,
            );
        }
        let num = self.alpha_num / g;
        let denom = self.alpha_denom / g;
        proof {
            assert(self.alpha_num == g * num && self.alpha_denom == g * denom);
            assert(num >= 1) by (nonlinear_arith)
                requires
                    self.alpha_num == g * num,
                    self.alpha_num >= 1,
                    0 <= num,
            ;
            assert(num < denom && denom <= 2 * num) by (nonlinear_arith)
                requires
                    self.alpha_num == g * num,
                    self.alpha_denom == g * denom,
                    (self.alpha_num as int) < (self.alpha_denom as int),
                    (self.alpha_denom as int) <= 2 * (self.alpha_num as int),
                    g >= 1,
            ;
        }
        if num <= 4 {
            let d = Self::exact_alpha_depth(num, denom, val);
            proof {
                lemma_alpha_depth_scale(g as nat, num as nat, denom as nat, val as nat, d as nat);
                assert(g as nat * (num as nat) == self.spec_alpha().0 as nat);
                assert(g as nat * (denom as nat) == self.spec_alpha().1 as nat);
            }
            d
        } else {
            // coarsen to the tightest ratio (k+1)/k at least as large as the
            // stored one; its exact limit under-approximates the true limit
            let q = num / (denom - num);
            let k = if q > 4 {
                4
            } else {
                q
            };
            proof {
                vstd::arithmetic::div_mod::lemma_fundamental_div_mod(
                    num as int,
                    (denom - num) as int,
                );
                assert(k >= 1) by (nonlinear_arith)
                    requires
                        num == ((denom - num) as int) * (q as int) + (num as int) % ((denom
                            - num) as int),
                        0 <= (num as int) % ((denom - num) as int) < denom - num,
                        0 < denom - num <= num,
                        k == (if q > 4 {
                            4u64
                        } else {
                            q
                        }),
                ;
                // k <= num / (denom - num) gives num * (k + 1) >= denom * k
                assert((num as int) * (k as int + 1) >= (denom as int) * (k as int))
                    by (nonlinear_arith)
                    requires
                        num == ((denom - num) as int) * (q as int) + (num as int) % ((denom
                            - num) as int),
                        0 <= (num as int) % ((denom - num) as int),
                        0 < denom - num,
                        0 <= k <= q,
                ;
            }
            let d = Self::exact_alpha_depth(k, k + 1, val);
            proof {
                // soundness for the reduced ratio, by base-ratio monotonicity
                vstd::arithmetic::power::lemma_pow_positive(k as int, d as nat);
                vstd::arithmetic::power::lemma_pow_positive(num as int, d as nat);
                vstd::arithmetic::power::lemma_pow_positive(g as int, d as nat);
                assert(1 <= (denom * k) as int <= (num * (k + 1)) as int) by (nonlinear_arith)
                    requires
                        1 <= denom,
                        1 <= k,
                        (num as int) * (k as int + 1) >= (denom as int) * (k as int),
                ;
                lemma_pow_base_mono((denom * k) as nat, (num * (k + 1)) as nat, d as nat);
                vstd::arithmetic::power::lemma_pow_distributes(
                    denom as int,
                    k as int,
                    d as nat,
                );
                vstd::arithmetic::power::lemma_pow_distributes(
                    num as int,
                    k as int + 1,
                    d as nat,
                );
                assert(pow(denom as int, d as nat) <= val * pow(num as int, d as nat))
                    by (nonlinear_arith)
                    requires
                        pow(denom as int, d as nat) * pow(k as int, d as nat) <= pow(
                            num as int,
                            d as nat,
                        ) * pow(k as int + 1, d as nat),
                        pow(k as int + 1, d as nat) <= val * pow(k as int, d as nat),
                        pow(k as int, d as nat) > 0,
                        pow(num as int, d as nat) > 0,
                        val >= 0,
                ;
                // and for the stored ratio, by scaling
                vstd::arithmetic::power::lemma_pow_distributes(g as int, num as int, d as nat);
                vstd::arithmetic::power::lemma_pow_distributes(g as int, denom as int, d as nat);
                assert(pow((g * denom) as int, d as nat) <= val * pow((g * num) as int, d as nat))
                    by (nonlinear_arith)
                    requires
                        pow((g * denom) as int, d as nat) == pow(g as int, d as nat) * pow(
                            denom as int,
                            d as nat,
                        ),
                        pow((g * num) as int, d as nat) == pow(g as int, d as nat) * pow(
                            num as int,
                            d as nat,
                        ),
                        pow(denom as int, d as nat) <= val * pow(num as int, d as nat),
                        pow(g as int, d as nat) > 0,
                        val >= 0,
                ;
                // the coarsened ratio also witnesses the stored one
                assert((self.spec_alpha().0 as nat) * (k as nat + 1) >= (
                self.spec_alpha().1 as nat) * (k as nat)) by (nonlinear_arith)
                    requires
                        self.alpha_num == g * num,
                        self.alpha_denom == g * denom,
                        (num as int) * (k as int + 1) >= (denom as int) * (k as int),
                        g >= 1,
                ;
            }
            d
        }
    }

    /// The weight test of the scapegoat search at position `t` of an
    /// insertion path: the balance parameter deems the path node at `t`
    /// unbalanced towards the child the search ascended from — the path node
    /// at `t + 1`, or, below the path's last entry, the just-inserted leaf of
    /// size one.
    spec fn sg_unbalanced(self, pseq: Seq<usize>, t: int) -> bool {
        let child_size = if t == pseq.len() - 1 {
            1 as nat
        } else {
            sub_size(self.arena@, Some(pseq[t + 1]), self.fuel())
        };
        self.alpha_denom * child_size > self.alpha_num * sub_size(
            self.arena@,
            Some(pseq[t]),
            self.fuel(),
        )
    }

    // Traverse upward, using path information, to find the deepest
    // alpha-weight-unbalanced ancestor of the just-inserted node: the
    // scapegoat whose subtree the caller rebuilds. Uses the classical rule
    // of Galperin and Rivest. Returns nothing for a path of at most one
    // entry, or when every ancestor on the path passes the weight test.
    #[verifier::loop_isolation(false)]
    fn find_scapegoat(&self, path: &IdxStack) -> (r: Option<usize>)
        requires
            self.wf(),
            forall|t: int|
                0 <= t < stack_seq(*path).len() ==> sub_idxs(
                    self.arena@,
                    self.root_idx,
                    self.fuel(),
                ).contains(#[trigger] stack_seq(*path)[t]),
            forall|t: int|
                0 <= t < stack_seq(*path).len() - 1 ==> child_link(
                    self.arena@,
                    #[trigger] stack_seq(*path)[t],
                    stack_seq(*path)[t + 1],
                ),
        ensures
            stack_seq(*path).len() <= 1 ==> r is None,
            stack_seq(*path).len() > 1 ==> match r {
                Some(i) => {
                    &&& sub_idxs(self.arena@, self.root_idx, self.fuel()).contains(i)
                    // the deepest ancestor failing the weight test: every
                    // deeper one passes it
                    &&& exists|j: int|
                        0 <= j < stack_seq(*path).len() && #[trigger] stack_seq(*path)[j] == i
                            && self.sg_unbalanced(stack_seq(*path), j) && (forall|t: int|
                            j < t < stack_seq(*path).len() ==> !self.sg_unbalanced(
                                stack_seq(*path),
                                t,
                            ))
                },
                None => forall|t: int|
                    0 <= t < stack_seq(*path).len() ==> !self.sg_unbalanced(stack_seq(*path), t),
            },
    {
        let plen = path.len();
        if plen <= 1 {
            return None;
        }
        let ghost s = self.arena@;
        let ghost f = self.fuel();
        let ghost pseq = stack_seq(*path);
        proof {
            lemma_wf_props(s, self.root_idx, f);
            lemma_subtree_at(s, self.root_idx, f, stack_seq(*path)[plen - 1]);
            lemma_size_le_len(s, self.root_idx, f);
        }
        let mut node_subtree_size: u64 = 1;  // the just-inserted node
        let mut parent_path_idx = plen - 1;  // its parent
        let mut parent_subtree_size = self.get_subtree_size(path.get(parent_path_idx));
        proof {
            lemma_wf_props(s, Some(stack_seq(*path)[parent_path_idx as int]), f);
            lemma_idxs_le_len(sub_idxs(s, self.root_idx, f), self.arena@.len());
        }
        proof {
            assert((self.alpha_num as u128) * (parent_subtree_size as u128)
                < 0x1_0000_0000_0000_0000_0000) by (nonlinear_arith)
                requires
                    self.alpha_num <= 0xFFFF_FFFF_FFFF_FFFFu64,
                    parent_subtree_size <= 0xFFFF,
                    0 <= self.alpha_num,
                    0 <= parent_subtree_size,
            ;
            assert((self.alpha_denom as u128) * (node_subtree_size as u128)
                < 0x1_0000_0000_0000_0000_0000) by (nonlinear_arith)
                requires
                    self.alpha_denom <= 0xFFFF_FFFF_FFFF_FFFFu64,
                    node_subtree_size <= 0xFFFF,
                    0 <= self.alpha_denom,
                    0 <= node_subtree_size,
            ;
        }
        while parent_path_idx > 0 && (self.alpha_denom as u128) * (node_subtree_size as u128) <= (
        self.alpha_num as u128) * (parent_subtree_size as u128)
            invariant
                parent_path_idx < plen,
                parent_subtree_size == sub_size(
                    s,
                    Some(stack_seq(*path)[parent_path_idx as int]),
                    f,
                ),
                node_subtree_size as nat == (if parent_path_idx == plen - 1 {
                    1 as nat
                } else {
                    sub_size(s, Some(pseq[parent_path_idx + 1]), f)
                }),
                forall|t: int| parent_path_idx < t < plen ==> !self.sg_unbalanced(pseq, t),
                parent_subtree_size <= 0xFFFF,
                node_subtree_size <= 0xFFFF,
                (self.alpha_denom as u128) * (node_subtree_size as u128)
                    < 0x1_0000_0000_0000_0000_0000,
                (self.alpha_num as u128) * (parent_subtree_size as u128)
                    < 0x1_0000_0000_0000_0000_0000,
            decreases parent_path_idx,
        {
            proof {
                assert(!self.sg_unbalanced(pseq, parent_path_idx as int));
            }
            node_subtree_size = parent_subtree_size as u64;
            parent_path_idx = parent_path_idx - 1;
            proof {
                lemma_subtree_at(s, self.root_idx, f, stack_seq(*path)[parent_path_idx as int]);
                lemma_subtree_at(s, self.root_idx, f, stack_seq(*path)[parent_path_idx + 1]);
            }
            parent_subtree_size = self.get_subtree_size_differential(
                path.get(parent_path_idx),
                path.get(parent_path_idx + 1),
                node_subtree_size as usize,
            );
            proof {
                lemma_subtree_at(s, self.root_idx, f, stack_seq(*path)[parent_path_idx as int]);
                assert((self.alpha_denom as u128) * (node_subtree_size as u128)
                    < 0x1_0000_0000_0000_0000_0000) by (nonlinear_arith)
                    requires
                        self.alpha_denom <= 0xFFFF_FFFF_FFFF_FFFFu64,
                        node_subtree_size <= 0xFFFF,
                        0 <= self.alpha_denom,
                        0 <= node_subtree_size,
                ;
                assert((self.alpha_num as u128) * (parent_subtree_size as u128)
                    < 0x1_0000_0000_0000_0000_0000) by (nonlinear_arith)
                    requires
                        self.alpha_num <= 0xFFFF_FFFF_FFFF_FFFFu64,
                        parent_subtree_size <= 0xFFFF,
                        0 <= self.alpha_num,
                        0 <= parent_subtree_size,
                ;
            }
        }
        if (self.alpha_denom as u128) * (node_subtree_size as u128) > (self.alpha_num as u128) * (
        parent_subtree_size as u128) {
            let scapegoat_idx = path.get(parent_path_idx);
            proof {
                assert(pseq[parent_path_idx as int] == scapegoat_idx);
                assert(self.sg_unbalanced(pseq, parent_path_idx as int));
            }
            Some(scapegoat_idx)
        } else {
            // the whole path passes the weight test
            proof {
                assert(parent_path_idx == 0);
                assert(!self.sg_unbalanced(pseq, 0));
            }
            None
        }
    }

    /// Moves all elements from `other` into `self`, leaving `other` empty.
    /// On keys present in both trees, `other`'s value wins.
    ///
    /// The combined element count is bounded by the largest slot index, as
    /// for [`SGTree::insert`].
    pub fn append(&mut self, other: &mut Self)
        requires
            old(self).wf(),
            old(other).wf(),
            old(self)@.dom().len() + old(other)@.dom().len() <= 0xFFFF,
        ensures
            final(self).wf(),
            final(other).wf(),
            final(self)@ == old(self)@.union_prefer_right(old(other)@),
            final(other)@ == Map::<u64, V>::empty(),
    {
        proof {
            lemma_wf_props(self.arena@, self.root_idx, self.fuel());
            lemma_wf_props(other.arena@, other.root_idx, other.fuel());
        }
        // Nothing to append!
        if other.is_empty() {
            proof {
                assert(old(self)@.union_prefer_right(old(other)@) =~= old(self)@);
            }
            return ;
        }
        // Nothing to append to!
        if self.is_empty() {
            core::mem::swap(self, other);
            proof {
                assert(old(self)@.union_prefer_right(old(other)@) =~= old(other)@);
            }
            return ;
        }
        // Move the elements over one by one, in ascending key order.
        #[verifier::loop_isolation(false)]
        while !other.is_empty()
            invariant
                self.wf(),
                other.wf(),
                self@.dom().len() + other@.dom().len() <= 0xFFFF,
                forall|k: u64| #[trigger]
                    other@.dom().contains(k) ==> old(other)@.dom().contains(k) && old(other)@[k]
                        == other@[k],
                self@ == old(self)@.union_prefer_right(
                    old(other)@.remove_keys(other@.dom()),
                ),
            decreases other@.dom().len(),
        {
            proof {
                lemma_wf_props(self.arena@, self.root_idx, self.fuel());
                lemma_wf_props(other.arena@, other.root_idx, other.fuel());
            }
            let ghost mo = other@;
            match other.pop_first() {
                Some(kv) => {
                    let (k, v) = kv;
                    proof {
                        vstd::set_lib::lemma_len_subset(other@.dom(), mo.dom());
                    }
                    self.insert(k, v);
                    proof {
                        assert(self@ =~= old(self)@.union_prefer_right(
                            old(other)@.remove_keys(other@.dom()),
                        ));
                        vstd::set_lib::lemma_len_subset(self@.dom(), old(self)@.dom().union(
                            old(other)@.dom(),
                        ));
                        vstd::set_lib::lemma_set_disjoint_lens(
                            old(self)@.dom(),
                            old(other)@.dom().difference(old(self)@.dom()),
                        );
                        vstd::set_lib::lemma_len_subset(
                            old(other)@.dom().difference(old(self)@.dom()),
                            old(other)@.dom(),
                        );
                        assert(old(self)@.dom().union(old(other)@.dom()) =~= old(self)@.dom()
                            .union(old(other)@.dom().difference(old(self)@.dom())));
                    }
                },
                None => {
                    proof {
                        assert(mo =~= Map::<u64, V>::empty());
                        assert(false);
                    }
                },
            }
        }
        proof {
            assert(other@.remove_keys(other@.dom()) =~= other@);
            assert(self@ =~= old(self)@.union_prefer_right(old(other)@));
        }
    }

    /// Attempts to move all elements from `other` into `self`, leaving
    /// `other` empty; on keys present in both, `other`'s value wins.
    ///
    /// Fails pre-emptively with `Err(SGErr::StackCapacityExceeded)`, leaving
    /// both trees unchanged, if both trees are non-empty and their combined
    /// size exceeds the capacity.
    pub fn try_append(&mut self, other: &mut Self) -> (r: Result<(), SGErr>)
        requires
            old(self).wf(),
            old(other).wf(),
        ensures
            final(self).wf(),
            final(other).wf(),
            r is Ok <==> (old(other)@ == Map::<u64, V>::empty() || old(self)@
                == Map::<u64, V>::empty() || old(self)@.dom().len() + old(other)@.dom().len()
                <= N),
            r is Ok ==> final(self)@ == old(self)@.union_prefer_right(old(other)@)
                && final(other)@ == Map::<u64, V>::empty(),
            r is Err ==> *final(self) == *old(self) && *final(other) == *old(other)
                && r == Err::<(), SGErr>(SGErr::StackCapacityExceeded),
    {
        proof {
            lemma_wf_props(self.arena@, self.root_idx, self.fuel());
            lemma_wf_props(other.arena@, other.root_idx, other.fuel());
        }
        // Nothing to append!
        if other.is_empty() {
            proof {
                assert(old(self)@.union_prefer_right(old(other)@) =~= old(self)@);
            }
            return Ok(());
        }
        // Nothing to append to!
        if self.is_empty() {
            core::mem::swap(self, other);
            proof {
                assert(old(self)@.union_prefer_right(old(other)@) =~= old(other)@);
            }
            return Ok(());
        }
        if self.len() <= self.capacity() && other.len() <= self.capacity() - self.len() {
            self.append(other);
            Ok(())
        } else {
            // Pre-emptive: nothing has been mutated, the caller can assume
            // both trees unchanged.
            Err(SGErr::StackCapacityExceeded)
        }
    }

    // Removes every listed key from the tree; the removed pairs form the
    // returned tree. Keys that are absent are ignored.
    fn priv_drain_filter(&mut self, keys: &Vec<u64>) -> (out: Self)
        requires
            old(self).wf(),
        ensures
            final(self).wf(),
            out.wf(),
            final(self)@ == old(self)@.remove_keys(keys@.to_set()),
            out@ == old(self)@.restrict(keys@.to_set()),
            final(self).spec_alpha() == old(self).spec_alpha(),
            out.spec_alpha() == (2u64, 3u64),
    {
        proof {
            lemma_wf_props(self.arena@, self.root_idx, self.fuel());
        }
        let mut out: Self = Self::new();
        let mut at: usize = 0;
        proof {
            assert(self@ =~= old(self)@.remove_keys(keys@.subrange(0, 0).to_set()));
            assert(out@ =~= old(self)@.restrict(keys@.subrange(0, 0).to_set()));
        }
        #[verifier::loop_isolation(false)]
        while at < keys.len()
            invariant
                at <= keys@.len(),
                self.wf(),
                out.wf(),
                self@ == old(self)@.remove_keys(keys@.subrange(0, at as int).to_set()),
                out@ == old(self)@.restrict(keys@.subrange(0, at as int).to_set()),
                self.spec_alpha() == old(self).spec_alpha(),
                out.spec_alpha() == (2u64, 3u64),
            decreases keys@.len() - at,
        {
            let k = keys[at];
            let ghost pre = keys@.subrange(0, at as int).to_set();
            proof {
                let q = keys@.subrange(0, at + 1);
                assert(q.drop_last() =~= keys@.subrange(0, at as int));
                assert(q.last() == k);
                assert(q.drop_last().to_set().insert(q.last()) =~= q.to_set());
                assert(keys@.subrange(0, at + 1).to_set() =~= pre.insert(k));
                lemma_wf_props(self.arena@, self.root_idx, self.fuel());
                lemma_wf_props(out.arena@, out.root_idx, out.fuel());
                vstd::set_lib::lemma_len_subset(out@.dom(), old(self)@.dom());
                vstd::set_lib::lemma_len_subset(self@.dom(), old(self)@.dom());
            }
            match self.remove_entry(&k) {
                Some(kv) => {
                    proof {
                        assert(!out@.dom().contains(kv.0));
                        vstd::set_lib::lemma_len_subset(
                            out@.dom().insert(kv.0),
                            old(self)@.dom(),
                        );
                    }
                    out.insert(kv.0, kv.1);
                },
                None => {},
            }
            at = at + 1;
            proof {
                assert(self@ =~= old(self)@.remove_keys(keys@.subrange(0, at as int).to_set()));
                assert(out@ =~= old(self)@.restrict(keys@.subrange(0, at as int).to_set()));
            }
        }
        proof {
            assert(keys@.subrange(0, keys@.len() as int) =~= keys@);
        }
        out
    }

    /// Splits the tree in two at the given key: returns a new tree holding
    /// every entry whose key is greater than or equal to `key`, removing
    /// those entries from `self`.
    pub fn split_off(&mut self, key: &u64) -> (r: Self)
        requires
            old(self).wf(),
        ensures
            final(self).wf(),
            r.wf(),
            final(self)@ == old(self)@.restrict(Set::new(|k: u64| k < *key)),
            r@ == old(self)@.restrict(Set::new(|k: u64| k >= *key)),
    {
        let entries = self.iter();
        let mut split_keys: Vec<u64> = Vec::new();
        let mut at: usize = 0;
        #[verifier::loop_isolation(false)]
        while at < entries.len()
            invariant
                at <= entries@.len(),
                forall|t: int|
                    0 <= t < split_keys@.len() ==> self@.dom().contains(#[trigger] split_keys@[t])
                        && split_keys@[t] >= *key,
                forall|t: int|
                    0 <= t < at && entries@[t].0 >= *key ==> split_keys@.contains(
                        #[trigger] entries@[t].0,
                    ),
            decreases entries@.len() - at,
        {
            let e = entries[at];
            let ghost pre = split_keys@;
            if e.0 >= *key {
                split_keys.push(e.0);
            }
            proof {
                assert forall|t: int|
                    0 <= t < at + 1 && entries@[t].0 >= *key implies split_keys@.contains(
                    #[trigger] entries@[t].0,
                ) by {
                    if t < at {
                        let i = choose|i: int| 0 <= i < pre.len() && pre[i] == entries@[t].0;
                        assert(split_keys@[i] == entries@[t].0);
                    } else {
                        assert(split_keys@[split_keys@.len() - 1] == entries@[t].0);
                    }
                }
            }
            at = at + 1;
        }
        let ghost ks = split_keys@.to_set();
        proof {
            assert forall|k2: u64| old(self)@.dom().contains(k2) && k2 >= *key implies ks.contains(
                k2,
            ) by {
                let t = choose|t: int| 0 <= t < entries@.len() && entries@[t].0 == k2;
                assert(split_keys@.contains(k2));
            }
            assert forall|k2: u64| #[trigger] ks.contains(k2) implies old(self)@.dom().contains(k2)
                && k2 >= *key by {
                let t = choose|t: int| 0 <= t < split_keys@.len() && split_keys@[t] == k2;
            }
        }
        let drained = self.priv_drain_filter(&split_keys);
        proof {
            assert(self@ =~= old(self)@.restrict(Set::new(|k: u64| k < *key)));
            assert(drained@ =~= old(self)@.restrict(Set::new(|k: u64| k >= *key)));
        }
        drained
    }

    /// Retains only the elements for which the predicate returns `true`,
    /// dropping all others.
    pub fn retain<F: Fn(&u64, &V) -> bool>(&mut self, f: F)
        requires
            old(self).wf(),
            forall|k: u64, v: V| #[trigger] f.requires((&k, &v)),
        ensures
            final(self).wf(),
            forall|k: u64| #[trigger]
                final(self)@.dom().contains(k) ==> old(self)@.dom().contains(k) && final(self)@[k]
                    == old(self)@[k] && f.ensures((&k, &old(self)@[k]), true),
            forall|k: u64|
                old(self)@.dom().contains(k) && !(#[trigger] final(self)@.dom().contains(k))
                    ==> f.ensures((&k, &old(self)@[k]), false),
    {
        let entries = self.iter();
        let mut drop_keys: Vec<u64> = Vec::new();
        let mut at: usize = 0;
        #[verifier::loop_isolation(false)]
        while at < entries.len()
            invariant
                at <= entries@.len(),
                forall|t: int|
                    0 <= t < drop_keys@.len() ==> self@.dom().contains(#[trigger] drop_keys@[t])
                        && f.ensures(
                        (&drop_keys@[t], &self@[drop_keys@[t]]),
                        false,
                    ),
                forall|t: int|
                    0 <= t < at && !drop_keys@.contains(#[trigger] entries@[t].0) ==> f.ensures(
                        (&entries@[t].0, &self@[entries@[t].0]),
                        true,
                    ),
            decreases entries@.len() - at,
        {
            let e = entries[at];
            let ghost pre = drop_keys@;
            let keep = f(&e.0, e.1);
            if !keep {
                drop_keys.push(e.0);
            }
            proof {
                assert forall|t: int|
                    0 <= t < at + 1 && !drop_keys@.contains(#[trigger] entries@[t].0) implies f
                    .ensures((&entries@[t].0, &self@[entries@[t].0]), true) by {
                    if t < at {
                        assert forall|i: int| 0 <= i < pre.len() implies drop_keys@.contains(
                            #[trigger] pre[i],
                        ) by {
                            assert(drop_keys@[i] == pre[i]);
                        }
                        assert(!pre.contains(entries@[t].0));
                    } else {
                        if !keep {
                            assert(drop_keys@[drop_keys@.len() - 1] == entries@[at as int].0);
                            assert(drop_keys@.contains(entries@[t].0));
                        }
                        assert(keep);
                    }
                }
                assert forall|t: int|
                    0 <= t < drop_keys@.len() implies self@.dom().contains(
                    #[trigger] drop_keys@[t],
                ) && f.ensures((&drop_keys@[t], &self@[drop_keys@[t]]), false) by {
                    if t < pre.len() {
                        assert(drop_keys@[t] == pre[t]);
                    } else {
                        assert(drop_keys@[t] == entries@[at as int].0);
                    }
                }
            }
            at = at + 1;
        }
        let ghost ks = drop_keys@.to_set();
        proof {
            assert forall|k2: u64| #[trigger] ks.contains(k2) implies old(self)@.dom().contains(k2)
                && f.ensures((&k2, &old(self)@[k2]), false) by {
                let t = choose|t: int| 0 <= t < drop_keys@.len() && drop_keys@[t] == k2;
            }
            assert forall|k2: u64|
                old(self)@.dom().contains(k2) && !ks.contains(k2) implies f.ensures(
                (&k2, &old(self)@[k2]),
                true,
            ) by {
                let t = choose|t: int| 0 <= t < entries@.len() && entries@[t].0 == k2;
                assert(!drop_keys@.contains(entries@[t].0));
            }
        }
        let _ = self.priv_drain_filter(&drop_keys);
    }

    /// Clears the tree, removing all elements and resetting the balance
    /// parameter to its default; the rebalance counter is preserved.
    pub fn clear(&mut self)
        requires
            old(self).wf(),
        ensures
            final(self).wf(),
            final(self)@ == Map::<u64, V>::empty(),
            final(self).spec_rebal_cnt() == old(self).spec_rebal_cnt(),
            final(self).spec_alpha() == (2u64, 3u64),
            final(self).spec_max_size() == 0,
    {
        let rebal_cnt = self.rebal_cnt;
        *self = Self::new();
        self.rebal_cnt = rebal_cnt;
    }
}

} // verus!
