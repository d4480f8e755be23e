//! The mathematical model of the arena-stored tree.
//!
//! A tree lives in a sequence of slots; a subtree is named by an optional
//! slot index. The spec functions below unfold such a subtree into a
//! `Map<u64, V>` (its contents), a `Set<usize>` (the slots it occupies), a
//! size and a height. The unfolding is fuel-bounded so that it is well
//! defined even on arbitrary slot graphs; a well-formed subtree unfolds the
//! same way under any sufficient fuel (`lemma_fuel_mono`).

use vstd::prelude::*;

use crate::node::Node;

verus! {

/// The key-value map held by the subtree rooted at `oi`.
pub open spec fn sub_map<V>(s: Seq<Option<Node<V>>>, oi: Option<usize>, fuel: nat) -> Map<u64, V>
    decreases fuel,
{
    if fuel == 0 {
        Map::empty()
    } else {
        match oi {
            None => Map::empty(),
            Some(i) => match s[i as int] {
                None => Map::empty(),
                Some(n) => sub_map(s, n.left, (fuel - 1) as nat).union_prefer_right(
                    sub_map(s, n.right, (fuel - 1) as nat),
                ).insert(n.key, n.val),
            },
        }
    }
}

/// The set of slot indices occupied by the subtree rooted at `oi`.
pub open spec fn sub_idxs<V>(s: Seq<Option<Node<V>>>, oi: Option<usize>, fuel: nat) -> Set<usize>
    decreases fuel,
{
    if fuel == 0 {
        Set::empty()
    } else {
        match oi {
            None => Set::empty(),
            Some(i) => match s[i as int] {
                None => Set::empty(),
                Some(n) => sub_idxs(s, n.left, (fuel - 1) as nat).union(
                    sub_idxs(s, n.right, (fuel - 1) as nat),
                ).insert(i),
            },
        }
    }
}

/// The number of nodes in the subtree rooted at `oi`.
pub open spec fn sub_size<V>(s: Seq<Option<Node<V>>>, oi: Option<usize>, fuel: nat) -> nat
    decreases fuel,
{
    if fuel == 0 {
        0
    } else {
        match oi {
            None => 0,
            Some(i) => match s[i as int] {
                None => 0,
                Some(n) => 1 + sub_size(s, n.left, (fuel - 1) as nat) + sub_size(
                    s,
                    n.right,
                    (fuel - 1) as nat,
                ),
            },
        }
    }
}

/// The height (number of nodes on the longest root-to-leaf path) of the
/// subtree rooted at `oi`.
pub open spec fn sub_height<V>(s: Seq<Option<Node<V>>>, oi: Option<usize>, fuel: nat) -> nat
    decreases fuel,
{
    if fuel == 0 {
        0
    } else {
        match oi {
            None => 0,
            Some(i) => match s[i as int] {
                None => 0,
                Some(n) => {
                    let hl = sub_height(s, n.left, (fuel - 1) as nat);
                    let hr = sub_height(s, n.right, (fuel - 1) as nat);
                    1 + if hl >= hr {
                        hl
                    } else {
                        hr
                    }
                },
            },
        }
    }
}

/// Well-formedness of the subtree rooted at `oi`: every node sits in an
/// occupied, in-bounds slot, the unfolding terminates within `fuel`, and the
/// strict binary-search ordering holds at every node.
pub open spec fn sub_wf<V>(s: Seq<Option<Node<V>>>, oi: Option<usize>, fuel: nat) -> bool
    decreases fuel,
{
    match oi {
        None => true,
        Some(i) => fuel > 0 && i < s.len() && match s[i as int] {
            None => false,
            Some(n) => {
                &&& sub_wf(s, n.left, (fuel - 1) as nat)
                &&& sub_wf(s, n.right, (fuel - 1) as nat)
                &&& (forall|k: u64| #[trigger]
                    sub_map(s, n.left, (fuel - 1) as nat).dom().contains(k) ==> k < n.key)
                &&& (forall|k: u64| #[trigger]
                    sub_map(s, n.right, (fuel - 1) as nat).dom().contains(k) ==> k > n.key)
            },
        },
    }
}

/// `k` is the least key of `m`.
pub open spec fn is_min_key<V>(m: Map<u64, V>, k: u64) -> bool {
    &&& m.dom().contains(k)
    &&& forall|k2: u64| m.dom().contains(k2) ==> k <= k2
}

/// `k` is the greatest key of `m`.
pub open spec fn is_max_key<V>(m: Map<u64, V>, k: u64) -> bool {
    &&& m.dom().contains(k)
    &&& forall|k2: u64| m.dom().contains(k2) ==> k >= k2
}

/// A well-formed subtree unfolds identically under any fuel at least as
/// large as one that suffices.
pub proof fn lemma_fuel_mono<V>(s: Seq<Option<Node<V>>>, oi: Option<usize>, f1: nat, f2: nat)
    requires
        sub_wf(s, oi, f1),
        f1 <= f2,
    ensures
        sub_wf(s, oi, f2),
        sub_map(s, oi, f2) == sub_map(s, oi, f1),
        sub_idxs(s, oi, f2) == sub_idxs(s, oi, f1),
        sub_size(s, oi, f2) == sub_size(s, oi, f1),
        sub_height(s, oi, f2) == sub_height(s, oi, f1),
    decreases f1,
{
    match oi {
        None => {},
        Some(i) => {
            let n = s[i as int].unwrap();
            lemma_fuel_mono(s, n.left, (f1 - 1) as nat, (f2 - 1) as nat);
            lemma_fuel_mono(s, n.right, (f1 - 1) as nat, (f2 - 1) as nat);
        },
    }
}

/// Slots outside a well-formed subtree do not affect its unfolding: if a
/// second slot sequence agrees with the first on every slot of the subtree,
/// the subtree unfolds identically there.
pub proof fn lemma_frame<V>(
    s1: Seq<Option<Node<V>>>,
    s2: Seq<Option<Node<V>>>,
    oi: Option<usize>,
    fuel: nat,
)
    requires
        sub_wf(s1, oi, fuel),
        forall|i: usize| #[trigger]
            sub_idxs(s1, oi, fuel).contains(i) ==> i < s2.len() && s2[i as int] == s1[i as int],
    ensures
        sub_wf(s2, oi, fuel),
        sub_map(s2, oi, fuel) == sub_map(s1, oi, fuel),
        sub_idxs(s2, oi, fuel) == sub_idxs(s1, oi, fuel),
        sub_size(s2, oi, fuel) == sub_size(s1, oi, fuel),
        sub_height(s2, oi, fuel) == sub_height(s1, oi, fuel),
    decreases fuel,
{
    match oi {
        None => {},
        Some(i) => {
            let n = s1[i as int].unwrap();
            let fl = (fuel - 1) as nat;
            assert(sub_idxs(s1, oi, fuel) == sub_idxs(s1, n.left, fl).union(
                sub_idxs(s1, n.right, fl),
            ).insert(i));
            assert(sub_idxs(s1, oi, fuel).contains(i));
            assert forall|j: usize| #[trigger] sub_idxs(s1, n.left, fl).contains(j) implies j < s2.len()
                && s2[j as int] == s1[j as int] by {
                assert(sub_idxs(s1, oi, fuel).contains(j));
            }
            assert forall|j: usize| #[trigger] sub_idxs(s1, n.right, fl).contains(j) implies j < s2.len()
                && s2[j as int] == s1[j as int] by {
                assert(sub_idxs(s1, oi, fuel).contains(j));
            }
            lemma_frame(s1, s2, n.left, fl);
            lemma_frame(s1, s2, n.right, fl);
        },
    }
}

/// A parent-child slot link: `c` is one of `p`'s children.
pub open spec fn child_link<V>(s: Seq<Option<Node<V>>>, p: usize, c: usize) -> bool {
    &&& p < s.len()
    &&& s[p as int] is Some
    &&& (s[p as int].unwrap().left == Some(c) || s[p as int].unwrap().right == Some(c))
}

/// Unfolds one well-formed node with every part stated at the node's own
/// fuel, so that callers need not reason about decreasing fuel.
pub proof fn lemma_node_unfold<V>(s: Seq<Option<Node<V>>>, i: usize, fuel: nat)
    requires
        sub_wf(s, Some(i), fuel),
    ensures
        ({
            let n = s[i as int].unwrap();
            &&& sub_wf(s, n.left, fuel)
            &&& sub_wf(s, n.right, fuel)
            &&& sub_map(s, Some(i), fuel) == sub_map(s, n.left, fuel).union_prefer_right(
                sub_map(s, n.right, fuel),
            ).insert(n.key, n.val)
            &&& sub_idxs(s, Some(i), fuel) == sub_idxs(s, n.left, fuel).union(
                sub_idxs(s, n.right, fuel),
            ).insert(i)
            &&& sub_size(s, Some(i), fuel) == 1 + sub_size(s, n.left, fuel) + sub_size(
                s,
                n.right,
                fuel,
            )
            &&& (forall|k: u64| #[trigger]
                sub_map(s, n.left, fuel).dom().contains(k) ==> k < n.key)
            &&& (forall|k: u64| #[trigger]
                sub_map(s, n.right, fuel).dom().contains(k) ==> k > n.key)
            &&& !sub_map(s, n.left, fuel).dom().contains(n.key)
            &&& !sub_map(s, n.right, fuel).dom().contains(n.key)
            &&& !sub_idxs(s, n.left, fuel).contains(i)
            &&& !sub_idxs(s, n.right, fuel).contains(i)
            &&& sub_idxs(s, n.left, fuel).disjoint(sub_idxs(s, n.right, fuel))
            &&& sub_map(s, n.left, fuel).dom().disjoint(sub_map(s, n.right, fuel).dom())
        }),
    decreases fuel,
{
    let n = s[i as int].unwrap();
    let fl = (fuel - 1) as nat;
    lemma_fuel_mono(s, n.left, fl, fuel);
    lemma_fuel_mono(s, n.right, fl, fuel);
    lemma_wf_props(s, n.left, fuel);
    lemma_wf_props(s, n.right, fuel);
    assert forall|j: usize| #[trigger] sub_idxs(s, n.left, fuel).contains(j) implies j != i
        && !sub_idxs(s, n.right, fuel).contains(j) by {
        assert(sub_map(s, n.left, fuel).dom().contains(s[j as int].unwrap().key));
        if j == i {
            assert(sub_map(s, n.left, fuel).dom().contains(n.key));
        }
        if sub_idxs(s, n.right, fuel).contains(j) {
            assert(sub_map(s, n.right, fuel).dom().contains(s[j as int].unwrap().key));
        }
    }
    assert forall|j: usize| #[trigger] sub_idxs(s, n.right, fuel).contains(j) implies j != i by {
        assert(sub_map(s, n.right, fuel).dom().contains(s[j as int].unwrap().key));
        if j == i {
            assert(sub_map(s, n.right, fuel).dom().contains(n.key));
        }
    }
}

/// The structural facts that hold of every well-formed subtree: its map and
/// index set are finite and of equal cardinality `sub_size`; every occupied
/// slot of the subtree contributes exactly its own pair to the map; keys are
/// distinct across slots; child links stay inside the subtree; and every key
/// of the map is held by some slot of the subtree.
pub proof fn lemma_wf_props<V>(s: Seq<Option<Node<V>>>, oi: Option<usize>, fuel: nat)
    requires
        sub_wf(s, oi, fuel),
    ensures
        sub_map(s, oi, fuel).dom().finite(),
        sub_idxs(s, oi, fuel).finite(),
        sub_map(s, oi, fuel).dom().len() == sub_size(s, oi, fuel),
        sub_idxs(s, oi, fuel).len() == sub_size(s, oi, fuel),
        oi is None ==> sub_size(s, oi, fuel) == 0,
        oi is Some ==> sub_size(s, oi, fuel) > 0 && sub_idxs(s, oi, fuel).contains(oi.unwrap())
            && s[oi.unwrap() as int] is Some && sub_map(s, oi, fuel).dom().contains(
            s[oi.unwrap() as int].unwrap().key,
        ),
        forall|i: usize| #[trigger]
            sub_idxs(s, oi, fuel).contains(i) ==> i < s.len() && s[i as int] is Some
                && sub_map(s, oi, fuel).dom().contains(s[i as int].unwrap().key) && sub_map(
                s,
                oi,
                fuel,
            )[s[i as int].unwrap().key] == s[i as int].unwrap().val && (
            s[i as int].unwrap().left is Some ==> sub_idxs(s, oi, fuel).contains(
                s[i as int].unwrap().left.unwrap(),
            )) && (s[i as int].unwrap().right is Some ==> sub_idxs(s, oi, fuel).contains(
                s[i as int].unwrap().right.unwrap(),
            )),
        forall|i: usize, j: usize|
            sub_idxs(s, oi, fuel).contains(i) && sub_idxs(s, oi, fuel).contains(j) && i != j
                ==> s[i as int].unwrap().key != s[j as int].unwrap().key,
        forall|k: u64| #[trigger]
            sub_map(s, oi, fuel).dom().contains(k) ==> exists|i: usize|
                sub_idxs(s, oi, fuel).contains(i) && s[i as int].unwrap().key == k
                    && s[i as int].unwrap().val == sub_map(s, oi, fuel)[k],
    decreases fuel,
{
    match oi {
        None => {},
        Some(i) => {
            let n = s[i as int].unwrap();
            let fl = (fuel - 1) as nat;
            lemma_wf_props(s, n.left, fl);
            lemma_wf_props(s, n.right, fl);
            let ml = sub_map(s, n.left, fl);
            let mr = sub_map(s, n.right, fl);
            let il = sub_idxs(s, n.left, fl);
            let ir = sub_idxs(s, n.right, fl);
            // Left and right maps have disjoint domains (keys below vs. above n.key),
            // and neither contains n.key.
            assert(ml.dom().disjoint(mr.dom()));
            vstd::set_lib::lemma_set_disjoint_lens(ml.dom(), mr.dom());
            assert(ml.union_prefer_right(mr).dom() =~= ml.dom().union(mr.dom()));
            assert(sub_map(s, oi, fuel).dom() =~= ml.dom().union(mr.dom()).insert(n.key));
            // The index sets of the children are disjoint, and do not contain i:
            // a shared slot would contribute the same key to both maps.
            assert forall|j: usize| il.contains(j) implies !ir.contains(j) && j != i by {
                if ir.contains(j) {
                    assert(ml.dom().contains(s[j as int].unwrap().key));
                    assert(mr.dom().contains(s[j as int].unwrap().key));
                }
                if j == i {
                    assert(ml.dom().contains(n.key));
                }
            }
            assert forall|j: usize| ir.contains(j) implies j != i by {
                if j == i {
                    assert(mr.dom().contains(n.key));
                }
            }
            assert(il.disjoint(ir));
            vstd::set_lib::lemma_set_disjoint_lens(il, ir);
            assert(il.union(ir).len() == il.len() + ir.len());
            assert(sub_idxs(s, oi, fuel) =~= il.union(ir).insert(i));
            assert(il.union(ir).insert(i).len() == il.len() + ir.len() + 1) by {
                assert(!il.union(ir).contains(i));
            }
            // Every key of the whole map is held by some slot of the subtree.
            assert forall|k: u64| #[trigger]
                sub_map(s, oi, fuel).dom().contains(k) implies exists|j: usize|
                sub_idxs(s, oi, fuel).contains(j) && s[j as int].unwrap().key == k
                    && s[j as int].unwrap().val == sub_map(s, oi, fuel)[k] by {
                if k == n.key {
                    assert(sub_idxs(s, oi, fuel).contains(i) && s[i as int].unwrap().key == k
                        && s[i as int].unwrap().val == sub_map(s, oi, fuel)[k]);
                } else if ml.dom().contains(k) {
                    let j = choose|j: usize|
                        il.contains(j) && s[j as int].unwrap().key == k
                            && s[j as int].unwrap().val == ml[k];
                    assert(sub_idxs(s, oi, fuel).contains(j) && s[j as int].unwrap().key == k
                        && s[j as int].unwrap().val == sub_map(s, oi, fuel)[k]);
                } else {
                    let j = choose|j: usize|
                        ir.contains(j) && s[j as int].unwrap().key == k
                            && s[j as int].unwrap().val == mr[k];
                    assert(sub_idxs(s, oi, fuel).contains(j) && s[j as int].unwrap().key == k
                        && s[j as int].unwrap().val == sub_map(s, oi, fuel)[k]);
                }
            }
        },
    }
}

/// A finite set of slot indices all below `bound` has at most `bound`
/// elements.
pub proof fn lemma_idxs_le_len(idxs: Set<usize>, bound: nat)
    requires
        idxs.finite(),
        forall|u: usize| #[trigger] idxs.contains(u) ==> (u as nat) < bound,
    ensures
        idxs.len() <= bound,
{
    let f = |u: usize| u as int;
    let y = idxs.map(f);
    assert(vstd::relations::injective_on(f, idxs));
    vstd::set_lib::lemma_map_size(idxs, y, f);
    assert forall|t: int| #[trigger] y.contains(t) implies vstd::set_lib::set_int_range(
        0,
        bound as int,
    ).contains(t) by {
        let u = choose|u: usize| idxs.contains(u) && f(u) == t;
        assert(idxs.contains(u));
    }
    vstd::set_lib::lemma_int_range(0, bound as int);
    vstd::set_lib::lemma_len_subset(y, vstd::set_lib::set_int_range(0, bound as int));
}

/// A well-formed subtree never has more nodes than its arena has slots.
pub proof fn lemma_size_le_len<V>(s: Seq<Option<Node<V>>>, oi: Option<usize>, fuel: nat)
    requires
        sub_wf(s, oi, fuel),
    ensures
        sub_size(s, oi, fuel) <= s.len(),
{
    lemma_wf_props(s, oi, fuel);
    lemma_idxs_le_len(sub_idxs(s, oi, fuel), s.len());
}

/// Any fuel at least as large as the subtree's size suffices to unfold it.
pub proof fn lemma_fuel_any<V>(s: Seq<Option<Node<V>>>, oi: Option<usize>, f: nat, g: nat)
    requires
        sub_wf(s, oi, f),
        g >= sub_size(s, oi, f),
    ensures
        sub_wf(s, oi, g),
        sub_map(s, oi, g) == sub_map(s, oi, f),
        sub_idxs(s, oi, g) == sub_idxs(s, oi, f),
        sub_size(s, oi, g) == sub_size(s, oi, f),
        sub_height(s, oi, g) == sub_height(s, oi, f),
    decreases f,
{
    match oi {
        None => {},
        Some(i) => {
            let n = s[i as int].unwrap();
            let fl = (f - 1) as nat;
            lemma_fuel_any(s, n.left, fl, (g - 1) as nat);
            lemma_fuel_any(s, n.right, fl, (g - 1) as nat);
        },
    }
}

/// Assembles well-formedness of a node from that of its children, with every
/// part stated at one common fuel. The fuel must cover the assembled size.
pub proof fn lemma_node_compose<V>(s: Seq<Option<Node<V>>>, i: usize, fuel: nat)
    requires
        i < s.len(),
        s[i as int] is Some,
        sub_wf(s, s[i as int].unwrap().left, fuel),
        sub_wf(s, s[i as int].unwrap().right, fuel),
        forall|k: u64| #[trigger]
            sub_map(s, s[i as int].unwrap().left, fuel).dom().contains(k)
                ==> k < s[i as int].unwrap().key,
        forall|k: u64| #[trigger]
            sub_map(s, s[i as int].unwrap().right, fuel).dom().contains(k)
                ==> k > s[i as int].unwrap().key,
        fuel >= 1 + sub_size(s, s[i as int].unwrap().left, fuel) + sub_size(
            s,
            s[i as int].unwrap().right,
            fuel,
        ),
    ensures
        sub_wf(s, Some(i), fuel),
        sub_map(s, Some(i), fuel) == sub_map(s, s[i as int].unwrap().left, fuel)
            .union_prefer_right(sub_map(s, s[i as int].unwrap().right, fuel)).insert(
            s[i as int].unwrap().key,
            s[i as int].unwrap().val,
        ),
        sub_idxs(s, Some(i), fuel) == sub_idxs(s, s[i as int].unwrap().left, fuel).union(
            sub_idxs(s, s[i as int].unwrap().right, fuel),
        ).insert(i),
        sub_size(s, Some(i), fuel) == 1 + sub_size(s, s[i as int].unwrap().left, fuel)
            + sub_size(s, s[i as int].unwrap().right, fuel),
{
    let n = s[i as int].unwrap();
    let fl = (fuel - 1) as nat;
    lemma_fuel_any(s, n.left, fuel, fl);
    lemma_fuel_any(s, n.right, fuel, fl);
}

/// Every slot of a well-formed subtree roots a well-formed subtree of its
/// own, whose unfolding is contained in the larger one.
pub proof fn lemma_subtree_at<V>(s: Seq<Option<Node<V>>>, oi: Option<usize>, fuel: nat, j: usize)
    requires
        sub_wf(s, oi, fuel),
        sub_idxs(s, oi, fuel).contains(j),
    ensures
        sub_wf(s, Some(j), fuel),
        sub_idxs(s, Some(j), fuel).subset_of(sub_idxs(s, oi, fuel)),
        sub_map(s, Some(j), fuel).dom().subset_of(sub_map(s, oi, fuel).dom()),
        sub_size(s, Some(j), fuel) <= sub_size(s, oi, fuel),
    decreases fuel,
{
    let i = oi.unwrap();
    let n = s[i as int].unwrap();
    let fl = (fuel - 1) as nat;
    lemma_node_unfold(s, i, fuel);
    if j == i {
    } else if sub_idxs(s, n.left, fuel).contains(j) {
        lemma_fuel_mono(s, n.left, fl, fuel);
        lemma_subtree_at(s, n.left, fl, j);
        lemma_fuel_mono(s, Some(j), fl, fuel);
        assert forall|k: u64| #[trigger]
            sub_map(s, Some(j), fuel).dom().contains(k) implies sub_map(s, oi, fuel).dom().contains(
            k,
        ) by {
            assert(sub_map(s, n.left, fl).dom().contains(k));
        }
    } else {
        lemma_fuel_mono(s, n.right, fl, fuel);
        lemma_subtree_at(s, n.right, fl, j);
        lemma_fuel_mono(s, Some(j), fl, fuel);
        assert forall|k: u64| #[trigger]
            sub_map(s, Some(j), fuel).dom().contains(k) implies sub_map(s, oi, fuel).dom().contains(
            k,
        ) by {
            assert(sub_map(s, n.right, fl).dom().contains(k));
        }
    }
}

/// What an optional child link becomes when the subtree rooted at `r` is
/// replaced by one rooted at `or2`.
pub open spec fn redirect_link(x: Option<usize>, r: usize, or2: Option<usize>) -> Option<usize> {
    if x == Some(r) {
        or2
    } else {
        x
    }
}

/// Replacing the subtree hanging off one child link: if `p`'s link to `r` is
/// redirected to a well-formed replacement subtree whose keys and slots come
/// from the replaced subtree, and no slot outside the replaced subtree other
/// than `p` changes, then the enclosing tree stays well formed, loses exactly
/// the replaced keys and slots, and gains the replacement's.
pub proof fn lemma_replace_child<V>(
    s1: Seq<Option<Node<V>>>,
    s2: Seq<Option<Node<V>>>,
    oi: Option<usize>,
    f: nat,
    p: usize,
    r: usize,
    or2: Option<usize>,
    g: nat,
)
    requires
        sub_wf(s1, oi, f),
        sub_idxs(s1, oi, f).contains(p),
        s1[p as int].unwrap().left == Some(r) || s1[p as int].unwrap().right == Some(r),
        s2.len() == s1.len(),
        s2[p as int] == Some(
            Node {
                left: redirect_link(s1[p as int].unwrap().left, r, or2),
                right: redirect_link(s1[p as int].unwrap().right, r, or2),
                ..s1[p as int].unwrap()
            },
        ),
        1 <= g,
        sub_wf(s2, or2, g),
        sub_map(s2, or2, g).dom().subset_of(sub_map(s1, Some(r), f).dom()),
        sub_idxs(s2, or2, g).subset_of(sub_idxs(s1, Some(r), f)),
        forall|t: usize|
            t < s1.len() && t != p && !(#[trigger] sub_idxs(s1, Some(r), f).contains(t))
                ==> s2[t as int] == s1[t as int],
    ensures
        sub_wf(s2, oi, f + g),
        sub_map(s2, oi, f + g) == sub_map(s1, oi, f).remove_keys(
            sub_map(s1, Some(r), f).dom(),
        ).union_prefer_right(sub_map(s2, or2, g)),
        sub_idxs(s2, oi, f + g) == sub_idxs(s1, oi, f).difference(
            sub_idxs(s1, Some(r), f),
        ).union(sub_idxs(s2, or2, g)),
    decreases f,
{
    let i = oi.unwrap();
    let n1 = s1[i as int].unwrap();
    let np = s1[p as int].unwrap();
    let fl = (f - 1) as nat;
    let fg = (f + g - 1) as nat;
    lemma_node_unfold(s1, i, f);
    lemma_wf_props(s1, Some(i), f);
    lemma_subtree_at(s1, oi, f, p);
    lemma_node_unfold(s1, p, f);
    lemma_wf_props(s1, Some(p), f);
    let ml = sub_map(s1, n1.left, f);
    let mr = sub_map(s1, n1.right, f);
    let il = sub_idxs(s1, n1.left, f);
    let ir = sub_idxs(s1, n1.right, f);
    // the replaced subtree sits below `p`
    assert(sub_wf(s1, Some(r), f));
    lemma_wf_props(s1, Some(r), f);
    assert(sub_idxs(s1, Some(p), f).contains(r));
    lemma_subtree_at(s1, Some(p), f, r);
    let d = sub_idxs(s1, Some(r), f);
    let dk = sub_map(s1, Some(r), f).dom();
    let m2 = sub_map(s2, or2, g);
    let i2 = sub_idxs(s2, or2, g);
    if p == i {
        // `r` hangs directly off this node; exactly one side links to it
        lemma_fuel_mono(s2, or2, g, fg);
        if n1.left == Some(r) {
            assert(il.contains(r));
            assert(!ir.contains(r));
            assert(n1.right != Some(r));
            lemma_fuel_mono(s1, Some(r), fl, f);
            assert(d == il && dk == ml.dom());
            // the right subtree is untouched
            assert forall|t: usize| #[trigger] ir.contains(t) implies t < s2.len() && s2[t as int]
                == s1[t as int] by {
                assert(sub_idxs(s1, oi, f).contains(t));
                assert(t != p);
                assert(!sub_idxs(s1, Some(r), f).contains(t));
            }
            lemma_frame(s1, s2, n1.right, f);
            lemma_fuel_mono(s2, n1.right, f, fg);
            assert forall|k2: u64| #[trigger] sub_map(s2, or2, fg).dom().contains(k2) implies k2
                < n1.key by {
                assert(ml.dom().contains(k2));
            }
            assert(sub_wf(s2, oi, f + g));
            lemma_node_unfold(s2, i, f + g);
            assert(sub_map(s2, oi, f + g) =~= sub_map(s1, oi, f).remove_keys(
                dk,
            ).union_prefer_right(m2));
            assert(sub_idxs(s2, oi, f + g) =~= sub_idxs(s1, oi, f).difference(d).union(i2));
        } else {
            assert(ir.contains(r));
            assert(!il.contains(r));
            assert(n1.left != Some(r));
            lemma_fuel_mono(s1, Some(r), fl, f);
            assert(d == ir && dk == mr.dom());
            assert forall|t: usize| #[trigger] il.contains(t) implies t < s2.len() && s2[t as int]
                == s1[t as int] by {
                assert(sub_idxs(s1, oi, f).contains(t));
                assert(t != p);
                assert(!sub_idxs(s1, Some(r), f).contains(t));
            }
            lemma_frame(s1, s2, n1.left, f);
            lemma_fuel_mono(s2, n1.left, f, fg);
            assert forall|k2: u64| #[trigger] sub_map(s2, or2, fg).dom().contains(k2) implies k2
                > n1.key by {
                assert(mr.dom().contains(k2));
            }
            assert(sub_wf(s2, oi, f + g));
            lemma_node_unfold(s2, i, f + g);
            assert(sub_map(s2, oi, f + g) =~= sub_map(s1, oi, f).remove_keys(
                dk,
            ).union_prefer_right(m2));
            assert(sub_idxs(s2, oi, f + g) =~= sub_idxs(s1, oi, f).difference(d).union(i2));
        }
    } else {
        // `i`'s own slot is outside the replaced subtree
        assert(sub_idxs(s1, Some(p), f).contains(p));
        if il.contains(p) {
            let cl = n1.left;
            lemma_fuel_mono(s1, cl, fl, f);
            // the replaced subtree lies inside the left child's subtree
            lemma_subtree_at(s1, cl, fl, p);
            lemma_node_unfold(s1, p, fl);
            assert(sub_idxs(s1, Some(p), fl).contains(r));
            lemma_subtree_at(s1, Some(p), fl, r);
            lemma_fuel_mono(s1, Some(r), fl, f);
            assert(sub_idxs(s1, Some(r), fl) == d);
            assert(sub_map(s1, Some(r), fl) == sub_map(s1, Some(r), f));
            assert(d.subset_of(il));
            assert(!d.contains(i));
            assert(s2[i as int] == s1[i as int]);
            lemma_replace_child(s1, s2, cl, fl, p, r, or2, g);
            // the right subtree is untouched
            assert forall|t: usize| #[trigger] ir.contains(t) implies t < s2.len() && s2[t as int]
                == s1[t as int] by {
                assert(sub_idxs(s1, oi, f).contains(t));
                assert(t != p);
                assert(!sub_idxs(s1, Some(r), f).contains(t));
            }
            lemma_frame(s1, s2, n1.right, f);
            lemma_fuel_mono(s2, n1.right, f, fg);
            lemma_fuel_mono(s2, cl, (fl + g) as nat, fg);
            assert forall|k2: u64| #[trigger] sub_map(s2, cl, fg).dom().contains(k2) implies k2
                < n1.key by {
                if m2.dom().contains(k2) {
                    assert(dk.contains(k2));
                    assert(ml.dom().contains(k2));
                } else {
                    assert(ml.dom().contains(k2));
                }
            }
            assert(sub_wf(s2, oi, f + g));
            lemma_node_unfold(s2, i, f + g);
            assert forall|k2: u64| #[trigger] dk.contains(k2) implies ml.dom().contains(k2)
                && !mr.dom().contains(k2) && k2 != n1.key by {
                assert(ml.dom().contains(k2));
            }
            assert(sub_map(s2, oi, f + g) =~= sub_map(s1, oi, f).remove_keys(
                dk,
            ).union_prefer_right(m2));
            assert(sub_idxs(s2, oi, f + g) =~= sub_idxs(s1, oi, f).difference(d).union(i2));
        } else {
            let cr = n1.right;
            assert(ir.contains(p));
            lemma_fuel_mono(s1, cr, fl, f);
            lemma_subtree_at(s1, cr, fl, p);
            lemma_node_unfold(s1, p, fl);
            assert(sub_idxs(s1, Some(p), fl).contains(r));
            lemma_subtree_at(s1, Some(p), fl, r);
            lemma_fuel_mono(s1, Some(r), fl, f);
            assert(sub_idxs(s1, Some(r), fl) == d);
            assert(sub_map(s1, Some(r), fl) == sub_map(s1, Some(r), f));
            assert(d.subset_of(ir));
            assert(!d.contains(i));
            assert(s2[i as int] == s1[i as int]);
            lemma_replace_child(s1, s2, cr, fl, p, r, or2, g);
            assert forall|t: usize| #[trigger] il.contains(t) implies t < s2.len() && s2[t as int]
                == s1[t as int] by {
                assert(sub_idxs(s1, oi, f).contains(t));
                assert(t != p);
                assert(!sub_idxs(s1, Some(r), f).contains(t));
            }
            lemma_frame(s1, s2, n1.left, f);
            lemma_fuel_mono(s2, n1.left, f, fg);
            lemma_fuel_mono(s2, cr, (fl + g) as nat, fg);
            assert forall|k2: u64| #[trigger] sub_map(s2, cr, fg).dom().contains(k2) implies k2
                > n1.key by {
                if m2.dom().contains(k2) {
                    assert(dk.contains(k2));
                    assert(mr.dom().contains(k2));
                } else {
                    assert(mr.dom().contains(k2));
                }
            }
            assert(sub_wf(s2, oi, f + g));
            lemma_node_unfold(s2, i, f + g);
            assert forall|k2: u64| #[trigger] dk.contains(k2) implies mr.dom().contains(k2)
                && !ml.dom().contains(k2) && k2 != n1.key by {
                assert(mr.dom().contains(k2));
            }
            assert(sub_map(s2, oi, f + g) =~= sub_map(s1, oi, f).remove_keys(
                dk,
            ).union_prefer_right(m2));
            assert(sub_idxs(s2, oi, f + g) =~= sub_idxs(s1, oi, f).difference(d).union(i2));
        }
    }
}

/// A node is never part of the subtree rooted at its own child.
pub proof fn lemma_parent_outside<V>(
    s: Seq<Option<Node<V>>>,
    oi: Option<usize>,
    f: nat,
    p: usize,
    c: usize,
)
    requires
        sub_wf(s, oi, f),
        sub_idxs(s, oi, f).contains(p),
        s[p as int].unwrap().left == Some(c) || s[p as int].unwrap().right == Some(c),
    ensures
        sub_wf(s, Some(c), f),
        sub_idxs(s, oi, f).contains(c),
        !sub_idxs(s, Some(c), f).contains(p),
{
    lemma_wf_props(s, oi, f);
    lemma_subtree_at(s, oi, f, p);
    lemma_node_unfold(s, p, f);
    lemma_wf_props(s, Some(c), f);
    assert(sub_idxs(s, Some(p), f).contains(c));
    if sub_idxs(s, Some(c), f).contains(p) {
        lemma_subtree_at(s, Some(c), f, p);
        assert(sub_size(s, Some(p), f) <= sub_size(s, Some(c), f));
        assert(sub_size(s, Some(p), f) >= 1 + sub_size(s, Some(c), f));
    }
}

/// A subtree's height never exceeds its size.
pub proof fn lemma_height_le_size<V>(s: Seq<Option<Node<V>>>, oi: Option<usize>, fuel: nat)
    requires
        sub_wf(s, oi, fuel),
    ensures
        sub_height(s, oi, fuel) <= sub_size(s, oi, fuel),
    decreases fuel,
{
    match oi {
        None => {},
        Some(i) => {
            let n = s[i as int].unwrap();
            lemma_height_le_size(s, n.left, (fuel - 1) as nat);
            lemma_height_le_size(s, n.right, (fuel - 1) as nat);
        },
    }
}

/// The floor of the base-two logarithm, with the value zero below two.
pub open spec fn lg2(n: nat) -> nat
    decreases n,
{
    if n <= 1 {
        0
    } else {
        1 + lg2(n / 2)
    }
}

/// The floor of the base-two logarithm is monotone.
pub proof fn lemma_lg2_mono(a: nat, b: nat)
    requires
        a <= b,
    ensures
        lg2(a) <= lg2(b),
    decreases b,
{
    if a > 1 {
        lemma_lg2_mono(a / 2, b / 2);
    }
}

} // verus!
