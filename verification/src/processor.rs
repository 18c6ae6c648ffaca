//! Decisions of the order processing that do not depend on prices.
use std::collections::{HashMap, HashSet};
use vstd::prelude::*;

verus! {

broadcast use vstd::std_specs::hash::group_hash_axioms;

/// What becomes of the orders of one item type before the search: dropped
/// for having no buy or no sell orders, for an unknown item type, or for
/// an item too large for the cargo hold; or kept.
#[derive(Debug, Clone, Copy, PartialEq, Eq, Structural)]
pub enum GroupFate {
    Empty,
    UnknownType,
    TooLarge,
    Kept,
}

/// The fate of a group of orders (see `GroupFate`), checked in that order:
/// an empty side first, then the item type, then its size.
pub open spec fn fate_of(buy_len: nat, sell_len: nat, type_known: bool, fits_in_cargo: bool) -> GroupFate {
    if buy_len == 0 || sell_len == 0 {
        GroupFate::Empty
    } else if !type_known {
        GroupFate::UnknownType
    } else if !fits_in_cargo {
        GroupFate::TooLarge
    } else {
        GroupFate::Kept
    }
}

/// Decides the fate of a group with `buy_len` buy and `sell_len` sell
/// orders, whose item type is known or not and, when known, fits in the
/// cargo hold or not.
pub fn group_fate(buy_len: usize, sell_len: usize, type_known: bool, fits_in_cargo: bool) -> (f:
    GroupFate)
    ensures
        f == fate_of(buy_len as nat, sell_len as nat, type_known, fits_in_cargo),
{
    if buy_len == 0 || sell_len == 0 {
        GroupFate::Empty
    } else if !type_known {
        GroupFate::UnknownType
    } else if !fits_in_cargo {
        GroupFate::TooLarge
    } else {
        GroupFate::Kept
    }
}

/// The indices, ascending, of the orders (given by their systems) that are
/// placed in a known system.
pub open spec fn known_indices(order_systems: Seq<u32>, known: Set<u32>) -> Seq<usize>
    decreases order_systems.len(),
{
    if order_systems.len() == 0 {
        Seq::empty()
    } else {
        let prev = known_indices(order_systems.drop_last(), known);
        if known.contains(order_systems.last()) {
            prev.push((order_systems.len() - 1) as usize)
        } else {
            prev
        }
    }
}

/// The indices, in order, of the orders whose system (`order_systems[i]`)
/// is in `known`: the orders kept when those in unknown systems are
/// dropped.
pub fn orders_in_known_systems(order_systems: &Vec<u32>, known: &HashSet<u32>) -> (kept: Vec<usize>)
    ensures
        kept@ == known_indices(order_systems@, known@),
{
    let mut kept: Vec<usize> = Vec::new();
    let mut i: usize = 0;
    while i < order_systems.len()
        invariant
            i <= order_systems@.len(),
            kept@ == known_indices(order_systems@.subrange(0, i as int), known@),
        decreases order_systems@.len() - i,
    {
        proof {
            let post = order_systems@.subrange(0, i + 1);
            assert(post.drop_last() =~= order_systems@.subrange(0, i as int));
            assert(post.last() == order_systems@[i as int]);
        }
        if known.contains(&order_systems[i]) {
            kept.push(i);
        }
        i = i + 1;
    }
    assert(order_systems@.subrange(0, order_systems@.len() as int) =~= order_systems@);
    kept
}

/// The distinct values of `s` in the order they first appear.
pub open spec fn distinct_in_order(s: Seq<u32>) -> Seq<u32>
    decreases s.len(),
{
    if s.len() == 0 {
        Seq::empty()
    } else {
        let prev = distinct_in_order(s.drop_last());
        if s.drop_last().contains(s.last()) {
            prev
        } else {
            prev.push(s.last())
        }
    }
}

/// The indices, ascending, at which `x` occurs in `s`.
pub open spec fn indices_of(s: Seq<u32>, x: u32) -> Seq<usize>
    decreases s.len(),
{
    if s.len() == 0 {
        Seq::empty()
    } else {
        let prev = indices_of(s.drop_last(), x);
        if s.last() == x {
            prev.push((s.len() - 1) as usize)
        } else {
            prev
        }
    }
}

/// Groups trade pairs by the system they sell in (`sell_systems[i]` for
/// pair `i`): the distinct systems in order of first appearance, and for
/// each of them the indices of its pairs, ascending.
pub fn group_pairs_by_system(sell_systems: &Vec<u32>) -> (r: (Vec<u32>, HashMap<u32, Vec<usize>>))
    ensures
        r.0@ == distinct_in_order(sell_systems@),
        forall|x: u32| #[trigger] r.1@.contains_key(x) <==> sell_systems@.contains(x),
        forall|x: u32| #[trigger] r.1@.contains_key(x) ==> r.1@[x]@ == indices_of(sell_systems@, x),
{
    let mut systems: Vec<u32> = Vec::new();
    let mut pairs: HashMap<u32, Vec<usize>> = HashMap::new();
    let mut i: usize = 0;
    while i < sell_systems.len()
        invariant
            i <= sell_systems@.len(),
            systems@ == distinct_in_order(sell_systems@.subrange(0, i as int)),
            forall|x: u32| #[trigger]
                pairs@.contains_key(x) <==> sell_systems@.subrange(0, i as int).contains(x),
            forall|x: u32| #[trigger]
                pairs@.contains_key(x) ==> pairs@[x]@ == indices_of(
                    sell_systems@.subrange(0, i as int),
                    x,
                ),
            forall|x: u32|
                !(#[trigger] pairs@.contains_key(x)) ==> indices_of(
                    sell_systems@.subrange(0, i as int),
                    x,
                ) == Seq::<usize>::empty(),
        decreases sell_systems@.len() - i,
    {
        let x = sell_systems[i];
        let ghost pre = sell_systems@.subrange(0, i as int);
        let ghost post = sell_systems@.subrange(0, i + 1);
        proof {
            assert(post.drop_last() =~= pre);
            assert(post.last() == x);
        }
        let mut list = match pairs.remove(&x) {
            Some(list) => list,
            None => {
                systems.push(x);
                Vec::new()
            },
        };
        proof {
            assert(list@ =~= indices_of(pre, x));
        }
        list.push(i);
        pairs.insert(x, list);
        proof {
            assert forall|y: u32| #[trigger] pairs@.contains_key(y) <==> post.contains(y) by {
                if post.contains(y) && y != x {
                    let k = choose|k: int| 0 <= k < post.len() && post[k] == y;
                    assert(pre[k] == y);
                }
                if pre.contains(y) {
                    let k = choose|k: int| 0 <= k < pre.len() && pre[k] == y;
                    assert(post[k] == y);
                }
                assert(post[i as int] == x);
            }
            assert forall|y: u32| y != x implies indices_of(post, y) == indices_of(pre, y) by {}
        }
        i = i + 1;
    }
    assert(sell_systems@.subrange(0, sell_systems@.len() as int) =~= sell_systems@);
    (systems, pairs)
}

/// Number of leading `true` values of `flags`.
pub open spec fn leading_true(flags: Seq<bool>) -> nat
    decreases flags.len(),
{
    if flags.len() == 0 || !flags[0] {
        0
    } else {
        1 + leading_true(flags.subrange(1, flags.len() as int))
    }
}

/// Where a list of orders, best first, is cut given for each order whether
/// it has a profitable partner on the other side: after the last order of
/// the leading run of orders that have one. When the very first order has
/// none, nothing is cut (the cut stays at the end of the list).
pub open spec fn truncation_index(flags: Seq<bool>) -> nat {
    if leading_true(flags) == 0 {
        flags.len()
    } else {
        leading_true(flags)
    }
}

proof fn lemma_leading_true_prefix(flags: Seq<bool>, i: int)
    requires
        0 <= i <= flags.len(),
        forall|j: int| 0 <= j < i ==> flags[j],
    ensures
        leading_true(flags) >= i,
        i < flags.len() && !flags[i] ==> leading_true(flags) == i,
    decreases i,
{
    if i > 0 {
        let rest = flags.subrange(1, flags.len() as int);
        lemma_leading_true_prefix(rest, i - 1);
    }
}

/// The length the order list keeps (see `truncation_index`).
pub fn truncation_point(has_profitable_partner: &Vec<bool>) -> (n: usize)
    ensures
        n == truncation_index(has_profitable_partner@),
{
    let len = has_profitable_partner.len();
    let mut truncate_at = len;
    let mut i: usize = 0;
    while i < len
        invariant
            len == has_profitable_partner@.len(),
            i <= len,
            forall|j: int| 0 <= j < i ==> has_profitable_partner@[j],
            truncate_at == if i == 0 {
                len
            } else {
                i
            },
        decreases len - i,
    {
        if has_profitable_partner[i] {
            truncate_at = i + 1;
        } else {
            proof {
                lemma_leading_true_prefix(has_profitable_partner@, i as int);
            }
            return truncate_at;
        }
        i = i + 1;
    }
    proof {
        lemma_leading_true_prefix(has_profitable_partner@, len as int);
        assert(leading_true(has_profitable_partner@) <= len) by {
            lemma_leading_true_le_len(has_profitable_partner@);
        }
    }
    truncate_at
}

/// Where the order list is cut: when its first order has a profitable
/// partner, right after the leading run of orders that have one (every
/// order before the cut has one, the order at the cut, if any, has none);
/// else at its end.
pub proof fn law_truncation_after_leading_run(flags: Seq<bool>)
    ensures
        truncation_index(flags) <= flags.len(),
        flags.len() > 0 && flags[0] ==> {
            &&& forall|j: int| 0 <= j < truncation_index(flags) ==> #[trigger] flags[j]
            &&& truncation_index(flags) < flags.len() ==> !flags[truncation_index(flags) as int]
        },
        !(flags.len() > 0 && flags[0]) ==> truncation_index(flags) == flags.len(),
{
    lemma_leading_true_le_len(flags);
    lemma_leading_true_run(flags);
}

proof fn lemma_leading_true_run(flags: Seq<bool>)
    ensures
        forall|j: int| 0 <= j < leading_true(flags) ==> #[trigger] flags[j],
        leading_true(flags) < flags.len() ==> !flags[leading_true(flags) as int],
    decreases flags.len(),
{
    if flags.len() > 0 && flags[0] {
        let rest = flags.subrange(1, flags.len() as int);
        lemma_leading_true_run(rest);
        lemma_leading_true_le_len(rest);
        assert forall|j: int| 0 <= j < leading_true(flags) implies #[trigger] flags[j] by {
            if j > 0 {
                assert(flags[j] == rest[j - 1]);
            }
        }
        if leading_true(flags) < flags.len() {
            assert(flags[leading_true(flags) as int] == rest[leading_true(rest) as int]);
        }
    }
}

proof fn lemma_leading_true_le_len(flags: Seq<bool>)
    ensures
        leading_true(flags) <= flags.len(),
    decreases flags.len(),
{
    if flags.len() > 0 && flags[0] {
        lemma_leading_true_le_len(flags.subrange(1, flags.len() as int));
    }
}

/// The distinct values of a sequence hold each of its values exactly once.
pub proof fn law_distinct_in_order(s: Seq<u32>)
    ensures
        forall|i: int, j: int|
            0 <= i < j < distinct_in_order(s).len() ==> #[trigger] distinct_in_order(s)[i]
                != #[trigger] distinct_in_order(s)[j],
        forall|x: u32| #[trigger] distinct_in_order(s).contains(x) <==> s.contains(x),
    decreases s.len(),
{
    if s.len() > 0 {
        let u = s.drop_last();
        law_distinct_in_order(u);
        let p = distinct_in_order(u);
        let d = distinct_in_order(s);
        assert forall|x: u32| #[trigger] d.contains(x) <==> s.contains(x) by {
            if s.contains(x) {
                let k = choose|k: int| 0 <= k < s.len() && s[k] == x;
                if k < u.len() {
                    assert(u[k] == x);
                    assert(u.contains(x));
                    assert(p.contains(x));
                    let m = choose|m: int| 0 <= m < p.len() && p[m] == x;
                    assert(d[m] == x);
                } else if !u.contains(s.last()) {
                    assert(d[d.len() - 1] == x);
                } else {
                    assert(p.contains(x));
                }
            }
            if d.contains(x) {
                let m = choose|m: int| 0 <= m < d.len() && d[m] == x;
                if m < p.len() {
                    assert(p[m] == x);
                    assert(p.contains(x));
                    let k = choose|k: int| 0 <= k < u.len() && u[k] == x;
                    assert(s[k] == x);
                } else {
                    assert(s[s.len() - 1] == x);
                }
            }
        }
        assert forall|i: int, j: int| 0 <= i < j < d.len() implies #[trigger] d[i] != #[trigger] d[j] by {
            if j == p.len() && !u.contains(s.last()) {
                assert(d[i] == p[i]);
                assert(p.contains(p[i]));
            }
        }
    }
}

/// The orders kept in known systems are exactly those whose system is
/// known: each index in the result is an index of `order_systems` whose
/// system is in `known`, every such index is in the result, and the
/// indices ascend strictly.
pub proof fn law_known_indices_membership(order_systems: Seq<u32>, known: Set<u32>)
    requires
        order_systems.len() <= usize::MAX,
    ensures
        forall|k: int|
            0 <= k < known_indices(order_systems, known).len() ==> {
                &&& #[trigger] known_indices(order_systems, known)[k] < order_systems.len()
                &&& known.contains(order_systems[known_indices(order_systems, known)[k] as int])
            },
        forall|i: int|
            0 <= i < order_systems.len() && known.contains(#[trigger] order_systems[i])
                ==> known_indices(order_systems, known).contains(i as usize),
        forall|a: int, b: int|
            0 <= a < b < known_indices(order_systems, known).len() ==> #[trigger] known_indices(
                order_systems,
                known,
            )[a] < #[trigger] known_indices(order_systems, known)[b],
    decreases order_systems.len(),
{
    if order_systems.len() > 0 {
        let u = order_systems.drop_last();
        law_known_indices_membership(u, known);
        let p = known_indices(u, known);
        let r = known_indices(order_systems, known);
        let n = order_systems.len();
        assert(((n - 1) as usize) as int == n - 1);
        assert forall|k: int| 0 <= k < r.len() implies {
            &&& #[trigger] r[k] < n
            &&& known.contains(order_systems[r[k] as int])
        } by {
            if k < p.len() {
                assert(r[k] == p[k]);
                assert(order_systems[p[k] as int] == u[p[k] as int]);
            }
        }
        assert forall|i: int| 0 <= i < n && known.contains(#[trigger] order_systems[i]) implies r.contains(
            i as usize,
        ) by {
            if i < n - 1 {
                assert(u[i] == order_systems[i]);
                assert(p.contains(i as usize));
                let k = choose|k: int| 0 <= k < p.len() && p[k] == i as usize;
                assert(r[k] == i as usize);
            } else {
                assert(r[r.len() - 1] == i as usize);
            }
        }
        assert forall|a: int, b: int| 0 <= a < b < r.len() implies #[trigger] r[a] < #[trigger] r[b] by {
            if b < p.len() {
                assert(r[a] == p[a] && r[b] == p[b]);
            } else {
                assert(r[a] == p[a]);
                assert(p[a] < u.len());
            }
        }
    }
}

/// The indices grouped under a system are exactly the positions where it
/// occurs, ascending strictly.
pub proof fn law_indices_of_membership(s: Seq<u32>, x: u32)
    requires
        s.len() <= usize::MAX,
    ensures
        forall|k: int|
            0 <= k < indices_of(s, x).len() ==> #[trigger] indices_of(s, x)[k] < s.len() && s[indices_of(
                s,
                x,
            )[k] as int] == x,
        forall|i: int| 0 <= i < s.len() && #[trigger] s[i] == x ==> indices_of(s, x).contains(i as usize),
        forall|a: int, b: int|
            0 <= a < b < indices_of(s, x).len() ==> #[trigger] indices_of(s, x)[a] < #[trigger] indices_of(
                s,
                x,
            )[b],
    decreases s.len(),
{
    if s.len() > 0 {
        let u = s.drop_last();
        law_indices_of_membership(u, x);
        let p = indices_of(u, x);
        let r = indices_of(s, x);
        let n = s.len();
        assert(((n - 1) as usize) as int == n - 1);
        assert forall|k: int| 0 <= k < r.len() implies #[trigger] r[k] < n && s[r[k] as int] == x by {
            if k < p.len() {
                assert(r[k] == p[k]);
                assert(s[p[k] as int] == u[p[k] as int]);
            }
        }
        assert forall|i: int| 0 <= i < n && #[trigger] s[i] == x implies r.contains(i as usize) by {
            if i < n - 1 {
                assert(u[i] == s[i]);
                assert(p.contains(i as usize));
                let k = choose|k: int| 0 <= k < p.len() && p[k] == i as usize;
                assert(r[k] == i as usize);
            } else {
                assert(r[r.len() - 1] == i as usize);
            }
        }
        assert forall|a: int, b: int| 0 <= a < b < r.len() implies #[trigger] r[a] < #[trigger] r[b] by {
            if b < p.len() {
                assert(r[a] == p[a] && r[b] == p[b]);
            } else {
                assert(r[a] == p[a]);
                assert(p[a] < u.len());
            }
        }
    }
}

} // verus!
