//! Link chains over an arena.
//!
//! Both link columns of the card arena — `stack_child` and `stack_parent` —
//! are tables of the same shape: for each node index, at most one successor
//! index. Everything about following such links (the visited chain, that the
//! walk settles at a node with no successor, and how chains react to adding
//! or removing one link) is stated once here over a bare `Seq<Option<usize>>`
//! and instantiated for either direction.

use vstd::prelude::*;
use vstd::seq_lib::*;
use vstd::set_lib::*;

verus! {

/// One node's successor entry stays inside the arena.
pub open spec fn link_ok(links: Seq<Option<usize>>, i: int) -> bool {
    match links[i] {
        Option::Some(j) => (j as int) < links.len(),
        Option::None => true,
    }
}

/// Every successor entry stays inside the arena.
pub open spec fn links_in_range(links: Seq<Option<usize>>) -> bool {
    forall|i: int| 0 <= i < links.len() ==> #[trigger] link_ok(links, i)
}

/// The nodes visited when following links from `i`, including `i` itself,
/// cut off after `fuel` steps.
pub open spec fn chain(links: Seq<Option<usize>>, i: int, fuel: nat) -> Seq<int>
    decreases fuel,
{
    if 0 <= i < links.len() {
        match links[i] {
            Option::None => seq![i],
            Option::Some(j) => if fuel == 0 {
                seq![i]
            } else {
                seq![i] + chain(links, j as int, (fuel - 1) as nat)
            },
        }
    } else {
        seq![i]
    }
}

/// Following the links from `i` reaches a node with no successor within
/// `fuel` steps, never leaving the arena.
pub open spec fn settles(links: Seq<Option<usize>>, i: int, fuel: nat) -> bool
    decreases fuel,
{
    0 <= i < links.len() && match links[i] {
        Option::None => true,
        Option::Some(j) => fuel > 0 && settles(links, j as int, (fuel - 1) as nat),
    }
}

/// Acyclicity: every walk settles within as many steps as there are nodes.
pub open spec fn acyclic(links: Seq<Option<usize>>) -> bool {
    forall|i: int| 0 <= i < links.len() ==> #[trigger] settles(links, i, links.len())
}

/// Node `v` links exactly to node `w`.
pub open spec fn points_to(links: Seq<Option<usize>>, v: int, w: int) -> bool {
    match links[v] {
        Option::Some(j) => j as int == w,
        Option::None => false,
    }
}

/// The two link columns point back at each other: `c[i] == Some(j)` exactly
/// when `p[j] == Some(i)`.
pub open spec fn mirror_ok(c: Seq<Option<usize>>, p: Seq<Option<usize>>, i: int) -> bool {
    match c[i] {
        Option::Some(j) => 0 <= (j as int) < p.len() && points_to(p, j as int, i),
        Option::None => true,
    }
}

pub open spec fn mirrored(c: Seq<Option<usize>>, p: Seq<Option<usize>>) -> bool {
    &&& c.len() == p.len()
    &&& forall|i: int| 0 <= i < c.len() ==> #[trigger] mirror_ok(c, p, i)
    &&& forall|i: int| 0 <= i < p.len() ==> #[trigger] mirror_ok(p, c, i)
}

/// A settled walk is insensitive to extra fuel.
pub proof fn lemma_settles_mono(links: Seq<Option<usize>>, i: int, f: nat, g: nat)
    requires
        settles(links, i, f),
        f <= g,
    ensures
        settles(links, i, g),
        chain(links, i, g) == chain(links, i, f),
    decreases f,
{
    match links[i] {
        Option::None => {},
        Option::Some(j) => {
            lemma_settles_mono(links, j as int, (f - 1) as nat, (g - 1) as nat);
        },
    }
}

/// Shape of a settled chain: it starts at `i`, stays in the arena, each
/// element links to the next, and the last element has no link.
pub proof fn lemma_chain_shape(links: Seq<Option<usize>>, i: int, fuel: nat)
    requires
        settles(links, i, fuel),
    ensures
        1 <= chain(links, i, fuel).len() <= fuel + 1,
        chain(links, i, fuel)[0] == i,
        forall|k: int|
            0 <= k < chain(links, i, fuel).len() ==> 0 <= #[trigger] chain(links, i, fuel)[k]
                < links.len(),
        links[chain(links, i, fuel).last()] is None,
        forall|k: int|
            0 <= k < chain(links, i, fuel).len() - 1 ==> points_to(
                links,
                #[trigger] chain(links, i, fuel)[k],
                chain(links, i, fuel)[k + 1],
            ),
    decreases fuel,
{
    let s = chain(links, i, fuel);
    match links[i] {
        Option::None => {
            assert(s == seq![i]);
        },
        Option::Some(j) => {
            lemma_chain_shape(links, j as int, (fuel - 1) as nat);
            let t = chain(links, j as int, (fuel - 1) as nat);
            assert(s == seq![i] + t);
            assert forall|k: int| 0 <= k < s.len() - 1 implies points_to(
                links,
                #[trigger] s[k],
                s[k + 1],
            ) by {
                if k == 0 {
                    assert(s[0] == i && s[1] == t[0] && t[0] == j as int);
                } else {
                    assert(s[k] == t[k - 1] && s[k + 1] == t[k]);
                }
            }
        },
    }
}

/// Every element of a settled chain starts a settled chain of its own: the
/// remainder of the original one.
pub proof fn lemma_chain_suffix(links: Seq<Option<usize>>, i: int, fuel: nat, k: int)
    requires
        settles(links, i, fuel),
        0 <= k < chain(links, i, fuel).len(),
    ensures
        settles(links, chain(links, i, fuel)[k], fuel),
        chain(links, chain(links, i, fuel)[k], fuel) == chain(links, i, fuel).skip(k),
    decreases k,
{
    let s = chain(links, i, fuel);
    if k == 0 {
        assert(s.skip(0) =~= s);
    } else {
        match links[i] {
            Option::None => {
                assert(false);
            },
            Option::Some(j) => {
                let t = chain(links, j as int, (fuel - 1) as nat);
                assert(s == seq![i] + t);
                lemma_chain_suffix(links, j as int, (fuel - 1) as nat, k - 1);
                lemma_settles_mono(links, t[k - 1], (fuel - 1) as nat, fuel);
                assert(s[k] == t[k - 1]);
                assert(s.skip(k) =~= t.skip(k - 1));
            },
        }
    }
}

/// One step along a settled walk: the tail is the chain of the successor.
pub proof fn lemma_chain_step(links: Seq<Option<usize>>, i: int, j: usize, fuel: nat)
    requires
        settles(links, i, fuel),
        links[i] == Option::Some(j),
    ensures
        settles(links, j as int, fuel),
        chain(links, i, fuel) == seq![i] + chain(links, j as int, fuel),
        chain(links, i, fuel).last() == chain(links, j as int, fuel).last(),
        chain(links, i, fuel).len() == chain(links, j as int, fuel).len() + 1,
{
    lemma_settles_mono(links, j as int, (fuel - 1) as nat, fuel);
    let t = chain(links, j as int, fuel);
    assert(chain(links, i, fuel) == seq![i] + t);
    assert(t.len() >= 1);
    assert((seq![i] + t).last() == t.last());
}

/// No settled node links to itself.
pub proof fn lemma_no_self_loop(links: Seq<Option<usize>>, i: int, fuel: nat)
    requires
        settles(links, i, fuel),
    ensures
        !points_to(links, i, i),
    decreases fuel,
{
    match links[i] {
        Option::None => {},
        Option::Some(j) => {
            if j as int == i {
                lemma_no_self_loop(links, i, (fuel - 1) as nat);
            }
        },
    }
}

/// A settled chain never visits a node twice.
pub proof fn lemma_chain_no_dup(links: Seq<Option<usize>>, i: int, fuel: nat)
    requires
        settles(links, i, fuel),
    ensures
        chain(links, i, fuel).no_duplicates(),
    decreases fuel,
{
    let s = chain(links, i, fuel);
    match links[i] {
        Option::None => {},
        Option::Some(j) => {
            let t = chain(links, j as int, (fuel - 1) as nat);
            assert(s == seq![i] + t);
            lemma_chain_no_dup(links, j as int, (fuel - 1) as nat);
            assert(!t.contains(i)) by {
                if t.contains(i) {
                    let k = choose|k: int| 0 <= k < t.len() && t[k] == i;
                    lemma_chain_suffix(links, j as int, (fuel - 1) as nat, k);
                    lemma_settles_mono(links, i, (fuel - 1) as nat, fuel);
                    assert(chain(links, i, fuel) == t.skip(k));
                    assert(s.len() == 1 + t.len());
                    assert(t.skip(k).len() == t.len() - k);
                    assert(false);
                }
            }
            assert forall|p: int, q: int| 0 <= p < q < s.len() implies s[p] != s[q] by {
                if p == 0 {
                    assert(s[q] == t[q - 1]);
                    assert(!t.contains(i));
                    assert(t[q - 1] != i) by {
                        if t[q - 1] == i {
                            assert(t.contains(i));
                        }
                    }
                } else {
                    assert(s[p] == t[p - 1] && s[q] == t[q - 1]);
                }
            }
        },
    }
}

/// A settled chain visits at most as many nodes as the arena holds.
pub proof fn lemma_chain_le_len(links: Seq<Option<usize>>, i: int, fuel: nat)
    requires
        settles(links, i, fuel),
    ensures
        chain(links, i, fuel).len() <= links.len(),
{
    let s = chain(links, i, fuel);
    lemma_chain_no_dup(links, i, fuel);
    lemma_chain_shape(links, i, fuel);
    s.unique_seq_to_set();
    assert(s.to_set().subset_of(set_int_range(0, links.len() as int))) by {
        assert forall|x: int| s.to_set().contains(x) implies set_int_range(
            0,
            links.len() as int,
        ).contains(x) by {
            let k = choose|k: int| 0 <= k < s.len() && s[k] == x;
            assert(0 <= s[k] < links.len());
        }
    }
    lemma_int_range(0, links.len() as int);
    lemma_len_subset(s.to_set(), set_int_range(0, links.len() as int));
}

/// A walk that settles at all settles within one step per visited node.
pub proof fn lemma_settles_min(links: Seq<Option<usize>>, i: int, fuel: nat)
    requires
        settles(links, i, fuel),
    ensures
        settles(links, i, (chain(links, i, fuel).len() - 1) as nat),
    decreases fuel,
{
    match links[i] {
        Option::None => {},
        Option::Some(j) => {
            let t = chain(links, j as int, (fuel - 1) as nat);
            assert(chain(links, i, fuel) == seq![i] + t);
            lemma_settles_min(links, j as int, (fuel - 1) as nat);
            lemma_chain_shape(links, j as int, (fuel - 1) as nat);
        },
    }
}

/// A walk that settles at all settles within `links.len()` steps.
pub proof fn lemma_settles_tighten(links: Seq<Option<usize>>, i: int, fuel: nat)
    requires
        settles(links, i, fuel),
    ensures
        settles(links, i, links.len() as nat),
        chain(links, i, links.len() as nat) == chain(links, i, fuel),
    decreases fuel,
{
    lemma_chain_le_len(links, i, fuel);
    lemma_settles_min(links, i, fuel);
    lemma_chain_shape(links, i, fuel);
    let m = (chain(links, i, fuel).len() - 1) as nat;
    lemma_settles_mono(links, i, m, links.len() as nat);
    lemma_settles_mono(links, i, m, fuel);
}

/// A chain only depends on the links of the nodes it visits.
pub proof fn lemma_chain_frame(
    l1: Seq<Option<usize>>,
    l2: Seq<Option<usize>>,
    i: int,
    fuel: nat,
)
    requires
        settles(l1, i, fuel),
        l1.len() <= l2.len(),
        forall|k: int| chain(l1, i, fuel).contains(k) ==> l2[k] == l1[k],
    ensures
        settles(l2, i, fuel),
        chain(l2, i, fuel) == chain(l1, i, fuel),
    decreases fuel,
{
    let s = chain(l1, i, fuel);
    assert(s.contains(i)) by {
        assert(s[0] == i);
    }
    match l1[i] {
        Option::None => {
            assert(s == seq![i]);
        },
        Option::Some(j) => {
            let t = chain(l1, j as int, (fuel - 1) as nat);
            assert(s == seq![i] + t);
            assert forall|k: int| chain(l1, j as int, (fuel - 1) as nat).contains(k) implies l2[k]
                == l1[k] by {
                let m = choose|m: int| 0 <= m < t.len() && t[m] == k;
                assert(s[m + 1] == k);
                assert(s.contains(k));
            }
            lemma_chain_frame(l1, l2, j as int, (fuel - 1) as nat);
        },
    }
}

/// Adding the one link `a -> b` to an acyclic table whose node `a` had no
/// successor keeps every walk settling, provided `b`'s chain does not lead
/// back to `a`.
pub proof fn lemma_link_settles(
    l1: Seq<Option<usize>>,
    a: int,
    b: usize,
    i: int,
    fuel: nat,
)
    requires
        0 <= a < l1.len(),
        (b as int) < l1.len(),
        l1[a] is None,
        settles(l1, b as int, l1.len() as nat),
        !chain(l1, b as int, l1.len() as nat).contains(a),
        settles(l1, i, fuel),
    ensures
        settles(l1.update(a, Option::Some(b)), i, (fuel + l1.len() + 1) as nat),
    decreases fuel,
{
    let l2 = l1.update(a, Option::Some(b));
    if i == a {
        assert forall|k: int|
            chain(l1, b as int, l1.len() as nat).contains(k) implies l2[k] == l1[k] by {
            let m = choose|m: int|
                0 <= m < chain(l1, b as int, l1.len() as nat).len() && chain(
                    l1,
                    b as int,
                    l1.len() as nat,
                )[m] == k;
            lemma_chain_shape(l1, b as int, l1.len() as nat);
        }
        lemma_chain_frame(l1, l2, b as int, l1.len() as nat);
        lemma_settles_mono(l2, b as int, l1.len() as nat, (fuel + l1.len()) as nat);
        assert(l2[a] == Option::Some(b));
    } else {
        match l1[i] {
            Option::None => {
                assert(l2[i] is None);
            },
            Option::Some(j) => {
                lemma_link_settles(l1, a, b, j as int, (fuel - 1) as nat);
            },
        }
    }
}

/// Adding one link between previously unconnected chains keeps the table
/// within the arena and acyclic.
pub proof fn lemma_link_acyclic(l1: Seq<Option<usize>>, a: int, b: usize)
    requires
        links_in_range(l1),
        acyclic(l1),
        0 <= a < l1.len(),
        (b as int) < l1.len(),
        l1[a] is None,
        !chain(l1, b as int, l1.len() as nat).contains(a),
    ensures
        links_in_range(l1.update(a, Option::Some(b))),
        acyclic(l1.update(a, Option::Some(b))),
{
    let l2 = l1.update(a, Option::Some(b));
    assert forall|i: int| 0 <= i < l2.len() implies #[trigger] link_ok(l2, i) by {
        assert(link_ok(l1, i));
    }
    assert forall|i: int| 0 <= i < l2.len() implies #[trigger] settles(l2, i, l2.len() as nat) by {
        assert(settles(l1, i, l1.len() as nat));
        lemma_link_settles(l1, a, b, i, l1.len() as nat);
        lemma_settles_tighten(l2, i, (l1.len() + l1.len() + 1) as nat);
    }
}

/// Removing a link never makes a walk settle later.
pub proof fn lemma_unlink_settles(l1: Seq<Option<usize>>, a: int, i: int, fuel: nat)
    requires
        settles(l1, i, fuel),
        0 <= a < l1.len(),
    ensures
        settles(l1.update(a, Option::None), i, fuel),
    decreases fuel,
{
    if i != a {
        match l1[i] {
            Option::None => {},
            Option::Some(j) => {
                lemma_unlink_settles(l1, a, j as int, (fuel - 1) as nat);
            },
        }
    }
}

/// Removing a link keeps the table within the arena and acyclic.
pub proof fn lemma_unlink_acyclic(l1: Seq<Option<usize>>, a: int)
    requires
        links_in_range(l1),
        acyclic(l1),
        0 <= a < l1.len(),
    ensures
        links_in_range(l1.update(a, Option::None)),
        acyclic(l1.update(a, Option::None)),
{
    let l2 = l1.update(a, Option::None);
    assert forall|i: int| 0 <= i < l2.len() implies #[trigger] link_ok(l2, i) by {
        assert(link_ok(l1, i));
    }
    assert forall|i: int| 0 <= i < l2.len() implies #[trigger] settles(l2, i, l2.len() as nat) by {
        assert(settles(l1, i, l1.len() as nat));
        lemma_unlink_settles(l1, a, i, l1.len() as nat);
    }
}

/// One existing node of an extended arena: its walk still settles and its
/// chain is unchanged.
pub proof fn lemma_push_none_one(l1: Seq<Option<usize>>, i: int)
    requires
        acyclic(l1),
        0 <= i < l1.len(),
    ensures
        settles(l1.push(Option::None), i, l1.push(Option::None).len() as nat),
        chain(l1.push(Option::None), i, l1.len() as nat + 1) == chain(l1, i, l1.len() as nat),
{
    let l2 = l1.push(Option::None);
    assert(settles(l1, i, l1.len() as nat));
    assert forall|k: int| chain(l1, i, l1.len() as nat).contains(k) implies l2[k] == l1[k] by {
        let m = choose|m: int|
            0 <= m < chain(l1, i, l1.len() as nat).len() && chain(l1, i, l1.len() as nat)[m] == k;
        lemma_chain_shape(l1, i, l1.len() as nat);
    }
    lemma_chain_frame(l1, l2, i, l1.len() as nat);
    lemma_settles_mono(l2, i, l1.len() as nat, l2.len() as nat);
    lemma_settles_mono(l2, i, l1.len() as nat, l1.len() as nat + 1);
}

/// Appending an unlinked node keeps the table within the arena and acyclic,
/// and leaves every existing chain as it was.
pub proof fn lemma_push_none_acyclic(l1: Seq<Option<usize>>)
    requires
        links_in_range(l1),
        acyclic(l1),
    ensures
        links_in_range(l1.push(Option::None)),
        acyclic(l1.push(Option::None)),
        forall|i: int|
            0 <= i < l1.len() ==> chain(l1.push(Option::None), i, l1.len() as nat + 1)
                == #[trigger] chain(l1, i, l1.len() as nat),
{
    let l2 = l1.push(Option::None);
    assert forall|i: int| 0 <= i < l2.len() implies #[trigger] link_ok(l2, i) by {
        if i < l1.len() {
            assert(link_ok(l1, i));
        }
    }
    assert forall|i: int|
        0 <= i < l1.len() implies chain(l2, i, l1.len() as nat + 1) == #[trigger] chain(
        l1,
        i,
        l1.len() as nat,
    ) by {
        lemma_push_none_one(l1, i);
    }
    assert forall|i: int| 0 <= i < l2.len() implies #[trigger] settles(l2, i, l2.len() as nat) by {
        if i == l1.len() {
            assert(l2[i] is None);
        } else {
            lemma_push_none_one(l1, i);
        }
    }
}

/// Walking one column of a mirrored pair backward along the other: the
/// `d`-th node of a chain in `c` walks back, through `p`, over the reversed
/// prefix of that chain, provided the chain starts at a node with no `p`
/// link.
pub proof fn lemma_flip(
    c: Seq<Option<usize>>,
    p: Seq<Option<usize>>,
    r: int,
    fuel: nat,
    d: int,
)
    requires
        mirrored(c, p),
        settles(c, r, fuel),
        p[r] is None,
        0 <= d < chain(c, r, fuel).len(),
    ensures
        settles(p, chain(c, r, fuel)[d], d as nat),
        chain(p, chain(c, r, fuel)[d], d as nat) == chain(c, r, fuel).take(d + 1).reverse(),
    decreases d,
{
    let s = chain(c, r, fuel);
    lemma_chain_shape(c, r, fuel);
    if d == 0 {
        assert(s[0] == r);
        assert(chain(p, r, 0) == seq![r]);
        assert(s.take(1).reverse() =~= seq![r]);
    } else {
        let prev = s[d - 1];
        let v = s[d];
        assert(points_to(c, prev, v));
        assert(mirror_ok(c, p, prev));
        assert(points_to(p, v, prev));
        lemma_flip(c, p, r, fuel, d - 1);
        assert(settles(p, v, d as nat));
        assert(chain(p, v, d as nat) == seq![v] + chain(p, prev, (d - 1) as nat));
        assert(seq![v] + s.take(d).reverse() =~= s.take(d + 1).reverse());
    }
}

/// In a mirrored, settled pair, a node of the chain out of a `p`-rootless
/// start can walk back to that start: membership flips direction.
pub proof fn lemma_member_back(
    c: Seq<Option<usize>>,
    p: Seq<Option<usize>>,
    r: int,
    fuel: nat,
    v: int,
)
    requires
        mirrored(c, p),
        settles(c, r, fuel),
        p[r] is None,
        chain(c, r, fuel).contains(v),
        c.len() == p.len(),
    ensures
        settles(p, v, p.len() as nat),
        chain(p, v, p.len() as nat).contains(r),
        chain(p, v, p.len() as nat).last() == r,
    decreases fuel,
{
    let s = chain(c, r, fuel);
    let d = choose|d: int| 0 <= d < s.len() && s[d] == v;
    lemma_flip(c, p, r, fuel, d);
    lemma_settles_tighten(p, v, d as nat);
    let q = chain(p, v, d as nat);
    assert(q == s.take(d + 1).reverse());
    assert(q.last() == s.take(d + 1).reverse()[q.len() - 1]);
    assert(s.take(d + 1).reverse()[d] == s.take(d + 1)[0]);
    assert(s[0] == r) by {
        lemma_chain_shape(c, r, fuel);
    }
    assert(q.last() == r);
    assert(q.contains(r)) by {
        assert(q[q.len() - 1] == r);
    }
}

} // verus!
