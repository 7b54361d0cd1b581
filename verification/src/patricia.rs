//! PATRICIA engine: a radix-256 trie with compressed edges. Every edge
//! carries a non-empty byte string; a key that ends at an inner node is held
//! as that node's terminal value. The trie is interpreted as a finite map
//! from byte sequences to values.

use vstd::prelude::*;
use crate::prefixmap::{is_prefix_of, prepend_keys};
use crate::prefixmap::{
    lemma_prefix_concat, lemma_prefix_split, lemma_prepend_keys_at, lemma_prepend_keys_compose,
    lemma_prepend_keys_empty, lemma_prepend_keys_empty_map, lemma_prepend_keys_finite,
    lemma_prepend_keys_insert, lemma_prepend_keys_inv, lemma_prepend_keys_remove,
};

verus! {

/// One trie node. The node's edge label is `prefix` (empty only at the root);
/// `value` is the terminal value of the key spelled by the path to this node;
/// each child's `prefix` begins with the byte the child branches on.
#[verifier::ext_equal]
struct PNode<V> {
    prefix: Vec<u8>,
    value: Option<V>,
    children: Vec<PNode<V>>,
}

/// The entries stored under a sequence of sibling subtrees.
spec fn kids_map<V>(s: Seq<PNode<V>>) -> Map<Seq<u8>, V>
    decreases s, 0int,
{
    if s.len() == 0 {
        Map::empty()
    } else {
        kids_map(s.skip(1)).union_prefer_right(node_map(s[0]))
    }
}

/// The entries stored in the subtree rooted at `n`, keyed relative to the
/// position just above `n`'s edge (so every key starts with `n.prefix`).
spec fn node_map<V>(n: PNode<V>) -> Map<Seq<u8>, V>
    decreases n, 1int,
{
    prepend_keys(n.prefix@, base_map(n))
}

/// The entries of `n` with `n`'s own edge label stripped: the terminal value
/// sits at the empty key, the children's entries at their own labels.
spec fn base_map<V>(n: PNode<V>) -> Map<Seq<u8>, V>
    decreases n, 0int,
{
    match n.value {
        Some(v) => kids_map(n.children@).insert(Seq::empty(), v),
        None => kids_map(n.children@),
    }
}

/// A non-root node must label a non-empty edge and either hold a value or
/// branch at least twice; otherwise it would have been merged with its child.
spec fn child_ok<V>(c: PNode<V>) -> bool {
    c.prefix@.len() > 0 && (c.value is Some || c.children@.len() >= 2)
}

/// No two sibling edges share their first byte.
spec fn distinct_first_bytes<V>(s: Seq<PNode<V>>) -> bool {
    forall|i: int, j: int|
        0 <= i < s.len() && 0 <= j < s.len() && i != j ==> (#[trigger] s[i]).prefix@[0] != (
        #[trigger] s[j]).prefix@[0]
}

/// Well-formedness of a sibling sequence: every entry is a sound subtree.
spec fn wf_kids<V>(s: Seq<PNode<V>>) -> bool
    decreases s, 0int,
{
    s.len() == 0 || (child_ok(s[0]) && wf_node(s[0]) && wf_kids(s.skip(1)))
}

/// Well-formedness below `n` (says nothing about `n`'s own edge or value).
spec fn wf_node<V>(n: PNode<V>) -> bool
    decreases n, 1int,
{
    distinct_first_bytes(n.children@) && wf_kids(n.children@)
}

/// `wf_kids` gives well-formedness of each sibling by index.
proof fn lemma_wf_kids_index<V>(s: Seq<PNode<V>>, i: int)
    requires
        wf_kids(s),
        0 <= i < s.len(),
    ensures
        child_ok(s[i]),
        wf_node(s[i]),
    decreases s.len(),
{
    if i > 0 {
        lemma_wf_kids_index(s.skip(1), i - 1);
        assert(s.skip(1)[i - 1] == s[i]);
    }
}

/// Pointwise well-formedness of the siblings yields `wf_kids`.
proof fn lemma_wf_kids_build<V>(s: Seq<PNode<V>>)
    requires
        forall|i: int| 0 <= i < s.len() ==> child_ok(#[trigger] s[i]) && wf_node(s[i]),
    ensures
        wf_kids(s),
    decreases s.len(),
{
    if s.len() > 0 {
        assert(forall|i: int|
            0 <= i < s.skip(1).len() ==> #[trigger] s.skip(1)[i] == s[i + 1]);
        lemma_wf_kids_build(s.skip(1));
    }
}

/// Every key stored under a well-formed subtree starts with the subtree's
/// edge label, and any key strictly longer continues with the first byte of
/// some child's edge.
proof fn lemma_node_map_keys<V>(n: PNode<V>, k: Seq<u8>)
    requires
        wf_node(n),
        node_map(n).dom().contains(k),
    ensures
        is_prefix_of(n.prefix@, k),
        k.len() == n.prefix@.len() ==> k == n.prefix@ && n.value is Some && node_map(n)[k]
            == n.value->0,
        k.len() > n.prefix@.len() ==> exists|i: int|
            0 <= i < n.children@.len() && (#[trigger] n.children@[i]).prefix@.len() > 0
                && n.children@[i].prefix@[0] == k[n.prefix@.len() as int]
                && node_map(n.children@[i]).dom().contains(k.skip(n.prefix@.len() as int))
                && node_map(n.children@[i])[k.skip(n.prefix@.len() as int)] == node_map(n)[k],
    decreases n, 1int,
{
    let base = base_map(n);
    lemma_prepend_keys_inv(n.prefix@, base, k);
    let rest = k.skip(n.prefix@.len() as int);
    if rest.len() == 0 {
        assert(k =~= n.prefix@);
        assert(rest =~= Seq::<u8>::empty());
        if n.value is None {
            lemma_kids_map_inv(n.children@, rest);
            let i = choose|i: int|
                0 <= i < n.children@.len() && node_map(#[trigger] n.children@[i]).dom().contains(
                    rest,
                ) && node_map(n.children@[i])[rest] == kids_map(n.children@)[rest];
            lemma_wf_kids_index(n.children@, i);
            lemma_node_map_keys(n.children@[i], rest);
            assert(false);
        }
    } else {
        assert(base.dom().contains(rest));
        assert(kids_map(n.children@).dom().contains(rest) && kids_map(n.children@)[rest]
            == base[rest]) by {
            if n.value is Some && rest == Seq::<u8>::empty() {
                assert(false);
            }
        }
        lemma_kids_map_inv(n.children@, rest);
        let i = choose|i: int|
            0 <= i < n.children@.len() && node_map(#[trigger] n.children@[i]).dom().contains(rest)
                && node_map(n.children@[i])[rest] == kids_map(n.children@)[rest];
        lemma_wf_kids_index(n.children@, i);
        lemma_node_map_keys(n.children@[i], rest);
    }
}

/// A key of `kids_map` comes from one of the siblings, with the same value.
proof fn lemma_kids_map_inv<V>(s: Seq<PNode<V>>, k: Seq<u8>)
    requires
        kids_map(s).dom().contains(k),
    ensures
        exists|i: int|
            0 <= i < s.len() && node_map(#[trigger] s[i]).dom().contains(k) && node_map(s[i])[k]
                == kids_map(s)[k],
    decreases s.len(),
{
    if s.len() > 0 {
        if node_map(s[0]).dom().contains(k) {
        } else {
            lemma_kids_map_inv(s.skip(1), k);
            let i = choose|i: int|
                0 <= i < s.skip(1).len() && node_map(#[trigger] s.skip(1)[i]).dom().contains(k)
                    && node_map(s.skip(1)[i])[k] == kids_map(s.skip(1))[k];
            assert(s.skip(1)[i] == s[i + 1]);
        }
    }
}

/// Each sibling's entries appear in `kids_map`; with distinct branch bytes
/// the value is the sibling's own.
proof fn lemma_kids_map_at<V>(s: Seq<PNode<V>>, i: int, k: Seq<u8>)
    requires
        wf_kids(s),
        distinct_first_bytes(s),
        0 <= i < s.len(),
        node_map(s[i]).dom().contains(k),
    ensures
        kids_map(s).dom().contains(k),
        kids_map(s)[k] == node_map(s[i])[k],
    decreases s.len(),
{
    lemma_wf_kids_index(s, i);
    lemma_node_map_keys(s[i], k);
    if i == 0 {
        if kids_map(s.skip(1)).dom().contains(k) {
            lemma_kids_map_inv(s.skip(1), k);
            let j = choose|j: int|
                0 <= j < s.skip(1).len() && node_map(#[trigger] s.skip(1)[j]).dom().contains(k)
                    && node_map(s.skip(1)[j])[k] == kids_map(s.skip(1))[k];
            assert(s.skip(1)[j] == s[j + 1]);
            lemma_wf_kids_index(s, j + 1);
            lemma_node_map_keys(s[j + 1], k);
            assert(k[0] == s[0].prefix@[0]);
            assert(k[0] == s[j + 1].prefix@[0]);
            assert(false);
        }
    } else {
        assert(forall|a: int, b: int|
            0 <= a < s.skip(1).len() && 0 <= b < s.skip(1).len() && a != b ==> (#[trigger] s.skip(
                1,
            )[a]).prefix@[0] != (#[trigger] s.skip(1)[b]).prefix@[0]) by {
            assert(forall|a: int| 0 <= a < s.skip(1).len() ==> #[trigger] s.skip(1)[a] == s[a + 1]);
        }
        assert(s.skip(1)[i - 1] == s[i]);
        lemma_kids_map_at(s.skip(1), i - 1, k);
        if node_map(s[0]).dom().contains(k) {
            lemma_wf_kids_index(s, 0);
            lemma_node_map_keys(s[0], k);
            assert(k[0] == s[0].prefix@[0]);
            assert(k[0] == s[i].prefix@[0]);
            assert(false);
        }
    }
}

/// Keys from siblings with different branch bytes never collide.
proof fn lemma_kids_disjoint<V>(s: Seq<PNode<V>>, i: int, k: Seq<u8>)
    requires
        wf_kids(s),
        distinct_first_bytes(s),
        0 <= i < s.len(),
        kids_map(s).dom().contains(k),
        k.len() > 0,
        s[i].prefix@.len() > 0,
        k[0] == s[i].prefix@[0],
    ensures
        node_map(s[i]).dom().contains(k),
        node_map(s[i])[k] == kids_map(s)[k],
{
    lemma_kids_map_inv(s, k);
    let j = choose|j: int|
        0 <= j < s.len() && node_map(#[trigger] s[j]).dom().contains(k) && node_map(s[j])[k]
            == kids_map(s)[k];
    lemma_wf_kids_index(s, j);
    lemma_node_map_keys(s[j], k);
    if j != i {
        assert(k[0] == s[j].prefix@[0]);
        assert(false);
    }
}

/// The stored map of a well-formed subtree is finite.
proof fn lemma_node_map_finite<V>(n: PNode<V>)
    ensures
        node_map(n).dom().finite(),
    decreases n, 1int,
{
    lemma_kids_map_finite(n.children@);
    assert(base_map(n).dom().finite());
    lemma_prepend_keys_finite(n.prefix@, base_map(n));
}

proof fn lemma_kids_map_finite<V>(s: Seq<PNode<V>>)
    ensures
        kids_map(s).dom().finite(),
    decreases s, 0int,
{
    if s.len() > 0 {
        lemma_kids_map_finite(s.skip(1));
        lemma_node_map_finite(s[0]);
        assert(kids_map(s).dom() =~= kids_map(s.skip(1)).dom() + node_map(s[0]).dom());
    }
}

/// Appending a sibling whose keys are all new adds exactly its entries.
proof fn lemma_kids_map_push<V>(s: Seq<PNode<V>>, c: PNode<V>)
    requires
        forall|y: Seq<u8>|
            kids_map(s).dom().contains(y) ==> !(#[trigger] node_map(c).dom().contains(y)),
    ensures
        kids_map(s.push(c)) =~= kids_map(s).union_prefer_right(node_map(c)),
    decreases s.len(),
{
    if s.len() == 0 {
        assert(s.push(c)[0] == c);
        assert(s.push(c).skip(1) =~= Seq::<PNode<V>>::empty());
        assert(kids_map(Seq::<PNode<V>>::empty()) == Map::<Seq<u8>, V>::empty());
        assert(kids_map(s.push(c)) == kids_map(s.push(c).skip(1)).union_prefer_right(
            node_map(s.push(c)[0]),
        ));
        assert(kids_map(s.push(c)) =~= kids_map(s).union_prefer_right(node_map(c)));
    } else {
        assert(s.push(c).skip(1) =~= s.skip(1).push(c));
        assert(s.push(c)[0] == s[0]);
        assert(forall|y: Seq<u8>|
            kids_map(s.skip(1)).dom().contains(y) ==> !(#[trigger] node_map(c).dom().contains(
                y,
            )));
        lemma_kids_map_push(s.skip(1), c);
        assert(kids_map(s.push(c)) =~= kids_map(s).union_prefer_right(node_map(c)));
    }
}

/// Replacing the sibling at `j` by one that stores the same entries plus a
/// fresh key on the same branch byte inserts just that key.
proof fn lemma_kids_map_update_insert<V>(
    s: Seq<PNode<V>>,
    j: int,
    c2: PNode<V>,
    x: Seq<u8>,
    v: V,
)
    requires
        wf_kids(s),
        distinct_first_bytes(s),
        0 <= j < s.len(),
        node_map(c2) =~= node_map(s[j]).insert(x, v),
        x.len() > 0,
        s[j].prefix@.len() > 0,
        x[0] == s[j].prefix@[0],
    ensures
        kids_map(s.update(j, c2)) =~= kids_map(s).insert(x, v),
    decreases s.len(),
{
    if j == 0 {
        assert(s.update(0, c2).skip(1) =~= s.skip(1));
        assert(s.update(0, c2)[0] == c2);
        assert forall|y: Seq<u8>| #[trigger] kids_map(s.update(0, c2)).dom().contains(
            y,
        ) implies kids_map(s).insert(x, v).dom().contains(y) && kids_map(s.update(0, c2))[y]
            == kids_map(s).insert(x, v)[y] by {}
        assert forall|y: Seq<u8>| #[trigger] kids_map(s).insert(x, v).dom().contains(
            y,
        ) implies kids_map(s.update(0, c2)).dom().contains(y) by {}
        assert(kids_map(s.update(0, c2)).dom() =~= kids_map(s).insert(x, v).dom());
    } else {
        assert(s.update(j, c2).skip(1) =~= s.skip(1).update(j - 1, c2));
        assert(s.update(j, c2)[0] == s[0]);
        assert(s.skip(1)[j - 1] == s[j]);
        assert(forall|a: int, b: int|
            0 <= a < s.skip(1).len() && 0 <= b < s.skip(1).len() && a != b ==> (#[trigger] s.skip(
                1,
            )[a]).prefix@[0] != (#[trigger] s.skip(1)[b]).prefix@[0]) by {
            assert(forall|a: int| 0 <= a < s.skip(1).len() ==> #[trigger] s.skip(1)[a] == s[a + 1]);
        }
        lemma_kids_map_update_insert(s.skip(1), j - 1, c2, x, v);
        lemma_wf_kids_index(s, 0);
        if node_map(s[0]).dom().contains(x) {
            lemma_node_map_keys(s[0], x);
            assert(false);
        }
        assert forall|y: Seq<u8>| #[trigger] kids_map(s.update(j, c2)).dom().contains(
            y,
        ) implies kids_map(s).insert(x, v).dom().contains(y) && kids_map(s.update(j, c2))[y]
            == kids_map(s).insert(x, v)[y] by {}
        assert forall|y: Seq<u8>| #[trigger] kids_map(s).insert(x, v).dom().contains(
            y,
        ) implies kids_map(s.update(j, c2)).dom().contains(y) by {}
        assert(kids_map(s.update(j, c2)).dom() =~= kids_map(s).insert(x, v).dom());
    }
}

/// Replacing the sibling at `j` by one that stores the same entries less a
/// key on the same branch byte removes just that key.
proof fn lemma_kids_map_update_remove<V>(
    s: Seq<PNode<V>>,
    j: int,
    c2: PNode<V>,
    x: Seq<u8>,
)
    requires
        wf_kids(s),
        distinct_first_bytes(s),
        0 <= j < s.len(),
        node_map(c2) =~= node_map(s[j]).remove(x),
        x.len() > 0,
        s[j].prefix@.len() > 0,
        x[0] == s[j].prefix@[0],
    ensures
        kids_map(s.update(j, c2)) =~= kids_map(s).remove(x),
    decreases s.len(),
{
    if j == 0 {
        assert(s.update(0, c2).skip(1) =~= s.skip(1));
        assert(s.update(0, c2)[0] == c2);
        if kids_map(s.skip(1)).dom().contains(x) {
            lemma_kids_map_inv(s.skip(1), x);
            let t = choose|t: int|
                0 <= t < s.skip(1).len() && node_map(#[trigger] s.skip(1)[t]).dom().contains(x)
                    && node_map(s.skip(1)[t])[x] == kids_map(s.skip(1))[x];
            assert(s.skip(1)[t] == s[t + 1]);
            lemma_wf_kids_index(s, t + 1);
            lemma_node_map_keys(s[t + 1], x);
            assert(false);
        }
        assert forall|y: Seq<u8>| #[trigger] kids_map(s.update(0, c2)).dom().contains(
            y,
        ) implies kids_map(s).remove(x).dom().contains(y) && kids_map(s.update(0, c2))[y]
            == kids_map(s).remove(x)[y] by {}
        assert forall|y: Seq<u8>| #[trigger] kids_map(s).remove(x).dom().contains(
            y,
        ) implies kids_map(s.update(0, c2)).dom().contains(y) by {}
        assert(kids_map(s.update(0, c2)).dom() =~= kids_map(s).remove(x).dom());
    } else {
        assert(s.update(j, c2).skip(1) =~= s.skip(1).update(j - 1, c2));
        assert(s.update(j, c2)[0] == s[0]);
        assert(s.skip(1)[j - 1] == s[j]);
        assert(forall|a: int, b: int|
            0 <= a < s.skip(1).len() && 0 <= b < s.skip(1).len() && a != b ==> (#[trigger] s.skip(
                1,
            )[a]).prefix@[0] != (#[trigger] s.skip(1)[b]).prefix@[0]) by {
            assert(forall|a: int| 0 <= a < s.skip(1).len() ==> #[trigger] s.skip(1)[a] == s[a + 1]);
        }
        lemma_kids_map_update_remove(s.skip(1), j - 1, c2, x);
        lemma_wf_kids_index(s, 0);
        if node_map(s[0]).dom().contains(x) {
            lemma_node_map_keys(s[0], x);
            assert(false);
        }
        assert forall|y: Seq<u8>| #[trigger] kids_map(s.update(j, c2)).dom().contains(
            y,
        ) implies kids_map(s).remove(x).dom().contains(y) && kids_map(s.update(j, c2))[y]
            == kids_map(s).remove(x)[y] by {}
        assert forall|y: Seq<u8>| #[trigger] kids_map(s).remove(x).dom().contains(
            y,
        ) implies kids_map(s.update(j, c2)).dom().contains(y) by {}
        assert(kids_map(s.update(j, c2)).dom() =~= kids_map(s).remove(x).dom());
    }
}

/// Replacing a sibling by one that stores the same entries keeps the whole.
proof fn lemma_kids_map_update_congruent<V>(s: Seq<PNode<V>>, j: int, c2: PNode<V>)
    requires
        0 <= j < s.len(),
        node_map(c2) == node_map(s[j]),
    ensures
        kids_map(s.update(j, c2)) =~= kids_map(s),
    decreases s.len(),
{
    if j == 0 {
        assert(s.update(0, c2).skip(1) =~= s.skip(1));
        assert(s.update(0, c2)[0] == c2);
    } else {
        assert(s.update(j, c2).skip(1) =~= s.skip(1).update(j - 1, c2));
        assert(s.update(j, c2)[0] == s[0]);
        assert(s.skip(1)[j - 1] == s[j]);
        lemma_kids_map_update_congruent(s.skip(1), j - 1, c2);
    }
}

/// A sibling that stores nothing can be dropped from the sequence.
proof fn lemma_kids_map_drop_empty<V>(s: Seq<PNode<V>>, j: int)
    requires
        0 <= j < s.len(),
        node_map(s[j]) =~= Map::<Seq<u8>, V>::empty(),
    ensures
        kids_map(s.remove(j)) =~= kids_map(s),
    decreases s.len(),
{
    if j == 0 {
        assert(s.remove(0) =~= s.skip(1));
    } else {
        assert(s.remove(j).skip(1) =~= s.skip(1).remove(j - 1));
        assert(s.remove(j)[0] == s[0]);
        assert(s.skip(1)[j - 1] == s[j]);
        lemma_kids_map_drop_empty(s.skip(1), j - 1);
    }
}

/// Every key stored under a sequence of well-formed siblings is non-empty.
proof fn lemma_kids_keys_nonempty<V>(s: Seq<PNode<V>>)
    requires
        wf_kids(s),
    ensures
        forall|y: Seq<u8>| #[trigger] kids_map(s).dom().contains(y) ==> y.len() > 0,
{
    assert forall|y: Seq<u8>| #[trigger] kids_map(s).dom().contains(y) implies y.len() > 0 by {
        lemma_kids_map_inv(s, y);
        let t = choose|t: int|
            0 <= t < s.len() && node_map(#[trigger] s[t]).dom().contains(y) && node_map(s[t])[y]
                == kids_map(s)[y];
        lemma_wf_kids_index(s, t);
        lemma_node_map_keys(s[t], y);
    }
}

/// A node without children stores exactly its terminal entry.
proof fn lemma_leaf_map<V>(n: PNode<V>)
    requires
        n.children@.len() == 0,
        n.value is Some,
    ensures
        node_map(n) =~= Map::<Seq<u8>, V>::empty().insert(n.prefix@, n.value->0),
    decreases n,
{
    assert(kids_map(n.children@) =~= Map::<Seq<u8>, V>::empty());
    assert(base_map(n) =~= Map::<Seq<u8>, V>::empty().insert(Seq::<u8>::empty(), n.value->0));
    lemma_prepend_keys_insert(
        n.prefix@,
        Map::<Seq<u8>, V>::empty(),
        Seq::<u8>::empty(),
        n.value->0,
    );
    assert(prepend_keys(n.prefix@, Map::<Seq<u8>, V>::empty()) =~= Map::<Seq<u8>, V>::empty()) by {
        assert forall|y: Seq<u8>| #[trigger] prepend_keys(
            n.prefix@,
            Map::<Seq<u8>, V>::empty(),
        ).dom().contains(y) implies false by {
            lemma_prepend_keys_inv(n.prefix@, Map::<Seq<u8>, V>::empty(), y);
        }
        assert(prepend_keys(n.prefix@, Map::<Seq<u8>, V>::empty()).dom()
            =~= Set::<Seq<u8>>::empty());
    }
    assert(n.prefix@ + Seq::<u8>::empty() =~= n.prefix@);
}

/// Copies `v[from..to]` into a fresh vector.
fn subrange_vec(v: &Vec<u8>, from: usize, to: usize) -> (r: Vec<u8>)
    requires
        from <= to,
        to <= v@.len(),
    ensures
        r@ == v@.subrange(from as int, to as int),
{
    let mut r: Vec<u8> = Vec::new();
    let mut t = from;
    while t < to
        invariant
            from <= t <= to,
            to <= v@.len(),
            r@ == v@.subrange(from as int, t as int),
        decreases to - t,
    {
        r.push(v[t]);
        t = t + 1;
        proof {
            assert(r@ =~= v@.subrange(from as int, t as int));
        }
    }
    r
}

/// Copies `key[from..]` into a fresh vector.
fn suffix_vec(key: &[u8], from: usize) -> (r: Vec<u8>)
    requires
        from <= key@.len(),
    ensures
        r@ == key@.skip(from as int),
{
    let mut r: Vec<u8> = Vec::new();
    let mut t = from;
    let klen = key.len();
    while t < klen
        invariant
            from <= t <= klen,
            klen == key@.len(),
            r@ == key@.subrange(from as int, t as int),
        decreases klen - t,
    {
        r.push(key[t]);
        t = t + 1;
        proof {
            assert(r@ =~= key@.subrange(from as int, t as int));
        }
    }
    proof {
        assert(r@ =~= key@.skip(from as int));
    }
    r
}

/// The concatenation of two byte vectors, as a fresh vector.
fn concat_bytes(a: &Vec<u8>, b: &Vec<u8>) -> (r: Vec<u8>)
    ensures
        r@ == a@ + b@,
{
    let mut r: Vec<u8> = Vec::new();
    let mut t: usize = 0;
    proof {
        assert(r@ =~= a@.subrange(0, 0));
    }
    while t < a.len()
        invariant
            t <= a@.len(),
            r@ == a@.subrange(0, t as int),
        decreases a@.len() - t,
    {
        r.push(a[t]);
        t = t + 1;
        proof {
            assert(r@ =~= a@.subrange(0, t as int));
        }
    }
    let mut u: usize = 0;
    proof {
        assert(a@.subrange(0, a@.len() as int) =~= a@);
        assert(r@ =~= a@ + b@.subrange(0, 0));
    }
    while u < b.len()
        invariant
            u <= b@.len(),
            r@ == a@ + b@.subrange(0, u as int),
        decreases b@.len() - u,
    {
        r.push(b[u]);
        u = u + 1;
        proof {
            assert(r@ =~= a@ + b@.subrange(0, u as int));
        }
    }
    proof {
        assert(a@.subrange(0, a@.len() as int) =~= a@);
        assert(r@ =~= a@ + b@);
    }
    r
}

/// Length of the longest common run of `p` starting at `key[i..]`.
fn match_prefix(p: &Vec<u8>, key: &[u8], i: usize) -> (m: usize)
    requires
        i <= key@.len(),
    ensures
        m <= p@.len(),
        i + m <= key@.len(),
        forall|t: int| 0 <= t < m ==> p@[t] == key@[i + t],
        m < p@.len() && i + m < key@.len() ==> p@[m as int] != key@[i + m],
{
    let klen = key.len();
    let mut m: usize = 0;
    while m < p.len() && i + m < klen && p[m] == key[i + m]
        invariant
            m <= p@.len(),
            i + m <= key@.len(),
            i <= key@.len(),
            klen == key@.len(),
            forall|t: int| 0 <= t < m ==> p@[t] == key@[i + t],
        decreases p@.len() - m,
    {
        m = m + 1;
    }
    m
}

/// Index of the child whose edge starts with byte `b`, if any.
fn find_child<V>(children: &Vec<PNode<V>>, b: u8) -> (r: Option<usize>)
    requires
        forall|i: int| 0 <= i < children@.len() ==> (#[trigger] children@[i]).prefix@.len() > 0,
    ensures
        match r {
            Some(j) => j < children@.len() && children@[j as int].prefix@[0] == b,
            None => forall|i: int|
                0 <= i < children@.len() ==> (#[trigger] children@[i]).prefix@[0] != b,
        },
{
    let mut j: usize = 0;
    while j < children.len()
        invariant
            j <= children@.len(),
            forall|i: int| 0 <= i < children@.len() ==> (#[trigger] children@[i]).prefix@.len() > 0,
            forall|i: int| 0 <= i < j ==> (#[trigger] children@[i]).prefix@[0] != b,
        decreases children@.len() - j,
    {
        if children[j].prefix[0] == b {
            return Some(j);
        }
        j = j + 1;
    }
    None
}

impl<V> PNode<V> {
    /// Looks up the key suffix `key[i..]` in this subtree.
    fn get<'a>(&'a self, key: &[u8], i: usize) -> (r: Option<&'a V>)
        requires
            wf_node(*self),
            i <= key@.len(),
        ensures
            match r {
                Some(v) => node_map(*self).dom().contains(key@.skip(i as int)) && *v == node_map(
                    *self,
                )[key@.skip(i as int)],
                None => !node_map(*self).dom().contains(key@.skip(i as int)),
            },
        decreases *self,
    {
        let ghost k = key@.skip(i as int);
        let klen = key.len();
        let m = match_prefix(&self.prefix, key, i);
        if m < self.prefix.len() {
            // the key ends inside this edge or diverges from it
            proof {
                if node_map(*self).dom().contains(k) {
                    lemma_node_map_keys(*self, k);
                    assert(k[m as int] == self.prefix@[m as int]);
                }
            }
            return None;
        }
        if i + m == klen {
            // the key ends exactly at this node
            proof {
                assert(k =~= self.prefix@);
                if self.value is Some {
                    lemma_prepend_keys_at(self.prefix@, base_map(*self), Seq::<u8>::empty());
                    assert(self.prefix@ + Seq::<u8>::empty() =~= self.prefix@);
                } else {
                    if node_map(*self).dom().contains(k) {
                        lemma_node_map_keys(*self, k);
                    }
                }
            }
            return self.value.as_ref();
        }
        let b = key[i + m];
        proof {
            assert(forall|t: int|
                0 <= t < self.children@.len() ==> (#[trigger] self.children@[t]).prefix@.len()
                    > 0) by {
                assert forall|t: int| 0 <= t < self.children@.len() implies (
                #[trigger] self.children@[t]).prefix@.len() > 0 by {
                    lemma_wf_kids_index(self.children@, t);
                }
            }
        }
        match find_child(&self.children, b) {
            None => {
                proof {
                    if node_map(*self).dom().contains(k) {
                        lemma_node_map_keys(*self, k);
                        assert(k[self.prefix@.len() as int] == key@[i + m]);
                    }
                }
                None
            },
            Some(j) => {
                proof {
                    lemma_wf_kids_index(self.children@, j as int);
                }
                let r = self.children[j].get(key, i + m);
                proof {
                    let rest = key@.skip((i + m) as int);
                    assert(rest =~= k.skip(self.prefix@.len() as int));
                    assert(rest[0] == key@[i + m]);
                    let base = base_map(*self);
                    if node_map(self.children@[j as int]).dom().contains(rest) {
                        lemma_kids_map_at(self.children@, j as int, rest);
                        assert(base.dom().contains(rest) && base[rest] == kids_map(
                            self.children@,
                        )[rest]) by {
                            lemma_node_map_keys(self.children@[j as int], rest);
                        }
                        lemma_prepend_keys_at(self.prefix@, base, rest);
                        assert(self.prefix@ + rest =~= k);
                    } else {
                        if node_map(*self).dom().contains(k) {
                            lemma_node_map_keys(*self, k);
                            let t = choose|t: int|
                                0 <= t < self.children@.len() && (
                                #[trigger] self.children@[t]).prefix@.len() > 0
                                    && self.children@[t].prefix@[0] == k[self.prefix@.len() as int]
                                    && node_map(self.children@[t]).dom().contains(
                                    k.skip(self.prefix@.len() as int),
                                ) && node_map(self.children@[t])[k.skip(
                                    self.prefix@.len() as int,
                                )] == node_map(*self)[k];
                            assert(self.children@[t].prefix@[0] == b);
                            assert(self.children@[j as int].prefix@[0] == b);
                            assert(t == j as int);
                        }
                    }
                }
                r
            },
        }
    }

    /// Every entry of this subtree, as the full key `base ++ stored suffix`
    /// paired with a reference to its value; each entry appears exactly once.
    #[verifier::rlimit(100)]
    fn collect_pairs<'a>(&'a self, base: &Vec<u8>) -> (out: Vec<(Vec<u8>, &'a V)>)
        requires
            wf_node(*self),
        ensures
            forall|t: int|
                0 <= t < out@.len() ==> is_prefix_of(base@, (#[trigger] out@[t]).0@)
                    && node_map(*self).dom().contains(out@[t].0@.skip(base@.len() as int))
                    && *out@[t].1 == node_map(*self)[out@[t].0@.skip(base@.len() as int)],
            forall|a: int, b: int| 0 <= a < b < out@.len() ==> out@[a].0@ != out@[b].0@,
            forall|y: Seq<u8>|
                #[trigger] node_map(*self).dom().contains(y) ==> exists|t: int|
                    0 <= t < out@.len() && (#[trigger] out@[t]).0@ == base@ + y,
        decreases *self,
    {
        let full = concat_bytes(base, &self.prefix);
        let mut out: Vec<(Vec<u8>, &'a V)> = Vec::new();
        if self.value.is_some() {
            let kcopy = concat_bytes(base, &self.prefix);
            out.push((kcopy, self.value.as_ref().unwrap()));
            proof {
                assert(out@[0].0@ == full@);
                assert(is_prefix_of(full@, out@[0].0@)) by {
                    assert(out@[0].0@.subrange(0, full@.len() as int) =~= full@);
                }
            }
        }
        let ghost s = self.children@;
        let mut j: usize = 0;
        proof {
            assert(s.subrange(0, 0) =~= Seq::<PNode<V>>::empty());
            assert(kids_map(Seq::<PNode<V>>::empty()) == Map::<Seq<u8>, V>::empty());
        }
        while j < self.children.len()
            invariant
                j <= s.len(),
                s == self.children@,
                wf_node(*self),
                full@ == base@ + self.prefix@,
                entries_ok(*self, j as int, full@, out@),
                entries_distinct(out@),
                entries_complete(*self, j as int, full@, out@),
            decreases s.len() - j,
        {
            proof {
                lemma_wf_kids_index(s, j as int);
            }
            let mut sub = self.children[j].collect_pairs(&full);
            let ghost sub0 = sub@;
            let ghost out0 = out@;
            out.append(&mut sub);
            proof {
                lemma_collect_step(*self, j as int, full@, out0, sub0);
            }
            j = j + 1;
        }
        proof {
            assert(s.subrange(0, s.len() as int) =~= s);
            let kd = kids_map(s);
            // translate the walk's bookkeeping to the subtree's map
            assert forall|t: int| 0 <= t < out@.len() implies is_prefix_of(
                base@,
                (#[trigger] out@[t]).0@,
            ) && node_map(*self).dom().contains(out@[t].0@.skip(base@.len() as int)) && *out@[t].1
                == node_map(*self)[out@[t].0@.skip(base@.len() as int)] by {
                let key = out@[t].0@;
                assert(key.subrange(0, base@.len() as int) =~= base@);
                if key.len() == full@.len() {
                    assert(key =~= full@);
                    lemma_prepend_keys_at(self.prefix@, base_map(*self), Seq::<u8>::empty());
                    assert(self.prefix@ + Seq::<u8>::empty() =~= self.prefix@);
                    assert(key.skip(base@.len() as int) =~= self.prefix@);
                } else {
                    let z = key.skip(full@.len() as int);
                    lemma_kids_keys_nonempty(s);
                    lemma_prepend_keys_at(self.prefix@, base_map(*self), z);
                    assert(key.subrange(0, full@.len() as int) == full@);
                    assert forall|u: int| 0 <= u < full@.len() implies key[u] == full@[u] by {
                        assert(key.subrange(0, full@.len() as int)[u] == key[u]);
                    }
                    assert(key.skip(base@.len() as int) =~= self.prefix@ + z);
                }
            }
            assert forall|y: Seq<u8>| #[trigger] node_map(*self).dom().contains(y) implies exists|
                t: int,
            |
                0 <= t < out@.len() && (#[trigger] out@[t]).0@ == base@ + y by {
                lemma_prepend_keys_inv(self.prefix@, base_map(*self), y);
                let rest_y = y.skip(self.prefix@.len() as int);
                if rest_y.len() == 0 {
                    assert(rest_y =~= Seq::<u8>::empty());
                    if self.value is None {
                        lemma_kids_keys_nonempty(s);
                        assert(false);
                    }
                    let t2 = choose|t2: int|
                        0 <= t2 < out@.len() && (#[trigger] out@[t2]).0@ == full@;
                    assert(out@[t2].0@ =~= base@ + y);
                } else {
                    assert(kd.dom().contains(rest_y));
                    let t2 = choose|t2: int|
                        0 <= t2 < out@.len() && (#[trigger] out@[t2]).0@ == full@ + rest_y;
                    assert(out@[t2].0@ =~= base@ + y);
                }
            }
        }
        out
    }

    /// Every entry of this subtree whose stored key starts with `p[i..]`,
    /// reported under its full key `base ++ stored suffix`.
    #[verifier::rlimit(100)]
    fn collect_under<'a>(&'a self, p: &[u8], i: usize, base: &Vec<u8>) -> (out: Vec<
        (Vec<u8>, &'a V),
    >)
        requires
            wf_node(*self),
            i <= p@.len(),
            base@ == p@.subrange(0, i as int),
        ensures
            forall|t: int|
                0 <= t < out@.len() ==> is_prefix_of(base@, (#[trigger] out@[t]).0@)
                    && node_map(*self).dom().contains(out@[t].0@.skip(base@.len() as int))
                    && is_prefix_of(p@.skip(i as int), out@[t].0@.skip(base@.len() as int))
                    && *out@[t].1 == node_map(*self)[out@[t].0@.skip(base@.len() as int)],
            forall|a: int, b: int| 0 <= a < b < out@.len() ==> out@[a].0@ != out@[b].0@,
            forall|y: Seq<u8>|
                #[trigger] node_map(*self).dom().contains(y) && is_prefix_of(p@.skip(i as int), y)
                    ==> exists|t: int| 0 <= t < out@.len() && (#[trigger] out@[t]).0@ == base@ + y,
        decreases *self,
    {
        let ghost q = p@.skip(i as int);
        let klen = p.len();
        let m = match_prefix(&self.prefix, p, i);
        if i + m == klen {
            // the sought prefix ends inside this subtree: take all of it
            let out = self.collect_pairs(base);
            proof {
                assert forall|t: int| 0 <= t < out@.len() implies is_prefix_of(
                    q,
                    (#[trigger] out@[t]).0@.skip(base@.len() as int),
                ) by {
                    let y = out@[t].0@.skip(base@.len() as int);
                    lemma_node_map_keys(*self, y);
                    assert(q.len() == m);
                    assert(y.subrange(0, m as int) =~= q);
                }
            }
            return out;
        }
        if m < self.prefix.len() {
            // the sought prefix leaves this edge: nothing qualifies
            let out: Vec<(Vec<u8>, &'a V)> = Vec::new();
            proof {
                assert forall|y: Seq<u8>| #[trigger] node_map(*self).dom().contains(y)
                    && is_prefix_of(q, y) implies false by {
                    lemma_node_map_keys(*self, y);
                    assert(y[m as int] == self.prefix@[m as int]);
                    assert(y[m as int] == q[m as int]);
                }
            }
            return out;
        }
        let b = p[i + m];
        proof {
            assert forall|t: int| 0 <= t < self.children@.len() implies (
            #[trigger] self.children@[t]).prefix@.len() > 0 by {
                lemma_wf_kids_index(self.children@, t);
            }
        }
        let ghost rest = p@.skip((i + m) as int);
        proof {
            assert(rest =~= q.skip(m as int));
            assert(rest[0] == p@[i + m]);
        }
        match find_child(&self.children, b) {
            None => {
                let out: Vec<(Vec<u8>, &'a V)> = Vec::new();
                proof {
                    assert forall|y: Seq<u8>| #[trigger] node_map(*self).dom().contains(y)
                        && is_prefix_of(q, y) implies false by {
                        lemma_node_map_keys(*self, y);
                        assert(y.len() > self.prefix@.len());
                        assert(y[m as int] == q[m as int]);
                    }
                }
                out
            },
            Some(j) => {
                proof {
                    lemma_wf_kids_index(self.children@, j as int);
                }
                let base2 = concat_bytes(base, &self.prefix);
                proof {
                    assert(base2@ =~= p@.subrange(0, (i + m) as int));
                }
                let out = self.children[j].collect_under(p, i + m, &base2);
                proof {
                    let c = self.children@[j as int];
                    assert forall|t: int| 0 <= t < out@.len() implies is_prefix_of(
                        base@,
                        (#[trigger] out@[t]).0@,
                    ) && node_map(*self).dom().contains(out@[t].0@.skip(base@.len() as int))
                        && is_prefix_of(q, out@[t].0@.skip(base@.len() as int)) && *out@[t].1
                        == node_map(*self)[out@[t].0@.skip(base@.len() as int)] by {
                        let key = out@[t].0@;
                        let y2 = key.skip(base2@.len() as int);
                        assert(is_prefix_of(base2@, key));
                        assert(node_map(c).dom().contains(y2));
                        assert(is_prefix_of(rest, y2));
                        lemma_kids_map_at(self.children@, j as int, y2);
                        lemma_node_map_keys(c, y2);
                        lemma_prepend_keys_at(self.prefix@, base_map(*self), y2);
                        lemma_prefix_split(base2@, key);
                        assert(base2@ == base@ + self.prefix@);
                        assert(key.skip(base@.len() as int) =~= self.prefix@ + y2);
                        assert(is_prefix_of(base@, key)) by {
                            assert(key.subrange(0, base@.len() as int) =~= base@);
                        }
                        assert(q =~= self.prefix@ + rest);
                        lemma_prefix_concat(self.prefix@, rest, y2);
                    }
                    assert forall|y: Seq<u8>| #[trigger] node_map(*self).dom().contains(y)
                        && is_prefix_of(q, y) implies exists|t: int|
                        0 <= t < out@.len() && (#[trigger] out@[t]).0@ == base@ + y by {
                        lemma_node_map_keys(*self, y);
                        assert(y.len() > self.prefix@.len());
                        assert(y[m as int] == q[m as int]);
                        let t = choose|t: int|
                            0 <= t < self.children@.len() && (
                            #[trigger] self.children@[t]).prefix@.len() > 0
                                && self.children@[t].prefix@[0] == y[self.prefix@.len() as int]
                                && node_map(self.children@[t]).dom().contains(
                                y.skip(self.prefix@.len() as int),
                            ) && node_map(self.children@[t])[y.skip(self.prefix@.len() as int)]
                                == node_map(*self)[y];
                        assert(t == j as int);
                        let y2 = y.skip(m as int);
                        assert(is_prefix_of(rest, y2)) by {
                            assert(y2.subrange(0, rest.len() as int) =~= rest);
                        }
                        let t2 = choose|t2: int|
                            0 <= t2 < out@.len() && (#[trigger] out@[t2]).0@ == base2@ + y2;
                        assert(out@[t2].0@ =~= base@ + y);
                    }
                }
                out
            },
        }
    }

    /// Whether some key in this subtree starts with `p[i..]`.
    fn has_prefix(&self, p: &[u8], i: usize) -> (r: bool)
        requires
            wf_node(*self),
            i <= p@.len(),
        ensures
            r == exists|y: Seq<u8>| #[trigger] node_map(*self).dom().contains(y) && is_prefix_of(
                p@.skip(i as int),
                y,
            ),
        decreases *self,
    {
        let ghost q = p@.skip(i as int);
        let klen = p.len();
        let m = match_prefix(&self.prefix, p, i);
        if i + m == klen {
            // the query ran out while matching this edge
            let r = self.value.is_some() || self.children.len() > 0;
            proof {
                if r {
                    lemma_node_map_nonempty(*self);
                    let y = choose|y: Seq<u8>| #[trigger] node_map(*self).dom().contains(y);
                    lemma_node_map_keys(*self, y);
                    assert(is_prefix_of(q, y)) by {
                        assert(q.len() == m);
                        assert(y.subrange(0, m as int) =~= q);
                    }
                } else {
                    assert forall|y: Seq<u8>| #[trigger] node_map(*self).dom().contains(
                        y,
                    ) implies false by {
                        lemma_prepend_keys_inv(self.prefix@, base_map(*self), y);
                    }
                }
            }
            return r;
        }
        if m < self.prefix.len() {
            // the query leaves this edge: nothing below can extend it
            proof {
                assert forall|y: Seq<u8>| #[trigger] node_map(*self).dom().contains(
                    y,
                ) implies !is_prefix_of(q, y) by {
                    lemma_node_map_keys(*self, y);
                    if is_prefix_of(q, y) {
                        assert(y[m as int] == self.prefix@[m as int]);
                        assert(y[m as int] == q[m as int]);
                    }
                }
            }
            return false;
        }
        // the edge is exhausted: continue under the next query byte
        let b = p[i + m];
        proof {
            assert forall|t: int| 0 <= t < self.children@.len() implies (
            #[trigger] self.children@[t]).prefix@.len() > 0 by {
                lemma_wf_kids_index(self.children@, t);
            }
        }
        let ghost rest = p@.skip((i + m) as int);
        proof {
            assert(rest =~= q.skip(m as int));
            assert(rest[0] == p@[i + m]);
        }
        match find_child(&self.children, b) {
            None => {
                proof {
                    assert forall|y: Seq<u8>| #[trigger] node_map(*self).dom().contains(
                        y,
                    ) implies !is_prefix_of(q, y) by {
                        lemma_node_map_keys(*self, y);
                        if is_prefix_of(q, y) {
                            assert(y.len() > self.prefix@.len());
                            assert(y[m as int] == q[m as int]);
                        }
                    }
                }
                false
            },
            Some(j) => {
                proof {
                    lemma_wf_kids_index(self.children@, j as int);
                }
                let r = self.children[j].has_prefix(p, i + m);
                proof {
                    let c = self.children@[j as int];
                    if r {
                        let y2 = choose|y2: Seq<u8>| #[trigger] node_map(c).dom().contains(y2)
                            && is_prefix_of(rest, y2);
                        lemma_kids_map_at(self.children@, j as int, y2);
                        lemma_prepend_keys_at(self.prefix@, base_map(*self), y2);
                        let y = self.prefix@ + y2;
                        assert(node_map(*self).dom().contains(y));
                        assert(is_prefix_of(q, y)) by {
                            assert(q =~= self.prefix@ + rest);
                            assert(q.subrange(0, m as int) =~= self.prefix@);
                            assert(y.subrange(0, q.len() as int) =~= q);
                        }
                    } else {
                        assert forall|y: Seq<u8>| #[trigger] node_map(*self).dom().contains(
                            y,
                        ) implies !is_prefix_of(q, y) by {
                            lemma_node_map_keys(*self, y);
                            if is_prefix_of(q, y) {
                                assert(y.len() > self.prefix@.len());
                                assert(y[m as int] == q[m as int]);
                                let t = choose|t: int|
                                    0 <= t < self.children@.len() && (
                                    #[trigger] self.children@[t]).prefix@.len() > 0
                                        && self.children@[t].prefix@[0] == y[self.prefix@.len() as int]
                                        && node_map(self.children@[t]).dom().contains(
                                        y.skip(self.prefix@.len() as int),
                                    ) && node_map(self.children@[t])[y.skip(
                                        self.prefix@.len() as int,
                                    )] == node_map(*self)[y];
                                assert(t == j as int);
                                assert(is_prefix_of(rest, y.skip(m as int))) by {
                                    assert(y.skip(m as int).subrange(0, rest.len() as int)
                                        =~= rest);
                                }
                            }
                        }
                    }
                }
                r
            },
        }
    }

    /// The stored prefixes of `q` in this subtree, as pairs of consumed
    /// length and value, in strictly increasing length along the descent.
    fn path_values<'a>(&'a self, q: &[u8], i: usize) -> (out: Vec<(usize, &'a V)>)
        requires
            wf_node(*self),
            i <= q@.len(),
        ensures
            forall|t: int|
                0 <= t < out@.len() ==> i < #[trigger] out@[t].0 + 1 && out@[t].0 <= q@.len()
                    && node_map(*self).dom().contains(q@.subrange(i as int, out@[t].0 as int))
                    && *out@[t].1 == node_map(*self)[q@.subrange(i as int, out@[t].0 as int)],
            forall|a: int, b: int| 0 <= a < b < out@.len() ==> out@[a].0 < out@[b].0,
            forall|l: int|
                i <= l <= q@.len() && #[trigger] node_map(*self).dom().contains(
                    q@.subrange(i as int, l),
                ) ==> exists|t: int| 0 <= t < out@.len() && (#[trigger] out@[t]).0 == l,
        decreases *self,
    {
        let klen = q.len();
        let m = match_prefix(&self.prefix, q, i);
        let mut out: Vec<(usize, &'a V)> = Vec::new();
        if m < self.prefix.len() {
            // the query leaves this edge: no stored key is a prefix of it
            proof {
                assert forall|l: int|
                    i <= l <= q@.len() && #[trigger] node_map(*self).dom().contains(
                        q@.subrange(i as int, l),
                    ) implies false by {
                    let y = q@.subrange(i as int, l);
                    lemma_node_map_keys(*self, y);
                    if l - i > m {
                        assert(y[m as int] == self.prefix@[m as int]);
                        assert(y[m as int] == q@[i + m]);
                    }
                }
            }
            return out;
        }
        let n = i + m;
        proof {
            assert(q@.subrange(i as int, n as int) =~= self.prefix@);
        }
        if self.value.is_some() {
            let v: &'a V = self.value.as_ref().unwrap();
            out.push((n, v));
            proof {
                lemma_prepend_keys_at(self.prefix@, base_map(*self), Seq::<u8>::empty());
                assert(self.prefix@ + Seq::<u8>::empty() =~= self.prefix@);
            }
        }
        if n == klen {
            proof {
                assert forall|l: int|
                    i <= l <= q@.len() && #[trigger] node_map(*self).dom().contains(
                        q@.subrange(i as int, l),
                    ) implies exists|t: int| 0 <= t < out@.len() && (#[trigger] out@[t]).0
                    == l by {
                    lemma_node_map_keys(*self, q@.subrange(i as int, l));
                    assert(l == n);
                    assert(out@[0].0 == l);
                }
            }
            return out;
        }
        let b = q[n];
        proof {
            assert forall|t: int| 0 <= t < self.children@.len() implies (
            #[trigger] self.children@[t]).prefix@.len() > 0 by {
                lemma_wf_kids_index(self.children@, t);
            }
        }
        match find_child(&self.children, b) {
            None => {
                proof {
                    assert forall|l: int|
                        i <= l <= q@.len() && #[trigger] node_map(*self).dom().contains(
                            q@.subrange(i as int, l),
                        ) implies exists|t: int| 0 <= t < out@.len() && (#[trigger] out@[t]).0
                        == l by {
                        let y = q@.subrange(i as int, l);
                        lemma_node_map_keys(*self, y);
                        if l > n {
                            assert(y[m as int] == q@[n as int]);
                            assert(false);
                        }
                        assert(l == n);
                        assert(out@[0].0 == l);
                    }
                }
                out
            },
            Some(j) => {
                proof {
                    lemma_wf_kids_index(self.children@, j as int);
                }
                let mut sub = self.children[j].path_values(q, n);
                let ghost sub0 = sub@;
                let ghost out0 = out@;
                let ghost c = self.children@[j as int];
                out.append(&mut sub);
                proof {
                    // entries from below sit deeper than this node's own
                    assert forall|t: int| 0 <= t < sub0.len() implies sub0[t].0 > n by {
                        let y2 = q@.subrange(n as int, sub0[t].0 as int);
                        lemma_node_map_keys(c, y2);
                    }
                    assert forall|t: int| 0 <= t < sub0.len() implies n < #[trigger] sub0[t].0
                        && sub0[t].0 <= q@.len() && node_map(*self).dom().contains(
                        q@.subrange(i as int, sub0[t].0 as int),
                    ) && *sub0[t].1 == node_map(*self)[q@.subrange(i as int, sub0[t].0 as int)] by {
                        let l = sub0[t].0 as int;
                        let y2 = q@.subrange(n as int, l);
                        lemma_kids_map_at(self.children@, j as int, y2);
                        lemma_node_map_keys(c, y2);
                        lemma_prepend_keys_at(self.prefix@, base_map(*self), y2);
                        assert(self.prefix@ + y2 =~= q@.subrange(i as int, l));
                    }
                    assert forall|t: int| 0 <= t < out@.len() implies i < #[trigger] out@[t].0 + 1
                        && out@[t].0 <= q@.len() && node_map(*self).dom().contains(
                        q@.subrange(i as int, out@[t].0 as int),
                    ) && *out@[t].1 == node_map(*self)[q@.subrange(i as int, out@[t].0 as int)] by {
                        if t < out0.len() {
                            assert(out@[t] == out0[t]);
                            assert(out0[t].0 == n);
                            lemma_prepend_keys_at(self.prefix@, base_map(*self), Seq::<u8>::empty());
                            assert(self.prefix@ + Seq::<u8>::empty() =~= self.prefix@);
                        } else {
                            assert(out@[t] == sub0[t - out0.len()]);
                        }
                    }
                    assert forall|l: int|
                        i <= l <= q@.len() && #[trigger] node_map(*self).dom().contains(
                            q@.subrange(i as int, l),
                        ) implies exists|t: int| 0 <= t < out@.len() && (#[trigger] out@[t]).0
                        == l by {
                        let y = q@.subrange(i as int, l);
                        lemma_node_map_keys(*self, y);
                        if l == n {
                            assert(out@[0].0 == l);
                        } else {
                            assert(l > n) by {
                                if l < n {
                                    assert(y.len() < self.prefix@.len());
                                }
                            }
                            assert(y[m as int] == q@[n as int]);
                            let t = choose|t: int|
                                0 <= t < self.children@.len() && (
                                #[trigger] self.children@[t]).prefix@.len() > 0
                                    && self.children@[t].prefix@[0] == y[self.prefix@.len() as int]
                                    && node_map(self.children@[t]).dom().contains(
                                    y.skip(self.prefix@.len() as int),
                                ) && node_map(self.children@[t])[y.skip(
                                    self.prefix@.len() as int,
                                )] == node_map(*self)[y];
                            assert(t == j as int);
                            assert(y.skip(m as int) =~= q@.subrange(n as int, l));
                            let t2 = choose|t2: int|
                                0 <= t2 < sub0.len() && (#[trigger] sub0[t2]).0 == l;
                            assert(out@[out0.len() + t2] == sub0[t2]);
                            assert(out@[out0.len() + t2].0 == l);
                        }
                    }
                }
                out
            },
        }
    }

    /// Stores `key[i..]` in this subtree, splitting the edge on divergence;
    /// returns the displaced value when the key was already bound.
    fn insert(&mut self, key: &[u8], i: usize, value: V) -> (r: Option<V>)
        requires
            wf_node(*old(self)),
            i <= key@.len(),
            old(self).prefix@.len() > 0 ==> child_ok(*old(self)) && i < key@.len() && old(
                self,
            ).prefix@[0] == key@[i as int],
        ensures
            wf_node(*final(self)),
            node_map(*final(self)) =~= node_map(*old(self)).insert(key@.skip(i as int), value),
            child_ok(*old(self)) ==> child_ok(*final(self)),
            old(self).prefix@.len() == 0 ==> final(self).prefix@ == old(self).prefix@,
            old(self).prefix@.len() > 0 ==> final(self).prefix@.len() > 0
                && final(self).prefix@[0] == old(self).prefix@[0],
            match r {
                Some(v) => node_map(*old(self)).dom().contains(key@.skip(i as int)) && v
                    == node_map(*old(self))[key@.skip(i as int)],
                None => !node_map(*old(self)).dom().contains(key@.skip(i as int)),
            },
        decreases *old(self),
    {
        let ghost k = key@.skip(i as int);
        let klen = key.len();
        let m = match_prefix(&self.prefix, key, i);
        if m == self.prefix.len() {
            if i + m == klen {
                // the key ends exactly at this node: install or replace
                proof {
                    assert(k =~= self.prefix@);
                }
                let prev = self.value.take();
                self.value = Some(value);
                proof {
                    let old_base = base_map(*old(self));
                    assert(base_map(*self) =~= old_base.insert(Seq::<u8>::empty(), value));
                    lemma_prepend_keys_insert(self.prefix@, old_base, Seq::<u8>::empty(), value);
                    assert(self.prefix@ + Seq::<u8>::empty() =~= self.prefix@);
                    assert(node_map(*self) =~= node_map(*old(self)).insert(k, value));
                    if prev is Some {
                        lemma_prepend_keys_at(self.prefix@, old_base, Seq::<u8>::empty());
                    } else {
                        if node_map(*old(self)).dom().contains(k) {
                            lemma_node_map_keys(*old(self), k);
                        }
                    }
                }
                return prev;
            }
            // descend on the next byte of the key
            let b = key[i + m];
            proof {
                assert(forall|t: int|
                    0 <= t < self.children@.len() ==> (#[trigger] self.children@[t]).prefix@.len()
                        > 0) by {
                    assert forall|t: int| 0 <= t < self.children@.len() implies (
                    #[trigger] self.children@[t]).prefix@.len() > 0 by {
                        lemma_wf_kids_index(self.children@, t);
                    }
                }
            }
            let ghost rest = key@.skip((i + m) as int);
            proof {
                assert(rest =~= k.skip(self.prefix@.len() as int));
                assert(rest[0] == key@[i + m]);
            }
            match find_child(&self.children, b) {
                Some(j) => {
                    proof {
                        lemma_wf_kids_index(self.children@, j as int);
                    }
                    let mut c = self.children.remove(j);
                    let prev = c.insert(key, i + m, value);
                    self.children.insert(j, c);
                    proof {
                        let s = old(self).children@;
                        let cj = s[j as int];
                        let c2 = self.children@[j as int];
                        assert(self.children@ =~= s.update(j as int, c2));
                        lemma_kids_map_update_insert(s, j as int, c2, rest, value);
                        assert(base_map(*self) =~= base_map(*old(self)).insert(rest, value));
                        lemma_prepend_keys_insert(self.prefix@, base_map(*old(self)), rest, value);
                        assert(self.prefix@ + rest =~= k);
                        assert(node_map(*self) =~= node_map(*old(self)).insert(k, value));
                        assert(wf_node(*self)) by {
                            assert forall|t: int| 0 <= t < self.children@.len() implies child_ok(
                                #[trigger] self.children@[t],
                            ) && wf_node(self.children@[t]) by {
                                lemma_wf_kids_index(s, t);
                            }
                            lemma_wf_kids_build(self.children@);
                        }
                        // the looked-up value travels unchanged through the edge
                        if prev is Some {
                            lemma_kids_map_at(s, j as int, rest);
                            lemma_node_map_keys(cj, rest);
                            lemma_prepend_keys_at(self.prefix@, base_map(*old(self)), rest);
                        } else {
                            if node_map(*old(self)).dom().contains(k) {
                                lemma_node_map_keys(*old(self), k);
                                let t = choose|t: int|
                                    0 <= t < s.len() && (#[trigger] s[t]).prefix@.len() > 0 && s[t].prefix@[0]
                                        == k[old(self).prefix@.len() as int] && node_map(
                                        s[t],
                                    ).dom().contains(k.skip(old(self).prefix@.len() as int))
                                        && node_map(s[t])[k.skip(old(self).prefix@.len() as int)]
                                        == node_map(*old(self))[k];
                                assert(s[t].prefix@[0] == b);
                                assert(t == j as int);
                            }
                        }
                    }
                    prev
                },
                None => {
                    // no child starts with this byte: attach a fresh leaf
                    let leaf_prefix = suffix_vec(key, i + m);
                    let leaf = PNode { prefix: leaf_prefix, value: Some(value), children: Vec::new() };
                    proof {
                        lemma_leaf_map(leaf);
                    }
                    self.children.push(leaf);
                    proof {
                        let s = old(self).children@;
                        let leaf2 = self.children@[s.len() as int];
                        assert forall|y: Seq<u8>| kids_map(s).dom().contains(y) implies !(
                        #[trigger] node_map(leaf2).dom().contains(y)) by {
                            if node_map(leaf2).dom().contains(y) {
                                assert(y == rest);
                                lemma_kids_map_inv(s, y);
                                let t = choose|t: int|
                                    0 <= t < s.len() && node_map(#[trigger] s[t]).dom().contains(y)
                                        && node_map(s[t])[y] == kids_map(s)[y];
                                lemma_wf_kids_index(s, t);
                                lemma_node_map_keys(s[t], y);
                                assert(y[0] == s[t].prefix@[0]);
                                assert(false);
                            }
                        }
                        lemma_kids_map_push(s, leaf2);
                        assert(kids_map(self.children@) =~= kids_map(s).insert(rest, value)) by {
                            assert(node_map(leaf2) =~= Map::<Seq<u8>, V>::empty().insert(
                                rest,
                                value,
                            ));
                        }
                        assert(base_map(*self) =~= base_map(*old(self)).insert(rest, value));
                        lemma_prepend_keys_insert(self.prefix@, base_map(*old(self)), rest, value);
                        assert(self.prefix@ + rest =~= k);
                        assert(node_map(*self) =~= node_map(*old(self)).insert(k, value));
                        assert(wf_node(*self)) by {
                            assert forall|t: int| 0 <= t < self.children@.len() implies child_ok(
                                #[trigger] self.children@[t],
                            ) && wf_node(self.children@[t]) by {
                                if t < s.len() {
                                    lemma_wf_kids_index(s, t);
                                    assert(self.children@[t] == s[t]);
                                }
                            }
                            lemma_wf_kids_build(self.children@);
                        }
                        if node_map(*old(self)).dom().contains(k) {
                            lemma_node_map_keys(*old(self), k);
                        }
                    }
                    None
                },
            }
        } else {
            // diverge inside this edge: split it at position m
            let shared = subrange_vec(&self.prefix, 0, m);
            let hanging = subrange_vec(&self.prefix, m, self.prefix.len());
            let old_value = self.value.take();
            let mut old_children: Vec<PNode<V>> = Vec::new();
            core::mem::swap(&mut old_children, &mut self.children);
            let displaced = PNode { prefix: hanging, value: old_value, children: old_children };
            proof {
            assert(base_map(displaced) == base_map(*old(self)));
                assert(wf_node(displaced));
                assert(old(self).prefix@ =~= shared@ + displaced.prefix@);
                lemma_prepend_keys_compose(shared@, displaced.prefix@, base_map(*old(self)));
                assert(prepend_keys(shared@, node_map(displaced)) =~= node_map(*old(self)));
            }
            if i + m == klen {
                // the key ends inside the edge: the split node carries it
                let mut kids: Vec<PNode<V>> = Vec::new();
                kids.push(displaced);
                self.prefix = shared;
                self.value = Some(value);
                self.children = kids;
                proof {
                    let d = self.children@[0];
                    assert(kids_map(self.children@) =~= node_map(d)) by {
                        assert(self.children@.skip(1) =~= Seq::<PNode<V>>::empty());
                        assert(kids_map(self.children@) == kids_map(
                            self.children@.skip(1),
                        ).union_prefer_right(node_map(self.children@[0])));
                        assert(kids_map(Seq::<PNode<V>>::empty()) == Map::<Seq<u8>, V>::empty());
                    }
                    assert(base_map(*self) =~= node_map(d).insert(Seq::<u8>::empty(), value));
                    lemma_prepend_keys_insert(shared@, node_map(d), Seq::<u8>::empty(), value);
                    assert(shared@ + Seq::<u8>::empty() =~= shared@);
                    assert(k =~= shared@);
                    assert(node_map(*self) =~= node_map(*old(self)).insert(k, value));
                    assert(wf_node(*self)) by {
                        lemma_wf_kids_build(self.children@);
                    }
                    if node_map(*old(self)).dom().contains(k) {
                        lemma_node_map_keys(*old(self), k);
                    }
                }
                None
            } else {
                // two ways out of the split point: the old subtree and a leaf
                let b2 = key[i + m];
                let leaf_prefix = suffix_vec(key, i + m);
                let leaf = PNode { prefix: leaf_prefix, value: Some(value), children: Vec::new() };
                proof {
                    lemma_leaf_map(leaf);
                }
                let mut kids: Vec<PNode<V>> = Vec::new();
                kids.push(displaced);
                kids.push(leaf);
                self.prefix = shared;
                self.value = None;
                self.children = kids;
                proof {
                    let ghost rest = key@.skip((i + m) as int);
                    let d = self.children@[0];
                    let lf = self.children@[1];
                    assert(kids_map(self.children@) =~= node_map(d).insert(rest, value)) by {
                        assert(self.children@.skip(1) =~= seq![lf]);
                        assert(self.children@.skip(1).skip(1) =~= Seq::<PNode<V>>::empty());
                        assert(kids_map(self.children@) =~= kids_map(self.children@.skip(1))
                            .union_prefer_right(node_map(d)));
                        assert(kids_map(self.children@.skip(1)) =~= node_map(lf));
                        assert(node_map(lf) =~= Map::<Seq<u8>, V>::empty().insert(rest, value));
                        assert forall|y: Seq<u8>| #[trigger] node_map(d).dom().contains(
                            y,
                        ) implies y != rest by {
                            lemma_node_map_keys(d, y);
                            assert(y[0] == d.prefix@[0]);
                            assert(rest[0] == key@[i + m]);
                        }
                        assert(kids_map(self.children@) =~= node_map(d).insert(rest, value));
                    }
                    assert(base_map(*self) =~= node_map(d).insert(rest, value));
                    lemma_prepend_keys_insert(shared@, node_map(d), rest, value);
                    assert(shared@ + rest =~= k);
                    assert(node_map(*self) =~= node_map(*old(self)).insert(k, value));
                    assert(wf_node(*self)) by {
                        lemma_wf_kids_build(self.children@);
                    }
                    if node_map(*old(self)).dom().contains(k) {
                        lemma_node_map_keys(*old(self), k);
                        assert(k[m as int] == old(self).prefix@[m as int]);
                    }
                }
                None
            }
        }
    }
}

/// Enumeration bookkeeping: each gathered pair extends `fullv` (the path to
/// the node being walked), the pair at exactly `fullv` is the node's terminal
/// entry, and longer pairs belong to the first `j` children.
spec fn entries_ok<V>(n: PNode<V>, j: int, fullv: Seq<u8>, out: Seq<(Vec<u8>, &V)>) -> bool {
    forall|t: int|
        0 <= t < out.len() ==> is_prefix_of(fullv, (#[trigger] out[t]).0@) && (out[t].0@.len()
            == fullv.len() ==> n.value is Some && *out[t].1 == n.value->0) && (out[t].0@.len()
            > fullv.len() ==> kids_map(n.children@.subrange(0, j)).dom().contains(
            out[t].0@.skip(fullv.len() as int),
        ) && *out[t].1 == kids_map(n.children@.subrange(0, j))[out[t].0@.skip(fullv.len() as int)])
}

/// No two gathered pairs carry the same key.
spec fn entries_distinct<V>(out: Seq<(Vec<u8>, &V)>) -> bool {
    forall|a: int, b: int| 0 <= a < b < out.len() ==> out[a].0@ != out[b].0@
}

/// Every entry owed so far has been gathered: the terminal one, and one for
/// each key under the first `j` children.
spec fn entries_complete<V>(n: PNode<V>, j: int, fullv: Seq<u8>, out: Seq<(Vec<u8>, &V)>) -> bool {
    &&& (n.value is Some ==> exists|t: int| 0 <= t < out.len() && (#[trigger] out[t]).0@ == fullv)
    &&& forall|z: Seq<u8>|
        #[trigger] kids_map(n.children@.subrange(0, j)).dom().contains(z) ==> exists|t: int|
            0 <= t < out.len() && (#[trigger] out[t]).0@ == fullv + z
}

/// One step of the enumeration: appending a correct and complete batch for
/// child `j` extends the bookkeeping from `j` to `j + 1` children.
#[verifier::rlimit(100)]
proof fn lemma_collect_step<V>(
    n: PNode<V>,
    j: int,
    fullv: Seq<u8>,
    out0: Seq<(Vec<u8>, &V)>,
    sub0: Seq<(Vec<u8>, &V)>,
)
    requires
        wf_node(n),
        0 <= j < n.children@.len(),
        entries_ok(n, j, fullv, out0),
        entries_distinct(out0),
        entries_complete(n, j, fullv, out0),
        forall|t: int|
            0 <= t < sub0.len() ==> is_prefix_of(fullv, (#[trigger] sub0[t]).0@) && node_map(
                n.children@[j],
            ).dom().contains(sub0[t].0@.skip(fullv.len() as int)) && *sub0[t].1 == node_map(
                n.children@[j],
            )[sub0[t].0@.skip(fullv.len() as int)],
        entries_distinct(sub0),
        forall|y: Seq<u8>|
            #[trigger] node_map(n.children@[j]).dom().contains(y) ==> exists|t: int|
                0 <= t < sub0.len() && (#[trigger] sub0[t]).0@ == fullv + y,
    ensures
        entries_ok(n, j + 1, fullv, out0 + sub0),
        entries_distinct(out0 + sub0),
        entries_complete(n, j + 1, fullv, out0 + sub0),
{
    let s = n.children@;
    let c = s[j];
    let outn = out0 + sub0;
    let kids_j = kids_map(s.subrange(0, j));
    let kids_j1 = kids_map(s.subrange(0, j + 1));
    lemma_wf_kids_index(s, j);
    assert(s.subrange(0, j + 1) =~= s.subrange(0, j).push(c));
    assert forall|y: Seq<u8>| kids_j.dom().contains(y) implies !(
    #[trigger] node_map(c).dom().contains(y)) by {
        if node_map(c).dom().contains(y) {
            lemma_node_map_keys(c, y);
            lemma_kids_map_inv(s.subrange(0, j), y);
            let t = choose|t: int|
                0 <= t < s.subrange(0, j).len() && node_map(
                    #[trigger] s.subrange(0, j)[t],
                ).dom().contains(y) && node_map(s.subrange(0, j)[t])[y] == kids_j[y];
            assert(s.subrange(0, j)[t] == s[t]);
            lemma_wf_kids_index(s, t);
            lemma_node_map_keys(s[t], y);
            assert(y[0] == s[t].prefix@[0]);
            assert(y[0] == c.prefix@[0]);
            assert(false);
        }
    }
    lemma_kids_map_push(s.subrange(0, j), c);
    assert(kids_j1 == kids_j.union_prefer_right(node_map(c)));
    assert forall|t: int| 0 <= t < sub0.len() implies (#[trigger] sub0[t]).0@.len() > fullv.len()
        && sub0[t].0@.skip(fullv.len() as int)[0] == c.prefix@[0] by {
        let z = sub0[t].0@.skip(fullv.len() as int);
        lemma_node_map_keys(c, z);
    }
    assert forall|t: int| 0 <= t < outn.len() implies is_prefix_of(fullv, (#[trigger] outn[t]).0@)
        && (outn[t].0@.len() == fullv.len() ==> n.value is Some && *outn[t].1 == n.value->0) && (
    outn[t].0@.len() > fullv.len() ==> kids_j1.dom().contains(outn[t].0@.skip(fullv.len() as int))
        && *outn[t].1 == kids_j1[outn[t].0@.skip(fullv.len() as int)]) by {
        if t < out0.len() {
            assert(outn[t] == out0[t]);
        } else {
            assert(outn[t] == sub0[t - out0.len()]);
        }
    }
    assert forall|a: int, b: int| 0 <= a < b < outn.len() implies outn[a].0@ != outn[b].0@ by {
        if a < out0.len() && b >= out0.len() {
            assert(outn[a] == out0[a]);
            assert(outn[b] == sub0[b - out0.len()]);
            let zb = outn[b].0@.skip(fullv.len() as int);
            if out0[a].0@.len() > fullv.len() {
                let za = out0[a].0@.skip(fullv.len() as int);
                lemma_kids_map_inv(s.subrange(0, j), za);
                let t2 = choose|t2: int|
                    0 <= t2 < s.subrange(0, j).len() && node_map(
                        #[trigger] s.subrange(0, j)[t2],
                    ).dom().contains(za) && node_map(s.subrange(0, j)[t2])[za] == kids_j[za];
                assert(s.subrange(0, j)[t2] == s[t2]);
                lemma_wf_kids_index(s, t2);
                lemma_node_map_keys(s[t2], za);
                assert(za[0] == s[t2].prefix@[0]);
                if outn[a].0@ == outn[b].0@ {
                    assert(za == zb);
                    assert(false);
                }
            } else {
                if outn[a].0@ == outn[b].0@ {
                    assert(false);
                }
            }
        } else if a >= out0.len() {
            assert(outn[a] == sub0[a - out0.len()]);
            assert(outn[b] == sub0[b - out0.len()]);
        } else {
            assert(outn[a] == out0[a]);
            assert(outn[b] == out0[b]);
        }
    }
    assert forall|z: Seq<u8>| #[trigger] kids_j1.dom().contains(z) implies exists|t: int|
        0 <= t < outn.len() && (#[trigger] outn[t]).0@ == fullv + z by {
        if node_map(c).dom().contains(z) {
            let t2 = choose|t2: int| 0 <= t2 < sub0.len() && (#[trigger] sub0[t2]).0@ == fullv + z;
            assert(outn[out0.len() + t2] == sub0[t2]);
        } else {
            let t2 = choose|t2: int| 0 <= t2 < out0.len() && (#[trigger] out0[t2]).0@ == fullv + z;
            assert(outn[t2] == out0[t2]);
        }
    }
    if n.value is Some {
        let t2 = choose|t2: int| 0 <= t2 < out0.len() && (#[trigger] out0[t2]).0@ == fullv;
        assert(outn[t2] == out0[t2]);
    }
}

/// A well-formed node that holds a value or branches stores at least one
/// key, and that key extends its own edge label.
proof fn lemma_node_map_nonempty<V>(n: PNode<V>)
    requires
        wf_node(n),
        n.value is Some || n.children@.len() > 0,
    ensures
        exists|y: Seq<u8>| #[trigger] node_map(n).dom().contains(y),
    decreases n,
{
    if n.value is Some {
        lemma_prepend_keys_at(n.prefix@, base_map(n), Seq::<u8>::empty());
        assert(node_map(n).dom().contains(n.prefix@ + Seq::<u8>::empty()));
    } else {
        lemma_wf_kids_index(n.children@, 0);
        lemma_node_map_nonempty(n.children@[0]);
        let y0 = choose|y0: Seq<u8>| #[trigger] node_map(n.children@[0]).dom().contains(y0);
        lemma_kids_map_at(n.children@, 0, y0);
        lemma_prepend_keys_at(n.prefix@, base_map(n), y0);
        assert(node_map(n).dom().contains(n.prefix@ + y0));
    }
}

/// A node that neither stores a value nor has children; it stores nothing
/// and must be detached by its parent.
spec fn hollow<V>(n: PNode<V>) -> bool {
    n.value is None && n.children@.len() == 0
}

impl<V> PNode<V> {
    /// Collapses this valueless single-child node into its child,
    /// concatenating the edge labels.
    fn merge_sole_child(&mut self)
        requires
            wf_node(*old(self)),
            old(self).value is None,
            old(self).children@.len() == 1,
        ensures
            wf_node(*final(self)),
            node_map(*final(self)) =~= node_map(*old(self)),
            child_ok(*final(self)),
            final(self).prefix@.len() > 0,
            old(self).prefix@.len() > 0 ==> final(self).prefix@[0] == old(self).prefix@[0],
    {
        proof {
            lemma_wf_kids_index(old(self).children@, 0);
        }
        let c = self.children.pop().unwrap();
        let PNode { prefix: mut cp, value: cv, children: cc } = c;
        self.prefix.append(&mut cp);
        self.value = cv;
        self.children = cc;
        proof {
            let oldc = old(self).children@[0];
            assert(kids_map(old(self).children@) =~= node_map(oldc)) by {
                assert(old(self).children@.skip(1) =~= Seq::<PNode<V>>::empty());
                assert(kids_map(Seq::<PNode<V>>::empty()) == Map::<Seq<u8>, V>::empty());
            }
            assert(base_map(*old(self)) == kids_map(old(self).children@));
            lemma_prepend_keys_compose(old(self).prefix@, oldc.prefix@, base_map(oldc));
            assert(self.prefix@ =~= old(self).prefix@ + oldc.prefix@);
            assert(base_map(*self) == base_map(oldc));
            assert(wf_node(*self) == wf_node(oldc));
            assert(node_map(*self) =~= node_map(*old(self)));
        }
    }

    /// Removes `key[i..]` from this subtree and restores the structural
    /// invariants, except that the node itself may be left hollow for the
    /// caller to detach.
    #[verifier::rlimit(100)]
    fn delete(&mut self, key: &[u8], i: usize) -> (r: Option<V>)
        requires
            wf_node(*old(self)),
            i <= key@.len(),
            old(self).prefix@.len() > 0 ==> child_ok(*old(self)) && i < key@.len() && old(
                self,
            ).prefix@[0] == key@[i as int],
        ensures
            wf_node(*final(self)),
            node_map(*final(self)) =~= node_map(*old(self)).remove(key@.skip(i as int)),
            r is None ==> final(self).prefix@ == old(self).prefix@ && final(self).value == old(
                self,
            ).value && final(self).children@.len() == old(self).children@.len(),
            old(self).prefix@.len() == 0 ==> final(self).prefix@ == old(self).prefix@,
            old(self).prefix@.len() > 0 ==> final(self).prefix@.len() > 0
                && final(self).prefix@[0] == old(self).prefix@[0],
            child_ok(*old(self)) ==> child_ok(*final(self)) || hollow(*final(self)),
            match r {
                Some(v) => node_map(*old(self)).dom().contains(key@.skip(i as int)) && v
                    == node_map(*old(self))[key@.skip(i as int)],
                None => !node_map(*old(self)).dom().contains(key@.skip(i as int)),
            },
        decreases *old(self),
    {
        let ghost k = key@.skip(i as int);
        let klen = key.len();
        let m = match_prefix(&self.prefix, key, i);
        if m < self.prefix.len() {
            // the key leaves this edge: nothing stored under it
            proof {
                if node_map(*self).dom().contains(k) {
                    lemma_node_map_keys(*self, k);
                    assert(k[m as int] == self.prefix@[m as int]);
                }
                assert(node_map(*self) =~= node_map(*old(self)).remove(k));
            }
            return None;
        }
        if i + m == klen {
            // the key ends exactly at this node
            proof {
                assert(k =~= self.prefix@);
            }
            if self.value.is_none() {
                proof {
                    if node_map(*self).dom().contains(k) {
                        lemma_node_map_keys(*self, k);
                    }
                    assert(node_map(*self) =~= node_map(*old(self)).remove(k));
                }
                return None;
            }
            let prev = self.value.take();
            proof {
                lemma_kids_keys_nonempty(self.children@);
                let kd = kids_map(self.children@);
                assert(!kd.dom().contains(Seq::<u8>::empty()));
                assert(base_map(*self) == kd);
                assert(base_map(*old(self)) == kd.insert(Seq::<u8>::empty(), old(self).value->0));
                assert(base_map(*self) =~= base_map(*old(self)).remove(Seq::<u8>::empty()));
                lemma_prepend_keys_remove(self.prefix@, base_map(*old(self)), Seq::<u8>::empty());
                assert(self.prefix@ + Seq::<u8>::empty() =~= self.prefix@);
                assert(node_map(*self) =~= node_map(*old(self)).remove(k));
                lemma_prepend_keys_at(self.prefix@, base_map(*old(self)), Seq::<u8>::empty());
            }
            if self.prefix.len() > 0 && self.children.len() == 1 {
                self.merge_sole_child();
                proof {
                    assert(node_map(*self) =~= node_map(*old(self)).remove(k));
                }
            }
            return prev;
        }
        // descend on the next byte of the key
        let b = key[i + m];
        proof {
            assert(forall|t: int|
                0 <= t < self.children@.len() ==> (#[trigger] self.children@[t]).prefix@.len()
                    > 0) by {
                assert forall|t: int| 0 <= t < self.children@.len() implies (
                #[trigger] self.children@[t]).prefix@.len() > 0 by {
                    lemma_wf_kids_index(self.children@, t);
                }
            }
        }
        let ghost rest = key@.skip((i + m) as int);
        proof {
            assert(rest =~= k.skip(self.prefix@.len() as int));
            assert(rest[0] == key@[i + m]);
        }
        match find_child(&self.children, b) {
            None => {
                proof {
                    if node_map(*self).dom().contains(k) {
                        lemma_node_map_keys(*self, k);
                        assert(k[self.prefix@.len() as int] == key@[i + m]);
                    }
                    assert(node_map(*self) =~= node_map(*old(self)).remove(k));
                }
                None
            },
            Some(j) => {
                proof {
                    lemma_wf_kids_index(self.children@, j as int);
                }
                let mut c = self.children.remove(j);
                let r = c.delete(key, i + m);
                let ghost s = old(self).children@;
                let ghost cj = s[j as int];
                if r.is_none() {
                    self.children.insert(j, c);
                    proof {
                        let c2 = self.children@[j as int];
                        assert(self.children@ =~= s.update(j as int, c2));
                        assert(node_map(c2) == node_map(cj)) by {
                            assert(node_map(c2) =~= node_map(cj).remove(rest));
                            assert(node_map(cj).remove(rest) =~= node_map(cj));
                        }
                        lemma_kids_map_update_congruent(s, j as int, c2);
                        assert(base_map(*self) =~= base_map(*old(self)));
                        assert(node_map(*self) =~= node_map(*old(self)));
                        assert(wf_node(*self)) by {
                            assert forall|t: int| 0 <= t < self.children@.len() implies child_ok(
                                #[trigger] self.children@[t],
                            ) && wf_node(self.children@[t]) by {
                                lemma_wf_kids_index(s, t);
                            }
                            lemma_wf_kids_build(self.children@);
                        }
                        if node_map(*self).dom().contains(k) {
                            lemma_node_map_keys(*self, k);
                            let t = choose|t: int|
                                0 <= t < s.len() && (#[trigger] s[t]).prefix@.len() > 0 && s[t].prefix@[0]
                                    == k[old(self).prefix@.len() as int] && node_map(
                                    s[t],
                                ).dom().contains(k.skip(old(self).prefix@.len() as int))
                                    && node_map(s[t])[k.skip(old(self).prefix@.len() as int)]
                                    == node_map(*old(self))[k];
                            assert(s[t].prefix@[0] == b);
                            assert(t == j as int);
                        }
                        assert(node_map(*self) =~= node_map(*old(self)).remove(k));
                    }
                    return None;
                }
                proof {
                    // the removed entry sat under child j
                    lemma_kids_map_at(s, j as int, rest);
                    lemma_node_map_keys(cj, rest);
                    lemma_prepend_keys_at(self.prefix@, base_map(*old(self)), rest);
                    assert(self.prefix@ + rest =~= k);
                }
                let hollow_child = c.value.is_none() && c.children.len() == 0;
                if hollow_child {
                    // the child stored only the removed key: detach it
                    proof {
                        let s2 = s.update(j as int, c);
                        assert(node_map(c) =~= Map::<Seq<u8>, V>::empty()) by {
                            assert(kids_map(c.children@) == Map::<Seq<u8>, V>::empty());
                            assert(base_map(c) == kids_map(c.children@));
                            lemma_prepend_keys_empty_map::<V>(c.prefix@);
                        }
                        lemma_kids_map_update_remove(s, j as int, c, rest);
                        lemma_kids_map_drop_empty(s2, j as int);
                        assert(self.children@ =~= s2.remove(j as int));
                        assert(kids_map(self.children@) =~= kids_map(s).remove(rest));
                        assert(wf_node(*self)) by {
                            assert forall|t: int| 0 <= t < self.children@.len() implies child_ok(
                                #[trigger] self.children@[t],
                            ) && wf_node(self.children@[t]) by {
                                if t < j as int {
                                    assert(self.children@[t] == s[t]);
                                    lemma_wf_kids_index(s, t);
                                } else {
                                    assert(self.children@[t] == s[t + 1]);
                                    lemma_wf_kids_index(s, t + 1);
                                }
                            }
                            lemma_wf_kids_build(self.children@);
                            assert(distinct_first_bytes(self.children@)) by {
                                assert(forall|t: int|
                                    0 <= t < self.children@.len() ==> #[trigger] self.children@[t]
                                        == (if t < j as int {
                                        s[t]
                                    } else {
                                        s[t + 1]
                                    }));
                            }
                        }
                    }
                } else {
                    self.children.insert(j, c);
                    proof {
                        let c2 = self.children@[j as int];
                        assert(self.children@ =~= s.update(j as int, c2));
                        lemma_kids_map_update_remove(s, j as int, c2, rest);
                        assert(kids_map(self.children@) =~= kids_map(s).remove(rest));
                        assert(wf_node(*self)) by {
                            assert forall|t: int| 0 <= t < self.children@.len() implies child_ok(
                                #[trigger] self.children@[t],
                            ) && wf_node(self.children@[t]) by {
                                lemma_wf_kids_index(s, t);
                            }
                            lemma_wf_kids_build(self.children@);
                        }
                    }
                }
                proof {
                    lemma_kids_keys_nonempty(s);
                    assert(base_map(*self) =~= base_map(*old(self)).remove(rest));
                    lemma_prepend_keys_remove(self.prefix@, base_map(*old(self)), rest);
                    assert(node_map(*self) =~= node_map(*old(self)).remove(k));
                }
                if self.prefix.len() > 0 && self.value.is_none() && self.children.len() == 1 {
                    // a lone child under a valueless node: collapse the pair
                    self.merge_sole_child();
                    proof {
                        assert(node_map(*self) =~= node_map(*old(self)).remove(k));
                    }
                }
                r
            },
        }
    }
}

/// A byte-keyed map backed by an edge-compressed radix trie.
pub struct PatriciaTrie<V> {
    root: PNode<V>,
    size: usize,
}

/// The abstract contents of a trie: a finite map from byte sequences to values.
impl<V> View for PatriciaTrie<V> {
    type V = Map<Seq<u8>, V>;

    closed spec fn view(&self) -> Map<Seq<u8>, V> {
        node_map(self.root)
    }
}

impl<V> PatriciaTrie<V> {
    /// Structural invariants: compressed edges, distinct branch bytes,
    /// no collapsible node, an accurate size counter, and an unlabeled root.
    pub closed spec fn inv(&self) -> bool {
        &&& wf_node(self.root)
        &&& self.root.prefix@.len() == 0
        &&& self.size == self.view().dom().len()
    }

    /// The contents are always a finite map.
    pub proof fn lemma_view_finite(&self)
        ensures
            self.view().dom().finite(),
    {
        lemma_node_map_finite(self.root);
    }

    /// Creates an empty trie.
    pub fn new() -> (t: Self)
        ensures
            t.inv(),
            t.view() == Map::<Seq<u8>, V>::empty(),
    {
        let t = PatriciaTrie {
            root: PNode { prefix: Vec::new(), value: None, children: Vec::new() },
            size: 0,
        };
        proof {
            assert(kids_map(t.root.children@) =~= Map::<Seq<u8>, V>::empty());
            lemma_prepend_keys_empty(Map::<Seq<u8>, V>::empty());
            assert(t.view() =~= Map::<Seq<u8>, V>::empty());
            assert(t.view().dom() =~= Set::<Seq<u8>>::empty());
        }
        t
    }

    /// Number of stored keys.
    pub fn len(&self) -> (n: usize)
        requires
            self.inv(),
        ensures
            n == self.view().dom().len(),
    {
        self.size
    }

    /// Shared reference to the value bound to exactly `key`, if any.
    pub fn get<'a>(&'a self, key: &[u8]) -> (r: Option<&'a V>)
        requires
            self.inv(),
        ensures
            match r {
                Some(v) => self.view().dom().contains(key@) && *v == self.view()[key@],
                None => !self.view().dom().contains(key@),
            },
    {
        let r = self.root.get(key, 0);
        proof {
            assert(key@.skip(0) =~= key@);
        }
        r
    }

    /// Whether exactly `key` is stored.
    pub fn contains(&self, key: &[u8]) -> (r: bool)
        requires
            self.inv(),
        ensures
            r == self.view().dom().contains(key@),
    {
        self.get(key).is_some()
    }

    /// Whether the trie is empty.
    pub fn is_empty(&self) -> (r: bool)
        requires
            self.inv(),
        ensures
            r == (self@.dom() =~= Set::<Seq<u8>>::empty()),
    {
        proof {
            self.lemma_view_finite();
            if self@.dom().len() == 0 {
                vstd::set_lib::lemma_set_empty_equivalency_len(self@.dom());
            }
        }
        self.size == 0
    }

    /// Whether some stored key starts with `prefix` (including `prefix`
    /// itself).
    pub fn contains_prefix(&self, prefix: &[u8]) -> (r: bool)
        requires
            self.inv(),
        ensures
            r == exists|y: Seq<u8>| #[trigger] self@.dom().contains(y) && is_prefix_of(
                prefix@,
                y,
            ),
    {
        let r = self.root.has_prefix(prefix, 0);
        proof {
            assert(prefix@.skip(0) =~= prefix@);
        }
        r
    }

    /// Every stored key that starts with `prefix`, paired with a reference
    /// to its value; each such key appears exactly once, in no promised
    /// order.
    pub fn continuations<'a>(&'a self, prefix: &[u8]) -> (out: Vec<(Vec<u8>, &'a V)>)
        requires
            self.inv(),
        ensures
            forall|t: int|
                0 <= t < out@.len() ==> is_prefix_of(prefix@, (#[trigger] out@[t]).0@)
                    && self@.dom().contains(out@[t].0@) && *out@[t].1 == self@[out@[t].0@],
            forall|a: int, b: int| 0 <= a < b < out@.len() ==> out@[a].0@ != out@[b].0@,
            forall|y: Seq<u8>|
                #[trigger] self@.dom().contains(y) && is_prefix_of(prefix@, y) ==> exists|t: int|
                    0 <= t < out@.len() && (#[trigger] out@[t]).0@ == y,
    {
        let base: Vec<u8> = Vec::new();
        proof {
            assert(base@ =~= prefix@.subrange(0, 0));
        }
        let out = self.root.collect_under(prefix, 0, &base);
        proof {
            assert(prefix@.skip(0) =~= prefix@);
            assert forall|t: int| 0 <= t < out@.len() implies is_prefix_of(
                prefix@,
                (#[trigger] out@[t]).0@,
            ) && self@.dom().contains(out@[t].0@) && *out@[t].1 == self@[out@[t].0@] by {
                assert(out@[t].0@.skip(0) =~= out@[t].0@);
            }
            assert forall|y: Seq<u8>| #[trigger] self@.dom().contains(y) && is_prefix_of(
                prefix@,
                y,
            ) implies exists|t: int| 0 <= t < out@.len() && (#[trigger] out@[t]).0@ == y by {
                let t2 = choose|t2: int|
                    0 <= t2 < out@.len() && (#[trigger] out@[t2]).0@ == base@ + y;
                assert(out@[t2].0@ =~= y);
            }
        }
        out
    }

    /// Every stored key that is a prefix of `key`, reported as its length
    /// paired with a reference to its value, in strictly increasing length.
    pub fn prefix_matches<'a>(&'a self, key: &[u8]) -> (out: Vec<(usize, &'a V)>)
        requires
            self.inv(),
        ensures
            forall|t: int|
                0 <= t < out@.len() ==> #[trigger] out@[t].0 <= key@.len()
                    && self@.dom().contains(key@.subrange(0, out@[t].0 as int)) && *out@[t].1
                    == self@[key@.subrange(0, out@[t].0 as int)],
            forall|a: int, b: int| 0 <= a < b < out@.len() ==> out@[a].0 < out@[b].0,
            forall|l: int|
                0 <= l <= key@.len() && #[trigger] self@.dom().contains(key@.subrange(0, l))
                    ==> exists|t: int| 0 <= t < out@.len() && (#[trigger] out@[t]).0 == l,
    {
        self.root.path_values(key, 0)
    }

    /// Stores `(key, value)`. Returns the previous value bound to `key`,
    /// if any; a fresh key grows the map by one entry.
    pub fn insert(&mut self, key: &[u8], value: V) -> (prev: Option<V>)
        requires
            old(self).inv(),
            old(self)@.dom().len() < usize::MAX,
        ensures
            final(self).inv(),
            final(self)@ == old(self)@.insert(key@, value),
            match prev {
                Some(v) => old(self)@.dom().contains(key@) && v == old(self)@[key@]
                    && final(self)@.dom().len() == old(self)@.dom().len(),
                None => !old(self)@.dom().contains(key@) && final(self)@.dom().len()
                    == old(self)@.dom().len() + 1,
            },
    {
        proof {
            lemma_node_map_finite(self.root);
        }
        let prev = self.root.insert(key, 0, value);
        if prev.is_none() {
            self.size = self.size + 1;
        }
        proof {
            assert(key@.skip(0) =~= key@);
            assert(self@ == old(self)@.insert(key@, value)) by {
                assert(node_map(self.root) =~= node_map(old(self).root).insert(key@, value));
            }
            let d0 = old(self)@.dom();
            assert(self@.dom() =~= d0.insert(key@));
            if prev is Some {
                assert(d0.insert(key@) =~= d0);
            }
        }
        prev
    }

    /// Removes `key` and returns its value, if stored; the map shrinks by
    /// that one entry and the structural invariants are restored.
    pub fn delete(&mut self, key: &[u8]) -> (prev: Option<V>)
        requires
            old(self).inv(),
        ensures
            final(self).inv(),
            final(self)@ == old(self)@.remove(key@),
            match prev {
                Some(v) => old(self)@.dom().contains(key@) && v == old(self)@[key@]
                    && final(self)@.dom().len() == old(self)@.dom().len() - 1,
                None => !old(self)@.dom().contains(key@) && final(self)@.dom().len()
                    == old(self)@.dom().len(),
            },
    {
        proof {
            lemma_node_map_finite(self.root);
        }
        let prev = self.root.delete(key, 0);
        if prev.is_some() {
            self.size = self.size - 1;
        }
        proof {
            assert(key@.skip(0) =~= key@);
            assert(self@ == old(self)@.remove(key@)) by {
                assert(node_map(self.root) =~= node_map(old(self).root).remove(key@));
            }
            let d0 = old(self)@.dom();
            assert(self@.dom() =~= d0.remove(key@));
            if prev is None {
                assert(d0.remove(key@) =~= d0);
            }
        }
        prev
    }
}

} // verus!
