//! Spec-level model of prefix-keyed maps: byte-sequence keys, prefix tests,
//! and the key-prepending operation that mirrors descending one edge of a
//! radix trie.

use vstd::prelude::*;
use vstd::set_lib;

verus! {

/// `p` is a prefix of `k` (including `p == k`).
pub open spec fn is_prefix_of(p: Seq<u8>, k: Seq<u8>) -> bool {
    p.len() <= k.len() && k.subrange(0, p.len() as int) == p
}

/// The map with the entries of `m`, each key carrying `p` prepended.
pub open spec fn prepend_keys<V>(p: Seq<u8>, m: Map<Seq<u8>, V>) -> Map<Seq<u8>, V> {
    Map::new(
        |k: Seq<u8>| is_prefix_of(p, k) && m.dom().contains(k.skip(p.len() as int)),
        |k: Seq<u8>| m[k.skip(p.len() as int)],
    )
}

/// Prepending a key to an entry lands it at the concatenated key.
pub proof fn lemma_prepend_keys_at<V>(p: Seq<u8>, m: Map<Seq<u8>, V>, k: Seq<u8>)
    requires
        m.dom().contains(k),
    ensures
        prepend_keys(p, m).dom().contains(p + k),
        prepend_keys(p, m)[p + k] == m[k],
{
    assert((p + k).skip(p.len() as int) =~= k);
    assert(is_prefix_of(p, p + k)) by {
        assert((p + k).subrange(0, p.len() as int) =~= p);
    }
}

/// Every key of the prepended map extends `p`, and strips back to a key of `m`.
pub proof fn lemma_prepend_keys_inv<V>(p: Seq<u8>, m: Map<Seq<u8>, V>, k: Seq<u8>)
    requires
        prepend_keys(p, m).dom().contains(k),
    ensures
        is_prefix_of(p, k),
        m.dom().contains(k.skip(p.len() as int)),
        prepend_keys(p, m)[k] == m[k.skip(p.len() as int)],
        k == p + k.skip(p.len() as int),
{
    assert(k =~= p + k.skip(p.len() as int));
}

/// Prepending the empty sequence changes nothing.
pub proof fn lemma_prepend_keys_empty<V>(m: Map<Seq<u8>, V>)
    ensures
        prepend_keys(Seq::<u8>::empty(), m) =~= m,
{
    let lhs = prepend_keys(Seq::<u8>::empty(), m);
    assert forall|k: Seq<u8>| #[trigger] m.dom().contains(k) implies lhs.dom().contains(k) by {
        assert(k.skip(0) =~= k);
        assert(k.subrange(0, 0) =~= Seq::<u8>::empty());
    }
    assert forall|k: Seq<u8>| #[trigger] lhs.dom().contains(k) implies m.dom().contains(k) && lhs[k]
        == m[k] by {
        assert(k.skip(0) =~= k);
    }
    assert(lhs.dom() =~= m.dom());
}

/// Prepending `p` then `q` is prepending `p + q`.
pub proof fn lemma_prepend_keys_compose<V>(p: Seq<u8>, q: Seq<u8>, m: Map<Seq<u8>, V>)
    ensures
        prepend_keys(p, prepend_keys(q, m)) =~= prepend_keys(p + q, m),
{
    let lhs = prepend_keys(p, prepend_keys(q, m));
    let rhs = prepend_keys(p + q, m);
    assert forall|k: Seq<u8>| #[trigger] lhs.dom().contains(k) implies rhs.dom().contains(k)
        && lhs[k] == rhs[k] by {
        lemma_prepend_keys_inv(p, prepend_keys(q, m), k);
        let k1 = k.skip(p.len() as int);
        lemma_prepend_keys_inv(q, m, k1);
        assert(k.skip((p + q).len() as int) =~= k1.skip(q.len() as int));
        assert(k.subrange(0, (p + q).len() as int) =~= p + q);
    }
    assert forall|k: Seq<u8>| #[trigger] rhs.dom().contains(k) implies lhs.dom().contains(k) by {
        lemma_prepend_keys_inv(p + q, m, k);
        let k2 = k.skip((p + q).len() as int);
        lemma_prepend_keys_at(q, m, k2);
        assert(q + k2 =~= k.skip(p.len() as int));
        lemma_prepend_keys_at(p, prepend_keys(q, m), k.skip(p.len() as int));
        assert(p + k.skip(p.len() as int) =~= k);
    }
    assert(lhs.dom() =~= rhs.dom());
}

/// Prepending distributes over insertion.
pub proof fn lemma_prepend_keys_insert<V>(p: Seq<u8>, m: Map<Seq<u8>, V>, k: Seq<u8>, v: V)
    ensures
        prepend_keys(p, m.insert(k, v)) =~= prepend_keys(p, m).insert(p + k, v),
{
    let lhs = prepend_keys(p, m.insert(k, v));
    let rhs = prepend_keys(p, m).insert(p + k, v);
    assert((p + k).skip(p.len() as int) =~= k);
    assert((p + k).subrange(0, p.len() as int) =~= p);
    assert forall|x: Seq<u8>| #[trigger] lhs.dom().contains(x) implies rhs.dom().contains(x)
        && lhs[x] == rhs[x] by {
        lemma_prepend_keys_inv(p, m.insert(k, v), x);
        if x.skip(p.len() as int) == k {
            assert(x =~= p + k);
        }
    }
    assert forall|x: Seq<u8>| #[trigger] rhs.dom().contains(x) implies lhs.dom().contains(x) by {
        if x == p + k {
        } else {
            lemma_prepend_keys_inv(p, m, x);
        }
    }
    assert(lhs.dom() =~= rhs.dom());
}

/// Prepending distributes over removal.
pub proof fn lemma_prepend_keys_remove<V>(p: Seq<u8>, m: Map<Seq<u8>, V>, k: Seq<u8>)
    ensures
        prepend_keys(p, m.remove(k)) =~= prepend_keys(p, m).remove(p + k),
{
    let lhs = prepend_keys(p, m.remove(k));
    let rhs = prepend_keys(p, m).remove(p + k);
    assert((p + k).skip(p.len() as int) =~= k);
    assert forall|x: Seq<u8>| lhs.dom().contains(x) implies rhs.dom().contains(x) && lhs[x]
        == rhs[x] by {
        lemma_prepend_keys_inv(p, m.remove(k), x);
        if x == p + k {
            assert(x.skip(p.len() as int) =~= k);
        }
    }
    assert forall|x: Seq<u8>| rhs.dom().contains(x) implies lhs.dom().contains(x) by {
        lemma_prepend_keys_inv(p, m, x);
        if x.skip(p.len() as int) == k {
            assert(x =~= p + k);
        }
    }
}

/// A sequence splits as its prefix followed by the rest.
pub proof fn lemma_prefix_split(p: Seq<u8>, k: Seq<u8>)
    requires
        is_prefix_of(p, k),
    ensures
        k == p + k.skip(p.len() as int),
{
    assert(k =~= p + k.skip(p.len() as int));
}

/// Extending both sides by a common front keeps the prefix relation.
pub proof fn lemma_prefix_concat(a: Seq<u8>, b: Seq<u8>, c: Seq<u8>)
    requires
        is_prefix_of(b, c),
    ensures
        is_prefix_of(a + b, a + c),
{
    assert forall|u: int| 0 <= u < b.len() implies c[u] == b[u] by {
        assert(c.subrange(0, b.len() as int)[u] == c[u]);
    }
    assert((a + c).subrange(0, a.len() as int + b.len() as int) =~= a + b);
}

/// Prepending onto the empty map yields the empty map.
pub proof fn lemma_prepend_keys_empty_map<V>(p: Seq<u8>)
    ensures
        prepend_keys(p, Map::<Seq<u8>, V>::empty()) =~= Map::<Seq<u8>, V>::empty(),
{
    assert forall|y: Seq<u8>| #[trigger] prepend_keys(
        p,
        Map::<Seq<u8>, V>::empty(),
    ).dom().contains(y) implies false by {
        lemma_prepend_keys_inv(p, Map::<Seq<u8>, V>::empty(), y);
    }
    assert(prepend_keys(p, Map::<Seq<u8>, V>::empty()).dom() =~= Set::<Seq<u8>>::empty());
}

/// Prepending keeps the domain finite and its size unchanged.
pub proof fn lemma_prepend_keys_finite<V>(p: Seq<u8>, m: Map<Seq<u8>, V>)
    requires
        m.dom().finite(),
    ensures
        prepend_keys(p, m).dom().finite(),
        prepend_keys(p, m).dom().len() == m.dom().len(),
{
    let fwd = |k: Seq<u8>| p + k;
    let image = m.dom().map(fwd);
    m.dom().lemma_map_finite(fwd);
    assert(prepend_keys(p, m).dom() =~= image) by {
        assert forall|k: Seq<u8>| prepend_keys(p, m).dom().contains(k) implies image.contains(
            k,
        ) by {
            lemma_prepend_keys_inv(p, m, k);
            assert(fwd(k.skip(p.len() as int)) == k);
        }
        assert forall|k: Seq<u8>| image.contains(k) implies prepend_keys(p, m).dom().contains(
            k,
        ) by {
            let k0 = choose|k0: Seq<u8>| m.dom().contains(k0) && fwd(k0) == k;
            lemma_prepend_keys_at(p, m, k0);
        }
    }
    assert(vstd::relations::injective_on(fwd, m.dom())) by {
        assert forall|a: Seq<u8>, b: Seq<u8>|
            m.dom().contains(a) && m.dom().contains(b) && #[trigger] fwd(a) == #[trigger] fwd(
                b,
            ) implies a == b by {
            assert((p + a).skip(p.len() as int) =~= a);
            assert((p + b).skip(p.len() as int) =~= b);
        }
    }
    set_lib::lemma_map_size(m.dom(), image, fwd);
}

} // verus!
