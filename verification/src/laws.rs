//! Laws of the prefix-search model. Every container operation is specified
//! against a finite map from byte sequences to values (`model` in the
//! `PrefixSearch` trait); these lemmas state what sequences of operations
//! yield, in terms of that model.

use vstd::prelude::*;
use crate::prefixmap::is_prefix_of;

verus! {

/// The model after inserting `keys[i]` bound to `vals[i]`, in order.
pub open spec fn insert_all<V>(m: Map<Seq<u8>, V>, keys: Seq<Seq<u8>>, vals: Seq<V>) -> Map<
    Seq<u8>,
    V,
>
    decreases keys.len(),
{
    if keys.len() == 0 || vals.len() == 0 {
        m
    } else {
        insert_all(m.insert(keys[0], vals[0]), keys.skip(1), vals.skip(1))
    }
}

/// Insert/get round-trip: after inserting any sequence of distinct fresh
/// keys with their values, every key reads back its own value, and the
/// container holds exactly the old entries plus one per key.
pub proof fn lemma_insert_get_round_trip<V>(m: Map<Seq<u8>, V>, keys: Seq<Seq<u8>>, vals: Seq<V>)
    requires
        keys.len() == vals.len(),
        forall|i: int, j: int| 0 <= i < j < keys.len() ==> keys[i] != keys[j],
        forall|i: int| 0 <= i < keys.len() ==> !m.dom().contains(#[trigger] keys[i]),
        m.dom().finite(),
    ensures
        forall|i: int|
            0 <= i < keys.len() ==> insert_all(m, keys, vals).dom().contains(#[trigger] keys[i])
                && insert_all(m, keys, vals)[keys[i]] == vals[i],
        insert_all(m, keys, vals).dom().finite(),
        insert_all(m, keys, vals).dom().len() == m.dom().len() + keys.len(),
    decreases keys.len(),
{
    if keys.len() > 0 {
        let m1 = m.insert(keys[0], vals[0]);
        assert(m1.dom() =~= m.dom().insert(keys[0]));
        assert(forall|i: int| 0 <= i < keys.skip(1).len() ==> #[trigger] keys.skip(1)[i] == keys[i
            + 1]);
        assert(forall|i: int| 0 <= i < vals.skip(1).len() ==> #[trigger] vals.skip(1)[i] == vals[i
            + 1]);
        lemma_insert_get_round_trip(m1, keys.skip(1), vals.skip(1));
        assert forall|i: int| 0 <= i < keys.len() implies insert_all(m, keys, vals).dom().contains(
            #[trigger] keys[i],
        ) && insert_all(m, keys, vals)[keys[i]] == vals[i] by {
            if i == 0 {
                lemma_insert_all_frame(m1, keys.skip(1), vals.skip(1), keys[0]);
            } else {
                assert(keys.skip(1)[i - 1] == keys[i]);
            }
        }
    }
}

/// Keys that are never inserted keep their binding (or absence).
pub proof fn lemma_insert_all_frame<V>(
    m: Map<Seq<u8>, V>,
    keys: Seq<Seq<u8>>,
    vals: Seq<V>,
    k: Seq<u8>,
)
    requires
        !keys.contains(k),
    ensures
        insert_all(m, keys, vals).dom().contains(k) == m.dom().contains(k),
        m.dom().contains(k) ==> insert_all(m, keys, vals)[k] == m[k],
    decreases keys.len(),
{
    if keys.len() > 0 && vals.len() > 0 {
        assert(keys[0] != k);
        assert(!keys.skip(1).contains(k)) by {
            if keys.skip(1).contains(k) {
                let i = choose|i: int| 0 <= i < keys.skip(1).len() && keys.skip(1)[i] == k;
                assert(keys[i + 1] == k);
            }
        }
        lemma_insert_all_frame(m.insert(keys[0], vals[0]), keys.skip(1), vals.skip(1), k);
    }
}

/// Replace semantics: a second insert of the same key hands back the first
/// value, leaves the count unchanged, and a lookup then sees the new value.
pub proof fn lemma_replace_semantics<V>(m: Map<Seq<u8>, V>, k: Seq<u8>, v1: V, v2: V)
    requires
        m.dom().finite(),
    ensures
        m.insert(k, v1)[k] == v1,
        m.insert(k, v1).insert(k, v2)[k] == v2,
        m.insert(k, v1).insert(k, v2).dom().len() == m.insert(k, v1).dom().len(),
{
    assert(m.insert(k, v1).dom() =~= m.dom().insert(k));
    assert(m.insert(k, v1).insert(k, v2).dom() =~= m.dom().insert(k));
}

/// Delete round-trip: deleting a key just inserted hands back its value,
/// leaves the key absent, and shrinks the count by one.
pub proof fn lemma_delete_round_trip<V>(m: Map<Seq<u8>, V>, k: Seq<u8>, v: V)
    requires
        m.dom().finite(),
    ensures
        m.insert(k, v)[k] == v,
        !m.insert(k, v).remove(k).dom().contains(k),
        m.insert(k, v).remove(k).dom().len() == m.insert(k, v).dom().len() - 1,
{
    let m1 = m.insert(k, v);
    assert(m1.dom() =~= m.dom().insert(k));
    assert(m1.remove(k).dom() =~= m1.dom().remove(k));
}

/// Deleting an absent key is a no-op: nothing is handed back and the
/// contents are untouched.
pub proof fn lemma_delete_absent<V>(m: Map<Seq<u8>, V>, k: Seq<u8>)
    requires
        !m.dom().contains(k),
    ensures
        m.remove(k) == m,
{
    assert(m.remove(k) =~= m);
}

/// Prefix containment: every leading slice of a stored key is a contained
/// prefix, the stored key itself being the witness.
pub proof fn lemma_prefix_containment<V>(m: Map<Seq<u8>, V>, k: Seq<u8>, j: int)
    requires
        m.dom().contains(k),
        0 <= j <= k.len(),
    ensures
        exists|y: Seq<u8>| #[trigger] m.dom().contains(y) && is_prefix_of(k.subrange(0, j), y),
{
    assert(is_prefix_of(k.subrange(0, j), k)) by {
        assert(k.subrange(0, j).len() == j);
        assert(k.subrange(0, k.subrange(0, j).len() as int) =~= k.subrange(0, j));
    }
}

} // verus!
