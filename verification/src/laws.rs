//! The registry's governing laws, stated over the cache and table models
//! that the registry's contracts use, and proved once and for all.

use crate::registry::{
    covers, entity_of_row, load_model, m_edit_cache, m_edit_store, m_get, m_get_any, synced,
    EntityModel,
};
use crate::store::RowModel;
use crate::template::{tpl_parse, SegView};
use vstd::prelude::*;

verus! {

/// Round-trip: an upsert of `text` at a key whose row is not suppressed is
/// immediately visible to administrative lookup, and what it sees renders
/// from exactly that source text.
pub proof fn lemma_edit_round_trip(
    c0: Map<(Seq<char>, Seq<char>), EntityModel>,
    s0: Map<(Seq<char>, Seq<char>), RowModel>,
    k: (Seq<char>, Seq<char>),
    text: Seq<char>,
    segs: Seq<SegView>,
)
    requires
        !(s0.contains_key(k) && s0[k].disabled),
    ensures
        ({
            let c1 = m_edit_cache(c0, s0, k, text, segs);
            &&& m_get_any(c1, k) matches Some(e)
            &&& m_get_any(c1, k)->Some_0.src == text
            &&& m_get_any(c1, k)->Some_0.segs == segs
        }),
{
}

/// The table after one confirmed bump of the counter at `k`.
pub open spec fn m_inc_store(
    s: Map<(Seq<char>, Seq<char>), RowModel>,
    k: (Seq<char>, Seq<char>),
) -> Map<(Seq<char>, Seq<char>), RowModel> {
    if s.contains_key(k) && s[k].count < u64::MAX {
        s.insert(k, RowModel { count: (s[k].count + 1) as u64, ..s[k] })
    } else {
        s
    }
}

/// The table after `n` bumps of the counter at `k`.
pub open spec fn m_inc_store_n(
    s: Map<(Seq<char>, Seq<char>), RowModel>,
    k: (Seq<char>, Seq<char>),
    n: nat,
) -> Map<(Seq<char>, Seq<char>), RowModel>
    decreases n,
{
    if n == 0 {
        s
    } else {
        m_inc_store(m_inc_store_n(s, k, (n - 1) as nat), k)
    }
}

/// Count monotonicity: `n` bumps of a present counter that stays below its
/// ceiling raise it by exactly `n`, and touch nothing else of the row.
pub proof fn lemma_increment_count(
    s0: Map<(Seq<char>, Seq<char>), RowModel>,
    k: (Seq<char>, Seq<char>),
    n: nat,
)
    requires
        s0.contains_key(k),
        s0[k].count + n <= u64::MAX,
    ensures
        ({
            let s1 = m_inc_store_n(s0, k, n);
            &&& s1.contains_key(k)
            &&& s1[k].count == s0[k].count + n
            &&& s1[k].text == s0[k].text
            &&& s1[k].group == s0[k].group
            &&& s1[k].disabled == s0[k].disabled
        }),
    decreases n,
{
    if n > 0 {
        lemma_increment_count(s0, k, (n - 1) as nat);
    }
}

/// What a reader observes is what the table confirmed: under the mirror
/// invariant, the counter administrative lookup sees is exactly the
/// counter of the backing row.
pub proof fn lemma_observed_count_matches_store(
    c0: Map<(Seq<char>, Seq<char>), EntityModel>,
    s0: Map<(Seq<char>, Seq<char>), RowModel>,
    k: (Seq<char>, Seq<char>),
)
    requires
        covers(c0, s0),
        c0.contains_key(k),
    ensures
        m_get_any(c0, k) matches Some(e),
        m_get_any(c0, k)->Some_0.count == s0[k].count,
{
}

/// Disable hides, not deletes: after the flag flips on, ordinary lookup
/// misses the entity while administrative lookup still sees it with its
/// counter, template and group intact, and the table keeps the row;
/// flipping the flag back restores visibility with the same state.
pub proof fn lemma_disable_hides(
    c0: Map<(Seq<char>, Seq<char>), EntityModel>,
    s0: Map<(Seq<char>, Seq<char>), RowModel>,
    k: (Seq<char>, Seq<char>),
)
    requires
        c0.contains_key(k),
        s0.contains_key(k),
    ensures
        ({
            let c1 = c0.insert(k, EntityModel { disabled: true, ..c0[k] });
            let s1 = s0.insert(k, RowModel { disabled: true, ..s0[k] });
            let c2 = c1.insert(k, EntityModel { disabled: false, ..c1[k] });
            &&& m_get(c1, k) is None
            &&& m_get_any(c1, k) matches Some(e)
            &&& m_get_any(c1, k)->Some_0.count == c0[k].count
            &&& m_get_any(c1, k)->Some_0.src == c0[k].src
            &&& m_get_any(c1, k)->Some_0.segs == c0[k].segs
            &&& m_get_any(c1, k)->Some_0.group == c0[k].group
            &&& s1.contains_key(k) && s1[k].text == s0[k].text && s1[k].count == s0[k].count
            &&& m_get(c2, k) matches Some(e2)
            &&& m_get(c2, k)->Some_0.count == c0[k].count
            &&& m_get(c2, k)->Some_0.src == c0[k].src
            &&& m_get(c2, k)->Some_0.segs == c0[k].segs
            &&& m_get(c2, k)->Some_0.group == c0[k].group
        }),
{
}

/// Rename atomicity: after a successful rename the old key resolves to
/// nothing, and the new key resolves to the entity with its counter, group
/// and visibility unchanged. (That a conflicting or missing rename changes
/// nothing is the `rename` contract itself.)
pub proof fn lemma_rename_atomic(
    c0: Map<(Seq<char>, Seq<char>), EntityModel>,
    s0: Map<(Seq<char>, Seq<char>), RowModel>,
    kf: (Seq<char>, Seq<char>),
    kt: (Seq<char>, Seq<char>),
)
    requires
        s0.contains_key(kf),
        !s0.contains_key(kt),
        c0.contains_key(kf),
    ensures
        ({
            let c1 = c0.remove(kf).insert(kt, c0[kf]);
            &&& m_get_any(c1, kf) is None
            &&& m_get_any(c1, kt) == Some(c0[kf])
        }),
{
    assert(kf != kt);
}

/// Cache/table convergence: a cache that mirrors its table exactly is
/// precisely what loading that table from scratch builds, so a restart
/// from the same storage reconstructs the same cache.
pub proof fn lemma_load_converges(
    c: Map<(Seq<char>, Seq<char>), EntityModel>,
    s: Map<(Seq<char>, Seq<char>), RowModel>,
)
    requires
        synced(c, s),
    ensures
        load_model(s) == c,
{
    assert forall|k: (Seq<char>, Seq<char>)| #[trigger]
        c.contains_key(k) implies load_model(s).contains_key(k) && load_model(s)[k] == c[k] by {
        assert(s.contains_key(k));
    }
    assert(load_model(s) =~= c);
}

/// An upsert that is not suppressed keeps the cache an exact mirror of the
/// table, so convergence survives any run of such edits.
pub proof fn lemma_edit_preserves_synced(
    c0: Map<(Seq<char>, Seq<char>), EntityModel>,
    s0: Map<(Seq<char>, Seq<char>), RowModel>,
    k: (Seq<char>, Seq<char>),
    text: Seq<char>,
    segs: Seq<SegView>,
)
    requires
        synced(c0, s0),
        tpl_parse(text) == Some(segs),
        !(s0.contains_key(k) && s0[k].disabled),
    ensures
        synced(m_edit_cache(c0, s0, k, text, segs), m_edit_store(s0, k, text)),
{
    let c1 = m_edit_cache(c0, s0, k, text, segs);
    let s1 = m_edit_store(s0, k, text);
    assert forall|k2: (Seq<char>, Seq<char>)| #[trigger] c1.contains_key(k2) implies s1.contains_key(
        k2,
    ) && tpl_parse(s1[k2].text) is Some && c1[k2] == entity_of_row(s1[k2]) by {
        if k2 != k {
            assert(c0.contains_key(k2));
        }
    }
    assert forall|k2: (Seq<char>, Seq<char>)| #[trigger] s1.contains_key(k2) implies c1.contains_key(
        k2,
    ) by {
        if k2 != k {
            assert(s0.contains_key(k2));
        }
    }
}

/// A delete in both layers keeps the cache an exact mirror of the table.
pub proof fn lemma_delete_preserves_synced(
    c0: Map<(Seq<char>, Seq<char>), EntityModel>,
    s0: Map<(Seq<char>, Seq<char>), RowModel>,
    k: (Seq<char>, Seq<char>),
)
    requires
        synced(c0, s0),
    ensures
        synced(c0.remove(k), s0.remove(k)),
{
    assert forall|k2: (Seq<char>, Seq<char>)| #[trigger]
        c0.remove(k).contains_key(k2) implies s0.remove(k).contains_key(k2) && tpl_parse(
        s0.remove(k)[k2].text,
    ) is Some && c0.remove(k)[k2] == entity_of_row(s0.remove(k)[k2]) by {
        assert(c0.contains_key(k2));
    }
    assert forall|k2: (Seq<char>, Seq<char>)| #[trigger]
        s0.remove(k).contains_key(k2) implies c0.remove(k).contains_key(k2) by {
        assert(s0.contains_key(k2));
    }
}

/// A successful rename, mirrored into the cache, keeps the cache an exact
/// mirror of the table.
pub proof fn lemma_rename_preserves_synced(
    c0: Map<(Seq<char>, Seq<char>), EntityModel>,
    s0: Map<(Seq<char>, Seq<char>), RowModel>,
    kf: (Seq<char>, Seq<char>),
    kt: (Seq<char>, Seq<char>),
)
    requires
        synced(c0, s0),
        s0.contains_key(kf),
        !s0.contains_key(kt),
    ensures
        synced(c0.remove(kf).insert(kt, c0[kf]), s0.remove(kf).insert(kt, s0[kf])),
{
    assert(c0.contains_key(kf));
    let c1 = c0.remove(kf).insert(kt, c0[kf]);
    let s1 = s0.remove(kf).insert(kt, s0[kf]);
    assert forall|k2: (Seq<char>, Seq<char>)| #[trigger] c1.contains_key(k2) implies s1.contains_key(
        k2,
    ) && tpl_parse(s1[k2].text) is Some && c1[k2] == entity_of_row(s1[k2]) by {
        if k2 != kt {
            assert(c0.contains_key(k2));
        }
    }
    assert forall|k2: (Seq<char>, Seq<char>)| #[trigger] s1.contains_key(k2) implies c1.contains_key(
        k2,
    ) by {
        if k2 != kt {
            assert(s0.contains_key(k2));
        }
    }
}

/// Flipping the visibility flag in both layers keeps the cache an exact
/// mirror of the table.
pub proof fn lemma_set_disabled_preserves_synced(
    c0: Map<(Seq<char>, Seq<char>), EntityModel>,
    s0: Map<(Seq<char>, Seq<char>), RowModel>,
    k: (Seq<char>, Seq<char>),
    disabled: bool,
)
    requires
        synced(c0, s0),
        s0.contains_key(k),
    ensures
        synced(
            c0.insert(k, EntityModel { disabled, ..c0[k] }),
            s0.insert(k, RowModel { disabled, ..s0[k] }),
        ),
{
    assert(c0.contains_key(k));
    let c1 = c0.insert(k, EntityModel { disabled, ..c0[k] });
    let s1 = s0.insert(k, RowModel { disabled, ..s0[k] });
    assert forall|k2: (Seq<char>, Seq<char>)| #[trigger] c1.contains_key(k2) implies s1.contains_key(
        k2,
    ) && tpl_parse(s1[k2].text) is Some && c1[k2] == entity_of_row(s1[k2]) by {
        if k2 != k {
            assert(c0.contains_key(k2));
        } else {
            assert(c0[k] == entity_of_row(s0[k]));
        }
    }
    assert forall|k2: (Seq<char>, Seq<char>)| #[trigger] s1.contains_key(k2) implies c1.contains_key(
        k2,
    ) by {
        if k2 != k {
            assert(s0.contains_key(k2));
        }
    }
}

/// Setting or clearing the group in both layers keeps the cache an exact
/// mirror of the table.
pub proof fn lemma_group_preserves_synced(
    c0: Map<(Seq<char>, Seq<char>), EntityModel>,
    s0: Map<(Seq<char>, Seq<char>), RowModel>,
    k: (Seq<char>, Seq<char>),
    group: Option<Seq<char>>,
)
    requires
        synced(c0, s0),
        s0.contains_key(k),
    ensures
        synced(
            c0.insert(k, EntityModel { group, ..c0[k] }),
            s0.insert(k, RowModel { group, ..s0[k] }),
        ),
{
    assert(c0.contains_key(k));
    let c1 = c0.insert(k, EntityModel { group, ..c0[k] });
    let s1 = s0.insert(k, RowModel { group, ..s0[k] });
    assert forall|k2: (Seq<char>, Seq<char>)| #[trigger] c1.contains_key(k2) implies s1.contains_key(
        k2,
    ) && tpl_parse(s1[k2].text) is Some && c1[k2] == entity_of_row(s1[k2]) by {
        if k2 != k {
            assert(c0.contains_key(k2));
        } else {
            assert(c0[k] == entity_of_row(s0[k]));
        }
    }
    assert forall|k2: (Seq<char>, Seq<char>)| #[trigger] s1.contains_key(k2) implies c1.contains_key(
        k2,
    ) by {
        if k2 != k {
            assert(s0.contains_key(k2));
        }
    }
}

/// A confirmed counter bump keeps the cache an exact mirror of the table
/// when it lands in both layers.
pub proof fn lemma_increment_preserves_synced(
    c0: Map<(Seq<char>, Seq<char>), EntityModel>,
    s0: Map<(Seq<char>, Seq<char>), RowModel>,
    k: (Seq<char>, Seq<char>),
)
    requires
        synced(c0, s0),
        s0.contains_key(k),
        s0[k].count < u64::MAX,
    ensures
        synced(
            c0.insert(k, EntityModel { count: (c0[k].count + 1) as u64, ..c0[k] }),
            m_inc_store(s0, k),
        ),
{
    assert(c0.contains_key(k));
    let c1 = c0.insert(k, EntityModel { count: (c0[k].count + 1) as u64, ..c0[k] });
    let s1 = m_inc_store(s0, k);
    assert forall|k2: (Seq<char>, Seq<char>)| #[trigger] c1.contains_key(k2) implies s1.contains_key(
        k2,
    ) && tpl_parse(s1[k2].text) is Some && c1[k2] == entity_of_row(s1[k2]) by {
        if k2 != k {
            assert(c0.contains_key(k2));
        } else {
            assert(c0[k] == entity_of_row(s0[k]));
        }
    }
    assert forall|k2: (Seq<char>, Seq<char>)| #[trigger] s1.contains_key(k2) implies c1.contains_key(
        k2,
    ) by {
        if k2 != k {
            assert(s0.contains_key(k2));
        }
    }
}

} // verus!
