use vstd::prelude::*;

use crate::pulls::{sum, PullCounts};
use crate::utils::{carries, distinct, find_arm, ident_views, ArmNotFound};

verus! {

/// Persisted entries with their identities as character sequences.
pub open spec fn entry_views<T>(entries: Seq<(String, T)>) -> Seq<(Seq<char>, T)> {
    entries.map_values(|e: (String, T)| (e.0@, e.1))
}

/// The value of the last entry keyed `key`, or `absent` when no entry is.
pub open spec fn last_value<T>(entries: Seq<(Seq<char>, T)>, key: Seq<char>, absent: T) -> T
    decreases entries.len(),
{
    if entries.len() == 0 {
        absent
    } else if entries.last().0 == key {
        entries.last().1
    } else {
        last_value(entries.drop_last(), key, absent)
    }
}

/// Per-arm values recovered from persisted entries, in the order of the arm list.
pub open spec fn resolved<T>(idents: Seq<Seq<char>>, entries: Seq<(Seq<char>, T)>, absent: T) -> Seq<T> {
    Seq::new(idents.len(), |i: int| last_value(entries, idents[i], absent))
}

/// Every persisted entry names an arm of the list.
pub open spec fn all_known<T>(idents: Seq<Seq<char>>, entries: Seq<(Seq<char>, T)>) -> bool {
    forall|k: int| 0 <= k < entries.len() ==> carries(idents, #[trigger] entries[k].0)
}

/// Each arm's identity paired with its value.
pub open spec fn keyed_by<T>(idents: Seq<Seq<char>>, values: Seq<T>) -> Seq<(Seq<char>, T)> {
    Seq::new(idents.len(), |i: int| (idents[i], values[i]))
}

/// Pairs each arm's identity with its value, the form in which state is persisted.
pub fn keyed<T: Copy>(idents: &[String], values: &[T]) -> (r: Vec<(String, T)>)
    requires
        idents@.len() == values@.len(),
    ensures
        entry_views(r@) == keyed_by(ident_views(idents@), values@),
{
    let mut r: Vec<(String, T)> = Vec::new();
    let mut i: usize = 0;
    while i < idents.len()
        invariant
            i <= idents@.len(),
            idents@.len() == values@.len(),
            entry_views(r@) =~= keyed_by(ident_views(idents@), values@).subrange(0, i as int),
        decreases idents@.len() - i,
    {
        let id = idents[i].clone();
        assert(id@ == ident_views(idents@)[i as int]);
        let ghost before = r@;
        r.push((id, values[i]));
        assert(r@ == before.push((id, values@[i as int])));
        assert(entry_views(r@) =~= entry_views(before).push((id@, values@[i as int])));
        i = i + 1;
        assert(entry_views(r@) =~= keyed_by(ident_views(idents@), values@).subrange(0, i as int));
    }
    assert(keyed_by(ident_views(idents@), values@).subrange(0, i as int) =~= keyed_by(ident_views(idents@), values@));
    r
}

proof fn lemma_resolved_step<T>(idents: Seq<Seq<char>>, entries: Seq<(Seq<char>, T)>, k: int, j: int, absent: T)
    requires
        distinct(idents),
        0 <= k < entries.len(),
        0 <= j < idents.len(),
        idents[j] == entries[k].0,
    ensures
        resolved(idents, entries.subrange(0, k + 1), absent)
            == resolved(idents, entries.subrange(0, k), absent).update(j, entries[k].1),
{
    assert(entries.subrange(0, k + 1).drop_last() =~= entries.subrange(0, k));
    assert(resolved(idents, entries.subrange(0, k + 1), absent)
        =~= resolved(idents, entries.subrange(0, k), absent).update(j, entries[k].1));
}

/// Values per arm from persisted `(identity, value)` entries. An arm that no
/// entry names gets `absent`; where two entries name one arm, the later
/// wins. Fails with the first identity that no arm carries, and then no
/// value is returned.
pub fn resolve<T: Copy>(idents: &[String], entries: &[(String, T)], absent: T) -> (r: Result<Vec<T>, ArmNotFound>)
    requires
        distinct(ident_views(idents@)),
    ensures
        r is Ok <==> all_known(ident_views(idents@), entry_views(entries@)),
        r matches Ok(v) ==> v@ == resolved(ident_views(idents@), entry_views(entries@), absent),
        r matches Err(e) ==> exists|k: int|
            0 <= k < entries@.len() && e.ident@ == (#[trigger] entries@[k]).0@
            && !carries(ident_views(idents@), entries@[k].0@)
            && all_known(ident_views(idents@), entry_views(entries@.subrange(0, k))),
{
    let ghost idv = ident_views(idents@);
    let ghost ev = entry_views(entries@);
    let mut out: Vec<T> = Vec::new();
    let mut i: usize = 0;
    while i < idents.len()
        invariant
            i <= idents@.len(),
            out@ =~= Seq::new(i as nat, |m: int| absent),
        decreases idents@.len() - i,
    {
        out.push(absent);
        i = i + 1;
    }
    assert(out@ =~= resolved(idv, ev.subrange(0, 0), absent));
    let mut k: usize = 0;
    while k < entries.len()
        invariant
            k <= entries@.len(),
            idv == ident_views(idents@),
            ev == entry_views(entries@),
            distinct(idv),
            out@ == resolved(idv, ev.subrange(0, k as int), absent),
            all_known(idv, ev.subrange(0, k as int)),
        decreases entries@.len() - k,
    {
        assert(ev.subrange(0, k as int) =~= entry_views(entries@.subrange(0, k as int)));
        match find_arm(idents, entries[k].0.as_str()) {
            Ok(j) => {
                proof {
                    lemma_resolved_step(idv, ev, k as int, j as int, absent);
                    assert forall|m: int| 0 <= m < k + 1 implies carries(idv, #[trigger] ev.subrange(0, k + 1)[m].0) by {
                        if m < k {
                            assert(ev.subrange(0, k + 1)[m] == ev.subrange(0, k as int)[m]);
                        } else {
                            assert(idv[j as int] == ev[k as int].0);
                        }
                    }
                }
                out.set(j, entries[k].1);
                k = k + 1;
            },
            Err(e) => {
                proof {
                    assert(!carries(idv, ev[k as int].0));
                    assert(!all_known(idv, ev));
                }
                return Err(e);
            },
        }
    }
    assert(ev.subrange(0, k as int) =~= ev);
    Ok(out)
}

/// Failure to rebuild an engine's pull counts from persisted entries.
#[derive(Debug, Clone, PartialEq, Eq)]
pub enum LoadError {
    /// A persisted identity names no arm of the list.
    NotFound(ArmNotFound),
    /// The persisted counts sum to more than a `u64` holds.
    CountOverflow,
}

/// Pull counts per arm from persisted `(identity, count)` entries; an arm that
/// no entry names has never been pulled.
pub fn restore_counts(idents: &[String], entries: &[(String, u64)]) -> (r: Result<PullCounts, LoadError>)
    requires
        distinct(ident_views(idents@)),
    ensures
        r matches Err(LoadError::NotFound(_)) <==> !all_known(ident_views(idents@), entry_views(entries@)),
        r matches Err(LoadError::CountOverflow) <==> all_known(ident_views(idents@), entry_views(entries@))
            && sum(resolved(ident_views(idents@), entry_views(entries@), 0u64)) > u64::MAX,
        r matches Ok(p) ==> p.wf() && p@ == resolved(ident_views(idents@), entry_views(entries@), 0u64),
{
    match resolve(idents, entries, 0u64) {
        Ok(counts) => match PullCounts::from_counts(counts) {
            Some(p) => Ok(p),
            None => Err(LoadError::CountOverflow),
        },
        Err(e) => Err(LoadError::NotFound(e)),
    }
}

proof fn lemma_last_value_keyed<T>(idents: Seq<Seq<char>>, values: Seq<T>, absent: T, m: int, i: int)
    requires
        distinct(idents),
        idents.len() == values.len(),
        0 <= m <= idents.len(),
        0 <= i < idents.len(),
    ensures
        last_value(keyed_by(idents, values).subrange(0, m), idents[i], absent)
            == if i < m { values[i] } else { absent },
    decreases m,
{
    let s = keyed_by(idents, values).subrange(0, m);
    if m > 0 {
        assert(s.drop_last() =~= keyed_by(idents, values).subrange(0, m - 1));
        lemma_last_value_keyed(idents, values, absent, m - 1, i);
    }
}

/// Saving then loading with the same arms gives back every arm's value:
/// entries keyed by distinct identities all name a known arm, and resolving
/// them yields the values in the order of the arm list.
pub proof fn lemma_round_trip<T>(idents: Seq<Seq<char>>, values: Seq<T>, absent: T)
    requires
        distinct(idents),
        idents.len() == values.len(),
    ensures
        all_known(idents, keyed_by(idents, values)),
        resolved(idents, keyed_by(idents, values), absent) == values,
{
    let e = keyed_by(idents, values);
    assert forall|k: int| 0 <= k < e.len() implies carries(idents, #[trigger] e[k].0) by {
        assert(idents[k] == e[k].0);
    }
    assert forall|i: int| 0 <= i < idents.len() implies #[trigger] resolved(idents, e, absent)[i] == values[i] by {
        lemma_last_value_keyed(idents, values, absent, idents.len() as int, i);
        assert(e.subrange(0, idents.len() as int) =~= e);
    }
    assert(resolved(idents, e, absent) =~= values);
}

/// State saved with an arm `x` cannot be loaded with an arm list that lacks
/// `x`: some persisted entry names no arm of that list.
pub proof fn lemma_missing_arm_fails<T>(idents: Seq<Seq<char>>, x: Seq<char>, values: Seq<T>)
    requires
        !carries(idents, x),
        values.len() == idents.len() + 1,
    ensures
        !all_known(idents, keyed_by(idents.push(x), values)),
{
    let e = keyed_by(idents.push(x), values);
    assert(e[idents.len() as int].0 == x);
}

/// No two entries share an identity, as in a persisted map.
pub open spec fn distinct_keys<T>(entries: Seq<(Seq<char>, T)>) -> bool {
    forall|i: int, j: int| 0 <= i < entries.len() && 0 <= j < entries.len() && i != j ==> entries[i].0 != entries[j].0
}

/// Entries with distinct identities give each key the value of its one entry.
proof fn lemma_last_value_unique<T>(entries: Seq<(Seq<char>, T)>, key: Seq<char>, absent: T)
    requires
        distinct_keys(entries),
    ensures
        forall|k: int| 0 <= k < entries.len() && entries[k].0 == key ==> last_value(entries, key, absent) == #[trigger] entries[k].1,
        (forall|k: int| 0 <= k < entries.len() ==> (#[trigger] entries[k]).0 != key) ==> last_value(entries, key, absent) == absent,
    decreases entries.len(),
{
    if entries.len() > 0 {
        let d = entries.drop_last();
        assert(distinct_keys(d));
        lemma_last_value_unique(d, key, absent);
        assert forall|k: int| 0 <= k < entries.len() && entries[k].0 == key implies last_value(entries, key, absent) == #[trigger] entries[k].1 by {
            if k < entries.len() - 1 {
                assert(d[k] == entries[k]);
            }
        }
        if forall|k: int| 0 <= k < entries.len() ==> (#[trigger] entries[k]).0 != key {
            assert forall|k: int| 0 <= k < d.len() implies (#[trigger] d[k]).0 != key by {
                assert(d[k] == entries[k]);
            }
        }
    }
}

/// Loading does not depend on the order of the persisted entries: two lists
/// of entries with distinct identities that hold the same entries name the
/// same arms and resolve to the same values.
pub proof fn lemma_resolve_order_free<T>(idents: Seq<Seq<char>>, a: Seq<(Seq<char>, T)>, b: Seq<(Seq<char>, T)>, absent: T)
    requires
        distinct_keys(a),
        distinct_keys(b),
        forall|x: (Seq<char>, T)| a.contains(x) <==> b.contains(x),
    ensures
        all_known(idents, a) <==> all_known(idents, b),
        resolved(idents, a, absent) == resolved(idents, b, absent),
{
    assert forall|i: int| 0 <= i < idents.len() implies #[trigger] resolved(idents, a, absent)[i] == resolved(idents, b, absent)[i] by {
        let key = idents[i];
        lemma_last_value_unique(a, key, absent);
        lemma_last_value_unique(b, key, absent);
        if exists|k: int| 0 <= k < a.len() && a[k].0 == key {
            let k = choose|k: int| 0 <= k < a.len() && a[k].0 == key;
            assert(a.contains(a[k]));
            assert(b.contains(a[k]));
            let m = choose|m: int| 0 <= m < b.len() && b[m] == a[k];
            assert(b[m].0 == key);
            assert(last_value(a, key, absent) == a[k].1);
            assert(last_value(b, key, absent) == b[m].1);
        } else if exists|m: int| 0 <= m < b.len() && b[m].0 == key {
            let m = choose|m: int| 0 <= m < b.len() && b[m].0 == key;
            assert(b.contains(b[m]));
            assert(a.contains(b[m]));
            let k = choose|k: int| 0 <= k < a.len() && a[k] == b[m];
            assert(a[k].0 == key);
        } else {
            assert forall|k: int| 0 <= k < a.len() implies (#[trigger] a[k]).0 != key by {}
            assert forall|m: int| 0 <= m < b.len() implies (#[trigger] b[m]).0 != key by {}
            assert(last_value(a, key, absent) == absent);
            assert(last_value(b, key, absent) == absent);
        }
        assert(resolved(idents, a, absent)[i] == last_value(a, key, absent));
        assert(resolved(idents, b, absent)[i] == last_value(b, key, absent));
    }
    assert(resolved(idents, a, absent) =~= resolved(idents, b, absent));
    if all_known(idents, a) {
        assert forall|m: int| 0 <= m < b.len() implies carries(idents, #[trigger] b[m].0) by {
            assert(b.contains(b[m]));
            let k = choose|k: int| 0 <= k < a.len() && a[k] == b[m];
            assert(carries(idents, a[k].0));
        }
    }
    if all_known(idents, b) {
        assert forall|k: int| 0 <= k < a.len() implies carries(idents, #[trigger] a[k].0) by {
            assert(a.contains(a[k]));
            let m = choose|m: int| 0 <= m < b.len() && b[m] == a[k];
            assert(carries(idents, b[m].0));
        }
    }
}

/// Saving then loading with the same arms gives back every arm's value, in
/// whatever order the persisted map hands its entries back.
pub proof fn lemma_round_trip_any_order<T>(idents: Seq<Seq<char>>, values: Seq<T>, loaded: Seq<(Seq<char>, T)>, absent: T)
    requires
        distinct(idents),
        idents.len() == values.len(),
        distinct_keys(loaded),
        forall|x: (Seq<char>, T)| keyed_by(idents, values).contains(x) <==> loaded.contains(x),
    ensures
        all_known(idents, loaded),
        resolved(idents, loaded, absent) == values,
{
    let e = keyed_by(idents, values);
    assert(distinct_keys(e));
    lemma_round_trip(idents, values, absent);
    lemma_resolve_order_free(idents, e, loaded, absent);
}

} // verus!
