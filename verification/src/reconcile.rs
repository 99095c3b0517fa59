//! The companion's reconciled tactical state: canonical envelopes without
//! duplicate identifiers, and the snapshot that absorbs every accepted delta
//! so that a refreshed browser receives the current state.
use crate::protocol::{
    Envelope, EntityDelta, MarkerDelta, PositionDelta, PositionUpdate, SessionSnapshot,
    TacticalEntity, TacticalMarker, TacticalMessage, MAX_ENTITIES, MAX_MARKERS,
};
use vstd::prelude::*;

verus! {

/// A protocol item identified by a string key.
pub trait Keyed {
    /// The item's identifier.
    spec fn key(&self) -> Seq<char>;

    /// The item's identifier as a string.
    fn key_string(&self) -> (r: &String)
        ensures
            r@ == self.key(),
    ;
}

impl Keyed for TacticalEntity {
    open spec fn key(&self) -> Seq<char> {
        self.id@
    }

    fn key_string(&self) -> (r: &String) {
        &self.id
    }
}

impl Keyed for TacticalMarker {
    open spec fn key(&self) -> Seq<char> {
        self.id@
    }

    fn key_string(&self) -> (r: &String) {
        &self.id
    }
}

impl Keyed for PositionUpdate {
    open spec fn key(&self) -> Seq<char> {
        self.id@
    }

    fn key_string(&self) -> (r: &String) {
        &self.id
    }
}

impl Keyed for String {
    open spec fn key(&self) -> Seq<char> {
        self@
    }

    fn key_string(&self) -> (r: &String) {
        self
    }
}

/// No two items of `s` share a key.
pub open spec fn unique_keys<T: Keyed>(s: Seq<T>) -> bool {
    forall|i: int, j: int| 0 <= i < j < s.len() ==> #[trigger] s[i].key() != #[trigger] s[j].key()
}

/// Some item of `s` has key `k`.
pub open spec fn has_key<T: Keyed>(s: Seq<T>, k: Seq<char>) -> bool {
    exists|i: int| 0 <= i < s.len() && #[trigger] s[i].key() == k
}

/// No later item of `s` shares the key of `s[i]`.
pub open spec fn is_last_occurrence<T: Keyed>(s: Seq<T>, i: int) -> bool {
    forall|k: int| i < k < s.len() ==> #[trigger] s[k].key() != s[i].key()
}

/// Every item of `s` with key `later` comes after some item with key `earlier`.
pub open spec fn key_first_seen_before<T: Keyed>(s: Seq<T>, earlier: Seq<char>, later: Seq<char>) -> bool {
    forall|k: int|
        0 <= k < s.len() && #[trigger] s[k].key() == later ==> exists|m: int|
            0 <= m < k && #[trigger] s[m].key() == earlier
}

/// `x` is the last item of `s` with its key.
pub open spec fn is_last_item_of<T: Keyed>(s: Seq<T>, x: T) -> bool {
    exists|i: int| 0 <= i < s.len() && #[trigger] s[i] == x && is_last_occurrence(s, i)
}

/// `r` is `s` without duplicate keys: one item per key of `s`, in the order
/// in which the keys first appear in `s`, each being the last item of `s`
/// with that key.
pub open spec fn is_dedup_by_key<T: Keyed>(s: Seq<T>, r: Seq<T>) -> bool {
    &&& unique_keys(r)
    &&& forall|k: int| 0 <= k < s.len() ==> has_key(r, #[trigger] s[k].key())
    &&& forall|j: int| 0 <= j < r.len() ==> is_last_item_of(s, #[trigger] r[j])
    &&& forall|a: int, b: int|
        0 <= a < b < r.len() ==> key_first_seen_before(s, #[trigger] r[a].key(), #[trigger] r[b].key())
}

/// `i` is the first position of an item with key `k` in `s`.
pub open spec fn is_first_key_index<T: Keyed>(s: Seq<T>, k: Seq<char>, i: int) -> bool {
    &&& 0 <= i < s.len()
    &&& s[i].key() == k
    &&& forall|m: int| 0 <= m < i ==> #[trigger] s[m].key() != k
}

/// The first position of an item with key `k` in `s`, when there is one.
pub open spec fn first_key_index<T: Keyed>(s: Seq<T>, k: Seq<char>) -> int {
    choose|i: int| is_first_key_index(s, k, i)
}

/// The first position of an item with key `k` is the position that
/// [`first_key_index`] names.
pub proof fn lemma_first_key_index<T: Keyed>(s: Seq<T>, k: Seq<char>, i: int)
    requires
        is_first_key_index(s, k, i),
    ensures
        first_key_index(s, k) == i,
{
    let c = first_key_index(s, k);
    assert(is_first_key_index(s, k, c));
    if c < i {
        assert(s[c].key() != k);
    } else if i < c {
        assert(s[i].key() != k);
    }
}

/// Some item of `s` has key `k` exactly when there is a first such item.
pub proof fn lemma_has_key_first<T: Keyed>(s: Seq<T>, k: Seq<char>)
    requires
        has_key(s, k),
    ensures
        is_first_key_index(s, k, first_key_index(s, k)),
    decreases s.len(),
{
    let w = choose|w: int| 0 <= w < s.len() && #[trigger] s[w].key() == k;
    if s[0].key() == k {
        assert(is_first_key_index(s, k, 0));
    } else {
        let t = s.drop_first();
        assert(t[w - 1].key() == k);
        lemma_has_key_first(t, k);
        let f = first_key_index(t, k);
        assert forall|m: int| 0 <= m < f + 1 implies #[trigger] s[m].key() != k by {
            if m > 0 {
                assert(s[m] == t[m - 1]);
            }
        }
        assert(is_first_key_index(s, k, f + 1));
    }
}

/// The index of the first item with key `key` in `items`.
fn position_of_key<T: Keyed>(items: &Vec<T>, key: &String) -> (r: Option<usize>)
    ensures
        match r {
            Some(j) => j < items.len() && is_first_key_index(items@, key@, j as int),
            None => !has_key(items@, key@),
        },
{
    let mut j: usize = 0;
    while j < items.len()
        invariant
            j <= items.len(),
            forall|m: int| 0 <= m < j ==> #[trigger] items@[m].key() != key@,
        decreases items.len() - j,
    {
        if crate::text::str_eq(items[j].key_string().as_str(), key.as_str()) {
            return Some(j);
        }
        assert(items@[j as int].key() != key@);
        j = j + 1;
    }
    None
}

/// The state of [`deduplicate_by_id`] after the first `i` items of `orig`:
/// `unique` holds one item per key seen, `firsts[j]` and `lasts[j]` are the
/// first and last positions in `orig` of the key of `unique[j]`.
pub open spec fn dedup_progress<T: Keyed>(
    orig: Seq<T>,
    i: int,
    unique: Seq<T>,
    firsts: Seq<int>,
    lasts: Seq<int>,
) -> bool {
    &&& 0 <= i <= orig.len()
    &&& firsts.len() == unique.len()
    &&& lasts.len() == unique.len()
    &&& unique_keys(unique)
    &&& forall|j: int|
        0 <= j < unique.len() ==> 0 <= #[trigger] firsts[j] <= lasts[j] < i && orig[firsts[j]].key()
            == unique[j].key() && unique[j] == orig[lasts[j]]
    &&& forall|j: int, k: int|
        0 <= j < unique.len() && 0 <= k < firsts[j] ==> #[trigger] orig[k].key()
            != #[trigger] unique[j].key()
    &&& forall|j: int, k: int|
        0 <= j < unique.len() && lasts[j] < k < i ==> #[trigger] orig[k].key()
            != #[trigger] unique[j].key()
    &&& forall|a: int, b: int| 0 <= a < b < unique.len() ==> #[trigger] firsts[a] < #[trigger] firsts[b]
    &&& forall|k: int| 0 <= k < i ==> has_key(unique, #[trigger] orig[k].key())
}

proof fn lemma_dedup_replace<T: Keyed>(
    orig: Seq<T>,
    i: int,
    unique: Seq<T>,
    firsts: Seq<int>,
    lasts: Seq<int>,
    j: int,
)
    requires
        dedup_progress(orig, i, unique, firsts, lasts),
        i < orig.len(),
        0 <= j < unique.len(),
        unique[j].key() == orig[i].key(),
    ensures
        dedup_progress(orig, i + 1, unique.update(j, orig[i]), firsts, lasts.update(j, i)),
{
    let nu = unique.update(j, orig[i]);
    let nl = lasts.update(j, i);
    assert forall|a: int, b: int| 0 <= a < b < nu.len() implies #[trigger] nu[a].key()
        != #[trigger] nu[b].key() by {
        assert(unique[a].key() != unique[b].key());
    }
    assert forall|a: int|
        0 <= a < nu.len() implies 0 <= #[trigger] firsts[a] <= nl[a] < i + 1 && orig[firsts[a]].key()
        == nu[a].key() && nu[a] == orig[nl[a]] by {
        assert(0 <= firsts[a] <= lasts[a] < i);
    }
    assert forall|a: int, k: int|
        0 <= a < nu.len() && 0 <= k < firsts[a] implies #[trigger] orig[k].key()
        != #[trigger] nu[a].key() by {
        assert(orig[k].key() != unique[a].key());
    }
    assert forall|a: int, k: int|
        0 <= a < nu.len() && nl[a] < k < i + 1 implies #[trigger] orig[k].key()
        != #[trigger] nu[a].key() by {
        if a != j {
            if k == i {
                assert(unique[a].key() != unique[j].key());
            } else {
                assert(orig[k].key() != unique[a].key());
            }
        }
    }
    assert forall|k: int| 0 <= k < i + 1 implies has_key(nu, #[trigger] orig[k].key()) by {
        if k < i {
            assert(has_key(unique, orig[k].key()));
            let w = choose|w: int| 0 <= w < unique.len() && #[trigger] unique[w].key() == orig[k].key();
            assert(nu[w].key() == orig[k].key());
        } else {
            assert(nu[j].key() == orig[k].key());
        }
    }
}

proof fn lemma_dedup_append<T: Keyed>(
    orig: Seq<T>,
    i: int,
    unique: Seq<T>,
    firsts: Seq<int>,
    lasts: Seq<int>,
)
    requires
        dedup_progress(orig, i, unique, firsts, lasts),
        i < orig.len(),
        !has_key(unique, orig[i].key()),
    ensures
        dedup_progress(orig, i + 1, unique.push(orig[i]), firsts.push(i), lasts.push(i)),
{
    let nu = unique.push(orig[i]);
    let nf = firsts.push(i);
    let nl = lasts.push(i);
    let n = unique.len() as int;
    assert forall|a: int, b: int| 0 <= a < b < nu.len() implies #[trigger] nu[a].key()
        != #[trigger] nu[b].key() by {
        if b == n {
            assert(unique[a].key() != orig[i].key());
        } else {
            assert(unique[a].key() != unique[b].key());
        }
    }
    assert forall|a: int|
        0 <= a < nu.len() implies 0 <= #[trigger] nf[a] <= nl[a] < i + 1 && orig[nf[a]].key()
        == nu[a].key() && nu[a] == orig[nl[a]] by {
        if a < n {
            assert(0 <= firsts[a] <= lasts[a] < i);
        }
    }
    assert forall|a: int, k: int|
        0 <= a < nu.len() && 0 <= k < nf[a] implies #[trigger] orig[k].key()
        != #[trigger] nu[a].key() by {
        if a < n {
            assert(orig[k].key() != unique[a].key());
        } else if orig[k].key() == nu[a].key() {
            assert(has_key(unique, orig[k].key()));
        }
    }
    assert forall|a: int, k: int|
        0 <= a < nu.len() && nl[a] < k < i + 1 implies #[trigger] orig[k].key()
        != #[trigger] nu[a].key() by {
        if a < n {
            if k == i {
                assert(unique[a].key() != orig[i].key());
            } else {
                assert(orig[k].key() != unique[a].key());
            }
        }
    }
    assert forall|a: int, b: int| 0 <= a < b < nu.len() implies #[trigger] nf[a] < #[trigger] nf[b] by {
        if b == n {
            assert(0 <= firsts[a] <= lasts[a] < i);
        } else {
            assert(firsts[a] < firsts[b]);
        }
    }
    assert forall|k: int| 0 <= k < i + 1 implies has_key(nu, #[trigger] orig[k].key()) by {
        if k < i {
            assert(has_key(unique, orig[k].key()));
            let w = choose|w: int| 0 <= w < unique.len() && #[trigger] unique[w].key() == orig[k].key();
            assert(nu[w].key() == orig[k].key());
        } else {
            assert(nu[n].key() == orig[k].key());
        }
    }
}

proof fn lemma_dedup_done<T: Keyed>(orig: Seq<T>, unique: Seq<T>, firsts: Seq<int>, lasts: Seq<int>)
    requires
        dedup_progress(orig, orig.len() as int, unique, firsts, lasts),
    ensures
        is_dedup_by_key(orig, unique),
{
    assert forall|j: int| 0 <= j < unique.len() implies is_last_item_of(orig, #[trigger] unique[j]) by {
        assert(0 <= firsts[j] <= lasts[j] < orig.len());
        let m = lasts[j];
        assert forall|k: int| m < k < orig.len() implies #[trigger] orig[k].key() != orig[m].key() by {
            assert(orig[k].key() != unique[j].key());
        }
        assert(orig[m] == unique[j] && is_last_occurrence(orig, m));
    }
    assert forall|a: int, b: int| 0 <= a < b < unique.len() implies key_first_seen_before(
        orig,
        #[trigger] unique[a].key(),
        #[trigger] unique[b].key(),
    ) by {
        assert(0 <= firsts[a] <= lasts[a] < orig.len());
        assert(0 <= firsts[b] <= lasts[b] < orig.len());
        assert(firsts[a] < firsts[b]);
        assert forall|k: int|
            0 <= k < orig.len() && #[trigger] orig[k].key() == unique[b].key() implies (exists|m: int|
            0 <= m < k && #[trigger] orig[m].key() == unique[a].key()) by {
            assert(!(k < firsts[b]));
            assert(orig[firsts[a]].key() == unique[a].key());
        }
    }
}

/// `deduplicate_by_id`: keeps one item per key, where it first appeared,
/// holding the last item with that key.
pub fn deduplicate_by_id<T: Keyed>(items: &mut Vec<T>)
    ensures
        is_dedup_by_key(old(items)@, final(items)@),
{
    let ghost orig = items@;
    assert(orig.len() == items.len());
    let mut rest: Vec<T> = Vec::new();
    std::mem::swap(&mut rest, items);
    let mut unique: Vec<T> = Vec::new();
    let ghost mut firsts: Seq<int> = Seq::empty();
    let ghost mut lasts: Seq<int> = Seq::empty();
    let mut i: usize = 0;
    while rest.len() > 0
        invariant
            orig.len() <= usize::MAX,
            i <= orig.len(),
            rest@ == orig.skip(i as int),
            rest@.len() == orig.len() - i,
            dedup_progress(orig, i as int, unique@, firsts, lasts),
        decreases rest.len(),
    {
        let item = rest.remove(0);
        assert(item == orig[i as int]);
        assert(rest@ =~= orig.skip(i + 1));
        let found = position_of_key(&unique, item.key_string());
        match found {
            Some(j) => {
                proof {
                    lemma_dedup_replace(orig, i as int, unique@, firsts, lasts, j as int);
                    lasts = lasts.update(j as int, i as int);
                }
                unique.set(j, item);
            },
            None => {
                proof {
                    lemma_dedup_append(orig, i as int, unique@, firsts, lasts);
                    firsts = firsts.push(i as int);
                    lasts = lasts.push(i as int);
                }
                unique.push(item);
            },
        }
        i = i + 1;
    }
    proof {
        lemma_dedup_done(orig, unique@, firsts, lasts);
    }
    *items = unique;
}

/// Some identifier of `removed` equals `k`.
pub open spec fn is_removed(removed: Seq<String>, k: Seq<char>) -> bool {
    has_key(removed, k)
}

/// The items of `s` whose key is not among `removed`, in order.
pub open spec fn without_removed<T: Keyed>(s: Seq<T>, removed: Seq<String>) -> Seq<T> {
    s.filter(|x: T| !is_removed(removed, x.key()))
}

/// `x` replaces the first item with its key, or is appended when no item
/// has its key.
pub open spec fn upsert<T: Keyed>(s: Seq<T>, x: T) -> Seq<T> {
    if has_key(s, x.key()) {
        s.update(first_key_index(s, x.key()), x)
    } else {
        s.push(x)
    }
}

/// Each item of `xs`, in order, is upserted into `s`.
pub open spec fn upsert_all<T: Keyed>(s: Seq<T>, xs: Seq<T>) -> Seq<T>
    decreases xs.len(),
{
    if xs.len() == 0 {
        s
    } else {
        upsert(upsert_all(s, xs.drop_last()), xs.last())
    }
}

/// The keys that remain after removing `removed` from `current` and adding
/// `updated`.
pub open spec fn resulting_keys<T: Keyed>(
    current: Seq<T>,
    removed: Seq<String>,
    updated: Seq<T>,
) -> Set<Seq<char>> {
    Set::new(
        |k: Seq<char>| (has_key(current, k) && !is_removed(removed, k)) || has_key(updated, k),
    )
}

/// The set of keys of `s`.
pub open spec fn keys_of<T: Keyed>(s: Seq<T>) -> Set<Seq<char>> {
    Set::new(|k: Seq<char>| has_key(s, k))
}

/// Whether the identifier `key` is listed in `removed`.
pub fn removed_contains(removed: &Vec<String>, key: &String) -> (r: bool)
    ensures
        r == is_removed(removed@, key@),
{
    position_of_key(removed, key).is_some()
}

proof fn lemma_string_keys_no_dup(seen: Seq<String>)
    requires
        unique_keys(seen),
    ensures
        seen.map_values(|x: String| x@).no_duplicates(),
{
    let v = seen.map_values(|x: String| x@);
    assert forall|i: int, j: int| 0 <= i < v.len() && 0 <= j < v.len() && i != j implies v[i] != v[j] by {
        if i < j {
            assert(seen[i].key() != seen[j].key());
        } else {
            assert(seen[j].key() != seen[i].key());
        }
    }
}

/// The number of distinct keys among `current` without `removed`, together
/// with `updated`.
pub fn resulting_key_count<T: Keyed>(
    current: &Vec<T>,
    removed: &Vec<String>,
    updated: &Vec<T>,
) -> (r: usize)
    ensures
        r == resulting_keys(current@, removed@, updated@).len(),
        resulting_keys(current@, removed@, updated@).finite(),
{
    let mut seen: Vec<String> = Vec::new();
    let mut i: usize = 0;
    while i < current.len()
        invariant
            i <= current.len(),
            unique_keys(seen@),
            keys_of(seen@) == Set::new(
                |k: Seq<char>| has_key(current@.take(i as int), k) && !is_removed(removed@, k),
            ),
        decreases current.len() - i,
    {
        let key = current[i].key_string();
        let ghost before = seen@;
        if !removed_contains(removed, key) && position_of_key(&seen, key).is_none() {
            seen.push(key.clone());
            proof {
                assert forall|a: int, b: int| 0 <= a < b < seen@.len() implies #[trigger] seen@[a].key()
                    != #[trigger] seen@[b].key() by {
                    if b == before.len() {
                        assert(before[a].key() != key@);
                    } else {
                        assert(before[a].key() != before[b].key());
                    }
                }
            }
        }
        proof {
            let t = current@.take(i as int + 1);
            assert forall|k: Seq<char>| keys_of(seen@).contains(k) == (has_key(t, k) && !is_removed(
                removed@,
                k,
            )) by {
                if has_key(seen@, k) {
                    let w = choose|w: int| 0 <= w < seen@.len() && #[trigger] seen@[w].key() == k;
                    if w < before.len() {
                        assert(before[w].key() == k);
                        assert(keys_of(before).contains(k));
                        let v = choose|v: int| 0 <= v < i && #[trigger] current@.take(i as int)[v].key() == k;
                        assert(t[v].key() == k);
                    } else {
                        assert(t[i as int].key() == k);
                    }
                }
                if has_key(t, k) && !is_removed(removed@, k) {
                    let v = choose|v: int| 0 <= v < t.len() && #[trigger] t[v].key() == k;
                    if v < i {
                        assert(current@.take(i as int)[v].key() == k);
                        assert(keys_of(before).contains(k));
                        let w = choose|w: int| 0 <= w < before.len() && #[trigger] before[w].key() == k;
                        assert(seen@[w].key() == k);
                    } else if has_key(before, k) {
                        let w = choose|w: int| 0 <= w < before.len() && #[trigger] before[w].key() == k;
                        assert(seen@[w].key() == k);
                    } else {
                        assert(seen@[seen@.len() - 1].key() == k);
                    }
                }
            }
            assert(keys_of(seen@) =~= Set::new(
                |k: Seq<char>| has_key(t, k) && !is_removed(removed@, k),
            ));
        }
        i = i + 1;
    }
    assert(current@.take(current@.len() as int) =~= current@);
    let ghost base = seen@;
    let mut j: usize = 0;
    while j < updated.len()
        invariant
            j <= updated.len(),
            unique_keys(seen@),
            keys_of(seen@) == Set::new(
                |k: Seq<char>| (has_key(current@, k) && !is_removed(removed@, k)) || has_key(
                    updated@.take(j as int),
                    k,
                ),
            ),
        decreases updated.len() - j,
    {
        let key = updated[j].key_string();
        let ghost before = seen@;
        if position_of_key(&seen, key).is_none() {
            seen.push(key.clone());
            proof {
                assert forall|a: int, b: int| 0 <= a < b < seen@.len() implies #[trigger] seen@[a].key()
                    != #[trigger] seen@[b].key() by {
                    if b == before.len() {
                        assert(before[a].key() != key@);
                    } else {
                        assert(before[a].key() != before[b].key());
                    }
                }
            }
        }
        proof {
            let t = updated@.take(j as int + 1);
            let old_t = updated@.take(j as int);
            assert forall|k: Seq<char>| keys_of(seen@).contains(k) == ((has_key(current@, k)
                && !is_removed(removed@, k)) || has_key(t, k)) by {
                if has_key(seen@, k) {
                    let w = choose|w: int| 0 <= w < seen@.len() && #[trigger] seen@[w].key() == k;
                    if w < before.len() {
                        assert(before[w].key() == k);
                        assert(keys_of(before).contains(k));
                        if has_key(old_t, k) {
                            let v = choose|v: int| 0 <= v < old_t.len() && #[trigger] old_t[v].key() == k;
                            assert(t[v].key() == k);
                        }
                    } else {
                        assert(t[j as int].key() == k);
                    }
                }
                if (has_key(current@, k) && !is_removed(removed@, k)) || has_key(t, k) {
                    if has_key(before, k) {
                        let w = choose|w: int| 0 <= w < before.len() && #[trigger] before[w].key() == k;
                        assert(seen@[w].key() == k);
                    } else if (has_key(current@, k) && !is_removed(removed@, k)) {
                        assert(keys_of(before).contains(k));
                    } else {
                        let v = choose|v: int| 0 <= v < t.len() && #[trigger] t[v].key() == k;
                        if v < j {
                            assert(old_t[v].key() == k);
                            assert(keys_of(before).contains(k));
                        } else {
                            assert(seen@[seen@.len() - 1].key() == k);
                        }
                    }
                }
            }
            assert(keys_of(seen@) =~= Set::new(
                |k: Seq<char>| (has_key(current@, k) && !is_removed(removed@, k)) || has_key(t, k),
            ));
        }
        j = j + 1;
    }
    assert(updated@.take(updated@.len() as int) =~= updated@);
    proof {
        let v = seen@.map_values(|x: String| x@);
        lemma_string_keys_no_dup(seen@);
        v.unique_seq_to_set();
        assert(v.to_set() =~= keys_of(seen@)) by {
            assert forall|k: Seq<char>| v.to_set().contains(k) == keys_of(seen@).contains(k) by {
                if v.contains(k) {
                    let w = choose|w: int| 0 <= w < v.len() && v[w] == k;
                    assert(seen@[w].key() == k);
                }
                if has_key(seen@, k) {
                    let w = choose|w: int| 0 <= w < seen@.len() && #[trigger] seen@[w].key() == k;
                    assert(v[w] == k);
                }
            }
        }
        assert(resulting_keys(current@, removed@, updated@) =~= keys_of(seen@));
    }
    seen.len()
}

/// Removes the items whose key is listed in `removed`, keeping the order of
/// the others.
pub fn retain_unremoved<T: Keyed>(items: &mut Vec<T>, removed: &Vec<String>)
    ensures
        final(items)@ == without_removed(old(items)@, removed@),
{
    let ghost orig = items@;
    assert(orig.len() == items.len());
    let mut rest: Vec<T> = Vec::new();
    std::mem::swap(&mut rest, items);
    let mut kept: Vec<T> = Vec::new();
    let mut i: usize = 0;
    while rest.len() > 0
        invariant
            orig.len() <= usize::MAX,
            i <= orig.len(),
            rest@ == orig.skip(i as int),
            rest@.len() == orig.len() - i,
            kept@ == without_removed(orig.take(i as int), removed@),
        decreases rest.len(),
    {
        let item = rest.remove(0);
        assert(item == orig[i as int]);
        assert(rest@ =~= orig.skip(i + 1));
        let keep = !removed_contains(removed, item.key_string());
        proof {
            let t = orig.take(i + 1);
            assert(t.drop_last() =~= orig.take(i as int));
            assert(t.last() == item);
            reveal_with_fuel(Seq::filter, 1);
        }
        if keep {
            kept.push(item);
        }
        i = i + 1;
    }
    assert(orig.take(orig.len() as int) =~= orig);
    *items = kept;
}

/// Upserts each item of `updates`, in order.
pub fn upsert_items<T: Keyed>(items: &mut Vec<T>, updates: Vec<T>)
    ensures
        final(items)@ == upsert_all(old(items)@, updates@),
{
    let ghost base = items@;
    let ghost all = updates@;
    assert(all.len() == updates.len());
    let mut rest = updates;
    let mut i: usize = 0;
    while rest.len() > 0
        invariant
            all.len() <= usize::MAX,
            i <= all.len(),
            rest@ == all.skip(i as int),
            rest@.len() == all.len() - i,
            items@ == upsert_all(base, all.take(i as int)),
        decreases rest.len(),
    {
        let item = rest.remove(0);
        assert(item == all[i as int]);
        assert(rest@ =~= all.skip(i + 1));
        let ghost before = items@;
        proof {
            let t = all.take(i + 1);
            assert(t.drop_last() =~= all.take(i as int));
            assert(t.last() == item);
        }
        match position_of_key(items, item.key_string()) {
            Some(j) => {
                proof {
                    lemma_first_key_index(before, item.key(), j as int);
                }
                items.set(j, item);
            },
            None => {
                items.push(item);
            },
        }
        i = i + 1;
    }
    assert(all.take(all.len() as int) =~= all);
}

/// `e` with the pose of `u`.
pub open spec fn with_pose(e: TacticalEntity, u: PositionUpdate) -> TacticalEntity {
    TacticalEntity { position: u.position, direction: u.direction, ..e }
}

/// The first entity with the key of `u` takes its pose; without such an
/// entity nothing changes.
pub open spec fn apply_position(s: Seq<TacticalEntity>, u: PositionUpdate) -> Seq<TacticalEntity> {
    if has_key(s, u.key()) {
        let i = first_key_index(s, u.key());
        s.update(i, with_pose(s[i], u))
    } else {
        s
    }
}

/// Each update of `us`, in order, is applied to `s`.
pub open spec fn apply_positions(s: Seq<TacticalEntity>, us: Seq<PositionUpdate>) -> Seq<TacticalEntity>
    decreases us.len(),
{
    if us.len() == 0 {
        s
    } else {
        apply_position(apply_positions(s, us.drop_last()), us.last())
    }
}

/// Moves the entities named by `updates` to their reported poses.
pub fn apply_position_updates(items: &mut Vec<TacticalEntity>, updates: &Vec<PositionUpdate>)
    ensures
        final(items)@ == apply_positions(old(items)@, updates@),
{
    let ghost base = items@;
    let mut i: usize = 0;
    while i < updates.len()
        invariant
            i <= updates.len(),
            items@ == apply_positions(base, updates@.take(i as int)),
        decreases updates.len() - i,
    {
        let update = &updates[i];
        let ghost before = items@;
        proof {
            let t = updates@.take(i + 1);
            assert(t.drop_last() =~= updates@.take(i as int));
            assert(t.last() == *update);
        }
        match position_of_key(items, &update.id) {
            Some(j) => {
                proof {
                    lemma_first_key_index(before, update.key(), j as int);
                }
                let mut entity = items.remove(j);
                entity.position = update.position;
                entity.direction = update.direction;
                items.insert(j, entity);
                assert(items@ =~= before.update(j as int, with_pose(before[j as int], *update)));
            },
            None => {},
        }
        i = i + 1;
    }
    assert(updates@.take(updates@.len() as int) =~= updates@);
}

/// `e` after [`canonicalize_envelope`]: every list of keyed items of the
/// payload is deduplicated; everything else is unchanged.
pub open spec fn is_canonical_form(old: Envelope, new: Envelope) -> bool {
    &&& new.protocol_version == old.protocol_version
    &&& new.session_id == old.session_id
    &&& new.sequence == old.sequence
    &&& match (old.message, new.message) {
        (TacticalMessage::SessionSnapshot(a), TacticalMessage::SessionSnapshot(b)) => {
            &&& same_snapshot_header(a, b)
            &&& is_dedup_by_key(a.entities@, b.entities@)
            &&& is_dedup_by_key(a.markers@, b.markers@)
        },
        (TacticalMessage::EntityDelta(a), TacticalMessage::EntityDelta(b)) => {
            &&& is_dedup_by_key(a.updated@, b.updated@)
            &&& is_dedup_by_key(a.removed@, b.removed@)
        },
        (TacticalMessage::PositionDelta(a), TacticalMessage::PositionDelta(b)) => {
            &&& is_dedup_by_key(a.updated@, b.updated@)
            &&& is_dedup_by_key(a.removed@, b.removed@)
        },
        (TacticalMessage::MarkerDelta(a), TacticalMessage::MarkerDelta(b)) => {
            &&& is_dedup_by_key(a.updated@, b.updated@)
            &&& is_dedup_by_key(a.removed@, b.removed@)
        },
        (TacticalMessage::Heartbeat(a), TacticalMessage::Heartbeat(b)) => a == b,
        (TacticalMessage::Error(a), TacticalMessage::Error(b)) => a == b,
        _ => false,
    }
}

/// Two snapshots agree on everything but their entities and markers.
pub open spec fn same_snapshot_header(a: SessionSnapshot, b: SessionSnapshot) -> bool {
    &&& a.mission_name == b.mission_name
    &&& a.ctab_edition == b.ctab_edition
    &&& a.capabilities == b.capabilities
    &&& a.terrain == b.terrain
}

/// Removes duplicate identifiers from the payload of an envelope: the last
/// item with an identifier wins and keeps the place where the identifier
/// first appeared.
pub fn canonicalize_envelope(envelope: &mut Envelope)
    ensures
        is_canonical_form(*old(envelope), *final(envelope)),
{
    match &mut envelope.message {
        TacticalMessage::SessionSnapshot(snapshot) => {
            deduplicate_by_id(&mut snapshot.entities);
            deduplicate_by_id(&mut snapshot.markers);
        },
        TacticalMessage::EntityDelta(delta) => {
            deduplicate_by_id(&mut delta.updated);
            deduplicate_by_id(&mut delta.removed);
        },
        TacticalMessage::PositionDelta(delta) => {
            deduplicate_by_id(&mut delta.updated);
            deduplicate_by_id(&mut delta.removed);
        },
        TacticalMessage::MarkerDelta(delta) => {
            deduplicate_by_id(&mut delta.updated);
            deduplicate_by_id(&mut delta.removed);
        },
        TacticalMessage::Heartbeat(_) => {},
        TacticalMessage::Error(_) => {},
    }
}

/// What accepting an envelope did.
#[derive(Debug, Clone, Copy, PartialEq, Eq)]
pub struct Acceptance {
    /// The envelope was applied and should be forwarded.
    pub accepted: bool,
    /// A snapshot of a session other than the stored one was stored.
    pub mission_ready: bool,
}

/// The snapshot payload of a stored envelope.
pub open spec fn snapshot_of(e: Envelope) -> SessionSnapshot {
    match e.message {
        TacticalMessage::SessionSnapshot(s) => s,
        _ => arbitrary(),
    }
}

/// A delta of `e` continues the stored snapshot: same session, newer
/// sequence.
pub open spec fn delta_applies(current: Option<Envelope>, e: Envelope) -> bool {
    match current {
        Some(c) => c.session_id@ == e.session_id@ && c.sequence < e.sequence
            && c.message is SessionSnapshot,
        None => false,
    }
}

/// A snapshot `e` replaces the stored state unless it is an older or equal
/// sequence of the stored session.
pub open spec fn snapshot_replaces(current: Option<Envelope>, e: Envelope) -> bool {
    match current {
        Some(c) => !(c.session_id@ == e.session_id@ && c.sequence >= e.sequence),
        None => true,
    }
}

/// `new` is `old` with its snapshot's entities and markers replaced and its
/// sequence advanced to `sequence`.
pub open spec fn advanced_snapshot(
    old: Envelope,
    new: Envelope,
    sequence: u64,
    entities: Seq<TacticalEntity>,
    markers: Seq<TacticalMarker>,
) -> bool {
    &&& new.protocol_version == old.protocol_version
    &&& new.session_id == old.session_id
    &&& new.sequence == sequence
    &&& new.message is SessionSnapshot
    &&& same_snapshot_header(snapshot_of(old), snapshot_of(new))
    &&& snapshot_of(new).entities@ == entities
    &&& snapshot_of(new).markers@ == markers
}

/// Whether `e` is accepted into the stored state `current`.
pub open spec fn accepts(current: Option<Envelope>, e: Envelope) -> bool {
    match e.message {
        TacticalMessage::SessionSnapshot(_) => snapshot_replaces(current, e),
        TacticalMessage::EntityDelta(d) => delta_applies(current, e) && resulting_keys(
            snapshot_of(current->0).entities@,
            d.removed@,
            d.updated@,
        ).len() <= MAX_ENTITIES,
        TacticalMessage::PositionDelta(_) => delta_applies(current, e),
        TacticalMessage::MarkerDelta(d) => delta_applies(current, e) && resulting_keys(
            snapshot_of(current->0).markers@,
            d.removed@,
            d.updated@,
        ).len() <= MAX_MARKERS,
        TacticalMessage::Heartbeat(_) => delta_applies(current, e),
        TacticalMessage::Error(_) => true,
    }
}

/// The stored state after `e` was accepted into `current`.
pub open spec fn accepted_state(current: Option<Envelope>, e: Envelope, next: Option<Envelope>) -> bool {
    match e.message {
        TacticalMessage::SessionSnapshot(_) => next == Some(e),
        TacticalMessage::EntityDelta(d) => {
            let c = current->0;
            let s = snapshot_of(c);
            next is Some && advanced_snapshot(
                c,
                next->0,
                e.sequence,
                upsert_all(without_removed(s.entities@, d.removed@), d.updated@),
                s.markers@,
            )
        },
        TacticalMessage::PositionDelta(d) => {
            let c = current->0;
            let s = snapshot_of(c);
            next is Some && advanced_snapshot(
                c,
                next->0,
                e.sequence,
                apply_positions(without_removed(s.entities@, d.removed@), d.updated@),
                s.markers@,
            )
        },
        TacticalMessage::MarkerDelta(d) => {
            let c = current->0;
            let s = snapshot_of(c);
            next is Some && advanced_snapshot(
                c,
                next->0,
                e.sequence,
                s.entities@,
                upsert_all(without_removed(s.markers@, d.removed@), d.updated@),
            )
        },
        TacticalMessage::Heartbeat(_) => next == Some(Envelope { sequence: e.sequence, ..current->0 }),
        TacticalMessage::Error(_) => next == current,
    }
}

/// A snapshot of a session other than the stored one.
pub open spec fn starts_mission(current: Option<Envelope>, e: Envelope) -> bool {
    &&& e.message is SessionSnapshot
    &&& snapshot_replaces(current, e)
    &&& match current {
        Some(c) => c.session_id@ != e.session_id@,
        None => true,
    }
}

/// `accept_envelope`: applies a validated, canonical envelope to the stored
/// snapshot. A snapshot replaces the stored state unless it is stale; a delta
/// is applied only on top of a snapshot of the same session with a smaller
/// sequence number, and an entity or marker delta only when the result stays
/// within the protocol's item limit. A refused envelope changes nothing.
pub fn accept_envelope(current: &mut Option<Envelope>, envelope: Envelope) -> (r: Acceptance)
    ensures
        r.accepted == accepts(*old(current), envelope),
        r.accepted ==> accepted_state(*old(current), envelope, *final(current)),
        !r.accepted ==> *final(current) == *old(current),
        r.mission_ready == starts_mission(*old(current), envelope),
{
    let refused = Acceptance { accepted: false, mission_ready: false };
    let is_snapshot = match &envelope.message {
        TacticalMessage::SessionSnapshot(_) => true,
        _ => false,
    };
    if is_snapshot {
        let (stale, new_session) = match &*current {
            Some(stored) => {
                let same_session = stored.session_id == envelope.session_id;
                (same_session && stored.sequence >= envelope.sequence, !same_session)
            },
            None => (false, true),
        };
        if stale {
            return refused;
        }
        *current = Some(envelope);
        return Acceptance { accepted: true, mission_ready: new_session };
    }
    let is_error = match &envelope.message {
        TacticalMessage::Error(_) => true,
        _ => false,
    };
    if is_error {
        return Acceptance { accepted: true, mission_ready: false };
    }
    let applies = match &*current {
        Some(stored) => stored.session_id == envelope.session_id && stored.sequence
            < envelope.sequence && match &stored.message {
            TacticalMessage::SessionSnapshot(_) => true,
            _ => false,
        },
        None => false,
    };
    if !applies {
        return refused;
    }
    let sequence = envelope.sequence;
    match current {
        Some(stored) => {
            match &mut stored.message {
                TacticalMessage::SessionSnapshot(snapshot) => {
                    match envelope.message {
                        TacticalMessage::EntityDelta(delta) => {
                            let count = resulting_key_count(
                                &snapshot.entities,
                                &delta.removed,
                                &delta.updated,
                            );
                            if count > MAX_ENTITIES {
                                return refused;
                            }
                            retain_unremoved(&mut snapshot.entities, &delta.removed);
                            upsert_items(&mut snapshot.entities, delta.updated);
                        },
                        TacticalMessage::PositionDelta(delta) => {
                            retain_unremoved(&mut snapshot.entities, &delta.removed);
                            apply_position_updates(&mut snapshot.entities, &delta.updated);
                        },
                        TacticalMessage::MarkerDelta(delta) => {
                            let count = resulting_key_count(
                                &snapshot.markers,
                                &delta.removed,
                                &delta.updated,
                            );
                            if count > MAX_MARKERS {
                                return refused;
                            }
                            retain_unremoved(&mut snapshot.markers, &delta.removed);
                            upsert_items(&mut snapshot.markers, delta.updated);
                        },
                        _ => {},
                    }
                },
                _ => {},
            }
            stored.sequence = sequence;
            Acceptance { accepted: true, mission_ready: false }
        },
        None => refused,
    }
}

// ---------------------------------------------------------------------------
// Laws of the reconciled state
// ---------------------------------------------------------------------------

/// The item that `upsert` inserts is in the result.
proof fn lemma_upsert_has<T: Keyed>(s: Seq<T>, x: T)
    ensures
        upsert(s, x).contains(x),
{
    if has_key(s, x.key()) {
        lemma_has_key_first(s, x.key());
        let f = first_key_index(s, x.key());
        assert(upsert(s, x)[f] == x);
    } else {
        assert(upsert(s, x)[s.len() as int] == x);
    }
}

/// `upsert` keeps every item whose key differs from the inserted one.
proof fn lemma_upsert_keeps<T: Keyed>(s: Seq<T>, x: T, y: T)
    requires
        s.contains(y),
        y.key() != x.key(),
    ensures
        upsert(s, x).contains(y),
{
    let i = choose|i: int| 0 <= i < s.len() && s[i] == y;
    if has_key(s, x.key()) {
        lemma_has_key_first(s, x.key());
        let f = first_key_index(s, x.key());
        assert(f != i);
        assert(upsert(s, x)[i] == y);
    } else {
        assert(upsert(s, x)[i] == y);
    }
}

/// Every item of `upsert(s, x)` is `x` or an item of `s`.
proof fn lemma_upsert_from<T: Keyed>(s: Seq<T>, x: T, y: T)
    requires
        upsert(s, x).contains(y),
    ensures
        y == x || s.contains(y),
{
    let r = upsert(s, x);
    let i = choose|i: int| 0 <= i < r.len() && r[i] == y;
    if has_key(s, x.key()) {
        lemma_has_key_first(s, x.key());
        let f = first_key_index(s, x.key());
        if i != f {
            assert(s[i] == y);
        }
    } else if i < s.len() {
        assert(s[i] == y);
    }
}

/// Items of `upsert_all(s, xs)` come from `s` or from `xs`.
proof fn lemma_upsert_all_from<T: Keyed>(s: Seq<T>, xs: Seq<T>, y: T)
    requires
        upsert_all(s, xs).contains(y),
    ensures
        s.contains(y) || xs.contains(y),
    decreases xs.len(),
{
    if xs.len() > 0 {
        let prev = upsert_all(s, xs.drop_last());
        lemma_upsert_from(prev, xs.last(), y);
        if y == xs.last() {
            assert(xs[xs.len() - 1] == y);
        } else {
            lemma_upsert_all_from(s, xs.drop_last(), y);
            if xs.drop_last().contains(y) {
                let k = choose|k: int| 0 <= k < xs.drop_last().len() && xs.drop_last()[k] == y;
                assert(xs[k] == y);
            }
        }
    }
}

/// With distinct keys among the upserted items, each of them is in the
/// result.
proof fn lemma_upsert_all_has<T: Keyed>(s: Seq<T>, xs: Seq<T>, k: int)
    requires
        unique_keys(xs),
        0 <= k < xs.len(),
    ensures
        upsert_all(s, xs).contains(xs[k]),
    decreases xs.len(),
{
    let prev = upsert_all(s, xs.drop_last());
    if k == xs.len() - 1 {
        lemma_upsert_has(prev, xs.last());
    } else {
        assert(unique_keys(xs.drop_last())) by {
            assert forall|a: int, b: int| 0 <= a < b < xs.drop_last().len() implies #[trigger] xs.drop_last()[a].key()
                != #[trigger] xs.drop_last()[b].key() by {
                assert(xs[a].key() != xs[b].key());
            }
        }
        lemma_upsert_all_has(s, xs.drop_last(), k);
        assert(xs.drop_last()[k] == xs[k]);
        assert(xs[k].key() != xs[xs.len() - 1].key());
        lemma_upsert_keeps(prev, xs.last(), xs[k]);
    }
}

/// No item of `without_removed(s, removed)` has a removed key.
proof fn lemma_without_removed_excludes<T: Keyed>(s: Seq<T>, removed: Seq<String>, y: T)
    requires
        without_removed(s, removed).contains(y),
    ensures
        !is_removed(removed, y.key()),
        s.contains(y),
    decreases s.len(),
{
    reveal_with_fuel(Seq::filter, 1);
    if s.len() > 0 {
        let prev = without_removed(s.drop_last(), removed);
        if y != s.last() || prev.contains(y) {
            if prev.contains(y) {
                lemma_without_removed_excludes(s.drop_last(), removed, y);
                let i = choose|i: int| 0 <= i < s.drop_last().len() && s.drop_last()[i] == y;
                assert(s[i] == y);
            } else {
                let r = without_removed(s, removed);
                let i = choose|i: int| 0 <= i < r.len() && r[i] == y;
                assert(r =~= prev || r =~= prev.push(s.last()));
            }
        } else {
            assert(s[s.len() - 1] == y);
        }
    }
}

/// Law (refresh shows the latest tactical state): after an entity delta
/// with distinct updated identifiers has been accepted, every updated
/// entity is in the stored snapshot, and no stored entity carries an
/// identifier that the delta removed without updating it again.
pub proof fn law_entity_delta_reconciled(
    current: Option<Envelope>,
    e: Envelope,
    next: Option<Envelope>,
    d: EntityDelta,
)
    requires
        e.message == TacticalMessage::EntityDelta(d),
        accepts(current, e),
        accepted_state(current, e, next),
        unique_keys(d.updated@),
    ensures
        forall|k: int| 0 <= k < d.updated@.len() ==> snapshot_of(next->0).entities@.contains(
            #[trigger] d.updated@[k],
        ),
        forall|x: TacticalEntity|
            #[trigger] snapshot_of(next->0).entities@.contains(x) && is_removed(d.removed@, x.key())
                ==> d.updated@.contains(x),
{
    let base = without_removed(snapshot_of(current->0).entities@, d.removed@);
    let result = snapshot_of(next->0).entities@;
    assert(result == upsert_all(base, d.updated@));
    assert forall|k: int| 0 <= k < d.updated@.len() implies result.contains(
        #[trigger] d.updated@[k],
    ) by {
        lemma_upsert_all_has(base, d.updated@, k);
    }
    assert forall|x: TacticalEntity|
        #[trigger] result.contains(x) && is_removed(d.removed@, x.key()) implies d.updated@.contains(
        x,
    ) by {
        lemma_upsert_all_from(base, d.updated@, x);
        if base.contains(x) {
            lemma_without_removed_excludes(snapshot_of(current->0).entities@, d.removed@, x);
        }
    }
}

/// Law (refresh shows the latest markers): after a marker delta with
/// distinct updated identifiers has been accepted, every updated marker is
/// stored, and no stored marker carries an identifier that the delta removed
/// without updating it again.
pub proof fn law_marker_delta_reconciled(
    current: Option<Envelope>,
    e: Envelope,
    next: Option<Envelope>,
    d: MarkerDelta,
)
    requires
        e.message == TacticalMessage::MarkerDelta(d),
        accepts(current, e),
        accepted_state(current, e, next),
        unique_keys(d.updated@),
    ensures
        forall|k: int| 0 <= k < d.updated@.len() ==> snapshot_of(next->0).markers@.contains(
            #[trigger] d.updated@[k],
        ),
        forall|x: TacticalMarker|
            #[trigger] snapshot_of(next->0).markers@.contains(x) && is_removed(d.removed@, x.key())
                ==> d.updated@.contains(x),
{
    let base = without_removed(snapshot_of(current->0).markers@, d.removed@);
    let result = snapshot_of(next->0).markers@;
    assert(result == upsert_all(base, d.updated@));
    assert forall|k: int| 0 <= k < d.updated@.len() implies result.contains(
        #[trigger] d.updated@[k],
    ) by {
        lemma_upsert_all_has(base, d.updated@, k);
    }
    assert forall|x: TacticalMarker|
        #[trigger] result.contains(x) && is_removed(d.removed@, x.key()) implies d.updated@.contains(
        x,
    ) by {
        lemma_upsert_all_from(base, d.updated@, x);
        if base.contains(x) {
            lemma_without_removed_excludes(snapshot_of(current->0).markers@, d.removed@, x);
        }
    }
}

/// Law (sequence numbers only grow within a session): an accepted delta or
/// heartbeat is applied on a snapshot of its own session, and the stored
/// sequence becomes the envelope's larger sequence.
pub proof fn law_accepted_delta_advances_sequence(
    current: Option<Envelope>,
    e: Envelope,
    next: Option<Envelope>,
)
    requires
        !(e.message is SessionSnapshot),
        !(e.message is Error),
        accepts(current, e),
        accepted_state(current, e, next),
    ensures
        current is Some,
        next is Some,
        next->0.session_id == current->0.session_id,
        next->0.sequence == e.sequence,
        current->0.sequence < next->0.sequence,
{
}

proof fn lemma_unique_drop_last<T: Keyed>(s: Seq<T>)
    requires
        unique_keys(s),
        s.len() > 0,
    ensures
        unique_keys(s.drop_last()),
{
    let init = s.drop_last();
    assert forall|i: int, j: int| 0 <= i < j < init.len() implies #[trigger] init[i].key()
        != #[trigger] init[j].key() by {
        assert(init[i] == s[i] && init[j] == s[j]);
    }
}

proof fn lemma_without_removed_unique<T: Keyed>(s: Seq<T>, removed: Seq<String>)
    requires
        unique_keys(s),
    ensures
        unique_keys(without_removed(s, removed)),
    decreases s.len(),
{
    reveal_with_fuel(Seq::filter, 1);
    if s.len() > 0 {
        let init = s.drop_last();
        lemma_unique_drop_last(s);
        lemma_without_removed_unique(init, removed);
        let prev = without_removed(init, removed);
        let r = without_removed(s, removed);
        if !is_removed(removed, s.last().key()) {
            assert(r =~= prev.push(s.last()));
            assert forall|i: int, j: int| 0 <= i < j < r.len() implies #[trigger] r[i].key()
                != #[trigger] r[j].key() by {
                if j == r.len() - 1 {
                    assert(r[i] == prev[i]);
                    assert(prev.contains(r[i]));
                    lemma_without_removed_excludes(init, removed, r[i]);
                    let k = choose|k: int| 0 <= k < init.len() && init[k] == r[i];
                    assert(s[k] == r[i]);
                    assert(r[j] == s[s.len() - 1]);
                } else {
                    assert(r[i] == prev[i] && r[j] == prev[j]);
                }
            }
        } else {
            assert(r =~= prev);
        }
    }
}

proof fn lemma_upsert_unique<T: Keyed>(s: Seq<T>, x: T)
    requires
        unique_keys(s),
    ensures
        unique_keys(upsert(s, x)),
{
    let r = upsert(s, x);
    if has_key(s, x.key()) {
        lemma_has_key_first(s, x.key());
        let f = first_key_index(s, x.key());
        assert forall|i: int, j: int| 0 <= i < j < r.len() implies #[trigger] r[i].key()
            != #[trigger] r[j].key() by {
            assert(r[i].key() == s[i].key());
            assert(r[j].key() == s[j].key());
        }
    } else {
        assert forall|i: int, j: int| 0 <= i < j < r.len() implies #[trigger] r[i].key()
            != #[trigger] r[j].key() by {
            if j == r.len() - 1 {
                assert(r[i] == s[i]);
                if s[i].key() == x.key() {
                    assert(has_key(s, x.key()));
                }
            } else {
                assert(r[i] == s[i] && r[j] == s[j]);
            }
        }
    }
}

proof fn lemma_upsert_all_unique<T: Keyed>(s: Seq<T>, xs: Seq<T>)
    requires
        unique_keys(s),
    ensures
        unique_keys(upsert_all(s, xs)),
    decreases xs.len(),
{
    if xs.len() > 0 {
        lemma_upsert_all_unique(s, xs.drop_last());
        lemma_upsert_unique(upsert_all(s, xs.drop_last()), xs.last());
    }
}

proof fn lemma_apply_positions_keys(s: Seq<TacticalEntity>, us: Seq<PositionUpdate>)
    ensures
        apply_positions(s, us).len() == s.len(),
        forall|i: int| 0 <= i < s.len() ==> #[trigger] apply_positions(s, us)[i].key() == s[i].key(),
    decreases us.len(),
{
    if us.len() > 0 {
        lemma_apply_positions_keys(s, us.drop_last());
        let prev = apply_positions(s, us.drop_last());
        let u = us.last();
        let r = apply_positions(s, us);
        assert(r == apply_position(prev, u));
        if has_key(prev, u.key()) {
            lemma_has_key_first(prev, u.key());
            let i = first_key_index(prev, u.key());
            assert(r == prev.update(i, with_pose(prev[i], u)));
            assert forall|k: int| 0 <= k < s.len() implies #[trigger] r[k].key() == s[k].key() by {
                assert(prev[k].key() == s[k].key());
                if k != i {
                    assert(r[k] == prev[k]);
                }
            }
        } else {
            assert(r == prev);
        }
    }
}

/// `u` is the last update in `us` for the identifier `k`: it is at `j`, and
/// no later update names `k`.
pub open spec fn is_last_update_for(us: Seq<PositionUpdate>, k: Seq<char>, j: int) -> bool {
    &&& 0 <= j < us.len()
    &&& us[j].id@ == k
    &&& forall|m: int| j < m < us.len() ==> #[trigger] us[m].id@ != k
}

/// On entities with distinct identifiers, applying position updates keeps
/// the entities and their order; an entity that some update names takes the
/// position and direction of the last update naming it, all its other
/// fields unchanged; every other entity stays as it was.
proof fn lemma_apply_positions_poses(s: Seq<TacticalEntity>, us: Seq<PositionUpdate>)
    requires
        unique_keys(s),
    ensures
        apply_positions(s, us).len() == s.len(),
        forall|i: int, j: int|
            #![trigger apply_positions(s, us)[i], us[j]]
            0 <= i < s.len() && is_last_update_for(us, s[i].id@, j) ==> {
                &&& apply_positions(s, us)[i].position == us[j].position
                &&& apply_positions(s, us)[i].direction == us[j].direction
            },
        forall|i: int|
            0 <= i < s.len() ==> (TacticalEntity {
                position: s[i].position,
                direction: s[i].direction,
                ..#[trigger] apply_positions(s, us)[i]
            }) == s[i],
        forall|i: int|
            0 <= i < s.len() && (forall|j: int| 0 <= j < us.len() ==> #[trigger] us[j].id@ != s[i].id@)
                ==> #[trigger] apply_positions(s, us)[i] == s[i],
    decreases us.len(),
{
    lemma_apply_positions_keys(s, us);
    if us.len() > 0 {
        let ps = us.drop_last();
        lemma_apply_positions_poses(s, ps);
        lemma_apply_positions_keys(s, ps);
        let prev = apply_positions(s, ps);
        let u = us.last();
        let r = apply_positions(s, us);
        assert(r == apply_position(prev, u));
        let n = us.len() - 1;
        if has_key(prev, u.key()) {
            lemma_has_key_first(prev, u.key());
            let i0 = first_key_index(prev, u.key());
            assert(r == prev.update(i0, with_pose(prev[i0], u)));
            assert forall|i: int, j: int|
                #![trigger r[i], us[j]]
                0 <= i < s.len() && is_last_update_for(us, s[i].id@, j) implies {
                    &&& r[i].position == us[j].position
                    &&& r[i].direction == us[j].direction
                } by {
                assert(prev[i].key() == s[i].key());
                if i == i0 {
                    if j < n {
                        assert(us[n].id@ == s[i].id@);
                    }
                } else {
                    assert(prev[i0].key() == s[i0].key());
                    assert(s[i].id@ != s[i0].id@);
                    assert(j != n);
                    assert(ps[j] == us[j]);
                    assert forall|m: int| j < m < ps.len() implies #[trigger] ps[m].id@ != s[i].id@ by {
                        assert(ps[m] == us[m]);
                    }
                    assert(is_last_update_for(ps, s[i].id@, j));
                    assert(prev[i].position == ps[j].position);
                }
            }
            assert forall|i: int|
                0 <= i < s.len() && (forall|j: int| 0 <= j < us.len() ==> #[trigger] us[j].id@ != s[i].id@)
                    implies #[trigger] r[i] == s[i] by {
                assert(prev[i].key() == s[i].key());
                assert(us[n].id@ != s[i].id@);
                assert forall|j: int| 0 <= j < ps.len() implies #[trigger] ps[j].id@ != s[i].id@ by {
                    assert(ps[j] == us[j]);
                }
                assert(i != i0);
            }
            assert forall|i: int| 0 <= i < s.len() implies (TacticalEntity {
                position: s[i].position,
                direction: s[i].direction,
                ..#[trigger] r[i]
            }) == s[i] by {
                assert(TacticalEntity { position: s[i].position, direction: s[i].direction, ..prev[i] }
                    == s[i]);
            }
        } else {
            assert(r == prev);
            assert forall|i: int, j: int|
                #![trigger r[i], us[j]]
                0 <= i < s.len() && is_last_update_for(us, s[i].id@, j) implies {
                    &&& r[i].position == us[j].position
                    &&& r[i].direction == us[j].direction
                } by {
                assert(prev[i].key() == s[i].key());
                if j == n {
                    assert(prev[i].key() == u.key());
                }
                assert(ps[j] == us[j]);
                assert forall|m: int| j < m < ps.len() implies #[trigger] ps[m].id@ != s[i].id@ by {
                    assert(ps[m] == us[m]);
                }
                assert(is_last_update_for(ps, s[i].id@, j));
                assert(prev[i].position == ps[j].position);
            }
            assert forall|i: int|
                0 <= i < s.len() && (forall|j: int| 0 <= j < us.len() ==> #[trigger] us[j].id@ != s[i].id@)
                    implies #[trigger] r[i] == s[i] by {
                assert forall|j: int| 0 <= j < ps.len() implies #[trigger] ps[j].id@ != s[i].id@ by {
                    assert(ps[j] == us[j]);
                }
            }
        }
    } else {
        assert forall|i: int| 0 <= i < s.len() implies (TacticalEntity {
            position: s[i].position,
            direction: s[i].direction,
            ..#[trigger] apply_positions(s, us)[i]
        }) == s[i] by {}
    }
}

/// Law (a position delta moves the entities it names): when a position
/// delta is accepted into a stored state whose entities have distinct
/// identifiers, the stored entities are those left after the removals, in
/// the same order; each one that the delta updates carries the position and
/// the direction of the last update with its identifier and keeps its other
/// fields; every other one is unchanged.
pub proof fn law_position_delta_moves_updated_entities(
    current: Option<Envelope>,
    e: Envelope,
    next: Option<Envelope>,
    d: PositionDelta,
)
    requires
        e.message == TacticalMessage::PositionDelta(d),
        accepts(current, e),
        accepted_state(current, e, next),
        stored_entity_identifiers_unique(current),
    ensures
        ({
            let base = without_removed(snapshot_of(current->0).entities@, d.removed@);
            let r = snapshot_of(next->0).entities@;
            &&& r.len() == base.len()
            &&& forall|i: int, j: int|
                #![trigger r[i], d.updated@[j]]
                0 <= i < r.len() && is_last_update_for(d.updated@, base[i].id@, j) ==> {
                    &&& r[i].position == d.updated@[j].position
                    &&& r[i].direction == d.updated@[j].direction
                }
            &&& forall|i: int|
                0 <= i < r.len() ==> (TacticalEntity {
                    position: base[i].position,
                    direction: base[i].direction,
                    ..#[trigger] r[i]
                }) == base[i]
            &&& forall|i: int|
                0 <= i < r.len() && (forall|j: int|
                    0 <= j < d.updated@.len() ==> #[trigger] d.updated@[j].id@ != base[i].id@) ==> #[trigger] r[i]
                    == base[i]
        }),
{
    let base = without_removed(snapshot_of(current->0).entities@, d.removed@);
    lemma_without_removed_unique(snapshot_of(current->0).entities@, d.removed@);
    lemma_apply_positions_poses(base, d.updated@);
}

proof fn lemma_without_removed_has_key<T: Keyed>(s: Seq<T>, removed: Seq<String>, k: Seq<char>)
    ensures
        has_key(without_removed(s, removed), k) <==> (has_key(s, k) && !is_removed(removed, k)),
{
    let r = without_removed(s, removed);
    if has_key(r, k) {
        let i = choose|i: int| 0 <= i < r.len() && #[trigger] r[i].key() == k;
        assert(r.contains(r[i]));
        lemma_without_removed_excludes(s, removed, r[i]);
        let j = choose|j: int| 0 <= j < s.len() && s[j] == r[i];
        assert(s[j].key() == k);
    }
    if has_key(s, k) && !is_removed(removed, k) {
        let j = choose|j: int| 0 <= j < s.len() && #[trigger] s[j].key() == k;
        s.lemma_filter_contains(|x: T| !is_removed(removed, x.key()), j);
        assert(r.contains(s[j]));
        let i = choose|i: int| 0 <= i < r.len() && r[i] == s[j];
        assert(r[i].key() == k);
    }
}

proof fn lemma_upsert_has_key<T: Keyed>(s: Seq<T>, x: T, k: Seq<char>)
    ensures
        has_key(upsert(s, x), k) <==> (has_key(s, k) || x.key() == k),
{
    let r = upsert(s, x);
    if has_key(s, x.key()) {
        lemma_has_key_first(s, x.key());
        let f = first_key_index(s, x.key());
        assert forall|i: int| 0 <= i < r.len() implies #[trigger] r[i].key() == s[i].key() by {}
        if has_key(s, k) {
            let i = choose|i: int| 0 <= i < s.len() && #[trigger] s[i].key() == k;
            assert(r[i].key() == k);
        }
        if has_key(r, k) {
            let i = choose|i: int| 0 <= i < r.len() && #[trigger] r[i].key() == k;
            assert(s[i].key() == k);
        }
        if x.key() == k {
            assert(r[f].key() == k);
        }
    } else {
        if has_key(s, k) {
            let i = choose|i: int| 0 <= i < s.len() && #[trigger] s[i].key() == k;
            assert(r[i].key() == k);
        }
        if has_key(r, k) {
            let i = choose|i: int| 0 <= i < r.len() && #[trigger] r[i].key() == k;
            if i < s.len() {
                assert(s[i].key() == k);
            }
        }
        if x.key() == k {
            assert(r[s.len() as int].key() == k);
        }
    }
}

proof fn lemma_upsert_all_has_key<T: Keyed>(s: Seq<T>, xs: Seq<T>, k: Seq<char>)
    ensures
        has_key(upsert_all(s, xs), k) <==> (has_key(s, k) || has_key(xs, k)),
    decreases xs.len(),
{
    if xs.len() > 0 {
        let init = xs.drop_last();
        lemma_upsert_all_has_key(s, init, k);
        lemma_upsert_has_key(upsert_all(s, init), xs.last(), k);
        if has_key(init, k) {
            let i = choose|i: int| 0 <= i < init.len() && #[trigger] init[i].key() == k;
            assert(xs[i].key() == k);
        }
        if has_key(xs, k) {
            let i = choose|i: int| 0 <= i < xs.len() && #[trigger] xs[i].key() == k;
            if i < init.len() {
                assert(init[i].key() == k);
            }
        }
        if xs.last().key() == k {
            assert(xs[xs.len() - 1].key() == k);
        }
    } else {
        if has_key(xs, k) {
            let i = choose|i: int| 0 <= i < xs.len() && #[trigger] xs[i].key() == k;
        }
    }
}

/// Law (a delta sets the stored identifiers): an entity delta that applies
/// to the stored snapshot is accepted exactly when the identifiers it would
/// leave are at most [`MAX_ENTITIES`]; when accepted, the stored entity identifiers are
/// exactly the kept ones (not removed) and the updated ones, the updated
/// entities replace their namesakes in place and new ones follow in the
/// delta's order.
pub proof fn law_entity_delta_sets_identifiers(
    current: Option<Envelope>,
    e: Envelope,
    next: Option<Envelope>,
    d: EntityDelta,
)
    requires
        e.message == TacticalMessage::EntityDelta(d),
        delta_applies(current, e),
    ensures
        accepts(current, e) <==> resulting_keys(
            snapshot_of(current->0).entities@,
            d.removed@,
            d.updated@,
        ).len() <= MAX_ENTITIES,
        accepts(current, e) && accepted_state(current, e, next) ==> {
            &&& keys_of(snapshot_of(next->0).entities@) == resulting_keys(
                snapshot_of(current->0).entities@,
                d.removed@,
                d.updated@,
            )
            &&& snapshot_of(next->0).entities@ == upsert_all(
                without_removed(snapshot_of(current->0).entities@, d.removed@),
                d.updated@,
            )
            &&& next->0.sequence == e.sequence
        },
{
    if accepts(current, e) && accepted_state(current, e, next) {
        let s = snapshot_of(current->0).entities@;
        let base = without_removed(s, d.removed@);
        assert forall|k: Seq<char>| #[trigger] keys_of(snapshot_of(next->0).entities@).contains(k)
            <==> resulting_keys(s, d.removed@, d.updated@).contains(k) by {
            lemma_upsert_all_has_key(base, d.updated@, k);
            lemma_without_removed_has_key(s, d.removed@, k);
        }
        assert(keys_of(snapshot_of(next->0).entities@) =~= resulting_keys(s, d.removed@, d.updated@));
    }
}

/// The stored state holds no two entities and no two markers with the same
/// identifier.
pub open spec fn stored_identifiers_unique(current: Option<Envelope>) -> bool {
    match current {
        Some(c) => unique_keys(snapshot_of(c).entities@) && unique_keys(snapshot_of(c).markers@),
        None => true,
    }
}

/// The stored state holds no two entities with the same identifier.
pub open spec fn stored_entity_identifiers_unique(current: Option<Envelope>) -> bool {
    match current {
        Some(c) => unique_keys(snapshot_of(c).entities@),
        None => true,
    }
}

/// The stored state holds no two markers with the same identifier.
pub open spec fn stored_marker_identifiers_unique(current: Option<Envelope>) -> bool {
    match current {
        Some(c) => unique_keys(snapshot_of(c).markers@),
        None => true,
    }
}

/// Law (no stale duplicate entities): whatever envelope arrives, once it is
/// in canonical form and accepted, the stored snapshot still holds each
/// entity identifier at most once. Nothing is assumed of the markers.
pub proof fn law_stored_entity_identifiers_stay_unique(
    current: Option<Envelope>,
    raw: Envelope,
    e: Envelope,
    next: Option<Envelope>,
)
    requires
        stored_entity_identifiers_unique(current),
        is_canonical_form(raw, e),
        accepts(current, e),
        accepted_state(current, e, next),
    ensures
        stored_entity_identifiers_unique(next),
{
    match e.message {
        TacticalMessage::EntityDelta(d) => {
            let c = snapshot_of(current->0);
            lemma_without_removed_unique(c.entities@, d.removed@);
            lemma_upsert_all_unique(without_removed(c.entities@, d.removed@), d.updated@);
        },
        TacticalMessage::PositionDelta(d) => {
            let c = snapshot_of(current->0);
            let base = without_removed(c.entities@, d.removed@);
            lemma_without_removed_unique(c.entities@, d.removed@);
            lemma_apply_positions_keys(base, d.updated@);
            let r = apply_positions(base, d.updated@);
            assert forall|i: int, j: int| 0 <= i < j < r.len() implies #[trigger] r[i].key()
                != #[trigger] r[j].key() by {
                assert(r[i].key() == base[i].key() && r[j].key() == base[j].key());
            }
        },
        _ => {},
    }
}

/// Law (no stale duplicate markers): whatever envelope arrives, once it is
/// in canonical form and accepted, the stored snapshot still holds each
/// marker identifier at most once. Nothing is assumed of the entities.
pub proof fn law_stored_marker_identifiers_stay_unique(
    current: Option<Envelope>,
    raw: Envelope,
    e: Envelope,
    next: Option<Envelope>,
)
    requires
        stored_marker_identifiers_unique(current),
        is_canonical_form(raw, e),
        accepts(current, e),
        accepted_state(current, e, next),
    ensures
        stored_marker_identifiers_unique(next),
{
    match e.message {
        TacticalMessage::MarkerDelta(d) => {
            let c = snapshot_of(current->0);
            lemma_without_removed_unique(c.markers@, d.removed@);
            lemma_upsert_all_unique(without_removed(c.markers@, d.removed@), d.updated@);
        },
        _ => {},
    }
}

/// Law (no stale duplicates): whatever envelope arrives, once it is in
/// canonical form and accepted, the stored snapshot still holds each
/// entity and marker identifier at most once.
pub proof fn law_stored_identifiers_stay_unique(
    current: Option<Envelope>,
    raw: Envelope,
    e: Envelope,
    next: Option<Envelope>,
)
    requires
        stored_identifiers_unique(current),
        is_canonical_form(raw, e),
        accepts(current, e),
        accepted_state(current, e, next),
    ensures
        stored_identifiers_unique(next),
{
    match e.message {
        TacticalMessage::SessionSnapshot(s) => {},
        TacticalMessage::EntityDelta(d) => {
            let c = snapshot_of(current->0);
            lemma_without_removed_unique(c.entities@, d.removed@);
            lemma_upsert_all_unique(without_removed(c.entities@, d.removed@), d.updated@);
        },
        TacticalMessage::PositionDelta(d) => {
            let c = snapshot_of(current->0);
            let base = without_removed(c.entities@, d.removed@);
            lemma_without_removed_unique(c.entities@, d.removed@);
            lemma_apply_positions_keys(base, d.updated@);
            let r = apply_positions(base, d.updated@);
            assert forall|i: int, j: int| 0 <= i < j < r.len() implies #[trigger] r[i].key()
                != #[trigger] r[j].key() by {
                assert(r[i].key() == base[i].key() && r[j].key() == base[j].key());
            }
        },
        TacticalMessage::MarkerDelta(d) => {
            let c = snapshot_of(current->0);
            lemma_without_removed_unique(c.markers@, d.removed@);
            lemma_upsert_all_unique(without_removed(c.markers@, d.removed@), d.updated@);
        },
        TacticalMessage::Heartbeat(_) => {},
        TacticalMessage::Error(_) => {},
    }
}

/// Law (canonical form is a fixed point): deduplicating items whose keys are
/// already distinct leaves them unchanged.
pub proof fn law_dedup_of_unique_is_identity<T: Keyed>(s: Seq<T>, r: Seq<T>)
    requires
        unique_keys(s),
        is_dedup_by_key(s, r),
    ensures
        r == s,
{
    lemma_dedup_positions(s, r);
    assert(r =~= s);
}

proof fn lemma_dedup_positions<T: Keyed>(s: Seq<T>, r: Seq<T>)
    requires
        unique_keys(s),
        is_dedup_by_key(s, r),
    ensures
        r.len() == s.len(),
        forall|i: int| 0 <= i < s.len() ==> r[i] == s[i],
{
    // Map each item of `r` to its position in `s`.
    let pos = |j: int|
        choose|i: int| 0 <= i < s.len() && #[trigger] s[i] == r[j] && is_last_occurrence(s, i);
    assert forall|j: int| 0 <= j < r.len() implies 0 <= #[trigger] pos(j) < s.len() && s[pos(j)] == r[j] by {
        assert(is_last_item_of(s, r[j]));
    }
    // Positions are strictly increasing.
    assert forall|a: int, b: int| 0 <= a < b < r.len() implies #[trigger] pos(a) < #[trigger] pos(b) by {
        assert(is_last_item_of(s, r[a]));
        assert(is_last_item_of(s, r[b]));
        let pa = pos(a);
        let pb = pos(b);
        assert(s[pb].key() == r[b].key());
        assert(key_first_seen_before(s, r[a].key(), r[b].key()));
        let m = choose|m: int| 0 <= m < pb && #[trigger] s[m].key() == r[a].key();
        if m != pa {
            if m < pa {
                assert(s[m].key() != s[pa].key());
            } else {
                assert(s[pa].key() != s[m].key());
            }
        }
    }
    // Every position of `s` is hit.
    assert forall|i: int| 0 <= i < s.len() implies #[trigger] hits(pos, r.len() as int, i) by {
        assert(has_key(r, s[i].key()));
        let j = choose|j: int| 0 <= j < r.len() && #[trigger] r[j].key() == s[i].key();
        assert(is_last_item_of(s, r[j]));
        let p = pos(j);
        if p != i {
            if p < i {
                assert(s[p].key() != s[i].key());
            } else {
                assert(s[i].key() != s[p].key());
            }
        }
        assert(pos(j) == i);
    }
    lemma_strictly_increasing_onto(pos, r.len() as int, s.len() as int);
    assert forall|i: int| 0 <= i < s.len() implies r[i] == s[i] by {
        assert(is_last_item_of(s, r[i]));
        assert(s[pos(i)] == r[i]);
    }
}

/// Some argument in `0..n` is mapped to `i`.
pub open spec fn hits(f: spec_fn(int) -> int, n: int, i: int) -> bool {
    exists|j: int| 0 <= j < n && #[trigger] f(j) == i
}

/// A strictly increasing map from `0..n` onto `0..m` is the identity.
proof fn lemma_strictly_increasing_onto(f: spec_fn(int) -> int, n: int, m: int)
    requires
        0 <= n,
        0 <= m,
        forall|j: int| 0 <= j < n ==> 0 <= #[trigger] f(j) < m,
        forall|a: int, b: int| 0 <= a < b < n ==> #[trigger] f(a) < #[trigger] f(b),
        forall|i: int| 0 <= i < m ==> #[trigger] hits(f, n, i),
    ensures
        n == m,
        forall|j: int| 0 <= j < n ==> #[trigger] f(j) == j,
{
    lemma_cover_count(f, n, m);
    if n > 0 {
        lemma_increasing_at_least(f, n, m, n - 1);
    }
    assert forall|j: int| 0 <= j < n implies #[trigger] f(j) == j by {
        lemma_increasing_at_most(f, n, m, j);
        lemma_increasing_at_least(f, n, m, j);
    }
}

proof fn lemma_increasing_at_least(f: spec_fn(int) -> int, n: int, m: int, j: int)
    requires
        0 <= j < n,
        forall|j: int| 0 <= j < n ==> 0 <= #[trigger] f(j) < m,
        forall|a: int, b: int| 0 <= a < b < n ==> #[trigger] f(a) < #[trigger] f(b),
    ensures
        j <= f(j),
    decreases j,
{
    if j > 0 {
        lemma_increasing_at_least(f, n, m, j - 1);
        assert(f(j - 1) < f(j));
    }
}

proof fn lemma_increasing_at_most(f: spec_fn(int) -> int, n: int, m: int, j: int)
    requires
        0 <= j < n,
        forall|j: int| 0 <= j < n ==> 0 <= #[trigger] f(j) < m,
        forall|a: int, b: int| 0 <= a < b < n ==> #[trigger] f(a) < #[trigger] f(b),
    ensures
        f(j) <= m - n + j,
    decreases n - j,
{
    if j < n - 1 {
        lemma_increasing_at_most(f, n, m, j + 1);
        assert(f(j) < f(j + 1));
    }
}

/// A strictly increasing map from `0..n` that hits every value of `0..m`
/// has at least `m` arguments.
proof fn lemma_cover_count(f: spec_fn(int) -> int, n: int, m: int)
    requires
        0 <= n,
        0 <= m,
        forall|j: int| 0 <= j < n ==> 0 <= #[trigger] f(j) < m,
        forall|a: int, b: int| 0 <= a < b < n ==> #[trigger] f(a) < #[trigger] f(b),
        forall|i: int| 0 <= i < m ==> #[trigger] hits(f, n, i),
    ensures
        m <= n,
{
    if n < m {
        // The values 0..=n are hit by n + 1 strictly ordered arguments taken
        // from 0..n, which is impossible.
        let g = |i: int| choose|j: int| 0 <= j < n && #[trigger] f(j) == i;
        assert forall|i: int| 0 <= i < n + 1 implies 0 <= #[trigger] g(i) < n && f(g(i)) == i by {
            assert(i < m);
            assert(hits(f, n, i));
        }
        assert forall|a: int, b: int| 0 <= a < b < n + 1 implies #[trigger] g(a) < #[trigger] g(b) by {
            let ga = g(a);
            let gb = g(b);
            if gb < ga {
                assert(f(gb) < f(ga));
            } else if ga == gb {
                assert(f(ga) == a && f(gb) == b);
            }
        }
        lemma_increasing_at_least(g, n + 1, n, n);
    }
}

} // verus!
