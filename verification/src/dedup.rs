//! The dedup cache: a recency-bounded set of message ids. An id that is in
//! the cache belongs to a message that was already relayed; when the cache
//! is full the id used least recently makes room.

use vstd::prelude::*;

verus! {

/// The largest capacity that a dedup cache can be made with.
pub const MAX_CAPACITY: usize = 65536;

/// A recency list after an id was put into it: the id moves to the front
/// where the list holds it; otherwise it is added at the front, and where
/// the list was full its last id, the one used least recently, leaves.
pub open spec fn remembered(keys: Seq<Seq<char>>, limit: nat, id: Seq<char>) -> Seq<Seq<char>> {
    if keys.contains(id) {
        seq![id] + keys.remove(keys.index_of(id))
    } else if keys.len() >= limit {
        seq![id] + keys.drop_last()
    } else {
        seq![id] + keys
    }
}

/// What holds of the recency list of every cache: no id twice, and no
/// more ids than the limit, which is positive.
pub open spec fn tidy(keys: Seq<Seq<char>>, limit: nat) -> bool {
    &&& keys.no_duplicates()
    &&& keys.len() <= limit
    &&& 0 < limit
}

/// The hasher that `lru::LruCache` uses when none is named.
#[verifier::external_type_specification]
#[verifier::external_body]
pub struct ExDefaultHasher(lru::DefaultHasher);

/// `lru::LruCache`, opaque to the verifier.
#[verifier::external_type_specification]
#[verifier::external_body]
#[verifier::reject_recursive_types(K)]
#[verifier::reject_recursive_types(V)]
#[verifier::reject_recursive_types(S)]
pub struct ExLruCache<K, V, S>(lru::LruCache<K, V, S>);

/// The keys that an `lru::LruCache` holds, most recently used first.
pub uninterp spec fn lru_keys(cache: lru::LruCache<String, bool>) -> Seq<Seq<char>>;

/// The number of entries that an `lru::LruCache` was made to hold.
pub uninterp spec fn lru_limit(cache: lru::LruCache<String, bool>) -> nat;

/// `lru::LruCache::new`: an empty cache that holds at most `limit`
/// entries. The bound on `limit` keeps the table that the call allocates
/// up front small.
#[verifier::external_body]
fn lru_new(limit: usize) -> (cache: lru::LruCache<String, bool>)
    requires
        0 < limit <= MAX_CAPACITY,
    ensures
        lru_keys(cache) == Seq::<Seq<char>>::empty(),
        lru_limit(cache) == limit as nat,
{
    lru::LruCache::new(std::num::NonZeroUsize::new(limit).unwrap())
}

/// `lru::LruCache::put` with the value `true`: the result is `Some` where
/// the cache held the key, and the key is then the most recently used one;
/// a new key evicts the least recently used one where the cache was full.
#[verifier::external_body]
fn lru_put(cache: &mut lru::LruCache<String, bool>, key: String) -> (prior: Option<bool>)
    ensures
        prior is Some <==> lru_keys(*old(cache)).contains(key@),
        lru_keys(*final(cache)) == remembered(
            lru_keys(*old(cache)),
            lru_limit(*old(cache)),
            key@,
        ),
        lru_limit(*final(cache)) == lru_limit(*old(cache)),
{
    cache.put(key, true)
}

/// The dedup cache of the relay bus.
pub struct DedupCache {
    cache: lru::LruCache<String, bool>,
    limit: usize,
}

impl View for DedupCache {
    type V = Seq<Seq<char>>;

    /// The ids in the cache, most recently seen first.
    closed spec fn view(&self) -> Seq<Seq<char>> {
        lru_keys(self.cache)
    }
}

impl DedupCache {
    /// The number of ids that the cache holds at most.
    pub closed spec fn limit(&self) -> nat {
        lru_limit(self.cache)
    }

    /// The cache's invariant.
    pub closed spec fn wf(&self) -> bool {
        &&& tidy(lru_keys(self.cache), lru_limit(self.cache))
        &&& self.limit as nat == lru_limit(self.cache)
    }

    /// What the invariant says of the view.
    pub proof fn lemma_wf(&self)
        requires
            self.wf(),
        ensures
            tidy(self@, self.limit()),
    {
    }

    /// An empty cache for `capacity` ids. There is none for a capacity of
    /// zero, nor for one above [`MAX_CAPACITY`].
    pub fn new(capacity: usize) -> (made: Option<Self>)
        ensures
            made is Some <==> 0 < capacity <= MAX_CAPACITY,
            made is Some ==> {
                &&& made->0@ == Seq::<Seq<char>>::empty()
                &&& made->0.limit() == capacity as nat
                &&& made->0.wf()
            },
    {
        if capacity == 0 || capacity > MAX_CAPACITY {
            return None;
        }
        Some(DedupCache { cache: lru_new(capacity), limit: capacity })
    }

    /// The number of ids that the cache holds at most.
    pub fn capacity(&self) -> (capacity: usize)
        requires
            self.wf(),
        ensures
            capacity as nat == self.limit(),
    {
        self.limit
    }

    /// Records that a message with this id was seen, and tells whether the
    /// id is novel, that is, whether the cache did not hold it. Either way
    /// the id is the most recent one afterwards.
    pub fn observe(&mut self, id: &String) -> (novel: bool)
        requires
            old(self).wf(),
        ensures
            novel == !old(self)@.contains(id@),
            final(self)@ == remembered(old(self)@, old(self).limit(), id@),
            final(self).limit() == old(self).limit(),
            final(self).wf(),
    {
        proof {
            lemma_remembered_tidy(self@, self.limit(), id@);
        }
        let prior = lru_put(&mut self.cache, id.clone());
        prior.is_none()
    }
}

/// A list of ids without the given id.
pub open spec fn rid(keys: Seq<Seq<char>>, id: Seq<char>) -> Seq<Seq<char>> {
    if keys.contains(id) {
        keys.remove(keys.index_of(id))
    } else {
        keys
    }
}

/// The ids of a history, each of them once, the one seen last first.
pub open spec fn recency(history: Seq<Seq<char>>) -> Seq<Seq<char>>
    decreases history.len(),
{
    if history.len() == 0 {
        Seq::empty()
    } else {
        seq![history.last()] + rid(recency(history.drop_last()), history.last())
    }
}

/// The first `limit` ids of a list, or all of them where there are fewer.
pub open spec fn foremost(keys: Seq<Seq<char>>, limit: nat) -> Seq<Seq<char>> {
    if keys.len() <= limit {
        keys
    } else {
        keys.take(limit as int)
    }
}

/// A recency list after the ids of a history were put into it one by one.
pub open spec fn replayed(keys: Seq<Seq<char>>, limit: nat, history: Seq<Seq<char>>) -> Seq<
    Seq<char>,
>
    decreases history.len(),
{
    if history.len() == 0 {
        keys
    } else {
        remembered(replayed(keys, limit, history.drop_last()), limit, history.last())
    }
}

/// How many distinct ids a span of a history holds, the given id not
/// counted.
pub open spec fn distinct_others(span: Seq<Seq<char>>, id: Seq<char>) -> nat {
    if span.contains(id) {
        (recency(span).len() - 1) as nat
    } else {
        recency(span).len()
    }
}

/// The place at which a history that holds the id holds it first.
pub open spec fn first_place(history: Seq<Seq<char>>, id: Seq<char>) -> int
    decreases history.len(),
{
    if history.len() == 0 {
        0
    } else if history.drop_last().contains(id) {
        first_place(history.drop_last(), id)
    } else {
        history.len() - 1
    }
}

/// The place at which a history that holds the id holds it last.
pub open spec fn last_place(history: Seq<Seq<char>>, id: Seq<char>) -> int
    decreases history.len(),
{
    if history.len() == 0 {
        0
    } else if history.last() == id {
        history.len() - 1
    } else {
        last_place(history.drop_last(), id)
    }
}

/// How often a cache that starts empty and is shown the ids of a history
/// one by one takes the given id for novel.
pub open spec fn novelties(limit: nat, history: Seq<Seq<char>>, id: Seq<char>) -> nat
    decreases history.len(),
{
    if history.len() == 0 {
        0
    } else {
        let earlier = novelties(limit, history.drop_last(), id);
        if history.last() == id && !replayed(Seq::empty(), limit, history.drop_last()).contains(
            id,
        ) {
            earlier + 1
        } else {
            earlier
        }
    }
}

/// Putting an id into a tidy list leaves it tidy, with the id in front.
pub proof fn lemma_remembered_tidy(keys: Seq<Seq<char>>, limit: nat, id: Seq<char>)
    requires
        tidy(keys, limit),
    ensures
        tidy(remembered(keys, limit, id), limit),
        remembered(keys, limit, id).len() > 0,
        remembered(keys, limit, id)[0] == id,
        remembered(keys, limit, id).contains(id),
        forall|other: Seq<char>|
            remembered(keys, limit, id).contains(other) ==> other == id || keys.contains(other),
{
    let after = remembered(keys, limit, id);
    let rest = after.subrange(1, after.len() as int);
    if keys.contains(id) {
        let q = keys.index_of(id);
        assert(rest =~= keys.remove(q));
        assert forall|i: int| 0 <= i < rest.len() implies #[trigger] rest[i] != id && keys.contains(
            rest[i],
        ) by {
            if i < q {
                assert(rest[i] == keys[i]);
            } else {
                assert(rest[i] == keys[i + 1]);
            }
        }
        assert forall|i: int, j: int| 0 <= i < j < rest.len() implies rest[i] != rest[j] by {
            let a = if i < q { i } else { i + 1 };
            let b = if j < q { j } else { j + 1 };
            assert(rest[i] == keys[a] && rest[j] == keys[b]);
        }
    } else if keys.len() >= limit {
        assert(rest =~= keys.drop_last());
        assert forall|i: int| 0 <= i < rest.len() implies #[trigger] rest[i] != id && keys.contains(
            rest[i],
        ) by {
            assert(rest[i] == keys[i]);
        }
        assert forall|i: int, j: int| 0 <= i < j < rest.len() implies rest[i] != rest[j] by {
            assert(rest[i] == keys[i] && rest[j] == keys[j]);
        }
    } else {
        assert(rest =~= keys);
        assert forall|i: int| 0 <= i < rest.len() implies #[trigger] rest[i] != id && keys.contains(
            rest[i],
        ) by {
            assert(rest[i] == keys[i]);
        }
    }
    assert(after[0] == id);
    assert forall|i: int, j: int| 0 <= i < j < after.len() implies after[i] != after[j] by {
        assert(after[j] == rest[j - 1]);
        if i > 0 {
            assert(after[i] == rest[i - 1]);
        }
    }
    assert forall|other: Seq<char>| after.contains(other) implies other == id || keys.contains(
        other,
    ) by {
        let i = choose|i: int| 0 <= i < after.len() && after[i] == other;
        if i > 0 {
            assert(after[i] == rest[i - 1]);
        }
    }
}

/// Putting another id into a tidy list moves an id that the list holds
/// back by one place at most, and keeps it unless it stood last in a full
/// list.
pub proof fn lemma_remembered_shift(
    keys: Seq<Seq<char>>,
    limit: nat,
    id: Seq<char>,
    other: Seq<char>,
    place: int,
)
    requires
        tidy(keys, limit),
        0 <= place < keys.len(),
        keys[place] == other,
        other != id,
        place + 1 < limit,
    ensures
        exists|later: int|
            0 <= later <= place + 1 && later < remembered(keys, limit, id).len() && remembered(
                keys,
                limit,
                id,
            )[later] == other,
{
    let after = remembered(keys, limit, id);
    if keys.contains(id) {
        let q = keys.index_of(id);
        if place < q {
            assert(after[place + 1] == other);
        } else {
            assert(after[place] == keys.remove(q)[place - 1]);
            assert(after[place] == other);
        }
    } else if keys.len() >= limit {
        assert(after[place + 1] == keys.drop_last()[place]);
        assert(after[place + 1] == other);
    } else {
        assert(after[place + 1] == other);
    }
}

/// In a list without repeats an id stands at one place only.
proof fn lemma_index_of_unique(keys: Seq<Seq<char>>, at: int)
    requires
        keys.no_duplicates(),
        0 <= at < keys.len(),
    ensures
        keys.contains(keys[at]),
        keys.index_of(keys[at]) == at,
{
    let id = keys[at];
    let found = keys.index_of(id);
    assert(0 <= found < keys.len() && keys[found] == id);
}

/// The ids of a history, each of them once, hold no id twice.
pub proof fn lemma_recency_distinct(history: Seq<Seq<char>>)
    ensures
        recency(history).no_duplicates(),
        forall|id: Seq<char>| recency(history).contains(id) <==> history.contains(id),
    decreases history.len(),
{
    if history.len() > 0 {
        let earlier = history.drop_last();
        let last = history.last();
        lemma_recency_distinct(earlier);
        let before = recency(earlier);
        let rest = rid(before, last);
        let all = recency(history);
        assert forall|i: int| 0 <= i < rest.len() implies #[trigger] rest[i] != last
            && before.contains(rest[i]) by {
            if before.contains(last) {
                let q = before.index_of(last);
                let j = if i < q { i } else { i + 1 };
                assert(rest[i] == before[j]);
                if before[j] == last {
                    lemma_index_of_unique(before, j);
                }
            } else {
                assert(rest[i] == before[i]);
            }
        }
        assert forall|i: int, j: int| 0 <= i < j < rest.len() implies rest[i] != rest[j] by {
            if before.contains(last) {
                let q = before.index_of(last);
                let a = if i < q { i } else { i + 1 };
                let b = if j < q { j } else { j + 1 };
                assert(rest[i] == before[a] && rest[j] == before[b]);
            }
        }
        assert forall|i: int, j: int| 0 <= i < j < all.len() implies all[i] != all[j] by {
            assert(all[j] == rest[j - 1]);
            if i > 0 {
                assert(all[i] == rest[i - 1]);
            }
        }
        assert forall|id: Seq<char>| all.contains(id) implies history.contains(id) by {
            let i = choose|i: int| 0 <= i < all.len() && all[i] == id;
            if i == 0 {
                assert(history[history.len() - 1] == id);
            } else {
                assert(all[i] == rest[i - 1]);
                assert(before.contains(id));
                assert(earlier.contains(id));
                let j = choose|j: int| 0 <= j < earlier.len() && earlier[j] == id;
                assert(history[j] == id);
            }
        }
        assert forall|id: Seq<char>| history.contains(id) implies all.contains(id) by {
            if id == last {
                assert(all[0] == id);
            } else {
                let j = choose|j: int| 0 <= j < history.len() && history[j] == id;
                assert(earlier[j] == id);
                assert(earlier.contains(id));
                assert(before.contains(id));
                let p = choose|p: int| 0 <= p < before.len() && before[p] == id;
                if before.contains(last) {
                    let q = before.index_of(last);
                    if p < q {
                        assert(rest[p] == id);
                        assert(all[p + 1] == id);
                    } else {
                        assert(rest[p - 1] == id);
                        assert(all[p] == id);
                    }
                } else {
                    assert(all[p + 1] == id);
                }
            }
        }
    }
}

/// What the cache holds: a cache that starts empty and is shown the ids
/// of a history one by one holds the most recent of them, each once, as
/// many as it has room for, the one seen last first. An id is therefore
/// taken for novel exactly where it is not among the `limit` distinct ids
/// seen most recently.
pub proof fn lemma_cache_holds_most_recent(limit: nat, history: Seq<Seq<char>>)
    requires
        0 < limit,
    ensures
        replayed(Seq::empty(), limit, history) == foremost(recency(history), limit),
    decreases history.len(),
{
    if history.len() > 0 {
        let earlier = history.drop_last();
        let id = history.last();
        lemma_cache_holds_most_recent(limit, earlier);
        lemma_recency_distinct(earlier);
        let all = recency(earlier);
        let held = foremost(all, limit);
        let after = remembered(held, limit, id);
        let goal = foremost(recency(history), limit);
        if held.contains(id) {
            let q = held.index_of(id);
            assert(all[q] == id);
            lemma_index_of_unique(all, q);
            assert(after =~= goal);
        } else if all.contains(id) {
            let q = all.index_of(id);
            if all.len() <= limit || q < limit {
                assert(held[q] == id);
            }
            assert(after =~= goal);
        } else {
            assert(after =~= goal);
        }
    }
}

/// Where a history holds an id first and last.
pub proof fn lemma_places(history: Seq<Seq<char>>, id: Seq<char>)
    requires
        history.contains(id),
    ensures
        0 <= first_place(history, id) <= last_place(history, id) < history.len(),
        history[first_place(history, id)] == id,
        history[last_place(history, id)] == id,
        forall|j: int| 0 <= j < first_place(history, id) ==> #[trigger] history[j] != id,
        forall|j: int| last_place(history, id) < j < history.len() ==> #[trigger] history[j] != id,
    decreases history.len(),
{
    let earlier = history.drop_last();
    let at = choose|i: int| 0 <= i < history.len() && history[i] == id;
    if earlier.contains(id) {
        lemma_places(earlier, id);
        assert(history[first_place(earlier, id)] == earlier[first_place(earlier, id)]);
        assert(history[last_place(earlier, id)] == earlier[last_place(earlier, id)]);
        assert forall|j: int| 0 <= j < first_place(history, id) implies #[trigger] history[j]
            != id by {
            assert(history[j] == earlier[j]);
        }
        let end = last_place(history, id);
        assert forall|j: int| end < j < history.len() implies #[trigger] history[j] != id by {
            if j < earlier.len() {
                assert(history[j] == earlier[j]);
            }
        }
    } else {
        assert(at == history.len() - 1) by {
            if at < history.len() - 1 {
                assert(earlier[at] == id);
            }
        }
        assert forall|j: int| 0 <= j < first_place(history, id) implies #[trigger] history[j]
            != id by {
            if history[j] == id {
                assert(earlier[j] == id);
            }
        }
    }
}

/// One more id adds one to the distinct ids of a history unless the
/// history held it.
pub proof fn lemma_recency_grows(history: Seq<Seq<char>>, id: Seq<char>)
    ensures
        recency(history.push(id)).len() == if history.contains(id) {
            recency(history).len()
        } else {
            recency(history).len() + 1
        },
        history.contains(id) ==> recency(history).len() >= 1,
{
    let longer = history.push(id);
    assert(longer.drop_last() =~= history);
    lemma_recency_distinct(history);
    let held = recency(history);
    if history.contains(id) {
        assert(held.contains(id));
        let q = held.index_of(id);
        assert(0 <= q < held.len());
    }
}

/// A history that grows does not come to hold fewer distinct other ids.
pub proof fn lemma_distinct_others_prefix(span: Seq<Seq<char>>, k: int, id: Seq<char>)
    requires
        0 <= k <= span.len(),
    ensures
        distinct_others(span.take(k), id) <= distinct_others(span, id),
    decreases span.len(),
{
    if k == span.len() {
        assert(span.take(k) =~= span);
    } else {
        let shorter = span.drop_last();
        let last = span.last();
        assert(shorter.take(k) =~= span.take(k));
        lemma_distinct_others_prefix(shorter, k, id);
        assert(shorter.push(last) =~= span);
        lemma_recency_grows(shorter, last);
        lemma_recency_grows(shorter, id);
        assert(span.contains(id) <==> shorter.contains(id) || last == id) by {
            if span.contains(id) {
                let i = choose|i: int| 0 <= i < span.len() && span[i] == id;
                if i < shorter.len() {
                    assert(shorter[i] == id);
                }
            }
            if shorter.contains(id) {
                let i = choose|i: int| 0 <= i < shorter.len() && shorter[i] == id;
                assert(span[i] == id);
            }
            if last == id {
                assert(span[span.len() - 1] == id);
            }
        }
    }
}

/// The distinct ids of the later part of a history, the one seen last
/// first, stand in front of the distinct ids of the whole history.
pub proof fn lemma_recency_prefix(before: Seq<Seq<char>>, span: Seq<Seq<char>>)
    ensures
        recency(span).len() <= recency(before + span).len(),
        forall|i: int|
            0 <= i < recency(span).len() ==> #[trigger] recency(before + span)[i] == recency(
                span,
            )[i],
    decreases span.len(),
{
    let whole = before + span;
    if span.len() == 0 {
    } else {
        let shorter = span.drop_last();
        let id = span.last();
        assert(whole.drop_last() =~= before + shorter);
        assert(whole.last() == id);
        lemma_recency_prefix(before, shorter);
        lemma_recency_distinct(shorter);
        lemma_recency_distinct(before + shorter);
        let part = recency(shorter);
        let all = recency(before + shorter);
        let part_rest = rid(part, id);
        let all_rest = rid(all, id);
        assert(part_rest.len() <= all_rest.len() && forall|i: int|
            0 <= i < part_rest.len() ==> #[trigger] all_rest[i] == part_rest[i]) by {
            if part.contains(id) {
                let q = part.index_of(id);
                assert(all[q] == part[q]);
                lemma_index_of_unique(all, q);
                assert forall|i: int| 0 <= i < part_rest.len() implies #[trigger] all_rest[i]
                    == part_rest[i] by {
                    let j = if i < q { i } else { i + 1 };
                    assert(all[j] == part[j]);
                }
            } else if all.contains(id) {
                let q = all.index_of(id);
                if q < part.len() {
                    assert(all[q] == part[q]);
                }
                assert forall|i: int| 0 <= i < part_rest.len() implies #[trigger] all_rest[i]
                    == part_rest[i] by {
                    assert(all[i] == part[i]);
                }
            } else {
                assert forall|i: int| 0 <= i < part_rest.len() implies #[trigger] all_rest[i]
                    == part_rest[i] by {
                    assert(all[i] == part[i]);
                }
            }
        }
        assert forall|i: int| 0 <= i < recency(span).len() implies #[trigger] recency(whole)[i]
            == recency(span)[i] by {
            if i > 0 {
                assert(recency(whole)[i] == all_rest[i - 1]);
                assert(recency(span)[i] == part_rest[i - 1]);
            }
        }
    }
}

/// An id stays in the cache while fewer distinct other ids than the cache
/// has room for were seen since a place at which it was seen.
pub proof fn lemma_recent_stays(
    limit: nat,
    history: Seq<Seq<char>>,
    seen_at: int,
    now: int,
    id: Seq<char>,
)
    requires
        0 < limit,
        0 <= seen_at < now <= history.len(),
        history[seen_at] == id,
        distinct_others(history.subrange(seen_at, now), id) < limit,
    ensures
        replayed(Seq::empty(), limit, history.take(now)).contains(id),
{
    let before = history.take(seen_at);
    let span = history.subrange(seen_at, now);
    assert(before + span =~= history.take(now));
    assert(span[0] == id);
    assert(span.contains(id));
    lemma_recency_distinct(span);
    lemma_recency_prefix(before, span);
    lemma_cache_holds_most_recent(limit, history.take(now));
    let part = recency(span);
    let all = recency(history.take(now));
    let q = part.index_of(id);
    assert(part.contains(id));
    assert(all[q] == id);
    let held = foremost(all, limit);
    assert(held[q] == id);
}

/// An id that a history holds is taken for novel once, as far as the
/// history has been shown, if between the first and the last time that the
/// history holds it fewer distinct other ids stand than the cache has room
/// for.
proof fn lemma_novelties_so_far(limit: nat, history: Seq<Seq<char>>, id: Seq<char>, shown: int)
    requires
        0 < limit,
        history.contains(id),
        distinct_others(
            history.subrange(first_place(history, id), last_place(history, id)),
            id,
        ) < limit,
        0 <= shown <= history.len(),
    ensures
        novelties(limit, history.take(shown), id) == if history.take(shown).contains(id) {
            1nat
        } else {
            0nat
        },
    decreases shown,
{
    let part = history.take(shown);
    if shown > 0 {
        let earlier = history.take(shown - 1);
        let last = history[shown - 1];
        assert(part.drop_last() =~= earlier);
        assert(part.last() == last);
        lemma_novelties_so_far(limit, history, id, shown - 1);
        lemma_places(history, id);
        let first = first_place(history, id);
        let end = last_place(history, id);
        assert(part.contains(id) <==> earlier.contains(id) || last == id) by {
            if part.contains(id) {
                let i = choose|i: int| 0 <= i < part.len() && part[i] == id;
                if i < earlier.len() {
                    assert(earlier[i] == id);
                }
            }
            if earlier.contains(id) {
                let i = choose|i: int| 0 <= i < earlier.len() && earlier[i] == id;
                assert(part[i] == id);
            }
            if last == id {
                assert(part[part.len() - 1] == id);
            }
        }
        let held = replayed(Seq::empty(), limit, earlier);
        if last == id {
            if earlier.contains(id) {
                // Seen before: it is still in the cache.
                let i = choose|i: int| 0 <= i < earlier.len() && earlier[i] == id;
                assert(history[i] == id);
                assert(first <= i);
                assert(shown - 1 <= end);
                let whole_span = history.subrange(first, end);
                assert(whole_span.take(shown - 1 - first) =~= history.subrange(first, shown - 1));
                lemma_distinct_others_prefix(whole_span, shown - 1 - first, id);
                lemma_recent_stays(limit, history, first, shown - 1, id);
            } else {
                // Never seen: the cache holds ids of the history only.
                lemma_cache_holds_most_recent(limit, earlier);
                lemma_recency_distinct(earlier);
                if held.contains(id) {
                    let i = choose|i: int| 0 <= i < held.len() && held[i] == id;
                    assert(recency(earlier)[i] == id);
                    assert(recency(earlier).contains(id));
                }
            }
        }
    }
}

/// Dedup idempotence over distinct ids: a cache is shown a history that
/// holds an id any number of times, with fewer distinct other ids between
/// the first and the last of them than the cache has room for. Then the
/// cache takes the id for novel exactly once.
pub proof fn lemma_novel_once(limit: nat, history: Seq<Seq<char>>, id: Seq<char>)
    requires
        0 < limit,
        history.contains(id),
        distinct_others(
            history.subrange(first_place(history, id), last_place(history, id)),
            id,
        ) < limit,
    ensures
        novelties(limit, history, id) == 1,
{
    lemma_novelties_so_far(limit, history, id, history.len() as int);
    assert(history.take(history.len() as int) =~= history);
}

} // verus!
