//! Source plaintexts held for one delta pass, bounded by their total size.

use vstd::prelude::*;

use crate::ids::ContentHash;

verus! {

/// Bytes of source plaintext a pass holds.
pub const SOURCE_CACHE_BYTES: usize = 33554432;

/// The recency list behind the cache: an unbounded `lru::LruCache` keyed by
/// the hash's two halves, whose contents `recent_of` names.
#[verifier::external_body]
pub struct RecencyList {
    list: lru::LruCache<(u128, u128), Vec<u8>>,
}

/// What a recency list holds, most recently used first.
pub uninterp spec fn recent_of(list: RecencyList) -> Seq<(ContentHash, Seq<u8>)>;

impl View for RecencyList {
    type V = Seq<(ContentHash, Seq<u8>)>;

    open spec fn view(&self) -> Seq<(ContentHash, Seq<u8>)> {
        recent_of(*self)
    }
}

/// The place of `hash` in `s`, or the length of `s` where it has none.
pub open spec fn place_of(s: Seq<(ContentHash, Seq<u8>)>, hash: ContentHash) -> int
    decreases s.len(),
{
    if s.len() == 0 {
        0
    } else if s[0].0 == hash {
        0
    } else {
        1 + place_of(s.skip(1), hash)
    }
}

/// `s` without its entry for `hash`.
pub open spec fn without(s: Seq<(ContentHash, Seq<u8>)>, hash: ContentHash) -> Seq<
    (ContentHash, Seq<u8>),
> {
    if place_of(s, hash) < s.len() {
        s.remove(place_of(s, hash))
    } else {
        s
    }
}

/// `s` holds `hash`.
pub open spec fn holds(s: Seq<(ContentHash, Seq<u8>)>, hash: ContentHash) -> bool {
    place_of(s, hash) < s.len()
}

/// The bytes held in `s`.
pub open spec fn bytes_in(s: Seq<(ContentHash, Seq<u8>)>) -> int
    decreases s.len(),
{
    if s.len() == 0 {
        0
    } else {
        bytes_in(s.drop_last()) + s.last().1.len()
    }
}

/// `lru::LruCache::unbounded`: a list that holds nothing and never evicts by
/// itself.
#[verifier::external_body]
fn recent_new() -> (list: RecencyList)
    ensures
        recent_of(list) == (Seq::<(ContentHash, Seq<u8>)>::empty()),
{
    RecencyList { list: lru::LruCache::unbounded() }
}

/// `lru::LruCache::push` on an unbounded cache: the entry becomes the most
/// recent, and the value it replaced, if the key had one, comes back.
#[verifier::external_body]
fn recent_push(list: &mut RecencyList, hash: ContentHash, plain: Vec<u8>) -> (replaced: Option<
    Vec<u8>,
>)
    ensures
        recent_of(*final(list)) == seq![(hash, plain@)] + without(recent_of(*old(list)), hash),
        match replaced {
            Some(v) => holds(recent_of(*old(list)), hash) && v@ == recent_of(*old(list))[place_of(
                recent_of(*old(list)),
                hash,
            )].1,
            None => !holds(recent_of(*old(list)), hash),
        },
{
    list.list.push((hash.head, hash.tail), plain).map(|(_, v)| v)
}

/// `lru::LruCache::pop_lru`: the least recent entry leaves, and its value
/// comes back.
#[verifier::external_body]
fn recent_pop(list: &mut RecencyList) -> (evicted: Option<Vec<u8>>)
    ensures
        recent_of(*old(list)).len() == 0 ==> evicted is None && *final(list) == *old(list),
        recent_of(*old(list)).len() > 0 ==> recent_of(*final(list)) == recent_of(
            *old(list),
        ).drop_last() && evicted is Some && evicted->0@ == recent_of(*old(list)).last().1,
{
    list.list.pop_lru().map(|(_, v)| v)
}

/// `lru::LruCache::len`: the number of entries.
#[verifier::external_body]
fn recent_len(list: &RecencyList) -> (n: usize)
    ensures
        n == recent_of(*list).len(),
{
    list.list.len()
}

/// `lru::LruCache::contains`: whether the key has an entry. The order stays.
#[verifier::external_body]
fn recent_contains(list: &RecencyList, hash: ContentHash) -> (b: bool)
    ensures
        b == holds(recent_of(*list), hash),
{
    list.list.contains(&(hash.head, hash.tail))
}

/// `lru::LruCache::get`: the key's value, whose entry becomes the most
/// recent.
#[verifier::external_body]
fn recent_get(list: &mut RecencyList, hash: ContentHash) -> (found: Option<&Vec<u8>>)
    ensures
        match found {
            Some(v) => holds(recent_of(*old(list)), hash) && v@ == recent_of(*old(list))[place_of(
                recent_of(*old(list)),
                hash,
            )].1 && recent_of(*final(list)) == seq![(hash, v@)] + without(
                recent_of(*old(list)),
                hash,
            ),
            None => !holds(recent_of(*old(list)), hash) && *final(list) == *old(list),
        },
{
    list.list.get(&(hash.head, hash.tail))
}

/// `s` after the least recent entries have left, as long as it holds more
/// than `budget` bytes in more than one entry.
pub open spec fn trimmed(s: Seq<(ContentHash, Seq<u8>)>, budget: int) -> Seq<
    (ContentHash, Seq<u8>),
>
    decreases s.len(),
{
    if bytes_in(s) > budget && s.len() > 1 {
        trimmed(s.drop_last(), budget)
    } else {
        s
    }
}

proof fn lemma_bytes_nonneg(s: Seq<(ContentHash, Seq<u8>)>)
    ensures
        bytes_in(s) >= 0,
    decreases s.len(),
{
    if s.len() > 0 {
        lemma_bytes_nonneg(s.drop_last());
    }
}

proof fn lemma_bytes_front(x: (ContentHash, Seq<u8>), s: Seq<(ContentHash, Seq<u8>)>)
    ensures
        bytes_in(seq![x] + s) == x.1.len() + bytes_in(s),
    decreases s.len(),
{
    let all = seq![x] + s;
    if s.len() == 0 {
        assert(all.drop_last() =~= Seq::<(ContentHash, Seq<u8>)>::empty());
        assert(bytes_in(all.drop_last()) == 0);
    } else {
        assert(all.drop_last() =~= seq![x] + s.drop_last());
        lemma_bytes_front(x, s.drop_last());
    }
}

proof fn lemma_bytes_remove(s: Seq<(ContentHash, Seq<u8>)>, i: int)
    requires
        0 <= i < s.len(),
    ensures
        bytes_in(s.remove(i)) == bytes_in(s) - s[i].1.len(),
    decreases s.len(),
{
    if i == s.len() - 1 {
        assert(s.remove(i) =~= s.drop_last());
    } else {
        lemma_bytes_remove(s.drop_last(), i);
        assert(s.remove(i).drop_last() =~= s.drop_last().remove(i));
        assert(s.remove(i).last() == s.last());
    }
}

proof fn lemma_place_nonneg(s: Seq<(ContentHash, Seq<u8>)>, hash: ContentHash)
    ensures
        0 <= place_of(s, hash) <= s.len(),
    decreases s.len(),
{
    if s.len() > 0 && s[0].0 != hash {
        lemma_place_nonneg(s.skip(1), hash);
    }
}

/// Source plaintexts, the least recent of which leave once the budget is
/// passed. One larger than the whole budget stays as the only entry.
pub struct SourceCache {
    entries: RecencyList,
    bytes: usize,
    budget: usize,
}

impl SourceCache {
    /// What the cache holds, most recently used first.
    pub closed spec fn held(&self) -> Seq<(ContentHash, Seq<u8>)> {
        self.entries@
    }

    pub closed spec fn limit(&self) -> usize {
        self.budget
    }

    /// The byte count is that of what is held, and the budget is kept unless
    /// one entry alone is beyond it.
    pub closed spec fn wf(&self) -> bool {
        &&& self.bytes == bytes_in(self.held())
        &&& bytes_in(self.held()) <= self.limit() || self.held().len() <= 1
    }

    pub fn new() -> (cache: Self)
        ensures
            cache.wf(),
            cache.held().len() == 0,
            cache.limit() == SOURCE_CACHE_BYTES,
    {
        SourceCache::with_budget(SOURCE_CACHE_BYTES)
    }

    pub fn with_budget(budget: usize) -> (cache: Self)
        ensures
            cache.wf(),
            cache.held().len() == 0,
            cache.limit() == budget,
    {
        SourceCache { entries: recent_new(), bytes: 0, budget }
    }

    /// Hold `plain` as the most recently used entry, and let the least recent
    /// ones leave until the budget holds.
    pub fn put(&mut self, hash: ContentHash, plain: Vec<u8>)
        requires
            old(self).wf(),
            bytes_in(old(self).held()) + plain@.len() <= usize::MAX,
        ensures
            final(self).wf(),
            final(self).limit() == old(self).limit(),
            final(self).held() == trimmed(
                seq![(hash, plain@)] + without(old(self).held(), hash),
                old(self).limit() as int,
            ),
    {
        let ghost before = self.held();
        let ghost item = (hash, plain@);
        proof {
            lemma_bytes_nonneg(before);
            lemma_place_nonneg(before, hash);
            lemma_bytes_front(item, without(before, hash));
            if holds(before, hash) {
                lemma_bytes_remove(before, place_of(before, hash));
                lemma_bytes_nonneg(without(before, hash));
            }
        }
        self.bytes = self.bytes + plain.len();
        if let Some(replaced) = recent_push(&mut self.entries, hash, plain) {
            self.bytes = self.bytes - replaced.len();
        }
        let ghost full = seq![item] + without(before, hash);
        while self.bytes > self.budget && recent_len(&self.entries) > 1
            invariant
                self.bytes == bytes_in(self.held()),
                trimmed(self.held(), self.limit() as int) == trimmed(full, self.limit() as int),
                self.limit() == old(self).limit(),
            decreases self.held().len(),
        {
            proof {
                lemma_bytes_nonneg(self.held().drop_last());
            }
            match recent_pop(&mut self.entries) {
                Some(evicted) => {
                    self.bytes = self.bytes - evicted.len();
                },
                None => {},
            }
        }
    }

    /// The plaintext held for `hash`, which becomes the most recently used.
    pub fn get(&mut self, hash: ContentHash) -> (found: Option<&Vec<u8>>)
        requires
            old(self).wf(),
        ensures
            final(self).wf(),
            final(self).limit() == old(self).limit(),
            match found {
                Some(v) => holds(old(self).held(), hash) && v@ == old(self).held()[place_of(
                    old(self).held(),
                    hash,
                )].1 && final(self).held() == seq![(hash, v@)] + without(old(self).held(), hash),
                None => !holds(old(self).held(), hash) && final(self).held() == old(self).held(),
            },
    {
        proof {
            let before = self.held();
            lemma_place_nonneg(before, hash);
            if holds(before, hash) {
                let i = place_of(before, hash);
                lemma_bytes_remove(before, i);
                lemma_bytes_front((hash, before[i].1), without(before, hash));
            }
        }
        recent_get(&mut self.entries, hash)
    }

    /// Whether a plaintext is held for `hash`. The order stays.
    pub fn contains(&self, hash: ContentHash) -> (b: bool)
        ensures
            b == holds(self.held(), hash),
    {
        recent_contains(&self.entries, hash)
    }

    /// The bytes held.
    pub fn bytes(&self) -> (n: usize)
        requires
            self.wf(),
        ensures
            n == bytes_in(self.held()),
    {
        self.bytes
    }

    /// The number of plaintexts held.
    pub fn len(&self) -> (n: usize)
        ensures
            n == self.held().len(),
    {
        recent_len(&self.entries)
    }
}

// ---------------------------------------------------------------------------
// Laws
// ---------------------------------------------------------------------------

/// No hash is held twice.
pub open spec fn once_each(s: Seq<(ContentHash, Seq<u8>)>) -> bool {
    forall|i: int, j: int|
        #![trigger s[i], s[j]]
        0 <= i < j < s.len() ==> s[i].0 != s[j].0
}

proof fn lemma_place_of(s: Seq<(ContentHash, Seq<u8>)>, hash: ContentHash)
    ensures
        0 <= place_of(s, hash) <= s.len(),
        place_of(s, hash) < s.len() ==> s[place_of(s, hash)].0 == hash,
        forall|i: int| 0 <= i < place_of(s, hash) ==> (#[trigger] s[i]).0 != hash,
    decreases s.len(),
{
    if s.len() > 0 && s[0].0 != hash {
        let rest = s.skip(1);
        lemma_place_of(rest, hash);
        assert forall|i: int| 0 <= i < place_of(s, hash) implies (#[trigger] s[i]).0 != hash by {
            if i > 0 {
                assert(rest[i - 1] == s[i]);
            }
        }
    }
}

/// A hash is held just where an entry is under it.
pub proof fn law_held_means_an_entry(s: Seq<(ContentHash, Seq<u8>)>, hash: ContentHash)
    ensures
        holds(s, hash) <==> exists|i: int| 0 <= i < s.len() && (#[trigger] s[i]).0 == hash,
        !holds(without(s, hash), hash) || !once_each(s),
        forall|other: ContentHash|
            other != hash ==> #[trigger] holds(without(s, hash), other) == holds(s, other),
{
    lemma_place_of(s, hash);
    let p = place_of(s, hash);
    let rest = without(s, hash);
    lemma_place_of(rest, hash);
    if exists|i: int| 0 <= i < s.len() && (#[trigger] s[i]).0 == hash {
        let i = choose|i: int| 0 <= i < s.len() && (#[trigger] s[i]).0 == hash;
        assert(s[i].0 == hash);
    }
    if once_each(s) && holds(rest, hash) {
        let q = place_of(rest, hash);
        if p < s.len() {
            if q < p {
                assert(rest[q] == s[q]);
                assert(s[q].0 != s[p].0);
            } else {
                assert(rest[q] == s[q + 1]);
                assert(s[p].0 != s[q + 1].0);
            }
        }
    }
    assert forall|other: ContentHash| other != hash implies #[trigger] holds(rest, other) == holds(
        s,
        other,
    ) by {
        lemma_place_of(s, other);
        lemma_place_of(rest, other);
        if p < s.len() {
            let a = place_of(s, other);
            if a < s.len() {
                let b = if a < p {
                    a
                } else {
                    a - 1
                };
                assert(rest[b] == s[a]);
                if place_of(rest, other) >= rest.len() {
                    assert(rest[b].0 != other);
                }
            }
            let c = place_of(rest, other);
            if c < rest.len() {
                let d = if c < p {
                    c
                } else {
                    c + 1
                };
                assert(s[d] == rest[c]);
                if place_of(s, other) >= s.len() {
                    assert(s[d].0 != other);
                }
            }
        }
    }
}

/// Trimming keeps the most recent entries, in order, and drops no more than the
/// budget asks for: one more would be beyond it. The most recent always stays.
pub proof fn law_trimming_drops_the_oldest(s: Seq<(ContentHash, Seq<u8>)>, budget: int)
    ensures
        ({
            let kept = trimmed(s, budget);
            &&& kept.len() <= s.len()
            &&& kept == s.take(kept.len() as int)
            &&& s.len() > 0 ==> kept.len() > 0
            &&& kept.len() > 1 ==> bytes_in(kept) <= budget
            &&& kept.len() < s.len() ==> bytes_in(s.take(kept.len() as int + 1)) > budget
            &&& bytes_in(s) <= budget ==> kept == s
        }),
    decreases s.len(),
{
    if bytes_in(s) > budget && s.len() > 1 {
        let before = s.drop_last();
        law_trimming_drops_the_oldest(before, budget);
        let kept = trimmed(s, budget);
        assert(before.take(kept.len() as int) =~= s.take(kept.len() as int));
        if kept.len() < before.len() {
            assert(before.take(kept.len() as int + 1) =~= s.take(kept.len() as int + 1));
        } else {
            assert(s.take(kept.len() as int + 1) =~= s);
        }
    } else {
        assert(s.take(s.len() as int) =~= s);
    }
}

/// What was just put is held, as it was put, and is the most recent.
pub proof fn law_what_was_put_is_found(
    before: Seq<(ContentHash, Seq<u8>)>,
    hash: ContentHash,
    plain: Seq<u8>,
    budget: int,
)
    ensures
        ({
            let after = trimmed(seq![(hash, plain)] + without(before, hash), budget);
            &&& holds(after, hash)
            &&& after[place_of(after, hash)].1 == plain
            &&& after[0] == (hash, plain)
        }),
{
    let full = seq![(hash, plain)] + without(before, hash);
    law_trimming_drops_the_oldest(full, budget);
    let after = trimmed(full, budget);
    assert(after[0] == full[0]);
}

/// A cache that holds no hash twice goes on so, whatever is put or asked for.
pub proof fn law_no_hash_is_held_twice(
    before: Seq<(ContentHash, Seq<u8>)>,
    hash: ContentHash,
    plain: Seq<u8>,
    budget: int,
)
    requires
        once_each(before),
    ensures
        once_each(seq![(hash, plain)] + without(before, hash)),
        once_each(trimmed(seq![(hash, plain)] + without(before, hash), budget)),
{
    lemma_place_of(before, hash);
    law_held_means_an_entry(before, hash);
    let p = place_of(before, hash);
    let rest = without(before, hash);
    lemma_place_of(rest, hash);
    let full = seq![(hash, plain)] + rest;
    assert forall|i: int, j: int| #![trigger full[i], full[j]] 0 <= i < j < full.len() implies
        full[i].0 != full[j].0 by {
        assert(full[j] == rest[j - 1]);
        let b = if p < before.len() && j - 1 >= p {
            j
        } else {
            j - 1
        };
        assert(rest[j - 1] == before[b]);
        if i == 0 {
            assert(rest[j - 1].0 != hash);
        } else {
            assert(full[i] == rest[i - 1]);
            let a = if p < before.len() && i - 1 >= p {
                i
            } else {
                i - 1
            };
            assert(rest[i - 1] == before[a]);
            assert(before[a].0 != before[b].0);
        }
    }
    law_trimming_drops_the_oldest(full, budget);
    let after = trimmed(full, budget);
    assert forall|i: int, j: int| #![trigger after[i], after[j]] 0 <= i < j < after.len() implies
        after[i].0 != after[j].0 by {
        assert(after[i] == full[i] && after[j] == full[j]);
    }
}

} // verus!
