//! The debits that wait for sufficient funds.
//!
//! They are not durable: a process that ends loses them without a word, and the originating
//! system has to cope with the silence.
//!
//! Two bounded caches are kept, so that the debits of one user are found without a full scan:
//!
//! ```text
//! debits:     debit id  ->  the pending debit
//! user_index: user id   ->  the ids of that user's debits
//! ```

use crate::cache::{
    bounded, cache_get, cache_insert, cache_invalidate, cache_limit, cache_new, cache_wf, cached,
    lemma_bounded_mapped, CacheValue, CachedView,
};
use crate::models::PendingDebit;
use crate::pending_laws::sound;
use crate::seqs::lemma_filter_no_duplicates;
use moka::sync::Cache;
use vstd::prelude::*;

verus! {

/// What a store of pending debits holds, mathematically.
pub struct Parked {
    /// The debits by their id.
    pub debits: Map<u128, PendingDebit>,
    /// The ids of each user's debits, in the order in which they came.
    pub index: Map<u128, Seq<u128>>,
    /// How many debits, and how many users, the store is made to hold.
    pub limit: nat,
}

/// The ids other than `debit_id`.
pub open spec fn other_than(debit_id: u128) -> spec_fn(u128) -> bool {
    |id: u128| id != debit_id
}

/// `index` after `debit_id` is struck from the list of `user_id`; no list is left empty.
pub open spec fn unlisted(index: Map<u128, Seq<u128>>, user_id: u128, debit_id: u128) -> Map<
    u128,
    Seq<u128>,
> {
    if index.contains_key(user_id) {
        let rest = index[user_id].filter(other_than(debit_id));
        if rest.len() == 0 {
            index.remove(user_id)
        } else {
            index.insert(user_id, rest)
        }
    } else {
        index
    }
}

/// `index` after `debit_id` is put at the end of the list of `user_id`, unless it is on it.
pub open spec fn listed(index: Map<u128, Seq<u128>>, user_id: u128, debit_id: u128) -> Map<
    u128,
    Seq<u128>,
> {
    if !index.contains_key(user_id) {
        index.insert(user_id, seq![debit_id])
    } else if index[user_id].contains(debit_id) {
        index
    } else {
        index.insert(user_id, index[user_id].push(debit_id))
    }
}

/// A store after `pending` is parked in it, if there is room for everything. A debit that was
/// parked under the same id is replaced, and struck from the list of the user it was for.
pub open spec fn parked_with(s: Parked, pending: PendingDebit) -> Parked {
    let id = pending.debit_id;
    let moved = s.debits.contains_key(id) && s.debits[id].user_id != pending.user_id;
    let index = if moved {
        unlisted(s.index, s.debits[id].user_id, id)
    } else {
        s.index
    };
    Parked {
        debits: s.debits.insert(id, pending),
        index: listed(index, pending.user_id, id),
        limit: s.limit,
    }
}

/// A store after the debit `debit_id` is taken out of it.
pub open spec fn parked_without(s: Parked, debit_id: u128) -> Parked {
    if s.debits.contains_key(debit_id) {
        Parked {
            debits: s.debits.remove(debit_id),
            index: unlisted(s.index, s.debits[debit_id].user_id, debit_id),
            limit: s.limit,
        }
    } else {
        s
    }
}

/// `after` is what a store that held `before` holds once `pending` is parked in it.
pub open spec fn parks(before: Parked, pending: PendingDebit, after: Parked) -> bool {
    let whole = parked_with(before, pending);
    &&& after.limit == before.limit
    &&& bounded(whole.debits, before.limit, after.debits)
    &&& bounded(whole.index, before.limit, after.index)
}

/// The debits that `s` holds for `user_id`, in the order in which they came.
pub open spec fn parked_for(s: Parked, user_id: u128) -> Seq<PendingDebit> {
    if s.index.contains_key(user_id) {
        s.index[user_id].filter_map(held_by(s, user_id))
    } else {
        Seq::empty()
    }
}

/// From an id to the debit of that id, if `s` holds it and it is for `user_id`.
pub open spec fn held_by(s: Parked, user_id: u128) -> spec_fn(u128) -> Option<PendingDebit> {
    |id: u128|
        if s.debits.contains_key(id) && s.debits[id].user_id == user_id {
            Some(s.debits[id])
        } else {
            None
        }
}

/// A place for debits that wait for funds.
pub trait PendingDebitStore: Sized {
    /// The store's own validity.
    spec fn wf(&self) -> bool;

    /// What the store holds.
    spec fn parked(&self) -> Parked;

    /// Parks a debit for a later attempt.
    fn add(&mut self, pending: PendingDebit)
        requires
            old(self).wf(),
        ensures
            final(self).wf(),
            parks(old(self).parked(), pending, final(self).parked()),
    ;

    /// Takes a debit out, after success or expiry.
    fn remove(&mut self, debit_id: u128)
        requires
            old(self).wf(),
        ensures
            final(self).wf(),
            final(self).parked() == parked_without(old(self).parked(), debit_id),
    ;

    /// All debits that wait for funds of `user_id`.
    fn pending_for_user(&self, user_id: u128) -> (r: Vec<PendingDebit>)
        requires
            self.wf(),
        ensures
            r@ == parked_for(self.parked(), user_id),
    ;
}

/// A [`PendingDebitStore`] in two bounded caches.
pub struct MokaPendingDebitStore {
    /// The debits by their id.
    debits: Cache<u128, CacheValue>,
    /// The ids of each user's debits.
    user_index: Cache<u128, CacheValue>,
}

/// The debit in a cached value.
pub open spec fn cached_debit(value: CachedView) -> PendingDebit {
    value->Debit_0
}

/// The ids in a cached value.
pub open spec fn cached_ids(value: CachedView) -> Seq<u128> {
    value->DebitIds_0
}

impl MokaPendingDebitStore {
    /// Each cache holds values of its own kind, each debit lies under its id, and no list is
    /// empty or names a debit twice.
    pub closed spec fn valid(&self) -> bool {
        let debits = cached(self.debits);
        let index = cached(self.user_index);
        &&& cache_wf(self.debits)
        &&& cache_wf(self.user_index)
        &&& cache_limit(self.debits) == cache_limit(self.user_index)
        &&& forall|id: u128| #[trigger]
            debits.contains_key(id) ==> debits[id] is Debit && cached_debit(debits[id]).debit_id
                == id
        &&& forall|user: u128| #[trigger]
            index.contains_key(user) ==> {
                &&& index[user] is DebitIds
                &&& cached_ids(index[user]).len() > 0
                &&& cached_ids(index[user]).no_duplicates()
            }
    }

    /// What the two caches hold together.
    pub closed spec fn contents(&self) -> Parked {
        Parked {
            debits: cached(self.debits).map_values(|v: CachedView| cached_debit(v)),
            index: cached(self.user_index).map_values(|v: CachedView| cached_ids(v)),
            limit: cache_limit(self.debits),
        }
    }

    /// A valid store is sound.
    pub proof fn lemma_sound(&self)
        requires
            self.valid(),
        ensures
            sound(self.contents()),
    {
    }

    /// A new store that holds nothing yet, with room for `max_capacity` debits and as many
    /// users.
    pub fn new(max_capacity: u64) -> (store: Self)
        ensures
            store.wf(),
            store.parked() == (Parked {
                debits: Map::empty(),
                index: Map::empty(),
                limit: max_capacity as nat,
            }),
    {
        let store = MokaPendingDebitStore {
            debits: cache_new(max_capacity),
            user_index: cache_new(max_capacity),
        };
        assert(store.contents().debits =~= Map::empty());
        assert(store.contents().index =~= Map::empty());
        store
    }
}

/// Whether `ids` names `wanted`.
fn contains_id(ids: &Vec<u128>, wanted: u128) -> (r: bool)
    ensures
        r == ids@.contains(wanted),
{
    for i in 0..ids.len()
        invariant
            forall|j: int| 0 <= j < i ==> ids@[j] != wanted,
    {
        if ids[i] == wanted {
            return true;
        }
    }
    false
}

/// `ids` without `unwanted`.
fn without_id(ids: &Vec<u128>, unwanted: u128) -> (r: Vec<u128>)
    ensures
        r@ == ids@.filter(other_than(unwanted)),
{
    let ghost keep = other_than(unwanted);
    let mut r: Vec<u128> = Vec::new();
    assert(ids@.take(0).filter(keep) =~= Seq::empty()) by {
        reveal(Seq::filter);
    }
    for i in 0..ids.len()
        invariant
            keep == other_than(unwanted),
            r@ == ids@.take(i as int).filter(keep),
    {
        proof {
            ids@.take(i as int).lemma_filter_push(ids@[i as int], keep);
            assert(ids@.take(i + 1) =~= ids@.take(i as int).push(ids@[i as int]));
        }
        if ids[i] != unwanted {
            r.push(ids[i]);
        }
    }
    assert(ids@.take(ids@.len() as int) =~= ids@);
    r
}

impl MokaPendingDebitStore {
    /// Strikes `debit_id` from the list of `user_id`.
    fn unlist(&mut self, user_id: u128, debit_id: u128)
        requires
            old(self).valid(),
        ensures
            final(self).valid(),
            final(self).contents() == (Parked {
                index: unlisted(old(self).contents().index, user_id, debit_id),
                ..old(self).contents()
            }),
    {
        if let Some(CacheValue::DebitIds(ids)) = cache_get(&self.user_index, user_id) {
            let rest = without_id(&ids, debit_id);
            proof {
                lemma_filter_no_duplicates(ids@, other_than(debit_id));
                let index = cached(self.user_index);
                assert(index.insert(user_id, CachedView::DebitIds(rest@)).dom() =~= index.dom());
            }
            if rest.len() == 0 {
                cache_invalidate(&mut self.user_index, user_id);
            } else {
                cache_insert(&mut self.user_index, user_id, CacheValue::DebitIds(rest));
            }
        }
        assert(self.contents().index =~= unlisted(old(self).contents().index, user_id, debit_id));
        assert(self.contents().debits =~= old(self).contents().debits);
    }
}

impl PendingDebitStore for MokaPendingDebitStore {
    open spec fn wf(&self) -> bool {
        self.valid()
    }

    open spec fn parked(&self) -> Parked {
        self.contents()
    }

    fn remove(&mut self, debit_id: u128) {
        // The owner is looked up before the debit goes.
        if let Some(CacheValue::Debit(pending)) = cache_get(&self.debits, debit_id) {
            cache_invalidate(&mut self.debits, debit_id);
            self.unlist(pending.user_id, debit_id);
        }
        assert(self.contents().debits =~= parked_without(
            old(self).contents(),
            debit_id,
        ).debits);
        assert(self.contents().index =~= parked_without(old(self).contents(), debit_id).index);
    }

    fn add(&mut self, pending: PendingDebit) {
        let debit_id: u128 = pending.debit_id;
        let user_id: u128 = pending.user_id;
        let ghost whole = parked_with(old(self).contents(), pending);

        if let Some(CacheValue::Debit(previous)) = cache_get(&self.debits, debit_id) {
            if previous.user_id != user_id {
                self.unlist(previous.user_id, debit_id);
            }
        }
        let ghost debits = cached(self.debits);
        let ghost index = cached(self.user_index);

        cache_insert(&mut self.debits, debit_id, CacheValue::Debit(pending));
        proof {
            let all = debits.insert(debit_id, CachedView::Debit(pending));
            lemma_bounded_mapped(
                all,
                old(self).contents().limit,
                cached(self.debits),
                |v: CachedView| cached_debit(v),
            );
            assert(all.map_values(|v: CachedView| cached_debit(v)) =~= whole.debits);
        }

        let mut ids: Vec<u128> = match cache_get(&self.user_index, user_id) {
            Some(CacheValue::DebitIds(ids)) => ids,
            _ => Vec::new(),
        };
        if !contains_id(&ids, debit_id) {
            ids.push(debit_id);
        }
        cache_insert(&mut self.user_index, user_id, CacheValue::DebitIds(ids));
        proof {
            let all = index.insert(user_id, CachedView::DebitIds(ids@));
            lemma_bounded_mapped(
                all,
                old(self).contents().limit,
                cached(self.user_index),
                |v: CachedView| cached_ids(v),
            );
            assert(all.map_values(|v: CachedView| cached_ids(v)) =~= whole.index);
        }
    }

    fn pending_for_user(&self, user_id: u128) -> (r: Vec<PendingDebit>) {
        let ids: Vec<u128> = match cache_get(&self.user_index, user_id) {
            Some(CacheValue::DebitIds(ids)) => ids,
            _ => return Vec::new(),
        };
        let ghost pick = held_by(self.contents(), user_id);
        let mut result: Vec<PendingDebit> = Vec::with_capacity(ids.len());
        assert(ids@.take(0).filter_map(pick) =~= Seq::empty());
        for i in 0..ids.len()
            invariant
                self.valid(),
                pick == held_by(self.contents(), user_id),
                result@ == ids@.take(i as int).filter_map(pick),
        {
            proof {
                ids@.lemma_filter_map_take_succ(pick, i as int);
            }
            if let Some(CacheValue::Debit(pending)) = cache_get(&self.debits, ids[i]) {
                if pending.user_id == user_id {
                    result.push(pending);
                }
            }
        }
        assert(ids@.take(ids@.len() as int) =~= ids@);
        result
    }
}

} // verus!
