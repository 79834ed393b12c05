//! What holds of parked debits across calls.

use crate::models::PendingDebit;
use crate::pending_store::{
    held_by, listed, other_than, parked_for, parked_with, parked_without, parks, unlisted,
    MokaPendingDebitStore, Parked, PendingDebitStore,
};
use crate::seqs::{lemma_filter_all, lemma_filter_holds, lemma_filter_no_duplicates};
use vstd::prelude::*;

verus! {

/// Each debit lies under its own id, and no list is empty or names a debit twice.
pub open spec fn sound(s: Parked) -> bool {
    &&& forall|id: u128| #[trigger] s.debits.contains_key(id) ==> s.debits[id].debit_id == id
    &&& forall|user: u128| #[trigger]
        s.index.contains_key(user) ==> s.index[user].len() > 0 && s.index[user].no_duplicates()
}

/// The lists name exactly the debits that are held, each under its user.
pub open spec fn in_sync(s: Parked) -> bool {
    &&& sound(s)
    &&& forall|id: u128| #[trigger]
        s.debits.contains_key(id) ==> s.index.contains_key(s.debits[id].user_id)
            && s.index[s.debits[id].user_id].contains(id)
    &&& forall|user: u128, id: u128|
        #![trigger s.index[user].contains(id)]
        s.index.contains_key(user) && s.index[user].contains(id) ==> s.debits.contains_key(id)
            && s.debits[id].user_id == user
}

/// No two of `debits` have one id.
pub open spec fn distinct(debits: Seq<PendingDebit>) -> bool {
    forall|i: int, j: int|
        0 <= i < j < debits.len() ==> (#[trigger] debits[i]).debit_id != (
        #[trigger] debits[j]).debit_id
}

/// The debits other than `debit_id`.
pub open spec fn debits_other_than(debit_id: u128) -> spec_fn(PendingDebit) -> bool {
    |debit: PendingDebit| debit.debit_id != debit_id
}

/// A store in caches is sound, whatever they have dropped.
pub proof fn law_store_is_sound(store: &MokaPendingDebitStore)
    requires
        store.wf(),
    ensures
        sound(store.parked()),
{
    store.lemma_sound();
}

/// A store that holds nothing is in sync.
pub proof fn law_empty_is_in_sync(limit: nat)
    ensures
        in_sync(Parked { debits: Map::empty(), index: Map::empty(), limit }),
{
}

/// Striking an id from a list leaves a list without it, and the other lists alone.
proof fn lemma_unlisted(index: Map<u128, Seq<u128>>, user_id: u128, debit_id: u128)
    requires
        forall|user: u128| #[trigger]
            index.contains_key(user) ==> index[user].len() > 0 && index[user].no_duplicates(),
    ensures
        forall|user: u128| #[trigger]
            unlisted(index, user_id, debit_id).contains_key(user) ==> {
                &&& index.contains_key(user)
                &&& unlisted(index, user_id, debit_id)[user].len() > 0
                &&& unlisted(index, user_id, debit_id)[user].no_duplicates()
            },
        forall|user: u128, id: u128|
            #![trigger unlisted(index, user_id, debit_id)[user].contains(id)]
            #![trigger index[user].contains(id)]
            unlisted(index, user_id, debit_id).contains_key(user) && unlisted(
                index,
                user_id,
                debit_id,
            )[user].contains(id) <==> index.contains_key(user) && index[user].contains(id) && !(
            user == user_id && id == debit_id),
{
    let after = unlisted(index, user_id, debit_id);
    if index.contains_key(user_id) {
        let rest = index[user_id].filter(other_than(debit_id));
        lemma_filter_no_duplicates(index[user_id], other_than(debit_id));
        assert forall|user: u128, id: u128|
            #![trigger after[user].contains(id)]
            #![trigger index[user].contains(id)]
            after.contains_key(user) && after[user].contains(id) <==> index.contains_key(user)
                && index[user].contains(id) && !(user == user_id && id == debit_id) by {
            if user == user_id {
                lemma_filter_holds(index[user_id], other_than(debit_id), id);
                if rest.contains(id) {
                    assert(rest.len() > 0);
                }
            }
        }
    }
}

/// Listing an id puts it on the list of its user, and leaves all else alone.
proof fn lemma_listed(index: Map<u128, Seq<u128>>, user_id: u128, debit_id: u128)
    requires
        forall|user: u128| #[trigger]
            index.contains_key(user) ==> index[user].len() > 0 && index[user].no_duplicates(),
    ensures
        forall|user: u128| #[trigger]
            listed(index, user_id, debit_id).contains_key(user) ==> {
                &&& listed(index, user_id, debit_id)[user].len() > 0
                &&& listed(index, user_id, debit_id)[user].no_duplicates()
            },
        forall|user: u128, id: u128|
            #![trigger listed(index, user_id, debit_id)[user].contains(id)]
            #![trigger index[user].contains(id)]
            listed(index, user_id, debit_id).contains_key(user) && listed(
                index,
                user_id,
                debit_id,
            )[user].contains(id) <==> (index.contains_key(user) && index[user].contains(id)) || (
            user == user_id && id == debit_id),
{
    let after = listed(index, user_id, debit_id);
    assert forall|user: u128, id: u128|
        #![trigger after[user].contains(id)]
        #![trigger index[user].contains(id)]
        after.contains_key(user) && after[user].contains(id) <==> (index.contains_key(user)
            && index[user].contains(id)) || (user == user_id && id == debit_id) by {
        if user == user_id {
            if !index.contains_key(user_id) {
                assert(after[user_id][0] == debit_id);
            } else if !index[user_id].contains(debit_id) {
                let list = index[user_id];
                assert(after[user_id][list.len() as int] == debit_id);
                if list.contains(id) {
                    let i = choose|i: int| 0 <= i < list.len() && list[i] == id;
                    assert(after[user_id][i] == id);
                }
                if after[user_id].contains(id) && id != debit_id {
                    let i = choose|i: int| 0 <= i < after[user_id].len() && after[user_id][i] == id;
                    assert(list[i] == id);
                }
            }
        }
    }
}

/// Parking a debit keeps a store in sync.
pub proof fn law_parking_keeps_sync(s: Parked, pending: PendingDebit)
    requires
        in_sync(s),
    ensures
        in_sync(parked_with(s, pending)),
{
    let after = parked_with(s, pending);
    let id = pending.debit_id;
    let moved = s.debits.contains_key(id) && s.debits[id].user_id != pending.user_id;
    let index = if moved {
        unlisted(s.index, s.debits[id].user_id, id)
    } else {
        s.index
    };
    if moved {
        lemma_unlisted(s.index, s.debits[id].user_id, id);
    }
    lemma_listed(index, pending.user_id, id);
    assert forall|other: u128| #[trigger] after.debits.contains_key(other) implies
        after.index.contains_key(after.debits[other].user_id)
        && after.index[after.debits[other].user_id].contains(other) by {
        let user = after.debits[other].user_id;
        if other != id {
            assert(s.debits.contains_key(other));
            assert(s.index[user].contains(other));
            assert(index.contains_key(user) && index[user].contains(other));
        }
        assert(listed(index, pending.user_id, id)[user].contains(other));
    }
    assert forall|user: u128, other: u128|
        #![trigger after.index[user].contains(other)]
        after.index.contains_key(user) && after.index[user].contains(
            other,
        ) implies after.debits.contains_key(other) && after.debits[other].user_id == user by {
        assert(listed(index, pending.user_id, id)[user].contains(other));
        if !(user == pending.user_id && other == id) {
            assert(index[user].contains(other));
            assert(s.index[user].contains(other));
        }
    }
}

/// Taking a debit out keeps a store in sync.
pub proof fn law_discarding_keeps_sync(s: Parked, debit_id: u128)
    requires
        in_sync(s),
    ensures
        in_sync(parked_without(s, debit_id)),
{
    if s.debits.contains_key(debit_id) {
        let owner = s.debits[debit_id].user_id;
        let after = parked_without(s, debit_id);
        lemma_unlisted(s.index, owner, debit_id);
        assert forall|id: u128| #[trigger] after.debits.contains_key(id) implies
            after.index.contains_key(after.debits[id].user_id)
            && after.index[after.debits[id].user_id].contains(id) by {
            assert(s.debits.contains_key(id));
            assert(s.index[s.debits[id].user_id].contains(id));
        }
        assert forall|user: u128, id: u128|
            #![trigger after.index[user].contains(id)]
            after.index.contains_key(user) && after.index[user].contains(
                id,
            ) implies after.debits.contains_key(id) && after.debits[id].user_id == user by {
            assert(unlisted(s.index, owner, debit_id)[user].contains(id));
            assert(s.index[user].contains(id));
        }
    }
}

/// A store stays sound when a debit is parked in it, whatever it drops for want of room.
pub proof fn law_parking_keeps_sound(s: Parked, pending: PendingDebit, after: Parked)
    requires
        sound(s),
        parks(s, pending, after),
    ensures
        sound(after),
        forall|id: u128| #[trigger]
            after.debits.contains_key(id) ==> id == pending.debit_id || s.debits.contains_key(id),
{
    let id = pending.debit_id;
    let moved = s.debits.contains_key(id) && s.debits[id].user_id != pending.user_id;
    let index = if moved {
        unlisted(s.index, s.debits[id].user_id, id)
    } else {
        s.index
    };
    if moved {
        lemma_unlisted(s.index, s.debits[id].user_id, id);
    }
    lemma_listed(index, pending.user_id, id);
    let whole = parked_with(s, pending);
    assert forall|user: u128| #[trigger] after.index.contains_key(user) implies
        whole.index.contains_key(user) && after.index[user] == whole.index[user] by {}
    assert forall|id: u128| #[trigger] after.debits.contains_key(id) implies
        whole.debits.contains_key(id) && after.debits[id] == whole.debits[id] by {}
}

/// A store stays sound when a debit is taken out of it.
pub proof fn law_discarding_keeps_sound(s: Parked, debit_id: u128)
    requires
        sound(s),
    ensures
        sound(parked_without(s, debit_id)),
        !parked_without(s, debit_id).debits.contains_key(debit_id),
{
    if s.debits.contains_key(debit_id) {
        lemma_unlisted(s.index, s.debits[debit_id].user_id, debit_id);
    }
}

/// What a list of ids stands for: each debit once, each held for the user.
proof fn lemma_held(s: Parked, user_id: u128, ids: Seq<u128>)
    requires
        sound(s),
        ids.no_duplicates(),
    ensures
        distinct(ids.filter_map(held_by(s, user_id))),
        forall|i: int|
            0 <= i < ids.filter_map(held_by(s, user_id)).len() ==> {
                let debit = #[trigger] ids.filter_map(held_by(s, user_id))[i];
                &&& ids.contains(debit.debit_id)
                &&& s.debits.contains_key(debit.debit_id)
                &&& s.debits[debit.debit_id] == debit
                &&& debit.user_id == user_id
            },
        forall|id: u128|
            ids.contains(id) && #[trigger] s.debits.contains_key(id) && s.debits[id].user_id
                == user_id ==> ids.filter_map(held_by(s, user_id)).contains(s.debits[id]),
    decreases ids.len(),
{
    let pick = held_by(s, user_id);
    if ids.len() > 0 {
        let rest = ids.drop_last();
        let last = ids.last();
        lemma_held(s, user_id, rest);
        let before = rest.filter_map(pick);
        let all = ids.filter_map(pick);
        if rest.contains(last) {
            let i = choose|i: int| 0 <= i < rest.len() && rest[i] == last;
            assert(ids[i] == ids[ids.len() - 1]);
        }
        assert forall|i: int| 0 <= i < all.len() implies {
            let debit = #[trigger] all[i];
            &&& ids.contains(debit.debit_id)
            &&& s.debits.contains_key(debit.debit_id)
            &&& s.debits[debit.debit_id] == debit
            &&& debit.user_id == user_id
        } by {
            if i < before.len() {
                let debit = before[i];
                assert(all[i] == debit);
                assert(rest.contains(debit.debit_id));
                let k = choose|k: int| 0 <= k < rest.len() && rest[k] == debit.debit_id;
                assert(ids[k] == debit.debit_id);
            } else {
                assert(ids[ids.len() - 1] == last);
            }
        }
        assert forall|i: int, j: int| 0 <= i < j < all.len() implies (
        #[trigger] all[i]).debit_id != (#[trigger] all[j]).debit_id by {
            if j < before.len() {
                assert(all[i] == before[i] && all[j] == before[j]);
            } else {
                assert(all[i] == before[i]);
                assert(rest.contains(before[i].debit_id));
                assert(all[j].debit_id == last);
            }
        }
        assert forall|id: u128|
            ids.contains(id) && #[trigger] s.debits.contains_key(id) && s.debits[id].user_id
                == user_id implies all.contains(s.debits[id]) by {
            if id == last {
                assert(all[all.len() - 1] == s.debits[id]);
            } else {
                let k = choose|k: int| 0 <= k < ids.len() && ids[k] == id;
                assert(rest[k] == id);
                assert(before.contains(s.debits[id]));
                let m = choose|m: int| 0 <= m < before.len() && before[m] == s.debits[id];
                assert(all[m] == s.debits[id]);
            }
        }
    }
}

/// A look-up gives only debits that are held for the user, each once.
pub proof fn law_lookup_is_right(s: Parked, user_id: u128)
    requires
        sound(s),
    ensures
        distinct(parked_for(s, user_id)),
        forall|i: int|
            0 <= i < parked_for(s, user_id).len() ==> {
                let debit = #[trigger] parked_for(s, user_id)[i];
                &&& s.debits.contains_key(debit.debit_id)
                &&& s.debits[debit.debit_id] == debit
                &&& debit.user_id == user_id
            },
{
    if s.index.contains_key(user_id) {
        lemma_held(s, user_id, s.index[user_id]);
    }
}

/// In a store in sync a look-up gives exactly the debits that are held for the user.
pub proof fn law_lookup_is_complete(s: Parked, user_id: u128, debit: PendingDebit)
    requires
        in_sync(s),
    ensures
        parked_for(s, user_id).contains(debit) <==> s.debits.contains_key(debit.debit_id)
            && s.debits[debit.debit_id] == debit && debit.user_id == user_id,
{
    law_lookup_is_right(s, user_id);
    if s.index.contains_key(user_id) {
        lemma_held(s, user_id, s.index[user_id]);
    }
}

/// A debit that was parked in a store with room for it is found again under its user.
pub proof fn law_parked_is_found(s: Parked, pending: PendingDebit, after: Parked)
    requires
        in_sync(s),
        parks(s, pending, after),
        parked_with(s, pending).debits.dom().len() <= s.limit,
        parked_with(s, pending).index.dom().len() <= s.limit,
    ensures
        in_sync(after),
        parked_for(after, pending.user_id).contains(pending),
{
    law_parking_keeps_sync(s, pending);
    law_lookup_is_complete(after, pending.user_id, pending);
}

/// A debit that was taken out is found no more, and the others are found as before.
pub proof fn law_discarded_is_gone(s: Parked, debit_id: u128, user_id: u128)
    requires
        sound(s),
    ensures
        parked_for(parked_without(s, debit_id), user_id) == parked_for(s, user_id).filter(
            debits_other_than(debit_id),
        ),
{
    let after = parked_without(s, debit_id);
    let keep = debits_other_than(debit_id);
    law_lookup_is_right(s, user_id);
    if !s.debits.contains_key(debit_id) {
        lemma_filter_all(parked_for(s, user_id), keep);
    } else if s.index.contains_key(user_id) {
        let ids = s.index[user_id];
        if s.debits[debit_id].user_id == user_id {
            lemma_struck(s, debit_id, user_id, ids);
            if ids.filter(other_than(debit_id)).len() == 0 {
                assert(ids.filter(other_than(debit_id)).filter_map(held_by(after, user_id))
                    =~= Seq::empty());
            }
        } else {
            lemma_filter_all(parked_for(s, user_id), keep);
            lemma_same_held(s, debit_id, user_id, ids);
        }
    } else {
        reveal(Seq::filter);
    }
}

/// Striking an id from a list strikes its debit from what the list stands for.
proof fn lemma_struck(s: Parked, debit_id: u128, user_id: u128, ids: Seq<u128>)
    requires
        sound(s),
        s.debits.contains_key(debit_id),
    ensures
        ids.filter(other_than(debit_id)).filter_map(held_by(parked_without(s, debit_id), user_id))
            == ids.filter_map(held_by(s, user_id)).filter(debits_other_than(debit_id)),
    decreases ids.len(),
{
    reveal(Seq::filter);
    let keep = other_than(debit_id);
    let pick = held_by(s, user_id);
    let pick_after = held_by(parked_without(s, debit_id), user_id);
    if ids.len() > 0 {
        let rest = ids.drop_last();
        let last = ids.last();
        lemma_struck(s, debit_id, user_id, rest);
        if keep(last) {
            assert(ids.filter(keep).drop_last() =~= rest.filter(keep));
        }
        match pick(last) {
            Some(debit) => {
                rest.filter_map(pick).lemma_filter_push(debit, debits_other_than(debit_id));
                assert(ids.filter_map(pick) =~= rest.filter_map(pick).push(debit));
            },
            None => {},
        }
        assert(ids.filter(keep).filter_map(pick_after) =~= ids.filter_map(pick).filter(
            debits_other_than(debit_id),
        ));
    }
}

/// A debit of another user makes no difference to what a list stands for.
proof fn lemma_same_held(s: Parked, debit_id: u128, user_id: u128, ids: Seq<u128>)
    requires
        s.debits.contains_key(debit_id),
        s.debits[debit_id].user_id != user_id,
    ensures
        ids.filter_map(held_by(parked_without(s, debit_id), user_id)) == ids.filter_map(
            held_by(s, user_id),
        ),
    decreases ids.len(),
{
    if ids.len() > 0 {
        lemma_same_held(s, debit_id, user_id, ids.drop_last());
    }
}

/// Some debit of `debits` has the id `debit_id`.
pub open spec fn names(debits: Seq<PendingDebit>, debit_id: u128) -> bool {
    exists|i: int| 0 <= i < debits.len() && (#[trigger] debits[i]).debit_id == debit_id
}

/// `debits` with `pending` in the place of the debit of its id.
pub open spec fn replaced(debits: Seq<PendingDebit>, pending: PendingDebit) -> Seq<PendingDebit> {
    debits.map_values(
        |debit: PendingDebit|
            if debit.debit_id == pending.debit_id {
                pending
            } else {
                debit
            },
    )
}

/// The debits of a user after `pending` is parked for the user too: it takes the place of the
/// debit of its id, or comes last.
pub open spec fn joined(debits: Seq<PendingDebit>, pending: PendingDebit) -> Seq<PendingDebit> {
    if names(debits, pending.debit_id) {
        replaced(debits, pending)
    } else {
        debits.push(pending)
    }
}

/// Replacing a debit replaces it in what a list stands for.
proof fn lemma_replaced(s: Parked, pending: PendingDebit, ids: Seq<u128>)
    requires
        sound(s),
        ids.contains(pending.debit_id) ==> s.debits.contains_key(pending.debit_id)
            && s.debits[pending.debit_id].user_id == pending.user_id,
    ensures
        ids.filter_map(held_by(parked_with(s, pending), pending.user_id)) == replaced(
            ids.filter_map(held_by(s, pending.user_id)),
            pending,
        ),
    decreases ids.len(),
{
    let pick = held_by(s, pending.user_id);
    let pick_after = held_by(parked_with(s, pending), pending.user_id);
    if ids.len() > 0 {
        let rest = ids.drop_last();
        let last = ids.last();
        if rest.contains(pending.debit_id) {
            let i = choose|i: int| 0 <= i < rest.len() && rest[i] == pending.debit_id;
            assert(ids[i] == pending.debit_id);
        }
        assert(ids[ids.len() - 1] == last);
        lemma_replaced(s, pending, rest);
        assert(ids.filter_map(pick_after) =~= replaced(ids.filter_map(pick), pending));
    } else {
        assert(ids.filter_map(pick_after) =~= replaced(ids.filter_map(pick), pending));
    }
}

/// Where no debit has the id, replacing changes nothing.
proof fn lemma_nothing_replaced(debits: Seq<PendingDebit>, pending: PendingDebit)
    requires
        !names(debits, pending.debit_id),
    ensures
        replaced(debits, pending) == debits,
{
    assert(replaced(debits, pending) =~= debits);
}

/// What parking a debit does to every list: the list of its user gains it at the end, or has it
/// in the place of the debit of its id, and no other list changes, but for that of a user for
/// whom a debit of its id was parked before.
pub proof fn law_parking_changes_one_list(s: Parked, pending: PendingDebit, user_id: u128)
    requires
        in_sync(s),
    ensures
        user_id == pending.user_id ==> parked_for(parked_with(s, pending), user_id) == joined(
            parked_for(s, user_id),
            pending,
        ),
        user_id != pending.user_id ==> parked_for(parked_with(s, pending), user_id) == parked_for(
            s,
            user_id,
        ).filter(debits_other_than(pending.debit_id)),
        user_id != pending.user_id && (s.debits.contains_key(pending.debit_id)
            ==> s.debits[pending.debit_id].user_id != user_id) ==> parked_for(
            parked_with(s, pending),
            user_id,
        ) == parked_for(s, user_id),
{
    let after = parked_with(s, pending);
    let id = pending.debit_id;
    law_lookup_is_right(s, user_id);
    if user_id == pending.user_id {
        let debits = parked_for(s, user_id);
        if s.index.contains_key(user_id) {
            let ids = s.index[user_id];
            lemma_held(s, user_id, ids);
            assert(ids.contains(id) ==> s.debits.contains_key(id) && s.debits[id].user_id
                == user_id);
            lemma_replaced(s, pending, ids);
            if ids.contains(id) {
                assert(debits.contains(s.debits[id]));
                assert(names(debits, id));
                assert(after.index[user_id] == ids);
            } else {
                assert(!names(debits, id));
                lemma_nothing_replaced(debits, pending);
                assert(after.index[user_id] == ids.push(id));
                assert(ids.push(id).drop_last() =~= ids);
                assert(parked_for(after, user_id) =~= debits.push(pending));
            }
        } else {
            assert(after.index[user_id] == seq![id]);
            Seq::lemma_filter_map_singleton(id, held_by(after, user_id));
            assert(!names(debits, id));
            assert(parked_for(after, user_id) =~= debits.push(pending));
        }
    } else if s.debits.contains_key(id) && s.debits[id].user_id == user_id {
        let without = parked_without(s, id);
        law_discarded_is_gone(s, id, user_id);
        assert(held_by(after, user_id) =~= held_by(without, user_id));
        assert(after.index.contains_key(user_id) == without.index.contains_key(user_id));
        assert(parked_for(after, user_id) == parked_for(without, user_id));
    } else {
        lemma_filter_all(parked_for(s, user_id), debits_other_than(id));
        assert(held_by(after, user_id) =~= held_by(s, user_id));
        assert(parked_for(after, user_id) == parked_for(s, user_id));
    }
}

/// Something that is done to a store.
pub enum StoreOp {
    Add(PendingDebit),
    Remove(u128),
}

/// `after` is what a store that held `before` holds once `op` is done to it.
pub open spec fn done(before: Parked, op: StoreOp, after: Parked) -> bool {
    match op {
        StoreOp::Add(pending) => parks(before, pending, after),
        StoreOp::Remove(debit_id) => after == parked_without(before, debit_id),
    }
}

/// The debits that were added and not removed since, each as it was added last.
pub open spec fn live(ops: Seq<StoreOp>) -> Map<u128, PendingDebit>
    decreases ops.len(),
{
    if ops.len() == 0 {
        Map::empty()
    } else {
        match ops.last() {
            StoreOp::Add(pending) => live(ops.drop_last()).insert(pending.debit_id, pending),
            StoreOp::Remove(debit_id) => live(ops.drop_last()).remove(debit_id),
        }
    }
}

/// The debits of `user_id` that were added and not removed since, each as it was added last, in
/// the order in which they came to be there.
pub open spec fn waiting(ops: Seq<StoreOp>, user_id: u128) -> Seq<PendingDebit>
    decreases ops.len(),
{
    if ops.len() == 0 {
        Seq::empty()
    } else {
        let before = waiting(ops.drop_last(), user_id);
        match ops.last() {
            StoreOp::Add(pending) => if pending.user_id == user_id {
                joined(before, pending)
            } else {
                before.filter(debits_other_than(pending.debit_id))
            },
            StoreOp::Remove(debit_id) => before.filter(debits_other_than(debit_id)),
        }
    }
}

/// `states` is what a new store for `limit` debits holds before and after each of `ops`, and
/// there is room for all debits at any time.
pub open spec fn store_history(ops: Seq<StoreOp>, states: Seq<Parked>, limit: nat) -> bool {
    &&& states.len() == ops.len() + 1
    &&& states[0] == (Parked { debits: Map::empty(), index: Map::empty(), limit })
    &&& forall|i: int| 0 <= i < ops.len() ==> done(#[trigger] states[i], ops[i], states[i + 1])
    &&& forall|i: int| 0 <= i <= ops.len() ==> live(#[trigger] ops.take(i)).dom().len() <= limit
}

/// In a store in sync there are no more lists than debits.
proof fn lemma_fewer_lists(s: Parked)
    requires
        in_sync(s),
        s.debits.dom().finite(),
    ensures
        s.index.dom().len() <= s.debits.dom().len(),
{
    let owner = |id: u128| s.debits[id].user_id;
    let owners = s.debits.dom().map(owner);
    vstd::set_lib::lemma_map_size_bound(s.debits.dom(), owners, owner);
    assert forall|user: u128| s.index.dom().contains(user) implies owners.contains(user) by {
        let id = s.index[user][0];
        assert(s.index[user].contains(id));
        assert(s.debits.dom().contains(id) && owner(id) == user);
    }
    vstd::set_lib::lemma_len_subset(s.index.dom(), owners);
}

/// After any history of adding and removing, with room for all debits, a look-up gives exactly
/// the debits of the user that were added and not removed since, each once and as it was added
/// last, in the order in which they came to be there.
pub proof fn law_lookup_after_history(
    ops: Seq<StoreOp>,
    states: Seq<Parked>,
    limit: nat,
    n: int,
    user_id: u128,
)
    requires
        store_history(ops, states, limit),
        0 <= n <= ops.len(),
    ensures
        in_sync(states[n]),
        states[n].debits == live(ops.take(n)),
        states[n].limit == limit,
        parked_for(states[n], user_id) == waiting(ops.take(n), user_id),
        distinct(parked_for(states[n], user_id)),
        forall|debit: PendingDebit| #[trigger]
            parked_for(states[n], user_id).contains(debit) <==> live(ops.take(n)).contains_key(
                debit.debit_id,
            ) && live(ops.take(n))[debit.debit_id] == debit && debit.user_id == user_id,
    decreases n,
{
    if n == 0 {
        assert(ops.take(0).len() == 0);
    } else {
        let (s, next) = (states[n - 1], states[n]);
        law_lookup_after_history(ops, states, limit, n - 1, user_id);
        assert(done(states[n - 1], ops[n - 1], states[n - 1 + 1]));
        assert(ops.take(n).drop_last() =~= ops.take(n - 1));
        lemma_live_is_finite(ops.take(n));
        match ops[n - 1] {
            StoreOp::Add(pending) => {
                law_parking_keeps_sync(s, pending);
                law_parking_changes_one_list(s, pending, user_id);
                let whole = parked_with(s, pending);
                assert(whole.debits == live(ops.take(n)));
                lemma_fewer_lists(whole);
                assert(next == whole);
            },
            StoreOp::Remove(debit_id) => {
                law_discarding_keeps_sync(s, debit_id);
                law_discarded_is_gone(s, debit_id, user_id);
                assert(next.debits =~= live(ops.take(n)));
            },
        }
    }
    law_lookup_is_right(states[n], user_id);
    assert forall|debit: PendingDebit| #[trigger]
        parked_for(states[n], user_id).contains(debit) <==> live(ops.take(n)).contains_key(
            debit.debit_id,
        ) && live(ops.take(n))[debit.debit_id] == debit && debit.user_id == user_id by {
        law_lookup_is_complete(states[n], user_id, debit);
    }
}

/// There are finitely many live debits.
proof fn lemma_live_is_finite(ops: Seq<StoreOp>)
    ensures
        live(ops).dom().finite(),
    decreases ops.len(),
{
    if ops.len() > 0 {
        lemma_live_is_finite(ops.drop_last());
    }
}

/// `s` holds `debit`, and the list of its user names it.
pub open spec fn parks_listed(s: Parked, debit: PendingDebit) -> bool {
    &&& s.debits.contains_key(debit.debit_id)
    &&& s.debits[debit.debit_id] == debit
    &&& s.index.contains_key(debit.user_id)
    &&& s.index[debit.user_id].contains(debit.debit_id)
}

/// A look-up gives the debits that are held and named by the list of their user.
pub proof fn law_listed_is_found(s: Parked, user_id: u128, debit: PendingDebit)
    requires
        sound(s),
    ensures
        parked_for(s, user_id).contains(debit) <==> parks_listed(s, debit) && debit.user_id
            == user_id,
{
    if s.index.contains_key(user_id) {
        lemma_held(s, user_id, s.index[user_id]);
    }
}

/// Parking a debit, whatever is dropped for want of room, brings no other debit back.
pub proof fn law_parking_lists_no_other(
    s: Parked,
    pending: PendingDebit,
    after: Parked,
    debit: PendingDebit,
)
    requires
        sound(s),
        parks(s, pending, after),
        parks_listed(after, debit),
    ensures
        debit == pending || parks_listed(s, debit),
{
    let id = pending.debit_id;
    let whole = parked_with(s, pending);
    let moved = s.debits.contains_key(id) && s.debits[id].user_id != pending.user_id;
    let index = if moved {
        unlisted(s.index, s.debits[id].user_id, id)
    } else {
        s.index
    };
    if moved {
        lemma_unlisted(s.index, s.debits[id].user_id, id);
    }
    lemma_listed(index, pending.user_id, id);
    assert(whole.debits.contains_key(debit.debit_id) && whole.debits[debit.debit_id] == debit);
    assert(whole.index.contains_key(debit.user_id) && whole.index[debit.user_id]
        == after.index[debit.user_id]);
    if debit != pending {
        assert(listed(index, pending.user_id, id)[debit.user_id].contains(debit.debit_id));
        assert(index[debit.user_id].contains(debit.debit_id));
        assert(s.index[debit.user_id].contains(debit.debit_id));
    }
}

/// Taking a debit out brings no other debit back.
pub proof fn law_discarding_lists_no_other(s: Parked, debit_id: u128, debit: PendingDebit)
    requires
        sound(s),
        parks_listed(parked_without(s, debit_id), debit),
    ensures
        parks_listed(s, debit),
        debit.debit_id != debit_id,
{
    if s.debits.contains_key(debit_id) {
        let owner = s.debits[debit_id].user_id;
        lemma_unlisted(s.index, owner, debit_id);
        assert(unlisted(s.index, owner, debit_id)[debit.user_id].contains(debit.debit_id));
        assert(s.index[debit.user_id].contains(debit.debit_id));
    }
}

} // verus!
