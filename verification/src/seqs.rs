//! Facts about sequences.

use vstd::prelude::*;

verus! {

/// A filtered sequence holds what the sequence holds and the filter lets through.
pub proof fn lemma_filter_holds<A>(s: Seq<A>, keep: spec_fn(A) -> bool, x: A)
    ensures
        s.filter(keep).contains(x) <==> s.contains(x) && keep(x),
{
    if s.filter(keep).contains(x) {
        s.lemma_filter_contains_rev(keep, x);
        let i = choose|i: int| 0 <= i < s.filter(keep).len() && s.filter(keep)[i] == x;
        s.lemma_filter_pred(keep, i);
    }
    if s.contains(x) && keep(x) {
        let i = choose|i: int| 0 <= i < s.len() && s[i] == x;
        s.lemma_filter_contains(keep, i);
    }
}

/// A filter makes no duplicates.
pub proof fn lemma_filter_no_duplicates<A>(s: Seq<A>, keep: spec_fn(A) -> bool)
    requires
        s.no_duplicates(),
    ensures
        s.filter(keep).no_duplicates(),
    decreases s.len(),
{
    reveal(Seq::filter);
    if s.len() > 0 {
        let rest = s.drop_last();
        lemma_filter_no_duplicates(rest, keep);
        lemma_filter_holds(rest, keep, s.last());
        if rest.contains(s.last()) {
            let i = choose|i: int| 0 <= i < rest.len() && rest[i] == s.last();
            assert(s[i] == s[s.len() - 1]);
        }
        assert forall|i: int, j: int|
            0 <= i < s.filter(keep).len() && 0 <= j < s.filter(keep).len() && i
                != j implies s.filter(keep)[i] != s.filter(keep)[j] by {
            let kept = rest.filter(keep);
            if i < kept.len() {
                assert(kept.contains(kept[i]));
            }
            if j < kept.len() {
                assert(kept.contains(kept[j]));
            }
        }
    }
}

/// A filter that lets everything through changes nothing.
pub proof fn lemma_filter_all<A>(s: Seq<A>, keep: spec_fn(A) -> bool)
    requires
        forall|i: int| 0 <= i < s.len() ==> keep(#[trigger] s[i]),
    ensures
        s.filter(keep) == s,
    decreases s.len(),
{
    reveal(Seq::filter);
    if s.len() > 0 {
        lemma_filter_all(s.drop_last(), keep);
        assert(s.filter(keep) =~= s);
    } else {
        assert(s.filter(keep) =~= s);
    }
}

/// What a filter makes of one more item, and that it is the beginning of what it makes of all.
pub proof fn lemma_filter_next<A>(s: Seq<A>, keep: spec_fn(A) -> bool, i: int)
    requires
        0 <= i < s.len(),
    ensures
        s.take(i + 1).filter(keep) == if keep(s[i]) {
            s.take(i).filter(keep).push(s[i])
        } else {
            s.take(i).filter(keep)
        },
        s.take(i + 1).filter(keep).len() <= s.filter(keep).len(),
        s.filter(keep).take(s.take(i + 1).filter(keep).len() as int) == s.take(i + 1).filter(keep),
        keep(s[i]) ==> s.take(i + 1).filter(keep).drop_last() == s.take(i).filter(keep),
{
    assert(s.take(i + 1) =~= s.take(i).push(s[i]));
    s.take(i).lemma_filter_push(s[i], keep);
    if keep(s[i]) {
        assert(s.take(i).filter(keep).push(s[i]).drop_last() =~= s.take(i).filter(keep));
    }
    let (read, rest) = (s.take(i + 1), s.skip(i + 1));
    assert(s =~= read + rest);
    Seq::filter_distributes_over_add(read, rest, keep);
    assert((read.filter(keep) + rest.filter(keep)).take(read.filter(keep).len() as int)
        =~= read.filter(keep));
}

} // verus!
