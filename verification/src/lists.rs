//! Lists of ids and of terms: sequences of strings that are used as sets.
use crate::text::{contains_str, str_eq, views};
use vstd::prelude::*;

verus! {

/// The test that an element is another than `id`.
pub open spec fn other_than(id: Seq<char>) -> spec_fn(Seq<char>) -> bool {
    |d: Seq<char>| d != id
}

/// The test that `list` holds an element.
pub open spec fn held_by(list: Seq<Seq<char>>) -> spec_fn(Seq<char>) -> bool {
    |d: Seq<char>| list.contains(d)
}

/// The sequence `list` without `id`, in the same order.
pub open spec fn without(list: Seq<Seq<char>>, id: Seq<char>) -> Seq<Seq<char>> {
    list.filter(other_than(id))
}

/// The sequence `list` with `id` at its end, unless it holds `id` already.
pub open spec fn with_id(list: Seq<Seq<char>>, id: Seq<char>) -> Seq<Seq<char>> {
    if list.contains(id) {
        list
    } else {
        list.push(id)
    }
}

/// The elements of `list` that `other` holds too, in the order of `list`.
pub open spec fn common(list: Seq<Seq<char>>, other: Seq<Seq<char>>) -> Seq<Seq<char>> {
    list.filter(held_by(other))
}

/// `list`, followed by the elements of `more` that are new, each once and in
/// the order in which they first occur.
pub open spec fn merge(list: Seq<Seq<char>>, more: Seq<Seq<char>>) -> Seq<Seq<char>>
    decreases more.len(),
{
    if more.len() == 0 {
        list
    } else {
        with_id(merge(list, more.drop_last()), more.last())
    }
}

/// The distinct elements of `list`, in the order in which they first occur.
pub open spec fn distinct(list: Seq<Seq<char>>) -> Seq<Seq<char>> {
    merge(Seq::empty(), list)
}

/// What a filter leaves: the elements that pass, in their order. A list
/// without duplicates stays one.
pub proof fn lemma_filter<A>(list: Seq<A>, keep: spec_fn(A) -> bool)
    ensures
        forall|d: A| #[trigger] list.filter(keep).contains(d) <==> list.contains(d) && keep(d),
        list.no_duplicates() ==> list.filter(keep).no_duplicates(),
    decreases list.len(),
{
    reveal(Seq::filter);
    if list.len() > 0 {
        let front = list.drop_last();
        let last = list.last();
        let kept = front.filter(keep);
        lemma_filter(front, keep);
        assert(front.push(last) =~= list);
        front.lemma_filter_push(last, keep);
        assert forall|d: A| #[trigger] list.filter(keep).contains(d) <==> list.contains(d) && keep(
            d,
        ) by {
            if list.contains(d) && keep(d) {
                let j = list.index_of(d);
                if j < front.len() {
                    assert(front[j] == d);
                    assert(front.contains(d));
                    assert(kept.contains(d));
                    let k = kept.index_of(d);
                    assert(kept[k] == d);
                    if keep(last) {
                        assert(kept.push(last)[k] == d);
                    }
                } else {
                    assert(last == d);
                    assert(kept.push(last)[kept.len() as int] == d);
                }
            }
            if list.filter(keep).contains(d) {
                let k = list.filter(keep).index_of(d);
                if keep(last) && k == kept.len() {
                    assert(list[list.len() - 1] == d);
                } else {
                    assert(kept[k] == d);
                    assert(kept.contains(d));
                    let j = front.index_of(d);
                    assert(list[j] == d);
                }
            }
        }
        if list.no_duplicates() {
            assert(front.no_duplicates());
            if keep(last) {
                assert(!front.contains(last)) by {
                    if front.contains(last) {
                        let j = front.index_of(last);
                        assert(list[j] == list[list.len() - 1]);
                    }
                }
                assert(!kept.contains(last));
            }
        }
    }
}

/// What `common` gives: the elements that both lists hold.
pub proof fn lemma_common(list: Seq<Seq<char>>, other: Seq<Seq<char>>)
    ensures
        forall|d: Seq<char>| #[trigger]
            common(list, other).contains(d) <==> list.contains(d) && other.contains(d),
        list.no_duplicates() ==> common(list, other).no_duplicates(),
{
    lemma_filter(list, held_by(other));
}

/// What `without` leaves: the other elements, each as often as before. A list
/// without duplicates stays one.
pub proof fn lemma_without(list: Seq<Seq<char>>, id: Seq<char>)
    ensures
        forall|d: Seq<char>| #[trigger] without(list, id).contains(d) <==> list.contains(d) && d != id,
        list.no_duplicates() ==> without(list, id).no_duplicates(),
        !list.contains(id) ==> without(list, id) == list,
        without(list, id).len() <= list.len(),
    decreases list.len(),
{
    lemma_filter(list, other_than(id));
    list.lemma_filter_len(other_than(id));
    reveal(Seq::filter);
    if list.len() > 0 && !list.contains(id) {
        let front = list.drop_last();
        assert(!front.contains(id)) by {
            if front.contains(id) {
                let j = front.index_of(id);
                assert(list[j] == id);
            }
        }
        assert(list[list.len() - 1] != id);
        lemma_without(front, id);
        assert(front.push(list.last()) =~= list);
    }
}

/// Taking the one place of `id` out of a list without duplicates is `without`.
pub proof fn lemma_without_remove(list: Seq<Seq<char>>, at: int)
    requires
        list.no_duplicates(),
        0 <= at < list.len(),
    ensures
        without(list, list[at]) == list.remove(at),
    decreases list.len(),
{
    reveal(Seq::filter);
    let id = list[at];
    let keep = other_than(id);
    let front = list.drop_last();
    let last = list.last();
    assert(front.push(last) =~= list);
    front.lemma_filter_push(last, keep);
    if at == list.len() - 1 {
        assert(!front.contains(id)) by {
            if front.contains(id) {
                let j = front.index_of(id);
                assert(list[j] == list[at]);
            }
        }
        lemma_without(front, id);
        assert(list.remove(at) =~= front);
    } else {
        lemma_without_remove(front, at);
        assert(last != id);
        assert(list.remove(at) =~= front.remove(at).push(last));
    }
}

/// What `with_id` gives: the elements of before and `id`. A list without
/// duplicates stays one.
pub proof fn lemma_with_id(list: Seq<Seq<char>>, id: Seq<char>)
    ensures
        forall|d: Seq<char>| #[trigger] with_id(list, id).contains(d) <==> list.contains(d) || d == id,
        list.no_duplicates() ==> with_id(list, id).no_duplicates(),
        with_id(list, id).len() > 0,
        with_id(with_id(list, id), id) == with_id(list, id),
{
    if !list.contains(id) {
        let more = list.push(id);
        assert(more[list.len() as int] == id);
        assert forall|d: Seq<char>| #[trigger] more.contains(d) <==> list.contains(d) || d
            == id by {
            if list.contains(d) {
                let j = list.index_of(d);
                assert(more[j] == d);
            }
            if more.contains(d) {
                let j = more.index_of(d);
                if j < list.len() {
                    assert(list[j] == d);
                }
            }
        }
    } else {
        let j = list.index_of(id);
        assert(list[j] == id);
    }
}

/// What `merge` gives: the elements of both lists. A list without
/// duplicates stays one.
pub proof fn lemma_merge(list: Seq<Seq<char>>, more: Seq<Seq<char>>)
    ensures
        forall|d: Seq<char>| #[trigger]
            merge(list, more).contains(d) <==> list.contains(d) || more.contains(d),
        list.no_duplicates() ==> merge(list, more).no_duplicates(),
    decreases more.len(),
{
    if more.len() > 0 {
        let front = more.drop_last();
        let last = more.last();
        lemma_merge(list, front);
        lemma_with_id(merge(list, front), last);
        assert(more[more.len() - 1] == last);
        assert forall|d: Seq<char>| #[trigger]
            merge(list, more).contains(d) <==> list.contains(d) || more.contains(d) by {
            if front.contains(d) {
                let j = front.index_of(d);
                assert(more[j] == d);
            }
            if more.contains(d) && d != last {
                let j = more.index_of(d);
                assert(front[j] == d);
            }
        }
    }
}

/// Takes `id` out of a list that holds it at most once.
pub fn remove_id(list: &mut Vec<String>, id: &str)
    requires
        views(old(list)@).no_duplicates(),
    ensures
        views(final(list)@) == without(views(old(list)@), id@),
{
    let ghost before = views(list@);
    let mut i: usize = 0;
    while i < list.len()
        invariant
            i <= list@.len(),
            before == views(list@),
            before == views(old(list)@),
            before.no_duplicates(),
            forall|j: int| 0 <= j < i ==> before[j] != id@,
        decreases list@.len() - i,
    {
        if str_eq(list[i].as_str(), id) {
            list.remove(i);
            proof {
                assert(before[i as int] == id@);
                lemma_without_remove(before, i as int);
                assert(views(list@) =~= before.remove(i as int));
            }
            return ;
        }
        i = i + 1;
    }
    proof {
        lemma_without(before, id@);
    }
}

/// A copy of `list`.
pub fn copy_ids(list: &[String]) -> (copy: Vec<String>)
    ensures
        views(copy@) == views(list@),
{
    let mut copy: Vec<String> = Vec::new();
    let mut i: usize = 0;
    while i < list.len()
        invariant
            i <= list@.len(),
            copy@.len() == i,
            forall|j: int| 0 <= j < i ==> (#[trigger] copy@[j])@ == list@[j]@,
        decreases list@.len() - i,
    {
        copy.push(list[i].clone());
        i = i + 1;
    }
    assert(views(copy@) =~= views(list@));
    copy
}

/// The ids of `ids` that `other` holds too, in the order of `ids`.
pub fn intersect(ids: Vec<String>, other: &[String]) -> (kept: Vec<String>)
    ensures
        views(kept@) == common(views(ids@), views(other@)),
{
    let ghost all = views(ids@);
    let ghost also = held_by(views(other@));
    let mut kept: Vec<String> = Vec::new();
    proof {
        reveal(Seq::filter);
        assert(all.take(0) =~= Seq::<Seq<char>>::empty());
        assert(views(kept@) =~= common(all.take(0), views(other@)));
    }
    for id in it: ids
        invariant
            views(it.seq()) == all,
            also == held_by(views(other@)),
            views(kept@) == common(all.take(it.index() as int), views(other@)),
    {
        let ghost seen = all.take(it.index() as int);
        let ghost before = views(kept@);
        proof {
            assert(all[it.index() as int] == id@);
            assert(all.take(it.index() + 1) =~= seen.push(id@));
            seen.lemma_filter_push(id@, also);
        }
        if contains_str(other, id.as_str()) {
            kept.push(id);
            assert(views(kept@) =~= before.push(id@));
        }
    }
    assert(all.take(all.len() as int) =~= all);
    kept
}

/// Appends to `ids` each id of `other` that it does not hold yet.
pub fn merge_into(ids: &mut Vec<String>, other: &[String])
    ensures
        views(final(ids)@) == merge(views(old(ids)@), views(other@)),
{
    let ghost more = views(other@);
    let mut i: usize = 0;
    while i < other.len()
        invariant
            i <= other@.len(),
            more == views(other@),
            views(ids@) == merge(views(old(ids)@), more.take(i as int)),
        decreases other@.len() - i,
    {
        let ghost before = views(ids@);
        let id: &String = &other[i];
        proof {
            assert(more[i as int] == id@);
            assert(more.take(i + 1).drop_last() =~= more.take(i as int));
        }
        if !contains_str(ids.as_slice(), id.as_str()) {
            ids.push(id.clone());
            assert(views(ids@) =~= before.push(id@));
        }
        i = i + 1;
    }
    assert(more.take(more.len() as int) =~= more);
}

} // verus!
