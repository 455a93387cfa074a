//! The state of the engine as a mathematical map, what the operations of
//! the engine do to it, and what follows.
//!
//! The state maps the id of each live document to the statistics that are
//! kept of it. What a search finds is defined on this map alone, so every
//! statement about searches is a statement about maps.
use crate::document::{searchable, stats_of, DocStats, DocStatsView, Document};
use crate::engine::SearchMode;
use crate::tokenizer::analyzed;
use vstd::prelude::*;

verus! {

/// The statistics that `upsert_document` keeps of `doc`.
pub open spec fn stats_of_document(doc: Document) -> DocStatsView {
    stats_of(doc.id@, analyzed(searchable(doc.title@, doc.content@)))
}

/// The state after `doc` has been upserted: it has the statistics of `doc`
/// under its id, and of the other documents what it had.
pub open spec fn after_upsert(state: Map<Seq<char>, DocStatsView>, doc: Document) -> Map<
    Seq<char>,
    DocStatsView,
> {
    state.insert(doc.id@, stats_of_document(doc))
}

/// The state after each of `docs` has been upserted in turn.
pub open spec fn upserted(state: Map<Seq<char>, DocStatsView>, docs: Seq<Document>) -> Map<
    Seq<char>,
    DocStatsView,
>
    decreases docs.len(),
{
    if docs.len() == 0 {
        state
    } else {
        after_upsert(upserted(state, docs.drop_last()), docs.last())
    }
}

/// The number of documents at the head of `docs` that have an id.
pub open spec fn with_id_prefix(docs: Seq<Document>) -> nat
    decreases docs.len(),
{
    if docs.len() == 0 || docs[0].id@.len() == 0 {
        0
    } else {
        1 + with_id_prefix(docs.drop_first())
    }
}

/// `with_id_prefix` is the place of the first document without an id, or the
/// length where every document has one.
pub proof fn lemma_with_id_prefix(docs: Seq<Document>, n: int)
    requires
        0 <= n <= docs.len(),
        forall|i: int| 0 <= i < n ==> (#[trigger] docs[i]).id@.len() > 0,
        n < docs.len() ==> docs[n].id@.len() == 0,
    ensures
        with_id_prefix(docs) == n,
    decreases docs.len(),
{
    if n > 0 {
        let rest = docs.drop_first();
        assert forall|i: int| 0 <= i < n - 1 implies (#[trigger] rest[i]).id@.len() > 0 by {
            assert(rest[i] == docs[i + 1]);
        }
        lemma_with_id_prefix(rest, n - 1);
    }
}

/// Statistics that the engine accepts: they have an id and are consistent.
pub open spec fn acceptable(stats: DocStats) -> bool {
    stats.id@.len() > 0 && stats.consistent()
}

/// The state that a sequence of statistics stands for: each stands under
/// its id, and of two with the same id the later one.
pub open spec fn restored(stats: Seq<DocStats>) -> Map<Seq<char>, DocStatsView>
    decreases stats.len(),
{
    if stats.len() == 0 {
        Map::empty()
    } else {
        restored(stats.drop_last()).insert(stats.last().id@, stats.last()@)
    }
}

/// Whether the document `d` of `state` holds every one of `terms`.
pub open spec fn has_all(
    state: Map<Seq<char>, DocStatsView>,
    d: Seq<char>,
    terms: Seq<Seq<char>>,
) -> bool {
    forall|i: int| 0 <= i < terms.len() ==> state[d].frequencies.contains_key(#[trigger] terms[i])
}

/// Whether the document `d` of `state` holds one of `terms`.
pub open spec fn has_any(
    state: Map<Seq<char>, DocStatsView>,
    d: Seq<char>,
    terms: Seq<Seq<char>>,
) -> bool {
    exists|i: int| 0 <= i < terms.len() && state[d].frequencies.contains_key(#[trigger] terms[i])
}

/// The documents of `state` that `terms` select: with `And` those that hold
/// every term, and none where there is no term; with `Or` those that hold at
/// least one.
pub open spec fn matching(
    state: Map<Seq<char>, DocStatsView>,
    terms: Seq<Seq<char>>,
    mode: SearchMode,
) -> Set<Seq<char>> {
    match mode {
        SearchMode::And => Set::new(
            |d: Seq<char>| terms.len() > 0 && state.contains_key(d) && has_all(state, d, terms),
        ),
        SearchMode::Or => Set::new(|d: Seq<char>| state.contains_key(d) && has_any(state, d, terms)),
    }
}

/// A document holds a term when the term is among its analyzed terms.
pub proof fn lemma_stats_hold(id: Seq<char>, terms: Seq<Seq<char>>, t: Seq<char>)
    ensures
        stats_of(id, terms).frequencies.contains_key(t) <==> terms.contains(t),
{
}

/// Whether no document behind the `i`-th has its id.
pub open spec fn is_last_of_id(docs: Seq<Document>, i: int) -> bool {
    forall|j: int| i < j < docs.len() ==> (#[trigger] docs[j]).id@ != docs[i].id@
}

/// Whether one of `docs` has the id `d`.
pub open spec fn has_id(docs: Seq<Document>, d: Seq<char>) -> bool {
    exists|i: int| 0 <= i < docs.len() && (#[trigger] docs[i]).id@ == d
}

/// One more document: an id is among those of `docs` and `doc` when it is
/// among those of `docs` or is that of `doc`.
pub proof fn lemma_has_id_push(docs: Seq<Document>, doc: Document, d: Seq<char>)
    ensures
        has_id(docs.push(doc), d) <==> has_id(docs, d) || doc.id@ == d,
{
    let more = docs.push(doc);
    if has_id(docs, d) {
        let i = choose|i: int| 0 <= i < docs.len() && (#[trigger] docs[i]).id@ == d;
        assert(more[i].id@ == d);
    }
    if doc.id@ == d {
        assert(more[docs.len() as int].id@ == d);
    }
    if has_id(more, d) {
        let i = choose|i: int| 0 <= i < more.len() && (#[trigger] more[i]).id@ == d;
        if i < docs.len() {
            assert(docs[i].id@ == d);
        }
    }
}

/// After upserts the live documents are those of before and those that were
/// upserted; a document that was not upserted has the statistics of before.
pub proof fn lemma_upserted(
    state: Map<Seq<char>, DocStatsView>,
    docs: Seq<Document>,
    d: Seq<char>,
)
    ensures
        upserted(state, docs).contains_key(d) <==> state.contains_key(d) || has_id(docs, d),
        state.contains_key(d) && !has_id(docs, d) ==> upserted(state, docs)[d] == state[d],
    decreases docs.len(),
{
    if docs.len() > 0 {
        let front = docs.drop_last();
        lemma_upserted(state, front, d);
        assert(front.push(docs.last()) =~= docs);
        lemma_has_id_push(front, docs.last(), d);
    }
}

/// After upserts each upserted id has the statistics of the last document
/// that came with it.
pub proof fn lemma_upserted_last(state: Map<Seq<char>, DocStatsView>, docs: Seq<Document>, i: int)
    requires
        0 <= i < docs.len(),
        is_last_of_id(docs, i),
    ensures
        upserted(state, docs).contains_key(docs[i].id@),
        upserted(state, docs)[docs[i].id@] == stats_of_document(docs[i]),
    decreases docs.len(),
{
    let front = docs.drop_last();
    if i < front.len() {
        assert(docs[docs.len() - 1].id@ != docs[i].id@);
        assert(front[i] == docs[i]);
        assert forall|j: int| i < j < front.len() implies (#[trigger] front[j]).id@
            != front[i].id@ by {
            assert(front[j] == docs[j]);
        }
        lemma_upserted_last(state, front, i);
    }
}

/// What a conjunctive search finds among documents that were upserted into
/// an empty engine: the documents whose text yields every term of the query.
/// Of several documents with one id the last counts.
pub proof fn lemma_search_and_finds(docs: Seq<Document>, terms: Seq<Seq<char>>, d: Seq<char>)
    requires
        terms.len() > 0,
    ensures
        matching(upserted(Map::empty(), docs), terms, SearchMode::And).contains(d) <==> exists|
            i: int,
        |
            0 <= i < docs.len() && is_last_of_id(docs, i) && (#[trigger] docs[i]).id@ == d
                && forall|k: int|
                0 <= k < terms.len() ==> analyzed(
                    searchable(docs[i].title@, docs[i].content@),
                ).contains(#[trigger] terms[k]),
{
    let state = upserted(Map::empty(), docs);
    lemma_upserted(Map::empty(), docs, d);
    if state.contains_key(d) {
        let i = last_with_id(docs, d);
        lemma_last_with_id(docs, d);
        lemma_upserted_last(Map::empty(), docs, i);
        let text = analyzed(searchable(docs[i].title@, docs[i].content@));
        assert(state[d] == stats_of_document(docs[i]));
        assert forall|k: int| 0 <= k < terms.len() implies (state[d].frequencies.contains_key(
            #[trigger] terms[k],
        ) <==> text.contains(terms[k])) by {
            lemma_stats_hold(d, text, terms[k]);
        }
        if has_all(state, d, terms) {
            assert forall|k: int| 0 <= k < terms.len() implies text.contains(
                #[trigger] terms[k],
            ) by {
                assert(state[d].frequencies.contains_key(terms[k]));
            }
        }
        if exists|i: int|
            0 <= i < docs.len() && is_last_of_id(docs, i) && (#[trigger] docs[i]).id@ == d
                && forall|k: int|
                0 <= k < terms.len() ==> analyzed(
                    searchable(docs[i].title@, docs[i].content@),
                ).contains(#[trigger] terms[k]) {
            let j = choose|i: int|
                0 <= i < docs.len() && is_last_of_id(docs, i) && (#[trigger] docs[i]).id@ == d
                    && forall|k: int|
                    0 <= k < terms.len() ==> analyzed(
                        searchable(docs[i].title@, docs[i].content@),
                    ).contains(#[trigger] terms[k]);
            lemma_last_is_unique(docs, i, j);
        }
    } else {
        assert(!has_id(docs, d));
    }
}

/// What a disjunctive search finds among documents that were upserted into
/// an empty engine: the documents whose text yields at least one term of the
/// query. Of several documents with one id the last counts.
pub proof fn lemma_search_or_finds(docs: Seq<Document>, terms: Seq<Seq<char>>, d: Seq<char>)
    ensures
        matching(upserted(Map::empty(), docs), terms, SearchMode::Or).contains(d) <==> exists|
            i: int,
        |
            0 <= i < docs.len() && is_last_of_id(docs, i) && (#[trigger] docs[i]).id@ == d
                && exists|k: int|
                0 <= k < terms.len() && analyzed(
                    searchable(docs[i].title@, docs[i].content@),
                ).contains(#[trigger] terms[k]),
{
    let state = upserted(Map::empty(), docs);
    lemma_upserted(Map::empty(), docs, d);
    if state.contains_key(d) {
        let i = last_with_id(docs, d);
        lemma_last_with_id(docs, d);
        lemma_upserted_last(Map::empty(), docs, i);
        let text = analyzed(searchable(docs[i].title@, docs[i].content@));
        assert(state[d] == stats_of_document(docs[i]));
        assert forall|k: int| 0 <= k < terms.len() implies (state[d].frequencies.contains_key(
            #[trigger] terms[k],
        ) <==> text.contains(terms[k])) by {
            lemma_stats_hold(d, text, terms[k]);
        }
        if has_any(state, d, terms) {
            let k = choose|k: int|
                0 <= k < terms.len() && state[d].frequencies.contains_key(#[trigger] terms[k]);
            assert(text.contains(terms[k]));
        }
        if exists|i: int|
            0 <= i < docs.len() && is_last_of_id(docs, i) && (#[trigger] docs[i]).id@ == d
                && exists|k: int|
                0 <= k < terms.len() && analyzed(
                    searchable(docs[i].title@, docs[i].content@),
                ).contains(#[trigger] terms[k]) {
            let j = choose|i: int|
                0 <= i < docs.len() && is_last_of_id(docs, i) && (#[trigger] docs[i]).id@ == d
                    && exists|k: int|
                    0 <= k < terms.len() && analyzed(
                        searchable(docs[i].title@, docs[i].content@),
                    ).contains(#[trigger] terms[k]);
            lemma_last_is_unique(docs, i, j);
            let k = choose|k: int| 0 <= k < terms.len() && text.contains(#[trigger] terms[k]);
            assert(state[d].frequencies.contains_key(terms[k]));
        }
    } else {
        assert(!has_id(docs, d));
    }
}

/// The place of the last document with id `d`.
pub open spec fn last_with_id(docs: Seq<Document>, d: Seq<char>) -> int
    decreases docs.len(),
{
    if docs.len() == 0 {
        -1
    } else if docs.last().id@ == d {
        docs.len() - 1
    } else {
        last_with_id(docs.drop_last(), d)
    }
}

/// `last_with_id` finds the last document with the id where there is one.
pub proof fn lemma_last_with_id(docs: Seq<Document>, d: Seq<char>)
    requires
        has_id(docs, d),
    ensures
        0 <= last_with_id(docs, d) < docs.len(),
        docs[last_with_id(docs, d)].id@ == d,
        is_last_of_id(docs, last_with_id(docs, d)),
    decreases docs.len(),
{
    let i = choose|i: int| 0 <= i < docs.len() && (#[trigger] docs[i]).id@ == d;
    if docs.last().id@ != d {
        let front = docs.drop_last();
        assert(front[i].id@ == d);
        lemma_last_with_id(front, d);
        let at = last_with_id(front, d);
        assert(front[at] == docs[at]);
        assert forall|j: int| at < j < docs.len() implies (#[trigger] docs[j]).id@
            != docs[at].id@ by {
            if j < front.len() {
                assert(front[j] == docs[j]);
            }
        }
    }
}

/// Two places that are each the last of one id are one place.
pub proof fn lemma_last_is_unique(docs: Seq<Document>, i: int, j: int)
    requires
        0 <= i < docs.len(),
        0 <= j < docs.len(),
        docs[i].id@ == docs[j].id@,
        is_last_of_id(docs, i),
        is_last_of_id(docs, j),
    ensures
        i == j,
{
    if i < j {
        assert(docs[j].id@ != docs[i].id@);
    }
    if j < i {
        assert(docs[i].id@ != docs[j].id@);
    }
}

/// An upsert that is repeated changes nothing: the same documents are live,
/// and every search finds what it found after the first.
pub proof fn lemma_upsert_twice(state: Map<Seq<char>, DocStatsView>, doc: Document)
    ensures
        after_upsert(after_upsert(state, doc), doc) == after_upsert(state, doc),
        after_upsert(after_upsert(state, doc), doc).dom() == after_upsert(state, doc).dom(),
        forall|terms: Seq<Seq<char>>, mode: SearchMode| #[trigger]
            matching(after_upsert(after_upsert(state, doc), doc), terms, mode) == matching(
                after_upsert(state, doc),
                terms,
                mode,
            ),
{
    assert(after_upsert(after_upsert(state, doc), doc) =~= after_upsert(state, doc));
}

/// A document that is upserted and then deleted is gone: no search finds
/// it, and where it was new the state is that of before.
pub proof fn lemma_upsert_then_delete(state: Map<Seq<char>, DocStatsView>, doc: Document)
    ensures
        after_upsert(state, doc).remove(doc.id@) == state.remove(doc.id@),
        !state.contains_key(doc.id@) ==> after_upsert(state, doc).remove(doc.id@) == state,
        !state.contains_key(doc.id@) ==> after_upsert(state, doc).remove(doc.id@).dom()
            == state.dom(),
        forall|terms: Seq<Seq<char>>, mode: SearchMode|
            !(#[trigger] matching(after_upsert(state, doc).remove(doc.id@), terms, mode)).contains(
                doc.id@,
            ),
{
    assert(after_upsert(state, doc).remove(doc.id@) =~= state.remove(doc.id@));
    if !state.contains_key(doc.id@) {
        assert(state.remove(doc.id@) =~= state);
    }
}

/// Whether one of `stats` has the id `d`.
pub open spec fn names(stats: Seq<DocStats>, d: Seq<char>) -> bool {
    exists|i: int| 0 <= i < stats.len() && (#[trigger] stats[i]).id@ == d
}

/// Statistics that hold, for each document of `state` and for no other, what
/// `state` holds of it, stand for `state`, in whatever order they come.
pub proof fn lemma_restored(stats: Seq<DocStats>, state: Map<Seq<char>, DocStatsView>)
    requires
        forall|i: int|
            0 <= i < stats.len() ==> state.contains_key((#[trigger] stats[i]).id@)
                && state[stats[i].id@] == stats[i]@,
        forall|d: Seq<char>| #[trigger] state.contains_key(d) ==> names(stats, d),
    ensures
        restored(stats) == state,
{
    assert forall|d: Seq<char>| restored(stats).contains_key(d) <==> state.contains_key(d) by {
        lemma_restored_part(stats, state, d);
        if names(stats, d) {
            let i = choose|i: int| 0 <= i < stats.len() && (#[trigger] stats[i]).id@ == d;
            assert(state.contains_key(stats[i].id@));
        }
    }
    assert forall|d: Seq<char>| restored(stats).contains_key(d) implies #[trigger] restored(
        stats,
    )[d] == state[d] by {
        lemma_restored_part(stats, state, d);
    }
    assert(restored(stats) =~= state);
}

/// What `restored` holds: the ids of the statistics, each with what `state`
/// holds of it.
pub proof fn lemma_restored_part(
    stats: Seq<DocStats>,
    state: Map<Seq<char>, DocStatsView>,
    d: Seq<char>,
)
    requires
        forall|i: int|
            0 <= i < stats.len() ==> state.contains_key((#[trigger] stats[i]).id@)
                && state[stats[i].id@] == stats[i]@,
    ensures
        restored(stats).contains_key(d) <==> names(stats, d),
        restored(stats).contains_key(d) ==> restored(stats)[d] == state[d],
    decreases stats.len(),
{
    if stats.len() > 0 {
        let front = stats.drop_last();
        let last = stats.last();
        assert forall|i: int| 0 <= i < front.len() implies state.contains_key(
            (#[trigger] front[i]).id@,
        ) && state[front[i].id@] == front[i]@ by {
            assert(front[i] == stats[i]);
        }
        lemma_restored_part(front, state, d);
        assert(stats[stats.len() - 1] == last);
        if names(front, d) {
            let i = choose|i: int| 0 <= i < front.len() && (#[trigger] front[i]).id@ == d;
            assert(stats[i].id@ == d);
        }
        if names(stats, d) {
            let i = choose|i: int| 0 <= i < stats.len() && (#[trigger] stats[i]).id@ == d;
            if i < front.len() {
                assert(front[i].id@ == d);
            }
        }
    }
}

} // verus!
