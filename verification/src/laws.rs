//! What holds of the index whatever is done with it.

use crate::index::{
    contains_token, distinct_tokens, document_id, lemma_levenshtein_bound, lemma_purged_sources,
    lemma_with_body_wf, lemma_with_document_wf, lemma_with_posting_distinct,
    lemma_with_postings_wf, lemma_without_document_wf, lemma_without_iid, posting_wf, postings_of,
    purged, score_of, token_index, upper_hits, weight_of, with_posting, with_postings, without_iid,
    DocumentView, EntryView, Hit, IndexView, Posting, GRAM_WEIGHT, WORD_WEIGHT,
};
use crate::json::{Json, JsonValue};
use crate::filter::FilterTree;
use crate::pipeline::{arranged, ids_at, kept_places, page_places, passes, SearchOptions};
use crate::rank::{
    lemma_above_half_of_equals, lemma_outranks_asymmetric, lemma_outranks_transitive,
};
use crate::sort::{
    key_order, lemma_first_is_foremost, lemma_sorted_by_is_sorted, lemma_sorted_places,
    sorted_order,
};
use crate::text::{leading_whitespace, trimmed};
use vstd::prelude::*;

verus! {

/// A well-formed index holds as many documents as external ids, every
/// posting is of a stored document, and no token has an empty list.
pub proof fn lemma_index_invariants(v: IndexView)
    requires
        v.wf(),
    ensures
        v.items().dom().finite(),
        v.id_map().dom().finite(),
        v.items().dom().len() == v.documents.len(),
        v.id_map().dom().len() == v.documents.len(),
        v.items().dom().len() == v.id_map().dom().len(),
        forall|id: Seq<char>|
            v.id_map().dom().contains(id) ==> v.items().dom().contains(#[trigger] v.id_map()[id]),
        forall|iid: u32|
            v.items().dom().contains(iid) ==> exists|id: Seq<char>|
                v.id_map().dom().contains(id) && #[trigger] v.id_map()[id] == iid,
        forall|token: Seq<char>|
            v.postings().dom().contains(token) ==> (#[trigger] v.postings()[token]).len() > 0,
        forall|token: Seq<char>, m: int|
            v.postings().dom().contains(token) && 0 <= m < v.postings()[token].len()
                ==> v.items().dom().contains((#[trigger] v.postings()[token][m]).iid),
{
    let iids = v.documents.map_values(|d: DocumentView| d.iid);
    let ids = v.documents.map_values(|d: DocumentView| d.id);
    assert(iids.no_duplicates()) by {
        assert forall|i: int, j: int| 0 <= i < iids.len() && 0 <= j < iids.len() && i != j implies iids[i]
            != iids[j] by {
            if i < j {
                assert(v.documents[i].iid < v.documents[j].iid);
            } else {
                assert(v.documents[j].iid < v.documents[i].iid);
            }
        }
    }
    assert(ids.no_duplicates()) by {
        assert forall|i: int, j: int| 0 <= i < ids.len() && 0 <= j < ids.len() && i != j implies ids[i]
            != ids[j] by {
            assert(v.documents[i].id != v.documents[j].id);
        }
    }
    assert(v.items().dom() =~= iids.to_set()) by {
        assert forall|iid: u32| v.items().dom().contains(iid) <==> iids.to_set().contains(iid) by {
            if v.has_iid(iid) {
                let i = v.position_of_iid(iid);
                assert(v.documents[i].iid == iid);
                assert(iids[i] == iid);
            }
            if iids.contains(iid) {
                let i = choose|i: int| 0 <= i < iids.len() && iids[i] == iid;
                assert(v.documents[i].iid == iid);
            }
        }
    }
    assert(v.id_map().dom() =~= ids.to_set()) by {
        assert forall|id: Seq<char>| v.id_map().dom().contains(id) <==> ids.to_set().contains(
            id,
        ) by {
            if v.has_id(id) {
                let i = v.position_of_id(id);
                assert(v.documents[i].id == id);
                assert(ids[i] == id);
            }
            if ids.contains(id) {
                let i = choose|i: int| 0 <= i < ids.len() && ids[i] == id;
                assert(v.documents[i].id == id);
            }
        }
    }
    iids.unique_seq_to_set();
    ids.unique_seq_to_set();
    vstd::seq_lib::seq_to_set_is_finite(iids);
    vstd::seq_lib::seq_to_set_is_finite(ids);
    assert forall|id: Seq<char>| v.id_map().dom().contains(id) implies v.items().dom().contains(
        #[trigger] v.id_map()[id],
    ) by {
        let i = v.position_of_id(id);
        assert(v.documents[i].id == id);
    }
    assert forall|iid: u32| v.items().dom().contains(iid) implies exists|id: Seq<char>|
        v.id_map().dom().contains(id) && #[trigger] v.id_map()[id] == iid by {
        let i = v.position_of_iid(iid);
        assert(v.documents[i].iid == iid);
        let id = v.documents[i].id;
        let j = v.position_of_id(id);
        assert(v.documents[j].id == id);
        assert(i == j);
        assert(v.id_map().dom().contains(id) && v.id_map()[id] == iid);
    }
    assert forall|token: Seq<char>| v.postings().dom().contains(token) implies (
    #[trigger] v.postings()[token]).len() > 0 by {
        let k = token_index(v.entries, token);
        assert(v.entries[k].token == token);
    }
    assert forall|token: Seq<char>, m: int|
        v.postings().dom().contains(token) && 0 <= m < v.postings()[token].len()
            implies v.items().dom().contains((#[trigger] v.postings()[token][m]).iid) by {
        let k = token_index(v.entries, token);
        assert(v.entries[k].token == token);
        assert(posting_wf(v.entries[k].postings[m], v.documents));
    }
}

/// Adding a document keeps the index well formed.
pub proof fn lemma_add_keeps_invariants(
    v: IndexView,
    obj: JsonValue,
    raw: Seq<char>,
    fields: Seq<Seq<char>>,
)
    requires
        v.wf(),
        v.add_error(obj) is None,
    ensures
        v.with_object(obj, raw, fields).wf(),
{
    let id = document_id(obj)->0;
    let stored = v.with_document(id, raw);
    lemma_with_document_wf(v, id, raw);
    lemma_tokens_keep_invariants(
        stored,
        v.id_counter,
        crate::lp::spec_gramify(trimmed(crate::index::extracted(obj, fields))),
        crate::lp::spec_clean_words(trimmed(crate::index::extracted(obj, fields))),
    );
}

/// Registering tokens for a stored document keeps the index well formed.
pub proof fn lemma_tokens_keep_invariants(
    v: IndexView,
    iid: u32,
    grams: Seq<Seq<char>>,
    words: Seq<Seq<char>>,
)
    requires
        v.wf(),
        v.has_iid(iid),
    ensures
        v.with_tokens(iid, grams, words).wf(),
{
    lemma_with_postings_wf(v.entries, v.documents, grams, iid, GRAM_WEIGHT);
    lemma_with_postings_wf(
        with_postings(v.entries, grams, iid, GRAM_WEIGHT),
        v.documents,
        words,
        iid,
        WORD_WEIGHT,
    );
}

/// Replacing a document keeps the index well formed.
pub proof fn lemma_update_keeps_invariants(
    v: IndexView,
    obj: JsonValue,
    raw: Seq<char>,
    fields: Seq<Seq<char>>,
)
    requires
        v.wf(),
        v.update_error(obj) is None,
    ensures
        v.with_update(obj, raw, fields).wf(),
{
    let id = document_id(obj)->0;
    let position = v.position_of_id(id);
    assert(v.documents[position].id == id);
    lemma_with_body_wf(v, position, raw);
    lemma_tokens_keep_invariants(
        v.with_body(position, raw),
        v.documents[position].iid,
        crate::lp::spec_gramify(trimmed(crate::index::extracted(obj, fields))),
        crate::lp::spec_clean_words(trimmed(crate::index::extracted(obj, fields))),
    );
}

/// Removing a document keeps the index well formed.
pub proof fn lemma_remove_keeps_invariants(v: IndexView, id: Seq<char>)
    requires
        v.wf(),
    ensures
        v.without_id(id).wf(),
{
    if v.has_id(id) {
        let position = v.position_of_id(id);
        assert(v.documents[position].id == id);
        lemma_without_document_wf(v, position);
    }
}

/// A purge does not see the postings of the purged document: an entry whose
/// list differs only in them purges to the same.
proof fn lemma_purged_update(entries: Seq<EntryView>, k: int, changed: EntryView, iid: u32)
    requires
        0 <= k < entries.len(),
        changed.token == entries[k].token,
        without_iid(changed.postings, iid) == without_iid(entries[k].postings, iid),
    ensures
        purged(entries.update(k, changed), iid) == purged(entries, iid),
    decreases entries.len(),
{
    let after = entries.update(k, changed);
    if k == entries.len() - 1 {
        assert(after.drop_last() =~= entries.drop_last());
    } else {
        assert(after.drop_last() =~= entries.drop_last().update(k, changed));
        assert(after.last() == entries.last());
        lemma_purged_update(entries.drop_last(), k, changed, iid);
    }
}

/// A posting of `iid` is gone after a purge of `iid`, whatever came before.
proof fn lemma_purged_posting(entries: Seq<EntryView>, token: Seq<char>, p: Posting)
    ensures
        purged(with_posting(entries, token, p), p.iid) == purged(entries, p.iid),
{
    let iid = p.iid;
    if contains_token(entries, token) {
        let k = token_index(entries, token);
        assert(entries[k].token == token);
        let list = entries[k].postings.push(p);
        assert(list.drop_last() =~= entries[k].postings);
        lemma_purged_update(entries, k, EntryView { token, postings: list }, iid);
    } else {
        let entry = EntryView { token, postings: seq![p] };
        let after = entries.push(entry);
        assert(after.drop_last() =~= entries);
        assert(seq![p].drop_last() =~= Seq::<Posting>::empty());
        assert(without_iid(Seq::<Posting>::empty(), iid).len() == 0);
        assert(seq![p].last() == p);
        assert(without_iid(seq![p], iid).len() == 0);
        assert(after.last() == entry);
    }
}

/// The same for any number of postings of `iid`.
proof fn lemma_purged_postings(entries: Seq<EntryView>, tokens: Seq<Seq<char>>, iid: u32, weight: u8)
    ensures
        purged(with_postings(entries, tokens, iid, weight), iid) == purged(entries, iid),
    decreases tokens.len(),
{
    if tokens.len() > 0 {
        lemma_purged_postings(entries, tokens.drop_last(), iid, weight);
        lemma_purged_posting(
            with_postings(entries, tokens.drop_last(), iid, weight),
            tokens.last(),
            Posting { iid, weight },
        );
    }
}

/// A purge of a document that has no posting changes nothing where no list
/// is empty.
proof fn lemma_purged_nothing(entries: Seq<EntryView>, iid: u32)
    requires
        forall|k: int| 0 <= k < entries.len() ==> (#[trigger] entries[k]).postings.len() > 0,
        forall|k: int, m: int|
            0 <= k < entries.len() && 0 <= m < entries[k].postings.len() ==> (
            #[trigger] entries[k].postings[m]).iid != iid,
    ensures
        purged(entries, iid) == entries,
    decreases entries.len(),
{
    if entries.len() > 0 {
        let front = entries.drop_last();
        assert forall|k: int| 0 <= k < front.len() implies (#[trigger] front[k]).postings.len()
            > 0 by {
            assert(front[k] == entries[k]);
        }
        assert forall|k: int, m: int|
            0 <= k < front.len() && 0 <= m < front[k].postings.len() implies (
        #[trigger] front[k].postings[m]).iid != iid by {
            assert(front[k] == entries[k]);
            assert(entries[k].postings[m].iid != iid);
        }
        lemma_purged_nothing(front, iid);
        let last = entries.last();
        assert(last == entries[entries.len() - 1]);
        assert forall|m: int| 0 <= m < last.postings.len() implies (#[trigger] last.postings[m]).iid
            != iid by {
            assert(entries[entries.len() - 1].postings[m].iid != iid);
        }
        lemma_without_iid(last.postings, iid);
        assert(purged(entries, iid) =~= entries);
    } else {
        assert(purged(entries, iid) =~= entries);
    }
}

/// Adding a document and then removing it leaves the documents and the
/// posting lists as they were before: as many documents, as many tokens, and
/// the same of each.
pub proof fn lemma_add_then_remove(
    v: IndexView,
    obj: JsonValue,
    raw: Seq<char>,
    fields: Seq<Seq<char>>,
)
    requires
        v.wf(),
        v.add_error(obj) is None,
    ensures
        v.with_object(obj, raw, fields).has_id(document_id(obj)->0),
        v.with_object(obj, raw, fields).without_id(document_id(obj)->0).documents == v.documents,
        v.with_object(obj, raw, fields).without_id(document_id(obj)->0).entries == v.entries,
        v.with_object(obj, raw, fields).without_id(document_id(obj)->0).items() == v.items(),
        v.with_object(obj, raw, fields).without_id(document_id(obj)->0).postings() == v.postings(),
{
    let id = document_id(obj)->0;
    let iid = v.id_counter;
    let added = v.with_object(obj, raw, fields);
    let text = trimmed(crate::index::extracted(obj, fields));
    let grams = crate::lp::spec_gramify(text);
    let words = crate::lp::spec_clean_words(text);
    lemma_add_keeps_invariants(v, obj, raw, fields);
    let last = v.documents.len() as int;
    assert(added.documents[last].id == id);
    let position = added.position_of_id(id);
    assert(added.documents[position].id == id);
    assert(position == last);
    let after = added.without_id(id);
    assert(after.documents =~= v.documents);
    lemma_purged_postings(with_postings(v.entries, grams, iid, GRAM_WEIGHT), words, iid, WORD_WEIGHT);
    lemma_purged_postings(v.entries, grams, iid, GRAM_WEIGHT);
    assert forall|k: int, m: int|
        0 <= k < v.entries.len() && 0 <= m < v.entries[k].postings.len() implies (
    #[trigger] v.entries[k].postings[m]).iid != iid by {
        let p = v.entries[k].postings[m];
        assert(posting_wf(p, v.documents));
        let i = choose|i: int| 0 <= i < v.documents.len() && (#[trigger] v.documents[i]).iid == p.iid;
        assert(v.documents[i].iid < v.id_counter);
    }
    lemma_purged_nothing(v.entries, iid);
    assert(after.entries == v.entries);
    assert(after.items() =~= v.items());
    assert(after.postings() =~= v.postings());
}

/// A search for the empty query, or for one of whitespace alone, gives every
/// stored document once: the result has a place for each document, and the
/// document's serialized form stands there.
pub proof fn lemma_empty_query(v: IndexView, query: Seq<char>)
    requires
        trimmed(query).len() == 0,
    ensures
        v.search_result(trimmed(query)).len() == v.documents.len(),
        forall|i: int|
            0 <= i < v.documents.len() ==> (#[trigger] v.search_result(trimmed(query))[i])
                == v.documents[i].body,
{
}

/// The empty text trims to the empty text.
pub proof fn lemma_trimmed_empty()
    ensures
        trimmed(Seq::<char>::empty()).len() == 0,
{
    assert(leading_whitespace(Seq::<char>::empty()) == 0);
}

/// A shuffle depends on the places and the seed text alone: options with the
/// same seed text arrange the same places in the same way, whatever the
/// documents and the other options are.
pub proof fn lemma_shuffle_repeats(
    first_items: Seq<Json>,
    second_items: Seq<Json>,
    places: Seq<usize>,
    first: SearchOptions,
    second: SearchOptions,
)
    requires
        first.sort_by is Some,
        second.sort_by is Some,
        first.sort_by->0@ == "$shuffle"@,
        second.sort_by->0@ == "$shuffle"@,
        first.seed_text() == second.seed_text(),
    ensures
        arranged(first_items, places, first) == arranged(second_items, places, second),
{
}

/// The entries behave as a map from tokens to lists: one more posting for a
/// token lengthens the list of that token and leaves every other list alone.
pub proof fn lemma_postings_of_with_posting(
    entries: Seq<EntryView>,
    token: Seq<char>,
    p: Posting,
    other: Seq<char>,
)
    requires
        distinct_tokens(entries),
    ensures
        postings_of(with_posting(entries, token, p), other) == (if other == token {
            postings_of(entries, token).push(p)
        } else {
            postings_of(entries, other)
        }),
        contains_token(with_posting(entries, token, p), other) == (other == token || contains_token(
            entries,
            other,
        )),
{
    let after = with_posting(entries, token, p);
    lemma_with_posting_distinct(entries, token, p);
    if contains_token(entries, token) {
        let k = token_index(entries, token);
        assert(entries[k].token == token);
        assert(after[k].token == token);
        assert forall|i: int| 0 <= i < after.len() implies (#[trigger] after[i]).token
            == entries[i].token by {}
        if other == token {
            let k2 = token_index(after, token);
            assert(after[k2].token == token);
            assert(k2 == k);
        } else {
            if contains_token(entries, other) {
                let j = token_index(entries, other);
                assert(entries[j].token == other);
                assert(after[j].token == other);
                let j2 = token_index(after, other);
                assert(after[j2].token == other);
                assert(entries[j2].token == other);
                assert(j2 == j);
                assert(j != k);
            }
            if contains_token(after, other) {
                let j2 = token_index(after, other);
                assert(after[j2].token == other);
                assert(entries[j2].token == other);
            }
        }
    } else {
        let last = entries.len() as int;
        assert(after[last].token == token);
        assert forall|i: int| 0 <= i < entries.len() implies (#[trigger] after[i])
            == entries[i] by {}
        if other == token {
            let k2 = token_index(after, token);
            assert(after[k2].token == token);
            if k2 < last {
                assert(entries[k2].token == token);
            }
            assert(k2 == last);
            assert(seq![p] =~= Seq::<Posting>::empty().push(p));
        } else {
            if contains_token(entries, other) {
                let j = token_index(entries, other);
                assert(entries[j].token == other);
                assert(after[j].token == other);
                let j2 = token_index(after, other);
                assert(after[j2].token == other);
                assert(j2 == j);
            }
            if contains_token(after, other) {
                let j2 = token_index(after, other);
                assert(after[j2].token == other);
                assert(j2 < last);
                assert(entries[j2].token == other);
            }
        }
    }
}

/// How often `token` occurs among `tokens`.
pub open spec fn occurrences(tokens: Seq<Seq<char>>, token: Seq<char>) -> nat
    decreases tokens.len(),
{
    if tokens.len() == 0 {
        0
    } else {
        occurrences(tokens.drop_last(), token) + (if tokens.last() == token {
            1nat
        } else {
            0nat
        })
    }
}

/// Postings for any tokens give no token a second entry.
pub proof fn lemma_with_postings_distinct(
    entries: Seq<EntryView>,
    tokens: Seq<Seq<char>>,
    iid: u32,
    weight: u8,
)
    requires
        distinct_tokens(entries),
    ensures
        distinct_tokens(with_postings(entries, tokens, iid, weight)),
    decreases tokens.len(),
{
    if tokens.len() > 0 {
        lemma_with_postings_distinct(entries, tokens.drop_last(), iid, weight);
        lemma_with_posting_distinct(
            with_postings(entries, tokens.drop_last(), iid, weight),
            tokens.last(),
            Posting { iid, weight },
        );
    }
}

/// What a token weighs for a document after postings of `iid` were
/// registered: what it weighed before, and for `iid` the weight once more
/// for each time the token is among the registered ones.
pub proof fn lemma_weight_with_postings(
    entries: Seq<EntryView>,
    tokens: Seq<Seq<char>>,
    iid: u32,
    weight: u8,
    token: Seq<char>,
    of: u32,
)
    requires
        distinct_tokens(entries),
    ensures
        weight_of(postings_of(with_postings(entries, tokens, iid, weight), token), of) == weight_of(
            postings_of(entries, token),
            of,
        ) + (if of == iid {
            weight * occurrences(tokens, token)
        } else {
            0
        }),
    decreases tokens.len(),
{
    if tokens.len() > 0 {
        let front = tokens.drop_last();
        let before = with_postings(entries, front, iid, weight);
        let p = Posting { iid, weight };
        lemma_weight_with_postings(entries, front, iid, weight, token, of);
        lemma_with_postings_distinct(entries, front, iid, weight);
        lemma_postings_of_with_posting(before, tokens.last(), p, token);
        let n = occurrences(front, token);
        if tokens.last() == token {
            let list = postings_of(before, token);
            assert(list.push(p).drop_last() =~= list);
            assert(list.push(p).last() == p);
            assert(weight_of(list.push(p), of) == weight_of(list, of) + (if of == iid {
                weight as nat
            } else {
                0nat
            }));
            assert(occurrences(tokens, token) == n + 1);
            assert(weight * (n + 1) == weight * n + weight) by (nonlinear_arith);
        } else {
            assert(occurrences(tokens, token) == n);
        }
    } else {
        assert(occurrences(tokens, token) == 0);
        assert(weight * 0 == 0);
    }
}

/// A list without postings of a document weighs nothing for it.
pub proof fn lemma_weight_of_none(postings: Seq<Posting>, of: u32)
    requires
        forall|m: int| 0 <= m < postings.len() ==> (#[trigger] postings[m]).iid != of,
    ensures
        weight_of(postings, of) == 0,
    decreases postings.len(),
{
    if postings.len() > 0 {
        let front = postings.drop_last();
        assert forall|m: int| 0 <= m < front.len() implies (#[trigger] front[m]).iid != of by {
            assert(front[m] == postings[m]);
        }
        lemma_weight_of_none(front, of);
        assert(postings.last() == postings[postings.len() - 1]);
    }
}

/// The entries after the tokens of a text were registered for `iid`.
pub open spec fn registered(
    entries: Seq<EntryView>,
    iid: u32,
    grams: Seq<Seq<char>>,
    words: Seq<Seq<char>>,
) -> Seq<EntryView> {
    with_postings(with_postings(entries, grams, iid, GRAM_WEIGHT), words, iid, WORD_WEIGHT)
}

/// Whether no posting of the entries is of `iid`.
pub open spec fn unknown_to(entries: Seq<EntryView>, iid: u32) -> bool {
    forall|k: int, m: int|
        0 <= k < entries.len() && 0 <= m < entries[k].postings.len() ==> (
        #[trigger] entries[k].postings[m]).iid != iid
}

/// The same text registered for one fresh internal id or for another gives
/// the two documents the same score, and every other document the same
/// score in both cases.
pub proof fn lemma_scores_agree(
    entries: Seq<EntryView>,
    first: u32,
    second: u32,
    grams: Seq<Seq<char>>,
    words: Seq<Seq<char>>,
    tokens: Seq<Seq<char>>,
    of: u32,
)
    requires
        distinct_tokens(entries),
        unknown_to(entries, first),
        unknown_to(entries, second),
    ensures
        score_of(registered(entries, first, grams, words), tokens, first) == score_of(
            registered(entries, second, grams, words),
            tokens,
            second,
        ),
        of != first && of != second ==> score_of(
            registered(entries, first, grams, words),
            tokens,
            of,
        ) == score_of(registered(entries, second, grams, words), tokens, of),
    decreases tokens.len(),
{
    if tokens.len() > 0 {
        lemma_scores_agree(entries, first, second, grams, words, tokens.drop_last(), of);
        let token = tokens.last();
        let held = postings_of(entries, token);
        assert forall|m: int| 0 <= m < held.len() implies (#[trigger] held[m]).iid != first
            && held[m].iid != second by {
            let k = token_index(entries, token);
            assert(entries[k].token == token);
            assert(entries[k].postings[m].iid != first);
            assert(entries[k].postings[m].iid != second);
        }
        lemma_weight_of_none(held, first);
        lemma_weight_of_none(held, second);
        let mid_first = with_postings(entries, grams, first, GRAM_WEIGHT);
        let mid_second = with_postings(entries, grams, second, GRAM_WEIGHT);
        lemma_with_postings_distinct(entries, grams, first, GRAM_WEIGHT);
        lemma_with_postings_distinct(entries, grams, second, GRAM_WEIGHT);
        lemma_weight_with_postings(entries, grams, first, GRAM_WEIGHT, token, first);
        lemma_weight_with_postings(entries, grams, second, GRAM_WEIGHT, token, second);
        lemma_weight_with_postings(mid_first, words, first, WORD_WEIGHT, token, first);
        lemma_weight_with_postings(mid_second, words, second, WORD_WEIGHT, token, second);
        lemma_weight_with_postings(entries, grams, first, GRAM_WEIGHT, token, of);
        lemma_weight_with_postings(entries, grams, second, GRAM_WEIGHT, token, of);
        lemma_weight_with_postings(mid_first, words, first, WORD_WEIGHT, token, of);
        lemma_weight_with_postings(mid_second, words, second, WORD_WEIGHT, token, of);
    }
}

/// The reached places are places of documents with a positive score, they
/// grow along the list, and no such place is missing.
pub proof fn lemma_reached(v: IndexView, tokens: Seq<Seq<char>>, n: nat)
    requires
        n <= v.documents.len(),
        n <= usize::MAX,
    ensures
        v.reached(tokens, n).len() <= n,
        forall|k: int|
            0 <= k < v.reached(tokens, n).len() ==> (#[trigger] v.reached(tokens, n)[k]) < n
                && score_of(v.entries, tokens, v.documents[v.reached(tokens, n)[k] as int].iid) > 0,
        forall|k: int, l: int|
            0 <= k < l < v.reached(tokens, n).len() ==> (#[trigger] v.reached(tokens, n)[k]) < (
            #[trigger] v.reached(tokens, n)[l]),
        forall|j: int|
            0 <= j < n && score_of(v.entries, tokens, (#[trigger] v.documents[j]).iid) > 0
                ==> v.reached(tokens, n).contains(j as usize),
    decreases n,
{
    if n > 0 {
        let earlier = v.reached(tokens, (n - 1) as nat);
        let now = v.reached(tokens, n);
        lemma_reached(v, tokens, (n - 1) as nat);
        assert forall|k: int| 0 <= k < now.len() implies (#[trigger] now[k]) < n && score_of(
            v.entries,
            tokens,
            v.documents[now[k] as int].iid,
        ) > 0 by {
            if k < earlier.len() {
                assert(now[k] == earlier[k]);
            }
        }
        assert forall|k: int, l: int| 0 <= k < l < now.len() implies (#[trigger] now[k]) < (
        #[trigger] now[l]) by {
            assert(now[k] == earlier[k]);
            if l < earlier.len() {
                assert(now[l] == earlier[l]);
            }
        }
        assert forall|j: int|
            0 <= j < n && score_of(v.entries, tokens, (#[trigger] v.documents[j]).iid)
                > 0 implies now.contains(j as usize) by {
            if j < n - 1 {
                assert(earlier.contains(j as usize));
                let k = choose|k: int| 0 <= k < earlier.len() && earlier[k] == j as usize;
                assert(now[k] == j as usize);
            } else {
                assert(now[now.len() - 1] == j as usize);
            }
        }
    }
}

/// With a query of at least one character, and lengths that a machine
/// holds, every rank is well formed.
pub proof fn lemma_rank_wf(v: IndexView, query: Seq<char>, tokens: Seq<Seq<char>>, position: int)
    requires
        v.fits(query),
        query.len() > 0,
        0 <= position < v.documents.len(),
    ensures
        v.rank_of(query, tokens, position).wf(),
{
    lemma_levenshtein_bound(query, v.documents[position].body);
}

/// The ranked list holds every document with a positive score once, with
/// its rank, and no rank in it is greater than the first.
pub proof fn lemma_ranked(v: IndexView, query: Seq<char>, tokens: Seq<Seq<char>>)
    requires
        v.fits(query),
        query.len() > 0,
    ensures
        forall|k: int|
            0 <= k < v.ranked(query, tokens).len() ==> {
                let hit = #[trigger] v.ranked(query, tokens)[k];
                &&& hit.position < v.documents.len()
                &&& score_of(v.entries, tokens, v.documents[hit.position as int].iid) > 0
                &&& hit.rank == v.rank_of(query, tokens, hit.position as int)
                &&& hit.rank.wf()
                &&& !hit.rank.outranks(v.ranked(query, tokens)[0].rank)
            },
        forall|k: int, l: int|
            0 <= k < v.ranked(query, tokens).len() && 0 <= l < v.ranked(query, tokens).len() && k
                != l ==> (#[trigger] v.ranked(query, tokens)[k]).position != (
            #[trigger] v.ranked(query, tokens)[l]).position,
        forall|j: int|
            0 <= j < v.documents.len() && score_of(
                v.entries,
                tokens,
                (#[trigger] v.documents[j]).iid,
            ) > 0 ==> exists|k: int|
                0 <= k < v.ranked(query, tokens).len() && (#[trigger] v.ranked(
                    query,
                    tokens,
                )[k]).position == j,
{
    let places = v.reached(tokens, v.documents.len());
    let ranks = v.reached_ranks(query, tokens);
    let order = sorted_order(ranks);
    let list = v.ranked(query, tokens);
    let m = places.len();
    lemma_reached(v, tokens, v.documents.len());
    lemma_sorted_places(key_order(ranks), m);
    assert forall|a: int| 0 <= a < m implies (#[trigger] ranks[a]).wf() by {
        lemma_rank_wf(v, query, tokens, places[a] as int);
    }
    if m > 0 {
        assert forall|a: int, b: int|
            0 <= a < m && 0 <= b < m && #[trigger] key_order(ranks)(a, b) implies !key_order(ranks)(
            b,
            a,
        ) by {
            lemma_outranks_asymmetric(ranks[a], ranks[b]);
        }
        assert forall|a: int, b: int, c: int|
            0 <= a < m && 0 <= b < m && 0 <= c < m && #[trigger] key_order(ranks)(a, b)
                && #[trigger] key_order(ranks)(b, c) implies key_order(ranks)(a, c) by {
            lemma_outranks_transitive(ranks[a], ranks[b], ranks[c]);
        }
        lemma_first_is_foremost(key_order(ranks), m);
    }
    assert forall|k: int| 0 <= k < list.len() implies {
        let hit = #[trigger] list[k];
        &&& hit.position < v.documents.len()
        &&& score_of(v.entries, tokens, v.documents[hit.position as int].iid) > 0
        &&& hit.rank == v.rank_of(query, tokens, hit.position as int)
        &&& hit.rank.wf()
        &&& !hit.rank.outranks(list[0].rank)
    } by {
        let a = order[k] as int;
        assert(0 <= a < m);
        assert(list[k].position == places[a]);
        assert(list[k].rank == ranks[a]);
        assert(ranks[a].wf());
        let first = order[0] as int;
        assert(list[0].rank == ranks[first]);
        assert(!key_order(ranks)(a, first));
    }
    assert forall|k: int, l: int|
        0 <= k < list.len() && 0 <= l < list.len() && k != l implies (#[trigger] list[k]).position
        != (#[trigger] list[l]).position by {
        let a = order[k] as int;
        let b = order[l] as int;
        assert(a != b);
        if a < b {
            assert(places[a] < places[b]);
        } else {
            assert(places[b] < places[a]);
        }
    }
    assert forall|j: int|
        0 <= j < v.documents.len() && score_of(v.entries, tokens, (#[trigger] v.documents[j]).iid)
            > 0 implies exists|k: int|
        0 <= k < list.len() && (#[trigger] list[k]).position == j by {
        assert(places.contains(j as usize));
        let a = choose|a: int| 0 <= a < places.len() && places[a] == j as usize;
        assert(order.contains(a as usize));
        let k = choose|k: int| 0 <= k < order.len() && order[k] == a as usize;
        assert(list[k].position == j);
    }
}

/// Whether `hit` is one of the first `n` hits and its rank is above half of
/// the first hit's.
pub open spec fn is_upper(list: Seq<Hit>, n: nat, hit: Hit) -> bool {
    exists|l: int|
        0 <= l < n && (#[trigger] list[l]) == hit && list[l].rank.above_half_of(list[0].rank)
}

/// The upper hits are the hits whose rank is above half of the first hit's.
pub proof fn lemma_upper_hits(list: Seq<Hit>, n: nat)
    requires
        n <= list.len(),
    ensures
        forall|k: int|
            0 <= k < upper_hits(list, n).len() ==> is_upper(
                list,
                n,
                #[trigger] upper_hits(list, n)[k],
            ),
        forall|l: int|
            0 <= l < n && (#[trigger] list[l]).rank.above_half_of(list[0].rank) ==> upper_hits(
                list,
                n,
            ).contains(list[l]),
    decreases n,
{
    if n > 0 {
        let earlier = upper_hits(list, (n - 1) as nat);
        let now = upper_hits(list, n);
        lemma_upper_hits(list, (n - 1) as nat);
        assert forall|k: int| 0 <= k < now.len() implies is_upper(list, n, #[trigger] now[k]) by {
            if k < earlier.len() {
                assert(now[k] == earlier[k]);
                assert(is_upper(list, (n - 1) as nat, earlier[k]));
                let l = choose|l: int|
                    0 <= l < n - 1 && (#[trigger] list[l]) == earlier[k]
                        && list[l].rank.above_half_of(list[0].rank);
                assert(0 <= l < n && list[l] == now[k]);
            } else {
                assert(list[n - 1] == now[k]);
            }
        }
        assert forall|l: int|
            0 <= l < n && (#[trigger] list[l]).rank.above_half_of(
                list[0].rank,
            ) implies now.contains(list[l]) by {
            if l < n - 1 {
                assert(earlier.contains(list[l]));
                let k = choose|k: int| 0 <= k < earlier.len() && earlier[k] == list[l];
                assert(now[k] == list[l]);
            } else {
                assert(now[now.len() - 1] == list[l]);
            }
        }
    }
}

/// Hits of different documents give upper hits of different documents.
proof fn lemma_upper_hits_apart(list: Seq<Hit>, n: nat)
    requires
        n <= list.len(),
        forall|k: int, l: int|
            0 <= k < list.len() && 0 <= l < list.len() && k != l ==> (#[trigger] list[k]).position
                != (#[trigger] list[l]).position,
    ensures
        forall|k: int, l: int|
            0 <= k < upper_hits(list, n).len() && 0 <= l < upper_hits(list, n).len() && k != l ==> (
            #[trigger] upper_hits(list, n)[k]).position != (#[trigger] upper_hits(
                list,
                n,
            )[l]).position,
    decreases n,
{
    if n > 0 {
        let earlier = upper_hits(list, (n - 1) as nat);
        let now = upper_hits(list, n);
        lemma_upper_hits_apart(list, (n - 1) as nat);
        lemma_upper_hits(list, (n - 1) as nat);
        assert forall|k: int, l: int|
            0 <= k < now.len() && 0 <= l < now.len() && k != l implies (#[trigger] now[k]).position
            != (#[trigger] now[l]).position by {
            if k < earlier.len() && l < earlier.len() {
                assert(now[k] == earlier[k]);
                assert(now[l] == earlier[l]);
            } else {
                let inner = if k < earlier.len() { k } else { l };
                assert(now[inner] == earlier[inner]);
                assert(is_upper(list, (n - 1) as nat, earlier[inner]));
                let from = choose|from: int|
                    0 <= from < n - 1 && (#[trigger] list[from]) == earlier[inner]
                        && list[from].rank.above_half_of(list[0].rank);
                assert(list[from].position != list[n - 1].position);
            }
        }
    }
}

/// A search returns no document twice: the hits that it returns are of
/// different documents.
pub proof fn lemma_hits_once(v: IndexView, query: Seq<char>, tokens: Seq<Seq<char>>)
    requires
        v.fits(query),
        query.len() > 0,
    ensures
        ({
            let list = v.ranked(query, tokens);
            let upper = upper_hits(list, list.len());
            forall|k: int, l: int|
                0 <= k < upper.len() && 0 <= l < upper.len() && k != l ==> (
                #[trigger] upper[k]).position != (#[trigger] upper[l]).position
        }),
{
    let list = v.ranked(query, tokens);
    lemma_ranked(v, query, tokens);
    lemma_upper_hits_apart(list, list.len());
}

/// Hits that descend give upper hits that descend.
proof fn lemma_upper_hits_descend(list: Seq<Hit>, n: nat)
    requires
        n <= list.len(),
        forall|a: int, b: int|
            0 <= a < b < list.len() ==> !(#[trigger] list[b]).rank.outranks(
                (#[trigger] list[a]).rank,
            ),
    ensures
        forall|k: int, l: int|
            0 <= k < l < upper_hits(list, n).len() ==> !(#[trigger] upper_hits(
                list,
                n,
            )[l]).rank.outranks((#[trigger] upper_hits(list, n)[k]).rank),
    decreases n,
{
    if n > 0 {
        let earlier = upper_hits(list, (n - 1) as nat);
        let now = upper_hits(list, n);
        lemma_upper_hits_descend(list, (n - 1) as nat);
        lemma_upper_hits(list, (n - 1) as nat);
        assert forall|k: int, l: int| 0 <= k < l < now.len() implies !(
        #[trigger] now[l]).rank.outranks((#[trigger] now[k]).rank) by {
            assert(now[k] == earlier[k]);
            if l < earlier.len() {
                assert(now[l] == earlier[l]);
            } else {
                assert(is_upper(list, (n - 1) as nat, earlier[k]));
                let from = choose|from: int|
                    0 <= from < n - 1 && (#[trigger] list[from]) == earlier[k]
                        && list[from].rank.above_half_of(list[0].rank);
                assert(now[l] == list[n - 1]);
                assert(!list[n - 1].rank.outranks(list[from].rank));
            }
        }
    }
}

/// A search returns its hits from the highest rank down: no hit has a
/// greater rank than a hit that stands before it, and every hit carries the
/// rank of its document.
pub proof fn lemma_hits_descend(v: IndexView, query: Seq<char>, tokens: Seq<Seq<char>>)
    requires
        v.fits(query),
        query.len() > 0,
    ensures
        ({
            let list = v.ranked(query, tokens);
            let upper = upper_hits(list, list.len());
            &&& forall|k: int, l: int|
                0 <= k < l < upper.len() ==> !(#[trigger] upper[l]).rank.outranks(
                    (#[trigger] upper[k]).rank,
                )
            &&& forall|k: int|
                0 <= k < upper.len() ==> (#[trigger] upper[k]).position < v.documents.len()
                    && upper[k].rank == v.rank_of(query, tokens, upper[k].position as int)
        }),
{
    let places = v.reached(tokens, v.documents.len());
    let ranks = v.reached_ranks(query, tokens);
    let order = sorted_order(ranks);
    let list = v.ranked(query, tokens);
    let upper = upper_hits(list, list.len());
    let m = places.len();
    lemma_reached(v, tokens, v.documents.len());
    lemma_ranked(v, query, tokens);
    lemma_sorted_places(key_order(ranks), m);
    assert forall|a: int| 0 <= a < m implies (#[trigger] ranks[a]).wf() by {
        lemma_rank_wf(v, query, tokens, places[a] as int);
    }
    assert forall|a: int, b: int|
        0 <= a < m && 0 <= b < m && #[trigger] key_order(ranks)(a, b) implies !key_order(ranks)(
        b,
        a,
    ) by {
        lemma_outranks_asymmetric(ranks[a], ranks[b]);
    }
    assert forall|a: int, b: int, c: int|
        0 <= a < m && 0 <= b < m && 0 <= c < m && #[trigger] key_order(ranks)(a, b)
            && #[trigger] key_order(ranks)(b, c) implies key_order(ranks)(a, c) by {
        lemma_outranks_transitive(ranks[a], ranks[b], ranks[c]);
    }
    lemma_sorted_by_is_sorted(key_order(ranks), m);
    assert forall|a: int, b: int| 0 <= a < b < list.len() implies !(
    #[trigger] list[b]).rank.outranks((#[trigger] list[a]).rank) by {
        assert(list[a].rank == ranks[order[a] as int]);
        assert(list[b].rank == ranks[order[b] as int]);
        assert(!key_order(ranks)(order[b] as int, order[a] as int));
    }
    lemma_upper_hits_descend(list, list.len());
    lemma_upper_hits(list, list.len());
    assert forall|k: int| 0 <= k < upper.len() implies (#[trigger] upper[k]).position
        < v.documents.len() && upper[k].rank == v.rank_of(
        query,
        tokens,
        upper[k].position as int,
    ) by {
        assert(is_upper(list, list.len(), upper[k]));
        let from = choose|from: int|
            0 <= from < list.len() && (#[trigger] list[from]) == upper[k]
                && list[from].rank.above_half_of(list[0].rank);
    }
}

/// A stored document is found where its score is positive and its rank is
/// above half of the rank of the first hit.
pub proof fn lemma_finds(v: IndexView, query: Seq<char>, tokens: Seq<Seq<char>>, id: Seq<char>)
    requires
        v.fits(query),
        query.len() > 0,
        v.has_id(id),
    ensures
        v.finds(query, tokens, id) == {
            let j = v.position_of_id(id);
            &&& score_of(v.entries, tokens, v.documents[j].iid) > 0
            &&& v.rank_of(query, tokens, j).above_half_of(v.ranked(query, tokens)[0].rank)
        },
{
    let list = v.ranked(query, tokens);
    let upper = upper_hits(list, list.len());
    let j = v.position_of_id(id);
    assert(v.documents[j].id == id);
    lemma_ranked(v, query, tokens);
    lemma_upper_hits(list, list.len());
    if v.finds(query, tokens, id) {
        let k = choose|k: int| 0 <= k < upper.len() && (#[trigger] upper[k]).position == j;
        assert(is_upper(list, list.len(), upper[k]));
        let l = choose|l: int|
            0 <= l < list.len() && (#[trigger] list[l]) == upper[k] && list[l].rank.above_half_of(
                list[0].rank,
            );
        assert(list[l].position == j);
    }
    if score_of(v.entries, tokens, v.documents[j].iid) > 0 && v.rank_of(
        query,
        tokens,
        j,
    ).above_half_of(list[0].rank) {
        let l = choose|l: int| 0 <= l < list.len() && (#[trigger] list[l]).position == j;
        assert(list[l].rank == v.rank_of(query, tokens, j));
        assert(upper.contains(list[l]));
        let k = choose|k: int| 0 <= k < upper.len() && upper[k] == list[l];
        assert(upper[k].position == j);
    }
}

impl IndexView {
    /// The state after `obj` replaced the stored document of its `_id`.
    pub open spec fn updated(self, obj: JsonValue, raw: Seq<char>, fields: Seq<Seq<char>>)
        -> IndexView {
        self.with_update(obj, raw, fields)
    }

    /// The state after the stored document with the `_id` of `obj` was
    /// removed and `obj` added.
    pub open spec fn readded(self, obj: JsonValue, raw: Seq<char>, fields: Seq<Seq<char>>)
        -> IndexView {
        self.without_id(document_id(obj)->0).with_object(obj, raw, fields)
    }
}

/// After a purge no posting is of the purged document.
proof fn lemma_purged_unknown(entries: Seq<EntryView>, iid: u32)
    ensures
        unknown_to(purged(entries, iid), iid),
{
    let after = purged(entries, iid);
    lemma_purged_sources(entries, iid);
    assert forall|k: int, m: int|
        0 <= k < after.len() && 0 <= m < after[k].postings.len() implies (
    #[trigger] after[k].postings[m]).iid != iid by {
        let j = choose|j: int|
            0 <= j < entries.len() && (#[trigger] entries[j]).token == after[k].token
                && after[k].postings == without_iid(entries[j].postings, iid);
        lemma_without_iid(entries[j].postings, iid);
    }
}

/// Replacing a document, and removing it and adding its replacement, lead
/// to well-formed states over the same entries, in which the replacement's
/// tokens are registered for the old internal id, or for a new one.
proof fn lemma_update_and_readd(
    v: IndexView,
    obj: JsonValue,
    raw: Seq<char>,
    fields: Seq<Seq<char>>,
)
    requires
        v.wf(),
        v.update_error(obj) is None,
        v.id_counter < u32::MAX,
    ensures
        ({
            let id = document_id(obj)->0;
            let p = v.position_of_id(id);
            let text = trimmed(crate::index::extracted(obj, fields));
            let grams = crate::lp::spec_gramify(text);
            let words = crate::lp::spec_clean_words(text);
            let rest = purged(v.entries, v.documents[p].iid);
            let u = v.updated(obj, raw, fields);
            let r = v.readded(obj, raw, fields);
            &&& 0 <= p < v.documents.len()
            &&& v.documents[p].id == id
            &&& u.wf()
            &&& r.wf()
            &&& distinct_tokens(rest)
            &&& unknown_to(rest, v.documents[p].iid)
            &&& unknown_to(rest, v.id_counter)
            &&& u.entries == registered(rest, v.documents[p].iid, grams, words)
            &&& r.entries == registered(rest, v.id_counter, grams, words)
            &&& u.documents == v.documents.update(
                p,
                DocumentView { iid: v.documents[p].iid, id, body: raw },
            )
            &&& r.documents == v.documents.remove(p).push(
                DocumentView { iid: v.id_counter, id, body: raw },
            )
        }),
{
    let id = document_id(obj)->0;
    let p = v.position_of_id(id);
    assert(v.documents[p].id == id);
    let iid = v.documents[p].iid;
    let rest = purged(v.entries, iid);
    lemma_update_keeps_invariants(v, obj, raw, fields);
    lemma_with_body_wf(v, p, raw);
    let removed = v.without_id(id);
    lemma_remove_keeps_invariants(v, id);
    assert(removed == v.without_document(p));
    assert forall|i: int| 0 <= i < removed.documents.len() implies (
    #[trigger] removed.documents[i]).id != id by {
        let a = if i < p { i } else { i + 1 };
        assert(removed.documents[i] == v.documents[a]);
        assert(v.documents[a].id != v.documents[p].id);
    }
    assert(!removed.has_id(id));
    assert(removed.add_error(obj) is None);
    lemma_add_keeps_invariants(removed, obj, raw, fields);
    lemma_purged_unknown(v.entries, iid);
    assert forall|k: int, m: int|
        0 <= k < rest.len() && 0 <= m < rest[k].postings.len() implies (
    #[trigger] rest[k].postings[m]).iid != v.id_counter by {
        let q = rest[k].postings[m];
        assert(posting_wf(q, removed.documents));
        let i = choose|i: int|
            0 <= i < removed.documents.len() && (#[trigger] removed.documents[i]).iid == q.iid;
        assert(removed.documents[i].iid < removed.id_counter);
    }
    assert(v.updated(obj, raw, fields).documents =~= v.documents.update(
        p,
        DocumentView { iid, id, body: raw },
    ));
}

/// A document that is stored has, after the replacement and after the
/// removal and addition, the same serialized form and, for every query, the
/// same score and the same rank.
proof fn lemma_twins(
    v: IndexView,
    obj: JsonValue,
    raw: Seq<char>,
    fields: Seq<Seq<char>>,
    query: Seq<char>,
    tokens: Seq<Seq<char>>,
    id: Seq<char>,
)
    requires
        v.wf(),
        v.update_error(obj) is None,
        v.id_counter < u32::MAX,
        v.has_id(id),
    ensures
        ({
            let u = v.updated(obj, raw, fields);
            let r = v.readded(obj, raw, fields);
            let ju = u.position_of_id(id);
            let jr = r.position_of_id(id);
            &&& u.has_id(id)
            &&& r.has_id(id)
            &&& 0 <= ju < u.documents.len()
            &&& 0 <= jr < r.documents.len()
            &&& u.documents[ju].id == id
            &&& r.documents[jr].id == id
            &&& u.documents[ju].body == r.documents[jr].body
            &&& score_of(u.entries, tokens, u.documents[ju].iid) == score_of(
                r.entries,
                tokens,
                r.documents[jr].iid,
            )
            &&& u.rank_of(query, tokens, ju) == r.rank_of(query, tokens, jr)
        }),
{
    let own = document_id(obj)->0;
    let p = v.position_of_id(own);
    let text = trimmed(crate::index::extracted(obj, fields));
    let grams = crate::lp::spec_gramify(text);
    let words = crate::lp::spec_clean_words(text);
    let iid = v.documents[p].iid;
    let rest = purged(v.entries, iid);
    let u = v.updated(obj, raw, fields);
    let r = v.readded(obj, raw, fields);
    lemma_update_and_readd(v, obj, raw, fields);
    let n = v.documents.len() as int;
    let jv = v.position_of_id(id);
    assert(v.documents[jv].id == id);
    assert(u.documents[jv].id == id);
    let ju = u.position_of_id(id);
    assert(u.documents[ju].id == id);
    assert(ju == jv);
    let twin = if jv == p {
        n - 1
    } else if jv < p {
        jv
    } else {
        jv - 1
    };
    assert(r.documents[twin].id == id);
    let jr = r.position_of_id(id);
    assert(r.documents[jr].id == id);
    assert(jr == twin);
    if jv == p {
        lemma_scores_agree(rest, iid, v.id_counter, grams, words, tokens, iid);
    } else {
        let other = v.documents[jv].iid;
        assert(r.documents[twin] == v.documents[jv]);
        assert(u.documents[jv] == v.documents[jv]);
        assert(other != iid) by {
            if jv < p {
                assert(v.documents[jv].iid < v.documents[p].iid);
            } else {
                assert(v.documents[p].iid < v.documents[jv].iid);
            }
        }
        assert(other < v.id_counter);
        lemma_scores_agree(rest, iid, v.id_counter, grams, words, tokens, other);
    }
}

/// The replacement and the removal and addition store the documents of the
/// same external ids.
proof fn lemma_same_ids(
    v: IndexView,
    obj: JsonValue,
    raw: Seq<char>,
    fields: Seq<Seq<char>>,
    id: Seq<char>,
)
    requires
        v.wf(),
        v.update_error(obj) is None,
        v.id_counter < u32::MAX,
    ensures
        v.updated(obj, raw, fields).has_id(id) == v.has_id(id),
        v.readded(obj, raw, fields).has_id(id) == v.has_id(id),
{
    let own = document_id(obj)->0;
    let p = v.position_of_id(own);
    let u = v.updated(obj, raw, fields);
    let r = v.readded(obj, raw, fields);
    lemma_update_and_readd(v, obj, raw, fields);
    let n = v.documents.len() as int;
    if v.has_id(id) {
        lemma_twins(v, obj, raw, fields, Seq::<char>::empty(), Seq::<Seq<char>>::empty(), id);
    }
    if u.has_id(id) {
        let k = u.position_of_id(id);
        assert(u.documents[k].id == id);
        assert(v.documents[k].id == id);
    }
    if r.has_id(id) {
        let k = r.position_of_id(id);
        assert(r.documents[k].id == id);
        if k == n - 1 {
            assert(v.documents[p].id == id);
        } else {
            let a = if k < p { k } else { k + 1 };
            assert(r.documents[k] == v.documents[a]);
            assert(v.documents[a].id == id);
        }
    }
}

/// The rank of the first hit after the replacement is not greater than the
/// rank of the first hit after the removal and addition, and the other way
/// round.
proof fn lemma_same_top(
    v: IndexView,
    obj: JsonValue,
    raw: Seq<char>,
    fields: Seq<Seq<char>>,
    query: Seq<char>,
    tokens: Seq<Seq<char>>,
)
    requires
        v.wf(),
        v.update_error(obj) is None,
        v.id_counter < u32::MAX,
        v.fits(query),
        raw.len() <= usize::MAX,
        query.len() > 0,
        v.updated(obj, raw, fields).ranked(query, tokens).len() > 0,
        v.readded(obj, raw, fields).ranked(query, tokens).len() > 0,
    ensures
        ({
            let top_u = v.updated(obj, raw, fields).ranked(query, tokens)[0].rank;
            let top_r = v.readded(obj, raw, fields).ranked(query, tokens)[0].rank;
            &&& top_u.wf()
            &&& top_r.wf()
            &&& !top_u.outranks(top_r)
            &&& !top_r.outranks(top_u)
        }),
{
    let u = v.updated(obj, raw, fields);
    let r = v.readded(obj, raw, fields);
    lemma_update_and_readd(v, obj, raw, fields);
    lemma_fits(v, obj, raw, fields, query);
    lemma_ranked(u, query, tokens);
    lemma_ranked(r, query, tokens);
    let list_u = u.ranked(query, tokens);
    let list_r = r.ranked(query, tokens);
    {
        let at = list_u[0].position as int;
        let id = u.documents[at].id;
        assert(u.has_id(id));
        lemma_same_ids(v, obj, raw, fields, id);
        lemma_twins(v, obj, raw, fields, query, tokens, id);
        let ju = u.position_of_id(id);
        assert(ju == at);
        let jr = r.position_of_id(id);
        let k = choose|k: int| 0 <= k < list_r.len() && (#[trigger] list_r[k]).position == jr;
        assert(list_r[k].rank == list_u[0].rank);
    }
    {
        let at = list_r[0].position as int;
        let id = r.documents[at].id;
        assert(r.has_id(id));
        lemma_same_ids(v, obj, raw, fields, id);
        lemma_twins(v, obj, raw, fields, query, tokens, id);
        let jr = r.position_of_id(id);
        assert(jr == at);
        let ju = u.position_of_id(id);
        let k = choose|k: int| 0 <= k < list_u.len() && (#[trigger] list_u[k]).position == ju;
        assert(list_u[k].rank == list_r[0].rank);
    }
}

/// Lengths that a machine holds stay such lengths.
proof fn lemma_fits(
    v: IndexView,
    obj: JsonValue,
    raw: Seq<char>,
    fields: Seq<Seq<char>>,
    query: Seq<char>,
)
    requires
        v.wf(),
        v.update_error(obj) is None,
        v.id_counter < u32::MAX,
        v.fits(query),
        raw.len() <= usize::MAX,
    ensures
        v.updated(obj, raw, fields).fits(query),
        v.readded(obj, raw, fields).fits(query),
{
    let own = document_id(obj)->0;
    let p = v.position_of_id(own);
    let u = v.updated(obj, raw, fields);
    let r = v.readded(obj, raw, fields);
    lemma_update_and_readd(v, obj, raw, fields);
    let n = v.documents.len() as int;
    assert forall|i: int| 0 <= i < u.documents.len() implies (#[trigger] u.documents[i]).body.len()
        <= usize::MAX by {
        if i != p {
            assert(u.documents[i] == v.documents[i]);
        }
    }
    assert forall|i: int| 0 <= i < r.documents.len() implies (#[trigger] r.documents[i]).body.len()
        <= usize::MAX by {
        if i < n - 1 {
            let a = if i < p { i } else { i + 1 };
            assert(r.documents[i] == v.documents[a]);
        }
    }
}

/// Replacing a document, and removing it and adding its replacement, store
/// the same serialized forms, each as often.
proof fn lemma_same_bodies(v: IndexView, obj: JsonValue, raw: Seq<char>, fields: Seq<Seq<char>>)
    requires
        v.wf(),
        v.update_error(obj) is None,
        v.id_counter < u32::MAX,
    ensures
        v.updated(obj, raw, fields).bodies().to_multiset() == v.readded(
            obj,
            raw,
            fields,
        ).bodies().to_multiset(),
{
    broadcast use vstd::multiset::group_multiset_axioms;

    let p = v.position_of_id(document_id(obj)->0);
    let held = v.bodies();
    let u = v.updated(obj, raw, fields);
    let r = v.readded(obj, raw, fields);
    lemma_update_and_readd(v, obj, raw, fields);
    assert(u.bodies() =~= held.update(p, raw));
    assert(r.bodies() =~= held.remove(p).push(raw));
    vstd::seq_lib::to_multiset_update(held, p, raw);
    vstd::seq_lib::to_multiset_remove(held, p);
    vstd::seq_lib::to_multiset_build(held.remove(p), raw);
    vstd::seq_lib::to_multiset_contains(held, held[p]);
    assert(held.contains(held[p]));
    assert(held.to_multiset().insert(raw).remove(held[p]) =~= held.to_multiset().remove(
        held[p],
    ).insert(raw));
}

/// Replacing a document searches like removing it and adding its
/// replacement. Both ways store documents of the same external ids with the
/// same serialized forms; for every query each document has the same rank
/// in both, and a search returns it in the one case where it returns it in
/// the other. The answer to the empty query holds the same serialized
/// forms, each as often. With `lemma_hits_descend` and `lemma_hits_once`,
/// which hold of either state, the two answers to a query are the same
/// documents with the same ranks from the highest down, each once; only
/// documents of one rank may stand in another order.
pub proof fn lemma_update_like_remove_then_add(
    v: IndexView,
    obj: JsonValue,
    raw: Seq<char>,
    fields: Seq<Seq<char>>,
    query: Seq<char>,
    id: Seq<char>,
)
    requires
        v.wf(),
        v.update_error(obj) is None,
        v.id_counter < u32::MAX,
        v.fits(query),
        raw.len() <= usize::MAX,
    ensures
        ({
            let u = v.with_update(obj, raw, fields);
            let r = v.without_id(document_id(obj)->0).with_object(obj, raw, fields);
            let tokens = crate::lp::spec_gramify(query) + crate::lp::spec_clean_words(query);
            &&& u.has_id(id) == r.has_id(id)
            &&& u.has_id(id) ==> u.documents[u.position_of_id(id)].body
                == r.documents[r.position_of_id(id)].body
            &&& u.has_id(id) ==> u.rank_of(query, tokens, u.position_of_id(id)) == r.rank_of(
                query,
                tokens,
                r.position_of_id(id),
            )
            &&& u.gives(query, id) == r.gives(query, id)
            &&& u.bodies().to_multiset() == r.bodies().to_multiset()
        }),
{
    let u = v.updated(obj, raw, fields);
    let r = v.readded(obj, raw, fields);
    lemma_same_ids(v, obj, raw, fields, id);
    lemma_same_bodies(v, obj, raw, fields);
    if v.has_id(id) {
        let tokens = crate::lp::spec_gramify(query) + crate::lp::spec_clean_words(query);
        lemma_twins(v, obj, raw, fields, query, tokens, id);
        if query.len() > 0 {
            lemma_fits(v, obj, raw, fields, query);
            lemma_finds(u, query, tokens, id);
            lemma_finds(r, query, tokens, id);
            let ju = u.position_of_id(id);
            let jr = r.position_of_id(id);
            if score_of(u.entries, tokens, u.documents[ju].iid) > 0 {
                lemma_ranked(u, query, tokens);
                lemma_ranked(r, query, tokens);
                let list_u = u.ranked(query, tokens);
                let list_r = r.ranked(query, tokens);
                let ku = choose|k: int|
                    0 <= k < list_u.len() && (#[trigger] list_u[k]).position == ju;
                let kr = choose|k: int|
                    0 <= k < list_r.len() && (#[trigger] list_r[k]).position == jr;
                lemma_same_top(v, obj, raw, fields, query, tokens);
                lemma_rank_wf(u, query, tokens, ju);
                lemma_above_half_of_equals(
                    u.rank_of(query, tokens, ju),
                    list_u[0].rank,
                    list_r[0].rank,
                );
            }
        }
    }
}

/// The places that pass the filter are places of items that pass it, they
/// grow along the list, and no such place is missing.
pub proof fn lemma_kept_places(items: Seq<Json>, filter: Option<FilterTree>, n: nat)
    requires
        n <= items.len(),
        n <= usize::MAX,
    ensures
        kept_places(items, filter, n).len() <= n,
        forall|k: int|
            0 <= k < kept_places(items, filter, n).len() ==> (#[trigger] kept_places(
                items,
                filter,
                n,
            )[k]) < n && passes(filter, items[kept_places(items, filter, n)[k] as int]@),
        forall|k: int, l: int|
            0 <= k < l < kept_places(items, filter, n).len() ==> (#[trigger] kept_places(
                items,
                filter,
                n,
            )[k]) < (#[trigger] kept_places(items, filter, n)[l]),
        forall|j: int|
            0 <= j < n && passes(filter, (#[trigger] items[j])@) ==> kept_places(
                items,
                filter,
                n,
            ).contains(j as usize),
    decreases n,
{
    if n > 0 {
        let earlier = kept_places(items, filter, (n - 1) as nat);
        let now = kept_places(items, filter, n);
        lemma_kept_places(items, filter, (n - 1) as nat);
        assert forall|k: int| 0 <= k < now.len() implies (#[trigger] now[k]) < n && passes(
            filter,
            items[now[k] as int]@,
        ) by {
            if k < earlier.len() {
                assert(now[k] == earlier[k]);
            }
        }
        assert forall|k: int, l: int| 0 <= k < l < now.len() implies (#[trigger] now[k]) < (
        #[trigger] now[l]) by {
            assert(now[k] == earlier[k]);
            if l < earlier.len() {
                assert(now[l] == earlier[l]);
            }
        }
        assert forall|j: int| 0 <= j < n && passes(filter, (#[trigger] items[j])@) implies now.contains(
            j as usize,
        ) by {
            if j < n - 1 {
                assert(earlier.contains(j as usize));
                let k = choose|k: int| 0 <= k < earlier.len() && earlier[k] == j as usize;
                assert(now[k] == j as usize);
            } else {
                assert(now[now.len() - 1] == j as usize);
            }
        }
    }
}

/// A page holds filtered documents only, and all of them where nothing is
/// skipped and the page is large enough. This holds of every arrangement of
/// the places that passed the filter: a sort, a shuffle, or none. The
/// number of arranged places is the number of items that pass the filter.
pub proof fn lemma_page_holds_the_filtered(
    items: Seq<Json>,
    filter: Option<FilterTree>,
    places: Seq<usize>,
    skip: nat,
    take: nat,
)
    requires
        items.len() <= usize::MAX,
        places.to_multiset() == kept_places(items, filter, items.len()).to_multiset(),
    ensures
        places.len() == kept_places(items, filter, items.len()).len(),
        forall|k: int|
            0 <= k < page_places(places, skip, take).len() ==> (#[trigger] page_places(
                places,
                skip,
                take,
            )[k]) < items.len() && passes(
                filter,
                items[page_places(places, skip, take)[k] as int]@,
            ),
        forall|k: int, l: int|
            0 <= k < page_places(places, skip, take).len() && 0 <= l < page_places(
                places,
                skip,
                take,
            ).len() && k != l ==> (#[trigger] page_places(places, skip, take)[k]) != (
            #[trigger] page_places(places, skip, take)[l]),
        skip == 0 && take >= places.len() ==> forall|j: int|
            0 <= j < items.len() && passes(filter, (#[trigger] items[j])@) ==> page_places(
                places,
                skip,
                take,
            ).contains(j as usize),
{
    let kept = kept_places(items, filter, items.len());
    let page = page_places(places, skip, take);
    let total = places.len() as int;
    lemma_kept_places(items, filter, items.len());
    vstd::seq_lib::to_multiset_len(places);
    vstd::seq_lib::to_multiset_len(kept);
    assert(kept.no_duplicates()) by {
        assert forall|k: int, l: int| 0 <= k < kept.len() && 0 <= l < kept.len() && k != l implies kept[k]
            != kept[l] by {
            if k < l {
                assert(kept[k] < kept[l]);
            } else {
                assert(kept[l] < kept[k]);
            }
        }
    }
    kept.lemma_multiset_has_no_duplicates();
    places.lemma_multiset_has_no_duplicates_conv();
    assert forall|k: int| 0 <= k < page.len() implies (#[trigger] page[k]) < items.len()
        && passes(filter, items[page[k] as int]@) by {
        let x = page[k];
        let at = total - 1 - skip - k;
        assert(places[at] == x);
        assert(places.contains(x));
        vstd::seq_lib::to_multiset_contains(places, x);
        vstd::seq_lib::to_multiset_contains(kept, x);
        assert(kept.contains(x));
        let m = choose|m: int| 0 <= m < kept.len() && kept[m] == x;
        assert(kept[m] < items.len() && passes(filter, items[kept[m] as int]@));
    }
    assert forall|k: int, l: int|
        0 <= k < page.len() && 0 <= l < page.len() && k != l implies (#[trigger] page[k]) != (
    #[trigger] page[l]) by {
        assert(page[k] == places[total - 1 - skip - k]);
        assert(page[l] == places[total - 1 - skip - l]);
    }
    if skip == 0 && take >= places.len() {
        assert forall|j: int|
            0 <= j < items.len() && passes(filter, (#[trigger] items[j])@) implies page.contains(
            j as usize,
        ) by {
            let x = j as usize;
            assert(kept.contains(x));
            vstd::seq_lib::to_multiset_contains(places, x);
            vstd::seq_lib::to_multiset_contains(kept, x);
            assert(places.contains(x));
            let m = choose|m: int| 0 <= m < places.len() && places[m] == x;
            assert(page[total - 1 - m] == x);
        }
    }
}

/// A shuffled page depends on the documents, the filter, the seed text and
/// the cut alone: options with the same filter and the same seed text give
/// the same ids in the same order.
pub proof fn lemma_shuffled_page_repeats(
    items: Seq<Json>,
    first: SearchOptions,
    second: SearchOptions,
    skip: nat,
    take: nat,
)
    requires
        first.sort_by is Some,
        second.sort_by is Some,
        first.sort_by->0@ == "$shuffle"@,
        second.sort_by->0@ == "$shuffle"@,
        first.seed_text() == second.seed_text(),
        first.filter == second.filter,
    ensures
        ids_at(
            items,
            page_places(
                arranged(items, kept_places(items, first.filter, items.len()), first),
                skip,
                take,
            ),
        ) == ids_at(
            items,
            page_places(
                arranged(items, kept_places(items, second.filter, items.len()), second),
                skip,
                take,
            ),
        ),
{
}

/// Replacing a document keeps the order of a search up to ties: where the
/// answer after the replacement has one document before another of a lower
/// rank, the answer after the removal and addition has them in that order
/// too.
pub proof fn lemma_update_keeps_order(
    v: IndexView,
    obj: JsonValue,
    raw: Seq<char>,
    fields: Seq<Seq<char>>,
    query: Seq<char>,
    higher: Seq<char>,
    lower: Seq<char>,
    k: int,
    l: int,
    m: int,
    n: int,
)
    requires
        v.wf(),
        v.update_error(obj) is None,
        v.id_counter < u32::MAX,
        v.fits(query),
        raw.len() <= usize::MAX,
        query.len() > 0,
        v.has_id(higher),
        v.has_id(lower),
        ({
            let u = v.with_update(obj, raw, fields);
            let r = v.without_id(document_id(obj)->0).with_object(obj, raw, fields);
            let tokens = crate::lp::spec_gramify(query) + crate::lp::spec_clean_words(query);
            let first = upper_hits(u.ranked(query, tokens), u.ranked(query, tokens).len());
            let second = upper_hits(r.ranked(query, tokens), r.ranked(query, tokens).len());
            &&& 0 <= k < l < first.len()
            &&& first[k].position == u.position_of_id(higher)
            &&& first[l].position == u.position_of_id(lower)
            &&& first[k].rank.outranks(first[l].rank)
            &&& 0 <= m < second.len()
            &&& 0 <= n < second.len()
            &&& second[m].position == r.position_of_id(higher)
            &&& second[n].position == r.position_of_id(lower)
        }),
    ensures
        m < n,
{
    let u = v.updated(obj, raw, fields);
    let r = v.readded(obj, raw, fields);
    let tokens = crate::lp::spec_gramify(query) + crate::lp::spec_clean_words(query);
    let first = upper_hits(u.ranked(query, tokens), u.ranked(query, tokens).len());
    let second = upper_hits(r.ranked(query, tokens), r.ranked(query, tokens).len());
    lemma_fits(v, obj, raw, fields, query);
    lemma_twins(v, obj, raw, fields, query, tokens, higher);
    lemma_twins(v, obj, raw, fields, query, tokens, lower);
    lemma_hits_descend(u, query, tokens);
    lemma_hits_descend(r, query, tokens);
    lemma_outranks_asymmetric(first[k].rank, first[l].rank);
    assert(second[m].rank == first[k].rank);
    assert(second[n].rank == first[l].rank);
    if n < m {
        assert(!second[m].rank.outranks(second[n].rank));
    }
}

} // verus!
