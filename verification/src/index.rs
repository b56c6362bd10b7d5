//! The inverted index: the stored documents, the posting list of every token,
//! and the operations that keep the two consistent.

use crate::json::{lemma_array_view, lemma_object_view, Json, JsonValue};
use crate::lp::{clean_words, gramify, spec_clean_words, spec_gramify};
use crate::rank::Rank;
use crate::sort::{sorted_order, stable_order};
use crate::text::{texts, trim, trimmed};
use vstd::pervasive::VecAdditionalExecFns;
use vstd::prelude::*;
use vstd::string::StrSliceExecFns;
use vstd::string::StringExecFns;

verus! {

/// One occurrence of a token in a document. The weight is 1 for a gram and
/// 10 for a whole word.
#[derive(Clone, Copy, Debug, PartialEq, Eq, Structural)]
pub struct Posting {
    pub iid: u32,
    pub weight: u8,
}

/// The weight of a gram match.
pub const GRAM_WEIGHT: u8 = 1;

/// The weight of a whole-word match.
pub const WORD_WEIGHT: u8 = 10;

/// A stored document: its internal id, its external id and its serialized form.
pub struct Document {
    iid: u32,
    id: String,
    body: String,
}

/// A token with its posting list.
pub struct TokenEntry {
    token: String,
    postings: Vec<Posting>,
}

/// The index of one collection.
pub struct Index {
    id_counter: u32,
    documents: Vec<Document>,
    entries: Vec<TokenEntry>,
}

/// Why an operation left the index unchanged.
#[derive(Clone, Copy, Debug, PartialEq, Eq, Structural)]
pub enum IndexError {
    /// The document has no string attribute `_id`.
    MissingId,
    /// A document with this `_id` is stored already.
    DuplicateId,
    /// No document with this `_id` is stored.
    UnknownId,
    /// Every internal id has been given out.
    Exhausted,
}

/// A stored document as a value: the ids and the serialized form.
pub struct DocumentView {
    pub iid: u32,
    pub id: Seq<char>,
    pub body: Seq<char>,
}

/// A token with its posting list, as a value.
pub struct EntryView {
    pub token: Seq<char>,
    pub postings: Seq<Posting>,
}

/// The state of an index: the next internal id, the documents in the order of
/// their internal ids, and the tokens with their posting lists.
pub struct IndexView {
    pub id_counter: u32,
    pub documents: Seq<DocumentView>,
    pub entries: Seq<EntryView>,
}

impl View for Document {
    type V = DocumentView;

    closed spec fn view(&self) -> DocumentView {
        DocumentView { iid: self.iid, id: self.id@, body: self.body@ }
    }
}

impl View for TokenEntry {
    type V = EntryView;

    closed spec fn view(&self) -> EntryView {
        EntryView { token: self.token@, postings: self.postings@ }
    }
}

/// The documents as values, in order.
pub closed spec fn document_views(documents: Seq<Document>) -> Seq<DocumentView> {
    documents.map_values(|d: Document| d@)
}

/// The entries as values, in order.
pub closed spec fn entry_views(entries: Seq<TokenEntry>) -> Seq<EntryView> {
    entries.map_values(|e: TokenEntry| e@)
}

impl View for Index {
    type V = IndexView;

    closed spec fn view(&self) -> IndexView {
        IndexView {
            id_counter: self.id_counter,
            documents: document_views(self.documents@),
            entries: entry_views(self.entries@),
        }
    }
}

/// Whether some entry is for `token`.
pub open spec fn contains_token(entries: Seq<EntryView>, token: Seq<char>) -> bool {
    exists|i: int| 0 <= i < entries.len() && (#[trigger] entries[i]).token == token
}

/// The place of an entry for `token`.
pub open spec fn token_index(entries: Seq<EntryView>, token: Seq<char>) -> int {
    choose|i: int| 0 <= i < entries.len() && (#[trigger] entries[i]).token == token
}

/// The posting list of `token`, empty where the token has no entry.
pub open spec fn postings_of(entries: Seq<EntryView>, token: Seq<char>) -> Seq<Posting> {
    if contains_token(entries, token) {
        entries[token_index(entries, token)].postings
    } else {
        Seq::<Posting>::empty()
    }
}

/// No token has two entries.
pub open spec fn distinct_tokens(entries: Seq<EntryView>) -> bool {
    forall|i: int, j: int|
        0 <= i < entries.len() && 0 <= j < entries.len() && i != j ==> (#[trigger] entries[i]).token
            != (#[trigger] entries[j]).token
}

/// The entries after one more posting for `token`: at the end of its list, or
/// as a new list at the end where the token had none.
pub open spec fn with_posting(entries: Seq<EntryView>, token: Seq<char>, p: Posting) -> Seq<
    EntryView,
> {
    if contains_token(entries, token) {
        let k = token_index(entries, token);
        entries.update(k, EntryView { token, postings: entries[k].postings.push(p) })
    } else {
        entries.push(EntryView { token, postings: seq![p] })
    }
}

/// The entries after one posting of `iid` with `weight` for each of `tokens`,
/// in order.
pub open spec fn with_postings(
    entries: Seq<EntryView>,
    tokens: Seq<Seq<char>>,
    iid: u32,
    weight: u8,
) -> Seq<EntryView>
    decreases tokens.len(),
{
    if tokens.len() == 0 {
        entries
    } else {
        with_posting(
            with_postings(entries, tokens.drop_last(), iid, weight),
            tokens.last(),
            Posting { iid, weight },
        )
    }
}

/// The postings that are not of `iid`, in order.
pub open spec fn without_iid(postings: Seq<Posting>, iid: u32) -> Seq<Posting>
    decreases postings.len(),
{
    if postings.len() == 0 {
        Seq::<Posting>::empty()
    } else {
        let before = without_iid(postings.drop_last(), iid);
        if postings.last().iid == iid {
            before
        } else {
            before.push(postings.last())
        }
    }
}

/// The entries without any posting of `iid`, and without the tokens that are
/// left with none.
pub open spec fn purged(entries: Seq<EntryView>, iid: u32) -> Seq<EntryView>
    decreases entries.len(),
{
    if entries.len() == 0 {
        Seq::<EntryView>::empty()
    } else {
        let before = purged(entries.drop_last(), iid);
        let kept = without_iid(entries.last().postings, iid);
        if kept.len() == 0 {
            before
        } else {
            before.push(EntryView { token: entries.last().token, postings: kept })
        }
    }
}

/// Whether one of the documents has the internal id `iid`.
pub open spec fn stores_iid(documents: Seq<DocumentView>, iid: u32) -> bool {
    exists|i: int| 0 <= i < documents.len() && (#[trigger] documents[i]).iid == iid
}

/// Internal ids grow along the documents and lie under the counter, and no
/// external id occurs twice.
pub open spec fn documents_wf(documents: Seq<DocumentView>, id_counter: u32) -> bool {
    &&& forall|i: int, j: int|
        0 <= i < j < documents.len() ==> (#[trigger] documents[i]).iid < (
        #[trigger] documents[j]).iid
    &&& forall|i: int, j: int|
        0 <= i < documents.len() && 0 <= j < documents.len() && i != j ==> (
        #[trigger] documents[i]).id != (#[trigger] documents[j]).id
    &&& forall|i: int| 0 <= i < documents.len() ==> (#[trigger] documents[i]).iid < id_counter
}

/// Whether a posting is of a stored document and has the weight of a gram or
/// of a word.
pub open spec fn posting_wf(p: Posting, documents: Seq<DocumentView>) -> bool {
    &&& stores_iid(documents, p.iid)
    &&& (p.weight == GRAM_WEIGHT || p.weight == WORD_WEIGHT)
}

/// No token has two entries or an empty list, and every posting is well formed.
pub open spec fn entries_wf(entries: Seq<EntryView>, documents: Seq<DocumentView>) -> bool {
    &&& distinct_tokens(entries)
    &&& forall|k: int| 0 <= k < entries.len() ==> (#[trigger] entries[k]).postings.len() > 0
    &&& forall|k: int, m: int|
        0 <= k < entries.len() && 0 <= m < entries[k].postings.len() ==> posting_wf(
            #[trigger] entries[k].postings[m],
            documents,
        )
}

impl IndexView {
    /// Whether a document with the external id `id` is stored.
    pub open spec fn has_id(self, id: Seq<char>) -> bool {
        exists|i: int| 0 <= i < self.documents.len() && (#[trigger] self.documents[i]).id == id
    }

    /// The place of the document with the external id `id`.
    pub open spec fn position_of_id(self, id: Seq<char>) -> int {
        choose|i: int| 0 <= i < self.documents.len() && (#[trigger] self.documents[i]).id == id
    }

    /// Whether a document with the internal id `iid` is stored.
    pub open spec fn has_iid(self, iid: u32) -> bool {
        stores_iid(self.documents, iid)
    }

    /// The place of the document with the internal id `iid`.
    pub open spec fn position_of_iid(self, iid: u32) -> int {
        choose|i: int| 0 <= i < self.documents.len() && (#[trigger] self.documents[i]).iid == iid
    }

    /// The invariant of an index: internal ids grow along the documents and
    /// lie under the counter, no external id occurs twice, no token has two
    /// entries or an empty list, and every posting is of a stored document,
    /// with the weight of a gram or of a word.
    pub open spec fn wf(self) -> bool {
        &&& documents_wf(self.documents, self.id_counter)
        &&& entries_wf(self.entries, self.documents)
    }

    /// The state after a new document got the next internal id, before its
    /// tokens are registered.
    pub open spec fn with_document(self, id: Seq<char>, body: Seq<char>) -> IndexView {
        IndexView {
            id_counter: (self.id_counter + 1) as u32,
            documents: self.documents.push(DocumentView { iid: self.id_counter, id, body }),
            entries: self.entries,
        }
    }

    /// The state after the document at `position` and all its postings are gone.
    pub open spec fn without_document(self, position: int) -> IndexView {
        IndexView {
            id_counter: self.id_counter,
            documents: self.documents.remove(position),
            entries: purged(self.entries, self.documents[position].iid),
        }
    }

    /// The state after the document at `position` got a new serialized form
    /// and lost its postings, before its new tokens are registered.
    pub open spec fn with_body(self, position: int, body: Seq<char>) -> IndexView {
        IndexView {
            id_counter: self.id_counter,
            documents: self.documents.update(
                position,
                DocumentView { body, ..self.documents[position] },
            ),
            entries: purged(self.entries, self.documents[position].iid),
        }
    }

    /// The stored documents by internal id.
    pub open spec fn items(self) -> Map<u32, Seq<char>> {
        Map::new(
            |iid: u32| self.has_iid(iid),
            |iid: u32| self.documents[self.position_of_iid(iid)].body,
        )
    }

    /// The internal ids by external id.
    pub open spec fn id_map(self) -> Map<Seq<char>, u32> {
        Map::new(
            |id: Seq<char>| self.has_id(id),
            |id: Seq<char>| self.documents[self.position_of_id(id)].iid,
        )
    }

    /// The posting lists by token.
    pub open spec fn postings(self) -> Map<Seq<char>, Seq<Posting>> {
        Map::new(
            |token: Seq<char>| contains_token(self.entries, token),
            |token: Seq<char>| postings_of(self.entries, token),
        )
    }

    /// The serialized form of every stored document, in the order of their
    /// internal ids.
    pub open spec fn bodies(self) -> Seq<Seq<char>> {
        self.documents.map_values(|d: DocumentView| d.body)
    }

    /// The state with no document and no token; the counter stays.
    pub open spec fn emptied(self) -> IndexView {
        IndexView {
            id_counter: self.id_counter,
            documents: Seq::<DocumentView>::empty(),
            entries: Seq::<EntryView>::empty(),
        }
    }

    /// The state after the tokens of a text were registered for `iid`: every
    /// gram with the weight of a gram, then every word with that of a word.
    pub open spec fn with_tokens(self, iid: u32, grams: Seq<Seq<char>>, words: Seq<Seq<char>>) -> IndexView {
        IndexView {
            entries: with_postings(
                with_postings(self.entries, grams, iid, GRAM_WEIGHT),
                words,
                iid,
                WORD_WEIGHT,
            ),
            ..self
        }
    }
}

/// Where `token` has its entry, if it has one.
fn find_token(entries: &Vec<TokenEntry>, token: &String) -> (out: Option<usize>)
    requires
        distinct_tokens(entry_views(entries@)),
    ensures
        out is Some <==> contains_token(entry_views(entries@), token@),
        out is Some ==> out->0 == token_index(entry_views(entries@), token@),
{
    let ghost views = entry_views(entries@);
    let mut i: usize = 0;
    while i < entries.len()
        invariant
            i <= entries.len(),
            views == entry_views(entries@),
            distinct_tokens(views),
            forall|k: int| 0 <= k < i ==> (#[trigger] views[k]).token != token@,
        decreases entries.len() - i,
    {
        assert(views[i as int] == entries@[i as int]@);
        if entries[i].token == *token {
            assert(views[i as int].token == token@);
            let ghost k = token_index(views, token@);
            assert(views[k].token == token@);
            return Some(i);
        }
        i = i + 1;
    }
    None
}

/// Appends `p` to the list of `token`, which gets a new list where it had none.
fn add_posting(entries: &mut Vec<TokenEntry>, token: String, p: Posting)
    requires
        distinct_tokens(entry_views(old(entries)@)),
    ensures
        entry_views(final(entries)@) == with_posting(entry_views(old(entries)@), token@, p),
{
    let ghost before = entry_views(entries@);
    match find_token(entries, &token) {
        Some(k) => {
            entries[k].postings.push(p);
            assert(entry_views(entries@) =~= with_posting(before, token@, p));
        },
        None => {
            let mut postings: Vec<Posting> = Vec::new();
            postings.push(p);
            entries.push(TokenEntry { token, postings });
            assert(entry_views(entries@) =~= with_posting(before, token@, p));
        },
    }
}

/// An empty index.
pub fn create() -> (out: Index)
    ensures
        out@.wf(),
        out@.id_counter == 0,
        out@.documents.len() == 0,
        out@.entries.len() == 0,
{
    Index { id_counter: 0, documents: Vec::new(), entries: Vec::new() }
}

/// An empty index that gives out internal ids from `first` on.
pub fn create_from(first: u32) -> (out: Index)
    ensures
        out@.wf(),
        out@.id_counter == first,
        out@.documents.len() == 0,
        out@.entries.len() == 0,
{
    Index { id_counter: first, documents: Vec::new(), entries: Vec::new() }
}

/// One more well-formed posting keeps the entries well formed.
pub proof fn lemma_with_posting_wf(
    entries: Seq<EntryView>,
    documents: Seq<DocumentView>,
    token: Seq<char>,
    p: Posting,
)
    requires
        entries_wf(entries, documents),
        posting_wf(p, documents),
    ensures
        entries_wf(with_posting(entries, token, p), documents),
{
    let after = with_posting(entries, token, p);
    if contains_token(entries, token) {
        let k = token_index(entries, token);
        assert(entries[k].token == token);
        assert forall|i: int, j: int|
            0 <= i < after.len() && 0 <= j < after.len() && i != j implies (#[trigger] after[i]).token
            != (#[trigger] after[j]).token by {
            assert(after[i].token == entries[i].token);
            assert(after[j].token == entries[j].token);
        }
        assert forall|i: int| 0 <= i < after.len() implies (#[trigger] after[i]).postings.len()
            > 0 by {
            assert(entries[i].postings.len() > 0);
        }
        assert forall|i: int, m: int|
            0 <= i < after.len() && 0 <= m < after[i].postings.len() implies posting_wf(
            #[trigger] after[i].postings[m],
            documents,
        ) by {
            if i == k && m == entries[k].postings.len() {
            } else {
                assert(after[i].postings[m] == entries[i].postings[m]);
            }
        }
    } else {
        assert forall|i: int, j: int|
            0 <= i < after.len() && 0 <= j < after.len() && i != j implies (#[trigger] after[i]).token
            != (#[trigger] after[j]).token by {
            if i < entries.len() {
                assert(after[i] == entries[i]);
            }
            if j < entries.len() {
                assert(after[j] == entries[j]);
            }
        }
        assert forall|i: int| 0 <= i < after.len() implies (#[trigger] after[i]).postings.len()
            > 0 by {
            if i < entries.len() {
                assert(after[i] == entries[i]);
            }
        }
        assert forall|i: int, m: int|
            0 <= i < after.len() && 0 <= m < after[i].postings.len() implies posting_wf(
            #[trigger] after[i].postings[m],
            documents,
        ) by {
            if i < entries.len() {
                assert(after[i] == entries[i]);
                assert(after[i].postings[m] == entries[i].postings[m]);
            }
        }
    }
}

/// Postings of a stored document for any tokens keep the entries well formed.
pub proof fn lemma_with_postings_wf(
    entries: Seq<EntryView>,
    documents: Seq<DocumentView>,
    tokens: Seq<Seq<char>>,
    iid: u32,
    weight: u8,
)
    requires
        entries_wf(entries, documents),
        posting_wf(Posting { iid, weight }, documents),
    ensures
        entries_wf(with_postings(entries, tokens, iid, weight), documents),
    decreases tokens.len(),
{
    if tokens.len() > 0 {
        lemma_with_postings_wf(entries, documents, tokens.drop_last(), iid, weight);
        lemma_with_posting_wf(
            with_postings(entries, tokens.drop_last(), iid, weight),
            documents,
            tokens.last(),
            Posting { iid, weight },
        );
    }
}

/// What is left of a posting list without `iid` was in it, in the same
/// order, and is not of `iid`; what was of another document is still there.
pub proof fn lemma_without_iid(postings: Seq<Posting>, iid: u32)
    ensures
        without_iid(postings, iid).len() <= postings.len(),
        forall|m: int|
            0 <= m < without_iid(postings, iid).len() ==> {
                &&& (#[trigger] without_iid(postings, iid)[m]).iid != iid
                &&& postings.contains(without_iid(postings, iid)[m])
            },
        forall|m: int|
            0 <= m < postings.len() && (#[trigger] postings[m]).iid != iid ==> without_iid(
                postings,
                iid,
            ).contains(postings[m]),
        (forall|m: int| 0 <= m < postings.len() ==> (#[trigger] postings[m]).iid != iid)
            ==> without_iid(postings, iid) == postings,
    decreases postings.len(),
{
    let kept = without_iid(postings, iid);
    if postings.len() > 0 {
        let front = postings.drop_last();
        let before = without_iid(front, iid);
        lemma_without_iid(front, iid);
        assert forall|m: int| 0 <= m < kept.len() implies {
            &&& (#[trigger] kept[m]).iid != iid
            &&& postings.contains(kept[m])
        } by {
            if m < before.len() {
                assert(kept[m] == before[m]);
                let j = choose|j: int| 0 <= j < front.len() && front[j] == before[m];
                assert(postings[j] == kept[m]);
            } else {
                assert(postings[postings.len() - 1] == kept[m]);
            }
        }
        assert forall|m: int| 0 <= m < postings.len() && (#[trigger] postings[m]).iid
            != iid implies kept.contains(postings[m]) by {
            if m < front.len() {
                assert(front[m] == postings[m]);
                let j = choose|j: int| 0 <= j < before.len() && before[j] == front[m];
                assert(kept[j] == postings[m]);
            } else {
                assert(kept[kept.len() - 1] == postings[m]);
            }
        }
        if forall|m: int| 0 <= m < postings.len() ==> (#[trigger] postings[m]).iid != iid {
            assert forall|m: int| 0 <= m < front.len() implies (#[trigger] front[m]).iid != iid by {
                assert(front[m] == postings[m]);
            }
            assert(postings.last() == postings[postings.len() - 1]);
            assert(kept =~= postings);
        }
    } else {
        assert(kept =~= postings);
    }
}

/// Every entry that is left after a purge comes from an entry of the same
/// token, whose list it holds without the postings of `iid`.
pub proof fn lemma_purged_sources(entries: Seq<EntryView>, iid: u32)
    ensures
        purged(entries, iid).len() <= entries.len(),
        forall|k: int|
            0 <= k < purged(entries, iid).len() ==> {
                &&& (#[trigger] purged(entries, iid)[k]).postings.len() > 0
                &&& exists|j: int|
                    0 <= j < entries.len() && (#[trigger] entries[j]).token == purged(
                        entries,
                        iid,
                    )[k].token && purged(entries, iid)[k].postings == without_iid(
                        entries[j].postings,
                        iid,
                    )
            },
    decreases entries.len(),
{
    let after = purged(entries, iid);
    if entries.len() > 0 {
        let front = entries.drop_last();
        let before = purged(front, iid);
        lemma_purged_sources(front, iid);
        assert forall|k: int| 0 <= k < after.len() implies {
            &&& (#[trigger] after[k]).postings.len() > 0
            &&& exists|j: int|
                0 <= j < entries.len() && (#[trigger] entries[j]).token == after[k].token
                    && after[k].postings == without_iid(entries[j].postings, iid)
        } by {
            if k < before.len() {
                assert(after[k] == before[k]);
                let j = choose|j: int|
                    0 <= j < front.len() && (#[trigger] front[j]).token == before[k].token
                        && before[k].postings == without_iid(front[j].postings, iid);
                assert(entries[j] == front[j]);
            } else {
                assert(entries[entries.len() - 1].token == after[k].token);
            }
        }
    }
}

/// A purge keeps the entries well formed, for the documents without the one
/// that was purged.
pub proof fn lemma_purged_wf(
    entries: Seq<EntryView>,
    documents: Seq<DocumentView>,
    position: int,
    remaining: Seq<DocumentView>,
)
    requires
        entries_wf(entries, documents),
        0 <= position < documents.len(),
        forall|iid: u32|
            stores_iid(documents, iid) && iid != documents[position].iid ==> stores_iid(
                remaining,
                iid,
            ),
    ensures
        entries_wf(purged(entries, documents[position].iid), remaining),
    decreases entries.len(),
{
    let iid = documents[position].iid;
    let after = purged(entries, iid);
    lemma_purged_sources(entries, iid);
    if entries.len() > 0 {
        let front = entries.drop_last();
        let before = purged(front, iid);
        assert(entries_wf(front, documents)) by {
            assert forall|i: int, j: int|
                0 <= i < front.len() && 0 <= j < front.len() && i != j implies (
            #[trigger] front[i]).token != (#[trigger] front[j]).token by {
                assert(front[i] == entries[i]);
                assert(front[j] == entries[j]);
            }
            assert forall|k: int| 0 <= k < front.len() implies (#[trigger] front[k]).postings.len()
                > 0 by {
                assert(front[k] == entries[k]);
            }
            assert forall|k: int, m: int|
                0 <= k < front.len() && 0 <= m < front[k].postings.len() implies posting_wf(
                #[trigger] front[k].postings[m],
                documents,
            ) by {
                assert(front[k] == entries[k]);
                assert(front[k].postings[m] == entries[k].postings[m]);
            }
        }
        lemma_purged_wf(front, documents, position, remaining);
        lemma_purged_sources(front, iid);
        let last = entries.last();
        let kept = without_iid(last.postings, iid);
        lemma_without_iid(last.postings, iid);
        assert forall|i: int, j: int|
            0 <= i < after.len() && 0 <= j < after.len() && i != j implies (#[trigger] after[i]).token
            != (#[trigger] after[j]).token by {
            if i < before.len() && j < before.len() {
                assert(after[i] == before[i]);
                assert(after[j] == before[j]);
            } else if i < before.len() {
                assert(after[i] == before[i]);
                let src = choose|src: int|
                    0 <= src < front.len() && (#[trigger] front[src]).token == before[i].token
                        && before[i].postings == without_iid(front[src].postings, iid);
                assert(front[src] == entries[src]);
                assert(entries[entries.len() - 1].token == after[j].token);
            } else {
                assert(after[j] == before[j]);
                let src = choose|src: int|
                    0 <= src < front.len() && (#[trigger] front[src]).token == before[j].token
                        && before[j].postings == without_iid(front[src].postings, iid);
                assert(front[src] == entries[src]);
                assert(entries[entries.len() - 1].token == after[i].token);
            }
        }
        assert forall|k: int, m: int|
            0 <= k < after.len() && 0 <= m < after[k].postings.len() implies posting_wf(
            #[trigger] after[k].postings[m],
            remaining,
        ) by {
            if k < before.len() {
                assert(after[k] == before[k]);
                assert(posting_wf(before[k].postings[m], remaining));
            } else {
                assert(after[k].postings == kept);
                assert(kept[m].iid != iid);
                let src = choose|src: int|
                    0 <= src < last.postings.len() && last.postings[src] == kept[m];
                assert(posting_wf(entries[entries.len() - 1].postings[src], documents));
            }
        }
    }
}

/// Where the document with the external id `id` stands, if it is stored.
fn find_id(documents: &Vec<Document>, id: &String) -> (out: Option<usize>)
    ensures
        match out {
            Some(i) => i < documents@.len() && document_views(documents@)[i as int].id == id@,
            None => forall|k: int|
                0 <= k < documents@.len() ==> (#[trigger] document_views(documents@)[k]).id != id@,
        },
{
    let ghost views = document_views(documents@);
    let mut i: usize = 0;
    while i < documents.len()
        invariant
            i <= documents.len(),
            views == document_views(documents@),
            forall|k: int| 0 <= k < i ==> (#[trigger] views[k]).id != id@,
        decreases documents.len() - i,
    {
        assert(views[i as int] == documents@[i as int]@);
        if documents[i].id == *id {
            return Some(i);
        }
        i = i + 1;
    }
    None
}

/// Appends a posting of `iid` with `weight` for each token, in order.
fn add_postings(entries: &mut Vec<TokenEntry>, tokens: &Vec<String>, iid: u32, weight: u8)
    requires
        distinct_tokens(entry_views(old(entries)@)),
    ensures
        entry_views(final(entries)@) == with_postings(
            entry_views(old(entries)@),
            texts(tokens@),
            iid,
            weight,
        ),
        distinct_tokens(entry_views(final(entries)@)),
{
    let ghost start = entry_views(entries@);
    let mut i: usize = 0;
    while i < tokens.len()
        invariant
            i <= tokens.len(),
            distinct_tokens(entry_views(entries@)),
            entry_views(entries@) == with_postings(start, texts(tokens@).take(i as int), iid, weight),
        decreases tokens.len() - i,
    {
        let ghost upto = texts(tokens@).take(i as int + 1);
        assert(upto.drop_last() =~= texts(tokens@).take(i as int));
        assert(upto.last() == tokens@[i as int]@);
        proof {
            lemma_with_posting_distinct(entry_views(entries@), tokens@[i as int]@, Posting { iid, weight });
        }
        add_posting(entries, tokens[i].clone(), Posting { iid, weight });
        i = i + 1;
    }
    assert(texts(tokens@).take(tokens.len() as int) =~= texts(tokens@));
}

/// One more posting gives no token a second entry.
pub proof fn lemma_with_posting_distinct(entries: Seq<EntryView>, token: Seq<char>, p: Posting)
    requires
        distinct_tokens(entries),
    ensures
        distinct_tokens(with_posting(entries, token, p)),
{
    let after = with_posting(entries, token, p);
    if contains_token(entries, token) {
        let k = token_index(entries, token);
        assert(entries[k].token == token);
        assert forall|i: int, j: int|
            0 <= i < after.len() && 0 <= j < after.len() && i != j implies (#[trigger] after[i]).token
            != (#[trigger] after[j]).token by {
            assert(after[i].token == entries[i].token);
            assert(after[j].token == entries[j].token);
        }
    } else {
        assert forall|i: int, j: int|
            0 <= i < after.len() && 0 <= j < after.len() && i != j implies (#[trigger] after[i]).token
            != (#[trigger] after[j]).token by {
            if i < entries.len() {
                assert(after[i] == entries[i]);
            }
            if j < entries.len() {
                assert(after[j] == entries[j]);
            }
        }
    }
}

/// The postings that are not of `iid`, in order.
fn postings_without(postings: &Vec<Posting>, iid: u32) -> (out: Vec<Posting>)
    ensures
        out@ == without_iid(postings@, iid),
{
    let mut out: Vec<Posting> = Vec::new();
    let mut i: usize = 0;
    while i < postings.len()
        invariant
            i <= postings.len(),
            out@ == without_iid(postings@.take(i as int), iid),
        decreases postings.len() - i,
    {
        assert(postings@.take(i as int + 1).drop_last() =~= postings@.take(i as int));
        let p = postings[i];
        if p.iid != iid {
            out.push(p);
        }
        i = i + 1;
    }
    assert(postings@.take(postings.len() as int) =~= postings@);
    out
}

/// Drops every posting of `iid`, and every token that is left with none.
fn purge(entries: &mut Vec<TokenEntry>, iid: u32)
    ensures
        entry_views(final(entries)@) == purged(entry_views(old(entries)@), iid),
{
    let ghost views = entry_views(entries@);
    let mut kept: Vec<TokenEntry> = Vec::new();
    let mut i: usize = 0;
    while i < entries.len()
        invariant
            i <= entries.len(),
            views == entry_views(entries@),
            entry_views(kept@) == purged(views.take(i as int), iid),
        decreases entries.len() - i,
    {
        assert(views.take(i as int + 1).drop_last() =~= views.take(i as int));
        assert(views[i as int] == entries@[i as int]@);
        let postings = postings_without(&entries[i].postings, iid);
        if postings.len() > 0 {
            let ghost before = entry_views(kept@);
            let token = entries[i].token.clone();
            kept.push(TokenEntry { token, postings });
            assert(entry_views(kept@) =~= before.push(
                EntryView { token: views[i as int].token, postings: postings@ },
            ));
        }
        i = i + 1;
    }
    assert(views.take(entries.len() as int) =~= views);
    *entries = kept;
}

impl Index {
    /// Whether the index is well formed.
    pub open spec fn wf(&self) -> bool {
        self@.wf()
    }

    /// The number of stored documents.
    pub fn items_count(&self) -> (out: usize)
        ensures
            out == self@.documents.len(),
    {
        self.documents.len()
    }

    /// The number of tokens that have a posting list.
    pub fn tokens_count(&self) -> (out: usize)
        ensures
            out == self@.entries.len(),
    {
        self.entries.len()
    }

    /// Whether a document with the external id `id` is stored.
    pub fn contains(&self, id: &String) -> (out: bool)
        ensures
            out == self@.has_id(id@),
    {
        match find_id(&self.documents, id) {
            Some(found) => {
                assert(self@.documents[found as int].id == id@);
                true
            },
            None => false,
        }
    }

    /// The serialized form of every stored document, in the order of their
    /// internal ids.
    pub fn bodies(&self) -> (out: Vec<String>)
        ensures
            texts(out@) == self@.bodies(),
    {
        let ghost views = self@.documents;
        let mut out: Vec<String> = Vec::new();
        let mut i: usize = 0;
        while i < self.documents.len()
            invariant
                i <= self.documents.len(),
                views == document_views(self.documents@),
                texts(out@) == views.take(i as int).map_values(|d: DocumentView| d.body),
            decreases self.documents.len() - i,
        {
            let ghost before = texts(out@);
            assert(views[i as int] == self.documents@[i as int]@);
            out.push(self.documents[i].body.clone());
            assert(texts(out@) =~= before.push(views[i as int].body));
            assert(texts(out@) =~= views.take(i as int + 1).map_values(
                |d: DocumentView| d.body,
            ));
            i = i + 1;
        }
        assert(views.take(self.documents.len() as int) =~= views);
        out
    }
}

/// Registers the tokens of a document: a posting with the weight of a gram
/// for every gram, then one with the weight of a word for every word.
pub fn index_tokens(index: &mut Index, iid: u32, grams: &Vec<String>, words: &Vec<String>)
    requires
        old(index)@.wf(),
        old(index)@.has_iid(iid),
    ensures
        final(index)@ == old(index)@.with_tokens(iid, texts(grams@), texts(words@)),
        final(index)@.wf(),
{
    proof {
        let v = index@;
        lemma_with_postings_wf(v.entries, v.documents, texts(grams@), iid, GRAM_WEIGHT);
        lemma_with_postings_wf(
            with_postings(v.entries, texts(grams@), iid, GRAM_WEIGHT),
            v.documents,
            texts(words@),
            iid,
            WORD_WEIGHT,
        );
    }
    add_postings(&mut index.entries, grams, iid, GRAM_WEIGHT);
    add_postings(&mut index.entries, words, iid, WORD_WEIGHT);
}

/// Registers the tokens of `to_tokenize` for the stored document `iid`.
pub fn index_item(index: &mut Index, iid: u32, to_tokenize: String)
    requires
        old(index)@.wf(),
        old(index)@.has_iid(iid),
    ensures
        final(index)@ == old(index)@.with_tokens(
            iid,
            spec_gramify(to_tokenize@),
            spec_clean_words(to_tokenize@),
        ),
        final(index)@.wf(),
{
    let grams = gramify(to_tokenize.clone());
    let words = clean_words(to_tokenize);
    index_tokens(index, iid, &grams, &words);
}

/// Stores a new document under the next internal id and registers the tokens
/// of `to_tokenize` for it. Nothing changes where the external id is taken or
/// no internal id is left.
pub fn add(index: &mut Index, id: String, obj: String, to_tokenize: String) -> (out: Result<
    u32,
    IndexError,
>)
    requires
        old(index)@.wf(),
    ensures
        final(index)@.wf(),
        match out {
            Ok(iid) => {
                &&& !old(index)@.has_id(id@)
                &&& old(index)@.id_counter < u32::MAX
                &&& iid == old(index)@.id_counter
                &&& final(index)@ == old(index)@.with_document(id@, obj@).with_tokens(
                    iid,
                    spec_gramify(to_tokenize@),
                    spec_clean_words(to_tokenize@),
                )
                &&& final(index)@.has_id(id@)
                &&& final(index)@.has_iid(iid)
            },
            Err(e) => {
                &&& final(index)@ == old(index)@
                &&& e == (if old(index)@.has_id(id@) {
                    IndexError::DuplicateId
                } else {
                    IndexError::Exhausted
                })
                &&& (old(index)@.has_id(id@) || old(index)@.id_counter == u32::MAX)
            },
        },
{
    let ghost before = index@;
    match find_id(&index.documents, &id) {
        Some(found) => {
            assert(before.documents[found as int].id == id@);
            return Err(IndexError::DuplicateId);
        },
        None => {},
    }
    if index.id_counter == u32::MAX {
        return Err(IndexError::Exhausted);
    }
    let iid = index.id_counter;
    index.documents.push(Document { iid, id, body: obj });
    index.id_counter = iid + 1;
    proof {
        let stored = before.with_document(id@, obj@);
        assert(index@.documents =~= stored.documents);
        assert(index@ == stored);
        lemma_with_document_wf(before, id@, obj@);
        assert(stored.documents[stored.documents.len() - 1].iid == iid);
        assert(stored.documents[stored.documents.len() - 1].id == id@);
    }
    index_item(index, iid, to_tokenize);
    Ok(iid)
}

/// A new document under the next internal id keeps the state well formed.
pub proof fn lemma_with_document_wf(v: IndexView, id: Seq<char>, body: Seq<char>)
    requires
        v.wf(),
        !v.has_id(id),
        v.id_counter < u32::MAX,
    ensures
        v.with_document(id, body).wf(),
        v.with_document(id, body).has_iid(v.id_counter),
{
    let after = v.with_document(id, body);
    assert forall|i: int, j: int| 0 <= i < j < after.documents.len() implies (
    #[trigger] after.documents[i]).iid < (#[trigger] after.documents[j]).iid by {
        assert(after.documents[i] == v.documents[i]);
        if j < v.documents.len() {
            assert(after.documents[j] == v.documents[j]);
        }
    }
    assert forall|i: int, j: int|
        0 <= i < after.documents.len() && 0 <= j < after.documents.len() && i != j implies (
    #[trigger] after.documents[i]).id != (#[trigger] after.documents[j]).id by {
        if i < v.documents.len() {
            assert(after.documents[i] == v.documents[i]);
        }
        if j < v.documents.len() {
            assert(after.documents[j] == v.documents[j]);
        }
    }
    assert forall|i: int| 0 <= i < after.documents.len() implies (
    #[trigger] after.documents[i]).iid < after.id_counter by {
        if i < v.documents.len() {
            assert(after.documents[i] == v.documents[i]);
        }
    }
    assert forall|k: int, m: int|
        0 <= k < after.entries.len() && 0 <= m < after.entries[k].postings.len() implies posting_wf(
        #[trigger] after.entries[k].postings[m],
        after.documents,
    ) by {
        let p = v.entries[k].postings[m];
        assert(posting_wf(p, v.documents));
        let i = choose|i: int| 0 <= i < v.documents.len() && (#[trigger] v.documents[i]).iid == p.iid;
        assert(after.documents[i] == v.documents[i]);
    }
    assert(after.documents[after.documents.len() - 1].iid == v.id_counter);
}

/// Removes the document with the external id `id` and all its postings.
/// Returns whether there was one.
pub fn remove(index: &mut Index, id: String) -> (out: bool)
    requires
        old(index)@.wf(),
    ensures
        final(index)@.wf(),
        out == old(index)@.has_id(id@),
        final(index)@ == old(index)@.without_id(id@),
{
    let ghost before = index@;
    match find_id(&index.documents, &id) {
        None => false,
        Some(position) => {
            proof {
                assert(before.documents[position as int].id == id@);
                let chosen = before.position_of_id(id@);
                assert(before.documents[chosen].id == id@);
                assert(chosen == position);
                assert(before.documents[position as int] == index.documents@[position as int]@);
            }
            let iid = index.documents[position].iid;
            index.documents.remove(position);
            purge(&mut index.entries, iid);
            proof {
                let after = before.without_document(position as int);
                assert(index@.documents =~= after.documents);
                lemma_without_document_wf(before, position as int);
            }
            true
        },
    }
}

/// Without one of its documents the state is still well formed.
pub proof fn lemma_without_document_wf(v: IndexView, position: int)
    requires
        v.wf(),
        0 <= position < v.documents.len(),
    ensures
        v.without_document(position).wf(),
{
    let after = v.without_document(position);
    let iid = v.documents[position].iid;
    assert forall|i: int| 0 <= i < after.documents.len() implies (#[trigger] after.documents[i])
        == v.documents[if i < position {
        i
    } else {
        i + 1
    }] by {}
    assert forall|i: int, j: int| 0 <= i < j < after.documents.len() implies (
    #[trigger] after.documents[i]).iid < (#[trigger] after.documents[j]).iid by {
        let a = if i < position { i } else { i + 1 };
        let b = if j < position { j } else { j + 1 };
        assert(v.documents[a].iid < v.documents[b].iid);
    }
    assert forall|i: int, j: int|
        0 <= i < after.documents.len() && 0 <= j < after.documents.len() && i != j implies (
    #[trigger] after.documents[i]).id != (#[trigger] after.documents[j]).id by {
        let a = if i < position { i } else { i + 1 };
        let b = if j < position { j } else { j + 1 };
        assert(v.documents[a].id != v.documents[b].id);
    }
    assert forall|i: int| 0 <= i < after.documents.len() implies (
    #[trigger] after.documents[i]).iid < after.id_counter by {
        let a = if i < position { i } else { i + 1 };
        assert(v.documents[a].iid < v.id_counter);
    }
    assert forall|other: u32|
        stores_iid(v.documents, other) && other != iid implies stores_iid(
        after.documents,
        other,
    ) by {
        let i = choose|i: int| 0 <= i < v.documents.len() && (#[trigger] v.documents[i]).iid == other;
        let a = if i < position { i } else { i - 1 };
        assert(after.documents[a] == v.documents[i]);
    }
    lemma_purged_wf(v.entries, v.documents, position, after.documents);
}

/// With a new serialized form for one document, and without that document's
/// postings, the state is still well formed.
pub proof fn lemma_with_body_wf(v: IndexView, position: int, body: Seq<char>)
    requires
        v.wf(),
        0 <= position < v.documents.len(),
    ensures
        v.with_body(position, body).wf(),
        v.with_body(position, body).has_iid(v.documents[position].iid),
{
    let after = v.with_body(position, body);
    assert forall|i: int| 0 <= i < after.documents.len() implies {
        &&& (#[trigger] after.documents[i]).iid == v.documents[i].iid
        &&& after.documents[i].id == v.documents[i].id
    } by {}
    assert forall|i: int, j: int| 0 <= i < j < after.documents.len() implies (
    #[trigger] after.documents[i]).iid < (#[trigger] after.documents[j]).iid by {
        assert(v.documents[i].iid < v.documents[j].iid);
    }
    assert forall|i: int, j: int|
        0 <= i < after.documents.len() && 0 <= j < after.documents.len() && i != j implies (
    #[trigger] after.documents[i]).id != (#[trigger] after.documents[j]).id by {
        assert(v.documents[i].id != v.documents[j].id);
    }
    assert forall|i: int| 0 <= i < after.documents.len() implies (
    #[trigger] after.documents[i]).iid < after.id_counter by {
        assert(v.documents[i].iid < v.id_counter);
    }
    assert forall|other: u32|
        stores_iid(v.documents, other) && other != v.documents[position].iid implies stores_iid(
        after.documents,
        other,
    ) by {
        let i = choose|i: int| 0 <= i < v.documents.len() && (#[trigger] v.documents[i]).iid == other;
        assert(after.documents[i].iid == other);
    }
    lemma_purged_wf(v.entries, v.documents, position, after.documents);
    assert(after.documents[position].iid == v.documents[position].iid);
}

/// Removes every document and every token. The counter stays, so that no
/// internal id is given out twice.
pub fn clear(index: &mut Index)
    ensures
        final(index)@ == old(index)@.emptied(),
        final(index)@.wf(),
{
    index.documents = Vec::new();
    index.entries = Vec::new();
    assert(index@.documents =~= Seq::<DocumentView>::empty());
    assert(index@.entries =~= Seq::<EntryView>::empty());
}

/// The least number of insertions, deletions and substitutions of single
/// characters that turn `a` into `b`.
pub open spec fn levenshtein(a: Seq<char>, b: Seq<char>) -> nat
    decreases a.len() + b.len(),
{
    if a.len() == 0 {
        b.len()
    } else if b.len() == 0 {
        a.len()
    } else {
        let substituted = levenshtein(a.drop_last(), b.drop_last()) + (if a.last() == b.last() {
            0nat
        } else {
            1nat
        });
        let deleted = levenshtein(a.drop_last(), b) + 1;
        let inserted = levenshtein(a, b.drop_last()) + 1;
        if substituted <= deleted && substituted <= inserted {
            substituted
        } else if deleted <= inserted {
            deleted
        } else {
            inserted
        }
    }
}

/// The distance is at most the length of the longer text.
pub proof fn lemma_levenshtein_bound(a: Seq<char>, b: Seq<char>)
    ensures
        levenshtein(a, b) <= a.len() || levenshtein(a, b) <= b.len(),
    decreases a.len() + b.len(),
{
    if a.len() > 0 && b.len() > 0 {
        lemma_levenshtein_bound(a.drop_last(), b.drop_last());
    }
}

/// Calls `strsim::levenshtein`, which gives the Levenshtein distance of the
/// two texts, counted in characters.
#[verifier::external_body]
fn edit_distance(a: &str, b: &str) -> (out: usize)
    ensures
        out == levenshtein(a@, b@),
{
    strsim::levenshtein(a, b)
}

/// The weights of the postings of `iid`, added up.
pub open spec fn weight_of(postings: Seq<Posting>, iid: u32) -> nat
    decreases postings.len(),
{
    if postings.len() == 0 {
        0
    } else {
        weight_of(postings.drop_last(), iid) + (if postings.last().iid == iid {
            postings.last().weight as nat
        } else {
            0nat
        })
    }
}

/// The score of the document `iid` for the query tokens: for each token, as
/// often as it occurs in the query, the weights of its postings of `iid`.
pub open spec fn score_of(entries: Seq<EntryView>, tokens: Seq<Seq<char>>, iid: u32) -> nat
    decreases tokens.len(),
{
    if tokens.len() == 0 {
        0
    } else {
        score_of(entries, tokens.drop_last(), iid) + weight_of(
            postings_of(entries, tokens.last()),
            iid,
        )
    }
}

/// A score as it is held: the largest value of the type stands for it and
/// for everything beyond.
pub open spec fn capped(n: nat) -> u64 {
    if n > u64::MAX {
        u64::MAX
    } else {
        n as u64
    }
}

/// A document that the query reached: its internal id, its place among the
/// documents, and its rank.
#[derive(Clone, Copy, Debug)]
pub struct Hit {
    pub iid: u32,
    pub position: usize,
    pub rank: Rank,
}

/// Of the first `n` hits, those whose rank is above half of the first hit's.
pub open spec fn upper_hits(list: Seq<Hit>, n: nat) -> Seq<Hit>
    decreases n,
{
    if n == 0 {
        Seq::<Hit>::empty()
    } else {
        let earlier = upper_hits(list, (n - 1) as nat);
        if list[n - 1].rank.above_half_of(list[0].rank) {
            earlier.push(list[n - 1])
        } else {
            earlier
        }
    }
}

impl IndexView {
    /// The rank of the document at `position` for a query and its tokens.
    pub open spec fn rank_of(self, query: Seq<char>, tokens: Seq<Seq<char>>, position: int) -> Rank {
        let d = self.documents[position];
        Rank {
            score: capped(score_of(self.entries, tokens, d.iid)),
            distance: levenshtein(query, d.body) as usize,
            span: (if query.len() >= d.body.len() {
                query.len()
            } else {
                d.body.len()
            }) as usize,
        }
    }

    /// The places among the first `n` documents of those with a positive
    /// score, in order.
    pub open spec fn reached(self, tokens: Seq<Seq<char>>, n: nat) -> Seq<usize>
        decreases n,
    {
        if n == 0 {
            Seq::<usize>::empty()
        } else {
            let earlier = self.reached(tokens, (n - 1) as nat);
            if score_of(self.entries, tokens, self.documents[n - 1].iid) > 0 {
                earlier.push((n - 1) as usize)
            } else {
                earlier
            }
        }
    }

    /// The ranks of the reached documents, in the order of `reached`.
    pub open spec fn reached_ranks(self, query: Seq<char>, tokens: Seq<Seq<char>>) -> Seq<Rank> {
        let places = self.reached(tokens, self.documents.len());
        Seq::new(places.len(), |k: int| self.rank_of(query, tokens, places[k] as int))
    }

    /// The reached documents from the highest rank down; documents of equal
    /// rank stand in the order of their internal ids.
    pub open spec fn ranked(self, query: Seq<char>, tokens: Seq<Seq<char>>) -> Seq<Hit> {
        let places = self.reached(tokens, self.documents.len());
        let ranks = self.reached_ranks(query, tokens);
        let order = sorted_order(ranks);
        Seq::new(
            order.len(),
            |k: int|
                Hit {
                    iid: self.documents[places[order[k] as int] as int].iid,
                    position: places[order[k] as int],
                    rank: ranks[order[k] as int],
                },
        )
    }

    /// The serialized forms of the hits whose rank is above half of the
    /// highest, from the highest rank down.
    pub open spec fn ranked_bodies(self, query: Seq<char>, tokens: Seq<Seq<char>>) -> Seq<
        Seq<char>,
    > {
        let list = self.ranked(query, tokens);
        upper_hits(list, list.len()).map_values(|h: Hit| self.documents[h.position as int].body)
    }

    /// Whether the document with the external id `id` is among the hits for
    /// the query tokens whose rank is above half of the highest.
    pub open spec fn finds(self, query: Seq<char>, tokens: Seq<Seq<char>>, id: Seq<char>) -> bool {
        let list = self.ranked(query, tokens);
        let upper = upper_hits(list, list.len());
        self.has_id(id) && exists|k: int|
            0 <= k < upper.len() && (#[trigger] upper[k]).position == self.position_of_id(id)
    }

    /// Whether a search for the trimmed query returns the document with the
    /// external id `id`.
    pub open spec fn gives(self, query: Seq<char>, id: Seq<char>) -> bool {
        if query.len() == 0 {
            self.has_id(id)
        } else {
            self.finds(query, spec_gramify(query) + spec_clean_words(query), id)
        }
    }

    /// Whether the lengths of the query and of the stored documents, and
    /// the number of documents, are lengths that a machine holds.
    pub open spec fn fits(self, query: Seq<char>) -> bool {
        &&& query.len() <= usize::MAX
        &&& self.documents.len() <= usize::MAX
        &&& forall|i: int|
            0 <= i < self.documents.len() ==> (#[trigger] self.documents[i]).body.len()
                <= usize::MAX
    }

    /// What a search returns for a trimmed query: every document for the
    /// empty query, otherwise the upper hits for its grams and words.
    pub open spec fn search_result(self, query: Seq<char>) -> Seq<Seq<char>> {
        if query.len() == 0 {
            self.bodies()
        } else {
            self.ranked_bodies(query, spec_gramify(query) + spec_clean_words(query))
        }
    }
}

/// Where the document with the internal id `iid` stands, if it is stored.
fn position_of(documents: &Vec<Document>, iid: u32) -> (out: Option<usize>)
    requires
        forall|i: int, j: int|
            0 <= i < j < documents@.len() ==> (#[trigger] document_views(documents@)[i]).iid < (
            #[trigger] document_views(documents@)[j]).iid,
    ensures
        match out {
            Some(i) => i < documents@.len() && document_views(documents@)[i as int].iid == iid,
            None => forall|k: int|
                0 <= k < documents@.len() ==> (#[trigger] document_views(documents@)[k]).iid
                    != iid,
        },
{
    let ghost views = document_views(documents@);
    let mut low: usize = 0;
    let mut high: usize = documents.len();
    while low < high
        invariant
            low <= high <= documents.len(),
            views == document_views(documents@),
            forall|i: int, j: int|
                0 <= i < j < views.len() ==> (#[trigger] views[i]).iid < (#[trigger] views[j]).iid,
            forall|k: int| 0 <= k < low ==> (#[trigger] views[k]).iid < iid,
            forall|k: int| high <= k < views.len() ==> (#[trigger] views[k]).iid > iid,
        decreases high - low,
    {
        let middle: usize = low + (high - low) / 2;
        assert(views[middle as int] == documents@[middle as int]@);
        let found: u32 = documents[middle].iid;
        if found == iid {
            return Some(middle);
        } else if found < iid {
            assert forall|k: int| 0 <= k < middle + 1 implies (#[trigger] views[k]).iid < iid by {
                if k < middle {
                    assert(views[k].iid < views[middle as int].iid);
                }
            }
            low = middle + 1;
        } else {
            assert forall|k: int| middle <= k < views.len() implies (#[trigger] views[k]).iid
                > iid by {
                if k > middle {
                    assert(views[middle as int].iid < views[k].iid);
                }
            }
            high = middle;
        }
    }
    None
}

/// A posting counts for the document it is of, and for no other.
proof fn lemma_weight_step(postings: Seq<Posting>, j: int, iid: u32)
    requires
        0 <= j < postings.len(),
    ensures
        weight_of(postings.take(j + 1), iid) == weight_of(postings.take(j), iid) + (if postings[j].iid
            == iid {
            postings[j].weight as nat
        } else {
            0nat
        }),
{
    assert(postings.take(j + 1).drop_last() =~= postings.take(j));
}

/// The capped score of every document for the query tokens, by place.
fn scores_for(index: &Index, tokens: &Vec<String>) -> (out: Vec<u64>)
    requires
        index@.wf(),
    ensures
        out@.len() == index@.documents.len(),
        forall|d: int|
            0 <= d < out@.len() ==> (#[trigger] out@[d]) == capped(
                score_of(index@.entries, texts(tokens@), index@.documents[d].iid),
            ),
{
    let ghost v = index@;
    let ghost all = texts(tokens@);
    let mut scores: Vec<u64> = Vec::new();
    let mut d: usize = 0;
    while d < index.documents.len()
        invariant
            d <= index.documents.len(),
            scores@.len() == d,
            forall|k: int| 0 <= k < d ==> (#[trigger] scores@[k]) == 0,
        decreases index.documents.len() - d,
    {
        scores.push(0);
        d = d + 1;
    }
    let mut i: usize = 0;
    while i < tokens.len()
        invariant
            i <= tokens.len(),
            v == index@,
            v.wf(),
            all == texts(tokens@),
            scores@.len() == v.documents.len(),
            forall|d: int|
                0 <= d < scores@.len() ==> (#[trigger] scores@[d]) == capped(
                    score_of(v.entries, all.take(i as int), v.documents[d].iid),
                ),
        decreases tokens.len() - i,
    {
        let ghost upto = all.take(i as int + 1);
        assert(upto.drop_last() =~= all.take(i as int));
        assert(upto.last() == tokens@[i as int]@);
        match find_token(&index.entries, &tokens[i]) {
            None => {},
            Some(k) => {
                assert(v.entries[k as int] == index.entries@[k as int]@);
                let postings = &index.entries[k].postings;
                let ghost list = postings@;
                assert(list == postings_of(v.entries, upto.last()));
                let mut j: usize = 0;
                while j < postings.len()
                    invariant
                        j <= postings.len(),
                        v == index@,
                        v.wf(),
                        list == postings@,
                        scores@.len() == v.documents.len(),
                        forall|d: int|
                            0 <= d < scores@.len() ==> (#[trigger] scores@[d]) == capped(
                                score_of(v.entries, all.take(i as int), v.documents[d].iid)
                                    + weight_of(list.take(j as int), v.documents[d].iid),
                            ),
                    decreases postings.len() - j,
                {
                    let p = postings[j];
                    let ghost earlier = scores@;
                    proof {
                        assert forall|d: int| 0 <= d < v.documents.len() implies weight_of(
                            list.take(j as int + 1),
                            (#[trigger] v.documents[d]).iid,
                        ) == weight_of(list.take(j as int), v.documents[d].iid) + (if p.iid
                            == v.documents[d].iid {
                            p.weight as nat
                        } else {
                            0nat
                        }) by {
                            lemma_weight_step(list, j as int, v.documents[d].iid);
                        }
                    }
                    match position_of(&index.documents, p.iid) {
                        None => {},
                        Some(at) => {
                            let held: u64 = scores[at];
                            let more: u64 = p.weight as u64;
                            let next: u64 = if held > u64::MAX - more {
                                u64::MAX
                            } else {
                                held + more
                            };
                            scores.set(at, next);
                            assert forall|d: int| 0 <= d < scores@.len() && d != at implies p.iid
                                != (#[trigger] v.documents[d]).iid by {
                                if d < at {
                                    assert(v.documents[d].iid < v.documents[at as int].iid);
                                } else {
                                    assert(v.documents[at as int].iid < v.documents[d].iid);
                                }
                            }
                        },
                    }
                    assert forall|d: int| 0 <= d < scores@.len() implies (#[trigger] scores@[d])
                        == capped(
                        score_of(v.entries, all.take(i as int), v.documents[d].iid) + weight_of(
                            list.take(j as int + 1),
                            v.documents[d].iid,
                        ),
                    ) by {
                        assert(earlier[d] == capped(
                            score_of(v.entries, all.take(i as int), v.documents[d].iid)
                                + weight_of(list.take(j as int), v.documents[d].iid),
                        ));
                        assert(weight_of(list.take(j as int + 1), v.documents[d].iid) == weight_of(
                            list.take(j as int),
                            v.documents[d].iid,
                        ) + (if p.iid == v.documents[d].iid {
                            p.weight as nat
                        } else {
                            0nat
                        }));
                    }
                    j = j + 1;
                }
                assert(list.take(postings.len() as int) =~= list);
            },
        }
        i = i + 1;
    }
    assert(all.take(tokens.len() as int) =~= all);
    scores
}

/// The documents that the query tokens reach, from the highest rank down.
/// The rank of a document is its score for the tokens plus the closeness of
/// `query` to its serialized form.
pub fn key_score_list_for(index: &Index, query: &String, tokens: &Vec<String>) -> (out: Vec<Hit>)
    requires
        index@.wf(),
        query@.len() > 0,
    ensures
        out@ == index@.ranked(query@, texts(tokens@)),
        forall|k: int|
            0 <= k < out@.len() ==> (#[trigger] out@[k]).position < index@.documents.len()
                && out@[k].rank.wf(),
{
    let ghost v = index@;
    let ghost all = texts(tokens@);
    let scores = scores_for(index, tokens);
    let length: usize = query.as_str().unicode_len();
    let mut places: Vec<usize> = Vec::new();
    let mut ranks: Vec<Rank> = Vec::new();
    let mut d: usize = 0;
    while d < index.documents.len()
        invariant
            d <= index.documents.len(),
            v == index@,
            all == texts(tokens@),
            length == query@.len(),
            length > 0,
            scores@.len() == v.documents.len(),
            forall|k: int|
                0 <= k < scores@.len() ==> (#[trigger] scores@[k]) == capped(
                    score_of(v.entries, all, v.documents[k].iid),
                ),
            places@ == v.reached(all, d as nat),
            ranks@.len() == places@.len(),
            forall|k: int| 0 <= k < places@.len() ==> (#[trigger] places@[k]) < d,
            forall|k: int|
                0 <= k < ranks@.len() ==> (#[trigger] ranks@[k]) == v.rank_of(
                    query@,
                    all,
                    places@[k] as int,
                ) && ranks@[k].wf(),
        decreases index.documents.len() - d,
    {
        assert(v.documents[d as int] == index.documents@[d as int]@);
        if scores[d] > 0 {
            let body = index.documents[d].body.as_str();
            let distance: usize = edit_distance(query.as_str(), body);
            let other: usize = body.unicode_len();
            let span: usize = if length >= other {
                length
            } else {
                other
            };
            proof {
                lemma_levenshtein_bound(query@, body@);
            }
            places.push(d);
            ranks.push(Rank { score: scores[d], distance, span });
        }
        d = d + 1;
    }
    assert(ranks@ =~= v.reached_ranks(query@, all));
    let order = stable_order(&ranks);
    let mut out: Vec<Hit> = Vec::new();
    let mut k: usize = 0;
    while k < order.len()
        invariant
            k <= order.len(),
            v == index@,
            order@ == sorted_order(ranks@),
            order@.len() == ranks@.len(),
            ranks@.len() == places@.len(),
            ranks@ == v.reached_ranks(query@, all),
            places@ == v.reached(all, v.documents.len()),
            forall|m: int| 0 <= m < order@.len() ==> (#[trigger] order@[m]) < ranks@.len(),
            forall|m: int| 0 <= m < places@.len() ==> (#[trigger] places@[m]) < v.documents.len(),
            forall|m: int| 0 <= m < ranks@.len() ==> (#[trigger] ranks@[m]).wf(),
            out@.len() == k,
            forall|m: int| 0 <= m < k ==> (#[trigger] out@[m]) == v.ranked(query@, all)[m],
            forall|m: int|
                0 <= m < k ==> (#[trigger] out@[m]).position < v.documents.len()
                    && out@[m].rank.wf(),
        decreases order.len() - k,
    {
        let at: usize = order[k];
        let position: usize = places[at];
        assert(v.documents[position as int] == index.documents@[position as int]@);
        out.push(Hit { iid: index.documents[position].iid, position, rank: ranks[at] });
        k = k + 1;
    }
    assert(out@ =~= v.ranked(query@, all));
    out
}

/// The documents that `query` reaches through its grams and words, from the
/// highest rank down.
pub fn get_key_score_list(index: &Index, query: String) -> (out: Vec<Hit>)
    requires
        index@.wf(),
        query@.len() > 0,
    ensures
        out@ == index@.ranked(query@, spec_gramify(query@) + spec_clean_words(query@)),
        forall|k: int|
            0 <= k < out@.len() ==> (#[trigger] out@[k]).position < index@.documents.len()
                && out@[k].rank.wf(),
{
    let mut tokens = gramify(query.clone());
    let mut words = clean_words(query.clone());
    let ghost grams = texts(tokens@);
    let ghost stems = texts(words@);
    tokens.append(&mut words);
    assert(texts(tokens@) =~= grams + stems);
    key_score_list_for(index, &query, &tokens)
}

/// The serialized forms of the hits whose rank is above half of the first
/// hit's, in the order of the list.
pub fn upper_bodies(index: &Index, list: &Vec<Hit>) -> (out: Vec<String>)
    requires
        forall|k: int|
            0 <= k < list@.len() ==> (#[trigger] list@[k]).position < index@.documents.len()
                && list@[k].rank.wf(),
    ensures
        texts(out@) == upper_hits(list@, list@.len()).map_values(
            |h: Hit| index@.documents[h.position as int].body,
        ),
{
    let ghost v = index@;
    let mut out: Vec<String> = Vec::new();
    let mut k: usize = 0;
    while k < list.len()
        invariant
            k <= list.len(),
            v == index@,
            forall|m: int|
                0 <= m < list@.len() ==> (#[trigger] list@[m]).position < v.documents.len()
                    && list@[m].rank.wf(),
            texts(out@) == upper_hits(list@, k as nat).map_values(
                |h: Hit| v.documents[h.position as int].body,
            ),
        decreases list.len() - k,
    {
        let hit = list[k];
        if hit.rank.is_above_half_of(&list[0].rank) {
            let ghost before = texts(out@);
            assert(v.documents[hit.position as int] == index.documents@[hit.position as int]@);
            out.push(index.documents[hit.position].body.clone());
            assert(texts(out@) =~= before.push(v.documents[hit.position as int].body));
            assert(texts(out@) =~= upper_hits(list@, (k + 1) as nat).map_values(
                |h: Hit| v.documents[h.position as int].body,
            ));
        }
        k = k + 1;
    }
    out
}

/// Searches the index. The query is trimmed; the empty query returns every
/// stored document, any other the hits whose rank is above half of the
/// highest, from the highest rank down.
pub fn search(index: &Index, raw_query: String) -> (out: Vec<String>)
    requires
        index@.wf(),
    ensures
        texts(out@) == index@.search_result(trimmed(raw_query@)),
        out@.len() == index@.search_result(trimmed(raw_query@)).len(),
{
    let query = trim(raw_query.as_str());
    if query.as_str().unicode_len() == 0 {
        return index.bodies();
    }
    let list = get_key_score_list(index, query);
    upper_bodies(index, &list)
}

/// The name of the attribute that holds a document's external id.
pub open spec fn id_key() -> Seq<char> {
    seq!['_', 'i', 'd']
}

/// The external id of a document: its string attribute `_id`, if it has one.
pub open spec fn document_id(obj: JsonValue) -> Option<Seq<char>> {
    match obj.get(id_key()) {
        JsonValue::Text(id) => Some(id),
        _ => None,
    }
}

/// A string value and a space; nothing for any other value.
pub open spec fn spaced_text(value: JsonValue) -> Seq<char> {
    match value {
        JsonValue::Text(s) => s.push(' '),
        _ => Seq::<char>::empty(),
    }
}

/// The spaced texts of the values, one after the other.
pub open spec fn spaced_texts(values: Seq<JsonValue>) -> Seq<char>
    decreases values.len(),
{
    if values.len() == 0 {
        Seq::<char>::empty()
    } else {
        spaced_texts(values.drop_last()) + spaced_text(values.last())
    }
}

/// The text that one attribute gives: a string itself, the strings among the
/// elements of an array, the strings among the member values of an object.
pub open spec fn field_text(value: JsonValue) -> Seq<char> {
    match value {
        JsonValue::Text(s) => s.push(' '),
        JsonValue::Array(items) => spaced_texts(items),
        JsonValue::Object(members) => spaced_texts(
            members.map_values(|m: (Seq<char>, JsonValue)| m.1),
        ),
        _ => Seq::<char>::empty(),
    }
}

/// The text of the named attributes of `obj`, in the order of the names.
pub open spec fn extracted(obj: JsonValue, fields: Seq<Seq<char>>) -> Seq<char>
    decreases fields.len(),
{
    if fields.len() == 0 {
        Seq::<char>::empty()
    } else {
        extracted(obj, fields.drop_last()) + field_text(obj.get(fields.last()))
    }
}

impl IndexView {
    /// Why `obj` cannot be added, if it cannot.
    pub open spec fn add_error(self, obj: JsonValue) -> Option<IndexError> {
        if document_id(obj) is None {
            Some(IndexError::MissingId)
        } else if self.has_id(document_id(obj)->0) {
            Some(IndexError::DuplicateId)
        } else if self.id_counter == u32::MAX {
            Some(IndexError::Exhausted)
        } else {
            None
        }
    }

    /// The state after `obj`, with the serialized form `raw`, was added and
    /// the trimmed text of its attributes `fields` indexed.
    pub open spec fn with_object(self, obj: JsonValue, raw: Seq<char>, fields: Seq<Seq<char>>)
        -> IndexView {
        let text = trimmed(extracted(obj, fields));
        self.with_document(document_id(obj)->0, raw).with_tokens(
            self.id_counter,
            spec_gramify(text),
            spec_clean_words(text),
        )
    }

    /// Why `obj` cannot replace a stored document, if it cannot.
    pub open spec fn update_error(self, obj: JsonValue) -> Option<IndexError> {
        if document_id(obj) is None {
            Some(IndexError::MissingId)
        } else if !self.has_id(document_id(obj)->0) {
            Some(IndexError::UnknownId)
        } else {
            None
        }
    }

    /// The state after `obj`, with the serialized form `raw`, replaced the
    /// stored document of its `_id`.
    pub open spec fn with_update(self, obj: JsonValue, raw: Seq<char>, fields: Seq<Seq<char>>)
        -> IndexView {
        let text = trimmed(extracted(obj, fields));
        let position = self.position_of_id(document_id(obj)->0);
        self.with_body(position, raw).with_tokens(
            self.documents[position].iid,
            spec_gramify(text),
            spec_clean_words(text),
        )
    }

    /// The state after the document `id` was removed, if there was one.
    pub open spec fn without_id(self, id: Seq<char>) -> IndexView {
        if self.has_id(id) {
            self.without_document(self.position_of_id(id))
        } else {
            self
        }
    }
}

/// Appends a string value and a space; nothing for any other value.
fn push_spaced(out: &mut String, value: &Json)
    ensures
        final(out)@ == old(out)@ + spaced_text(value@),
{
    proof {
        reveal_strlit(" ");
    }
    match value {
        Json::Text(s) => {
            let ghost before = out@;
            out.append(s.as_str());
            out.append(" ");
            assert(" "@ =~= seq![' ']);
            assert(out@ =~= before + s@.push(' '));
        },
        _ => {
            assert(out@ =~= out@ + Seq::<char>::empty());
        },
    }
}

/// The text of the named attributes of `obj`: each string with a space
/// behind it, in the order of the names.
pub fn extract_fields(obj: &Json, fields: Vec<String>) -> (out: String)
    ensures
        out@ == extracted(obj@, texts(fields@)),
{
    let ghost names = texts(fields@);
    let mut out = String::new();
    let mut i: usize = 0;
    while i < fields.len()
        invariant
            i <= fields.len(),
            names == texts(fields@),
            out@ == extracted(obj@, names.take(i as int)),
        decreases fields.len() - i,
    {
        let ghost upto = names.take(i as int + 1);
        assert(upto.drop_last() =~= names.take(i as int));
        assert(upto.last() == fields@[i as int]@);
        let ghost before = out@;
        match obj.get(fields[i].as_str()) {
            Some(value) => {
                match value {
                    Json::Array(items) => {
                        proof {
                            lemma_array_view(*value);
                        }
                        let ghost values = value@->Array_0;
                        let mut k: usize = 0;
                        while k < items.len()
                            invariant
                                k <= items.len(),
                                values.len() == items@.len(),
                                forall|m: int|
                                    0 <= m < items@.len() ==> (#[trigger] values[m]) == items@[m]@,
                                out@ == before + spaced_texts(values.take(k as int)),
                            decreases items.len() - k,
                        {
                            assert(values.take(k as int + 1).drop_last() =~= values.take(k as int));
                            assert(values[k as int] == items@[k as int]@);
                            push_spaced(&mut out, &items[k]);
                            k = k + 1;
                        }
                        assert(values.take(items.len() as int) =~= values);
                    },
                    Json::Object(members) => {
                        proof {
                            lemma_object_view(*value);
                        }
                        let ghost values = value@->Object_0.map_values(
                            |m: (Seq<char>, JsonValue)| m.1,
                        );
                        let mut k: usize = 0;
                        while k < members.len()
                            invariant
                                k <= members.len(),
                                values.len() == members@.len(),
                                forall|m: int|
                                    0 <= m < members@.len() ==> (#[trigger] values[m])
                                        == members@[m].value@,
                                out@ == before + spaced_texts(values.take(k as int)),
                            decreases members.len() - k,
                        {
                            assert(values.take(k as int + 1).drop_last() =~= values.take(k as int));
                            assert(values[k as int] == members@[k as int].value@);
                            push_spaced(&mut out, &members[k].value);
                            k = k + 1;
                        }
                        assert(values.take(members.len() as int) =~= values);
                    },
                    _ => {
                        push_spaced(&mut out, value);
                    },
                }
            },
            None => {
                assert(out@ =~= before + Seq::<char>::empty());
            },
        }
        i = i + 1;
    }
    assert(names.take(fields.len() as int) =~= names);
    out
}

/// The external id of a document, if it has one.
pub fn id_of(obj: &Json) -> (out: Option<String>)
    ensures
        match out {
            Some(id) => document_id(obj@) == Some(id@),
            None => document_id(obj@) is None,
        },
{
    proof {
        reveal_strlit("_id");
    }
    assert("_id"@ =~= id_key());
    match obj.get("_id") {
        Some(Json::Text(id)) => Some(id.clone()),
        _ => None,
    }
}

/// Stores the document `obj`, whose serialized form is `raw`, under the next
/// internal id and indexes the trimmed text of its attributes `fields`.
/// Nothing changes where `obj` has no string `_id`, where its `_id` is taken,
/// or where no internal id is left.
pub fn add_object(index: &mut Index, obj: &Json, raw: String, fields: Vec<String>) -> (out: Result<
    u32,
    IndexError,
>)
    requires
        old(index)@.wf(),
    ensures
        final(index)@.wf(),
        match out {
            Ok(iid) => {
                &&& old(index)@.add_error(obj@) is None
                &&& iid == old(index)@.id_counter
                &&& final(index)@ == old(index)@.with_object(obj@, raw@, texts(fields@))
                &&& final(index)@.has_id(document_id(obj@)->0)
            },
            Err(e) => {
                &&& old(index)@.add_error(obj@) == Some(e)
                &&& final(index)@ == old(index)@
            },
        },
{
    match id_of(obj) {
        None => Err(IndexError::MissingId),
        Some(id) => {
            let text = extract_fields(obj, fields);
            self::add(index, id, raw, trim(text.as_str()))
        },
    }
}

/// Gives the stored document `id` the serialized form `obj` and replaces its
/// postings by those of `to_tokenize`. Its internal id stays. Nothing changes
/// where no such document is stored.
pub fn replace(index: &mut Index, id: String, obj: String, to_tokenize: String) -> (out: Result<
    u32,
    IndexError,
>)
    requires
        old(index)@.wf(),
    ensures
        final(index)@.wf(),
        match out {
            Ok(iid) => {
                &&& old(index)@.has_id(id@)
                &&& iid == old(index)@.documents[old(index)@.position_of_id(id@)].iid
                &&& final(index)@ == old(index)@.with_body(
                    old(index)@.position_of_id(id@),
                    obj@,
                ).with_tokens(iid, spec_gramify(to_tokenize@), spec_clean_words(to_tokenize@))
            },
            Err(e) => {
                &&& final(index)@ == old(index)@
                &&& e == IndexError::UnknownId
                &&& !old(index)@.has_id(id@)
            },
        },
{
    let ghost before = index@;
    match find_id(&index.documents, &id) {
        None => Err(IndexError::UnknownId),
        Some(position) => {
            proof {
                assert(before.documents[position as int].id == id@);
                let chosen = before.position_of_id(id@);
                assert(before.documents[chosen].id == id@);
                assert(chosen == position);
                assert(before.documents[position as int] == index.documents@[position as int]@);
            }
            let iid = index.documents[position].iid;
            purge(&mut index.entries, iid);
            index.documents[position].body = obj;
            proof {
                let after = before.with_body(position as int, obj@);
                assert(index@.documents =~= after.documents);
                lemma_with_body_wf(before, position as int, obj@);
            }
            index_item(index, iid, to_tokenize);
            Ok(iid)
        },
    }
}

/// Replaces the stored document that has the `_id` of `obj` by `obj`, whose
/// serialized form is `raw`, and indexes the trimmed text of its attributes
/// `fields` anew. Nothing changes where `obj` has no string `_id` or no
/// document with that `_id` is stored.
pub fn update(index: &mut Index, obj: &Json, raw: String, fields: Vec<String>) -> (out: Result<
    u32,
    IndexError,
>)
    requires
        old(index)@.wf(),
    ensures
        final(index)@.wf(),
        match out {
            Ok(iid) => {
                &&& old(index)@.update_error(obj@) is None
                &&& iid == old(index)@.documents[old(index)@.position_of_id(
                    document_id(obj@)->0,
                )].iid
                &&& final(index)@ == old(index)@.with_update(obj@, raw@, texts(fields@))
            },
            Err(e) => {
                &&& old(index)@.update_error(obj@) == Some(e)
                &&& final(index)@ == old(index)@
            },
        },
{
    match id_of(obj) {
        None => Err(IndexError::MissingId),
        Some(id) => {
            let text = extract_fields(obj, fields);
            replace(index, id, raw, trim(text.as_str()))
        },
    }
}

/// The serialized documents that a query retrieves: those that `search`
/// gives for it, or every stored document where there is no query.
pub fn get_items(index: &Index, query: Option<String>) -> (out: Vec<String>)
    requires
        index@.wf(),
    ensures
        texts(out@) == (match query {
            Some(q) => index@.search_result(trimmed(q@)),
            None => index@.bodies(),
        }),
{
    match query {
        Some(q) => search(index, q),
        None => index.bodies(),
    }
}

} // verus!
