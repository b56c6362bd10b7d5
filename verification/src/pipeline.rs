//! What happens to the documents that a search retrieved: a filter keeps
//! some of them, a sort or a seeded shuffle arranges them, and one page of
//! their ids is cut out, with the counts that go with it.

use crate::filter::{check_tree_node, FilterTree};
use crate::index::{document_id, id_of};
use crate::json::{str_equal, Json, JsonValue};
use crate::sort::{
    key_order, lemma_sorted_by_agrees, lemma_sorted_by_nothing, lemma_sorted_by_rearranges,
    sorted_by, stable_order, SortKey,
};
use crate::text::{texts, to_chars};
use rand::rngs::StdRng;
use rand::seq::SliceRandom;
use rand::SeedableRng;
use vstd::prelude::*;

verus! {

/// The MD5 digest of the UTF-8 form of a text.
pub uninterp spec fn md5_of(text: Seq<char>) -> Seq<u8>;

/// The arrangement that a shuffle seeded with `seed` gives `places`.
pub uninterp spec fn shuffled(places: Seq<usize>, seed: u64) -> Seq<usize>;

/// Calls `md5::compute` on the text and hands out the sixteen bytes of the
/// digest. The digest depends on the text alone.
#[verifier::external_body]
fn md5_digest(text: &str) -> (out: [u8; 16])
    ensures
        out@ == md5_of(text@),
{
    md5::compute(text).0
}

/// Seeds a `rand::rngs::StdRng` with `rand::SeedableRng::seed_from_u64` and
/// calls `rand::seq::SliceRandom::shuffle` with it. The shuffle swaps places
/// of the vector, so the same places are there afterwards; which arrangement
/// comes out depends on the seed and the vector alone.
#[verifier::external_body]
fn shuffle_places(places: &mut Vec<usize>, seed: u64)
    ensures
        final(places)@ == shuffled(old(places)@, seed),
        final(places)@.to_multiset() == old(places)@.to_multiset(),
{
    places.shuffle(&mut StdRng::seed_from_u64(seed));
}

/// How a search is filtered and arranged. `sort_by` is a dotted path, or
/// `$shuffle`; `sort_type` is `number` or `string` for a sort and the seed
/// text for a shuffle.
#[derive(Debug)]
pub struct SearchOptions {
    pub filter: Option<FilterTree>,
    pub sort_by: Option<String>,
    pub sort_asc: Option<bool>,
    pub sort_type: Option<String>,
}

/// One page of a search: the ids on the page, the number of documents that
/// passed the filter, the number of ids on the page, and the number of pages.
#[derive(Debug)]
pub struct SearchPage {
    pub items: Vec<String>,
    pub max_items: usize,
    pub num_items: usize,
    pub num_pages: usize,
}

/// The size of a page where none is asked for.
pub const DEFAULT_TAKE: u32 = 2000000;

/// What a digit of the hexadecimal form counts for: a decimal digit its
/// value, a letter nothing.
pub open spec fn decimal_digit(nibble: int) -> nat {
    if 0 <= nibble < 10 {
        nibble as nat
    } else {
        0
    }
}

/// The decimal digits in the hexadecimal form of the bytes, added up.
pub open spec fn digit_sum(bytes: Seq<u8>) -> nat
    decreases bytes.len(),
{
    if bytes.len() == 0 {
        0
    } else {
        digit_sum(bytes.drop_last()) + decimal_digit(bytes.last() as int / 16) + decimal_digit(
            bytes.last() as int % 16,
        )
    }
}

/// The seed that a digest gives: the decimal digits of its hexadecimal form,
/// added up.
pub fn seed_from_digest(digest: &[u8; 16]) -> (out: u64)
    ensures
        out == digit_sum(digest@),
{
    let mut sum: u64 = 0;
    let mut i: usize = 0;
    while i < 16
        invariant
            i <= 16,
            digest@.len() == 16,
            sum == digit_sum(digest@.take(i as int)),
            sum <= 18 * i,
        decreases 16 - i,
    {
        assert(digest@.take(i as int + 1).drop_last() =~= digest@.take(i as int));
        let byte: u8 = digest[i];
        let high: u8 = byte / 16;
        let low: u8 = byte % 16;
        if high < 10 {
            sum = sum + high as u64;
        }
        if low < 10 {
            sum = sum + low as u64;
        }
        i = i + 1;
    }
    assert(digest@.take(16) =~= digest@);
    sum
}

/// Whether `a` stands before `b` in the order of texts: character by
/// character, a text before every longer text that starts with it.
pub open spec fn text_less(a: Seq<char>, b: Seq<char>) -> bool
    decreases a.len(),
{
    if b.len() == 0 {
        false
    } else if a.len() == 0 {
        true
    } else if a[0] != b[0] {
        a[0] < b[0]
    } else {
        text_less(a.drop_first(), b.drop_first())
    }
}

/// Decides `text_less`.
pub fn is_text_less(a: &Vec<char>, b: &Vec<char>) -> (out: bool)
    ensures
        out == text_less(a@, b@),
{
    let mut i: usize = 0;
    assert(a@.skip(0) =~= a@ && b@.skip(0) =~= b@);
    while i < a.len() && i < b.len()
        invariant
            i <= a.len(),
            i <= b.len(),
            text_less(a@, b@) == text_less(a@.skip(i as int), b@.skip(i as int)),
        decreases a.len() - i,
    {
        assert(a@.skip(i as int)[0] == a@[i as int]);
        assert(b@.skip(i as int)[0] == b@[i as int]);
        assert(a@.skip(i as int).drop_first() =~= a@.skip(i as int + 1));
        assert(b@.skip(i as int).drop_first() =~= b@.skip(i as int + 1));
        if a[i] != b[i] {
            return a[i] < b[i];
        }
        i = i + 1;
    }
    i < b.len()
}

/// The key of a sort by number.
#[derive(Clone, Copy, Debug)]
pub struct NumberKey {
    pub key: i64,
    pub descending: bool,
}

/// The key of a sort by text.
#[derive(Debug)]
pub struct TextKey {
    pub text: Vec<char>,
    pub descending: bool,
}

impl SortKey for NumberKey {
    open spec fn comparable(&self) -> bool {
        true
    }

    open spec fn before(&self, other: &Self) -> bool {
        if self.descending {
            other.key < self.key
        } else {
            self.key < other.key
        }
    }

    fn is_before(&self, other: &Self) -> (out: bool) {
        if self.descending {
            other.key < self.key
        } else {
            self.key < other.key
        }
    }
}

impl SortKey for TextKey {
    open spec fn comparable(&self) -> bool {
        true
    }

    open spec fn before(&self, other: &Self) -> bool {
        if self.descending {
            text_less(other.text@, self.text@)
        } else {
            text_less(self.text@, other.text@)
        }
    }

    fn is_before(&self, other: &Self) -> (out: bool) {
        if self.descending {
            is_text_less(&other.text, &self.text)
        } else {
            is_text_less(&self.text, &other.text)
        }
    }
}

/// Whether a document passes the filter; every document passes where there
/// is none.
pub open spec fn passes(filter: Option<FilterTree>, obj: JsonValue) -> bool {
    match filter {
        Some(tree) => tree.holds(obj),
        None => true,
    }
}

/// The places among the first `n` items of those that pass the filter.
pub open spec fn kept_places(items: Seq<Json>, filter: Option<FilterTree>, n: nat) -> Seq<usize>
    decreases n,
{
    if n == 0 {
        Seq::<usize>::empty()
    } else {
        let earlier = kept_places(items, filter, (n - 1) as nat);
        if passes(filter, items[n - 1]@) {
            earlier.push((n - 1) as usize)
        } else {
            earlier
        }
    }
}

/// Whether the sort puts `a` before `b`. A sort by number compares the keys
/// of the numbers at `path`, a sort by text the texts there; what is missing
/// there, or of another kind, counts as zero or as the empty text. Any
/// other kind of sort puts nothing before anything.
pub open spec fn precedes(
    a: JsonValue,
    b: JsonValue,
    path: Seq<char>,
    kind: Seq<char>,
    descending: bool,
) -> bool {
    if kind == "number"@ {
        if descending {
            b.at_path(path).key_or_zero() < a.at_path(path).key_or_zero()
        } else {
            a.at_path(path).key_or_zero() < b.at_path(path).key_or_zero()
        }
    } else if kind == "string"@ {
        if descending {
            text_less(b.at_path(path).text_or_empty(), a.at_path(path).text_or_empty())
        } else {
            text_less(a.at_path(path).text_or_empty(), b.at_path(path).text_or_empty())
        }
    } else {
        false
    }
}

impl SearchOptions {
    /// The text that seeds a shuffle.
    pub open spec fn seed_text(self) -> Seq<char> {
        match self.sort_type {
            Some(s) => s@,
            None => "default"@,
        }
    }

    /// The kind of a sort.
    pub open spec fn sort_kind(self) -> Seq<char> {
        match self.sort_type {
            Some(s) => s@,
            None => "number"@,
        }
    }

    /// Whether a sort runs from the greatest down: where `sort_asc` is set.
    pub open spec fn descending(self) -> bool {
        self.sort_asc == Some(true)
    }

    /// The relation that a sort by `path` puts on the places of `places`.
    pub open spec fn relation(self, items: Seq<Json>, places: Seq<usize>, path: Seq<char>)
        -> spec_fn(int, int) -> bool {
        |i: int, j: int|
            precedes(
                items[places[i] as int]@,
                items[places[j] as int]@,
                path,
                self.sort_kind(),
                self.descending(),
            )
    }
}

/// The places as the options arrange them: unchanged without `sort_by`,
/// shuffled where it is `$shuffle`, with the seed that the digest of the
/// seed text gives, and in the stable order of the sort otherwise.
pub open spec fn arranged(items: Seq<Json>, places: Seq<usize>, options: SearchOptions) -> Seq<
    usize,
> {
    match options.sort_by {
        None => places,
        Some(by) => {
            if by@ == "$shuffle"@ {
                shuffled(places, digit_sum(md5_of(options.seed_text())) as u64)
            } else {
                let order = sorted_by(options.relation(items, places, by@), places.len());
                Seq::new(places.len(), |k: int| places[order[k] as int])
            }
        },
    }
}

/// The number of places on the page.
pub open spec fn page_length(total: nat, skip: nat, take: nat) -> nat {
    if skip >= total {
        0
    } else if take <= total - skip {
        take
    } else {
        (total - skip) as nat
    }
}

/// The page: the places read from the last to the first, without the first
/// `skip` of them, and no more than `take`.
pub open spec fn page_places(places: Seq<usize>, skip: nat, take: nat) -> Seq<usize> {
    Seq::new(
        page_length(places.len(), skip, take),
        |k: int| places[places.len() - 1 - skip - k],
    )
}

/// The ids of the documents at the places.
pub open spec fn ids_at(items: Seq<Json>, places: Seq<usize>) -> Seq<Seq<char>> {
    Seq::new(places.len(), |k: int| document_id(items[places[k] as int]@)->0)
}

/// The number of pages: one where the page is not full, otherwise the
/// number of pages of `take` that hold `max_items`.
pub open spec fn page_count(num_items: nat, max_items: nat, take: nat) -> nat {
    if num_items < take {
        1
    } else {
        (max_items / take + if max_items % take == 0 {
            0nat
        } else {
            1nat
        }) as nat
    }
}

/// The places of the items that pass the filter, in order.
pub fn filter_places(items: &Vec<Json>, filter: &Option<FilterTree>) -> (out: Vec<usize>)
    ensures
        out@ == kept_places(items@, *filter, items@.len()),
        forall|k: int| 0 <= k < out@.len() ==> (#[trigger] out@[k]) < items@.len(),
{
    let mut out: Vec<usize> = Vec::new();
    let mut i: usize = 0;
    while i < items.len()
        invariant
            i <= items.len(),
            out@ == kept_places(items@, *filter, i as nat),
            forall|k: int| 0 <= k < out@.len() ==> (#[trigger] out@[k]) < i,
        decreases items.len() - i,
    {
        let keep = match filter {
            Some(tree) => check_tree_node(tree, &items[i]),
            None => true,
        };
        if keep {
            out.push(i);
        }
        i = i + 1;
    }
    out
}

/// The places in the order `order`: at each place of the result stands the
/// place that `order` names there.
pub fn in_order(places: &Vec<usize>, order: &Vec<usize>) -> (out: Vec<usize>)
    requires
        order@.len() == places@.len(),
        forall|k: int| 0 <= k < order@.len() ==> (#[trigger] order@[k]) < places@.len(),
    ensures
        out@ == Seq::new(places@.len(), |k: int| places@[order@[k] as int]),
{
    let mut out: Vec<usize> = Vec::new();
    let mut k: usize = 0;
    while k < order.len()
        invariant
            k <= order.len(),
            order@.len() == places@.len(),
            forall|m: int| 0 <= m < order@.len() ==> (#[trigger] order@[m]) < places@.len(),
            out@.len() == k,
            forall|m: int| 0 <= m < k ==> (#[trigger] out@[m]) == places@[order@[m] as int],
        decreases order.len() - k,
    {
        out.push(places[order[k]]);
        k = k + 1;
    }
    assert(out@ =~= Seq::new(places@.len(), |k: int| places@[order@[k] as int]));
    out
}

/// The text of an optional string, `fallback` where there is none.
fn text_or<'a>(text: &'a Option<String>, fallback: &'a str) -> (out: &'a str)
    ensures
        out@ == (match *text {
            Some(s) => s@,
            None => fallback@,
        }),
{
    match text {
        Some(s) => s.as_str(),
        None => fallback,
    }
}

/// Arranges the places as the options say. Whatever the options are, the
/// result holds the same places, each as often as before.
pub fn arrange(items: &Vec<Json>, places: Vec<usize>, options: &SearchOptions) -> (out: Vec<usize>)
    requires
        forall|k: int| 0 <= k < places@.len() ==> (#[trigger] places@[k]) < items@.len(),
    ensures
        out@ == arranged(items@, places@, *options),
        out@.to_multiset() == places@.to_multiset(),
        out@.len() == places@.len(),
        forall|k: int| 0 <= k < out@.len() ==> (#[trigger] out@[k]) < items@.len(),
{
    let by = match &options.sort_by {
        None => {
            return places;
        },
        Some(by) => by.as_str(),
    };
    if str_equal(by, "$shuffle") {
        let digest = md5_digest(text_or(&options.sort_type, "default"));
        let seed = seed_from_digest(&digest);
        let mut out = places;
        let ghost before = out@;
        shuffle_places(&mut out, seed);
        proof {
            vstd::seq_lib::to_multiset_len(before);
            vstd::seq_lib::to_multiset_len(out@);
            assert forall|k: int| 0 <= k < out@.len() implies (#[trigger] out@[k])
                < items@.len() by {
                let x = out@[k];
                assert(out@.contains(x));
                vstd::seq_lib::to_multiset_contains(out@, x);
                vstd::seq_lib::to_multiset_contains(before, x);
                assert(before.contains(x));
                let m = choose|m: int| 0 <= m < before.len() && before[m] == x;
                assert(before[m] < items@.len());
            }
        }
        return out;
    }
    let kind = text_or(&options.sort_type, "number");
    let descending = match options.sort_asc {
        Some(true) => true,
        _ => false,
    };
    let ghost relation = options.relation(items@, places@, by@);
    let count: usize = places.len();
    proof {
        lemma_sorted_by_rearranges(relation, places@, count as nat);
        assert(places@.take(count as int) =~= places@);
    }
    let order = if str_equal(kind, "number") {
        let mut keys: Vec<NumberKey> = Vec::new();
        let mut k: usize = 0;
        while k < places.len()
            invariant
                k <= places.len(),
                keys@.len() == k,
                forall|m: int| 0 <= m < places@.len() ==> (#[trigger] places@[m]) < items@.len(),
                forall|m: int|
                    0 <= m < k ==> (#[trigger] keys@[m]) == (NumberKey {
                        key: items@[places@[m] as int]@.at_path(by@).key_or_zero() as i64,
                        descending,
                    }),
            decreases places.len() - k,
        {
            let key = match items[places[k]].at_path(by) {
                Some(Json::Number(n)) => n.key,
                _ => 0,
            };
            keys.push(NumberKey { key, descending });
            k = k + 1;
        }
        proof {
            assert forall|i: int, j: int|
                0 <= i < keys@.len() && 0 <= j < keys@.len() implies #[trigger] key_order(keys@)(
                i,
                j,
            ) == relation(i, j) by {}
            lemma_sorted_by_agrees(key_order(keys@), relation, keys@.len());
        }
        stable_order(&keys)
    } else if str_equal(kind, "string") {
        let mut keys: Vec<TextKey> = Vec::new();
        let mut k: usize = 0;
        while k < places.len()
            invariant
                k <= places.len(),
                keys@.len() == k,
                forall|m: int| 0 <= m < places@.len() ==> (#[trigger] places@[m]) < items@.len(),
                forall|m: int|
                    0 <= m < k ==> (#[trigger] keys@[m]).text@ == items@[places@[m] as int]@.at_path(
                        by@,
                    ).text_or_empty() && keys@[m].descending == descending,
            decreases places.len() - k,
        {
            let text = match items[places[k]].at_path(by) {
                Some(Json::Text(s)) => to_chars(s.as_str()),
                _ => Vec::new(),
            };
            keys.push(TextKey { text, descending });
            k = k + 1;
        }
        proof {
            assert forall|i: int, j: int|
                0 <= i < keys@.len() && 0 <= j < keys@.len() implies #[trigger] key_order(keys@)(
                i,
                j,
            ) == relation(i, j) by {}
            lemma_sorted_by_agrees(key_order(keys@), relation, keys@.len());
        }
        stable_order(&keys)
    } else {
        proof {
            lemma_sorted_by_nothing(relation, count as nat);
            assert(arranged(items@, places@, *options) =~= places@);
        }
        return places;
    };
    in_order(&places, &order)
}

/// The page of the arranged places, with its counts. The places are read
/// from the last to the first; the first `skip` of them are left out, and at
/// most `take` make the page.
pub fn page_of(items: &Vec<Json>, places: &Vec<usize>, skip: usize, take: usize) -> (out:
    SearchPage)
    requires
        take > 0,
        forall|k: int| 0 <= k < places@.len() ==> (#[trigger] places@[k]) < items@.len(),
        forall|i: int| 0 <= i < items@.len() ==> document_id((#[trigger] items@[i])@) is Some,
    ensures
        texts(out.items@) == ids_at(items@, page_places(places@, skip as nat, take as nat)),
        out.max_items == places@.len(),
        out.num_items == out.items@.len(),
        out.num_pages == page_count(out.num_items as nat, places@.len(), take as nat),
{
    let total: usize = places.len();
    let length: usize = if skip >= total {
        0
    } else if take <= total - skip {
        take
    } else {
        total - skip
    };
    let ghost page = page_places(places@, skip as nat, take as nat);
    let mut ids: Vec<String> = Vec::new();
    let mut k: usize = 0;
    while k < length
        invariant
            k <= length,
            total == places@.len(),
            length == page_length(total as nat, skip as nat, take as nat),
            page == page_places(places@, skip as nat, take as nat),
            forall|m: int| 0 <= m < places@.len() ==> (#[trigger] places@[m]) < items@.len(),
            forall|i: int| 0 <= i < items@.len() ==> document_id((#[trigger] items@[i])@) is Some,
            ids@.len() == k,
            forall|m: int|
                0 <= m < k ==> (#[trigger] ids@[m])@ == document_id(items@[page[m] as int]@)->0,
        decreases length - k,
    {
        let place: usize = places[total - 1 - skip - k];
        assert(place == page[k as int]);
        match id_of(&items[place]) {
            Some(id) => {
                ids.push(id);
            },
            None => {
                assert(document_id(items@[place as int]@) is Some);
                ids.push(String::new());
            },
        }
        k = k + 1;
    }
    assert(texts(ids@) =~= ids_at(items@, page));
    let num_items: usize = ids.len();
    let num_pages: usize = if num_items < take {
        1
    } else {
        let full: usize = total / take;
        assert(full <= total) by (nonlinear_arith)
            requires
                full == total / take,
                take > 0,
                total >= 0,
        ;
        assert(num_items == take);
        if total % take == 0 {
            full
        } else {
            assert(full < total) by (nonlinear_arith)
                requires
                    full == total / take,
                    take > 0,
                    total % take != 0,
                    total >= 0,
            ;
            full + 1
        }
    };
    SearchPage { items: ids, max_items: total, num_items, num_pages }
}

/// Filters, arranges and pages the retrieved documents, as the options say.
/// Without `skip` nothing is left out; without `take` a page holds up to
/// `DEFAULT_TAKE` ids. The arranged places are the places that passed the
/// filter, each once, whether they were sorted, shuffled or left alone.
pub fn search_items(
    items: &Vec<Json>,
    options: &SearchOptions,
    skip: Option<u32>,
    take: Option<u32>,
) -> (out: SearchPage)
    requires
        take != Some(0u32),
        forall|i: int| 0 <= i < items@.len() ==> document_id((#[trigger] items@[i])@) is Some,
    ensures
        texts(out.items@) == ids_at(
            items@,
            page_places(
                arranged(items@, kept_places(items@, options.filter, items@.len()), *options),
                skip_of(skip),
                take_of(take),
            ),
        ),
        arranged(
            items@,
            kept_places(items@, options.filter, items@.len()),
            *options,
        ).to_multiset() == kept_places(items@, options.filter, items@.len()).to_multiset(),
        out.max_items == kept_places(items@, options.filter, items@.len()).len(),
        out.num_items == out.items@.len(),
        out.num_pages == page_count(out.num_items as nat, out.max_items as nat, take_of(take)),
{
    let kept = filter_places(items, &options.filter);
    let places = arrange(items, kept, options);
    let skip: usize = match skip {
        Some(n) => n as usize,
        None => 0,
    };
    let take: usize = match take {
        Some(n) => n as usize,
        None => DEFAULT_TAKE as usize,
    };
    page_of(items, &places, skip, take)
}

/// The number of places to leave out.
pub open spec fn skip_of(skip: Option<u32>) -> nat {
    match skip {
        Some(n) => n as nat,
        None => 0,
    }
}

/// The size of a page.
pub open spec fn take_of(take: Option<u32>) -> nat {
    match take {
        Some(n) => n as nat,
        None => DEFAULT_TAKE as nat,
    }
}

} // verus!
