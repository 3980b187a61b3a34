//! How the library lists its items: sorted by the field the user picks, in
//! either direction, with equal items kept in the order they came in, and
//! folders before or after decks.
use vstd::prelude::*;

use crate::library::Deck;
use crate::text::chars_of;

verus! {

broadcast use vstd::seq_lib::group_seq_properties;

/// How two values compare.
#[derive(Clone, Copy, Debug, PartialEq, Eq, Structural)]
pub enum Order {
    Less,
    Equal,
    Greater,
}

/// The comparison the other way round.
pub open spec fn flip(o: Order) -> Order {
    match o {
        Order::Less => Order::Greater,
        Order::Equal => Order::Equal,
        Order::Greater => Order::Less,
    }
}

/// Lexicographic order of texts by character (a text comes before the longer
/// texts it begins). This is the order of `str::cmp`, whose byte order on
/// UTF-8 follows the characters' code points.
pub open spec fn text_order(a: Seq<char>, b: Seq<char>) -> Order
    decreases a.len(),
{
    if a.len() == 0 {
        if b.len() == 0 {
            Order::Equal
        } else {
            Order::Less
        }
    } else if b.len() == 0 {
        Order::Greater
    } else if (a[0] as int) < (b[0] as int) {
        Order::Less
    } else if (a[0] as int) > (b[0] as int) {
        Order::Greater
    } else {
        text_order(a.drop_first(), b.drop_first())
    }
}

/// The order of two integers.
pub open spec fn int_order(a: int, b: int) -> Order {
    if a < b {
        Order::Less
    } else if a == b {
        Order::Equal
    } else {
        Order::Greater
    }
}

/// The first comparison, or the second where the first finds the values equal.
pub open spec fn tie_break(first: Order, second: Order) -> Order {
    if first == Order::Equal {
        second
    } else {
        first
    }
}

/// Swapping the texts flips their order.
pub proof fn lemma_text_order_flip(a: Seq<char>, b: Seq<char>)
    ensures
        text_order(a, b) == flip(text_order(b, a)),
    decreases a.len(),
{
    if a.len() > 0 && b.len() > 0 && (a[0] as int) == (b[0] as int) {
        lemma_text_order_flip(a.drop_first(), b.drop_first());
    }
}

/// Texts are equal in the order exactly when they are the same text.
pub proof fn lemma_text_order_equal(a: Seq<char>, b: Seq<char>)
    ensures
        text_order(a, b) == Order::Equal <==> a == b,
    decreases a.len(),
{
    if a.len() > 0 && b.len() > 0 && (a[0] as int) == (b[0] as int) {
        lemma_text_order_equal(a.drop_first(), b.drop_first());
        if a.drop_first() == b.drop_first() {
            assert(a =~= seq![a[0]] + a.drop_first());
            assert(b =~= seq![b[0]] + b.drop_first());
        }
    }
    if a == b && a.len() > 0 {
        assert(a.drop_first() == b.drop_first());
    }
}

/// The order of texts is transitive, and strictly so where either step is strict.
pub proof fn lemma_text_order_trans(a: Seq<char>, b: Seq<char>, c: Seq<char>)
    requires
        text_order(a, b) != Order::Greater,
        text_order(b, c) != Order::Greater,
    ensures
        text_order(a, c) != Order::Greater,
        (text_order(a, b) == Order::Less || text_order(b, c) == Order::Less) ==> text_order(a, c)
            == Order::Less,
    decreases a.len(),
{
    if a.len() > 0 && b.len() > 0 && c.len() > 0 && (a[0] as int) == (b[0] as int) && (b[0]
        as int) == (c[0] as int) {
        lemma_text_order_trans(a.drop_first(), b.drop_first(), c.drop_first());
    }
}

/// Compares two texts, as [`text_order`] says.
pub fn compare_text(a: &str, b: &str) -> (o: Order)
    ensures
        o == text_order(a@, b@),
{
    let x = chars_of(a);
    let y = chars_of(b);
    let mut i: usize = 0;
    while i < x.len() && i < y.len()
        invariant
            i <= x.len(),
            i <= y.len(),
            x@ == a@,
            y@ == b@,
            text_order(x@, y@) == text_order(x@.skip(i as int), y@.skip(i as int)),
        decreases x.len() - i,
    {
        let cx = x[i];
        let cy = y[i];
        assert(x@.skip(i as int)[0] == x@[i as int]);
        assert(y@.skip(i as int)[0] == y@[i as int]);
        if cx < cy {
            return Order::Less;
        }
        if cx > cy {
            return Order::Greater;
        }
        assert(x@.skip(i as int).drop_first() =~= x@.skip(i + 1));
        assert(y@.skip(i as int).drop_first() =~= y@.skip(i + 1));
        i += 1;
    }
    if i < x.len() {
        Order::Greater
    } else if i < y.len() {
        Order::Less
    } else {
        Order::Equal
    }
}

/// Compares two integers, as [`int_order`] says.
pub fn compare_int(a: i64, b: i64) -> (o: Order)
    ensures
        o == int_order(a as int, b as int),
{
    if a < b {
        Order::Less
    } else if a == b {
        Order::Equal
    } else {
        Order::Greater
    }
}

// ───────────────────────── the library's order ─────────────────────────

/// What the library's items are sorted by.
#[derive(Clone, Copy, Debug, PartialEq, Eq, Structural)]
pub enum SortField {
    /// By name.
    Name,
    /// By the date last changed, and by id among items changed at once.
    Date,
    /// By the number of words.
    Count,
}

/// The sort field stored under a key: `name`, `count`, and by date for any other key.
pub open spec fn field_for_key(key: Seq<char>) -> SortField {
    if key == "name"@ {
        SortField::Name
    } else if key == "count"@ {
        SortField::Count
    } else {
        SortField::Date
    }
}

/// The sort field stored under a key, as [`field_for_key`] says.
pub fn sort_field_of(key: &str) -> (f: SortField)
    ensures
        f == field_for_key(key@),
{
    let k = chars_of(key);
    let name = chars_of("name");
    let count = chars_of("count");
    if crate::text::chars_eq(&k, &name) {
        SortField::Name
    } else if crate::text::chars_eq(&k, &count) {
        SortField::Count
    } else {
        SortField::Date
    }
}

/// How two items compare by a field.
pub open spec fn item_order(a: Deck, b: Deck, field: SortField) -> Order {
    match field {
        SortField::Name => text_order(a.name@, b.name@),
        SortField::Count => int_order(a.word_count as int, b.word_count as int),
        SortField::Date => tie_break(
            text_order(a.updated_at@, b.updated_at@),
            int_order(a.id as int, b.id as int),
        ),
    }
}

/// How two items compare in a list sorted by `field`, ascending or descending.
pub open spec fn list_order(a: Deck, b: Deck, field: SortField, ascending: bool) -> Order {
    if ascending {
        item_order(a, b, field)
    } else {
        item_order(b, a, field)
    }
}

/// Swapping two items flips how they compare.
pub proof fn lemma_list_order_flip(a: Deck, b: Deck, field: SortField, ascending: bool)
    ensures
        list_order(a, b, field, ascending) == flip(list_order(b, a, field, ascending)),
{
    lemma_text_order_flip(a.name@, b.name@);
    lemma_text_order_flip(a.updated_at@, b.updated_at@);
}

/// The list order is transitive, and strictly so where either step is strict.
pub proof fn lemma_list_order_trans(a: Deck, b: Deck, c: Deck, field: SortField, ascending: bool)
    requires
        list_order(a, b, field, ascending) != Order::Greater,
        list_order(b, c, field, ascending) != Order::Greater,
    ensures
        list_order(a, c, field, ascending) != Order::Greater,
        (list_order(a, b, field, ascending) == Order::Less || list_order(b, c, field, ascending)
            == Order::Less) ==> list_order(a, c, field, ascending) == Order::Less,
{
    let (x, y, z) = if ascending {
        (a, b, c)
    } else {
        (c, b, a)
    };
    assert(item_order(x, y, field) != Order::Greater && item_order(y, z, field) != Order::Greater);
    match field {
        SortField::Name => {
            lemma_text_order_trans(x.name@, y.name@, z.name@);
        },
        SortField::Count => {},
        SortField::Date => {
            lemma_text_order_equal(x.updated_at@, y.updated_at@);
            lemma_text_order_equal(y.updated_at@, z.updated_at@);
            lemma_text_order_equal(x.updated_at@, z.updated_at@);
            lemma_text_order_flip(x.updated_at@, y.updated_at@);
            lemma_text_order_flip(y.updated_at@, z.updated_at@);
            if text_order(x.updated_at@, y.updated_at@) != Order::Greater && text_order(
                y.updated_at@,
                z.updated_at@,
            ) != Order::Greater {
                lemma_text_order_trans(x.updated_at@, y.updated_at@, z.updated_at@);
            }
        },
    }
}

/// Compares two items as [`list_order`] says.
pub fn deck_order(a: &Deck, b: &Deck, field: SortField, ascending: bool) -> (o: Order)
    ensures
        o == list_order(*a, *b, field, ascending),
{
    let (x, y) = if ascending {
        (a, b)
    } else {
        (b, a)
    };
    match field {
        SortField::Name => compare_text(x.name.as_str(), y.name.as_str()),
        SortField::Count => compare_int(x.word_count, y.word_count),
        SortField::Date => {
            let o = compare_text(x.updated_at.as_str(), y.updated_at.as_str());
            if o == Order::Equal {
                compare_int(x.id, y.id)
            } else {
                o
            }
        },
    }
}

// ───────────────────────── stable sorting ─────────────────────────

/// The items that compare equal to `d` in the list order: `d`'s rank.
pub open spec fn same_rank(d: Deck, field: SortField, ascending: bool) -> spec_fn(Deck) -> bool {
    |e: Deck| list_order(e, d, field, ascending) == Order::Equal
}

/// Whether `s` is in the list order.
pub open spec fn sorted_by(s: Seq<Deck>, field: SortField, ascending: bool) -> bool {
    forall|i: int, j: int|
        0 <= i < j < s.len() ==> list_order(s[i], s[j], field, ascending) != Order::Greater
}

/// Whether `out` is `input` sorted stably: in the list order, with the items of
/// each rank exactly those of `input`, in the order they came in.
pub open spec fn stable_sort_of(
    out: Seq<Deck>,
    input: Seq<Deck>,
    field: SortField,
    ascending: bool,
) -> bool {
    &&& out.len() == input.len()
    &&& sorted_by(out, field, ascending)
    &&& forall|d: Deck|
        #[trigger] out.filter(same_rank(d, field, ascending)) == input.filter(
            same_rank(d, field, ascending),
        )
}

/// Inserting `x` before the first item that it comes strictly before keeps a
/// sorted sequence sorted.
proof fn lemma_insert_sorted(s: Seq<Deck>, x: Deck, p: int, field: SortField, ascending: bool)
    requires
        sorted_by(s, field, ascending),
        0 <= p <= s.len(),
        forall|j: int| 0 <= j < p ==> list_order(x, #[trigger] s[j], field, ascending) != Order::Less,
        p < s.len() ==> list_order(x, s[p], field, ascending) == Order::Less,
    ensures
        sorted_by(s.insert(p, x), field, ascending),
        forall|j: int| p <= j < s.len() ==> list_order(x, #[trigger] s[j], field, ascending) == Order::Less,
{
    assert forall|j: int| p <= j < s.len() implies list_order(x, #[trigger] s[j], field, ascending)
        == Order::Less by {
        if j > p {
            lemma_list_order_trans(x, s[p], s[j], field, ascending);
        }
    }
    s.insert_ensures(p, x);
    let t = s.insert(p, x);
    assert forall|i: int, j: int| 0 <= i < j < t.len() implies list_order(
        t[i],
        t[j],
        field,
        ascending,
    ) != Order::Greater by {
        if i < p && j == p {
            lemma_list_order_flip(x, s[i], field, ascending);
        } else if i == p {
            assert(t[j] == s[j - 1]);
        } else if i < p && j > p {
            assert(t[j] == s[j - 1]);
        } else if j < p {
            assert(t[i] == s[i] && t[j] == s[j]);
        } else {
            assert(t[i] == s[i - 1] && t[j] == s[j - 1]);
        }
    }
}

/// After such an insertion, each rank holds what it held, and `x`'s rank holds
/// `x` last.
proof fn lemma_insert_ranks(
    s: Seq<Deck>,
    x: Deck,
    p: int,
    field: SortField,
    ascending: bool,
    d: Deck,
)
    requires
        0 <= p <= s.len(),
        forall|j: int| p <= j < s.len() ==> list_order(x, #[trigger] s[j], field, ascending) == Order::Less,
    ensures
        s.insert(p, x).filter(same_rank(d, field, ascending)) == (if same_rank(d, field, ascending)(
            x,
        ) {
            s.filter(same_rank(d, field, ascending)).push(x)
        } else {
            s.filter(same_rank(d, field, ascending))
        }),
{
    let pred = same_rank(d, field, ascending);
    let a = s.subrange(0, p);
    let b = s.subrange(p, s.len() as int);
    assert(s.insert(p, x) =~= a + seq![x] + b);
    assert(s =~= a + b);
    Seq::filter_distributes_over_add(a + seq![x], b, pred);
    Seq::filter_distributes_over_add(a, seq![x], pred);
    Seq::filter_distributes_over_add(a, b, pred);
    reveal_with_fuel(Seq::filter, 2);
    if pred(x) {
        assert forall|i: int| 0 <= i < b.len() implies !pred(#[trigger] b[i]) by {
            assert(b[i] == s[p + i]);
            assert(list_order(x, b[i], field, ascending) == Order::Less);
            if pred(b[i]) {
                assert(list_order(b[i], d, field, ascending) == Order::Equal);
                assert(list_order(x, d, field, ascending) == Order::Equal);
                lemma_list_order_flip(x, d, field, ascending);
                lemma_list_order_trans(b[i], d, x, field, ascending);
                lemma_list_order_flip(x, b[i], field, ascending);
            }
        }
        assert(b.all(|e: Deck| !pred(e)));
        b.lemma_all_neg_filter_empty(pred);
        assert(b.filter(pred) =~= Seq::<Deck>::empty());
        assert(seq![x].filter(pred) =~= seq![x]);
        assert(a.filter(pred) + seq![x] =~= a.filter(pred).push(x));
        assert(a.filter(pred) + b.filter(pred) =~= a.filter(pred));
    } else {
        assert(seq![x].filter(pred) =~= Seq::<Deck>::empty());
        assert(a.filter(pred) + Seq::<Deck>::empty() =~= a.filter(pred));
    }
}

/// The items sorted stably by `field`, ascending or descending.
pub fn sort_items(items: Vec<Deck>, field: SortField, ascending: bool) -> (out: Vec<Deck>)
    ensures
        stable_sort_of(out@, items@, field, ascending),
{
    let ghost input = items@;
    let mut rest = items;
    let mut out: Vec<Deck> = Vec::new();
    let ghost mut k: int = 0;
    while rest.len() > 0
        invariant
            0 <= k <= input.len(),
            rest@ == input.skip(k),
            out.len() == k,
            sorted_by(out@, field, ascending),
            forall|d: Deck|
                #[trigger] out@.filter(same_rank(d, field, ascending)) == input.take(k).filter(
                    same_rank(d, field, ascending),
                ),
        decreases rest.len(),
    {
        let x = rest.remove(0);
        assert(x == input[k]);
        let mut p: usize = 0;
        loop
            invariant
                p <= out.len(),
                forall|j: int|
                    0 <= j < p ==> list_order(x, #[trigger] out@[j], field, ascending)
                        != Order::Less,
            ensures
                p <= out.len(),
                forall|j: int|
                    0 <= j < p ==> list_order(x, #[trigger] out@[j], field, ascending)
                        != Order::Less,
                p < out.len() ==> list_order(x, out@[p as int], field, ascending) == Order::Less,
            decreases out.len() - p,
        {
            if p >= out.len() {
                break;
            }
            if deck_order(&x, &out[p], field, ascending) == Order::Less {
                break;
            }
            p += 1;
        }
        proof {
            lemma_insert_sorted(out@, x, p as int, field, ascending);
            assert(input.take(k + 1) =~= input.take(k).push(x));
            assert forall|d: Deck|
                #[trigger] out@.insert(p as int, x).filter(same_rank(d, field, ascending))
                    == input.take(k + 1).filter(same_rank(d, field, ascending)) by {
                lemma_insert_ranks(out@, x, p as int, field, ascending, d);
                input.take(k).lemma_filter_push(x, same_rank(d, field, ascending));
            }
        }
        out.insert(p, x);
        proof {
            k = k + 1;
            assert(rest@ =~= input.skip(k));
        }
    }
    assert(input.take(k) =~= input);
    out
}

/// An item is counted the same in a sequence and in the part of it that a
/// test the item passes keeps.
proof fn lemma_count_in_filter(s: Seq<Deck>, q: spec_fn(Deck) -> bool, x: Deck)
    requires
        q(x),
    ensures
        s.filter(q).to_multiset().count(x) == s.to_multiset().count(x),
    decreases s.len(),
{
    broadcast use vstd::seq_lib::group_to_multiset_ensures;

    if s.len() > 0 {
        let init = s.drop_last();
        lemma_count_in_filter(init, q, x);
        assert(init.push(s.last()) =~= s);
        init.lemma_filter_push(s.last(), q);
    } else {
        assert(s.filter(q) =~= s);
    }
}

/// Sorting keeps the items: the sorted list holds each item as often as the
/// list it was made from.
pub proof fn lemma_stable_sort_keeps_items(
    out: Seq<Deck>,
    input: Seq<Deck>,
    field: SortField,
    ascending: bool,
)
    requires
        stable_sort_of(out, input, field, ascending),
    ensures
        out.to_multiset() == input.to_multiset(),
{
    assert forall|x: Deck| out.to_multiset().count(x) == input.to_multiset().count(x) by {
        let q = same_rank(x, field, ascending);
        lemma_list_order_refl(x, field, ascending);
        lemma_count_in_filter(out, q, x);
        lemma_count_in_filter(input, q, x);
        assert(out.filter(q) == input.filter(q));
    }
    assert(out.to_multiset() =~= input.to_multiset());
}

/// Every item compares equal to itself.
proof fn lemma_list_order_refl(x: Deck, field: SortField, ascending: bool)
    ensures
        list_order(x, x, field, ascending) == Order::Equal,
{
    lemma_text_order_equal(x.name@, x.name@);
    lemma_text_order_equal(x.updated_at@, x.updated_at@);
}

// ───────────────────────── folders and decks ─────────────────────────

/// Whether an item is a folder.
pub open spec fn folder_pred() -> spec_fn(Deck) -> bool {
    |d: Deck| d.is_folder
}

/// Whether an item is a deck.
pub open spec fn deck_pred() -> spec_fn(Deck) -> bool {
    |d: Deck| !d.is_folder
}

/// The items of a folder's listing as shown: its folders and its decks each
/// sorted stably by `field` in the chosen direction, the folders first or
/// last as the user picks.
pub open spec fn arranged(
    out: Seq<Deck>,
    items: Seq<Deck>,
    field: SortField,
    ascending: bool,
    folders_first: bool,
) -> bool {
    let folders = items.filter(folder_pred());
    let decks = items.filter(deck_pred());
    &&& out.len() == items.len()
    &&& folders_first ==> {
        &&& stable_sort_of(out.take(folders.len() as int), folders, field, ascending)
        &&& stable_sort_of(out.skip(folders.len() as int), decks, field, ascending)
    }
    &&& !folders_first ==> {
        &&& stable_sort_of(out.take(decks.len() as int), decks, field, ascending)
        &&& stable_sort_of(out.skip(decks.len() as int), folders, field, ascending)
    }
}

/// A folder's listing as shown, as [`arranged`] says.
pub fn arrange_items(items: Vec<Deck>, field: SortField, ascending: bool, folders_first: bool) -> (out:
    Vec<Deck>)
    ensures
        arranged(out@, items@, field, ascending, folders_first),
{
    let ghost input = items@;
    let mut rest = items;
    let mut folders: Vec<Deck> = Vec::new();
    let mut decks: Vec<Deck> = Vec::new();
    let ghost mut k: int = 0;
    while rest.len() > 0
        invariant
            0 <= k <= input.len(),
            rest@ == input.skip(k),
            folders@ == input.take(k).filter(folder_pred()),
            decks@ == input.take(k).filter(deck_pred()),
        decreases rest.len(),
    {
        let x = rest.remove(0);
        proof {
            assert(input.take(k + 1) =~= input.take(k).push(x));
            input.take(k).lemma_filter_push(x, folder_pred());
            input.take(k).lemma_filter_push(x, deck_pred());
        }
        if x.is_folder {
            folders.push(x);
        } else {
            decks.push(x);
        }
        proof {
            k = k + 1;
            assert(rest@ =~= input.skip(k));
        }
    }
    assert(input.take(k) =~= input);
    let mut first = sort_items(folders, field, ascending);
    let mut second = sort_items(decks, field, ascending);
    if !folders_first {
        let t = first;
        first = second;
        second = t;
    }
    let ghost a = first@;
    let ghost b = second@;
    proof {
        input.lemma_filter_len(folder_pred());
        input.lemma_filter_len(deck_pred());
        let n = input.len();
        assert(input.filter(folder_pred()).len() + input.filter(deck_pred()).len() == n) by {
            lemma_split_count(input);
        }
    }
    first.append(&mut second);
    assert(first@.take(a.len() as int) =~= a);
    assert(first@.skip(a.len() as int) =~= b);
    first
}

/// Every item is a folder or a deck, never both.
proof fn lemma_split_count(s: Seq<Deck>)
    ensures
        s.filter(folder_pred()).len() + s.filter(deck_pred()).len() == s.len(),
    decreases s.len(),
{
    if s.len() > 0 {
        lemma_split_count(s.drop_last());
        assert(s.drop_last().push(s.last()) =~= s);
        s.drop_last().lemma_filter_push(s.last(), folder_pred());
        s.drop_last().lemma_filter_push(s.last(), deck_pred());
    }
}

// ───────────────────────── search results by folder ─────────────────────────

/// The search results found in one folder (`None`: at the top of the library).
#[derive(Debug)]
pub struct DeckGroup {
    pub parent_id: Option<i64>,
    pub decks: Vec<Deck>,
}

/// Whether an item lies directly in folder `pid`.
pub open spec fn in_folder(pid: Option<i64>) -> spec_fn(Deck) -> bool {
    |d: Deck| d.parent_id == pid
}

/// How two groups compare: the top of the library first, the others by their
/// folders' ids (`by_folder`) or else by their first items in the list order.
pub open spec fn group_order(
    a: DeckGroup,
    b: DeckGroup,
    field: SortField,
    ascending: bool,
    by_folder: bool,
) -> Order {
    match (a.parent_id, b.parent_id) {
        (None, None) => Order::Equal,
        (None, Some(_)) => Order::Less,
        (Some(_), None) => Order::Greater,
        (Some(x), Some(y)) => if by_folder {
            int_order(x as int, y as int)
        } else {
            list_order(a.decks@[0], b.decks@[0], field, ascending)
        },
    }
}

/// Whether `groups` are the search results `results` grouped by folder: one
/// group for each folder the results lie in, none twice, each holding that
/// folder's results sorted stably, and the groups in [`group_order`].
pub open spec fn grouped_results(
    groups: Seq<DeckGroup>,
    results: Seq<Deck>,
    field: SortField,
    ascending: bool,
    by_folder: bool,
) -> bool {
    &&& forall|i: int|
        0 <= i < groups.len() ==> (#[trigger] groups[i]).decks@.len() > 0 && stable_sort_of(
            groups[i].decks@,
            results.filter(in_folder(groups[i].parent_id)),
            field,
            ascending,
        )
    &&& forall|i: int, j: int|
        0 <= i < j < groups.len() ==> (#[trigger] groups[i]).parent_id != (#[trigger] groups[j]).parent_id
    &&& forall|k: int|
        0 <= k < results.len() ==> exists|i: int|
            0 <= i < groups.len() && (#[trigger] groups[i]).parent_id == (#[trigger] results[k]).parent_id
    &&& forall|i: int, j: int|
        0 <= i < j < groups.len() ==> group_order(
            #[trigger] groups[i],
            #[trigger] groups[j],
            field,
            ascending,
            by_folder,
        ) != Order::Greater
}

/// Whether two folder references are the same.
fn same_parent(a: Option<i64>, b: Option<i64>) -> (r: bool)
    ensures
        r == (a == b),
{
    match (a, b) {
        (None, None) => true,
        (Some(x), Some(y)) => x == y,
        _ => false,
    }
}

/// The results gathered by folder, in the order the folders first appear,
/// each group holding its folder's results in the order they came in.
fn collect_groups(results: Vec<Deck>) -> (gs: Vec<DeckGroup>)
    ensures
        forall|i: int|
            0 <= i < gs@.len() ==> (#[trigger] gs@[i]).decks@.len() > 0 && gs@[i].decks@
                == results@.filter(in_folder(gs@[i].parent_id)),
        forall|i: int, j: int|
            0 <= i < j < gs@.len() ==> (#[trigger] gs@[i]).parent_id != (#[trigger] gs@[j]).parent_id,
        forall|k: int|
            0 <= k < results@.len() ==> exists|i: int|
                0 <= i < gs@.len() && (#[trigger] gs@[i]).parent_id == (#[trigger] results@[k]).parent_id,
{
    let ghost input = results@;
    let mut rest = results;
    let mut groups: Vec<DeckGroup> = Vec::new();
    let ghost mut k: int = 0;
    while rest.len() > 0
        invariant
            0 <= k <= input.len(),
            rest@ == input.skip(k),
            forall|i: int|
                0 <= i < groups@.len() ==> (#[trigger] groups@[i]).decks@.len() > 0
                    && groups@[i].decks@ == input.take(k).filter(in_folder(groups@[i].parent_id)),
            forall|i: int, j: int|
                0 <= i < j < groups@.len() ==> (#[trigger] groups@[i]).parent_id != (#[trigger] groups@[j]).parent_id,
            forall|m: int|
                0 <= m < k ==> exists|i: int|
                    0 <= i < groups@.len() && (#[trigger] groups@[i]).parent_id == (#[trigger] input[m]).parent_id,
        decreases rest.len(),
    {
        let x = rest.remove(0);
        assert(x == input[k]);
        let ghost old_groups = groups@;
        proof {
            assert(input.take(k + 1) =~= input.take(k).push(x));
        }
        let mut i: usize = 0;
        while i < groups.len()
            invariant
                i <= groups.len(),
                groups@ == old_groups,
                forall|j: int| 0 <= j < i ==> (#[trigger] groups@[j]).parent_id != x.parent_id,
            ensures
                i <= groups.len(),
                forall|j: int| 0 <= j < i ==> (#[trigger] groups@[j]).parent_id != x.parent_id,
                i < groups.len() ==> groups@[i as int].parent_id == x.parent_id,
            decreases groups.len() - i,
        {
            if same_parent(groups[i].parent_id, x.parent_id) {
                break;
            }
            i += 1;
        }
        let ghost xp = x.parent_id;
        if i < groups.len() {
            let mut g = groups.remove(i);
            g.decks.push(x);
            groups.insert(i, g);
            proof {
                assert forall|j: int| 0 <= j < groups@.len() implies (#[trigger] groups@[j]).decks@.len()
                    > 0 && groups@[j].decks@ == input.take(k + 1).filter(
                    in_folder(groups@[j].parent_id),
                ) by {
                    input.take(k).lemma_filter_push(x, in_folder(groups@[j].parent_id));
                    if j != i {
                        assert(groups@[j] == old_groups[j]);
                    }
                }
                assert forall|a: int, b: int|
                    0 <= a < b < groups@.len() implies (#[trigger] groups@[a]).parent_id != (
                    #[trigger] groups@[b]).parent_id by {
                    assert(groups@[a].parent_id == old_groups[a].parent_id);
                    assert(groups@[b].parent_id == old_groups[b].parent_id);
                }
                assert forall|m: int| 0 <= m < k + 1 implies exists|j: int|
                    0 <= j < groups@.len() && (#[trigger] groups@[j]).parent_id == (
                    #[trigger] input[m]).parent_id by {
                    if m < k {
                        let j = choose|j: int|
                            0 <= j < old_groups.len() && (#[trigger] old_groups[j]).parent_id
                                == input[m].parent_id;
                        assert(groups@[j].parent_id == old_groups[j].parent_id);
                    } else {
                        assert(groups@[i as int].parent_id == input[m].parent_id);
                    }
                }
            }
        } else {
            let g = DeckGroup { parent_id: x.parent_id, decks: vec![x] };
            groups.push(g);
            proof {
                assert forall|j: int| 0 <= j < groups@.len() implies (#[trigger] groups@[j]).decks@.len()
                    > 0 && groups@[j].decks@ == input.take(k + 1).filter(
                    in_folder(groups@[j].parent_id),
                ) by {
                    input.take(k).lemma_filter_push(x, in_folder(groups@[j].parent_id));
                    if j < old_groups.len() {
                        assert(groups@[j] == old_groups[j]);
                    } else {
                        assert(input.take(k).filter(in_folder(xp)).len() == 0) by {
                            assert forall|t: int| 0 <= t < input.take(k).len() implies !in_folder(
                                xp,
                            )(#[trigger] input.take(k)[t]) by {
                                let g = choose|g: int|
                                    0 <= g < old_groups.len() && (#[trigger] old_groups[g]).parent_id
                                        == (#[trigger] input[t]).parent_id;
                                assert(input.take(k)[t] == input[t]);
                            }
                            assert(input.take(k).all(|e: Deck| !in_folder(xp)(e)));
                            input.take(k).lemma_all_neg_filter_empty(in_folder(xp));
                        }
                        assert(groups@[j].decks@ =~= input.take(k).filter(in_folder(xp)).push(x));
                    }
                }
                assert forall|m: int| 0 <= m < k + 1 implies exists|j: int|
                    0 <= j < groups@.len() && (#[trigger] groups@[j]).parent_id == (
                    #[trigger] input[m]).parent_id by {
                    if m < k {
                        let j = choose|j: int|
                            0 <= j < old_groups.len() && (#[trigger] old_groups[j]).parent_id
                                == input[m].parent_id;
                        assert(groups@[j] == old_groups[j]);
                    } else {
                        assert(groups@[old_groups.len() as int].parent_id == input[m].parent_id);
                    }
                }
            }
        }
        proof {
            k = k + 1;
            assert(rest@ =~= input.skip(k));
        }
    }
    assert(input.take(k) =~= input);
    groups
}

/// Swapping two groups flips how they compare.
proof fn lemma_group_order_flip(
    a: DeckGroup,
    b: DeckGroup,
    field: SortField,
    ascending: bool,
    by_folder: bool,
)
    ensures
        group_order(a, b, field, ascending, by_folder) == flip(group_order(b, a, field, ascending, by_folder)),
{
    lemma_list_order_flip(a.decks@[0], b.decks@[0], field, ascending);
}

/// The group order is transitive, and strictly so where either step is strict.
proof fn lemma_group_order_trans(
    a: DeckGroup,
    b: DeckGroup,
    c: DeckGroup,
    field: SortField,
    ascending: bool,
    by_folder: bool,
)
    requires
        group_order(a, b, field, ascending, by_folder) != Order::Greater,
        group_order(b, c, field, ascending, by_folder) != Order::Greater,
    ensures
        group_order(a, c, field, ascending, by_folder) != Order::Greater,
        (group_order(a, b, field, ascending, by_folder) == Order::Less || group_order(b, c, field, ascending, by_folder)
            == Order::Less) ==> group_order(a, c, field, ascending, by_folder) == Order::Less,
{
    if a.parent_id is Some && b.parent_id is Some && c.parent_id is Some && !by_folder {
        lemma_list_order_trans(a.decks@[0], b.decks@[0], c.decks@[0], field, ascending);
    }
}

/// How two groups compare, as [`group_order`] says; neither may be empty.
fn compare_groups(
    a: &DeckGroup,
    b: &DeckGroup,
    field: SortField,
    ascending: bool,
    by_folder: bool,
) -> (o: Order)
    requires
        a.decks@.len() > 0,
        b.decks@.len() > 0,
    ensures
        o == group_order(*a, *b, field, ascending, by_folder),
{
    match (a.parent_id, b.parent_id) {
        (None, None) => Order::Equal,
        (None, Some(_)) => Order::Less,
        (Some(_), None) => Order::Greater,
        (Some(x), Some(y)) => if by_folder {
            compare_int(x, y)
        } else {
            deck_order(&a.decks[0], &b.decks[0], field, ascending)
        },
    }
}

/// The groups in [`group_order`]: the same groups, rearranged.
#[verifier::spinoff_prover]
fn order_groups(
    groups: Vec<DeckGroup>,
    field: SortField,
    ascending: bool,
    by_folder: bool,
) -> (out: Vec<DeckGroup>)
    requires
        forall|i: int| 0 <= i < groups@.len() ==> (#[trigger] groups@[i]).decks@.len() > 0,
    ensures
        out@.len() == groups@.len(),
        out@.to_multiset() == groups@.to_multiset(),
        forall|i: int, j: int|
            0 <= i < j < out@.len() ==> group_order(
                #[trigger] out@[i],
                #[trigger] out@[j],
                field,
                ascending,
                by_folder,
            ) != Order::Greater,
{
    broadcast use vstd::seq_lib::group_to_multiset_ensures, vstd::seq_lib::to_multiset_insert;

    let ghost input = groups@;
    let mut rest = groups;
    let mut out: Vec<DeckGroup> = Vec::new();
    let ghost mut k: int = 0;
    while rest.len() > 0
        invariant
            0 <= k <= input.len(),
            rest@ == input.skip(k),
            out@.len() == k,
            out@.to_multiset() == input.take(k).to_multiset(),
            forall|i: int| 0 <= i < input.len() ==> (#[trigger] input[i]).decks@.len() > 0,
            forall|i: int| 0 <= i < out@.len() ==> (#[trigger] out@[i]).decks@.len() > 0,
            forall|i: int, j: int|
                0 <= i < j < out@.len() ==> group_order(
                    #[trigger] out@[i],
                    #[trigger] out@[j],
                    field,
                    ascending,
                    by_folder,
                ) != Order::Greater,
        decreases rest.len(),
    {
        let x = rest.remove(0);
        assert(x == input[k]);
        let ghost before = out@;
        let mut p: usize = 0;
        loop
            invariant
                p <= out.len(),
                out@ == before,
                x.decks@.len() > 0,
                forall|i: int| 0 <= i < out@.len() ==> (#[trigger] out@[i]).decks@.len() > 0,
                forall|j: int|
                    0 <= j < p ==> group_order(x, #[trigger] out@[j], field, ascending, by_folder)
                        != Order::Less,
            ensures
                p <= out.len(),
                forall|j: int|
                    0 <= j < p ==> group_order(x, #[trigger] out@[j], field, ascending, by_folder)
                        != Order::Less,
                p < out.len() ==> group_order(x, out@[p as int], field, ascending, by_folder) == Order::Less,
            decreases out.len() - p,
        {
            if p >= out.len() {
                break;
            }
            if compare_groups(&x, &out[p], field, ascending, by_folder) == Order::Less {
                break;
            }
            p += 1;
        }
        proof {
            assert forall|j: int| p <= j < before.len() implies group_order(
                x,
                #[trigger] before[j],
                field,
                ascending,
                by_folder,
            ) == Order::Less by {
                if j > p {
                    lemma_group_order_trans(x, before[p as int], before[j], field, ascending, by_folder);
                }
            }
            before.insert_ensures(p as int, x);
            assert(input.take(k + 1) =~= input.take(k).push(x));
        }
        out.insert(p, x);
        proof {
            let t = out@;
            assert forall|i: int, j: int| 0 <= i < j < t.len() implies group_order(
                #[trigger] t[i],
                #[trigger] t[j],
                field,
                ascending,
                by_folder,
            ) != Order::Greater by {
                if i < p && j == p {
                    lemma_group_order_flip(x, before[i], field, ascending, by_folder);
                } else if i == p {
                    assert(t[j] == before[j - 1]);
                } else if i < p && j > p {
                    assert(t[j] == before[j - 1]);
                } else if j < p {
                    assert(t[i] == before[i] && t[j] == before[j]);
                } else {
                    assert(t[i] == before[i - 1] && t[j] == before[j - 1]);
                }
            }
            assert forall|i: int| 0 <= i < t.len() implies (#[trigger] t[i]).decks@.len() > 0 by {
                if i < p {
                    assert(t[i] == before[i]);
                } else if i > p {
                    assert(t[i] == before[i - 1]);
                }
            }
            k = k + 1;
            assert(rest@ =~= input.skip(k));
        }
    }
    assert(input.take(k) =~= input);
    out
}

/// Items grouped by folder, as [`grouped_results`] says.
fn group_results(results: Vec<Deck>, field: SortField, ascending: bool, by_folder: bool) -> (gs:
    Vec<DeckGroup>)
    ensures
        grouped_results(gs@, results@, field, ascending, by_folder),
{
    broadcast use vstd::seq_lib::group_to_multiset_ensures;

    let ghost input = results@;
    let collected = collect_groups(results);
    let ghost cg = collected@;
    let mut rest = collected;
    let mut sorted: Vec<DeckGroup> = Vec::new();
    let ghost mut k: int = 0;
    while rest.len() > 0
        invariant
            0 <= k <= cg.len(),
            rest@ == cg.skip(k),
            sorted@.len() == k,
            forall|i: int|
                0 <= i < cg.len() ==> (#[trigger] cg[i]).decks@.len() > 0 && cg[i].decks@
                    == input.filter(in_folder(cg[i].parent_id)),
            forall|i: int|
                0 <= i < k ==> (#[trigger] sorted@[i]).parent_id == cg[i].parent_id
                    && sorted@[i].decks@.len() > 0 && stable_sort_of(
                    sorted@[i].decks@,
                    input.filter(in_folder(cg[i].parent_id)),
                    field,
                    ascending,
                ),
        decreases rest.len(),
    {
        let g = rest.remove(0);
        assert(g == cg[k]);
        let DeckGroup { parent_id, decks } = g;
        let sd = sort_items(decks, field, ascending);
        sorted.push(DeckGroup { parent_id, decks: sd });
        proof {
            k = k + 1;
            assert(rest@ =~= cg.skip(k));
        }
    }
    let ghost sg = sorted@;
    let out = order_groups(sorted, field, ascending, by_folder);
    proof {
        let t = out@;
        assert forall|i: int| 0 <= i < t.len() implies exists|j: int|
            0 <= j < sg.len() && #[trigger] sg[j] == #[trigger] t[i] by {
            assert(t.contains(t[i]));
            assert(t.to_multiset().count(t[i]) > 0);
            assert(sg.contains(t[i]));
        }
        assert forall|i: int|
            0 <= i < t.len() implies (#[trigger] t[i]).decks@.len() > 0 && stable_sort_of(
            t[i].decks@,
            input.filter(in_folder(t[i].parent_id)),
            field,
            ascending,
        ) by {
            let j = choose|j: int| 0 <= j < sg.len() && #[trigger] sg[j] == t[i];
        }
        assert forall|m: int| 0 <= m < input.len() implies exists|i: int|
            0 <= i < t.len() && (#[trigger] t[i]).parent_id == (#[trigger] input[m]).parent_id by {
            let j = choose|j: int|
                0 <= j < cg.len() && (#[trigger] cg[j]).parent_id == (#[trigger] input[m]).parent_id;
            assert(sg.contains(sg[j]));
            assert(sg.to_multiset().count(sg[j]) > 0);
            assert(t.contains(sg[j]));
            let i = choose|i: int| 0 <= i < t.len() && t[i] == sg[j];
            assert(t[i].parent_id == input[m].parent_id);
        }
        assert(sg.no_duplicates()) by {
            assert forall|a: int, b: int|
                0 <= a < sg.len() && 0 <= b < sg.len() && a != b implies sg[a] != sg[b] by {
                if a < b {
                    assert(cg[a].parent_id != cg[b].parent_id);
                } else {
                    assert(cg[b].parent_id != cg[a].parent_id);
                }
            }
        }
        sg.lemma_multiset_has_no_duplicates();
        t.lemma_multiset_has_no_duplicates_conv();
        assert forall|a: int, b: int| 0 <= a < b < t.len() implies (#[trigger] t[a]).parent_id
            != (#[trigger] t[b]).parent_id by {
            let ja = choose|j: int| 0 <= j < sg.len() && #[trigger] sg[j] == t[a];
            let jb = choose|j: int| 0 <= j < sg.len() && #[trigger] sg[j] == t[b];
            if ja < jb {
                assert(cg[ja].parent_id != cg[jb].parent_id);
            } else if jb < ja {
                assert(cg[jb].parent_id != cg[ja].parent_id);
            }
        }
    }
    out
}

/// The library's search results grouped by folder: the top of the library
/// first, then the folders by their first item, each group sorted as the
/// library is.
pub fn search_groups(results: Vec<Deck>, field: SortField, ascending: bool) -> (gs: Vec<DeckGroup>)
    ensures
        grouped_results(gs@, results@, field, ascending, false),
{
    group_results(results, field, ascending, false)
}

/// The decks among `items`, in the order they came in.
pub fn decks_only(items: Vec<Deck>) -> (decks: Vec<Deck>)
    ensures
        decks@ == items@.filter(deck_pred()),
{
    let ghost input = items@;
    let mut rest = items;
    let mut decks: Vec<Deck> = Vec::new();
    let ghost mut k: int = 0;
    while rest.len() > 0
        invariant
            0 <= k <= input.len(),
            rest@ == input.skip(k),
            decks@ == input.take(k).filter(deck_pred()),
        decreases rest.len(),
    {
        let x = rest.remove(0);
        proof {
            assert(input.take(k + 1) =~= input.take(k).push(x));
            input.take(k).lemma_filter_push(x, deck_pred());
        }
        if !x.is_folder {
            decks.push(x);
        }
        proof {
            k = k + 1;
            assert(rest@ =~= input.skip(k));
        }
    }
    assert(input.take(k) =~= input);
    decks
}

/// The search results of the exam picker: its decks (folders are left out)
/// grouped by folder, the top of the library first and the folders by id, each
/// group's decks by name.
pub fn exam_groups(results: Vec<Deck>) -> (gs: Vec<DeckGroup>)
    ensures
        grouped_results(gs@, results@.filter(deck_pred()), SortField::Name, true, true),
{
    let decks = decks_only(results);
    group_results(decks, SortField::Name, true, true)
}

} // verus!
