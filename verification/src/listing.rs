//! Sorted lists of distinct texts.
//!
//! A set of texts has exactly one strictly ascending listing. Lists of terms and concepts are
//! kept in that form, so that a list is determined by the set of its members.

use vstd::prelude::*;

use crate::text;
use crate::text::Text;

verus! {

/// The order of texts: by the first character in which they differ, a proper prefix first.
pub open spec fn precedes(a: Text, b: Text) -> bool
    decreases a.len(),
{
    if b.len() == 0 {
        false
    } else if a.len() == 0 {
        true
    } else if a[0] != b[0] {
        a[0] < b[0]
    } else {
        precedes(a.skip(1), b.skip(1))
    }
}

/// No text precedes itself, and of two different texts one precedes the other, not both.
pub proof fn lemma_precedes_total(a: Text, b: Text)
    ensures
        precedes(a, b) ==> a != b,
        a == b || precedes(a, b) || precedes(b, a),
        !(precedes(a, b) && precedes(b, a)),
    decreases a.len(),
{
    if a.len() == 0 || b.len() == 0 {
        assert(a.len() == 0 && b.len() == 0 ==> a =~= b);
    } else if a[0] == b[0] {
        lemma_precedes_total(a.skip(1), b.skip(1));
        if a.skip(1) == b.skip(1) {
            assert(a =~= seq![a[0]] + a.skip(1));
            assert(b =~= seq![b[0]] + b.skip(1));
        }
    }
}

/// The order is transitive.
pub proof fn lemma_precedes_transitive(a: Text, b: Text, c: Text)
    requires
        precedes(a, b),
        precedes(b, c),
    ensures
        precedes(a, c),
    decreases a.len(),
{
    if a.len() > 0 && a[0] == b[0] && b[0] == c[0] {
        lemma_precedes_transitive(a.skip(1), b.skip(1), c.skip(1));
    }
}

/// Whether the items stand in strictly ascending order.
pub open spec fn ascending(items: Seq<Text>) -> bool {
    forall|i: int, j: int|
        0 <= i < j < items.len() ==> precedes(#[trigger] items[i], #[trigger] items[j])
}

/// Whether `items` lists the members of `members` in strictly ascending order.
pub open spec fn lists(items: Seq<Text>, members: Set<Text>) -> bool {
    &&& ascending(items)
    &&& forall|x: Text| #[trigger] items.contains(x) <==> members.contains(x)
}

/// The strictly ascending listing of a set of texts.
pub open spec fn listing(members: Set<Text>) -> Seq<Text> {
    choose|items: Seq<Text>| lists(items, members)
}

/// A set has one strictly ascending listing.
pub proof fn lemma_listing_unique(a: Seq<Text>, b: Seq<Text>, members: Set<Text>)
    requires
        lists(a, members),
        lists(b, members),
    ensures
        a == b,
    decreases a.len(),
{
    if a.len() == 0 {
        if b.len() > 0 {
            assert(b.contains(b[0]));
            assert(a.contains(b[0]));
        }
        assert(a =~= b);
    } else {
        assert(a.contains(a[0]));
        assert(b.contains(a[0]));
        assert(b.contains(b[0]));
        assert(a.contains(b[0]));
        lemma_precedes_total(a[0], b[0]);
        let i = choose|i: int| 0 <= i < b.len() && b[i] == a[0];
        let j = choose|j: int| 0 <= j < a.len() && a[j] == b[0];
        assert(a[0] == b[0]);
        let x = a[0];
        let rest = members.remove(x);
        assert forall|y: Text| #[trigger] a.drop_first().contains(y) <==> rest.contains(y) by {
            lemma_tail_members(a, y);
        }
        assert forall|y: Text| #[trigger] b.drop_first().contains(y) <==> rest.contains(y) by {
            lemma_tail_members(b, y);
        }
        lemma_listing_unique(a.drop_first(), b.drop_first(), rest);
        assert(a =~= seq![x] + a.drop_first());
        assert(b =~= seq![x] + b.drop_first());
    }
}

proof fn lemma_tail_members(a: Seq<Text>, y: Text)
    requires
        a.len() > 0,
        ascending(a),
    ensures
        a.drop_first().contains(y) <==> a.contains(y) && y != a[0],
{
    if a.drop_first().contains(y) {
        let k = choose|k: int| 0 <= k < a.drop_first().len() && a.drop_first()[k] == y;
        assert(a[k + 1] == y);
        lemma_precedes_total(a[0], a[k + 1]);
    }
    if a.contains(y) && y != a[0] {
        let k = choose|k: int| 0 <= k < a.len() && a[k] == y;
        assert(a.drop_first()[k - 1] == y);
    }
}

/// A strictly ascending list is the listing of its members.
pub proof fn lemma_listing(items: Seq<Text>, members: Set<Text>)
    requires
        lists(items, members),
    ensures
        items == listing(members),
{
    lemma_listing_unique(items, listing(members), members);
}

/// An ascending list with one more text.
proof fn lemma_one_more(items: Seq<Text>, members: Set<Text>, x: Text) -> (r: Seq<Text>)
    requires
        lists(items, members),
        !members.contains(x),
    ensures
        lists(r, members.insert(x)),
    decreases items.len(),
{
    if items.len() == 0 {
        let r = seq![x];
        assert forall|y: Text| #[trigger] r.contains(y) <==> members.insert(x).contains(y) by {
            assert(r[0] == x);
            assert(items.contains(y) <==> members.contains(y));
        }
        r
    } else if precedes(x, items[0]) {
        let r = seq![x] + items;
        assert forall|i: int, j: int| 0 <= i < j < r.len() implies precedes(
            #[trigger] r[i],
            #[trigger] r[j],
        ) by {
            if i > 0 {
                assert(precedes(items[i - 1], items[j - 1]));
            } else if j > 1 {
                assert(precedes(items[0], items[j - 1]));
                lemma_precedes_transitive(x, items[0], items[j - 1]);
            }
        }
        assert forall|y: Text| #[trigger] r.contains(y) <==> members.insert(x).contains(y) by {
            assert(items.contains(y) <==> members.contains(y));
            if items.contains(y) {
                let k = choose|k: int| 0 <= k < items.len() && items[k] == y;
                assert(r[k + 1] == y);
            }
            if r.contains(y) {
                let k = choose|k: int| 0 <= k < r.len() && r[k] == y;
                if k > 0 {
                    assert(items[k - 1] == y);
                }
            }
            assert(r[0] == x);
        }
        r
    } else {
        let first = items[0];
        let rest = items.drop_first();
        assert(items.contains(first));
        lemma_precedes_total(x, first);
        assert forall|y: Text| #[trigger] rest.contains(y) <==> members.remove(first).contains(y) by {
            lemma_tail_members(items, y);
        }
        let tail = lemma_one_more(rest, members.remove(first), x);
        let r = seq![first] + tail;
        assert forall|i: int, j: int| 0 <= i < j < r.len() implies precedes(
            #[trigger] r[i],
            #[trigger] r[j],
        ) by {
            if i > 0 {
                assert(precedes(tail[i - 1], tail[j - 1]));
            } else {
                assert(tail.contains(tail[j - 1]));
                if tail[j - 1] != x {
                    assert(rest.contains(tail[j - 1]));
                    let k = choose|k: int| 0 <= k < rest.len() && rest[k] == tail[j - 1];
                    assert(precedes(items[0], items[k + 1]));
                }
            }
        }
        assert forall|y: Text| #[trigger] r.contains(y) <==> members.insert(x).contains(y) by {
            assert(items.contains(y) <==> members.contains(y));
            assert(tail.contains(y) <==> members.remove(first).insert(x).contains(y));
            if tail.contains(y) {
                let k = choose|k: int| 0 <= k < tail.len() && tail[k] == y;
                assert(r[k + 1] == y);
            }
            if r.contains(y) {
                let k = choose|k: int| 0 <= k < r.len() && r[k] == y;
                if k > 0 {
                    assert(tail[k - 1] == y);
                }
            }
            assert(r[0] == first);
        }
        r
    }
}

proof fn lemma_some_listing(members: Set<Text>) -> (r: Seq<Text>)
    requires
        members.finite(),
    ensures
        lists(r, members),
    decreases members.len(),
{
    if members.len() == 0 {
        let r = Seq::<Text>::empty();
        assert(members =~= Set::empty());
        r
    } else {
        let x = members.choose();
        let rest = members.remove(x);
        let before = lemma_some_listing(rest);
        assert(rest.insert(x) =~= members);
        lemma_one_more(before, rest, x)
    }
}

/// Every finite set of texts has a strictly ascending listing.
pub proof fn lemma_listing_lists(members: Set<Text>)
    requires
        members.finite(),
    ensures
        lists(listing(members), members),
{
    let r = lemma_some_listing(members);
    assert(lists(r, members));
}

/// Whether `a` precedes `b`.
pub fn text_less(a: &str, b: &str) -> (r: bool)
    ensures
        r == precedes(a@, b@),
{
    let mut rest = b.chars();
    assert(a@.skip(0) =~= a@);
    assert(b@.skip(0) =~= b@);
    for c in it: a.chars()
        invariant
            it.seq() == a@,
            it.index() <= b@.len(),
            precedes(a@, b@) == precedes(a@.skip(it.index() as int), b@.skip(it.index() as int)),
            vstd::std_specs::iter::IteratorSpec::remaining(&rest) == b@.skip(it.index() as int),
    {
        let ghost i = it.index() as int;
        match rest.next() {
            Some(d) => {
                if c != d {
                    return c < d;
                }
                assert(a@.skip(i).skip(1) =~= a@.skip(i + 1));
                assert(b@.skip(i).skip(1) =~= b@.skip(i + 1));
                assert(b@.skip(i).drop_first() =~= b@.skip(i + 1));
            },
            None => {
                return false;
            },
        }
    }
    rest.next().is_some()
}

/// The least position in an ascending list whose item does not precede `key`.
pub fn lower_bound(items: &Vec<String>, key: &str) -> (r: usize)
    requires
        ascending(text::texts(items@)),
    ensures
        r <= items@.len(),
        forall|i: int| 0 <= i < r ==> precedes(#[trigger] items@[i]@, key@),
        forall|i: int| r <= i < items@.len() ==> !precedes(#[trigger] items@[i]@, key@),
{
    let mut lo: usize = 0;
    let mut hi: usize = items.len();
    while lo < hi
        invariant
            lo <= hi <= items@.len(),
            ascending(text::texts(items@)),
            forall|i: int| 0 <= i < lo ==> precedes(#[trigger] items@[i]@, key@),
            forall|i: int| hi <= i < items@.len() ==> !precedes(#[trigger] items@[i]@, key@),
        decreases hi - lo,
    {
        let mid = lo + (hi - lo) / 2;
        let less = text_less(items[mid].as_str(), key);
        proof {
            let all = text::texts(items@);
            if less {
                assert forall|i: int| 0 <= i < mid + 1 implies precedes(
                    #[trigger] items@[i]@,
                    key@,
                ) by {
                    if i < mid {
                        assert(precedes(all[i], all[mid as int]));
                        lemma_precedes_transitive(items@[i]@, items@[mid as int]@, key@);
                    }
                }
            } else {
                assert forall|i: int| mid <= i < items@.len() implies !precedes(
                    #[trigger] items@[i]@,
                    key@,
                ) by {
                    if i > mid && precedes(items@[i]@, key@) {
                        assert(precedes(all[mid as int], all[i]));
                        lemma_precedes_transitive(items@[mid as int]@, items@[i]@, key@);
                    }
                }
            }
        }
        if less {
            lo = mid + 1;
        } else {
            hi = mid;
        }
    }
    lo
}

/// Adds one text to an ascending list, unless it is already there.
pub fn insert_listed(items: &mut Vec<String>, item: String)
    requires
        ascending(text::texts(old(items)@)),
    ensures
        ascending(text::texts(final(items)@)),
        forall|x: Text| #[trigger]
            text::texts(final(items)@).contains(x) <==> text::texts(old(items)@).contains(x) || x == item@,
{
    let ghost before = text::texts(items@);
    let at = lower_bound(items, item.as_str());
    if at < items.len() && !text_less(item.as_str(), items[at].as_str()) {
        proof {
            lemma_precedes_total(items@[at as int]@, item@);
            assert(before[at as int] == item@);
        }
        return ;
    }
    let ghost key = item@;
    items.insert(at, item);
    proof {
        let after = text::texts(items@);
        assert(after =~= before.insert(at as int, key));
        assert forall|i: int, j: int| 0 <= i < j < after.len() implies precedes(
            #[trigger] after[i],
            #[trigger] after[j],
        ) by {
            let p = if i < at {
                i
            } else {
                i - 1
            };
            let q = if j < at {
                j
            } else {
                j - 1
            };
            if i != at && j != at {
                assert(precedes(before[p], before[q]));
            } else if j == at {
                assert(precedes(before[i], key));
            } else {
                if j == at + 1 {
                    assert(precedes(key, before[q]));
                } else {
                    assert(precedes(before[at as int], before[q]));
                    lemma_precedes_transitive(key, before[at as int], before[q]);
                }
            }
        }
        assert forall|x: Text| #[trigger] after.contains(x) <==> before.contains(x) || x == key by {
            if before.contains(x) {
                let k = choose|k: int| 0 <= k < before.len() && before[k] == x;
                assert(after[if k < at {
                    k
                } else {
                    k + 1
                }] == x);
            }
            if after.contains(x) {
                let k = choose|k: int| 0 <= k < after.len() && after[k] == x;
                if k != at {
                    assert(before[if k < at {
                        k
                    } else {
                        k - 1
                    }] == x);
                }
            }
            assert(after[at as int] == key);
        }
    }
}

/// The distinct items in ascending order.
pub fn sort_distinct(items: Vec<String>) -> (r: Vec<String>)
    ensures
        lists(text::texts(r@), text::texts(items@).to_set()),
        text::texts(r@) == listing(text::texts(items@).to_set()),
{
    let mut out: Vec<String> = Vec::new();
    for i in 0..items.len()
        invariant
            lists(text::texts(out@), text::texts(items@).take(i as int).to_set()),
    {
        let ghost done = text::texts(items@).take(i as int);
        let ghost next = text::texts(items@).take(i + 1);
        insert_listed(&mut out, items[i].clone());
        proof {
            assert(next =~= done.push(items@[i as int]@));
            assert forall|x: Text| #[trigger] text::texts(out@).contains(x) <==> next.to_set().contains(x) by {
                lemma_push_members(done, items@[i as int]@, x);
            }
        }
    }
    proof {
        assert(text::texts(items@).take(items@.len() as int) =~= text::texts(items@));
        lemma_listing(text::texts(out@), text::texts(items@).to_set());
    }
    out
}

/// The members of a list with one more item.
pub proof fn lemma_push_members(items: Seq<Text>, item: Text, x: Text)
    ensures
        items.push(item).contains(x) <==> items.contains(x) || x == item,
        items.push(item).to_set().contains(x) <==> items.to_set().contains(x) || x == item,
{
    let all = items.push(item);
    if items.contains(x) {
        let k = choose|k: int| 0 <= k < items.len() && items[k] == x;
        assert(all[k] == x);
    }
    assert(all[items.len() as int] == item);
    if all.contains(x) {
        let k = choose|k: int| 0 <= k < all.len() && all[k] == x;
        if k < items.len() {
            assert(items[k] == x);
        }
    }
}

/// The fewest and the most characters of a list entry.
pub const MIN_ENTRY_CHARS: usize = 2;

pub const MAX_ENTRY_CHARS: usize = 80;

/// The entries that a cleaned list keeps: the trimmed items of an acceptable length.
pub open spec fn clean_entries(items: Seq<Text>) -> Set<Text> {
    Set::new(
        |x: Text|
            MIN_ENTRY_CHARS <= x.len() <= MAX_ENTRY_CHARS && exists|i: int|
                0 <= i < items.len() && text::trimmed(#[trigger] items[i]) == x,
    )
}

/// A cleaned list: its entries trimmed, of an acceptable length, distinct and in order.
pub open spec fn cleaned(items: Seq<Text>) -> Seq<Text> {
    listing(clean_entries(items))
}

/// A cleaned list has the trimmed items of an acceptable length, each once, in order.
pub proof fn lemma_cleaned(items: Seq<Text>)
    ensures
        lists(cleaned(items), clean_entries(items)),
{
    let trimmed = items.map_values(|s: Text| text::trimmed(s));
    assert(clean_entries(items).subset_of(trimmed.to_set())) by {
        assert forall|x: Text| #[trigger] clean_entries(items).contains(x) implies trimmed.to_set().contains(
            x,
        ) by {
            let k = choose|k: int| 0 <= k < items.len() && text::trimmed(#[trigger] items[k]) == x;
            assert(trimmed[k] == x);
        }
    }
    vstd::set_lib::lemma_len_subset(clean_entries(items), trimmed.to_set());
    lemma_listing_lists(clean_entries(items));
}

/// Trims the items, drops those that are too short or too long, sorts them and removes
/// repetitions.
pub fn normalize_string_list(items: &mut Vec<String>)
    ensures
        lists(text::texts(final(items)@), clean_entries(text::texts(old(items)@))),
        text::texts(final(items)@) == cleaned(text::texts(old(items)@)),
{
    let ghost all = text::texts(items@);
    let mut out: Vec<String> = Vec::new();
    for i in 0..items.len()
        invariant
            all == text::texts(items@),
            lists(text::texts(out@), clean_entries(all.take(i as int))),
    {
        let ghost before = text::texts(out@);
        let entry = text::trim(items[i].as_str());
        let count = text::char_count(entry);
        if MIN_ENTRY_CHARS <= count && count <= MAX_ENTRY_CHARS {
            insert_listed(&mut out, text::copy_text(entry));
        }
        proof {
            let done = all.take(i as int);
            let next = all.take(i + 1);
            assert forall|x: Text| #[trigger] text::texts(out@).contains(x) <==> clean_entries(
                next,
            ).contains(x) by {
                assert(before.contains(x) <==> clean_entries(done).contains(x));
                if clean_entries(done).contains(x) {
                    let k = choose|k: int| 0 <= k < done.len() && text::trimmed(#[trigger] done[k]) == x;
                    assert(next[k] == done[k]);
                }
                if clean_entries(next).contains(x) {
                    let k = choose|k: int| 0 <= k < next.len() && text::trimmed(#[trigger] next[k]) == x;
                    if k < i {
                        assert(done[k] == next[k]);
                    }
                }
                assert(next[i as int] == all[i as int]);
            }
        }
    }
    proof {
        assert(all.take(all.len() as int) =~= all);
        lemma_listing(text::texts(out@), clean_entries(all));
    }
    *items = out;
}

/// Appends copies of some items to a list.
pub fn push_all(items: &mut Vec<String>, more: &Vec<String>)
    ensures
        text::texts(final(items)@) == text::texts(old(items)@) + text::texts(more@),
{
    let ghost before = text::texts(items@);
    assert(before + text::texts(more@).take(0) =~= before);
    for i in 0..more.len()
        invariant
            text::texts(items@) == before + text::texts(more@).take(i as int),
    {
        let ghost now = text::texts(items@);
        items.push(more[i].clone());
        assert(text::texts(items@) =~= now.push(more@[i as int]@));
        assert(text::texts(more@).take(i + 1) =~= text::texts(more@).take(i as int).push(
            more@[i as int]@,
        ));
    }
    assert(text::texts(more@).take(more@.len() as int) =~= text::texts(more@));
}

/// A cleaned list has no more entries than there were items.
pub proof fn lemma_cleaned_len(items: Seq<Text>, list: Seq<Text>)
    requires
        lists(list, clean_entries(items)),
    ensures
        list.len() <= items.len(),
{
    let sources = items.map_values(|s: Text| text::trimmed(s));
    assert(list.to_set().subset_of(sources.to_set())) by {
        assert forall|x: Text| #[trigger] list.to_set().contains(x) implies sources.to_set().contains(
            x,
        ) by {
            assert(list.contains(x));
            let k = choose|k: int| 0 <= k < items.len() && text::trimmed(#[trigger] items[k]) == x;
            assert(sources[k] == x);
        }
    }
    assert(list.no_duplicates()) by {
        assert forall|i: int, j: int| 0 <= i < list.len() && 0 <= j < list.len() && i != j implies list[i]
            != list[j] by {
            lemma_precedes_total(list[i], list[j]);
            if i < j {
                assert(precedes(list[i], list[j]));
            } else {
                assert(precedes(list[j], list[i]));
            }
        }
    }
    list.unique_seq_to_set();
    sources.lemma_cardinality_of_set();
    vstd::set_lib::lemma_len_subset(list.to_set(), sources.to_set());
}

/// Cleaning a cleaned list changes nothing.
pub proof fn law_cleaned_once(items: Seq<Text>)
    ensures
        cleaned(cleaned(items)) == cleaned(items),
{
    let once = cleaned(items);
    lemma_cleaned(items);
    assert forall|x: Text| #[trigger] clean_entries(once).contains(x) <==> clean_entries(
        items,
    ).contains(x) by {
        if clean_entries(once).contains(x) {
            let k = choose|k: int| 0 <= k < once.len() && text::trimmed(#[trigger] once[k]) == x;
            assert(once.contains(once[k]));
            let j = choose|j: int|
                0 <= j < items.len() && text::trimmed(#[trigger] items[j]) == once[k];
            text::lemma_trimmed_twice(items[j]);
        }
        if clean_entries(items).contains(x) {
            let j = choose|j: int| 0 <= j < items.len() && text::trimmed(#[trigger] items[j]) == x;
            assert(once.contains(x));
            let k = choose|k: int| 0 <= k < once.len() && once[k] == x;
            text::lemma_trimmed_twice(items[j]);
            assert(text::trimmed(once[k]) == x);
        }
    }
    assert(clean_entries(once) =~= clean_entries(items));
}

// ---------------------------------------------------------------------------------------------
// Order and entries

/// Texts are ordered by the first character in which they differ, and a text stands before every
/// longer one that begins with it.
pub proof fn law_order(common: Text, c: char, a: Text, d: char, b: Text)
    requires
        c < d,
    ensures
        precedes(common + seq![c] + a, common + seq![d] + b),
        precedes(common, common + seq![c] + a),
        !precedes(common, common),
    decreases common.len(),
{
    let x = common + seq![c] + a;
    let y = common + seq![d] + b;
    if common.len() > 0 {
        law_order(common.skip(1), c, a, d, b);
        assert(x.skip(1) =~= common.skip(1) + seq![c] + a);
        assert(y.skip(1) =~= common.skip(1) + seq![d] + b);
        assert(x[0] == common[0] && y[0] == common[0]);
    } else {
        assert(x[0] == c && y[0] == d);
    }
}

/// The entries of a cleaned list are the trimmed items that have between two and eighty characters,
/// each once and in order.
pub proof fn law_cleaned_entries(items: Seq<Text>, x: Text)
    ensures
        cleaned(items).contains(x) <==> 2 <= x.len() <= 80 && exists|i: int|
            0 <= i < items.len() && text::trimmed(#[trigger] items[i]) == x,
        ascending(cleaned(items)),
        cleaned(items).no_duplicates(),
{
    lemma_cleaned(items);
    let list = cleaned(items);
    assert(list.contains(x) <==> clean_entries(items).contains(x));
    assert forall|i: int, j: int| 0 <= i < list.len() && 0 <= j < list.len() && i != j implies list[i]
        != list[j] by {
        lemma_precedes_total(list[i], list[j]);
        if i < j {
            assert(precedes(list[i], list[j]));
        } else {
            assert(precedes(list[j], list[i]));
        }
    }
}

} // verus!
