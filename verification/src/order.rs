//! The dictionary order of texts, and sorting by it.

use vstd::prelude::*;
use vstd::relations::*;
use vstd::seq_lib::*;

use crate::text;
use crate::text::chars_of;

verus! {

/// `a` stands before `b` in the dictionary, or is `b`.
pub open spec fn le(a: Seq<char>, b: Seq<char>) -> bool
    decreases a.len(),
{
    if a.len() == 0 {
        true
    } else if b.len() == 0 {
        false
    } else if a[0] == b[0] {
        le(a.skip(1), b.skip(1))
    } else {
        a[0] < b[0]
    }
}

/// The dictionary order as a relation.
pub open spec fn dictionary() -> spec_fn(Seq<char>, Seq<char>) -> bool {
    |a: Seq<char>, b: Seq<char>| le(a, b)
}

/// The texts in dictionary order.
pub open spec fn sorted(s: Seq<Seq<char>>) -> Seq<Seq<char>> {
    s.sort_by(dictionary())
}

proof fn lemma_le_reflexive(a: Seq<char>)
    ensures
        le(a, a),
    decreases a.len(),
{
    if a.len() > 0 {
        lemma_le_reflexive(a.skip(1));
    }
}

proof fn lemma_le_antisymmetric(a: Seq<char>, b: Seq<char>)
    requires
        le(a, b),
        le(b, a),
    ensures
        a == b,
    decreases a.len(),
{
    if a.len() > 0 {
        lemma_le_antisymmetric(a.skip(1), b.skip(1));
        assert(a =~= seq![a[0]] + a.skip(1));
        assert(b =~= seq![b[0]] + b.skip(1));
    } else {
        assert(a =~= b);
    }
}

proof fn lemma_le_transitive(a: Seq<char>, b: Seq<char>, c: Seq<char>)
    requires
        le(a, b),
        le(b, c),
    ensures
        le(a, c),
    decreases a.len(),
{
    if a.len() > 0 {
        if a[0] == b[0] && b[0] == c[0] {
            lemma_le_transitive(a.skip(1), b.skip(1), c.skip(1));
        }
    }
}

proof fn lemma_le_total(a: Seq<char>, b: Seq<char>)
    ensures
        le(a, b) || le(b, a),
    decreases a.len(),
{
    if a.len() > 0 && b.len() > 0 && a[0] == b[0] {
        lemma_le_total(a.skip(1), b.skip(1));
    }
}

/// The dictionary order is a total order.
pub proof fn lemma_dictionary_is_total()
    ensures
        total_ordering(dictionary()),
{
    let r = dictionary();
    assert forall|a: Seq<char>| #[trigger] r(a, a) by {
        lemma_le_reflexive(a);
    }
    assert forall|a: Seq<char>, b: Seq<char>| #[trigger] r(a, b) && #[trigger] r(b, a) implies a
        == b by {
        lemma_le_antisymmetric(a, b);
    }
    assert forall|a: Seq<char>, b: Seq<char>, c: Seq<char>| #[trigger]
        r(a, b) && #[trigger] r(b, c) implies r(a, c) by {
        lemma_le_transitive(a, b, c);
    }
    assert forall|a: Seq<char>, b: Seq<char>| #[trigger] r(a, b) || #[trigger] r(b, a) by {
        lemma_le_total(a, b);
    }
}

/// Of two texts with the same beginning, the rest decides.
pub proof fn lemma_le_prefix(p: Seq<char>, a: Seq<char>, b: Seq<char>)
    ensures
        le(p + a, p + b) == le(a, b),
    decreases p.len(),
{
    if p.len() > 0 {
        assert((p + a).skip(1) =~= p.skip(1) + a);
        assert((p + b).skip(1) =~= p.skip(1) + b);
        lemma_le_prefix(p.skip(1), a, b);
    } else {
        assert(p + a =~= a);
        assert(p + b =~= b);
    }
}

/// Whether `a` stands before `b` in the dictionary, or is `b`.
pub fn not_after(a: &[char], b: &[char]) -> (r: bool)
    ensures
        r == le(a@, b@),
{
    let mut i: usize = 0;
    assert(a@.skip(0) =~= a@);
    assert(b@.skip(0) =~= b@);
    while i < a.len() && i < b.len() && a[i] == b[i]
        invariant
            i <= a.len(),
            i <= b.len(),
            le(a@, b@) == le(a@.skip(i as int), b@.skip(i as int)),
        decreases a.len() - i,
    {
        assert(a@.skip(i as int).skip(1) =~= a@.skip(i + 1));
        assert(b@.skip(i as int).skip(1) =~= b@.skip(i + 1));
        i += 1;
    }
    if i == a.len() {
        true
    } else if i == b.len() {
        false
    } else {
        assert(a@.skip(i as int)[0] == a@[i as int]);
        assert(b@.skip(i as int)[0] == b@[i as int]);
        a[i] < b[i]
    }
}

/// Whether `a` stands before `b` in the dictionary, or is `b`.
pub fn not_after_text(a: &str, b: &str) -> (r: bool)
    ensures
        r == le(a@, b@),
{
    not_after(chars_of(a).as_slice(), chars_of(b).as_slice())
}

/// A text put before the first one that comes after it keeps the order.
pub proof fn lemma_insert_sorted(
    before: Seq<Seq<char>>,
    p: int,
    item: Seq<char>,
    r: spec_fn(Seq<char>, Seq<char>) -> bool,
)
    requires
        total_ordering(r),
        sorted_by(before, r),
        0 <= p <= before.len(),
        forall|j: int| 0 <= j < p ==> r(#[trigger] before[j], item),
        p < before.len() ==> !r(before[p], item),
    ensures
        sorted_by(before.insert(p, item), r),
        before.insert(p, item).to_multiset() == before.to_multiset().insert(item),
{
    let after = before.insert(p, item);
    assert forall|j: int| p <= j < before.len() implies r(item, #[trigger] before[j]) by {
        assert(r(before[p], item) || r(item, before[p]));
        if j > p {
            assert(r(before[p], before[j]));
        }
    }
    assert forall|a: int, b: int| 0 <= a < b < after.len() implies r(
        #[trigger] after[a],
        #[trigger] after[b],
    ) by {
        if a < p && b < p {
            assert(r(before[a], before[b]));
        } else if a < p && b == p {
            assert(r(before[a], item));
        } else if a < p {
            assert(r(before[a], before[b - 1]));
        } else if a == p {
            assert(r(item, before[b - 1]));
        } else {
            assert(r(before[a - 1], before[b - 1]));
        }
    }
    to_multiset_insert(before, p, item);
}

/// The strings in dictionary order.
pub fn sort(v: &Vec<String>) -> (r: Vec<String>)
    ensures
        text::views(r@) == sorted(text::views(v@)),
{
    let mut out: Vec<String> = Vec::new();
    let mut i: usize = 0;
    proof {
        lemma_dictionary_is_total();
        assert(text::views(out@) =~= text::views(v@).take(0));
    }
    while i < v.len()
        invariant
            i <= v.len(),
            total_ordering(dictionary()),
            sorted_by(text::views(out@), dictionary()),
            text::views(out@).to_multiset() == text::views(v@).take(i as int).to_multiset(),
        decreases v.len() - i,
    {
        let ghost all = text::views(v@);
        let ghost before = text::views(out@);
        let item = &v[i];
        let mut p: usize = 0;
        while p < out.len() && not_after_text(out[p].as_str(), item.as_str())
            invariant
                p <= out.len(),
                before == text::views(out@),
                forall|j: int| 0 <= j < p ==> dictionary()(#[trigger] before[j], item@),
            decreases out.len() - p,
        {
            p += 1;
        }
        out.insert(p, item.clone());
        proof {
            assert(text::views(out@) =~= before.insert(p as int, item@));
            lemma_insert_sorted(before, p as int, item@, dictionary());
            assert(all.take(i + 1) =~= all.take(i as int).push(item@));
            to_multiset_build(all.take(i as int), item@);
        }
        i += 1;
    }
    proof {
        assert(text::views(v@).take(i as int) =~= text::views(v@));
        text::views(v@).lemma_sort_by_ensures(dictionary());
        lemma_sorted_unique(text::views(out@), sorted(text::views(v@)), dictionary());
    }
    out
}

// ---------------------------------------------------------------------------
// Sets of texts, kept in dictionary order.
// ---------------------------------------------------------------------------

/// The texts stand in dictionary order, and none occurs twice.
pub open spec fn ascending(s: Seq<Seq<char>>) -> bool {
    forall|i: int, j: int|
        0 <= i < j < s.len() ==> #[trigger] le(s[i], s[j]) && s[i] != s[j]
}

/// The texts of a set in dictionary order.
pub open spec fn listed(set: Set<Seq<char>>) -> Seq<Seq<char>> {
    choose|s: Seq<Seq<char>>| #[trigger] ascending(s) && s.to_set() == set
}

proof fn lemma_ascending_rest(s: Seq<Seq<char>>)
    requires
        ascending(s),
        s.len() > 0,
    ensures
        ascending(s.skip(1)),
        s.skip(1).to_set() == s.to_set().remove(s[0]),
{
    let t = s.skip(1);
    assert forall|i: int, j: int| 0 <= i < j < t.len() implies #[trigger] le(t[i], t[j]) && t[i]
        != t[j] by {
        assert(le(s[i + 1], s[j + 1]));
    }
    assert forall|x: Seq<char>| t.to_set().contains(x) == s.to_set().remove(s[0]).contains(x) by {
        if t.contains(x) {
            let i = choose|i: int| 0 <= i < t.len() && t[i] == x;
            assert(s[i + 1] == x);
            assert(le(s[0], s[i + 1]));
        }
        if s.contains(x) && x != s[0] {
            let i = choose|i: int| 0 <= i < s.len() && s[i] == x;
            assert(t[i - 1] == x);
        }
    }
    assert(t.to_set() =~= s.to_set().remove(s[0]));
}

/// Two lists of one set in dictionary order are the same.
pub proof fn lemma_ascending_unique(s: Seq<Seq<char>>, t: Seq<Seq<char>>)
    requires
        ascending(s),
        ascending(t),
        s.to_set() == t.to_set(),
    ensures
        s == t,
    decreases s.len(),
{
    if s.len() == 0 {
        if t.len() > 0 {
            assert(t.to_set().contains(t[0]));
            assert(s.contains(t[0]));
        }
        assert(s =~= t);
    } else {
        assert(s.to_set().contains(s[0]));
        assert(t.contains(s[0]));
        let i = choose|i: int| 0 <= i < t.len() && t[i] == s[0];
        assert(t.to_set().contains(t[0]));
        assert(s.contains(t[0]));
        let j = choose|j: int| 0 <= j < s.len() && s[j] == t[0];
        if s[0] != t[0] {
            assert(le(t[0], t[i]));
            assert(le(s[0], s[j]));
            lemma_le_antisymmetric(s[0], t[0]);
        }
        lemma_ascending_rest(s);
        lemma_ascending_rest(t);
        lemma_ascending_unique(s.skip(1), t.skip(1));
        assert(s =~= seq![s[0]] + s.skip(1));
        assert(t =~= seq![t[0]] + t.skip(1));
    }
}

/// A list of a set in dictionary order is the list of it.
pub proof fn lemma_listed(s: Seq<Seq<char>>)
    requires
        ascending(s),
    ensures
        listed(s.to_set()) == s,
{
    let t = listed(s.to_set());
    assert(ascending(s) && s.to_set() == s.to_set());
    lemma_ascending_unique(s, t);
}

/// Every finite set of texts can be listed in dictionary order.
pub proof fn lemma_set_listed(set: Set<Seq<char>>)
    requires
        set.finite(),
    ensures
        ascending(listed(set)),
        listed(set).to_set() == set,
    decreases set.len(),
{
    if set.len() == 0 {
        assert(set =~= Set::<Seq<char>>::empty());
        let s = Seq::<Seq<char>>::empty();
        assert(s.to_set() =~= set);
        assert(ascending(s));
    } else {
        let item = set.choose();
        let rest = set.remove(item);
        lemma_set_listed(rest);
        let before = listed(rest);
        let p = choose_place(before, item);
        lemma_place(before, item);
        lemma_put(before, p, item);
        let s = before.insert(p, item);
        assert(s.to_set() =~= set);
        assert(ascending(s));
    }
}

spec fn choose_place(s: Seq<Seq<char>>, item: Seq<char>) -> int
    decreases s.len(),
{
    if s.len() == 0 || le(s.last(), item) {
        s.len() as int
    } else {
        choose_place(s.drop_last(), item)
    }
}

proof fn lemma_place(s: Seq<Seq<char>>, item: Seq<char>)
    requires
        ascending(s),
        !s.contains(item),
    ensures
        0 <= choose_place(s, item) <= s.len(),
        forall|j: int|
            0 <= j < choose_place(s, item) ==> le(#[trigger] s[j], item) && s[j] != item,
        forall|j: int|
            choose_place(s, item) <= j < s.len() ==> le(item, #[trigger] s[j]) && s[j] != item,
    decreases s.len(),
{
    if s.len() > 0 {
        if le(s.last(), item) {
            assert forall|j: int| 0 <= j < s.len() implies le(#[trigger] s[j], item) && s[j]
                != item by {
                if j < s.len() - 1 {
                    assert(le(s[j], s[s.len() - 1]));
                    lemma_le_transitive(s[j], s.last(), item);
                }
            }
        } else {
            let rest = s.drop_last();
            assert forall|i: int, j: int| 0 <= i < j < rest.len() implies #[trigger] le(
                rest[i],
                rest[j],
            ) && rest[i] != rest[j] by {
                assert(le(s[i], s[j]));
            }
            assert(!rest.contains(item)) by {
                if rest.contains(item) {
                    let k = choose|k: int| 0 <= k < rest.len() && rest[k] == item;
                    assert(s[k] == item);
                }
            }
            lemma_place(rest, item);
            lemma_le_total(s.last(), item);
            assert forall|j: int| choose_place(s, item) <= j < s.len() implies le(
                item,
                #[trigger] s[j],
            ) && s[j] != item by {
                if j < rest.len() {
                    assert(rest[j] == s[j]);
                }
            }
            assert forall|j: int| 0 <= j < choose_place(s, item) implies le(
                #[trigger] s[j],
                item,
            ) && s[j] != item by {
                assert(rest[j] == s[j]);
            }
        }
    }
}

/// Nothing occurs twice in a list in dictionary order.
pub proof fn lemma_ascending_count(s: Seq<Seq<char>>)
    requires
        ascending(s),
    ensures
        s.no_duplicates(),
        s.to_set().len() == s.len(),
{
    assert forall|a: int, b: int|
        0 <= a < s.len() && 0 <= b < s.len() && a != b implies s[a] != s[b] by {
        if a < b {
            assert(le(s[a], s[b]));
        } else {
            assert(le(s[b], s[a]));
        }
    }
    s.unique_seq_to_set();
}

/// Where a text belongs in a list in dictionary order, and whether it is
/// there already.
pub fn place(v: &[String], item: &str) -> (r: (usize, bool))
    requires
        ascending(text::views(v@)),
    ensures
        r.0 <= v@.len(),
        r.1 == text::views(v@).contains(item@),
        r.1 ==> r.0 < v@.len() && v@[r.0 as int]@ == item@,
        forall|j: int| 0 <= j < r.0 ==> le(#[trigger] text::views(v@)[j], item@) && text::views(v@)[j] != item@,
        !r.1 ==> forall|j: int|
            r.0 <= j < v@.len() ==> le(item@, #[trigger] text::views(v@)[j]) && text::views(v@)[j] != item@,
{
    let ghost all = text::views(v@);
    let mut p: usize = 0;
    while p < v.len() && !not_after_text(item, v[p].as_str())
        invariant
            p <= v.len(),
            all == text::views(v@),
            forall|j: int| 0 <= j < p ==> le(#[trigger] all[j], item@) && all[j] != item@,
        decreases v.len() - p,
    {
        proof {
            lemma_le_total(all[p as int], item@);
            lemma_le_reflexive(item@);
        }
        p += 1;
    }
    let found = p < v.len() && not_after_text(v[p].as_str(), item);
    proof {
        if p < v.len() {
            assert(le(item@, all[p as int]));
            assert forall|j: int| p < j < all.len() implies le(item@, #[trigger] all[j]) && all[j]
                != item@ by {
                assert(le(all[p as int], all[j]));
                lemma_le_transitive(item@, all[p as int], all[j]);
                if all[j] == item@ {
                    lemma_le_antisymmetric(all[p as int], all[j]);
                }
            }
            if found {
                lemma_le_antisymmetric(item@, all[p as int]);
            } else {
                lemma_le_reflexive(item@);
            }
        }
        if all.contains(item@) {
            let i = choose|i: int| 0 <= i < all.len() && all[i] == item@;
            assert(i == p);
            lemma_le_reflexive(item@);
        }
        if found {
            assert(all[p as int] == item@);
        }
    }
    (p, found)
}

/// A text put where it belongs keeps the dictionary order.
pub proof fn lemma_put(before: Seq<Seq<char>>, p: int, item: Seq<char>)
    requires
        ascending(before),
        0 <= p <= before.len(),
        forall|j: int| 0 <= j < p ==> le(#[trigger] before[j], item) && before[j] != item,
        forall|j: int| p <= j < before.len() ==> le(item, #[trigger] before[j]) && before[j] != item,
    ensures
        ascending(before.insert(p, item)),
        before.insert(p, item).to_set() == before.to_set().insert(item),
{
    let after = before.insert(p, item);
    assert forall|i: int, j: int| 0 <= i < j < after.len() implies #[trigger] le(
        after[i],
        after[j],
    ) && after[i] != after[j] by {
        if i < p && j < p {
            assert(le(before[i], before[j]));
        } else if i < p && j == p {
            assert(le(before[i], item));
        } else if i < p {
            assert(le(before[i], before[j - 1]));
        } else if i == p {
            assert(le(item, before[j - 1]));
        } else {
            assert(le(before[i - 1], before[j - 1]));
        }
    }
    assert forall|x: Seq<char>| after.to_set().contains(x) == before.to_set().insert(item).contains(
        x,
    ) by {
        if after.contains(x) {
            let i = choose|i: int| 0 <= i < after.len() && after[i] == x;
            if i < p {
                assert(before[i] == x);
            } else if i > p {
                assert(before[i - 1] == x);
            }
        }
        if before.contains(x) {
            let i = choose|i: int| 0 <= i < before.len() && before[i] == x;
            if i < p {
                assert(after[i] == x);
            } else {
                assert(after[i + 1] == x);
            }
        }
        assert(after[p] == item);
    }
    assert(after.to_set() =~= before.to_set().insert(item));
}

/// The list with one more text in it.
pub fn put(v: &mut Vec<String>, item: String)
    requires
        ascending(text::views(old(v)@)),
    ensures
        ascending(text::views(final(v)@)),
        text::views(final(v)@).to_set() == text::views(old(v)@).to_set().insert(item@),
{
    let ghost before = text::views(v@);
    let (p, found) = place(v.as_slice(), item.as_str());
    if !found {
        let ghost t = item@;
        v.insert(p, item);
        proof {
            assert(text::views(v@) =~= before.insert(p as int, t));
            lemma_put(before, p as int, t);
        }
    } else {
        assert(before.to_set() =~= before.to_set().insert(item@));
    }
}

} // verus!
