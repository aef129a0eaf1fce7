//! Lists of patch names, in alphabetical order.
use crate::names::{ascii_lowercase, chars_of, lowercase, patch_stem, stem};
use vstd::multiset::group_multiset_axioms;
use vstd::prelude::*;
use vstd::seq_lib::group_to_multiset_ensures;

verus! {

/// Alphabetical order: character by character, a shorter text before its
/// continuations.
pub open spec fn at_most(a: Seq<char>, b: Seq<char>) -> bool
    decreases a.len(),
{
    if a.len() == 0 {
        true
    } else if b.len() == 0 {
        false
    } else if a[0] != b[0] {
        a[0] < b[0]
    } else {
        at_most(a.drop_first(), b.drop_first())
    }
}

/// The texts of a list.
pub open spec fn texts(list: Seq<String>) -> Seq<Seq<char>> {
    list.map_values(|s: String| s@)
}

/// The text itself, to sort by.
pub open spec fn as_written() -> spec_fn(Seq<char>) -> Seq<char> {
    |s: Seq<char>| s
}

/// The text in lower case, to sort by.
pub open spec fn without_case() -> spec_fn(Seq<char>) -> Seq<char> {
    |s: Seq<char>| lowercase(s)
}

/// The text with its ASCII capitals in lower case, to sort by.
pub open spec fn without_ascii_case() -> spec_fn(Seq<char>) -> Seq<char> {
    |s: Seq<char>| ascii_lowercase(s)
}

/// Whether all the texts of a list are ASCII.
pub open spec fn all_ascii(list: Seq<Seq<char>>) -> bool {
    forall|i: int| 0 <= i < list.len() ==> vstd::utf8::is_ascii_chars(#[trigger] list[i])
}

/// A text with the key to sort it by.
#[derive(Clone, Debug)]
pub struct Keyed {
    pub key: String,
    pub name: String,
}

impl View for Keyed {
    type V = (Seq<char>, Seq<char>);

    open spec fn view(&self) -> (Seq<char>, Seq<char>) {
        (self.key@, self.name@)
    }
}

/// The keys and texts of a list.
pub open spec fn pairs(list: Seq<Keyed>) -> Seq<(Seq<char>, Seq<char>)> {
    list.map_values(|k: Keyed| k@)
}

/// Having a given key.
pub open spec fn has_key(k: Seq<char>) -> spec_fn((Seq<char>, Seq<char>)) -> bool {
    |p: (Seq<char>, Seq<char>)| p.0 == k
}

/// The items of a list that have a given key, in their order.
pub open spec fn with_key(
    list: Seq<(Seq<char>, Seq<char>)>,
    k: Seq<char>,
) -> Seq<(Seq<char>, Seq<char>)> {
    list.filter(has_key(k))
}

/// Whether a list is another one sorted by the keys: it has the same items,
/// their keys ascend, and items with equal keys keep their order.
pub open spec fn sorted_by_key(
    list: Seq<(Seq<char>, Seq<char>)>,
    from: Seq<(Seq<char>, Seq<char>)>,
) -> bool {
    &&& list.to_multiset() == from.to_multiset()
    &&& forall|i: int, j: int|
        0 <= i < j < list.len() ==> at_most((#[trigger] list[i]).0, (#[trigger] list[j]).0)
    &&& forall|k: Seq<char>| #[trigger] with_key(list, k) == with_key(from, k)
}

/// Texts with the keys to sort them by.
pub open spec fn keyed(
    list: Seq<Seq<char>>,
    key: spec_fn(Seq<char>) -> Seq<char>,
) -> Seq<(Seq<char>, Seq<char>)> {
    list.map_values(|s: Seq<char>| (key(s), s))
}

/// Whether a list of texts is another one sorted by a key.
pub open spec fn sorted_from(
    list: Seq<Seq<char>>,
    from: Seq<Seq<char>>,
    key: spec_fn(Seq<char>) -> Seq<char>,
) -> bool {
    sorted_by_key(keyed(list, key), keyed(from, key))
}

/// The patches that a directory's files hold, in the files' order.
pub open spec fn patches_among(files: Seq<Seq<char>>) -> Seq<Seq<char>> {
    files.filter_map(|f: Seq<char>| patch_stem(f))
}

/// Alphabetical order is total: of two texts one is at most the other, only
/// equal texts are so both ways, and the order carries over.
pub proof fn lemma_order_is_total(a: Seq<char>, b: Seq<char>, c: Seq<char>)
    ensures
        at_most(a, a),
        at_most(a, b) || at_most(b, a),
        at_most(a, b) && at_most(b, a) ==> a == b,
        at_most(a, b) && at_most(b, c) ==> at_most(a, c),
    decreases a.len() + b.len() + c.len(),
{
    if a.len() > 0 {
        lemma_order_is_total(
            a.drop_first(),
            if b.len() > 0 {
                b.drop_first()
            } else {
                b
            },
            if c.len() > 0 {
                c.drop_first()
            } else {
                c
            },
        );
        if b.len() > 0 && a[0] == b[0] && a.drop_first() == b.drop_first() {
            assert(a =~= seq![a[0]] + a.drop_first());
            assert(b =~= seq![b[0]] + b.drop_first());
        }
    } else if b.len() == 0 {
        assert(a =~= b);
    }
}

/// Whether one text is at most another, alphabetically.
pub(crate) fn in_order(a: &Vec<char>, b: &Vec<char>) -> (r: bool)
    ensures
        r == at_most(a@, b@),
{
    let mut i: usize = 0;
    assert(a@.skip(0) =~= a@);
    assert(b@.skip(0) =~= b@);
    while i < a.len() && i < b.len()
        invariant
            i <= a.len(),
            i <= b.len(),
            at_most(a@, b@) == at_most(a@.skip(i as int), b@.skip(i as int)),
        decreases a.len() - i,
    {
        assert(a@.skip(i as int).drop_first() =~= a@.skip(i + 1));
        assert(b@.skip(i as int).drop_first() =~= b@.skip(i + 1));
        if a[i] != b[i] {
            return a[i] < b[i];
        }
        i = i + 1;
    }
    i == a.len()
}

proof fn lemma_filter_insert(
    list: Seq<(Seq<char>, Seq<char>)>,
    p: int,
    item: (Seq<char>, Seq<char>),
    k: Seq<char>,
)
    requires
        0 <= p <= list.len(),
        forall|i: int| p <= i < list.len() ==> (#[trigger] list[i]).0 != item.0,
    ensures
        with_key(list.insert(p, item), k) == (if item.0 == k {
            with_key(list, k).push(item)
        } else {
            with_key(list, k)
        }),
{
    let f = has_key(k);
    let head = list.take(p);
    let tail = list.skip(p);
    assert(list =~= head + tail);
    assert(list.insert(p, item) =~= (head + seq![item]) + tail);
    Seq::filter_distributes_over_add(head, tail, f);
    Seq::filter_distributes_over_add(head + seq![item], tail, f);
    Seq::filter_distributes_over_add(head, seq![item], f);
    reveal_with_fuel(Seq::filter, 2);
    assert(seq![item].drop_last() =~= Seq::<(Seq<char>, Seq<char>)>::empty());
    assert(seq![item].last() == item);
    if item.0 == k {
        lemma_filter_none(tail, f);
        assert(head.filter(f) + seq![item].filter(f) + tail.filter(f) =~= (head.filter(f)
            + tail.filter(f)).push(item));
    } else {
        assert(head.filter(f) + seq![item].filter(f) + tail.filter(f) =~= head.filter(f)
            + tail.filter(f));
    }
}

proof fn lemma_filter_none(
    list: Seq<(Seq<char>, Seq<char>)>,
    f: spec_fn((Seq<char>, Seq<char>)) -> bool,
)
    requires
        forall|i: int| 0 <= i < list.len() ==> !f(#[trigger] list[i]),
    ensures
        list.filter(f) == Seq::<(Seq<char>, Seq<char>)>::empty(),
    decreases list.len(),
{
    reveal(Seq::filter);
    if list.len() > 0 {
        lemma_filter_none(list.drop_last(), f);
        assert(!f(list[list.len() - 1]));
    }
}

/// Putting an item behind all that have at most its key keeps a list sorted.
proof fn lemma_insert_keeps_sorted(
    list: Seq<(Seq<char>, Seq<char>)>,
    from: Seq<(Seq<char>, Seq<char>)>,
    item: (Seq<char>, Seq<char>),
    p: int,
)
    requires
        sorted_by_key(list, from),
        0 <= p <= list.len(),
        forall|i: int| 0 <= i < p ==> at_most((#[trigger] list[i]).0, item.0),
        p < list.len() ==> !at_most(list[p].0, item.0),
    ensures
        sorted_by_key(list.insert(p, item), from.push(item)),
{
    broadcast use {group_multiset_axioms, group_to_multiset_ensures};

    let after = list.insert(p, item);
    assert forall|i: int| p <= i < list.len() implies !at_most((#[trigger] list[i]).0, item.0) by {
        if i > p {
            assert(at_most(list[p].0, list[i].0));
            lemma_order_is_total(list[p].0, list[i].0, item.0);
        }
    }
    lemma_order_is_total(item.0, item.0, item.0);
    assert(after.to_multiset() =~= from.push(item).to_multiset());
    assert forall|k: Seq<char>| #[trigger] with_key(after, k) == with_key(from.push(item), k) by {
        lemma_filter_insert(list, p, item, k);
        reveal(Seq::filter);
        assert(from.push(item).drop_last() =~= from);
        assert(with_key(list, k) == with_key(from, k));
    }
    assert forall|i: int, j: int| 0 <= i < j < after.len() implies at_most(
        (#[trigger] after[i]).0,
        (#[trigger] after[j]).0,
    ) by {
        let bi = if i < p {
            i
        } else {
            i - 1
        };
        let bj = if j < p {
            j
        } else {
            j - 1
        };
        if i == p {
            assert(after[j] == list[bj]);
            lemma_order_is_total(item.0, list[bj].0, item.0);
        } else if j == p {
            assert(after[i] == list[i]);
        } else {
            assert(after[i] == list[bi]);
            assert(after[j] == list[bj]);
        }
    }
}

/// The list in the alphabetical order of its keys.
pub fn sort_by_keys(list: &Vec<Keyed>) -> (r: Vec<Keyed>)
    ensures
        sorted_by_key(pairs(r@), pairs(list@)),
{
    let mut sorted: Vec<Keyed> = Vec::new();
    let mut i: usize = 0;
    assert(pairs(list@.take(0)) =~= pairs(sorted@));
    while i < list.len()
        invariant
            i <= list.len(),
            sorted_by_key(pairs(sorted@), pairs(list@.take(i as int))),
        decreases list.len() - i,
    {
        let key = chars_of(list[i].key.as_str());
        let mut p: usize = 0;
        while p < sorted.len()
            invariant
                p <= sorted@.len(),
                key@ == list@[i as int].key@,
                forall|k: int|
                    0 <= k < p ==> at_most((#[trigger] pairs(sorted@)[k]).0, key@),
            ensures
                p <= sorted@.len(),
                p < sorted@.len() ==> !at_most(pairs(sorted@)[p as int].0, key@),
            decreases sorted.len() - p,
        {
            let other = chars_of(sorted[p].key.as_str());
            if !in_order(&other, &key) {
                break;
            }
            p = p + 1;
        }
        let ghost before = pairs(sorted@);
        let item = Keyed { key: list[i].key.clone(), name: list[i].name.clone() };
        proof {
            lemma_insert_keeps_sorted(before, pairs(list@.take(i as int)), item@, p as int);
        }
        sorted.insert(p, item);
        proof {
            assert(pairs(sorted@) =~= before.insert(p as int, list@[i as int]@));
            assert(pairs(list@.take(i as int)).push(list@[i as int]@) =~= pairs(
                list@.take(i + 1),
            ));
        }
        i = i + 1;
    }
    assert(list@.take(i as int) =~= list@);
    sorted
}

/// The texts of a list without their keys.
fn names_of(list: &Vec<Keyed>) -> (r: Vec<String>)
    ensures
        texts(r@) == pairs(list@).map_values(|p: (Seq<char>, Seq<char>)| p.1),
{
    let mut names: Vec<String> = Vec::new();
    let mut i: usize = 0;
    while i < list.len()
        invariant
            i <= list.len(),
            names@.len() == i,
            forall|k: int| 0 <= k < i ==> (#[trigger] names@[k])@ == list@[k].name@,
        decreases list.len() - i,
    {
        names.push(list[i].name.clone());
        i = i + 1;
    }
    assert(texts(names@) =~= pairs(list@).map_values(|p: (Seq<char>, Seq<char>)| p.1));
    names
}

/// Sorting texts with their keys and taking the keys off again is sorting the
/// texts by those keys.
proof fn lemma_keys_come_off(
    list: Seq<(Seq<char>, Seq<char>)>,
    from: Seq<Seq<char>>,
    key: spec_fn(Seq<char>) -> Seq<char>,
)
    requires
        sorted_by_key(list, keyed(from, key)),
    ensures
        sorted_from(list.map_values(|p: (Seq<char>, Seq<char>)| p.1), from, key),
{
    broadcast use {group_multiset_axioms, group_to_multiset_ensures};

    let names = list.map_values(|p: (Seq<char>, Seq<char>)| p.1);
    assert forall|i: int| 0 <= i < list.len() implies (#[trigger] list[i]).0 == key(
        list[i].1,
    ) by {
        assert(list.contains(list[i]));
        assert(keyed(from, key).to_multiset().count(list[i]) > 0);
        assert(keyed(from, key).contains(list[i]));
    }
    assert(keyed(names, key) =~= list);
}

/// The list in alphabetical order.
pub fn sort_names(list: &Vec<String>) -> (r: Vec<String>)
    ensures
        sorted_from(texts(r@), texts(list@), as_written()),
{
    let mut items: Vec<Keyed> = Vec::new();
    let mut i: usize = 0;
    while i < list.len()
        invariant
            i <= list.len(),
            items@.len() == i,
            forall|k: int|
                0 <= k < i ==> (#[trigger] items@[k])@ == (list@[k]@, list@[k]@),
        decreases list.len() - i,
    {
        items.push(Keyed { key: list[i].clone(), name: list[i].clone() });
        i = i + 1;
    }
    let sorted = sort_by_keys(&items);
    proof {
        assert(pairs(items@) =~= keyed(texts(list@), as_written()));
        lemma_keys_come_off(pairs(sorted@), texts(list@), as_written());
    }
    names_of(&sorted)
}

/// The list in alphabetical order, upper and lower case mixed.
pub fn sort_names_without_case(list: &Vec<String>) -> (r: Vec<String>)
    ensures
        sorted_from(texts(r@), texts(list@), without_case()),
        all_ascii(texts(list@)) ==> sorted_from(
            texts(r@),
            texts(list@),
            without_ascii_case(),
        ),
{
    let mut items: Vec<Keyed> = Vec::new();
    let mut i: usize = 0;
    while i < list.len()
        invariant
            i <= list.len(),
            items@.len() == i,
            forall|k: int|
                0 <= k < i ==> (#[trigger] items@[k])@ == (lowercase(list@[k]@), list@[k]@),
            forall|k: int|
                0 <= k < i && vstd::utf8::is_ascii_chars(list@[k]@) ==> (
                #[trigger] items@[k]).key@ == ascii_lowercase(list@[k]@),
        decreases list.len() - i,
    {
        items.push(Keyed { key: list[i].as_str().to_lowercase(), name: list[i].clone() });
        i = i + 1;
    }
    let sorted = sort_by_keys(&items);
    proof {
        assert(pairs(items@) =~= keyed(texts(list@), without_case()));
        lemma_keys_come_off(pairs(sorted@), texts(list@), without_case());
        if all_ascii(texts(list@)) {
            assert forall|k: int| 0 <= k < list@.len() implies (#[trigger] items@[k]).key@
                == ascii_lowercase(list@[k]@) by {
                assert(vstd::utf8::is_ascii_chars(texts(list@)[k]));
            }
            assert(pairs(items@) =~= keyed(texts(list@), without_ascii_case()));
            lemma_keys_come_off(pairs(sorted@), texts(list@), without_ascii_case());
        }
    }
    names_of(&sorted)
}

/// The patches that a directory's files hold, in the files' order.
pub fn patch_names(files: &Vec<String>) -> (r: Vec<String>)
    ensures
        texts(r@) == patches_among(texts(files@)),
{
    let mut names: Vec<String> = Vec::new();
    let mut i: usize = 0;
    let ghost all = texts(files@);
    assert(all.take(0) =~= Seq::<Seq<char>>::empty());
    assert(texts(names@) =~= Seq::<Seq<char>>::empty());
    while i < files.len()
        invariant
            i <= files.len(),
            all == texts(files@),
            texts(names@) == patches_among(all.take(i as int)),
        decreases files.len() - i,
    {
        proof {
            assert(all.take(i + 1).drop_last() =~= all.take(i as int));
            assert(all.take(i + 1).last() == files@[i as int]@);
            reveal_with_fuel(Seq::filter_map, 2);
        }
        match stem(files[i].as_str()) {
            Some(name) => {
                let ghost before = names@;
                names.push(name);
                assert(texts(names@) =~= texts(before) + seq![name@]);
            },
            None => {},
        }
        i = i + 1;
    }
    assert(all.take(i as int) =~= all);
    names
}

/// There is only one way to sort a list by its keys.
pub proof fn lemma_sorted_list_is_unique(
    x: Seq<(Seq<char>, Seq<char>)>,
    y: Seq<(Seq<char>, Seq<char>)>,
    from: Seq<(Seq<char>, Seq<char>)>,
)
    requires
        sorted_by_key(x, from),
        sorted_by_key(y, from),
    ensures
        x == y,
{
    assert forall|k: Seq<char>| #[trigger] with_key(x, k) == with_key(y, k) by {
        assert(with_key(x, k) == with_key(from, k));
        assert(with_key(y, k) == with_key(from, k));
    }
    lemma_same_by_key(x, y);
}

proof fn lemma_same_by_key(
    x: Seq<(Seq<char>, Seq<char>)>,
    y: Seq<(Seq<char>, Seq<char>)>,
)
    requires
        x.to_multiset() == y.to_multiset(),
        forall|i: int, j: int|
            0 <= i < j < x.len() ==> at_most((#[trigger] x[i]).0, (#[trigger] x[j]).0),
        forall|i: int, j: int|
            0 <= i < j < y.len() ==> at_most((#[trigger] y[i]).0, (#[trigger] y[j]).0),
        forall|k: Seq<char>| #[trigger] with_key(x, k) == with_key(y, k),
    ensures
        x == y,
    decreases x.len(),
{
    broadcast use {group_multiset_axioms, group_to_multiset_ensures};

    assert(x.len() == x.to_multiset().len());
    assert(y.len() == y.to_multiset().len());
    if x.len() > 0 {
        assert(x.contains(x[0]));
        assert(y.contains(y[0]));
        assert(y.to_multiset().count(x[0]) > 0);
        assert(x.to_multiset().count(y[0]) > 0);
        let i = choose|i: int| 0 <= i < x.len() && x[i] == y[0];
        let j = choose|j: int| 0 <= j < y.len() && y[j] == x[0];
        lemma_order_is_total(x[0].0, y[0].0, x[0].0);
        assert(x[0].0 == y[0].0);
        assert forall|k: Seq<char>| #[trigger] with_key(x.drop_first(), k) == with_key(
            y.drop_first(),
            k,
        ) by {
            lemma_with_key_first(x, k);
            lemma_with_key_first(y, k);
            assert(with_key(x, k) == with_key(y, k));
            if x[0].0 == k {
                assert(with_key(x.drop_first(), k) =~= with_key(x, k).drop_first());
                assert(with_key(y.drop_first(), k) =~= with_key(y, k).drop_first());
            } else {
                assert(with_key(x.drop_first(), k) =~= with_key(x, k));
                assert(with_key(y.drop_first(), k) =~= with_key(y, k));
            }
        }
        lemma_with_key_first(x, x[0].0);
        lemma_with_key_first(y, x[0].0);
        assert(with_key(x, x[0].0) == with_key(y, x[0].0));
        assert(with_key(x, x[0].0)[0] == x[0]);
        assert(with_key(y, x[0].0)[0] == y[0]);
        assert(x.drop_first() =~= x.remove(0));
        assert(y.drop_first() =~= y.remove(0));
        lemma_same_by_key(x.drop_first(), y.drop_first());
        assert(x =~= seq![x[0]] + x.drop_first());
        assert(y =~= seq![y[0]] + y.drop_first());
    } else {
        assert(x =~= y);
    }
}

proof fn lemma_with_key_first(list: Seq<(Seq<char>, Seq<char>)>, k: Seq<char>)
    requires
        list.len() > 0,
    ensures
        with_key(list, k) == (if list[0].0 == k {
            seq![list[0]] + with_key(list.drop_first(), k)
        } else {
            with_key(list.drop_first(), k)
        }),
{
    let head = seq![list[0]];
    assert(list =~= head + list.drop_first());
    Seq::filter_distributes_over_add(head, list.drop_first(), has_key(k));
    reveal_with_fuel(Seq::filter, 2);
    assert(head.drop_last() =~= Seq::<(Seq<char>, Seq<char>)>::empty());
    assert(head.last() == list[0]);
    if list[0].0 == k {
        assert(head.filter(has_key(k)) =~= head);
    } else {
        assert(Seq::<(Seq<char>, Seq<char>)>::empty() + with_key(list.drop_first(), k)
            =~= with_key(list.drop_first(), k));
    }
}

/// The order in which a directory lists its files does not matter: lists with
/// the same items are sorted alike, as long as no two items share a key.
pub proof fn lemma_listing_is_unique(
    x: Seq<(Seq<char>, Seq<char>)>,
    y: Seq<(Seq<char>, Seq<char>)>,
    from_x: Seq<(Seq<char>, Seq<char>)>,
    from_y: Seq<(Seq<char>, Seq<char>)>,
)
    requires
        sorted_by_key(x, from_x),
        sorted_by_key(y, from_y),
        from_x.to_multiset() == from_y.to_multiset(),
        forall|i: int, j: int|
            0 <= i < from_x.len() && 0 <= j < from_x.len() && (#[trigger] from_x[i]).0 == (
            #[trigger] from_x[j]).0 ==> from_x[i] == from_x[j],
    ensures
        x == y,
{
    broadcast use {group_multiset_axioms, group_to_multiset_ensures};

    assert forall|i: int, j: int|
        0 <= i < x.len() && 0 <= j < x.len() && (#[trigger] x[i]).0 == (
        #[trigger] x[j]).0 implies x[i] == x[j] by {
        assert(x.contains(x[i]));
        assert(x.contains(x[j]));
        assert(from_x.to_multiset().count(x[i]) > 0);
        assert(from_x.to_multiset().count(x[j]) > 0);
        assert(from_x.contains(x[i]));
        assert(from_x.contains(x[j]));
    }
    lemma_same_items_same_order(x, y);
}

proof fn lemma_same_items_same_order(
    x: Seq<(Seq<char>, Seq<char>)>,
    y: Seq<(Seq<char>, Seq<char>)>,
)
    requires
        x.to_multiset() == y.to_multiset(),
        forall|i: int, j: int|
            0 <= i < j < x.len() ==> at_most((#[trigger] x[i]).0, (#[trigger] x[j]).0),
        forall|i: int, j: int|
            0 <= i < j < y.len() ==> at_most((#[trigger] y[i]).0, (#[trigger] y[j]).0),
        forall|i: int, j: int|
            0 <= i < x.len() && 0 <= j < x.len() && (#[trigger] x[i]).0 == (#[trigger] x[j]).0
                ==> x[i] == x[j],
    ensures
        x == y,
    decreases x.len(),
{
    broadcast use {group_multiset_axioms, group_to_multiset_ensures};

    assert(x.len() == x.to_multiset().len());
    assert(y.len() == y.to_multiset().len());
    if x.len() > 0 {
        assert(x.contains(x[0]));
        assert(y.contains(y[0]));
        assert(y.to_multiset().count(x[0]) > 0);
        assert(x.to_multiset().count(y[0]) > 0);
        let i = choose|i: int| 0 <= i < x.len() && x[i] == y[0];
        let j = choose|j: int| 0 <= j < y.len() && y[j] == x[0];
        lemma_order_is_total(x[0].0, y[0].0, x[0].0);
        assert(x[0] == x[i]);
        assert(x.drop_first() =~= x.remove(0));
        assert(y.drop_first() =~= y.remove(0));
        lemma_same_items_same_order(x.drop_first(), y.drop_first());
        assert(x =~= seq![x[0]] + x.drop_first());
        assert(y =~= seq![y[0]] + y.drop_first());
    } else {
        assert(x =~= y);
    }
}

/// A text comes before its continuations, and where two texts first differ the
/// smaller character decides.
pub proof fn lemma_alphabetical(
    a: Seq<char>,
    c: char,
    d: char,
    x: Seq<char>,
    y: Seq<char>,
)
    ensures
        at_most(a, a + x),
        x.len() > 0 ==> !at_most(a + x, a),
        c < d ==> at_most(a + seq![c] + x, a + seq![d] + y),
        c < d ==> !at_most(a + seq![d] + y, a + seq![c] + x),
    decreases a.len(),
{
    let p = a + seq![c] + x;
    let q = a + seq![d] + y;
    if a.len() > 0 {
        let rest = a.drop_first();
        lemma_alphabetical(rest, c, d, x, y);
        assert((a + x).drop_first() =~= rest + x);
        assert(p.drop_first() =~= rest + seq![c] + x);
        assert(q.drop_first() =~= rest + seq![d] + y);
    } else {
        assert(p[0] == c);
        assert(q[0] == d);
    }
}

/// A sorted list has the items of the list that it was made of, its keys ascend,
/// and items with the same key keep their order.
pub proof fn lemma_sorting(
    list: Seq<(Seq<char>, Seq<char>)>,
    from: Seq<(Seq<char>, Seq<char>)>,
    key: Seq<char>,
)
    requires
        sorted_by_key(list, from),
    ensures
        list.to_multiset() == from.to_multiset(),
        forall|i: int, j: int|
            0 <= i < j < list.len() ==> at_most((#[trigger] list[i]).0, (#[trigger] list[j]).0),
        list.filter(|p: (Seq<char>, Seq<char>)| p.0 == key) == from.filter(
            |p: (Seq<char>, Seq<char>)| p.0 == key,
        ),
{
    assert(with_key(list, key) == with_key(from, key));
    assert(has_key(key) =~= (|p: (Seq<char>, Seq<char>)| p.0 == key));
}

proof fn lemma_count_keyed(
    list: Seq<Seq<char>>,
    key: spec_fn(Seq<char>) -> Seq<char>,
    text: Seq<char>,
)
    ensures
        keyed(list, key).to_multiset().count((key(text), text)) == list.to_multiset().count(text),
    decreases list.len(),
{
    broadcast use {group_multiset_axioms, group_to_multiset_ensures};

    if list.len() > 0 {
        let init = list.drop_last();
        lemma_count_keyed(init, key, text);
        assert(list =~= init.push(list.last()));
        assert(keyed(list, key) =~= keyed(init, key).push((key(list.last()), list.last())));
    }
}

/// A sorted list of texts has the texts of the list that it was made of, and
/// what they are sorted by ascends: the text itself, or the text in lower case.
pub proof fn lemma_sorted_texts(list: Seq<Seq<char>>, from: Seq<Seq<char>>)
    ensures
        sorted_from(list, from, as_written()) ==> {
            &&& list.to_multiset() == from.to_multiset()
            &&& forall|i: int, j: int|
                0 <= i < j < list.len() ==> at_most(#[trigger] list[i], #[trigger] list[j])
        },
        sorted_from(list, from, without_case()) ==> {
            &&& list.to_multiset() == from.to_multiset()
            &&& forall|i: int, j: int|
                0 <= i < j < list.len() ==> at_most(
                    lowercase(#[trigger] list[i]),
                    lowercase(#[trigger] list[j]),
                )
        },
        sorted_from(list, from, without_ascii_case()) ==> {
            &&& list.to_multiset() == from.to_multiset()
            &&& forall|i: int, j: int|
                0 <= i < j < list.len() ==> at_most(
                    ascii_lowercase(#[trigger] list[i]),
                    ascii_lowercase(#[trigger] list[j]),
                )
        },
{
    lemma_sorted_texts_by(list, from, as_written());
    lemma_sorted_texts_by(list, from, without_case());
    lemma_sorted_texts_by(list, from, without_ascii_case());
}

proof fn lemma_sorted_texts_by(
    list: Seq<Seq<char>>,
    from: Seq<Seq<char>>,
    key: spec_fn(Seq<char>) -> Seq<char>,
)
    ensures
        sorted_from(list, from, key) ==> {
            &&& list.to_multiset() == from.to_multiset()
            &&& forall|i: int, j: int|
                0 <= i < j < list.len() ==> at_most(
                    key(#[trigger] list[i]),
                    key(#[trigger] list[j]),
                )
        },
{
    broadcast use {group_multiset_axioms, group_to_multiset_ensures};

    if sorted_from(list, from, key) {
        assert forall|text: Seq<char>| #[trigger]
            list.to_multiset().count(text) == from.to_multiset().count(text) by {
            lemma_count_keyed(list, key, text);
            lemma_count_keyed(from, key, text);
        }
        assert(list.to_multiset() =~= from.to_multiset());
        assert forall|i: int, j: int| 0 <= i < j < list.len() implies at_most(
            key(#[trigger] list[i]),
            key(#[trigger] list[j]),
        ) by {
            assert(at_most(keyed(list, key)[i].0, keyed(list, key)[j].0));
        }
    }
}

/// A file adds the patch that it holds, if it holds one, after those of the
/// files before it.
pub proof fn lemma_patches_grow(files: Seq<Seq<char>>, file: Seq<char>)
    ensures
        patches_among(Seq::empty()) == Seq::<Seq<char>>::empty(),
        patch_stem(file) is None ==> patches_among(files.push(file)) == patches_among(files),
        patch_stem(file) is Some ==> patches_among(files.push(file)) == patches_among(files).push(
            patch_stem(file)->0,
        ),
{
    assert(files.push(file).drop_last() =~= files);
    if patch_stem(file) is Some {
        assert(patches_among(files.push(file)) =~= patches_among(files).push(
            patch_stem(file)->0,
        ));
    }
}

} // verus!
