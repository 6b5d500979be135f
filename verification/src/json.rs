//! A JSON document model and the flattening of a report into its numeric leaves.

use vstd::prelude::*;
use crate::keymap::KeyMap;
use crate::text::{concat, decimal, decimal_string, lemma_decimal_injective};

verus! {

/// A JSON value. Numbers are held as the IEEE-754 bit pattern of their `f64`
/// value, so that they can be carried, stored and compared for identity here,
/// while their arithmetic is left to the caller.
#[derive(Debug)]
pub enum Json {
    Null,
    Bool(bool),
    /// The bit pattern of the number's `f64` value.
    Number(u64),
    Str(String),
    Array(Vec<Json>),
    /// Members in the object's iteration order.
    Object(Vec<(String, Json)>),
}

/// The flattened key of array element `i` under `prefix`: `prefix[i]`.
pub open spec fn index_key(prefix: Seq<char>, i: nat) -> Seq<char> {
    prefix + seq!['['] + decimal(i) + seq![']']
}

/// The flattened key of member `key` under `prefix`: `key` at the top level,
/// `prefix.key` below it.
pub open spec fn member_key(prefix: Seq<char>, key: Seq<char>) -> Seq<char> {
    if prefix.len() == 0 {
        key
    } else {
        prefix + seq!['.'] + key
    }
}

/// `m` after inserting the numeric leaves of `j` under `prefix`, in document
/// order, a later leaf replacing an earlier one with the same key.
pub open spec fn flatten_spec(j: Json, prefix: Seq<char>, m: Map<Seq<char>, u64>) -> Map<Seq<char>, u64>
    decreases j, 0nat,
{
    match j {
        Json::Number(b) => m.insert(prefix, b),
        Json::Array(items) => flatten_items(items@, prefix, m, items@.len()),
        Json::Object(members) => flatten_members(members@, prefix, m, members@.len()),
        _ => m,
    }
}

/// `m` after flattening the first `n` elements of an array under `prefix`.
pub open spec fn flatten_items(items: Seq<Json>, prefix: Seq<char>, m: Map<Seq<char>, u64>, n: nat) -> Map<Seq<char>, u64>
    decreases items, n,
{
    if n == 0 || n > items.len() {
        m
    } else {
        flatten_spec(
            items[n - 1],
            index_key(prefix, (n - 1) as nat),
            flatten_items(items, prefix, m, (n - 1) as nat),
        )
    }
}

/// `m` after flattening the first `n` members of an object under `prefix`.
pub open spec fn flatten_members(members: Seq<(String, Json)>, prefix: Seq<char>, m: Map<Seq<char>, u64>, n: nat) -> Map<Seq<char>, u64>
    decreases members, n,
{
    if n == 0 || n > members.len() {
        m
    } else {
        flatten_spec(
            members[n - 1].1,
            member_key(prefix, members[n - 1].0@),
            flatten_members(members, prefix, m, (n - 1) as nat),
        )
    }
}

/// The flattened report: every numeric leaf keyed by its path.
pub open spec fn flat(report: Json) -> Map<Seq<char>, u64> {
    flatten_spec(report, Seq::empty(), Map::empty())
}

/// Flattens a report into a key-ordered map of its numeric leaves. A scalar
/// `x` maps to `"x"`, an array element to `"equity_curve[3]"`, a nested member
/// to `"a.b"`; strings, booleans and null are left out.
pub fn flatten_report(report: &Json) -> (out: KeyMap<u64>)
    ensures
        out@ == flat(*report),
{
    let mut out: KeyMap<u64> = KeyMap::new();
    flatten_into(report, String::new(), &mut out);
    out
}

/// Adds the numeric leaves of `value`, keyed under `prefix`, to `out`.
pub fn flatten_into(value: &Json, prefix: String, out: &mut KeyMap<u64>)
    ensures
        final(out)@ == flatten_spec(*value, prefix@, old(out)@),
    decreases value, 1nat,
{
    match value {
        Json::Number(b) => {
            out.insert(prefix, *b);
        },
        Json::Array(items) => {
            let ghost m0 = out@;
            let mut i: usize = 0;
            while i < items.len()
                invariant
                    i <= items@.len(),
                    *value == Json::Array(*items),
                    out@ == flatten_items(items@, prefix@, m0, i as nat),
                decreases items@.len() - i,
            {
                let open = concat(prefix.as_str(), "[");
                let num = decimal_string(i);
                let with_num = concat(open.as_str(), num.as_str());
                let key = concat(with_num.as_str(), "]");
                proof {
                    reveal_strlit("[");
                    reveal_strlit("]");
                    assert(key@ =~= index_key(prefix@, i as nat));
                }
                proof {
                    assert(decreases_to!(*value => (*value)->Array_0));
                    assert(decreases_to!(*items => items@));
                    assert(decreases_to!(items@ => items@[i as int]));
                }
                flatten_into(&items[i], key, out);
                i = i + 1;
            }
        },
        Json::Object(members) => {
            let ghost m0 = out@;
            let mut i: usize = 0;
            while i < members.len()
                invariant
                    i <= members@.len(),
                    *value == Json::Object(*members),
                    out@ == flatten_members(members@, prefix@, m0, i as nat),
                decreases members@.len() - i,
            {
                let key: String = if prefix.as_str().is_empty() {
                    members[i].0.clone()
                } else {
                    let dotted = concat(prefix.as_str(), ".");
                    proof { reveal_strlit("."); }
                    concat(dotted.as_str(), members[i].0.as_str())
                };
                assert(key@ =~= member_key(prefix@, members@[i as int].0@));
                proof {
                    assert(decreases_to!(*value => (*value)->Object_0));
                    assert(decreases_to!(*members => members@));
                    assert(decreases_to!(members@ => members@[i as int]));
                    assert(decreases_to!(members@[i as int] => members@[i as int].1));
                }
                flatten_into(&members[i].1, key, out);
                i = i + 1;
            }
        },
        _ => {},
    }
}

/// `x + d + y` determines `d` when its length is known: two such texts with
/// the same `x` and `y` are equal only when their middles are.
proof fn lemma_middle_determined(x: Seq<char>, d: Seq<char>, e: Seq<char>, y: Seq<char>)
    requires
        x + d + y == x + e + y,
    ensures
        d == e,
{
    let l = x + d + y;
    assert(l.len() == x.len() + d.len() + y.len());
    assert((x + e + y).len() == x.len() + e.len() + y.len());
    assert(d.len() == e.len());
    assert(d =~= l.subrange(x.len() as int, (x.len() + d.len()) as int));
    assert(e =~= (x + e + y).subrange(x.len() as int, (x.len() + e.len()) as int));
}

/// Among the first `n` elements of an array of numbers flattened under `a`,
/// element `i` is the leaf `a[i]`.
proof fn lemma_number_item_indexed(a: Seq<char>, items: Seq<Json>, vals: Seq<u64>, n: nat, i: int)
    requires
        0 <= i < n <= items.len(),
        items.len() == vals.len(),
        forall|j: int| 0 <= j < items.len() ==> #[trigger] items[j] == Json::Number(vals[j]),
    ensures
        flatten_items(items, a, Map::empty(), n).contains_key(a + seq!['['] + decimal(i as nat) + seq![']']),
        flatten_items(items, a, Map::empty(), n)[a + seq!['['] + decimal(i as nat) + seq![']']] == vals[i],
    decreases n,
{
    let m = (n - 1) as nat;
    let acc = flatten_items(items, a, Map::empty(), m);
    let last = a + seq!['['] + decimal(m) + seq![']'];
    let k = a + seq!['['] + decimal(i as nat) + seq![']'];
    assert(items[m as int] == Json::Number(vals[m as int]));
    assert(index_key(a, m) =~= last);
    assert(flatten_items(items, a, Map::empty(), n) == flatten_spec(items[m as int], index_key(a, m), acc));
    assert(flatten_spec(Json::Number(vals[m as int]), last, acc) == acc.insert(last, vals[m as int]));
    assert(flatten_items(items, a, Map::empty(), n) == acc.insert(last, vals[m as int]));
    if i < m {
        lemma_number_item_indexed(a, items, vals, m, i);
        if k == last {
            lemma_middle_determined(a + seq!['['], decimal(i as nat), decimal(m), seq![']']);
            lemma_decimal_injective(i as nat, m);
        }
    }
}

/// Among the first `n` elements of an array of one-member objects
/// `{b: number}` flattened under `a`, element `i` is the leaf `a[i].b`.
proof fn lemma_member_item_indexed(a: Seq<char>, b: Seq<char>, items: Seq<Json>, vals: Seq<u64>, n: nat, i: int)
    requires
        0 <= i < n <= items.len(),
        items.len() == vals.len(),
        forall|j: int| 0 <= j < items.len() ==> (#[trigger] items[j] matches Json::Object(m)
            && m@.len() == 1 && m@[0].0@ == b && m@[0].1 == Json::Number(vals[j])),
    ensures
        flatten_items(items, a, Map::empty(), n).contains_key(a + seq!['['] + decimal(i as nat) + seq![']', '.'] + b),
        flatten_items(items, a, Map::empty(), n)[a + seq!['['] + decimal(i as nat) + seq![']', '.'] + b] == vals[i],
    decreases n,
{
    let m = (n - 1) as nat;
    let acc = flatten_items(items, a, Map::empty(), m);
    let idx = index_key(a, m);
    let last = a + seq!['['] + decimal(m) + seq![']', '.'] + b;
    let k = a + seq!['['] + decimal(i as nat) + seq![']', '.'] + b;
    assert(items[m as int] matches Json::Object(mm) && mm@.len() == 1 && mm@[0].0@ == b
        && mm@[0].1 == Json::Number(vals[m as int]));
    let ms = items[m as int]->Object_0;
    assert(idx.len() > 0);
    assert(member_key(idx, b) =~= last);
    assert(flatten_members(ms@, idx, acc, 0) == acc);
    assert(flatten_members(ms@, idx, acc, 1) == flatten_spec(ms@[0].1, member_key(idx, ms@[0].0@), acc));
    assert(flatten_spec(Json::Number(vals[m as int]), last, acc) == acc.insert(last, vals[m as int]));
    assert(flatten_items(items, a, Map::empty(), n) == flatten_spec(items[m as int], idx, acc));
    assert(flatten_spec(items[m as int], idx, acc) == flatten_members(ms@, idx, acc, ms@.len()));
    assert(flatten_items(items, a, Map::empty(), n) == acc.insert(last, vals[m as int]));
    if i < m {
        lemma_member_item_indexed(a, b, items, vals, m, i);
        if k == last {
            let tail = seq![']', '.'] + b;
            assert(k =~= a + seq!['['] + decimal(i as nat) + tail);
            assert(last =~= a + seq!['['] + decimal(m) + tail);
            lemma_middle_determined(a + seq!['['], decimal(i as nat), decimal(m), tail);
            lemma_decimal_injective(i as nat, m);
        }
    }
}

/// Every element of an array keeps its own index: in a report `{a: [...]}`
/// whose array holds numbers, element `i` is the leaf `a[i]`.
pub proof fn lemma_array_numbers_keep_their_index(report: Json, a: Seq<char>, items: Seq<Json>, vals: Seq<u64>, i: int)
    requires
        a.len() > 0,
        report is Object,
        report->Object_0@.len() == 1,
        report->Object_0@[0].0@ == a,
        report->Object_0@[0].1 is Array,
        report->Object_0@[0].1->Array_0@ == items,
        items.len() == vals.len(),
        forall|j: int| 0 <= j < items.len() ==> #[trigger] items[j] == Json::Number(vals[j]),
        0 <= i < items.len(),
    ensures
        flat(report).contains_key(a + seq!['['] + decimal(i as nat) + seq![']']),
        flat(report)[a + seq!['['] + decimal(i as nat) + seq![']']] == vals[i],
{
    let ms = report->Object_0;
    let arr = ms@[0].1;
    assert(member_key(Seq::empty(), a) == a);
    assert(flatten_members(ms@, Seq::empty(), Map::empty(), 0) == Map::<Seq<char>, u64>::empty());
    assert(flat(report) == flatten_members(ms@, Seq::empty(), Map::empty(), 1));
    assert(flatten_members(ms@, Seq::empty(), Map::empty(), 1) == flatten_spec(arr, a, Map::empty()));
    assert(flatten_spec(arr, a, Map::empty()) == flatten_items(arr->Array_0@, a, Map::empty(), arr->Array_0@.len()));
    assert(flat(report) == flatten_items(items, a, Map::empty(), items.len()));
    lemma_number_item_indexed(a, items, vals, items.len(), i);
}

/// Every element of an array keeps its own index whatever its kind: in a
/// report `{a: [{b: x0}, {b: x1}, ...]}` element `i` is the leaf `a[i].b`, so
/// the members of different elements never collapse onto one key.
pub proof fn lemma_array_objects_keep_their_index(
    report: Json,
    a: Seq<char>,
    b: Seq<char>,
    items: Seq<Json>,
    vals: Seq<u64>,
    i: int,
)
    requires
        a.len() > 0,
        report is Object,
        report->Object_0@.len() == 1,
        report->Object_0@[0].0@ == a,
        report->Object_0@[0].1 is Array,
        report->Object_0@[0].1->Array_0@ == items,
        items.len() == vals.len(),
        forall|j: int| 0 <= j < items.len() ==> (#[trigger] items[j] matches Json::Object(m)
            && m@.len() == 1 && m@[0].0@ == b && m@[0].1 == Json::Number(vals[j])),
        0 <= i < items.len(),
    ensures
        flat(report).contains_key(a + seq!['['] + decimal(i as nat) + seq![']', '.'] + b),
        flat(report)[a + seq!['['] + decimal(i as nat) + seq![']', '.'] + b] == vals[i],
{
    let ms = report->Object_0;
    let arr = ms@[0].1;
    assert(member_key(Seq::empty(), a) == a);
    assert(flatten_members(ms@, Seq::empty(), Map::empty(), 0) == Map::<Seq<char>, u64>::empty());
    assert(flat(report) == flatten_members(ms@, Seq::empty(), Map::empty(), 1));
    assert(flatten_members(ms@, Seq::empty(), Map::empty(), 1) == flatten_spec(arr, a, Map::empty()));
    assert(flatten_spec(arr, a, Map::empty()) == flatten_items(arr->Array_0@, a, Map::empty(), arr->Array_0@.len()));
    assert(flat(report) == flatten_items(items, a, Map::empty(), items.len()));
    lemma_member_item_indexed(a, b, items, vals, items.len(), i);
}

/// A member of a member is keyed by both names joined with a dot: in a report
/// `{a: {b: x}}` the leaf `x` is under `a.b`, and it is the only leaf.
pub proof fn lemma_nested_member_is_dotted(report: Json, a: Seq<char>, b: Seq<char>, x: u64)
    requires
        a.len() > 0,
        report is Object,
        report->Object_0@.len() == 1,
        report->Object_0@[0].0@ == a,
        report->Object_0@[0].1 is Object,
        report->Object_0@[0].1->Object_0@.len() == 1,
        report->Object_0@[0].1->Object_0@[0].0@ == b,
        report->Object_0@[0].1->Object_0@[0].1 == Json::Number(x),
    ensures
        flat(report) == Map::<Seq<char>, u64>::empty().insert(a + seq!['.'] + b, x),
{
    let ms = report->Object_0;
    let inner = ms@[0].1;
    let ns = inner->Object_0;
    let e = Map::<Seq<char>, u64>::empty();
    assert(member_key(Seq::empty(), a) == a);
    assert(member_key(a, b) == a + seq!['.'] + b);
    assert(flatten_members(ms@, Seq::empty(), e, 0) == e);
    assert(flat(report) == flatten_members(ms@, Seq::empty(), e, 1));
    assert(flatten_members(ms@, Seq::empty(), e, 1) == flatten_spec(inner, a, e));
    assert(flatten_spec(inner, a, e) == flatten_members(ns@, a, e, 1));
    assert(flatten_members(ns@, a, e, 0) == e);
    assert(flatten_members(ns@, a, e, 1) == flatten_spec(Json::Number(x), a + seq!['.'] + b, e));
}

} // verus!
