//! Sorting the keys of every object in a JSON document.

use vstd::prelude::*;
use vstd::multiset::Multiset;
use vstd::utf8::encode_utf8;
use serde_json::Value;
use crate::json::{
    array_items, array_value, distinct_keys, into_items, into_members, json_tree, member_of,
    members_of, object_members, object_value, take_value, trees_of, value_kind, JsonTree, Member,
    ValueKind,
};

verus! {

/// `a` comes before `b`, or equals it, in the lexicographic order of bytes.
pub open spec fn bytes_le(a: Seq<u8>, b: Seq<u8>) -> bool
    decreases a.len(),
{
    if a.len() == 0 {
        true
    } else if b.len() == 0 {
        false
    } else if a[0] != b[0] {
        a[0] < b[0]
    } else {
        bytes_le(a.drop_first(), b.drop_first())
    }
}

/// The order of keys: that of `String`, which compares the UTF-8 bytes.
pub open spec fn key_le(a: Seq<char>, b: Seq<char>) -> bool {
    bytes_le(encode_utf8(a), encode_utf8(b))
}

/// The members of `s` are in the order of their keys.
pub open spec fn keys_in_order(s: Seq<Member>) -> bool {
    forall|i: int, j: int| 0 <= i < j < s.len() ==> key_le(s[i].0, s[j].0)
}

/// Inserts `m` into `s` before the first member whose key is not below `m`'s.
pub open spec fn insert_member(m: Member, s: Seq<Member>) -> Seq<Member>
    decreases s.len(),
{
    if s.len() == 0 {
        seq![m]
    } else if key_le(m.0, s[0].0) {
        seq![m] + s
    } else {
        seq![s[0]] + insert_member(m, s.drop_first())
    }
}

/// The members of `s` ordered by key (insertion sort, so members with equal
/// keys keep their relative order).
pub open spec fn sort_members(s: Seq<Member>) -> Seq<Member>
    decreases s.len(),
{
    if s.len() == 0 {
        s
    } else {
        insert_member(s[0], sort_members(s.drop_first()))
    }
}

/// `t` with the keys of every object in it sorted.
pub open spec fn sort_tree(t: JsonTree) -> JsonTree
    decreases t,
{
    match t {
        JsonTree::Array(items) => JsonTree::Array(sort_items(items)),
        JsonTree::Object(members) => JsonTree::Object(sort_members(sort_member_values(members))),
        _ => t,
    }
}

/// Each item of `items` with its keys sorted.
pub open spec fn sort_items(items: Seq<JsonTree>) -> Seq<JsonTree>
    decreases items,
{
    if items.len() == 0 {
        items
    } else {
        seq![sort_tree(items[0])] + sort_items(items.drop_first())
    }
}

/// Each member of `members` with the keys of its value sorted.
pub open spec fn sort_member_values(members: Seq<Member>) -> Seq<Member>
    decreases members,
{
    if members.len() == 0 {
        members
    } else {
        seq![(members[0].0, sort_tree(members[0].1))] + sort_member_values(members.drop_first())
    }
}

/// In `t` the keys of every object, at every depth, are in order.
pub open spec fn is_key_sorted(t: JsonTree) -> bool
    decreases t,
{
    match t {
        JsonTree::Array(items) => forall|i: int|
            0 <= i < items.len() ==> is_key_sorted(#[trigger] items[i]),
        JsonTree::Object(members) => {
            &&& keys_in_order(members)
            &&& forall|i: int| 0 <= i < members.len() ==> is_key_sorted(#[trigger] members[i].1)
        },
        _ => true,
    }
}

/// The keys of `s` are in strictly ascending order.
pub open spec fn keys_ascending(s: Seq<Member>) -> bool {
    forall|i: int, j: int| 0 <= i < j < s.len() ==> key_le(s[i].0, s[j].0) && s[i].0 != s[j].0
}

/// In `t` the keys of every object, at every depth, are in strictly
/// ascending order.
pub open spec fn is_strictly_key_sorted(t: JsonTree) -> bool
    decreases t,
{
    match t {
        JsonTree::Array(items) => forall|i: int|
            0 <= i < items.len() ==> is_strictly_key_sorted(#[trigger] items[i]),
        JsonTree::Object(members) => {
            &&& keys_ascending(members)
            &&& forall|i: int| 0 <= i < members.len() ==> is_strictly_key_sorted(#[trigger] members[i].1)
        },
        _ => true,
    }
}

/// `a` and `b` are the same document but for the order of the members of
/// their objects: the same scalars, arrays of the same length with the same
/// documents at each position, and objects whose members match one for one
/// by key, with the same documents as values.
pub open spec fn same_up_to_order(a: JsonTree, b: JsonTree) -> bool
    decreases a,
{
    match a {
        JsonTree::Array(x) => {
            &&& b is Array
            &&& array_items(b).len() == x.len()
            &&& forall|i: int| 0 <= i < x.len() ==> same_up_to_order(#[trigger] x[i], array_items(b)[i])
        },
        JsonTree::Object(x) => {
            &&& b is Object
            &&& object_members(b).len() == x.len()
            &&& forall|i: int| 0 <= i < x.len() ==> exists|j: int|
                0 <= j < object_members(b).len() && #[trigger] object_members(b)[j].0 == (#[trigger] x[i]).0
                    && same_up_to_order(x[i].1, object_members(b)[j].1)
            &&& forall|j: int| 0 <= j < object_members(b).len() ==> exists|i: int|
                0 <= i < x.len() && (#[trigger] object_members(b)[j]).0 == (#[trigger] x[i]).0
                    && same_up_to_order(x[i].1, object_members(b)[j].1)
        },
        _ => a == b,
    }
}

/// The byte order is total.
proof fn lemma_bytes_le_total(a: Seq<u8>, b: Seq<u8>)
    ensures
        bytes_le(a, b) || bytes_le(b, a),
    decreases a.len(),
{
    if a.len() > 0 && b.len() > 0 && a[0] == b[0] {
        lemma_bytes_le_total(a.drop_first(), b.drop_first());
    }
}

/// The byte order is transitive.
proof fn lemma_bytes_le_transitive(a: Seq<u8>, b: Seq<u8>, c: Seq<u8>)
    requires
        bytes_le(a, b),
        bytes_le(b, c),
    ensures
        bytes_le(a, c),
    decreases a.len(),
{
    if a.len() > 0 && b.len() > 0 && c.len() > 0 && a[0] == b[0] && b[0] == c[0] {
        lemma_bytes_le_transitive(a.drop_first(), b.drop_first(), c.drop_first());
    }
}

/// The byte order is antisymmetric.
proof fn lemma_bytes_le_antisymmetric(a: Seq<u8>, b: Seq<u8>)
    requires
        bytes_le(a, b),
        bytes_le(b, a),
    ensures
        a == b,
    decreases a.len(),
{
    if a.len() > 0 && b.len() > 0 {
        lemma_bytes_le_antisymmetric(a.drop_first(), b.drop_first());
        assert(a =~= seq![a[0]] + a.drop_first());
        assert(b =~= seq![b[0]] + b.drop_first());
    } else {
        assert(a =~= b);
    }
}

/// The order of keys is total.
pub proof fn lemma_key_le_total(a: Seq<char>, b: Seq<char>)
    ensures
        key_le(a, b) || key_le(b, a),
{
    lemma_bytes_le_total(encode_utf8(a), encode_utf8(b));
}

/// The order of keys is transitive.
pub proof fn lemma_key_le_transitive(a: Seq<char>, b: Seq<char>, c: Seq<char>)
    requires
        key_le(a, b),
        key_le(b, c),
    ensures
        key_le(a, c),
{
    lemma_bytes_le_transitive(encode_utf8(a), encode_utf8(b), encode_utf8(c));
}

/// The order of keys is antisymmetric: two keys that come each before the
/// other are the same key.
pub proof fn lemma_key_le_antisymmetric(a: Seq<char>, b: Seq<char>)
    requires
        key_le(a, b),
        key_le(b, a),
    ensures
        a == b,
{
    lemma_bytes_le_antisymmetric(encode_utf8(a), encode_utf8(b));
    vstd::utf8::encode_utf8_decode_utf8(a);
    vstd::utf8::encode_utf8_decode_utf8(b);
}

/// `insert_member` puts `m` into `s` before the first member whose key is not
/// below `m`'s key.
proof fn lemma_insert_member_is_insert(m: Member, s: Seq<Member>) -> (p: int)
    ensures
        0 <= p <= s.len(),
        insert_member(m, s) == s.insert(p, m),
        forall|j: int| 0 <= j < p ==> !key_le(m.0, #[trigger] s[j].0),
        p < s.len() ==> key_le(m.0, s[p].0),
    decreases s.len(),
{
    if s.len() == 0 {
        assert(seq![m] =~= s.insert(0, m));
        0
    } else if key_le(m.0, s[0].0) {
        assert(seq![m] + s =~= s.insert(0, m));
        0
    } else {
        let rest = s.drop_first();
        let q = lemma_insert_member_is_insert(m, rest);
        assert(seq![s[0]] + rest.insert(q, m) =~= s.insert(q + 1, m));
        assert forall|j: int| 0 <= j < q + 1 implies !key_le(m.0, #[trigger] s[j].0) by {
            if j > 0 {
                assert(s[j] == rest[j - 1]);
            }
        }
        q + 1
    }
}

/// Inserting a member into members in key order keeps them in key order.
proof fn lemma_insert_member_in_order(m: Member, s: Seq<Member>)
    requires
        keys_in_order(s),
    ensures
        keys_in_order(insert_member(m, s)),
{
    let p = lemma_insert_member_is_insert(m, s);
    let r = s.insert(p, m);
    assert forall|i: int, j: int| 0 <= i < j < r.len() implies key_le(r[i].0, r[j].0) by {
        if i < p {
            if j == p {
                lemma_key_le_total(m.0, s[i].0);
            } else if j > p {
                assert(r[j] == s[j - 1]);
            }
        } else if i == p {
            assert(r[j] == s[j - 1]);
            if j - 1 > p {
                lemma_key_le_transitive(m.0, s[p].0, s[j - 1].0);
            }
        } else {
            assert(r[i] == s[i - 1]);
            assert(r[j] == s[j - 1]);
        }
    }
}

/// Sorting the members only reorders them.
pub proof fn lemma_sort_members_multiset(s: Seq<Member>)
    ensures
        sort_members(s).len() == s.len(),
        sort_members(s).to_multiset() == s.to_multiset(),
    decreases s.len(),
{
    broadcast use vstd::seq_lib::group_to_multiset_ensures;

    if s.len() > 0 {
        let rest = s.drop_first();
        lemma_sort_members_multiset(rest);
        let p = lemma_insert_member_is_insert(s[0], sort_members(rest));
        assert(s =~= rest.insert(0, s[0]));
    }
}

/// Two sequences of members that hold the same members: if one has distinct
/// keys, so has the other.
proof fn lemma_same_members_distinct_keys(a: Seq<Member>, b: Seq<Member>)
    requires
        a.to_multiset() == b.to_multiset(),
        distinct_keys(a),
    ensures
        distinct_keys(b),
{
    broadcast use vstd::seq_lib::group_to_multiset_ensures;

    assert(a.no_duplicates());
    a.lemma_multiset_has_no_duplicates();
    b.lemma_multiset_has_no_duplicates_conv();
    assert forall|i: int, j: int| 0 <= i < j < b.len() implies b[i].0 != b[j].0 by {
        assert(b.to_multiset().contains(b[i]));
        assert(b.to_multiset().contains(b[j]));
        let i2 = choose|k: int| 0 <= k < a.len() && a[k] == b[i];
        let j2 = choose|k: int| 0 <= k < a.len() && a[k] == b[j];
        if i2 < j2 {
            assert(a[i2].0 != a[j2].0);
        } else if j2 < i2 {
            assert(a[j2].0 != a[i2].0);
        }
    }
}

/// Sorting the members keeps their keys distinct.
proof fn lemma_sort_members_distinct(s: Seq<Member>)
    requires
        distinct_keys(s),
    ensures
        distinct_keys(sort_members(s)),
{
    lemma_sort_members_multiset(s);
    lemma_same_members_distinct_keys(s, sort_members(s));
}

/// Sorted members are in key order.
pub proof fn lemma_sort_members_in_order(s: Seq<Member>)
    ensures
        keys_in_order(sort_members(s)),
    decreases s.len(),
{
    if s.len() > 0 {
        lemma_sort_members_in_order(s.drop_first());
        lemma_insert_member_in_order(s[0], sort_members(s.drop_first()));
    }
}

/// Members already in key order are left as they are.
pub proof fn lemma_sort_members_of_ordered(s: Seq<Member>)
    requires
        keys_in_order(s),
    ensures
        sort_members(s) == s,
    decreases s.len(),
{
    if s.len() > 0 {
        let rest = s.drop_first();
        assert(keys_in_order(rest)) by {
            assert forall|i: int, j: int| 0 <= i < j < rest.len() implies key_le(rest[i].0, rest[j].0) by {
                assert(rest[i] == s[i + 1] && rest[j] == s[j + 1]);
            }
        }
        lemma_sort_members_of_ordered(rest);
        if rest.len() > 0 {
            assert(key_le(s[0].0, s[1].0));
            assert(rest[0] == s[1]);
        }
        assert(seq![s[0]] + rest =~= s);
    }
}

/// Members in key order with distinct keys are fixed by which members they
/// are: two such sequences that hold the same members are equal.
proof fn lemma_ordered_same_members(r: Seq<Member>, q: Seq<Member>)
    requires
        keys_in_order(r),
        keys_in_order(q),
        r.to_multiset() == q.to_multiset(),
        distinct_keys(q),
    ensures
        r == q,
    decreases r.len(),
{
    broadcast use vstd::seq_lib::group_to_multiset_ensures;

    vstd::seq_lib::to_multiset_len(r);
    vstd::seq_lib::to_multiset_len(q);
    assert(r.len() == q.len());
    if r.len() > 0 {
        assert(r.to_multiset().contains(r[0]));
        assert(q.to_multiset().contains(q[0]));
        let j = choose|j: int| 0 <= j < q.len() && q[j] == r[0];
        let i = choose|i: int| 0 <= i < r.len() && r[i] == q[0];
        if i != 0 && j != 0 {
            assert(key_le(r[0].0, r[i].0));
            assert(key_le(q[0].0, q[j].0));
            lemma_key_le_antisymmetric(r[0].0, q[0].0);
            assert(q[0].0 != q[j].0);
        }
        assert(r[0] == q[0]);
        let r1 = r.drop_first();
        let q1 = q.drop_first();
        assert(r =~= r1.insert(0, r[0]));
        assert(q =~= q1.insert(0, q[0]));
        assert(r1.to_multiset() =~= q1.to_multiset()) by {
            broadcast use vstd::multiset::group_multiset_axioms;

            assert(r1.to_multiset().insert(r[0]) == q1.to_multiset().insert(r[0]));
            assert forall|x: Member| r1.to_multiset().count(x) == q1.to_multiset().count(x) by {
                assert(r1.to_multiset().insert(r[0]).count(x) == q1.to_multiset().insert(r[0]).count(x));
            }
        }
        assert(keys_in_order(r1)) by {
            assert forall|a: int, b: int| 0 <= a < b < r1.len() implies key_le(r1[a].0, r1[b].0) by {
                assert(r1[a] == r[a + 1] && r1[b] == r[b + 1]);
            }
        }
        assert(keys_in_order(q1)) by {
            assert forall|a: int, b: int| 0 <= a < b < q1.len() implies key_le(q1[a].0, q1[b].0) by {
                assert(q1[a] == q[a + 1] && q1[b] == q[b + 1]);
            }
        }
        assert(distinct_keys(q1)) by {
            assert forall|a: int, b: int| 0 <= a < b < q1.len() implies q1[a].0 != q1[b].0 by {
                assert(q1[a] == q[a + 1] && q1[b] == q[b + 1]);
            }
        }
        lemma_ordered_same_members(r1, q1);
        assert(r =~= q);
    }
}

/// Members in key order, with distinct keys, that hold the members of `s`
/// are `s` sorted.
pub proof fn lemma_sorted_members_unique(r: Seq<Member>, s: Seq<Member>)
    requires
        keys_in_order(r),
        r.to_multiset() == s.to_multiset(),
        distinct_keys(s),
    ensures
        r == sort_members(s),
{
    lemma_sort_members_multiset(s);
    lemma_sort_members_in_order(s);
    lemma_sort_members_distinct(s);
    lemma_ordered_same_members(r, sort_members(s));
}

/// `sort_items` sorts each item where it stands.
pub proof fn lemma_sort_items_index(items: Seq<JsonTree>)
    ensures
        sort_items(items).len() == items.len(),
        forall|i: int| 0 <= i < items.len() ==> #[trigger] sort_items(items)[i] == sort_tree(items[i]),
    decreases items.len(),
{
    if items.len() > 0 {
        lemma_sort_items_index(items.drop_first());
    }
}

/// `sort_member_values` sorts each member's value where it stands.
pub proof fn lemma_sort_member_values_index(members: Seq<Member>)
    ensures
        sort_member_values(members).len() == members.len(),
        forall|i: int| 0 <= i < members.len() ==> #[trigger] sort_member_values(members)[i] == (members[i].0, sort_tree(members[i].1)),
    decreases members.len(),
{
    if members.len() > 0 {
        lemma_sort_member_values_index(members.drop_first());
    }
}

/// After `sort_tree` the keys of every object, at every depth, are in order.
pub proof fn lemma_sort_tree_is_sorted(t: JsonTree)
    ensures
        is_key_sorted(sort_tree(t)),
    decreases t,
{
    match t {
        JsonTree::Array(items) => {
            lemma_sort_items_index(items);
            let r = sort_items(items);
            assert forall|i: int| 0 <= i < r.len() implies is_key_sorted(#[trigger] r[i]) by {
                assert(decreases_to!(t => t->Array_0));
                assert(decreases_to!(items => items[i]));
                lemma_sort_tree_is_sorted(items[i]);
            }
        },
        JsonTree::Object(members) => {
            let g = sort_member_values(members);
            let r = sort_members(g);
            lemma_sort_member_values_index(members);
            lemma_sort_members_in_order(g);
            lemma_sort_members_multiset(g);
            assert forall|i: int| 0 <= i < r.len() implies is_key_sorted(#[trigger] r[i].1) by {
                broadcast use vstd::seq_lib::group_to_multiset_ensures;

                assert(r.to_multiset().contains(r[i]));
                assert(g.to_multiset().contains(r[i]));
                let j = choose|j: int| 0 <= j < g.len() && g[j] == r[i];
                assert(decreases_to!(t => t->Object_0));
                assert(decreases_to!(members => members[j]));
                assert(decreases_to!(members[j] => members[j].1));
                lemma_sort_tree_is_sorted(members[j].1);
            }
        },
        _ => {},
    }
}

/// A tree whose objects all have their keys in order is left as it is.
pub proof fn lemma_sort_tree_of_sorted(t: JsonTree)
    requires
        is_key_sorted(t),
    ensures
        sort_tree(t) == t,
    decreases t,
{
    match t {
        JsonTree::Array(items) => {
            lemma_sort_items_index(items);
            assert forall|i: int| 0 <= i < items.len() implies #[trigger] sort_items(items)[i] == items[i] by {
                assert(decreases_to!(t => t->Array_0));
                assert(decreases_to!(items => items[i]));
                lemma_sort_tree_of_sorted(items[i]);
            }
            assert(sort_items(items) =~= items);
        },
        JsonTree::Object(members) => {
            lemma_sort_member_values_index(members);
            assert forall|i: int| 0 <= i < members.len() implies #[trigger] sort_member_values(members)[i] == members[i] by {
                assert(decreases_to!(t => t->Object_0));
                assert(decreases_to!(members => members[i]));
                assert(decreases_to!(members[i] => members[i].1));
                lemma_sort_tree_of_sorted(members[i].1);
            }
            assert(sort_member_values(members) =~= members);
            lemma_sort_members_of_ordered(members);
        },
        _ => {},
    }
}

/// Sorting the keys twice gives what sorting them once gives.
pub proof fn lemma_sort_tree_idempotent(t: JsonTree)
    ensures
        sort_tree(sort_tree(t)) == sort_tree(t),
{
    lemma_sort_tree_is_sorted(t);
    lemma_sort_tree_of_sorted(sort_tree(t));
}

/// Sorting an object keeps its members (with their values sorted) and only
/// reorders them: the same keys, each once if they were distinct, now in
/// key order.
pub proof fn lemma_sort_tree_keeps_members(members: Seq<Member>)
    ensures
        sort_tree(JsonTree::Object(members)) == JsonTree::Object(sort_members(sort_member_values(members))),
        sort_members(sort_member_values(members)).to_multiset() == sort_member_values(members).to_multiset(),
        keys_in_order(sort_members(sort_member_values(members))),
        distinct_keys(members) ==> distinct_keys(sort_members(sort_member_values(members))),
{
    let g = sort_member_values(members);
    lemma_sort_member_values_index(members);
    lemma_sort_members_multiset(g);
    lemma_sort_members_in_order(g);
    if distinct_keys(members) {
        assert forall|i: int, j: int| 0 <= i < j < g.len() implies g[i].0 != g[j].0 by {
            assert(g[i].0 == members[i].0);
            assert(g[j].0 == members[j].0);
        }
        lemma_sort_members_distinct(g);
    }
}

/// Sorting the keys changes only the order of the members of objects, at
/// every depth: the sorted document is the same document otherwise.
pub proof fn lemma_sort_tree_same_document(t: JsonTree)
    ensures
        same_up_to_order(t, sort_tree(t)),
    decreases t,
{
    broadcast use vstd::seq_lib::group_to_multiset_ensures;

    match t {
        JsonTree::Array(items) => {
            lemma_sort_items_index(items);
            let r = sort_items(items);
            assert(array_items(sort_tree(t)) == r);
            assert forall|i: int| 0 <= i < items.len() implies same_up_to_order(#[trigger] items[i], r[i]) by {
                assert(decreases_to!(t => t->Array_0));
                assert(decreases_to!(items => items[i]));
                lemma_sort_tree_same_document(items[i]);
            }
        },
        JsonTree::Object(members) => {
            let g = sort_member_values(members);
            let r = sort_members(g);
            lemma_sort_member_values_index(members);
            lemma_sort_members_multiset(g);
            vstd::seq_lib::to_multiset_len(r);
            vstd::seq_lib::to_multiset_len(g);
            assert(object_members(sort_tree(t)) == r);
            assert(r.len() == members.len());
            assert forall|i: int| 0 <= i < members.len() implies exists|j: int|
                0 <= j < r.len() && #[trigger] r[j].0 == (#[trigger] members[i]).0
                    && same_up_to_order(members[i].1, r[j].1) by {
                assert(g.to_multiset().contains(g[i]));
                assert(r.to_multiset().contains(g[i]));
                let j = choose|j: int| 0 <= j < r.len() && r[j] == g[i];
                assert(decreases_to!(t => t->Object_0));
                assert(decreases_to!(members => members[i]));
                assert(decreases_to!(members[i] => members[i].1));
                lemma_sort_tree_same_document(members[i].1);
                assert(r[j].0 == members[i].0);
            }
            assert forall|j: int| 0 <= j < r.len() implies exists|i: int|
                0 <= i < members.len() && (#[trigger] r[j]).0 == (#[trigger] members[i]).0
                    && same_up_to_order(members[i].1, r[j].1) by {
                assert(r.to_multiset().contains(r[j]));
                assert(g.to_multiset().contains(r[j]));
                let i = choose|i: int| 0 <= i < g.len() && g[i] == r[j];
                assert(decreases_to!(t => t->Object_0));
                assert(decreases_to!(members => members[i]));
                assert(decreases_to!(members[i] => members[i].1));
                lemma_sort_tree_same_document(members[i].1);
                assert(members[i].0 == r[j].0);
            }
        },
        _ => {},
    }
}

/// Byte sequences that agree up to index `k` and differ there are ordered by
/// the bytes at `k`, compared as numbers.
pub proof fn lemma_bytes_le_first_difference(a: Seq<u8>, b: Seq<u8>, k: int)
    requires
        0 <= k < a.len(),
        k < b.len(),
        a.take(k) == b.take(k),
        a[k] < b[k],
    ensures
        bytes_le(a, b),
        !bytes_le(b, a),
    decreases k,
{
    if k > 0 {
        assert(a[0] == a.take(k)[0] && b[0] == b.take(k)[0]);
        assert(a.drop_first().take(k - 1) =~= b.drop_first().take(k - 1)) by {
            assert forall|i: int| 0 <= i < k - 1 implies a.drop_first()[i] == b.drop_first()[i] by {
                assert(a.take(k)[i + 1] == a[i + 1]);
                assert(b.take(k)[i + 1] == b[i + 1]);
                assert(a.take(k)[i + 1] == b.take(k)[i + 1]);
            }
        }
        lemma_bytes_le_first_difference(a.drop_first(), b.drop_first(), k - 1);
    }
}

/// A byte sequence comes before every sequence that it begins, and after
/// none that it strictly extends.
pub proof fn lemma_bytes_le_prefix(a: Seq<u8>, b: Seq<u8>)
    requires
        a.len() <= b.len(),
        b.take(a.len() as int) == a,
    ensures
        bytes_le(a, b),
        a.len() < b.len() ==> !bytes_le(b, a),
    decreases a.len(),
{
    if a.len() > 0 {
        assert(a[0] == b.take(a.len() as int)[0]);
        assert(b.drop_first().take(a.len() - 1) =~= a.drop_first()) by {
            assert forall|i: int| 0 <= i < a.len() - 1 implies b.drop_first()[i] == a.drop_first()[i] by {
                assert(b.take(a.len() as int)[i + 1] == a[i + 1]);
            }
        }
        lemma_bytes_le_prefix(a.drop_first(), b.drop_first());
    }
}

/// Keys are ordered as `String` orders them: by their UTF-8 bytes, compared
/// as numbers at the first index where they differ.
pub proof fn lemma_key_order_first_difference(a: Seq<char>, b: Seq<char>, k: int)
    requires
        0 <= k < encode_utf8(a).len(),
        k < encode_utf8(b).len(),
        encode_utf8(a).take(k) == encode_utf8(b).take(k),
        encode_utf8(a)[k] < encode_utf8(b)[k],
    ensures
        key_le(a, b),
        !key_le(b, a),
{
    lemma_bytes_le_first_difference(encode_utf8(a), encode_utf8(b), k);
}

/// A key whose UTF-8 bytes begin another key's comes first, and strictly
/// first when it is shorter.
pub proof fn lemma_key_order_prefix(a: Seq<char>, b: Seq<char>)
    requires
        encode_utf8(a).len() <= encode_utf8(b).len(),
        encode_utf8(b).take(encode_utf8(a).len() as int) == encode_utf8(a),
    ensures
        key_le(a, b),
        encode_utf8(a).len() < encode_utf8(b).len() ==> !key_le(b, a),
{
    lemma_bytes_le_prefix(encode_utf8(a), encode_utf8(b));
}

/// Compares two keys in the order of `String`.
fn key_le_exec(a: &String, b: &String) -> (le: bool)
    ensures
        le == key_le(a@, b@),
{
    let x = a.as_str().as_bytes();
    let y = b.as_str().as_bytes();
    let mut i: usize = 0;
    assert(x@.skip(0) =~= x@);
    assert(y@.skip(0) =~= y@);
    while i < x.len() && i < y.len() && x[i] == y[i]
        invariant
            i <= x@.len(),
            i <= y@.len(),
            x@ == encode_utf8(a@),
            y@ == encode_utf8(b@),
            bytes_le(x@, y@) == bytes_le(x@.skip(i as int), y@.skip(i as int)),
        decreases x@.len() - i,
    {
        assert(x@.skip(i as int).drop_first() =~= x@.skip(i + 1));
        assert(y@.skip(i as int).drop_first() =~= y@.skip(i + 1));
        i = i + 1;
    }
    if i == x.len() {
        true
    } else if i == y.len() {
        false
    } else {
        x[i] < y[i]
    }
}

/// The members of `s` from index `k` on are `s[k]` and those from `k + 1` on.
proof fn lemma_skip_multiset(s: Seq<Member>, k: int)
    requires
        0 <= k < s.len(),
    ensures
        s.skip(k).to_multiset() == s.skip(k + 1).to_multiset().insert(s[k]),
{
    broadcast use vstd::seq_lib::group_to_multiset_ensures;

    assert(s.skip(k) =~= s.skip(k + 1).insert(0, s[k]));
}

/// Taking `s[k]`, the last member left of `s`, onto the merged members `d`.
proof fn lemma_merge_step_left(d: Seq<Member>, s: Seq<Member>, k: int, other: Multiset<Member>)
    requires
        0 <= k < s.len(),
        d.to_multiset() == s.skip(k + 1).to_multiset().add(other),
    ensures
        d.push(s[k]).to_multiset() == s.skip(k).to_multiset().add(other),
{
    broadcast use vstd::seq_lib::group_to_multiset_ensures;
    broadcast use vstd::multiset::group_multiset_axioms;

    lemma_skip_multiset(s, k);
    assert(d.push(s[k]).to_multiset() =~= s.skip(k).to_multiset().add(other));
}

/// Taking `s[k]`, the last member left of `s`, onto the merged members `d`.
proof fn lemma_merge_step_right(d: Seq<Member>, s: Seq<Member>, k: int, other: Multiset<Member>)
    requires
        0 <= k < s.len(),
        d.to_multiset() == other.add(s.skip(k + 1).to_multiset()),
    ensures
        d.push(s[k]).to_multiset() == other.add(s.skip(k).to_multiset()),
{
    broadcast use vstd::seq_lib::group_to_multiset_ensures;
    broadcast use vstd::multiset::group_multiset_axioms;

    lemma_skip_multiset(s, k);
    assert(d.push(s[k]).to_multiset() =~= other.add(s.skip(k).to_multiset()));
}

/// The members `d`, largest key first, with `x` pushed after them: still
/// largest key first, and still no key below those of `sa` and `sb` that are
/// left.
proof fn lemma_merge_step_order(
    d: Seq<Member>,
    x: Member,
    sa: Seq<Member>,
    la: int,
    sb: Seq<Member>,
    lb: int,
)
    requires
        forall|i: int, j: int| 0 <= i < j < d.len() ==> key_le(#[trigger] d[j].0, #[trigger] d[i].0),
        forall|i: int, k: int| 0 <= i < d.len() && 0 <= k < la ==> key_le(#[trigger] sa[k].0, #[trigger] d[i].0),
        forall|i: int, k: int| 0 <= i < d.len() && 0 <= k < lb ==> key_le(#[trigger] sb[k].0, #[trigger] d[i].0),
        forall|i: int| 0 <= i < d.len() ==> key_le(x.0, #[trigger] d[i].0),
        forall|k: int| 0 <= k < la ==> key_le(#[trigger] sa[k].0, x.0),
        forall|k: int| 0 <= k < lb ==> key_le(#[trigger] sb[k].0, x.0),
    ensures
        forall|i: int, j: int| 0 <= i < j < d.push(x).len() ==> key_le(#[trigger] d.push(x)[j].0, #[trigger] d.push(x)[i].0),
        forall|i: int, k: int| 0 <= i < d.push(x).len() && 0 <= k < la ==> key_le(#[trigger] sa[k].0, #[trigger] d.push(x)[i].0),
        forall|i: int, k: int| 0 <= i < d.push(x).len() && 0 <= k < lb ==> key_le(#[trigger] sb[k].0, #[trigger] d.push(x)[i].0),
{
    let e = d.push(x);
    assert forall|i: int, j: int| 0 <= i < j < e.len() implies key_le(#[trigger] e[j].0, #[trigger] e[i].0) by {
        assert(e[i] == d[i]);
        if j < d.len() {
            assert(e[j] == d[j]);
        }
    }
    assert forall|i: int, k: int| 0 <= i < e.len() && 0 <= k < la implies key_le(#[trigger] sa[k].0, #[trigger] e[i].0) by {
        if i < d.len() {
            assert(e[i] == d[i]);
        }
    }
    assert forall|i: int, k: int| 0 <= i < e.len() && 0 <= k < lb implies key_le(#[trigger] sb[k].0, #[trigger] e[i].0) by {
        if i < d.len() {
            assert(e[i] == d[i]);
        }
    }
}

/// Merges two sequences of pairs that are in key order into one in key order
/// that holds the members of both.
fn merge_by_key(a: Vec<(String, Value)>, b: Vec<(String, Value)>) -> (r: Vec<(String, Value)>)
    requires
        keys_in_order(members_of(a@)),
        keys_in_order(members_of(b@)),
    ensures
        keys_in_order(members_of(r@)),
        members_of(r@).to_multiset() == members_of(a@).to_multiset().add(members_of(b@).to_multiset()),
{
    let ghost sa = members_of(a@);
    let ghost sb = members_of(b@);
    let mut a = a;
    let mut b = b;
    // The merged members, largest key first.
    let mut desc: Vec<(String, Value)> = Vec::new();
    proof {
        broadcast use vstd::seq_lib::group_to_multiset_ensures;
        broadcast use vstd::multiset::group_multiset_axioms;

        assert(sa.skip(sa.len() as int) =~= Seq::<Member>::empty());
        assert(sb.skip(sb.len() as int) =~= Seq::<Member>::empty());
        assert(sa.take(sa.len() as int) =~= sa);
        assert(sb.take(sb.len() as int) =~= sb);
        assert(members_of(desc@) =~= Seq::<Member>::empty());
        assert(members_of(desc@).to_multiset() =~= sa.skip(sa.len() as int).to_multiset().add(
            sb.skip(sb.len() as int).to_multiset()));
    }
    while a.len() > 0 || b.len() > 0
        invariant
            a@.len() <= sa.len(),
            b@.len() <= sb.len(),
            members_of(a@) == sa.take(a@.len() as int),
            members_of(b@) == sb.take(b@.len() as int),
            keys_in_order(sa),
            keys_in_order(sb),
            forall|i: int, j: int| 0 <= i < j < members_of(desc@).len() ==>
                key_le(#[trigger] members_of(desc@)[j].0, #[trigger] members_of(desc@)[i].0),
            forall|i: int, k: int| 0 <= i < members_of(desc@).len() && 0 <= k < a@.len() ==>
                key_le(#[trigger] sa[k].0, #[trigger] members_of(desc@)[i].0),
            forall|i: int, k: int| 0 <= i < members_of(desc@).len() && 0 <= k < b@.len() ==>
                key_le(#[trigger] sb[k].0, #[trigger] members_of(desc@)[i].0),
            members_of(desc@).to_multiset() == sa.skip(a@.len() as int).to_multiset().add(
                sb.skip(b@.len() as int).to_multiset(),
            ),
        decreases a@.len() + b@.len(),
    {
        let from_a = if a.len() == 0 {
            false
        } else if b.len() == 0 {
            true
        } else {
            !key_le_exec(&a[a.len() - 1].0, &b[b.len() - 1].0)
        };
        let ghost d = members_of(desc@);
        if from_a {
            let ghost k = a@.len() - 1;
            let ghost before = a@;
            let item = a.pop().unwrap();
            proof {
                assert(item == before[k]);
                assert(members_of(before)[k] == sa.take(k + 1)[k]);
                assert(member_of(item) == sa[k]);
                assert(members_of(before)[k] == sa[k]);
                assert forall|m: int| 0 <= m < k implies key_le(#[trigger] sa[m].0, sa[k].0) by {}
                if b@.len() > 0 {
                    let l = b@.len() - 1;
                    assert(members_of(b@)[l] == sb[l]);
                    lemma_key_le_total(sa[k].0, sb[l].0);
                    assert forall|m: int| 0 <= m < b@.len() implies key_le(#[trigger] sb[m].0, sa[k].0) by {
                        if m < l {
                            lemma_key_le_transitive(sb[m].0, sb[l].0, sa[k].0);
                        }
                    }
                }
                assert forall|i: int| 0 <= i < d.len() implies key_le(sa[k].0, #[trigger] d[i].0) by {}
                lemma_merge_step_order(d, sa[k], sa, k, sb, b@.len() as int);
                lemma_merge_step_left(d, sa, k, sb.skip(b@.len() as int).to_multiset());
                assert(members_of(a@) =~= sa.take(a@.len() as int));
            }
            desc.push(item);
            assert(members_of(desc@) =~= d.push(sa[k]));
        } else {
            let ghost k = b@.len() - 1;
            let ghost before = b@;
            let item = b.pop().unwrap();
            proof {
                assert(item == before[k]);
                assert(members_of(before)[k] == sb.take(k + 1)[k]);
                assert(member_of(item) == sb[k]);
                assert forall|m: int| 0 <= m < k implies key_le(#[trigger] sb[m].0, sb[k].0) by {}
                if a@.len() > 0 {
                    let l = a@.len() - 1;
                    assert(members_of(a@)[l] == sa[l]);
                    assert forall|m: int| 0 <= m < a@.len() implies key_le(#[trigger] sa[m].0, sb[k].0) by {
                        if m < l {
                            lemma_key_le_transitive(sa[m].0, sa[l].0, sb[k].0);
                        }
                    }
                }
                assert forall|i: int| 0 <= i < d.len() implies key_le(sb[k].0, #[trigger] d[i].0) by {}
                lemma_merge_step_order(d, sb[k], sa, a@.len() as int, sb, k);
                lemma_merge_step_right(d, sb, k, sa.skip(a@.len() as int).to_multiset());
                assert(members_of(b@) =~= sb.take(b@.len() as int));
            }
            desc.push(item);
            assert(members_of(desc@) =~= d.push(sb[k]));
        }
    }
    proof {
        assert(sa.skip(0) =~= sa);
        assert(sb.skip(0) =~= sb);
    }
    let ghost all = desc@;
    let mut r: Vec<(String, Value)> = Vec::new();
    while desc.len() > 0
        invariant
            desc@.len() + r@.len() == all.len(),
            desc@ == all.take(desc@.len() as int),
            forall|i: int| 0 <= i < r@.len() ==> #[trigger] r@[i] == all[all.len() - 1 - i],
        decreases desc@.len(),
    {
        let item = desc.pop().unwrap();
        r.push(item);
        assert(desc@ =~= all.take(desc@.len() as int));
    }
    proof {
        let ma = members_of(all);
        assert(members_of(r@) =~= ma.reverse());
        ma.lemma_reverse_to_multiset();
        assert forall|i: int, j: int| 0 <= i < j < r@.len() implies
            key_le(#[trigger] members_of(r@)[i].0, #[trigger] members_of(r@)[j].0) by {
            assert(members_of(r@)[i] == ma[all.len() - 1 - i]);
            assert(members_of(r@)[j] == ma[all.len() - 1 - j]);
        }
    }
    r
}

/// Sorts key/value pairs into key order (merge sort).
fn sort_by_key(v: Vec<(String, Value)>) -> (r: Vec<(String, Value)>)
    ensures
        keys_in_order(members_of(r@)),
        members_of(r@).to_multiset() == members_of(v@).to_multiset(),
    decreases v@.len(),
{
    let ghost whole = members_of(v@);
    if v.len() <= 1 {
        return v;
    }
    let mut left = v;
    let mid = left.len() / 2;
    let right = left.split_off(mid);
    proof {
        broadcast use vstd::seq_lib::lemma_multiset_commutative;

        assert(whole =~= members_of(left@) + members_of(right@));
    }
    let left = sort_by_key(left);
    let right = sort_by_key(right);
    merge_by_key(left, right)
}

/// `v` with the keys of every object in it sorted.
fn sorted(v: Value) -> (r: Value)
    ensures
        json_tree(r) == sort_tree(json_tree(v)),
        is_strictly_key_sorted(json_tree(r)),
    decreases json_tree(v),
{
    let ghost t = json_tree(v);
    match value_kind(&v) {
        ValueKind::Array => {
            let ghost items = array_items(t);
            let mut rest = into_items(v);
            let mut reversed: Vec<Value> = Vec::new();
            while rest.len() > 0
                invariant
                    t == json_tree(v),
                    t == JsonTree::Array(items),
                    rest@.len() + reversed@.len() == items.len(),
                    trees_of(rest@) == items.take(rest@.len() as int),
                    forall|j: int| 0 <= j < reversed@.len() ==>
                        json_tree(#[trigger] reversed@[j]) == sort_tree(items[items.len() - 1 - j]),
                    forall|j: int| 0 <= j < reversed@.len() ==>
                        is_strictly_key_sorted(json_tree(#[trigger] reversed@[j])),
                decreases rest@.len(),
            {
                let ghost k = rest@.len() - 1;
                let ghost before = rest@;
                let item = rest.pop().unwrap();
                assert(item == before[k]);
                assert(trees_of(before)[k] == items.take(k + 1)[k]);
                assert(json_tree(item) == items[k]);
                assert(t->Array_0 == items);
                assert(decreases_to!(t => t->Array_0));
                assert(decreases_to!(items => items[k]));
                assert(decreases_to!(t => items[k]));
                let done = sorted(item);
                reversed.push(done);
                assert(trees_of(rest@) =~= items.take(rest@.len() as int));
            }
            let mut out: Vec<Value> = Vec::new();
            while reversed.len() > 0
                invariant
                    out@.len() + reversed@.len() == items.len(),
                    forall|j: int| 0 <= j < reversed@.len() ==>
                        json_tree(#[trigger] reversed@[j]) == sort_tree(items[items.len() - 1 - j]),
                    forall|j: int| 0 <= j < reversed@.len() ==>
                        is_strictly_key_sorted(json_tree(#[trigger] reversed@[j])),
                    forall|j: int| 0 <= j < out@.len() ==>
                        json_tree(#[trigger] out@[j]) == sort_tree(items[j]),
                    forall|j: int| 0 <= j < out@.len() ==>
                        is_strictly_key_sorted(json_tree(#[trigger] out@[j])),
                decreases reversed@.len(),
            {
                let item = reversed.pop().unwrap();
                out.push(item);
            }
            proof {
                lemma_sort_items_index(items);
                assert(trees_of(out@) =~= sort_items(items));
                assert forall|i: int| 0 <= i < trees_of(out@).len() implies
                    is_strictly_key_sorted(#[trigger] trees_of(out@)[i]) by {
                    assert(trees_of(out@)[i] == json_tree(out@[i]));
                }
            }
            array_value(out)
        },
        ValueKind::Object => {
            let ghost members = object_members(t);
            let ghost goal = sort_member_values(members);
            let mut rest = into_members(v);
            // The members with their values sorted, last member first.
            let mut valued: Vec<(String, Value)> = Vec::new();
            proof {
                lemma_sort_member_values_index(members);
            }
            while rest.len() > 0
                invariant
                    t == json_tree(v),
                    t == JsonTree::Object(members),
                    goal == sort_member_values(members),
                    goal.len() == members.len(),
                    forall|i: int| 0 <= i < members.len() ==>
                        #[trigger] goal[i] == (members[i].0, sort_tree(members[i].1)),
                    rest@.len() <= members.len(),
                    members_of(rest@) == members.take(rest@.len() as int),
                    valued@.len() + rest@.len() == members.len(),
                    forall|j: int| 0 <= j < valued@.len() ==>
                        #[trigger] member_of(valued@[j]) == goal[members.len() - 1 - j],
                    forall|j: int| 0 <= j < valued@.len() ==>
                        is_strictly_key_sorted(#[trigger] member_of(valued@[j]).1),
                decreases rest@.len(),
            {
                let ghost k = rest@.len() - 1;
                let ghost before = rest@;
                let (key, child) = rest.pop().unwrap();
                assert((key, child) == before[k]);
                assert(members_of(before)[k] == members.take(k + 1)[k]);
                assert(members[k] == (key@, json_tree(child)));
                assert(t->Object_0 == members);
                assert(decreases_to!(t => t->Object_0));
                assert(decreases_to!(members => members[k]));
                assert(decreases_to!(members[k] => members[k].1));
                assert(decreases_to!(t => members[k].1));
                let child = sorted(child);
                valued.push((key, child));
                assert(members_of(rest@) =~= members.take(rest@.len() as int));
            }
            proof {
                assert(members_of(valued@) =~= goal.reverse());
                goal.lemma_reverse_to_multiset();
                assert(distinct_keys(goal)) by {
                    assert forall|i: int, j: int| 0 <= i < j < goal.len() implies goal[i].0 != goal[j].0 by {
                        assert(goal[i].0 == members[i].0);
                        assert(goal[j].0 == members[j].0);
                    }
                }
            }
            let ordered = sort_by_key(valued);
            proof {
                lemma_sorted_members_unique(members_of(ordered@), goal);
                lemma_sort_members_distinct(goal);
                let o = members_of(ordered@);
                let w = members_of(valued@);
                assert forall|i: int| 0 <= i < o.len() implies is_strictly_key_sorted(#[trigger] o[i].1) by {
                    broadcast use vstd::seq_lib::group_to_multiset_ensures;

                    assert(o.to_multiset().contains(o[i]));
                    assert(w.to_multiset().contains(o[i]));
                    let j = choose|j: int| 0 <= j < w.len() && w[j] == o[i];
                    assert(w[j] == member_of(valued@[j]));
                }
                assert(keys_ascending(o));
            }
            object_value(ordered)
        },
        ValueKind::Scalar => {
            v
        },
    }
}

/// Sorts the keys of every object in `value`, at every depth, in the order
/// of `String`; arrays keep the order of their items.
pub fn sort_value(value: &mut Value)
    ensures
        json_tree(*final(value)) == sort_tree(json_tree(*old(value))),
        is_strictly_key_sorted(json_tree(*final(value))),
{
    let taken = take_value(value);
    *value = sorted(taken);
}

} // verus!
