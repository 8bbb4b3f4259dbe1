//! A JSON document held as plain values, and the lookups that the activity
//! feed is read with.
use vstd::prelude::*;
use crate::text::{lower_seq, to_ascii_lowercase};

verus! {

/// A JSON value. An object lists its members, each key once, in the order
/// in which its values are searched; the activity feed's reader gives them
/// sorted by key, the order in which a parsed JSON map is walked.
#[derive(Debug)]
pub enum JsonValue {
    Null,
    Bool(bool),
    /// A number, in its textual form.
    Number(String),
    String(String),
    Array(Vec<JsonValue>),
    Object(Vec<(String, JsonValue)>),
}

/// The value of the first member of `members` whose key is `key`.
pub open spec fn member(members: Seq<(String, JsonValue)>, key: Seq<char>) -> Option<JsonValue>
    decreases members.len(),
{
    if members.len() == 0 {
        None
    } else if members[0].0@ == key {
        Some(members[0].1)
    } else {
        member(members.drop_first(), key)
    }
}

/// The member `key` of `v` when `v` is an object (`Value::get` with a key).
pub open spec fn key_value(v: JsonValue, key: Seq<char>) -> Option<JsonValue> {
    match v {
        JsonValue::Object(members) => member(members@, key),
        _ => None,
    }
}

/// The text of `v` when `v` is a string (`Value::as_str`).
pub open spec fn string_of(v: Option<JsonValue>) -> Option<Seq<char>> {
    match v {
        Some(JsonValue::String(s)) => Some(s@),
        _ => None,
    }
}

/// The first of `keys`, in order, under which the members hold a string; that string.
pub open spec fn first_key_string(members: Seq<(String, JsonValue)>, keys: Seq<Seq<char>>) -> Option<
    Seq<char>,
>
    decreases keys.len(),
{
    if keys.len() == 0 {
        None
    } else {
        match string_of(member(members, keys[0])) {
            Some(s) => Some(s),
            None => first_key_string(members, keys.drop_first()),
        }
    }
}

/// The first string found under one of `keys` in `v`, searching depth first:
/// in an object its own members under `keys` (in the order of `keys`) come
/// first, then its member values in order; in an array its items in order.
pub open spec fn find_string(v: JsonValue, keys: Seq<Seq<char>>) -> Option<Seq<char>>
    decreases v, 0nat,
{
    match v {
        JsonValue::Object(members) => match first_key_string(members@, keys) {
            Some(s) => Some(s),
            None => find_string_in_members(members@, keys),
        },
        JsonValue::Array(items) => find_string_in_items(items@, keys),
        _ => None,
    }
}

/// `find_string` over the member values, in order; the first that finds one.
pub open spec fn find_string_in_members(members: Seq<(String, JsonValue)>, keys: Seq<Seq<char>>) -> Option<
    Seq<char>,
>
    decreases members, 1nat,
{
    if members.len() == 0 {
        None
    } else {
        match find_string(members[0].1, keys) {
            Some(s) => Some(s),
            None => find_string_in_members(members.drop_first(), keys),
        }
    }
}

/// `find_string` over the items, in order; the first that finds one.
pub open spec fn find_string_in_items(items: Seq<JsonValue>, keys: Seq<Seq<char>>) -> Option<
    Seq<char>,
>
    decreases items, 1nat,
{
    if items.len() == 0 {
        None
    } else {
        match find_string(items[0], keys) {
            Some(s) => Some(s),
            None => find_string_in_items(items.drop_first(), keys),
        }
    }
}

/// The ASCII lower-cased texts of all strings in `v`, depth first, in
/// document order.
pub open spec fn strings_in(v: JsonValue) -> Seq<Seq<char>>
    decreases v, 0nat,
{
    match v {
        JsonValue::String(s) => seq![lower_seq(s@)],
        JsonValue::Array(items) => strings_in_items(items@),
        JsonValue::Object(members) => strings_in_members(members@),
        _ => seq![],
    }
}

/// `strings_in` of the items, concatenated.
pub open spec fn strings_in_items(items: Seq<JsonValue>) -> Seq<Seq<char>>
    decreases items, 1nat,
{
    if items.len() == 0 {
        seq![]
    } else {
        strings_in(items[0]) + strings_in_items(items.drop_first())
    }
}

/// `strings_in` of the member values, concatenated.
pub open spec fn strings_in_members(members: Seq<(String, JsonValue)>) -> Seq<Seq<char>>
    decreases members, 1nat,
{
    if members.len() == 0 {
        seq![]
    } else {
        strings_in(members[0].1) + strings_in_members(members.drop_first())
    }
}

/// The texts of a sequence of `String`s.
pub open spec fn key_texts(keys: Seq<String>) -> Seq<Seq<char>> {
    keys.map_values(|k: String| k@)
}

/// The value of the member `key` (`Map::get`).
pub fn member_get<'a>(members: &'a Vec<(String, JsonValue)>, key: &String) -> (r: Option<
    &'a JsonValue,
>)
    ensures
        match r {
            Some(v) => member(members@, key@) == Some(*v),
            None => member(members@, key@) is None,
        },
{
    let mut i: usize = 0;
    assert(members@.skip(0) =~= members@);
    while i < members.len()
        invariant
            i <= members.len(),
            member(members@, key@) == member(members@.skip(i as int), key@),
        decreases members.len() - i,
    {
        assert(members@.skip(i as int).drop_first() =~= members@.skip(i + 1));
        if members[i].0 == *key {
            return Some(&members[i].1);
        }
        i += 1;
    }
    None
}

/// The member `key` of `v` when `v` is an object (`Value::get`).
pub fn get<'a>(v: &'a JsonValue, key: &String) -> (r: Option<&'a JsonValue>)
    ensures
        match r {
            Some(x) => key_value(*v, key@) == Some(*x),
            None => key_value(*v, key@) is None,
        },
{
    match v {
        JsonValue::Object(members) => member_get(members, key),
        _ => None,
    }
}

/// The first string found under one of `keys` in `v`, depth first.
pub fn find_first_string<'a>(v: &'a JsonValue, keys: &Vec<String>) -> (r: Option<&'a String>)
    ensures
        match r {
            Some(s) => find_string(*v, key_texts(keys@)) == Some(s@),
            None => find_string(*v, key_texts(keys@)) is None,
        },
    decreases v,
{
    let ghost ks = key_texts(keys@);
    match v {
        JsonValue::Object(members) => {
            let mut k: usize = 0;
            assert(ks.skip(0) =~= ks);
            while k < keys.len()
                invariant
                    k <= keys.len(),
                    ks == key_texts(keys@),
                    *v is Object,
                    v->Object_0 == *members,
                    first_key_string(members@, ks) == first_key_string(members@, ks.skip(k as int)),
                decreases keys.len() - k,
            {
                assert(ks.skip(k as int).drop_first() =~= ks.skip(k + 1));
                assert(ks.skip(k as int)[0] == keys@[k as int]@);
                let found = member_get(members, &keys[k]);
                if let Some(x) = found {
                    if let JsonValue::String(s) = x {
                        assert(string_of(member(members@, ks.skip(k as int)[0])) == Some(s@));
                        return Some(s);
                    }
                }
                k += 1;
            }
            assert(ks.skip(k as int).len() == 0);
            assert(first_key_string(members@, ks) is None);
            let mut i: usize = 0;
            assert(members@.skip(0) =~= members@);
            while i < members.len()
                invariant
                    i <= members.len(),
                    ks == key_texts(keys@),
                    first_key_string(members@, ks) is None,
                    *v is Object,
                    v->Object_0 == *members,
                    find_string_in_members(members@, ks) == find_string_in_members(
                        members@.skip(i as int),
                        ks,
                    ),
                decreases members.len() - i,
            {
                assert(members@.skip(i as int).drop_first() =~= members@.skip(i + 1));
                assert(members@.skip(i as int)[0] == members@[i as int]);
                proof {
                    lemma_member_decreases(*v, i as int);
                }
                if let Some(s) = find_first_string(&members[i].1, keys) {
                    assert(find_string(members@[i as int].1, ks) == Some(s@));
                    return Some(s);
                }
                i += 1;
            }
            None
        },
        JsonValue::Array(items) => {
            let mut i: usize = 0;
            assert(items@.skip(0) =~= items@);
            while i < items.len()
                invariant
                    i <= items.len(),
                    ks == key_texts(keys@),
                    *v is Array,
                    v->Array_0 == *items,
                    find_string_in_items(items@, ks) == find_string_in_items(
                        items@.skip(i as int),
                        ks,
                    ),
                decreases items.len() - i,
            {
                assert(items@.skip(i as int).drop_first() =~= items@.skip(i + 1));
                assert(items@.skip(i as int)[0] == items@[i as int]);
                proof {
                    lemma_item_decreases(*v, i as int);
                }
                if let Some(s) = find_first_string(&items[i], keys) {
                    assert(find_string(items@[i as int], ks) == Some(s@));
                    return Some(s);
                }
                i += 1;
            }
            None
        },
        _ => None,
    }
}

/// Appends the ASCII lower-cased texts of all strings in `v` to `out`,
/// depth first.
pub fn collect_strings_into(v: &JsonValue, out: &mut Vec<String>)
    ensures
        key_texts(final(out)@) == key_texts(old(out)@) + strings_in(*v),
    decreases v,
{
    match v {
        JsonValue::String(text) => {
            let lowered = to_ascii_lowercase(text.as_str());
            let ghost before = out@;
            out.push(lowered);
            assert(key_texts(out@) =~= key_texts(before) + strings_in(*v));
        },
        JsonValue::Array(items) => {
            let mut i: usize = 0;
            let ghost start = key_texts(out@);
            assert(items@.take(0) =~= Seq::<JsonValue>::empty());
            while i < items.len()
                invariant
                    i <= items.len(),
                    key_texts(out@) == start + strings_in_items(items@.take(i as int)),
                    *v is Array,
                    v->Array_0 == *items,
                decreases items.len() - i,
            {
                proof {
                    lemma_item_decreases(*v, i as int);
                }
                collect_strings_into(&items[i], out);
                proof {
                    lemma_strings_in_items_push(items@.take(i as int), items@[i as int]);
                    assert(items@.take(i + 1) =~= items@.take(i as int).push(items@[i as int]));
                }
                i += 1;
            }
            assert(items@.take(i as int) =~= items@);
        },
        JsonValue::Object(members) => {
            let mut i: usize = 0;
            let ghost start = key_texts(out@);
            assert(members@.take(0) =~= Seq::<(String, JsonValue)>::empty());
            while i < members.len()
                invariant
                    i <= members.len(),
                    key_texts(out@) == start + strings_in_members(members@.take(i as int)),
                    *v is Object,
                    v->Object_0 == *members,
                decreases members.len() - i,
            {
                proof {
                    lemma_member_decreases(*v, i as int);
                }
                collect_strings_into(&members[i].1, out);
                proof {
                    lemma_strings_in_members_push(members@.take(i as int), members@[i as int]);
                    assert(members@.take(i + 1) =~= members@.take(i as int).push(
                        members@[i as int],
                    ));
                }
                i += 1;
            }
            assert(members@.take(i as int) =~= members@);
        },
        _ => {
            assert(key_texts(out@) =~= key_texts(out@) + strings_in(*v));
        },
    }
}

/// The ASCII lower-cased texts of all strings in `v`, depth first.
pub fn collect_strings(v: &JsonValue) -> (r: Vec<String>)
    ensures
        key_texts(r@) == strings_in(*v),
{
    let mut out: Vec<String> = Vec::new();
    collect_strings_into(v, &mut out);
    assert(key_texts(Seq::<String>::empty()) =~= Seq::<Seq<char>>::empty());
    assert(Seq::<Seq<char>>::empty() + strings_in(*v) =~= strings_in(*v));
    out
}

proof fn lemma_item_decreases(v: JsonValue, i: int)
    requires
        v is Array,
        0 <= i < v->Array_0@.len(),
    ensures
        decreases_to!(v => v->Array_0@[i]),
{
    let items = v->Array_0;
    assert(decreases_to!(v => items));
    assert(decreases_to!(items => items@));
    assert(decreases_to!(items@ => items@[i]));
}

proof fn lemma_member_decreases(v: JsonValue, i: int)
    requires
        v is Object,
        0 <= i < v->Object_0@.len(),
    ensures
        decreases_to!(v => v->Object_0@[i].1),
{
    let members = v->Object_0;
    assert(decreases_to!(v => members));
    assert(decreases_to!(members => members@));
    assert(decreases_to!(members@ => members@[i]));
    assert(decreases_to!(members@[i] => members@[i].1));
}

proof fn lemma_strings_in_items_push(items: Seq<JsonValue>, x: JsonValue)
    ensures
        strings_in_items(items.push(x)) == strings_in_items(items) + strings_in(x),
    decreases items.len(),
{
    if items.len() == 0 {
        assert(items.push(x).drop_first() =~= Seq::<JsonValue>::empty());
        assert(strings_in_items(items.push(x)) == strings_in(x) + strings_in_items(Seq::<JsonValue>::empty()));
        assert(strings_in_items(Seq::<JsonValue>::empty()) == Seq::<Seq<char>>::empty());
        assert(strings_in_items(items) == Seq::<Seq<char>>::empty());
        assert(strings_in(x) + Seq::<Seq<char>>::empty() =~= strings_in(x));
        assert(Seq::<Seq<char>>::empty() + strings_in(x) =~= strings_in(x));
    } else {
        lemma_strings_in_items_push(items.drop_first(), x);
        assert(items.push(x).drop_first() =~= items.drop_first().push(x));
        assert(items.push(x)[0] == items[0]);
        assert(strings_in(items[0]) + (strings_in_items(items.drop_first()) + strings_in(x))
            =~= (strings_in(items[0]) + strings_in_items(items.drop_first())) + strings_in(x));
    }
}

proof fn lemma_strings_in_members_push(members: Seq<(String, JsonValue)>, x: (String, JsonValue))
    ensures
        strings_in_members(members.push(x)) == strings_in_members(members) + strings_in(x.1),
    decreases members.len(),
{
    if members.len() == 0 {
        assert(members.push(x).drop_first() =~= Seq::<(String, JsonValue)>::empty());
        assert(strings_in_members(members.push(x)) == strings_in(x.1) + strings_in_members(Seq::<(String, JsonValue)>::empty()));
        assert(strings_in_members(members) == Seq::<Seq<char>>::empty());
        assert(strings_in(x.1) + Seq::<Seq<char>>::empty() =~= strings_in(x.1));
        assert(Seq::<Seq<char>>::empty() + strings_in(x.1) =~= strings_in(x.1));
    } else {
        lemma_strings_in_members_push(members.drop_first(), x);
        assert(members.push(x).drop_first() =~= members.drop_first().push(x));
        assert(members.push(x)[0] == members[0]);
        assert(strings_in(members[0].1) + (strings_in_members(members.drop_first()) + strings_in(
            x.1,
        )) =~= (strings_in(members[0].1) + strings_in_members(members.drop_first())) + strings_in(
            x.1,
        ));
    }
}

} // verus!
