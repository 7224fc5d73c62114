//! Reading the members of a JSON object held as text.

use vstd::prelude::*;

verus! {

/// The members of the JSON object that `text` spells: each member's name
/// mapped to its value as compact JSON text. `None` where `text` is not
/// valid JSON or spells something other than an object.
pub uninterp spec fn object_members(text: Seq<char>) -> Option<Map<Seq<char>, Seq<char>>>;

/// Whether `entries` lists exactly the pairs of `members`, each name once.
pub open spec fn lists_members(
    entries: Seq<(String, String)>,
    members: Map<Seq<char>, Seq<char>>,
) -> bool {
    &&& forall|i: int, j: int|
        0 <= i < j < entries.len() ==> (#[trigger] entries[i]).0@ != (#[trigger] entries[j]).0@
    &&& forall|i: int|
        0 <= i < entries.len() ==> members.contains_pair(
            (#[trigger] entries[i]).0@,
            entries[i].1@,
        )
    &&& forall|k: Seq<char>|
        members.contains_key(k) ==> exists|i: int|
            0 <= i < entries.len() && (#[trigger] entries[i]).0@ == k
}

/// Parses `text` and lists the members of the object it spells; `None`
/// where it spells no object.
///
/// Trusted: calls `serde_json::from_str` for a `serde_json::Value` and, on an
/// object, renders each member's value with the value's `to_string`. A
/// `serde_json` object holds each name once (a repeated name keeps its last
/// value), so the names listed are distinct; the order is the one in which
/// the object is walked and is not stated. Parsing is depth-limited and does
/// not panic.
#[verifier::external_body]
pub(crate) fn parse_object_members(text: &str) -> (r: Option<Vec<(String, String)>>)
    ensures
        match r {
            Some(entries) => object_members(text@) matches Some(members) && lists_members(
                entries@,
                members,
            ),
            None => object_members(text@).is_none(),
        },
{
    match serde_json::from_str::<serde_json::Value>(text) {
        Ok(serde_json::Value::Object(map)) => Some(
            map.into_iter().map(|(name, value)| (name, value.to_string())).collect(),
        ),
        _ => None,
    }
}

/// The mapping that the first `n` of `entries` build up when stored one
/// after another, a later entry replacing an earlier one of the same name.
pub open spec fn entries_mapping(entries: Seq<(String, String)>, n: int) -> Map<
    Seq<char>,
    Seq<char>,
>
    decreases n,
{
    if n <= 0 {
        Map::empty()
    } else {
        entries_mapping(entries, n - 1).insert(entries[n - 1].0@, entries[n - 1].1@)
    }
}

/// The first `n` entries build a mapping whose names are theirs, and under a
/// name the value of the last entry that bears it.
pub proof fn lemma_entries_mapping(entries: Seq<(String, String)>, n: int)
    requires
        0 <= n <= entries.len(),
    ensures
        forall|k: Seq<char>|
            entries_mapping(entries, n).contains_key(k) <==> exists|i: int|
                0 <= i < n && (#[trigger] entries[i]).0@ == k,
        forall|i: int|
            0 <= i < n && (forall|j: int| i < j < n ==> (#[trigger] entries[j]).0@ != entries[i].0@)
                ==> entries_mapping(entries, n).contains_pair(
                (#[trigger] entries[i]).0@,
                entries[i].1@,
            ),
    decreases n,
{
    if n > 0 {
        lemma_entries_mapping(entries, n - 1);
        let prev = entries_mapping(entries, n - 1);
        let cur = entries_mapping(entries, n);
        assert forall|k: Seq<char>| cur.contains_key(k) <==> exists|i: int|
            0 <= i < n && (#[trigger] entries[i]).0@ == k by {
            if cur.contains_key(k) {
                if k == entries[n - 1].0@ {
                    assert(0 <= n - 1 < n && entries[n - 1].0@ == k);
                } else {
                    assert(prev.contains_key(k));
                    let i = choose|i: int| 0 <= i < n - 1 && (#[trigger] entries[i]).0@ == k;
                    assert(0 <= i < n && entries[i].0@ == k);
                }
            }
            if exists|i: int| 0 <= i < n && (#[trigger] entries[i]).0@ == k {
                let i = choose|i: int| 0 <= i < n && (#[trigger] entries[i]).0@ == k;
                if i < n - 1 {
                    assert(0 <= i < n - 1 && entries[i].0@ == k);
                }
            }
        }
        assert forall|i: int|
            0 <= i < n && (forall|j: int|
                i < j < n ==> (#[trigger] entries[j]).0@ != entries[i].0@) implies cur.contains_pair(
            (#[trigger] entries[i]).0@,
            entries[i].1@,
        ) by {
            if i < n - 1 {
                assert(entries[n - 1].0@ != entries[i].0@);
                assert forall|j: int| i < j < n - 1 implies (#[trigger] entries[j]).0@
                    != entries[i].0@ by {}
                assert(prev.contains_pair(entries[i].0@, entries[i].1@));
            }
        }
    }
}

/// A list of exactly the pairs of `members`, each name once, builds
/// `members`.
pub proof fn lemma_listed_members(entries: Seq<(String, String)>, members: Map<Seq<char>, Seq<char>>)
    requires
        lists_members(entries, members),
    ensures
        entries_mapping(entries, entries.len() as int) == members,
{
    let n = entries.len() as int;
    let built = entries_mapping(entries, n);
    lemma_entries_mapping(entries, n);
    assert forall|k: Seq<char>| built.contains_key(k) <==> members.contains_key(k) by {
        if built.contains_key(k) {
            let i = choose|i: int| 0 <= i < n && (#[trigger] entries[i]).0@ == k;
            assert(members.contains_pair(entries[i].0@, entries[i].1@));
        }
        if members.contains_key(k) {
            let i = choose|i: int| 0 <= i < entries.len() && (#[trigger] entries[i]).0@ == k;
            assert(0 <= i < n && entries[i].0@ == k);
        }
    }
    assert forall|k: Seq<char>| built.contains_key(k) implies built[k] == members[k] by {
        let i = choose|i: int| 0 <= i < n && (#[trigger] entries[i]).0@ == k;
        assert forall|j: int| i < j < n implies (#[trigger] entries[j]).0@ != entries[i].0@ by {}
        assert(built.contains_pair(entries[i].0@, entries[i].1@));
        assert(members.contains_pair(entries[i].0@, entries[i].1@));
    }
    assert(built =~= members);
}

} // verus!
