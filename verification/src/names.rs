//! Lists of values with names, no two of which are the same.

use vstd::prelude::*;

verus! {

/// Whether no name occurs twice.
pub open spec fn distinct<V>(entries: Seq<(String, V)>) -> bool {
    forall|i: int, j: int|
        0 <= i < j < entries.len() ==> (#[trigger] entries[i]).0@ != (#[trigger] entries[j]).0@
}

/// Whether the value at `i` is under the given name.
pub open spec fn is_at<V>(entries: Seq<(String, V)>, name: Seq<char>, i: int) -> bool {
    0 <= i < entries.len() && entries[i].0@ == name
}

/// The values of a list by their names.
pub open spec fn by_name<V>(entries: Seq<(String, V)>) -> Map<Seq<char>, V> {
    Map::new(
        |name: Seq<char>| exists|i: int| is_at(entries, name, i),
        |name: Seq<char>| entries[choose|i: int| is_at(entries, name, i)].1,
    )
}

/// The value at each place is the one under its name.
pub proof fn lemma_at<V>(entries: Seq<(String, V)>, i: int)
    requires
        distinct(entries),
        0 <= i < entries.len(),
    ensures
        by_name(entries).contains_key(entries[i].0@),
        by_name(entries)[entries[i].0@] == entries[i].1,
{
    let name = entries[i].0@;
    assert(is_at(entries, name, i));
    let k = choose|k: int| is_at(entries, name, k);
    assert(is_at(entries, name, k));
    assert(k == i);
}

proof fn lemma_pushed<V>(entries: Seq<(String, V)>, name: String, v: V)
    requires
        distinct(entries),
        !by_name(entries).contains_key(name@),
    ensures
        distinct(entries.push((name, v))),
        by_name(entries.push((name, v))) == by_name(entries).insert(name@, v),
{
    let more = entries.push((name, v));
    assert forall|i: int, j: int| 0 <= i < j < more.len() implies (#[trigger] more[i]).0@ != (
    #[trigger] more[j]).0@ by {
        if j == entries.len() && more[i].0@ == name@ {
            assert(is_at(entries, name@, i));
        }
    }
    assert forall|n: Seq<char>|
        by_name(more).contains_key(n) == by_name(entries).insert(name@, v).contains_key(n) by {
        if by_name(more).contains_key(n) {
            let i = choose|i: int| is_at(more, n, i);
            assert(i < entries.len() ==> is_at(entries, n, i));
        }
        if by_name(entries).contains_key(n) {
            let i = choose|i: int| is_at(entries, n, i);
            assert(is_at(more, n, i));
        }
        assert(is_at(more, name@, entries.len() as int));
    }
    assert forall|n: Seq<char>| by_name(more).contains_key(n) implies by_name(more)[n] == by_name(
        entries,
    ).insert(name@, v)[n] by {
        let i = choose|i: int| is_at(more, n, i);
        lemma_at(more, i);
        if i < entries.len() {
            lemma_at(entries, i);
        }
    }
    assert(by_name(more) =~= by_name(entries).insert(name@, v));
}

proof fn lemma_replaced<V>(entries: Seq<(String, V)>, at: int, name: String, v: V)
    requires
        distinct(entries),
        is_at(entries, name@, at),
    ensures
        distinct(entries.update(at, (name, v))),
        by_name(entries.update(at, (name, v))) == by_name(entries).insert(name@, v),
{
    let other = entries.update(at, (name, v));
    assert(forall|i: int|
        0 <= i < other.len() ==> (#[trigger] other[i]).0@ == entries[i].0@);
    assert(distinct(other));
    assert forall|n: Seq<char>|
        by_name(other).contains_key(n) == by_name(entries).insert(name@, v).contains_key(n) by {
        if by_name(other).contains_key(n) {
            let i = choose|i: int| is_at(other, n, i);
            assert(is_at(entries, n, i));
        }
        if by_name(entries).contains_key(n) {
            let i = choose|i: int| is_at(entries, n, i);
            assert(is_at(other, n, i));
        }
        assert(is_at(other, name@, at));
    }
    assert forall|n: Seq<char>| by_name(other).contains_key(n) implies by_name(other)[n] == by_name(
        entries,
    ).insert(name@, v)[n] by {
        let i = choose|i: int| is_at(other, n, i);
        lemma_at(other, i);
        lemma_at(entries, i);
        lemma_at(entries, at);
    }
    assert(by_name(other) =~= by_name(entries).insert(name@, v));
}

proof fn lemma_absent<V>(entries: Seq<(String, V)>, name: Seq<char>)
    requires
        forall|k: int| 0 <= k < entries.len() ==> (#[trigger] entries[k]).0@ != name,
    ensures
        !by_name(entries).contains_key(name),
{
    if by_name(entries).contains_key(name) {
        let i = choose|i: int| is_at(entries, name, i);
        assert(entries[i].0@ == name);
    }
}

/// Where a name stands, if anywhere.
fn position<V>(entries: &Vec<(String, V)>, name: &String) -> (r: Option<usize>)
    ensures
        match r {
            Some(i) => is_at(entries@, name@, i as int),
            None => !by_name(entries@).contains_key(name@),
        },
{
    let mut i: usize = 0;
    while i < entries.len()
        invariant
            i <= entries@.len(),
            forall|k: int| 0 <= k < i ==> (#[trigger] entries@[k]).0@ != name@,
        decreases entries@.len() - i,
    {
        if entries[i].0 == *name {
            return Some(i);
        }
        i = i + 1;
    }
    proof {
        lemma_absent(entries@, name@);
    }
    None
}

/// Puts a value under a name, in place of what was there.
pub fn insert<V>(entries: &mut Vec<(String, V)>, name: String, v: V)
    requires
        distinct(old(entries)@),
    ensures
        distinct(final(entries)@),
        by_name(final(entries)@) == by_name(old(entries)@).insert(name@, v),
{
    match position(entries, &name) {
        Some(i) => {
            proof {
                lemma_replaced(entries@, i as int, name, v);
            }
            entries.set(i, (name, v));
        },
        None => {
            proof {
                lemma_pushed(entries@, name, v);
            }
            entries.push((name, v));
        },
    }
}

/// What is under a name.
pub fn find<'a, V>(entries: &'a Vec<(String, V)>, name: &str) -> (r: Option<&'a V>)
    requires
        distinct(entries@),
    ensures
        match r {
            Some(v) => by_name(entries@).contains_key(name@) && by_name(entries@)[name@] == *v,
            None => !by_name(entries@).contains_key(name@),
        },
{
    match position(entries, &name.to_owned()) {
        Some(i) => {
            proof {
                lemma_at(entries@, i as int);
            }
            Some(&entries[i].1)
        },
        None => None,
    }
}

/// In a list without a name twice, each value is under its own name, and under no other name is
/// anything.
pub proof fn law_by_name<V>(entries: Seq<(String, V)>, name: Seq<char>)
    requires
        distinct(entries),
    ensures
        forall|i: int, j: int|
            0 <= i < j < entries.len() ==> (#[trigger] entries[i]).0@ != (#[trigger]
            entries[j]).0@,
        forall|i: int|
            0 <= i < entries.len() && (#[trigger] entries[i]).0@ == name ==> by_name(
                entries,
            ).contains_key(name) && by_name(entries)[name] == entries[i].1,
        (forall|i: int| 0 <= i < entries.len() ==> (#[trigger] entries[i]).0@ != name)
            ==> !by_name(entries).contains_key(name),
{
    assert forall|i: int|
        0 <= i < entries.len() && (#[trigger] entries[i]).0@ == name implies by_name(
        entries,
    ).contains_key(name) && by_name(entries)[name] == entries[i].1 by {
        lemma_at(entries, i);
    }
    if forall|i: int| 0 <= i < entries.len() ==> (#[trigger] entries[i]).0@ != name {
        lemma_absent(entries, name);
    }
}

/// Nothing but that no name stands twice is asked of a list.
pub proof fn law_distinct<V>(entries: Seq<(String, V)>)
    requires
        forall|i: int, j: int|
            0 <= i < j < entries.len() ==> (#[trigger] entries[i]).0@ != (#[trigger]
            entries[j]).0@,
    ensures
        distinct(entries),
{
}

} // verus!
