//! What the operations of a store do to the sequence of records, apart from
//! how the sequence is kept.
//!
//! A vault is a sequence of entries in the order in which they were added.
//! Among the entries of one kind a name is meant to occur once: `insert`
//! keeps it so, and `remove_named` cannot break it.
use crate::domain::{lemma_deep_view_push, Entry, Record};
use vstd::prelude::*;

verus! {

/// Some entry of the vault has the kind and the name of `e`.
pub open spec fn taken(v: Seq<Entry>, e: Entry) -> bool {
    exists|i: int| 0 <= i < v.len() && (#[trigger] v[i]).collides_with(e)
}

/// Some entry of the vault, of either kind, has the name.
pub open spec fn has_name(v: Seq<Entry>, name: Seq<char>) -> bool {
    exists|i: int| 0 <= i < v.len() && (#[trigger] v[i]).name() == name
}

/// No two entries of one kind share a name.
pub open spec fn unique(v: Seq<Entry>) -> bool {
    forall|i: int, j: int|
        0 <= i < j < v.len() ==> !(#[trigger] v[i]).collides_with(#[trigger] v[j])
}

/// The vault after an attempt to add `e`: `e` comes last, unless its slot is
/// taken.
pub open spec fn inserted(v: Seq<Entry>, e: Entry) -> Seq<Entry> {
    if taken(v, e) {
        v
    } else {
        v.push(e)
    }
}

/// The entry is of the kind asked for and has the name asked for.
pub open spec fn answers(e: Entry, credentials: bool, name: Seq<char>) -> bool {
    (e is Credentials) == credentials && e.name() == name
}

/// The last entry of the kind with the name, if there is one.
pub open spec fn found(v: Seq<Entry>, credentials: bool, name: Seq<char>) -> Option<Entry>
    decreases v.len(),
{
    if v.len() == 0 {
        None
    } else if answers(v.last(), credentials, name) {
        Some(v.last())
    } else {
        found(v.drop_last(), credentials, name)
    }
}

/// The test that keeps the entries whose name is not `name`.
pub open spec fn named_otherwise(name: Seq<char>) -> spec_fn(Entry) -> bool {
    |e: Entry| e.name() != name
}

/// The test that keeps the entries of one kind.
pub open spec fn of_kind(credentials: bool) -> spec_fn(Entry) -> bool {
    |e: Entry| (e is Credentials) == credentials
}

/// The vault without the entries, of either kind, that have the name. The
/// others stay in their order.
pub open spec fn without(v: Seq<Entry>, name: Seq<char>) -> Seq<Entry> {
    v.filter(named_otherwise(name))
}

/// The names of the entries of one kind, in the order of the vault.
pub open spec fn names(v: Seq<Entry>, credentials: bool) -> Seq<Seq<char>> {
    v.filter(of_kind(credentials)).map_values(|e: Entry| e.name())
}

/// Whether the slot of `entry` is taken.
pub fn is_taken(entries: &Vec<Record>, entry: &Record) -> (yes: bool)
    ensures
        yes == taken(entries.deep_view(), entry@),
{
    let mut i: usize = 0;
    while i < entries.len()
        invariant
            i <= entries.len(),
            forall|j: int|
                0 <= j < i ==> !(#[trigger] entries.deep_view()[j]).collides_with(entry@),
        decreases entries.len() - i,
    {
        if entries[i].is_same_case(entry) && entries[i].get_name() == entry.get_name() {
            assert(entries.deep_view()[i as int].collides_with(entry@));
            return true;
        }
        i += 1;
    }
    false
}

/// Adds `entry` at the end unless its slot is taken, and says whether it
/// was added.
pub fn insert(entries: &mut Vec<Record>, entry: Record) -> (added: bool)
    ensures
        added == !taken(old(entries).deep_view(), entry@),
        final(entries).deep_view() == inserted(old(entries).deep_view(), entry@),
{
    if is_taken(entries, &entry) {
        false
    } else {
        let ghost before = *entries;
        entries.push(entry);
        proof {
            lemma_deep_view_push(before, *entries, entry);
        }
        true
    }
}

/// The last record of the kind with the name.
pub fn find(entries: &Vec<Record>, credentials: bool, name: &String) -> (hit: Option<Record>)
    ensures
        hit.deep_view() == found(entries.deep_view(), credentials, name@),
{
    let ghost v = entries.deep_view();
    let mut i: usize = entries.len();
    proof {
        assert(v.take(i as int) =~= v);
    }
    while i > 0
        invariant
            i <= entries.len(),
            v == entries.deep_view(),
            found(v, credentials, name@) == found(v.take(i as int), credentials, name@),
        decreases i,
    {
        i -= 1;
        proof {
            assert(v.take(i + 1).drop_last() =~= v.take(i as int));
        }
        let record = &entries[i];
        if record.is_credentials() == credentials && record.get_name() == *name {
            return Some(record.clone());
        }
    }
    proof {
        assert(v.take(0) =~= Seq::<Entry>::empty());
    }
    None
}

/// Takes out every record, of either kind, that has the name, and says
/// whether there was one.
pub fn remove_named(entries: &mut Vec<Record>, name: &String) -> (removed: bool)
    ensures
        removed == has_name(old(entries).deep_view(), name@),
        final(entries).deep_view() == without(old(entries).deep_view(), name@),
{
    let ghost v = entries.deep_view();
    let mut kept: Vec<Record> = Vec::new();
    let mut removed = false;
    let mut i: usize = 0;
    proof {
        assert(v.take(0) =~= Seq::<Entry>::empty());
        assert(kept.deep_view() =~= Seq::<Entry>::empty());
        reveal_with_fuel(Seq::filter, 1);
    }
    while i < entries.len()
        invariant
            i <= entries.len(),
            v == entries.deep_view(),
            kept.deep_view() == without(v.take(i as int), name@),
            removed == has_name(v.take(i as int), name@),
        decreases entries.len() - i,
    {
        let ghost kept_before = kept;
        let ghost seen = v.take(i as int);
        proof {
            assert(v.take(i + 1) =~= seen.push(v[i as int]));
            seen.lemma_filter_push(v[i as int], named_otherwise(name@));
        }
        if entries[i].get_name() == *name {
            removed = true;
            assert(v.take(i + 1)[i as int].name() == name@);
        } else {
            let record = entries[i].clone();
            kept.push(record);
            proof {
                lemma_deep_view_push(kept_before, kept, record);
                if has_name(v.take(i + 1), name@) {
                    let k = choose|k: int|
                        0 <= k < v.take(i + 1).len() && (#[trigger] v.take(i + 1)[k]).name()
                            == name@;
                    assert(seen[k].name() == name@);
                }
            }
        }
        proof {
            if has_name(seen, name@) {
                let k = choose|k: int| 0 <= k < seen.len() && (#[trigger] seen[k]).name() == name@;
                assert(v.take(i + 1)[k].name() == name@);
            }
        }
        i += 1;
    }
    proof {
        assert(v.take(i as int) =~= v);
    }
    *entries = kept;
    removed
}

/// The names of the records of one kind, in the order of the vault.
pub fn list_names(entries: &Vec<Record>, credentials: bool) -> (list: Vec<String>)
    ensures
        list.deep_view() == names(entries.deep_view(), credentials),
{
    let ghost v = entries.deep_view();
    let mut list: Vec<String> = Vec::new();
    let mut i: usize = 0;
    proof {
        assert(v.take(0) =~= Seq::<Entry>::empty());
        reveal_with_fuel(Seq::filter, 1);
        assert(list.deep_view() =~= names(v.take(0), credentials));
    }
    while i < entries.len()
        invariant
            i <= entries.len(),
            v == entries.deep_view(),
            list.deep_view() == names(v.take(i as int), credentials),
        decreases entries.len() - i,
    {
        let ghost seen = v.take(i as int);
        proof {
            assert(v.take(i + 1) =~= seen.push(v[i as int]));
            seen.lemma_filter_push(v[i as int], of_kind(credentials));
        }
        if entries[i].is_credentials() == credentials {
            list.push(entries[i].get_name());
            assert(list.deep_view() =~= names(seen, credentials).push(v[i as int].name()));
            assert(names(v.take(i + 1), credentials) =~= names(seen, credentials).push(
                v[i as int].name(),
            ));
        }
        i += 1;
    }
    proof {
        assert(v.take(i as int) =~= v);
    }
    list
}

/// An entry that was added is found under its kind and name, and it is the
/// entry that was added.
pub proof fn lemma_added_is_found(v: Seq<Entry>, e: Entry)
    requires
        !taken(v, e),
    ensures
        found(inserted(v, e), e is Credentials, e.name()) == Some(e),
{
    assert(v.push(e).last() == e);
}

/// An entry whose slot is taken changes nothing, and what was found under
/// its kind and name before is still found.
pub proof fn lemma_taken_changes_nothing(v: Seq<Entry>, e: Entry)
    requires
        taken(v, e),
    ensures
        inserted(v, e) == v,
        found(inserted(v, e), e is Credentials, e.name()) == found(v, e is Credentials, e.name()),
        found(v, e is Credentials, e.name()) is Some,
{
    let i = choose|i: int| 0 <= i < v.len() && (#[trigger] v[i]).collides_with(e);
    lemma_found_exists(v, e is Credentials, e.name(), i);
}

/// Where some entry answers, one is found, and what is found answers.
pub proof fn lemma_found_exists(v: Seq<Entry>, credentials: bool, name: Seq<char>, i: int)
    requires
        0 <= i < v.len(),
        answers(v[i], credentials, name),
    ensures
        found(v, credentials, name) matches Some(e) && answers(e, credentials, name),
    decreases v.len(),
{
    if !answers(v.last(), credentials, name) {
        lemma_found_exists(v.drop_last(), credentials, name, i);
    }
}

/// What is found is an entry of the vault that answers, and no later entry
/// answers. Nothing is found only where no entry answers.
pub proof fn lemma_found_is_last(v: Seq<Entry>, credentials: bool, name: Seq<char>)
    ensures
        match found(v, credentials, name) {
            Some(e) => exists|i: int|
                0 <= i < v.len() && v[i] == e && answers(e, credentials, name) && forall|j: int|
                    i < j < v.len() ==> !answers(#[trigger] v[j], credentials, name),
            None => forall|j: int|
                0 <= j < v.len() ==> !answers(#[trigger] v[j], credentials, name),
        },
    decreases v.len(),
{
    if v.len() > 0 {
        if answers(v.last(), credentials, name) {
            assert(v[v.len() - 1] == v.last());
        } else {
            let front = v.drop_last();
            lemma_found_is_last(front, credentials, name);
            if let Some(e) = found(front, credentials, name) {
                let i = choose|i: int|
                    0 <= i < front.len() && front[i] == e && answers(e, credentials, name)
                        && forall|j: int|
                        i < j < front.len() ==> !answers(#[trigger] front[j], credentials, name);
                assert(v[i] == e);
                assert forall|j: int| i < j < v.len() implies !answers(
                    #[trigger] v[j],
                    credentials,
                    name,
                ) by {
                    if j < front.len() {
                        assert(front[j] == v[j]);
                    }
                }
            } else {
                assert forall|j: int| 0 <= j < v.len() implies !answers(
                    #[trigger] v[j],
                    credentials,
                    name,
                ) by {
                    if j < front.len() {
                        assert(front[j] == v[j]);
                    }
                }
            }
        }
    }
}

/// Adding keeps names unique within a kind.
pub proof fn lemma_inserted_stays_unique(v: Seq<Entry>, e: Entry)
    requires
        unique(v),
    ensures
        unique(inserted(v, e)),
{
}

/// An entry of one kind never takes the slot of an entry of the other kind,
/// whatever their names.
pub proof fn lemma_kinds_do_not_collide(v: Seq<Entry>, a: Entry, b: Entry)
    requires
        !a.same_kind(b),
    ensures
        taken(v.push(a), b) == taken(v, b),
        !taken(Seq::<Entry>::empty().push(a), b),
{
    let w = v.push(a);
    if taken(v, b) {
        let i = choose|i: int| 0 <= i < v.len() && (#[trigger] v[i]).collides_with(b);
        assert(w[i].collides_with(b));
    }
    if taken(w, b) {
        let i = choose|i: int| 0 <= i < w.len() && (#[trigger] w[i]).collides_with(b);
        assert(v[i].collides_with(b));
    }
}

/// After removing a name, no entry has it and nothing is found under it.
pub proof fn lemma_removed_is_gone(v: Seq<Entry>, name: Seq<char>, credentials: bool)
    ensures
        !has_name(without(v, name), name),
        found(without(v, name), credentials, name) is None,
{
    let w = without(v, name);
    assert forall|k: int| 0 <= k < w.len() implies (#[trigger] w[k]).name() != name by {
        v.lemma_filter_pred(named_otherwise(name), k);
    }
    lemma_found_is_last(w, credentials, name);
}

/// Removing a name leaves what is found under every other name as it was.
pub proof fn lemma_others_survive(
    v: Seq<Entry>,
    name: Seq<char>,
    credentials: bool,
    other: Seq<char>,
)
    requires
        other != name,
    ensures
        found(without(v, name), credentials, other) == found(v, credentials, other),
    decreases v.len(),
{
    reveal(Seq::filter);
    if v.len() > 0 {
        let front = v.drop_last();
        lemma_others_survive(front, name, credentials, other);
        if v.last().name() != name {
            assert(without(v, name) == without(front, name).push(v.last()));
            assert(without(v, name).drop_last() =~= without(front, name));
        }
    }
}

/// Removing a name that no entry has changes nothing.
pub proof fn lemma_without_absent(v: Seq<Entry>, name: Seq<char>)
    requires
        !has_name(v, name),
    ensures
        without(v, name) == v,
    decreases v.len(),
{
    reveal(Seq::filter);
    if v.len() > 0 {
        let front = v.drop_last();
        if has_name(front, name) {
            let k = choose|k: int| 0 <= k < front.len() && (#[trigger] front[k]).name() == name;
            assert(v[k].name() == name);
        }
        lemma_without_absent(front, name);
        assert(v.last() == v[v.len() - 1]);
        assert(front.push(v.last()) =~= v);
    }
}

/// Removing a name that some entry has makes the vault shorter.
pub proof fn lemma_without_present(v: Seq<Entry>, name: Seq<char>)
    requires
        has_name(v, name),
    ensures
        without(v, name).len() < v.len(),
    decreases v.len(),
{
    reveal(Seq::filter);
    let front = v.drop_last();
    front.lemma_filter_len(named_otherwise(name));
    if v.last().name() != name {
        let k = choose|k: int| 0 <= k < v.len() && (#[trigger] v[k]).name() == name;
        assert(front[k].name() == name);
        lemma_without_present(front, name);
    }
}

/// Removing keeps names unique within a kind.
pub proof fn lemma_without_stays_unique(v: Seq<Entry>, name: Seq<char>)
    requires
        unique(v),
    ensures
        unique(without(v, name)),
    decreases v.len(),
{
    reveal(Seq::filter);
    if v.len() > 0 {
        let front = v.drop_last();
        assert forall|i: int, j: int| 0 <= i < j < front.len() implies !(
        #[trigger] front[i]).collides_with(#[trigger] front[j]) by {
            assert(!v[i].collides_with(v[j]));
        }
        lemma_without_stays_unique(front, name);
        let w = without(v, name);
        let wf = without(front, name);
        if named_otherwise(name)(v.last()) {
            assert forall|i: int, j: int| 0 <= i < j < w.len() implies !(
            #[trigger] w[i]).collides_with(#[trigger] w[j]) by {
                if j == w.len() - 1 {
                    front.lemma_filter_contains_rev(named_otherwise(name), wf[i]);
                    let k = choose|k: int| 0 <= k < front.len() && front[k] == wf[i];
                    assert(!v[k].collides_with(v[v.len() - 1]));
                } else {
                    assert(!wf[i].collides_with(wf[j]));
                }
            }
        }
    }
}

/// The listing of a kind follows the order in which entries were added: a
/// new entry comes last in the listing of its own kind and leaves the other
/// listing as it was.
pub proof fn lemma_names_follow_insertion(v: Seq<Entry>, e: Entry, credentials: bool)
    ensures
        names(v.push(e), credentials) == if (e is Credentials) == credentials {
            names(v, credentials).push(e.name())
        } else {
            names(v, credentials)
        },
{
    v.lemma_filter_push(e, of_kind(credentials));
    if (e is Credentials) == credentials {
        assert(names(v.push(e), credentials) =~= names(v, credentials).push(e.name()));
    }
}

} // verus!
