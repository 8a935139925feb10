use vstd::prelude::*;

use crate::action::{action_views, ZfsAction, ZfsActionView};
use crate::producer::VecActionProducer;
use crate::strmap::{
    extend_pairs, has_key, insert_pair, key_index, lemma_has_key_view, lemma_insert_absent, lemma_key_index, lemma_unique_prefix,
    lemma_view_pairs, lemma_view_push, lemma_view_take, lookup, unique_keys, view_pairs, StrMap,
};
use crate::value::{PropertyValue, PropertyValueView};

verus! {

/// Association list of property names and values.
pub type PropertyList = Seq<(Seq<char>, PropertyValueView)>;

/// The datasets that the actions create, each with the properties of its
/// first creation, in the order of those first creations.
pub open spec fn first_creates(actions: Seq<ZfsActionView>) -> Seq<(Seq<char>, PropertyList)>
    decreases actions.len(),
{
    if actions.len() == 0 {
        Seq::empty()
    } else {
        let known = first_creates(actions.drop_last());
        match actions.last() {
            ZfsActionView::CreateDataset { name, properties } => if has_key(known, name) {
                known
            } else {
                known.push((name, properties))
            },
            _ => known,
        }
    }
}

/// The entries of `props` that `existing` does not hold with the same value.
pub open spec fn changed_properties(existing: PropertyList, props: PropertyList) -> PropertyList
    decreases props.len(),
{
    if props.len() == 0 {
        Seq::empty()
    } else {
        let prev = changed_properties(existing, props.drop_last());
        if lookup(existing, props.last().0) == Some(props.last().1) {
            prev
        } else {
            prev.push(props.last())
        }
    }
}

/// One `SetProperties` on `dataset` per entry of `props`.
pub open spec fn one_by_one(dataset: Seq<char>, props: PropertyList) -> Seq<ZfsActionView> {
    props.map_values(|p: (Seq<char>, PropertyValueView)| ZfsActionView::SetProperties { dataset, properties: seq![p] })
}

/// What a repeated creation turns into, given the first creations seen before it.
pub open spec fn merge_step(known: Seq<(Seq<char>, PropertyList)>, a: ZfsActionView) -> Seq<ZfsActionView> {
    match a {
        ZfsActionView::CreateDataset { name, properties } => if has_key(known, name) {
            one_by_one(name, changed_properties(lookup(known, name).unwrap(), properties))
        } else {
            seq![a]
        },
        _ => seq![a],
    }
}

/// The actions with every creation of an already created dataset replaced
/// by the settings of the properties it would change.
pub open spec fn merge_creates(actions: Seq<ZfsActionView>) -> Seq<ZfsActionView>
    decreases actions.len(),
{
    if actions.len() == 0 {
        Seq::empty()
    } else {
        merge_creates(actions.drop_last()) + merge_step(first_creates(actions.drop_last()), actions.last())
    }
}

proof fn lemma_changed_keys(existing: PropertyList, props: PropertyList, k: Seq<char>)
    ensures
        has_key(changed_properties(existing, props), k) ==> has_key(props, k),
    decreases props.len(),
{
    if props.len() > 0 {
        lemma_changed_keys(existing, props.drop_last(), k);
        let prev = changed_properties(existing, props.drop_last());
        let cur = changed_properties(existing, props);
        if has_key(cur, k) {
            let j = choose|j: int| 0 <= j < cur.len() && #[trigger] cur[j].0 == k;
            if j < prev.len() {
                assert(prev[j].0 == k);
                let m = choose|m: int| 0 <= m < props.drop_last().len() && #[trigger] props.drop_last()[m].0 == k;
                assert(props[m].0 == k);
            } else {
                assert(props[props.len() - 1].0 == k);
            }
        }
    }
}

/// The entries of `props` whose value `existing` does not already hold.
fn changed_entries(existing: &StrMap<PropertyValue>, props: &StrMap<PropertyValue>) -> (r: StrMap<PropertyValue>)
    ensures
        r@ == changed_properties(existing@, props@),
{
    let ghost raw = props.pairs();
    let ghost ps = props@;
    let n = props.len();
    let mut edited: StrMap<PropertyValue> = StrMap::new();
    let mut j: usize = 0;
    assert(ps.take(0) =~= PropertyList::empty());
    assert(edited@ =~= PropertyList::empty());
    while j < n
        invariant
            n == raw.len(),
            j <= n,
            raw == props.pairs(),
            ps == view_pairs(raw),
            unique_keys(raw),
            edited@ == changed_properties(existing@, ps.take(j as int)),
        decreases n - j,
    {
        let key = props.key_at(j);
        let value = props.value_at(j);
        let ghost before = edited.pairs();
        proof {
            lemma_view_take(raw, j as int);
            lemma_view_take(raw, j + 1);
            lemma_unique_prefix(raw, j as int);
            assert(ps[j as int] == (key@, value@));
            assert(ps.take(j + 1).drop_last() =~= ps.take(j as int));
            assert(ps.take(j + 1).last() == ps[j as int]);
            lemma_has_key_view(raw.take(j as int), key@);
            lemma_changed_keys(existing@, ps.take(j as int), key@);
            lemma_has_key_view(before, key@);
            lemma_view_pairs(existing.pairs(), key@);
        }
        let same = match existing.get(key.as_str()) {
            Some(current) => *current == *value,
            None => false,
        };
        if !same {
            let v = value.clone();
            proof {
                lemma_insert_absent(before, key@, v);
                lemma_view_push(before, key@, v);
            }
            edited.insert(key.clone(), v);
        }
        j = j + 1;
    }
    assert(ps.take(n as int) =~= ps);
    edited
}

/// A map with the single entry `key`, `value`.
fn single_entry(key: String, value: PropertyValue) -> (r: StrMap<PropertyValue>)
    ensures
        r@ == seq![(key@, value@)],
{
    let mut m: StrMap<PropertyValue> = StrMap::new();
    proof {
        lemma_insert_absent(Seq::<(Seq<char>, PropertyValue)>::empty(), key@, value);
        lemma_view_push(Seq::<(Seq<char>, PropertyValue)>::empty(), key@, value);
    }
    m.insert(key, value);
    assert(view_pairs(Seq::<(Seq<char>, PropertyValue)>::empty()) =~= PropertyList::empty());
    assert(m@ =~= seq![(key@, value@)]);
    m
}

/// A dataset name paired with a property name.
pub type Slot = (Seq<char>, Seq<char>);

/// The properties of `props`, each paired with `target`.
pub open spec fn slots_of(target: Seq<char>, props: PropertyList) -> Set<Slot> {
    Set::new(|p: Slot| p.0 == target && has_key(props, p.1))
}

/// The dataset and property pairs that some action of `actions` sets.
pub open spec fn set_slots(actions: Seq<ZfsActionView>) -> Set<Slot> {
    Set::new(
        |p: Slot|
            exists|i: int| 0 <= i < actions.len() && #[trigger] slots_of(actions[i].target(), actions[i].props()).contains(p),
    )
}

/// The entries of `props` whose pair with `target` is not in `later`.
pub open spec fn unshadowed(props: PropertyList, target: Seq<char>, later: Set<Slot>) -> PropertyList
    decreases props.len(),
{
    if props.len() == 0 {
        Seq::empty()
    } else {
        let prev = unshadowed(props.drop_last(), target, later);
        if later.contains((target, props.last().0)) {
            prev
        } else {
            prev.push(props.last())
        }
    }
}

/// `a` without the properties that `later` sets on the same dataset.
pub open spec fn without_shadowed(a: ZfsActionView, later: Set<Slot>) -> ZfsActionView {
    match a {
        ZfsActionView::CreateDataset { name, properties } => ZfsActionView::CreateDataset {
            name,
            properties: unshadowed(properties, name, later),
        },
        ZfsActionView::SetProperties { dataset, properties } => ZfsActionView::SetProperties {
            dataset,
            properties: unshadowed(properties, dataset, later),
        },
        ZfsActionView::InheritProperty { .. } => a,
    }
}

/// Each action without the properties that a later action sets again on
/// the same dataset.
pub open spec fn drop_shadowed(actions: Seq<ZfsActionView>) -> Seq<ZfsActionView> {
    Seq::new(actions.len(), |i: int| without_shadowed(actions[i], set_slots(actions.skip(i + 1))))
}

/// The pairs held by `seen`, as text.
pub open spec fn seen_slots(seen: Seq<(String, String)>) -> Set<Slot> {
    Set::new(|p: Slot| exists|k: int| 0 <= k < seen.len() && (#[trigger] seen[k].0@, seen[k].1@) == p)
}

proof fn lemma_unshadowed_keys(props: PropertyList, target: Seq<char>, later: Set<Slot>, k: Seq<char>)
    ensures
        has_key(unshadowed(props, target, later), k) ==> has_key(props, k),
    decreases props.len(),
{
    if props.len() > 0 {
        lemma_unshadowed_keys(props.drop_last(), target, later, k);
        let prev = unshadowed(props.drop_last(), target, later);
        let cur = unshadowed(props, target, later);
        if has_key(cur, k) {
            let j = choose|j: int| 0 <= j < cur.len() && #[trigger] cur[j].0 == k;
            if j < prev.len() {
                assert(prev[j].0 == k);
                let m = choose|m: int| 0 <= m < props.drop_last().len() && #[trigger] props.drop_last()[m].0 == k;
                assert(props[m].0 == k);
            } else {
                assert(props[props.len() - 1].0 == k);
            }
        }
    }
}

fn seen_contains(seen: &Vec<(String, String)>, dataset: &String, property: &String) -> (r: bool)
    ensures
        r == seen_slots(seen@).contains((dataset@, property@)),
{
    let mut k: usize = 0;
    while k < seen.len()
        invariant
            k <= seen@.len(),
            forall|m: int| 0 <= m < k ==> (#[trigger] seen@[m].0@, seen@[m].1@) != (dataset@, property@),
        decreases seen@.len() - k,
    {
        if seen[k].0 == *dataset && seen[k].1 == *property {
            assert((seen@[k as int].0@, seen@[k as int].1@) == (dataset@, property@));
            return true;
        }
        k = k + 1;
    }
    false
}

/// Keeps the properties of `props` that `seen` does not hold for `target`,
/// and records all of them in `seen`.
fn strip_shadowed(seen: &mut Vec<(String, String)>, target: &String, props: StrMap<PropertyValue>) -> (r: StrMap<PropertyValue>)
    ensures
        r@ == unshadowed(props@, target@, seen_slots(old(seen)@)),
        seen_slots(final(seen)@) == seen_slots(old(seen)@).union(slots_of(target@, props@)),
{
    let ghost earlier = seen_slots(seen@);
    let ghost raw = props.pairs();
    let ghost ps = props@;
    let n = props.len();
    let mut kept: StrMap<PropertyValue> = StrMap::new();
    let mut j: usize = 0;
    assert(ps.take(0) =~= PropertyList::empty());
    assert(kept@ =~= PropertyList::empty());
    assert(seen_slots(seen@) =~= earlier.union(slots_of(target@, ps.take(0))));
    while j < n
        invariant
            n == raw.len(),
            j <= n,
            raw == props.pairs(),
            ps == view_pairs(raw),
            unique_keys(raw),
            earlier == seen_slots(old(seen)@),
            kept@ == unshadowed(ps.take(j as int), target@, earlier),
            seen_slots(seen@) == earlier.union(slots_of(target@, ps.take(j as int))),
        decreases n - j,
    {
        let key = props.key_at(j);
        let value = props.value_at(j);
        let ghost before = kept.pairs();
        let ghost seen_before = seen@;
        proof {
            lemma_view_take(raw, j as int);
            lemma_view_take(raw, j + 1);
            lemma_unique_prefix(raw, j as int);
            assert(ps[j as int] == (key@, value@));
            assert(ps.take(j + 1).drop_last() =~= ps.take(j as int));
            assert(ps.take(j + 1).last() == ps[j as int]);
            lemma_has_key_view(raw.take(j as int), key@);
            lemma_unshadowed_keys(ps.take(j as int), target@, earlier, key@);
            lemma_has_key_view(before, key@);
            assert(!slots_of(target@, ps.take(j as int)).contains((target@, key@)));
            assert forall|p: Slot| slots_of(target@, ps.take(j + 1)).contains(p) <==> (slots_of(
                target@,
                ps.take(j as int),
            ).contains(p) || p == (target@, key@)) by {
                if has_key(ps.take(j + 1), p.1) && p.1 != key@ {
                    let m = choose|m: int| 0 <= m < ps.take(j + 1).len() && #[trigger] ps.take(j + 1)[m].0 == p.1;
                    assert(ps.take(j as int)[m].0 == p.1);
                }
                if has_key(ps.take(j as int), p.1) {
                    let m = choose|m: int| 0 <= m < ps.take(j as int).len() && #[trigger] ps.take(j as int)[m].0 == p.1;
                    assert(ps.take(j + 1)[m].0 == p.1);
                }
                if p.1 == key@ {
                    assert(ps.take(j + 1)[j as int].0 == key@);
                }
            }
        }
        let shadowed = seen_contains(seen, target, key);
        if !shadowed {
            let v = value.clone();
            proof {
                lemma_insert_absent(before, key@, v);
                lemma_view_push(before, key@, v);
            }
            kept.insert(key.clone(), v);
            seen.push((target.clone(), key.clone()));
            proof {
                assert forall|p: Slot| seen_slots(seen@).contains(p) <==> (seen_slots(seen_before).contains(p) || p
                    == (target@, key@)) by {
                    if seen_slots(seen@).contains(p) {
                        let k = choose|k: int| 0 <= k < seen@.len() && (#[trigger] seen@[k].0@, seen@[k].1@) == p;
                        if k < seen_before.len() {
                            assert(seen_before[k] == seen@[k]);
                        }
                    }
                    if seen_slots(seen_before).contains(p) {
                        let k = choose|k: int| 0 <= k < seen_before.len() && (#[trigger] seen_before[k].0@, seen_before[k].1@) == p;
                        assert(seen@[k] == seen_before[k]);
                    }
                    if p == (target@, key@) {
                        assert((seen@[seen_before.len() as int].0@, seen@[seen_before.len() as int].1@) == p);
                    }
                }
            }
        }
        proof {
            assert(seen_slots(seen@).contains((target@, key@)));
            assert forall|p: Slot| #[trigger] seen_slots(seen@).contains(p) <==> earlier.union(
                slots_of(target@, ps.take(j + 1)),
            ).contains(p) by {
                if p != (target@, key@) {
                    assert(seen_slots(seen@).contains(p) == seen_slots(seen_before).contains(p));
                }
            }
            assert(seen_slots(seen@) =~= earlier.union(slots_of(target@, ps.take(j + 1))));
        }
        j = j + 1;
    }
    assert(ps.take(n as int) =~= ps);
    kept
}

proof fn lemma_set_slots_skip(s: Seq<ZfsActionView>, i: int)
    requires
        0 <= i < s.len(),
    ensures
        set_slots(s.skip(i)) == set_slots(s.skip(i + 1)).union(slots_of(s[i].target(), s[i].props())),
{
    assert forall|p: Slot| #[trigger] set_slots(s.skip(i)).contains(p) <==> set_slots(s.skip(i + 1)).union(
        slots_of(s[i].target(), s[i].props()),
    ).contains(p) by {
        if set_slots(s.skip(i)).contains(p) {
            let m = choose|m: int| 0 <= m < s.skip(i).len() && #[trigger] slots_of(s.skip(i)[m].target(), s.skip(i)[m].props()).contains(p);
            if m > 0 {
                assert(s.skip(i + 1)[m - 1] == s.skip(i)[m]);
            }
        }
        if set_slots(s.skip(i + 1)).contains(p) {
            let m = choose|m: int| 0 <= m < s.skip(i + 1).len() && #[trigger] slots_of(s.skip(i + 1)[m].target(), s.skip(i + 1)[m].props()).contains(p);
            assert(s.skip(i)[m + 1] == s.skip(i + 1)[m]);
        }
        if slots_of(s[i].target(), s[i].props()).contains(p) {
            assert(s.skip(i)[0] == s[i]);
        }
    }
    assert(set_slots(s.skip(i)) =~= set_slots(s.skip(i + 1)).union(slots_of(s[i].target(), s[i].props())));
}

/// No two creations in `actions` are of the same dataset.
pub open spec fn distinct_creates(actions: Seq<ZfsActionView>) -> bool {
    forall|i: int, j: int|
        0 <= i < actions.len() && 0 <= j < actions.len() && i != j && actions[i] is CreateDataset
            && actions[j] is CreateDataset ==> #[trigger] actions[i].target() != #[trigger] actions[j].target()
}

/// The datasets that some action of `actions` creates.
pub open spec fn created_names(actions: Seq<ZfsActionView>) -> Set<Seq<char>> {
    Set::new(
        |name: Seq<char>|
            exists|i: int| 0 <= i < actions.len() && actions[i] is CreateDataset && #[trigger] actions[i].target() == name,
    )
}

/// The creations of `actions`, as dataset names with their properties, in order.
pub open spec fn create_table(actions: Seq<ZfsActionView>) -> Seq<(Seq<char>, PropertyList)>
    decreases actions.len(),
{
    if actions.len() == 0 {
        Seq::empty()
    } else {
        let prev = create_table(actions.drop_last());
        match actions.last() {
            ZfsActionView::CreateDataset { name, properties } => prev.push((name, properties)),
            _ => prev,
        }
    }
}

/// `base` after applying, in order, every `SetProperties` of `actions` on `name`.
pub open spec fn folded_props(base: PropertyList, actions: Seq<ZfsActionView>, name: Seq<char>) -> PropertyList
    decreases actions.len(),
{
    if actions.len() == 0 {
        base
    } else {
        let prev = folded_props(base, actions.drop_last(), name);
        match actions.last() {
            ZfsActionView::SetProperties { dataset, properties } => if dataset == name {
                extend_pairs(prev, properties)
            } else {
                prev
            },
            _ => prev,
        }
    }
}

/// The creation table of `all` with each dataset's properties folded over
/// the first `n` actions.
pub open spec fn folded_table(all: Seq<ZfsActionView>, n: int) -> Seq<(Seq<char>, PropertyList)> {
    create_table(all).map_values(
        |e: (Seq<char>, PropertyList)| (e.0, folded_props(e.1, all.take(n), e.0)),
    )
}

/// `actions` without the `SetProperties` on datasets in `names`.
pub open spec fn without_folded(actions: Seq<ZfsActionView>, names: Set<Seq<char>>) -> Seq<ZfsActionView>
    decreases actions.len(),
{
    if actions.len() == 0 {
        Seq::empty()
    } else {
        let prev = without_folded(actions.drop_last(), names);
        let a = actions.last();
        if a is SetProperties && names.contains(a.target()) {
            prev
        } else {
            prev.push(a)
        }
    }
}

/// A creation with its properties folded over all of `all`; other actions as they are.
pub open spec fn fold_action(a: ZfsActionView, all: Seq<ZfsActionView>) -> ZfsActionView {
    match a {
        ZfsActionView::CreateDataset { name, properties } => ZfsActionView::CreateDataset {
            name,
            properties: folded_props(properties, all, name),
        },
        _ => a,
    }
}

/// The actions with every `SetProperties` on a dataset that some action
/// creates folded into that creation.
pub open spec fn fold_into_creates(all: Seq<ZfsActionView>) -> Seq<ZfsActionView> {
    without_folded(all, created_names(all)).map_values(|a: ZfsActionView| fold_action(a, all))
}

/// Two lists with the same keys at the same positions find a key at the same position.
pub proof fn lemma_same_keys<S, T>(s: Seq<(Seq<char>, S)>, t: Seq<(Seq<char>, T)>, k: Seq<char>)
    requires
        s.len() == t.len(),
        forall|i: int| 0 <= i < s.len() ==> #[trigger] s[i].0 == t[i].0,
    ensures
        key_index(s, k) == key_index(t, k),
        has_key(s, k) == has_key(t, k),
    decreases s.len(),
{
    lemma_key_index(s, k);
    lemma_key_index(t, k);
    if s.len() > 0 {
        assert(s.last().0 == t.last().0);
        assert forall|i: int| 0 <= i < s.drop_last().len() implies #[trigger] s.drop_last()[i].0 == t.drop_last()[i].0 by {
            assert(s[i].0 == t[i].0);
        }
        lemma_same_keys(s.drop_last(), t.drop_last(), k);
    }
}

proof fn lemma_create_table(actions: Seq<ZfsActionView>, k: Seq<char>)
    ensures
        has_key(create_table(actions), k) == created_names(actions).contains(k),
    decreases actions.len(),
{
    if actions.len() > 0 {
        let prev = actions.drop_last();
        lemma_create_table(prev, k);
        let t = create_table(actions);
        if has_key(t, k) {
            let j = choose|j: int| 0 <= j < t.len() && #[trigger] t[j].0 == k;
            if j < create_table(prev).len() {
                assert(create_table(prev)[j].0 == k);
                let i = choose|i: int| 0 <= i < prev.len() && prev[i] is CreateDataset && #[trigger] prev[i].target() == k;
                assert(actions[i] == prev[i]);
            } else {
                assert(actions[actions.len() - 1].target() == k);
            }
        }
        if created_names(actions).contains(k) {
            let i = choose|i: int| 0 <= i < actions.len() && actions[i] is CreateDataset && #[trigger] actions[i].target() == k;
            if i < prev.len() {
                assert(prev[i] == actions[i]);
                let j = choose|j: int| 0 <= j < create_table(prev).len() && #[trigger] create_table(prev)[j].0 == k;
                assert(t[j] == create_table(prev)[j]);
            } else {
                assert(t[t.len() - 1].0 == k);
            }
        }
    }
}

proof fn lemma_create_table_lookup(actions: Seq<ZfsActionView>, i: int)
    requires
        distinct_creates(actions),
        0 <= i < actions.len(),
        actions[i] is CreateDataset,
    ensures
        lookup(create_table(actions), actions[i].target()) == Some(actions[i].props()),
    decreases actions.len(),
{
    let prev = actions.drop_last();
    let k = actions[i].target();
    assert(distinct_creates(prev)) by {
        assert forall|a: int, b: int|
            0 <= a < prev.len() && 0 <= b < prev.len() && a != b && prev[a] is CreateDataset
                && prev[b] is CreateDataset implies #[trigger] prev[a].target() != #[trigger] prev[b].target() by {
            assert(prev[a] == actions[a] && prev[b] == actions[b]);
        }
    }
    lemma_key_index(create_table(actions), k);
    if i == actions.len() - 1 {
        let t = create_table(actions);
        assert(t == create_table(prev).push((k, actions[i].props())));
        assert(t.last().0 == k);
        assert(key_index(t, k) == t.len() - 1);
    } else {
        assert(prev[i] == actions[i]);
        lemma_create_table_lookup(prev, i);
        lemma_key_index(create_table(prev), k);
        if actions.last() is CreateDataset {
            assert(actions.last().target() != k);
            let t = create_table(actions);
            assert(t == create_table(prev).push((actions.last().target(), actions.last().props())));
            assert(t.drop_last() =~= create_table(prev));
            assert(key_index(t, k) == key_index(create_table(prev), k));
            assert(t[key_index(t, k)] == create_table(prev)[key_index(t, k)]);
        } else {
            assert(create_table(actions) == create_table(prev));
        }
    }
}

proof fn lemma_without_folded_members(actions: Seq<ZfsActionView>, names: Set<Seq<char>>, k: int)
    requires
        0 <= k < without_folded(actions, names).len(),
    ensures
        exists|i: int| 0 <= i < actions.len() && #[trigger] actions[i] == without_folded(actions, names)[k],
    decreases actions.len(),
{
    let prev = without_folded(actions.drop_last(), names);
    if k < prev.len() {
        lemma_without_folded_members(actions.drop_last(), names, k);
        let i = choose|i: int| 0 <= i < actions.drop_last().len() && #[trigger] actions.drop_last()[i] == prev[k];
        assert(actions[i] == actions.drop_last()[i]);
    } else {
        assert(actions[actions.len() - 1] == without_folded(actions, names)[k]);
    }
}

proof fn lemma_view_insert(s: Seq<(Seq<char>, PropertyValue)>, k: Seq<char>, v: PropertyValue)
    ensures
        view_pairs(insert_pair(s, k, v)) == insert_pair(view_pairs(s), k, v@),
{
    lemma_view_pairs(s, k);
    lemma_key_index(s, k);
    assert(view_pairs(insert_pair(s, k, v)) =~= insert_pair(view_pairs(s), k, v@));
}

/// Stores every entry of `props` in `target`, in order.
fn extend_map(target: &mut StrMap<PropertyValue>, props: &StrMap<PropertyValue>)
    ensures
        final(target)@ == extend_pairs(old(target)@, props@),
{
    let ghost start = target@;
    let ghost ps = props@;
    let n = props.len();
    let mut j: usize = 0;
    assert(ps.take(0) =~= PropertyList::empty());
    while j < n
        invariant
            n == props.pairs().len(),
            j <= n,
            ps == props@,
            start == old(target)@,
            target@ == extend_pairs(start, ps.take(j as int)),
        decreases n - j,
    {
        let key = props.key_at(j);
        let value = props.value_at(j).clone();
        proof {
            assert(ps[j as int] == (key@, value@));
            assert(ps.take(j + 1).drop_last() =~= ps.take(j as int));
            assert(ps.take(j + 1).last() == ps[j as int]);
            lemma_view_insert(target.pairs(), key@, value);
        }
        target.insert(key.clone(), value);
        j = j + 1;
    }
    assert(ps.take(n as int) =~= ps);
}

/// After merging repeated creations, no dataset is created twice, and the
/// datasets created are exactly those of the first creations.
pub proof fn lemma_merge_creates_distinct(actions: Seq<ZfsActionView>)
    ensures
        distinct_creates(merge_creates(actions)),
        forall|k: Seq<char>| #[trigger] created_names(merge_creates(actions)).contains(k) <==> has_key(first_creates(actions), k),
    decreases actions.len(),
{
    if actions.len() > 0 {
        let prev_actions = actions.drop_last();
        lemma_merge_creates_distinct(prev_actions);
        let prev = merge_creates(prev_actions);
        let known = first_creates(prev_actions);
        let a = actions.last();
        let step = merge_step(known, a);
        let out = merge_creates(actions);
        assert(out == prev + step);
        let adds_create = a is CreateDataset && !has_key(known, a.target());
        if adds_create {
            assert(step == seq![a]);
            assert(first_creates(actions) == known.push((a.target(), a.props())));
        } else {
            assert(forall|j: int| 0 <= j < step.len() ==> !(#[trigger] step[j] is CreateDataset));
            assert(first_creates(actions) == known);
        }
        assert forall|i: int, j: int|
            0 <= i < out.len() && 0 <= j < out.len() && i != j && out[i] is CreateDataset
                && out[j] is CreateDataset implies #[trigger] out[i].target() != #[trigger] out[j].target() by {
            if i >= prev.len() && j < prev.len() {
                assert(out[i] == step[i - prev.len()]);
                assert(out[j] == prev[j]);
                assert(created_names(prev).contains(out[j].target()));
            } else if j >= prev.len() && i < prev.len() {
                assert(out[j] == step[j - prev.len()]);
                assert(out[i] == prev[i]);
                assert(created_names(prev).contains(out[i].target()));
            } else if i < prev.len() && j < prev.len() {
                assert(out[i] == prev[i] && out[j] == prev[j]);
            }
        }
        assert forall|k: Seq<char>| #[trigger] created_names(out).contains(k) <==> has_key(first_creates(actions), k) by {
            if created_names(out).contains(k) {
                let i = choose|i: int| 0 <= i < out.len() && out[i] is CreateDataset && #[trigger] out[i].target() == k;
                if i < prev.len() {
                    assert(out[i] == prev[i]);
                    assert(created_names(prev).contains(k));
                    let m = choose|m: int| 0 <= m < known.len() && #[trigger] known[m].0 == k;
                    assert(first_creates(actions)[m] == known[m]);
                } else {
                    assert(out[i] == step[i - prev.len()]);
                    assert(first_creates(actions)[known.len() as int].0 == k);
                }
            }
            if has_key(first_creates(actions), k) {
                let m = choose|m: int| 0 <= m < first_creates(actions).len() && #[trigger] first_creates(actions)[m].0 == k;
                if m < known.len() {
                    assert(known[m] == first_creates(actions)[m]);
                    assert(has_key(known, k));
                    assert(created_names(prev).contains(k));
                    let i = choose|i: int| 0 <= i < prev.len() && prev[i] is CreateDataset && #[trigger] prev[i].target() == k;
                    assert(out[i] == prev[i]);
                } else {
                    assert(out[prev.len() as int] == a);
                }
            }
        }
    }
}

/// Dropping shadowed properties keeps every action's kind and dataset.
pub proof fn lemma_drop_shadowed_shape(actions: Seq<ZfsActionView>)
    ensures
        drop_shadowed(actions).len() == actions.len(),
        forall|i: int| 0 <= i < actions.len() ==> (#[trigger] drop_shadowed(actions)[i]).target() == actions[i].target()
            && (drop_shadowed(actions)[i] is CreateDataset <==> actions[i] is CreateDataset),
        distinct_creates(actions) ==> distinct_creates(drop_shadowed(actions)),
{
    let out = drop_shadowed(actions);
    assert forall|i: int| 0 <= i < actions.len() implies (#[trigger] out[i]).target() == actions[i].target() && (
    out[i] is CreateDataset <==> actions[i] is CreateDataset) by {
        assert(out[i] == without_shadowed(actions[i], set_slots(actions.skip(i + 1))));
    }
    if distinct_creates(actions) {
        assert forall|i: int, j: int|
            0 <= i < out.len() && 0 <= j < out.len() && i != j && out[i] is CreateDataset
                && out[j] is CreateDataset implies #[trigger] out[i].target() != #[trigger] out[j].target() by {
            assert(actions[i].target() != actions[j].target());
        }
    }
}

impl VecActionProducer {
    /// Replaces every creation of a dataset that an earlier action already
    /// creates by one `SetProperties` per property whose value differs from
    /// that first creation; everything else is kept in order.
    pub fn cleanup_multiple_creates(actions: Vec<ZfsAction>) -> (r: Vec<ZfsAction>)
        ensures
            action_views(r@) == merge_creates(action_views(actions@)),
    {
        let ghost orig = actions@;
        let ghost all = action_views(orig);
        let mut known: StrMap<StrMap<PropertyValue>> = StrMap::new();
        let mut out: Vec<ZfsAction> = Vec::new();
        assert(all.take(0) =~= Seq::<ZfsActionView>::empty());
        assert(known@ =~= Seq::<(Seq<char>, PropertyList)>::empty());
        assert(action_views(out@) =~= Seq::<ZfsActionView>::empty());
        for action in it: actions.into_iter()
            invariant
                it.seq() == orig,
                all == action_views(orig),
                known@ == first_creates(all.take(it.index() as int)),
                action_views(out@) == merge_creates(all.take(it.index() as int)),
        {
            let ghost i = it.index() as int;
            let ghost prefix = all.take(i);
            let ghost before = action_views(out@);
            let ghost known_before = known.pairs();
            proof {
                assert(all.take(i + 1).drop_last() =~= prefix);
                assert(all.take(i + 1).last() == action@);
                lemma_has_key_view(known_before, action@.target());
                lemma_view_pairs(known_before, action@.target());
                lemma_key_index(known_before, action@.target());
            }
            match action {
                ZfsAction::CreateDataset { name, properties } => {
                    let found = known.contains_key(name.as_str());
                    if found {
                        let edited = match known.get(name.as_str()) {
                            Some(existing) => changed_entries(existing, &properties),
                            None => StrMap::new(),
                        };
                        let ghost changes = edited@;
                        let m = edited.len();
                        let mut j: usize = 0;
                        assert(one_by_one(name@, changes).take(0) =~= Seq::<ZfsActionView>::empty());
                        assert(before + Seq::<ZfsActionView>::empty() =~= before);
                        while j < m
                            invariant
                                m == edited.pairs().len(),
                                changes == edited@,
                                j <= m,
                                action_views(out@) == before + one_by_one(name@, changes).take(j as int),
                            decreases m - j,
                        {
                            let single = single_entry(edited.key_at(j).clone(), edited.value_at(j).clone());
                            let ghost out_before = action_views(out@);
                            out.push(ZfsAction::SetProperties { dataset: name.clone(), properties: single });
                            proof {
                                assert(changes[j as int] == (edited.pairs()[j as int].0, edited.pairs()[j as int].1@));
                                assert(action_views(out@) =~= out_before.push(
                                    ZfsActionView::SetProperties { dataset: name@, properties: seq![changes[j as int]] },
                                ));
                                assert(one_by_one(name@, changes).take(j + 1) =~= one_by_one(name@, changes).take(
                                    j as int,
                                ).push(ZfsActionView::SetProperties { dataset: name@, properties: seq![changes[j as int]] }));
                            }
                            j = j + 1;
                        }
                        assert(one_by_one(name@, changes).take(m as int) =~= one_by_one(name@, changes));
                    } else {
                        let copy = properties.clone();
                        proof {
                            lemma_insert_absent(known_before, name@, copy);
                            lemma_view_push(known_before, name@, copy);
                        }
                        known.insert(name.clone(), copy);
                        let ghost kept = ZfsAction::CreateDataset { name, properties };
                        out.push(ZfsAction::CreateDataset { name, properties });
                        assert(action_views(out@) =~= before.push(kept@));
                    }
                },
                ZfsAction::SetProperties { dataset, properties } => {
                    out.push(ZfsAction::SetProperties { dataset, properties });
                    assert(action_views(out@) =~= before.push(action@));
                },
                ZfsAction::InheritProperty { dataset, property } => {
                    out.push(ZfsAction::InheritProperty { dataset, property });
                    assert(action_views(out@) =~= before.push(action@));
                },
            }
            assert(action_views(out@) =~= merge_creates(all.take(i + 1)));
        }
        assert(all.take(orig.len() as int) =~= all);
        out
    }
    /// Drops from each action the properties that a later action sets again
    /// on the same dataset; the actions themselves all stay, in order. An
    /// unset sets no value, so it neither shadows nor is shadowed.
    pub fn cleanup_shadowed_properties(actions: Vec<ZfsAction>) -> (r: Vec<ZfsAction>)
        ensures
            action_views(r@) == drop_shadowed(action_views(actions@)),
    {
        let ghost all = action_views(actions@);
        let ghost result = drop_shadowed(all);
        let ghost n = actions@.len() as int;
        let mut rest = actions;
        let mut seen: Vec<(String, String)> = Vec::new();
        let mut rev: Vec<ZfsAction> = Vec::new();
        assert(all.take(n) =~= all);
        assert(seen_slots(seen@) =~= set_slots(all.skip(n)));
        while rest.len() > 0
            invariant
                n == all.len(),
                result == drop_shadowed(all),
                rest@.len() <= n,
                action_views(rest@) == all.take(rest@.len() as int),
                seen_slots(seen@) == set_slots(all.skip(rest@.len() as int)),
                rev@.len() == n - rest@.len(),
                forall|k: int| 0 <= k < rev@.len() ==> (#[trigger] rev@[k])@ == result[n - 1 - k],
            decreases rest@.len(),
        {
            let ghost i = rest@.len() - 1;
            let ghost rest_before = rest@;
            let action = rest.pop().unwrap();
            proof {
                assert(all[i] == action@) by {
                    assert(action_views(rest_before)[i] == all.take(i + 1)[i]);
                }
                assert(action_views(rest@) =~= all.take(i));
                lemma_set_slots_skip(all, i);
            }
            let stripped = match action {
                ZfsAction::CreateDataset { name, properties } => {
                    let kept = strip_shadowed(&mut seen, &name, properties);
                    ZfsAction::CreateDataset { name, properties: kept }
                },
                ZfsAction::SetProperties { dataset, properties } => {
                    let kept = strip_shadowed(&mut seen, &dataset, properties);
                    ZfsAction::SetProperties { dataset, properties: kept }
                },
                ZfsAction::InheritProperty { dataset, property } => {
                    proof {
                        assert(slots_of(dataset@, Seq::empty()) =~= Set::<Slot>::empty());
                        assert(seen_slots(seen@).union(Set::<Slot>::empty()) =~= seen_slots(seen@));
                    }
                    ZfsAction::InheritProperty { dataset, property }
                },
            };
            assert(stripped@ == result[i]);
            rev.push(stripped);
        }
        let mut out: Vec<ZfsAction> = Vec::new();
        while rev.len() > 0
            invariant
                n == all.len(),
                result == drop_shadowed(all),
                out@.len() + rev@.len() == n,
                forall|k: int| 0 <= k < rev@.len() ==> (#[trigger] rev@[k])@ == result[n - 1 - k],
                forall|k: int| 0 <= k < out@.len() ==> (#[trigger] out@[k])@ == result[k],
            decreases rev@.len(),
        {
            let ghost rev_before = rev@;
            let action = rev.pop().unwrap();
            assert(action@ == result[out@.len() as int]) by {
                assert(rev_before[rev_before.len() - 1] == action);
            }
            out.push(action);
            assert forall|k: int| 0 <= k < rev@.len() implies (#[trigger] rev@[k])@ == result[n - 1 - k] by {
                assert(rev@[k] == rev_before[k]);
            }
        }
        assert(action_views(out@) =~= result);
        out
    }
    /// Folds every `SetProperties` on a dataset that some action creates
    /// into that creation, applying them in order over the created
    /// properties; the remaining actions keep their order.
    pub fn cleanup_fold_properties_into_creates(actions: Vec<ZfsAction>) -> (r: Vec<ZfsAction>)
        requires
            distinct_creates(action_views(actions@)),
        ensures
            action_views(r@) == fold_into_creates(action_views(actions@)),
    {
        let ghost all = action_views(actions@);
        let ghost names = created_names(all);
        let ghost len = all.len() as int;
        // The creations, each with its declared properties.
        let mut creates: StrMap<StrMap<PropertyValue>> = StrMap::new();
        let mut i: usize = 0;
        assert(all.take(0) =~= Seq::<ZfsActionView>::empty());
        assert(creates@ =~= create_table(all.take(0)));
        while i < actions.len()
            invariant
                all == action_views(actions@),
                distinct_creates(all),
                i <= actions@.len(),
                creates@ == create_table(all.take(i as int)),
            decreases actions@.len() - i,
        {
            let ghost before = creates.pairs();
            proof {
                assert(all.take(i + 1).drop_last() =~= all.take(i as int));
                assert(all.take(i + 1).last() == all[i as int]);
            }
            match &actions[i] {
                ZfsAction::CreateDataset { name, properties } => {
                    let copy = properties.clone();
                    proof {
                        lemma_create_table(all.take(i as int), name@);
                        if created_names(all.take(i as int)).contains(name@) {
                            let j = choose|j: int|
                                0 <= j < all.take(i as int).len() && all.take(i as int)[j] is CreateDataset
                                    && #[trigger] all.take(i as int)[j].target() == name@;
                            assert(all[j] == all.take(i as int)[j]);
                            assert(all[j].target() != all[i as int].target());
                        }
                        lemma_has_key_view(before, name@);
                        lemma_insert_absent(before, name@, copy);
                        lemma_view_push(before, name@, copy);
                    }
                    creates.insert(name.clone(), copy);
                },
                _ => {},
            }
            i = i + 1;
        }
        assert(all.take(len) =~= all);
        // Fold the settings of created datasets into their creations.
        let mut kept: Vec<ZfsAction> = Vec::new();
        proof {
            assert forall|k: int| 0 <= k < create_table(all).len() implies #[trigger] folded_table(all, 0)[k]
                == create_table(all)[k] by {
                assert(folded_props(create_table(all)[k].1, all.take(0), create_table(all)[k].0)
                    == create_table(all)[k].1);
            }
            assert(folded_table(all, 0) =~= create_table(all));
            assert(action_views(kept@) =~= without_folded(all.take(0), names));
        }
        let ghost orig = actions@;
        for action in it: actions.into_iter()
            invariant
                it.seq() == orig,
                all == action_views(orig),
                len == all.len(),
                names == created_names(all),
                distinct_creates(all),
                creates@ == folded_table(all, it.index() as int),
                action_views(kept@) == without_folded(all.take(it.index() as int), names),
        {
            let ghost n = it.index() as int;
            let ghost table_before = creates@;
            let ghost kept_before = action_views(kept@);
            proof {
                assert(all.take(n + 1).drop_last() =~= all.take(n));
                assert(all.take(n + 1).last() == action@);
                assert(all[n] == action@);
                lemma_same_keys(creates@, create_table(all), action@.target());
                lemma_same_keys(creates.pairs(), creates@, action@.target());
                lemma_create_table(all, action@.target());
            }
            let n_entries = creates.len();
            match action {
                ZfsAction::SetProperties { dataset, properties } => {
                    match creates.get_mut(dataset.as_str()) {
                        Some(existing) => {
                            extend_map(existing, &properties);
                            proof {
                                let k = key_index(table_before, dataset@);
                                lemma_key_index(table_before, dataset@);
                                assert forall|m: int| 0 <= m < creates@.len() implies #[trigger] creates@[m]
                                    == folded_table(all, n + 1)[m] by {
                                    let e = create_table(all)[m];
                                    assert(folded_table(all, n)[m] == (e.0, folded_props(e.1, all.take(n), e.0)));
                                    assert(folded_props(e.1, all.take(n + 1), e.0) == if e.0 == dataset@ {
                                        extend_pairs(folded_props(e.1, all.take(n), e.0), properties@)
                                    } else {
                                        folded_props(e.1, all.take(n), e.0)
                                    });
                                    if m != k {
                                        assert(table_before[m].0 != dataset@) by {
                                            assert(table_before[m].0 == creates.pairs()[m].0);
                                        }
                                    }
                                }
                                assert(creates@ =~= folded_table(all, n + 1));
                            }
                        },
                        None => {
                            proof {
                                assert forall|m: int| 0 <= m < creates@.len() implies #[trigger] creates@[m]
                                    == folded_table(all, n + 1)[m] by {
                                    let e = create_table(all)[m];
                                    assert(e.0 != dataset@);
                                    assert(folded_table(all, n)[m] == (e.0, folded_props(e.1, all.take(n), e.0)));
                                }
                                assert(creates@ =~= folded_table(all, n + 1));
                            }
                            kept.push(ZfsAction::SetProperties { dataset, properties });
                        },
                    }
                },
                ZfsAction::CreateDataset { name, properties } => {
                    proof {
                        assert forall|m: int| 0 <= m < creates@.len() implies #[trigger] creates@[m]
                            == folded_table(all, n + 1)[m] by {
                            let e = create_table(all)[m];
                            assert(folded_table(all, n)[m] == (e.0, folded_props(e.1, all.take(n), e.0)));
                        }
                        assert(creates@ =~= folded_table(all, n + 1));
                    }
                    kept.push(ZfsAction::CreateDataset { name, properties });
                },
                ZfsAction::InheritProperty { dataset, property } => {
                    proof {
                        assert forall|m: int| 0 <= m < creates@.len() implies #[trigger] creates@[m]
                            == folded_table(all, n + 1)[m] by {
                            let e = create_table(all)[m];
                            assert(folded_table(all, n)[m] == (e.0, folded_props(e.1, all.take(n), e.0)));
                        }
                        assert(creates@ =~= folded_table(all, n + 1));
                    }
                    kept.push(ZfsAction::InheritProperty { dataset, property });
                },
            }
            assert(action_views(kept@) =~= without_folded(all.take(n + 1), names));
        }
        // Give each creation its folded properties.
        let ghost survivors = without_folded(all, names);
        let ghost kept_orig = kept@;
        let mut out: Vec<ZfsAction> = Vec::new();
        assert(action_views(out@) =~= Seq::<ZfsActionView>::empty());
        for action in it: kept.into_iter()
            invariant
                it.seq() == kept_orig,
                action_views(kept_orig) == survivors,
                survivors == without_folded(all, names),
                distinct_creates(all),
                creates@ == folded_table(all, len),
                len == all.len(),
                action_views(out@) == survivors.take(it.index() as int).map_values(
                    |a: ZfsActionView| fold_action(a, all),
                ),
        {
            let ghost n = it.index() as int;
            let ghost out_before = action_views(out@);
            proof {
                assert(survivors[n] == action@);
                assert(survivors.take(n + 1).map_values(|a: ZfsActionView| fold_action(a, all)) =~= survivors.take(
                    n,
                ).map_values(|a: ZfsActionView| fold_action(a, all)).push(fold_action(action@, all)));
            }
            match action {
                ZfsAction::CreateDataset { name, properties } => {
                    proof {
                        lemma_without_folded_members(all, names, n);
                        let i = choose|i: int| 0 <= i < all.len() && #[trigger] all[i] == survivors[n];
                        lemma_create_table_lookup(all, i);
                        lemma_same_keys(creates@, create_table(all), name@);
                        lemma_same_keys(creates.pairs(), creates@, name@);
                        lemma_view_pairs(creates.pairs(), name@);
                        lemma_key_index(create_table(all), name@);
                        lemma_key_index(creates.pairs(), name@);
                        assert(all.take(len) =~= all);
                    }
                    let folded = match creates.get(name.as_str()) {
                        Some(p) => p.clone(),
                        None => properties,
                    };
                    out.push(ZfsAction::CreateDataset { name, properties: folded });
                },
                ZfsAction::SetProperties { dataset, properties } => {
                    out.push(ZfsAction::SetProperties { dataset, properties });
                },
                ZfsAction::InheritProperty { dataset, property } => {
                    out.push(ZfsAction::InheritProperty { dataset, property });
                },
            }
            assert(action_views(out@) =~= out_before.push(fold_action(action@, all)));
        }
        assert(survivors.take(survivors.len() as int) =~= survivors);
        out
    }
    /// The three clean-up passes in turn: merge repeated creations, drop
    /// shadowed properties, fold settings into creations.
    pub fn cleanup(&mut self)
        ensures
            action_views(final(self).actions@) == fold_into_creates(
                drop_shadowed(merge_creates(action_views(old(self).actions@))),
            ),
            final(self).errors@ == old(self).errors@,
            final(self).extras@ == old(self).extras@,
            final(self).log@ == old(self).log@,
    {
        let mut actions: Vec<ZfsAction> = Vec::new();
        std::mem::swap(&mut actions, &mut self.actions);
        let merged = Self::cleanup_multiple_creates(actions);
        let unshadowed = Self::cleanup_shadowed_properties(merged);
        proof {
            lemma_merge_creates_distinct(action_views(merged@));
            lemma_merge_creates_distinct(action_views(old(self).actions@));
            lemma_drop_shadowed_shape(merge_creates(action_views(old(self).actions@)));
        }
        self.actions = Self::cleanup_fold_properties_into_creates(unshadowed);
    }
}

} // verus!
