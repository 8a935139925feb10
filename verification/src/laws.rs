use vstd::prelude::*;

use crate::action::{command_of, ZfsActionView};
use crate::cleanup::{
    changed_properties, created_names, drop_shadowed, first_creates, fold_action, merge_creates, one_by_one, fold_into_creates, folded_props, set_slots, slots_of, unshadowed,
    without_folded, without_shadowed, PropertyList, Slot,
};
use crate::model::{Dataset, Property, ZfsSpecDataset};
use crate::plan::{
    as_actions, as_errors, dataset_calls, declared_calls, extra_names, inherits, is_extra, is_refused,
    is_ancestor, needs_setting, refusal_message, source_text, parent_creates, parent_paths, parents_upto, plan_calls, refusals, settings,
    undeclared_locals,
};
use crate::producer::ProducerCall;
use crate::strmap::{has_key, lemma_key_index, lookup, unique_keys, view_pairs};
use crate::value::{value_text, PropertyValueView};

verus! {

proof fn lemma_parent_creates_missing(existing: Seq<(Seq<char>, Dataset)>, parents: Seq<Seq<char>>)
    ensures
        forall|j: int| 0 <= j < parent_creates(existing, parents).len() ==> {
            let a = #[trigger] parent_creates(existing, parents)[j];
            &&& a is CreateDataset
            &&& !has_key(existing, a.target())
            &&& parents.contains(a.target())
        },
    decreases parents.len(),
{
    if parents.len() > 0 {
        lemma_parent_creates_missing(existing, parents.drop_last());
        let prev = parent_creates(existing, parents.drop_last());
        assert forall|j: int| 0 <= j < parent_creates(existing, parents).len() implies {
            let a = #[trigger] parent_creates(existing, parents)[j];
            &&& a is CreateDataset
            &&& !has_key(existing, a.target())
            &&& parents.contains(a.target())
        } by {
            if j < prev.len() {
                let t = prev[j].target();
                let m = choose|m: int| 0 <= m < parents.drop_last().len() && parents.drop_last()[m] == t;
                assert(parents[m] == t);
            } else {
                assert(parents[parents.len() - 1] == parent_creates(existing, parents)[j].target());
            }
        }
    }
}

/// What planning promises of each call it makes: a creation only of a
/// dataset that does not exist, any other action only on one that exists,
/// every action about a declared dataset or one of its ancestors, and every
/// listed dataset existing and extra.
pub open spec fn respects_declaration(
    existing: Seq<(Seq<char>, Dataset)>,
    dss: Seq<ZfsSpecDataset>,
    c: ProducerCall,
) -> bool {
    match c {
        ProducerCall::Action(a) => {
            &&& a is CreateDataset ==> !has_key(existing, a.target())
            &&& !(a is CreateDataset) ==> has_key(existing, a.target())
            &&& exists|i: int|
                #![trigger dss[i]]
                0 <= i < dss.len() && (a.target() == dss[i].name@ || parent_paths(dss[i].name@).contains(a.target()))
        },
        ProducerCall::Error(_) => true,
        ProducerCall::Extra(n) => has_key(existing, n) && is_extra(n, dss),
    }
}

proof fn lemma_dataset_calls_shape(
    existing: Seq<(Seq<char>, Dataset)>,
    name: Seq<char>,
    props: Seq<(Seq<char>, PropertyValueView)>,
)
    ensures
        forall|j: int| 0 <= j < dataset_calls(existing, name, props).len() ==> match #[trigger] dataset_calls(
            existing,
            name,
            props,
        )[j] {
            ProducerCall::Action(a) => {
                &&& a is CreateDataset ==> !has_key(existing, a.target())
                &&& !(a is CreateDataset) ==> has_key(existing, a.target())
                &&& a.target() == name || parent_paths(name).contains(a.target())
            },
            ProducerCall::Error(_) => true,
            ProducerCall::Extra(_) => false,
        },
{
    lemma_key_index(existing, name);
    lemma_parent_creates_missing(existing, parent_paths(name));
    let calls = dataset_calls(existing, name, props);
    match lookup(existing, name) {
        Some(d) => {
            let cur = d.properties.pairs();
            let errs = as_errors(refusals(cur, name, props));
            let unsets = as_actions(inherits(name, undeclared_locals(cur, props)));
            assert forall|j: int| 0 <= j < calls.len() implies match #[trigger] calls[j] {
                ProducerCall::Action(a) => {
                    &&& a is CreateDataset ==> !has_key(existing, a.target())
                    &&& !(a is CreateDataset) ==> has_key(existing, a.target())
                    &&& a.target() == name || parent_paths(name).contains(a.target())
                },
                ProducerCall::Error(_) => true,
                ProducerCall::Extra(_) => false,
            } by {
                if j < errs.len() {
                    assert(calls[j] == errs[j]);
                } else if j > errs.len() {
                    assert(calls[j] == unsets[j - errs.len() - 1]);
                }
            }
        },
        None => {
            let creates = parent_creates(existing, parent_paths(name)).push(
                ZfsActionView::CreateDataset { name, properties: props },
            );
            assert forall|j: int| 0 <= j < calls.len() implies match #[trigger] calls[j] {
                ProducerCall::Action(a) => {
                    &&& a is CreateDataset ==> !has_key(existing, a.target())
                    &&& !(a is CreateDataset) ==> has_key(existing, a.target())
                    &&& a.target() == name || parent_paths(name).contains(a.target())
                },
                ProducerCall::Error(_) => true,
                ProducerCall::Extra(_) => false,
            } by {
                assert(calls[j] == ProducerCall::Action(creates[j]));
                if j < creates.len() - 1 {
                    assert(creates[j] == parent_creates(existing, parent_paths(name))[j]);
                }
            }
        },
    }
}

proof fn lemma_extra_names(existing: Seq<(Seq<char>, Dataset)>, dss: Seq<ZfsSpecDataset>)
    ensures
        forall|n: Seq<char>| #[trigger] extra_names(existing, dss).contains(n) <==> has_key(existing, n) && is_extra(n, dss),
        unique_keys(existing) ==> extra_names(existing, dss).no_duplicates(),
    decreases existing.len(),
{
    if existing.len() > 0 {
        let prev_e = existing.drop_last();
        lemma_extra_names(prev_e, dss);
        let prev = extra_names(prev_e, dss);
        let out = extra_names(existing, dss);
        let k = existing.last().0;
        assert forall|n: Seq<char>| #[trigger] out.contains(n) <==> has_key(existing, n) && is_extra(n, dss) by {
            if out.contains(n) {
                let m = choose|m: int| 0 <= m < out.len() && out[m] == n;
                if m < prev.len() {
                    assert(prev[m] == n);
                    assert(prev.contains(n));
                    let t = choose|t: int| 0 <= t < prev_e.len() && #[trigger] prev_e[t].0 == n;
                    assert(existing[t].0 == n);
                } else {
                    assert(existing[existing.len() - 1].0 == n);
                }
            }
            if has_key(existing, n) && is_extra(n, dss) {
                let t = choose|t: int| 0 <= t < existing.len() && #[trigger] existing[t].0 == n;
                if t < prev_e.len() {
                    assert(prev_e[t].0 == n);
                    assert(prev.contains(n));
                    let m = choose|m: int| 0 <= m < prev.len() && prev[m] == n;
                    assert(out[m] == n);
                } else {
                    assert(out[out.len() - 1] == n);
                }
            }
        }
        if unique_keys(existing) {
            assert(unique_keys(prev_e)) by {
                assert forall|a: int, b: int| 0 <= a < prev_e.len() && 0 <= b < prev_e.len() && a != b implies #[trigger] prev_e[a].0
                    != #[trigger] prev_e[b].0 by {
                    assert(existing[a] == prev_e[a] && existing[b] == prev_e[b]);
                }
            }
            if is_extra(k, dss) {
                if prev.contains(k) {
                    let t = choose|t: int| 0 <= t < prev_e.len() && #[trigger] prev_e[t].0 == k;
                    assert(existing[t].0 == existing[existing.len() - 1].0);
                }
                assert forall|a: int, b: int| 0 <= a < out.len() && 0 <= b < out.len() && a != b implies out[a] != out[b] by {
                    if a < prev.len() && b < prev.len() {
                        assert(out[a] == prev[a] && out[b] == prev[b]);
                    } else if a < prev.len() {
                        assert(out[a] == prev[a]);
                        assert(prev.contains(prev[a]));
                    } else if b < prev.len() {
                        assert(out[b] == prev[b]);
                        assert(prev.contains(prev[b]));
                    }
                }
            }
        }
    }
}

/// Every call that planning makes keeps to the declaration: no dataset is
/// created that exists, no other action touches a dataset that is neither
/// declared nor an ancestor of a declared one, and a dataset is listed for
/// destruction only if it exists and is extra. So undeclared datasets are
/// left untouched and no dataset is removed.
pub proof fn lemma_plan_touches_only_declared(existing: Seq<(Seq<char>, Dataset)>, dss: Seq<ZfsSpecDataset>)
    ensures
        forall|j: int| 0 <= j < plan_calls(existing, dss).len() ==> respects_declaration(
            existing,
            dss,
            #[trigger] plan_calls(existing, dss)[j],
        ),
{
    lemma_declared_calls_shape(existing, dss, dss.len() as int);
    lemma_extra_names(existing, dss);
    assert(dss.take(dss.len() as int) =~= dss);
    let decl = declared_calls(existing, dss);
    let extras = extra_names(existing, dss).map_values(|n: Seq<char>| ProducerCall::Extra(n));
    assert forall|j: int| 0 <= j < plan_calls(existing, dss).len() implies respects_declaration(
        existing,
        dss,
        #[trigger] plan_calls(existing, dss)[j],
    ) by {
        if j >= decl.len() {
            let n = extra_names(existing, dss)[j - decl.len()];
            assert(plan_calls(existing, dss)[j] == extras[j - decl.len()]);
            assert(extra_names(existing, dss).contains(n));
        } else {
            assert(plan_calls(existing, dss)[j] == decl[j]);
        }
    }
}

proof fn lemma_declared_calls_shape(existing: Seq<(Seq<char>, Dataset)>, dss: Seq<ZfsSpecDataset>, n: int)
    requires
        0 <= n <= dss.len(),
    ensures
        forall|j: int| 0 <= j < declared_calls(existing, dss.take(n)).len() ==> respects_declaration(
            existing,
            dss,
            #[trigger] declared_calls(existing, dss.take(n))[j],
        ),
    decreases n,
{
    if n > 0 {
        lemma_declared_calls_shape(existing, dss, n - 1);
        assert(dss.take(n).drop_last() =~= dss.take(n - 1));
        let d = dss[n - 1];
        assert(dss.take(n).last() == d);
        let prev = declared_calls(existing, dss.take(n - 1));
        let block = dataset_calls(existing, d.name@, view_pairs(d.properties.pairs()));
        lemma_dataset_calls_shape(existing, d.name@, view_pairs(d.properties.pairs()));
        let all = declared_calls(existing, dss.take(n));
        assert(all == prev + block);
        assert forall|j: int| 0 <= j < all.len() implies respects_declaration(existing, dss, #[trigger] all[j]) by {
            if j < prev.len() {
                assert(all[j] == prev[j]);
            } else {
                assert(all[j] == block[j - prev.len()]);
                match block[j - prev.len()] {
                    ProducerCall::Action(a) => {
                        assert(a.target() == dss[n - 1].name@ || parent_paths(dss[n - 1].name@).contains(
                            a.target(),
                        ));
                    },
                    _ => {},
                }
            }
        }
    }
}

/// Each declared dataset gives its own block of calls, which depends only on
/// it and on the existing datasets: planning the declarations `a` then `b`
/// makes the calls for `a` followed by those for `b`.
pub proof fn lemma_declared_calls_concat(
    existing: Seq<(Seq<char>, Dataset)>,
    a: Seq<ZfsSpecDataset>,
    b: Seq<ZfsSpecDataset>,
)
    ensures
        declared_calls(existing, a + b) == declared_calls(existing, a) + declared_calls(existing, b),
    decreases b.len(),
{
    if b.len() == 0 {
        assert(a + b =~= a);
        assert(declared_calls(existing, a) + declared_calls(existing, b) =~= declared_calls(existing, a));
    } else {
        lemma_declared_calls_concat(existing, a, b.drop_last());
        assert((a + b).drop_last() =~= a + b.drop_last());
        assert((a + b).last() == b.last());
        let d = b.last();
        let block = dataset_calls(existing, d.name@, view_pairs(d.properties.pairs()));
        assert(declared_calls(existing, a) + declared_calls(existing, b) =~= declared_calls(existing, a)
            + declared_calls(existing, b.drop_last()) + block);
    }
}

/// The declared state holds already: every declared dataset exists, each
/// declared property is present, may be set, and has the declared value,
/// and every locally set property is declared.
pub open spec fn satisfied(existing: Seq<(Seq<char>, Dataset)>, dss: Seq<ZfsSpecDataset>) -> bool {
    forall|i: int| 0 <= i < dss.len() ==> {
        let d = #[trigger] dss[i];
        let cur = lookup(existing, d.name@).unwrap().properties.pairs();
        &&& has_key(existing, d.name@)
        &&& forall|p: (Seq<char>, PropertyValueView)|
            #[trigger] view_pairs(d.properties.pairs()).contains(p) ==> !needs_setting(cur, p) && !is_refused(cur, p)
        &&& forall|k: int|
            0 <= k < cur.len() && (#[trigger] cur[k]).1.source is Local ==> has_key(
                view_pairs(d.properties.pairs()),
                cur[k].0,
            )
    }
}

proof fn lemma_settings_empty(
    current: Seq<(Seq<char>, Property)>,
    dataset: Seq<char>,
    props: Seq<(Seq<char>, PropertyValueView)>,
)
    requires
        forall|p: (Seq<char>, PropertyValueView)| #[trigger] props.contains(p) ==> !needs_setting(current, p)
            && !is_refused(current, p),
    ensures
        settings(current, props) == Seq::<(Seq<char>, PropertyValueView)>::empty(),
        refusals(current, dataset, props) == Seq::<Seq<char>>::empty(),
    decreases props.len(),
{
    if props.len() > 0 {
        assert forall|p: (Seq<char>, PropertyValueView)| #[trigger] props.drop_last().contains(p) implies !needs_setting(
            current,
            p,
        ) && !is_refused(current, p) by {
            let m = choose|m: int| 0 <= m < props.drop_last().len() && props.drop_last()[m] == p;
            assert(props[m] == p);
            assert(props.contains(p));
        }
        lemma_settings_empty(current, dataset, props.drop_last());
        assert(props.contains(props.last())) by {
            assert(props[props.len() - 1] == props.last());
        }
    }
}

proof fn lemma_no_undeclared_locals(current: Seq<(Seq<char>, Property)>, props: Seq<(Seq<char>, PropertyValueView)>)
    requires
        forall|k: int| 0 <= k < current.len() && (#[trigger] current[k]).1.source is Local ==> has_key(props, current[k].0),
    ensures
        undeclared_locals(current, props) == Seq::<Seq<char>>::empty(),
    decreases current.len(),
{
    if current.len() > 0 {
        let prev = current.drop_last();
        assert forall|k: int| 0 <= k < prev.len() && (#[trigger] prev[k]).1.source is Local implies has_key(props, prev[k].0) by {
            assert(current[k] == prev[k]);
        }
        lemma_no_undeclared_locals(prev, props);
        assert(current[current.len() - 1] == current.last());
    }
}

/// Planning a state that already matches the declaration changes nothing:
/// one `SetProperties` without properties per declared dataset, no error, no
/// unset, and only the listing of extra datasets.
pub proof fn lemma_plan_converged(existing: Seq<(Seq<char>, Dataset)>, dss: Seq<ZfsSpecDataset>)
    requires
        satisfied(existing, dss),
    ensures
        plan_calls(existing, dss) == dss.map_values(
            |d: ZfsSpecDataset|
                ProducerCall::Action(ZfsActionView::SetProperties { dataset: d.name@, properties: Seq::empty() }),
        ) + extra_names(existing, dss).map_values(|n: Seq<char>| ProducerCall::Extra(n)),
{
    lemma_declared_converged(existing, dss, dss.len() as int);
    assert(dss.take(dss.len() as int) =~= dss);
}

proof fn lemma_declared_converged(existing: Seq<(Seq<char>, Dataset)>, dss: Seq<ZfsSpecDataset>, n: int)
    requires
        satisfied(existing, dss),
        0 <= n <= dss.len(),
    ensures
        declared_calls(existing, dss.take(n)) == dss.take(n).map_values(
            |d: ZfsSpecDataset|
                ProducerCall::Action(ZfsActionView::SetProperties { dataset: d.name@, properties: Seq::empty() }),
        ),
    decreases n,
{
    if n == 0 {
        assert(dss.take(0).map_values(
            |d: ZfsSpecDataset|
                ProducerCall::Action(ZfsActionView::SetProperties { dataset: d.name@, properties: Seq::empty() }),
        ) =~= Seq::<ProducerCall>::empty());
    } else {
        lemma_declared_converged(existing, dss, n - 1);
        assert(dss.take(n).drop_last() =~= dss.take(n - 1));
        let d = dss[n - 1];
        assert(dss.take(n).last() == d);
        lemma_key_index(existing, d.name@);
        let cur = lookup(existing, d.name@).unwrap().properties.pairs();
        let ps = view_pairs(d.properties.pairs());
        lemma_settings_empty(cur, d.name@, ps);
        lemma_no_undeclared_locals(cur, ps);
        assert(as_errors(Seq::<Seq<char>>::empty()) =~= Seq::<ProducerCall>::empty());
        assert(as_actions(inherits(d.name@, Seq::<Seq<char>>::empty())) =~= Seq::<ProducerCall>::empty());
        assert(declared_calls(existing, dss.take(n)) =~= dss.take(n).map_values(
            |d: ZfsSpecDataset|
                ProducerCall::Action(ZfsActionView::SetProperties { dataset: d.name@, properties: Seq::empty() }),
        ));
    }
}

/// Exactly the extra datasets are listed for destruction, each once.
pub proof fn lemma_extras_listed_once(existing: Seq<(Seq<char>, Dataset)>, dss: Seq<ZfsSpecDataset>, n: Seq<char>)
    requires
        unique_keys(existing),
    ensures
        extra_names(existing, dss).contains(n) <==> has_key(existing, n) && is_extra(n, dss),
        extra_names(existing, dss).no_duplicates(),
{
    lemma_extra_names(existing, dss);
}

proof fn lemma_unshadowed_slots(props: Seq<(Seq<char>, PropertyValueView)>, target: Seq<char>, later: Set<Slot>, k: Seq<char>)
    ensures
        has_key(unshadowed(props, target, later), k) ==> has_key(props, k) && !later.contains((target, k)),
    decreases props.len(),
{
    if props.len() > 0 {
        lemma_unshadowed_slots(props.drop_last(), target, later, k);
        let prev = unshadowed(props.drop_last(), target, later);
        let cur = unshadowed(props, target, later);
        if has_key(cur, k) {
            let j = choose|j: int| 0 <= j < cur.len() && #[trigger] cur[j].0 == k;
            if j < prev.len() {
                assert(prev[j].0 == k);
                let m = choose|m: int| 0 <= m < props.drop_last().len() && #[trigger] props.drop_last()[m].0 == k;
                assert(props[m].0 == k);
            } else {
                assert(props[props.len() - 1].0 == k);
            }
        }
    }
}

/// After dropping shadowed properties, no property of a dataset is set by
/// two actions.
pub proof fn lemma_shadowed_slots_disjoint(actions: Seq<ZfsActionView>, i: int, j: int, slot: Slot)
    requires
        0 <= i < j < actions.len(),
    ensures
        !(slots_of(drop_shadowed(actions)[i].target(), drop_shadowed(actions)[i].props()).contains(slot)
            && slots_of(drop_shadowed(actions)[j].target(), drop_shadowed(actions)[j].props()).contains(slot)),
{
    let out = drop_shadowed(actions);
    let later_i = set_slots(actions.skip(i + 1));
    let later_j = set_slots(actions.skip(j + 1));
    assert(out[i] == without_shadowed(actions[i], later_i));
    assert(out[j] == without_shadowed(actions[j], later_j));
    lemma_unshadowed_slots(actions[i].props(), actions[i].target(), later_i, slot.1);
    lemma_unshadowed_slots(actions[j].props(), actions[j].target(), later_j, slot.1);
    if slots_of(out[j].target(), out[j].props()).contains(slot) {
        assert(actions.skip(i + 1)[j - i - 1] == actions[j]);
        assert(slots_of(actions.skip(i + 1)[j - i - 1].target(), actions.skip(i + 1)[j - i - 1].props()).contains(slot));
        assert(later_i.contains(slot));
    }
}

proof fn lemma_without_folded_sets(actions: Seq<ZfsActionView>, names: Set<Seq<char>>, k: int)
    requires
        0 <= k < without_folded(actions, names).len(),
    ensures
        without_folded(actions, names)[k] is SetProperties ==> !names.contains(
            without_folded(actions, names)[k].target(),
        ),
    decreases actions.len(),
{
    let prev = without_folded(actions.drop_last(), names);
    if k < prev.len() {
        lemma_without_folded_sets(actions.drop_last(), names, k);
    }
}

/// After folding, no `SetProperties` remains on a dataset that is created.
pub proof fn lemma_fold_leaves_no_settings_on_created(actions: Seq<ZfsActionView>, k: int)
    requires
        0 <= k < fold_into_creates(actions).len(),
        fold_into_creates(actions)[k] is SetProperties,
    ensures
        !created_names(actions).contains(fold_into_creates(actions)[k].target()),
{
    lemma_without_folded_sets(actions, created_names(actions), k);
}

/// The names of the creations among `actions`, in order.
pub open spec fn creation_names(actions: Seq<ZfsActionView>) -> Seq<Seq<char>>
    decreases actions.len(),
{
    if actions.len() == 0 {
        Seq::empty()
    } else {
        let prev = creation_names(actions.drop_last());
        if actions.last() is CreateDataset {
            prev.push(actions.last().target())
        } else {
            prev
        }
    }
}

proof fn lemma_without_folded_creations(actions: Seq<ZfsActionView>, names: Set<Seq<char>>)
    ensures
        creation_names(without_folded(actions, names)) == creation_names(actions),
    decreases actions.len(),
{
    if actions.len() > 0 {
        lemma_without_folded_creations(actions.drop_last(), names);
        let prev = without_folded(actions.drop_last(), names);
        let a = actions.last();
        if !(a is SetProperties && names.contains(a.target())) {
            assert(without_folded(actions, names).drop_last() =~= prev);
        }
    }
}

proof fn lemma_fold_action_creations(s: Seq<ZfsActionView>, all: Seq<ZfsActionView>)
    ensures
        creation_names(s.map_values(|a: ZfsActionView| fold_action(a, all))) == creation_names(s),
        s.map_values(|a: ZfsActionView| fold_action(a, all)).len() == s.len(),
    decreases s.len(),
{
    let m = s.map_values(|a: ZfsActionView| fold_action(a, all));
    if s.len() > 0 {
        lemma_fold_action_creations(s.drop_last(), all);
        assert(m.drop_last() =~= s.drop_last().map_values(|a: ZfsActionView| fold_action(a, all)));
        assert(m.last() == fold_action(s.last(), all));
    }
}

proof fn lemma_creation_names_members(s: Seq<ZfsActionView>, k: Seq<char>)
    ensures
        created_names(s).contains(k) <==> creation_names(s).contains(k),
    decreases s.len(),
{
    if s.len() > 0 {
        let prev = s.drop_last();
        lemma_creation_names_members(prev, k);
        let c = creation_names(s);
        if created_names(s).contains(k) {
            let i = choose|i: int| 0 <= i < s.len() && s[i] is CreateDataset && #[trigger] s[i].target() == k;
            if i < prev.len() {
                assert(prev[i] == s[i]);
                assert(created_names(prev).contains(k));
                let m = choose|m: int| 0 <= m < creation_names(prev).len() && creation_names(prev)[m] == k;
                assert(c[m] == k);
            } else {
                assert(c[c.len() - 1] == k);
            }
        }
        if c.contains(k) {
            let m = choose|m: int| 0 <= m < c.len() && c[m] == k;
            if m < creation_names(prev).len() {
                assert(creation_names(prev)[m] == k);
                assert(creation_names(prev).contains(k));
                let i = choose|i: int| 0 <= i < prev.len() && prev[i] is CreateDataset && #[trigger] prev[i].target() == k;
                assert(s[i] == prev[i]);
            } else {
                assert(s[s.len() - 1].target() == k);
            }
        }
    }
}

proof fn lemma_without_folded_untouched(s: Seq<ZfsActionView>, names: Set<Seq<char>>)
    requires
        forall|j: int| 0 <= j < s.len() && (#[trigger] s[j]) is SetProperties ==> !names.contains(s[j].target()),
    ensures
        without_folded(s, names) == s,
    decreases s.len(),
{
    if s.len() > 0 {
        assert forall|j: int| 0 <= j < s.drop_last().len() && (#[trigger] s.drop_last()[j]) is SetProperties implies !names.contains(
            s.drop_last()[j].target(),
        ) by {
            assert(s[j] == s.drop_last()[j]);
        }
        lemma_without_folded_untouched(s.drop_last(), names);
        assert(s[s.len() - 1] == s.last());
        assert(s.drop_last().push(s.last()) =~= s);
    }
}

proof fn lemma_folded_props_untouched(base: PropertyList, s: Seq<ZfsActionView>, name: Seq<char>)
    requires
        forall|j: int| 0 <= j < s.len() && (#[trigger] s[j]) is SetProperties ==> s[j].target() != name,
    ensures
        folded_props(base, s, name) == base,
    decreases s.len(),
{
    if s.len() > 0 {
        assert forall|j: int| 0 <= j < s.drop_last().len() && (#[trigger] s.drop_last()[j]) is SetProperties implies s.drop_last()[j].target()
            != name by {
            assert(s[j] == s.drop_last()[j]);
        }
        lemma_folded_props_untouched(base, s.drop_last(), name);
        assert(s[s.len() - 1] == s.last());
    }
}

/// Folding keeps the creations, in order: the folded actions create the
/// same datasets in the same order.
pub proof fn lemma_fold_keeps_creations(actions: Seq<ZfsActionView>)
    ensures
        creation_names(fold_into_creates(actions)) == creation_names(actions),
{
    let kept = without_folded(actions, created_names(actions));
    lemma_without_folded_creations(actions, created_names(actions));
    lemma_fold_action_creations(kept, actions);
}

/// Folding a second time changes nothing.
pub proof fn lemma_fold_idempotent(actions: Seq<ZfsActionView>)
    ensures
        fold_into_creates(fold_into_creates(actions)) == fold_into_creates(actions),
{
    let r = fold_into_creates(actions);
    lemma_fold_keeps_creations(actions);
    let kept = without_folded(actions, created_names(actions));
    lemma_fold_action_creations(kept, actions);
    assert forall|k: Seq<char>| created_names(r).contains(k) <==> created_names(actions).contains(k) by {
        lemma_creation_names_members(r, k);
        lemma_creation_names_members(actions, k);
    }
    assert(created_names(r) =~= created_names(actions));
    assert forall|j: int| 0 <= j < r.len() && (#[trigger] r[j]) is SetProperties implies !created_names(r).contains(
        r[j].target(),
    ) by {
        lemma_fold_leaves_no_settings_on_created(actions, j);
    }
    lemma_without_folded_untouched(r, created_names(r));
    assert forall|j: int| 0 <= j < r.len() implies #[trigger] fold_action(r[j], r) == r[j] by {
        if r[j] is CreateDataset {
            let name = r[j].target();
            assert(created_names(r).contains(name));
            assert forall|m: int| 0 <= m < r.len() && (#[trigger] r[m]) is SetProperties implies r[m].target() != name by {
                lemma_fold_leaves_no_settings_on_created(actions, m);
            }
            lemma_folded_props_untouched(r[j].props(), r, name);
        }
    }
    assert(r.map_values(|a: ZfsActionView| fold_action(a, r)) =~= r);
}

proof fn lemma_settings_members(
    current: Seq<(Seq<char>, Property)>,
    props: Seq<(Seq<char>, PropertyValueView)>,
    p: (Seq<char>, PropertyValueView),
)
    ensures
        settings(current, props).contains(p) <==> props.contains(p) && needs_setting(current, p),
    decreases props.len(),
{
    if props.len() > 0 {
        let prev = props.drop_last();
        lemma_settings_members(current, prev, p);
        let sp = settings(current, prev);
        let s = settings(current, props);
        if s.contains(p) {
            let m = choose|m: int| 0 <= m < s.len() && s[m] == p;
            if m < sp.len() {
                assert(sp[m] == p);
                assert(sp.contains(p));
                let t = choose|t: int| 0 <= t < prev.len() && prev[t] == p;
                assert(props[t] == p);
            } else {
                assert(props[props.len() - 1] == p);
            }
        }
        if props.contains(p) && needs_setting(current, p) {
            let t = choose|t: int| 0 <= t < props.len() && props[t] == p;
            if t < prev.len() {
                assert(prev[t] == p);
                assert(sp.contains(p));
                let m = choose|m: int| 0 <= m < sp.len() && sp[m] == p;
                assert(s[m] == p);
            } else {
                assert(s[s.len() - 1] == p);
            }
        }
    }
}

/// For a declared dataset that exists, the `SetProperties` that planning
/// makes for it names that dataset and holds a declared property exactly
/// when the dataset lacks the property, or has it with a different value
/// from a source that allows setting it (local, inherited or default). So a
/// property that already has the declared value is never set again,
/// whatever its source, and a property whose source forbids setting is
/// never set.
pub proof fn lemma_existing_dataset_settings(
    existing: Seq<(Seq<char>, Dataset)>,
    d: ZfsSpecDataset,
    j: int,
    k: Seq<char>,
    v: PropertyValueView,
)
    requires
        has_key(existing, d.name@),
        0 <= j < plan_calls(existing, seq![d]).len(),
    ensures
        match plan_calls(existing, seq![d])[j] {
            ProducerCall::Action(ZfsActionView::SetProperties { dataset, properties }) => {
                &&& dataset == d.name@
                &&& properties.contains((k, v)) <==> view_pairs(d.properties.pairs()).contains((k, v)) && match lookup(
                    lookup(existing, d.name@).unwrap().properties.pairs(),
                    k,
                ) {
                    None => true,
                    Some(q) => (q.source is Local || q.source is Inherited || q.source is Default) && q.value@ != v,
                }
            },
            _ => true,
        },
{
    lemma_key_index(existing, d.name@);
    let dss = seq![d];
    assert(dss.drop_last() =~= Seq::<ZfsSpecDataset>::empty());
    assert(dss.last() == d);
    let ps = view_pairs(d.properties.pairs());
    let cur = lookup(existing, d.name@).unwrap().properties.pairs();
    let block = dataset_calls(existing, d.name@, ps);
    assert(declared_calls(existing, Seq::<ZfsSpecDataset>::empty()) == Seq::<ProducerCall>::empty());
    assert(declared_calls(existing, dss) == declared_calls(existing, dss.drop_last()) + block);
    assert(declared_calls(existing, dss) =~= block);
    let errs = as_errors(refusals(cur, d.name@, ps));
    let unsets = as_actions(inherits(d.name@, undeclared_locals(cur, ps)));
    let all = plan_calls(existing, dss);
    lemma_settings_members(cur, ps, (k, v));
    if j < block.len() {
        assert(all[j] == block[j]);
        if j < errs.len() {
            assert(block[j] == errs[j]);
        } else if j > errs.len() {
            assert(block[j] == unsets[j - errs.len() - 1]);
        } else {
            assert(block[j] == ProducerCall::Action(
                ZfsActionView::SetProperties { dataset: d.name@, properties: settings(cur, ps) },
            ));
        }
    } else {
        assert(all[j] == extra_names(existing, dss).map_values(|n: Seq<char>| ProducerCall::Extra(n))[j - block.len()]);
    }
}

proof fn lemma_parents_upto_members(d: Seq<char>, m: int, n: Seq<char>)
    requires
        0 <= m <= d.len(),
    ensures
        parents_upto(d, m).contains(n) <==> exists|p: int| #![trigger d.take(p)] 0 <= p < m && d[p] == '/' && n == d.take(p),
    decreases m,
{
    if m > 0 {
        lemma_parents_upto_members(d, m - 1, n);
        let prev = parents_upto(d, m - 1);
        let cur = parents_upto(d, m);
        if cur.contains(n) {
            let i = choose|i: int| 0 <= i < cur.len() && cur[i] == n;
            if i < prev.len() {
                assert(prev[i] == n);
                assert(prev.contains(n));
            } else {
                assert(n == d.take(m - 1) && d[m - 1] == '/');
            }
        }
        if exists|p: int| #![trigger d.take(p)] 0 <= p < m && d[p] == '/' && n == d.take(p) {
            let p = choose|p: int| #![trigger d.take(p)] 0 <= p < m && d[p] == '/' && n == d.take(p);
            if p < m - 1 {
                assert(prev.contains(n));
                let i = choose|i: int| 0 <= i < prev.len() && prev[i] == n;
                if d[m - 1] == '/' {
                    assert(cur[i] == n);
                } else {
                    assert(cur == prev);
                }
            } else {
                assert(cur[cur.len() - 1] == n);
            }
        }
    }
}

/// A dataset `n` is an ancestor of `d` exactly when `n` is the text of `d`
/// before one of its `/` characters, and these are the paths of `d`'s ancestors.
pub proof fn lemma_ancestor_is_text_before_slash(n: Seq<char>, d: Seq<char>)
    ensures
        is_ancestor(n, d) <==> exists|p: int| #![trigger d.take(p)] 0 <= p < d.len() && d[p] == '/' && n == d.take(p),
        parent_paths(d).contains(n) <==> exists|p: int| #![trigger d.take(p)] 0 <= p < d.len() && d[p] == '/' && n == d.take(p),
{
    lemma_parents_upto_members(d, d.len() as int, n);
    if is_ancestor(n, d) {
        let p = n.len() as int;
        assert(d.take(p) == n);
    }
    if exists|p: int| #![trigger d.take(p)] 0 <= p < d.len() && d[p] == '/' && n == d.take(p) {
        let p = choose|p: int| #![trigger d.take(p)] 0 <= p < d.len() && d[p] == '/' && n == d.take(p);
        assert(n.len() == p);
    }
}

/// The datasets listed as extra are exactly the existing datasets that no
/// declaration names and that are not the text of any declared name before
/// one of its `/` characters.
pub proof fn lemma_extras_exact(existing: Seq<(Seq<char>, Dataset)>, dss: Seq<ZfsSpecDataset>, n: Seq<char>)
    ensures
        extra_names(existing, dss).contains(n) <==> has_key(existing, n) && forall|i: int|
            #![trigger dss[i]]
            0 <= i < dss.len() ==> dss[i].name@ != n && !(exists|p: int|
                #![trigger dss[i].name@.take(p)]
                0 <= p < dss[i].name@.len() && dss[i].name@[p] == '/' && n == dss[i].name@.take(p)),
{
    lemma_extra_names(existing, dss);
    assert forall|i: int| 0 <= i < dss.len() implies (#[trigger] dss[i]).name@ == dss[i].name@ && (is_ancestor(
        n,
        dss[i].name@,
    ) <==> exists|p: int|
        #![trigger dss[i].name@.take(p)]
        0 <= p < dss[i].name@.len() && dss[i].name@[p] == '/' && n == dss[i].name@.take(p)) by {
        lemma_ancestor_is_text_before_slash(n, dss[i].name@);
    }
}

proof fn lemma_join_spaced(parts: Seq<Seq<char>>, sep: Seq<char>)
    ensures
        crate::action::join(parts, sep) == Seq::new(
            parts.len(),
            |i: int| if i == 0 { parts[0] } else { sep + parts[i] },
        ).flatten(),
    decreases parts.len(),
{
    let f = Seq::new(parts.len(), |i: int| if i == 0 { parts[0] } else { sep + parts[i] });
    if parts.len() == 0 {
        assert(f =~= Seq::<Seq<char>>::empty());
    } else if parts.len() == 1 {
        f.lemma_flatten_one_element();
        assert(f.first() == parts[0]);
    } else {
        let prev = parts.drop_last();
        lemma_join_spaced(prev, sep);
        let g = Seq::new(prev.len(), |i: int| if i == 0 { prev[0] } else { sep + prev[i] });
        assert(f =~= g.push(sep + parts.last()));
        g.lemma_flatten_push(sep + parts.last());
        assert(crate::action::join(parts, sep) == crate::action::join(prev, sep) + sep + parts.last());
        assert(g.flatten() + (sep + parts.last()) =~= g.flatten() + sep + parts.last());
    }
}

/// The command for `SetProperties` is `zfs set`, then one word holding every
/// `name=value` assignment in order, each after the first preceded by one
/// space, then the dataset.
pub proof fn lemma_set_command_words(dataset: Seq<char>, properties: Seq<(Seq<char>, PropertyValueView)>)
    ensures
        command_of(ZfsActionView::SetProperties { dataset, properties }) == seq![
            "zfs"@,
            "set"@,
            Seq::new(
                properties.len(),
                |i: int|
                    if i == 0 {
                        properties[0].0 + "="@ + value_text(properties[0].1)
                    } else {
                        " "@ + (properties[i].0 + "="@ + value_text(properties[i].1))
                    },
            ).flatten(),
            dataset,
        ],
{
    let parts = properties.map_values(|p: (Seq<char>, PropertyValueView)| crate::action::assignment(p));
    lemma_join_spaced(parts, " "@);
    let f = Seq::new(parts.len(), |i: int| if i == 0 { parts[0] } else { " "@ + parts[i] });
    let h = Seq::new(
        properties.len(),
        |i: int|
            if i == 0 {
                properties[0].0 + "="@ + value_text(properties[0].1)
            } else {
                " "@ + (properties[i].0 + "="@ + value_text(properties[i].1))
            },
    );
    assert(f =~= h);
}

proof fn lemma_single_plan(existing: Seq<(Seq<char>, Dataset)>, d: ZfsSpecDataset, x: ProducerCall)
    requires
        !(x is Extra),
    ensures
        plan_calls(existing, seq![d]).contains(x) <==> dataset_calls(existing, d.name@, view_pairs(d.properties.pairs())).contains(x),
{
    let dss = seq![d];
    assert(dss.drop_last() =~= Seq::<ZfsSpecDataset>::empty());
    assert(dss.last() == d);
    let block = dataset_calls(existing, d.name@, view_pairs(d.properties.pairs()));
    assert(declared_calls(existing, Seq::<ZfsSpecDataset>::empty()) == Seq::<ProducerCall>::empty());
    assert(declared_calls(existing, dss) == declared_calls(existing, dss.drop_last()) + block);
    assert(declared_calls(existing, dss) =~= block);
    let extras = extra_names(existing, dss).map_values(|n: Seq<char>| ProducerCall::Extra(n));
    let all = plan_calls(existing, dss);
    if all.contains(x) {
        let j = choose|j: int| 0 <= j < all.len() && all[j] == x;
        if j < block.len() {
            assert(block[j] == x);
        } else {
            assert(all[j] == extras[j - block.len()]);
        }
    }
    if block.contains(x) {
        let j = choose|j: int| 0 <= j < block.len() && block[j] == x;
        assert(all[j] == x);
    }
}

proof fn lemma_refusals_members(
    current: Seq<(Seq<char>, Property)>,
    dataset: Seq<char>,
    props: Seq<(Seq<char>, PropertyValueView)>,
    e: Seq<char>,
)
    ensures
        refusals(current, dataset, props).contains(e) <==> exists|p: (Seq<char>, PropertyValueView)|
            #[trigger] props.contains(p) && is_refused(current, p) && e == refusal_message(
                p.0,
                dataset,
                lookup(current, p.0).unwrap().source,
            ),
    decreases props.len(),
{
    if props.len() > 0 {
        let prev = props.drop_last();
        lemma_refusals_members(current, dataset, prev, e);
        let rp = refusals(current, dataset, prev);
        let r = refusals(current, dataset, props);
        if r.contains(e) {
            let m = choose|m: int| 0 <= m < r.len() && r[m] == e;
            if m < rp.len() {
                assert(rp[m] == e);
                assert(rp.contains(e));
                let p = choose|p: (Seq<char>, PropertyValueView)|
                    #[trigger] prev.contains(p) && is_refused(current, p) && e == refusal_message(
                        p.0,
                        dataset,
                        lookup(current, p.0).unwrap().source,
                    );
                let t = choose|t: int| 0 <= t < prev.len() && prev[t] == p;
                assert(props[t] == p);
                assert(props.contains(p));
            } else {
                assert(props.contains(props.last())) by {
                    assert(props[props.len() - 1] == props.last());
                }
            }
        }
        if exists|p: (Seq<char>, PropertyValueView)|
            #[trigger] props.contains(p) && is_refused(current, p) && e == refusal_message(
                p.0,
                dataset,
                lookup(current, p.0).unwrap().source,
            ) {
            let p = choose|p: (Seq<char>, PropertyValueView)|
                #[trigger] props.contains(p) && is_refused(current, p) && e == refusal_message(
                    p.0,
                    dataset,
                    lookup(current, p.0).unwrap().source,
                );
            let t = choose|t: int| 0 <= t < props.len() && props[t] == p;
            if t < prev.len() {
                assert(prev[t] == p);
                assert(prev.contains(p));
                assert(rp.contains(e));
                let m = choose|m: int| 0 <= m < rp.len() && rp[m] == e;
                assert(r[m] == e);
            } else {
                assert(r[r.len() - 1] == e);
            }
        }
    }
}

/// For a declared dataset that exists, planning reports an error exactly
/// for each declared property that the dataset has from a source that
/// forbids setting it (none, or temporary), naming the property, the
/// dataset and that source.
pub proof fn lemma_existing_dataset_errors(existing: Seq<(Seq<char>, Dataset)>, d: ZfsSpecDataset, e: Seq<char>)
    requires
        has_key(existing, d.name@),
    ensures
        plan_calls(existing, seq![d]).contains(ProducerCall::Error(e)) <==> exists|k: Seq<char>, v: PropertyValueView|
            #[trigger] view_pairs(d.properties.pairs()).contains((k, v)) && match lookup(
                lookup(existing, d.name@).unwrap().properties.pairs(),
                k,
            ) {
                Some(q) => (q.source is NoSource || q.source is TEMPORARY) && e == "cannot set property "@ + k
                    + " of dataset "@ + d.name@ + " because source is "@ + source_text(q.source),
                None => false,
            },
{
    lemma_key_index(existing, d.name@);
    let ps = view_pairs(d.properties.pairs());
    let cur = lookup(existing, d.name@).unwrap().properties.pairs();
    let x = ProducerCall::Error(e);
    lemma_single_plan(existing, d, x);
    let errs = as_errors(refusals(cur, d.name@, ps));
    let unsets = as_actions(inherits(d.name@, undeclared_locals(cur, ps)));
    let block = dataset_calls(existing, d.name@, ps);
    lemma_refusals_members(cur, d.name@, ps, e);
    if block.contains(x) {
        let j = choose|j: int| 0 <= j < block.len() && block[j] == x;
        if j < errs.len() {
            assert(refusals(cur, d.name@, ps)[j] == e);
            assert(refusals(cur, d.name@, ps).contains(e));
            let p = choose|p: (Seq<char>, PropertyValueView)|
                #[trigger] ps.contains(p) && is_refused(cur, p) && e == refusal_message(
                    p.0,
                    d.name@,
                    lookup(cur, p.0).unwrap().source,
                );
            assert(ps.contains((p.0, p.1)));
        } else if j > errs.len() {
            assert(block[j] == unsets[j - errs.len() - 1]);
        }
    }
    if exists|k: Seq<char>, v: PropertyValueView|
        #[trigger] ps.contains((k, v)) && match lookup(cur, k) {
            Some(q) => (q.source is NoSource || q.source is TEMPORARY) && e == "cannot set property "@ + k
                + " of dataset "@ + d.name@ + " because source is "@ + source_text(q.source),
            None => false,
        } {
        let (k, v) = choose|k: Seq<char>, v: PropertyValueView|
            #[trigger] ps.contains((k, v)) && match lookup(cur, k) {
                Some(q) => (q.source is NoSource || q.source is TEMPORARY) && e == "cannot set property "@ + k
                    + " of dataset "@ + d.name@ + " because source is "@ + source_text(q.source),
                None => false,
            };
        assert(ps.contains((k, v)) && is_refused(cur, (k, v)));
        assert(refusals(cur, d.name@, ps).contains(e));
        let m = choose|m: int| 0 <= m < refusals(cur, d.name@, ps).len() && refusals(cur, d.name@, ps)[m] == e;
        assert(block[m] == x);
    }
}

proof fn lemma_undeclared_locals_members(
    current: Seq<(Seq<char>, Property)>,
    props: Seq<(Seq<char>, PropertyValueView)>,
    k: Seq<char>,
)
    ensures
        undeclared_locals(current, props).contains(k) <==> exists|i: int|
            0 <= i < current.len() && (#[trigger] current[i]).0 == k && current[i].1.source is Local && !has_key(props, k),
    decreases current.len(),
{
    if current.len() > 0 {
        let prev = current.drop_last();
        lemma_undeclared_locals_members(prev, props, k);
        let up = undeclared_locals(prev, props);
        let u = undeclared_locals(current, props);
        if u.contains(k) {
            let m = choose|m: int| 0 <= m < u.len() && u[m] == k;
            if m < up.len() {
                assert(up[m] == k);
                assert(up.contains(k));
                let i = choose|i: int| 0 <= i < prev.len() && (#[trigger] prev[i]).0 == k && prev[i].1.source is Local && !has_key(props, k);
                assert(current[i] == prev[i]);
            } else {
                assert(current[current.len() - 1] == current.last());
            }
        }
        if exists|i: int|
            0 <= i < current.len() && (#[trigger] current[i]).0 == k && current[i].1.source is Local && !has_key(props, k) {
            let i = choose|i: int|
                0 <= i < current.len() && (#[trigger] current[i]).0 == k && current[i].1.source is Local && !has_key(props, k);
            if i < prev.len() {
                assert(prev[i] == current[i]);
                assert(up.contains(k));
                let m = choose|m: int| 0 <= m < up.len() && up[m] == k;
                assert(u[m] == k);
            } else {
                assert(u[u.len() - 1] == k);
            }
        }
    }
}

/// For a declared dataset that exists, planning unsets exactly the
/// properties that the dataset has set locally and that the declaration
/// does not name, and only on that dataset.
pub proof fn lemma_existing_dataset_unsets(
    existing: Seq<(Seq<char>, Dataset)>,
    d: ZfsSpecDataset,
    dataset: Seq<char>,
    k: Seq<char>,
)
    requires
        has_key(existing, d.name@),
    ensures
        plan_calls(existing, seq![d]).contains(
            ProducerCall::Action(ZfsActionView::InheritProperty { dataset, property: k }),
        ) <==> dataset == d.name@ && exists|i: int|
            0 <= i < lookup(existing, d.name@).unwrap().properties.pairs().len()
                && (#[trigger] lookup(existing, d.name@).unwrap().properties.pairs()[i]).0 == k
                && lookup(existing, d.name@).unwrap().properties.pairs()[i].1.source is Local
                && !has_key(view_pairs(d.properties.pairs()), k),
{
    lemma_key_index(existing, d.name@);
    let ps = view_pairs(d.properties.pairs());
    let cur = lookup(existing, d.name@).unwrap().properties.pairs();
    let x = ProducerCall::Action(ZfsActionView::InheritProperty { dataset, property: k });
    lemma_single_plan(existing, d, x);
    let errs = as_errors(refusals(cur, d.name@, ps));
    let locals = undeclared_locals(cur, ps);
    let unsets = as_actions(inherits(d.name@, locals));
    let block = dataset_calls(existing, d.name@, ps);
    lemma_undeclared_locals_members(cur, ps, k);
    if block.contains(x) {
        let j = choose|j: int| 0 <= j < block.len() && block[j] == x;
        if j < errs.len() {
            assert(block[j] == errs[j]);
        } else if j > errs.len() {
            assert(block[j] == unsets[j - errs.len() - 1]);
            assert(locals[j - errs.len() - 1] == k);
            assert(locals.contains(k));
        }
    }
    if dataset == d.name@ && locals.contains(k) {
        let m = choose|m: int| 0 <= m < locals.len() && locals[m] == k;
        assert(block[errs.len() + 1 + m] == unsets[m]);
        assert(block[errs.len() + 1 + m] == x);
    }
}

proof fn lemma_parent_creates_members(existing: Seq<(Seq<char>, Dataset)>, parents: Seq<Seq<char>>, a: ZfsActionView)
    ensures
        parent_creates(existing, parents).contains(a) <==> a is CreateDataset && parents.contains(a.target())
            && !has_key(existing, a.target()) && a.props() == Seq::<(Seq<char>, PropertyValueView)>::empty(),
    decreases parents.len(),
{
    if parents.len() > 0 {
        let prev = parents.drop_last();
        lemma_parent_creates_members(existing, prev, a);
        let cp = parent_creates(existing, prev);
        let c = parent_creates(existing, parents);
        if c.contains(a) {
            let m = choose|m: int| 0 <= m < c.len() && c[m] == a;
            if m < cp.len() {
                assert(cp[m] == a);
                assert(cp.contains(a));
                let t = choose|t: int| 0 <= t < prev.len() && prev[t] == a.target();
                assert(parents[t] == a.target());
            } else {
                assert(parents[parents.len() - 1] == a.target());
            }
        }
        if a is CreateDataset && parents.contains(a.target()) && !has_key(existing, a.target()) && a.props()
            == Seq::<(Seq<char>, PropertyValueView)>::empty() {
            let t = choose|t: int| 0 <= t < parents.len() && parents[t] == a.target();
            if t < prev.len() {
                assert(prev[t] == a.target());
                assert(prev.contains(a.target()));
                assert(cp.contains(a));
                let m = choose|m: int| 0 <= m < cp.len() && cp[m] == a;
                assert(c[m] == a);
            } else {
                assert(c[c.len() - 1] == a);
            }
        }
    }
}

/// For a declared dataset that does not exist, planning makes only
/// creations: of the dataset itself with all its declared properties, and,
/// without properties, of each ancestor (the text before a `/` of its name)
/// that does not exist.
pub proof fn lemma_missing_dataset_creates(existing: Seq<(Seq<char>, Dataset)>, d: ZfsSpecDataset, a: ZfsActionView)
    requires
        !has_key(existing, d.name@),
    ensures
        plan_calls(existing, seq![d]).contains(ProducerCall::Action(a)) <==> {
            ||| a == ZfsActionView::CreateDataset { name: d.name@, properties: view_pairs(d.properties.pairs()) }
            ||| a is CreateDataset && a.props() == Seq::<(Seq<char>, PropertyValueView)>::empty() && !has_key(
                existing,
                a.target(),
            ) && exists|p: int|
                #![trigger d.name@.take(p)]
                0 <= p < d.name@.len() && d.name@[p] == '/' && a.target() == d.name@.take(p)
        },
        forall|e: Seq<char>| !(#[trigger] plan_calls(existing, seq![d]).contains(ProducerCall::Error(e))),
{
    lemma_key_index(existing, d.name@);
    let ps = view_pairs(d.properties.pairs());
    let x = ProducerCall::Action(a);
    lemma_single_plan(existing, d, x);
    let parents = parent_paths(d.name@);
    let creates = parent_creates(existing, parents);
    let me = ZfsActionView::CreateDataset { name: d.name@, properties: ps };
    let all = creates.push(me);
    let block = dataset_calls(existing, d.name@, ps);
    assert(block == as_actions(all));
    lemma_parent_creates_members(existing, parents, a);
    lemma_ancestor_is_text_before_slash(a.target(), d.name@);
    if block.contains(x) {
        let j = choose|j: int| 0 <= j < block.len() && block[j] == x;
        assert(all[j] == a);
        if j < creates.len() {
            assert(creates[j] == a);
            assert(creates.contains(a));
        }
    }
    if a == me {
        assert(block[creates.len() as int] == x);
    } else if a is CreateDataset && a.props() == Seq::<(Seq<char>, PropertyValueView)>::empty() && !has_key(
        existing,
        a.target(),
    ) && parents.contains(a.target()) {
        assert(creates.contains(a));
        let j = choose|j: int| 0 <= j < creates.len() && creates[j] == a;
        assert(block[j] == x);
    }
    assert forall|e: Seq<char>| !(#[trigger] plan_calls(existing, seq![d]).contains(ProducerCall::Error(e))) by {
        lemma_single_plan(existing, d, ProducerCall::Error(e));
        if block.contains(ProducerCall::Error(e)) {
            let j = choose|j: int| 0 <= j < block.len() && block[j] == ProducerCall::Error(e);
            assert(block[j] == ProducerCall::Action(all[j]));
        }
    }
}

/// The commands for creations and unsets: `zfs create`, one `-o name=value`
/// word per property in order, then the dataset; and `zfs inherit`, the
/// property, then the dataset.
pub proof fn lemma_create_and_inherit_command_words(
    name: Seq<char>,
    properties: Seq<(Seq<char>, PropertyValueView)>,
    property: Seq<char>,
)
    ensures
        command_of(ZfsActionView::CreateDataset { name, properties }) == seq!["zfs"@, "create"@] + Seq::new(
            properties.len(),
            |i: int| "-o "@ + properties[i].0 + "="@ + value_text(properties[i].1),
        ) + seq![name],
        command_of(ZfsActionView::InheritProperty { dataset: name, property }) == seq![
            "zfs"@,
            "inherit"@,
            property,
            name,
        ],
{
    let words = command_of(ZfsActionView::CreateDataset { name, properties });
    assert(words =~= seq!["zfs"@, "create"@] + Seq::new(
        properties.len(),
        |i: int| "-o "@ + properties[i].0 + "="@ + value_text(properties[i].1),
    ) + seq![name]);
}

proof fn lemma_unshadowed_members(props: PropertyList, target: Seq<char>, later: Set<Slot>, p: (Seq<char>, PropertyValueView))
    ensures
        unshadowed(props, target, later).contains(p) <==> props.contains(p) && !later.contains((target, p.0)),
    decreases props.len(),
{
    if props.len() > 0 {
        let prev = props.drop_last();
        lemma_unshadowed_members(prev, target, later, p);
        let up = unshadowed(prev, target, later);
        let u = unshadowed(props, target, later);
        if u.contains(p) {
            let m = choose|m: int| 0 <= m < u.len() && u[m] == p;
            if m < up.len() {
                assert(up[m] == p);
                assert(up.contains(p));
                let t = choose|t: int| 0 <= t < prev.len() && prev[t] == p;
                assert(props[t] == p);
            } else {
                assert(props[props.len() - 1] == p);
            }
        }
        if props.contains(p) && !later.contains((target, p.0)) {
            let t = choose|t: int| 0 <= t < props.len() && props[t] == p;
            if t < prev.len() {
                assert(prev[t] == p);
                assert(up.contains(p));
                let m = choose|m: int| 0 <= m < up.len() && up[m] == p;
                assert(u[m] == p);
            } else {
                assert(u[u.len() - 1] == p);
            }
        }
    }
}

/// After dropping shadowed properties, action `i` keeps its kind and
/// dataset, and holds a property exactly when it held it before and no
/// later action sets a property of that name on the same dataset.
pub proof fn lemma_shadowed_exact(actions: Seq<ZfsActionView>, i: int, p: (Seq<char>, PropertyValueView))
    requires
        0 <= i < actions.len(),
    ensures
        drop_shadowed(actions)[i].target() == actions[i].target(),
        drop_shadowed(actions)[i] is CreateDataset <==> actions[i] is CreateDataset,
        drop_shadowed(actions)[i] is SetProperties <==> actions[i] is SetProperties,
        drop_shadowed(actions)[i].props().contains(p) <==> actions[i].props().contains(p) && !exists|j: int|
            #![trigger actions[j]]
            i < j < actions.len() && actions[j].target() == actions[i].target() && has_key(actions[j].props(), p.0),
{
    let a = actions[i];
    let later = set_slots(actions.skip(i + 1));
    assert(drop_shadowed(actions)[i] == without_shadowed(a, later));
    lemma_unshadowed_members(a.props(), a.target(), later, p);
    let slot = (a.target(), p.0);
    if later.contains(slot) {
        let m = choose|m: int|
            0 <= m < actions.skip(i + 1).len() && #[trigger] slots_of(actions.skip(i + 1)[m].target(), actions.skip(i + 1)[m].props()).contains(slot);
        assert(actions.skip(i + 1)[m] == actions[i + 1 + m]);
    }
    if exists|j: int|
        #![trigger actions[j]]
        i < j < actions.len() && actions[j].target() == actions[i].target() && has_key(actions[j].props(), p.0) {
        let j = choose|j: int|
            #![trigger actions[j]]
            i < j < actions.len() && actions[j].target() == actions[i].target() && has_key(actions[j].props(), p.0);
        assert(actions.skip(i + 1)[j - i - 1] == actions[j]);
        assert(slots_of(actions.skip(i + 1)[j - i - 1].target(), actions.skip(i + 1)[j - i - 1].props()).contains(slot));
    }
    if a is InheritProperty {
        assert(without_shadowed(a, later) == a);
    }
}

proof fn lemma_first_creates_lookup(actions: Seq<ZfsActionView>, i0: int)
    requires
        0 <= i0 < actions.len(),
        actions[i0] is CreateDataset,
        forall|j: int| 0 <= j < i0 ==> !((#[trigger] actions[j]) is CreateDataset && actions[j].target() == actions[i0].target()),
    ensures
        lookup(first_creates(actions), actions[i0].target()) == Some(actions[i0].props()),
        has_key(first_creates(actions), actions[i0].target()),
    decreases actions.len(),
{
    let name = actions[i0].target();
    let prev = actions.drop_last();
    let known = first_creates(prev);
    if i0 == actions.len() - 1 {
        lemma_first_creates_keys(prev, name);
        assert(!has_key(known, name)) by {
            if has_key(known, name) {
                let j = choose|j: int| 0 <= j < prev.len() && prev[j] is CreateDataset && #[trigger] prev[j].target() == name;
                assert(actions[j] == prev[j]);
            }
        }
        let t = known.push((name, actions[i0].props()));
        assert(first_creates(actions) == t);
        lemma_key_index(t, name);
        assert(t.last().0 == name);
    } else {
        assert(prev[i0] == actions[i0]);
        assert forall|j: int| 0 <= j < i0 implies !((#[trigger] prev[j]) is CreateDataset && prev[j].target() == prev[i0].target()) by {
            assert(prev[j] == actions[j]);
        }
        lemma_first_creates_lookup(prev, i0);
        lemma_key_index(known, name);
        if actions.last() is CreateDataset && !has_key(known, actions.last().target()) {
            let t = known.push((actions.last().target(), actions.last().props()));
            assert(first_creates(actions) == t);
            assert(actions.last().target() != name);
            assert(t.drop_last() =~= known);
            lemma_key_index(t, name);
            assert(t[crate::strmap::key_index(t, name)] == known[crate::strmap::key_index(t, name)]);
        } else {
            assert(first_creates(actions) == known);
        }
    }
}

proof fn lemma_first_creates_keys(actions: Seq<ZfsActionView>, k: Seq<char>)
    ensures
        has_key(first_creates(actions), k) <==> exists|j: int|
            0 <= j < actions.len() && actions[j] is CreateDataset && #[trigger] actions[j].target() == k,
    decreases actions.len(),
{
    if actions.len() > 0 {
        let prev = actions.drop_last();
        lemma_first_creates_keys(prev, k);
        let known = first_creates(prev);
        let f = first_creates(actions);
        if has_key(f, k) {
            let m = choose|m: int| 0 <= m < f.len() && #[trigger] f[m].0 == k;
            if m < known.len() {
                assert(known[m].0 == k);
                let j = choose|j: int| 0 <= j < prev.len() && prev[j] is CreateDataset && #[trigger] prev[j].target() == k;
                assert(actions[j] == prev[j]);
            } else {
                assert(actions[actions.len() - 1].target() == k);
            }
        }
        if exists|j: int| 0 <= j < actions.len() && actions[j] is CreateDataset && #[trigger] actions[j].target() == k {
            let j = choose|j: int| 0 <= j < actions.len() && actions[j] is CreateDataset && #[trigger] actions[j].target() == k;
            if j < prev.len() {
                assert(prev[j] == actions[j]);
                let m = choose|m: int| 0 <= m < known.len() && #[trigger] known[m].0 == k;
                assert(f[m] == known[m]);
            } else if has_key(known, k) {
                let m = choose|m: int| 0 <= m < known.len() && #[trigger] known[m].0 == k;
                assert(f[m] == known[m]);
            } else {
                assert(f[f.len() - 1].0 == k);
            }
        }
    }
}

proof fn lemma_changed_members(existing: PropertyList, props: PropertyList, p: (Seq<char>, PropertyValueView))
    ensures
        changed_properties(existing, props).contains(p) <==> props.contains(p) && lookup(existing, p.0) != Some(p.1),
    decreases props.len(),
{
    if props.len() > 0 {
        let prev = props.drop_last();
        lemma_changed_members(existing, prev, p);
        let cp = changed_properties(existing, prev);
        let c = changed_properties(existing, props);
        if c.contains(p) {
            let m = choose|m: int| 0 <= m < c.len() && c[m] == p;
            if m < cp.len() {
                assert(cp[m] == p);
                assert(cp.contains(p));
                let t = choose|t: int| 0 <= t < prev.len() && prev[t] == p;
                assert(props[t] == p);
            } else {
                assert(props[props.len() - 1] == p);
            }
        }
        if props.contains(p) && lookup(existing, p.0) != Some(p.1) {
            let t = choose|t: int| 0 <= t < props.len() && props[t] == p;
            if t < prev.len() {
                assert(prev[t] == p);
                assert(cp.contains(p));
                let m = choose|m: int| 0 <= m < cp.len() && cp[m] == p;
                assert(c[m] == p);
            } else {
                assert(c[c.len() - 1] == p);
            }
        }
    }
}

/// A repeated creation of a dataset, whose first creation is action `i0`,
/// turns into one `SetProperties` per property: exactly those of its
/// properties whose value differs from the one in the first creation, each
/// alone on that dataset.
pub proof fn lemma_merge_repeated_create(
    actions: Seq<ZfsActionView>,
    i0: int,
    properties: PropertyList,
    a: ZfsActionView,
)
    requires
        0 <= i0 < actions.len(),
        actions[i0] is CreateDataset,
        forall|j: int| 0 <= j < i0 ==> !((#[trigger] actions[j]) is CreateDataset && actions[j].target() == actions[i0].target()),
    ensures
        merge_creates(actions.push((ZfsActionView::CreateDataset { name: actions[i0].target(), properties }))).skip(
            merge_creates(actions).len() as int,
        ).contains(a) <==> exists|p: (Seq<char>, PropertyValueView)|
            #[trigger] properties.contains(p) && lookup(actions[i0].props(), p.0) != Some(p.1) && a
                == (ZfsActionView::SetProperties { dataset: actions[i0].target(), properties: seq![p] }),
{
    let name = actions[i0].target();
    let c = ZfsActionView::CreateDataset { name, properties };
    let all = actions.push(c);
    assert(all.drop_last() =~= actions);
    assert(all.last() == c);
    lemma_first_creates_lookup(actions, i0);
    let known = first_creates(actions);
    let changes = changed_properties(actions[i0].props(), properties);
    let tail = one_by_one(name, changes);
    assert(merge_creates(all) == merge_creates(actions) + tail);
    assert(merge_creates(all).skip(merge_creates(actions).len() as int) =~= tail);
    if tail.contains(a) {
        let m = choose|m: int| 0 <= m < tail.len() && tail[m] == a;
        let p = changes[m];
        assert(changes.contains(p));
        lemma_changed_members(actions[i0].props(), properties, p);
        assert(properties.contains(p) && lookup(actions[i0].props(), p.0) != Some(p.1));
    }
    if exists|p: (Seq<char>, PropertyValueView)|
        #[trigger] properties.contains(p) && lookup(actions[i0].props(), p.0) != Some(p.1) && a
            == (ZfsActionView::SetProperties { dataset: name, properties: seq![p] }) {
        let p = choose|p: (Seq<char>, PropertyValueView)|
            #[trigger] properties.contains(p) && lookup(actions[i0].props(), p.0) != Some(p.1) && a
                == (ZfsActionView::SetProperties { dataset: name, properties: seq![p] });
        lemma_changed_members(actions[i0].props(), properties, p);
        let m = choose|m: int| 0 <= m < changes.len() && changes[m] == p;
        assert(tail[m] == a);
    }
}

} // verus!
