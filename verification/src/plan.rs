use vstd::prelude::*;

use crate::action::{ZfsAction, ZfsActionView};
use crate::model::{Dataset, Property, PropertySource, ZfsListOutput, ZfsSpec, ZfsSpecDataset};
use crate::producer::{ActionProducer, ProducerCall};
use crate::strmap::{
    has_key, lemma_has_key_view, lemma_insert_absent, lemma_key_index, lemma_unique_prefix,
    lemma_view_push, lemma_view_take, lookup, unique_keys, view_pairs, StrMap,
};
use crate::value::{PropertyValue, PropertyValueView};

verus! {

/// What `{:?}` prints for a `str` with text `s`: the text in double quotes,
/// with special characters escaped.
pub uninterp spec fn str_debug(s: Seq<char>) -> Seq<char>;

/// Calls `<str as Debug>::fmt` through `format!("{:?}", ..)`; the result is
/// taken to be `str_debug` of the text, a function of the text alone.
#[verifier::external_body]
fn debug_quoted(s: &str) -> (r: String)
    ensures
        r@ == str_debug(s@),
{
    format!("{:?}", s)
}

/// Whether a property whose value comes from `source` may be set.
pub open spec fn is_settable(source: PropertySource) -> bool {
    match source {
        PropertySource::Local { .. } => true,
        PropertySource::Inherited { .. } => true,
        PropertySource::Default { .. } => true,
        _ => false,
    }
}

/// How a source is written in messages, as its `Debug` form.
pub open spec fn source_text(source: PropertySource) -> Seq<char> {
    match source {
        PropertySource::Local { data } => "Local { data: "@ + str_debug(data@) + " }"@,
        PropertySource::NoSource { data } => "None { data: "@ + str_debug(data@) + " }"@,
        PropertySource::Inherited { data } => "Inherited { data: "@ + str_debug(data@) + " }"@,
        PropertySource::Default { data } => "Default { data: "@ + str_debug(data@) + " }"@,
        PropertySource::TEMPORARY { data } => "TEMPORARY { data: "@ + str_debug(data@) + " }"@,
    }
}

/// The error reported for a declared property that cannot be set.
pub open spec fn refusal_message(property: Seq<char>, dataset: Seq<char>, source: PropertySource) -> Seq<char> {
    "cannot set property "@ + property + " of dataset "@ + dataset + " because source is "@ + source_text(source)
}

/// Whether the declared property `p` must be set on a dataset whose
/// current properties are `current`: it is absent, or it differs from a
/// value that may be changed.
pub open spec fn needs_setting(current: Seq<(Seq<char>, Property)>, p: (Seq<char>, PropertyValueView)) -> bool {
    match lookup(current, p.0) {
        None => true,
        Some(prop) => is_settable(prop.source) && prop.value@ != p.1,
    }
}

/// Whether the declared property `p` is present with a source that forbids setting it.
pub open spec fn is_refused(current: Seq<(Seq<char>, Property)>, p: (Seq<char>, PropertyValueView)) -> bool {
    match lookup(current, p.0) {
        None => false,
        Some(prop) => !is_settable(prop.source),
    }
}

/// The declared properties that must be set, in declaration order.
pub open spec fn settings(
    current: Seq<(Seq<char>, Property)>,
    props: Seq<(Seq<char>, PropertyValueView)>,
) -> Seq<(Seq<char>, PropertyValueView)>
    decreases props.len(),
{
    if props.len() == 0 {
        Seq::empty()
    } else {
        let prev = settings(current, props.drop_last());
        if needs_setting(current, props.last()) {
            prev.push(props.last())
        } else {
            prev
        }
    }
}

/// The errors for declared properties that cannot be set, in declaration order.
pub open spec fn refusals(
    current: Seq<(Seq<char>, Property)>,
    dataset: Seq<char>,
    props: Seq<(Seq<char>, PropertyValueView)>,
) -> Seq<Seq<char>>
    decreases props.len(),
{
    if props.len() == 0 {
        Seq::empty()
    } else {
        let prev = refusals(current, dataset, props.drop_last());
        let p = props.last();
        if is_refused(current, p) {
            prev.push(refusal_message(p.0, dataset, lookup(current, p.0).unwrap().source))
        } else {
            prev
        }
    }
}

/// The paths of the ancestors of `name` found among its first `n`
/// characters: the text before each `/`, shortest first.
pub open spec fn parents_upto(name: Seq<char>, n: int) -> Seq<Seq<char>>
    decreases n,
{
    if n <= 0 {
        Seq::empty()
    } else {
        let prev = parents_upto(name, n - 1);
        if name[n - 1] == '/' {
            prev.push(name.take(n - 1))
        } else {
            prev
        }
    }
}

/// The paths of all ancestors of `name`.
pub open spec fn parent_paths(name: Seq<char>) -> Seq<Seq<char>> {
    parents_upto(name, name.len() as int)
}

/// The creations of those `parents` that do not exist yet, in order.
pub open spec fn parent_creates(
    existing: Seq<(Seq<char>, Dataset)>,
    parents: Seq<Seq<char>>,
) -> Seq<ZfsActionView>
    decreases parents.len(),
{
    if parents.len() == 0 {
        Seq::empty()
    } else {
        let prev = parent_creates(existing, parents.drop_last());
        if has_key(existing, parents.last()) {
            prev
        } else {
            prev.push(ZfsActionView::CreateDataset { name: parents.last(), properties: Seq::empty() })
        }
    }
}

/// The locally set properties among `current` that `props` does not
/// declare, in the order of `current`.
pub open spec fn undeclared_locals(
    current: Seq<(Seq<char>, Property)>,
    props: Seq<(Seq<char>, PropertyValueView)>,
) -> Seq<Seq<char>>
    decreases current.len(),
{
    if current.len() == 0 {
        Seq::empty()
    } else {
        let prev = undeclared_locals(current.drop_last(), props);
        let e = current.last();
        if e.1.source is Local && !has_key(props, e.0) {
            prev.push(e.0)
        } else {
            prev
        }
    }
}

/// Actions as producer calls.
pub open spec fn as_actions(s: Seq<ZfsActionView>) -> Seq<ProducerCall> {
    s.map_values(|a: ZfsActionView| ProducerCall::Action(a))
}

/// Error messages as producer calls.
pub open spec fn as_errors(s: Seq<Seq<char>>) -> Seq<ProducerCall> {
    s.map_values(|e: Seq<char>| ProducerCall::Error(e))
}

/// One unset of each of `names` on `dataset`.
pub open spec fn inherits(dataset: Seq<char>, names: Seq<Seq<char>>) -> Seq<ZfsActionView> {
    names.map_values(|k: Seq<char>| ZfsActionView::InheritProperty { dataset, property: k })
}

/// The calls for one declared dataset. For an existing one: an error for
/// each declared property whose source forbids setting it, then one
/// `SetProperties` with what must change, then an unset of each locally
/// set property that is not declared. For a missing one: the creation of
/// its missing ancestors and then of itself with all declared properties.
pub open spec fn dataset_calls(
    existing: Seq<(Seq<char>, Dataset)>,
    name: Seq<char>,
    props: Seq<(Seq<char>, PropertyValueView)>,
) -> Seq<ProducerCall> {
    match lookup(existing, name) {
        Some(d) => as_errors(refusals(d.properties.pairs(), name, props)) + seq![
            ProducerCall::Action(
                ZfsActionView::SetProperties { dataset: name, properties: settings(d.properties.pairs(), props) },
            ),
        ] + as_actions(inherits(name, undeclared_locals(d.properties.pairs(), props))),
        None => as_actions(
            parent_creates(existing, parent_paths(name)).push(ZfsActionView::CreateDataset { name, properties: props }),
        ),
    }
}

/// The calls for the declared datasets `dss`: one block per dataset, in order.
pub open spec fn declared_calls(existing: Seq<(Seq<char>, Dataset)>, dss: Seq<ZfsSpecDataset>) -> Seq<ProducerCall>
    decreases dss.len(),
{
    if dss.len() == 0 {
        Seq::empty()
    } else {
        let d = dss.last();
        declared_calls(existing, dss.drop_last()) + dataset_calls(existing, d.name@, view_pairs(d.properties.pairs()))
    }
}

/// Whether `n` is the path of an ancestor of the dataset `d`.
pub open spec fn is_ancestor(n: Seq<char>, d: Seq<char>) -> bool {
    n.len() < d.len() && d[n.len() as int] == '/' && d.take(n.len() as int) == n
}

/// Whether the existing dataset `n` is extra: no declared dataset is `n`
/// or lies below it.
pub open spec fn is_extra(n: Seq<char>, dss: Seq<ZfsSpecDataset>) -> bool {
    forall|i: int| 0 <= i < dss.len() ==> #[trigger] dss[i].name@ != n && !is_ancestor(n, dss[i].name@)
}

/// The extra datasets among `existing`, in its order.
pub open spec fn extra_names(existing: Seq<(Seq<char>, Dataset)>, dss: Seq<ZfsSpecDataset>) -> Seq<Seq<char>>
    decreases existing.len(),
{
    if existing.len() == 0 {
        Seq::empty()
    } else {
        let prev = extra_names(existing.drop_last(), dss);
        if is_extra(existing.last().0, dss) {
            prev.push(existing.last().0)
        } else {
            prev
        }
    }
}

/// Everything planning hands over: the blocks of the declared datasets, then
/// each extra dataset, listed for destruction but left untouched.
pub open spec fn plan_calls(existing: Seq<(Seq<char>, Dataset)>, dss: Seq<ZfsSpecDataset>) -> Seq<ProducerCall> {
    declared_calls(existing, dss) + extra_names(existing, dss).map_values(|n: Seq<char>| ProducerCall::Extra(n))
}

fn is_settable_source(source: &PropertySource) -> (r: bool)
    ensures
        r == is_settable(*source),
{
    match source {
        PropertySource::Local { .. } => true,
        PropertySource::Inherited { .. } => true,
        PropertySource::Default { .. } => true,
        _ => false,
    }
}

fn describe_source(source: &PropertySource) -> (r: String)
    ensures
        r@ == source_text(*source),
{
    let (label, data) = match source {
        PropertySource::Local { data } => ("Local { data: ", data),
        PropertySource::NoSource { data } => ("None { data: ", data),
        PropertySource::Inherited { data } => ("Inherited { data: ", data),
        PropertySource::Default { data } => ("Default { data: ", data),
        PropertySource::TEMPORARY { data } => ("TEMPORARY { data: ", data),
    };
    let mut r = String::from_str(label);
    let quoted = debug_quoted(data.as_str());
    r.append(quoted.as_str());
    r.append(" }");
    r
}

fn refusal_text(property: &String, dataset: &String, source: &PropertySource) -> (r: String)
    ensures
        r@ == refusal_message(property@, dataset@, *source),
{
    let mut r = String::from_str("cannot set property ");
    r.append(property.as_str());
    r.append(" of dataset ");
    r.append(dataset.as_str());
    r.append(" because source is ");
    let described = describe_source(source);
    r.append(described.as_str());
    r
}

proof fn lemma_settings_keys(
    current: Seq<(Seq<char>, Property)>,
    props: Seq<(Seq<char>, PropertyValueView)>,
    k: Seq<char>,
)
    ensures
        has_key(settings(current, props), k) ==> has_key(props, k),
    decreases props.len(),
{
    if props.len() > 0 {
        lemma_settings_keys(current, props.drop_last(), k);
        let prev = settings(current, props.drop_last());
        if has_key(settings(current, props), k) {
            let j = choose|j: int| 0 <= j < settings(current, props).len() && #[trigger] settings(current, props)[j].0 == k;
            if j < prev.len() {
                assert(prev[j].0 == k);
                let m = choose|m: int| 0 <= m < props.drop_last().len() && #[trigger] props.drop_last()[m].0 == k;
                assert(props[m].0 == k);
            } else {
                assert(props[props.len() - 1].0 == k);
            }
        }
    }
}

/// Plans a declared dataset that exists already.
fn plan_existing<AP: ActionProducer>(action_producer: &mut AP, dataset: &ZfsSpecDataset, current: &Dataset)
    ensures
        final(action_producer).calls() == old(action_producer).calls() + as_errors(
            refusals(current.properties.pairs(), dataset.name@, view_pairs(dataset.properties.pairs())),
        ) + seq![
            ProducerCall::Action(
                ZfsActionView::SetProperties {
                    dataset: dataset.name@,
                    properties: settings(current.properties.pairs(), view_pairs(dataset.properties.pairs())),
                },
            ),
        ] + as_actions(
            inherits(dataset.name@, undeclared_locals(current.properties.pairs(), view_pairs(dataset.properties.pairs()))),
        ),
        old(action_producer).faithful() ==> final(action_producer).faithful(),
{
    let ghost cur = current.properties.pairs();
    let ghost raw = dataset.properties.pairs();
    let ghost ps = view_pairs(raw);
    let ghost start = action_producer.calls();
    let n = dataset.properties.len();
    let mut properties: StrMap<PropertyValue> = StrMap::new();
    let mut j: usize = 0;
    assert(ps.take(0) =~= Seq::<(Seq<char>, PropertyValueView)>::empty());
    assert(view_pairs(properties.pairs()) =~= Seq::<(Seq<char>, PropertyValueView)>::empty());
    assert(start + as_errors(Seq::<Seq<char>>::empty()) =~= start);
    while j < n
        invariant
            n == raw.len(),
            j <= n,
            cur == current.properties.pairs(),
            raw == dataset.properties.pairs(),
            ps == view_pairs(raw),
            unique_keys(raw),
            start == old(action_producer).calls(),
            old(action_producer).faithful() ==> action_producer.faithful(),
            view_pairs(properties.pairs()) == settings(cur, ps.take(j as int)),
            action_producer.calls() == start + as_errors(refusals(cur, dataset.name@, ps.take(j as int))),
        decreases n - j,
    {
        let key = dataset.properties.key_at(j);
        let value = dataset.properties.value_at(j);
        let ghost before = properties.pairs();
        proof {
            lemma_view_take(raw, j as int);
            lemma_view_take(raw, j + 1);
            lemma_unique_prefix(raw, j as int);
            assert(ps[j as int] == (key@, value@));
            assert(ps.take(j + 1).drop_last() =~= ps.take(j as int));
            assert(ps.take(j + 1).last() == ps[j as int]);
            lemma_has_key_view(raw.take(j as int), key@);
            lemma_settings_keys(cur, ps.take(j as int), key@);
            lemma_has_key_view(before, key@);
            lemma_key_index(cur, key@);
        }
        match current.get_property(key.as_str()) {
            Some(state) => {
                if is_settable_source(&state.source) {
                    if !(state.value == *value) {
                        let v = value.clone();
                        proof {
                            lemma_insert_absent(before, key@, v);
                            lemma_view_push(before, key@, v);
                        }
                        properties.insert(key.clone(), v);
                    }
                } else {
                    let message = refusal_text(key, &dataset.name, &state.source);
                    action_producer.produce_error(message);
                }
            },
            None => {
                let v = value.clone();
                proof {
                    lemma_insert_absent(before, key@, v);
                    lemma_view_push(before, key@, v);
                }
                properties.insert(key.clone(), v);
            },
        }
        assert(action_producer.calls() =~= start + as_errors(refusals(cur, dataset.name@, ps.take(j + 1))));
        j = j + 1;
    }
    assert(ps.take(n as int) =~= ps);
    action_producer.produce_action(ZfsAction::SetProperties { dataset: dataset.name.clone(), properties });
    let ghost middle = action_producer.calls();
    let m = current.properties.len();
    let mut k: usize = 0;
    assert(cur.take(0) =~= Seq::<(Seq<char>, Property)>::empty());
    assert(middle + as_actions(inherits(dataset.name@, Seq::<Seq<char>>::empty())) =~= middle);
    while k < m
        invariant
            m == cur.len(),
            k <= m,
            cur == current.properties.pairs(),
            ps == view_pairs(dataset.properties.pairs()),
            old(action_producer).faithful() ==> action_producer.faithful(),
            action_producer.calls() == middle + as_actions(
                inherits(dataset.name@, undeclared_locals(cur.take(k as int), ps)),
            ),
        decreases m - k,
    {
        let key = current.properties.key_at(k);
        let state = current.properties.value_at(k);
        proof {
            assert(cur.take(k + 1).drop_last() =~= cur.take(k as int));
            assert(cur.take(k + 1).last() == cur[k as int]);
            lemma_has_key_view(dataset.properties.pairs(), key@);
        }
        let is_local = match &state.source {
            PropertySource::Local { .. } => true,
            _ => false,
        };
        if is_local && !dataset.properties.contains_key(key.as_str()) {
            action_producer.produce_action(
                ZfsAction::InheritProperty { dataset: dataset.name.clone(), property: key.clone() },
            );
        }
        assert(action_producer.calls() =~= middle + as_actions(
            inherits(dataset.name@, undeclared_locals(cur.take(k + 1), ps)),
        ));
        k = k + 1;
    }
    assert(cur.take(m as int) =~= cur);
    assert(action_producer.calls() =~= old(action_producer).calls() + as_errors(
        refusals(cur, dataset.name@, ps),
    ) + seq![
        ProducerCall::Action(ZfsActionView::SetProperties { dataset: dataset.name@, properties: settings(cur, ps) }),
    ] + as_actions(inherits(dataset.name@, undeclared_locals(cur, ps))));
}

/// Plans a declared dataset that does not exist yet.
fn plan_missing<AP: ActionProducer>(action_producer: &mut AP, state: &ZfsListOutput, dataset: &ZfsSpecDataset)
    ensures
        final(action_producer).calls() == old(action_producer).calls() + as_actions(
            parent_creates(state.datasets.pairs(), parent_paths(dataset.name@)).push(
                ZfsActionView::CreateDataset { name: dataset.name@, properties: view_pairs(dataset.properties.pairs()) },
            ),
        ),
        old(action_producer).faithful() ==> final(action_producer).faithful(),
{
    let ghost existing = state.datasets.pairs();
    let ghost start = action_producer.calls();
    let name = dataset.name.as_str();
    let len = name.unicode_len();
    let mut i: usize = 0;
    assert(start + as_actions(Seq::<ZfsActionView>::empty()) =~= start);
    while i < len
        invariant
            len == name@.len(),
            name@ == dataset.name@,
            i <= len,
            existing == state.datasets.pairs(),
            start == old(action_producer).calls(),
            old(action_producer).faithful() ==> action_producer.faithful(),
            action_producer.calls() == start + as_actions(parent_creates(existing, parents_upto(name@, i as int))),
        decreases len - i,
    {
        let c = name.get_char(i);
        let ghost parents = parents_upto(name@, i as int);
        if c == '/' {
            let prefix = name.substring_char(0, i);
            proof {
                assert(parents.push(name@.take(i as int)).drop_last() =~= parents);
                assert(prefix@ =~= name@.take(i as int));
                lemma_key_index(existing, prefix@);
            }
            if state.get_dataset(prefix).is_none() {
                let created = ZfsAction::CreateDataset { name: prefix.to_owned(), properties: StrMap::new() };
                assert(view_pairs(Seq::<(Seq<char>, PropertyValue)>::empty()) =~= Seq::<
                    (Seq<char>, PropertyValueView),
                >::empty());
                action_producer.produce_action(created);
            }
        }
        proof {
            assert(parents_upto(name@, i + 1) == if name@[i as int] == '/' {
                parents.push(name@.take(i as int))
            } else {
                parents
            });
        }
        assert(action_producer.calls() =~= start + as_actions(parent_creates(existing, parents_upto(name@, i + 1))));
        i = i + 1;
    }
    let created = ZfsAction::CreateDataset { name: dataset.name.clone(), properties: dataset.properties.clone() };
    action_producer.produce_action(created);
    assert(action_producer.calls() =~= start + as_actions(
        parent_creates(existing, parent_paths(dataset.name@)).push(
            ZfsActionView::CreateDataset { name: dataset.name@, properties: view_pairs(dataset.properties.pairs()) },
        ),
    ));
}

/// Whether `n` is the path of an ancestor of `d`.
fn is_ancestor_path(n: &String, d: &String) -> (r: bool)
    ensures
        r == is_ancestor(n@, d@),
{
    let n_len = n.as_str().unicode_len();
    let d_len = d.as_str().unicode_len();
    if n_len < d_len && d.as_str().get_char(n_len) == '/' {
        let head = d.as_str().substring_char(0, n_len).to_owned();
        assert(head@ =~= d@.take(n_len as int));
        head == *n
    } else {
        false
    }
}

/// Whether the existing dataset `n` is extra with respect to `spec`.
fn is_extra_dataset(n: &String, spec: &ZfsSpec) -> (r: bool)
    ensures
        r == is_extra(n@, spec.datasets@),
{
    let mut i: usize = 0;
    while i < spec.datasets.len()
        invariant
            i <= spec.datasets@.len(),
            forall|m: int| 0 <= m < i ==> #[trigger] spec.datasets@[m].name@ != n@ && !is_ancestor(n@, spec.datasets@[m].name@),
        decreases spec.datasets@.len() - i,
    {
        let declared = &spec.datasets[i].name;
        if *declared == *n || is_ancestor_path(n, declared) {
            assert(!(spec.datasets@[i as int].name@ != n@ && !is_ancestor(n@, spec.datasets@[i as int].name@)));
            return false;
        }
        i = i + 1;
    }
    true
}

/// Compares the declared datasets of `spec`, in order, with the existing
/// datasets of `state`, and hands the resulting calls to `action_producer`:
/// a block per declared dataset, then every extra dataset, which is only
/// listed for destruction.
pub fn eval_spec<AP: ActionProducer>(action_producer: &mut AP, state: &ZfsListOutput, spec: &ZfsSpec)
    ensures
        final(action_producer).calls() == old(action_producer).calls() + plan_calls(
            state.datasets.pairs(),
            spec.datasets@,
        ),
        old(action_producer).faithful() ==> final(action_producer).faithful(),
{
    let ghost existing = state.datasets.pairs();
    let ghost start = action_producer.calls();
    let mut i: usize = 0;
    assert(spec.datasets@.take(0) =~= Seq::<ZfsSpecDataset>::empty());
    assert(start + Seq::<ProducerCall>::empty() =~= start);
    while i < spec.datasets.len()
        invariant
            i <= spec.datasets@.len(),
            existing == state.datasets.pairs(),
            start == old(action_producer).calls(),
            old(action_producer).faithful() ==> action_producer.faithful(),
            action_producer.calls() == start + declared_calls(existing, spec.datasets@.take(i as int)),
        decreases spec.datasets@.len() - i,
    {
        let dataset = &spec.datasets[i];
        proof {
            assert(spec.datasets@.take(i + 1).drop_last() =~= spec.datasets@.take(i as int));
            assert(spec.datasets@.take(i + 1).last() == *dataset);
        }
        match state.get_dataset(dataset.name.as_str()) {
            Some(dataset_state) => {
                plan_existing(action_producer, dataset, dataset_state);
            },
            None => {
                plan_missing(action_producer, state, dataset);
            },
        }
        assert(action_producer.calls() =~= start + declared_calls(existing, spec.datasets@.take(i + 1)));
        i = i + 1;
    }
    assert(spec.datasets@.take(spec.datasets@.len() as int) =~= spec.datasets@);
    let ghost declared = action_producer.calls();
    let m = state.datasets.len();
    let mut k: usize = 0;
    assert(existing.take(0) =~= Seq::<(Seq<char>, Dataset)>::empty());
    assert(declared + Seq::<Seq<char>>::empty().map_values(|n: Seq<char>| ProducerCall::Extra(n)) =~= declared);
    while k < m
        invariant
            m == existing.len(),
            k <= m,
            existing == state.datasets.pairs(),
            old(action_producer).faithful() ==> action_producer.faithful(),
            action_producer.calls() == declared + extra_names(existing.take(k as int), spec.datasets@).map_values(
                |n: Seq<char>| ProducerCall::Extra(n),
            ),
        decreases m - k,
    {
        let key = state.datasets.key_at(k);
        proof {
            assert(existing.take(k + 1).drop_last() =~= existing.take(k as int));
            assert(existing.take(k + 1).last() == existing[k as int]);
        }
        if is_extra_dataset(key, spec) {
            action_producer.produce_extra(key.clone());
        }
        assert(action_producer.calls() =~= declared + extra_names(existing.take(k + 1), spec.datasets@).map_values(
            |n: Seq<char>| ProducerCall::Extra(n),
        ));
        k = k + 1;
    }
    assert(existing.take(m as int) =~= existing);
}

} // verus!
