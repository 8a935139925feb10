use vstd::prelude::*;

use crate::strmap::{view_pairs, StrMap};
use crate::value::{value_text, PropertyValue, PropertyValueView};

verus! {

/// A change to make to the datasets.
pub enum ZfsAction {
    /// Create the dataset `name` with the given properties.
    CreateDataset { name: String, properties: StrMap<PropertyValue> },
    /// Set the given properties on the existing dataset `dataset`.
    SetProperties { dataset: String, properties: StrMap<PropertyValue> },
    /// Unset the locally set property `property` of `dataset`, so that it
    /// is inherited again.
    InheritProperty { dataset: String, property: String },
}

/// Mathematical model of a [`ZfsAction`].
pub enum ZfsActionView {
    CreateDataset { name: Seq<char>, properties: Seq<(Seq<char>, PropertyValueView)> },
    SetProperties { dataset: Seq<char>, properties: Seq<(Seq<char>, PropertyValueView)> },
    InheritProperty { dataset: Seq<char>, property: Seq<char> },
}

impl View for ZfsAction {
    type V = ZfsActionView;

    open spec fn view(&self) -> ZfsActionView {
        match self {
            ZfsAction::CreateDataset { name, properties } => ZfsActionView::CreateDataset {
                name: name@,
                properties: view_pairs(properties.pairs()),
            },
            ZfsAction::SetProperties { dataset, properties } => ZfsActionView::SetProperties {
                dataset: dataset@,
                properties: view_pairs(properties.pairs()),
            },
            ZfsAction::InheritProperty { dataset, property } => ZfsActionView::InheritProperty {
                dataset: dataset@,
                property: property@,
            },
        }
    }
}

impl ZfsActionView {
    /// The dataset the action is about.
    pub open spec fn target(self) -> Seq<char> {
        match self {
            ZfsActionView::CreateDataset { name, .. } => name,
            ZfsActionView::SetProperties { dataset, .. } => dataset,
            ZfsActionView::InheritProperty { dataset, .. } => dataset,
        }
    }

    /// The properties the action sets to a value (none for an unset).
    pub open spec fn props(self) -> Seq<(Seq<char>, PropertyValueView)> {
        match self {
            ZfsActionView::CreateDataset { properties, .. } => properties,
            ZfsActionView::SetProperties { properties, .. } => properties,
            ZfsActionView::InheritProperty { .. } => Seq::empty(),
        }
    }
}

/// The models of a sequence of actions.
pub open spec fn action_views(s: Seq<ZfsAction>) -> Seq<ZfsActionView> {
    s.map_values(|a: ZfsAction| a@)
}

/// The texts of a sequence of strings.
pub open spec fn string_views(s: Seq<String>) -> Seq<Seq<char>> {
    s.map_values(|x: String| x@)
}

/// `parts` with `sep` between each two neighbours.
pub open spec fn join(parts: Seq<Seq<char>>, sep: Seq<char>) -> Seq<char>
    decreases parts.len(),
{
    if parts.len() == 0 {
        Seq::empty()
    } else if parts.len() == 1 {
        parts[0]
    } else {
        join(parts.drop_last(), sep) + sep + parts.last()
    }
}

/// `name=value`, as `zfs set` takes a property.
pub open spec fn assignment(p: (Seq<char>, PropertyValueView)) -> Seq<char> {
    p.0 + "="@ + value_text(p.1)
}

/// `-o name=value`, as `zfs create` takes a property.
pub open spec fn create_option(p: (Seq<char>, PropertyValueView)) -> Seq<char> {
    "-o "@ + p.0 + "="@ + value_text(p.1)
}

/// The command line that carries out an action.
pub open spec fn command_of(a: ZfsActionView) -> Seq<Seq<char>> {
    match a {
        ZfsActionView::CreateDataset { name, properties } => seq!["zfs"@, "create"@]
            + properties.map_values(|p: (Seq<char>, PropertyValueView)| create_option(p))
            + seq![name],
        ZfsActionView::SetProperties { dataset, properties } => seq![
            "zfs"@,
            "set"@,
            join(properties.map_values(|p: (Seq<char>, PropertyValueView)| assignment(p)), " "@),
            dataset,
        ],
        ZfsActionView::InheritProperty { dataset, property } => seq!["zfs"@, "inherit"@, property, dataset],
    }
}

/// The command line that would destroy the dataset `name`; such lines are
/// only listed, never carried out.
pub open spec fn destroy_command_of(name: Seq<char>) -> Seq<Seq<char>> {
    seq!["zfs"@, "destroy"@, name]
}

/// One destroy command line per name, in order.
pub fn destroy_commands(names: &Vec<String>) -> (r: Vec<Vec<String>>)
    ensures
        r@.len() == names@.len(),
        forall|i: int| 0 <= i < r@.len() ==> string_views(#[trigger] r@[i]@) == destroy_command_of(names@[i]@),
{
    let mut out: Vec<Vec<String>> = Vec::new();
    let mut i: usize = 0;
    while i < names.len()
        invariant
            i <= names@.len(),
            out@.len() == i,
            forall|j: int| 0 <= j < i ==> string_views(#[trigger] out@[j]@) == destroy_command_of(names@[j]@),
        decreases names@.len() - i,
    {
        let mut command: Vec<String> = Vec::new();
        command.push(String::from_str("zfs"));
        command.push(String::from_str("destroy"));
        command.push(names[i].clone());
        assert(string_views(command@) =~= destroy_command_of(names@[i as int]@));
        out.push(command);
        i = i + 1;
    }
    out
}

/// Joins `parts` with `sep` between neighbours.
pub fn join_strings(parts: &Vec<String>, sep: &str) -> (r: String)
    ensures
        r@ == join(string_views(parts@), sep@),
{
    let mut r = String::new();
    let ghost all = string_views(parts@);
    let mut i: usize = 0;
    while i < parts.len()
        invariant
            i <= parts.len(),
            all == string_views(parts@),
            r@ == join(all.take(i as int), sep@),
        decreases parts.len() - i,
    {
        assert(all.take(i + 1).drop_last() =~= all.take(i as int));
        if i != 0 {
            r.append(sep);
        }
        r.append(parts[i].as_str());
        i = i + 1;
    }
    assert(all.take(parts.len() as int) =~= all);
    r
}

fn assignment_string(key: &String, value: &PropertyValue) -> (r: String)
    ensures
        r@ == assignment((key@, value@)),
{
    let mut s = key.clone();
    s.append("=");
    let text = value.to_string();
    s.append(text.as_str());
    s
}

/// The command line for one action.
pub fn command_for(action: &ZfsAction) -> (r: Vec<String>)
    ensures
        string_views(r@) == command_of(action@),
{
    match action {
        ZfsAction::CreateDataset { name, properties } => {
            let mut out: Vec<String> = Vec::new();
            out.push(String::from_str("zfs"));
            out.push(String::from_str("create"));
            let n = properties.len();
            let ghost ps = view_pairs(properties.pairs());
            let mut i: usize = 0;
            while i < n
                invariant
                    n == properties.pairs().len(),
                    ps == view_pairs(properties.pairs()),
                    i <= n,
                    string_views(out@) == seq!["zfs"@, "create"@] + ps.take(i as int).map_values(
                        |p: (Seq<char>, PropertyValueView)| create_option(p),
                    ),
                decreases n - i,
            {
                let mut option = String::from_str("-o ");
                let tail = assignment_string(properties.key_at(i), properties.value_at(i));
                option.append(tail.as_str());
                let ghost before = string_views(out@);
                out.push(option);
                assert(ps[i as int] == (properties.pairs()[i as int].0, properties.pairs()[i as int].1@));
                assert(option@ =~= create_option(ps[i as int]));
                assert(string_views(out@) =~= before.push(option@));
                assert(ps.take(i + 1) =~= ps.take(i as int).push(ps[i as int]));
                assert(string_views(out@) =~= seq!["zfs"@, "create"@] + ps.take(i + 1).map_values(
                    |p: (Seq<char>, PropertyValueView)| create_option(p),
                ));
                i = i + 1;
            }
            out.push(name.clone());
            assert(ps.take(n as int) =~= ps);
            assert(string_views(out@) =~= command_of(action@));
            out
        },
        ZfsAction::SetProperties { dataset, properties } => {
            let n = properties.len();
            let ghost ps = view_pairs(properties.pairs());
            let mut parts: Vec<String> = Vec::new();
            let mut i: usize = 0;
            while i < n
                invariant
                    n == properties.pairs().len(),
                    ps == view_pairs(properties.pairs()),
                    i <= n,
                    string_views(parts@) == ps.take(i as int).map_values(
                        |p: (Seq<char>, PropertyValueView)| assignment(p),
                    ),
                decreases n - i,
            {
                let part = assignment_string(properties.key_at(i), properties.value_at(i));
                let ghost before = string_views(parts@);
                parts.push(part);
                assert(ps[i as int] == (properties.pairs()[i as int].0, properties.pairs()[i as int].1@));
                assert(part@ =~= assignment(ps[i as int]));
                assert(string_views(parts@) =~= before.push(part@));
                assert(string_views(parts@) =~= ps.take(i + 1).map_values(
                    |p: (Seq<char>, PropertyValueView)| assignment(p),
                ));
                i = i + 1;
            }
            assert(ps.take(n as int) =~= ps);
            let mut out: Vec<String> = Vec::new();
            out.push(String::from_str("zfs"));
            out.push(String::from_str("set"));
            out.push(join_strings(&parts, " "));
            out.push(dataset.clone());
            assert(string_views(out@) =~= command_of(action@));
            out
        },
        ZfsAction::InheritProperty { dataset, property } => {
            let mut out: Vec<String> = Vec::new();
            out.push(String::from_str("zfs"));
            out.push(String::from_str("inherit"));
            out.push(property.clone());
            out.push(dataset.clone());
            assert(string_views(out@) =~= command_of(action@));
            out
        },
    }
}

/// The actions of a plan, in order.
pub struct ActionSet(pub Vec<ZfsAction>);

impl ActionSet {
    /// One command line per action, in order.
    pub fn to_commands(&self) -> (r: Vec<Vec<String>>)
        ensures
            r@.len() == self.0@.len(),
            forall|i: int| 0 <= i < r@.len() ==> string_views(#[trigger] r@[i]@) == command_of(self.0@[i]@),
    {
        let mut out: Vec<Vec<String>> = Vec::new();
        let mut i: usize = 0;
        while i < self.0.len()
            invariant
                i <= self.0@.len(),
                out@.len() == i,
                forall|j: int| 0 <= j < i ==> string_views(#[trigger] out@[j]@) == command_of(self.0@[j]@),
            decreases self.0@.len() - i,
        {
            out.push(command_for(&self.0[i]));
            i = i + 1;
        }
        out
    }
}

} // verus!
