use vstd::prelude::*;

use crate::action::{action_views, string_views, ActionSet, ZfsAction, ZfsActionView};

verus! {

/// One call made on an [`ActionProducer`], as a value.
pub enum ProducerCall {
    /// An action to carry out.
    Action(ZfsActionView),
    /// An error message.
    Error(Seq<char>),
    /// An existing dataset that the specification does not declare; it is
    /// only listed, never changed.
    Extra(Seq<char>),
}

/// The actions among `calls`, in order.
pub open spec fn actions_of(calls: Seq<ProducerCall>) -> Seq<ZfsActionView>
    decreases calls.len(),
{
    if calls.len() == 0 {
        Seq::empty()
    } else {
        let prev = actions_of(calls.drop_last());
        match calls.last() {
            ProducerCall::Action(a) => prev.push(a),
            _ => prev,
        }
    }
}

/// The error messages among `calls`, in order.
pub open spec fn errors_of(calls: Seq<ProducerCall>) -> Seq<Seq<char>>
    decreases calls.len(),
{
    if calls.len() == 0 {
        Seq::empty()
    } else {
        let prev = errors_of(calls.drop_last());
        match calls.last() {
            ProducerCall::Error(e) => prev.push(e),
            _ => prev,
        }
    }
}

/// The undeclared datasets among `calls`, in order.
pub open spec fn extras_of(calls: Seq<ProducerCall>) -> Seq<Seq<char>>
    decreases calls.len(),
{
    if calls.len() == 0 {
        Seq::empty()
    } else {
        let prev = extras_of(calls.drop_last());
        match calls.last() {
            ProducerCall::Extra(n) => prev.push(n),
            _ => prev,
        }
    }
}

/// A sink for the actions, errors and undeclared datasets that planning produces.
pub trait ActionProducer {
    /// Every call received so far, in order.
    spec fn calls(&self) -> Seq<ProducerCall>;

    /// Whether what the producer holds is what its calls handed over.
    spec fn faithful(&self) -> bool;

    /// Records an action.
    fn produce_action(&mut self, action: ZfsAction)
        ensures
            final(self).calls() == old(self).calls().push(ProducerCall::Action(action@)),
            old(self).faithful() ==> final(self).faithful(),
    ;

    /// Records an error.
    fn produce_error(&mut self, error: String)
        ensures
            final(self).calls() == old(self).calls().push(ProducerCall::Error(error@)),
            old(self).faithful() ==> final(self).faithful(),
    ;

    /// Records an existing dataset that the specification does not declare.
    fn produce_extra(&mut self, dataset: String)
        ensures
            final(self).calls() == old(self).calls().push(ProducerCall::Extra(dataset@)),
            old(self).faithful() ==> final(self).faithful(),
    ;
}

/// Collects actions, errors and undeclared datasets in vectors, in the order
/// they arrive, and keeps the order of all calls as a ghost log.
pub struct VecActionProducer {
    pub actions: Vec<ZfsAction>,
    pub errors: Vec<String>,
    pub extras: Vec<String>,
    pub log: Ghost<Seq<ProducerCall>>,
}

impl ActionProducer for VecActionProducer {
    open spec fn calls(&self) -> Seq<ProducerCall> {
        self.log@
    }

    open spec fn faithful(&self) -> bool {
        &&& action_views(self.actions@) == actions_of(self.log@)
        &&& string_views(self.errors@) == errors_of(self.log@)
        &&& string_views(self.extras@) == extras_of(self.log@)
    }

    fn produce_action(&mut self, action: ZfsAction)
        ensures
            final(self).actions@ == old(self).actions@.push(action),
            final(self).errors@ == old(self).errors@,
            final(self).extras@ == old(self).extras@,
    {
        let ghost view = action@;
        self.log = Ghost(self.log@.push(ProducerCall::Action(view)));
        self.actions.push(action);
        proof {
            assert(self.log@.drop_last() =~= old(self).log@);
            assert(action_views(self.actions@) =~= action_views(old(self).actions@).push(view));
        }
    }

    fn produce_error(&mut self, error: String)
        ensures
            final(self).actions@ == old(self).actions@,
            final(self).errors@ == old(self).errors@.push(error),
            final(self).extras@ == old(self).extras@,
    {
        self.log = Ghost(self.log@.push(ProducerCall::Error(error@)));
        self.errors.push(error);
        proof {
            assert(self.log@.drop_last() =~= old(self).log@);
            assert(string_views(self.errors@) =~= string_views(old(self).errors@).push(error@));
        }
    }

    fn produce_extra(&mut self, dataset: String)
        ensures
            final(self).actions@ == old(self).actions@,
            final(self).errors@ == old(self).errors@,
            final(self).extras@ == old(self).extras@.push(dataset),
    {
        self.log = Ghost(self.log@.push(ProducerCall::Extra(dataset@)));
        self.extras.push(dataset);
        proof {
            assert(self.log@.drop_last() =~= old(self).log@);
            assert(string_views(self.extras@) =~= string_views(old(self).extras@).push(dataset@));
        }
    }
}

impl VecActionProducer {
    /// A producer that has received nothing yet.
    pub fn new() -> (r: VecActionProducer)
        ensures
            r.actions@.len() == 0,
            r.errors@.len() == 0,
            r.extras@.len() == 0,
            r.calls() == Seq::<ProducerCall>::empty(),
            r.faithful(),
    {
        let r = VecActionProducer {
            actions: Vec::new(),
            errors: Vec::new(),
            extras: Vec::new(),
            log: Ghost(Seq::empty()),
        };
        assert(action_views(r.actions@) =~= Seq::<ZfsActionView>::empty());
        assert(string_views(r.errors@) =~= Seq::<Seq<char>>::empty());
        assert(string_views(r.extras@) =~= Seq::<Seq<char>>::empty());
        r
    }

    /// The undeclared datasets received, in the order they arrived.
    pub fn extra_datasets(&self) -> (r: &Vec<String>)
        ensures
            r@ == self.extras@,
    {
        &self.extras
    }

    /// The actions and the errors received, in the order they arrived.
    pub fn finalize(self) -> (r: (ActionSet, Vec<String>))
        ensures
            r.0.0@ == self.actions@,
            r.1@ == self.errors@,
    {
        (ActionSet(self.actions), self.errors)
    }
}

} // verus!
