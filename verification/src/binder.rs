//! The table of bindings and the lexical scope that is visible while parsing.

use vstd::prelude::*;

verus! {

/// The mathematical model of a binder: every name ever bound, indexed by the
/// identity it received, and the identities that are visible right now,
/// innermost last.
pub struct Scope {
    pub names: Seq<Seq<char>>,
    pub visible: Seq<nat>,
}

impl Scope {
    /// The scope before anything was bound.
    pub open spec fn empty() -> Scope {
        Scope { names: Seq::empty(), visible: Seq::empty() }
    }

    /// Every visible identity names an entry of the table, and identities
    /// were pushed in the order in which they were handed out.
    pub open spec fn wf(self) -> bool {
        &&& forall|k: int|
            0 <= k < self.visible.len() ==> #[trigger] self.visible[k] < self.names.len()
        &&& forall|j: int, k: int|
            0 <= j < k < self.visible.len() ==> self.visible[j] < self.visible[k]
    }

    /// The identity that the next binding will receive.
    pub open spec fn next_id(self) -> nat {
        self.names.len()
    }

    /// The scope after a new binding of `name`: the name is appended to the
    /// table and its identity becomes the innermost visible one.
    pub open spec fn bind(self, name: Seq<char>) -> Scope {
        Scope { names: self.names.push(name), visible: self.visible.push(self.names.len()) }
    }

    /// The scope after the innermost visible identity has been dropped. The
    /// table keeps its entry.
    pub open spec fn unbind(self) -> Scope {
        if self.visible.len() == 0 {
            self
        } else {
            Scope { names: self.names, visible: self.visible.drop_last() }
        }
    }

    /// The identity of the innermost visible binding called `name`, if any.
    pub open spec fn resolve(self, name: Seq<char>) -> Option<nat>
        decreases self.visible.len(),
    {
        if self.visible.len() == 0 {
            None
        } else if self.names[self.visible.last() as int] == name {
            Some(self.visible.last())
        } else {
            self.unbind().resolve(name)
        }
    }

    /// What a reference to `name` resolves to, and the scope afterwards: the
    /// innermost visible binding of that name, or else a fresh binding that
    /// stands for a free variable.
    pub open spec fn refer(self, name: Seq<char>) -> (nat, Scope) {
        match self.resolve(name) {
            Some(id) => (id, self),
            None => (self.next_id(), self.bind(name)),
        }
    }

    /// The names of the visible bindings, innermost last.
    pub open spec fn visible_names(self) -> Seq<Seq<char>> {
        Seq::new(self.visible.len(), |k: int| self.names[self.visible[k] as int])
    }
}

/// A resolved name is visible, carries that name, and no binding that was
/// pushed after it carries the same name.
pub proof fn lemma_resolve_is_innermost(scope: Scope, name: Seq<char>)
    ensures
        match scope.resolve(name) {
            Some(id) => exists|k: int|
                {
                    &&& 0 <= k < scope.visible.len()
                    &&& #[trigger] scope.visible[k] == id
                    &&& scope.names[id as int] == name
                    &&& forall|j: int|
                        k < j < scope.visible.len() ==> scope.names[scope.visible[j] as int]
                            != name
                },
            None => forall|k: int|
                0 <= k < scope.visible.len() ==> scope.names[#[trigger] scope.visible[k] as int]
                    != name,
        },
    decreases scope.visible.len(),
{
    if scope.visible.len() == 0 {
    } else if scope.names[scope.visible.last() as int] == name {
        let k = scope.visible.len() - 1;
        assert(scope.visible[k] == scope.visible.last());
    } else {
        let inner = scope.unbind();
        lemma_resolve_is_innermost(inner, name);
        match inner.resolve(name) {
            Some(id) => {
                let k = choose|k: int|
                    {
                        &&& 0 <= k < inner.visible.len()
                        &&& #[trigger] inner.visible[k] == id
                        &&& inner.names[id as int] == name
                        &&& forall|j: int|
                            k < j < inner.visible.len() ==> inner.names[inner.visible[j] as int]
                                != name
                    };
                assert(scope.visible[k] == id);
                assert forall|j: int|
                    k < j < scope.visible.len() implies scope.names[scope.visible[j] as int] != name by {
                    if j < inner.visible.len() {
                        assert(inner.visible[j] == scope.visible[j]);
                    }
                }
            },
            None => {
                assert forall|k: int|
                    0 <= k < scope.visible.len() implies scope.names[#[trigger] scope.visible[k] as int]
                    != name by {
                    if k < inner.visible.len() {
                        assert(inner.visible[k] == scope.visible[k]);
                    }
                }
            },
        }
    }
}

/// Binding and unbinding keep a scope well formed.
pub proof fn lemma_scope_steps_keep_wf(scope: Scope, name: Seq<char>)
    requires
        scope.wf(),
    ensures
        scope.bind(name).wf(),
        scope.unbind().wf(),
        scope.refer(name).1.wf(),
{
    let bound = scope.bind(name);
    assert forall|k: int| 0 <= k < bound.visible.len() implies #[trigger] bound.visible[k]
        < bound.names.len() by {
        if k < scope.visible.len() {
            assert(scope.visible[k] < scope.names.len());
        }
    }
    assert forall|j: int, k: int| 0 <= j < k < bound.visible.len() implies bound.visible[j]
        < bound.visible[k] by {
        assert(scope.visible[j] < scope.names.len());
    }
    let popped = scope.unbind();
    assert forall|k: int| 0 <= k < popped.visible.len() implies #[trigger] popped.visible[k]
        < popped.names.len() by {
        assert(scope.visible[k] < scope.names.len());
    }
}

/// A new binding shadows every earlier binding of the same name: a reference
/// made right after it resolves to the new identity.
pub proof fn lemma_bind_shadows(scope: Scope, name: Seq<char>)
    ensures
        scope.bind(name).resolve(name) == Some(scope.next_id()),
{
    let bound = scope.bind(name);
    assert(bound.visible.last() == scope.names.len());
    assert(bound.names[scope.names.len() as int] == name);
}

/// Once the scope of a binding has been left, binding the same name again
/// hands out a different identity, and references then resolve to the new
/// one.
pub proof fn lemma_rebinding_is_fresh(scope: Scope, name: Seq<char>)
    ensures
        ({
            let first = scope.next_id();
            let left = scope.bind(name).unbind();
            let second = left.next_id();
            &&& second != first
            &&& left.bind(name).resolve(name) == Some(second)
            &&& left.names[first as int] == name
            &&& left.bind(name).names[second as int] == name
        }),
{
    let left = scope.bind(name).unbind();
    lemma_bind_shadows(left, name);
}

/// The table of bindings with the stack of identities that are visible at the
/// current position of the parse.
pub struct Binder {
    pub(crate) global_bindings: Vec<String>,
    pub(crate) bindings_stack: Vec<usize>,
}

impl View for Binder {
    type V = Scope;

    closed spec fn view(&self) -> Scope {
        Scope {
            names: Seq::new(self.global_bindings@.len(), |i: int| self.global_bindings@[i]@),
            visible: Seq::new(self.bindings_stack@.len(), |k: int| self.bindings_stack@[k] as nat),
        }
    }
}

impl Binder {
    /// A binder that has bound nothing yet.
    pub fn new() -> (binder: Binder)
        ensures
            binder@ == Scope::empty(),
    {
        let binder = Binder { global_bindings: Vec::new(), bindings_stack: Vec::new() };
        assert(binder@.names =~= Seq::empty());
        assert(binder@.visible =~= Seq::empty());
        binder
    }

    /// The identity that the next binding will receive.
    pub fn get_index(&mut self) -> (index: usize)
        ensures
            *final(self) == *old(self),
            index == old(self)@.next_id(),
    {
        self.global_bindings.len()
    }

    /// The identity of the innermost visible binding called `value`.
    pub fn find_index(&self, value: &str) -> (found: Option<usize>)
        requires
            self@.wf(),
        ensures
            match found {
                Some(id) => self@.resolve(value@) == Some(id as nat),
                None => self@.resolve(value@) is None,
            },
    {
        let wanted = value.to_owned();
        let mut k: usize = self.bindings_stack.len();
        assert(self@.visible.take(k as int) =~= self@.visible);
        while k > 0
            invariant
                k <= self.bindings_stack.len(),
                wanted@ == value@,
                self@.wf(),
                self@.resolve(value@) == (Scope {
                    names: self@.names,
                    visible: self@.visible.take(k as int),
                }).resolve(value@),
            decreases k,
        {
            let ghost shown = Scope { names: self@.names, visible: self@.visible.take(k as int) };
            k -= 1;
            let id = self.bindings_stack[k];
            assert(self@.visible[k as int] == id);
            assert(shown.visible.last() == id);
            assert(shown.unbind().visible =~= self@.visible.take(k as int));
            if self.global_bindings[id] == wanted {
                return Some(id);
            }
        }
        assert(self@.visible.take(0).len() == 0);
        None
    }

    /// Binds `name`: appends it to the table, makes its identity the
    /// innermost visible one and returns that identity.
    pub fn new_binding(&mut self, name: String) -> (index: usize)
        requires
            old(self)@.wf(),
        ensures
            final(self)@ == old(self)@.bind(name@),
            final(self)@.wf(),
            index == old(self)@.next_id(),
    {
        let index = self.global_bindings.len();
        self.global_bindings.push(name);
        self.bindings_stack.push(index);
        proof {
            lemma_scope_steps_keep_wf(old(self)@, name@);
            assert(self@.names =~= old(self)@.bind(name@).names);
            assert(self@.visible =~= old(self)@.bind(name@).visible);
        }
        index
    }

    /// Leaves the innermost scope: drops the identity that was pushed last.
    /// The table keeps every entry.
    pub fn pop_binding(&mut self)
        requires
            old(self)@.wf(),
        ensures
            final(self)@ == old(self)@.unbind(),
            final(self)@.wf(),
    {
        self.bindings_stack.pop();
        proof {
            lemma_scope_steps_keep_wf(old(self)@, Seq::empty());
            assert(self@.names =~= old(self)@.unbind().names);
            assert(self@.visible =~= old(self)@.unbind().visible);
        }
    }

    /// The names of the visible bindings, innermost last.
    pub fn get_stack(&self) -> (names: Vec<&str>)
        requires
            self@.wf(),
        ensures
            names@.len() == self@.visible.len(),
            forall|k: int|
                0 <= k < names@.len() ==> (#[trigger] names@[k])@ == self@.visible_names()[k],
    {
        let mut names: Vec<&str> = Vec::new();
        let mut k: usize = 0;
        while k < self.bindings_stack.len()
            invariant
                k <= self.bindings_stack.len(),
                self@.wf(),
                names@.len() == k,
                forall|j: int| 0 <= j < k ==> (#[trigger] names@[j])@ == self@.visible_names()[j],
            decreases self.bindings_stack.len() - k,
        {
            let id = self.bindings_stack[k];
            assert(self@.visible[k as int] == id);
            names.push(self.global_bindings[id].as_str());
            k += 1;
        }
        names
    }

    /// Gives up the binder and keeps the table of names, indexed by identity.
    pub fn into_names(self) -> (names: Vec<String>)
        ensures
            names@.len() == self@.names.len(),
            forall|i: int| 0 <= i < names@.len() ==> (#[trigger] names@[i])@ == self@.names[i],
    {
        self.global_bindings
    }
}

} // verus!
