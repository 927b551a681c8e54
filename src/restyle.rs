//! Dynamic-state dependencies of selectors, and the restyle hints they imply.
use vstd::prelude::*;
use crate::selector::{Selector, SelectorView};

verus! {

/// Which elements must be restyled after a state change.
#[derive(Clone, Copy, Debug, PartialEq, Eq, Structural)]
pub struct RestyleHint {
    pub restyle_self: bool,
    pub restyle_descendants: bool,
    pub restyle_later_siblings: bool,
}

/// The state bits one compound of a selector tests, and what a change in
/// them forces to be restyled.
#[derive(Clone, Copy, Debug, PartialEq, Eq, Structural)]
pub struct Dependency {
    pub state: u64,
    pub hint: RestyleHint,
}

pub open spec fn self_hint() -> RestyleHint {
    RestyleHint { restyle_self: true, restyle_descendants: false, restyle_later_siblings: false }
}

pub open spec fn descendants_hint() -> RestyleHint {
    RestyleHint { restyle_self: false, restyle_descendants: true, restyle_later_siblings: false }
}

/// A state test in the subject compound concerns the element itself; one in
/// the ancestor compound concerns the element's descendants.
pub open spec fn selector_dependencies(s: SelectorView) -> Seq<Dependency> {
    let own: Seq<Dependency> = if s.compound.state != 0 {
        seq![Dependency { state: s.compound.state, hint: self_hint() }]
    } else {
        seq![]
    };
    match s.ancestor {
        Some(a) => if a.state != 0 {
            own.push(Dependency { state: a.state, hint: descendants_hint() })
        } else {
            own
        },
        None => own,
    }
}

pub open spec fn dependencies_noted(deps: Seq<Dependency>, s: SelectorView) -> bool {
    forall|k: int|
        0 <= k < selector_dependencies(s).len() ==> deps.contains(
            #[trigger] selector_dependencies(s)[k],
        )
}

/// The hint for a change of the state bits in `changed`: the union of the
/// hints of the dependencies that test one of them.
pub open spec fn hint_for(deps: Seq<Dependency>, changed: u64) -> RestyleHint {
    RestyleHint {
        restyle_self: exists|k: int|
            0 <= k < deps.len() && #[trigger] deps[k].state & changed != 0 && deps[k].hint.restyle_self,
        restyle_descendants: exists|k: int|
            0 <= k < deps.len() && #[trigger] deps[k].state & changed != 0
                && deps[k].hint.restyle_descendants,
        restyle_later_siblings: exists|k: int|
            0 <= k < deps.len() && #[trigger] deps[k].state & changed != 0
                && deps[k].hint.restyle_later_siblings,
    }
}

pub struct DependencySet {
    pub deps: Vec<Dependency>,
}

impl View for DependencySet {
    type V = Seq<Dependency>;

    open spec fn view(&self) -> Seq<Dependency> {
        self.deps@
    }
}

impl DependencySet {
    pub fn new() -> (r: DependencySet)
        ensures
            r@ == Seq::<Dependency>::empty(),
    {
        DependencySet { deps: Vec::new() }
    }

    pub fn clear(&mut self)
        ensures
            final(self)@ == Seq::<Dependency>::empty(),
    {
        self.deps.clear();
    }

    /// Records the state tests of `s`.
    pub fn note_selector(&mut self, s: &Selector)
        ensures
            final(self)@ == old(self)@ + selector_dependencies(s@),
    {
        let ghost before = self@;
        if s.compound.state != 0 {
            self.deps.push(
                Dependency {
                    state: s.compound.state,
                    hint: RestyleHint {
                        restyle_self: true,
                        restyle_descendants: false,
                        restyle_later_siblings: false,
                    },
                },
            );
        }
        let ghost own = self@;
        assert(own =~= before + (if s@.compound.state != 0 {
            seq![Dependency { state: s@.compound.state, hint: self_hint() }]
        } else {
            Seq::<Dependency>::empty()
        }));
        match &s.ancestor {
            Some(a) => {
                if a.state != 0 {
                    self.deps.push(
                        Dependency {
                            state: a.state,
                            hint: RestyleHint {
                                restyle_self: false,
                                restyle_descendants: true,
                                restyle_later_siblings: false,
                            },
                        },
                    );
                }
            },
            None => {},
        }
        assert(self@ =~= before + selector_dependencies(s@));
    }

    /// The hint for a change of element state from `old_state` to `new_state`.
    pub fn compute_hint(&self, old_state: u64, new_state: u64) -> (r: RestyleHint)
        ensures
            r == hint_for(self@, old_state ^ new_state),
    {
        let changed = old_state ^ new_state;
        let mut hint = RestyleHint {
            restyle_self: false,
            restyle_descendants: false,
            restyle_later_siblings: false,
        };
        let mut i: usize = 0;
        while i < self.deps.len()
            invariant
                i <= self.deps.len(),
                changed == old_state ^ new_state,
                hint == hint_for(self@.take(i as int), changed),
            decreases self.deps.len() - i,
        {
            let d = self.deps[i];
            let ghost prev = self@.take(i as int);
            let ghost next = self@.take(i as int + 1);
            assert(next[i as int] == d);
            assert forall|k: int| 0 <= k < i implies next[k] == prev[k] by {}
            if d.state & changed != 0 {
                hint = RestyleHint {
                    restyle_self: hint.restyle_self || d.hint.restyle_self,
                    restyle_descendants: hint.restyle_descendants || d.hint.restyle_descendants,
                    restyle_later_siblings: hint.restyle_later_siblings
                        || d.hint.restyle_later_siblings,
                };
            }
            i += 1;
            assert(hint == hint_for(next, changed));
        }
        assert(self@.take(self.deps.len() as int) =~= self@);
        hint
    }
}

/// Noting a selector records all of its dependencies.
pub proof fn lemma_note_selector_notes(deps: Seq<Dependency>, s: SelectorView)
    ensures
        dependencies_noted(deps + selector_dependencies(s), s),
{
    let all = deps + selector_dependencies(s);
    assert forall|k: int| 0 <= k < selector_dependencies(s).len() implies all.contains(
        #[trigger] selector_dependencies(s)[k],
    ) by {
        assert(all[deps.len() + k] == selector_dependencies(s)[k]);
    }
}

/// Later additions keep earlier dependencies recorded.
pub proof fn lemma_noted_kept(deps: Seq<Dependency>, more: Seq<Dependency>, s: SelectorView)
    requires
        dependencies_noted(deps, s),
    ensures
        dependencies_noted(deps + more, s),
{
    assert forall|k: int| 0 <= k < selector_dependencies(s).len() implies (deps + more).contains(
        #[trigger] selector_dependencies(s)[k],
    ) by {
        let x = selector_dependencies(s)[k];
        assert(deps.contains(x));
        let m = choose|m: int| 0 <= m < deps.len() && deps[m] == x;
        assert((deps + more)[m] == x);
    }
}

/// Earlier additions keep later dependencies recorded.
pub proof fn lemma_noted_kept_front(more: Seq<Dependency>, deps: Seq<Dependency>, s: SelectorView)
    requires
        dependencies_noted(deps, s),
    ensures
        dependencies_noted(more + deps, s),
{
    assert forall|k: int| 0 <= k < selector_dependencies(s).len() implies (more + deps).contains(
        #[trigger] selector_dependencies(s)[k],
    ) by {
        let x = selector_dependencies(s)[k];
        assert(deps.contains(x));
        let m = choose|m: int| 0 <= m < deps.len() && deps[m] == x;
        assert((more + deps)[more.len() + m] == x);
    }
}

/// Dependency soundness: once a selector's dependencies are noted, a change
/// of a state bit that its subject compound tests yields a hint that
/// restyles the element itself.
pub proof fn lemma_state_change_restyles_self(deps: Seq<Dependency>, s: SelectorView, old_state: u64, new_state: u64)
    requires
        dependencies_noted(deps, s),
        s.compound.state & (old_state ^ new_state) != 0,
    ensures
        hint_for(deps, old_state ^ new_state).restyle_self,
{
    let changed = old_state ^ new_state;
    let st = s.compound.state;
    assert(st != 0) by (bit_vector)
        requires
            st & changed != 0,
    ;
    let d = Dependency { state: s.compound.state, hint: self_hint() };
    assert(selector_dependencies(s)[0] == d);
    assert(deps.contains(d));
    let k = choose|k: int| 0 <= k < deps.len() && deps[k] == d;
    assert(deps[k].state & changed != 0);
}

} // verus!
