//! Selectors, elements and the exact matching relation between them.
use vstd::prelude::*;

verus! {

/// One property declaration: an interned property name and an interned value.
#[derive(Clone, Copy, Debug, PartialEq, Eq, Structural)]
pub struct Declaration {
    pub property: u32,
    pub value: u32,
}

/// The pseudo-elements that selectors can target.
#[derive(Clone, Copy, Debug, PartialEq, Eq, Structural)]
pub enum PseudoElement {
    Before,
    After,
    Selection,
    DetailsSummary,
    DetailsContent,
    ServoText,
    ServoInputText,
    ServoTableWrapper,
}

/// How the style of a pseudo-element is obtained.
#[derive(Clone, Copy, Debug, PartialEq, Eq, Structural)]
pub enum PseudoElementCascadeType {
    /// Matched for every element during the normal traversal.
    Eager,
    /// Matched on demand, per element.
    Lazy,
    /// Never depends on the element: its declarations are computed at rebuild time.
    Precomputed,
}

/// Number of distinct pseudo-elements.
pub const PSEUDO_COUNT: usize = 8;

pub open spec fn pseudo_index_spec(p: PseudoElement) -> nat {
    match p {
        PseudoElement::Before => 0,
        PseudoElement::After => 1,
        PseudoElement::Selection => 2,
        PseudoElement::DetailsSummary => 3,
        PseudoElement::DetailsContent => 4,
        PseudoElement::ServoText => 5,
        PseudoElement::ServoInputText => 6,
        PseudoElement::ServoTableWrapper => 7,
    }
}

pub open spec fn cascade_type_spec(p: PseudoElement) -> PseudoElementCascadeType {
    match p {
        PseudoElement::Before | PseudoElement::After | PseudoElement::Selection =>
            PseudoElementCascadeType::Eager,
        PseudoElement::DetailsSummary | PseudoElement::DetailsContent =>
            PseudoElementCascadeType::Lazy,
        _ => PseudoElementCascadeType::Precomputed,
    }
}

impl PseudoElement {
    /// Position of this pseudo-element in per-pseudo tables.
    pub fn index(&self) -> (r: usize)
        ensures
            r == pseudo_index_spec(*self),
            r < PSEUDO_COUNT,
    {
        match self {
            PseudoElement::Before => 0,
            PseudoElement::After => 1,
            PseudoElement::Selection => 2,
            PseudoElement::DetailsSummary => 3,
            PseudoElement::DetailsContent => 4,
            PseudoElement::ServoText => 5,
            PseudoElement::ServoInputText => 6,
            PseudoElement::ServoTableWrapper => 7,
        }
    }

    /// The pseudo-element at a table position.
    pub fn from_index(i: usize) -> (r: PseudoElement)
        requires
            i < PSEUDO_COUNT,
        ensures
            pseudo_index_spec(r) == i,
    {
        if i == 0 {
            PseudoElement::Before
        } else if i == 1 {
            PseudoElement::After
        } else if i == 2 {
            PseudoElement::Selection
        } else if i == 3 {
            PseudoElement::DetailsSummary
        } else if i == 4 {
            PseudoElement::DetailsContent
        } else if i == 5 {
            PseudoElement::ServoText
        } else if i == 6 {
            PseudoElement::ServoInputText
        } else {
            PseudoElement::ServoTableWrapper
        }
    }

    pub fn cascade_type(&self) -> (r: PseudoElementCascadeType)
        ensures
            r == cascade_type_spec(*self),
    {
        match self {
            PseudoElement::Before | PseudoElement::After | PseudoElement::Selection =>
                PseudoElementCascadeType::Eager,
            PseudoElement::DetailsSummary | PseudoElement::DetailsContent =>
                PseudoElementCascadeType::Lazy,
            _ => PseudoElementCascadeType::Precomputed,
        }
    }
}

pub proof fn lemma_pseudo_index_injective(a: PseudoElement, b: PseudoElement)
    requires
        pseudo_index_spec(a) == pseudo_index_spec(b),
    ensures
        a == b,
{
}

/// A compound selector: every test must hold of the same element.
pub struct Compound {
    /// Required tag name, if any.
    pub tag: Option<u32>,
    /// Required id, if any.
    pub id: Option<u32>,
    /// Classes the element must carry.
    pub classes: Vec<u32>,
    /// Dynamic state bits (hover, focus, ...) the element must have set.
    pub state: u64,
}

pub struct CompoundView {
    pub tag: Option<u32>,
    pub id: Option<u32>,
    pub classes: Seq<u32>,
    pub state: u64,
}

impl View for Compound {
    type V = CompoundView;

    open spec fn view(&self) -> CompoundView {
        CompoundView { tag: self.tag, id: self.id, classes: self.classes@, state: self.state }
    }
}

/// A selector: a subject compound, optionally required to have an ancestor
/// matching a second compound, optionally targeting a pseudo-element.
pub struct Selector {
    pub compound: Compound,
    pub ancestor: Option<Compound>,
    pub pseudo_element: Option<PseudoElement>,
    pub specificity: u32,
}

pub struct SelectorView {
    pub compound: CompoundView,
    pub ancestor: Option<CompoundView>,
    pub pseudo_element: Option<PseudoElement>,
    pub specificity: u32,
}

impl View for Selector {
    type V = SelectorView;

    open spec fn view(&self) -> SelectorView {
        SelectorView {
            compound: self.compound@,
            ancestor: match self.ancestor {
                Some(a) => Some(a@),
                None => None,
            },
            pseudo_element: self.pseudo_element,
            specificity: self.specificity,
        }
    }
}

/// What selector matching reads of an element, plus the declarations its
/// legacy presentational attributes stand for.
pub struct ElementInfo {
    pub tag: u32,
    pub id: Option<u32>,
    pub classes: Vec<u32>,
    pub state: u64,
    pub hints: Vec<Declaration>,
}

pub struct ElementView {
    pub tag: u32,
    pub id: Option<u32>,
    pub classes: Seq<u32>,
    pub state: u64,
    pub hints: Seq<Declaration>,
}

impl View for ElementInfo {
    type V = ElementView;

    open spec fn view(&self) -> ElementView {
        ElementView {
            tag: self.tag,
            id: self.id,
            classes: self.classes@,
            state: self.state,
            hints: self.hints@,
        }
    }
}

pub open spec fn compound_matches(c: CompoundView, e: ElementView) -> bool {
    &&& match c.tag {
        Some(t) => t == e.tag,
        None => true,
    }
    &&& match c.id {
        Some(i) => e.id == Some(i),
        None => true,
    }
    &&& forall|k: int| 0 <= k < c.classes.len() ==> e.classes.contains(#[trigger] c.classes[k])
    &&& e.state & c.state == c.state
}

/// `ancestors` lists the element's ancestors, nearest first.
pub open spec fn selector_matches(s: SelectorView, e: ElementView, ancestors: Seq<ElementView>) -> bool {
    &&& compound_matches(s.compound, e)
    &&& match s.ancestor {
        Some(a) => exists|k: int| 0 <= k < ancestors.len() && compound_matches(a, #[trigger] ancestors[k]),
        None => true,
    }
}

/// A selector with no test at all: it matches every element.
pub open spec fn is_universal(s: SelectorView) -> bool {
    &&& s.compound.tag is None
    &&& s.compound.id is None
    &&& s.compound.classes.len() == 0
    &&& s.compound.state == 0
    &&& s.ancestor is None
}

pub open spec fn view_elements(v: Seq<ElementInfo>) -> Seq<ElementView> {
    v.map_values(|e: ElementInfo| e@)
}

fn has_class(classes: &Vec<u32>, c: u32) -> (r: bool)
    ensures
        r == classes@.contains(c),
{
    let mut i: usize = 0;
    while i < classes.len()
        invariant
            i <= classes.len(),
            forall|k: int| 0 <= k < i ==> classes@[k] != c,
        decreases classes.len() - i,
    {
        if classes[i] == c {
            return true;
        }
        i += 1;
    }
    false
}

impl Compound {
    pub fn matches(&self, e: &ElementInfo) -> (r: bool)
        ensures
            r == compound_matches(self@, e@),
    {
        let tag_ok = match self.tag {
            Some(t) => t == e.tag,
            None => true,
        };
        let id_ok = match self.id {
            Some(i) => e.id == Some(i),
            None => true,
        };
        if !tag_ok || !id_ok || e.state & self.state != self.state {
            return false;
        }
        let mut k: usize = 0;
        while k < self.classes.len()
            invariant
                k <= self.classes.len(),
                forall|j: int| 0 <= j < k ==> e.classes@.contains(#[trigger] self.classes@[j]),
            decreases self.classes.len() - k,
        {
            if !has_class(&e.classes, self.classes[k]) {
                assert(!e@.classes.contains(self@.classes[k as int]));
                return false;
            }
            k += 1;
        }
        true
    }

    pub fn deep_copy(&self) -> (r: Compound)
        ensures
            r@ == self@,
    {
        Compound {
            tag: self.tag,
            id: self.id,
            classes: copy_u32s(&self.classes),
            state: self.state,
        }
    }
}

impl Selector {
    /// Matches the subject compound against `e`, then the ancestor compound
    /// against `ancestors` (nearest first).
    pub fn matches(&self, e: &ElementInfo, ancestors: &Vec<ElementInfo>) -> (r: bool)
        ensures
            r == selector_matches(self@, e@, view_elements(ancestors@)),
    {
        if !self.compound.matches(e) {
            return false;
        }
        match &self.ancestor {
            None => true,
            Some(a) => {
                assert(self@.ancestor == Some(a@));
                let mut k: usize = 0;
                while k < ancestors.len()
                    invariant
                        k <= ancestors.len(),
                        compound_matches(self@.compound, e@),
                        self@.ancestor == Some(a@),
                        view_elements(ancestors@).len() == ancestors@.len(),
                        forall|j: int| 0 <= j < k ==> !compound_matches(a@, #[trigger] ancestors@[j]@),
                    decreases ancestors.len() - k,
                {
                    if a.matches(&ancestors[k]) {
                        assert(view_elements(ancestors@)[k as int] == ancestors@[k as int]@);
                        assert(compound_matches(a@, view_elements(ancestors@)[k as int]));
                        return true;
                    }
                    k += 1;
                }
                assert forall|j: int| 0 <= j < view_elements(ancestors@).len() implies
                    !compound_matches(a@, #[trigger] view_elements(ancestors@)[j]) by {
                    assert(view_elements(ancestors@)[j] == ancestors@[j]@);
                }
                false
            },
        }
    }

    pub fn deep_copy(&self) -> (r: Selector)
        ensures
            r@ == self@,
    {
        let ancestor = match &self.ancestor {
            Some(a) => Some(a.deep_copy()),
            None => None,
        };
        Selector {
            compound: self.compound.deep_copy(),
            ancestor,
            pseudo_element: self.pseudo_element,
            specificity: self.specificity,
        }
    }

    pub fn is_universal(&self) -> (r: bool)
        ensures
            r == is_universal(self@),
    {
        self.compound.tag.is_none() && self.compound.id.is_none() && self.compound.classes.len()
            == 0 && self.compound.state == 0 && self.ancestor.is_none()
    }
}

pub fn copy_u32s(v: &Vec<u32>) -> (r: Vec<u32>)
    ensures
        r@ == v@,
{
    let mut r: Vec<u32> = Vec::new();
    let mut i: usize = 0;
    while i < v.len()
        invariant
            i <= v.len(),
            r@ == v@.take(i as int),
        decreases v.len() - i,
    {
        r.push(v[i]);
        i += 1;
        assert(r@ =~= v@.take(i as int));
    }
    assert(v@.take(v.len() as int) =~= v@);
    r
}

pub fn copy_declarations(v: &Vec<Declaration>) -> (r: Vec<Declaration>)
    ensures
        r@ == v@,
{
    let mut r: Vec<Declaration> = Vec::new();
    let mut i: usize = 0;
    while i < v.len()
        invariant
            i <= v.len(),
            r@ == v@.take(i as int),
        decreases v.len() - i,
    {
        r.push(v[i]);
        i += 1;
        assert(r@ =~= v@.take(i as int));
    }
    assert(v@.take(v.len() as int) =~= v@);
    r
}

} // verus!
