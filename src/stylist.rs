//! The top-level resolver: rebuilds the rule indexes from stylesheets and
//! answers cascade lookups and restyle-hint queries.
use vstd::prelude::*;
use crate::cascade::{ComputedValues, cascade, flatten_blocks};
use crate::cascade_data::{
    CascadeData, sheets_dependencies, sheets_entries, sheets_rule_count, sheets_total_rules,
    lemma_rule_count_bound, lemma_sheets_dependencies_noted, selector_in_sheets,
};
use crate::restyle::{RestyleHint, hint_for, lemma_state_change_restyles_self};
use crate::rule_map::{
    BlockView, DeclarationBlock, PerPseudoElementSelectorMap, RuleView, blocks_view, cascade_sort,
    matches_allow_sharing, matching_blocks, universal_blocks,
};
use crate::selector::{
    Declaration, ElementInfo, ElementView, PSEUDO_COUNT, PseudoElement, SelectorView,
    PseudoElementCascadeType, cascade_type_spec, copy_declarations, pseudo_index_spec,
    view_elements,
};
use crate::stylesheet::{
    Device, MediaType, Origin, Stylesheet, StylesheetView, ViewportConstraints, ViewportRule,
    cascade_viewport, constraints_for, effective_viewport_rules, media_changes, sheets_view,
    sheet_media_changes,
};

verus! {

/// The declarations of a `style` attribute, split by importance.
pub struct PropertyDeclarationBlock {
    pub normal: Vec<Declaration>,
    pub important: Vec<Declaration>,
}

pub struct PropertyDeclarationBlockView {
    pub normal: Seq<Declaration>,
    pub important: Seq<Declaration>,
}

impl View for PropertyDeclarationBlock {
    type V = PropertyDeclarationBlockView;

    open spec fn view(&self) -> PropertyDeclarationBlockView {
        PropertyDeclarationBlockView { normal: self.normal@, important: self.important@ }
    }
}

/// The state an element had before a change, as recorded by the caller.
pub struct ElementSnapshot {
    pub state: u64,
}

pub open spec fn unranked_block(ds: Seq<Declaration>) -> BlockView {
    BlockView { declarations: ds, specificity: 0, source_order: 0 }
}

/// The matching rules of one index, in cascade order.
pub open spec fn step_blocks(
    data: CascadeData,
    pseudo: Option<PseudoElement>,
    origin: Origin,
    important: bool,
    e: ElementView,
    ancestors: Seq<ElementView>,
) -> Seq<BlockView> {
    cascade_sort(matching_blocks(data.index(pseudo, origin, important), e, ancestors))
}

/// Presentational hints apply to elements, never to pseudo-elements.
pub open spec fn hint_blocks(e: ElementView, pseudo: Option<PseudoElement>) -> Seq<BlockView> {
    if pseudo is None && e.hints.len() > 0 {
        seq![unranked_block(e.hints)]
    } else {
        seq![]
    }
}

pub open spec fn attribute_blocks(sa: Option<PropertyDeclarationBlockView>, important: bool) -> Seq<BlockView> {
    match sa {
        Some(a) => seq![unranked_block(if important { a.important } else { a.normal })],
        None => seq![],
    }
}

/// The applicable declarations in cascade precedence order: user-agent
/// normal rules, presentational hints, user then author normal rules, the
/// style attribute's normal then important declarations, then author, user
/// and user-agent important rules.
pub open spec fn applicable_declarations(
    data: CascadeData,
    e: ElementView,
    ancestors: Seq<ElementView>,
    sa: Option<PropertyDeclarationBlockView>,
    pseudo: Option<PseudoElement>,
) -> Seq<BlockView> {
    step_blocks(data, pseudo, Origin::UserAgent, false, e, ancestors)
        + hint_blocks(e, pseudo)
        + step_blocks(data, pseudo, Origin::User, false, e, ancestors)
        + step_blocks(data, pseudo, Origin::Author, false, e, ancestors)
        + attribute_blocks(sa, false)
        + attribute_blocks(sa, true)
        + step_blocks(data, pseudo, Origin::Author, true, e, ancestors)
        + step_blocks(data, pseudo, Origin::User, true, e, ancestors)
        + step_blocks(data, pseudo, Origin::UserAgent, true, e, ancestors)
}

/// Whether the resulting style may be shared with another element: no
/// presentational hint, no style attribute, and no matched rule tied to
/// this element.
pub open spec fn style_shareable(
    data: CascadeData,
    e: ElementView,
    ancestors: Seq<ElementView>,
    sa: Option<PropertyDeclarationBlockView>,
    pseudo: Option<PseudoElement>,
) -> bool {
    &&& hint_blocks(e, pseudo).len() == 0
    &&& sa is None
    &&& forall|o: Origin, imp: bool|
        #[trigger] matches_allow_sharing(data.index(pseudo, o, imp), e, ancestors)
}

pub open spec fn option_view(sa: Option<&PropertyDeclarationBlock>) -> Option<PropertyDeclarationBlockView> {
    match sa {
        Some(a) => Some(a@),
        None => None,
    }
}

/// What a precomputed pseudo-element gets: the universal user-agent rules,
/// normal then important.
pub open spec fn precomputed_blocks(sheets: Seq<StylesheetView>, d: Device, p: PseudoElement) -> Option<Seq<BlockView>> {
    if exists|o: Origin, imp: bool| (#[trigger] sheets_entries(sheets, d, Some(p), o, imp)).len() > 0 {
        Some(
            universal_blocks(sheets_entries(sheets, d, Some(p), Origin::UserAgent, false))
                + universal_blocks(sheets_entries(sheets, d, Some(p), Origin::UserAgent, true)),
        )
    } else {
        None
    }
}

pub struct Stylist {
    /// Device that the stylist is currently evaluating against.
    pub device: Device,
    /// Viewport constraints based on the current device.
    pub viewport_constraints: Option<ViewportConstraints>,
    /// If true, the quirks-mode stylesheet is applied.
    pub quirks_mode: bool,
    /// If true, the device has changed, and the stylist needs to be updated.
    pub is_device_dirty: bool,
    /// The rule indexes and dependencies of the last rebuild.
    pub data: CascadeData,
    /// Declarations of the precomputed pseudo-elements, by pseudo-element position.
    pub precomputed_pseudo_element_decls: Vec<Option<Vec<DeclarationBlock>>>,
    /// Built-in user-agent and user stylesheets, added first on every rebuild.
    pub user_or_user_agent_stylesheets: Vec<Stylesheet>,
    /// Added after them when quirks mode is on.
    pub quirks_mode_stylesheet: Option<Stylesheet>,
}

impl Stylist {
    pub open spec fn wf(&self) -> bool {
        &&& self.data.wf()
        &&& self.precomputed_pseudo_element_decls@.len() == PSEUDO_COUNT
    }

    pub open spec fn precomputed(&self, p: PseudoElement) -> Option<Seq<BlockView>> {
        match self.precomputed_pseudo_element_decls@[pseudo_index_spec(p) as int] {
            Some(v) => Some(blocks_view(v@)),
            None => None,
        }
    }

    /// The stylesheets a rebuild adds, in order.
    pub open spec fn all_sheets(&self, doc: Seq<StylesheetView>) -> Seq<StylesheetView> {
        sheets_view(self.user_or_user_agent_stylesheets@) + match self.quirks_mode_stylesheet {
            Some(q) => if self.quirks_mode {
                seq![q@]
            } else {
                Seq::<StylesheetView>::empty()
            },
            None => Seq::<StylesheetView>::empty(),
        } + doc
    }

    /// The state a rebuild from `sheets` leaves.
    pub open spec fn rebuilt_from(&self, sheets: Seq<StylesheetView>) -> bool {
        &&& self.wf()
        &&& !self.is_device_dirty
        &&& forall|p: Option<PseudoElement>, o: Origin, imp: bool|
            (p is None || cascade_type_spec(p->Some_0) != PseudoElementCascadeType::Precomputed) ==> #[trigger] self.data.index(p, o, imp)
                == sheets_entries(sheets, self.device, p, o, imp)
        &&& forall|p: PseudoElement|
            #![trigger self.precomputed(p)]
            if cascade_type_spec(p) == PseudoElementCascadeType::Precomputed {
                !self.data.present(p) && self.precomputed(p) == precomputed_blocks(sheets, self.device, p)
            } else {
                self.precomputed(p) is None
            }
        &&& self.data.state_deps@ == sheets_dependencies(sheets, self.device)
    }

    pub fn new(
        device: Device,
        user_or_user_agent_stylesheets: Vec<Stylesheet>,
        quirks_mode_stylesheet: Option<Stylesheet>,
    ) -> (r: Stylist)
        ensures
            r.wf(),
            r.device == device,
            r.is_device_dirty,
            !r.quirks_mode,
            r.viewport_constraints is None,
            r.user_or_user_agent_stylesheets@ == user_or_user_agent_stylesheets@,
            r.quirks_mode_stylesheet == quirks_mode_stylesheet,
    {
        Stylist {
            device,
            viewport_constraints: None,
            quirks_mode: false,
            is_device_dirty: true,
            data: CascadeData::new(),
            precomputed_pseudo_element_decls: no_precomputed(),
            user_or_user_agent_stylesheets,
            quirks_mode_stylesheet,
        }
    }

    /// Rebuilds the rule indexes from the built-in stylesheets, the
    /// quirks-mode stylesheet when quirks mode is on, and `doc_stylesheets`,
    /// unless neither the device is dirty nor the stylesheets changed.
    /// Returns whether it rebuilt.
    pub fn update(&mut self, doc_stylesheets: &Vec<Stylesheet>, stylesheets_changed: bool) -> (r: bool)
        requires
            old(self).wf(),
            sheets_total_rules(old(self).all_sheets(sheets_view(doc_stylesheets@))) <= usize::MAX,
        ensures
            r == (old(self).is_device_dirty || stylesheets_changed),
            !r ==> *final(self) == *old(self),
            r ==> final(self).rebuilt_from(old(self).all_sheets(sheets_view(doc_stylesheets@))),
            final(self).wf(),
            !final(self).is_device_dirty,
            final(self).device == old(self).device,
            final(self).viewport_constraints == old(self).viewport_constraints,
            final(self).quirks_mode == old(self).quirks_mode,
            final(self).user_or_user_agent_stylesheets@ == old(self).user_or_user_agent_stylesheets@,
            final(self).quirks_mode_stylesheet == old(self).quirks_mode_stylesheet,
    {
        if !(self.is_device_dirty || stylesheets_changed) {
            return false;
        }
        let ghost all = self.all_sheets(sheets_view(doc_stylesheets@));
        let ghost ua = sheets_view(self.user_or_user_agent_stylesheets@);
        let mut data = CascadeData::new();
        proof {
            assert forall|p: Option<PseudoElement>, o: Origin, imp: bool|
                #[trigger] data.index(p, o, imp) == sheets_entries(Seq::<StylesheetView>::empty(), self.device, p, o, imp) by {
                assert(data.index(p, o, imp).len() == 0);
                assert(data.index(p, o, imp) =~= Seq::<RuleView>::empty());
            }
            assert(data.state_deps@ =~= sheets_dependencies(Seq::<StylesheetView>::empty(), self.device));
            assert(Seq::<StylesheetView>::empty() + ua =~= ua);
            lemma_total_prefix(all, ua.len() as int);
            assert(all.take(ua.len() as int) =~= ua);
        }
        add_stylesheets(&mut data, &self.user_or_user_agent_stylesheets, &self.device, Ghost(Seq::empty()));
        let ghost mut done = ua;
        if self.quirks_mode {
            match &self.quirks_mode_stylesheet {
                Some(q) => {
                    proof {
                        lemma_total_prefix(all, ua.len() as int + 1);
                        assert(all.take(ua.len() as int + 1) =~= ua.push(q@));
                    }
                    add_one_stylesheet(&mut data, q, &self.device, Ghost(ua));
                    proof {
                        done = ua.push(q@);
                    }
                },
                None => {},
            }
        }
        proof {
            assert(all =~= done + sheets_view(doc_stylesheets@));
        }
        add_stylesheets(&mut data, doc_stylesheets, &self.device, Ghost(done));
        let mut decls = no_precomputed();
        precompute_pseudo_elements(&mut data, &mut decls, &self.device, Ghost(all));
        self.data = data;
        self.precomputed_pseudo_element_decls = decls;
        self.is_device_dirty = false;
        assert forall|p: PseudoElement|
            #![trigger self.precomputed(p)]
            if cascade_type_spec(p) == PseudoElementCascadeType::Precomputed {
                !self.data.present(p) && self.precomputed(p) == precomputed_blocks(all, self.device, p)
            } else {
                self.precomputed(p) is None
            } by {
            assert(self.precomputed(p) == decls_at(self.precomputed_pseudo_element_decls@, pseudo_index_spec(p) as int));
        }
        true
    }

    fn map_for(&self, pseudo: Option<PseudoElement>) -> (r: &PerPseudoElementSelectorMap)
        requires
            self.wf(),
            pseudo matches Some(p) ==> self.data.present(p),
        ensures
            forall|o: Origin, imp: bool| #[trigger] r.index(o, imp) == self.data.index(pseudo, o, imp),
    {
        match pseudo {
            None => &self.data.element_map,
            Some(p) => {
                let slot = &self.data.pseudos_map[p.index()];
                match slot {
                    Some(m) => m,
                    None => {
                        proof {
                            assert(false);
                        }
                        &self.data.element_map
                    },
                }
            },
        }
    }

    /// Appends to `out` the declarations that apply to `element` (whose
    /// ancestors are `ancestors`, nearest first), or to its `pseudo_element`,
    /// in cascade precedence order. Returns whether the resulting style may
    /// be shared with other elements.
    pub fn push_applicable_declarations(
        &self,
        element: &ElementInfo,
        ancestors: &Vec<ElementInfo>,
        style_attribute: Option<&PropertyDeclarationBlock>,
        pseudo_element: Option<PseudoElement>,
        out: &mut Vec<DeclarationBlock>,
    ) -> (r: bool)
        requires
            self.wf(),
            !self.is_device_dirty,
            style_attribute is None || pseudo_element is None,
            pseudo_element matches Some(p) ==> self.data.present(p) && cascade_type_spec(p)
                != PseudoElementCascadeType::Precomputed,
        ensures
            blocks_view(final(out)@) == blocks_view(old(out)@) + applicable_declarations(
                self.data,
                element@,
                view_elements(ancestors@),
                option_view(style_attribute),
                pseudo_element,
            ),
            r == style_shareable(
                self.data,
                element@,
                view_elements(ancestors@),
                option_view(style_attribute),
                pseudo_element,
            ),
    {
        let ghost e = element@;
        let ghost anc = view_elements(ancestors@);
        let ghost sa = option_view(style_attribute);
        let ghost start = blocks_view(out@);
        let map = self.map_for(pseudo_element);
        let ghost data = self.data;
        let mut shareable = true;
        let ghost mut acc = Seq::<BlockView>::empty();
        assert(blocks_view(out@) =~= start + acc);

        // Step 1: normal user-agent rules.
        map.user_agent.normal.get_all_matching_rules(element, ancestors, out, &mut shareable);
        proof {
            assert(map.index(Origin::UserAgent, false) == map.user_agent.normal@);
            let part = step_blocks(data, pseudo_element, Origin::UserAgent, false, e, anc);
            assert(start + acc + part =~= start + (acc + part));
            acc = acc + part;
        }

        // Step 2: presentational hints.
        let mut hints_appended = false;
        if pseudo_element.is_none() && element.hints.len() > 0 {
            let ghost before = blocks_view(out@);
            let b = DeclarationBlock::from_declarations(copy_declarations(&element.hints));
            let ghost bv = b@;
            out.push(b);
            assert(blocks_view(out@) =~= before.push(bv));
            hints_appended = true;
        }
        proof {
            let part = hint_blocks(e, pseudo_element);
            assert(blocks_view(out@) =~= start + (acc + part));
            acc = acc + part;
        }

        // Step 3: normal user rules.
        map.user.normal.get_all_matching_rules(element, ancestors, out, &mut shareable);
        proof {
            assert(map.index(Origin::User, false) == map.user.normal@);
            let part = step_blocks(data, pseudo_element, Origin::User, false, e, anc);
            assert(start + acc + part =~= start + (acc + part));
            acc = acc + part;
        }
        // Step 4: normal author rules.
        map.author.normal.get_all_matching_rules(element, ancestors, out, &mut shareable);
        proof {
            assert(map.index(Origin::Author, false) == map.author.normal@);
            let part = step_blocks(data, pseudo_element, Origin::Author, false, e, anc);
            assert(start + acc + part =~= start + (acc + part));
            acc = acc + part;
        }

        // Steps 5 and 6: the style attribute, normal then important.
        match style_attribute {
            Some(a) => {
                let ghost before = blocks_view(out@);
                let n = DeclarationBlock::from_declarations(copy_declarations(&a.normal));
                let i = DeclarationBlock::from_declarations(copy_declarations(&a.important));
                let ghost nv = n@;
                let ghost iv = i@;
                out.push(n);
                out.push(i);
                assert(blocks_view(out@) =~= before.push(nv).push(iv));
            },
            None => {},
        }
        proof {
            let part = attribute_blocks(sa, false) + attribute_blocks(sa, true);
            assert(blocks_view(out@) =~= start + (acc + part));
            assert(acc + part =~= acc + attribute_blocks(sa, false) + attribute_blocks(sa, true));
            acc = acc + attribute_blocks(sa, false) + attribute_blocks(sa, true);
        }

        // Step 7: important author, user and user-agent rules.
        map.author.important.get_all_matching_rules(element, ancestors, out, &mut shareable);
        proof {
            assert(map.index(Origin::Author, true) == map.author.important@);
            let part = step_blocks(data, pseudo_element, Origin::Author, true, e, anc);
            assert(start + acc + part =~= start + (acc + part));
            acc = acc + part;
        }
        map.user.important.get_all_matching_rules(element, ancestors, out, &mut shareable);
        proof {
            assert(map.index(Origin::User, true) == map.user.important@);
            let part = step_blocks(data, pseudo_element, Origin::User, true, e, anc);
            assert(start + acc + part =~= start + (acc + part));
            acc = acc + part;
        }
        map.user_agent.important.get_all_matching_rules(element, ancestors, out, &mut shareable);
        proof {
            assert(map.index(Origin::UserAgent, true) == map.user_agent.important@);
            let part = step_blocks(data, pseudo_element, Origin::UserAgent, true, e, anc);
            assert(start + acc + part =~= start + (acc + part));
            acc = acc + part;
            assert(acc == applicable_declarations(data, e, anc, sa, pseudo_element));
        }
        assert(shareable == forall|o: Origin, imp: bool|
            #[trigger] matches_allow_sharing(self.data.index(pseudo_element, o, imp), e, anc)) by {
            assert forall|o: Origin, imp: bool| #[trigger] self.data.index(pseudo_element, o, imp) == map.index(o, imp) by {}
        }
        shareable && !hints_appended && style_attribute.is_none()
    }

    /// The style of a precomputed pseudo-element: its declarations from the
    /// last rebuild applied over `parent`, or `parent` itself when no rule
    /// targets it.
    pub fn precomputed_values_for_pseudo(&self, pseudo: PseudoElement, parent: Option<&ComputedValues>) -> (r: Option<ComputedValues>)
        requires
            self.wf(),
            cascade_type_spec(pseudo) == PseudoElementCascadeType::Precomputed,
        ensures
            match self.precomputed(pseudo) {
                Some(blocks) => r matches Some(v) && v@ == match parent {
                    Some(p) => p@,
                    None => Seq::<Declaration>::empty(),
                } + flatten_blocks(blocks),
                None => match parent {
                    Some(p) => r matches Some(v) && v@ == p@,
                    None => r is None,
                },
            },
    {
        match &self.precomputed_pseudo_element_decls[pseudo.index()] {
            Some(declarations) => Some(cascade(declarations, parent)),
            None => match parent {
                Some(p) => Some(p.deep_copy()),
                None => None,
            },
        }
    }

    /// The style of a lazily cascaded pseudo-element of `element`, or `None`
    /// when no rule targets that pseudo-element.
    pub fn lazily_compute_pseudo_element_style(
        &self,
        element: &ElementInfo,
        ancestors: &Vec<ElementInfo>,
        pseudo: PseudoElement,
        parent: &ComputedValues,
    ) -> (r: Option<ComputedValues>)
        requires
            self.wf(),
            !self.is_device_dirty,
            cascade_type_spec(pseudo) == PseudoElementCascadeType::Lazy,
        ensures
            r is None <==> !self.data.present(pseudo),
            r matches Some(v) ==> v@ == parent@ + flatten_blocks(
                applicable_declarations(self.data, element@, view_elements(ancestors@), None, Some(pseudo)),
            ),
    {
        if self.data.pseudos_map[pseudo.index()].is_none() {
            return None;
        }
        let mut declarations: Vec<DeclarationBlock> = Vec::new();
        assert(blocks_view(declarations@) =~= Seq::<BlockView>::empty());
        self.push_applicable_declarations(element, ancestors, None, Some(pseudo), &mut declarations);
        assert(blocks_view(declarations@) =~= applicable_declarations(self.data, element@, view_elements(ancestors@), None, Some(pseudo)));
        Some(cascade(&declarations, Some(parent)))
    }

    /// Which elements must be restyled after `element`'s state changed from
    /// the snapshot's to `current_state`.
    pub fn compute_restyle_hint(&self, snapshot: &ElementSnapshot, current_state: u64) -> (r: RestyleHint)
        ensures
            r == hint_for(self.data.state_deps@, snapshot.state ^ current_state),
    {
        self.data.state_deps.compute_hint(snapshot.state, current_state)
    }

    /// Switches to `device`, sized by the `@viewport` rules of `stylesheets`
    /// where they constrain it, and marks the stylist dirty when a media
    /// list of `stylesheets` evaluates differently on the new device.
    pub fn set_device(&mut self, device: Device, stylesheets: &Vec<Stylesheet>)
        ensures
            final(self).viewport_constraints == constraints_for(
                device,
                cascade_viewport(effective_viewport_rules(sheets_view(stylesheets@), old(self).device)),
            ),
            final(self).device == match final(self).viewport_constraints {
                Some(c) => Device { media_type: MediaType::Screen, width: c.width, height: c.height },
                None => device,
            },
            final(self).is_device_dirty == (old(self).is_device_dirty || media_changes(
                sheets_view(stylesheets@),
                old(self).device,
                final(self).device,
            )),
            final(self).data == old(self).data,
            final(self).precomputed_pseudo_element_decls == old(self).precomputed_pseudo_element_decls,
            final(self).quirks_mode == old(self).quirks_mode,
            final(self).user_or_user_agent_stylesheets == old(self).user_or_user_agent_stylesheets,
            final(self).quirks_mode_stylesheet == old(self).quirks_mode_stylesheet,
    {
        let ghost sv = sheets_view(stylesheets@);
        let mut cascaded = ViewportRule { width: None, height: None };
        let mut i: usize = 0;
        while i < stylesheets.len()
            invariant
                i <= stylesheets.len(),
                sv == sheets_view(stylesheets@),
                cascaded == cascade_viewport(effective_viewport_rules(sv.take(i as int), self.device)),
            decreases stylesheets.len() - i,
        {
            let sheet = &stylesheets[i];
            let ghost t = sv.take(i as int + 1);
            assert(t.drop_last() =~= sv.take(i as int));
            assert(t.last() == sheet@);
            if sheet.is_effective_for_device(&self.device) {
                cascade_viewport_onto(&mut cascaded, &sheet.viewport_rules, Ghost(effective_viewport_rules(sv.take(i as int), self.device)));
            }
            i += 1;
        }
        assert(sv.take(stylesheets.len() as int) =~= sv);
        let constraints = if cascaded.width.is_none() && cascaded.height.is_none() {
            None
        } else {
            Some(
                ViewportConstraints {
                    width: match cascaded.width {
                        Some(w) => w,
                        None => device.width,
                    },
                    height: match cascaded.height {
                        Some(h) => h,
                        None => device.height,
                    },
                },
            )
        };
        let new_device = match constraints {
            Some(c) => Device { media_type: MediaType::Screen, width: c.width, height: c.height },
            None => device,
        };
        let mut changed = false;
        let mut k: usize = 0;
        while k < stylesheets.len()
            invariant
                k <= stylesheets.len(),
                sv == sheets_view(stylesheets@),
                changed == exists|j: int| 0 <= j < k && sheet_media_changes(#[trigger] sv[j], self.device, new_device),
            decreases stylesheets.len() - k,
        {
            assert(sv[k as int] == stylesheets@[k as int]@);
            if stylesheets[k].media_changes_between(&self.device, &new_device) {
                changed = true;
            }
            k += 1;
        }
        self.viewport_constraints = constraints;
        self.is_device_dirty = self.is_device_dirty || changed;
        self.device = new_device;
    }

    pub fn is_device_dirty(&self) -> (r: bool)
        ensures
            r == self.is_device_dirty,
    {
        self.is_device_dirty
    }

    pub fn set_quirks_mode(&mut self, enabled: bool)
        ensures
            *final(self) == (Stylist { quirks_mode: enabled, ..*old(self) }),
    {
        self.quirks_mode = enabled;
    }

    pub fn viewport_constraints(&self) -> (r: &Option<ViewportConstraints>)
        ensures
            *r == self.viewport_constraints,
    {
        &self.viewport_constraints
    }
}

/// Dependency soundness: after a rebuild from `sheets`, changing a state bit
/// that the subject compound of any selector in effect tests yields a hint
/// that restyles the element itself.
pub proof fn lemma_state_change_after_rebuild_restyles_self(
    stylist: Stylist,
    sheets: Seq<StylesheetView>,
    s: SelectorView,
    old_state: u64,
    new_state: u64,
)
    requires
        stylist.rebuilt_from(sheets),
        selector_in_sheets(sheets, stylist.device, s),
        s.compound.state & (old_state ^ new_state) != 0,
    ensures
        hint_for(stylist.data.state_deps@, old_state ^ new_state).restyle_self,
{
    lemma_sheets_dependencies_noted(sheets, stylist.device, s);
    lemma_state_change_restyles_self(stylist.data.state_deps@, s, old_state, new_state);
}

proof fn lemma_total_prefix(s: Seq<StylesheetView>, n: int)
    requires
        0 <= n <= s.len(),
    ensures
        sheets_total_rules(s.take(n)) <= sheets_total_rules(s),
    decreases s.len(),
{
    if n < s.len() {
        assert(s.take(n) =~= s.drop_last().take(n));
        lemma_total_prefix(s.drop_last(), n);
    } else {
        assert(s.take(n) =~= s);
    }
}

/// The state of `data` once `sheets` have been added to a fresh one.
pub open spec fn holds_sheets(data: CascadeData, sheets: Seq<StylesheetView>, d: Device) -> bool {
    &&& data.wf()
    &&& data.rules_source_order == sheets_rule_count(sheets, d)
    &&& forall|p: Option<PseudoElement>, o: Origin, imp: bool|
        #[trigger] data.index(p, o, imp) == sheets_entries(sheets, d, p, o, imp)
    &&& data.state_deps@ == sheets_dependencies(sheets, d)
}

fn add_one_stylesheet(data: &mut CascadeData, sheet: &Stylesheet, device: &Device, Ghost(prior): Ghost<Seq<StylesheetView>>)
    requires
        holds_sheets(*old(data), prior, *device),
        sheets_total_rules(prior.push(sheet@)) <= usize::MAX,
    ensures
        holds_sheets(*final(data), prior.push(sheet@), *device),
{
    proof {
        lemma_rule_count_bound(prior, *device);
        assert(prior.push(sheet@).drop_last() =~= prior);
    }
    data.add_stylesheet(sheet, device);
}

fn add_stylesheets(data: &mut CascadeData, sheets: &Vec<Stylesheet>, device: &Device, Ghost(prior): Ghost<Seq<StylesheetView>>)
    requires
        holds_sheets(*old(data), prior, *device),
        sheets_total_rules(prior + sheets_view(sheets@)) <= usize::MAX,
    ensures
        holds_sheets(*final(data), prior + sheets_view(sheets@), *device),
{
    let ghost all = prior + sheets_view(sheets@);
    let mut j: usize = 0;
    assert(prior + sheets_view(sheets@).take(0) =~= prior);
    while j < sheets.len()
        invariant
            j <= sheets.len(),
            all == prior + sheets_view(sheets@),
            sheets_total_rules(all) <= usize::MAX,
            holds_sheets(*data, prior + sheets_view(sheets@).take(j as int), *device),
        decreases sheets.len() - j,
    {
        let ghost cur = prior + sheets_view(sheets@).take(j as int);
        let ghost next = prior + sheets_view(sheets@).take(j as int + 1);
        assert(next =~= cur.push(sheets@[j as int]@));
        assert(next =~= all.take(prior.len() + j + 1));
        proof {
            lemma_total_prefix(all, prior.len() + j + 1);
        }
        add_one_stylesheet(data, &sheets[j], device, Ghost(cur));
        j += 1;
    }
    assert(sheets_view(sheets@).take(sheets.len() as int) =~= sheets_view(sheets@));
}

pub open spec fn decls_at(v: Seq<Option<Vec<DeclarationBlock>>>, k: int) -> Option<Seq<BlockView>> {
    match v[k] {
        Some(b) => Some(blocks_view(b@)),
        None => None,
    }
}

/// Moves the rules of every precomputed pseudo-element out of the indexes and
/// keeps only the declarations its style is made of.
fn precompute_pseudo_elements(
    data: &mut CascadeData,
    decls: &mut Vec<Option<Vec<DeclarationBlock>>>,
    device: &Device,
    Ghost(sheets): Ghost<Seq<StylesheetView>>,
)
    requires
        holds_sheets(*old(data), sheets, *device),
        old(decls)@.len() == PSEUDO_COUNT,
        forall|k: int| 0 <= k < PSEUDO_COUNT ==> #[trigger] old(decls)@[k] is None,
    ensures
        final(data).wf(),
        final(data).state_deps@ == old(data).state_deps@,
        final(decls)@.len() == PSEUDO_COUNT,
        forall|p: Option<PseudoElement>, o: Origin, imp: bool|
            (p is None || cascade_type_spec(p->Some_0) != PseudoElementCascadeType::Precomputed)
                ==> #[trigger] final(data).index(p, o, imp) == sheets_entries(sheets, *device, p, o, imp),
        forall|p: PseudoElement|
            #![trigger decls_at(final(decls)@, pseudo_index_spec(p) as int)]
            if cascade_type_spec(p) == PseudoElementCascadeType::Precomputed {
                !final(data).present(p) && decls_at(final(decls)@, pseudo_index_spec(p) as int)
                    == precomputed_blocks(sheets, *device, p)
            } else {
                decls_at(final(decls)@, pseudo_index_spec(p) as int) is None
            },
{
    let ghost d0 = *data;
    let mut i: usize = 0;
    while i < PSEUDO_COUNT
        invariant
            i <= PSEUDO_COUNT,
            holds_sheets(d0, sheets, *device),
            data.wf(),
            data.state_deps@ == d0.state_deps@,
            decls@.len() == PSEUDO_COUNT,
            forall|p: Option<PseudoElement>, o: Origin, imp: bool|
                !(p is Some && cascade_type_spec(p->Some_0) == PseudoElementCascadeType::Precomputed
                    && pseudo_index_spec(p->Some_0) < i)
                    ==> #[trigger] data.index(p, o, imp) == d0.index(p, o, imp),
            forall|p: PseudoElement|
                #![trigger decls_at(decls@, pseudo_index_spec(p) as int)]
                if cascade_type_spec(p) == PseudoElementCascadeType::Precomputed && pseudo_index_spec(p) < i {
                    !data.present(p) && decls_at(decls@, pseudo_index_spec(p) as int)
                        == precomputed_blocks(sheets, *device, p)
                } else {
                    decls_at(decls@, pseudo_index_spec(p) as int) is None
                },
        decreases PSEUDO_COUNT - i,
    {
        let p = PseudoElement::from_index(i);
        let ghost before = *data;
        let ghost dv0 = decls@;
        if p.cascade_type() == PseudoElementCascadeType::Precomputed {
            let slot = data.take_pseudo_map(p);
            assert(before.index(Some(p), Origin::UserAgent, false) == d0.index(Some(p), Origin::UserAgent, false));
            assert(before.index(Some(p), Origin::UserAgent, true) == d0.index(Some(p), Origin::UserAgent, true));
            assert(before.present(p) == exists|o: Origin, imp: bool| (#[trigger] before.index(Some(p), o, imp)).len() > 0);
            assert forall|o: Origin, imp: bool| #[trigger] before.index(Some(p), o, imp) == sheets_entries(sheets, *device, Some(p), o, imp) by {
                assert(before.index(Some(p), o, imp) == d0.index(Some(p), o, imp));
            }
            match slot {
                Some(m) => {
                    let mut v: Vec<DeclarationBlock> = Vec::new();
                    assert(blocks_view(v@) =~= Seq::<BlockView>::empty());
                    m.user_agent.normal.get_universal_rules(&mut v);
                    m.user_agent.important.get_universal_rules(&mut v);
                    proof {
                        assert(before.present(p));
                        let (wo, wi) = choose|o: Origin, imp: bool| (#[trigger] before.index(Some(p), o, imp)).len() > 0;
                        assert(sheets_entries(sheets, *device, Some(p), wo, wi).len() > 0);
                    }
                    assert(blocks_view(v@) =~= precomputed_blocks(sheets, *device, p)->Some_0);
                    decls.remove(i);
                    decls.insert(i, Some(v));
                },
                None => {
                    assert(!before.present(p));
                    assert forall|o: Origin, imp: bool| !((#[trigger] sheets_entries(sheets, *device, Some(p), o, imp)).len() > 0) by {
                        assert(before.index(Some(p), o, imp) == sheets_entries(sheets, *device, Some(p), o, imp));
                    }
                },
            }
        }
        assert forall|q: PseudoElement| pseudo_index_spec(q) != i implies decls@[pseudo_index_spec(q) as int] == dv0[pseudo_index_spec(q) as int] by {}
        assert forall|q: PseudoElement| pseudo_index_spec(q) == i implies q == p by {
            crate::selector::lemma_pseudo_index_injective(q, p);
        }
        assert forall|q: PseudoElement|
            #![trigger decls_at(decls@, pseudo_index_spec(q) as int)]
            if cascade_type_spec(q) == PseudoElementCascadeType::Precomputed && pseudo_index_spec(q) < i + 1 {
                !data.present(q) && decls_at(decls@, pseudo_index_spec(q) as int)
                    == precomputed_blocks(sheets, *device, q)
            } else {
                decls_at(decls@, pseudo_index_spec(q) as int) is None
            } by {
            if pseudo_index_spec(q) == i {
                assert(q == p);
            } else {
                assert(decls_at(decls@, pseudo_index_spec(q) as int) == decls_at(dv0, pseudo_index_spec(q) as int));
                if cascade_type_spec(p) == PseudoElementCascadeType::Precomputed {
                    assert(data.present(q) == before.present(q));
                } else {
                    assert(data.pseudos_map == before.pseudos_map);
                }
            }
        }
        i += 1;
    }
    assert forall|p: Option<PseudoElement>, o: Origin, imp: bool|
        (p is None || cascade_type_spec(p->Some_0) != PseudoElementCascadeType::Precomputed)
            implies #[trigger] data.index(p, o, imp) == sheets_entries(sheets, *device, p, o, imp) by {
        assert(data.index(p, o, imp) == d0.index(p, o, imp));
    }
    assert forall|p: PseudoElement|
        #![trigger decls_at(decls@, pseudo_index_spec(p) as int)]
        if cascade_type_spec(p) == PseudoElementCascadeType::Precomputed {
            !data.present(p) && decls_at(decls@, pseudo_index_spec(p) as int)
                == precomputed_blocks(sheets, *device, p)
        } else {
            decls_at(decls@, pseudo_index_spec(p) as int) is None
        } by {
        assert(pseudo_index_spec(p) < PSEUDO_COUNT);
    }
}

/// Cascades `rules` onto `acc`, which holds the cascade of `prior`.
fn cascade_viewport_onto(acc: &mut ViewportRule, rules: &Vec<ViewportRule>, Ghost(prior): Ghost<Seq<ViewportRule>>)
    requires
        *old(acc) == cascade_viewport(prior),
    ensures
        *final(acc) == cascade_viewport(prior + rules@),
{
    let mut i: usize = 0;
    assert(prior + rules@.take(0) =~= prior);
    while i < rules.len()
        invariant
            i <= rules.len(),
            *acc == cascade_viewport(prior + rules@.take(i as int)),
        decreases rules.len() - i,
    {
        let r = rules[i];
        let ghost s = prior + rules@.take(i as int + 1);
        assert(s.drop_last() =~= prior + rules@.take(i as int));
        assert(s.last() == r);
        if r.width.is_some() {
            acc.width = r.width;
        }
        if r.height.is_some() {
            acc.height = r.height;
        }
        i += 1;
    }
    assert(rules@.take(rules.len() as int) =~= rules@);
}

fn no_precomputed() -> (r: Vec<Option<Vec<DeclarationBlock>>>)
    ensures
        r@.len() == PSEUDO_COUNT,
        forall|k: int| 0 <= k < PSEUDO_COUNT ==> #[trigger] r@[k] is None,
{
    let mut r: Vec<Option<Vec<DeclarationBlock>>> = Vec::new();
    let mut i: usize = 0;
    while i < PSEUDO_COUNT
        invariant
            i <= PSEUDO_COUNT,
            r@.len() == i,
            forall|k: int| 0 <= k < i ==> #[trigger] r@[k] is None,
        decreases PSEUDO_COUNT - i,
    {
        r.push(None);
        i += 1;
    }
    r
}

} // verus!
