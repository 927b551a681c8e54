//! The rule indexes of a rebuild: one set per pseudo-element (and one for
//! none), filled from stylesheets in cascade source order.
use vstd::prelude::*;
use crate::restyle::{
    DependencySet, Dependency, dependencies_noted, lemma_note_selector_notes, lemma_noted_kept,
    lemma_noted_kept_front, selector_dependencies,
};
use crate::rule_map::{
    BlockView, DeclarationBlock, PerPseudoElementSelectorMap, Rule, RuleView,
};
use crate::selector::{
    Declaration, PSEUDO_COUNT, PseudoElement, PseudoElementCascadeType, SelectorView,
    cascade_type_spec, copy_declarations, pseudo_index_spec,
};
use crate::stylesheet::{
    Device, Origin, StyleRule, StyleRuleView, Stylesheet, StylesheetView, media_list_matches,
    evaluate_media_list,
};

verus! {

/// The index entries one style rule yields from `sels` for `pseudo`.
pub open spec fn selector_entries(
    sels: Seq<SelectorView>,
    decls: Seq<Declaration>,
    order: usize,
    pseudo: Option<PseudoElement>,
) -> Seq<RuleView>
    decreases sels.len(),
{
    if sels.len() == 0 {
        seq![]
    } else {
        let prev = selector_entries(sels.drop_last(), decls, order, pseudo);
        let s = sels.last();
        if s.pseudo_element == pseudo {
            prev.push(
                RuleView {
                    selector: s,
                    block: BlockView {
                        declarations: decls,
                        specificity: s.specificity,
                        source_order: order,
                    },
                },
            )
        } else {
            prev
        }
    }
}

/// The entries of a style rule for one pseudo-element and importance: one per
/// selector, none where the rule has no declaration of that importance.
pub open spec fn rule_entries(r: StyleRuleView, order: usize, pseudo: Option<PseudoElement>, important: bool) -> Seq<RuleView> {
    if r.declarations(important).len() == 0 {
        seq![]
    } else {
        selector_entries(r.selectors, r.declarations(important), order, pseudo)
    }
}

/// The style rules whose media list holds on `d`, in order.
pub open spec fn effective_rules(rules: Seq<StyleRuleView>, d: Device) -> Seq<StyleRuleView>
    decreases rules.len(),
{
    if rules.len() == 0 {
        seq![]
    } else {
        let prev = effective_rules(rules.drop_last(), d);
        if media_list_matches(rules.last().media, d) {
            prev.push(rules.last())
        } else {
            prev
        }
    }
}

/// Entries of `rules`, the k-th taking source order `start + k`.
pub open spec fn rules_entries(rules: Seq<StyleRuleView>, start: int, pseudo: Option<PseudoElement>, important: bool) -> Seq<RuleView>
    decreases rules.len(),
{
    if rules.len() == 0 {
        seq![]
    } else {
        rules_entries(rules.drop_last(), start, pseudo, important) + rule_entries(
            rules.last(),
            (start + rules.len() - 1) as usize,
            pseudo,
            important,
        )
    }
}

/// How many source-order numbers a stylesheet takes on `d`.
pub open spec fn sheet_rule_count(s: StylesheetView, d: Device) -> nat {
    if media_list_matches(s.media, d) {
        effective_rules(s.rules, d).len()
    } else {
        0
    }
}

pub open spec fn sheet_entries(
    s: StylesheetView,
    d: Device,
    start: int,
    pseudo: Option<PseudoElement>,
    origin: Origin,
    important: bool,
) -> Seq<RuleView> {
    if media_list_matches(s.media, d) && s.origin == origin {
        rules_entries(effective_rules(s.rules, d), start, pseudo, important)
    } else {
        seq![]
    }
}

pub open spec fn sheets_rule_count(sheets: Seq<StylesheetView>, d: Device) -> nat
    decreases sheets.len(),
{
    if sheets.len() == 0 {
        0
    } else {
        sheets_rule_count(sheets.drop_last(), d) + sheet_rule_count(sheets.last(), d)
    }
}

/// What the index of (`pseudo`, `origin`, `important`) holds once `sheets`
/// have been added in order, source order counting from zero.
pub open spec fn sheets_entries(
    sheets: Seq<StylesheetView>,
    d: Device,
    pseudo: Option<PseudoElement>,
    origin: Origin,
    important: bool,
) -> Seq<RuleView>
    decreases sheets.len(),
{
    if sheets.len() == 0 {
        seq![]
    } else {
        sheets_entries(sheets.drop_last(), d, pseudo, origin, important) + sheet_entries(
            sheets.last(),
            d,
            sheets_rule_count(sheets.drop_last(), d) as int,
            pseudo,
            origin,
            important,
        )
    }
}

pub open spec fn selectors_dependencies(sels: Seq<SelectorView>) -> Seq<Dependency>
    decreases sels.len(),
{
    if sels.len() == 0 {
        seq![]
    } else {
        selectors_dependencies(sels.drop_last()) + selector_dependencies(sels.last())
    }
}

pub open spec fn rules_dependencies(rules: Seq<StyleRuleView>) -> Seq<Dependency>
    decreases rules.len(),
{
    if rules.len() == 0 {
        seq![]
    } else {
        rules_dependencies(rules.drop_last()) + selectors_dependencies(rules.last().selectors)
    }
}

pub open spec fn sheet_dependencies(s: StylesheetView, d: Device) -> Seq<Dependency> {
    if media_list_matches(s.media, d) {
        rules_dependencies(effective_rules(s.rules, d))
    } else {
        seq![]
    }
}

/// The dependencies recorded once `sheets` have been added in order.
pub open spec fn sheets_dependencies(sheets: Seq<StylesheetView>, d: Device) -> Seq<Dependency>
    decreases sheets.len(),
{
    if sheets.len() == 0 {
        seq![]
    } else {
        sheets_dependencies(sheets.drop_last(), d) + sheet_dependencies(sheets.last(), d)
    }
}

/// Number of style rules in `sheets`, effective or not.
pub open spec fn sheets_total_rules(sheets: Seq<StylesheetView>) -> nat
    decreases sheets.len(),
{
    if sheets.len() == 0 {
        0
    } else {
        sheets_total_rules(sheets.drop_last()) + sheets.last().rules.len()
    }
}

proof fn lemma_effective_len(rules: Seq<StyleRuleView>, d: Device)
    ensures
        effective_rules(rules, d).len() <= rules.len(),
    decreases rules.len(),
{
    if rules.len() > 0 {
        lemma_effective_len(rules.drop_last(), d);
    }
}

pub proof fn lemma_rule_count_bound(sheets: Seq<StylesheetView>, d: Device)
    ensures
        sheets_rule_count(sheets, d) <= sheets_total_rules(sheets),
    decreases sheets.len(),
{
    if sheets.len() > 0 {
        lemma_rule_count_bound(sheets.drop_last(), d);
        lemma_effective_len(sheets.last().rules, d);
    }
}

proof fn lemma_same_maps(a: CascadeData, b: CascadeData)
    requires
        a.element_map == b.element_map,
        a.pseudos_map@ == b.pseudos_map@,
    ensures
        a.wf() == b.wf(),
        forall|p: Option<PseudoElement>, o: Origin, imp: bool| #[trigger] b.index(p, o, imp) == a.index(p, o, imp),
        forall|p: PseudoElement| #[trigger] b.present(p) == a.present(p),
{
    assert forall|p: Option<PseudoElement>, o: Origin, imp: bool| #[trigger] b.index(p, o, imp) == a.index(p, o, imp) by {}
    if a.wf() {
        assert forall|p: PseudoElement|
            #![trigger b.present(p)]
            b.present(p) == (cascade_type_spec(p) == PseudoElementCascadeType::Eager
                || exists|o: Origin, imp: bool| (#[trigger] b.index(Some(p), o, imp)).len() > 0) by {
            assert(a.present(p) == b.present(p));
            if exists|o: Origin, imp: bool| (#[trigger] b.index(Some(p), o, imp)).len() > 0 {
                let (o, imp) = choose|o: Origin, imp: bool| (#[trigger] b.index(Some(p), o, imp)).len() > 0;
                assert(a.index(Some(p), o, imp).len() > 0);
            }
            if exists|o: Origin, imp: bool| (#[trigger] a.index(Some(p), o, imp)).len() > 0 {
                let (o, imp) = choose|o: Origin, imp: bool| (#[trigger] a.index(Some(p), o, imp)).len() > 0;
                assert(b.index(Some(p), o, imp).len() > 0);
            }
        }
    }
    if b.wf() {
        assert forall|p: PseudoElement|
            #![trigger a.present(p)]
            a.present(p) == (cascade_type_spec(p) == PseudoElementCascadeType::Eager
                || exists|o: Origin, imp: bool| (#[trigger] a.index(Some(p), o, imp)).len() > 0) by {
            assert(a.present(p) == b.present(p));
            if exists|o: Origin, imp: bool| (#[trigger] b.index(Some(p), o, imp)).len() > 0 {
                let (o, imp) = choose|o: Origin, imp: bool| (#[trigger] b.index(Some(p), o, imp)).len() > 0;
                assert(a.index(Some(p), o, imp).len() > 0);
            }
            if exists|o: Origin, imp: bool| (#[trigger] a.index(Some(p), o, imp)).len() > 0 {
                let (o, imp) = choose|o: Origin, imp: bool| (#[trigger] a.index(Some(p), o, imp)).len() > 0;
                assert(b.index(Some(p), o, imp).len() > 0);
            }
        }
    }
}

/// Whether `s` is a selector of a rule that is effective on `d`, in a
/// stylesheet of `sheets` that is effective on `d`.
pub open spec fn selector_in_sheets(sheets: Seq<StylesheetView>, d: Device, s: SelectorView) -> bool {
    exists|i: int, k: int, j: int|
        0 <= i < sheets.len() && media_list_matches(sheets[i].media, d) && 0 <= k
            < sheets[i].rules.len() && media_list_matches(sheets[i].rules[k].media, d) && 0 <= j
            < sheets[i].rules[k].selectors.len() && #[trigger] sheets[i].rules[k].selectors[j] == s
}

proof fn lemma_selectors_noted(sels: Seq<SelectorView>, j: int)
    requires
        0 <= j < sels.len(),
    ensures
        dependencies_noted(selectors_dependencies(sels), sels[j]),
    decreases sels.len(),
{
    let d = sels.drop_last();
    if j == sels.len() - 1 {
        lemma_note_selector_notes(selectors_dependencies(d), sels[j]);
    } else {
        lemma_selectors_noted(d, j);
        assert(d[j] == sels[j]);
        lemma_noted_kept(selectors_dependencies(d), selector_dependencies(sels.last()), sels[j]);
    }
}

proof fn lemma_rules_noted(rules: Seq<StyleRuleView>, dev: Device, k: int, j: int)
    requires
        0 <= k < rules.len(),
        media_list_matches(rules[k].media, dev),
        0 <= j < rules[k].selectors.len(),
    ensures
        dependencies_noted(rules_dependencies(effective_rules(rules, dev)), rules[k].selectors[j]),
    decreases rules.len(),
{
    let d = rules.drop_last();
    let pe = effective_rules(d, dev);
    let s = rules[k].selectors[j];
    if media_list_matches(rules.last().media, dev) {
        let ne = pe.push(rules.last());
        assert(ne.drop_last() =~= pe);
        assert(rules_dependencies(ne) == rules_dependencies(pe) + selectors_dependencies(rules.last().selectors));
        if k == rules.len() - 1 {
            lemma_selectors_noted(rules.last().selectors, j);
            lemma_noted_kept_front(rules_dependencies(pe), selectors_dependencies(rules.last().selectors), s);
        } else {
            assert(d[k] == rules[k]);
            lemma_rules_noted(d, dev, k, j);
            lemma_noted_kept(rules_dependencies(pe), selectors_dependencies(rules.last().selectors), s);
        }
    } else {
        assert(k != rules.len() - 1);
        assert(d[k] == rules[k]);
        lemma_rules_noted(d, dev, k, j);
    }
}

/// Every selector of an effective rule of an effective stylesheet has its
/// dependencies recorded by a rebuild from those stylesheets.
pub proof fn lemma_sheets_dependencies_noted(sheets: Seq<StylesheetView>, dev: Device, s: SelectorView)
    requires
        selector_in_sheets(sheets, dev, s),
    ensures
        dependencies_noted(sheets_dependencies(sheets, dev), s),
    decreases sheets.len(),
{
    let (i, k, j) = choose|i: int, k: int, j: int|
        0 <= i < sheets.len() && media_list_matches(sheets[i].media, dev) && 0 <= k
            < sheets[i].rules.len() && media_list_matches(sheets[i].rules[k].media, dev) && 0 <= j
            < sheets[i].rules[k].selectors.len() && #[trigger] sheets[i].rules[k].selectors[j] == s;
    let d = sheets.drop_last();
    if i == sheets.len() - 1 {
        lemma_rules_noted(sheets.last().rules, dev, k, j);
        lemma_noted_kept_front(sheets_dependencies(d, dev), sheet_dependencies(sheets.last(), dev), s);
    } else {
        assert(d[i] == sheets[i]);
        assert(d[i].rules[k].selectors[j] == s);
        lemma_sheets_dependencies_noted(d, dev, s);
        lemma_noted_kept(sheets_dependencies(d, dev), sheet_dependencies(sheets.last(), dev), s);
    }
}

/// Rule indexes and dependencies built from a sequence of stylesheets.
pub struct CascadeData {
    pub element_map: PerPseudoElementSelectorMap,
    /// Indexed by pseudo-element position; `None` where no map exists.
    pub pseudos_map: Vec<Option<PerPseudoElementSelectorMap>>,
    pub rules_source_order: usize,
    pub state_deps: DependencySet,
}

impl CascadeData {
    pub open spec fn present(&self, p: PseudoElement) -> bool {
        self.pseudos_map@[pseudo_index_spec(p) as int] is Some
    }

    /// The rules stored for a pseudo-element (or none), origin and importance.
    pub open spec fn index(&self, pseudo: Option<PseudoElement>, origin: Origin, important: bool) -> Seq<RuleView> {
        match pseudo {
            None => self.element_map.index(origin, important),
            Some(p) => match self.pseudos_map@[pseudo_index_spec(p) as int] {
                Some(m) => m.index(origin, important),
                None => seq![],
            },
        }
    }

    /// A map exists for every eagerly cascaded pseudo-element, and for any
    /// other only while some rule targets it.
    pub open spec fn wf(&self) -> bool {
        &&& self.pseudos_map@.len() == PSEUDO_COUNT
        &&& forall|p: PseudoElement|
            #![trigger self.present(p)]
            self.present(p) == (cascade_type_spec(p) == PseudoElementCascadeType::Eager
                || exists|o: Origin, imp: bool| (#[trigger] self.index(Some(p), o, imp)).len() > 0)
    }

    pub fn new() -> (r: CascadeData)
        ensures
            r.wf(),
            forall|p: Option<PseudoElement>, o: Origin, imp: bool| (#[trigger] r.index(p, o, imp)).len() == 0,
            forall|p: PseudoElement| #[trigger] r.present(p) == (cascade_type_spec(p) == PseudoElementCascadeType::Eager),
            r.rules_source_order == 0,
            r.state_deps@.len() == 0,
    {
        let mut pseudos_map: Vec<Option<PerPseudoElementSelectorMap>> = Vec::new();
        let mut i: usize = 0;
        while i < PSEUDO_COUNT
            invariant
                i <= PSEUDO_COUNT,
                pseudos_map@.len() == i,
                forall|k: int| 0 <= k < i ==> match #[trigger] pseudos_map@[k] {
                    Some(m) => forall|o: Origin, imp: bool| (#[trigger] m.index(o, imp)).len() == 0,
                    None => true,
                },
                forall|p: PseudoElement| pseudo_index_spec(p) < i ==> (pseudos_map@[pseudo_index_spec(p) as int] is Some) == (cascade_type_spec(p) == PseudoElementCascadeType::Eager),
            decreases PSEUDO_COUNT - i,
        {
            let p = PseudoElement::from_index(i);
            if p.cascade_type() == PseudoElementCascadeType::Eager {
                pseudos_map.push(Some(PerPseudoElementSelectorMap::new()));
            } else {
                pseudos_map.push(None);
            }
            proof {
                assert forall|q: PseudoElement| pseudo_index_spec(q) == i implies q == p by {
                    crate::selector::lemma_pseudo_index_injective(q, p);
                }
            }
            i += 1;
        }
        let r = CascadeData {
            element_map: PerPseudoElementSelectorMap::new(),
            pseudos_map,
            rules_source_order: 0,
            state_deps: DependencySet::new(),
        };
        assert forall|p: Option<PseudoElement>, o: Origin, imp: bool| (#[trigger] r.index(p, o, imp)).len() == 0 by {
            match p {
                Some(q) => {
                    let k = pseudo_index_spec(q) as int;
                    assert(0 <= k < PSEUDO_COUNT);
                    match r.pseudos_map@[k] {
                        Some(m) => {
                            assert(m.index(o, imp).len() == 0);
                        },
                        None => {},
                    }
                },
                None => {},
            }
        }
        r
    }

    /// Stores one entry per selector of `r` with declarations of the given
    /// importance, each routed by its pseudo-element.
    fn add_rule_entries(&mut self, r: &StyleRule, origin: Origin, order: usize, important: bool)
        requires
            old(self).wf(),
        ensures
            final(self).wf(),
            forall|p: Option<PseudoElement>, o: Origin, imp: bool|
                (#[trigger] final(self).index(p, o, imp)) == old(self).index(p, o, imp) + if o == origin && imp
                    == important {
                    rule_entries(r@, order, p, important)
                } else {
                    Seq::<RuleView>::empty()
                },
            final(self).rules_source_order == old(self).rules_source_order,
            final(self).state_deps@ == old(self).state_deps@,
    {
        let ghost s0 = *self;
        let decls = if important {
            &r.important
        } else {
            &r.normal
        };
        assert(decls@ == r@.declarations(important));
        if decls.len() == 0 {
            assert forall|p: Option<PseudoElement>, o: Origin, imp: bool|
                (#[trigger] self.index(p, o, imp)) == s0.index(p, o, imp) + if o == origin && imp == important {
                    rule_entries(r@, order, p, important)
                } else {
                    Seq::<RuleView>::empty()
                } by {
                assert(s0.index(p, o, imp) + Seq::<RuleView>::empty() =~= s0.index(p, o, imp));
            }
            return;
        }
        let ghost sels = r@.selectors;
        let mut j: usize = 0;
        assert forall|p: Option<PseudoElement>, o: Origin, imp: bool|
            (#[trigger] self.index(p, o, imp)) == s0.index(p, o, imp) + if o == origin && imp == important {
                selector_entries(sels.take(0), decls@, order, p)
            } else {
                Seq::<RuleView>::empty()
            } by {
            assert(s0.index(p, o, imp) + Seq::<RuleView>::empty() =~= s0.index(p, o, imp));
            assert(sels.take(0).len() == 0);
        }
        while j < r.selectors.len()
            invariant
                self.wf(),
                j <= r.selectors.len(),
                sels == r@.selectors,
                decls@ == r@.declarations(important),
                self.rules_source_order == s0.rules_source_order,
                self.state_deps@ == s0.state_deps@,
                forall|p: Option<PseudoElement>, o: Origin, imp: bool|
                    (#[trigger] self.index(p, o, imp)) == s0.index(p, o, imp) + if o == origin && imp
                        == important {
                        selector_entries(sels.take(j as int), decls@, order, p)
                    } else {
                        Seq::<RuleView>::empty()
                    },
            decreases r.selectors.len() - j,
        {
            let sel = &r.selectors[j];
            assert(sels[j as int] == sel@);
            let rule = Rule {
                selector: sel.deep_copy(),
                block: DeclarationBlock {
                    declarations: copy_declarations(decls),
                    specificity: sel.specificity,
                    source_order: order,
                },
            };
            let ghost rv = rule@;
            let ghost prev = *self;
            self.insert_into(sel.pseudo_element, origin, important, rule);
            let ghost nt = sels.take(j as int + 1);
            assert(nt.drop_last() =~= sels.take(j as int));
            assert(nt.last() == sel@);
            assert forall|p: Option<PseudoElement>, o: Origin, imp: bool|
                (#[trigger] self.index(p, o, imp)) == s0.index(p, o, imp) + if o == origin && imp == important {
                    selector_entries(nt, decls@, order, p)
                } else {
                    Seq::<RuleView>::empty()
                } by {
                if o == origin && imp == important {
                    if p == sel@.pseudo_element {
                        assert(s0.index(p, o, imp) + selector_entries(nt, decls@, order, p) =~= (s0.index(p, o, imp) + selector_entries(sels.take(j as int), decls@, order, p)).push(rv));
                    }
                }
            }
            j += 1;
        }
        assert(sels.take(r.selectors.len() as int) =~= sels);
    }

    /// Records the dependencies of every selector of `r`.
    fn note_rule(&mut self, r: &StyleRule)
        ensures
            final(self).state_deps@ == old(self).state_deps@ + selectors_dependencies(r@.selectors),
            final(self).element_map == old(self).element_map,
            final(self).pseudos_map == old(self).pseudos_map,
            final(self).rules_source_order == old(self).rules_source_order,
    {
        let ghost d0 = self.state_deps@;
        let ghost sels = r@.selectors;
        let mut j: usize = 0;
        assert(d0 + selectors_dependencies(sels.take(0)) =~= d0);
        while j < r.selectors.len()
            invariant
                j <= r.selectors.len(),
                sels == r@.selectors,
                self.state_deps@ == d0 + selectors_dependencies(sels.take(j as int)),
                self.element_map == old(self).element_map,
                self.pseudos_map == old(self).pseudos_map,
                self.rules_source_order == old(self).rules_source_order,
            decreases r.selectors.len() - j,
        {
            let ghost nt = sels.take(j as int + 1);
            assert(nt.drop_last() =~= sels.take(j as int));
            assert(nt.last() == r.selectors@[j as int]@);
            self.state_deps.note_selector(&r.selectors[j]);
            j += 1;
            assert(self.state_deps@ =~= d0 + selectors_dependencies(nt));
        }
        assert(sels.take(r.selectors.len() as int) =~= sels);
    }

    /// Adds the rules of `sheet` that are effective on `device`, numbering
    /// them in source order from `rules_source_order` on.
    pub fn add_stylesheet(&mut self, sheet: &Stylesheet, device: &Device)
        requires
            old(self).wf(),
            old(self).rules_source_order + sheet@.rules.len() <= usize::MAX,
        ensures
            final(self).wf(),
            final(self).rules_source_order == old(self).rules_source_order + sheet_rule_count(sheet@, *device),
            forall|p: Option<PseudoElement>, o: Origin, imp: bool|
                (#[trigger] final(self).index(p, o, imp)) == old(self).index(p, o, imp) + sheet_entries(
                    sheet@,
                    *device,
                    old(self).rules_source_order as int,
                    p,
                    o,
                    imp,
                ),
            final(self).state_deps@ == old(self).state_deps@ + sheet_dependencies(sheet@, *device),
    {
        let ghost s0 = *self;
        let ghost start = self.rules_source_order as int;
        if !evaluate_media_list(&sheet.media, device) {
            assert forall|p: Option<PseudoElement>, o: Origin, imp: bool|
                (#[trigger] self.index(p, o, imp)) == s0.index(p, o, imp) + sheet_entries(sheet@, *device, start, p, o, imp) by {
                assert(s0.index(p, o, imp) + Seq::<RuleView>::empty() =~= s0.index(p, o, imp));
            }
            assert(self.state_deps@ =~= s0.state_deps@ + sheet_dependencies(sheet@, *device));
            return;
        }
        let ghost rules = sheet@.rules;
        let origin = sheet.origin;
        let mut order = self.rules_source_order;
        let mut k: usize = 0;
        assert forall|p: Option<PseudoElement>, o: Origin, imp: bool|
            (#[trigger] self.index(p, o, imp)) == s0.index(p, o, imp) + if o == origin {
                rules_entries(effective_rules(rules.take(0), *device), start, p, imp)
            } else {
                Seq::<RuleView>::empty()
            } by {
            assert(s0.index(p, o, imp) + Seq::<RuleView>::empty() =~= s0.index(p, o, imp));
            assert(rules.take(0).len() == 0);
        }
        assert(rules.take(0).len() == 0);
        assert(s0.state_deps@ + rules_dependencies(effective_rules(rules.take(0), *device)) =~= s0.state_deps@);
        while k < sheet.rules.len()
            invariant
                self.wf(),
                k <= sheet.rules.len(),
                rules == sheet@.rules,
                origin == sheet@.origin,
                start == s0.rules_source_order,
                start + sheet@.rules.len() <= usize::MAX,
                media_list_matches(sheet@.media, *device),
                order == start + effective_rules(rules.take(k as int), *device).len(),
                self.rules_source_order == s0.rules_source_order,
                effective_rules(rules.take(k as int), *device).len() <= k,
                self.state_deps@ == s0.state_deps@ + rules_dependencies(effective_rules(rules.take(k as int), *device)),
                forall|p: Option<PseudoElement>, o: Origin, imp: bool|
                    (#[trigger] self.index(p, o, imp)) == s0.index(p, o, imp) + if o == origin {
                        rules_entries(effective_rules(rules.take(k as int), *device), start, p, imp)
                    } else {
                        Seq::<RuleView>::empty()
                    },
            decreases sheet.rules.len() - k,
        {
            let r = &sheet.rules[k];
            let ghost nt = rules.take(k as int + 1);
            let ghost pe = effective_rules(rules.take(k as int), *device);
            assert(nt.drop_last() =~= rules.take(k as int));
            assert(nt.last() == r@);
            if evaluate_media_list(&r.media, device) {
                let ghost mid = *self;
                self.add_rule_entries(r, origin, order, false);
                let ghost mid2 = *self;
                self.add_rule_entries(r, origin, order, true);
                let ghost mid3 = *self;
                self.note_rule(r);
                proof {
                    lemma_same_maps(mid3, *self);
                }
                let ghost ne = pe.push(r@);
                assert(effective_rules(nt, *device) == ne);
                assert(ne.drop_last() =~= pe);
                assert(ne.last() == r@);
                assert forall|p: Option<PseudoElement>, o: Origin, imp: bool|
                    (#[trigger] self.index(p, o, imp)) == s0.index(p, o, imp) + if o == origin {
                        rules_entries(ne, start, p, imp)
                    } else {
                        Seq::<RuleView>::empty()
                    } by {
                    assert(mid2.index(p, o, imp) == mid.index(p, o, imp) + if o == origin && imp == false {
                        rule_entries(r@, order, p, false)
                    } else {
                        Seq::<RuleView>::empty()
                    });
                    if o == origin {
                        assert(rules_entries(ne, start, p, imp) == rules_entries(pe, start, p, imp) + rule_entries(r@, order, p, imp));
                        if imp {
                            assert(s0.index(p, o, imp) + rules_entries(ne, start, p, imp) =~= mid.index(p, o, imp) + Seq::<RuleView>::empty() + rule_entries(r@, order, p, true));
                        } else {
                            assert(s0.index(p, o, imp) + rules_entries(ne, start, p, imp) =~= mid.index(p, o, imp) + rule_entries(r@, order, p, false) + Seq::<RuleView>::empty());
                        }
                    } else {
                        assert(mid.index(p, o, imp) + Seq::<RuleView>::empty() + Seq::<RuleView>::empty() =~= mid.index(p, o, imp));
                    }
                }
                assert(rules_dependencies(ne) == rules_dependencies(pe) + selectors_dependencies(r@.selectors));
                assert(self.state_deps@ =~= s0.state_deps@ + rules_dependencies(ne));
                order = order + 1;
            } else {
                assert(effective_rules(nt, *device) == pe);
            }
            k += 1;
        }
        assert(rules.take(sheet.rules.len() as int) =~= rules);
        let ghost before_set = *self;
        self.rules_source_order = order;
        proof {
            lemma_same_maps(before_set, *self);
        }
        assert forall|p: Option<PseudoElement>, o: Origin, imp: bool|
            (#[trigger] self.index(p, o, imp)) == s0.index(p, o, imp) + sheet_entries(sheet@, *device, start, p, o, imp) by {
            if o != origin {
                assert(s0.index(p, o, imp) + Seq::<RuleView>::empty() =~= s0.index(p, o, imp));
            }
        }
    }

    /// Removes the map of a pseudo-element that is not eagerly cascaded.
    pub fn take_pseudo_map(&mut self, p: PseudoElement) -> (r: Option<PerPseudoElementSelectorMap>)
        requires
            old(self).wf(),
            cascade_type_spec(p) != PseudoElementCascadeType::Eager,
        ensures
            final(self).wf(),
            !final(self).present(p),
            r == old(self).pseudos_map@[pseudo_index_spec(p) as int],
            forall|q: PseudoElement| q != p ==> #[trigger] final(self).present(q) == old(self).present(q),
            forall|q: Option<PseudoElement>, o: Origin, imp: bool|
                q != Some(p) ==> #[trigger] final(self).index(q, o, imp) == old(self).index(q, o, imp),
            final(self).rules_source_order == old(self).rules_source_order,
            final(self).state_deps@ == old(self).state_deps@,
    {
        let ghost s0 = *self;
        let i = p.index();
        let slot = self.pseudos_map.remove(i);
        self.pseudos_map.insert(i, None);
        assert forall|q: PseudoElement| q != p implies self.pseudos_map@[pseudo_index_spec(q) as int]
            == s0.pseudos_map@[pseudo_index_spec(q) as int] by {
            if pseudo_index_spec(q) == pseudo_index_spec(p) {
                crate::selector::lemma_pseudo_index_injective(q, p);
            }
        }
        assert forall|q: Option<PseudoElement>, o: Origin, imp: bool|
            q != Some(p) implies #[trigger] self.index(q, o, imp) == s0.index(q, o, imp) by {
            match q {
                Some(qq) => {
                    assert(self.pseudos_map@[pseudo_index_spec(qq) as int] == s0.pseudos_map@[pseudo_index_spec(qq) as int]);
                },
                None => {},
            }
        }
        assert forall|q: PseudoElement|
            #![trigger self.present(q)]
            self.present(q) == (cascade_type_spec(q) == PseudoElementCascadeType::Eager
                || exists|o: Origin, imp: bool| (#[trigger] self.index(Some(q), o, imp)).len() > 0) by {
            if q == p {
                assert(!self.present(q));
                assert forall|o: Origin, imp: bool| (#[trigger] self.index(Some(q), o, imp)).len() == 0 by {}
            } else {
                assert(self.present(q) == s0.present(q));
                if exists|o: Origin, imp: bool| (#[trigger] self.index(Some(q), o, imp)).len() > 0 {
                    let (o, imp) = choose|o: Origin, imp: bool| (#[trigger] self.index(Some(q), o, imp)).len() > 0;
                    assert(s0.index(Some(q), o, imp).len() > 0);
                }
                if exists|o: Origin, imp: bool| (#[trigger] s0.index(Some(q), o, imp)).len() > 0 {
                    let (o, imp) = choose|o: Origin, imp: bool| (#[trigger] s0.index(Some(q), o, imp)).len() > 0;
                    assert(self.index(Some(q), o, imp).len() > 0);
                }
            }
        }
        slot
    }

    /// Stores `rule` in the index of (`pseudo`, `origin`, `important`),
    /// creating the pseudo-element's map if needed.
    pub fn insert_into(&mut self, pseudo: Option<PseudoElement>, origin: Origin, important: bool, rule: Rule)
        requires
            old(self).wf(),
        ensures
            final(self).wf(),
            forall|p: Option<PseudoElement>, o: Origin, imp: bool|
                (#[trigger] final(self).index(p, o, imp)) == if p == pseudo && o == origin && imp
                    == important {
                    old(self).index(p, o, imp).push(rule@)
                } else {
                    old(self).index(p, o, imp)
                },
            final(self).rules_source_order == old(self).rules_source_order,
            final(self).state_deps@ == old(self).state_deps@,
    {
        let ghost s0 = *self;
        let ghost rv = rule@;
        match pseudo {
            None => {
                self.element_map.insert_rule(origin, important, rule);
                assert forall|q: PseudoElement| #[trigger] self.present(q) == s0.present(q) by {}
                assert forall|q: PseudoElement, o: Origin, imp: bool| #[trigger] self.index(Some(q), o, imp) == s0.index(Some(q), o, imp) by {}
            },
            Some(p) => {
                let i = p.index();
                let slot = self.pseudos_map.remove(i);
                let mut m = match slot {
                    Some(m) => m,
                    None => PerPseudoElementSelectorMap::new(),
                };
                let ghost m0 = m;
                assert forall|o: Origin, imp: bool| #[trigger] m0.index(o, imp) == s0.index(Some(p), o, imp) by {}
                m.insert_rule(origin, important, rule);
                self.pseudos_map.insert(i, Some(m));
                assert forall|q: PseudoElement| q != p implies self.pseudos_map@[pseudo_index_spec(q) as int] == s0.pseudos_map@[pseudo_index_spec(q) as int] by {
                    if pseudo_index_spec(q) == pseudo_index_spec(p) {
                        crate::selector::lemma_pseudo_index_injective(q, p);
                    }
                }
                assert(self.index(Some(p), origin, important).len() > 0);
            },
        }
        assert forall|p: Option<PseudoElement>, o: Origin, imp: bool|
            (#[trigger] self.index(p, o, imp)) == if p == pseudo && o == origin && imp == important {
                s0.index(p, o, imp).push(rv)
            } else {
                s0.index(p, o, imp)
            } by {
            match p {
                Some(q) => {
                    if pseudo != Some(q) && pseudo is Some {
                        assert(self.pseudos_map@[pseudo_index_spec(q) as int] == s0.pseudos_map@[pseudo_index_spec(q) as int]);
                    }
                },
                None => {},
            }
        }
        assert forall|q: PseudoElement|
            #![trigger self.present(q)]
            self.present(q) == (cascade_type_spec(q) == PseudoElementCascadeType::Eager
                || exists|o: Origin, imp: bool| (#[trigger] self.index(Some(q), o, imp)).len() > 0) by {
            if pseudo == Some(q) {
                assert(self.index(Some(q), origin, important).len() > 0);
                assert(self.present(q));
            } else {
                assert(self.present(q) == s0.present(q));
                assert forall|o: Origin, imp: bool| #[trigger] self.index(Some(q), o, imp) == s0.index(Some(q), o, imp) by {}
                if exists|o: Origin, imp: bool| (#[trigger] self.index(Some(q), o, imp)).len() > 0 {
                    let (o, imp) = choose|o: Origin, imp: bool| (#[trigger] self.index(Some(q), o, imp)).len() > 0;
                    assert(s0.index(Some(q), o, imp).len() > 0);
                }
                if exists|o: Origin, imp: bool| (#[trigger] s0.index(Some(q), o, imp)).len() > 0 {
                    let (o, imp) = choose|o: Origin, imp: bool| (#[trigger] s0.index(Some(q), o, imp)).len() > 0;
                    assert(self.index(Some(q), o, imp).len() > 0);
                }
            }
        }
    }
}

} // verus!
