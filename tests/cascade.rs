use style_cascade::cascade::cascade;
use style_cascade::restyle::RestyleHint;
use style_cascade::rule_map::DeclarationBlock;
use style_cascade::selector::{Compound, Declaration, ElementInfo, PseudoElement, Selector};
use style_cascade::stylesheet::{
    Device, MediaQuery, MediaType, Origin, StyleRule, Stylesheet, ViewportConstraints,
    ViewportRule,
};
use style_cascade::stylist::{ElementSnapshot, PropertyDeclarationBlock, Stylist};

const DIV: u32 = 1;
const SPAN: u32 = 2;
const COLOR: u32 = 1;
const MARGIN: u32 = 2;
const BLACK: u32 = 10;
const RED: u32 = 11;
const BLUE: u32 = 12;
const GREEN: u32 = 13;
const HOVER: u64 = 1;

fn decl(property: u32, value: u32) -> Declaration {
    Declaration { property, value }
}

fn compound(tag: Option<u32>, id: Option<u32>, classes: Vec<u32>, state: u64) -> Compound {
    Compound { tag, id, classes, state }
}

fn selector(c: Compound, specificity: u32) -> Selector {
    Selector { compound: c, ancestor: None, pseudo_element: None, specificity }
}

fn rule(selectors: Vec<Selector>, normal: Vec<Declaration>, important: Vec<Declaration>) -> StyleRule {
    StyleRule { selectors, normal, important, media: vec![] }
}

fn sheet(origin: Origin, rules: Vec<StyleRule>) -> Stylesheet {
    Stylesheet { origin, media: vec![], rules, viewport_rules: vec![] }
}

fn screen(width: u32) -> Device {
    Device { media_type: MediaType::Screen, width, height: 600 }
}

fn element(tag: u32, id: Option<u32>, classes: Vec<u32>, state: u64) -> ElementInfo {
    ElementInfo { tag, id, classes, state, hints: vec![] }
}

fn div_rule(value: u32, specificity: u32) -> StyleRule {
    rule(vec![selector(compound(Some(DIV), None, vec![], 0), specificity)], vec![decl(COLOR, value)], vec![])
}

fn built(ua: Vec<Stylesheet>, docs: &Vec<Stylesheet>) -> Stylist {
    let mut stylist = Stylist::new(screen(800), ua, None);
    assert!(stylist.update(docs, true));
    stylist
}

fn lookup(stylist: &Stylist, e: &ElementInfo, sa: Option<&PropertyDeclarationBlock>) -> (Vec<DeclarationBlock>, bool) {
    let mut out = vec![];
    let shareable = stylist.push_applicable_declarations(e, &vec![], sa, None, &mut out);
    (out, shareable)
}

fn values(out: &Vec<DeclarationBlock>) -> Vec<Vec<Declaration>> {
    out.iter().map(|b| b.declarations.clone()).collect()
}

#[test]
fn single_user_agent_rule_yields_one_shareable_block() {
    let ua = vec![sheet(Origin::UserAgent, vec![div_rule(BLACK, 1)])];
    let docs = vec![sheet(Origin::Author, vec![])];
    let stylist = built(ua, &docs);
    let (out, shareable) = lookup(&stylist, &element(DIV, None, vec![], 0), None);
    assert_eq!(values(&out), vec![vec![decl(COLOR, BLACK)]]);
    assert!(shareable);
}

#[test]
fn author_rules_come_in_ascending_specificity() {
    let class_rule = rule(vec![selector(compound(None, None, vec![7], 0), 10)], vec![decl(COLOR, RED)], vec![]);
    let id_rule = rule(vec![selector(compound(None, Some(9), vec![], 0), 100)], vec![decl(COLOR, BLUE)], vec![]);
    // The id rule comes first in the sheet, the class rule second.
    let docs = vec![sheet(Origin::Author, vec![id_rule, class_rule])];
    let stylist = built(vec![], &docs);
    let (out, shareable) = lookup(&stylist, &element(DIV, Some(9), vec![7], 0), None);
    assert_eq!(values(&out), vec![vec![decl(COLOR, RED)], vec![decl(COLOR, BLUE)]]);
    assert_eq!(out[0].specificity, 10);
    assert_eq!(out[1].specificity, 100);
    assert_eq!(cascade(&out, None).get(COLOR), Some(BLUE));
    assert!(!shareable);
}

#[test]
fn class_then_id_scenario_in_source_order() {
    let class_rule = rule(vec![selector(compound(None, None, vec![7], 0), 10)], vec![decl(COLOR, RED)], vec![]);
    let id_rule = rule(vec![selector(compound(None, Some(9), vec![], 0), 100)], vec![decl(COLOR, BLUE)], vec![]);
    let docs = vec![sheet(Origin::Author, vec![class_rule, id_rule])];
    let stylist = built(vec![], &docs);
    let (out, _) = lookup(&stylist, &element(DIV, Some(9), vec![7], 0), None);
    assert_eq!(values(&out), vec![vec![decl(COLOR, RED)], vec![decl(COLOR, BLUE)]]);
    assert_eq!((out[0].source_order, out[1].source_order), (0, 1));
    assert_eq!(cascade(&out, None).get(COLOR), Some(BLUE));
}

#[test]
fn equal_specificity_follows_source_order() {
    let docs = vec![sheet(Origin::Author, vec![div_rule(RED, 1), div_rule(BLUE, 1), div_rule(GREEN, 0)])];
    let stylist = built(vec![], &docs);
    let (out, _) = lookup(&stylist, &element(DIV, None, vec![], 0), None);
    assert_eq!(
        values(&out),
        vec![vec![decl(COLOR, GREEN)], vec![decl(COLOR, RED)], vec![decl(COLOR, BLUE)]]
    );
    assert_eq!(cascade(&out, None).get(COLOR), Some(BLUE));
}

#[test]
fn style_attribute_sits_between_author_normal_and_important_rules() {
    let author = rule(
        vec![selector(compound(Some(DIV), None, vec![], 0), 1)],
        vec![decl(COLOR, RED)],
        vec![decl(MARGIN, 5)],
    );
    let docs = vec![sheet(Origin::Author, vec![author])];
    let stylist = built(vec![], &docs);
    let sa = PropertyDeclarationBlock { normal: vec![decl(COLOR, GREEN)], important: vec![] };
    let (out, shareable) = lookup(&stylist, &element(DIV, None, vec![], 0), Some(&sa));
    assert_eq!(
        values(&out),
        vec![vec![decl(COLOR, RED)], vec![decl(COLOR, GREEN)], vec![], vec![decl(MARGIN, 5)]]
    );
    assert!(!shareable);
    assert_eq!(cascade(&out, None).get(COLOR), Some(GREEN));
}

#[test]
fn important_rules_reverse_origin_order() {
    let important = |v: u32| {
        rule(vec![selector(compound(Some(DIV), None, vec![], 0), 1)], vec![], vec![decl(COLOR, v)])
    };
    let ua = vec![sheet(Origin::UserAgent, vec![important(BLACK)]), sheet(Origin::User, vec![important(GREEN)])];
    let docs = vec![sheet(Origin::Author, vec![important(RED), div_rule(BLUE, 50)])];
    let stylist = built(ua, &docs);
    let (out, _) = lookup(&stylist, &element(DIV, None, vec![], 0), None);
    assert_eq!(
        values(&out),
        vec![
            vec![decl(COLOR, BLUE)],
            vec![decl(COLOR, RED)],
            vec![decl(COLOR, GREEN)],
            vec![decl(COLOR, BLACK)],
        ]
    );
    assert_eq!(cascade(&out, None).get(COLOR), Some(BLACK));
}

#[test]
fn second_update_without_change_does_nothing() {
    let ua = vec![sheet(Origin::UserAgent, vec![div_rule(BLACK, 1)])];
    let docs = vec![sheet(Origin::Author, vec![div_rule(RED, 1)])];
    let mut stylist = built(ua, &docs);
    let e = element(DIV, None, vec![], 0);
    let (first, s1) = lookup(&stylist, &e, None);
    assert!(!stylist.update(&docs, false));
    assert!(!stylist.is_device_dirty());
    let (second, s2) = lookup(&stylist, &e, None);
    assert_eq!(values(&first), values(&second));
    assert_eq!(s1, s2);
    assert!(stylist.update(&docs, true));
}

#[test]
fn presentational_hints_follow_user_agent_rules_and_stop_sharing() {
    let ua = vec![sheet(Origin::UserAgent, vec![div_rule(BLACK, 1)])];
    let docs = vec![sheet(Origin::Author, vec![div_rule(RED, 1)])];
    let stylist = built(ua, &docs);
    let mut e = element(DIV, None, vec![], 0);
    e.hints = vec![decl(COLOR, GREEN)];
    let (out, shareable) = lookup(&stylist, &e, None);
    assert_eq!(
        values(&out),
        vec![vec![decl(COLOR, BLACK)], vec![decl(COLOR, GREEN)], vec![decl(COLOR, RED)]]
    );
    assert!(!shareable);
}

#[test]
fn non_matching_element_gets_nothing() {
    let docs = vec![sheet(Origin::Author, vec![div_rule(RED, 1)])];
    let stylist = built(vec![], &docs);
    let (out, shareable) = lookup(&stylist, &element(SPAN, None, vec![], 0), None);
    assert!(out.is_empty());
    assert!(shareable);
}

#[test]
fn ancestor_compound_must_match_some_ancestor() {
    let mut s = selector(compound(Some(SPAN), None, vec![], 0), 2);
    s.ancestor = Some(compound(Some(DIV), None, vec![3], 0));
    let docs = vec![sheet(Origin::Author, vec![rule(vec![s], vec![decl(COLOR, RED)], vec![])])];
    let stylist = built(vec![], &docs);
    let span = element(SPAN, None, vec![], 0);
    let mut out = vec![];
    stylist.push_applicable_declarations(&span, &vec![element(DIV, None, vec![], 0)], None, None, &mut out);
    assert!(out.is_empty());
    let ancestors = vec![element(SPAN, None, vec![], 0), element(DIV, None, vec![3], 0)];
    stylist.push_applicable_declarations(&span, &ancestors, None, None, &mut out);
    assert_eq!(values(&out), vec![vec![decl(COLOR, RED)]]);
}

#[test]
fn state_selectors_match_only_in_that_state() {
    let hover = rule(vec![selector(compound(Some(DIV), None, vec![], HOVER), 11)], vec![decl(COLOR, RED)], vec![]);
    let docs = vec![sheet(Origin::Author, vec![hover])];
    let stylist = built(vec![], &docs);
    assert!(lookup(&stylist, &element(DIV, None, vec![], 0), None).0.is_empty());
    assert_eq!(lookup(&stylist, &element(DIV, None, vec![], HOVER | 4), None).0.len(), 1);
}

#[test]
fn toggling_a_tested_state_restyles_the_element() {
    let hover = rule(vec![selector(compound(Some(DIV), None, vec![], HOVER), 11)], vec![decl(COLOR, RED)], vec![]);
    let docs = vec![sheet(Origin::Author, vec![hover])];
    let stylist = built(vec![], &docs);
    let hint = stylist.compute_restyle_hint(&ElementSnapshot { state: 0 }, HOVER);
    assert_eq!(
        hint,
        RestyleHint { restyle_self: true, restyle_descendants: false, restyle_later_siblings: false }
    );
    let off = stylist.compute_restyle_hint(&ElementSnapshot { state: HOVER }, 0);
    assert!(off.restyle_self);
    let other = stylist.compute_restyle_hint(&ElementSnapshot { state: 0 }, 2);
    assert!(!other.restyle_self && !other.restyle_descendants);
}

#[test]
fn ancestor_state_change_restyles_descendants() {
    let mut s = selector(compound(Some(SPAN), None, vec![], 0), 2);
    s.ancestor = Some(compound(Some(DIV), None, vec![], HOVER));
    let docs = vec![sheet(Origin::Author, vec![rule(vec![s], vec![decl(COLOR, RED)], vec![])])];
    let stylist = built(vec![], &docs);
    let hint = stylist.compute_restyle_hint(&ElementSnapshot { state: HOVER }, 0);
    assert_eq!(
        hint,
        RestyleHint { restyle_self: false, restyle_descendants: true, restyle_later_siblings: false }
    );
}

#[test]
fn media_queries_select_sheets_and_rules() {
    let narrow = MediaQuery { media_type: None, min_width: None, max_width: Some(500) };
    let mut narrow_sheet = sheet(Origin::Author, vec![div_rule(RED, 1)]);
    narrow_sheet.media = vec![narrow];
    let mut print_rule = div_rule(GREEN, 1);
    print_rule.media = vec![MediaQuery { media_type: Some(MediaType::Print), min_width: None, max_width: None }];
    let docs = vec![narrow_sheet, sheet(Origin::Author, vec![print_rule, div_rule(BLUE, 1)])];
    let mut stylist = built(vec![], &docs);
    let e = element(DIV, None, vec![], 0);
    let (out, _) = lookup(&stylist, &e, None);
    assert_eq!(values(&out), vec![vec![decl(COLOR, BLUE)]]);
    assert_eq!(out[0].source_order, 0);

    stylist.set_device(screen(400), &docs);
    assert!(stylist.is_device_dirty());
    assert!(stylist.update(&docs, false));
    let (out, _) = lookup(&stylist, &e, None);
    assert_eq!(values(&out), vec![vec![decl(COLOR, RED)], vec![decl(COLOR, BLUE)]]);
    assert_eq!((out[0].source_order, out[1].source_order), (0, 1));
}

#[test]
fn device_change_without_media_difference_stays_clean() {
    let docs = vec![sheet(Origin::Author, vec![div_rule(RED, 1)])];
    let mut stylist = built(vec![], &docs);
    stylist.set_device(screen(1000), &docs);
    assert!(!stylist.is_device_dirty());
    assert_eq!(stylist.device, screen(1000));
    assert_eq!(*stylist.viewport_constraints(), None);
}

#[test]
fn viewport_rules_constrain_the_device() {
    let mut s = sheet(Origin::Author, vec![]);
    s.viewport_rules = vec![
        ViewportRule { width: Some(320), height: None },
        ViewportRule { width: None, height: Some(480) },
    ];
    let docs = vec![s];
    let mut stylist = built(vec![], &docs);
    stylist.set_device(screen(1000), &docs);
    assert_eq!(*stylist.viewport_constraints(), Some(ViewportConstraints { width: 320, height: 480 }));
    assert_eq!(stylist.device, Device { media_type: MediaType::Screen, width: 320, height: 480 });
}

#[test]
fn precomputed_pseudo_element_uses_universal_user_agent_rules() {
    let mut universal = selector(compound(None, None, vec![], 0), 0);
    universal.pseudo_element = Some(PseudoElement::ServoText);
    let mut tagged = selector(compound(Some(DIV), None, vec![], 0), 1);
    tagged.pseudo_element = Some(PseudoElement::ServoText);
    let ua = vec![sheet(
        Origin::UserAgent,
        vec![rule(vec![universal], vec![decl(COLOR, BLACK)], vec![decl(MARGIN, 0)]), rule(vec![tagged], vec![decl(COLOR, RED)], vec![])],
    )];
    let stylist = built(ua, &vec![]);
    let parent = cascade(&vec![DeclarationBlock::from_declarations(vec![decl(COLOR, GREEN), decl(MARGIN, 3)])], None);
    let v = stylist.precomputed_values_for_pseudo(PseudoElement::ServoText, Some(&parent)).unwrap();
    assert_eq!(v.get(COLOR), Some(BLACK));
    assert_eq!(v.get(MARGIN), Some(0));
    let none = stylist.precomputed_values_for_pseudo(PseudoElement::ServoInputText, Some(&parent)).unwrap();
    assert_eq!(none.declarations, parent.declarations);
    assert!(stylist.precomputed_values_for_pseudo(PseudoElement::ServoInputText, None).is_none());
}

#[test]
fn lazy_pseudo_element_without_rules_has_no_style() {
    let mut summary = selector(compound(Some(DIV), None, vec![], 0), 1);
    summary.pseudo_element = Some(PseudoElement::DetailsSummary);
    let docs = vec![sheet(Origin::Author, vec![rule(vec![summary], vec![decl(COLOR, BLUE)], vec![])])];
    let stylist = built(vec![], &docs);
    let parent = cascade(&vec![DeclarationBlock::from_declarations(vec![decl(COLOR, GREEN)])], None);
    let e = element(DIV, None, vec![], 0);
    let v = stylist.lazily_compute_pseudo_element_style(&e, &vec![], PseudoElement::DetailsSummary, &parent).unwrap();
    assert_eq!(v.get(COLOR), Some(BLUE));
    assert!(stylist.lazily_compute_pseudo_element_style(&e, &vec![], PseudoElement::DetailsContent, &parent).is_none());
    // Rules for a pseudo-element never apply to the element itself.
    assert!(lookup(&stylist, &e, None).0.is_empty());
}

#[test]
fn eager_pseudo_element_lookup() {
    let mut before = selector(compound(Some(DIV), None, vec![], 0), 1);
    before.pseudo_element = Some(PseudoElement::Before);
    let docs = vec![sheet(Origin::Author, vec![rule(vec![before], vec![decl(COLOR, RED)], vec![])])];
    let stylist = built(vec![], &docs);
    let mut e = element(DIV, None, vec![], 0);
    e.hints = vec![decl(COLOR, GREEN)];
    let mut out = vec![];
    let shareable = stylist.push_applicable_declarations(&e, &vec![], None, Some(PseudoElement::Before), &mut out);
    assert_eq!(values(&out), vec![vec![decl(COLOR, RED)]]);
    assert!(shareable);
    let mut after = vec![];
    stylist.push_applicable_declarations(&e, &vec![], None, Some(PseudoElement::After), &mut after);
    assert!(after.is_empty());
}

#[test]
fn quirks_sheet_applies_only_in_quirks_mode() {
    let quirks = sheet(Origin::UserAgent, vec![div_rule(GREEN, 1)]);
    let mut stylist = Stylist::new(screen(800), vec![], Some(quirks));
    let docs = vec![sheet(Origin::Author, vec![div_rule(RED, 1)])];
    assert!(stylist.update(&docs, true));
    let e = element(DIV, None, vec![], 0);
    assert_eq!(values(&lookup(&stylist, &e, None).0), vec![vec![decl(COLOR, RED)]]);
    stylist.set_quirks_mode(true);
    assert!(stylist.update(&docs, true));
    let (out, _) = lookup(&stylist, &e, None);
    assert_eq!(values(&out), vec![vec![decl(COLOR, GREEN)], vec![decl(COLOR, RED)]]);
    assert_eq!(out[1].source_order, 1);
}

#[test]
fn multi_selector_rule_shares_source_order() {
    let r = rule(
        vec![
            selector(compound(Some(DIV), None, vec![], 0), 1),
            selector(compound(None, None, vec![5], 0), 10),
        ],
        vec![decl(COLOR, RED)],
        vec![],
    );
    let docs = vec![sheet(Origin::Author, vec![r, div_rule(BLUE, 1)])];
    let stylist = built(vec![], &docs);
    let (out, _) = lookup(&stylist, &element(DIV, None, vec![5], 0), None);
    let keys: Vec<(u32, usize)> = out.iter().map(|b| (b.specificity, b.source_order)).collect();
    assert_eq!(keys, vec![(1, 0), (1, 1), (10, 0)]);
}

#[test]
fn cascade_keeps_inherited_values_not_overridden() {
    let parent = cascade(&vec![DeclarationBlock::from_declarations(vec![decl(COLOR, GREEN), decl(MARGIN, 3)])], None);
    let blocks = vec![
        DeclarationBlock::from_declarations(vec![decl(COLOR, RED)]),
        DeclarationBlock::from_declarations(vec![decl(COLOR, BLUE)]),
    ];
    let v = cascade(&blocks, Some(&parent));
    assert_eq!(v.get(COLOR), Some(BLUE));
    assert_eq!(v.get(MARGIN), Some(3));
    assert_eq!(v.get(99), None);
}

#[test]
fn keyed_lookup_finds_rules_under_every_kind_of_key() {
    let by_id = rule(vec![selector(compound(Some(DIV), Some(4), vec![8], 0), 111)], vec![decl(COLOR, RED)], vec![]);
    let by_classes = rule(vec![selector(compound(None, None, vec![8, 6], 0), 20)], vec![decl(COLOR, BLUE)], vec![]);
    let by_tag = div_rule(GREEN, 1);
    let universal = rule(vec![selector(compound(None, None, vec![], 0), 0)], vec![decl(MARGIN, 1)], vec![]);
    let docs = vec![sheet(Origin::Author, vec![by_id, by_classes, by_tag, universal])];
    let stylist = built(vec![], &docs);
    // Classes listed in another order, one of them twice.
    let e = element(DIV, Some(4), vec![6, 8, 6], 0);
    let (out, _) = lookup(&stylist, &e, None);
    assert_eq!(
        values(&out),
        vec![vec![decl(MARGIN, 1)], vec![decl(COLOR, GREEN)], vec![decl(COLOR, BLUE)], vec![decl(COLOR, RED)]]
    );
    let other = element(SPAN, Some(5), vec![8], 0);
    assert_eq!(values(&lookup(&stylist, &other, None).0), vec![vec![decl(MARGIN, 1)]]);
}
