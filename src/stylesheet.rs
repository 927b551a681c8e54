//! Stylesheets as already-parsed values, and their evaluation against a device.
use vstd::prelude::*;
use crate::selector::{Declaration, Selector, SelectorView};

verus! {

/// Where a stylesheet comes from; decides its place in the cascade.
#[derive(Clone, Copy, Debug, PartialEq, Eq, Structural)]
pub enum Origin {
    UserAgent,
    User,
    Author,
}

#[derive(Clone, Copy, Debug, PartialEq, Eq, Structural)]
pub enum MediaType {
    Screen,
    Print,
}

/// The output device: its media type and viewport size in CSS pixels.
#[derive(Clone, Copy, Debug, PartialEq, Eq, Structural)]
pub struct Device {
    pub media_type: MediaType,
    pub width: u32,
    pub height: u32,
}

/// One media query: every present condition must hold.
#[derive(Clone, Copy, Debug, PartialEq, Eq, Structural)]
pub struct MediaQuery {
    pub media_type: Option<MediaType>,
    pub min_width: Option<u32>,
    pub max_width: Option<u32>,
}

pub open spec fn query_matches(q: MediaQuery, d: Device) -> bool {
    &&& match q.media_type {
        Some(t) => t == d.media_type,
        None => true,
    }
    &&& match q.min_width {
        Some(w) => d.width >= w,
        None => true,
    }
    &&& match q.max_width {
        Some(w) => d.width <= w,
        None => true,
    }
}

/// An empty list holds on every device; otherwise one of its queries must hold.
pub open spec fn media_list_matches(list: Seq<MediaQuery>, d: Device) -> bool {
    list.len() == 0 || exists|k: int| 0 <= k < list.len() && query_matches(#[trigger] list[k], d)
}

pub fn evaluate_query(q: &MediaQuery, d: &Device) -> (r: bool)
    ensures
        r == query_matches(*q, *d),
{
    let type_ok = match q.media_type {
        Some(t) => t == d.media_type,
        None => true,
    };
    let min_ok = match q.min_width {
        Some(w) => d.width >= w,
        None => true,
    };
    let max_ok = match q.max_width {
        Some(w) => d.width <= w,
        None => true,
    };
    type_ok && min_ok && max_ok
}

pub fn evaluate_media_list(list: &Vec<MediaQuery>, d: &Device) -> (r: bool)
    ensures
        r == media_list_matches(list@, *d),
{
    if list.len() == 0 {
        return true;
    }
    let mut k: usize = 0;
    while k < list.len()
        invariant
            k <= list.len(),
            forall|j: int| 0 <= j < k ==> !query_matches(#[trigger] list@[j], *d),
        decreases list.len() - k,
    {
        if evaluate_query(&list[k], d) {
            assert(query_matches(list@[k as int], *d));
            return true;
        }
        k += 1;
    }
    false
}

/// A style rule: selectors sharing a declaration block split by importance.
/// `media` holds the queries of the enclosing `@media` block (empty: none).
pub struct StyleRule {
    pub selectors: Vec<Selector>,
    pub normal: Vec<Declaration>,
    pub important: Vec<Declaration>,
    pub media: Vec<MediaQuery>,
}

pub struct StyleRuleView {
    pub selectors: Seq<SelectorView>,
    pub normal: Seq<Declaration>,
    pub important: Seq<Declaration>,
    pub media: Seq<MediaQuery>,
}

impl View for StyleRule {
    type V = StyleRuleView;

    open spec fn view(&self) -> StyleRuleView {
        StyleRuleView {
            selectors: self.selectors@.map_values(|s: Selector| s@),
            normal: self.normal@,
            important: self.important@,
            media: self.media@,
        }
    }
}

impl StyleRuleView {
    pub open spec fn declarations(self, important: bool) -> Seq<Declaration> {
        if important {
            self.important
        } else {
            self.normal
        }
    }
}

/// The descriptors of an `@viewport` rule that this engine reads.
#[derive(Clone, Copy, Debug, PartialEq, Eq, Structural)]
pub struct ViewportRule {
    pub width: Option<u32>,
    pub height: Option<u32>,
}

/// The viewport size that `@viewport` rules impose on the device.
#[derive(Clone, Copy, Debug, PartialEq, Eq, Structural)]
pub struct ViewportConstraints {
    pub width: u32,
    pub height: u32,
}

pub struct Stylesheet {
    pub origin: Origin,
    /// The stylesheet's own media list (empty: all media).
    pub media: Vec<MediaQuery>,
    pub rules: Vec<StyleRule>,
    pub viewport_rules: Vec<ViewportRule>,
}

pub struct StylesheetView {
    pub origin: Origin,
    pub media: Seq<MediaQuery>,
    pub rules: Seq<StyleRuleView>,
    pub viewport_rules: Seq<ViewportRule>,
}

impl View for Stylesheet {
    type V = StylesheetView;

    open spec fn view(&self) -> StylesheetView {
        StylesheetView {
            origin: self.origin,
            media: self.media@,
            rules: self.rules@.map_values(|r: StyleRule| r@),
            viewport_rules: self.viewport_rules@,
        }
    }
}

pub open spec fn sheets_view(v: Seq<Stylesheet>) -> Seq<StylesheetView> {
    v.map_values(|s: Stylesheet| s@)
}

impl Stylesheet {
    pub fn is_effective_for_device(&self, d: &Device) -> (r: bool)
        ensures
            r == media_list_matches(self@.media, *d),
    {
        evaluate_media_list(&self.media, d)
    }
}

/// Per descriptor, the last rule that sets it wins.
pub open spec fn cascade_viewport(rules: Seq<ViewportRule>) -> ViewportRule
    decreases rules.len(),
{
    if rules.len() == 0 {
        ViewportRule { width: None, height: None }
    } else {
        let prev = cascade_viewport(rules.drop_last());
        let last = rules.last();
        ViewportRule {
            width: if last.width is Some {
                last.width
            } else {
                prev.width
            },
            height: if last.height is Some {
                last.height
            } else {
                prev.height
            },
        }
    }
}

/// The viewport rules of the sheets that are effective on `d`, in order.
pub open spec fn effective_viewport_rules(sheets: Seq<StylesheetView>, d: Device) -> Seq<ViewportRule>
    decreases sheets.len(),
{
    if sheets.len() == 0 {
        seq![]
    } else {
        let prev = effective_viewport_rules(sheets.drop_last(), d);
        if media_list_matches(sheets.last().media, d) {
            prev + sheets.last().viewport_rules
        } else {
            prev
        }
    }
}

/// Constraints exist when some descriptor is set; an unset one keeps the
/// device's own size.
pub open spec fn constraints_for(d: Device, v: ViewportRule) -> Option<ViewportConstraints> {
    if v.width is None && v.height is None {
        None
    } else {
        Some(
            ViewportConstraints {
                width: match v.width {
                    Some(w) => w,
                    None => d.width,
                },
                height: match v.height {
                    Some(h) => h,
                    None => d.height,
                },
            },
        )
    }
}

/// Whether some media list of `s` evaluates differently on the two devices.
pub open spec fn sheet_media_changes(s: StylesheetView, a: Device, b: Device) -> bool {
    media_list_matches(s.media, a) != media_list_matches(s.media, b) || exists|k: int|
        0 <= k < s.rules.len() && media_list_matches(#[trigger] s.rules[k].media, a)
            != media_list_matches(s.rules[k].media, b)
}

pub open spec fn media_changes(sheets: Seq<StylesheetView>, a: Device, b: Device) -> bool {
    exists|i: int| 0 <= i < sheets.len() && sheet_media_changes(#[trigger] sheets[i], a, b)
}

impl Stylesheet {
    /// Whether switching from device `a` to device `b` can change which of
    /// this stylesheet's rules are effective.
    pub fn media_changes_between(&self, a: &Device, b: &Device) -> (r: bool)
        ensures
            r == sheet_media_changes(self@, *a, *b),
    {
        if evaluate_media_list(&self.media, a) != evaluate_media_list(&self.media, b) {
            return true;
        }
        let mut k: usize = 0;
        while k < self.rules.len()
            invariant
                k <= self.rules.len(),
                media_list_matches(self@.media, *a) == media_list_matches(self@.media, *b),
                forall|j: int|
                    0 <= j < k ==> media_list_matches(#[trigger] self@.rules[j].media, *a)
                        == media_list_matches(self@.rules[j].media, *b),
            decreases self.rules.len() - k,
        {
            assert(self@.rules[k as int] == self.rules@[k as int]@);
            if evaluate_media_list(&self.rules[k].media, a) != evaluate_media_list(
                &self.rules[k].media,
                b,
            ) {
                assert(media_list_matches(self@.rules[k as int].media, *a) != media_list_matches(
                    self@.rules[k as int].media,
                    *b,
                ));
                return true;
            }
            k += 1;
        }
        false
    }
}

} // verus!
