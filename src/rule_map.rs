//! Rule storage: per-origin, per-importance rule indexes, and the ordered
//! retrieval of the rules that match an element.
use vstd::prelude::*;
use crate::selector::{
    Declaration, ElementInfo, ElementView, Selector, SelectorView, copy_declarations,
    selector_matches, is_universal, view_elements,
};
use crate::stylesheet::Origin;
use std::collections::HashMap;

verus! {

/// The declarations of one rule (or of a style attribute), with the rule's
/// specificity and source order.
pub struct DeclarationBlock {
    pub declarations: Vec<Declaration>,
    pub specificity: u32,
    pub source_order: usize,
}

pub struct BlockView {
    pub declarations: Seq<Declaration>,
    pub specificity: u32,
    pub source_order: usize,
}

impl View for DeclarationBlock {
    type V = BlockView;

    open spec fn view(&self) -> BlockView {
        BlockView {
            declarations: self.declarations@,
            specificity: self.specificity,
            source_order: self.source_order,
        }
    }
}

impl DeclarationBlock {
    /// A block that is not tied to a rule: specificity and source order zero.
    pub fn from_declarations(declarations: Vec<Declaration>) -> (r: DeclarationBlock)
        ensures
            r@ == (BlockView { declarations: declarations@, specificity: 0, source_order: 0 }),
    {
        DeclarationBlock { declarations, specificity: 0, source_order: 0 }
    }

    pub fn deep_copy(&self) -> (r: DeclarationBlock)
        ensures
            r@ == self@,
    {
        DeclarationBlock {
            declarations: copy_declarations(&self.declarations),
            specificity: self.specificity,
            source_order: self.source_order,
        }
    }
}

pub open spec fn blocks_view(v: Seq<DeclarationBlock>) -> Seq<BlockView> {
    v.map_values(|b: DeclarationBlock| b@)
}

/// Cascade order between two blocks: by specificity, then by source order.
pub open spec fn block_le(a: BlockView, b: BlockView) -> bool {
    a.specificity < b.specificity || (a.specificity == b.specificity && a.source_order
        <= b.source_order)
}

pub open spec fn block_lt(a: BlockView, b: BlockView) -> bool {
    a.specificity < b.specificity || (a.specificity == b.specificity && a.source_order
        < b.source_order)
}

pub open spec fn cascade_sorted(s: Seq<BlockView>) -> bool {
    forall|i: int, j: int| 0 <= i < j < s.len() ==> block_le(#[trigger] s[i], #[trigger] s[j])
}

/// `b` placed after every element of `s` that does not follow it in cascade
/// order (the insertion step of a stable sort).
pub open spec fn sorted_insert(s: Seq<BlockView>, b: BlockView) -> Seq<BlockView>
    decreases s.len(),
{
    if s.len() == 0 {
        seq![b]
    } else if block_le(s.last(), b) {
        s.push(b)
    } else {
        sorted_insert(s.drop_last(), b).push(s.last())
    }
}

/// The stable sort of `s` by (specificity, source order).
pub open spec fn cascade_sort(s: Seq<BlockView>) -> Seq<BlockView>
    decreases s.len(),
{
    if s.len() == 0 {
        seq![]
    } else {
        sorted_insert(cascade_sort(s.drop_last()), s.last())
    }
}

/// A stored rule: one selector and the block it applies.
pub struct Rule {
    pub selector: Selector,
    pub block: DeclarationBlock,
}

pub struct RuleView {
    pub selector: SelectorView,
    pub block: BlockView,
}

impl View for Rule {
    type V = RuleView;

    open spec fn view(&self) -> RuleView {
        RuleView { selector: self.selector@, block: self.block@ }
    }
}

pub open spec fn rules_view(v: Seq<Rule>) -> Seq<RuleView> {
    v.map_values(|r: Rule| r@)
}

/// Blocks of the rules matching the element, in storage order.
pub open spec fn matching_blocks(rules: Seq<RuleView>, e: ElementView, ancestors: Seq<ElementView>) -> Seq<BlockView>
    decreases rules.len(),
{
    if rules.len() == 0 {
        seq![]
    } else {
        let prev = matching_blocks(rules.drop_last(), e, ancestors);
        if selector_matches(rules.last().selector, e, ancestors) {
            prev.push(rules.last().block)
        } else {
            prev
        }
    }
}

/// Whether every matching rule leaves the element's style open to sharing:
/// a rule that tests an id ties the style to one element.
pub open spec fn matches_allow_sharing(rules: Seq<RuleView>, e: ElementView, ancestors: Seq<ElementView>) -> bool {
    forall|k: int|
        0 <= k < rules.len() && selector_matches(#[trigger] rules[k].selector, e, ancestors)
            ==> rules[k].selector.compound.id is None
}

/// Blocks of the universal rules, in storage order.
pub open spec fn universal_blocks(rules: Seq<RuleView>) -> Seq<BlockView>
    decreases rules.len(),
{
    if rules.len() == 0 {
        seq![]
    } else {
        let prev = universal_blocks(rules.drop_last());
        if is_universal(rules.last().selector) {
            prev.push(rules.last().block)
        } else {
            prev
        }
    }
}

proof fn lemma_sorted_insert_at(s: Seq<BlockView>, b: BlockView, k: int)
    requires
        0 <= k <= s.len(),
        k == 0 || block_le(s[k - 1], b),
        forall|i: int| k <= i < s.len() ==> !block_le(#[trigger] s[i], b),
    ensures
        sorted_insert(s, b) == s.insert(k, b),
    decreases s.len(),
{
    if s.len() == 0 {
        assert(s.insert(k, b) =~= seq![b]);
    } else if k == s.len() {
        assert(s.insert(k, b) =~= s.push(b));
    } else {
        assert(!block_le(s[s.len() - 1], b));
        lemma_sorted_insert_at(s.drop_last(), b, k);
        assert(s.drop_last().insert(k, b).push(s.last()) =~= s.insert(k, b));
    }
}

proof fn lemma_sorted_insert_props(s: Seq<BlockView>, b: BlockView)
    ensures
        sorted_insert(s, b).to_multiset() =~= s.to_multiset().insert(b),
        sorted_insert(s, b).len() == s.len() + 1,
        cascade_sorted(s) ==> cascade_sorted(sorted_insert(s, b)),
        forall|x: BlockView| #[trigger] sorted_insert(s, b).contains(x) <==> (s.contains(x) || x == b),
    decreases s.len(),
{
    broadcast use vstd::seq_lib::group_to_multiset_ensures;
    if s.len() == 0 {
        assert(seq![b] =~= Seq::<BlockView>::empty().push(b));
        assert(seq![b][0] == b);
    } else if block_le(s.last(), b) {
        assert(s.push(b).len() == s.len() + 1);
        assert forall|x: BlockView| s.push(b).contains(x) <==> (s.contains(x) || x == b) by {
            if s.push(b).contains(x) {
                let i = choose|i: int| 0 <= i < s.push(b).len() && s.push(b)[i] == x;
                if i < s.len() { assert(s[i] == x); }
            }
            if s.contains(x) {
                let i = choose|i: int| 0 <= i < s.len() && s[i] == x;
                assert(s.push(b)[i] == x);
            }
            if x == b { assert(s.push(b)[s.len() as int] == x); }
        }
    } else {
        let d = s.drop_last();
        let l = s.last();
        lemma_sorted_insert_props(d, b);
        assert(s =~= d.push(l));
        let t = sorted_insert(d, b);
        assert(t.contains(b));
        if cascade_sorted(s) {
            assert(cascade_sorted(d)) by {
                assert forall|i: int, j: int| 0 <= i < j < d.len() implies block_le(#[trigger] d[i], #[trigger] d[j]) by {
                    assert(d[i] == s[i] && d[j] == s[j]);
                }
            }
            assert forall|i: int, j: int| 0 <= i < j < t.push(l).len() implies block_le(#[trigger] t.push(l)[i], #[trigger] t.push(l)[j]) by {
                if j == t.len() {
                    assert(t.contains(t[i]));
                    if t[i] == b {
                    } else {
                        assert(d.contains(t[i]));
                        let m = choose|m: int| 0 <= m < d.len() && d[m] == t[i];
                        assert(s[m] == d[m]);
                        assert(block_le(s[m], s[s.len() - 1]));
                    }
                } else {
                    assert(t.push(l)[i] == t[i] && t.push(l)[j] == t[j]);
                }
            }
        }
        assert forall|x: BlockView| t.push(l).contains(x) <==> (s.contains(x) || x == b) by {
            if t.push(l).contains(x) {
                let i = choose|i: int| 0 <= i < t.push(l).len() && t.push(l)[i] == x;
                if i < t.len() {
                    assert(t[i] == x);
                    assert(t.contains(x));
                    if x != b {
                        assert(d.contains(x));
                        let m = choose|m: int| 0 <= m < d.len() && d[m] == x;
                        assert(s[m] == x);
                    }
                } else {
                    assert(s[s.len() - 1] == x);
                }
            }
            if s.contains(x) {
                let i = choose|i: int| 0 <= i < s.len() && s[i] == x;
                if i < d.len() {
                    assert(d[i] == x);
                    assert(d.contains(x));
                    assert(t.contains(x));
                    let m = choose|m: int| 0 <= m < t.len() && t[m] == x;
                    assert(t.push(l)[m] == x);
                } else {
                    assert(t.push(l)[t.len() as int] == x);
                }
            }
            if x == b {
                assert(t.contains(x));
                let m = choose|m: int| 0 <= m < t.len() && t[m] == x;
                assert(t.push(l)[m] == x);
            }
        }
    }
}

/// The stable sort yields a cascade-sorted permutation of its input.
pub proof fn lemma_cascade_sort(s: Seq<BlockView>)
    ensures
        cascade_sorted(cascade_sort(s)),
        cascade_sort(s).to_multiset() =~= s.to_multiset(),
        cascade_sort(s).len() == s.len(),
        forall|x: BlockView| #[trigger] cascade_sort(s).contains(x) <==> s.contains(x),
    decreases s.len(),
{
    broadcast use vstd::seq_lib::group_to_multiset_ensures;
    if s.len() == 0 {
    } else {
        lemma_cascade_sort(s.drop_last());
        lemma_sorted_insert_props(cascade_sort(s.drop_last()), s.last());
        assert(s =~= s.drop_last().push(s.last()));
        assert forall|x: BlockView| cascade_sort(s).contains(x) <==> s.contains(x) by {
            if s.contains(x) {
                let i = choose|i: int| 0 <= i < s.len() && s[i] == x;
                if i < s.len() - 1 {
                    assert(s.drop_last()[i] == x);
                }
            }
            if s.drop_last().contains(x) {
                let i = choose|i: int| 0 <= i < s.drop_last().len() && s.drop_last()[i] == x;
                assert(s[i] == x);
            }
        }
    }
}

/// Within one step, the blocks of the matching rules are delivered in
/// cascade order: a block that precedes another by (specificity, source
/// order) stands before it, and every matching rule's block is delivered
/// exactly as often as it matches.
pub proof fn lemma_matching_rules_in_cascade_order(
    rules: Seq<RuleView>,
    e: ElementView,
    ancestors: Seq<ElementView>,
    i: int,
    j: int,
)
    requires
        0 <= i < cascade_sort(matching_blocks(rules, e, ancestors)).len(),
        0 <= j < cascade_sort(matching_blocks(rules, e, ancestors)).len(),
        block_lt(
            cascade_sort(matching_blocks(rules, e, ancestors))[i],
            cascade_sort(matching_blocks(rules, e, ancestors))[j],
        ),
    ensures
        i < j,
        cascade_sort(matching_blocks(rules, e, ancestors)).to_multiset()
            =~= matching_blocks(rules, e, ancestors).to_multiset(),
{
    let s = cascade_sort(matching_blocks(rules, e, ancestors));
    lemma_cascade_sort(matching_blocks(rules, e, ancestors));
    if j < i {
        assert(block_le(s[j], s[i]));
    }
}

/// Inserts `b` into `v` after every block that does not follow it in cascade order.
fn insert_in_cascade_order(v: &mut Vec<DeclarationBlock>, b: DeclarationBlock)
    ensures
        blocks_view(final(v)@) == sorted_insert(blocks_view(old(v)@), b@),
{
    let mut pos: usize = v.len();
    while pos > 0 && !(v[pos - 1].specificity < b.specificity || (v[pos - 1].specificity
        == b.specificity && v[pos - 1].source_order <= b.source_order))
        invariant
            pos <= v.len(),
            forall|i: int| pos <= i < v.len() ==> !block_le(#[trigger] v@[i]@, b@),
        decreases pos,
    {
        pos -= 1;
    }
    let ghost before = blocks_view(v@);
    proof {
        assert forall|i: int| pos <= i < before.len() implies !block_le(#[trigger] before[i], b@) by {
            assert(before[i] == v@[i]@);
        }
        if pos > 0 {
            assert(before[pos - 1] == v@[pos - 1]@);
        }
        lemma_sorted_insert_at(before, b@, pos as int);
    }
    let ghost bv = b@;
    v.insert(pos, b);
    assert(blocks_view(v@) =~= before.insert(pos as int, bv));
}

/// The selector component a rule is filed under: the most discriminating
/// test of its subject compound.
pub enum RuleKey {
    Id(u32),
    Class(u32),
    Tag(u32),
    Universal,
}

pub open spec fn rule_key(s: SelectorView) -> RuleKey {
    match s.compound.id {
        Some(i) => RuleKey::Id(i),
        None => if s.compound.classes.len() > 0 {
            RuleKey::Class(s.compound.classes[0])
        } else {
            match s.compound.tag {
                Some(t) => RuleKey::Tag(t),
                None => RuleKey::Universal,
            }
        },
    }
}

/// A matching selector's key names a component of the element.
proof fn lemma_match_implies_key(s: SelectorView, e: ElementView, ancestors: Seq<ElementView>)
    requires
        selector_matches(s, e, ancestors),
    ensures
        match rule_key(s) {
            RuleKey::Id(i) => e.id == Some(i),
            RuleKey::Class(c) => e.classes.contains(c),
            RuleKey::Tag(t) => e.tag == t,
            RuleKey::Universal => true,
        },
{
    if s.compound.id is None && s.compound.classes.len() > 0 {
        assert(e.classes.contains(s.compound.classes[0]));
    }
}

pub open spec fn bucket_lists(m: Map<u32, Vec<usize>>, k: u32, i: int) -> bool {
    m.contains_key(k) && m[k]@.contains(i as usize)
}

/// An index of rules for one origin and one importance level. Rules are
/// kept in insertion order; each rule's position is also filed in the
/// bucket of its key, so that a lookup only tests candidates.
pub struct SelectorMap {
    rules: Vec<Rule>,
    id_hash: HashMap<u32, Vec<usize>>,
    class_hash: HashMap<u32, Vec<usize>>,
    local_name_hash: HashMap<u32, Vec<usize>>,
    other_rules: Vec<usize>,
}

impl View for SelectorMap {
    type V = Seq<RuleView>;

    /// The stored rules, in insertion order.
    closed spec fn view(&self) -> Seq<RuleView> {
        rules_view(self.rules@)
    }
}

impl SelectorMap {
    #[verifier::type_invariant]
    spec fn every_rule_filed(&self) -> bool {
        forall|i: int|
            0 <= i < self.rules@.len() ==> match #[trigger] rule_key(self.rules@[i].selector@) {
                RuleKey::Id(k) => bucket_lists(self.id_hash@, k, i),
                RuleKey::Class(k) => bucket_lists(self.class_hash@, k, i),
                RuleKey::Tag(k) => bucket_lists(self.local_name_hash@, k, i),
                RuleKey::Universal => self.other_rules@.contains(i as usize),
            }
    }

    pub fn new() -> (r: SelectorMap)
        ensures
            r@ == Seq::<RuleView>::empty(),
    {
        let r = SelectorMap {
            rules: Vec::new(),
            id_hash: HashMap::new(),
            class_hash: HashMap::new(),
            local_name_hash: HashMap::new(),
            other_rules: Vec::new(),
        };
        assert(r@ =~= Seq::<RuleView>::empty());
        r
    }

    /// Files rule position `n` under key `k` of `map`.
    fn file_under(map: &mut HashMap<u32, Vec<usize>>, k: u32, n: usize)
        ensures
            forall|k2: u32, i: int| #[trigger] bucket_lists(old(map)@, k2, i) ==> bucket_lists(final(map)@, k2, i),
            bucket_lists(final(map)@, k, n as int),
    {
        broadcast use vstd::std_specs::hash::group_hash_axioms;
        let ghost m0 = map@;
        let mut bucket = match map.remove(&k) {
            Some(v) => v,
            None => Vec::new(),
        };
        let ghost b0 = bucket@;
        bucket.push(n);
        map.insert(k, bucket);
        assert(map@[k]@ == b0.push(n));
        assert(map@[k]@[b0.len() as int] == n);
        assert forall|k2: u32, i: int| #[trigger] bucket_lists(m0, k2, i) implies bucket_lists(map@, k2, i) by {
            if k2 == k {
                let j = choose|j: int| 0 <= j < m0[k]@.len() && m0[k]@[j] == i as usize;
                assert(map@[k]@[j] == i as usize);
            }
        }
    }

    pub fn insert(&mut self, rule: Rule)
        ensures
            final(self)@ == old(self)@.push(rule@),
    {
        let mut taken = SelectorMap::new();
        std::mem::swap(self, &mut taken);
        proof {
            use_type_invariant(&taken);
        }
        let ghost t0 = taken;
        let SelectorMap { mut rules, mut id_hash, mut class_hash, mut local_name_hash, mut other_rules } = taken;
        let ghost rv = rule@;
        let n = rules.len();
        let key_id = rule.selector.compound.id;
        let key_class = if rule.selector.compound.classes.len() > 0 {
            Some(rule.selector.compound.classes[0])
        } else {
            None
        };
        let key_tag = rule.selector.compound.tag;
        rules.push(rule);
        match key_id {
            Some(k) => SelectorMap::file_under(&mut id_hash, k, n),
            None => match key_class {
                Some(k) => SelectorMap::file_under(&mut class_hash, k, n),
                None => match key_tag {
                    Some(k) => SelectorMap::file_under(&mut local_name_hash, k, n),
                    None => {
                        other_rules.push(n);
                        assert(other_rules@[other_rules@.len() - 1] == n);
                    },
                },
            },
        }
        assert(rules@[n as int].selector@ == rv.selector);
        assert forall|i: int| 0 <= i < rules@.len() implies match #[trigger] rule_key(rules@[i].selector@) {
            RuleKey::Id(k) => bucket_lists(id_hash@, k, i),
            RuleKey::Class(k) => bucket_lists(class_hash@, k, i),
            RuleKey::Tag(k) => bucket_lists(local_name_hash@, k, i),
            RuleKey::Universal => other_rules@.contains(i as usize),
        } by {
            if i < n {
                assert(rules@[i] == t0.rules@[i]);
                match rule_key(rules@[i].selector@) {
                    RuleKey::Universal => {
                        let j = choose|j: int| 0 <= j < t0.other_rules@.len() && t0.other_rules@[j] == i as usize;
                        assert(other_rules@[j] == i as usize);
                    },
                    _ => {},
                }
            } else {
                match rule_key(rules@[i].selector@) {
                    RuleKey::Universal => {
                        assert(other_rules@[other_rules@.len() - 1] == i as usize);
                    },
                    _ => {},
                }
            }
        }
        *self = SelectorMap { rules, id_hash, class_hash, local_name_hash, other_rules };
        assert(self@ =~= old(self)@.push(rv));
    }

    /// Marks, among the positions listed in `bucket`, the rules that match.
    fn mark_matches(
        &self,
        bucket: &Vec<usize>,
        element: &ElementInfo,
        ancestors: &Vec<ElementInfo>,
        matched: &mut Vec<bool>,
    )
        requires
            old(matched)@.len() == self.rules@.len(),
            forall|i: int| 0 <= i < self.rules@.len() && #[trigger] old(matched)@[i] ==> selector_matches(self.rules@[i].selector@, element@, view_elements(ancestors@)),
        ensures
            final(matched)@.len() == self.rules@.len(),
            forall|i: int| 0 <= i < self.rules@.len() && #[trigger] final(matched)@[i] ==> selector_matches(self.rules@[i].selector@, element@, view_elements(ancestors@)),
            forall|i: int| 0 <= i < self.rules@.len() && old(matched)@[i] ==> #[trigger] final(matched)@[i],
            forall|i: int|
                0 <= i < self.rules@.len() && bucket@.contains(i as usize) && selector_matches(self.rules@[i].selector@, element@, view_elements(ancestors@))
                    ==> #[trigger] final(matched)@[i],
    {
        let mut j: usize = 0;
        while j < bucket.len()
            invariant
                j <= bucket.len(),
                matched@.len() == self.rules@.len(),
                forall|i: int| 0 <= i < self.rules@.len() && #[trigger] matched@[i] ==> selector_matches(self.rules@[i].selector@, element@, view_elements(ancestors@)),
                forall|i: int| 0 <= i < self.rules@.len() && old(matched)@[i] ==> #[trigger] matched@[i],
                forall|i: int|
                    0 <= i < self.rules@.len() && bucket@.take(j as int).contains(i as usize) && selector_matches(self.rules@[i].selector@, element@, view_elements(ancestors@))
                        ==> #[trigger] matched@[i],
            decreases bucket.len() - j,
        {
            let idx = bucket[j];
            if idx < self.rules.len() && self.rules[idx].selector.matches(element, ancestors) {
                matched.set(idx, true);
            }
            assert forall|i: int|
                0 <= i < self.rules@.len() && bucket@.take(j as int + 1).contains(i as usize) && selector_matches(self.rules@[i].selector@, element@, view_elements(ancestors@))
                    implies #[trigger] matched@[i] by {
                let w = choose|w: int| 0 <= w < j + 1 && #[trigger] bucket@.take(j as int + 1)[w] == i as usize;
                if w < j {
                    assert(bucket@.take(j as int)[w] == i as usize);
                }
            }
            j += 1;
        }
        assert(bucket@.take(bucket.len() as int) =~= bucket@);
    }

    fn mark_key_bucket(
        &self,
        map: &HashMap<u32, Vec<usize>>,
        k: u32,
        element: &ElementInfo,
        ancestors: &Vec<ElementInfo>,
        matched: &mut Vec<bool>,
    )
        requires
            old(matched)@.len() == self.rules@.len(),
            forall|i: int| 0 <= i < self.rules@.len() && #[trigger] old(matched)@[i] ==> selector_matches(self.rules@[i].selector@, element@, view_elements(ancestors@)),
        ensures
            final(matched)@.len() == self.rules@.len(),
            forall|i: int| 0 <= i < self.rules@.len() && #[trigger] final(matched)@[i] ==> selector_matches(self.rules@[i].selector@, element@, view_elements(ancestors@)),
            forall|i: int| 0 <= i < self.rules@.len() && old(matched)@[i] ==> #[trigger] final(matched)@[i],
            forall|i: int|
                0 <= i < self.rules@.len() && bucket_lists(map@, k, i) && selector_matches(self.rules@[i].selector@, element@, view_elements(ancestors@))
                    ==> #[trigger] final(matched)@[i],
    {
        broadcast use vstd::std_specs::hash::group_hash_axioms;
        match map.get(&k) {
            Some(bucket) => self.mark_matches(bucket, element, ancestors, matched),
            None => {},
        }
    }

    /// Whether each stored rule matches, found by testing only the rules
    /// filed under a key the element has.
    fn matching_positions(&self, element: &ElementInfo, ancestors: &Vec<ElementInfo>) -> (matched: Vec<bool>)
        ensures
            matched@.len() == self.rules@.len(),
            forall|i: int| 0 <= i < self.rules@.len() ==> #[trigger] matched@[i] == selector_matches(self.rules@[i].selector@, element@, view_elements(ancestors@)),
    {
        proof {
            use_type_invariant(self);
        }
        let mut matched: Vec<bool> = Vec::new();
        let mut i: usize = 0;
        while i < self.rules.len()
            invariant
                i <= self.rules.len(),
                matched@.len() == i,
                forall|k: int| 0 <= k < i ==> !#[trigger] matched@[k],
            decreases self.rules.len() - i,
        {
            matched.push(false);
            i += 1;
        }
        let ghost e = element@;
        let ghost anc = view_elements(ancestors@);
        match element.id {
            Some(id) => self.mark_key_bucket(&self.id_hash, id, element, ancestors, &mut matched),
            None => {},
        }
        let ghost after_id = matched@;
        let mut c: usize = 0;
        while c < element.classes.len()
            invariant
                c <= element.classes.len(),
                matched@.len() == self.rules@.len(),
                forall|i: int| 0 <= i < self.rules@.len() && #[trigger] matched@[i] ==> selector_matches(self.rules@[i].selector@, element@, anc),
                forall|i: int| 0 <= i < self.rules@.len() && after_id[i] ==> #[trigger] matched@[i],
                forall|i: int, cc: int|
                    #![trigger matched@[i], element@.classes[cc]]
                    0 <= i < self.rules@.len() && 0 <= cc < c && bucket_lists(self.class_hash@, element@.classes[cc], i)
                        && selector_matches(self.rules@[i].selector@, element@, anc) ==> matched@[i],
                anc == view_elements(ancestors@),
            decreases element.classes.len() - c,
        {
            let ghost before = matched@;
            self.mark_key_bucket(&self.class_hash, element.classes[c], element, ancestors, &mut matched);
            assert forall|i: int, cc: int|
                #![trigger matched@[i], element@.classes[cc]]
                0 <= i < self.rules@.len() && 0 <= cc < c + 1 && bucket_lists(self.class_hash@, element@.classes[cc], i)
                    && selector_matches(self.rules@[i].selector@, element@, anc) implies matched@[i] by {
                if cc < c {
                    assert(before[i]);
                }
            }
            c += 1;
        }
        let ghost after_class = matched@;
        self.mark_key_bucket(&self.local_name_hash, element.tag, element, ancestors, &mut matched);
        let ghost after_tag = matched@;
        self.mark_matches(&self.other_rules, element, ancestors, &mut matched);
        assert forall|i: int| 0 <= i < self.rules@.len() implies #[trigger] matched@[i] == selector_matches(self.rules@[i].selector@, e, anc) by {
            if selector_matches(self.rules@[i].selector@, e, anc) {
                lemma_match_implies_key(self.rules@[i].selector@, e, anc);
                match rule_key(self.rules@[i].selector@) {
                    RuleKey::Id(k) => {
                        assert(after_id[i]);
                    },
                    RuleKey::Class(k) => {
                        let cc = choose|cc: int| 0 <= cc < e.classes.len() && #[trigger] e.classes[cc] == k;
                        assert(after_class[i]);
                    },
                    RuleKey::Tag(k) => {
                        assert(after_tag[i]);
                    },
                    RuleKey::Universal => {},
                }
            }
        }
        matched
    }

    /// Appends the blocks of the rules that match `element` (with `ancestors`
    /// nearest first), in cascade order; clears `shareable` when a matching
    /// rule ties the style to this element.
    pub fn get_all_matching_rules(
        &self,
        element: &ElementInfo,
        ancestors: &Vec<ElementInfo>,
        out: &mut Vec<DeclarationBlock>,
        shareable: &mut bool,
    )
        ensures
            blocks_view(final(out)@) == blocks_view(old(out)@) + cascade_sort(
                matching_blocks(self@, element@, view_elements(ancestors@)),
            ),
            *final(shareable) == (*old(shareable) && matches_allow_sharing(
                self@,
                element@,
                view_elements(ancestors@),
            )),
    {
        let ghost anc = view_elements(ancestors@);
        let matched = self.matching_positions(element, ancestors);
        let mut found: Vec<DeclarationBlock> = Vec::new();
        let mut share = true;
        let mut i: usize = 0;
        while i < self.rules.len()
            invariant
                i <= self.rules.len(),
                anc == view_elements(ancestors@),
                matched@.len() == self.rules@.len(),
                forall|k: int| 0 <= k < self.rules@.len() ==> #[trigger] matched@[k] == selector_matches(self.rules@[k].selector@, element@, anc),
                blocks_view(found@) == cascade_sort(
                    matching_blocks(self@.take(i as int), element@, anc),
                ),
                share == matches_allow_sharing(self@.take(i as int), element@, anc),
            decreases self.rules.len() - i,
        {
            let rule = &self.rules[i];
            let ghost prefix = self@.take(i as int);
            let ghost next = self@.take(i as int + 1);
            assert(next.drop_last() =~= prefix);
            assert(next.last() == rule@);
            let ghost pm = matching_blocks(prefix, element@, anc);
            if matched[i] {
                assert(matching_blocks(next, element@, anc) == pm.push(rule@.block));
                assert(pm.push(rule@.block).drop_last() =~= pm);
                insert_in_cascade_order(&mut found, rule.block.deep_copy());
                if rule.selector.compound.id.is_some() {
                    share = false;
                    assert(!matches_allow_sharing(next, element@, anc)) by {
                        assert(next[i as int] == rule@);
                        assert(selector_matches(next[i as int].selector, element@, anc));
                    }
                } else {
                    assert(matches_allow_sharing(next, element@, anc) == share) by {
                        assert forall|k: int| 0 <= k < i implies next[k] == prefix[k] by {}
                    }
                }
            } else {
                assert(matching_blocks(next, element@, anc) == pm);
                assert(matches_allow_sharing(next, element@, anc) == share) by {
                    assert forall|k: int| 0 <= k < i implies next[k] == prefix[k] by {}
                }
            }
            i += 1;
        }
        assert(self@.take(self.rules.len() as int) =~= self@);
        let ghost old_out = blocks_view(out@);
        let ghost fv = blocks_view(found@);
        out.append(&mut found);
        assert(blocks_view(out@) =~= old_out + fv);
        *shareable = *shareable && share;
    }

    /// Appends the blocks of the universal rules, in storage order.
    pub fn get_universal_rules(&self, out: &mut Vec<DeclarationBlock>)
        ensures
            blocks_view(final(out)@) == blocks_view(old(out)@) + universal_blocks(self@),
    {
        let ghost start = blocks_view(out@);
        let mut i: usize = 0;
        while i < self.rules.len()
            invariant
                i <= self.rules.len(),
                blocks_view(out@) == start + universal_blocks(self@.take(i as int)),
            decreases self.rules.len() - i,
        {
            let rule = &self.rules[i];
            let ghost next = self@.take(i as int + 1);
            assert(next.drop_last() =~= self@.take(i as int));
            assert(next.last() == rule@);
            if rule.selector.is_universal() {
                let ghost before = blocks_view(out@);
                let b = rule.block.deep_copy();
                let ghost bv = b@;
                out.push(b);
                assert(blocks_view(out@) =~= before.push(bv));
                assert(start + universal_blocks(next) =~= (start + universal_blocks(self@.take(i as int))).push(bv));
            }
            i += 1;
        }
        assert(self@.take(self.rules.len() as int) =~= self@);
    }
}

/// The rules of one origin, split by importance.
pub struct PerOriginSelectorMap {
    pub normal: SelectorMap,
    pub important: SelectorMap,
}

impl PerOriginSelectorMap {
    pub fn new() -> (r: PerOriginSelectorMap)
        ensures
            r.normal@.len() == 0,
            r.important@.len() == 0,
    {
        PerOriginSelectorMap { normal: SelectorMap::new(), important: SelectorMap::new() }
    }

    pub open spec fn level(&self, important: bool) -> Seq<RuleView> {
        if important {
            self.important@
        } else {
            self.normal@
        }
    }
}

/// The rules for one pseudo-element (or for none), split by origin.
pub struct PerPseudoElementSelectorMap {
    pub user_agent: PerOriginSelectorMap,
    pub author: PerOriginSelectorMap,
    pub user: PerOriginSelectorMap,
}

impl PerPseudoElementSelectorMap {
    pub fn new() -> (r: PerPseudoElementSelectorMap)
        ensures
            forall|o: Origin, imp: bool| (#[trigger] r.index(o, imp)).len() == 0,
    {
        PerPseudoElementSelectorMap {
            user_agent: PerOriginSelectorMap::new(),
            author: PerOriginSelectorMap::new(),
            user: PerOriginSelectorMap::new(),
        }
    }

    pub open spec fn for_origin(&self, origin: Origin) -> PerOriginSelectorMap {
        match origin {
            Origin::UserAgent => self.user_agent,
            Origin::Author => self.author,
            Origin::User => self.user,
        }
    }

    /// The rules stored for an origin and an importance level.
    pub open spec fn index(&self, origin: Origin, important: bool) -> Seq<RuleView> {
        self.for_origin(origin).level(important)
    }

    /// Stores `rule` in the index of `origin` and `important`.
    pub fn insert_rule(&mut self, origin: Origin, important: bool, rule: Rule)
        ensures
            forall|o: Origin, imp: bool|
                (#[trigger] final(self).index(o, imp)) == if o == origin && imp == important {
                    old(self).index(o, imp).push(rule@)
                } else {
                    old(self).index(o, imp)
                },
    {
        let o = match origin {
            Origin::UserAgent => &mut self.user_agent,
            Origin::Author => &mut self.author,
            Origin::User => &mut self.user,
        };
        if important {
            o.important.insert(rule);
        } else {
            o.normal.insert(rule);
        }
    }
}

} // verus!
