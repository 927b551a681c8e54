//! Merging an ordered list of declaration blocks onto inherited values.
use vstd::prelude::*;
use crate::rule_map::{BlockView, DeclarationBlock, blocks_view};
use crate::selector::Declaration;

verus! {

/// All declarations of `blocks`, block after block.
pub open spec fn flatten_blocks(blocks: Seq<BlockView>) -> Seq<Declaration>
    decreases blocks.len(),
{
    if blocks.len() == 0 {
        seq![]
    } else {
        flatten_blocks(blocks.drop_last()) + blocks.last().declarations
    }
}

/// The value of `property` in `ds`: the last declaration of it wins.
pub open spec fn value_of(ds: Seq<Declaration>, property: u32) -> Option<u32>
    decreases ds.len(),
{
    if ds.len() == 0 {
        None
    } else if ds.last().property == property {
        Some(ds.last().value)
    } else {
        value_of(ds.drop_last(), property)
    }
}

/// Computed values: the inherited declarations followed by the element's own,
/// in cascade order, so that a later declaration overrides an earlier one.
pub struct ComputedValues {
    pub declarations: Vec<Declaration>,
}

impl View for ComputedValues {
    type V = Seq<Declaration>;

    open spec fn view(&self) -> Seq<Declaration> {
        self.declarations@
    }
}

impl ComputedValues {
    pub fn empty() -> (r: ComputedValues)
        ensures
            r@ == Seq::<Declaration>::empty(),
    {
        ComputedValues { declarations: Vec::new() }
    }

    /// The value that wins for `property`, if any declaration sets it.
    pub fn get(&self, property: u32) -> (r: Option<u32>)
        ensures
            r == value_of(self@, property),
    {
        let mut i: usize = self.declarations.len();
        assert(self@.take(i as int) =~= self@);
        while i > 0
            invariant
                i <= self.declarations.len(),
                value_of(self@, property) == value_of(self@.take(i as int), property),
            decreases i,
        {
            let d = self.declarations[i - 1];
            let ghost t = self@.take(i as int);
            assert(t.drop_last() =~= self@.take(i as int - 1));
            assert(t.last() == d);
            if d.property == property {
                return Some(d.value);
            }
            i -= 1;
        }
        assert(self@.take(self.declarations.len() as int) =~= self@);
        None
    }

    pub fn deep_copy(&self) -> (r: ComputedValues)
        ensures
            r@ == self@,
    {
        ComputedValues { declarations: crate::selector::copy_declarations(&self.declarations) }
    }
}

/// Applies `blocks` in order on top of the values inherited from `parent`.
pub fn cascade(blocks: &Vec<DeclarationBlock>, parent: Option<&ComputedValues>) -> (r: ComputedValues)
    ensures
        r@ == match parent {
            Some(p) => p@,
            None => Seq::<Declaration>::empty(),
        } + flatten_blocks(blocks_view(blocks@)),
{
    let mut out: Vec<Declaration> = match parent {
        Some(p) => crate::selector::copy_declarations(&p.declarations),
        None => Vec::new(),
    };
    let ghost start = out@;
    let mut i: usize = 0;
    while i < blocks.len()
        invariant
            i <= blocks.len(),
            out@ == start + flatten_blocks(blocks_view(blocks@).take(i as int)),
        decreases blocks.len() - i,
    {
        let ds = &blocks[i].declarations;
        let ghost before = out@;
        let ghost t = blocks_view(blocks@).take(i as int + 1);
        assert(t.drop_last() =~= blocks_view(blocks@).take(i as int));
        assert(t.last() == blocks@[i as int]@);
        let mut j: usize = 0;
        while j < ds.len()
            invariant
                j <= ds.len(),
                out@ == before + ds@.take(j as int),
            decreases ds.len() - j,
        {
            out.push(ds[j]);
            j += 1;
            assert(out@ =~= before + ds@.take(j as int));
        }
        assert(ds@.take(ds.len() as int) =~= ds@);
        assert(out@ =~= start + flatten_blocks(t));
        i += 1;
    }
    assert(blocks_view(blocks@).take(blocks.len() as int) =~= blocks_view(blocks@));
    ComputedValues { declarations: out }
}

} // verus!
