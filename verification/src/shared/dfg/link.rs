//! Data dependency link between two nodes.
use vstd::prelude::*;
use crate::shared::dfg::variable::{Variable, DVarView};

verus! {

/// Data dependency link between to node: the variable killed at one node and
/// the variable used at the other
#[derive(Debug)]
pub struct DataLink {
    pub from: (Variable, u32),
    pub to: (Variable, u32),
}

/// A link as plain values.
pub type DLinkView = ((DVarView, u32), (DVarView, u32));

impl View for DataLink {
    type V = DLinkView;

    open spec fn view(&self) -> DLinkView {
        ((self.from.0@, self.from.1), (self.to.0@, self.to.1))
    }
}

/// The views of a list of links, as a set.
pub open spec fn dlink_set(ls: Seq<DataLink>) -> Set<DLinkView> {
    ls.map_values(|l: DataLink| l@).to_set()
}

/// No two links of the list are the same.
pub open spec fn dlinks_distinct(ls: Seq<DataLink>) -> bool {
    forall|i: int, j: int| 0 <= i < j < ls.len() ==> ls[i]@ != ls[j]@
}

impl DataLink {
    pub fn new(from: (Variable, u32), to: (Variable, u32)) -> (r: Self)
        ensures
            r@ == ((from.0@, from.1), (to.0@, to.1)),
    {
        DataLink { from, to }
    }

    pub fn get_from(&self) -> (r: &(Variable, u32))
        ensures
            r.0@ == self.from.0@,
            r.1 == self.from.1,
    {
        &self.from
    }

    pub fn get_to(&self) -> (r: &(Variable, u32))
        ensures
            r.0@ == self.to.0@,
            r.1 == self.to.1,
    {
        &self.to
    }

    /// The two links are the same.
    pub fn same(&self, other: &DataLink) -> (r: bool)
        ensures
            r == (self@ == other@),
    {
        self.from.1 == other.from.1 && self.to.1 == other.to.1 && self.from.0.same(&other.from.0)
            && self.to.0.same(&other.to.0)
    }
}

/// Adds `l` to the set `ls` unless it is there already.
pub fn dlink_insert(ls: &mut Vec<DataLink>, l: DataLink)
    requires
        dlinks_distinct(old(ls)@),
    ensures
        dlinks_distinct(final(ls)@),
        dlink_set(final(ls)@) == dlink_set(old(ls)@).insert(l@),
{
    let ghost views = ls@.map_values(|l: DataLink| l@);
    let mut i: usize = 0;
    while i < ls.len()
        invariant
            i <= ls@.len(),
            views == ls@.map_values(|l: DataLink| l@),
            ls@ == old(ls)@,
            dlinks_distinct(old(ls)@),
            forall|j: int| 0 <= j < i ==> ls@[j]@ != l@,
        decreases ls@.len() - i,
    {
        if ls[i].same(&l) {
            assert(views[i as int] == l@);
            assert(dlink_set(ls@).insert(l@) =~= dlink_set(ls@));
            return;
        }
        i = i + 1;
    }
    assert(!views.contains(l@)) by {
        if views.contains(l@) {
            let j = choose|j: int| 0 <= j < views.len() && views[j] == l@;
            assert(ls@[j]@ == l@);
        }
    }
    let ghost lv = l@;
    let ghost before = ls@;
    ls.push(l);
    assert(ls@.map_values(|l: DataLink| l@) =~= views.push(lv));
    proof { views.lemma_push_to_set_commute(lv); }
    assert forall|x: int, y: int| 0 <= x < y < ls@.len() implies ls@[x]@ != ls@[y]@ by {
        assert(ls@[x] == before[x]);
        if y < before.len() {
            assert(ls@[y] == before[y]);
        }
    }
}

} // verus!
