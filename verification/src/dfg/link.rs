//! A data dependency between two nodes.
use vstd::prelude::*;
use crate::shared::variable::{Variable, VarView};

verus! {

/// The data of `var` written at node `to` is the data used at node `from`.
#[derive(Debug)]
pub struct DataLink {
    pub from: u32,
    pub to: u32,
    pub var: Variable,
}

/// A link as plain values.
pub type LinkView = (u32, u32, VarView);

impl View for DataLink {
    type V = LinkView;

    open spec fn view(&self) -> LinkView {
        (self.from, self.to, self.var@)
    }
}

/// The views of a list of links, as a set.
pub open spec fn link_set(ls: Seq<DataLink>) -> Set<LinkView> {
    ls.map_values(|l: DataLink| l@).to_set()
}

/// No two links of the list are the same.
pub open spec fn links_distinct(ls: Seq<DataLink>) -> bool {
    forall|i: int, j: int| 0 <= i < j < ls.len() ==> ls[i]@ != ls[j]@
}

impl DataLink {
    pub fn new(from: u32, to: u32, var: Variable) -> (r: Self)
        ensures
            r@ == (from, to, var@),
    {
        DataLink { from, to, var }
    }

    pub fn to_tuple(&self) -> (r: (u32, u32, &Variable))
        ensures
            r.0 == self.from,
            r.1 == self.to,
            r.2@ == self.var@,
    {
        (self.from, self.to, &self.var)
    }

    /// The two links are the same.
    pub fn same(&self, other: &DataLink) -> (r: bool)
        ensures
            r == (self@ == other@),
    {
        self.from == other.from && self.to == other.to && self.var.same(&other.var)
    }
}

/// Adds `l` to the set `ls` unless it is there already.
pub fn link_insert(ls: &mut Vec<DataLink>, l: DataLink)
    requires
        links_distinct(old(ls)@),
    ensures
        links_distinct(final(ls)@),
        link_set(final(ls)@) == link_set(old(ls)@).insert(l@),
{
    let ghost views = ls@.map_values(|l: DataLink| l@);
    let mut i: usize = 0;
    while i < ls.len()
        invariant
            i <= ls@.len(),
            views == ls@.map_values(|l: DataLink| l@),
            ls@ == old(ls)@,
            links_distinct(old(ls)@),
            forall|j: int| 0 <= j < i ==> ls@[j]@ != l@,
        decreases ls@.len() - i,
    {
        if ls[i].same(&l) {
            assert(views[i as int] == l@);
            assert(link_set(ls@).insert(l@) =~= link_set(ls@));
            return;
        }
        i = i + 1;
    }
    assert(!views.contains(l@)) by {
        if views.contains(l@) {
            let j = choose|j: int| 0 <= j < views.len() && views[j] == l@;
            assert(ls@[j]@ == l@);
        }
    }
    let ghost lv = l@;
    let ghost before = ls@;
    ls.push(l);
    assert(ls@.map_values(|l: DataLink| l@) =~= views.push(lv));
    proof { views.lemma_push_to_set_commute(lv); }
    assert forall|x: int, y: int| 0 <= x < y < ls@.len() implies ls@[x]@ != ls@[y]@ by {
        assert(ls@[x] == before[x]);
        if y < before.len() {
            assert(ls@[y] == before[y]);
        }
    }
}

} // verus!
