//! Lookup of AST nodes by id, and of the contracts of a program.
use vstd::prelude::*;
use crate::ast::AstNode;
use crate::shared::walker::{Walker, Query, walk_seq, walk_kids, reads_all, tree_ok, lemma_tree_ok_child};
use crate::shared::smart_contract::{SmartContract, SmartContractQuery, SmartContractView, spec_find, props_of, updated,
    contract_names, struct_names, functions_of, states_of, lineage};
use crate::text::str_eq;

verus! {

/// What an entry of the dictionary stands for: the node and the source it is read against.
pub open spec fn key_of(w: Walker) -> (AstNode, Seq<char>) {
    (w.ast(), w.source@)
}

/// The ids of the entries are distinct.
pub open spec fn ids_distinct(es: Seq<(AstNode, Seq<char>)>) -> bool {
    forall|i: int, j: int| 0 <= i < es.len() && 0 <= j < es.len() && i != j ==> (#[trigger] es[i]).0.id != (#[trigger] es[j]).0.id
}

/// Puts an entry: it replaces the entry of the same id, or comes last.
pub open spec fn put(es: Seq<(AstNode, Seq<char>)>, e: (AstNode, Seq<char>)) -> Seq<(AstNode, Seq<char>)> {
    if exists|i: int| 0 <= i < es.len() && (#[trigger] es[i]).0.id == e.0.id {
        es.update(choose|i: int| 0 <= i < es.len() && (#[trigger] es[i]).0.id == e.0.id, e)
    } else {
        es.push(e)
    }
}

/// Puts the nodes of `ns`, read against `source`, one after the other.
pub open spec fn put_all(es: Seq<(AstNode, Seq<char>)>, ns: Seq<AstNode>, source: Seq<char>) -> Seq<(AstNode, Seq<char>)>
    decreases ns.len(),
{
    if ns.len() == 0 {
        es
    } else {
        put(put_all(es, ns.drop_last(), source), (ns.last(), source))
    }
}

/// The nodes strictly below `n`, children before parents, siblings left to right.
pub open spec fn below(n: AstNode) -> Seq<AstNode> {
    walk_kids(n, n.children@.len() as int, false, |a: AstNode, p: Option<AstNode>| false, |a: AstNode, p: Option<AstNode>| true)
}

/// The entries after reading the first `k` source units, starting from `es`.
pub open spec fn units_entries(units: Seq<(AstNode, String)>, k: int) -> Seq<(AstNode, Seq<char>)>
    decreases k,
{
    if k <= 0 {
        Seq::empty()
    } else {
        put_all(units_entries(units, k - 1), below(units[k - 1].0), units[k - 1].1@)
    }
}

/// The nodes of the entries whose name is `name`, in entry order.
pub open spec fn named(es: Seq<(AstNode, Seq<char>)>, name: Seq<char>) -> Seq<AstNode> {
    es.filter(|e: (AstNode, Seq<char>)| e.0.name@ == name).map_values(|e: (AstNode, Seq<char>)| e.0)
}

/// Allow searching by node id
pub struct Dictionary<'a> {
    pub entries: Vec<Walker<'a>>,
    pub smart_contract: SmartContract,
}

impl<'a> Dictionary<'a> {
    /// The entries as plain values.
    pub open spec fn keys(&self) -> Seq<(AstNode, Seq<char>)> {
        self.entries@.map_values(|w: Walker| key_of(w))
    }

    /// Every entry reads its node, with the whole tree below it, and the ids are distinct.
    pub open spec fn wf(&self) -> bool {
        &&& forall|i: int| 0 <= i < self.entries@.len() ==> (#[trigger] self.entries@[i]).tree_wf()
        &&& ids_distinct(self.keys())
    }

    fn index_of(&self, id: u32) -> (r: Option<usize>)
        ensures
            match r {
                Some(i) => i < self.entries@.len() && self.entries@[i as int].node.id == id,
                None => forall|i: int| 0 <= i < self.entries@.len() ==> (#[trigger] self.entries@[i]).node.id != id,
            },
    {
        let mut i: usize = 0;
        while i < self.entries.len()
            invariant
                i <= self.entries@.len(),
                forall|k: int| 0 <= k < i ==> (#[trigger] self.entries@[k]).node.id != id,
            decreases self.entries@.len() - i,
        {
            if self.entries[i].node.id == id {
                return Some(i);
            }
            i = i + 1;
        }
        None
    }

    fn insert(&mut self, walker: Walker<'a>)
        requires
            old(self).wf(),
            walker.tree_wf(),
        ensures
            final(self).wf(),
            final(self).keys() == put(old(self).keys(), key_of(walker)),
            final(self).smart_contract == old(self).smart_contract,
    {
        let ghost ks = self.keys();
        proof {
            assert forall|i: int| 0 <= i < self.entries@.len() implies (#[trigger] self.entries@[i]).node.id == ks[i].0.id by {
                Walker::lemma_wf_fields(self.entries@[i]);
            }
            Walker::lemma_wf_fields(walker);
        }
        match self.index_of(walker.node.id) {
            Some(i) => {
                let ghost j = choose|j: int| 0 <= j < ks.len() && (#[trigger] ks[j]).0.id == walker.ast().id;
                assert(ks[i as int].0.id == walker.ast().id);
                assert(j == i);
                self.entries.set(i, walker);
                assert(self.keys() =~= ks.update(i as int, key_of(walker)));
            },
            None => {
                assert(!exists|j: int| 0 <= j < ks.len() && (#[trigger] ks[j]).0.id == walker.ast().id) by {
                    if exists|j: int| 0 <= j < ks.len() && (#[trigger] ks[j]).0.id == walker.ast().id {
                        let j = choose|j: int| 0 <= j < ks.len() && (#[trigger] ks[j]).0.id == walker.ast().id;
                        assert(self.entries@[j].node.id == walker.ast().id);
                    }
                }
                self.entries.push(walker);
                assert(self.keys() =~= ks.push(key_of(walker)));
            },
        }
    }

    fn traverse(&mut self, walker: &Walker<'a>)
        requires
            old(self).wf(),
            walker.tree_wf(),
        ensures
            final(self).wf(),
            final(self).keys() == put_all(old(self).keys(), below(walker.ast()), walker.source@),
            final(self).smart_contract == old(self).smart_contract,
        decreases *walker.node.ast,
    {
        let ghost n = walker.ast();
        let ghost start = self.keys();
        proof { Walker::lemma_wf_fields(*walker); }
        let mut i: usize = 0;
        while i < walker.node.children.len()
            invariant
                self.wf(),
                walker.tree_wf(),
                n == walker.ast(),
                walker.node.children@ == n.children@,
                i <= n.children@.len(),
                self.keys() == put_all(start, walk_kids(n, i as int, false, |a: AstNode, p: Option<AstNode>| false, |a: AstNode, p: Option<AstNode>| true), walker.source@),
                self.smart_contract == old(self).smart_contract,
            decreases n.children@.len() - i,
        {
            proof {
                lemma_tree_ok_child(n, walker.source@, i as int);
                assert(decreases_to!(*walker.node.ast => walker.node.ast.children));
                assert(decreases_to!(walker.node.ast.children => walker.node.ast.children@));
                assert(decreases_to!(walker.node.ast.children@ => walker.node.ast.children@[i as int]));
            }
            let child = Walker::new(&walker.node.children[i], walker.source);
            let ghost c = n.children@[i as int];
            self.traverse(&child);
            self.insert(child);
            proof {
                let prev = walk_kids(n, i as int, false, |a: AstNode, p: Option<AstNode>| false, |a: AstNode, p: Option<AstNode>| true);
                let sub = walk_seq(c, Some(n), false, |a: AstNode, p: Option<AstNode>| false, |a: AstNode, p: Option<AstNode>| true);
                assert(sub == below(c).push(c));
                lemma_put_all_concat(start, prev, below(c), walker.source@);
                lemma_put_all_concat(start, prev + below(c), seq![c], walker.source@);
                assert(prev + below(c) + seq![c] =~= prev + sub);
                assert((prev + below(c) + seq![c]).drop_last() =~= prev + below(c));
            }
            i = i + 1;
        }
    }
}

impl<'a> Dictionary<'a> {
    /// Create new dictionary from source units, each the AST of a source file
    /// and the text of the file.
    pub fn new(units: &'a Vec<(AstNode, String)>) -> (r: Dictionary<'a>)
        requires
            forall|k: int| 0 <= k < units@.len() ==> tree_ok((#[trigger] units@[k]).0, units@[k].1@),
        ensures
            r.wf(),
            r.keys() == units_entries(units@, units@.len() as int),
            r.smart_contract@ == updated(SmartContract::new_view(), named(r.keys(), "ContractDefinition"@)),
    {
        let mut dict = Dictionary { entries: Vec::new(), smart_contract: SmartContract::new() };
        assert(dict.keys() =~= Seq::empty());
        let mut k: usize = 0;
        while k < units.len()
            invariant
                k <= units@.len(),
                forall|k: int| 0 <= k < units@.len() ==> tree_ok((#[trigger] units@[k]).0, units@[k].1@),
                dict.wf(),
                dict.keys() == units_entries(units@, k as int),
                dict.smart_contract@ == SmartContract::new_view(),
            decreases units@.len() - k,
        {
            let ast_one = &units[k].0;
            let source = units[k].1.as_str();
            assert(tree_ok(*ast_one, source@));
            let walker = Walker::new(ast_one, source);
            dict.traverse(&walker);
            k = k + 1;
        }
        let contract_walkers = dict.filter_by("ContractDefinition");
        let ghost asts = contract_walkers@.map_values(|w: &Walker| w.ast());
        let mut smart_contract = SmartContract::new();
        smart_contract.update(contract_walkers);
        dict.smart_contract = smart_contract;
        dict
    }

    /// Entries whose node is named `name`, in entry order.
    pub fn filter_by(&self, name: &str) -> (r: Vec<&Walker<'a>>)
        requires
            self.wf(),
        ensures
            r@.map_values(|w: &Walker| w.ast()) == named(self.keys(), name@),
            forall|i: int| 0 <= i < r@.len() ==> (#[trigger] r@[i]).tree_wf(),
    {
        let mut out: Vec<&Walker<'a>> = Vec::new();
        let mut i: usize = 0;
        let ghost ks = self.keys();
        while i < self.entries.len()
            invariant
                self.wf(),
                ks == self.keys(),
                i <= self.entries@.len(),
                out@.map_values(|w: &Walker| w.ast()) == named(ks.take(i as int), name@),
                forall|j: int| 0 <= j < out@.len() ==> (#[trigger] out@[j]).tree_wf(),
            decreases self.entries@.len() - i,
        {
            proof {
                reveal_with_fuel(Seq::<_>::filter, 1);
                Walker::lemma_wf_fields(self.entries@[i as int]);
            }
            let ghost before = out@;
            assert(ks.take(i + 1).drop_last() =~= ks.take(i as int));
            if str_eq(self.entries[i].node.name, name) {
                out.push(&self.entries[i]);
            }
            proof {
                let f = |e: (AstNode, Seq<char>)| e.0.name@ == name@;
                let g = |e: (AstNode, Seq<char>)| e.0;
                if f(ks[i as int]) {
                    assert(ks.take(i + 1).filter(f) == ks.take(i as int).filter(f).push(ks[i as int]));
                    assert(out@.map_values(|w: &Walker| w.ast()) =~= before.map_values(|w: &Walker| w.ast()).push(ks[i as int].0));
                    assert(ks.take(i + 1).filter(f).map_values(g) =~= ks.take(i as int).filter(f).map_values(g).push(ks[i as int].0));
                } else {
                    assert(ks.take(i + 1).filter(f) == ks.take(i as int).filter(f));
                }
            }
            i = i + 1;
        }
        assert(ks.take(ks.len() as int) =~= ks);
        out
    }

    /// Find walker by node id
    pub fn walker_at(&self, id: u32) -> (r: Option<&Walker<'a>>)
        requires
            self.wf(),
        ensures
            match r {
                Some(w) => w.tree_wf() && exists|i: int| 0 <= i < self.keys().len() && self.keys()[i] == key_of(*w) && (#[trigger] self.keys()[i]).0.id == id,
                None => forall|i: int| 0 <= i < self.keys().len() ==> (#[trigger] self.keys()[i]).0.id != id,
            },
            match r {
                Some(w) => entry_of(self.keys(), id) == Some(key_of(*w)),
                None => entry_of(self.keys(), id) is None,
            },
    {
        proof {
            assert forall|i: int| 0 <= i < self.entries@.len() implies (#[trigger] self.entries@[i]).node.id == self.keys()[i].0.id by {
                Walker::lemma_wf_fields(self.entries@[i]);
            }
        }
        match self.index_of(id) {
            Some(i) => {
                assert(self.keys()[i as int] == key_of(self.entries@[i as int]));
                proof { lemma_id_entry(self.keys(), id, i as int); }
                Some(&self.entries[i])
            },
            None => None,
        }
    }

    /// The walker of the node `id`: the same as `walker_at`.
    pub fn lookup(&self, id: u32) -> (r: Option<&Walker<'a>>)
        requires
            self.wf(),
        ensures
            match r {
                Some(w) => w.tree_wf() && entry_of(self.keys(), id) == Some(key_of(*w)),
                None => entry_of(self.keys(), id) is None,
            },
    {
        self.walker_at(id)
    }

    pub fn find_ids(&self, query: SmartContractQuery) -> (r: Vec<u32>)
        ensures
            r@ == match spec_find(self.smart_contract@, query) {
                Some(ids) => ids,
                None => Seq::empty(),
            },
    {
        match self.smart_contract.find(query) {
            Some(ids) => ids,
            None => Vec::new(),
        }
    }

    /// The walkers of the ids that a query finds, in the order of the ids; ids
    /// with no entry are left out.
    pub fn find_walkers(&self, query: SmartContractQuery) -> (r: Vec<&Walker<'a>>)
        requires
            self.wf(),
        ensures
            r@.map_values(|w: &Walker| key_of(*w)) == entries_of(self.keys(), match spec_find(self.smart_contract@, query) {
                Some(ids) => ids,
                None => Seq::empty(),
            }),
            forall|i: int| 0 <= i < r@.len() ==> (#[trigger] r@[i]).tree_wf(),
    {
        let ids = self.find_ids(query);
        let mut out: Vec<&Walker<'a>> = Vec::new();
        let mut i: usize = 0;
        while i < ids.len()
            invariant
                self.wf(),
                i <= ids@.len(),
                out@.map_values(|w: &Walker| key_of(*w)) == entries_of(self.keys(), ids@.take(i as int)),
                forall|j: int| 0 <= j < out@.len() ==> (#[trigger] out@[j]).tree_wf(),
            decreases ids@.len() - i,
        {
            assert(ids@.take(i + 1).drop_last() =~= ids@.take(i as int));
            let ghost before = out@;
            match self.walker_at(ids[i]) {
                Some(w) => {
                    out.push(w);
                    proof {
                        let j = choose|j: int| 0 <= j < self.keys().len() && self.keys()[j] == key_of(*w) && (#[trigger] self.keys()[j]).0.id == ids@[i as int];
                        lemma_id_entry(self.keys(), ids@[i as int], j);
                        assert(out@.map_values(|w: &Walker| key_of(*w)) =~= before.map_values(|w: &Walker| key_of(*w)).push(key_of(*w)));
                    }
                },
                None => {},
            }
            i = i + 1;
        }
        assert(ids@.take(ids@.len() as int) =~= ids@);
        out
    }
}

/// The entry with id `id`, if there is one.
pub open spec fn entry_of(es: Seq<(AstNode, Seq<char>)>, id: u32) -> Option<(AstNode, Seq<char>)> {
    if exists|i: int| 0 <= i < es.len() && (#[trigger] es[i]).0.id == id {
        Some(es[choose|i: int| 0 <= i < es.len() && (#[trigger] es[i]).0.id == id])
    } else {
        None
    }
}

/// What the dictionary finds for an id is the entry of a node with that id;
/// it finds nothing only where no entry has that id.
pub proof fn law_entry_of(es: Seq<(AstNode, Seq<char>)>, id: u32)
    ensures
        entry_of(es, id) matches Some(e) ==> e.0.id == id && es.contains(e),
        entry_of(es, id) is None <==> forall|i: int| 0 <= i < es.len() ==> (#[trigger] es[i]).0.id != id,
{
    if exists|i: int| 0 <= i < es.len() && (#[trigger] es[i]).0.id == id {
        let i = choose|i: int| 0 <= i < es.len() && (#[trigger] es[i]).0.id == id;
        assert(es.contains(es[i]));
    }
}

/// The entries of `ids`, in order; ids with no entry are left out.
pub open spec fn entries_of(es: Seq<(AstNode, Seq<char>)>, ids: Seq<u32>) -> Seq<(AstNode, Seq<char>)>
    decreases ids.len(),
{
    if ids.len() == 0 {
        Seq::empty()
    } else {
        let prev = entries_of(es, ids.drop_last());
        match entry_of(es, ids.last()) {
            Some(n) => prev.push(n),
            None => prev,
        }
    }
}

pub proof fn lemma_id_entry(es: Seq<(AstNode, Seq<char>)>, id: u32, j: int)
    requires
        ids_distinct(es),
        0 <= j < es.len(),
        es[j].0.id == id,
    ensures
        entry_of(es, id) == Some(es[j]),
{
    let k = choose|i: int| 0 <= i < es.len() && (#[trigger] es[i]).0.id == id;
    assert(k == j);
}

pub proof fn lemma_put_all_concat(es: Seq<(AstNode, Seq<char>)>, a: Seq<AstNode>, b: Seq<AstNode>, source: Seq<char>)
    ensures
        put_all(es, a + b, source) == put_all(put_all(es, a, source), b, source),
    decreases b.len(),
{
    if b.len() == 0 {
        assert(a + b =~= a);
    } else {
        lemma_put_all_concat(es, a, b.drop_last(), source);
        assert((a + b).drop_last() =~= a + b.drop_last());
    }
}

} // verus!
