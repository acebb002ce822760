//! What each contract of a program declares: its functions, its state
//! variables and its structs, with those it inherits.
use std::collections::HashMap;
use vstd::prelude::*;
use crate::ast::{AstNode, attr_u32_of, attr_str_of, attr_u32, attr_str, attr_str_or_empty, attr_str_or_default};
use crate::shared::walker::{Walker, Query, reads_all};
use crate::text::str_eq;

verus! {

broadcast use vstd::std_specs::hash::group_hash_axioms;

/// What a contract declares itself.
pub struct ContractProp {
    pub id: u32,
    pub states: Vec<u32>,
    pub functions: Vec<u32>,
    pub parents: Vec<u32>,
}

/// A `ContractProp` as plain sequences.
pub struct PropView {
    pub id: u32,
    pub states: Seq<u32>,
    pub functions: Seq<u32>,
    pub parents: Seq<u32>,
}

impl View for ContractProp {
    type V = PropView;

    open spec fn view(&self) -> PropView {
        PropView { id: self.id, states: self.states@, functions: self.functions@, parents: self.parents@ }
    }
}

pub enum SmartContractQuery {
    FunctionsByContractId(u32),
    StatesByContractId(u32),
    StructByName(String),
    ContractByName(String),
}

pub struct SmartContract {
    /// contract_id => vec<function_id>
    pub contracts: HashMap<u32, Vec<u32>>,
    /// contract_id => vec<state_id>
    pub states: HashMap<u32, Vec<u32>>,
    /// name => struct_id, the last entry of a name counting
    pub struct_defs: Vec<(String, u32)>,
    /// name => contract_id, the last entry of a name counting
    pub contract_defs: Vec<(String, u32)>,
}

/// The map that a list of (name, id) pairs stands for: a later pair of the
/// same name replaces an earlier one.
pub open spec fn names_map(entries: Seq<(String, u32)>) -> Map<Seq<char>, u32>
    decreases entries.len(),
{
    if entries.len() == 0 {
        Map::empty()
    } else {
        names_map(entries.drop_last()).insert(entries.last().0@, entries.last().1)
    }
}

/// The plain view of the maps of a `SmartContract`.
pub struct SmartContractView {
    pub contracts: Map<u32, Seq<u32>>,
    pub states: Map<u32, Seq<u32>>,
    pub struct_defs: Map<Seq<char>, u32>,
    pub contract_defs: Map<Seq<char>, u32>,
}

pub open spec fn seq_values(m: Map<u32, Vec<u32>>) -> Map<u32, Seq<u32>> {
    Map::new(|k: u32| m.contains_key(k), |k: u32| m[k]@)
}

impl View for SmartContract {
    type V = SmartContractView;

    open spec fn view(&self) -> SmartContractView {
        SmartContractView {
            contracts: seq_values(self.contracts@),
            states: seq_values(self.states@),
            struct_defs: names_map(self.struct_defs@),
            contract_defs: names_map(self.contract_defs@),
        }
    }
}

/// The id that a name maps to in a list of (name, id) pairs.
fn lookup_name(entries: &Vec<(String, u32)>, name: &str) -> (r: Option<u32>)
    ensures
        match r {
            Some(id) => names_map(entries@).contains_key(name@) && names_map(entries@)[name@] == id,
            None => !names_map(entries@).contains_key(name@),
        },
{
    let mut i = entries.len();
    while i > 0
        invariant
            i <= entries.len(),
            forall|k: int| i <= k < entries@.len() ==> (#[trigger] entries@[k]).0@ != name@,
        decreases i,
    {
        i = i - 1;
        if str_eq(entries[i].0.as_str(), name) {
            proof { lemma_names_map_last_match(entries@, name@, i as int); }
            return Some(entries[i].1);
        }
    }
    proof { lemma_names_map_no_match(entries@, name@); }
    None
}

proof fn lemma_names_map_last_match(entries: Seq<(String, u32)>, name: Seq<char>, i: int)
    requires
        0 <= i < entries.len(),
        entries[i].0@ == name,
        forall|k: int| i < k < entries.len() ==> (#[trigger] entries[k]).0@ != name,
    ensures
        names_map(entries).contains_key(name),
        names_map(entries)[name] == entries[i].1,
    decreases entries.len(),
{
    if i < entries.len() - 1 {
        lemma_names_map_last_match(entries.drop_last(), name, i);
    }
}

proof fn lemma_names_map_no_match(entries: Seq<(String, u32)>, name: Seq<char>)
    requires
        forall|k: int| 0 <= k < entries.len() ==> (#[trigger] entries[k]).0@ != name,
    ensures
        !names_map(entries).contains_key(name),
    decreases entries.len(),
{
    if entries.len() > 0 {
        lemma_names_map_no_match(entries.drop_last(), name);
    }
}

/// The ids that a query asks for, as `SmartContract::find` gives them back.
pub open spec fn spec_find(v: SmartContractView, query: SmartContractQuery) -> Option<Seq<u32>> {
    match query {
        SmartContractQuery::FunctionsByContractId(id) => {
            if v.contracts.contains_key(id) { Some(v.contracts[id]) } else { None }
        },
        SmartContractQuery::StatesByContractId(id) => {
            if v.states.contains_key(id) { Some(v.states[id]) } else { None }
        },
        SmartContractQuery::StructByName(name) => {
            if v.struct_defs.contains_key(name@) { Some(seq![v.struct_defs[name@]]) } else { None }
        },
        SmartContractQuery::ContractByName(name) => {
            if v.contract_defs.contains_key(name@) { Some(seq![v.contract_defs[name@]]) } else { None }
        },
    }
}

/// The effect of one child of a contract definition on what the contract
/// declares.
pub open spec fn child_effect(p: PropView, c: AstNode) -> PropView {
    if c.name@ == "InheritanceSpecifier"@ || c.name@ == "UsingForDirective"@ {
        if c.children@.len() > 0 {
            match attr_u32_of(c.children@[0].attributes@, "referencedDeclaration"@) {
                Some(r) => PropView { parents: p.parents.push(r), ..p },
                None => p,
            }
        } else {
            p
        }
    } else if c.name@ == "FunctionDefinition"@ || c.name@ == "ModifierDefinition"@ {
        PropView { functions: p.functions.push(c.id), ..p }
    } else if c.name@ == "VariableDeclaration"@ {
        PropView { states: p.states.push(c.id), ..p }
    } else {
        p
    }
}

/// What a contract declares, from its first `k` children.
pub open spec fn prop_upto(contract: AstNode, k: int) -> PropView
    decreases k,
{
    if k <= 0 {
        PropView { id: contract.id, states: seq![], functions: seq![], parents: seq![] }
    } else {
        child_effect(prop_upto(contract, k - 1), contract.children@[k - 1])
    }
}

/// What a contract declares.
pub open spec fn spec_prop(contract: AstNode) -> PropView {
    prop_upto(contract, contract.children@.len() as int)
}

/// The structs that the first `k` children of a contract define, added to `m`.
pub open spec fn structs_upto(m: Map<Seq<char>, u32>, contract: AstNode, k: int) -> Map<Seq<char>, u32>
    decreases k,
{
    if k <= 0 {
        m
    } else {
        let prev = structs_upto(m, contract, k - 1);
        let c = contract.children@[k - 1];
        if c.name@ == "StructDefinition"@ {
            match attr_str_of(c.attributes@, "canonicalName"@) {
                Some(name) => prev.insert(name, c.id),
                None => prev,
            }
        } else {
            prev
        }
    }
}

/// The names of the first `k` contracts, added to `m`.
pub open spec fn contract_names(m: Map<Seq<char>, u32>, contracts: Seq<AstNode>, k: int) -> Map<Seq<char>, u32>
    decreases k,
{
    if k <= 0 {
        m
    } else {
        contract_names(m, contracts, k - 1).insert(
            attr_str_or_empty(contracts[k - 1].attributes@, "name"@),
            contracts[k - 1].id,
        )
    }
}

/// The structs of the first `k` contracts, added to `m`.
pub open spec fn struct_names(m: Map<Seq<char>, u32>, contracts: Seq<AstNode>, k: int) -> Map<Seq<char>, u32>
    decreases k,
{
    if k <= 0 {
        m
    } else {
        let c = contracts[k - 1];
        structs_upto(struct_names(m, contracts, k - 1), c, c.children@.len() as int)
    }
}

/// What each of the first `k` contracts declares, by id; a later contract of
/// the same id replaces an earlier one.
pub open spec fn props_of(contracts: Seq<AstNode>, k: int) -> Map<u32, PropView>
    decreases k,
{
    if k <= 0 {
        Map::empty()
    } else {
        props_of(contracts, k - 1).insert(contracts[k - 1].id, spec_prop(contracts[k - 1]))
    }
}

/// The contracts that `c` stands on: `c` itself, then, for each parent from
/// the last to the first, that parent's lineage; contracts that `props` does
/// not know are left out. `fuel` bounds the depth.
pub open spec fn lineage(props: Map<u32, PropView>, c: u32, fuel: nat) -> Seq<u32>
    decreases fuel, 0nat,
{
    if fuel == 0 || !props.contains_key(c) {
        seq![]
    } else {
        seq![c] + lineage_parents(props, props[c].parents, props[c].parents.len() as int, (fuel - 1) as nat)
    }
}

/// The lineages of the parents `ps[k-1]`, ..., `ps[0]`, one after the other.
pub open spec fn lineage_parents(props: Map<u32, PropView>, ps: Seq<u32>, k: int, fuel: nat) -> Seq<u32>
    decreases fuel, 1nat, k,
{
    if k <= 0 || k > ps.len() {
        seq![]
    } else {
        lineage(props, ps[k - 1], fuel) + lineage_parents(props, ps, k - 1, fuel)
    }
}

/// The functions of the contracts of `lin`, in that order.
pub open spec fn functions_of(props: Map<u32, PropView>, lin: Seq<u32>) -> Seq<u32>
    decreases lin.len(),
{
    if lin.len() == 0 {
        seq![]
    } else {
        functions_of(props, lin.drop_last()) + props[lin.last()].functions
    }
}

/// The state variables of the contracts of `lin`, from the last contract to
/// the first, each contract's in declaration order.
pub open spec fn states_of(props: Map<u32, PropView>, lin: Seq<u32>) -> Seq<u32>
    decreases lin.len(),
{
    if lin.len() == 0 {
        seq![]
    } else {
        props[lin.last()].states + states_of(props, lin.drop_last())
    }
}


/// What `SmartContract::update` makes of `old` with the contract definitions `asts`.
pub open spec fn updated(old: SmartContractView, asts: Seq<AstNode>) -> SmartContractView {
    let n = asts.len() as int;
    let props = props_of(asts, n);
    SmartContractView {
        contract_defs: contract_names(old.contract_defs, asts, n),
        struct_defs: struct_names(old.struct_defs, asts, n),
        contracts: old.contracts.union_prefer_right(
            Map::new(|k: u32| props.contains_key(k), |k: u32| functions_of(props, lineage(props, k, n as nat)))),
        states: old.states.union_prefer_right(
            Map::new(|k: u32| props.contains_key(k), |k: u32| states_of(props, lineage(props, k, n as nat)))),
    }
}

/// Looks up the entry of `id` in a list of props with distinct ids.
fn find_prop(props: &Vec<ContractProp>, id: u32) -> (r: Option<usize>)
    ensures
        match r {
            Some(i) => i < props@.len() && props@[i as int].id == id,
            None => forall|k: int| 0 <= k < props@.len() ==> (#[trigger] props@[k]).id != id,
        },
{
    let mut i: usize = 0;
    while i < props.len()
        invariant
            i <= props@.len(),
            forall|k: int| 0 <= k < i ==> (#[trigger] props@[k]).id != id,
        decreases props@.len() - i,
    {
        if props[i].id == id {
            return Some(i);
        }
        i = i + 1;
    }
    None
}

/// `props` (with distinct ids) holds exactly the entries of `m`.
pub open spec fn props_match(props: Seq<ContractProp>, m: Map<u32, PropView>) -> bool {
    &&& forall|i: int, j: int| 0 <= i < props.len() && 0 <= j < props.len() && i != j ==> (#[trigger] props[i]).id != (#[trigger] props[j]).id
    &&& forall|i: int| 0 <= i < props.len() ==> m.contains_key((#[trigger] props[i]).id) && m[props[i].id] == props[i]@
    &&& forall|k: u32| m.contains_key(k) ==> exists|i: int| 0 <= i < props.len() && (#[trigger] props[i]).id == k
}

pub(crate) fn copy_ids(v: &Vec<u32>) -> (r: Vec<u32>)
    ensures
        r@ == v@,
{
    let mut out: Vec<u32> = Vec::new();
    let mut i: usize = 0;
    while i < v.len()
        invariant
            i <= v.len(),
            out@ == v@.take(i as int),
        decreases v.len() - i,
    {
        out.push(v[i]);
        assert(v@.take(i + 1) =~= v@.take(i as int).push(v@[i as int]));
        i = i + 1;
    }
    assert(v@.take(v.len() as int) =~= v@);
    out
}

/// The lineage of `c` within `props`.
fn lineage_of(props: &Vec<ContractProp>, Ghost(m): Ghost<Map<u32, PropView>>, c: u32, fuel: usize) -> (r: Vec<u32>)
    requires
        props_match(props@, m),
    ensures
        r@ == lineage(m, c, fuel as nat),
    decreases fuel, 0nat, 0nat,
{
    if fuel == 0 {
        return Vec::new();
    }
    match find_prop(props, c) {
        None => {
            assert(!m.contains_key(c));
            Vec::new()
        },
        Some(idx) => {
            let mut out: Vec<u32> = Vec::new();
            out.push(c);
            let parents = &props[idx].parents;
            let ghost ps = parents@;
            assert(m[c] == props@[idx as int]@);
            let mut k = parents.len();
            while k > 0
                invariant
                    props_match(props@, m),
                    fuel > 0,
                    k <= ps.len(),
                    parents@ == ps,
                    m.contains_key(c),
                    ps == m[c].parents,
                    seq![c] + lineage_parents(m, ps, ps.len() as int, (fuel - 1) as nat)
                        == out@ + lineage_parents(m, ps, k as int, (fuel - 1) as nat),
                decreases k,
            {
                let mut sub = lineage_of(props, Ghost(m), parents[k - 1], fuel - 1);
                let ghost before = out@;
                out.append(&mut sub);
                assert(out@ == before + lineage(m, ps[k - 1], (fuel - 1) as nat));
                k = k - 1;
            }
            out
        },
    }
}

pub proof fn lemma_lineage_in_dom(props: Map<u32, PropView>, c: u32, fuel: nat)
    ensures
        forall|x: int| 0 <= x < lineage(props, c, fuel).len() ==> props.contains_key(#[trigger] lineage(props, c, fuel)[x]),
    decreases fuel, 0nat,
{
    if fuel > 0 && props.contains_key(c) {
        let ps = props[c].parents;
        lemma_lineage_parents_in_dom(props, ps, ps.len() as int, (fuel - 1) as nat);
        let b = lineage_parents(props, ps, ps.len() as int, (fuel - 1) as nat);
        assert forall|x: int| 0 <= x < (seq![c] + b).len() implies props.contains_key(#[trigger] (seq![c] + b)[x]) by {
            if x == 0 { assert((seq![c] + b)[x] == c); } else { assert((seq![c] + b)[x] == b[x - 1]); }
        }
    }
}

pub proof fn lemma_lineage_parents_in_dom(props: Map<u32, PropView>, ps: Seq<u32>, k: int, fuel: nat)
    ensures
        forall|x: int| 0 <= x < lineage_parents(props, ps, k, fuel).len() ==> props.contains_key(#[trigger] lineage_parents(props, ps, k, fuel)[x]),
    decreases fuel, 1nat, k,
{
    if k > 0 && k <= ps.len() {
        lemma_lineage_in_dom(props, ps[k - 1], fuel);
        lemma_lineage_parents_in_dom(props, ps, k - 1, fuel);
        let a = lineage(props, ps[k - 1], fuel);
        let b = lineage_parents(props, ps, k - 1, fuel);
        assert forall|x: int| 0 <= x < (a + b).len() implies props.contains_key(#[trigger] (a + b)[x]) by {
            if x < a.len() { assert((a + b)[x] == a[x]); } else { assert((a + b)[x] == b[x - a.len()]); }
        }
    }
}

impl SmartContract {
    /// The view of an empty `SmartContract`.
    pub open spec fn new_view() -> SmartContractView {
        SmartContractView {
            contracts: Map::empty(),
            states: Map::empty(),
            struct_defs: Map::empty(),
            contract_defs: Map::empty(),
        }
    }

    pub fn new() -> (r: Self)
        ensures
            r@ == SmartContract::new_view(),
    {
        let r = SmartContract {
            contracts: HashMap::new(),
            states: HashMap::new(),
            struct_defs: Vec::new(),
            contract_defs: Vec::new(),
        };
        assert(r@.contracts =~= Map::<u32, Seq<u32>>::empty());
        assert(r@.states =~= Map::<u32, Seq<u32>>::empty());
        r
    }

    pub fn find(&self, query: SmartContractQuery) -> (r: Option<Vec<u32>>)
        ensures
            match r {
                Some(ids) => spec_find(self@, query) == Some(ids@),
                None => spec_find(self@, query) is None,
            },
    {
        match query {
            SmartContractQuery::FunctionsByContractId(contract_id) => {
                match self.contracts.get(&contract_id) {
                    Some(ids) => Some(copy_ids(ids)),
                    None => None,
                }
            },
            SmartContractQuery::StatesByContractId(contract_id) => {
                match self.states.get(&contract_id) {
                    Some(ids) => Some(copy_ids(ids)),
                    None => None,
                }
            },
            SmartContractQuery::StructByName(struct_name) => {
                match lookup_name(&self.struct_defs, struct_name.as_str()) {
                    Some(id) => {
                        let mut v = Vec::new();
                        v.push(id);
                        assert(v@ =~= seq![id]);
                        Some(v)
                    },
                    None => None,
                }
            },
            SmartContractQuery::ContractByName(contract_name) => {
                match lookup_name(&self.contract_defs, contract_name.as_str()) {
                    Some(id) => {
                        let mut v = Vec::new();
                        v.push(id);
                        assert(v@ =~= seq![id]);
                        Some(v)
                    },
                    None => None,
                }
            },
        }
    }

    /// Records the contracts of `contract_walkers`: for each, its name, its
    /// structs, and the functions and state variables of its lineage (itself
    /// and what it inherits or uses).
    #[verifier::loop_isolation(false)]
    pub fn update(&mut self, contract_walkers: Vec<&Walker>)
        requires
            forall|i: int| 0 <= i < contract_walkers@.len() ==> (#[trigger] contract_walkers@[i]).wf(),
        ensures
            final(self)@ == updated(old(self)@, contract_walkers@.map_values(|w: &Walker| w.ast())),
    {
        let ghost asts = contract_walkers@.map_values(|w: &Walker| w.ast());
        let ghost old_view = self@;
        let mut props: Vec<ContractProp> = Vec::new();
        let mut j: usize = 0;
        while j < contract_walkers.len()
            invariant
                j <= contract_walkers@.len(),
                asts == contract_walkers@.map_values(|w: &Walker| w.ast()),
                forall|i: int| 0 <= i < contract_walkers@.len() ==> (#[trigger] contract_walkers@[i]).wf(),
                props_match(props@, props_of(asts, j as int)),
                self@.contract_defs == contract_names(old_view.contract_defs, asts, j as int),
                self@.struct_defs == struct_names(old_view.struct_defs, asts, j as int),
                self.contracts@ == old(self).contracts@,
                self.states@ == old(self).states@,
            decreases contract_walkers@.len() - j,
        {
            let contract_walker = contract_walkers[j];
            let ghost c = asts[j as int];
            proof {
                Walker::lemma_wf_fields(*contract_walker);
                assert(c == contract_walker.ast());
            }
            let mut prop = ContractProp {
                id: contract_walker.node.id,
                states: Vec::new(),
                functions: Vec::new(),
                parents: Vec::new(),
            };
            let contract_name = attr_str_or_default(contract_walker.node.attributes, "name");
            let ghost before_defs = self.contract_defs@;
            let ghost contract_name_copy = contract_name;
            self.contract_defs.push((contract_name, contract_walker.node.id));
            assert(self.contract_defs@.drop_last() =~= before_defs);
            let children = contract_walker.node.children;
            proof {
                reveal_strlit("InheritanceSpecifier");
                reveal_strlit("UsingForDirective");
                reveal_strlit("FunctionDefinition");
                reveal_strlit("ModifierDefinition");
                reveal_strlit("VariableDeclaration");
                reveal_strlit("StructDefinition");
            }
            let mut k: usize = 0;
            while k < children.len()
                invariant
                    k <= children@.len(),
                    children@ == c.children@,
                    prop@ == prop_upto(c, k as int),
                    prop.id == c.id,
                    self.contract_defs@ == before_defs.push((contract_name_copy, c.id)),
                    self.contracts@ == old(self).contracts@,
                    self.states@ == old(self).states@,
                    self@.struct_defs == structs_upto(struct_names(old_view.struct_defs, asts, j as int), c, k as int),
                decreases children@.len() - k,
            {
                let child = &children[k];
                let name = child.name.as_str();
                proof {
                    reveal_strlit("InheritanceSpecifier");
                    reveal_strlit("UsingForDirective");
                    reveal_strlit("FunctionDefinition");
                    reveal_strlit("ModifierDefinition");
                    reveal_strlit("VariableDeclaration");
                    reveal_strlit("StructDefinition");
                    reveal_strlit("canonicalName");
                    assert("InheritanceSpecifier"@.len() != "StructDefinition"@.len());
                    assert("UsingForDirective"@.len() != "StructDefinition"@.len());
                    assert("FunctionDefinition"@[0] != "StructDefinition"@[0]);
                    assert("ModifierDefinition"@[0] != "StructDefinition"@[0]);
                    assert("VariableDeclaration"@.len() != "StructDefinition"@.len());
                }
                let ghost before_structs = self.struct_defs@;
                if str_eq(name, "InheritanceSpecifier") || str_eq(name, "UsingForDirective") {
                    if child.children.len() > 0 {
                        match attr_u32(&child.children[0].attributes, "referencedDeclaration") {
                            Some(reference) => prop.parents.push(reference),
                            None => {},
                        }
                    }
                } else if str_eq(name, "FunctionDefinition") || str_eq(name, "ModifierDefinition") {
                    prop.functions.push(child.id);
                } else if str_eq(name, "VariableDeclaration") {
                    prop.states.push(child.id);
                } else if str_eq(name, "StructDefinition") {
                    match attr_str(&child.attributes, "canonicalName") {
                        Some(struct_name) => {
                            let ghost before = self.struct_defs@;
                            self.struct_defs.push((struct_name, child.id));
                            assert(self.struct_defs@.drop_last() =~= before);
                        },
                        None => {},
                    }
                }
                assert(structs_upto(struct_names(old_view.struct_defs, asts, j as int), c, k + 1) == if child.name@ == "StructDefinition"@ {
                    match attr_str_of(child.attributes@, "canonicalName"@) {
                        Some(sn) => names_map(before_structs).insert(sn, child.id),
                        None => names_map(before_structs),
                    }
                } else {
                    names_map(before_structs)
                });
                k = k + 1;
            }
            let ghost pm_old = props_of(asts, j as int);
            let ghost pv = prop@;
            assert(pv == spec_prop(c));
            match find_prop(&props, prop.id) {
                Some(idx) => {
                    let ghost before = props@;
                    assert(before[idx as int].id == c.id);
                    assert(pv.id == c.id);
                    props.set(idx, prop);
                    proof {
                        let m = props_of(asts, j + 1);
                        assert(m == pm_old.insert(c.id, pv));
                        assert forall|a: int, b: int| 0 <= a < props@.len() && 0 <= b < props@.len() && a != b implies (#[trigger] props@[a]).id != (#[trigger] props@[b]).id by {
                            assert(before[a].id == props@[a].id);
                            assert(before[b].id == props@[b].id);
                        }
                        assert forall|a: int| 0 <= a < props@.len() implies m.contains_key((#[trigger] props@[a]).id) && m[props@[a].id] == props@[a]@ by {
                            if a != idx {
                                assert(before[a] == props@[a]);
                                assert(before[a].id != before[idx as int].id);
                            }
                        }
                        assert forall|k: u32| m.contains_key(k) implies exists|a: int| 0 <= a < props@.len() && (#[trigger] props@[a]).id == k by {
                            if k == c.id {
                                assert(props@[idx as int].id == k);
                            } else {
                                let a = choose|a: int| 0 <= a < before.len() && (#[trigger] before[a]).id == k;
                                assert(props@[a].id == k);
                            }
                        }
                    }
                },
                None => {
                    let ghost before = props@;
                    props.push(prop);
                    proof {
                        let m = props_of(asts, j + 1);
                        assert(m == pm_old.insert(c.id, pv));
                        assert(!pm_old.contains_key(c.id)) by {
                            if pm_old.contains_key(c.id) {
                                let a = choose|a: int| 0 <= a < before.len() && (#[trigger] before[a]).id == c.id;
                            }
                        }
                        assert forall|a: int, b: int| 0 <= a < props@.len() && 0 <= b < props@.len() && a != b implies (#[trigger] props@[a]).id != (#[trigger] props@[b]).id by {
                            if a < before.len() && b < before.len() {
                                assert(before[a] == props@[a]);
                                assert(before[b] == props@[b]);
                            } else if a < before.len() {
                                assert(before[a] == props@[a]);
                            } else {
                                assert(before[b] == props@[b]);
                            }
                        }
                        assert forall|a: int| 0 <= a < props@.len() implies m.contains_key((#[trigger] props@[a]).id) && m[props@[a].id] == props@[a]@ by {
                            if a < before.len() {
                                assert(before[a] == props@[a]);
                            }
                        }
                        assert forall|k: u32| m.contains_key(k) implies exists|a: int| 0 <= a < props@.len() && (#[trigger] props@[a]).id == k by {
                            if k == c.id {
                                assert(props@[before.len() as int].id == k);
                            } else {
                                let a = choose|a: int| 0 <= a < before.len() && (#[trigger] before[a]).id == k;
                                assert(props@[a].id == k);
                            }
                        }
                    }
                },
            }
            j = j + 1;
        }
        let n = contract_walkers.len();
        let ghost pm = props_of(asts, n as int);
        let mut i: usize = 0;
        while i < props.len()
            invariant
                n == contract_walkers@.len(),
                pm == props_of(asts, n as int),
                i <= props@.len(),
                props_match(props@, pm),
                self@.contract_defs == contract_names(old_view.contract_defs, asts, n as int),
                self@.struct_defs == struct_names(old_view.struct_defs, asts, n as int),
                self@.contracts == old_view.contracts.union_prefer_right(
                    Map::new(|k: u32| exists|l: int| 0 <= l < i && (#[trigger] props@[l]).id == k,
                        |k: u32| functions_of(pm, lineage(pm, k, n as nat)))),
                self@.states == old_view.states.union_prefer_right(
                    Map::new(|k: u32| exists|l: int| 0 <= l < i && (#[trigger] props@[l]).id == k,
                        |k: u32| states_of(pm, lineage(pm, k, n as nat)))),
            decreases props@.len() - i,
        {
            let id = props[i].id;
            let lin = lineage_of(&props, Ghost(pm), id, n);
            proof { lemma_lineage_in_dom(pm, id, n as nat); }
            let mut all_functions: Vec<u32> = Vec::new();
            let mut l: usize = 0;
            while l < lin.len()
                invariant
                    props_match(props@, pm),
                    l <= lin@.len(),
                    forall|x: int| 0 <= x < lin@.len() ==> pm.contains_key(#[trigger] lin@[x]),
                    all_functions@ == functions_of(pm, lin@.take(l as int)),
                decreases lin@.len() - l,
            {
                let idx = find_prop(&props, lin[l]).unwrap();
                let mut fs = copy_ids(&props[idx].functions);
                all_functions.append(&mut fs);
                assert(lin@.take(l + 1).drop_last() =~= lin@.take(l as int));
                l = l + 1;
            }
            assert(lin@.take(lin@.len() as int) =~= lin@);
            let mut all_states: Vec<u32> = Vec::new();
            let mut l: usize = lin.len();
            while l > 0
                invariant
                    props_match(props@, pm),
                    l <= lin@.len(),
                    forall|x: int| 0 <= x < lin@.len() ==> pm.contains_key(#[trigger] lin@[x]),
                    states_of(pm, lin@) == all_states@ + states_of(pm, lin@.take(l as int)),
                decreases l,
            {
                let idx = find_prop(&props, lin[l - 1]).unwrap();
                let mut ss = copy_ids(&props[idx].states);
                let ghost before = all_states@;
                all_states.append(&mut ss);
                assert(lin@.take(l as int).drop_last() =~= lin@.take(l - 1));
                assert(states_of(pm, lin@.take(l as int)) == props@[idx as int].states@ + states_of(pm, lin@.take(l - 1)));
                assert(all_states@ =~= before + props@[idx as int].states@);
                l = l - 1;
            }
            assert(lin@.take(0) =~= Seq::<u32>::empty());
            assert(all_states@ =~= states_of(pm, lin@));
            let ghost prev_c = self.contracts@;
            let ghost prev_s = self.states@;
            let ghost fv = all_functions@;
            let ghost sv = all_states@;
            self.contracts.insert(id, all_functions);
            self.states.insert(id, all_states);
            assert(seq_values(self.contracts@) =~= seq_values(prev_c).insert(id, fv));
            assert(seq_values(self.states@) =~= seq_values(prev_s).insert(id, sv));
            proof {
                assert(props@[i as int].id == id);
                assert(all_functions@ == functions_of(pm, lineage(pm, id, n as nat)));
                assert(all_states@ == states_of(pm, lineage(pm, id, n as nat)));
                let mc = Map::new(|k: u32| exists|l: int| 0 <= l < i + 1 && (#[trigger] props@[l]).id == k,
                        |k: u32| functions_of(pm, lineage(pm, k, n as nat)));
                assert(self@.contracts =~= old_view.contracts.union_prefer_right(mc)) by {
                    assert forall|k: u32| mc.contains_key(k) && k != id implies exists|l: int| 0 <= l < i && (#[trigger] props@[l]).id == k by {
                        let l = choose|l: int| 0 <= l < i + 1 && (#[trigger] props@[l]).id == k;
                    }
                }
                let ms = Map::new(|k: u32| exists|l: int| 0 <= l < i + 1 && (#[trigger] props@[l]).id == k,
                        |k: u32| states_of(pm, lineage(pm, k, n as nat)));
                assert(self@.states =~= old_view.states.union_prefer_right(ms)) by {
                    assert forall|k: u32| ms.contains_key(k) && k != id implies exists|l: int| 0 <= l < i && (#[trigger] props@[l]).id == k by {
                        let l = choose|l: int| 0 <= l < i + 1 && (#[trigger] props@[l]).id == k;
                    }
                }
            }
            i = i + 1;
        }
        proof {
            let mc = Map::new(|k: u32| pm.contains_key(k), |k: u32| functions_of(pm, lineage(pm, k, n as nat)));
            let mc2 = Map::new(|k: u32| exists|l: int| 0 <= l < props@.len() && (#[trigger] props@[l]).id == k,
                        |k: u32| functions_of(pm, lineage(pm, k, n as nat)));
            assert(mc =~= mc2);
            let ms = Map::new(|k: u32| pm.contains_key(k), |k: u32| states_of(pm, lineage(pm, k, n as nat)));
            let ms2 = Map::new(|k: u32| exists|l: int| 0 <= l < props@.len() && (#[trigger] props@[l]).id == k,
                        |k: u32| states_of(pm, lineage(pm, k, n as nat)));
            assert(ms =~= ms2);
        }
    }
}

proof fn lemma_props_of_last(asts: Seq<AstNode>, i: int, k: int)
    requires
        0 <= i < k <= asts.len(),
        forall|j: int| i < j < asts.len() ==> (#[trigger] asts[j]).id != asts[i].id,
    ensures
        props_of(asts, k).contains_key(asts[i].id),
        props_of(asts, k)[asts[i].id] == spec_prop(asts[i]),
    decreases k,
{
    if k - 1 > i {
        lemma_props_of_last(asts, i, k - 1);
    }
}

proof fn lemma_functions_of_first(props: Map<u32, PropView>, c: u32, rest: Seq<u32>)
    ensures
        functions_of(props, seq![c] + rest) == props[c].functions + functions_of(props, rest),
    decreases rest.len(),
{
    let s = seq![c] + rest;
    if rest.len() == 0 {
        assert(s.drop_last() =~= Seq::<u32>::empty());
        assert(s.last() == c);
        assert(functions_of(props, s.drop_last()) == Seq::<u32>::empty());
        assert(functions_of(props, rest) == Seq::<u32>::empty());
        assert(functions_of(props, s) =~= props[c].functions + functions_of(props, rest));
    } else {
        assert(s.drop_last() =~= seq![c] + rest.drop_last());
        assert(s.last() == rest.last());
        lemma_functions_of_first(props, c, rest.drop_last());
        assert(functions_of(props, s) =~= props[c].functions + functions_of(props, rest));
    }
}

proof fn lemma_states_of_first(props: Map<u32, PropView>, c: u32, rest: Seq<u32>)
    ensures
        states_of(props, seq![c] + rest) == states_of(props, rest) + props[c].states,
    decreases rest.len(),
{
    let s = seq![c] + rest;
    if rest.len() == 0 {
        assert(s.drop_last() =~= Seq::<u32>::empty());
        assert(s.last() == c);
        assert(states_of(props, s.drop_last()) == Seq::<u32>::empty());
        assert(states_of(props, rest) == Seq::<u32>::empty());
        assert(states_of(props, s) =~= states_of(props, rest) + props[c].states);
    } else {
        assert(s.drop_last() =~= seq![c] + rest.drop_last());
        assert(s.last() == rest.last());
        lemma_states_of_first(props, c, rest.drop_last());
        assert(states_of(props, s) =~= states_of(props, rest) + props[c].states);
    }
}

proof fn lemma_contract_names_last(m: Map<Seq<char>, u32>, asts: Seq<AstNode>, i: int, k: int)
    requires
        0 <= i < k <= asts.len(),
        forall|j: int| i < j < asts.len() ==> attr_str_or_empty((#[trigger] asts[j]).attributes@, "name"@)
            != attr_str_or_empty(asts[i].attributes@, "name"@),
    ensures
        contract_names(m, asts, k).contains_key(attr_str_or_empty(asts[i].attributes@, "name"@)),
        contract_names(m, asts, k)[attr_str_or_empty(asts[i].attributes@, "name"@)] == asts[i].id,
    decreases k,
{
    if k - 1 > i {
        lemma_contract_names_last(m, asts, i, k - 1);
    }
}

/// The ids of the children of a contract that declare state variables, in order.
pub open spec fn declared_states(contract: AstNode) -> Seq<u32> {
    contract.children@.filter(|c: AstNode| c.name@ == "VariableDeclaration"@).map_values(|c: AstNode| c.id)
}

/// The ids of the children of a contract that define functions or modifiers, in order.
pub open spec fn declared_functions(contract: AstNode) -> Seq<u32> {
    contract.children@.filter(|c: AstNode| c.name@ == "FunctionDefinition"@ || c.name@ == "ModifierDefinition"@)
        .map_values(|c: AstNode| c.id)
}

proof fn lemma_prop_upto_declared(contract: AstNode, k: int)
    requires
        0 <= k <= contract.children@.len(),
    ensures
        prop_upto(contract, k).id == contract.id,
        prop_upto(contract, k).states == contract.children@.take(k).filter(|c: AstNode| c.name@ == "VariableDeclaration"@)
            .map_values(|c: AstNode| c.id),
        prop_upto(contract, k).functions == contract.children@.take(k).filter(|c: AstNode| c.name@
            == "FunctionDefinition"@ || c.name@ == "ModifierDefinition"@).map_values(|c: AstNode| c.id),
    decreases k,
{
    reveal(Seq::filter);
    let fs = |c: AstNode| c.name@ == "VariableDeclaration"@;
    let ff = |c: AstNode| c.name@ == "FunctionDefinition"@ || c.name@ == "ModifierDefinition"@;
    if k == 0 {
        assert(contract.children@.take(0) =~= Seq::<AstNode>::empty());
        assert(Seq::<AstNode>::empty().filter(fs) =~= Seq::<AstNode>::empty());
        assert(Seq::<AstNode>::empty().filter(ff) =~= Seq::<AstNode>::empty());
    } else {
        lemma_prop_upto_declared(contract, k - 1);
        reveal_strlit("VariableDeclaration");
        reveal_strlit("FunctionDefinition");
        reveal_strlit("ModifierDefinition");
        reveal_strlit("InheritanceSpecifier");
        reveal_strlit("UsingForDirective");
        let t = contract.children@.take(k);
        let c = contract.children@[k - 1];
        assert(t.drop_last() =~= contract.children@.take(k - 1));
        assert(t.last() == c);
        let p0 = prop_upto(contract, k - 1);
        let a0 = contract.children@.take(k - 1).filter(fs);
        let b0 = contract.children@.take(k - 1).filter(ff);
        assert(t.filter(fs) == if fs(c) { a0.push(c) } else { a0 });
        assert(t.filter(ff) == if ff(c) { b0.push(c) } else { b0 });
        assert(a0.push(c).map_values(|c: AstNode| c.id) =~= a0.map_values(|c: AstNode| c.id).push(c.id));
        assert(b0.push(c).map_values(|c: AstNode| c.id) =~= b0.map_values(|c: AstNode| c.id).push(c.id));
        assert("InheritanceSpecifier"@.len() == 20);
        assert("UsingForDirective"@.len() == 17);
        assert("VariableDeclaration"@.len() == 19);
        assert("FunctionDefinition"@.len() == 18);
        assert("ModifierDefinition"@.len() == 18);
        if c.name@ == "InheritanceSpecifier"@ || c.name@ == "UsingForDirective"@ {
            assert(!fs(c) && !ff(c));
        } else if ff(c) {
            assert(!fs(c));
        }
    }
}

/// What a contract declares: its state variables are the ids of its
/// `VariableDeclaration` children, and its functions those of its function
/// and modifier definitions, each in the order they stand.
pub proof fn law_prop_declarations(contract: AstNode)
    ensures
        spec_prop(contract).id == contract.id,
        spec_prop(contract).states == declared_states(contract),
        spec_prop(contract).functions == declared_functions(contract),
{
    lemma_prop_upto_declared(contract, contract.children@.len() as int);
    assert(contract.children@.take(contract.children@.len() as int) =~= contract.children@);
}

/// After an update with the contract definitions `asts`, the contract
/// `asts[i]` (the last of its id) is found: the functions found for it begin
/// with its own function and modifier definitions, in order, and the state
/// variables found for it end with its own variable declarations, in order;
/// where no later contract has its name, its name finds it.
pub proof fn law_update_then_find(old: SmartContractView, asts: Seq<AstNode>, i: int, name: String)
    requires
        0 <= i < asts.len(),
        forall|j: int| i < j < asts.len() ==> (#[trigger] asts[j]).id != asts[i].id,
    ensures
        spec_find(updated(old, asts), SmartContractQuery::FunctionsByContractId(asts[i].id)) matches Some(fs)
            && spec_prop(asts[i]).functions.is_prefix_of(fs) && declared_functions(asts[i]).is_prefix_of(fs),
        spec_find(updated(old, asts), SmartContractQuery::StatesByContractId(asts[i].id)) matches Some(ss)
            && spec_prop(asts[i]).states.is_suffix_of(ss) && declared_states(asts[i]).is_suffix_of(ss),
        name@ == attr_str_or_empty(asts[i].attributes@, "name"@) && (forall|j: int| i < j < asts.len()
            ==> attr_str_or_empty((#[trigger] asts[j]).attributes@, "name"@) != name@)
            ==> spec_find(updated(old, asts), SmartContractQuery::ContractByName(name)) == Some(seq![asts[i].id]),
{
    law_prop_declarations(asts[i]);
    let n = asts.len() as int;
    let props = props_of(asts, n);
    let c = asts[i].id;
    lemma_props_of_last(asts, i, n);
    let rest = lineage_parents(props, props[c].parents, props[c].parents.len() as int, (n - 1) as nat);
    assert(lineage(props, c, n as nat) == seq![c] + rest);
    lemma_functions_of_first(props, c, rest);
    lemma_states_of_first(props, c, rest);
    let v = updated(old, asts);
    assert(v.contracts.contains_key(c));
    assert(v.contracts[c] == functions_of(props, lineage(props, c, n as nat)));
    assert(v.states[c] == states_of(props, lineage(props, c, n as nat)));
    let fs = v.contracts[c];
    assert(fs.subrange(0, spec_prop(asts[i]).functions.len() as int) =~= spec_prop(asts[i]).functions);
    let ss = v.states[c];
    let own = spec_prop(asts[i]).states;
    assert(ss.subrange(ss.len() - own.len(), ss.len() as int) =~= own);
    if name@ == attr_str_or_empty(asts[i].attributes@, "name"@) && (forall|j: int| i < j < asts.len()
        ==> attr_str_or_empty((#[trigger] asts[j]).attributes@, "name"@) != name@) {
        lemma_contract_names_last(old.contract_defs, asts, i, n);
    }
}

} // verus!
