//! Validating raw declarations into a node registry.
//!
//! A configuration declares sources, filters and output names.  The
//! builder checks the declarations for integrity — no duplicate names,
//! no unknown references, no empty required set — and indexes them into
//! an arena of nodes addressed by integer position: first the sources,
//! in declared order, then the filters.

use vstd::prelude::*;

use crate::entry::Predicate;

verus! {

/// A raw source declaration: a name and a fetch locator.
pub struct SourceDecl {
    pub name: String,
    pub url: String,
}

/// A raw filter declaration: a name, the names of its inputs, in order,
/// and one predicate.
pub struct FilterDecl {
    pub name: String,
    pub inputs: Vec<String>,
    pub predicate: Predicate,
}

/// Which required set was empty.
#[derive(Debug)]
pub enum SetKind {
    Sources,
    FilterInputs,
    Outputs,
}

/// Who made an unresolvable reference: a filter's input list, or the
/// declared output list.
#[derive(Debug)]
pub enum Referrer {
    Filter(String),
    Output,
}

/// A configuration-integrity fault, detected entirely during graph
/// building, before any resolution pass runs.
#[derive(Debug)]
pub enum ConfigIntegrityError {
    /// A name is declared more than once across sources and filters.
    DuplicateName { name: String },
    /// A filter input or an output name matches no declared node.
    UnknownReference { referrer: Referrer, missing: String },
    /// The sources, some filter's input list, or the outputs are empty.
    EmptySet { kind: SetKind },
}

/// What one node is: a leaf source with a fetch locator, or a filter
/// with its dependencies as indices into the registry and a predicate.
pub enum NodeKind {
    Source { url: String },
    Filter { inputs: Vec<usize>, predicate: Predicate },
}

/// One registry node.
pub struct Node {
    pub name: String,
    pub kind: NodeKind,
}

/// The validated registry: an arena of nodes, and the declared outputs
/// as indices into it.
pub struct Graph {
    pub nodes: Vec<Node>,
    pub outputs: Vec<usize>,
}

impl Graph {
    /// Node `i` is a filter.
    pub open spec fn is_filter(self, i: int) -> bool {
        self.nodes@[i].kind is Filter
    }

    /// Node `i` is a source.
    pub open spec fn is_source(self, i: int) -> bool {
        self.nodes@[i].kind is Source
    }

    /// The dependency indices of filter `i`.
    pub open spec fn inputs_of(self, i: int) -> Seq<usize> {
        self.nodes@[i].kind->inputs@
    }

    /// The predicate of filter `i`.
    pub open spec fn predicate_of(self, i: int) -> Predicate {
        self.nodes@[i].kind->predicate
    }

    /// Node `b` is a declared dependency of filter `a`.
    pub open spec fn edge(self, a: int, b: int) -> bool {
        &&& 0 <= a < self.nodes@.len()
        &&& self.is_filter(a)
        &&& exists|j: int| 0 <= j < self.inputs_of(a).len() && self.inputs_of(a)[j] == b
    }

    /// Node `i` is one of the declared outputs.
    pub open spec fn is_output_node(self, i: int) -> bool {
        exists|k: int| 0 <= k < self.outputs@.len() && self.outputs@[k] == i
    }

    /// Registry well-formedness: names are unique, every dependency and
    /// output index lands in the arena, every filter has at least one
    /// input, and at least one output is declared.
    pub open spec fn wf(self) -> bool {
        &&& forall|i: int, j: int|
            0 <= i < j < self.nodes@.len() ==> self.nodes@[i].name@ != self.nodes@[j].name@
        &&& forall|i: int|
            0 <= i < self.nodes@.len() && self.is_filter(i) ==> {
                &&& self.inputs_of(i).len() > 0
                &&& forall|j: int|
                    0 <= j < self.inputs_of(i).len() ==> (#[trigger] self.inputs_of(i)[j])
                        < self.nodes@.len()
            }
        &&& forall|k: int|
            0 <= k < self.outputs@.len() ==> (#[trigger] self.outputs@[k]) < self.nodes@.len()
        &&& self.outputs@.len() > 0
    }
}

/// How many names the declarations hold, sources and filters combined.
pub open spec fn decl_count(sources: Seq<SourceDecl>, filters: Seq<FilterDecl>) -> int {
    sources.len() + filters.len() as int
}

/// The `i`-th declared name, counting sources first, then filters.
pub open spec fn declared_name(
    sources: Seq<SourceDecl>,
    filters: Seq<FilterDecl>,
    i: int,
) -> Seq<char> {
    if i < sources.len() {
        sources[i].name@
    } else {
        filters[i - sources.len()].name@
    }
}

/// Some name is declared twice across sources and filters.
pub open spec fn has_duplicate_name(sources: Seq<SourceDecl>, filters: Seq<FilterDecl>) -> bool {
    exists|i: int, j: int|
        0 <= i < j < decl_count(sources, filters) && declared_name(sources, filters, i)
            == declared_name(sources, filters, j)
}

/// `name` matches some declared source or filter.
pub open spec fn is_declared(
    sources: Seq<SourceDecl>,
    filters: Seq<FilterDecl>,
    name: Seq<char>,
) -> bool {
    exists|i: int|
        0 <= i < decl_count(sources, filters) && declared_name(sources, filters, i) == name
}

/// Some filter declares an empty input list.
pub open spec fn has_empty_filter_input(filters: Seq<FilterDecl>) -> bool {
    exists|f: int| 0 <= f < filters.len() && (#[trigger] filters[f].inputs@).len() == 0
}

/// Some filter input names no declared node.
pub open spec fn has_unknown_filter_input(
    sources: Seq<SourceDecl>,
    filters: Seq<FilterDecl>,
) -> bool {
    exists|f: int, k: int|
        0 <= f < filters.len() && 0 <= k < filters[f].inputs@.len() && !is_declared(
            sources,
            filters,
            (#[trigger] filters[f].inputs@[k])@,
        )
}

/// Some output names no declared node.
pub open spec fn has_unknown_output(
    sources: Seq<SourceDecl>,
    filters: Seq<FilterDecl>,
    outputs: Seq<String>,
) -> bool {
    exists|k: int|
        0 <= k < outputs.len() && !is_declared(sources, filters, (#[trigger] outputs[k])@)
}

/// The first `sources.len()` registry nodes carry the source
/// declarations, in order.
pub open spec fn source_nodes_match(sources: Seq<SourceDecl>, nodes: Seq<Node>) -> bool {
    forall|i: int|
        0 <= i < sources.len() ==> {
            &&& (#[trigger] nodes[i]).name@ == sources[i].name@
            &&& (nodes[i].kind matches NodeKind::Source { url } && url@ == sources[i].url@)
        }
}

/// Registry node `node` carries filter declaration `f`: the same name
/// and predicate, and its input names resolved to declaration indices.
pub open spec fn filter_node_matches(
    sources: Seq<SourceDecl>,
    filters: Seq<FilterDecl>,
    f: int,
    node: Node,
) -> bool {
    &&& node.name@ == filters[f].name@
    &&& (node.kind matches NodeKind::Filter { inputs, predicate } && predicate@
        == filters[f].predicate@ && inputs@.len() == filters[f].inputs@.len() && (forall|k: int|
        0 <= k < inputs@.len() ==> (#[trigger] inputs@[k]) < decl_count(sources, filters)
            && declared_name(sources, filters, inputs@[k] as int) == filters[f].inputs@[k]@))
}

/// The registry indexes the declarations: sources first, then filters,
/// and the outputs resolved to declaration indices.
pub open spec fn registry_matches(
    sources: Seq<SourceDecl>,
    filters: Seq<FilterDecl>,
    outputs: Seq<String>,
    g: Graph,
) -> bool {
    &&& g.nodes@.len() == decl_count(sources, filters)
    &&& source_nodes_match(sources, g.nodes@)
    &&& forall|f: int|
        0 <= f < filters.len() ==> filter_node_matches(
            sources,
            filters,
            f,
            #[trigger] g.nodes@[sources.len() + f],
        )
    &&& g.outputs@.len() == outputs.len()
    &&& forall|k: int|
        0 <= k < outputs.len() ==> (#[trigger] g.outputs@[k]) < decl_count(sources, filters)
            && declared_name(sources, filters, g.outputs@[k] as int) == outputs[k]@
}

/// Which error the builder reports, honoring its fixed check order:
/// empty sources, an empty filter-input list, empty outputs, a duplicate
/// name, then an unresolvable reference (filter inputs before outputs).
pub open spec fn error_reported(
    sources: Seq<SourceDecl>,
    filters: Seq<FilterDecl>,
    outputs: Seq<String>,
    e: ConfigIntegrityError,
) -> bool {
    if sources.len() == 0 {
        e == (ConfigIntegrityError::EmptySet { kind: SetKind::Sources })
    } else if has_empty_filter_input(filters) {
        e == (ConfigIntegrityError::EmptySet { kind: SetKind::FilterInputs })
    } else if outputs.len() == 0 {
        e == (ConfigIntegrityError::EmptySet { kind: SetKind::Outputs })
    } else if has_duplicate_name(sources, filters) {
        e matches ConfigIntegrityError::DuplicateName { name } && (exists|i: int, j: int|
            0 <= i < j < decl_count(sources, filters) && declared_name(sources, filters, i)
                == name@ && declared_name(sources, filters, j) == name@)
    } else if has_unknown_filter_input(sources, filters) {
        e matches ConfigIntegrityError::UnknownReference { referrer, missing } && (referrer matches
        Referrer::Filter(fname) && (exists|f: int, k: int|
            0 <= f < filters.len() && 0 <= k < filters[f].inputs@.len() && (#[trigger] filters[f].inputs@[k])@
                == missing@ && filters[f].name@ == fname@)) && !is_declared(
            sources,
            filters,
            missing@,
        )
    } else if has_unknown_output(sources, filters, outputs) {
        e matches ConfigIntegrityError::UnknownReference { referrer, missing } && referrer matches
            Referrer::Output && (exists|k: int|
            0 <= k < outputs.len() && (#[trigger] outputs[k])@ == missing@) && !is_declared(
            sources,
            filters,
            missing@,
        )
    } else {
        false
    }
}

/// The declarations pass every integrity check.
pub open spec fn config_valid(
    sources: Seq<SourceDecl>,
    filters: Seq<FilterDecl>,
    outputs: Seq<String>,
) -> bool {
    &&& sources.len() > 0
    &&& !has_empty_filter_input(filters)
    &&& outputs.len() > 0
    &&& !has_duplicate_name(sources, filters)
    &&& !has_unknown_filter_input(sources, filters)
    &&& !has_unknown_output(sources, filters, outputs)
}

/// The `i`-th declared name, counting sources first, then filters.
fn decl_name_at<'a>(sources: &'a Vec<SourceDecl>, filters: &'a Vec<FilterDecl>, i: usize) -> (r:
    &'a String)
    requires
        i < decl_count(sources@, filters@),
    ensures
        r@ == declared_name(sources@, filters@, i as int),
{
    let ns = sources.len();
    if i < ns {
        &sources[i].name
    } else {
        &filters[i - ns].name
    }
}

/// Looks `name` up among the declared sources and filters and returns
/// its declaration index.
fn find_decl(sources: &Vec<SourceDecl>, filters: &Vec<FilterDecl>, name: &String) -> (r: Option<
    usize,
>)
    requires
        decl_count(sources@, filters@) <= usize::MAX,
    ensures
        match r {
            Some(i) => i < decl_count(sources@, filters@) && declared_name(
                sources@,
                filters@,
                i as int,
            ) == name@,
            None => !is_declared(sources@, filters@, name@),
        },
{
    let ns = sources.len();
    let nf = filters.len();
    let mut i: usize = 0;
    while i < ns
        invariant
            ns == sources@.len(),
            i <= ns,
            forall|i2: int| 0 <= i2 < i ==> (#[trigger] sources@[i2]).name@ != name@,
        decreases ns - i,
    {
        if sources[i].name == *name {
            return Some(i);
        }
        i += 1;
    }
    let mut f: usize = 0;
    while f < nf
        invariant
            ns == sources@.len(),
            nf == filters@.len(),
            ns + nf <= usize::MAX,
            f <= nf,
            forall|i2: int| 0 <= i2 < ns ==> (#[trigger] sources@[i2]).name@ != name@,
            forall|f2: int| 0 <= f2 < f ==> (#[trigger] filters@[f2]).name@ != name@,
        decreases nf - f,
    {
        if filters[f].name == *name {
            return Some(ns + f);
        }
        f += 1;
    }
    assert(forall|i2: int|
        0 <= i2 < decl_count(sources@, filters@) ==> declared_name(sources@, filters@, i2)
            != name@);
    None
}

/// Validates the raw declarations and indexes them into a registry.
///
/// Fails with `EmptySet` if the sources, a filter's input list, or the
/// outputs are empty; with `DuplicateName` if a name is declared twice
/// across sources and filters; and with `UnknownReference` if a filter
/// input or an output matches no declared name.  Pure validation: no
/// side effect beyond the returned registry or error.
#[verifier::loop_isolation(false)]
pub fn build_graph(sources: &Vec<SourceDecl>, filters: &Vec<FilterDecl>, outputs: &Vec<String>) -> (r:
    Result<Graph, ConfigIntegrityError>)
    requires
        decl_count(sources@, filters@) <= usize::MAX,
    ensures
        (r is Ok) == config_valid(sources@, filters@, outputs@),
        (r matches Ok(g) ==> g.wf() && registry_matches(sources@, filters@, outputs@, g)),
        (r matches Err(e) ==> error_reported(sources@, filters@, outputs@, e)),
{
    let ns = sources.len();
    let nf = filters.len();
    if ns == 0 {
        return Err(ConfigIntegrityError::EmptySet { kind: SetKind::Sources });
    }
    let mut f: usize = 0;
    while f < nf
        invariant
            nf == filters@.len(),
            f <= nf,
            forall|f2: int| 0 <= f2 < f ==> (#[trigger] filters@[f2]).inputs@.len() != 0,
        decreases nf - f,
    {
        if filters[f].inputs.len() == 0 {
            assert(has_empty_filter_input(filters@));
            return Err(ConfigIntegrityError::EmptySet { kind: SetKind::FilterInputs });
        }
        f += 1;
    }
    if outputs.len() == 0 {
        return Err(ConfigIntegrityError::EmptySet { kind: SetKind::Outputs });
    }
    let total = ns + nf;
    let mut j: usize = 1;
    while j < total
        invariant
            ns == sources@.len(),
            nf == filters@.len(),
            total == ns + nf,
            1 <= j <= total,
            forall|i2: int, j2: int|
                0 <= i2 < j2 < j ==> declared_name(sources@, filters@, i2) != declared_name(
                    sources@,
                    filters@,
                    j2,
                ),
        decreases total - j,
    {
        let nj = decl_name_at(sources, filters, j);
        let mut i: usize = 0;
        while i < j
            invariant
                ns == sources@.len(),
                nf == filters@.len(),
                total == ns + nf,
                1 <= j < total,
                i <= j,
                nj@ == declared_name(sources@, filters@, j as int),
                forall|i2: int|
                    0 <= i2 < i ==> declared_name(sources@, filters@, i2) != declared_name(
                        sources@,
                        filters@,
                        j as int,
                    ),
            decreases j - i,
        {
            let ni = decl_name_at(sources, filters, i);
            if *ni == *nj {
                assert(declared_name(sources@, filters@, i as int) == declared_name(
                    sources@,
                    filters@,
                    j as int,
                ));
                assert(has_duplicate_name(sources@, filters@));
                return Err(ConfigIntegrityError::DuplicateName { name: nj.clone() });
            }
            i += 1;
        }
        j += 1;
    }
    let mut nodes: Vec<Node> = Vec::new();
    let mut s: usize = 0;
    while s < ns
        invariant
            ns == sources@.len(),
            s <= ns,
            nodes@.len() == s,
            source_nodes_match(sources@.take(s as int), nodes@),
        decreases ns - s,
    {
        let sd = &sources[s];
        nodes.push(Node { name: sd.name.clone(), kind: NodeKind::Source { url: sd.url.clone() } });
        s += 1;
    }
    assert(sources@.take(ns as int) =~= sources@);
    let mut f: usize = 0;
    while f < nf
        invariant
            ns == sources@.len(),
            nf == filters@.len(),
            ns + nf <= usize::MAX,
            f <= nf,
            nodes@.len() == ns + f,
            source_nodes_match(sources@, nodes@),
            forall|f2: int|
                0 <= f2 < f ==> filter_node_matches(
                    sources@,
                    filters@,
                    f2,
                    #[trigger] nodes@[sources@.len() + f2],
                ),
            forall|f2: int, k: int|
                0 <= f2 < f && 0 <= k < filters@[f2].inputs@.len() ==> is_declared(
                    sources@,
                    filters@,
                    (#[trigger] filters@[f2].inputs@[k])@,
                ),
        decreases nf - f,
    {
        let fd = &filters[f];
        let num_inputs = fd.inputs.len();
        let mut inputs: Vec<usize> = Vec::new();
        let mut k: usize = 0;
        while k < num_inputs
            invariant
                ns == sources@.len(),
                nf == filters@.len(),
                ns + nf <= usize::MAX,
                f < nf,
                fd == filters@[f as int],
                num_inputs == fd.inputs@.len(),
                k <= num_inputs,
                inputs@.len() == k,
                forall|k2: int|
                    0 <= k2 < k ==> (#[trigger] inputs@[k2]) < decl_count(sources@, filters@)
                        && declared_name(sources@, filters@, inputs@[k2] as int)
                        == fd.inputs@[k2]@,
            decreases num_inputs - k,
        {
            match find_decl(sources, filters, &fd.inputs[k]) {
                Some(i) => inputs.push(i),
                None => {
                    assert(!is_declared(
                        sources@,
                        filters@,
                        (filters@[f as int].inputs@[k as int])@,
                    ));
                    assert(has_unknown_filter_input(sources@, filters@));
                    return Err(
                        ConfigIntegrityError::UnknownReference {
                            referrer: Referrer::Filter(fd.name.clone()),
                            missing: fd.inputs[k].clone(),
                        },
                    );
                },
            }
            k += 1;
        }
        proof {
            assert forall|k2: int| 0 <= k2 < filters@[f as int].inputs@.len() implies is_declared(
                sources@,
                filters@,
                (filters@[f as int].inputs@[k2])@,
            ) by {
                assert((#[trigger] inputs@[k2]) < decl_count(sources@, filters@) && declared_name(
                    sources@,
                    filters@,
                    inputs@[k2] as int,
                ) == fd.inputs@[k2]@);
            }
        }
        nodes.push(
            Node {
                name: fd.name.clone(),
                kind: NodeKind::Filter { inputs, predicate: fd.predicate.clone() },
            },
        );
        f += 1;
    }
    let mut outs: Vec<usize> = Vec::new();
    let mut k: usize = 0;
    let num_outputs = outputs.len();
    while k < num_outputs
        invariant
            ns == sources@.len(),
            nf == filters@.len(),
            ns + nf <= usize::MAX,
            num_outputs == outputs@.len(),
            k <= num_outputs,
            outs@.len() == k,
            forall|f2: int, k2: int|
                0 <= f2 < nf && 0 <= k2 < filters@[f2].inputs@.len() ==> is_declared(
                    sources@,
                    filters@,
                    (#[trigger] filters@[f2].inputs@[k2])@,
                ),
            forall|k2: int|
                0 <= k2 < k ==> (#[trigger] outs@[k2]) < decl_count(sources@, filters@)
                    && declared_name(sources@, filters@, outs@[k2] as int) == outputs@[k2]@,
        decreases num_outputs - k,
    {
        match find_decl(sources, filters, &outputs[k]) {
            Some(i) => outs.push(i),
            None => {
                assert(!is_declared(sources@, filters@, (outputs@[k as int])@));
                assert(has_unknown_output(sources@, filters@, outputs@));
                return Err(
                    ConfigIntegrityError::UnknownReference {
                        referrer: Referrer::Output,
                        missing: outputs[k].clone(),
                    },
                );
            },
        }
        k += 1;
    }
    let g = Graph { nodes, outputs: outs };
    proof {
        assert forall|i: int| 0 <= i < g.nodes@.len() implies (#[trigger] g.nodes@[i]).name@
            == declared_name(sources@, filters@, i) by {
            if i < ns {
                assert(source_nodes_match(sources@, g.nodes@));
            } else {
                assert(filter_node_matches(
                    sources@,
                    filters@,
                    i - ns,
                    g.nodes@[sources@.len() + (i - ns)],
                ));
            }
        }
        assert forall|i: int|
            0 <= i < g.nodes@.len() && g.is_filter(i) implies g.inputs_of(i).len() > 0 && (forall|
            j2: int,
        |
            0 <= j2 < g.inputs_of(i).len() ==> (#[trigger] g.inputs_of(i)[j2])
                < g.nodes@.len()) by {
            if i < ns {
                assert(source_nodes_match(sources@, g.nodes@));
                assert(g.nodes@[i].kind is Source);
            } else {
                assert(filter_node_matches(
                    sources@,
                    filters@,
                    i - ns,
                    g.nodes@[sources@.len() + (i - ns)],
                ));
                assert(filter_node_matches(sources@, filters@, i - ns, g.nodes@[i]));
                assert(filters@[i - ns].inputs@.len() != 0);
            }
        }
        assert(!has_empty_filter_input(filters@)) by {
            if has_empty_filter_input(filters@) {
                let f0 = choose|f0: int|
                    0 <= f0 < filters@.len() && (#[trigger] filters@[f0].inputs@).len() == 0;
                assert(filters@[f0].inputs@.len() != 0);
            }
        }
        assert forall|k2: int| 0 <= k2 < outputs@.len() implies is_declared(
            sources@,
            filters@,
            (#[trigger] outputs@[k2])@,
        ) by {
            assert((#[trigger] outs@[k2]) < decl_count(sources@, filters@) && declared_name(
                sources@,
                filters@,
                outs@[k2] as int,
            ) == outputs@[k2]@);
        }
    }
    Ok(g)
}

} // verus!
