//! Product structure: product definitions and the assembly usages that
//! nest them.
//!
//! Built from the entity graph alone. See [`ProductStructure`] for the
//! rules. Quantities are kept as the `#id` of the measure that gives them;
//! reading a measure's number is left to the caller.
use vstd::prelude::*;
use vstd::string::*;
use crate::assemble::{first_record, id_of, nodes_of, points_at};
use crate::info::{option_view, records_are, upper_name};
use crate::lint::{first_rec, rec_named, ref_param};
use crate::model::graph::Graph;
use crate::p21::exchange::Record;
use crate::p21::lexer::Token;
use crate::props::{literal_text, param_view, starts_with_text, ParamView};

verus! {

/// The product structure of a file: its product definitions and the
/// assembly usages that nest them.
///
/// * A product definition is a `PRODUCT_DEFINITION`, or whatever an
///   assembly usage names as a parent or child.
/// * An assembly usage is a `NEXT_ASSEMBLY_USAGE_OCCURRENCE` or a
///   `QUANTIFIED_ASSEMBLY_COMPONENT_USAGE`, simple or complex. Its relating
///   and related definitions decide parent and child — never the direction
///   of a shape relationship, which real files reverse.
/// * A placement is found in one of two ways, and identified, never
///   evaluated:
///   - a `CONTEXT_DEPENDENT_SHAPE_REPRESENTATION` ties the usage to a
///     representation relationship and its transformation;
///   - otherwise, a `MAPPED_ITEM` in the assembly's shape representation
///     maps the component's shape through a `REPRESENTATION_MAP`. Mapped
///     items say which component they place but not which usage, so they
///     are matched to that component's usages in file order, and only when
///     there are exactly as many mapped items as usages.
#[derive(Debug, Clone, PartialEq, Eq)]
pub struct ProductStructure {
    definitions: Vec<Definition>,
    usages: Vec<Usage>,
    roots: Vec<usize>,
    children: Vec<Vec<usize>>,
}

/// A product definition: one view (usually the design view) of a product
/// version.
#[derive(Debug, Clone, PartialEq, Eq)]
pub struct Definition {
    /// The `#id` of the definition instance.
    pub instance: u64,
    /// Its upper-cased entity type, such as `PRODUCT_DEFINITION`.
    pub entity: String,
    /// `PRODUCT_DEFINITION.id`.
    pub id: Option<String>,
    /// `PRODUCT_DEFINITION.description`.
    pub description: Option<String>,
    /// `PRODUCT_DEFINITION_FORMATION.id`, usually a version.
    pub version: Option<String>,
    /// The product defined.
    pub product: Option<Product>,
    /// `#id`s of the shape representations attached through
    /// `PRODUCT_DEFINITION_SHAPE` and `SHAPE_DEFINITION_REPRESENTATION`.
    pub shape_representations: Vec<u64>,
}

/// A `PRODUCT`.
#[derive(Debug, Clone, PartialEq, Eq)]
pub struct Product {
    /// The `#id` of the `PRODUCT` instance.
    pub instance: u64,
    /// `PRODUCT.id`, often a part number.
    pub id: Option<String>,
    /// `PRODUCT.name`.
    pub name: Option<String>,
    /// `PRODUCT.description`.
    pub description: Option<String>,
}

/// The kind of an assembly usage.
#[derive(Debug, Clone, Copy, PartialEq, Eq, Structural)]
pub enum UsageKind {
    /// `NEXT_ASSEMBLY_USAGE_OCCURRENCE`: one placed occurrence.
    NextAssemblyUsageOccurrence,
    /// `QUANTIFIED_ASSEMBLY_COMPONENT_USAGE`, possibly combined with the
    /// above: a usage with an explicit quantity.
    QuantifiedAssemblyComponentUsage,
}

/// One use of a component definition inside an assembly definition.
#[derive(Debug, Clone, PartialEq, Eq)]
pub struct Usage {
    /// The `#id` of the usage instance.
    pub instance: u64,
    /// Which kind of usage.
    pub kind: UsageKind,
    /// The usage's `id` attribute.
    pub id: Option<String>,
    /// The usage's `name` attribute, often an instance name.
    pub name: Option<String>,
    /// The usage's `description` attribute.
    pub description: Option<String>,
    /// `reference_designator`, such as `R12`.
    pub reference_designator: Option<String>,
    /// The assembly: an index into [`ProductStructure::definitions`].
    pub parent: usize,
    /// The component: an index into [`ProductStructure::definitions`].
    pub child: usize,
    /// The `#id` of the `MEASURE_WITH_UNIT` that gives the quantity of a
    /// quantified usage; `None` means one occurrence.
    pub quantity: Option<u64>,
    /// The entities that place the component, if any.
    pub placement: Option<Placement>,
}

/// The entities that place a component in its assembly. Identified only;
/// no transformation is evaluated.
#[derive(Debug, Clone, Copy, PartialEq, Eq, Structural)]
pub enum Placement {
    /// A `CONTEXT_DEPENDENT_SHAPE_REPRESENTATION` ties the usage to a
    /// representation relationship between the component's and the
    /// assembly's shapes.
    ShapeRelationship {
        /// The `#id` of the `CONTEXT_DEPENDENT_SHAPE_REPRESENTATION`.
        context_dependent_shape_representation: u64,
        /// The `#id` of the representation relationship it names.
        relationship: u64,
        /// The `#id` of the transformation, typically an
        /// `ITEM_DEFINED_TRANSFORMATION`.
        transformation: Option<u64>,
        /// `Some(true)` if the relationship names the assembly's shape as
        /// `rep_1` and the component's as `rep_2`, the reverse of the usual
        /// order; `None` if neither side could be matched to a shape.
        reversed: Option<bool>,
    },
    /// A `MAPPED_ITEM` in the assembly's shape representation maps the
    /// component's shape through a `REPRESENTATION_MAP`.
    MappedItem {
        /// The `#id` of the `MAPPED_ITEM`.
        mapped_item: u64,
        /// The `#id` of its `REPRESENTATION_MAP`.
        representation_map: u64,
        /// The `#id` of the map's `mapping_origin`.
        origin: Option<u64>,
        /// The `#id` of the item's `mapping_target`.
        target: Option<u64>,
    },
}

impl Placement {
    /// For a shape relationship, whether `rep_1` and `rep_2` are reversed;
    /// `None` for a mapped item, which has no direction to get wrong.
    pub fn reversed(&self) -> (r: Option<bool>)
        ensures
            r == (match *self {
                Placement::ShapeRelationship { reversed, .. } => reversed,
                Placement::MappedItem { .. } => None,
            }),
    {
        match self {
            Placement::ShapeRelationship { reversed, .. } => *reversed,
            Placement::MappedItem { .. } => None,
        }
    }
}

// ---------------------------------------------------------------------
// Views.
// ---------------------------------------------------------------------

/// A [`Product`] as plain values.
pub struct ProductView {
    pub instance: u64,
    pub id: Option<Seq<char>>,
    pub name: Option<Seq<char>>,
    pub description: Option<Seq<char>>,
}

impl View for Product {
    type V = ProductView;

    open spec fn view(&self) -> ProductView {
        ProductView {
            instance: self.instance,
            id: option_view(self.id),
            name: option_view(self.name),
            description: option_view(self.description),
        }
    }
}

/// A [`Definition`] as plain values.
pub struct DefinitionView {
    pub instance: u64,
    pub entity: Seq<char>,
    pub id: Option<Seq<char>>,
    pub description: Option<Seq<char>>,
    pub version: Option<Seq<char>>,
    pub product: Option<ProductView>,
    pub shape_representations: Seq<u64>,
}

impl View for Definition {
    type V = DefinitionView;

    open spec fn view(&self) -> DefinitionView {
        DefinitionView {
            instance: self.instance,
            entity: self.entity@,
            id: option_view(self.id),
            description: option_view(self.description),
            version: option_view(self.version),
            product: match self.product {
                Some(p) => Some(p@),
                None => None,
            },
            shape_representations: self.shape_representations@,
        }
    }
}

/// A [`Usage`] as plain values.
pub struct UsageView {
    pub instance: u64,
    pub kind: UsageKind,
    pub id: Option<Seq<char>>,
    pub name: Option<Seq<char>>,
    pub description: Option<Seq<char>>,
    pub reference_designator: Option<Seq<char>>,
    pub parent: usize,
    pub child: usize,
    pub quantity: Option<u64>,
    pub placement: Option<Placement>,
}

impl View for Usage {
    type V = UsageView;

    open spec fn view(&self) -> UsageView {
        UsageView {
            instance: self.instance,
            kind: self.kind,
            id: option_view(self.id),
            name: option_view(self.name),
            description: option_view(self.description),
            reference_designator: option_view(self.reference_designator),
            parent: self.parent,
            child: self.child,
            quantity: self.quantity,
            placement: self.placement,
        }
    }
}

/// The views of `v`.
pub open spec fn definition_views(v: Seq<Definition>) -> Seq<DefinitionView> {
    v.map_values(|d: Definition| d@)
}

/// The views of `v`.
pub open spec fn usage_views(v: Seq<Usage>) -> Seq<UsageView> {
    v.map_values(|u: Usage| u@)
}

// ---------------------------------------------------------------------
// Definitions.
// ---------------------------------------------------------------------

/// The record of `recs` named `name`, or else the first.
pub open spec fn primary(src: Seq<u8>, recs: Seq<(Token, Seq<Token>)>, name: &str) -> Option<int> {
    match first_rec(src, recs, name, 0) {
        Some(k) => Some(k),
        None => if recs.len() > 0 {
            Some(0int)
        } else {
            None
        },
    }
}

/// The records of node `n`.
pub open spec fn recs_of(g: Graph, n: int) -> Seq<(Token, Seq<Token>)> {
    g.exchange_view().records_view(g.exchange_view().instances_view()[n])
}

/// The node of `#id`, if the file defines it.
pub open spec fn node_of(g: Graph, id: u64) -> Option<usize> {
    if g.exchange_view().index_view().contains_key(id) {
        Some(g.exchange_view().index_view()[id])
    } else {
        None
    }
}

/// A string attribute: parameter `i` of `ts` decoded (or as written, if a
/// directive is malformed); `None` if unset, not a string, or blank.
pub open spec fn text_of(src: Seq<u8>, ts: Seq<Token>, i: nat) -> Option<Seq<char>> {
    crate::info::text_of(src, ts, i)
}

/// The `#id` attribute `i` of `ts` refers to.
pub open spec fn reference(ts: Seq<Token>, i: nat) -> Option<u64> {
    ref_param(ts, i)
}

/// The representation that the shape definition representations among
/// `links` give for the shape `#shape`, in order.
pub open spec fn link_reps(g: Graph, links: Seq<usize>, shape: u64) -> Seq<u64>
    decreases links.len(),
{
    if links.len() == 0 {
        Seq::empty()
    } else {
        let x = links.last();
        link_reps(g, links.drop_last(), shape) + if points_at(g, x as int, "SHAPE_DEFINITION_REPRESENTATION", 0, shape) {
            match first_record(g, x as int) {
                Some(r) => match reference(r.1, 1) {
                    Some(rep) => seq![rep],
                    None => Seq::empty(),
                },
                None => Seq::empty(),
            }
        } else {
            Seq::empty()
        }
    }
}

/// The shape representations attached to the definition `#def` through
/// the product definition shapes among `shapes`, in order.
pub open spec fn shape_reps_among(g: Graph, shapes: Seq<usize>, def: u64) -> Seq<u64>
    decreases shapes.len(),
{
    if shapes.len() == 0 {
        Seq::empty()
    } else {
        let x = shapes.last();
        shape_reps_among(g, shapes.drop_last(), def) + if points_at(g, x as int, "PRODUCT_DEFINITION_SHAPE", 2, def) {
            link_reps(g, g.backward_view()[x as int], id_of(g, x as int))
        } else {
            Seq::empty()
        }
    }
}

/// The shape representations attached to the definition at node `n`:
/// `SHAPE_DEFINITION_REPRESENTATION(PRODUCT_DEFINITION_SHAPE(.., def), rep)`.
pub open spec fn shape_reps(g: Graph, n: int) -> Seq<u64> {
    shape_reps_among(g, g.backward_view()[n], id_of(g, n))
}

/// The product that the formation with records `frecs` names.
pub open spec fn product_of(g: Graph, formation: (Token, Seq<Token>)) -> Option<ProductView> {
    let src = g.exchange_view().src_view();
    match reference(formation.1, 2) {
        Some(pid) => match node_of(g, pid) {
            Some(pn) => {
                let recs = recs_of(g, pn as int);
                match primary(src, recs, "PRODUCT") {
                    Some(k) => Some(
                        ProductView {
                            instance: id_of(g, pn as int),
                            id: text_of(src, recs[k].1, 0),
                            name: text_of(src, recs[k].1, 1),
                            description: text_of(src, recs[k].1, 2),
                        },
                    ),
                    None => None,
                }
            },
            None => None,
        },
        None => None,
    }
}

/// The formation record that definition record `r` names as attribute 2.
pub open spec fn formation_of(g: Graph, r: (Token, Seq<Token>)) -> Option<(Token, Seq<Token>)> {
    match reference(r.1, 2) {
        Some(fid) => match node_of(g, fid) {
            Some(fnode) => first_record(g, fnode as int),
            None => None,
        },
        None => None,
    }
}

/// True if `entity` is a product definition whose attributes are read.
pub open spec fn standard(entity: Seq<char>) -> bool {
    entity == "PRODUCT_DEFINITION"@ || starts_with_text(entity, "PRODUCT_DEFINITION_WITH_"@)
}

/// The definition at node `n`.
pub open spec fn definition_of(g: Graph, n: int) -> DefinitionView {
    let src = g.exchange_view().src_view();
    let recs = recs_of(g, n);
    let rec = primary(src, recs, "PRODUCT_DEFINITION");
    let entity = match rec {
        Some(k) => upper_name(recs[k].0.span.of(src)),
        None => Seq::empty(),
    };
    let reps = shape_reps(g, n);
    match rec {
        Some(k) if standard(entity) => {
            let r = recs[k];
            let formation = formation_of(g, r);
            DefinitionView {
                instance: id_of(g, n),
                entity,
                id: text_of(src, r.1, 0),
                description: text_of(src, r.1, 1),
                version: match formation {
                    Some(f) => text_of(src, f.1, 0),
                    None => None,
                },
                product: match formation {
                    Some(f) => product_of(g, f),
                    None => None,
                },
                shape_representations: reps,
            }
        },
        _ => DefinitionView {
            instance: id_of(g, n),
            entity,
            id: None,
            description: None,
            version: None,
            product: None,
            shape_representations: reps,
        },
    }
}

/// The record of `records` named `name`, or else the first.
fn primary_exec(records: &Vec<Record>, name: &str, Ghost(src): Ghost<Seq<u8>>, Ghost(recs): Ghost<Seq<(Token, Seq<Token>)>>) -> (r: Option<usize>)
    requires
        records_are(records@, src, recs),
    ensures
        match primary(src, recs, name) {
            Some(k) => r matches Some(i) && i as int == k && k < recs.len(),
            None => r is None,
        },
{
    match crate::lint::find_rec(records, name, Ghost(src), Ghost(recs)) {
        Some(k) => Some(k),
        None => if records.len() > 0 {
            Some(0)
        } else {
            None
        },
    }
}

/// The representations the shape definition representations among the
/// users of the shape at `shape` give.
fn push_link_reps(graph: &Graph, shape: usize, out: &mut Vec<u64>)
    requires
        graph.wf(),
        shape < graph.exchange_view().instances_view().len(),
    ensures
        final(out)@ == old(out)@ + link_reps(*graph, graph.backward_view()[shape as int], id_of(*graph, shape as int)),
{
    let ghost g = *graph;
    let ghost start = out@;
    let id = graph.instance(shape).id;
    let users = graph.referenced_by(shape);
    proof {
        crate::assemble::lemma_neighbours_are_nodes(g, shape as int);
    }
    let mut j: usize = 0;
    while j < users.len()
        invariant
            graph.wf(),
            g == *graph,
            nodes_of(g, users@),
            j <= users@.len(),
            out@ == start + link_reps(g, users@.take(j as int), id),
        decreases users@.len() - j,
    {
        let x = users[j];
        proof {
            assert(users@.take(j + 1).drop_last() =~= users@.take(j as int));
            assert(users@.take(j + 1).last() == x);
            assert(x < g.exchange_view().instances_view().len());
        }
        if crate::assemble::points_at_exec(graph, x, "SHAPE_DEFINITION_REPRESENTATION", 0, id) {
            match crate::assemble::first_of(graph, x) {
                Some(r) => match crate::lint::ref_at(r, 1) {
                    Some(rep) => {
                        out.push(rep);
                    },
                    None => {},
                },
                None => {},
            }
        }
        proof {
            assert(out@ =~= start + link_reps(g, users@.take(j + 1), id));
        }
        j = j + 1;
    }
    proof {
        assert(users@.take(j as int) =~= users@);
    }
}

/// The shape representations attached to the definition at `node`.
fn shape_representations(graph: &Graph, node: usize) -> (v: Vec<u64>)
    requires
        graph.wf(),
        node < graph.exchange_view().instances_view().len(),
    ensures
        v@ == shape_reps(*graph, node as int),
{
    let ghost g = *graph;
    let id = graph.instance(node).id;
    let users = graph.referenced_by(node);
    proof {
        crate::assemble::lemma_neighbours_are_nodes(g, node as int);
    }
    let mut out: Vec<u64> = Vec::new();
    let mut j: usize = 0;
    while j < users.len()
        invariant
            graph.wf(),
            g == *graph,
            nodes_of(g, users@),
            j <= users@.len(),
            users@ == g.backward_view()[node as int],
            id == id_of(g, node as int),
            out@ == shape_reps_among(g, users@.take(j as int), id),
        decreases users@.len() - j,
    {
        let x = users[j];
        proof {
            assert(users@.take(j + 1).drop_last() =~= users@.take(j as int));
            assert(users@.take(j + 1).last() == x);
            assert(x < g.exchange_view().instances_view().len());
        }
        if crate::assemble::points_at_exec(graph, x, "PRODUCT_DEFINITION_SHAPE", 2, id) {
            push_link_reps(graph, x, &mut out);
        }
        proof {
            assert(out@ =~= shape_reps_among(g, users@.take(j + 1), id));
        }
        j = j + 1;
    }
    proof {
        assert(users@.take(j as int) =~= users@);
    }
    out
}

/// The product that the formation record `formation` names.
fn read_product(graph: &Graph, formation: Record, Ghost(f): Ghost<(Token, Seq<Token>)>) -> (r: Option<Product>)
    requires
        graph.wf(),
        formation.wf(),
        formation.src_view() == graph.exchange_view().src_view(),
        formation.name_token() == f.0,
        formation.params_view() == f.1,
    ensures
        match product_of(*graph, f) {
            Some(p) => r matches Some(x) && x@ == p,
            None => r is None,
        },
{
    let exchange = graph.exchange();
    let src = exchange.source();
    let pid = match crate::lint::ref_at(formation, 2) {
        Some(p) => p,
        None => {
            return None;
        },
    };
    let pn = match graph.node(pid) {
        Some(n) => n,
        None => {
            return None;
        },
    };
    let instance = graph.instance(pn);
    let records = exchange.records(instance).to_vec();
    let ghost recs = exchange.records_view(*instance);
    match primary_exec(&records, "PRODUCT", Ghost(exchange.src_view()), Ghost(recs)) {
        Some(k) => Some(
            Product {
                instance: instance.id,
                id: crate::info::text_at(src, records[k], 0),
                name: crate::info::text_at(src, records[k], 1),
                description: crate::info::text_at(src, records[k], 2),
            },
        ),
        None => None,
    }
}

/// True if `entity` is a product definition whose attributes are read.
fn standard_exec(entity: &String) -> (b: bool)
    ensures
        b == standard(entity@),
{
    let s = entity.as_str();
    proof {
        reveal_strlit("PRODUCT_DEFINITION_WITH_");
    }
    *entity == crate::text::owned("PRODUCT_DEFINITION") || (24 <= s.unicode_len() && crate::props::occurs_at(
        s,
        "PRODUCT_DEFINITION_WITH_",
        0,
    ))
}

/// The definition at `node`.
fn read_definition(graph: &Graph, node: usize) -> (d: Definition)
    requires
        graph.wf(),
        node < graph.exchange_view().instances_view().len(),
    ensures
        d@ == definition_of(*graph, node as int),
{
    let ghost g = *graph;
    let exchange = graph.exchange();
    let src = exchange.source();
    let instance = graph.instance(node);
    let records = exchange.records(instance).to_vec();
    let ghost recs = exchange.records_view(*instance);
    let rec = primary_exec(&records, "PRODUCT_DEFINITION", Ghost(exchange.src_view()), Ghost(recs));
    let entity = match rec {
        Some(k) => crate::info::upper_name_of(records[k].name()),
        None => String::new(),
    };
    let reps = shape_representations(graph, node);
    match rec {
        Some(k) => {
            if standard_exec(&entity) {
                let r = records[k];
                let formation = match crate::lint::ref_at(r, 2) {
                    Some(fid) => match graph.node(fid) {
                        Some(fnode) => crate::assemble::first_of(graph, fnode),
                        None => None,
                    },
                    None => None,
                };
                let ghost fv = formation_of(g, recs[k as int]);
                let (version, product) = match formation {
                    Some(f) => (crate::info::text_at(src, f, 0), read_product(graph, f, Ghost(fv->0))),
                    None => (None, None),
                };
                return Definition {
                    instance: instance.id,
                    entity,
                    id: crate::info::text_at(src, r, 0),
                    description: crate::info::text_at(src, r, 1),
                    version,
                    product,
                    shape_representations: reps,
                };
            }
        },
        None => {},
    }
    Definition {
        instance: instance.id,
        entity,
        id: None,
        description: None,
        version: None,
        product: None,
        shape_representations: reps,
    }
}

// ---------------------------------------------------------------------
// Usages.
// ---------------------------------------------------------------------

/// What a usage instance says, before its definitions are looked up.
pub struct FieldsView {
    pub kind: UsageKind,
    pub id: Option<Seq<char>>,
    pub name: Option<Seq<char>>,
    pub description: Option<Seq<char>>,
    pub relating: u64,
    pub related: u64,
    pub reference_designator: Option<Seq<char>>,
    pub quantity: Option<u64>,
}

/// True if one of `recs` is named `name`.
pub open spec fn has(src: Seq<u8>, recs: Seq<(Token, Seq<Token>)>, name: &str) -> bool {
    first_rec(src, recs, name, 0) is Some
}

/// True if node `n` is an assembly usage.
pub open spec fn is_usage(g: Graph, n: int) -> bool {
    let src = g.exchange_view().src_view();
    has(src, recs_of(g, n), "NEXT_ASSEMBLY_USAGE_OCCURRENCE") || has(src, recs_of(g, n), "QUANTIFIED_ASSEMBLY_COMPONENT_USAGE")
}

/// A usage, simple or complex. In a complex instance each attribute lives
/// in the partial record of the entity that declares it: the relationship
/// attributes, the reference designator and the quantity.
pub open spec fn usage_fields(g: Graph, n: int) -> Option<FieldsView> {
    let src = g.exchange_view().src_view();
    let recs = recs_of(g, n);
    let quantified = has(src, recs, "QUANTIFIED_ASSEMBLY_COMPONENT_USAGE");
    let kind = if quantified {
        UsageKind::QuantifiedAssemblyComponentUsage
    } else {
        UsageKind::NextAssemblyUsageOccurrence
    };
    let parts: Option<(int, Option<(int, nat)>, Option<(int, nat)>)> = if g.exchange_view().instances_view()[n].complex {
        match first_rec(src, recs, "PRODUCT_DEFINITION_RELATIONSHIP", 0) {
            Some(k) => Some(
                (
                    k,
                    match first_rec(src, recs, "ASSEMBLY_COMPONENT_USAGE", 0) {
                        Some(a) => Some((a, 0nat)),
                        None => None,
                    },
                    match first_rec(src, recs, "QUANTIFIED_ASSEMBLY_COMPONENT_USAGE", 0) {
                        Some(q) => Some((q, 0nat)),
                        None => None,
                    },
                ),
            ),
            None => None,
        }
    } else if recs.len() > 0 {
        Some(
            (
                0int,
                Some((0int, 5nat)),
                if quantified {
                    Some((0int, 6nat))
                } else {
                    None
                },
            ),
        )
    } else {
        None
    };
    match parts {
        Some((k, designator, quantity)) => {
            let r = recs[k];
            match (reference(r.1, 3), reference(r.1, 4)) {
                (Some(a), Some(b)) => Some(
                    FieldsView {
                        kind,
                        id: text_of(src, r.1, 0),
                        name: text_of(src, r.1, 1),
                        description: text_of(src, r.1, 2),
                        relating: a,
                        related: b,
                        reference_designator: match designator {
                            Some((d, i)) => text_of(src, recs[d].1, i),
                            None => None,
                        },
                        quantity: match quantity {
                            Some((q, i)) => reference(recs[q].1, i),
                            None => None,
                        },
                    },
                ),
                _ => None,
            }
        },
        None => None,
    }
}

/// The parent and child nodes of usage node `n`, with its fields, if it
/// is a usage whose definitions the file defines.
pub open spec fn usage_at(g: Graph, n: int) -> Option<(FieldsView, usize, usize)> {
    if is_usage(g, n) {
        match usage_fields(g, n) {
            Some(f) => match (node_of(g, f.relating), node_of(g, f.related)) {
                (Some(p), Some(c)) => Some((f, p, c)),
                _ => None,
            },
            None => None,
        }
    } else {
        None
    }
}

/// The nodes of the first `k` instances with a `PRODUCT_DEFINITION`
/// record, in file order.
pub open spec fn pd_nodes(g: Graph, k: int) -> Seq<usize>
    decreases k,
{
    if k <= 0 {
        Seq::empty()
    } else {
        pd_nodes(g, k - 1) + if has(g.exchange_view().src_view(), recs_of(g, k - 1), "PRODUCT_DEFINITION") {
            seq![(k - 1) as usize]
        } else {
            Seq::empty()
        }
    }
}

/// The parent and child nodes of the usages among the first `k` nodes, in
/// file order, parent first.
pub open spec fn usage_ends(g: Graph, k: int) -> Seq<usize>
    decreases k,
{
    if k <= 0 {
        Seq::empty()
    } else {
        usage_ends(g, k - 1) + match usage_at(g, k - 1) {
            Some((_, p, c)) => seq![p, c],
            None => Seq::empty(),
        }
    }
}

/// `s` with each node kept at its first appearance only.
pub open spec fn first_seen(s: Seq<usize>) -> Seq<usize>
    decreases s.len(),
{
    if s.len() == 0 {
        Seq::empty()
    } else {
        let r = first_seen(s.drop_last());
        if r.contains(s.last()) {
            r
        } else {
            r.push(s.last())
        }
    }
}

/// The nodes of the product definitions, in order of first appearance:
/// every `PRODUCT_DEFINITION`, then whatever usages name.
pub open spec fn definition_nodes(g: Graph) -> Seq<usize> {
    let n = g.exchange_view().instances_view().len() as int;
    first_seen(pd_nodes(g, n) + usage_ends(g, n))
}

/// The position of `x` in `s`.
pub open spec fn position(s: Seq<usize>, x: usize) -> int {
    choose|i: int| 0 <= i < s.len() && s[i] == x
}

// ---------------------------------------------------------------------
// Placements.
// ---------------------------------------------------------------------

/// True if `rep` is one of `shapes`.
pub open spec fn among(rep: Option<u64>, shapes: Seq<u64>) -> bool {
    match rep {
        Some(r) => shapes.contains(r),
        None => false,
    }
}

/// The placement that representation relationship `#rel` at node `rn`
/// gives, for the context dependent shape representation `#cdsr`.
pub open spec fn relationship_placement(g: Graph, cdsr: u64, rel: u64, rn: usize, ps: Seq<u64>, cs: Seq<u64>) -> Placement {
    let src = g.exchange_view().src_view();
    let recs = recs_of(g, rn as int);
    let (base, transformation) = if g.exchange_view().instances_view()[rn as int].complex {
        (
            first_rec(src, recs, "REPRESENTATION_RELATIONSHIP", 0),
            match first_rec(src, recs, "REPRESENTATION_RELATIONSHIP_WITH_TRANSFORMATION", 0) {
                Some(t) => reference(recs[t].1, 0),
                None => None,
            },
        )
    } else if recs.len() > 0 {
        (
            Some(0int),
            if crate::text::ends_with_ignore_case(recs[0].0.span.of(src), "WITH_TRANSFORMATION".spec_bytes()) {
                reference(recs[0].1, 4)
            } else {
                None
            },
        )
    } else {
        (None, None)
    };
    let rep_1 = match base {
        Some(b) => reference(recs[b].1, 2),
        None => None,
    };
    let rep_2 = match base {
        Some(b) => reference(recs[b].1, 3),
        None => None,
    };
    let reversed = if among(rep_1, cs) || among(rep_2, ps) {
        Some(false)
    } else if among(rep_2, cs) || among(rep_1, ps) {
        Some(true)
    } else {
        None
    };
    Placement::ShapeRelationship {
        context_dependent_shape_representation: cdsr,
        relationship: rel,
        transformation,
        reversed,
    }
}

/// The placement that `link` gives if it is a context dependent shape
/// representation of the shape `#shape` whose relationship the file
/// defines.
#[verifier::opaque]
pub open spec fn link_placement(g: Graph, link: usize, shape: u64, ps: Seq<u64>, cs: Seq<u64>) -> Option<Placement> {
    if points_at(g, link as int, "CONTEXT_DEPENDENT_SHAPE_REPRESENTATION", 1, shape) {
        match first_record(g, link as int) {
            Some(r) => match reference(r.1, 0) {
                Some(rel) => match node_of(g, rel) {
                    Some(rn) => Some(relationship_placement(g, id_of(g, link as int), rel, rn, ps, cs)),
                    None => None,
                },
                None => None,
            },
            None => None,
        }
    } else {
        None
    }
}

/// The first placement that `links[k..]` give.
pub open spec fn first_link_placement(g: Graph, links: Seq<usize>, k: int, shape: u64, ps: Seq<u64>, cs: Seq<u64>) -> Option<Placement>
    decreases links.len() - k,
{
    if k < 0 || k >= links.len() {
        None
    } else {
        match link_placement(g, links[k], shape, ps, cs) {
            Some(p) => Some(p),
            None => first_link_placement(g, links, k + 1, shape, ps, cs),
        }
    }
}

/// The first placement that the product definition shapes of the usage
/// `#usage` among `shapes[k..]` give.
pub open spec fn first_shape_placement(g: Graph, shapes: Seq<usize>, k: int, usage: u64, ps: Seq<u64>, cs: Seq<u64>) -> Option<Placement>
    decreases shapes.len() - k,
{
    if k < 0 || k >= shapes.len() {
        None
    } else {
        let x = shapes[k];
        let here = if points_at(g, x as int, "PRODUCT_DEFINITION_SHAPE", 2, usage) {
            first_link_placement(g, g.backward_view()[x as int], 0, id_of(g, x as int), ps, cs)
        } else {
            None
        };
        match here {
            Some(p) => Some(p),
            None => first_shape_placement(g, shapes, k + 1, usage, ps, cs),
        }
    }
}

/// The placement a context dependent shape representation gives usage
/// node `u`, with the parent's shapes `ps` and the child's `cs`.
pub open spec fn shape_placement(g: Graph, u: int, ps: Seq<u64>, cs: Seq<u64>) -> Option<Placement> {
    first_shape_placement(g, g.backward_view()[u], 0, id_of(g, u), ps, cs)
}

/// The placement mapped item `#id` gives, if it maps one of the child's
/// shapes `cs`.
pub open spec fn item_placement(g: Graph, id: u64, cs: Seq<u64>) -> Option<Placement> {
    let src = g.exchange_view().src_view();
    match node_of(g, id) {
        Some(n) => {
            let recs = recs_of(g, n as int);
            match first_rec(src, recs, "MAPPED_ITEM", 0) {
                Some(k) => match reference(recs[k].1, 1) {
                    Some(map_id) => match node_of(g, map_id) {
                        Some(mn) => match first_record(g, mn as int) {
                            Some(map) => if rec_named(src, map, "REPRESENTATION_MAP") && among(reference(map.1, 1), cs) {
                                Some(
                                    Placement::MappedItem {
                                        mapped_item: id,
                                        representation_map: map_id,
                                        origin: reference(map.1, 0),
                                        target: reference(recs[k].1, 2),
                                    },
                                )
                            } else {
                                None
                            },
                            None => None,
                        },
                        None => None,
                    },
                    None => None,
                },
                None => None,
            }
        },
        None => None,
    }
}

/// The placements the mapped items among `ids` give.
pub open spec fn items_placements(g: Graph, ids: Seq<u64>, cs: Seq<u64>) -> Seq<Placement>
    decreases ids.len(),
{
    if ids.len() == 0 {
        Seq::empty()
    } else {
        items_placements(g, ids.drop_last(), cs) + match item_placement(g, ids.last(), cs) {
            Some(p) => seq![p],
            None => Seq::empty(),
        }
    }
}

/// The items of the shape representation `#shape`.
pub open spec fn shape_items(g: Graph, shape: u64) -> Seq<u64> {
    match node_of(g, shape) {
        Some(n) => match first_record(g, n as int) {
            Some(r) => crate::props::list_refs(crate::props::param_view(r.1, 1)),
            None => Seq::empty(),
        },
        None => Seq::empty(),
    }
}

/// The mapped items among the items of the assembly's shapes `ps` that map
/// one of the component's shapes `cs`, in order.
pub open spec fn mapped_items(g: Graph, ps: Seq<u64>, cs: Seq<u64>) -> Seq<Placement>
    decreases ps.len(),
{
    if ps.len() == 0 {
        Seq::empty()
    } else {
        mapped_items(g, ps.drop_last(), cs) + items_placements(g, shape_items(g, ps.last()), cs)
    }
}

// ---------------------------------------------------------------------
// The structure.
// ---------------------------------------------------------------------

/// The usage nodes among the first `k` nodes, in file order.
pub open spec fn usage_nodes(g: Graph, k: int) -> Seq<usize>
    decreases k,
{
    if k <= 0 {
        Seq::empty()
    } else {
        usage_nodes(g, k - 1) + if usage_at(g, k - 1) is Some {
            seq![(k - 1) as usize]
        } else {
            Seq::empty()
        }
    }
}

/// The usage at node `u` with the given parent and child indices, and its
/// shape placement if it has one.
pub open spec fn usage_record(g: Graph, u: usize, parent: usize, child: usize) -> UsageView {
    let (f, p, c) = usage_at(g, u as int)->0;
    UsageView {
        instance: id_of(g, u as int),
        kind: f.kind,
        id: f.id,
        name: f.name,
        description: f.description,
        reference_designator: f.reference_designator,
        parent,
        child,
        quantity: f.quantity,
        placement: shape_placement(g, u as int, shape_reps(g, p as int), shape_reps(g, c as int)),
    }
}

/// The usage at node `u`, with its shape placement if it has one; `defs`
/// are the definition nodes.
pub open spec fn raw_usage(g: Graph, defs: Seq<usize>, u: usize) -> UsageView {
    let (f, p, c) = usage_at(g, u as int)->0;
    usage_record(g, u, position(defs, p) as usize, position(defs, c) as usize)
}

/// How many of `raw[..k]` are unplaced usages of `c` in `p`.
pub open spec fn unplaced_before(raw: Seq<UsageView>, p: usize, c: usize, k: int) -> nat
    decreases k,
{
    if k <= 0 {
        0
    } else {
        unplaced_before(raw, p, c, k - 1) + if raw[k - 1].placement is None && raw[k - 1].parent == p && raw[k - 1].child
            == c {
            1nat
        } else {
            0nat
        }
    }
}

/// The placement of usage `i` of `raw`: its shape placement, or else the
/// mapped item that matches it in file order, when the assembly's shapes
/// map its component exactly as many times as it is used unplaced.
pub open spec fn final_placement(g: Graph, defs: Seq<usize>, raw: Seq<UsageView>, i: int) -> Option<Placement> {
    let u = raw[i];
    match u.placement {
        Some(x) => Some(x),
        None => {
            let items = mapped_items(g, shape_reps(g, defs[u.parent as int] as int), shape_reps(g, defs[u.child as int] as int));
            if items.len() == unplaced_before(raw, u.parent, u.child, raw.len() as int) {
                Some(items[unplaced_before(raw, u.parent, u.child, i) as int])
            } else {
                None
            }
        },
    }
}

/// The usages of the file behind `g`, in file order.
pub open spec fn usages_of(g: Graph) -> Seq<UsageView> {
    let defs = definition_nodes(g);
    let raw = usage_nodes(g, g.exchange_view().instances_view().len() as int).map_values(|u: usize| raw_usage(g, defs, u));
    Seq::new(
        raw.len(),
        |i: int|
            UsageView {
                instance: raw[i].instance,
                kind: raw[i].kind,
                id: raw[i].id,
                name: raw[i].name,
                description: raw[i].description,
                reference_designator: raw[i].reference_designator,
                parent: raw[i].parent,
                child: raw[i].child,
                quantity: raw[i].quantity,
                placement: final_placement(g, defs, raw, i),
            },
    )
}

/// The indices of the usages among `us[..k]` whose parent is `d`.
pub open spec fn children_of(us: Seq<UsageView>, d: usize, k: int) -> Seq<usize>
    decreases k,
{
    if k <= 0 {
        Seq::empty()
    } else {
        children_of(us, d, k - 1) + if us[k - 1].parent == d {
            seq![(k - 1) as usize]
        } else {
            Seq::empty()
        }
    }
}

/// True if definition `d` is a component in one of `us`.
pub open spec fn is_component(us: Seq<UsageView>, d: usize) -> bool {
    exists|i: int| 0 <= i < us.len() && #[trigger] us[i].child == d
}

/// The definitions among the first `k` that are no component of anything.
pub open spec fn roots_upto(us: Seq<UsageView>, k: int) -> Seq<usize>
    decreases k,
{
    if k <= 0 {
        Seq::empty()
    } else {
        roots_upto(us, k - 1) + if is_component(us, (k - 1) as usize) {
            Seq::empty()
        } else {
            seq![(k - 1) as usize]
        }
    }
}

impl ProductStructure {
    /// The definitions.
    pub closed spec fn definitions_view(&self) -> Seq<DefinitionView> {
        definition_views(self.definitions@)
    }

    /// The usages.
    pub closed spec fn usages_view(&self) -> Seq<UsageView> {
        usage_views(self.usages@)
    }

    /// The roots.
    pub closed spec fn roots_view(&self) -> Seq<usize> {
        self.roots@
    }

    /// True if the structure is the one `new` reads from `g`.
    pub open spec fn of(&self, g: Graph) -> bool {
        let us = usages_of(g);
        &&& self.definitions_view() == definition_nodes(g).map_values(|n: usize| definition_of(g, n as int))
        &&& self.usages_view() == us
        &&& self.roots_view() == roots_upto(us, definition_nodes(g).len() as int)
    }

    /// The structure's invariant: each definition's children are listed
    /// with it, and every usage names two definitions.
    pub closed spec fn wf(&self) -> bool {
        &&& self.children@.len() == self.definitions@.len()
        &&& forall|d: int|
            0 <= d < self.children@.len() ==> (#[trigger] self.children@[d])@ == children_of(
                self.usages_view(),
                d as usize,
                self.usages@.len() as int,
            )
        &&& forall|i: int|
            0 <= i < self.usages@.len() ==> (#[trigger] self.usages@[i]).parent < self.definitions@.len()
                && self.usages@[i].child < self.definitions@.len()
    }
}

// ---------------------------------------------------------------------
// Reading usages and placements.
// ---------------------------------------------------------------------

/// What a usage instance says.
struct Fields {
    kind: UsageKind,
    id: Option<String>,
    name: Option<String>,
    description: Option<String>,
    relating: u64,
    related: u64,
    reference_designator: Option<String>,
    quantity: Option<u64>,
}

/// The view of `f`.
spec fn fields_view(f: Fields) -> FieldsView {
    FieldsView {
        kind: f.kind,
        id: option_view(f.id),
        name: option_view(f.name),
        description: option_view(f.description),
        relating: f.relating,
        related: f.related,
        reference_designator: option_view(f.reference_designator),
        quantity: f.quantity,
    }
}

/// What the usage at `node` says.
fn read_fields(graph: &Graph, node: usize) -> (r: Option<Fields>)
    requires
        graph.wf(),
        node < graph.exchange_view().instances_view().len(),
    ensures
        match usage_fields(*graph, node as int) {
            Some(f) => r matches Some(x) && fields_view(x) == f,
            None => r is None,
        },
{
    let exchange = graph.exchange();
    let src = exchange.source();
    let ghost srcv = exchange.src_view();
    let instance = graph.instance(node);
    let records = exchange.records(instance).to_vec();
    let ghost recs = exchange.records_view(*instance);
    let qacu = crate::lint::find_rec(&records, "QUANTIFIED_ASSEMBLY_COMPONENT_USAGE", Ghost(srcv), Ghost(recs));
    let quantified = qacu.is_some();
    let kind = if quantified {
        UsageKind::QuantifiedAssemblyComponentUsage
    } else {
        UsageKind::NextAssemblyUsageOccurrence
    };
    let (k, designator, quantity): (usize, Option<(usize, usize)>, Option<(usize, usize)>) = if instance.is_complex() {
        match crate::lint::find_rec(&records, "PRODUCT_DEFINITION_RELATIONSHIP", Ghost(srcv), Ghost(recs)) {
            Some(k) => (
                k,
                match crate::lint::find_rec(&records, "ASSEMBLY_COMPONENT_USAGE", Ghost(srcv), Ghost(recs)) {
                    Some(a) => Some((a, 0)),
                    None => None,
                },
                match qacu {
                    Some(q) => Some((q, 0)),
                    None => None,
                },
            ),
            None => {
                return None;
            },
        }
    } else if records.len() > 0 {
        (
            0,
            Some((0, 5)),
            if quantified {
                Some((0, 6))
            } else {
                None
            },
        )
    } else {
        return None;
    };
    let r = records[k];
    let relating = match crate::lint::ref_at(r, 3) {
        Some(a) => a,
        None => {
            return None;
        },
    };
    let related = match crate::lint::ref_at(r, 4) {
        Some(b) => b,
        None => {
            return None;
        },
    };
    let reference_designator = match designator {
        Some((d, i)) => crate::info::text_at(src, records[d], i),
        None => None,
    };
    let quantity = match quantity {
        Some((q, i)) => crate::lint::ref_at(records[q], i),
        None => None,
    };
    Some(
        Fields {
            kind,
            id: crate::info::text_at(src, r, 0),
            name: crate::info::text_at(src, r, 1),
            description: crate::info::text_at(src, r, 2),
            relating,
            related,
            reference_designator,
            quantity,
        },
    )
}

/// The usage at `node`, with its parent and child nodes.
fn read_usage(graph: &Graph, node: usize) -> (r: Option<(Fields, usize, usize)>)
    requires
        graph.wf(),
        node < graph.exchange_view().instances_view().len(),
    ensures
        match usage_at(*graph, node as int) {
            Some((f, p, c)) => r matches Some((x, rp, rc)) && fields_view(x) == f && rp == p && rc == c
                && p < graph.exchange_view().instances_view().len() && c < graph.exchange_view().instances_view().len(),
            None => r is None,
        },
{
    let exchange = graph.exchange();
    let instance = graph.instance(node);
    let records = exchange.records(instance).to_vec();
    let ghost recs = exchange.records_view(*instance);
    let nauo = crate::lint::find_rec(&records, "NEXT_ASSEMBLY_USAGE_OCCURRENCE", Ghost(exchange.src_view()), Ghost(recs));
    let qacu = crate::lint::find_rec(&records, "QUANTIFIED_ASSEMBLY_COMPONENT_USAGE", Ghost(exchange.src_view()), Ghost(recs));
    if nauo.is_none() && qacu.is_none() {
        return None;
    }
    let fields = match read_fields(graph, node) {
        Some(f) => f,
        None => {
            return None;
        },
    };
    match (graph.node(fields.relating), graph.node(fields.related)) {
        (Some(p), Some(c)) => Some((fields, p, c)),
        _ => None,
    }
}

/// True if `rep` is one of `shapes`.
fn among_exec(rep: Option<u64>, shapes: &[u64]) -> (b: bool)
    ensures
        b == among(rep, shapes@),
{
    match rep {
        Some(r) => crate::props::holds(shapes, r),
        None => false,
    }
}

/// The placement representation relationship `#rel` at `rn` gives.
fn read_relationship(graph: &Graph, cdsr: u64, rel: u64, rn: usize, ps: &[u64], cs: &[u64]) -> (p: Placement)
    requires
        graph.wf(),
        rn < graph.exchange_view().instances_view().len(),
    ensures
        p == relationship_placement(*graph, cdsr, rel, rn, ps@, cs@),
{
    let exchange = graph.exchange();
    let instance = graph.instance(rn);
    let records = exchange.records(instance).to_vec();
    let ghost recs = exchange.records_view(*instance);
    let ghost src = exchange.src_view();
    let (base, transformation) = if instance.is_complex() {
        (
            crate::lint::find_rec(&records, "REPRESENTATION_RELATIONSHIP", Ghost(src), Ghost(recs)),
            match crate::lint::find_rec(&records, "REPRESENTATION_RELATIONSHIP_WITH_TRANSFORMATION", Ghost(src), Ghost(recs)) {
                Some(t) => crate::lint::ref_at(records[t], 0),
                None => None,
            },
        )
    } else if records.len() > 0 {
        (
            Some(0),
            if crate::text::bytes_end_with_ignore_case(records[0].name(), "WITH_TRANSFORMATION".as_bytes()) {
                crate::lint::ref_at(records[0], 4)
            } else {
                None
            },
        )
    } else {
        (None, None)
    };
    let rep_1 = match base {
        Some(b) => crate::lint::ref_at(records[b], 2),
        None => None,
    };
    let rep_2 = match base {
        Some(b) => crate::lint::ref_at(records[b], 3),
        None => None,
    };
    let reversed = if among_exec(rep_1, cs) || among_exec(rep_2, ps) {
        Some(false)
    } else if among_exec(rep_2, cs) || among_exec(rep_1, ps) {
        Some(true)
    } else {
        None
    };
    Placement::ShapeRelationship { context_dependent_shape_representation: cdsr, relationship: rel, transformation, reversed }
}

/// The placement `link` gives for the shape `#shape`.
fn read_link_placement(graph: &Graph, link: usize, shape: u64, ps: &[u64], cs: &[u64]) -> (r: Option<Placement>)
    requires
        graph.wf(),
        link < graph.exchange_view().instances_view().len(),
    ensures
        r == link_placement(*graph, link, shape, ps@, cs@),
{
    proof {
        reveal(link_placement);
    }
    if !crate::assemble::points_at_exec(graph, link, "CONTEXT_DEPENDENT_SHAPE_REPRESENTATION", 1, shape) {
        return None;
    }
    match crate::assemble::first_of(graph, link) {
        Some(r) => match crate::lint::ref_at(r, 0) {
            Some(rel) => match graph.node(rel) {
                Some(rn) => Some(read_relationship(graph, graph.instance(link).id, rel, rn, ps, cs)),
                None => None,
            },
            None => None,
        },
        None => None,
    }
}

/// The first placement the links of the shape at `x` give.
fn read_first_link(graph: &Graph, x: usize, ps: &[u64], cs: &[u64]) -> (r: Option<Placement>)
    requires
        graph.wf(),
        x < graph.exchange_view().instances_view().len(),
    ensures
        r == first_link_placement(*graph, graph.backward_view()[x as int], 0, id_of(*graph, x as int), ps@, cs@),
{
    let ghost g = *graph;
    let shape_id = graph.instance(x).id;
    let links = graph.referenced_by(x);
    proof {
        crate::assemble::lemma_neighbours_are_nodes(g, x as int);
    }
    let mut j: usize = 0;
    while j < links.len()
        invariant
            graph.wf(),
            g == *graph,
            nodes_of(g, links@),
            links@ == g.backward_view()[x as int],
            shape_id == id_of(g, x as int),
            j <= links@.len(),
            first_link_placement(g, links@, 0, shape_id, ps@, cs@) == first_link_placement(
                g,
                links@,
                j as int,
                shape_id,
                ps@,
                cs@,
            ),
        decreases links@.len() - j,
    {
        proof {
            assert(links@[j as int] < g.exchange_view().instances_view().len());
        }
        match read_link_placement(graph, links[j], shape_id, ps, cs) {
            Some(p) => {
                return Some(p);
            },
            None => {},
        }
        j = j + 1;
    }
    None
}

/// The placement a context dependent shape representation gives the usage
/// at `u`.
fn read_shape_placement(graph: &Graph, u: usize, ps: &[u64], cs: &[u64]) -> (r: Option<Placement>)
    requires
        graph.wf(),
        u < graph.exchange_view().instances_view().len(),
    ensures
        r == shape_placement(*graph, u as int, ps@, cs@),
{
    let ghost g = *graph;
    let usage = graph.instance(u).id;
    let shapes = graph.referenced_by(u);
    proof {
        crate::assemble::lemma_neighbours_are_nodes(g, u as int);
    }
    let mut k: usize = 0;
    while k < shapes.len()
        invariant
            graph.wf(),
            g == *graph,
            nodes_of(g, shapes@),
            shapes@ == g.backward_view()[u as int],
            usage == id_of(g, u as int),
            k <= shapes@.len(),
            shape_placement(g, u as int, ps@, cs@) == first_shape_placement(g, shapes@, k as int, usage, ps@, cs@),
        decreases shapes@.len() - k,
    {
        let x = shapes[k];
        proof {
            assert(x < g.exchange_view().instances_view().len());
        }
        let here = if crate::assemble::points_at_exec(graph, x, "PRODUCT_DEFINITION_SHAPE", 2, usage) {
            read_first_link(graph, x, ps, cs)
        } else {
            None
        };
        match here {
            Some(p) => {
                return Some(p);
            },
            None => {},
        }
        k = k + 1;
    }
    None
}

/// The placement mapped item `#id` gives.
fn read_item_placement(graph: &Graph, id: u64, cs: &[u64]) -> (r: Option<Placement>)
    requires
        graph.wf(),
    ensures
        r == item_placement(*graph, id, cs@),
{
    let exchange = graph.exchange();
    let n = match graph.node(id) {
        Some(n) => n,
        None => {
            return None;
        },
    };
    let instance = graph.instance(n);
    let records = exchange.records(instance).to_vec();
    let ghost recs = exchange.records_view(*instance);
    let k = match crate::lint::find_rec(&records, "MAPPED_ITEM", Ghost(exchange.src_view()), Ghost(recs)) {
        Some(k) => k,
        None => {
            return None;
        },
    };
    let map_id = match crate::lint::ref_at(records[k], 1) {
        Some(m) => m,
        None => {
            return None;
        },
    };
    let mn = match graph.node(map_id) {
        Some(mn) => mn,
        None => {
            return None;
        },
    };
    match crate::assemble::first_of(graph, mn) {
        Some(map) => {
            if map.is("REPRESENTATION_MAP") && among_exec(crate::lint::ref_at(map, 1), cs) {
                Some(
                    Placement::MappedItem {
                        mapped_item: id,
                        representation_map: map_id,
                        origin: crate::lint::ref_at(map, 0),
                        target: crate::lint::ref_at(records[k], 2),
                    },
                )
            } else {
                None
            }
        },
        None => None,
    }
}

/// The mapped items among the items of the assembly's shapes `ps` that map
/// one of the component's shapes `cs`.
#[verifier::rlimit(40)]
fn read_mapped_items(graph: &Graph, ps: &[u64], cs: &[u64]) -> (v: Vec<Placement>)
    requires
        graph.wf(),
    ensures
        v@ == mapped_items(*graph, ps@, cs@),
{
    let ghost g = *graph;
    let mut out: Vec<Placement> = Vec::new();
    let mut k: usize = 0;
    while k < ps.len()
        invariant
            graph.wf(),
            g == *graph,
            k <= ps@.len(),
            out@ == mapped_items(g, ps@.take(k as int), cs@),
        decreases ps@.len() - k,
    {
        proof {
            assert(ps@.take(k + 1).drop_last() =~= ps@.take(k as int));
            assert(ps@.take(k + 1).last() == ps@[k as int]);
        }
        let items = match graph.node(ps[k]) {
            Some(n) => match crate::assemble::first_of(graph, n) {
                Some(r) => crate::props::list_refs_at(r, 1),
                None => Vec::new(),
            },
            None => Vec::new(),
        };
        let ghost start = out@;
        let mut j: usize = 0;
        while j < items.len()
            invariant
                graph.wf(),
                g == *graph,
                j <= items@.len(),
                out@ == start + items_placements(g, items@.take(j as int), cs@),
            decreases items@.len() - j,
        {
            proof {
                assert(items@.take(j + 1).drop_last() =~= items@.take(j as int));
                assert(items@.take(j + 1).last() == items@[j as int]);
            }
            match read_item_placement(graph, items[j], cs) {
                Some(p) => {
                    out.push(p);
                },
                None => {},
            }
            proof {
                assert(out@ =~= start + items_placements(g, items@.take(j + 1), cs@));
            }
            j = j + 1;
        }
        proof {
            assert(items@.take(j as int) =~= items@);
            assert(items@ == shape_items(g, ps@[k as int]));
            assert(out@ =~= mapped_items(g, ps@.take(k + 1), cs@));
        }
        k = k + 1;
    }
    proof {
        assert(ps@.take(k as int) =~= ps@);
    }
    out
}

// ---------------------------------------------------------------------
// Building the structure.
// ---------------------------------------------------------------------

/// The builder's state: `defs` are the definitions read so far, of the
/// nodes `def_nodes`, the first appearances in `calls`; `by_node` finds a
/// node's definition.
#[verifier::opaque]
spec fn builder_ok(
    g: Graph,
    by_node: Seq<Option<usize>>,
    defs: Seq<Definition>,
    def_nodes: Seq<usize>,
    calls: Seq<usize>,
) -> bool {
    let n = g.exchange_view().instances_view().len();
    &&& by_node.len() == n
    &&& defs.len() == def_nodes.len()
    &&& def_nodes == first_seen(calls)
    &&& nodes_of(g, calls)
    &&& forall|i: int| 0 <= i < defs.len() ==> (#[trigger] defs[i])@ == definition_of(g, def_nodes[i] as int)
    &&& forall|x: int| 0 <= x < n ==> (#[trigger] by_node[x] matches Some(i) ==> i < def_nodes.len() && def_nodes[i as int] == x)
    &&& forall|i: int| 0 <= i < def_nodes.len() ==> #[trigger] def_nodes[i] < n && (by_node[def_nodes[i] as int] matches Some(v) && v == i)
}

/// What the builder's state gives its users.
proof fn lemma_builder_facts(g: Graph, by_node: Seq<Option<usize>>, defs: Seq<Definition>, def_nodes: Seq<usize>, calls: Seq<usize>)
    requires
        builder_ok(g, by_node, defs, def_nodes, calls),
    ensures
        by_node.len() == g.exchange_view().instances_view().len(),
        defs.len() == def_nodes.len(),
        def_nodes == first_seen(calls),
        forall|i: int| 0 <= i < defs.len() ==> (#[trigger] defs[i])@ == definition_of(g, def_nodes[i] as int),
        forall|i: int| 0 <= i < def_nodes.len() ==> #[trigger] def_nodes[i] < by_node.len() && (by_node[def_nodes[i] as int] matches Some(v) && v == i),
{
    reveal(builder_ok);
}

/// The empty state.
proof fn lemma_builder_empty(g: Graph, by_node: Seq<Option<usize>>)
    requires
        by_node.len() == g.exchange_view().instances_view().len(),
        forall|x: int| 0 <= x < by_node.len() ==> #[trigger] by_node[x] is None,
    ensures
        builder_ok(g, by_node, Seq::empty(), Seq::empty(), Seq::empty()),
{
    reveal(builder_ok);
    assert(first_seen(Seq::<usize>::empty()) =~= Seq::<usize>::empty());
}

proof fn lemma_position(s: Seq<usize>, by_node: Seq<Option<usize>>, i: int)
    requires
        0 <= i < s.len(),
        forall|k: int| 0 <= k < s.len() ==> #[trigger] s[k] < by_node.len() && (by_node[s[k] as int] matches Some(v) && v == k),
    ensures
        position(s, s[i]) == i,
{
    let j = position(s, s[i]);
    assert(0 <= j < s.len() && s[j] == s[i]);
    assert(s[j] < by_node.len());
    assert(s[i] < by_node.len());
}

proof fn lemma_builder_hit(g: Graph, by_node: Seq<Option<usize>>, defs: Seq<Definition>, def_nodes: Seq<usize>, calls: Seq<usize>, node: usize)
    requires
        builder_ok(g, by_node, defs, def_nodes, calls),
        node < g.exchange_view().instances_view().len(),
        by_node[node as int] is Some,
    ensures
        builder_ok(g, by_node, defs, def_nodes, calls.push(node)),
        by_node[node as int]->0 < def_nodes.len(),
        def_nodes[by_node[node as int]->0 as int] == node,
{
    reveal(builder_ok);
    let n = g.exchange_view().instances_view().len();
    assert(calls.push(node).drop_last() =~= calls);
    let i = by_node[node as int]->0;
    assert(def_nodes[i as int] == node);
    assert(first_seen(calls).contains(node));
    assert(nodes_of(g, calls.push(node))) by {
        assert forall|k: int| 0 <= k < calls.push(node).len() implies #[trigger] calls.push(node)[k] < n by {
            if k < calls.len() {
                assert(calls.push(node)[k] == calls[k]);
            }
        }
    }
}

proof fn lemma_builder_miss(
    g: Graph,
    old_by: Seq<Option<usize>>,
    by_node: Seq<Option<usize>>,
    old_defs: Seq<Definition>,
    defs: Seq<Definition>,
    def_nodes: Seq<usize>,
    calls: Seq<usize>,
    node: usize,
    idx: usize,
    d: Definition,
)
    requires
        builder_ok(g, old_by, old_defs, def_nodes, calls),
        node < g.exchange_view().instances_view().len(),
        old_by[node as int] is None,
        idx == old_defs.len(),
        by_node == old_by.update(node as int, Some(idx)),
        defs == old_defs.push(d),
        d@ == definition_of(g, node as int),
    ensures
        builder_ok(g, by_node, defs, def_nodes.push(node), calls.push(node)),
{
    reveal(builder_ok);
    let n = g.exchange_view().instances_view().len();
    let nodes2 = def_nodes.push(node);
    assert(calls.push(node).drop_last() =~= calls);
    assert(!def_nodes.contains(node)) by {
        if def_nodes.contains(node) {
            let k = choose|k: int| 0 <= k < def_nodes.len() && def_nodes[k] == node;
            assert(old_by[def_nodes[k] as int] is Some);
        }
    }
    assert(first_seen(calls.push(node)) == nodes2);
    assert(nodes_of(g, calls.push(node))) by {
        assert forall|k: int| 0 <= k < calls.push(node).len() implies #[trigger] calls.push(node)[k] < n by {
            if k < calls.len() {
                assert(calls.push(node)[k] == calls[k]);
            }
        }
    }
    assert forall|i: int| 0 <= i < defs.len() implies (#[trigger] defs[i])@ == definition_of(g, nodes2[i] as int) by {
        if i < old_defs.len() {
            assert(defs[i] == old_defs[i]);
        }
    }
    assert forall|x: int| 0 <= x < n implies (#[trigger] by_node[x] matches Some(i) ==> i < nodes2.len() && nodes2[i as int] == x) by {
        if x != node {
            assert(by_node[x] == old_by[x]);
        }
    }
    assert forall|i: int| 0 <= i < nodes2.len() implies #[trigger] nodes2[i] < n && (by_node[nodes2[i] as int] matches Some(v) && v == i) by {
        if i < def_nodes.len() {
            assert(nodes2[i] == def_nodes[i]);
            assert(def_nodes[i] != node);
            assert(by_node[def_nodes[i] as int] == old_by[def_nodes[i] as int]);
        }
    }
}

/// The index of the definition at `node`, reading it on first use.
fn definition_index(
    graph: &Graph,
    by_node: &mut Vec<Option<usize>>,
    defs: &mut Vec<Definition>,
    node: usize,
    Ghost(def_nodes): Ghost<Seq<usize>>,
    Ghost(calls): Ghost<Seq<usize>>,
) -> (r: (usize, Ghost<Seq<usize>>))
    requires
        graph.wf(),
        node < graph.exchange_view().instances_view().len(),
        builder_ok(*graph, old(by_node)@, old(defs)@, def_nodes, calls),
    ensures
        builder_ok(*graph, final(by_node)@, final(defs)@, r.1@, calls.push(node)),
        r.1@ == def_nodes || r.1@ == def_nodes.push(node),
        r.0 < r.1@.len(),
        r.1@[r.0 as int] == node,
{
    proof {
        lemma_builder_facts(*graph, by_node@, defs@, def_nodes, calls);
    }
    match by_node[node] {
        Some(i) => {
            proof {
                lemma_builder_hit(*graph, by_node@, defs@, def_nodes, calls, node);
            }
            (i, Ghost(def_nodes))
        },
        None => {
            let d = read_definition(graph, node);
            let idx = defs.len();
            let ghost old_by = by_node@;
            let ghost old_defs = defs@;
            defs.push(d);
            by_node.set(node, Some(idx));
            proof {
                lemma_builder_miss(*graph, old_by, by_node@, old_defs, defs@, def_nodes, calls, node, idx, d);
                assert(def_nodes.push(node)[idx as int] == node);
            }
            (idx, Ghost(def_nodes.push(node)))
        },
    }
}


/// True if the instance at `node` has a `PRODUCT_DEFINITION` record.
fn is_product_definition(graph: &Graph, node: usize) -> (b: bool)
    requires
        graph.wf(),
        node < graph.exchange_view().instances_view().len(),
    ensures
        b == has(graph.exchange_view().src_view(), recs_of(*graph, node as int), "PRODUCT_DEFINITION"),
{
    let exchange = graph.exchange();
    let instance = graph.instance(node);
    let records = exchange.records(instance).to_vec();
    let ghost recs = exchange.records_view(*instance);
    crate::lint::find_rec(&records, "PRODUCT_DEFINITION", Ghost(exchange.src_view()), Ghost(recs)).is_some()
}

/// Reads every `PRODUCT_DEFINITION`, in file order.
fn read_product_definitions(graph: &Graph) -> (r: (Vec<Option<usize>>, Vec<Definition>, Ghost<Seq<usize>>))
    requires
        graph.wf(),
    ensures
        builder_ok(*graph, r.0@, r.1@, r.2@, pd_nodes(*graph, graph.exchange_view().instances_view().len() as int)),
{
    let ghost g = *graph;
    let n = graph.len();
    let mut by_node: Vec<Option<usize>> = Vec::new();
    let mut k: usize = 0;
    while k < n
        invariant
            k <= n,
            by_node@.len() == k,
            forall|x: int| 0 <= x < k ==> #[trigger] by_node@[x] is None,
        decreases n - k,
    {
        by_node.push(None);
        k = k + 1;
    }
    let mut defs: Vec<Definition> = Vec::new();
    let ghost mut def_nodes: Seq<usize> = Seq::empty();
    proof {
        lemma_builder_empty(g, by_node@);
        assert(pd_nodes(g, 0) =~= Seq::<usize>::empty());
    }
    let mut k: usize = 0;
    while k < n
        invariant
            graph.wf(),
            g == *graph,
            n == g.exchange_view().instances_view().len(),
            k <= n,
            builder_ok(g, by_node@, defs@, def_nodes, pd_nodes(g, k as int)),
        decreases n - k,
    {
        if is_product_definition(graph, k) {
            let (_, Ghost(dn)) = definition_index(graph, &mut by_node, &mut defs, k, Ghost(def_nodes), Ghost(pd_nodes(g, k as int)));
            proof {
                def_nodes = dn;
                assert(pd_nodes(g, k + 1) =~= pd_nodes(g, k as int).push(k));
            }
        } else {
            proof {
                assert(pd_nodes(g, k + 1) =~= pd_nodes(g, k as int));
            }
        }
        k = k + 1;
    }
    (by_node, defs, Ghost(def_nodes))
}

/// True if `x` is the usage at `u`, read while the definitions were
/// `dn`.
spec fn usage_built(g: Graph, dn: Seq<usize>, u: usize, x: UsageView) -> bool {
    &&& usage_at(g, u as int) is Some
    &&& x.parent < dn.len() && dn[x.parent as int] == (usage_at(g, u as int)->0).1
    &&& x.child < dn.len() && dn[x.child as int] == (usage_at(g, u as int)->0).2
    &&& x == usage_record(g, u, x.parent, x.child)
}

proof fn lemma_usage_built_grows(g: Graph, dn: Seq<usize>, dn2: Seq<usize>, u: usize, x: UsageView)
    requires
        usage_built(g, dn, u, x),
        dn.len() <= dn2.len(),
        forall|j: int| 0 <= j < dn.len() ==> #[trigger] dn2[j] == dn[j],
    ensures
        usage_built(g, dn2, u, x),
{
}

/// The definition shapes the builder's state gives.
proof fn lemma_shapes_of(g: Graph, by_node: Seq<Option<usize>>, defs: Seq<Definition>, dn: Seq<usize>, calls: Seq<usize>, i: int)
    requires
        builder_ok(g, by_node, defs, dn, calls),
        0 <= i < dn.len(),
    ensures
        i < defs.len(),
        defs[i].shape_representations@ == shape_reps(g, dn[i] as int),
{
    lemma_builder_facts(g, by_node, defs, dn, calls);
    assert(defs[i]@ == definition_of(g, dn[i] as int));
}

/// Reads the usage at node `k`, if it is one, with the definitions it
/// names and its shape placement.
fn read_usage_at(
    graph: &Graph,
    by_node: &mut Vec<Option<usize>>,
    defs: &mut Vec<Definition>,
    k: usize,
    Ghost(dn): Ghost<Seq<usize>>,
    Ghost(calls): Ghost<Seq<usize>>,
) -> (r: (Option<Usage>, Ghost<Seq<usize>>))
    requires
        graph.wf(),
        k < graph.exchange_view().instances_view().len(),
        builder_ok(*graph, old(by_node)@, old(defs)@, dn, calls),
    ensures
        dn.len() <= r.1@.len(),
        forall|j: int| 0 <= j < dn.len() ==> #[trigger] r.1@[j] == dn[j],
        match usage_at(*graph, k as int) {
            Some((f, p, c)) => builder_ok(*graph, final(by_node)@, final(defs)@, r.1@, calls.push(p).push(c))
                && (r.0 matches Some(u) && usage_built(*graph, r.1@, k, u@)),
            None => builder_ok(*graph, final(by_node)@, final(defs)@, r.1@, calls) && r.0 is None,
        },
{
    let ghost g = *graph;
    match read_usage(graph, k) {
        Some((f, p, c)) => {
            let (pi, Ghost(dn1)) = definition_index(graph, by_node, defs, p, Ghost(dn), Ghost(calls));
            let (ci, Ghost(dn2)) = definition_index(graph, by_node, defs, c, Ghost(dn1), Ghost(calls.push(p)));
            proof {
                assert(dn2[pi as int] == p);
                lemma_shapes_of(g, by_node@, defs@, dn2, calls.push(p).push(c), pi as int);
                lemma_shapes_of(g, by_node@, defs@, dn2, calls.push(p).push(c), ci as int);
            }
            let placement = read_shape_placement(
                graph,
                k,
                defs[pi].shape_representations.as_slice(),
                defs[ci].shape_representations.as_slice(),
            );
            let u = Usage {
                instance: graph.instance(k).id,
                kind: f.kind,
                id: f.id,
                name: f.name,
                description: f.description,
                reference_designator: f.reference_designator,
                parent: pi,
                child: ci,
                quantity: f.quantity,
                placement,
            };
            (Some(u), Ghost(dn2))
        },
        None => (None, Ghost(dn)),
    }
}

/// Reads every usage, in file order, with the definitions it names and its
/// shape placement.
fn read_usages(
    graph: &Graph,
    by_node: &mut Vec<Option<usize>>,
    defs: &mut Vec<Definition>,
    Ghost(dn0): Ghost<Seq<usize>>,
) -> (r: (Vec<Usage>, Ghost<Seq<usize>>))
    requires
        graph.wf(),
        builder_ok(*graph, old(by_node)@, old(defs)@, dn0, pd_nodes(*graph, graph.exchange_view().instances_view().len() as int)),
    ensures
        ({
            let n = graph.exchange_view().instances_view().len() as int;
            let un = usage_nodes(*graph, n);
            &&& builder_ok(*graph, final(by_node)@, final(defs)@, r.1@, pd_nodes(*graph, n) + usage_ends(*graph, n))
            &&& r.0@.len() == un.len()
            &&& forall|i: int| 0 <= i < un.len() ==> usage_built(*graph, r.1@, #[trigger] un[i], r.0@[i]@)
        }),
{
    let ghost g = *graph;
    let n = graph.len();
    let ghost pd = pd_nodes(g, n as int);
    let ghost mut dn = dn0;
    let mut usages: Vec<Usage> = Vec::new();
    proof {
        assert(usage_ends(g, 0) =~= Seq::<usize>::empty());
        assert(pd + usage_ends(g, 0) =~= pd);
        assert(usage_nodes(g, 0) =~= Seq::<usize>::empty());
    }
    let mut k: usize = 0;
    while k < n
        invariant
            graph.wf(),
            g == *graph,
            n == g.exchange_view().instances_view().len(),
            pd == pd_nodes(g, n as int),
            k <= n,
            builder_ok(g, by_node@, defs@, dn, pd + usage_ends(g, k as int)),
            usages@.len() == usage_nodes(g, k as int).len(),
            forall|i: int| 0 <= i < usages@.len() ==> usage_built(g, dn, #[trigger] usage_nodes(g, k as int)[i], usages@[i]@),
        decreases n - k,
    {
        let ghost calls = pd + usage_ends(g, k as int);
        let ghost un = usage_nodes(g, k as int);
        let ghost dn_before = dn;
        let ghost old_usages = usages@;
        let (found, Ghost(dn2)) = read_usage_at(graph, by_node, defs, k, Ghost(dn), Ghost(calls));
        proof {
            dn = dn2;
        }
        match found {
            Some(u) => {
                usages.push(u);
                proof {
                    let (f, p, c) = usage_at(g, k as int)->0;
                    assert(usage_ends(g, k + 1) =~= usage_ends(g, k as int) + seq![p, c]);
                    assert(pd + usage_ends(g, k + 1) =~= calls.push(p).push(c));
                    assert(usage_nodes(g, k + 1) =~= un.push(k));
                    assert forall|i: int| 0 <= i < usages@.len() implies usage_built(g, dn, #[trigger] usage_nodes(g, k + 1)[i], usages@[i]@) by {
                        if i < old_usages.len() {
                            assert(usage_nodes(g, k + 1)[i] == un[i]);
                            assert(usages@[i] == old_usages[i]);
                            assert(usage_built(g, dn_before, un[i], old_usages[i]@));
                            lemma_usage_built_grows(g, dn_before, dn, un[i], old_usages[i]@);
                        }
                    }
                }
            },
            None => {
                proof {
                    assert(usage_ends(g, k + 1) =~= usage_ends(g, k as int));
                    assert(usage_nodes(g, k + 1) =~= un);
                }
            },
        }
        k = k + 1;
    }
    (usages, Ghost(dn))
}

/// The raw usages are the usages read.
proof fn lemma_raw_usages(
    g: Graph,
    by_node: Seq<Option<usize>>,
    defs: Seq<Definition>,
    dn: Seq<usize>,
    calls: Seq<usize>,
    un: Seq<usize>,
    usages: Seq<Usage>,
)
    requires
        builder_ok(g, by_node, defs, dn, calls),
        usages.len() == un.len(),
        forall|i: int| 0 <= i < un.len() ==> usage_built(g, dn, #[trigger] un[i], usages[i]@),
    ensures
        usage_views(usages) == un.map_values(|u: usize| raw_usage(g, dn, u)),
        forall|i: int| 0 <= i < usages.len() ==> (#[trigger] usages[i]).parent < dn.len() && usages[i].child < dn.len(),
{
    lemma_builder_facts(g, by_node, defs, dn, calls);
    assert forall|i: int| 0 <= i < usages.len() implies usage_views(usages)[i] == un.map_values(|u: usize| raw_usage(g, dn, u))[i]
        && (#[trigger] usages[i]).parent < dn.len() && usages[i].child < dn.len() by {
        assert(usage_built(g, dn, un[i], usages[i]@));
        let x = usages[i]@;
        lemma_position(dn, by_node, x.parent as int);
        lemma_position(dn, by_node, x.child as int);
    }
    assert(usage_views(usages) =~= un.map_values(|u: usize| raw_usage(g, dn, u)));
}

/// `u` with placement `p`.
pub open spec fn placed(u: UsageView, p: Option<Placement>) -> UsageView {
    UsageView {
        instance: u.instance,
        kind: u.kind,
        id: u.id,
        name: u.name,
        description: u.description,
        reference_designator: u.reference_designator,
        parent: u.parent,
        child: u.child,
        quantity: u.quantity,
        placement: p,
    }
}

/// How many of `usages[..k]` are unplaced usages of `c` in `p`.
fn count_unplaced(usages: &Vec<Usage>, p: usize, c: usize, k: usize) -> (r: usize)
    requires
        k <= usages@.len(),
    ensures
        r == unplaced_before(usage_views(usages@), p, c, k as int),
{
    let ghost raw = usage_views(usages@);
    let mut count: usize = 0;
    let mut i: usize = 0;
    while i < k
        invariant
            k <= usages@.len(),
            raw == usage_views(usages@),
            i <= k,
            count == unplaced_before(raw, p, c, i as int),
            count <= i,
        decreases k - i,
    {
        let u = &usages[i];
        proof {
            assert(raw[i as int] == u@);
        }
        if u.placement.is_none() && u.parent == p && u.child == c {
            count = count + 1;
        }
        i = i + 1;
    }
    count
}

proof fn lemma_unplaced_monotone(raw: Seq<UsageView>, p: usize, c: usize, i: int, j: int)
    requires
        0 <= i <= j,
    ensures
        unplaced_before(raw, p, c, i) <= unplaced_before(raw, p, c, j),
    decreases j - i,
{
    if i < j {
        lemma_unplaced_monotone(raw, p, c, i, j - 1);
    }
}

/// The final placement of each usage.
fn final_placements(graph: &Graph, defs: &Vec<Definition>, usages: &Vec<Usage>, Ghost(dn): Ghost<Seq<usize>>) -> (v: Vec<Option<Placement>>)
    requires
        graph.wf(),
        defs@.len() == dn.len(),
        forall|i: int| 0 <= i < defs@.len() ==> (#[trigger] defs@[i]).shape_representations@ == shape_reps(*graph, dn[i] as int),
        forall|i: int| 0 <= i < usages@.len() ==> (#[trigger] usages@[i]).parent < defs@.len() && usages@[i].child < defs@.len(),
    ensures
        v@.len() == usages@.len(),
        forall|i: int| 0 <= i < usages@.len() ==> #[trigger] v@[i] == final_placement(*graph, dn, usage_views(usages@), i),
{
    let ghost g = *graph;
    let ghost raw = usage_views(usages@);
    let total_len = usages.len();
    let mut out: Vec<Option<Placement>> = Vec::new();
    let mut i: usize = 0;
    while i < total_len
        invariant
            graph.wf(),
            g == *graph,
            raw == usage_views(usages@),
            total_len == usages@.len(),
            defs@.len() == dn.len(),
            forall|j: int| 0 <= j < defs@.len() ==> (#[trigger] defs@[j]).shape_representations@ == shape_reps(g, dn[j] as int),
            forall|j: int| 0 <= j < usages@.len() ==> (#[trigger] usages@[j]).parent < defs@.len() && usages@[j].child < defs@.len(),
            i <= total_len,
            out@.len() == i,
            forall|j: int| 0 <= j < i ==> #[trigger] out@[j] == final_placement(g, dn, raw, j),
        decreases total_len - i,
    {
        let u = &usages[i];
        proof {
            assert(raw[i as int] == u@);
        }
        let placement = match u.placement {
            Some(x) => Some(x),
            None => {
                let p = u.parent;
                let c = u.child;
                let total = count_unplaced(usages, p, c, total_len);
                let before = count_unplaced(usages, p, c, i);
                let items = read_mapped_items(
                    graph,
                    defs[p].shape_representations.as_slice(),
                    defs[c].shape_representations.as_slice(),
                );
                if items.len() == total {
                    proof {
                        assert(unplaced_before(raw, p, c, i + 1) == before + 1);
                        lemma_unplaced_monotone(raw, p, c, i + 1, total_len as int);
                    }
                    Some(items[before])
                } else {
                    None
                }
            },
        };
        out.push(placement);
        i = i + 1;
    }
    out
}

/// `v` in reverse order.
fn reversed<T>(v: Vec<T>) -> (r: Vec<T>)
    ensures
        r@.len() == v@.len(),
        forall|j: int| 0 <= j < v@.len() ==> #[trigger] r@[j] == v@[v@.len() - 1 - j],
{
    let ghost orig = v@;
    let mut v = v;
    let mut r: Vec<T> = Vec::new();
    while v.len() > 0
        invariant
            v@.len() + r@.len() == orig.len(),
            v@ == orig.take(v@.len() as int),
            forall|j: int| 0 <= j < r@.len() ==> #[trigger] r@[j] == orig[orig.len() - 1 - j],
        decreases v@.len(),
    {
        let ghost before = v@;
        let x = v.pop().unwrap();
        proof {
            assert(x == orig[before.len() - 1]);
            assert(v@ =~= orig.take(v@.len() as int));
        }
        r.push(x);
    }
    r
}

/// `usages` with the placements `placements`.
fn with_placements(usages: Vec<Usage>, placements: &Vec<Option<Placement>>) -> (r: Vec<Usage>)
    requires
        placements@.len() == usages@.len(),
    ensures
        r@.len() == usages@.len(),
        forall|i: int| 0 <= i < usages@.len() ==> (#[trigger] r@[i])@ == placed(usages@[i]@, placements@[i]),
{
    let ghost orig = usages@;
    let len = usages.len();
    let mut rev = reversed(usages);
    let mut out: Vec<Usage> = Vec::new();
    while rev.len() > 0
        invariant
            len == orig.len(),
            placements@.len() == len,
            rev@.len() + out@.len() == len,
            forall|j: int| 0 <= j < rev@.len() ==> #[trigger] rev@[j] == orig[len - 1 - j],
            forall|i: int| 0 <= i < out@.len() ==> (#[trigger] out@[i])@ == placed(orig[i]@, placements@[i]),
        decreases rev@.len(),
    {
        let ghost before = rev@;
        let mut u = rev.pop().unwrap();
        proof {
            assert(u == orig[out@.len() as int]);
            assert forall|j: int| 0 <= j < rev@.len() implies #[trigger] rev@[j] == orig[len - 1 - j] by {
                assert(rev@[j] == before[j]);
            }
        }
        u.placement = placements[out.len()];
        out.push(u);
    }
    out
}

/// The indices of the usages whose parent is `d`.
fn children_list(usages: &Vec<Usage>, d: usize) -> (v: Vec<usize>)
    ensures
        v@ == children_of(usage_views(usages@), d, usages@.len() as int),
{
    let ghost us = usage_views(usages@);
    let mut out: Vec<usize> = Vec::new();
    let mut i: usize = 0;
    while i < usages.len()
        invariant
            us == usage_views(usages@),
            i <= usages@.len(),
            out@ == children_of(us, d, i as int),
        decreases usages@.len() - i,
    {
        proof {
            assert(us[i as int] == usages@[i as int]@);
        }
        if usages[i].parent == d {
            out.push(i);
        }
        i = i + 1;
    }
    out
}

/// True if definition `d` is a component in one of `usages`.
fn is_component_exec(usages: &Vec<Usage>, d: usize) -> (b: bool)
    ensures
        b == is_component(usage_views(usages@), d),
{
    let ghost us = usage_views(usages@);
    let mut i: usize = 0;
    while i < usages.len()
        invariant
            us == usage_views(usages@),
            i <= usages@.len(),
            forall|j: int| 0 <= j < i ==> #[trigger] us[j].child != d,
        decreases usages@.len() - i,
    {
        proof {
            assert(us[i as int] == usages@[i as int]@);
        }
        if usages[i].child == d {
            proof {
                assert(us[i as int].child == d);
            }
            return true;
        }
        i = i + 1;
    }
    false
}

impl ProductStructure {
    /// Reads the product structure of the file behind `graph`. Usages whose
    /// parent or child is undefined are skipped.
    pub fn new(graph: &Graph) -> (s: ProductStructure)
        requires
            graph.wf(),
        ensures
            s.of(*graph),
            s.wf(),
    {
        let ghost g = *graph;
        let ghost n = g.exchange_view().instances_view().len() as int;
        let (mut by_node, mut defs, Ghost(dn0)) = read_product_definitions(graph);
        let (usages, Ghost(dn)) = read_usages(graph, &mut by_node, &mut defs, Ghost(dn0));
        let ghost calls = pd_nodes(g, n) + usage_ends(g, n);
        let ghost un = usage_nodes(g, n);
        proof {
            lemma_builder_facts(g, by_node@, defs@, dn, calls);
            lemma_raw_usages(g, by_node@, defs@, dn, calls, un, usages@);
            assert(dn == definition_nodes(g));
            assert forall|i: int| 0 <= i < defs@.len() implies (#[trigger] defs@[i]).shape_representations@ == shape_reps(g, dn[i] as int) by {
                assert(defs@[i]@ == definition_of(g, dn[i] as int));
            }
        }
        let placements = final_placements(graph, &defs, &usages, Ghost(dn));
        let ghost raw = usage_views(usages@);
        let usages = with_placements(usages, &placements);
        proof {
            assert(usage_views(usages@) =~= usages_of(g)) by {
                assert forall|i: int| 0 <= i < raw.len() implies usage_views(usages@)[i] == usages_of(g)[i] by {
                    assert(usages@[i]@ == placed(raw[i], placements@[i]));
                }
            }
        }
        let ghost us = usage_views(usages@);
        let count = defs.len();
        let mut children: Vec<Vec<usize>> = Vec::new();
        let mut roots: Vec<usize> = Vec::new();
        let mut d: usize = 0;
        while d < count
            invariant
                us == usage_views(usages@),
                count == defs@.len(),
                d <= count,
                children@.len() == d,
                forall|e: int| 0 <= e < d ==> (#[trigger] children@[e])@ == children_of(us, e as usize, usages@.len() as int),
                roots@ == roots_upto(us, d as int),
            decreases count - d,
        {
            children.push(children_list(&usages, d));
            if !is_component_exec(&usages, d) {
                roots.push(d);
            }
            proof {
                assert(roots_upto(us, d + 1) == roots_upto(us, d as int) + if is_component(us, d) {
                    Seq::<usize>::empty()
                } else {
                    seq![d]
                });
            }
            d = d + 1;
        }
        let s = ProductStructure { definitions: defs, usages, roots, children };
        proof {
            assert(s.definitions_view() =~= definition_nodes(g).map_values(|x: usize| definition_of(g, x as int))) by {
                assert forall|i: int| 0 <= i < s.definitions@.len() implies s.definitions_view()[i] == definition_nodes(g).map_values(|x: usize| definition_of(g, x as int))[i] by {
                    assert(s.definitions@[i]@ == definition_of(g, dn[i] as int));
                }
            }
            assert forall|i: int| 0 <= i < s.usages@.len() implies (#[trigger] s.usages@[i]).parent < s.definitions@.len()
                && s.usages@[i].child < s.definitions@.len() by {
                assert(us[i] == s.usages@[i]@);
                assert(raw[i].parent == us[i].parent);
            }
        }
        s
    }

    /// Every product definition, in file order of first appearance.
    pub fn definitions(&self) -> (r: &[Definition])
        ensures
            definition_views(r@) == self.definitions_view(),
    {
        self.definitions.as_slice()
    }

    /// Every assembly usage, in file order.
    pub fn usages(&self) -> (r: &[Usage])
        ensures
            usage_views(r@) == self.usages_view(),
    {
        self.usages.as_slice()
    }

    /// Definitions that are not a component of anything: top-level
    /// assemblies and stand-alone parts.
    pub fn roots(&self) -> (r: &[usize])
        ensures
            r@ == self.roots_view(),
    {
        self.roots.as_slice()
    }
}


/// The number a `MEASURE_WITH_UNIT` gives, as written: its first
/// attribute's value, typed (such as `COUNT_MEASURE(4.)`) or plain.
pub open spec fn measure_literal(g: Graph, id: u64) -> Option<Seq<char>> {
    let src = g.exchange_view().src_view();
    match node_of(g, id) {
        Some(n) => match primary(src, recs_of(g, n as int), "MEASURE_WITH_UNIT") {
            Some(k) => match param_view(recs_of(g, n as int)[k].1, 0) {
                Some(ParamView::Typed(_, ps)) => match param_view(ps, 0) {
                    Some(ParamView::Literal(t)) => Some(literal_text(src, t)),
                    _ => None,
                },
                Some(ParamView::Literal(t)) => Some(literal_text(src, t)),
                _ => None,
            },
            None => None,
        },
        None => None,
    }
}

/// The number the `MEASURE_WITH_UNIT` `#id` gives, as written, such as
/// `4.` for a usage's quantity; `None` if there is no such measure or its
/// value is not a literal.
pub fn measure_text(graph: &Graph, id: u64) -> (r: Option<String>)
    requires
        graph.wf(),
    ensures
        option_view(r) == measure_literal(*graph, id),
{
    let exchange = graph.exchange();
    let node = match graph.node(id) {
        Some(n) => n,
        None => {
            return None;
        },
    };
    let instance = graph.instance(node);
    let records = exchange.records(instance).to_vec();
    let ghost recs = exchange.records_view(*instance);
    let k = match primary_exec(&records, "MEASURE_WITH_UNIT", Ghost(exchange.src_view()), Ghost(recs)) {
        Some(k) => k,
        None => {
            return None;
        },
    };
    let record = records[k];
    match crate::props::param_at(record, 0) {
        Some(p) => match p.typed() {
            Some(typed) => match crate::props::param_at(typed, 0) {
                Some(q) => match q.literal() {
                    Some(l) => Some(crate::props::literal_value(l)),
                    None => None,
                },
                None => None,
            },
            None => match p.literal() {
                Some(l) => Some(crate::props::literal_value(l)),
                None => None,
            },
        },
        None => None,
    }
}

/// The indices of `idxs` whose usage in `us` has child `c`.
pub open spec fn with_child(us: Seq<UsageView>, idxs: Seq<usize>, c: usize) -> Seq<usize>
    decreases idxs.len(),
{
    if idxs.len() == 0 {
        Seq::empty()
    } else {
        with_child(us, idxs.drop_last(), c) + if us[idxs.last() as int].child == c {
            seq![idxs.last()]
        } else {
            Seq::empty()
        }
    }
}

/// The children of the usages `idxs` of `us`, in order of first use.
pub open spec fn child_definitions(us: Seq<UsageView>, idxs: Seq<usize>) -> Seq<usize> {
    first_seen(idxs.map_values(|i: usize| us[i as int].child))
}

impl ProductStructure {
    /// The usages whose parent is `definition`, in file order.
    pub fn children(&self, definition: usize) -> (r: Vec<&Usage>)
        requires
            self.wf(),
            definition < self.definitions_view().len(),
        ensures
            ({
                let idxs = children_of(self.usages_view(), definition, self.usages_view().len() as int);
                &&& r@.len() == idxs.len()
                &&& forall|k: int| 0 <= k < idxs.len() ==> (#[trigger] r@[k])@ == self.usages_view()[idxs[k] as int]
            }),
    {
        let ghost us = self.usages_view();
        let idxs = &self.children[definition];
        let ghost ix = children_of(us, definition, us.len() as int);
        proof {
            lemma_children_in_range(us, definition, us.len() as int);
        }
        let mut out: Vec<&Usage> = Vec::new();
        let mut k: usize = 0;
        while k < idxs.len()
            invariant
                self.wf(),
                us == self.usages_view(),
                idxs@ == ix,
                forall|j: int| 0 <= j < ix.len() ==> #[trigger] ix[j] < us.len(),
                k <= ix.len(),
                out@.len() == k,
                forall|j: int| 0 <= j < k ==> (#[trigger] out@[j])@ == us[ix[j] as int],
            decreases ix.len() - k,
        {
            let i = idxs[k];
            proof {
                assert(ix[k as int] < us.len());
            }
            out.push(&self.usages[i]);
            k = k + 1;
        }
        out
    }

    /// The components of `definition`, each with every usage of it, in order
    /// of first use.
    pub fn components(&self, definition: usize) -> (r: Vec<(usize, Vec<&Usage>)>)
        requires
            self.wf(),
            definition < self.definitions_view().len(),
        ensures
            ({
                let us = self.usages_view();
                let idxs = children_of(us, definition, us.len() as int);
                let cs = child_definitions(us, idxs);
                &&& r@.len() == cs.len()
                &&& forall|j: int| 0 <= j < cs.len() ==> (#[trigger] r@[j]).0 == cs[j]
                    && r@[j].1@.len() == with_child(us, idxs, cs[j]).len()
                    && forall|k: int| 0 <= k < r@[j].1@.len() ==> (#[trigger] r@[j].1@[k])@ == us[with_child(us, idxs, cs[j])[k] as int]
            }),
    {
        let ghost us = self.usages_view();
        let idxs = &self.children[definition];
        let ghost ix = children_of(us, definition, us.len() as int);
        proof {
            lemma_children_in_range(us, definition, us.len() as int);
        }
        let cs = self.component_definitions(definition);
        let mut out: Vec<(usize, Vec<&Usage>)> = Vec::new();
        let mut j: usize = 0;
        while j < cs.len()
            invariant
                self.wf(),
                us == self.usages_view(),
                idxs@ == ix,
                forall|m: int| 0 <= m < ix.len() ==> #[trigger] ix[m] < us.len(),
                j <= cs@.len(),
                out@.len() == j,
                forall|m: int| 0 <= m < j ==> (#[trigger] out@[m]).0 == cs@[m]
                    && out@[m].1@.len() == with_child(us, ix, cs@[m]).len()
                    && forall|q: int| 0 <= q < out@[m].1@.len() ==> (#[trigger] out@[m].1@[q])@ == us[with_child(us, ix, cs@[m])[q] as int],
            decreases cs@.len() - j,
        {
            let c = cs[j];
            let group = self.usages_of_child(idxs, c);
            out.push((c, group));
            j = j + 1;
        }
        out
    }

    /// The components of `definition`, in order of first use.
    fn component_definitions(&self, definition: usize) -> (cs: Vec<usize>)
        requires
            self.wf(),
            definition < self.definitions_view().len(),
        ensures
            cs@ == child_definitions(self.usages_view(), children_of(self.usages_view(), definition, self.usages_view().len() as int)),
    {
        let ghost us = self.usages_view();
        let idxs = &self.children[definition];
        let ghost ix = children_of(us, definition, us.len() as int);
        proof {
            lemma_children_in_range(us, definition, us.len() as int);
        }
        let mut cs: Vec<usize> = Vec::new();
        let mut k: usize = 0;
        proof {
            assert(ix.take(0).map_values(|i: usize| us[i as int].child) =~= Seq::<usize>::empty());
        }
        while k < idxs.len()
            invariant
                self.wf(),
                us == self.usages_view(),
                idxs@ == ix,
                forall|j: int| 0 <= j < ix.len() ==> #[trigger] ix[j] < us.len(),
                k <= ix.len(),
                cs@ == first_seen(ix.take(k as int).map_values(|i: usize| us[i as int].child)),
            decreases ix.len() - k,
        {
            let c = self.usages[idxs[k]].child;
            proof {
                assert(ix[k as int] < us.len());
                assert(us[ix[k as int] as int] == self.usages@[ix[k as int] as int]@);
                assert(ix.take(k + 1).map_values(|i: usize| us[i as int].child) =~= ix.take(k as int).map_values(
                    |i: usize| us[i as int].child,
                ).push(c));
            }
            let mut found = false;
            let mut j: usize = 0;
            while j < cs.len()
                invariant
                    j <= cs@.len(),
                    found <==> exists|m: int| 0 <= m < j && cs@[m] == c,
                decreases cs@.len() - j,
            {
                if cs[j] == c {
                    found = true;
                }
                j = j + 1;
            }
            proof {
                let s1 = ix.take(k as int).map_values(|i: usize| us[i as int].child);
                let s2 = ix.take(k + 1).map_values(|i: usize| us[i as int].child);
                assert(s2.drop_last() =~= s1);
                assert(s2.last() == c);
                if cs@.contains(c) {
                    let m = choose|m: int| 0 <= m < cs@.len() && cs@[m] == c;
                    assert(found);
                }
                assert(found ==> cs@.contains(c));
            }
            if !found {
                cs.push(c);
            }
            k = k + 1;
        }
        proof {
            assert(ix.take(ix.len() as int) =~= ix);
        }
        cs
    }

    /// The usages among `idxs` whose child is `c`.
    fn usages_of_child(&self, idxs: &Vec<usize>, c: usize) -> (r: Vec<&Usage>)
        requires
            forall|m: int| 0 <= m < idxs@.len() ==> #[trigger] idxs@[m] < self.usages_view().len(),
        ensures
            r@.len() == with_child(self.usages_view(), idxs@, c).len(),
            forall|q: int| 0 <= q < r@.len() ==> (#[trigger] r@[q])@ == self.usages_view()[with_child(self.usages_view(), idxs@, c)[q] as int],
    {
        let ghost us = self.usages_view();
        let mut out: Vec<&Usage> = Vec::new();
        let mut k: usize = 0;
        while k < idxs.len()
            invariant
                us == self.usages_view(),
                forall|m: int| 0 <= m < idxs@.len() ==> #[trigger] idxs@[m] < us.len(),
                k <= idxs@.len(),
                out@.len() == with_child(us, idxs@.take(k as int), c).len(),
                forall|q: int| 0 <= q < out@.len() ==> (#[trigger] out@[q])@ == us[with_child(us, idxs@.take(k as int), c)[q] as int],
            decreases idxs@.len() - k,
        {
            let i = idxs[k];
            proof {
                assert(i < us.len());
                assert(us[i as int] == self.usages@[i as int]@);
                assert(idxs@.take(k + 1).drop_last() =~= idxs@.take(k as int));
            }
            if self.usages[i].child == c {
                out.push(&self.usages[i]);
            }
            k = k + 1;
        }
        proof {
            assert(idxs@.take(k as int) =~= idxs@);
        }
        out
    }
}

proof fn lemma_children_in_range(us: Seq<UsageView>, d: usize, k: int)
    requires
        k <= us.len(),
    ensures
        forall|j: int| 0 <= j < children_of(us, d, k).len() ==> #[trigger] children_of(us, d, k)[j] < us.len(),
    decreases k,
{
    if k > 0 {
        lemma_children_in_range(us, d, k - 1);
        assert forall|j: int| 0 <= j < children_of(us, d, k).len() implies #[trigger] children_of(us, d, k)[j] < us.len() by {
            if j >= children_of(us, d, k - 1).len() {
                assert(children_of(us, d, k)[j] == (k - 1) as usize);
            } else {
                assert(children_of(us, d, k)[j] == children_of(us, d, k - 1)[j]);
            }
        }
    }
}


/// The `#id`s of the structure's definitions, in order.
pub(crate) fn definition_ids(structure: &ProductStructure) -> (v: Vec<u64>)
    ensures
        v@ == structure.definitions_view().map_values(|d: DefinitionView| d.instance),
{
    let defs = structure.definitions();
    let mut out: Vec<u64> = Vec::new();
    let mut i: usize = 0;
    while i < defs.len()
        invariant
            definition_views(defs@) == structure.definitions_view(),
            i <= defs@.len(),
            out@ == structure.definitions_view().take(i as int).map_values(|d: DefinitionView| d.instance),
        decreases defs@.len() - i,
    {
        proof {
            assert(structure.definitions_view()[i as int] == defs@[i as int]@);
            assert(structure.definitions_view().take(i + 1).map_values(|d: DefinitionView| d.instance) =~= structure.definitions_view().take(
                i as int,
            ).map_values(|d: DefinitionView| d.instance).push(defs@[i as int].instance));
        }
        out.push(defs[i].instance);
        i = i + 1;
    }
    proof {
        assert(structure.definitions_view().take(i as int) =~= structure.definitions_view());
    }
    out
}


proof fn lemma_roots_upto(us: Seq<UsageView>, k: int)
    requires
        0 <= k <= usize::MAX,
    ensures
        forall|j: int| 0 <= j < roots_upto(us, k).len() ==> #[trigger] roots_upto(us, k)[j] < k && !is_component(us, roots_upto(us, k)[j]),
        forall|d: int| 0 <= d < k && !is_component(us, d as usize) ==> #[trigger] roots_upto(us, k).contains(d as usize),
    decreases k,
{
    if k > 0 {
        lemma_roots_upto(us, k - 1);
        let prev = roots_upto(us, k - 1);
        let cur = roots_upto(us, k);
        assert forall|j: int| 0 <= j < cur.len() implies #[trigger] cur[j] < k && !is_component(us, cur[j]) by {
            if j < prev.len() {
                assert(cur[j] == prev[j]);
            }
        }
        assert forall|d: int| 0 <= d < k && !is_component(us, d as usize) implies #[trigger] cur.contains(d as usize) by {
            if d < k - 1 {
                assert(prev.contains(d as usize));
                let j = choose|j: int| 0 <= j < prev.len() && prev[j] == d as usize;
                assert(cur[j] == prev[j]);
            } else {
                assert(cur[cur.len() - 1] == d as usize);
            }
        }
    }
}

proof fn lemma_children_upto(us: Seq<UsageView>, d: usize, k: int)
    requires
        0 <= k <= us.len(),
        k <= usize::MAX,
    ensures
        forall|j: int| 0 <= j < children_of(us, d, k).len() ==> #[trigger] children_of(us, d, k)[j] < k && us[children_of(us, d, k)[j] as int].parent == d,
        forall|i: int| 0 <= i < k && #[trigger] us[i].parent == d ==> children_of(us, d, k).contains(i as usize),
    decreases k,
{
    if k > 0 {
        lemma_children_upto(us, d, k - 1);
        let prev = children_of(us, d, k - 1);
        let cur = children_of(us, d, k);
        assert forall|j: int| 0 <= j < cur.len() implies #[trigger] cur[j] < k && us[cur[j] as int].parent == d by {
            if j < prev.len() {
                assert(cur[j] == prev[j]);
            }
        }
        assert forall|i: int| 0 <= i < k && #[trigger] us[i].parent == d implies cur.contains(i as usize) by {
            if i < k - 1 {
                let j = choose|j: int| 0 <= j < prev.len() && prev[j] == i as usize;
                assert(cur[j] == prev[j]);
            } else {
                assert(cur[cur.len() - 1] == i as usize);
            }
        }
    }
}

/// The roots of a structure read from a file are exactly the definitions
/// that no usage names as its component.
pub proof fn lemma_roots_are_unused_definitions(s: ProductStructure, g: Graph)
    requires
        s.of(g),
        s.definitions_view().len() <= usize::MAX,
    ensures
        forall|j: int| 0 <= j < s.roots_view().len() ==> #[trigger] s.roots_view()[j] < s.definitions_view().len()
            && !is_component(s.usages_view(), s.roots_view()[j]),
        forall|d: int| 0 <= d < s.definitions_view().len() && !is_component(s.usages_view(), d as usize)
            ==> #[trigger] s.roots_view().contains(d as usize),
{
    assert(s.definitions_view().len() == definition_nodes(g).len());
    lemma_roots_upto(s.usages_view(), definition_nodes(g).len() as int);
}

/// A definition's children are the usages that name it as their parent,
/// each once, in file order.
pub proof fn lemma_children_are_the_usages_of_a_parent(us: Seq<UsageView>, d: usize)
    requires
        us.len() <= usize::MAX,
    ensures
        forall|j: int| 0 <= j < children_of(us, d, us.len() as int).len() ==> #[trigger] children_of(us, d, us.len() as int)[j] < us.len()
            && us[children_of(us, d, us.len() as int)[j] as int].parent == d,
        forall|j: int, m: int| 0 <= j < m < children_of(us, d, us.len() as int).len() ==> #[trigger] children_of(us, d, us.len() as int)[j]
            < #[trigger] children_of(us, d, us.len() as int)[m],
        forall|i: int| 0 <= i < us.len() && #[trigger] us[i].parent == d ==> children_of(us, d, us.len() as int).contains(i as usize),
{
    lemma_children_upto(us, d, us.len() as int);
    lemma_children_increasing(us, d, us.len() as int);
}

proof fn lemma_children_increasing(us: Seq<UsageView>, d: usize, k: int)
    requires
        0 <= k <= us.len(),
        k <= usize::MAX,
    ensures
        forall|j: int, m: int| 0 <= j < m < children_of(us, d, k).len() ==> #[trigger] children_of(us, d, k)[j] < #[trigger] children_of(us, d, k)[m],
    decreases k,
{
    if k > 0 {
        lemma_children_increasing(us, d, k - 1);
        lemma_children_upto(us, d, k - 1);
        let prev = children_of(us, d, k - 1);
        let cur = children_of(us, d, k);
        assert forall|j: int, m: int| 0 <= j < m < cur.len() implies #[trigger] cur[j] < #[trigger] cur[m] by {
            assert(cur[j] == prev[j]);
            if m < prev.len() {
                assert(cur[m] == prev[m]);
            } else {
                assert(cur[m] == (k - 1) as usize);
            }
        }
    }
}


// ---------------------------------------------------------------------
// Multi-level bills of materials.
// ---------------------------------------------------------------------

/// Assembly trees deeper than this are not descended further.
pub const MAX_DEPTH: usize = 1024;

/// Multi-level bills of materials larger than this are truncated, so that
/// expanding every repeated sub-assembly of a crafted file cannot exhaust
/// memory.
pub const MAX_BOM_NODES: usize = 1000000;

/// Options for [`ProductStructure::bom_tree`].
#[derive(Debug, Clone, Copy, PartialEq, Eq, Structural)]
pub struct BomTreeOptions {
    /// List components at most this many levels below the root; `None`
    /// lists all. A depth of 1 lists the root's direct components.
    pub depth: Option<usize>,
    /// Expand each sub-assembly only the first time it appears; later
    /// occurrences are marked repeated.
    pub dedupe: bool,
}

impl Default for BomTreeOptions {
    fn default() -> (o: Self)
        ensures
            o.depth is None,
            o.dedupe,
    {
        BomTreeOptions { depth: None, dedupe: true }
    }
}

impl BomTreeOptions {
    /// Options with the given depth limit and deduplication.
    pub fn new(depth: Option<usize>, dedupe: bool) -> (o: Self)
        ensures
            o.depth == depth,
            o.dedupe == dedupe,
    {
        BomTreeOptions { depth, dedupe }
    }
}

/// One node of a multi-level bill of materials, listed depth first. Its
/// quantity per parent is the sum of its usages' quantities, and its total
/// the product of the quantities along its path; the root has no usages
/// and counts once.
pub struct BomEntry {
    /// An index into [`ProductStructure::definitions`].
    pub definition: usize,
    /// How many levels below the root: 0 for the root.
    pub level: usize,
    /// The usages of this component in its parent, as indices into
    /// [`ProductStructure::usages`].
    pub usages: Vec<usize>,
    /// True if the definition has components of its own, even when they are
    /// not listed under this node.
    pub is_assembly: bool,
    /// True if this sub-assembly was already expanded earlier in the tree,
    /// so its components are not repeated here.
    pub repeated: bool,
    /// True if components exist but were cut off: by the depth limit, by a
    /// cycle, or by the size limit.
    pub truncated: bool,
}

/// A [`BomEntry`] as plain values.
pub struct BomEntryView {
    pub definition: usize,
    pub level: nat,
    pub usages: Seq<usize>,
    pub is_assembly: bool,
    pub repeated: bool,
    pub truncated: bool,
}

impl View for BomEntry {
    type V = BomEntryView;

    open spec fn view(&self) -> BomEntryView {
        BomEntryView {
            definition: self.definition,
            level: self.level as nat,
            usages: self.usages@,
            is_assembly: self.is_assembly,
            repeated: self.repeated,
            truncated: self.truncated,
        }
    }
}

/// The views of `v`.
pub open spec fn entry_views(v: Seq<BomEntry>) -> Seq<BomEntryView> {
    v.map_values(|e: BomEntry| e@)
}

/// The state of a walk: the sub-assemblies expanded so far, those on the
/// path from the root, and how many nodes may still be made.
pub struct WalkState {
    pub expanded: Seq<bool>,
    pub path: Seq<bool>,
    pub budget: nat,
}

/// The components of definition `d` in `us`, in order of first use.
pub open spec fn components_of(us: Seq<UsageView>, d: usize) -> Seq<usize> {
    child_definitions(us, children_of(us, d, us.len() as int))
}

/// The usages of component `c` in definition `d`.
pub open spec fn group_of(us: Seq<UsageView>, d: usize, c: usize) -> Seq<usize> {
    with_child(us, children_of(us, d, us.len() as int), c)
}

/// True if `options` lists nothing at `level` or below.
pub open spec fn too_deep(options: BomTreeOptions, level: nat) -> bool {
    match options.depth {
        Some(depth) => level >= depth,
        None => false,
    }
}

/// The node for definition `d`, used through `group`, at `level`, and what
/// follows it, with the state after.
pub open spec fn walk_node(
    us: Seq<UsageView>,
    d: usize,
    group: Seq<usize>,
    level: nat,
    options: BomTreeOptions,
    st: WalkState,
) -> (Seq<BomEntryView>, WalkState)
    decreases MAX_DEPTH - level, 1int, 0int,
{
    let st1 = WalkState { expanded: st.expanded, path: st.path, budget: if st.budget > 0 { (st.budget - 1) as nat } else { 0 } };
    let is_assembly = children_of(us, d, us.len() as int).len() > 0;
    let entry = |repeated: bool, truncated: bool|
        BomEntryView { definition: d, level, usages: group, is_assembly, repeated, truncated };
    if !is_assembly {
        (seq![entry(false, false)], st1)
    } else if options.dedupe && st1.expanded[d as int] {
        (seq![entry(true, false)], st1)
    } else if too_deep(options, level) || st1.path[d as int] || level >= MAX_DEPTH || st1.budget == 0 {
        (seq![entry(false, true)], st1)
    } else {
        let st2 = WalkState { expanded: st1.expanded.update(d as int, true), path: st1.path.update(d as int, true), budget: st1.budget };
        let r = walk_components(us, d, components_of(us, d), 0, level, options, st2);
        (
            seq![entry(false, r.2)] + r.0,
            WalkState { expanded: r.1.expanded, path: r.1.path.update(d as int, false), budget: r.1.budget },
        )
    }
}

/// The nodes for the components `cs[k..]` of `d`, at `level + 1`, with the
/// state after and whether the node budget cut them off.
pub open spec fn walk_components(
    us: Seq<UsageView>,
    d: usize,
    cs: Seq<usize>,
    k: int,
    level: nat,
    options: BomTreeOptions,
    st: WalkState,
) -> (Seq<BomEntryView>, WalkState, bool)
    decreases MAX_DEPTH - level, 0int, cs.len() - k,
{
    if k < 0 || k >= cs.len() || level >= MAX_DEPTH {
        (Seq::empty(), st, false)
    } else if st.budget == 0 {
        (Seq::empty(), st, true)
    } else {
        let a = walk_node(us, cs[k], group_of(us, d, cs[k]), level + 1, options, st);
        let b = walk_components(us, d, cs, k + 1, level, options, a.1);
        (a.0 + b.0, b.1, b.2)
    }
}

/// The multi-level bill of materials of `root` in `us` over `n`
/// definitions.
pub open spec fn bom_shape(us: Seq<UsageView>, n: nat, root: usize, options: BomTreeOptions) -> Seq<BomEntryView> {
    let st = WalkState {
        expanded: Seq::new(n, |i: int| false),
        path: Seq::new(n, |i: int| false),
        budget: MAX_BOM_NODES as nat,
    };
    walk_node(us, root, Seq::empty(), 0, options, st).0
}

/// The walk's state.
struct Walk {
    expanded: Vec<bool>,
    path: Vec<bool>,
    budget: usize,
}

impl Walk {
    spec fn state(&self) -> WalkState {
        WalkState { expanded: self.expanded@, path: self.path@, budget: self.budget as nat }
    }
}

proof fn lemma_first_seen_from(s: Seq<usize>)
    ensures
        forall|j: int| 0 <= j < first_seen(s).len() ==> s.contains(#[trigger] first_seen(s)[j]),
    decreases s.len(),
{
    if s.len() > 0 {
        lemma_first_seen_from(s.drop_last());
        let r = first_seen(s.drop_last());
        assert forall|j: int| 0 <= j < first_seen(s).len() implies s.contains(#[trigger] first_seen(s)[j]) by {
            if j < r.len() {
                assert(first_seen(s)[j] == r[j]);
                assert(s.drop_last().contains(r[j]));
                let m = choose|m: int| 0 <= m < s.drop_last().len() && s.drop_last()[m] == r[j];
                assert(s[m] == r[j]);
            } else {
                assert(s[s.len() - 1] == first_seen(s)[j]);
            }
        }
    }
}

impl ProductStructure {
    /// The components of `d` name definitions.
    proof fn lemma_components_in_range(&self, d: usize)
        requires
            self.wf(),
        ensures
            forall|j: int| 0 <= j < components_of(self.usages_view(), d).len() ==> #[trigger] components_of(self.usages_view(), d)[j]
                < self.definitions_view().len(),
    {
        let us = self.usages_view();
        let ix = children_of(us, d, us.len() as int);
        let s = ix.map_values(|i: usize| us[i as int].child);
        lemma_children_in_range(us, d, us.len() as int);
        lemma_first_seen_from(s);
        assert forall|j: int| 0 <= j < components_of(us, d).len() implies #[trigger] components_of(us, d)[j]
            < self.definitions_view().len() by {
            let c = components_of(us, d)[j];
            assert(s.contains(c));
            let m = choose|m: int| 0 <= m < s.len() && s[m] == c;
            assert(ix[m] < us.len());
            assert(us[ix[m] as int] == self.usages@[ix[m] as int]@);
        }
    }

    /// The indices among `idxs` whose usage has child `c`.
    fn indices_of_child(&self, idxs: &Vec<usize>, c: usize) -> (r: Vec<usize>)
        requires
            forall|m: int| 0 <= m < idxs@.len() ==> #[trigger] idxs@[m] < self.usages_view().len(),
        ensures
            r@ == with_child(self.usages_view(), idxs@, c),
    {
        let ghost us = self.usages_view();
        let mut out: Vec<usize> = Vec::new();
        let mut k: usize = 0;
        while k < idxs.len()
            invariant
                us == self.usages_view(),
                forall|m: int| 0 <= m < idxs@.len() ==> #[trigger] idxs@[m] < us.len(),
                k <= idxs@.len(),
                out@ == with_child(us, idxs@.take(k as int), c),
            decreases idxs@.len() - k,
        {
            let i = idxs[k];
            proof {
                assert(i < us.len());
                assert(us[i as int] == self.usages@[i as int]@);
                assert(idxs@.take(k + 1).drop_last() =~= idxs@.take(k as int));
            }
            if self.usages[i].child == c {
                out.push(i);
            }
            k = k + 1;
        }
        proof {
            assert(idxs@.take(k as int) =~= idxs@);
        }
        out
    }

    /// The node for `d`, used through `group`, at `level`, and what follows
    /// it.
    fn walk(&self, d: usize, group: Vec<usize>, level: usize, options: BomTreeOptions, st: &mut Walk) -> (v: Vec<BomEntry>)
        requires
            self.wf(),
            d < self.definitions_view().len(),
            level <= MAX_DEPTH,
            old(st).expanded@.len() == self.definitions_view().len(),
            old(st).path@.len() == self.definitions_view().len(),
        ensures
            final(st).expanded@.len() == self.definitions_view().len(),
            final(st).path@.len() == self.definitions_view().len(),
            (entry_views(v@), final(st).state()) == walk_node(self.usages_view(), d, group@, level as nat, options, old(st).state()),
        decreases MAX_DEPTH - level,
    {
        let ghost us = self.usages_view();
        st.budget = if st.budget > 0 { st.budget - 1 } else { 0 };
        let is_assembly = self.children[d].len() > 0;
        let deep = match options.depth {
            Some(depth) => level >= depth,
            None => false,
        };
        if !is_assembly {
            let e = BomEntry { definition: d, level, usages: group, is_assembly, repeated: false, truncated: false };
            let mut v: Vec<BomEntry> = Vec::new();
            v.push(e);
            proof {
                assert(entry_views(v@) =~= seq![e@]);
            }
            return v;
        }
        if options.dedupe && st.expanded[d] {
            let e = BomEntry { definition: d, level, usages: group, is_assembly, repeated: true, truncated: false };
            let mut v: Vec<BomEntry> = Vec::new();
            v.push(e);
            proof {
                assert(entry_views(v@) =~= seq![e@]);
            }
            return v;
        }
        if deep || st.path[d] || level >= MAX_DEPTH || st.budget == 0 {
            let e = BomEntry { definition: d, level, usages: group, is_assembly, repeated: false, truncated: true };
            let mut v: Vec<BomEntry> = Vec::new();
            v.push(e);
            proof {
                assert(entry_views(v@) =~= seq![e@]);
            }
            return v;
        }
        st.expanded.set(d, true);
        st.path.set(d, true);
        let ghost st2 = st.state();
        let cs = self.component_definitions(d);
        let idxs = &self.children[d];
        proof {
            self.lemma_components_in_range(d);
            lemma_children_in_range(us, d, us.len() as int);
            assert(cs@ == components_of(us, d));
            assert forall|j: int| 0 <= j < cs@.len() implies #[trigger] cs@[j] < self.definitions_view().len() by {
                assert(cs@[j] == components_of(us, d)[j]);
            }
        }
        let ghost whole = walk_components(us, d, cs@, 0, level as nat, options, st2);
        let mut kids: Vec<BomEntry> = Vec::new();
        let mut cut = false;
        let mut k: usize = 0;
        while k < cs.len()
            invariant
                self.wf(),
                us == self.usages_view(),
                d < self.definitions_view().len(),
                level < MAX_DEPTH,
                cs@ == components_of(us, d),
                idxs@ == children_of(us, d, us.len() as int),
                forall|m: int| 0 <= m < idxs@.len() ==> #[trigger] idxs@[m] < us.len(),
                forall|j: int| 0 <= j < cs@.len() ==> #[trigger] cs@[j] < self.definitions_view().len(),
                st.expanded@.len() == self.definitions_view().len(),
                st.path@.len() == self.definitions_view().len(),
                k <= cs@.len(),
                cut ==> st.budget == 0 && k < cs@.len(),
                whole == ({
                    let rest = walk_components(us, d, cs@, k as int, level as nat, options, st.state());
                    (entry_views(kids@) + rest.0, rest.1, rest.2)
                }),
            ensures
                cut ==> st.budget == 0 && k < cs@.len(),
                !cut ==> k == cs@.len(),
            decreases cs@.len() - k,
        {
            if st.budget == 0 {
                cut = true;
                break;
            }
            let c = cs[k];
            let group_c = self.indices_of_child(idxs, c);
            let ghost before = st.state();
            let ghost kids_before = entry_views(kids@);
            let mut lines = self.walk(c, group_c, level + 1, options, st);
            proof {
                let a = walk_node(us, c, group_of(us, d, c), (level + 1) as nat, options, before);
                let b = walk_components(us, d, cs@, k + 1, level as nat, options, a.1);
                assert(walk_components(us, d, cs@, k as int, level as nat, options, before) == (a.0 + b.0, b.1, b.2));
            }
            let ghost lv = entry_views(lines@);
            kids.append(&mut lines);
            proof {
                assert(entry_views(kids@) =~= kids_before + lv);
                assert(kids_before + (lv + walk_components(us, d, cs@, k + 1, level as nat, options, st.state()).0)
                    =~= entry_views(kids@) + walk_components(us, d, cs@, k + 1, level as nat, options, st.state()).0);
            }
            k = k + 1;
        }
        proof {
            if !cut {
                assert(walk_components(us, d, cs@, k as int, level as nat, options, st.state()).0 =~= Seq::<BomEntryView>::empty());
                assert(entry_views(kids@) + Seq::<BomEntryView>::empty() =~= entry_views(kids@));
            } else {
                assert(entry_views(kids@) + Seq::<BomEntryView>::empty() =~= entry_views(kids@));
            }
        }
        st.path.set(d, false);
        let e = BomEntry { definition: d, level, usages: group, is_assembly, repeated: false, truncated: cut };
        let mut v: Vec<BomEntry> = Vec::new();
        v.push(e);
        let ghost ev = e@;
        v.append(&mut kids);
        proof {
            assert(entry_views(v@) =~= seq![ev] + whole.0);
        }
        v
    }

    /// The multi-level bill of materials of `root`: the root with its
    /// components, each with its own components, one node per distinct
    /// component of each assembly, depth first.
    pub fn bom_tree(&self, root: usize, options: BomTreeOptions) -> (v: Vec<BomEntry>)
        requires
            self.wf(),
            root < self.definitions_view().len(),
        ensures
            entry_views(v@) == bom_shape(self.usages_view(), self.definitions_view().len(), root, options),
    {
        let n = self.definitions.len();
        let mut expanded: Vec<bool> = Vec::new();
        let mut path: Vec<bool> = Vec::new();
        let mut i: usize = 0;
        while i < n
            invariant
                i <= n,
                expanded@ == Seq::new(i as nat, |j: int| false),
                path@ == Seq::new(i as nat, |j: int| false),
            decreases n - i,
        {
            expanded.push(false);
            path.push(false);
            proof {
                assert(expanded@ =~= Seq::new((i + 1) as nat, |j: int| false));
                assert(path@ =~= Seq::new((i + 1) as nat, |j: int| false));
            }
            i = i + 1;
        }
        let mut st = Walk { expanded, path, budget: MAX_BOM_NODES };
        proof {
            assert(st.state() == WalkState {
                expanded: Seq::new(self.definitions_view().len(), |i: int| false),
                path: Seq::new(self.definitions_view().len(), |i: int| false),
                budget: MAX_BOM_NODES as nat,
            });
        }
        self.walk(root, Vec::new(), 0, options, &mut st)
    }
}

} // verus!
