//! Extracting a product definition and everything that belongs to it.
//!
//! A forward closure from a `PRODUCT_DEFINITION` reaches six entities and
//! no geometry: shapes, properties, styles and PMI all point *at* what they
//! describe. Following every back reference is no better: through shared
//! contexts, categories and assembly links it reaches almost the whole
//! file.
//!
//! So an extraction is a fixpoint over a rule table, [`rules`]: starting
//! from the seeds, take everything an extracted instance refers to, and
//! every referrer that matches a rule through the rule's attribute. Owned
//! referrers are copied whole; shared ones (layer assignments, categories,
//! approvals, ...) keep only the list items that are extracted. The table
//! is grown from real files, and whatever no extraction takes can be
//! reported with [`orphans`].
use vstd::prelude::*;
use vstd::string::*;
use super::graph::{ascending, lists, refs_of, sources_of, targets_of, Graph};
use crate::p21::exchange::{
    first_param_tokens, ids_in, ids_of, param_count, param_tokens, params_after, Exchange, Instance,
    Record,
};
use crate::p21::lexer::{Token, TokenKind};
use crate::text::eq_ignore_case;

verus! {

/// How a referrer joins an extraction.
#[derive(Debug, Clone, Copy, PartialEq, Eq, Structural)]
pub enum RuleKind {
    /// The referrer belongs to what it refers to (a shape to its product
    /// definition, a style to its item) and is copied whole.
    Owned,
    /// The referrer lists items of many products (a layer, a category, an
    /// approval) and is copied with that list cut down to the extracted
    /// items. It is never followed through the list.
    Shared,
}

/// One entry of the rule table: when an instance of one of `entities`
/// refers to an extracted instance through `attribute`, the instance is
/// extracted too.
#[derive(Debug, Clone)]
pub struct Rule {
    /// The entity type and those of its subtypes that keep the attribute at
    /// the same position.
    pub entities: Vec<&'static str>,
    /// The attribute's name in the EXPRESS schema, lower case.
    pub attribute: &'static str,
    /// The attribute's position in a simple instance's record.
    pub simple: usize,
    /// For complex instances: the partial entity that declares the
    /// attribute and the attribute's position in that partial record, or
    /// `None` if the rule does not apply to complex instances.
    pub partial: Option<(&'static str, usize)>,
    /// Owned or shared.
    pub kind: RuleKind,
}

/// What a [`Rule`] says, as plain values.
#[verifier::ext_equal]
pub struct RuleView {
    pub entities: Seq<&'static str>,
    pub attribute: &'static str,
    pub simple: usize,
    pub partial: Option<(&'static str, usize)>,
    pub kind: RuleKind,
}

impl View for Rule {
    type V = RuleView;

    open spec fn view(&self) -> RuleView {
        RuleView {
            entities: self.entities@,
            attribute: self.attribute,
            simple: self.simple,
            partial: self.partial,
            kind: self.kind,
        }
    }
}

/// The views of `rules`, in order.
pub open spec fn views(rules: Seq<Rule>) -> Seq<RuleView> {
    rules.map_values(|r: Rule| r@)
}

/// An owned rule.
pub open spec fn owned_view(
    entities: Seq<&'static str>,
    attribute: &'static str,
    simple: usize,
    partial: Option<(&'static str, usize)>,
) -> RuleView {
    RuleView { entities, attribute, simple, partial, kind: RuleKind::Owned }
}

/// A shared rule.
pub open spec fn shared_view(
    entities: Seq<&'static str>,
    attribute: &'static str,
    simple: usize,
    partial: Option<(&'static str, usize)>,
) -> RuleView {
    RuleView { entities, attribute, simple, partial, kind: RuleKind::Shared }
}

fn owned(
    entities: Vec<&'static str>,
    attribute: &'static str,
    simple: usize,
    partial: Option<(&'static str, usize)>,
) -> (r: Rule)
    ensures
        r@ == owned_view(entities@, attribute, simple, partial),
{
    Rule { entities, attribute, simple, partial, kind: RuleKind::Owned }
}

fn shared(
    entities: Vec<&'static str>,
    attribute: &'static str,
    simple: usize,
    partial: Option<(&'static str, usize)>,
) -> (r: Rule)
    ensures
        r@ == shared_view(entities@, attribute, simple, partial),
{
    Rule { entities, attribute, simple, partial, kind: RuleKind::Shared }
}

/// The names [`shape_aspects`] lists.
pub open spec fn shape_aspect_names() -> Seq<&'static str> {
    seq![
        "SHAPE_ASPECT",
        "ALL_AROUND_SHAPE_ASPECT",
        "APEX",
        "BETWEEN_SHAPE_ASPECT",
        "CENTRE_OF_SYMMETRY",
        "COMMON_DATUM",
        "COMPOSITE_GROUP_SHAPE_ASPECT",
        "COMPOSITE_SHAPE_ASPECT",
        "CONTINUOUS_SHAPE_ASPECT",
        "DATUM",
        "DATUM_FEATURE",
        "DATUM_REFERENCE_COMPARTMENT",
        "DATUM_REFERENCE_ELEMENT",
        "DATUM_SYSTEM",
        "DATUM_TARGET",
        "DERIVED_SHAPE_ASPECT",
        "EXTENSION",
        "GENERAL_DATUM_REFERENCE",
        "GEOMETRIC_ALIGNMENT",
        "PARALLEL_OFFSET",
        "PERPENDICULAR_TO",
        "PLACED_DATUM_TARGET_FEATURE",
        "SYMMETRIC_SHAPE_ASPECT",
        "TANGENT",
        "TOLERANCE_ZONE",
    ]
}

fn shape_aspects() -> (v: Vec<&'static str>)
    ensures
        v@ == shape_aspect_names(),
{
    vec![
        "SHAPE_ASPECT",
        "ALL_AROUND_SHAPE_ASPECT",
        "APEX",
        "BETWEEN_SHAPE_ASPECT",
        "CENTRE_OF_SYMMETRY",
        "COMMON_DATUM",
        "COMPOSITE_GROUP_SHAPE_ASPECT",
        "COMPOSITE_SHAPE_ASPECT",
        "CONTINUOUS_SHAPE_ASPECT",
        "DATUM",
        "DATUM_FEATURE",
        "DATUM_REFERENCE_COMPARTMENT",
        "DATUM_REFERENCE_ELEMENT",
        "DATUM_SYSTEM",
        "DATUM_TARGET",
        "DERIVED_SHAPE_ASPECT",
        "EXTENSION",
        "GENERAL_DATUM_REFERENCE",
        "GEOMETRIC_ALIGNMENT",
        "PARALLEL_OFFSET",
        "PERPENDICULAR_TO",
        "PLACED_DATUM_TARGET_FEATURE",
        "SYMMETRIC_SHAPE_ASPECT",
        "TANGENT",
        "TOLERANCE_ZONE",
    ]
}

/// The names [`shape_aspect_relationships`] lists.
pub open spec fn shape_aspect_relationship_names() -> Seq<&'static str> {
    seq![
        "SHAPE_ASPECT_RELATIONSHIP",
        "ANGULAR_LOCATION",
        "DIMENSIONAL_LOCATION",
        "DIMENSIONAL_LOCATION_WITH_PATH",
        "FEATURE_FOR_DATUM_TARGET_RELATIONSHIP",
        "SHAPE_ASPECT_DERIVING_RELATIONSHIP",
    ]
}

fn shape_aspect_relationships() -> (v: Vec<&'static str>)
    ensures
        v@ == shape_aspect_relationship_names(),
{
    vec![
        "SHAPE_ASPECT_RELATIONSHIP",
        "ANGULAR_LOCATION",
        "DIMENSIONAL_LOCATION",
        "DIMENSIONAL_LOCATION_WITH_PATH",
        "FEATURE_FOR_DATUM_TARGET_RELATIONSHIP",
        "SHAPE_ASPECT_DERIVING_RELATIONSHIP",
    ]
}

/// The names [`geometric_tolerances`] lists.
pub open spec fn geometric_tolerance_names() -> Seq<&'static str> {
    seq![
        "GEOMETRIC_TOLERANCE",
        "ANGULARITY_TOLERANCE",
        "CIRCULAR_RUNOUT_TOLERANCE",
        "COAXIALITY_TOLERANCE",
        "CONCENTRICITY_TOLERANCE",
        "CYLINDRICITY_TOLERANCE",
        "FLATNESS_TOLERANCE",
        "GEOMETRIC_TOLERANCE_WITH_DATUM_REFERENCE",
        "GEOMETRIC_TOLERANCE_WITH_DEFINED_AREA_UNIT",
        "GEOMETRIC_TOLERANCE_WITH_DEFINED_UNIT",
        "GEOMETRIC_TOLERANCE_WITH_MAXIMUM_TOLERANCE",
        "GEOMETRIC_TOLERANCE_WITH_MODIFIERS",
        "LINE_PROFILE_TOLERANCE",
        "PARALLELISM_TOLERANCE",
        "PERPENDICULARITY_TOLERANCE",
        "POSITION_TOLERANCE",
        "ROUNDNESS_TOLERANCE",
        "STRAIGHTNESS_TOLERANCE",
        "SURFACE_PROFILE_TOLERANCE",
        "SYMMETRY_TOLERANCE",
        "TOTAL_RUNOUT_TOLERANCE",
        "UNEQUALLY_DISPOSED_GEOMETRIC_TOLERANCE",
    ]
}

fn geometric_tolerances() -> (v: Vec<&'static str>)
    ensures
        v@ == geometric_tolerance_names(),
{
    vec![
        "GEOMETRIC_TOLERANCE",
        "ANGULARITY_TOLERANCE",
        "CIRCULAR_RUNOUT_TOLERANCE",
        "COAXIALITY_TOLERANCE",
        "CONCENTRICITY_TOLERANCE",
        "CYLINDRICITY_TOLERANCE",
        "FLATNESS_TOLERANCE",
        "GEOMETRIC_TOLERANCE_WITH_DATUM_REFERENCE",
        "GEOMETRIC_TOLERANCE_WITH_DEFINED_AREA_UNIT",
        "GEOMETRIC_TOLERANCE_WITH_DEFINED_UNIT",
        "GEOMETRIC_TOLERANCE_WITH_MAXIMUM_TOLERANCE",
        "GEOMETRIC_TOLERANCE_WITH_MODIFIERS",
        "LINE_PROFILE_TOLERANCE",
        "PARALLELISM_TOLERANCE",
        "PERPENDICULARITY_TOLERANCE",
        "POSITION_TOLERANCE",
        "ROUNDNESS_TOLERANCE",
        "STRAIGHTNESS_TOLERANCE",
        "SURFACE_PROFILE_TOLERANCE",
        "SYMMETRY_TOLERANCE",
        "TOTAL_RUNOUT_TOLERANCE",
        "UNEQUALLY_DISPOSED_GEOMETRIC_TOLERANCE",
    ]
}

/// The number of rules in the table.
pub const RULE_COUNT: usize = 42;

/// Rule `i` of the table [`rules`] builds, as a view.
pub open spec fn rule_view_at(i: usize) -> RuleView {
    match i {
        0 => owned_view(
            seq!["PROPERTY_DEFINITION", "PRODUCT_DEFINITION_SHAPE"],
            "definition",
            2,
            Some(("PROPERTY_DEFINITION", 2)),
        ),
        1 => owned_view(
            seq!["PROPERTY_DEFINITION_REPRESENTATION", "SHAPE_DEFINITION_REPRESENTATION"],
            "definition",
            0,
            Some(("PROPERTY_DEFINITION_REPRESENTATION", 0)),
        ),
        2 => owned_view(seq!["SHAPE_REPRESENTATION_RELATIONSHIP"], "rep_1", 2, None),
        3 => owned_view(seq!["SHAPE_REPRESENTATION_RELATIONSHIP"], "rep_2", 3, None),
        4 => owned_view(
            seq!["GENERAL_PROPERTY_ASSOCIATION"],
            "derived_definition",
            3,
            Some(("GENERAL_PROPERTY_ASSOCIATION", 3)),
        ),
        5 => owned_view(
            seq!["NEXT_ASSEMBLY_USAGE_OCCURRENCE", "QUANTIFIED_ASSEMBLY_COMPONENT_USAGE"],
            "relating_product_definition",
            3,
            Some(("PRODUCT_DEFINITION_RELATIONSHIP", 3)),
        ),
        6 => owned_view(
            seq!["CONTEXT_DEPENDENT_SHAPE_REPRESENTATION"],
            "represented_product_relation",
            1,
            Some(("CONTEXT_DEPENDENT_SHAPE_REPRESENTATION", 1)),
        ),
        7 => owned_view(seq!["STYLED_ITEM", "OVER_RIDING_STYLED_ITEM"], "item", 2, Some(("STYLED_ITEM", 1))),
        8 => owned_view(seq!["ANNOTATION_PLANE"], "elements", 3, Some(("ANNOTATION_PLANE", 0))),
        9 => owned_view(
            seq!["MECHANICAL_DESIGN_AND_DRAUGHTING_RELATIONSHIP"],
            "rep_2",
            3,
            Some(("REPRESENTATION_RELATIONSHIP", 3)),
        ),
        10 => owned_view(
            seq!["MODEL_GEOMETRIC_VIEW"],
            "rep",
            3,
            Some(("CHARACTERIZED_ITEM_WITHIN_REPRESENTATION", 1)),
        ),
        11 => owned_view(
            seq!["CHARACTERIZED_ITEM_WITHIN_REPRESENTATION"],
            "item",
            2,
            Some(("CHARACTERIZED_ITEM_WITHIN_REPRESENTATION", 0)),
        ),
        12 => owned_view(
            seq!["PRESENTED_ITEM_REPRESENTATION"],
            "item",
            1,
            Some(("PRESENTED_ITEM_REPRESENTATION", 1)),
        ),
        13 => owned_view(seq!["AREA_IN_SET"], "in_set", 1, Some(("AREA_IN_SET", 1))),
        14 => owned_view(seq!["PRESENTATION_SIZE"], "unit", 0, Some(("PRESENTATION_SIZE", 0))),
        15 => owned_view(
            seq!["CONSTRUCTIVE_GEOMETRY_REPRESENTATION_RELATIONSHIP"],
            "rep_1",
            2,
            Some(("REPRESENTATION_RELATIONSHIP", 2)),
        ),
        16 => owned_view(shape_aspect_names(), "of_shape", 2, Some(("SHAPE_ASPECT", 2))),
        17 => owned_view(
            shape_aspect_relationship_names(),
            "relating_shape_aspect",
            2,
            Some(("SHAPE_ASPECT_RELATIONSHIP", 2)),
        ),
        18 => owned_view(
            shape_aspect_relationship_names(),
            "related_shape_aspect",
            3,
            Some(("SHAPE_ASPECT_RELATIONSHIP", 3)),
        ),
        19 => owned_view(
            seq!["DIMENSIONAL_SIZE", "ANGULAR_SIZE", "DIMENSIONAL_SIZE_WITH_PATH"],
            "applies_to",
            0,
            Some(("DIMENSIONAL_SIZE", 0)),
        ),
        20 => owned_view(
            seq!["DIMENSIONAL_CHARACTERISTIC_REPRESENTATION"],
            "dimension",
            0,
            Some(("DIMENSIONAL_CHARACTERISTIC_REPRESENTATION", 0)),
        ),
        21 => owned_view(
            seq!["MEASURE_QUALIFICATION"],
            "qualified_measure",
            2,
            Some(("MEASURE_QUALIFICATION", 2)),
        ),
        22 => owned_view(
            seq!["DRAUGHTING_CALLOUT_RELATIONSHIP"],
            "relating_draughting_callout",
            2,
            Some(("DRAUGHTING_CALLOUT_RELATIONSHIP", 2)),
        ),
        23 => owned_view(seq!["NAME_ATTRIBUTE"], "named_item", 1, Some(("NAME_ATTRIBUTE", 1))),
        24 => owned_view(seq!["ID_ATTRIBUTE"], "identified_item", 1, Some(("ID_ATTRIBUTE", 1))),
        25 => owned_view(
            seq!["DESCRIPTION_ATTRIBUTE"],
            "described_item",
            1,
            Some(("DESCRIPTION_ATTRIBUTE", 1)),
        ),
        26 => owned_view(seq!["PERSONAL_ADDRESS"], "people", 12, Some(("PERSONAL_ADDRESS", 0))),
        27 => owned_view(
            seq!["ORGANIZATIONAL_ADDRESS"],
            "organizations",
            12,
            Some(("ORGANIZATIONAL_ADDRESS", 0)),
        ),
        28 => owned_view(seq!["APPROVAL_DATE_TIME"], "dated_approval", 1, Some(("APPROVAL_DATE_TIME", 1))),
        29 => owned_view(
            seq!["APPROVAL_PERSON_ORGANIZATION"],
            "authorized_approval",
            1,
            Some(("APPROVAL_PERSON_ORGANIZATION", 1)),
        ),
        30 => owned_view(
            geometric_tolerance_names(),
            "toleranced_shape_aspect",
            3,
            Some(("GEOMETRIC_TOLERANCE", 3)),
        ),
        31 => owned_view(
            seq!["PLUS_MINUS_TOLERANCE"],
            "toleranced_dimension",
            1,
            Some(("PLUS_MINUS_TOLERANCE", 1)),
        ),
        32 => owned_view(
            seq![
                "ITEM_IDENTIFIED_REPRESENTATION_USAGE",
                "DRAUGHTING_MODEL_ITEM_ASSOCIATION",
                "DRAUGHTING_MODEL_ITEM_ASSOCIATION_WITH_PLACEHOLDER",
                "GEOMETRIC_ITEM_SPECIFIC_USAGE",
            ],
            "definition",
            2,
            Some(("ITEM_IDENTIFIED_REPRESENTATION_USAGE", 2)),
        ),
        33 => owned_view(
            seq!["APPLICATION_PROTOCOL_DEFINITION"],
            "application",
            3,
            Some(("APPLICATION_PROTOCOL_DEFINITION", 3)),
        ),
        34 => owned_view(
            seq!["PRODUCT_CATEGORY_RELATIONSHIP"],
            "sub_category",
            3,
            Some(("PRODUCT_CATEGORY_RELATIONSHIP", 3)),
        ),
        35 => shared_view(
            seq!["PRODUCT_RELATED_PRODUCT_CATEGORY"],
            "products",
            2,
            Some(("PRODUCT_RELATED_PRODUCT_CATEGORY", 0)),
        ),
        36 => shared_view(
            seq!["PRESENTATION_LAYER_ASSIGNMENT"],
            "assigned_items",
            2,
            Some(("PRESENTATION_LAYER_ASSIGNMENT", 2)),
        ),
        37 => shared_view(
            seq!["MECHANICAL_DESIGN_GEOMETRIC_PRESENTATION_REPRESENTATION", "DRAUGHTING_MODEL"],
            "items",
            1,
            Some(("REPRESENTATION", 1)),
        ),
        38 => shared_view(seq!["APPLIED_PRESENTED_ITEM"], "items", 0, Some(("APPLIED_PRESENTED_ITEM", 0))),
        39 => shared_view(seq!["INVISIBILITY"], "invisible_items", 0, Some(("INVISIBILITY", 0))),
        40 => shared_view(
            seq![
                "APPLIED_PERSON_AND_ORGANIZATION_ASSIGNMENT",
                "APPLIED_DATE_AND_TIME_ASSIGNMENT",
                "APPLIED_DATE_ASSIGNMENT",
                "APPLIED_ORGANIZATION_ASSIGNMENT",
                "APPLIED_DOCUMENT_REFERENCE",
                "APPLIED_IDENTIFICATION_ASSIGNMENT",
                "APPLIED_CLASSIFICATION_ASSIGNMENT",
                "CC_DESIGN_PERSON_AND_ORGANIZATION_ASSIGNMENT",
                "CC_DESIGN_DATE_AND_TIME_ASSIGNMENT",
                "CC_DESIGN_SPECIFICATION_REFERENCE",
            ],
            "items",
            2,
            None,
        ),
        _ => shared_view(
            seq![
                "APPLIED_APPROVAL_ASSIGNMENT",
                "APPLIED_SECURITY_CLASSIFICATION_ASSIGNMENT",
                "APPLIED_GROUP_ASSIGNMENT",
                "CC_DESIGN_APPROVAL",
                "CC_DESIGN_SECURITY_CLASSIFICATION",
                "CC_DESIGN_CERTIFICATION",
                "CC_DESIGN_CONTRACT",
            ],
            "items",
            1,
            None,
        ),
    }
}

/// The rule table [`rules`] builds, as views.
pub open spec fn rule_table() -> Seq<RuleView> {
    Seq::new(RULE_COUNT as nat, |i: int| rule_view_at(i as usize))
}

/// Rule `i` of the table.
fn rule_at(i: usize) -> (r: Rule)
    requires
        i < RULE_COUNT,
    ensures
        r@ =~= rule_view_at(i),
{
    match i {
        // Shapes and properties of what is extracted.
        0 => owned(
            vec!["PROPERTY_DEFINITION", "PRODUCT_DEFINITION_SHAPE"],
            "definition",
            2,
            Some(("PROPERTY_DEFINITION", 2)),
        ),
        1 => owned(
            vec!["PROPERTY_DEFINITION_REPRESENTATION", "SHAPE_DEFINITION_REPRESENTATION"],
            "definition",
            0,
            Some(("PROPERTY_DEFINITION_REPRESENTATION", 0)),
        ),
        // A shape spread over several representations. Complex instances are
        // excluded: those are assembly placements, which reach the parent.
        2 => owned(vec!["SHAPE_REPRESENTATION_RELATIONSHIP"], "rep_1", 2, None),
        3 => owned(vec!["SHAPE_REPRESENTATION_RELATIONSHIP"], "rep_2", 3, None),
        4 => owned(
            vec!["GENERAL_PROPERTY_ASSOCIATION"],
            "derived_definition",
            3,
            Some(("GENERAL_PROPERTY_ASSOCIATION", 3)),
        ),
        // Assemblies: from a parent to its child usages, never upwards.
        5 => owned(
            vec!["NEXT_ASSEMBLY_USAGE_OCCURRENCE", "QUANTIFIED_ASSEMBLY_COMPONENT_USAGE"],
            "relating_product_definition",
            3,
            Some(("PRODUCT_DEFINITION_RELATIONSHIP", 3)),
        ),
        6 => owned(
            vec!["CONTEXT_DEPENDENT_SHAPE_REPRESENTATION"],
            "represented_product_relation",
            1,
            Some(("CONTEXT_DEPENDENT_SHAPE_REPRESENTATION", 1)),
        ),
        // Presentation.
        7 => owned(vec!["STYLED_ITEM", "OVER_RIDING_STYLED_ITEM"], "item", 2, Some(("STYLED_ITEM", 1))),
        // PMI presentation: the plane an annotation is placed on belongs to the
        // callouts it holds, and a saved view (camera) and the draughting model
        // that links presentation to semantic PMI belong to the draughting model
        // those callouts are extracted with.
        8 => owned(vec!["ANNOTATION_PLANE"], "elements", 3, Some(("ANNOTATION_PLANE", 0))),
        9 => owned(
            vec!["MECHANICAL_DESIGN_AND_DRAUGHTING_RELATIONSHIP"],
            "rep_2",
            3,
            Some(("REPRESENTATION_RELATIONSHIP", 3)),
        ),
        10 => owned(
            vec!["MODEL_GEOMETRIC_VIEW"],
            "rep",
            3,
            Some(("CHARACTERIZED_ITEM_WITHIN_REPRESENTATION", 1)),
        ),
        // Validation properties of one annotation (AP242: its text, curve
        // length, number of points) hang off this link to the callout.
        11 => owned(
            vec!["CHARACTERIZED_ITEM_WITHIN_REPRESENTATION"],
            "item",
            2,
            Some(("CHARACTERIZED_ITEM_WITHIN_REPRESENTATION", 0)),
        ),
        // Saved views (Creo): a product's presentation set, through its
        // presentation areas, holds views of the product's draughting model.
        // Each set, area and view belongs to one product.
        12 => owned(
            vec!["PRESENTED_ITEM_REPRESENTATION"],
            "item",
            1,
            Some(("PRESENTED_ITEM_REPRESENTATION", 1)),
        ),
        13 => owned(vec!["AREA_IN_SET"], "in_set", 1, Some(("AREA_IN_SET", 1))),
        14 => owned(vec!["PRESENTATION_SIZE"], "unit", 0, Some(("PRESENTATION_SIZE", 0))),
        // Supplemental geometry (datum planes, axes, sketches) of a shape.
        15 => owned(
            vec!["CONSTRUCTIVE_GEOMETRY_REPRESENTATION_RELATIONSHIP"],
            "rep_1",
            2,
            Some(("REPRESENTATION_RELATIONSHIP", 2)),
        ),
        // PMI: shape aspects, dimensions, tolerances and their associations.
        16 => owned(shape_aspects(), "of_shape", 2, Some(("SHAPE_ASPECT", 2))),
        17 => owned(
            shape_aspect_relationships(),
            "relating_shape_aspect",
            2,
            Some(("SHAPE_ASPECT_RELATIONSHIP", 2)),
        ),
        18 => owned(
            shape_aspect_relationships(),
            "related_shape_aspect",
            3,
            Some(("SHAPE_ASPECT_RELATIONSHIP", 3)),
        ),
        // Not DIMENSIONAL_SIZE_WITH_DATUM_FEATURE: its other supertype puts
        // `name` first in a simple instance.
        19 => owned(
            vec!["DIMENSIONAL_SIZE", "ANGULAR_SIZE", "DIMENSIONAL_SIZE_WITH_PATH"],
            "applies_to",
            0,
            Some(("DIMENSIONAL_SIZE", 0)),
        ),
        20 => owned(
            vec!["DIMENSIONAL_CHARACTERISTIC_REPRESENTATION"],
            "dimension",
            0,
            Some(("DIMENSIONAL_CHARACTERISTIC_REPRESENTATION", 0)),
        ),
        // How a PMI value is displayed (decimal places, format).
        21 => owned(
            vec!["MEASURE_QUALIFICATION"],
            "qualified_measure",
            2,
            Some(("MEASURE_QUALIFICATION", 2)),
        ),
        22 => owned(
            vec!["DRAUGHTING_CALLOUT_RELATIONSHIP"],
            "relating_draughting_callout",
            2,
            Some(("DRAUGHTING_CALLOUT_RELATIONSHIP", 2)),
        ),
        // Metadata owned by what it describes.
        23 => owned(vec!["NAME_ATTRIBUTE"], "named_item", 1, Some(("NAME_ATTRIBUTE", 1))),
        // Persistent identifiers (AP242 PMI) and descriptions of shape aspects,
        // datums and tolerances: left behind by every split before.
        24 => owned(vec!["ID_ATTRIBUTE"], "identified_item", 1, Some(("ID_ATTRIBUTE", 1))),
        25 => owned(
            vec!["DESCRIPTION_ATTRIBUTE"],
            "described_item",
            1,
            Some(("DESCRIPTION_ATTRIBUTE", 1)),
        ),
        // An address belongs to the people or organizations it lists.
        26 => owned(vec!["PERSONAL_ADDRESS"], "people", 12, Some(("PERSONAL_ADDRESS", 0))),
        27 => owned(
            vec!["ORGANIZATIONAL_ADDRESS"],
            "organizations",
            12,
            Some(("ORGANIZATIONAL_ADDRESS", 0)),
        ),
        28 => owned(vec!["APPROVAL_DATE_TIME"], "dated_approval", 1, Some(("APPROVAL_DATE_TIME", 1))),
        29 => owned(
            vec!["APPROVAL_PERSON_ORGANIZATION"],
            "authorized_approval",
            1,
            Some(("APPROVAL_PERSON_ORGANIZATION", 1)),
        ),
        30 => owned(
            geometric_tolerances(),
            "toleranced_shape_aspect",
            3,
            Some(("GEOMETRIC_TOLERANCE", 3)),
        ),
        31 => owned(
            vec!["PLUS_MINUS_TOLERANCE"],
            "toleranced_dimension",
            1,
            Some(("PLUS_MINUS_TOLERANCE", 1)),
        ),
        32 => owned(
            vec![
                "ITEM_IDENTIFIED_REPRESENTATION_USAGE",
                "DRAUGHTING_MODEL_ITEM_ASSOCIATION",
                "DRAUGHTING_MODEL_ITEM_ASSOCIATION_WITH_PLACEHOLDER",
                "GEOMETRIC_ITEM_SPECIFIC_USAGE",
            ],
            "definition",
            2,
            Some(("ITEM_IDENTIFIED_REPRESENTATION_USAGE", 2)),
        ),
        // File-level context every output needs.
        33 => owned(
            vec!["APPLICATION_PROTOCOL_DEFINITION"],
            "application",
            3,
            Some(("APPLICATION_PROTOCOL_DEFINITION", 3)),
        ),
        34 => owned(
            vec!["PRODUCT_CATEGORY_RELATIONSHIP"],
            "sub_category",
            3,
            Some(("PRODUCT_CATEGORY_RELATIONSHIP", 3)),
        ),
        // Shared aggregates: filtered, never copied wholesale.
        35 => shared(
            vec!["PRODUCT_RELATED_PRODUCT_CATEGORY"],
            "products",
            2,
            Some(("PRODUCT_RELATED_PRODUCT_CATEGORY", 0)),
        ),
        36 => shared(
            vec!["PRESENTATION_LAYER_ASSIGNMENT"],
            "assigned_items",
            2,
            Some(("PRESENTATION_LAYER_ASSIGNMENT", 2)),
        ),
        37 => shared(
            vec!["MECHANICAL_DESIGN_GEOMETRIC_PRESENTATION_REPRESENTATION", "DRAUGHTING_MODEL"],
            "items",
            1,
            Some(("REPRESENTATION", 1)),
        ),
        38 => shared(vec!["APPLIED_PRESENTED_ITEM"], "items", 0, Some(("APPLIED_PRESENTED_ITEM", 0))),
        39 => shared(vec!["INVISIBILITY"], "invisible_items", 0, Some(("INVISIBILITY", 0))),
        40 => shared(
            vec![
                "APPLIED_PERSON_AND_ORGANIZATION_ASSIGNMENT",
                "APPLIED_DATE_AND_TIME_ASSIGNMENT",
                "APPLIED_DATE_ASSIGNMENT",
                "APPLIED_ORGANIZATION_ASSIGNMENT",
                "APPLIED_DOCUMENT_REFERENCE",
                "APPLIED_IDENTIFICATION_ASSIGNMENT",
                "APPLIED_CLASSIFICATION_ASSIGNMENT",
                "CC_DESIGN_PERSON_AND_ORGANIZATION_ASSIGNMENT",
                "CC_DESIGN_DATE_AND_TIME_ASSIGNMENT",
                "CC_DESIGN_SPECIFICATION_REFERENCE",
            ],
            "items",
            2,
            None,
        ),
        _ => shared(
            vec![
                "APPLIED_APPROVAL_ASSIGNMENT",
                "APPLIED_SECURITY_CLASSIFICATION_ASSIGNMENT",
                "APPLIED_GROUP_ASSIGNMENT",
                "CC_DESIGN_APPROVAL",
                "CC_DESIGN_SECURITY_CLASSIFICATION",
                "CC_DESIGN_CERTIFICATION",
                "CC_DESIGN_CONTRACT",
            ],
            "items",
            1,
            None,
        ),
    }
}

/// The closure rule table. Positions are those of the long-form schemas
/// this crate is used with.
pub fn rules() -> (v: Vec<Rule>)
    ensures
        views(v@) == rule_table(),
{
    let mut v: Vec<Rule> = Vec::new();
    let mut i: usize = 0;
    while i < RULE_COUNT
        invariant
            i <= RULE_COUNT,
            views(v@) == rule_table().take(i as int),
        decreases RULE_COUNT - i,
    {
        let r = rule_at(i);
        proof {
            assert(views(v@.push(r)) =~= views(v@).push(r@));
        }
        v.push(r);
        proof {
            assert(rule_table().take(i + 1) =~= rule_table().take(i as int).push(rule_view_at(i)));
        }
        i = i + 1;
    }
    proof {
        assert(rule_table().take(RULE_COUNT as int) =~= rule_table());
    }
    v
}


// ---------------------------------------------------------------------
// What a rule says about one instance.
// ---------------------------------------------------------------------

/// The name of a record of `ex`.
pub open spec fn rec_name(ex: Exchange, r: (Token, Seq<Token>)) -> Seq<u8> {
    r.0.span.of(ex.src_view())
}

/// True if `name` is one of `entities`, ignoring ASCII case.
pub open spec fn names_one_of(name: Seq<u8>, entities: Seq<&str>) -> bool {
    exists|e: int| 0 <= e < entities.len() && eq_ignore_case(name, #[trigger] entities[e].spec_bytes())
}

/// The first of `recs` from `k` on named `name`, ignoring ASCII case.
pub open spec fn first_named(ex: Exchange, recs: Seq<(Token, Seq<Token>)>, name: Seq<u8>, k: int) -> Option<int>
    decreases recs.len() - k,
{
    if k < 0 || k >= recs.len() {
        None
    } else if eq_ignore_case(rec_name(ex, recs[k]), name) {
        Some(k)
    } else {
        first_named(ex, recs, name, k + 1)
    }
}

/// The record of `inst` holding `rule`'s attribute, and the attribute's
/// position in it, if the rule applies to the instance.
pub open spec fn rule_record(ex: Exchange, inst: Instance, rule: RuleView) -> Option<(int, nat)> {
    let recs = ex.records_view(inst);
    if inst.complex {
        match rule.partial {
            None => None,
            Some((partial, index)) => if exists|k: int|
                0 <= k < recs.len() && names_one_of(#[trigger] rec_name(ex, recs[k]), rule.entities) {
                match first_named(ex, recs, partial.spec_bytes(), 0) {
                    Some(k) => Some((k, index as nat)),
                    None => None,
                }
            } else {
                None
            },
        }
    } else if recs.len() > 0 && names_one_of(rec_name(ex, recs[0]), rule.entities) {
        Some((0, rule.simple as nat))
    } else {
        None
    }
}

/// True if `inst` refers to `#target` through `rule`'s attribute.
pub open spec fn matches_rule(ex: Exchange, inst: Instance, rule: RuleView, target: u64) -> bool {
    match rule_record(ex, inst, rule) {
        Some((k, i)) => ids_in(param_tokens(ex.records_view(inst)[k].1, i)).contains(target),
        None => false,
    }
}

/// True if some rule makes `inst` join an extraction holding `#target`.
pub open spec fn joins(ex: Exchange, inst: Instance, rules: Seq<RuleView>, target: u64) -> bool {
    exists|r: int| 0 <= r < rules.len() && matches_rule(ex, inst, #[trigger] rules[r], target)
}

/// The first shared rule from `r` on whose attribute `inst` has.
pub open spec fn shared_from(ex: Exchange, inst: Instance, rules: Seq<RuleView>, r: int) -> Option<int>
    decreases rules.len() - r,
{
    if r < 0 || r >= rules.len() {
        None
    } else if rules[r].kind == RuleKind::Shared && rule_record(ex, inst, rules[r]) is Some {
        Some(r)
    } else {
        shared_from(ex, inst, rules, r + 1)
    }
}

/// The shared rule `inst` is an aggregate of, if any.
pub open spec fn shared_rule(ex: Exchange, inst: Instance, rules: Seq<RuleView>) -> Option<int> {
    shared_from(ex, inst, rules, 0)
}

/// True if parameter `i` of record `k` of `inst` is `rule`'s attribute, or
/// sits at its position in a record of the same name.
pub open spec fn skipped(ex: Exchange, inst: Instance, rule: RuleView, k: int, i: nat) -> bool {
    let recs = ex.records_view(inst);
    match rule_record(ex, inst, rule) {
        Some((held, position)) => position == i && eq_ignore_case(
            rec_name(ex, recs[held]),
            rec_name(ex, recs[k]),
        ),
        None => false,
    }
}

/// Every `#id` in `inst` except those inside `rule`'s attribute.
pub open spec fn outside_ids(ex: Exchange, inst: Instance, rule: RuleView) -> Set<u64> {
    let recs = ex.records_view(inst);
    Set::new(
        |id: u64|
            exists|k: int, i: nat|
                0 <= k < recs.len() && i < param_count(recs[k].1) && !skipped(ex, inst, rule, k, i)
                    && #[trigger] ids_in(param_tokens(recs[k].1, i)).contains(id),
    )
}

/// The `#id`s in parameter `index` of `record`.
fn param_ids(record: Record, index: usize) -> (v: Vec<u64>)
    requires
        record.wf(),
    ensures
        v@ == ids_in(param_tokens(record.params_view(), index as nat)),
{
    let mut ps = record.params();
    let mut j: usize = 0;
    while j < index
        invariant
            ps.wf(),
            j <= index,
            ps.tokens_view() == params_after(record.params_view(), j as nat),
        decreases index - j,
    {
        let ghost ts = ps.tokens_view();
        proof {
            crate::p21::exchange::lemma_skip_separators(ts, 0);
        }
        match ps.next_tokens() {
            Some(_) => {},
            None => {},
        }
        proof {
            lemma_params_after_next(record.params_view(), j as nat);
        }
        j = j + 1;
    }
    let ghost ts = ps.tokens_view();
    proof {
        crate::p21::exchange::lemma_skip_separators(ts, 0);
    }
    match ps.next_tokens() {
        Some(t) => ids_of(t),
        None => {
            proof {
                assert(first_param_tokens(ts) =~= Seq::<Token>::empty());
            }
            Vec::new()
        },
    }
}

/// Reading one more parameter advances `params_after` by one.
pub proof fn lemma_params_after_next(ts: Seq<Token>, n: nat)
    ensures
        ({
            let rest = params_after(ts, n);
            let k = crate::p21::exchange::skip_separators(rest, 0);
            params_after(ts, n + 1) == if 0 <= k < rest.len() {
                crate::p21::exchange::after_param(rest, k)
            } else {
                Seq::<Token>::empty()
            }
        }),
    decreases n,
{
    reveal_with_fuel(params_after, 2);
    let k = crate::p21::exchange::skip_separators(ts, 0);
    if n > 0 {
        if 0 <= k < ts.len() {
            lemma_params_after_next(crate::p21::exchange::after_param(ts, k), (n - 1) as nat);
        } else {
            assert(params_after(ts, n) == Seq::<Token>::empty());
            assert(params_after(ts, n + 1) == Seq::<Token>::empty());
        }
    }
}

/// True if `record` is named one of `entities`, ignoring ASCII case.
fn named_one_of(record: Record, entities: &Vec<&'static str>) -> (b: bool)
    requires
        record.wf(),
    ensures
        b == names_one_of(record.name_token().span.of(record.src_view()), entities@),
{
    let mut e: usize = 0;
    while e < entities.len()
        invariant
            record.wf(),
            e <= entities@.len(),
            forall|f: int|
                0 <= f < e ==> !eq_ignore_case(
                    record.name_token().span.of(record.src_view()),
                    #[trigger] entities@[f].spec_bytes(),
                ),
        decreases entities@.len() - e,
    {
        if record.is(entities[e]) {
            return true;
        }
        e = e + 1;
    }
    false
}

/// True if `records` are the records of `inst` in `ex`, one for one.
pub open spec fn records_of(ex: Exchange, inst: Instance, records: Seq<Record>) -> bool {
    let recs = ex.records_view(inst);
    &&& records.len() == recs.len()
    &&& forall|j: int|
        0 <= j < records.len() ==> (#[trigger] records[j]).wf() && records[j].src_view() == ex.src_view()
            && records[j].name_token() == recs[j].0 && records[j].params_view() == recs[j].1
}

/// What [`find_rule_record`] hands back for `rule` on `inst`.
pub open spec fn holds_rule_record(ex: Exchange, inst: Instance, rule: RuleView, r: Option<(Record, usize)>) -> bool {
    match rule_record(ex, inst, rule) {
        Some((k, i)) => r matches Some((rec, idx)) && rec.wf() && rec.src_view() == ex.src_view()
            && rec.name_token() == ex.records_view(inst)[k].0 && rec.params_view()
            == ex.records_view(inst)[k].1 && idx == i,
        None => r is None,
    }
}

/// The record holding `rule`'s attribute in `instance` and the attribute's
/// position in it, if the rule applies to the instance.
fn find_rule_record<'e>(exchange: &'e Exchange, instance: &Instance, rule: &Rule) -> (r: Option<(Record<'e>, usize)>)
    requires
        exchange.wf(),
    ensures
        holds_rule_record(*exchange, *instance, rule@, r),
{
    let ghost ex = *exchange;
    let records = exchange.records(instance).to_vec();
    let ghost recs = ex.records_view(*instance);
    assert(records_of(ex, *instance, records@));
    if instance.is_complex() {
        let (partial, index) = match rule.partial {
            Some(p) => p,
            None => return None,
        };
        let mut has_entity = false;
        let mut k: usize = 0;
        while k < records.len()
            invariant
                k <= records@.len(),
                recs == ex.records_view(*instance),
                records_of(ex, *instance, records@),
                has_entity == exists|j: int|
                    0 <= j < k && names_one_of(#[trigger] rec_name(ex, recs[j]), rule.entities@),
            decreases records@.len() - k,
        {
            let hit = named_one_of(records[k], &rule.entities);
            proof {
                assert(rec_name(ex, recs[k as int]) == records@[k as int].name_token().span.of(
                    records@[k as int].src_view(),
                ));
            }
            if hit {
                has_entity = true;
            }
            k = k + 1;
        }
        if !has_entity {
            return None;
        }
        let mut k: usize = 0;
        while k < records.len()
            invariant
                k <= records@.len(),
                ex == *exchange,
                recs == ex.records_view(*instance),
                records_of(ex, *instance, records@),
                has_entity,
                instance.complex,
                has_entity == exists|j: int|
                    0 <= j < records@.len() && names_one_of(#[trigger] rec_name(ex, recs[j]), rule.entities@),
                rule.partial == Some((partial, index)),
                first_named(ex, recs, partial.spec_bytes(), 0) == first_named(
                    ex,
                    recs,
                    partial.spec_bytes(),
                    k as int,
                ),
            decreases records@.len() - k,
        {
            let hit = records[k].is(partial);
            proof {
                assert(rec_name(ex, recs[k as int]) == records@[k as int].name_token().span.of(
                    records@[k as int].src_view(),
                ));
            }
            if hit {
                return Some((records[k], index));
            }
            k = k + 1;
        }
        None
    } else {
        if records.len() == 0 {
            return None;
        }
        let record = records[0];
        if named_one_of(record, &rule.entities) {
            Some((record, rule.simple))
        } else {
            None
        }
    }
}

/// True if `v` holds `x`.
fn contains_id(v: &Vec<u64>, x: u64) -> (b: bool)
    ensures
        b == v@.contains(x),
{
    let mut j: usize = 0;
    while j < v.len()
        invariant
            j <= v@.len(),
            forall|q: int| 0 <= q < j ==> v@[q] != x,
        decreases v@.len() - j,
    {
        if v[j] == x {
            return true;
        }
        j = j + 1;
    }
    false
}

/// True if some rule makes `instance` join an extraction holding instance
/// `#target`.
fn matching_rule(exchange: &Exchange, instance: &Instance, rules: &Vec<Rule>, target: u64) -> (b: bool)
    requires
        exchange.wf(),
    ensures
        b == joins(*exchange, *instance, views(rules@), target),
{
    let mut r: usize = 0;
    while r < rules.len()
        invariant
            exchange.wf(),
            r <= rules@.len(),
            forall|q: int| 0 <= q < r ==> !matches_rule(*exchange, *instance, #[trigger] views(rules@)[q], target),
        decreases rules@.len() - r,
    {
        if let Some((record, index)) = find_rule_record(exchange, instance, &rules[r]) {
            let ids = param_ids(record, index);
            if contains_id(&ids, target) {
                proof {
                    assert(matches_rule(*exchange, *instance, views(rules@)[r as int], target));
                }
                return true;
            }
        }
        r = r + 1;
    }
    false
}

/// The shared rule `instance` is an aggregate of, if any.
fn find_shared_rule(exchange: &Exchange, instance: &Instance, rules: &Vec<Rule>) -> (r: Option<usize>)
    requires
        exchange.wf(),
    ensures
        match shared_rule(*exchange, *instance, views(rules@)) {
            Some(k) => r == Some(k as usize),
            None => r is None,
        },
{
    let mut k: usize = 0;
    while k < rules.len()
        invariant
            exchange.wf(),
            k <= rules@.len(),
            shared_rule(*exchange, *instance, views(rules@)) == shared_from(*exchange, *instance, views(rules@), k as int),
        decreases rules@.len() - k,
    {
        if rules[k].kind == RuleKind::Shared && find_rule_record(exchange, instance, &rules[k]).is_some() {
            return Some(k);
        }
        k = k + 1;
    }
    None
}

/// Every reference in `instance` except those inside `rule`'s attribute.
fn references_outside(exchange: &Exchange, instance: &Instance, rule: &Rule) -> (v: Vec<u64>)
    requires
        exchange.wf(),
    ensures
        forall|id: u64| #[trigger] v@.contains(id) <==> outside_ids(*exchange, *instance, rule@).contains(id),
{
    let ghost ex = *exchange;
    let ghost recs = ex.records_view(*instance);
    let skip = find_rule_record(exchange, instance, rule);
    let records = exchange.records(instance).to_vec();
    assert(records_of(ex, *instance, records@));
    let mut out: Vec<u64> = Vec::new();
    let mut k: usize = 0;
    while k < records.len()
        invariant
            ex == *exchange,
            ex.wf(),
            k <= records@.len(),
            records@.len() == recs.len(),
            recs == ex.records_view(*instance),
            records_of(ex, *instance, records@),
            holds_rule_record(ex, *instance, rule@, skip),
            forall|id: u64|
                #[trigger] out@.contains(id) <==> exists|j: int, i: nat|
                    0 <= j < k && i < param_count(recs[j].1) && !skipped(ex, *instance, rule@, j, i)
                        && #[trigger] ids_in(param_tokens(recs[j].1, i)).contains(id),
        decreases records@.len() - k,
    {
        let record = records[k];
        let ghost ts = recs[k as int].1;
        let ghost before = out@;
        let count = record.params().count();
        let mut index: usize = 0;
        while index < count
            invariant
                ex == *exchange,
                ex.wf(),
                record.wf(),
                record.src_view() == ex.src_view(),
                record.params_view() == ts,
                record.name_token() == recs[k as int].0,
                k < recs.len(),
                recs == ex.records_view(*instance),
                ts == recs[k as int].1,
                count == param_count(ts),
                index <= count,
                holds_rule_record(ex, *instance, rule@, skip),
                forall|id: u64|
                    #[trigger] out@.contains(id) <==> (before.contains(id) || exists|i: nat|
                        i < index && !skipped(ex, *instance, rule@, k as int, i)
                            && #[trigger] ids_in(param_tokens(ts, i)).contains(id)),
            decreases count - index,
        {
            let skipped_here = match skip {
                Some((held, position)) => position == index && crate::text::bytes_eq_ignore_case(
                    held.name(),
                    record.name(),
                ),
                None => false,
            };
            proof {
                if let Some((held, position)) = skip {
                    if let Some((h, _)) = rule_record(ex, *instance, rule@) {
                        assert(held.name_token().span.of(held.src_view()) == rec_name(ex, recs[h]));
                    }
                    assert(record.name_token().span.of(record.src_view()) == rec_name(ex, recs[k as int]));
                }
                assert(skipped_here == skipped(ex, *instance, rule@, k as int, index as nat));
            }
            if !skipped_here {
                let ids = param_ids(record, index);
                let ghost mid = out@;
                let mut j: usize = 0;
                while j < ids.len()
                    invariant
                        j <= ids@.len(),
                        forall|id: u64| #[trigger] out@.contains(id) <==> (mid.contains(id) || ids@.take(j as int).contains(id)),
                    decreases ids@.len() - j,
                {
                    let ghost o = out@;
                    out.push(ids[j]);
                    proof {
                        assert forall|id: u64| #[trigger] out@.contains(id) <==> (mid.contains(id) || ids@.take(j + 1).contains(id)) by {
                            let t0 = ids@.take(j as int);
                            let t1 = ids@.take(j + 1);
                            if out@.contains(id) {
                                let q = choose|q: int| 0 <= q < out@.len() && out@[q] == id;
                                if q < o.len() {
                                    assert(o.contains(id));
                                } else {
                                    assert(t1[j as int] == id);
                                }
                            }
                            if t1.contains(id) {
                                let q = choose|q: int| 0 <= q < t1.len() && t1[q] == id;
                                if q < j {
                                    assert(t0[q] == id);
                                    assert(o.contains(id));
                                    let q2 = choose|q2: int| 0 <= q2 < o.len() && o[q2] == id;
                                    assert(out@[q2] == id);
                                } else {
                                    assert(out@[o.len() as int] == id);
                                }
                            }
                            if mid.contains(id) && !t0.contains(id) {
                                assert(o.contains(id));
                                let q2 = choose|q2: int| 0 <= q2 < o.len() && o[q2] == id;
                                assert(out@[q2] == id);
                            }
                            if t0.contains(id) {
                                let q = choose|q: int| 0 <= q < t0.len() && t0[q] == id;
                                assert(t1[q] == id);
                            }
                        }
                    }
                    j = j + 1;
                }
                proof {
                    assert(ids@.take(j as int) =~= ids@);
                }
            }
            proof {
                assert forall|id: u64| #[trigger] out@.contains(id) <==> (before.contains(id) || exists|i: nat|
                    i < index + 1 && !skipped(ex, *instance, rule@, k as int, i)
                        && #[trigger] ids_in(param_tokens(ts, i)).contains(id)) by {
                    if !skipped_here && ids_in(param_tokens(ts, index as nat)).contains(id) {
                        assert(exists|i: nat|
                            i < index + 1 && !skipped(ex, *instance, rule@, k as int, i)
                                && #[trigger] ids_in(param_tokens(ts, i)).contains(id));
                    }
                }
            }
            index = index + 1;
        }
        proof {
            assert forall|id: u64| #[trigger] out@.contains(id) <==> exists|j: int, i: nat|
                0 <= j < k + 1 && i < param_count(recs[j].1) && !skipped(ex, *instance, rule@, j, i)
                    && #[trigger] ids_in(param_tokens(recs[j].1, i)).contains(id) by {
                if out@.contains(id) && !before.contains(id) {
                    let i = choose|i: nat|
                        i < index && !skipped(ex, *instance, rule@, k as int, i) && #[trigger] ids_in(
                            param_tokens(ts, i),
                        ).contains(id);
                    assert(exists|j: int, i: nat|
                        0 <= j < k + 1 && i < param_count(recs[j].1) && !skipped(ex, *instance, rule@, j, i)
                            && #[trigger] ids_in(param_tokens(recs[j].1, i)).contains(id));
                }
                if exists|j: int, i: nat|
                    0 <= j < k + 1 && i < param_count(recs[j].1) && !skipped(ex, *instance, rule@, j, i)
                        && #[trigger] ids_in(param_tokens(recs[j].1, i)).contains(id) {
                    let (j, i) = choose|j: int, i: nat|
                        0 <= j < k + 1 && i < param_count(recs[j].1) && !skipped(ex, *instance, rule@, j, i)
                            && #[trigger] ids_in(param_tokens(recs[j].1, i)).contains(id);
                    if j == k {
                        assert(i < index);
                    }
                }
            }
        }
        k = k + 1;
    }
    proof {
        assert forall|id: u64| #[trigger] out@.contains(id) <==> outside_ids(ex, *instance, rule@).contains(id) by {}
    }
    out
}

// ---------------------------------------------------------------------
// The extraction itself.
// ---------------------------------------------------------------------

/// The instances that make up one extracted product definition.
#[derive(Debug, PartialEq, Eq)]
pub struct Extraction {
    nodes: Vec<usize>,
    pruned: Vec<usize>,
}

impl Clone for Extraction {
    fn clone(&self) -> (r: Self)
        ensures
            r.nodes_view() == self.nodes_view(),
            r.pruned_view() == self.pruned_view(),
    {
        proof {
            use_type_invariant(self);
        }
        Extraction { nodes: self.nodes.clone(), pruned: self.pruned.clone() }
    }
}

impl Extraction {
    #[verifier::type_invariant]
    spec fn sorted(self) -> bool {
        ascending(self.nodes@) && ascending(self.pruned@)
    }

    /// The extracted nodes.
    pub closed spec fn nodes_view(&self) -> Seq<usize> {
        self.nodes@
    }

    /// The extracted nodes whose lists are to be cut down when written.
    pub closed spec fn pruned_view(&self) -> Seq<usize> {
        self.pruned@
    }

    /// The extracted nodes, in ascending order.
    pub fn nodes(&self) -> (r: &[usize])
        ensures
            r@ == self.nodes_view(),
    {
        self.nodes.as_slice()
    }

    /// The extracted nodes that are shared aggregates, or that list an
    /// excluded node: when written, their lists must drop items that are
    /// not extracted. See [`Writer::write_pruned`](crate::p21::Writer::write_pruned).
    pub fn pruned(&self) -> (r: &[usize])
        ensures
            r@ == self.pruned_view(),
    {
        self.pruned.as_slice()
    }

    /// True if `node` is extracted.
    pub fn contains(&self, node: usize) -> (b: bool)
        ensures
            b == self.nodes_view().contains(node),
    {
        proof {
            use_type_invariant(self);
        }
        let mut lo: usize = 0;
        let mut hi: usize = self.nodes.len();
        while lo < hi
            invariant
                lo <= hi <= self.nodes@.len(),
                ascending(self.nodes@),
                forall|i: int| 0 <= i < lo ==> self.nodes@[i] < node,
                forall|i: int| hi <= i < self.nodes@.len() ==> self.nodes@[i] > node,
            decreases hi - lo,
        {
            let mid = lo + (hi - lo) / 2;
            let v = self.nodes[mid];
            if v == node {
                return true;
            } else if v < node {
                lo = mid + 1;
            } else {
                hi = mid;
            }
        }
        false
    }
}

/// How far a node has come in an extraction.
#[derive(Clone, Copy, PartialEq, Eq, Structural)]
enum State {
    Out,
    Owned,
    Shared(usize),
    Excluded,
}

/// The nodes node `p` brings into an extraction under `table`: what it
/// refers to (for a shared aggregate, only outside the aggregate's list),
/// and every referrer that joins it through a rule.
pub open spec fn follows(ex: Exchange, table: Seq<RuleView>, p: usize, t: usize) -> bool {
    brings_forward(ex, table, p, t) || joins_back(ex, table, p, t)
}

/// True if node `p` refers to node `t`; for a shared aggregate, outside
/// the aggregate's list.
pub open spec fn brings_forward(ex: Exchange, table: Seq<RuleView>, p: usize, t: usize) -> bool {
    let ip = ex.instances_view()[p as int];
    match shared_rule(ex, ip, table) {
        Some(r) => exists|id: u64|
            #[trigger] outside_ids(ex, ip, table[r]).contains(id) && ex.index_view().contains_key(id)
                && ex.index_view()[id] == t,
        None => targets_of(ex, p as int).contains(t),
    }
}

/// True if node `t` refers to node `p` and joins it through a rule.
pub open spec fn joins_back(ex: Exchange, table: Seq<RuleView>, p: usize, t: usize) -> bool {
    let insts = ex.instances_view();
    sources_of(ex, p).contains(t) && joins(ex, insts[t as int], table, insts[p as int].id)
}

/// True if every node that a node of `c` brings in is in `c` or excluded.
pub open spec fn closed(ex: Exchange, table: Seq<RuleView>, excluded: Seq<usize>, c: Set<usize>) -> bool {
    forall|p: usize, t: usize|
        c.contains(p) && t < ex.instances_view().len() && !excluded.contains(t) && #[trigger] follows(
            ex,
            table,
            p,
            t,
        ) ==> c.contains(t)
}

/// True if `c` holds every seed that is not excluded.
pub open spec fn holds_seeds(seeds: Seq<usize>, excluded: Seq<usize>, c: Set<usize>) -> bool {
    forall|s: usize| #[trigger] seeds.contains(s) && !excluded.contains(s) ==> c.contains(s)
}

/// True if an extracted node `x` is written with its lists cut down: it
/// is a shared aggregate, or something is excluded and `x` refers to it.
pub open spec fn prunes(ex: Exchange, table: Seq<RuleView>, excluded: Seq<usize>, x: usize) -> bool {
    ||| shared_rule(ex, ex.instances_view()[x as int], table) is Some
    ||| excluded.len() > 0 && exists|t: usize|
        targets_of(ex, x as int).contains(t) && #[trigger] excluded.contains(t)
}

/// True if `nodes` and `pruned` are the extraction of `seeds` without
/// `excluded` under `table`: `nodes` is the smallest set of nodes that
/// holds the seeds, avoids the excluded nodes and takes in everything its
/// nodes bring in that is not excluded; `pruned` is those of its nodes
/// that [`prunes`] names. Both are in ascending order.
pub open spec fn extracts(
    ex: Exchange,
    table: Seq<RuleView>,
    seeds: Seq<usize>,
    excluded: Seq<usize>,
    nodes: Seq<usize>,
    pruned: Seq<usize>,
) -> bool {
    let taken = nodes.to_set();
    &&& ascending(nodes)
    &&& ascending(pruned)
    &&& forall|x: usize| #[trigger] nodes.contains(x) ==> x < ex.instances_view().len() && !excluded.contains(x)
    &&& holds_seeds(seeds, excluded, taken)
    &&& closed(ex, table, excluded, taken)
    &&& forall|c: Set<usize>|
        #![trigger closed(ex, table, excluded, c)]
        closed(ex, table, excluded, c) && holds_seeds(seeds, excluded, c) ==> taken.subset_of(c)
    &&& forall|x: usize| #[trigger] pruned.contains(x) <==> nodes.contains(x) && prunes(ex, table, excluded, x)
}

spec fn taken(s: State) -> bool {
    s is Owned || s is Shared
}

/// The state a node takes when it joins.
spec fn kind_of(ex: Exchange, table: Seq<RuleView>, x: usize) -> State {
    match shared_rule(ex, ex.instances_view()[x as int], table) {
        Some(r) => State::Shared(r as usize),
        None => State::Owned,
    }
}

/// The number of nodes still out.
spec fn outs(s: Seq<State>) -> nat
    decreases s.len(),
{
    if s.len() == 0 {
        0
    } else {
        outs(s.drop_last()) + if s.last() == State::Out {
            1nat
        } else {
            0nat
        }
    }
}

proof fn lemma_outs_update(s: Seq<State>, i: int, v: State)
    requires
        0 <= i < s.len(),
        s[i] == State::Out,
        v != State::Out,
    ensures
        outs(s.update(i, v)) + 1 == outs(s),
    decreases s.len(),
{
    let u = s.update(i, v);
    if i == s.len() - 1 {
        assert(u.drop_last() =~= s.drop_last());
    } else {
        assert(u.drop_last() =~= s.drop_last().update(i, v));
        lemma_outs_update(s.drop_last(), i, v);
    }
}

proof fn lemma_shared_from_range(ex: Exchange, inst: Instance, rules: Seq<RuleView>, r: int)
    ensures
        shared_from(ex, inst, rules, r) matches Some(k) ==> r <= k < rules.len() && rules[k].kind
            == RuleKind::Shared,
    decreases rules.len() - r,
{
    if 0 <= r < rules.len() && !(rules[r].kind == RuleKind::Shared && rule_record(ex, inst, rules[r]) is Some) {
        lemma_shared_from_range(ex, inst, rules, r + 1);
    }
}

proof fn lemma_targets_in_range(ex: Exchange, n: int, t: usize)
    requires
        ex.wf(),
        targets_of(ex, n).contains(t),
    ensures
        t < ex.instances_view().len(),
{
    let ids = refs_of(ex, n);
    let k = choose|k: int| 0 <= k < ids.len() && #[trigger] ex.index_view().contains_key(ids[k]) && ex.index_view()[ids[k]] == t;
    assert(ex.index_view().contains_key(ids[k]));
}

/// The extraction's bookkeeping after the first `head` nodes of `queue`
/// were visited: the states agree with the excluded list and the rule
/// table, the queue holds exactly the nodes taken, each taken for a
/// reason, and every node a visited node brings in is no longer out.
spec fn progress(
    ex: Exchange,
    table: Seq<RuleView>,
    seeds: Seq<usize>,
    excluded: Seq<usize>,
    state: Seq<State>,
    queue: Seq<usize>,
    head: int,
) -> bool {
    let n = ex.instances_view().len();
    &&& state.len() == n
    &&& 0 <= head <= queue.len()
    &&& forall|x: usize| x < n ==> (#[trigger] state[x as int] == State::Excluded <==> excluded.contains(x))
    &&& forall|x: usize| x < n && taken(#[trigger] state[x as int]) ==> state[x as int] == kind_of(ex, table, x)
    &&& forall|x: usize| x < n ==> (taken(#[trigger] state[x as int]) <==> queue.contains(x))
    &&& forall|i: int| 0 <= i < queue.len() ==> #[trigger] queue[i] < n
    &&& forall|i: int|
        0 <= i < queue.len() ==> seeds.contains(#[trigger] queue[i]) || exists|j: int|
            0 <= j < i && follows(ex, table, queue[j], queue[i])
    &&& forall|i: int, t: usize|
        0 <= i < head && t < n && #[trigger] follows(ex, table, queue[i], t) ==> state[t as int] != State::Out
}

/// Taking an out node that a seed or a visited node brings in keeps the
/// bookkeeping.
proof fn lemma_take_progress(
    ex: Exchange,
    t: Seq<RuleView>,
    seeds: Seq<usize>,
    excluded: Seq<usize>,
    s0: Seq<State>,
    q0: Seq<usize>,
    head: int,
    node: usize,
    kind: State,
)
    requires
        progress(ex, t, seeds, excluded, s0, q0, head),
        node < ex.instances_view().len(),
        s0[node as int] == State::Out,
        kind == kind_of(ex, t, node),
        seeds.contains(node) || (head < q0.len() && follows(ex, t, q0[head], node)),
    ensures
        progress(ex, t, seeds, excluded, s0.update(node as int, kind), q0.push(node), head),
{
    let s1 = s0.update(node as int, kind);
    let q1 = q0.push(node);
    let n = ex.instances_view().len();
    assert forall|x: usize| x < n implies (taken(#[trigger] s1[x as int]) <==> q1.contains(x)) by {
        assert(q1[q0.len() as int] == node);
        if x != node {
            if q0.contains(x) {
                let i = choose|i: int| 0 <= i < q0.len() && q0[i] == x;
                assert(q1[i] == x);
            }
            if q1.contains(x) {
                let i = choose|i: int| 0 <= i < q1.len() && q1[i] == x;
                assert(q0[i] == x);
            }
        }
    }
    assert forall|i: int|
        0 <= i < q1.len() implies seeds.contains(#[trigger] q1[i]) || exists|j: int|
            0 <= j < i && follows(ex, t, q1[j], q1[i]) by {
        if i < q0.len() {
            assert(q1[i] == q0[i]);
            if !seeds.contains(q0[i]) {
                let j = choose|j: int| 0 <= j < i && follows(ex, t, q0[j], q0[i]);
                assert(q1[j] == q0[j]);
            }
        } else if !seeds.contains(node) {
            assert(q1[head] == q0[head]);
        }
    }
    assert forall|i: int, u: usize|
        0 <= i < head && u < n && #[trigger] follows(ex, t, q1[i], u) implies s1[u as int]
        != State::Out by {
        assert(q1[i] == q0[i]);
    }
}

/// Takes `node` into the extraction if it is still out.
fn take(
    graph: &Graph,
    table: &Vec<Rule>,
    state: &mut Vec<State>,
    queue: &mut Vec<usize>,
    node: usize,
    Ghost(seeds): Ghost<Seq<usize>>,
    Ghost(excluded): Ghost<Seq<usize>>,
    Ghost(head): Ghost<int>,
)
    requires
        graph.wf(),
        node < graph.exchange_view().instances_view().len(),
        progress(graph.exchange_view(), views(table@), seeds, excluded, old(state)@, old(queue)@, head),
        seeds.contains(node) || (head < old(queue)@.len() && follows(
            graph.exchange_view(),
            views(table@),
            old(queue)@[head],
            node,
        )),
    ensures
        progress(graph.exchange_view(), views(table@), seeds, excluded, final(state)@, final(queue)@, head),
        outs(final(state)@) + final(queue)@.len() == outs(old(state)@) + old(queue)@.len(),
        final(state)@[node as int] != State::Out,
        forall|x: int|
            0 <= x < old(state)@.len() && #[trigger] old(state)@[x] != State::Out ==> final(state)@[x] == old(
                state,
            )@[x],
        old(queue)@.len() <= final(queue)@.len(),
        forall|i: int| 0 <= i < old(queue)@.len() ==> #[trigger] final(queue)@[i] == old(queue)@[i],
{
    let ghost ex = graph.exchange_view();
    let ghost t = views(table@);
    if state[node] == State::Out {
        let kind = match find_shared_rule(graph.exchange(), graph.instance(node), table) {
            Some(r) => State::Shared(r),
            None => State::Owned,
        };
        proof {
            lemma_shared_from_range(ex, ex.instances_view()[node as int], t, 0);
            assert(kind == kind_of(ex, t, node));
            lemma_outs_update(state@, node as int, kind);
        }
        let ghost s0 = state@;
        let ghost q0 = queue@;
        state.set(node, kind);
        queue.push(node);
        proof {
            assert(state@ == s0.update(node as int, kind));
            assert(queue@ == q0.push(node));
            lemma_take_progress(ex, t, seeds, excluded, s0, q0, head, node, kind);
        }
    }
}


/// Takes in what the node at `head` of the queue refers to; for a shared
/// aggregate, only outside its list.
#[verifier::loop_isolation(false)]
fn take_forward(
    graph: &Graph,
    table: &Vec<Rule>,
    state: &mut Vec<State>,
    queue: &mut Vec<usize>,
    head: usize,
    Ghost(seeds): Ghost<Seq<usize>>,
    Ghost(excluded): Ghost<Seq<usize>>,
)
    requires
        graph.wf(),
        progress(graph.exchange_view(), views(table@), seeds, excluded, old(state)@, old(queue)@, head as int),
        head < old(queue)@.len(),
    ensures
        progress(graph.exchange_view(), views(table@), seeds, excluded, final(state)@, final(queue)@, head as int),
        outs(final(state)@) + final(queue)@.len() == outs(old(state)@) + old(queue)@.len(),
        forall|x: int|
            0 <= x < old(state)@.len() && #[trigger] old(state)@[x] != State::Out ==> final(state)@[x] == old(
                state,
            )@[x],
        final(queue)@[head as int] == old(queue)@[head as int],
        old(queue)@.len() <= final(queue)@.len(),
        forall|i: int| 0 <= i < old(queue)@.len() ==> #[trigger] final(queue)@[i] == old(queue)@[i],
        forall|u: usize|
            u < graph.exchange_view().instances_view().len() && brings_forward(
                graph.exchange_view(),
                views(table@),
                old(queue)@[head as int],
                u,
            ) ==> final(state)@[u as int] != State::Out,
{
    let ghost ex = graph.exchange_view();
    let ghost t = views(table@);
    let ghost n = ex.instances_view().len();
    let ghost s0 = state@;
    let ghost q0 = queue@;
    let ghost budget = outs(state@) + queue@.len();
    let node = queue[head];
    let instance = graph.instance(node);
    let exchange = graph.exchange();
    let table_len = table.len();
    proof {
        assert(queue@.contains(node));
        lemma_shared_from_range(ex, *instance, t, 0);
        assert(t.len() == table_len);
        assert(taken(s0[node as int]));
        assert(s0[node as int] == kind_of(ex, t, node));
    }
    match state[node] {
        State::Shared(r) => {
            proof {
                assert(shared_rule(ex, *instance, t) == Some(r as int));
                assert(t[r as int] == table@[r as int]@);
            }
            let targets = references_outside(exchange, instance, &table[r]);
            let mut k: usize = 0;
            while k < targets.len()
                invariant
                    progress(ex, t, seeds, excluded, state@, queue@, head as int),
                    head < queue@.len(),
                    queue@[head as int] == node,
                    outs(state@) + queue@.len() == budget,
                    q0.len() <= queue@.len(),
                    forall|i: int| 0 <= i < q0.len() ==> #[trigger] queue@[i] == q0[i],
                    forall|x: int| 0 <= x < s0.len() && #[trigger] s0[x] != State::Out ==> state@[x] == s0[x],
                    forall|q: int|
                        0 <= q < k && ex.index_view().contains_key(#[trigger] targets@[q]) ==> state@[ex.index_view()[targets@[q]] as int]
                            != State::Out,
                decreases targets@.len() - k,
            {
                let id = targets[k];
                match graph.node(id) {
                    Some(target) => {
                        proof {
                            assert(targets@.contains(id));
                            assert(brings_forward(ex, t, node, target));
                        }
                        take(graph, table, state, queue, target, Ghost(seeds), Ghost(excluded), Ghost(head as int));
                    },
                    None => {},
                }
                k = k + 1;
            }
            proof {
                assert forall|u: usize| u < n && brings_forward(ex, t, node, u) implies state@[u as int] != State::Out by {
                    let id = choose|id: u64|
                        #[trigger] outside_ids(ex, *instance, t[r as int]).contains(id) && ex.index_view().contains_key(id)
                            && ex.index_view()[id] == u;
                    assert(targets@.contains(id));
                    let q = choose|q: int| 0 <= q < targets@.len() && targets@[q] == id;
                }
            }
        },
        _ => {
            proof {
                assert(shared_rule(ex, *instance, t) is None);
            }
            let refs = graph.references(node);
            let mut k: usize = 0;
            while k < refs.len()
                invariant
                    progress(ex, t, seeds, excluded, state@, queue@, head as int),
                    head < queue@.len(),
                    queue@[head as int] == node,
                    outs(state@) + queue@.len() == budget,
                    q0.len() <= queue@.len(),
                    forall|i: int| 0 <= i < q0.len() ==> #[trigger] queue@[i] == q0[i],
                    forall|x: int| 0 <= x < s0.len() && #[trigger] s0[x] != State::Out ==> state@[x] == s0[x],
                    forall|q: int| 0 <= q < k ==> state@[#[trigger] refs@[q] as int] != State::Out,
                decreases refs@.len() - k,
            {
                let target = refs[k];
                proof {
                    assert(refs@.contains(target));
                    lemma_targets_in_range(ex, node as int, target);
                }
                take(graph, table, state, queue, target, Ghost(seeds), Ghost(excluded), Ghost(head as int));
                k = k + 1;
            }
            proof {
                assert forall|u: usize| u < n && brings_forward(ex, t, node, u) implies state@[u as int] != State::Out by {
                    assert(refs@.contains(u));
                    let q = choose|q: int| 0 <= q < refs@.len() && refs@[q] == u;
                }
            }
        },
    }
}

/// Takes in the referrers of the node at `head` of the queue that join
/// it through a rule.
#[verifier::loop_isolation(false)]
fn take_back(
    graph: &Graph,
    table: &Vec<Rule>,
    state: &mut Vec<State>,
    queue: &mut Vec<usize>,
    head: usize,
    Ghost(seeds): Ghost<Seq<usize>>,
    Ghost(excluded): Ghost<Seq<usize>>,
)
    requires
        graph.wf(),
        progress(graph.exchange_view(), views(table@), seeds, excluded, old(state)@, old(queue)@, head as int),
        head < old(queue)@.len(),
    ensures
        progress(graph.exchange_view(), views(table@), seeds, excluded, final(state)@, final(queue)@, head as int),
        outs(final(state)@) + final(queue)@.len() == outs(old(state)@) + old(queue)@.len(),
        forall|x: int|
            0 <= x < old(state)@.len() && #[trigger] old(state)@[x] != State::Out ==> final(state)@[x] == old(
                state,
            )@[x],
        final(queue)@[head as int] == old(queue)@[head as int],
        old(queue)@.len() <= final(queue)@.len(),
        forall|i: int| 0 <= i < old(queue)@.len() ==> #[trigger] final(queue)@[i] == old(queue)@[i],
        forall|u: usize|
            u < graph.exchange_view().instances_view().len() && joins_back(
                graph.exchange_view(),
                views(table@),
                old(queue)@[head as int],
                u,
            ) ==> final(state)@[u as int] != State::Out,
{
    let ghost ex = graph.exchange_view();
    let ghost t = views(table@);
    let ghost n = ex.instances_view().len();
    let ghost s0 = state@;
    let ghost q0 = queue@;
    let ghost budget = outs(state@) + queue@.len();
    let node = queue[head];
    let instance = graph.instance(node);
    let exchange = graph.exchange();
    let back = graph.referenced_by(node);
    let mut k: usize = 0;
    while k < back.len()
        invariant
            progress(ex, t, seeds, excluded, state@, queue@, head as int),
            head < queue@.len(),
            queue@[head as int] == node,
            outs(state@) + queue@.len() == budget,
                    q0.len() <= queue@.len(),
                    forall|i: int| 0 <= i < q0.len() ==> #[trigger] queue@[i] == q0[i],
            forall|x: int| 0 <= x < s0.len() && #[trigger] s0[x] != State::Out ==> state@[x] == s0[x],
            forall|q: int|
                0 <= q < k && joins(ex, ex.instances_view()[#[trigger] back@[q] as int], t, instance.id) ==> state@[back@[q] as int]
                    != State::Out,
        decreases back@.len() - k,
    {
        let referrer = back[k];
        proof {
            assert(back@.contains(referrer));
        }
        if state[referrer] == State::Out && matching_rule(exchange, graph.instance(referrer), table, instance.id) {
            proof {
                assert(joins_back(ex, t, node, referrer));
            }
            take(graph, table, state, queue, referrer, Ghost(seeds), Ghost(excluded), Ghost(head as int));
        }
        k = k + 1;
    }
    proof {
        assert forall|u: usize| u < n && joins_back(ex, t, node, u) implies state@[u as int] != State::Out by {
            assert(back@.contains(u));
            let q = choose|q: int| 0 <= q < back@.len() && back@[q] == u;
        }
    }
}

/// Visits the node at `head` of the queue: takes in everything it brings.
fn visit(
    graph: &Graph,
    table: &Vec<Rule>,
    state: &mut Vec<State>,
    queue: &mut Vec<usize>,
    head: usize,
    Ghost(seeds): Ghost<Seq<usize>>,
    Ghost(excluded): Ghost<Seq<usize>>,
)
    requires
        graph.wf(),
        progress(graph.exchange_view(), views(table@), seeds, excluded, old(state)@, old(queue)@, head as int),
        head < old(queue)@.len(),
    ensures
        progress(graph.exchange_view(), views(table@), seeds, excluded, final(state)@, final(queue)@, head + 1),
        outs(final(state)@) + final(queue)@.len() == outs(old(state)@) + old(queue)@.len(),
        forall|x: int|
            0 <= x < old(state)@.len() && #[trigger] old(state)@[x] != State::Out ==> final(state)@[x] == old(
                state,
            )@[x],
{
    let ghost ex = graph.exchange_view();
    let ghost t = views(table@);
    let ghost n = ex.instances_view().len();
    let ghost node = queue@[head as int];
    take_forward(graph, table, state, queue, head, Ghost(seeds), Ghost(excluded));
    let ghost s1 = state@;
    take_back(graph, table, state, queue, head, Ghost(seeds), Ghost(excluded));
    proof {
        assert forall|i: int, u: usize|
            0 <= i < head + 1 && u < n && #[trigger] follows(ex, t, queue@[i], u) implies state@[u as int]
            != State::Out by {
            if i == head && brings_forward(ex, t, node, u) {
                assert(s1[u as int] != State::Out);
            }
        }
    }
}

/// Every node of the queue lies in any closed set that holds the seeds.
proof fn lemma_queue_within(
    ex: Exchange,
    t: Seq<RuleView>,
    seeds: Seq<usize>,
    excluded: Seq<usize>,
    state: Seq<State>,
    queue: Seq<usize>,
    head: int,
    c: Set<usize>,
    i: int,
)
    requires
        progress(ex, t, seeds, excluded, state, queue, head),
        closed(ex, t, excluded, c),
        holds_seeds(seeds, excluded, c),
        0 <= i < queue.len(),
    ensures
        c.contains(queue[i]),
    decreases i,
{
    let x = queue[i];
    assert(x < ex.instances_view().len());
    assert(queue.contains(x));
    assert(taken(state[x as int]));
    assert(!excluded.contains(x));
    if !seeds.contains(x) {
        let j = choose|j: int| 0 <= j < i && follows(ex, t, queue[j], queue[i]);
        lemma_queue_within(ex, t, seeds, excluded, state, queue, head, c, j);
        assert(follows(ex, t, queue[j], x));
    }
}

/// `s` with `v` pushed holds exactly what `s` holds, and `v`.
proof fn lemma_push_contains(s: Seq<usize>, v: usize)
    ensures
        forall|y: usize| #[trigger] s.push(v).contains(y) <==> s.contains(y) || y == v,
{
    assert forall|y: usize| #[trigger] s.push(v).contains(y) <==> s.contains(y) || y == v by {
        if s.contains(y) {
            let i = choose|i: int| 0 <= i < s.len() && s[i] == y;
            assert(s.push(v)[i] == y);
        }
        if y == v {
            assert(s.push(v)[s.len() as int] == y);
        }
        if s.push(v).contains(y) && y != v {
            let i = choose|i: int| 0 <= i < s.push(v).len() && s.push(v)[i] == y;
            assert(s[i] == y);
        }
    }
}

/// True if node `x` refers to a node whose state is excluded.
fn lists_excluded(graph: &Graph, state: &Vec<State>, x: usize) -> (b: bool)
    requires
        graph.wf(),
        x < graph.exchange_view().instances_view().len(),
        state@.len() == graph.exchange_view().instances_view().len(),
    ensures
        b == exists|u: usize|
            #[trigger] targets_of(graph.exchange_view(), x as int).contains(u) && state@[u as int] == State::Excluded,
{
    let ghost ex = graph.exchange_view();
    let refs = graph.references(x);
    let mut k: usize = 0;
    while k < refs.len()
        invariant
            graph.wf(),
            ex == graph.exchange_view(),
            x < ex.instances_view().len(),
            state@.len() == ex.instances_view().len(),
            lists(refs@, targets_of(ex, x as int)),
            k <= refs@.len(),
            forall|q: int| 0 <= q < k ==> state@[#[trigger] refs@[q] as int] != State::Excluded,
        decreases refs@.len() - k,
    {
        let target = refs[k];
        proof {
            assert(refs@.contains(target));
            lemma_targets_in_range(ex, x as int, target);
        }
        if state[target] == State::Excluded {
            return true;
        }
        k = k + 1;
    }
    proof {
        assert forall|u: usize| #[trigger] targets_of(ex, x as int).contains(u) implies state@[u as int]
            != State::Excluded by {
            assert(refs@.contains(u));
            let q = choose|q: int| 0 <= q < refs@.len() && refs@[q] == u;
        }
    }
    false
}

/// Extracts `seeds` (usually one product definition) with everything that
/// belongs to them under [`rules`].
pub fn extract(graph: &Graph, seeds: &[usize]) -> (e: Extraction)
    requires
        graph.wf(),
        forall|i: int| 0 <= i < seeds@.len() ==> #[trigger] seeds@[i] < graph.exchange_view().instances_view().len(),
    ensures
        extracts(graph.exchange_view(), rule_table(), seeds@, Seq::empty(), e.nodes_view(), e.pruned_view()),
{
    let none: Vec<usize> = Vec::new();
    extract_excluding(graph, seeds, none.as_slice())
}

/// Like [`extract`], but never takes the `excluded` nodes, and so nothing
/// that only they would bring in. Every extracted instance that refers to
/// an excluded node is pruned as well, so that
/// [`Writer::write_pruned`](crate::p21::Writer::write_pruned) drops those
/// list items; a reference to an excluded node that is not a list item
/// makes that write fail rather than leave the output dangling.
///
/// `stepq split --bodies` writes one solid of a multi-body part this way:
/// the part, with its other solids excluded.
pub fn extract_excluding(graph: &Graph, seeds: &[usize], excluded: &[usize]) -> (e: Extraction)
    requires
        graph.wf(),
        forall|i: int| 0 <= i < seeds@.len() ==> #[trigger] seeds@[i] < graph.exchange_view().instances_view().len(),
        forall|i: int|
            0 <= i < excluded@.len() ==> #[trigger] excluded@[i] < graph.exchange_view().instances_view().len(),
    ensures
        extracts(graph.exchange_view(), rule_table(), seeds@, excluded@, e.nodes_view(), e.pruned_view()),
{
    let ghost ex = graph.exchange_view();
    let table = rules();
    let ghost t = views(table@);
    let n = graph.len();
    let mut state: Vec<State> = Vec::new();
    while state.len() < n
        invariant
            state@.len() <= n,
            forall|x: int| 0 <= x < state@.len() ==> #[trigger] state@[x] == State::Out,
        decreases n - state@.len(),
    {
        state.push(State::Out);
    }
    let mut k: usize = 0;
    while k < excluded.len()
        invariant
            n == ex.instances_view().len(),
            state@.len() == n,
            k <= excluded@.len(),
            forall|i: int| 0 <= i < excluded@.len() ==> #[trigger] excluded@[i] < n,
            forall|x: usize|
                x < n ==> (#[trigger] state@[x as int] == State::Excluded <==> excluded@.take(k as int).contains(x)),
            forall|x: usize| x < n ==> #[trigger] state@[x as int] == State::Out || state@[x as int] == State::Excluded,
        decreases excluded@.len() - k,
    {
        let x = excluded[k];
        state.set(x, State::Excluded);
        proof {
            assert(excluded@.take(k + 1) =~= excluded@.take(k as int).push(x));
            lemma_push_contains(excluded@.take(k as int), x);
        }
        k = k + 1;
    }
    let mut queue: Vec<usize> = Vec::new();
    proof {
        assert(excluded@.take(excluded@.len() as int) =~= excluded@);
        assert(progress(ex, t, seeds@, excluded@, state@, queue@, 0));
    }
    let ghost budget = outs(state@);
    let mut k: usize = 0;
    while k < seeds.len()
        invariant
            graph.wf(),
            ex == graph.exchange_view(),
            t == views(table@),
            k <= seeds@.len(),
            forall|i: int| 0 <= i < seeds@.len() ==> #[trigger] seeds@[i] < ex.instances_view().len(),
            progress(ex, t, seeds@, excluded@, state@, queue@, 0),
            outs(state@) + queue@.len() == budget,
            forall|q: int| 0 <= q < k ==> state@[#[trigger] seeds@[q] as int] != State::Out,
        decreases seeds@.len() - k,
    {
        proof {
            assert(seeds@.contains(seeds@[k as int]));
        }
        take(graph, &table, &mut state, &mut queue, seeds[k], Ghost(seeds@), Ghost(excluded@), Ghost(0));
        k = k + 1;
    }
    let mut head: usize = 0;
    while head < queue.len()
        invariant
            graph.wf(),
            ex == graph.exchange_view(),
            t == views(table@),
            progress(ex, t, seeds@, excluded@, state@, queue@, head as int),
            outs(state@) + queue@.len() == budget,
            forall|q: int| 0 <= q < seeds@.len() ==> state@[#[trigger] seeds@[q] as int] != State::Out,
            forall|i: int| 0 <= i < seeds@.len() ==> #[trigger] seeds@[i] < ex.instances_view().len(),
        decreases budget - head,
    {
        visit(graph, &table, &mut state, &mut queue, head, Ghost(seeds@), Ghost(excluded@));
        head = head + 1;
    }
    let has_excluded = excluded.len() > 0;
    let mut nodes: Vec<usize> = Vec::new();
    let mut pruned: Vec<usize> = Vec::new();
    let mut x: usize = 0;
    while x < n
        invariant
            graph.wf(),
            ex == graph.exchange_view(),
            t == views(table@),
            n == ex.instances_view().len(),
            has_excluded == (excluded@.len() > 0),
            x <= n,
            progress(ex, t, seeds@, excluded@, state@, queue@, head as int),
            ascending(nodes@),
            ascending(pruned@),
            forall|i: int| 0 <= i < nodes@.len() ==> #[trigger] nodes@[i] < x,
            forall|i: int| 0 <= i < pruned@.len() ==> #[trigger] pruned@[i] < x,
            forall|y: usize| #[trigger] nodes@.contains(y) <==> (y < x && taken(state@[y as int])),
            forall|y: usize|
                #[trigger] pruned@.contains(y) <==> (y < x && taken(state@[y as int]) && prunes(
                    ex,
                    t,
                    excluded@,
                    y,
                )),
        decreases n - x,
    {
        proof {
            lemma_push_contains(nodes@, x);
            lemma_push_contains(pruned@, x);
        }
        match state[x] {
            State::Owned => {
                proof {
                    assert(state@[x as int] == kind_of(ex, t, x));
                    if has_excluded {
                        assert forall|u: usize| #[trigger] targets_of(ex, x as int).contains(u) implies (
                        state@[u as int] == State::Excluded <==> excluded@.contains(u)) by {
                            lemma_targets_in_range(ex, x as int, u);
                        }
                    }
                }
                nodes.push(x);
                if has_excluded && lists_excluded(graph, &state, x) {
                    pruned.push(x);
                }
            },
            State::Shared(_) => {
                proof {
                    assert(state@[x as int] == kind_of(ex, t, x));
                }
                nodes.push(x);
                pruned.push(x);
            },
            _ => {},
        }
        x = x + 1;
    }
    proof {
        let taken_set = nodes@.to_set();
        assert(head == queue@.len());
        assert forall|y: usize| #[trigger] nodes@.contains(y) implies y < ex.instances_view().len()
            && !excluded@.contains(y) by {}
        assert forall|s: usize| #[trigger] seeds@.contains(s) && !excluded@.contains(s) implies taken_set.contains(s) by {
            let q = choose|q: int| 0 <= q < seeds@.len() && seeds@[q] == s;
            assert(state@[seeds@[q] as int] != State::Out);
        }
        assert forall|p: usize, u: usize|
            taken_set.contains(p) && u < ex.instances_view().len() && !excluded@.contains(u) && #[trigger] follows(
                ex,
                t,
                p,
                u,
            ) implies taken_set.contains(u) by {
            assert(nodes@.contains(p));
            assert(queue@.contains(p));
            let i = choose|i: int| 0 <= i < queue@.len() && queue@[i] == p;
            assert(state@[u as int] != State::Out);
        }
        assert forall|c: Set<usize>|
            #![trigger closed(ex, t, excluded@, c)]
            closed(ex, t, excluded@, c) && holds_seeds(seeds@, excluded@, c) implies taken_set.subset_of(c) by {
            assert forall|y: usize| taken_set.contains(y) implies c.contains(y) by {
                assert(nodes@.contains(y));
                assert(queue@.contains(y));
                let i = choose|i: int| 0 <= i < queue@.len() && queue@[i] == y;
                lemma_queue_within(ex, t, seeds@, excluded@, state@, queue@, head as int, c, i);
            }
        }
    }
    Extraction { nodes, pruned }
}

/// The nodes that none of `extractions` contains, in ascending order:
/// what a split would leave behind.
pub fn orphans(graph: &Graph, extractions: &[Extraction]) -> (v: Vec<usize>)
    requires
        forall|e: int, i: int|
            0 <= e < extractions@.len() && 0 <= i < extractions@[e].nodes_view().len() ==> #[trigger] extractions@[e].nodes_view()[i]
                < graph.exchange_view().instances_view().len(),
    ensures
        lists(
            v@,
            Set::new(
                |x: usize|
                    x < graph.exchange_view().instances_view().len() && forall|e: int|
                        0 <= e < extractions@.len() ==> !(#[trigger] extractions@[e].nodes_view().contains(x)),
            ),
        ),
{
    let n = graph.len();
    let mut taken: Vec<bool> = Vec::new();
    while taken.len() < n
        invariant
            taken@.len() <= n,
            forall|x: int| 0 <= x < taken@.len() ==> !#[trigger] taken@[x],
        decreases n - taken@.len(),
    {
        taken.push(false);
    }
    let mut e: usize = 0;
    while e < extractions.len()
        invariant
            n == graph.exchange_view().instances_view().len(),
            taken@.len() == n,
            e <= extractions@.len(),
            forall|f: int, i: int|
                0 <= f < extractions@.len() && 0 <= i < extractions@[f].nodes_view().len() ==> #[trigger] extractions@[f].nodes_view()[i]
                    < n,
            forall|x: usize|
                x < n ==> (#[trigger] taken@[x as int] <==> exists|f: int|
                    0 <= f < e && #[trigger] extractions@[f].nodes_view().contains(x)),
        decreases extractions@.len() - e,
    {
        let nodes = extractions[e].nodes();
        let mut k: usize = 0;
        while k < nodes.len()
            invariant
                n == graph.exchange_view().instances_view().len(),
                taken@.len() == n,
                e < extractions@.len(),
                nodes@ == extractions@[e as int].nodes_view(),
                k <= nodes@.len(),
                forall|i: int| 0 <= i < nodes@.len() ==> #[trigger] nodes@[i] < n,
                forall|x: usize|
                    x < n ==> (#[trigger] taken@[x as int] <==> (exists|f: int|
                        0 <= f < e && #[trigger] extractions@[f].nodes_view().contains(x)) || nodes@.take(
                        k as int,
                    ).contains(x)),
            decreases nodes@.len() - k,
        {
            let x = nodes[k];
            taken.set(x, true);
            proof {
                assert(nodes@.take(k + 1) =~= nodes@.take(k as int).push(x));
                lemma_push_contains(nodes@.take(k as int), x);
            }
            k = k + 1;
        }
        proof {
            assert(nodes@.take(nodes@.len() as int) =~= nodes@);
            assert forall|x: usize|
                x < n implies (#[trigger] taken@[x as int] <==> exists|f: int|
                    0 <= f < e + 1 && #[trigger] extractions@[f].nodes_view().contains(x)) by {
                if extractions@[e as int].nodes_view().contains(x) {
                    assert(0 <= e < e + 1);
                }
            }
        }
        e = e + 1;
    }
    let mut out: Vec<usize> = Vec::new();
    let mut x: usize = 0;
    while x < n
        invariant
            n == graph.exchange_view().instances_view().len(),
            taken@.len() == n,
            x <= n,
            ascending(out@),
            forall|i: int| 0 <= i < out@.len() ==> #[trigger] out@[i] < x,
            forall|y: usize| #[trigger] out@.contains(y) <==> (y < x && !taken@[y as int]),
        decreases n - x,
    {
        proof {
            lemma_push_contains(out@, x);
        }
        if !taken[x] {
            out.push(x);
        }
        x = x + 1;
    }
    out
}

/// A simple instance of rule `i`'s entity `e` that refers through the
/// rule's attribute to an extracted node, and is not excluded, is
/// extracted.
proof fn lemma_rule_brings_in(
    ex: Exchange,
    seeds: Seq<usize>,
    excluded: Seq<usize>,
    nodes: Seq<usize>,
    pruned: Seq<usize>,
    p: usize,
    t: usize,
    i: int,
    e: int,
)
    requires
        extracts(ex, rule_table(), seeds, excluded, nodes, pruned),
        nodes.contains(p),
        t < ex.instances_view().len(),
        !excluded.contains(t),
        !ex.instances_view()[t as int].complex,
        ex.records_view(ex.instances_view()[t as int]).len() > 0,
        0 <= i < RULE_COUNT,
        0 <= e < rule_view_at(i as usize).entities.len(),
        eq_ignore_case(
            rec_name(ex, ex.records_view(ex.instances_view()[t as int])[0]),
            rule_view_at(i as usize).entities[e].spec_bytes(),
        ),
        ids_in(
            param_tokens(ex.records_view(ex.instances_view()[t as int])[0].1, rule_view_at(i as usize).simple as nat),
        ).contains(ex.instances_view()[p as int].id),
        targets_of(ex, t as int).contains(p),
    ensures
        nodes.contains(t),
{
    let table = rule_table();
    let inst = ex.instances_view()[t as int];
    let recs = ex.records_view(inst);
    let rule = table[i];
    assert(rule == rule_view_at(i as usize));
    assert(names_one_of(rec_name(ex, recs[0]), rule.entities));
    assert(matches_rule(ex, inst, table[i], ex.instances_view()[p as int].id));
    assert(joins(ex, inst, table, ex.instances_view()[p as int].id));
    assert(sources_of(ex, p).contains(t));
    assert(joins_back(ex, table, p, t));
    assert(follows(ex, table, p, t));
    assert(nodes.to_set().contains(p));
}

/// A property goes where its subject goes: a simple `PROPERTY_DEFINITION`
/// or `PRODUCT_DEFINITION_SHAPE` whose `definition` (attribute 2) names an
/// extracted instance is extracted too, unless it is excluded.
pub proof fn lemma_properties_follow_their_definition(
    ex: Exchange,
    seeds: Seq<usize>,
    excluded: Seq<usize>,
    nodes: Seq<usize>,
    pruned: Seq<usize>,
    p: usize,
    t: usize,
)
    requires
        extracts(ex, rule_table(), seeds, excluded, nodes, pruned),
        nodes.contains(p),
        t < ex.instances_view().len(),
        !excluded.contains(t),
        !ex.instances_view()[t as int].complex,
        ex.records_view(ex.instances_view()[t as int]).len() > 0,
        eq_ignore_case(
            rec_name(ex, ex.records_view(ex.instances_view()[t as int])[0]),
            "PROPERTY_DEFINITION".spec_bytes(),
        ) || eq_ignore_case(
            rec_name(ex, ex.records_view(ex.instances_view()[t as int])[0]),
            "PRODUCT_DEFINITION_SHAPE".spec_bytes(),
        ),
        ids_in(param_tokens(ex.records_view(ex.instances_view()[t as int])[0].1, 2)).contains(
            ex.instances_view()[p as int].id,
        ),
        targets_of(ex, t as int).contains(p),
    ensures
        nodes.contains(t),
{
    let name = rec_name(ex, ex.records_view(ex.instances_view()[t as int])[0]);
    assert(rule_view_at(0).entities[0] == "PROPERTY_DEFINITION");
    assert(rule_view_at(0).entities[1] == "PRODUCT_DEFINITION_SHAPE");
    assert(rule_view_at(0).simple == 2);
    if eq_ignore_case(name, "PROPERTY_DEFINITION".spec_bytes()) {
        lemma_rule_brings_in(ex, seeds, excluded, nodes, pruned, p, t, 0, 0);
    } else {
        lemma_rule_brings_in(ex, seeds, excluded, nodes, pruned, p, t, 0, 1);
    }
}

/// A representation goes where what it represents goes: a simple
/// `PROPERTY_DEFINITION_REPRESENTATION` or
/// `SHAPE_DEFINITION_REPRESENTATION` whose `definition` (attribute 0)
/// names an extracted instance is extracted too, unless it is excluded.
pub proof fn lemma_representations_follow_their_definition(
    ex: Exchange,
    seeds: Seq<usize>,
    excluded: Seq<usize>,
    nodes: Seq<usize>,
    pruned: Seq<usize>,
    p: usize,
    t: usize,
)
    requires
        extracts(ex, rule_table(), seeds, excluded, nodes, pruned),
        nodes.contains(p),
        t < ex.instances_view().len(),
        !excluded.contains(t),
        !ex.instances_view()[t as int].complex,
        ex.records_view(ex.instances_view()[t as int]).len() > 0,
        eq_ignore_case(
            rec_name(ex, ex.records_view(ex.instances_view()[t as int])[0]),
            "PROPERTY_DEFINITION_REPRESENTATION".spec_bytes(),
        ) || eq_ignore_case(
            rec_name(ex, ex.records_view(ex.instances_view()[t as int])[0]),
            "SHAPE_DEFINITION_REPRESENTATION".spec_bytes(),
        ),
        ids_in(param_tokens(ex.records_view(ex.instances_view()[t as int])[0].1, 0)).contains(
            ex.instances_view()[p as int].id,
        ),
        targets_of(ex, t as int).contains(p),
    ensures
        nodes.contains(t),
{
    let name = rec_name(ex, ex.records_view(ex.instances_view()[t as int])[0]);
    assert(rule_view_at(1).entities[0] == "PROPERTY_DEFINITION_REPRESENTATION");
    assert(rule_view_at(1).entities[1] == "SHAPE_DEFINITION_REPRESENTATION");
    assert(rule_view_at(1).simple == 0);
    if eq_ignore_case(name, "PROPERTY_DEFINITION_REPRESENTATION".spec_bytes()) {
        lemma_rule_brings_in(ex, seeds, excluded, nodes, pruned, p, t, 1, 0);
    } else {
        lemma_rule_brings_in(ex, seeds, excluded, nodes, pruned, p, t, 1, 1);
    }
}

} // verus!
