use stepq::model::assembly::{measure_text, BomEntry, BomTreeOptions};
use stepq::model::{Graph, Placement, ProductStructure, UsageKind};
use stepq::p21::parse;

/// Assembly A: two of sub-assembly B (each with three C) and a
/// quantified usage of four D. B's first usage is placed normally; C's
/// first usage names the parent shape as `rep_1`.
const SAMPLE: &str = "ISO-10303-21;HEADER;FILE_SCHEMA(('AP242'));ENDSEC;DATA;
#1=APPLICATION_CONTEXT('design');
#2=PRODUCT_CONTEXT('',#1,'mechanical');
#3=PRODUCT_DEFINITION_CONTEXT('part definition',#1,'design');
#11=PRODUCT('A','assembly','',(#2));
#12=PRODUCT_DEFINITION_FORMATION('1','',#11);
#10=PRODUCT_DEFINITION('a-def','',#12,#3);
#21=PRODUCT('B','bracket assembly','',(#2));
#22=PRODUCT_DEFINITION_FORMATION_WITH_SPECIFIED_SOURCE('2','',#21,.MADE.);
#20=PRODUCT_DEFINITION('b-def','',#22,#3);
#31=PRODUCT('C','bolt','',(#2));
#32=PRODUCT_DEFINITION_FORMATION('1','',#31);
#30=PRODUCT_DEFINITION('c-def','',#32,#3);
#41=PRODUCT('D','plate','',(#2));
#42=PRODUCT_DEFINITION_FORMATION('1','',#41);
#40=PRODUCT_DEFINITION('d-def','',#42,#3);
#50=SHAPE_REPRESENTATION('a',(#60),#1);
#51=SHAPE_REPRESENTATION('b',(#60),#1);
#52=SHAPE_REPRESENTATION('c',(#60),#1);
#60=AXIS2_PLACEMENT_3D('',#61,$,$);
#61=CARTESIAN_POINT('',(0.,0.,0.));
#70=PRODUCT_DEFINITION_SHAPE('','',#10);
#71=PRODUCT_DEFINITION_SHAPE('','',#20);
#72=PRODUCT_DEFINITION_SHAPE('','',#30);
#80=SHAPE_DEFINITION_REPRESENTATION(#70,#50);
#81=SHAPE_DEFINITION_REPRESENTATION(#71,#51);
#82=SHAPE_DEFINITION_REPRESENTATION(#72,#52);
#100=NEXT_ASSEMBLY_USAGE_OCCURRENCE('u1','B1','',#10,#20,$);
#101=NEXT_ASSEMBLY_USAGE_OCCURRENCE('u2','B2','',#10,#20,$);
#102=NEXT_ASSEMBLY_USAGE_OCCURRENCE('u3','C1','',#20,#30,'X1');
#103=NEXT_ASSEMBLY_USAGE_OCCURRENCE('u4','C2','',#20,#30,'X2');
#104=NEXT_ASSEMBLY_USAGE_OCCURRENCE('u5','C3','',#20,#30,'X3');
#105=(ASSEMBLY_COMPONENT_USAGE($)NEXT_ASSEMBLY_USAGE_OCCURRENCE()PRODUCT_DEFINITION_RELATIONSHIP('u6','D','',#10,#40)PRODUCT_DEFINITION_USAGE()QUANTIFIED_ASSEMBLY_COMPONENT_USAGE(#106));
#106=MEASURE_WITH_UNIT(COUNT_MEASURE(4.),#1);
#90=PRODUCT_DEFINITION_SHAPE('','',#100);
#91=(REPRESENTATION_RELATIONSHIP('','',#51,#50)REPRESENTATION_RELATIONSHIP_WITH_TRANSFORMATION(#92)SHAPE_REPRESENTATION_RELATIONSHIP());
#92=ITEM_DEFINED_TRANSFORMATION('','',#60,#60);
#93=CONTEXT_DEPENDENT_SHAPE_REPRESENTATION(#91,#90);
#94=PRODUCT_DEFINITION_SHAPE('','',#102);
#95=REPRESENTATION_RELATIONSHIP_WITH_TRANSFORMATION('','',#51,#52,#92);
#96=CONTEXT_DEPENDENT_SHAPE_REPRESENTATION(#95,#94);
ENDSEC;END-ISO-10303-21;";

/// Assembly A places two of part C only through mapped items, the way
/// some exporters (such as `STEPnet`) do.
fn mapped_sample(items: &str) -> String {
    format!(
        "ISO-10303-21;HEADER;FILE_SCHEMA(('X'));ENDSEC;DATA;
#1=APPLICATION_CONTEXT('design');
#10=PRODUCT_DEFINITION('a','',$,$);
#30=PRODUCT_DEFINITION('c','',$,$);
#50=ADVANCED_BREP_SHAPE_REPRESENTATION('a',({items}),#1);
#52=ADVANCED_BREP_SHAPE_REPRESENTATION('c',(#60),#1);
#60=AXIS2_PLACEMENT_3D('',#61,$,$);
#61=CARTESIAN_POINT('',(0.,0.,0.));
#62=AXIS2_PLACEMENT_3D('',#61,$,$);
#70=PRODUCT_DEFINITION_SHAPE('','',#10);
#72=PRODUCT_DEFINITION_SHAPE('','',#30);
#80=SHAPE_DEFINITION_REPRESENTATION(#70,#50);
#82=SHAPE_DEFINITION_REPRESENTATION(#72,#52);
#100=NEXT_ASSEMBLY_USAGE_OCCURRENCE('1','','',#10,#30,$);
#101=NEXT_ASSEMBLY_USAGE_OCCURRENCE('2','','',#10,#30,$);
#150=REPRESENTATION_MAP(#60,#52);
#200=MAPPED_ITEM('',#150,#60);
#201=MAPPED_ITEM('',#150,#62);
ENDSEC;END-ISO-10303-21;"
    )
}

fn structure_of(src: &str) -> ProductStructure {
    ProductStructure::new(&Graph::new(parse(src.as_bytes()).unwrap()).unwrap())
}

fn structure() -> ProductStructure {
    structure_of(SAMPLE)
}

#[test]
fn definitions_and_products() {
    let structure = structure();
    let instances: Vec<u64> = structure.definitions().iter().map(|d| d.instance).collect();
    assert_eq!(instances, [10, 20, 30, 40]);
    let b = &structure.definitions()[1];
    assert_eq!(b.id.as_deref(), Some("b-def"));
    assert_eq!(b.version.as_deref(), Some("2"));
    let product = b.product.as_ref().unwrap();
    assert_eq!(
        (
            product.instance,
            product.id.as_deref(),
            product.name.as_deref()
        ),
        (21, Some("B"), Some("bracket assembly"))
    );
    assert_eq!(product.description, None, "blank strings are omitted");
    assert_eq!(structure.definitions()[0].shape_representations, [50]);
    assert!(structure.definitions()[3].shape_representations.is_empty());
    assert_eq!(structure.roots(), [0]);
}

#[test]
fn usages_simple_and_complex() {
    let graph = Graph::new(parse(SAMPLE.as_bytes()).unwrap()).unwrap();
    let structure = ProductStructure::new(&graph);
    let usages = structure.usages();
    assert_eq!(usages.len(), 6);
    assert_eq!(
        usages
            .iter()
            .map(|u| (u.instance, u.parent, u.child))
            .collect::<Vec<_>>(),
        [
            (100, 0, 1),
            (101, 0, 1),
            (102, 1, 2),
            (103, 1, 2),
            (104, 1, 2),
            (105, 0, 3)
        ]
    );
    assert_eq!(usages[2].reference_designator.as_deref(), Some("X1"));
    assert_eq!(usages[0].kind, UsageKind::NextAssemblyUsageOccurrence);

    let quantified = &usages[5];
    assert_eq!(quantified.kind, UsageKind::QuantifiedAssemblyComponentUsage);
    assert_eq!(quantified.id.as_deref(), Some("u6"));
    assert_eq!(
        quantified
            .quantity
            .and_then(|id| measure_text(&graph, id))
            .and_then(|text| text.parse::<f64>().ok())
            .map(|q| q.to_string())
            .as_deref(),
        Some("4")
    );
    assert_eq!(quantified.reference_designator, None);
}

#[test]
fn shape_relationship_placements_and_reversal() {
    let structure = structure();
    let usages = structure.usages();
    assert_eq!(
        usages[0].placement,
        Some(Placement::ShapeRelationship {
            context_dependent_shape_representation: 93,
            relationship: 91,
            transformation: Some(92),
            reversed: Some(false),
        })
    );
    assert_eq!(
        usages[2].placement,
        Some(Placement::ShapeRelationship {
            context_dependent_shape_representation: 96,
            relationship: 95,
            transformation: Some(92),
            reversed: Some(true),
        })
    );
    assert_eq!(usages[2].placement.as_ref().unwrap().reversed(), Some(true));
    assert_eq!(usages[1].placement, None);
}

#[test]
fn mapped_items_place_usages_in_order() {
    let structure = structure_of(&mapped_sample("#200,#61,#201"));
    let placements: Vec<Option<Placement>> = structure
        .usages()
        .iter()
        .map(|u| u.placement.clone())
        .collect();
    assert_eq!(
        placements,
        [
            Some(Placement::MappedItem {
                mapped_item: 200,
                representation_map: 150,
                origin: Some(60),
                target: Some(60),
            }),
            Some(Placement::MappedItem {
                mapped_item: 201,
                representation_map: 150,
                origin: Some(60),
                target: Some(62),
            }),
        ]
    );
    assert_eq!(placements[0].as_ref().unwrap().reversed(), None);
}

#[test]
fn mapped_items_are_not_guessed_when_counts_differ() {
    let structure = structure_of(&mapped_sample("#200"));
    assert!(structure.usages().iter().all(|u| u.placement.is_none()));
}

#[test]
fn components_group_repeated_usages() {
    let structure = structure();
    let grouped: Vec<(usize, Vec<u64>)> = structure
        .components(0)
        .into_iter()
        .map(|(child, usages)| (child, usages.iter().map(|u| u.instance).collect()))
        .collect();
    assert_eq!(grouped, [(1, vec![100, 101]), (3, vec![105])]);
    assert_eq!(structure.children(1).len(), 3);
    assert_eq!(structure.children(2).len(), 0);
}

#[test]
fn roots_are_the_definitions_nothing_uses() {
    // Every usage names two definitions, and a definition a usage names
    // is no root.
    let structure = structure();
    for usage in structure.usages() {
        assert!(usage.parent < structure.definitions().len());
        assert!(usage.child < structure.definitions().len());
        assert!(!structure.roots().contains(&usage.child));
    }
    let lone = structure_of("ISO-10303-21;HEADER;FILE_SCHEMA(('X'));ENDSEC;DATA;
#1=PRODUCT_DEFINITION('a','',$,$);
#2=PRODUCT_DEFINITION('b','',$,$);
ENDSEC;END-ISO-10303-21;");
    assert_eq!(lone.roots(), [0, 1]);
    assert!(lone.usages().is_empty());
}

#[test]
fn usages_of_undefined_definitions_are_skipped() {
    let src = "ISO-10303-21;HEADER;FILE_SCHEMA(('X'));ENDSEC;DATA;
#1=PRODUCT_DEFINITION('a','',$,$);
#5=NEXT_ASSEMBLY_USAGE_OCCURRENCE('u','','',#1,#9,$);
#6=NEXT_ASSEMBLY_USAGE_OCCURRENCE('v','','',#1,#7,$);
#7=PRODUCT('not a definition','','',());
ENDSEC;END-ISO-10303-21;";
    let graph = Graph::build(parse(src.as_bytes()).unwrap());
    let structure = ProductStructure::new(&graph);
    // #9 is undefined; #7 is named by a usage, so it counts as a definition.
    assert_eq!(structure.usages().len(), 1);
    assert_eq!(structure.usages()[0].instance, 6);
    let instances: Vec<u64> = structure.definitions().iter().map(|d| d.instance).collect();
    assert_eq!(instances, [1, 7]);
    assert_eq!(structure.definitions()[1].entity, "PRODUCT");
    assert_eq!(structure.definitions()[1].id, None);
}

/// (level, definition, quantity, total, mark) for every node, depth first:
/// a node's quantity adds up its usages' quantities, its total multiplies
/// the quantities along its path.
fn flatten(
    graph: &Graph,
    structure: &ProductStructure,
    entries: &[BomEntry],
) -> Vec<(usize, usize, String, String, &'static str)> {
    let mut totals: Vec<f64> = Vec::new();
    entries
        .iter()
        .map(|e| {
            let quantity: f64 = if e.level == 0 {
                1.0
            } else {
                e.usages
                    .iter()
                    .map(|&u| {
                        structure.usages()[u]
                            .quantity
                            .and_then(|id| measure_text(graph, id))
                            .and_then(|t| t.parse::<f64>().ok())
                            .unwrap_or(1.0)
                    })
                    .sum()
            };
            totals.truncate(e.level);
            let total = totals.last().copied().unwrap_or(1.0) * quantity;
            totals.push(total);
            let mark = if e.repeated {
                "repeated"
            } else if e.truncated {
                "truncated"
            } else {
                ""
            };
            (e.level, e.definition, quantity.to_string(), total.to_string(), mark)
        })
        .collect()
}

#[test]
fn cycles_do_not_loop() {
    let src = "ISO-10303-21;HEADER;FILE_SCHEMA(('X'));ENDSEC;DATA;
#1=PRODUCT_DEFINITION('a','',$,$);
#2=PRODUCT_DEFINITION('b','',$,$);
#3=NEXT_ASSEMBLY_USAGE_OCCURRENCE('1','','',#1,#2,$);
#4=NEXT_ASSEMBLY_USAGE_OCCURRENCE('2','','',#2,#1,$);
#5=NEXT_ASSEMBLY_USAGE_OCCURRENCE('3','','',#9,#1,$);
ENDSEC;END-ISO-10303-21;";
    let graph = Graph::build(parse(src.as_bytes()).unwrap());
    let structure = ProductStructure::new(&graph);
    assert_eq!(
        structure.usages().len(),
        2,
        "a usage with an undefined parent is skipped"
    );
    assert!(
        structure.roots().is_empty(),
        "every definition is someone's child"
    );

    let tree = structure.bom_tree(0, BomTreeOptions::default());
    assert_eq!(
        flatten(&graph, &structure, &tree),
        [
            (0, 0, "1".into(), "1".into(), ""),
            (1, 1, "1".into(), "1".into(), ""),
            (2, 0, "1".into(), "1".into(), "repeated")
        ]
    );
    let tree = structure.bom_tree(0, BomTreeOptions::new(None, false));
    assert_eq!(flatten(&graph, &structure, &tree)[2].4, "truncated", "cycles are cut off");
}

#[test]
fn bom_tree_groups_components_and_multiplies_totals() {
    let graph = Graph::new(parse(SAMPLE.as_bytes()).unwrap()).unwrap();
    let structure = ProductStructure::new(&graph);
    let tree = structure.bom_tree(0, BomTreeOptions::default());
    assert_eq!(
        flatten(&graph, &structure, &tree),
        [
            (0, 0, "1".into(), "1".into(), ""),
            (1, 1, "2".into(), "2".into(), ""),
            (2, 2, "3".into(), "6".into(), ""),
            (1, 3, "4".into(), "4".into(), "")
        ]
    );
    assert!(tree[0].is_assembly && tree[1].is_assembly);
    assert!(!tree[3].is_assembly);
}

#[test]
fn bom_tree_depth_limits_the_listing() {
    let graph = Graph::new(parse(SAMPLE.as_bytes()).unwrap()).unwrap();
    let structure = ProductStructure::new(&graph);
    let tree = structure.bom_tree(0, BomTreeOptions::new(Some(1), true));
    assert_eq!(
        flatten(&graph, &structure, &tree),
        [
            (0, 0, "1".into(), "1".into(), ""),
            (1, 1, "2".into(), "2".into(), "truncated"),
            (1, 3, "4".into(), "4".into(), "")
        ]
    );
    let root_only = structure.bom_tree(0, BomTreeOptions::new(Some(0), true));
    assert!(root_only.len() == 1 && root_only[0].truncated);
}

#[test]
fn bom_tree_expands_repeated_sub_assemblies_once() {
    // A uses B and E; E uses B too; B uses C.
    let src = "ISO-10303-21;HEADER;FILE_SCHEMA(('X'));ENDSEC;DATA;
#1=PRODUCT_DEFINITION('a','',$,$);
#2=PRODUCT_DEFINITION('b','',$,$);
#3=PRODUCT_DEFINITION('e','',$,$);
#4=PRODUCT_DEFINITION('c','',$,$);
#10=NEXT_ASSEMBLY_USAGE_OCCURRENCE('1','','',#1,#2,$);
#11=NEXT_ASSEMBLY_USAGE_OCCURRENCE('2','','',#1,#3,$);
#12=NEXT_ASSEMBLY_USAGE_OCCURRENCE('3','','',#3,#2,$);
#13=NEXT_ASSEMBLY_USAGE_OCCURRENCE('4','','',#2,#4,$);
ENDSEC;END-ISO-10303-21;";
    let graph = Graph::new(parse(src.as_bytes()).unwrap()).unwrap();
    let structure = ProductStructure::new(&graph);
    let marks = |dedupe| {
        flatten(&graph, &structure, &structure.bom_tree(0, BomTreeOptions::new(None, dedupe)))
            .into_iter()
            .map(|(level, definition, _, _, mark)| (level, definition, mark))
            .collect::<Vec<_>>()
    };
    assert_eq!(
        marks(true),
        [
            (0, 0, ""),
            (1, 1, ""),
            (2, 3, ""),
            (1, 2, ""),
            (2, 1, "repeated")
        ]
    );
    assert_eq!(
        marks(false),
        [
            (0, 0, ""),
            (1, 1, ""),
            (2, 3, ""),
            (1, 2, ""),
            (2, 1, ""),
            (3, 3, "")
        ]
    );
}

#[test]
fn bom_tree_lists_each_usage_of_a_component() {
    let structure = structure();
    let tree = structure.bom_tree(0, BomTreeOptions::default());
    // B is used twice by A, C three times by B, D once.
    assert_eq!(tree[0].usages, Vec::<usize>::new());
    assert_eq!(tree[1].usages, [0, 1]);
    assert_eq!(tree[2].usages, [2, 3, 4]);
    assert_eq!(tree[3].usages, [5]);
}
