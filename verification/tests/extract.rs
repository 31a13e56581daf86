use stepq::model::{extract, extract_excluding, orphans, rules, Graph};
use stepq::p21::parse;

/// Assembly A (#10) with one usage of part C (#30). C has a shape, a
/// styled solid on a shared layer, and a category shared with A.
const SAMPLE: &str = "ISO-10303-21;HEADER;FILE_SCHEMA(('AP214'));ENDSEC;DATA;
#1=APPLICATION_CONTEXT('design');
#2=APPLICATION_PROTOCOL_DEFINITION('international standard','automotive_design',2001,#1);
#3=PRODUCT_CONTEXT('',#1,'mechanical');
#4=PRODUCT_DEFINITION_CONTEXT('part definition',#1,'design');
#11=PRODUCT('A','assembly','',(#3));
#12=PRODUCT_DEFINITION_FORMATION('1','',#11);
#10=PRODUCT_DEFINITION('a','',#12,#4);
#31=PRODUCT('C','bolt','',(#3));
#32=PRODUCT_DEFINITION_FORMATION('1','',#31);
#30=PRODUCT_DEFINITION('c','',#32,#4);
#40=PRODUCT_RELATED_PRODUCT_CATEGORY('part','',(#11,#31));
#50=SHAPE_REPRESENTATION('a',(#60),#90);
#52=SHAPE_REPRESENTATION('c',(#60,#53),#90);
#53=MANIFOLD_SOLID_BREP('solid',#54);
#54=CLOSED_SHELL('',());
#60=AXIS2_PLACEMENT_3D('',#61,$,$);
#61=CARTESIAN_POINT('',(0.,0.,0.));
#70=PRODUCT_DEFINITION_SHAPE('','',#10);
#72=PRODUCT_DEFINITION_SHAPE('','',#30);
#80=SHAPE_DEFINITION_REPRESENTATION(#70,#50);
#82=SHAPE_DEFINITION_REPRESENTATION(#72,#52);
#90=GEOMETRIC_REPRESENTATION_CONTEXT(3);
#100=NEXT_ASSEMBLY_USAGE_OCCURRENCE('u1','C1','',#10,#30,$);
#101=PRODUCT_DEFINITION_SHAPE('','',#100);
#102=(REPRESENTATION_RELATIONSHIP('','',#52,#50)REPRESENTATION_RELATIONSHIP_WITH_TRANSFORMATION(#103)SHAPE_REPRESENTATION_RELATIONSHIP());
#103=ITEM_DEFINED_TRANSFORMATION('','',#60,#60);
#104=CONTEXT_DEPENDENT_SHAPE_REPRESENTATION(#102,#101);
#110=STYLED_ITEM('',(#111),#53);
#111=PRESENTATION_STYLE_ASSIGNMENT(());
#120=PRESENTATION_LAYER_ASSIGNMENT('layer 1','',(#53,#61));
#130=MECHANICAL_DESIGN_GEOMETRIC_PRESENTATION_REPRESENTATION('',(#110),#90);
ENDSEC;END-ISO-10303-21;";

fn ids(graph: &Graph<'_>, nodes: &[usize]) -> Vec<u64> {
    let mut ids: Vec<u64> = nodes.iter().map(|&n| graph.instance(n).id).collect();
    ids.sort_unstable();
    ids
}

fn graph() -> Graph<'static> {
    Graph::new(parse(SAMPLE.as_bytes()).unwrap()).unwrap()
}

#[test]
fn a_part_takes_its_shape_style_and_filtered_aggregates_but_not_its_parent() {
    let graph = graph();
    let part = graph.node(30).unwrap();
    let extraction = extract(&graph, &[part]);
    assert_eq!(
        ids(&graph, extraction.nodes()),
        [1, 2, 3, 4, 30, 31, 32, 40, 52, 53, 54, 60, 61, 72, 82, 90, 110, 111, 120, 130]
    );
    assert_eq!(ids(&graph, extraction.pruned()), [40, 120, 130]);
    for parent_side in [10, 11, 100, 102, 104] {
        assert!(
            !extraction.contains(graph.node(parent_side).unwrap()),
            "#{parent_side}"
        );
    }
}

#[test]
fn an_assembly_takes_its_usages_placements_and_components() {
    let graph = graph();
    let assembly = graph.node(10).unwrap();
    let extraction = extract(&graph, &[assembly]);
    let everything: Vec<u64> = graph.exchange().instances().iter().map(|i| i.id).collect();
    let mut everything = everything;
    everything.sort_unstable();
    assert_eq!(ids(&graph, extraction.nodes()), everything);
    assert!(orphans(&graph, &[extraction]).is_empty());
}

#[test]
fn excluded_nodes_and_what_only_they_bring_are_left_out() {
    let graph = graph();
    let part = graph.node(30).unwrap();
    let solid = graph.node(53).unwrap();
    let extraction = extract_excluding(&graph, &[part], &[solid]);
    // The solid, its shell and its style are gone ...
    for gone in [53, 54, 110, 111] {
        assert!(!extraction.contains(graph.node(gone).unwrap()), "#{gone}");
    }
    // ... as is the presentation list #130, reached only through that
    // style. The representation that listed the solid stays, pruned, as
    // does the layer, whose other item is still extracted.
    assert_eq!(
        ids(&graph, extraction.nodes()),
        [1, 2, 3, 4, 30, 31, 32, 40, 52, 60, 61, 72, 82, 90, 120]
    );
    assert_eq!(ids(&graph, extraction.pruned()), [40, 52, 120]);
    assert_eq!(
        extract_excluding(&graph, &[part], &[]),
        extract(&graph, &[part])
    );
}

#[test]
fn shared_aggregates_are_not_followed_through_their_list() {
    let graph = graph();
    // The category lists both products; extracting C must not pull in A.
    let extraction = extract(&graph, &[graph.node(30).unwrap()]);
    assert!(extraction.contains(graph.node(40).unwrap()));
    assert!(!extraction.contains(graph.node(11).unwrap()));
}

#[test]
fn saved_views_and_addresses_go_with_their_product() {
    // Part C with a saved view (presentation set, area) and a person
    // with an address assigned to it; colour #400 is used by nothing.
    let src = "ISO-10303-21;HEADER;FILE_SCHEMA(('AP214'));ENDSEC;DATA;
#1=APPLICATION_CONTEXT('design');
#3=PRODUCT_CONTEXT('',#1,'mechanical');
#4=PRODUCT_DEFINITION_CONTEXT('part definition',#1,'design');
#31=PRODUCT('C','bolt','',(#3));
#32=PRODUCT_DEFINITION_FORMATION('1','',#31);
#30=PRODUCT_DEFINITION('c','',#32,#4);
#90=GEOMETRIC_REPRESENTATION_CONTEXT(2);
#200=APPLIED_PRESENTED_ITEM((#30));
#201=PRESENTATION_SET();
#202=PRESENTED_ITEM_REPRESENTATION(#201,#200);
#203=PRESENTATION_AREA('',(#205),#90);
#204=AREA_IN_SET(#203,#201);
#205=PLANAR_BOX('',1.,1.,#206);
#206=AXIS2_PLACEMENT_2D('',#207,$);
#207=CARTESIAN_POINT('',(0.,0.));
#300=PERSON('p','Smith',$,$,$,$);
#301=PERSONAL_ADDRESS($,$,$,$,$,$,$,'US',$,$,$,$,(#300),$);
#302=ORGANIZATION('o','Org',$);
#303=PERSON_AND_ORGANIZATION(#300,#302);
#304=PERSON_AND_ORGANIZATION_ROLE('creator');
#305=APPLIED_PERSON_AND_ORGANIZATION_ASSIGNMENT(#303,#304,(#30));
#400=COLOUR_RGB('',0.,0.,1.);
ENDSEC;END-ISO-10303-21;";
    let graph = Graph::new(parse(src.as_bytes()).unwrap()).unwrap();
    let extraction = extract(&graph, &[graph.node(30).unwrap()]);
    assert_eq!(
        ids(&graph, extraction.nodes()),
        [
            1, 3, 4, 30, 31, 32, 90, 200, 201, 202, 203, 204, 205, 206, 207, 300, 301, 302, 303,
            304, 305
        ]
    );
    assert_eq!(ids(&graph, extraction.pruned()), [200, 305]);
    assert_eq!(ids(&graph, &orphans(&graph, &[extraction])), [400]);
}

#[test]
fn orphans_are_what_no_extraction_takes() {
    let graph = graph();
    let part = extract(&graph, &[graph.node(30).unwrap()]);
    let orphaned = ids(&graph, &orphans(&graph, &[part]));
    assert_eq!(orphaned, [10, 11, 12, 50, 70, 80, 100, 101, 102, 103, 104]);
}

#[test]
fn rules_are_well_formed() {
    for rule in rules() {
        assert!(!rule.entities.is_empty());
        assert!(rule
            .entities
            .iter()
            .all(|e| e.chars().all(|c| c.is_ascii_uppercase() || c == '_')));
        assert!(rule
            .attribute
            .chars()
            .all(|c| c.is_ascii_lowercase() || c == '_' || c.is_ascii_digit()));
    }
}

#[test]
fn two_extractions_of_one_part_agree_and_a_clone_is_equal() {
    let graph = graph();
    let part = graph.node(30).unwrap();
    let first = extract(&graph, &[part, part]);
    let second = extract(&graph, &[part]);
    assert_eq!(first, second);
    assert_eq!(first.clone(), second);
    let nothing = extract(&graph, &[]);
    assert!(nothing.nodes().is_empty());
    assert_eq!(orphans(&graph, &[nothing]).len(), graph.len());
}
