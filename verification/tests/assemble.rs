use stepq::assemble::{formation, links, max_id, shape_definitions};
use stepq::model::Graph;
use stepq::p21::parse;

/// A master written by `split --master`: assembly A with a stub of part
/// P (#20–#25) and its external reference (#52–#62).
const MASTER: &str = "ISO-10303-21;HEADER;FILE_SCHEMA(('AUTOMOTIVE_DESIGN'));ENDSEC;DATA;
#1=APPLICATION_CONTEXT('design');
#2=APPLICATION_PROTOCOL_DEFINITION('international standard','automotive_design',2001,#1);
#3=PRODUCT_CONTEXT('',#1,'mechanical');
#4=PRODUCT_DEFINITION_CONTEXT('part definition',#1,'design');
#5=GEOMETRIC_REPRESENTATION_CONTEXT(3);
#11=PRODUCT('A','assembly','',(#3));
#12=PRODUCT_DEFINITION_FORMATION('1','',#11);
#10=PRODUCT_DEFINITION('a','',#12,#4);
#13=PRODUCT_DEFINITION_SHAPE('','',#10);
#14=SHAPE_DEFINITION_REPRESENTATION(#13,#15);
#15=SHAPE_REPRESENTATION('',(#34),#5);
#21=PRODUCT('P','plate','',(#3));
#22=PRODUCT_DEFINITION_FORMATION('1','',#21);
#20=PRODUCT_DEFINITION('p','',#22,#4);
#23=PRODUCT_DEFINITION_SHAPE('','',#20);
#24=SHAPE_DEFINITION_REPRESENTATION(#23,#25);
#25=ADVANCED_BREP_SHAPE_REPRESENTATION('',(#34),#5);
#34=AXIS2_PLACEMENT_3D('',#35,$,$);
#35=CARTESIAN_POINT('',(0.,0.,0.));
#40=NEXT_ASSEMBLY_USAGE_OCCURRENCE('u1','P1','',#10,#20,$);
#41=PRODUCT_DEFINITION_SHAPE('','',#40);
#42=(REPRESENTATION_RELATIONSHIP('','',#25,#15)REPRESENTATION_RELATIONSHIP_WITH_TRANSFORMATION(#43)SHAPE_REPRESENTATION_RELATIONSHIP());
#43=ITEM_DEFINED_TRANSFORMATION('','',#34,#34);
#44=CONTEXT_DEPENDENT_SHAPE_REPRESENTATION(#42,#41);
#52=DOCUMENT_TYPE('geometry');
#53=DOCUMENT_FILE('P.stp','',$,#52,'',$);
#54=DOCUMENT_REPRESENTATION_TYPE('digital',#53);
#55=IDENTIFICATION_ROLE('external document id and location',$);
#56=EXTERNAL_SOURCE(IDENTIFIER(''));
#57=APPLIED_EXTERNAL_IDENTIFICATION_ASSIGNMENT('P.stp',#55,#56,(#53));
#58=APPLIED_DOCUMENT_REFERENCE(#53,'',(#20));
#59=OBJECT_ROLE('mandatory',$);
#60=ROLE_ASSOCIATION(#59,#58);
#61=PROPERTY_DEFINITION('external definition',$,#53);
#62=PROPERTY_DEFINITION_REPRESENTATION(#61,#25);
ENDSEC;END-ISO-10303-21;";

const PART: &str = "ISO-10303-21;HEADER;FILE_SCHEMA(('AUTOMOTIVE_DESIGN'));ENDSEC;DATA;
#1=APPLICATION_CONTEXT('design');
#2=APPLICATION_PROTOCOL_DEFINITION('international standard','automotive_design',2001,#1);
#3=PRODUCT_CONTEXT('',#1,'mechanical');
#4=PRODUCT_DEFINITION_CONTEXT('part definition',#1,'design');
#5=GEOMETRIC_REPRESENTATION_CONTEXT(3);
#6=PRODUCT('P','plate','',(#3));
#7=PRODUCT_DEFINITION_FORMATION('1','',#6);
#8=PRODUCT_DEFINITION('p','',#7,#4);
#9=PRODUCT_DEFINITION_SHAPE('','',#8);
#10=SHAPE_DEFINITION_REPRESENTATION(#9,#11);
#11=ADVANCED_BREP_SHAPE_REPRESENTATION('',(#12,#14),#5);
#12=AXIS2_PLACEMENT_3D('',#13,$,$);
#13=CARTESIAN_POINT('',(0.,0.,0.));
#14=MANIFOLD_SOLID_BREP('plate',#15);
#15=CLOSED_SHELL('',());
ENDSEC;END-ISO-10303-21;";

/// The `#id`s of `nodes`.
fn ids(graph: &Graph, nodes: &[usize]) -> Vec<u64> {
    nodes.iter().map(|&n| graph.instance(n).id).collect()
}

#[test]
fn the_master_has_one_reference_with_all_its_entities() {
    let graph = Graph::new(parse(MASTER.as_bytes()).unwrap()).unwrap();
    let found = links(&graph);
    assert_eq!(found.len(), 1);
    let link = &found[0];
    assert_eq!(link.file, "P.stp");
    assert_eq!(link.stub, 20);
    assert_eq!(
        ids(&graph, &link.chain),
        [58, 53, 52, 54, 57, 55, 56, 61, 62, 60, 59]
    );
}

#[test]
fn a_file_without_references_has_no_links() {
    let graph = Graph::new(parse(PART.as_bytes()).unwrap()).unwrap();
    assert!(links(&graph).is_empty());
}

#[test]
fn an_identification_assignment_names_the_file() {
    let src = "ISO-10303-21;HEADER;FILE_SCHEMA(('X'));ENDSEC;DATA;
#1=DOCUMENT_FILE('old.stp','',$,$,'',$);
#2=APPLIED_EXTERNAL_IDENTIFICATION_ASSIGNMENT('new.stp',$,$,(#1));
#3=APPLIED_DOCUMENT_REFERENCE(#1,'',(#7,#8));
#4=APPLIED_EXTERNAL_IDENTIFICATION_ASSIGNMENT('#ignored',$,$,(#1));
#7=PRODUCT_DEFINITION('a','',$,$);
#8=PRODUCT_DEFINITION('b','',$,$);
ENDSEC;END-ISO-10303-21;";
    let graph = Graph::new(parse(src.as_bytes()).unwrap()).unwrap();
    let found = links(&graph);
    assert_eq!(found.len(), 2);
    assert_eq!(found[0].file, "new.stp");
    assert_eq!(found[0].stub, 7);
    assert_eq!(found[1].stub, 8);
    assert_eq!(found[0].chain, found[1].chain);
    assert_eq!(ids(&graph, &found[0].chain), [3, 1, 2, 4]);
}

#[test]
fn a_reference_to_something_that_is_not_a_document_file_is_no_link() {
    let src = "ISO-10303-21;HEADER;FILE_SCHEMA(('X'));ENDSEC;DATA;
#1=DOCUMENT('d','',$,$);
#3=APPLIED_DOCUMENT_REFERENCE(#1,'',(#7));
#7=PRODUCT_DEFINITION('a','',$,$);
ENDSEC;END-ISO-10303-21;";
    let graph = Graph::new(parse(src.as_bytes()).unwrap()).unwrap();
    assert!(links(&graph).is_empty());
}

#[test]
fn what_a_merge_renames() {
    let graph = Graph::new(parse(MASTER.as_bytes()).unwrap()).unwrap();
    assert_eq!(max_id(graph.exchange()), 62);
    assert_eq!(formation(graph.exchange(), 20), Some(22));
    assert_eq!(formation(graph.exchange(), 99), None);
    assert_eq!(shape_definitions(&graph, 20), [(23, vec![24])]);
    assert_eq!(shape_definitions(&graph, 10), [(13, vec![14])]);
    assert!(shape_definitions(&graph, 34).is_empty());

    let part = Graph::new(parse(PART.as_bytes()).unwrap()).unwrap();
    assert_eq!(max_id(part.exchange()), 15);
}
