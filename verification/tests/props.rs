use stepq::model::{Graph, ProductStructure};
use stepq::p21::parse;
use stepq::props::{properties, properties_among, Identifier, Properties, PropertyKind, Subject, Value};

/// A part with a validated volume on a shape aspect, a user-defined
/// attribute with three values, a property of nothing product-shaped,
/// and a persistent identifier.
const SAMPLE: &str = "ISO-10303-21;HEADER;FILE_SCHEMA(('AP242'));ENDSEC;DATA;
#1=APPLICATION_CONTEXT('');
#10=PRODUCT('P1','bracket','',());
#11=PRODUCT_DEFINITION_FORMATION('','',#10);
#12=PRODUCT_DEFINITION('design','',#11,#13);
#13=PRODUCT_DEFINITION_CONTEXT('',#1,'design');
#20=PRODUCT_DEFINITION_SHAPE('','',#12);
#21=SHAPE_ASPECT('','solid',#20,.F.);
#30=PROPERTY_DEFINITION('geometric_validation_property','volume of solid',#21);
#31=PROPERTY_DEFINITION_REPRESENTATION(#30,#32);
#32=REPRESENTATION('volume',(#33),#1);
#33=MEASURE_REPRESENTATION_ITEM('volume measure',VOLUME_MEASURE(96858.91343205),#99);
#40=PROPERTY_DEFINITION('MATERIAL','user defined attribute',#12);
#41=GENERAL_PROPERTY('','MATERIAL','user defined attribute');
#42=GENERAL_PROPERTY_ASSOCIATION('user defined attribute','',#41,#40);
#43=PROPERTY_DEFINITION_REPRESENTATION(#40,#44);
#44=REPRESENTATION('',(#45,#46,#47),#1);
#45=DESCRIPTIVE_REPRESENTATION_ITEM('MATERIAL','Steel ''S235''');
#46=VALUE_REPRESENTATION_ITEM('THICKNESS',LENGTH_MEASURE(1.E0));
#47=(MEASURE_REPRESENTATION_ITEM()MEASURE_WITH_UNIT(MASS_MEASURE(2.5),#99)REPRESENTATION_ITEM('mass'));
#50=PROPERTY_DEFINITION('centroid','',#1);
#51=PROPERTY_DEFINITION_REPRESENTATION(#50,#52);
#52=REPRESENTATION('',(#53),#1);
#53=CARTESIAN_POINT('centre',(1.,2.,3.));
#70=ID_ATTRIBUTE('aspect.1',#21);
#99=DERIVED_UNIT(());
ENDSEC;END-ISO-10303-21;";

#[test]
fn ap242_spelling_and_literal_items() {
    let src = "ISO-10303-21;HEADER;FILE_SCHEMA(('AP242'));ENDSEC;DATA;
#1=APPLICATION_CONTEXT('');
#10=PRODUCT('P1','bracket','',());
#11=PRODUCT_DEFINITION_FORMATION('','',#10);
#12=PRODUCT_DEFINITION('design','',#11,#13);
#13=PRODUCT_DEFINITION_CONTEXT('',#1,'design');
#30=PROPERTY_DEFINITION('attribute validation property','',#12);
#31=PROPERTY_DEFINITION_REPRESENTATION(#30,#32);
#32=REPRESENTATION('',(#33,#34),#1);
#33=INTEGER_REPRESENTATION_ITEM('text user attributes',3.);
#34=STRING_REPRESENTATION_ITEM('note','it''s');
#40=PROPERTY_DEFINITION('Geometric Validation Property','volume',#12);
ENDSEC;END-ISO-10303-21;";
    let graph = Graph::new(parse(src.as_bytes()).unwrap()).unwrap();
    let found = properties(&graph, &ProductStructure::new(&graph));
    assert_eq!(found.properties[0].kind, PropertyKind::Validation);
    assert_eq!(found.properties[1].kind, PropertyKind::Validation);
    assert_eq!(
        found.properties[0].values,
        [
            Value {
                instance: 33,
                name: Some("text user attributes".to_owned()),
                measure: None,
                value: "3.".to_owned(),
                unit: None,
            },
            Value {
                instance: 34,
                name: Some("note".to_owned()),
                measure: None,
                value: "it's".to_owned(),
                unit: None,
            },
        ]
    );
}

fn found() -> Properties {
    let graph = Graph::new(parse(SAMPLE.as_bytes()).unwrap()).unwrap();
    properties(&graph, &ProductStructure::new(&graph))
}

fn value(
    instance: u64,
    name: &str,
    measure: Option<&str>,
    value: &str,
    unit: Option<u64>,
) -> Value {
    Value {
        instance,
        name: Some(name.to_owned()),
        measure: measure.map(str::to_owned),
        value: value.to_owned(),
        unit,
    }
}

#[test]
fn validation_properties_belong_to_the_part_through_their_shape_aspect() {
    let found = found();
    let volume = &found.properties[0];
    assert_eq!(volume.kind, PropertyKind::Validation);
    assert_eq!(volume.label(), "volume of solid");
    assert_eq!(
        volume.subject,
        Subject {
            instance: 21,
            entity: "SHAPE_ASPECT".to_owned(),
            product_definition: Some(12),
        }
    );
    assert_eq!(
        volume.values,
        [value(
            33,
            "volume measure",
            Some("VOLUME_MEASURE"),
            "96858.91343205",
            Some(99)
        )]
    );
}

#[test]
fn user_defined_attributes_keep_values_as_written() {
    let found = found();
    let material = &found.properties[1];
    assert_eq!(material.kind, PropertyKind::UserDefined);
    assert_eq!(material.label(), "MATERIAL");
    assert_eq!(material.subject.product_definition, Some(12));
    assert_eq!(
        material.values,
        [
            value(45, "MATERIAL", None, "Steel 'S235'", None),
            value(46, "THICKNESS", Some("LENGTH_MEASURE"), "1.E0", None),
            value(47, "mass", Some("MASS_MEASURE"), "2.5", Some(99)),
        ]
    );
}

#[test]
fn other_items_and_identifiers() {
    let found = found();
    let centroid = &found.properties[2];
    assert_eq!(centroid.kind, PropertyKind::Other);
    assert_eq!(centroid.subject.product_definition, None);
    assert_eq!(centroid.subject.entity, "APPLICATION_CONTEXT");
    assert_eq!(
        centroid.values,
        [value(
            53,
            "centre",
            Some("CARTESIAN_POINT"),
            "#53=CARTESIAN_POINT('centre',(1.,2.,3.));",
            None
        )]
    );
    assert_eq!(found.properties.len(), 3);
    assert_eq!(
        found.identifiers,
        [Identifier {
            instance: 70,
            id: "aspect.1".to_owned(),
            subject: Subject {
                instance: 21,
                entity: "SHAPE_ASPECT".to_owned(),
                product_definition: Some(12),
            },
        }]
    );
}

#[test]
fn a_subject_chain_ends_at_the_first_product_definition() {
    let src = "ISO-10303-21;HEADER;FILE_SCHEMA(('AP242'));ENDSEC;DATA;
#12=PRODUCT_DEFINITION('design','',$,$);
#20=PRODUCT_DEFINITION_SHAPE('','',#12);
#21=(SHAPE_ASPECT('','a',#20,.F.)DATUM_FEATURE());
#22=COMPOSITE_SHAPE_ASPECT('','b',#21,.F.);
#30=PROPERTY_DEFINITION('p','',#22);
#31=ID_ATTRIBUTE('',#22);
#32=PROPERTY_DEFINITION('q','',#50);
ENDSEC;END-ISO-10303-21;";
    let graph = Graph::build(parse(src.as_bytes()).unwrap());
    let found = properties_among(&graph, &[12]);
    assert_eq!(found.properties.len(), 2);
    let first = &found.properties[0];
    assert_eq!(first.subject.entity, "COMPOSITE_SHAPE_ASPECT");
    assert_eq!(first.subject.product_definition, Some(12));
    assert_eq!(first.kind, PropertyKind::Other);
    assert_eq!(first.label(), "p");
    assert!(first.values.is_empty());
    // An identifier is kept as written, even empty.
    assert_eq!(found.identifiers.len(), 1);
    assert_eq!(found.identifiers[0].id, "");
    assert_eq!(found.identifiers[0].subject.product_definition, Some(12));
    // A subject the file does not define has no entity and no owner.
    let second = &found.properties[1];
    assert_eq!(second.subject.entity, "");
    assert_eq!(second.subject.product_definition, None);
    // Without the definitions, nothing belongs anywhere.
    let none = properties_among(&graph, &[]);
    assert_eq!(none.properties[0].subject.product_definition, None);
}
