use stepq::model::{Graph, ProductStructure};
use stepq::p21::parse;
use stepq::pmi::{pmi, Bounds, DatumReference, Dimension, DimensionKind, Pmi, Tolerance};
use stepq::props::{Subject, Value};

/// Datums A and B (B with a modifier), a position tolerance to them and
/// a flatness tolerance on a hole, a toleranced diameter and a location.
const SAMPLE: &str = "ISO-10303-21;HEADER;FILE_SCHEMA(('AP242'));ENDSEC;DATA;
#1=APPLICATION_CONTEXT('');
#2=PRODUCT_DEFINITION_CONTEXT('',#1,'design');
#10=PRODUCT('P','part','',());
#11=PRODUCT_DEFINITION_FORMATION('','',#10);
#12=PRODUCT_DEFINITION('design','',#11,#2);
#20=PRODUCT_DEFINITION_SHAPE('','',#12);
#30=DATUM('',$,#20,.F.,'A');
#31=DATUM('',$,#20,.F.,'B');
#40=DATUM_REFERENCE_COMPARTMENT('',$,#20,.F.,#30,$);
#41=DATUM_REFERENCE_COMPARTMENT('',$,#20,.F.,#31,(.MAXIMUM_MATERIAL_REQUIREMENT.));
#50=DATUM_SYSTEM('DS',$,#20,.F.,(#40,#41));
#60=SHAPE_ASPECT('','hole',#20,.F.);
#61=SHAPE_ASPECT('','face',#20,.F.);
#70=(LENGTH_MEASURE_WITH_UNIT()MEASURE_REPRESENTATION_ITEM()MEASURE_WITH_UNIT(LENGTH_MEASURE(0.75),#99)REPRESENTATION_ITEM(''));
#80=(GEOMETRIC_TOLERANCE('Position.1','',#70,#60)GEOMETRIC_TOLERANCE_WITH_DATUM_REFERENCE((#50))GEOMETRIC_TOLERANCE_WITH_MODIFIERS((.MAXIMUM_MATERIAL_REQUIREMENT.))POSITION_TOLERANCE());
#81=FLATNESS_TOLERANCE('Flatness.1','',#82,#61);
#82=LENGTH_MEASURE_WITH_UNIT(LENGTH_MEASURE(0.05),#99);
#90=DIMENSIONAL_SIZE(#60,'diameter');
#91=DIMENSIONAL_CHARACTERISTIC_REPRESENTATION(#90,#92);
#92=SHAPE_DIMENSION_REPRESENTATION('',(#93),#1);
#93=(LENGTH_MEASURE_WITH_UNIT()MEASURE_REPRESENTATION_ITEM()MEASURE_WITH_UNIT(LENGTH_MEASURE(35.),#99)REPRESENTATION_ITEM('nominal value'));
#94=PLUS_MINUS_TOLERANCE(#95,#90);
#95=TOLERANCE_VALUE(#96,#97);
#96=(LENGTH_MEASURE_WITH_UNIT()MEASURE_REPRESENTATION_ITEM()MEASURE_WITH_UNIT(LENGTH_MEASURE(-0.2),#99)REPRESENTATION_ITEM(''));
#97=(LENGTH_MEASURE_WITH_UNIT()MEASURE_REPRESENTATION_ITEM()MEASURE_WITH_UNIT(LENGTH_MEASURE(0.),#99)REPRESENTATION_ITEM(''));
#98=DIMENSIONAL_LOCATION('linear distance',$,#60,#61);
#99=(LENGTH_UNIT()NAMED_UNIT(*)SI_UNIT(.MILLI.,.METRE.));
ENDSEC;END-ISO-10303-21;";

fn found() -> Pmi {
    let graph = Graph::new(parse(SAMPLE.as_bytes()).unwrap()).unwrap();
    pmi(&graph, &ProductStructure::new(&graph))
}

fn on(instance: u64, entity: &str) -> Subject {
    Subject {
        instance,
        entity: entity.to_owned(),
        product_definition: Some(12),
    }
}

fn length(instance: u64, name: Option<&str>, value: &str) -> Value {
    Value {
        instance,
        name: name.map(str::to_owned),
        measure: Some("LENGTH_MEASURE".to_owned()),
        value: value.to_owned(),
        unit: Some(99),
    }
}

#[test]
fn datums_are_read_by_letter() {
    let labels: Vec<(u64, String)> = found()
        .datums
        .into_iter()
        .map(|datum| (datum.subject.product_definition.unwrap(), datum.label))
        .collect();
    assert_eq!(labels, [(12, "A".to_owned()), (12, "B".to_owned())]);
}

#[test]
fn tolerances_have_their_characteristic_magnitude_and_datums() {
    let found = found();
    assert_eq!(
        found.tolerances[0],
        Tolerance {
            instance: 80,
            kind: "position".to_owned(),
            name: Some("Position.1".to_owned()),
            magnitude: Some(length(70, Some(""), "0.75")),
            datums: vec![
                DatumReference {
                    label: "A".to_owned(),
                    modifiers: vec![],
                },
                DatumReference {
                    label: "B".to_owned(),
                    modifiers: vec!["maximum_material_requirement".to_owned()],
                },
            ],
            modifiers: vec!["maximum_material_requirement".to_owned()],
            unit_size: None,
            target: on(60, "SHAPE_ASPECT"),
        }
    );
    let flatness = &found.tolerances[1];
    assert_eq!(flatness.kind, "flatness");
    assert_eq!(flatness.magnitude, Some(length(82, None, "0.05")));
    assert!(flatness.datums.is_empty());
    assert_eq!(flatness.target, on(61, "SHAPE_ASPECT"));
}

#[test]
fn dimensions_have_values_tolerances_and_features() {
    let found = found();
    assert_eq!(
        found.dimensions,
        [
            Dimension {
                instance: 90,
                kind: DimensionKind::Size,
                name: Some("diameter".to_owned()),
                values: vec![length(93, Some("nominal value"), "35.")],
                tolerance: Some(Bounds {
                    lower: Some(length(96, Some(""), "-0.2")),
                    upper: Some(length(97, Some(""), "0.")),
                }),
                target: on(60, "SHAPE_ASPECT"),
                related: None,
            },
            Dimension {
                instance: 98,
                kind: DimensionKind::Location,
                name: Some("linear distance".to_owned()),
                values: vec![],
                tolerance: None,
                target: on(60, "SHAPE_ASPECT"),
                related: Some(on(61, "SHAPE_ASPECT")),
            },
        ]
    );
    assert!(!found.is_empty());
}

#[test]
fn older_datum_references_follow_their_precedence() {
    let src = "ISO-10303-21;HEADER;FILE_SCHEMA(('AP242'));ENDSEC;DATA;
#12=PRODUCT_DEFINITION('design','',$,$);
#20=PRODUCT_DEFINITION_SHAPE('','',#12);
#30=DATUM('',$,#20,.F.,'A');
#31=DATUM('',$,#20,.F.,'B');
#32=DATUM('',$,#20,.F.,'C');
#40=DATUM_REFERENCE(2,#31);
#41=DATUM_REFERENCE(1,#30);
#42=DATUM_REFERENCE_ELEMENT('',$,#20,.F.,#32,$);
#43=DATUM_REFERENCE_COMPARTMENT('',$,#20,.F.,(#42,#44),(.FREE_STATE.));
#44=DATUM_REFERENCE_ELEMENT('',$,#20,.F.,#31,$);
#50=SHAPE_ASPECT('','hole',#20,.F.);
#60=PARALLELISM_TOLERANCE('P.1','',$,#50,(#40,#41,#43));
#61=(GEOMETRIC_TOLERANCE('G','',$,#50)STRAIGHTNESS_TOLERANCE());
#62=GEOMETRIC_TOLERANCE('plain','',$,$);
ENDSEC;END-ISO-10303-21;";
    let graph = Graph::new(parse(src.as_bytes()).unwrap()).unwrap();
    let found = pmi(&graph, &ProductStructure::new(&graph));
    assert_eq!(found.datums.len(), 3);
    assert_eq!(found.tolerances.len(), 2, "a tolerance without a target is left out");
    let parallelism = &found.tolerances[0];
    assert_eq!(parallelism.kind, "parallelism");
    assert_eq!(parallelism.magnitude, None);
    let labels: Vec<&str> = parallelism.datums.iter().map(|d| d.label.as_str()).collect();
    // The compartment, a common datum, comes first; the datum references
    // then follow their precedence.
    assert_eq!(labels, ["C-B", "A", "B"]);
    assert_eq!(parallelism.datums[0].modifiers, ["free_state"]);
    let straightness = &found.tolerances[1];
    assert_eq!(straightness.kind, "straightness");
    assert!(straightness.datums.is_empty());
    assert_eq!(straightness.target.product_definition, Some(12));
    assert!(found.dimensions.is_empty());
}
