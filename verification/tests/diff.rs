use stepq::diff::{diff, without_instance_names, ChangeKind, CountChange, Diff, FieldChange, PropertyChange};
use stepq::model::Graph;
use stepq::p21::parse;

const OLD: &str = "ISO-10303-21;HEADER;
FILE_NAME('a.stp','2026-01-01',(''),(''),'','CAD 1','');
FILE_SCHEMA(('AP242'));ENDSEC;DATA;
#1=APPLICATION_CONTEXT('');
#2=PRODUCT_DEFINITION_CONTEXT('',#1,'design');
#10=PRODUCT('A','assembly','',());
#11=PRODUCT_DEFINITION_FORMATION('1','',#10);
#12=PRODUCT_DEFINITION('design','',#11,#2);
#20=PRODUCT('B','bolt','',());
#21=PRODUCT_DEFINITION_FORMATION('1','',#20);
#22=PRODUCT_DEFINITION('design','',#21,#2);
#30=PRODUCT('C','nut','',());
#31=PRODUCT_DEFINITION_FORMATION('1','',#30);
#32=PRODUCT_DEFINITION('design','',#31,#2);
#40=NEXT_ASSEMBLY_USAGE_OCCURRENCE('1','','',#12,#22,$);
#41=NEXT_ASSEMBLY_USAGE_OCCURRENCE('2','','',#12,#22,$);
#42=NEXT_ASSEMBLY_USAGE_OCCURRENCE('3','','',#12,#32,$);
#50=PROPERTY_DEFINITION('geometric_validation_property','volume of #99',#22);
#51=PROPERTY_DEFINITION_REPRESENTATION(#50,#52);
#52=REPRESENTATION('',(#53),#1);
#53=MEASURE_REPRESENTATION_ITEM('volume measure',VOLUME_MEASURE(10.),#1);
ENDSEC;END-ISO-10303-21;";

fn graphs(new: &str) -> Diff {
    let old = Graph::new(parse(OLD.as_bytes()).unwrap()).unwrap();
    let new = Graph::new(parse(new.as_bytes()).unwrap()).unwrap();
    diff(&old, &new)
}

#[test]
fn a_file_has_no_differences_with_itself() {
    let diff = graphs(OLD);
    assert!(diff.is_empty(), "{diff:?}");
}

#[test]
fn renumbering_is_not_a_difference() {
    // Every instance name shifted by 1000, including the one inside the
    // validation property's description.
    let mut renumbered = String::new();
    let mut rest = OLD;
    while let Some(at) = rest.find('#') {
        renumbered.push_str(&rest[..=at]);
        rest = &rest[at + 1..];
        let digits = rest.chars().take_while(char::is_ascii_digit).count();
        let id: u64 = rest[..digits].parse().unwrap();
        renumbered.push_str(&(id + 1000).to_string());
        rest = &rest[digits..];
    }
    renumbered.push_str(rest);
    let diff = graphs(&renumbered);
    assert!(diff.is_empty(), "{diff:?}");
}

#[test]
fn every_section_reports_its_changes() {
    let new = OLD
        .replace("'CAD 1'", "'CAD 2'")
        .replace("PRODUCT('B','bolt'", "PRODUCT('B','hex bolt'")
        .replace("#42=NEXT_ASSEMBLY_USAGE_OCCURRENCE('3','','',#12,#32,$);\n", "")
        .replace("VOLUME_MEASURE(10.)", "VOLUME_MEASURE(12.5)")
        .replace("#30=PRODUCT('C','nut','',());", "#30=PRODUCT('D','washer','',());");
    let diff = graphs(&new);
    assert_eq!(
        diff.header,
        [
            FieldChange {
                field: "instances".to_owned(),
                old: Some("18".to_owned()),
                new: Some("17".to_owned()),
            },
            FieldChange {
                field: "originating_system".to_owned(),
                old: Some("CAD 1".to_owned()),
                new: Some("CAD 2".to_owned()),
            },
        ]
    );
    assert_eq!(
        diff.entity_types,
        [CountChange {
            entity_type: "NEXT_ASSEMBLY_USAGE_OCCURRENCE".to_owned(),
            old: 3,
            new: 2,
        }]
    );
    let products: Vec<(&str, ChangeKind)> = diff
        .products
        .iter()
        .map(|change| (change.product.as_str(), change.kind))
        .collect();
    assert_eq!(
        products,
        [
            ("B", ChangeKind::Changed),
            ("C", ChangeKind::Removed),
            ("D", ChangeKind::Added),
        ]
    );
    assert_eq!(
        diff.products[0].fields,
        [FieldChange {
            field: "name".to_owned(),
            old: Some("bolt".to_owned()),
            new: Some("hex bolt".to_owned()),
        }]
    );
    assert_eq!(
        diff.properties,
        [PropertyChange {
            product: "B".to_owned(),
            property: "volume of # / volume measure".to_owned(),
            kind: ChangeKind::Changed,
            old: Some("10.".to_owned()),
            new: Some("12.5".to_owned()),
        }]
    );
    // The components section, a comparison of floating-point quantities,
    // is not part of the library's comparison.
    assert_eq!(diff.len(), 7);
}

#[test]
fn instance_names_are_left_out() {
    assert_eq!(without_instance_names("volume of #602"), "volume of #");
    assert_eq!(without_instance_names("#1#22 x#"), "## x#");
    assert_eq!(without_instance_names("no names"), "no names");
    assert_eq!(without_instance_names("#12a3"), "#a3");
}

#[test]
fn repeated_product_keys_are_numbered() {
    let src = "ISO-10303-21;HEADER;FILE_SCHEMA(('AP242'));ENDSEC;DATA;
#10=PRODUCT('A','first','',());
#11=PRODUCT_DEFINITION_FORMATION('1','',#10);
#12=PRODUCT_DEFINITION('design','',#11,$);
#20=PRODUCT('A','second','',());
#21=PRODUCT_DEFINITION_FORMATION('1','',#20);
#22=PRODUCT_DEFINITION('design','',#21,$);
ENDSEC;END-ISO-10303-21;";
    let graph = Graph::new(parse(src.as_bytes()).unwrap()).unwrap();
    let structure = stepq::model::ProductStructure::new(&graph);
    assert_eq!(stepq::diff::definition_keys(&structure), ["A", "A (2)"]);
}
