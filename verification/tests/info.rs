use stepq::info::Info;
use stepq::model::Graph;
use stepq::p21::parse;

const SAMPLE: &str = "ISO-10303-21;
HEADER;
FILE_DESCRIPTION(('bracket assembly',''),'2;1');
FILE_NAME('bracket.stp','2026-09-12T10:00:00',('J. Doe'),(''),'ST-DEVELOPER','CAD 1.0','');
FILE_SCHEMA(('AP242_MANAGED_MODEL_BASED_3D_ENGINEERING_MIM_LF { 1 0 10303 442 1 1 4 }'));
ENDSEC;
DATA;
#1=PRODUCT('a','assembly','',(#9));
#2=PRODUCT('b','bracket','',(#9));
#3=product('c','bolt','',(#9));
#4=NEXT_ASSEMBLY_USAGE_OCCURRENCE('1','','',#5,#6,$);
#5=PRODUCT_DEFINITION('','',#1,#9);
#6=PRODUCT_DEFINITION('','',#2,#9);
#7=(LENGTH_UNIT()NAMED_UNIT(*)SI_UNIT(.MILLI.,.METRE.));
#8=(NAMED_UNIT(*)PLANE_ANGLE_UNIT()SI_UNIT($,.RADIAN.));
#10=(CONVERSION_BASED_UNIT('DEGREE',#11)NAMED_UNIT(#12)PLANE_ANGLE_UNIT());
#11=PLANE_ANGLE_MEASURE_WITH_UNIT(PLANE_ANGLE_MEASURE(0.0174532925),#8);
#12=DIMENSIONAL_EXPONENTS(0.,0.,0.,0.,0.,0.,0.);
#13=(NAMED_UNIT(*)SI_UNIT($,.STERADIAN.)SOLID_ANGLE_UNIT());
#14=(LENGTH_UNIT()NAMED_UNIT(*)SI_UNIT(.MILLI.,.METRE.));
ENDSEC;
END-ISO-10303-21;
";

fn info() -> Info {
    Info::new(&Graph::build(parse(SAMPLE.as_bytes()).unwrap()))
}

#[test]
fn header_fields_are_decoded() {
    let header = info().header;
    assert_eq!(header.description, ["bracket assembly"]);
    assert_eq!(header.implementation_level.as_deref(), Some("2;1"));
    assert_eq!(header.name.as_deref(), Some("bracket.stp"));
    assert_eq!(header.time_stamp.as_deref(), Some("2026-09-12T10:00:00"));
    assert_eq!(header.author, ["J. Doe"]);
    assert!(header.organization.is_empty());
    assert_eq!(header.preprocessor_version.as_deref(), Some("ST-DEVELOPER"));
    assert_eq!(header.originating_system.as_deref(), Some("CAD 1.0"));
    assert_eq!(header.authorization, None);
    assert_eq!(
        header.schemas,
        ["AP242_MANAGED_MODEL_BASED_3D_ENGINEERING_MIM_LF { 1 0 10303 442 1 1 4 }"]
    );
}

#[test]
fn counts() {
    let info = info();
    assert_eq!(info.bytes, SAMPLE.len());
    assert_eq!(info.sections, 1);
    assert_eq!(info.instances, 13);
    assert_eq!(info.complex_instances, 5);
    assert_eq!(info.products, 3, "PRODUCT and product are the same type");
    assert_eq!(info.assembly_usages, 1);
    assert_eq!(info.unresolved_references, 5, "#9 is referenced five times");
}

#[test]
fn units_are_listed_once() {
    let units = info().units;
    assert_eq!(units.length, ["millimetre"]);
    assert_eq!(units.plane_angle, ["radian", "degree"]);
    assert_eq!(units.solid_angle, ["steradian"]);
}

#[test]
fn entity_types_are_sorted_by_count_then_name() {
    let types = info().entity_types;
    let top: Vec<(&str, usize)> = types
        .iter()
        .take(4)
        .map(|t| (t.name.as_str(), t.count))
        .collect();
    assert_eq!(
        top,
        [
            ("NAMED_UNIT", 5),
            ("SI_UNIT", 4),
            ("PRODUCT", 3),
            ("LENGTH_UNIT", 2)
        ]
    );
    assert_eq!(types.len(), 11);
    assert!(
        types.iter().all(|t| t.name != "PLANE_ANGLE_MEASURE"),
        "typed parameters are not records"
    );
}

#[test]
fn a_blank_or_malformed_string_is_handled() {
    let src = r"ISO-10303-21;HEADER;FILE_DESCRIPTION(('  ','x\X\ZZ'),'');FILE_NAME('n','',(),(),'','','');FILE_SCHEMA(());ENDSEC;DATA;#1=(CONVERSION_BASED_UNIT('INCH',$)LENGTH_UNIT()NAMED_UNIT(*));#2=A();#3=a();ENDSEC;END-ISO-10303-21;";
    let info = Info::new(&Graph::build(parse(src.as_bytes()).unwrap()));
    // A blank string is left out; one with a malformed directive keeps its
    // raw text, quotes included.
    assert_eq!(info.header.description, [r"'x\X\ZZ'"]);
    assert_eq!(info.header.implementation_level, None);
    assert_eq!(info.header.name.as_deref(), Some("n"));
    assert!(info.header.schemas.is_empty());
    assert_eq!(info.units.length, ["inch"]);
    assert_eq!(info.entity_types[0].name, "A");
    assert_eq!(info.entity_types[0].count, 2);
    assert_eq!(info.complex_instances, 1);
}

#[test]
fn entity_counts_add_up_to_the_records_and_names_are_upper_case() {
    let info = info();
    let total: usize = info.entity_types.iter().map(|e| e.count).sum();
    let exchange = parse(SAMPLE.as_bytes()).unwrap();
    let records: usize = exchange
        .instances()
        .iter()
        .map(|i| exchange.records(i).to_vec().len())
        .sum();
    assert_eq!(total, records);
    for entity in &info.entity_types {
        assert!(!entity.name.chars().any(|c| c.is_ascii_lowercase()));
    }
}
