use stepq::p21::{parse, Writer};
use stepq::strip::{strip, Stripped};

const SAMPLE: &str = "ISO-10303-21;
HEADER;
FILE_DESCRIPTION(('bracket'),'2;1');
FILE_NAME('bracket.stp','2026-01-01',('Jane Doe'),('ACME Corp'),'pre 1','CAD 1','the boss');
FILE_SCHEMA(('AP242'));
ENDSEC;
DATA;
#1=APPLICATION_CONTEXT('mechanical design');
#2=PRODUCT_CONTEXT('',#1,'mechanical');
#3=PRODUCT_DEFINITION_CONTEXT('part definition',#1,'design');
#4=PERSON('jdoe','Doe','Jane',('Q.'),$,$);
#5=ORGANIZATION('acme','ACME Corp','makes brackets');
#6=PERSONAL_ADDRESS('Springfield',$,$,$,$,$,$,$,$,$,$,$,(#4),'home');
#10=PRODUCT('BRK-100','bracket','top secret',(#2));
#11=PRODUCT_DEFINITION_FORMATION('A','first release',#10);
#12=PRODUCT_DEFINITION('design','for customer X',#11,#3);
#13=NEXT_ASSEMBLY_USAGE_OCCURRENCE('NAUO7','BOLT:1','',#12,#12,'R1');
#14=PRODUCT_DEFINITION_SHAPE('bracket shape','',#12);
#15=SHAPE_REPRESENTATION('bracket body',(),#1);
#16=DESCRIPTIVE_REPRESENTATION_ITEM('MATERIAL','Unobtainium');
#17=PROPERTY_DEFINITION('geometric_validation_property','volume',#14);
#18=CARTESIAN_POINT('',(1.50,2.,3.));
ENDSEC;
END-ISO-10303-21;
";

fn stripped(anonymize: bool) -> (String, Stripped) {
    let exchange = parse(SAMPLE.as_bytes()).unwrap();
    let plan = strip(&exchange, anonymize);
    let mut out = Vec::new();
    Writer::new(&exchange)
        .replacements(&plan.replacements)
        .write_all(&mut out)
        .unwrap();
    (String::from_utf8(out).unwrap(), plan)
}

#[test]
fn personal_data_is_always_blanked() {
    let (text, plan) = stripped(false);
    assert!(
        text.contains("FILE_NAME('bracket.stp','2026-01-01',(''),(''),'pre 1','CAD 1','');"),
        "{text}"
    );
    assert!(text.contains("#4=PERSON('','','',(''),$,$);"), "{text}");
    assert!(text.contains("#5=ORGANIZATION('','','');"), "{text}");
    assert!(
        text.contains("#6=PERSONAL_ADDRESS('',$,$,$,$,$,$,$,$,$,$,$,(#4),'');"),
        "{text}"
    );
    // Products are untouched without anonymizing.
    assert!(text.contains("#10=PRODUCT('BRK-100','bracket','top secret',(#2));"));
    assert_eq!(plan.instances, 3);
}

#[test]
fn anonymize_renames_products_and_blanks_descriptions() {
    let (text, plan) = stripped(true);
    for expected in [
        "FILE_NAME('','2026-01-01',(''),(''),'pre 1','CAD 1','');",
        "#10=PRODUCT('product-1','product-1','',(#2));",
        "#11=PRODUCT_DEFINITION_FORMATION('A','',#10);",
        "#12=PRODUCT_DEFINITION('design','',#11,#3);",
        "#13=NEXT_ASSEMBLY_USAGE_OCCURRENCE('usage-1','','',#12,#12,'');",
        "#14=PRODUCT_DEFINITION_SHAPE('','',#12);",
        "#15=SHAPE_REPRESENTATION('',(),#1);",
        "#16=DESCRIPTIVE_REPRESENTATION_ITEM('MATERIAL','');",
        // Strings with meaning, and everything that is not a string, stay.
        "#1=APPLICATION_CONTEXT('mechanical design');",
        "#3=PRODUCT_DEFINITION_CONTEXT('part definition',#1,'design');",
        "#17=PROPERTY_DEFINITION('geometric_validation_property','volume',#14);",
        "#18=CARTESIAN_POINT('',(1.50,2.,3.));",
        "FILE_DESCRIPTION(('bracket'),'2;1');",
    ] {
        assert!(text.contains(expected), "missing {expected}\n{text}");
    }
    assert_eq!(plan.instances, 10);
    assert_eq!(parse(text.as_bytes()).unwrap().instances().len(), 15);
}

#[test]
fn strings_already_blank_are_left_alone() {
    let src = "ISO-10303-21;HEADER;FILE_SCHEMA(('X'));ENDSEC;DATA;#1=PERSON('',$,$,$,$,$);ENDSEC;END-ISO-10303-21;";
    let exchange = parse(src.as_bytes()).unwrap();
    let plan = strip(&exchange, true);
    assert!(plan.replacements.is_empty());
    assert_eq!(plan.instances, 0);
}

#[test]
fn the_plain_mode_only_blanks_strings() {
    let (text, plan) = stripped(false);
    assert!(plan.instances > 0);
    // Every string the plain mode touches becomes '', and nothing is
    // renamed.
    assert!(!text.contains("product-"));
    assert!(!text.contains("usage-"));
    assert!(text.contains("#4=PERSON('','','',(''),$,$);"));
    assert!(text.contains("#10=PRODUCT('BRK-100','bracket','top secret',(#2));"));
}
