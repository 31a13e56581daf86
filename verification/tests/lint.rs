use stepq::express::Schema;
use stepq::lint::{lint, Check, Report, Severity};
use stepq::p21::parse;

fn file_with(data: &str) -> String {
    format!("ISO-10303-21;HEADER;FILE_SCHEMA(('DEMO'));ENDSEC;DATA;{data}ENDSEC;END-ISO-10303-21;")
}

fn summary(report: &Report) -> Vec<(Check, Option<u64>)> {
    report
        .findings
        .iter()
        .map(|finding| (finding.check, finding.instance))
        .collect()
}

#[test]
fn a_clean_file_has_no_findings() {
    let report = lint(
        file_with(
            "#1=APPLICATION_PROTOCOL_DEFINITION('','demo',2026,#2);
#2=APPLICATION_CONTEXT('');
#3=PRODUCT('p','p','',());
#4=PRODUCT_RELATED_PRODUCT_CATEGORY('part','',(#3));",
        )
        .as_bytes(),
        &[],
    );
    assert_eq!(report.findings, []);
    assert_eq!(report.file_schemas, ["DEMO"]);
    assert_eq!(report.checked_schema, None);
}

#[test]
fn structural_problems_are_found_without_a_schema() {
    let report = lint(
        file_with(
            "#1=PRODUCT('p','p','',());
#2=PRODUCT('q','q','',());
#3=PRODUCT_RELATED_PRODUCT_CATEGORY('part','',(#2));
#10=GEOMETRIC_REPRESENTATION_CONTEXT(3);
#11=GEOMETRIC_REPRESENTATION_CONTEXT(3);
#20=SHAPE_REPRESENTATION('',(),#10);
#21=SHAPE_REPRESENTATION('',(),#10);
#22=(REPRESENTATION('',(),#11)SHAPE_REPRESENTATION());
#30=(REPRESENTATION_RELATIONSHIP('','',#20,#21)REPRESENTATION_RELATIONSHIP_WITH_TRANSFORMATION(#40)SHAPE_REPRESENTATION_RELATIONSHIP());
#31=REPRESENTATION_RELATIONSHIP_WITH_TRANSFORMATION('','',#20,#22,#40);
#32=REPRESENTATION_RELATIONSHIP_WITH_TRANSFORMATION('','',#21,#20,#40);
#40=ITEM_DEFINED_TRANSFORMATION('','',#99,#99);",
        )
        .as_bytes(),
        &[],
    );
    assert_eq!(
        summary(&report),
        [
            (Check::MissingApplicationProtocol, None),
            (Check::UncategorizedProduct, Some(1)),
            (Check::SharedContext, Some(30)),
            (Check::SharedContext, Some(32)),
            (Check::DanglingReference, Some(40)),
            (Check::DanglingReference, Some(40)),
        ]
    );
    assert_eq!(report.errors(), 4);
    assert_eq!(report.warnings(), 2);
    assert_eq!(
        report.findings[2].message,
        "representations #20 and #21 share context #10; a transformation needs two distinct contexts"
    );
}

#[test]
fn records_are_checked_against_the_schema_the_header_names() {
    let schema = Schema::parse(
        b"SCHEMA demo;
ENTITY application_context; application : STRING; END_ENTITY;
ENTITY application_protocol_definition;
  status : STRING; name : STRING; year : INTEGER; application : application_context;
END_ENTITY;
ENTITY point; name : STRING; tags : SET [1:?] OF STRING; END_ENTITY;
END_SCHEMA;",
    )
    .unwrap();
    let other = Schema::parse(b"SCHEMA other; ENTITY point; END_ENTITY; END_SCHEMA;").unwrap();
    let src = file_with(
        "#1=APPLICATION_PROTOCOL_DEFINITION('','demo',2026,#2);
#2=APPLICATION_CONTEXT('');
#3=POINT('p',());
#4=POINT('q');
#5=MYSTERY();",
    );
    let report = lint(src.as_bytes(), &[other, schema]);
    assert_eq!(report.checked_schema.as_deref(), Some("DEMO"));
    assert_eq!(
        summary(&report),
        [
            (Check::TooFewElements, Some(3)),
            (Check::AttributeCount, Some(4)),
            (Check::UnknownEntity, Some(5)),
        ]
    );
    assert_eq!(
        report.findings[1].message,
        "POINT: expected 2 attributes, found 1"
    );
}

#[test]
fn unparsable_files_yield_one_finding() {
    let duplicate = lint(file_with("#1=A();#1=B();").as_bytes(), &[]);
    assert_eq!(summary(&duplicate), [(Check::DuplicateId, Some(1))]);

    let broken = lint(b"ISO-10303-21;HEADER;ENDSEC;DATA;#1=A(;", &[]);
    assert_eq!(summary(&broken), [(Check::Syntax, None)]);
    assert!(broken.findings[0]
        .message
        .starts_with("syntax error at line 1"));
    assert_eq!(broken.errors(), 1);
}

#[test]
fn findings_keep_the_order_checks_run_in_within_an_instance() {
    // #2 has a dangling reference (found first) and is an uncategorized
    // product (found last); the stable sort keeps that order.
    let report = lint(
        file_with(
            "#1=APPLICATION_PROTOCOL_DEFINITION('','demo',2026,#9);
#2=PRODUCT('p','p','',(#8));",
        )
        .as_bytes(),
        &[],
    );
    assert_eq!(
        summary(&report),
        [
            (Check::DanglingReference, Some(1)),
            (Check::DanglingReference, Some(2)),
            (Check::UncategorizedProduct, Some(2)),
        ]
    );
    assert_eq!(report.findings[0].message, "references undefined instance #9");
    assert_eq!(report.findings[2].severity, Severity::Warning);
    assert_eq!(Check::UncategorizedProduct.name(), "uncategorized-product");
    assert_eq!(Severity::Error.name(), "error");
}

#[test]
fn lint_exchange_agrees_with_lint_on_a_parsed_file() {
    let src = file_with("#1=PRODUCT('p','p','',());");
    let exchange = parse(src.as_bytes()).unwrap();
    let direct = stepq::lint::lint_exchange(exchange, &[]);
    assert_eq!(direct, lint(src.as_bytes(), &[]));
    assert_eq!(
        summary(&direct),
        [
            (Check::MissingApplicationProtocol, None),
            (Check::UncategorizedProduct, Some(1)),
        ]
    );
}
