use stepq::model::Graph;
use stepq::p21::exchange::{Anchor, ExternalReference, ReferenceName};
use stepq::p21::{parse, Param};
use stepq::Error;

const MINIMAL: &str = "ISO-10303-21;
HEADER;
FILE_DESCRIPTION((''),'2;1');
FILE_NAME('bracket','2026-09-12T00:00:00',(''),(''),'','','');
FILE_SCHEMA(('AUTOMOTIVE_DESIGN'));
ENDSEC;
DATA;
#1=PRODUCT('b','bracket','',(#2));
#2=PRODUCT_CONTEXT('',#3,'mechanical');
#3 = APPLICATION_CONTEXT ( /* c */ 'design' ) ;
#4=(LENGTH_UNIT()NAMED_UNIT(*)SI_UNIT(.MILLI.,.METRE.));
ENDSEC;
END-ISO-10303-21;
";

fn file_with(data: &str) -> String {
    format!("ISO-10303-21;HEADER;FILE_SCHEMA(('X'));ENDSEC;DATA;{data}ENDSEC;END-ISO-10303-21;")
}

fn error(src: &str) -> Error {
    match parse(src.as_bytes()) {
        Err(err) => err,
        Ok(_) => panic!("expected {src:?} to fail"),
    }
}

#[test]
fn header_and_instances() {
    let exchange = parse(MINIMAL.as_bytes()).unwrap();

    let header: Vec<&[u8]> = exchange.header().to_vec().iter().map(|r| r.name()).collect();
    assert_eq!(
        header,
        [&b"FILE_DESCRIPTION"[..], b"FILE_NAME", b"FILE_SCHEMA"]
    );
    let file_name = exchange
        .header()
        .to_vec()
        .into_iter()
        .find(|r| r.is("file_name"))
        .unwrap();
    let Some(Param::String(name)) = file_name.params().next() else {
        panic!("FILE_NAME starts with a string");
    };
    assert_eq!(name.decode().unwrap(), "bracket");

    let ids: Vec<u64> = exchange.instances().iter().map(|i| i.id).collect();
    assert_eq!(ids, [1, 2, 3, 4]);
    assert_eq!(exchange.sections().len(), 1);

    let context = exchange.get(3).unwrap();
    assert_eq!(
        exchange.text(context),
        b"#3 = APPLICATION_CONTEXT ( /* c */ 'design' ) ;"
    );
    assert!(!context.is_complex());
    assert_eq!(exchange.references(exchange.get(1).unwrap()).to_vec(), [2]);

    let unit = exchange.get(4).unwrap();
    assert!(unit.is_complex());
    let parts: Vec<&[u8]> = exchange.records(unit).to_vec().iter().map(|r| r.name()).collect();
    assert_eq!(parts, [&b"LENGTH_UNIT"[..], b"NAMED_UNIT", b"SI_UNIT"]);
}

#[test]
fn edition_3_anchors_and_references() {
    let src = "ISO-10303-21;HEADER;FILE_SCHEMA(('A'));ENDSEC;\
               ANCHOR;<origin>=#1;<frame>=(#1,#2);ENDSEC;\
               REFERENCE;#9=<bolt.stp#shape>;#LIB=<lib.stp#x>;@v=<values.stp>;ENDSEC;\
               DATA;#1=X(#2,#9);#2=Y();ENDSEC;\
               SIGNATURE;'c2lnbmVk';ENDSEC;\
               END-ISO-10303-21;";
    let exchange = parse(src.as_bytes()).unwrap();
    assert_eq!(
        exchange.anchors(),
        [
            Anchor {
                name: "origin",
                target: Some(1),
                text: b"<origin>=#1;",
            },
            Anchor {
                name: "frame",
                target: None,
                text: b"<frame>=(#1,#2);",
            },
        ]
    );
    assert_eq!(
        exchange.external_references(),
        [
            ExternalReference {
                name: ReferenceName::Instance(9),
                uri: "bolt.stp#shape",
            },
            ExternalReference {
                name: ReferenceName::Constant("LIB"),
                uri: "lib.stp#x",
            },
            ExternalReference {
                name: ReferenceName::Value("v"),
                uri: "values.stp",
            },
        ]
    );
    assert!(exchange.is_external(9));
    assert!(!exchange.is_external(2));
    // #9 is defined by another file, not dangling.
    let graph = Graph::new(exchange).unwrap();
    assert!(graph.unresolved().is_empty());
    assert_eq!(graph.references(0), [1]);
}

#[test]
fn edition_3_sections() {
    let src = "ISO-10303-21;HEADER;FILE_SCHEMA(('A','B'));ENDSEC;\
               ANCHOR;<origin>=#1;ENDSEC;\
               DATA('one',('A'));#1=X(#2);ENDSEC;\
               DATA('two',('B'));#2=Y();ENDSEC;\
               END-ISO-10303-21;";
    let exchange = parse(src.as_bytes()).unwrap();
    let sections = exchange.sections();
    assert_eq!(sections.len(), 2);
    assert_eq!(sections[0].instances[0].id, 1);
    assert_eq!(sections[1].instances[0].id, 2);
    assert!(
        matches!(sections[1].params.clone().next(), Some(Param::String(s)) if s.decode().unwrap() == "two")
    );
    assert_eq!(exchange.instances().len(), 2);
}

#[test]
fn malformed_files_are_rejected() {
    for (src, needle) in [
        (
            "HEADER;ENDSEC;".to_owned(),
            "expected ISO-10303-21, found 'HEADER'",
        ),
        (file_with("#1=A(1,);"), "expected a parameter, found ')'"),
        (file_with("#1=A(1 2);"), "expected ',' or ')', found '2'"),
        (file_with("#1=();"), "expected an entity record, found ')'"),
        (file_with("#1=A(B());"), "expected a parameter, found ')'"),
        (file_with("#1=A(B(1,2));"), "exactly one value"),
        (file_with("#1=A(B);"), "expected '(' after type name"),
        (file_with("#1=A(1)"), "expected ';', found 'ENDSEC'"),
        (file_with("#1=A((1);"), "expected ',' or ')', found ';'"),
        (
            file_with("#1=&SCOPE #2=B(); ENDSCOPE A();"),
            "not supported",
        ),
        (file_with("A(1);"), "expected an entity instance or ENDSEC"),
        (file_with("#1 A();"), "expected '='"),
        (
            "ISO-10303-21;HEADER;ENDSEC;DATA;#1=A();".to_owned(),
            "unexpected end of file",
        ),
        (
            "ISO-10303-21;HEADER;ENDSEC;FOO;".to_owned(),
            "expected DATA, END-ISO-10303-21",
        ),
    ] {
        let message = error(&src).to_string();
        assert!(message.contains(needle), "{src:?}: {message}");
    }
}

#[test]
fn parser_errors_report_position() {
    let src = "ISO-10303-21;\nHEADER;\nENDSEC;\nDATA;\n#1=A(1,);\n";
    let Error::Syntax { line, column, .. } = error(src) else {
        panic!("expected a syntax error");
    };
    assert_eq!((line, column), (5, 8));
}

#[test]
fn duplicate_ids_are_rejected() {
    assert!(matches!(
        error(&file_with("#1=A();#2=B();#1=C();")),
        Error::DuplicateId(1)
    ));
}

#[test]
fn nesting_is_bounded() {
    let deep = format!("#1=A({}{});", "(".repeat(200), ")".repeat(200));
    let message = error(&file_with(&deep)).to_string();
    assert!(message.contains("nested more than"), "{message}");

    let fine = format!("#1=A({}{});", "(".repeat(100), ")".repeat(100));
    assert!(parse(file_with(&fine).as_bytes()).is_ok());
}

#[test]
fn leniencies() {
    let src = "iso-10303-21;header;endsec;data;#1=a();endsec;end-iso-10303-21;\n\0\0 trailing";
    assert_eq!(parse(src.as_bytes()).unwrap().instances().len(), 1);
}

#[test]
fn header_text_is_kept_as_written() {
    let src = "ISO-10303-21;HEADER; /* note */ FILE_SCHEMA(('X'));ENDSEC;DATA;ENDSEC;END-ISO-10303-21;";
    let exchange = parse(src.as_bytes()).unwrap();
    assert_eq!(exchange.header_text(), b" /* note */ FILE_SCHEMA(('X'));");
    assert!(exchange.instances().is_empty());
}
