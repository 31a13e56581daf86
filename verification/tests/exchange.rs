use stepq::p21::parse;

#[test]
fn query_helpers() {
    let src = b"ISO-10303-21;HEADER;FILE_NAME('part');FILE_SCHEMA(('AP242'));ENDSEC;DATA;\
                #1=PRODUCT('p1','bracket','',(#2));\
                #2=PRODUCT_CONTEXT('',$,'mechanical');\
                #3=(NAMED_UNIT(*)PRODUCT());\
                #4=product('p2','plate','',(#2));\
                ENDSEC;END-ISO-10303-21;";
    let exchange = parse(src).unwrap();

    assert_eq!(exchange.instances_of("PRODUCT"), [0, 2, 3]);
    assert_eq!(exchange.instances_of("NOTHING").len(), 0);

    let schema = exchange.header_entity("file_schema").unwrap();
    let mut schemas = schema.param(0).and_then(|p| p.list()).unwrap();
    let mut names: Vec<String> = Vec::new();
    while let Some(p) = schemas.next() {
        if let Some(s) = p.literal().and_then(|l| l.decode().ok()) {
            names.push(s);
        }
    }
    assert_eq!(names, ["AP242"]);

    let product = exchange.records(&exchange.instances()[0]).next().unwrap();
    let name = product.param(1).and_then(|p| p.literal()).unwrap();
    assert_eq!(name.decode().unwrap(), "bracket");
    let mut contexts = product.param(3).and_then(|p| p.list()).unwrap();
    let mut refs = Vec::new();
    while let Some(p) = contexts.next() {
        if let Some(r) = p.reference() {
            refs.push(r);
        }
    }
    assert_eq!(refs, [2]);
    assert!(product.param(4).is_none());

    let context = exchange.records(&exchange.instances()[1]).next().unwrap();
    assert!(context.param(1).unwrap().is_unset());
    assert!(context.param(1).unwrap().literal().is_none());
}

#[test]
fn literal_values_and_references() {
    let src = b"ISO-10303-21;HEADER;FILE_SCHEMA(('X'));ENDSEC;DATA;\
                #7=A(-42,.T.,'x',#9,#9);#9=B();ENDSEC;END-ISO-10303-21;";
    let exchange = parse(src).unwrap();
    let record = exchange.records(&exchange.instances()[0]).next().unwrap();
    assert!(record.is("a"));
    assert_eq!(record.name(), b"A");
    assert_eq!(record.params().count(), 5);
    assert_eq!(record.param(0).unwrap().literal().unwrap().to_i64(), Some(-42));
    assert_eq!(record.param(1).unwrap().literal().unwrap().enumeration(), Some("T"));
    assert_eq!(record.param(2).unwrap().literal().unwrap().text(), b"'x'");
    assert_eq!(
        exchange.references(&exchange.instances()[0]).to_vec(),
        [9, 9]
    );
    assert_eq!(exchange.position(9), Some(1));
    assert!(exchange.get(8).is_none());
    assert_eq!(exchange.text(exchange.get(9).unwrap()), b"#9=B();");
    assert_eq!(exchange.source().len(), src.len());
}
