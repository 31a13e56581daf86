use stepq::p21::{parse, Numbering, Replacements, Writer};
use stepq::Error;

fn file_with(data: &str) -> String {
    format!(
        "ISO-10303-21;\nHEADER;\nFILE_SCHEMA(('X'));\nENDSEC;\nDATA;\n{data}ENDSEC;\nEND-ISO-10303-21;\n"
    )
}

fn write(src: &str, numbering: Numbering, positions: Option<&[usize]>) -> String {
    let exchange = parse(src.as_bytes()).unwrap();
    let writer = Writer::new(&exchange).numbering(numbering);
    let mut out = Vec::new();
    match positions {
        Some(positions) => writer.write_selection(positions, &mut out),
        None => writer.write_all(&mut out),
    }
    .unwrap();
    String::from_utf8(out).unwrap()
}

#[test]
fn edition_3_sections_follow_renumbering_and_selection() {
    let src = "ISO-10303-21;\nHEADER;\nFILE_SCHEMA(('X'));\nENDSEC;\n\
               ANCHOR;<origin>=#10;<tip>=#9;ENDSEC;\n\
               REFERENCE;#9=<bolt.stp#shape>;#LIB=<lib.stp#x>;ENDSEC;\n\
               DATA;\n#10=X(#20,#9);\n#20=Y();\nENDSEC;\n\
               SIGNATURE;'c2ln';ENDSEC;\n\
               END-ISO-10303-21;\n";
    // Unchanged: every section as written, the signature included.
    assert_eq!(write(src, Numbering::Preserve, None), src);

    assert_eq!(
        write(src, Numbering::Dense, None),
        "ISO-10303-21;\nHEADER;\nFILE_SCHEMA(('X'));\nENDSEC;\n\
         ANCHOR;\n<origin>=#1;\n<tip>=#3;\nENDSEC;\n\
         REFERENCE;\n#3=<bolt.stp#shape>;\n#LIB=<lib.stp#x>;\nENDSEC;\n\
         DATA;\n#1=X(#2,#3);\n#2=Y();\nENDSEC;\n\
         END-ISO-10303-21;\n"
    );

    // Only #20: neither anchor nor #9 applies any more.
    assert_eq!(
        write(src, Numbering::Preserve, Some(&[1])),
        "ISO-10303-21;\nHEADER;\nFILE_SCHEMA(('X'));\nENDSEC;\n\
         REFERENCE;\n#LIB=<lib.stp#x>;\nENDSEC;\n\
         DATA;\n#20=Y();\nENDSEC;\n\
         END-ISO-10303-21;\n"
    );
}

#[test]
fn replacements_change_only_their_tokens() {
    let src = "ISO-10303-21;\nHEADER;\nFILE_NAME('a.stp','',('Jane'),('ACME'),'','','');\nFILE_SCHEMA(('X'));\nENDSEC;\nDATA;\n#10=A('secret',#20,'keep');\n#20=B('also secret');\n#30=C('untouched',  1.50);\nENDSEC;\nEND-ISO-10303-21;\n";
    let exchange = parse(src.as_bytes()).unwrap();
    let mut replacements = Replacements::new();
    let author = exchange
        .header_entity("FILE_NAME")
        .unwrap()
        .param(2)
        .unwrap();
    let author = author.list().unwrap().next().unwrap().literal().unwrap();
    replacements.replace(author.span(), b"''".to_vec());
    let records = |position: usize| {
        exchange
            .records(&exchange.instances()[position])
            .next()
            .unwrap()
    };
    let secret = records(0).param(0).unwrap().literal().unwrap();
    replacements.replace(secret.span(), b"'x'".to_vec());
    let also = records(1).param(0).unwrap().literal().unwrap();
    replacements.replace(also.span(), b"''".to_vec());
    assert_eq!(replacements.len(), 3);

    let mut out = Vec::new();
    Writer::new(&exchange)
        .replacements(&replacements)
        .write_all(&mut out)
        .unwrap();
    let text = String::from_utf8(out).unwrap();
    assert!(
        text.contains("FILE_NAME('a.stp','',(''),('ACME'),'','','');"),
        "{text}"
    );
    assert!(
        text.contains("#10=A('x',#20,'keep');\n#20=B('');\n#30=C('untouched',  1.50);\n"),
        "{text}"
    );

    let mut out = Vec::new();
    Writer::new(&exchange)
        .replacements(&replacements)
        .numbering(Numbering::Dense)
        .write_all(&mut out)
        .unwrap();
    let text = String::from_utf8(out).unwrap();
    assert!(
        text.contains("#1=A('x',#2,'keep');\n#2=B('');\n#3=C('untouched',  1.50);\n"),
        "{text}"
    );
}

#[test]
fn preserve_reproduces_the_source() {
    let src = file_with(
        "#1=A('x',#2);\n#2 = B ( /* keep */ 1.50E+01, '\\X2\\00E9\\X0\\' ) ;\n#3=(C()D(#1));\n",
    );
    assert_eq!(write(&src, Numbering::Preserve, None), src);
}

#[test]
fn dense_renumbering_rewrites_only_instance_names() {
    let src = file_with(
        "#10=A(#30,'see #30');\n#20=B();\n#30=C(#10) /* was #10 */;\n#007=D((#20,#20));\n",
    );
    let expected =
        file_with("#1=A(#3,'see #30');\n#2=B();\n#3=C(#1) /* was #10 */;\n#4=D((#2,#2));\n");
    assert_eq!(write(&src, Numbering::Dense, None), expected);
}

#[test]
fn selections_are_written_in_file_order() {
    let src = file_with("#10=A(#30,'see #30');\n#20=B();\n#30=C(#10);\n");
    assert_eq!(
        write(&src, Numbering::Dense, Some(&[2, 0, 2])),
        file_with("#1=A(#2,'see #30');\n#2=C(#1);\n")
    );
    assert_eq!(
        write(&src, Numbering::Preserve, Some(&[2, 0])),
        file_with("#10=A(#30,'see #30');\n#30=C(#10);\n")
    );
}

#[test]
fn open_selections_are_rejected_before_writing() {
    let src = file_with("#10=A(#30);\n#20=B();\n#30=C();\n");
    let exchange = parse(src.as_bytes()).unwrap();
    let mut out = Vec::new();
    let err = Writer::new(&exchange)
        .write_selection(&[1, 0], &mut out)
        .unwrap_err();
    assert!(matches!(
        err,
        Error::UnresolvedReference { from: 10, to: 30 }
    ));
    assert!(out.is_empty());
}

#[test]
fn header_can_be_replaced() {
    let src = file_with("#1=A();\n");
    let exchange = parse(src.as_bytes()).unwrap();
    let mut out = Vec::new();
    Writer::new(&exchange)
        .header(b"\nFILE_SCHEMA(('Y'));\n")
        .write_all(&mut out)
        .unwrap();
    assert_eq!(
        String::from_utf8(out).unwrap(),
        src.replace("('X')", "('Y')")
    );
}

#[test]
fn sections_keep_their_parameters() {
    let src = "ISO-10303-21;HEADER;FILE_SCHEMA(('A','B'));ENDSEC;\
               ANCHOR;<origin>=#1;ENDSEC;\
               DATA ( 'one' , ('A') );#1=X();ENDSEC;\
               DATA('two',('B'));#2=Y(#1);#3=Z();ENDSEC;\
               END-ISO-10303-21;";
    assert_eq!(
        write(src, Numbering::Dense, Some(&[2])),
        "ISO-10303-21;\nHEADER;FILE_SCHEMA(('A','B'));ENDSEC;\n\
         DATA( 'one' , ('A') );\nENDSEC;\n\
         DATA('two',('B'));\n#1=Z();\nENDSEC;\n\
         END-ISO-10303-21;\n"
    );
}

/// Positions 0-2 are #1-#3; 3-7 are the lists. #2 is left out.
const LISTS: &str = "#1=A();\n#2=B();\n#3=C();\n\
     #10=L('middle',(#1, #2 ,#3));\n\
     #11=L('only',(#2));\n\
     #12=L('last and repeated',(#1,#2,#3,#2));\n\
     #13=L('nested',((#2,#1),#3));\n\
     #14=L('all',(#2,#2));\n";

fn write_pruned(numbering: Numbering) -> String {
    let src = file_with(LISTS);
    let exchange = parse(src.as_bytes()).unwrap();
    let mut out = Vec::new();
    Writer::new(&exchange)
        .numbering(numbering)
        .write_pruned(&[0, 2, 3, 4, 5, 6, 7], &[3, 4, 5, 6, 7], &mut out)
        .unwrap();
    String::from_utf8(out).unwrap()
}

#[test]
fn pruning_removes_list_items_and_their_commas() {
    assert_eq!(
        write_pruned(Numbering::Preserve),
        file_with(
            "#1=A();\n#3=C();\n\
             #10=L('middle',(#1,  #3));\n\
             #11=L('only',());\n\
             #12=L('last and repeated',(#1,#3));\n\
             #13=L('nested',((#1),#3));\n\
             #14=L('all',());\n"
        )
    );
    assert_eq!(
        write_pruned(Numbering::Dense),
        file_with(
            "#1=A();\n#2=C();\n\
             #3=L('middle',(#1,  #2));\n\
             #4=L('only',());\n\
             #5=L('last and repeated',(#1,#2));\n\
             #6=L('nested',((#1),#2));\n\
             #7=L('all',());\n"
        )
    );
}

#[test]
fn pruning_never_removes_attributes_that_are_not_list_items() {
    for data in [
        "#1=A();\n#2=R(#1);\n",
        "#1=A();\n#2=R('x',#1);\n",
        "#1=A();\n#2=R(T(#1));\n",
        "#1=A();\n#2=(P(#1)Q());\n",
    ] {
        let src = file_with(data);
        let exchange = parse(src.as_bytes()).unwrap();
        let mut out = Vec::new();
        let err = Writer::new(&exchange)
            .write_pruned(&[1], &[1], &mut out)
            .unwrap_err();
        assert!(
            matches!(err, Error::UnresolvedReference { from: 2, to: 1 }),
            "{data}"
        );
        assert!(out.is_empty(), "{data}");
    }
}

#[test]
fn unpruned_instances_still_reject_open_selections() {
    let src = file_with(LISTS);
    let exchange = parse(src.as_bytes()).unwrap();
    let mut out = Vec::new();
    let err = Writer::new(&exchange)
        .write_pruned(&[0, 2, 3], &[], &mut out)
        .unwrap_err();
    assert!(matches!(
        err,
        Error::UnresolvedReference { from: 10, to: 2 }
    ));
}

#[test]
fn a_later_replacement_of_the_same_token_wins() {
    let src = file_with("#1=A('a');\n");
    let exchange = parse(src.as_bytes()).unwrap();
    let literal = exchange
        .records(&exchange.instances()[0])
        .next()
        .unwrap()
        .param(0)
        .unwrap()
        .literal()
        .unwrap();
    let mut replacements = Replacements::new();
    assert!(replacements.is_empty());
    replacements.replace(literal.span(), b"'first'".to_vec());
    replacements.replace(literal.span(), b"'second'".to_vec());
    assert_eq!(replacements.len(), 1);
    let mut out = Vec::new();
    Writer::new(&exchange)
        .replacements(&replacements)
        .write_all(&mut out)
        .unwrap();
    assert_eq!(String::from_utf8(out).unwrap(), file_with("#1=A('second');\n"));
}
