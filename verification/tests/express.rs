use stepq::express::{check, Schema, Slot, TypeDef, TypeRef};
use stepq::p21::parse;
use stepq::Error;

/// Hand-written; exercises the constructs real long-form schemas use.
const DEMO: &str = r"
SCHEMA demo_schema '{ 1 2 3 }';
(* An embedded remark (* that nests *) before the declarations. *)
CONSTANT
  origin : REAL := 0.0;
END_CONSTANT;

TYPE label = STRING (255) FIXED; END_TYPE;
TYPE nonempty_items = SET [1:?] OF item; END_TYPE;
TYPE item = EXTENSIBLE GENERIC_ENTITY SELECT (point, line); END_TYPE;
TYPE kind = ENUMERATION OF (a, b);
WHERE
  wr1 : TRUE;
END_TYPE;

ENTITY representation_item
  ABSTRACT SUPERTYPE OF (ONEOF (point, line) ANDOR group);
  name : label;
END_ENTITY;

ENTITY named_unit;
  dimensions : dimensional_exponents;
END_ENTITY;

ENTITY si_unit
  SUBTYPE OF (named_unit);
  prefix : OPTIONAL si_prefix;
  name   : si_unit_name;
DERIVE
  SELF\named_unit.dimensions : dimensional_exponents := dimensions_for_si_unit(name);
END_ENTITY;

ENTITY point
  SUBTYPE OF (representation_item);
  coordinates : LIST [1:3] OF REAL; -- a tail remark with (* in it
END_ENTITY;

ENTITY line
  SUBTYPE OF (representation_item);
  pnt, dir : point;
END_ENTITY;

ENTITY group
  SUBTYPE OF (point, line);
  items : nonempty_items;
  tags  : OPTIONAL SET [0:?] OF UNIQUE label;
  sized : ARRAY [1:hi_index(items)] OF OPTIONAL label;
INVERSE
  users : SET [0:?] OF line FOR pnt;
UNIQUE
  ur1 : items;
WHERE
  wr1 : SIZEOF(QUERY(x <* items | 'DEMO.POINT' IN TYPEOF(x))) >= 0;
END_ENTITY;

ENTITY narrowed
  SUBTYPE OF (group);
  SELF\group.tags : SET [2:?] OF label;
  SELF\representation_item.name RENAMED title : label;
END_ENTITY;

SUBTYPE_CONSTRAINT exclusive FOR representation_item;
  ONEOF (point, line);
END_SUBTYPE_CONSTRAINT;

FUNCTION dimensions_for_si_unit (n : si_unit_name) : dimensional_exponents;
  FUNCTION inner : BOOLEAN;
    RETURN (TRUE);
  END_FUNCTION;
  IF n = 'metre; END_ENTITY; END_FUNCTION;' THEN
    RETURN (?);
  END_IF;
  RETURN (?);
END_FUNCTION;

RULE only_points FOR (point);
WHERE
  wr1 : TRUE;
END_RULE;

END_SCHEMA;
";

fn schema() -> Schema {
    Schema::parse(DEMO.as_bytes()).unwrap()
}

fn names(slots: &[Slot]) -> Vec<&str> {
    slots.iter().map(|s| s.name.as_str()).collect()
}

#[test]
fn declarations() {
    let schema = schema();
    assert_eq!(schema.name(), "DEMO_SCHEMA");
    assert!(schema.matches("demo_schema { 1 2 3 }"));
    assert!(!schema.matches("OTHER_SCHEMA"));
    let entities: Vec<&str> = schema.entities().iter().map(|e| e.name.as_str()).collect();
    assert_eq!(
        entities,
        [
            "REPRESENTATION_ITEM",
            "NAMED_UNIT",
            "SI_UNIT",
            "POINT",
            "LINE",
            "GROUP",
            "NARROWED"
        ]
    );
    assert!(schema.entity("representation_item").unwrap().is_abstract);
    assert!(!schema.entity("Point").unwrap().is_abstract);
    assert_eq!(schema.entity("group").unwrap().supertypes, ["POINT", "LINE"]);
    assert!(matches!(schema.type_def("kind"), Some(TypeDef::Constructed)));
    assert!(matches!(
        schema.type_def("label"),
        Some(TypeDef::Alias(TypeRef::Builtin(name))) if name == "STRING"
    ));
    assert!(schema.entity("nothing").is_none());
}

#[test]
fn inherited_attributes_come_first_and_diamonds_count_once() {
    let schema = schema();
    assert_eq!(names(&schema.slots("point").unwrap()), ["NAME", "COORDINATES"]);
    assert_eq!(names(&schema.slots("line").unwrap()), ["NAME", "PNT", "DIR"]);
    assert_eq!(
        names(&schema.slots("group").unwrap()),
        ["NAME", "COORDINATES", "PNT", "DIR", "ITEMS", "TAGS", "SIZED"]
    );
    assert_eq!(
        names(&schema.slots("narrowed").unwrap()),
        names(&schema.slots("group").unwrap()),
        "redeclarations add no attributes"
    );
    assert!(schema.slots("nothing").is_none());
}

#[test]
fn aggregate_bounds() {
    let schema = schema();
    let min = |entity: &str, attribute: &str| {
        schema
            .slots(entity)
            .unwrap()
            .into_iter()
            .find(|s| s.name == attribute)
            .unwrap()
            .min_len
    };
    assert_eq!(min("point", "COORDINATES"), Some(1));
    assert_eq!(min("group", "ITEMS"), Some(1), "through a defined type");
    assert_eq!(min("group", "TAGS"), Some(0));
    assert_eq!(min("group", "SIZED"), Some(1));
    assert_eq!(min("group", "NAME"), None, "not an aggregate");
    assert_eq!(min("narrowed", "TAGS"), Some(2), "narrowed by redeclaration");
}

#[test]
fn derived_redeclarations() {
    let schema = schema();
    let si = schema.slots("si_unit").unwrap();
    assert_eq!(names(&si), ["DIMENSIONS", "PREFIX", "NAME"]);
    assert!(si[0].derived);
    assert!(si[1].optional && !si[1].derived);
    assert!(!schema.slots("named_unit").unwrap()[0].derived);

    let complex = schema.complex_slots(&["NAMED_UNIT", "SI_UNIT"]).unwrap();
    assert_eq!(names(&complex[0]), ["DIMENSIONS"]);
    assert!(complex[0][0].derived, "derived by the SI_UNIT partial");
    assert_eq!(names(&complex[1]), ["PREFIX", "NAME"]);
    assert!(schema.complex_slots(&["NAMED_UNIT", "NOTHING"]).is_none());
}

#[test]
fn malformed_schemas_are_rejected() {
    for (src, needle) in [
        ("ENTITY a; END_ENTITY;", "expected SCHEMA"),
        (
            "SCHEMA s; ENTITY a SUBTYPE OF (b; END_ENTITY; END_SCHEMA;",
            "',' or ')'",
        ),
        (
            "SCHEMA s; ENTITY a; x y; END_ENTITY; END_SCHEMA;",
            "',' or ':'",
        ),
        (
            "SCHEMA s; ENTITY a; x : ; END_ENTITY; END_SCHEMA;",
            "expected a type",
        ),
        ("SCHEMA s; ENTITY a; END_ENTITY;", "unexpected end of schema"),
        ("SCHEMA s; FUNCTION f; END_SCHEMA;", "unexpected end of schema"),
        ("SCHEMA s; (* never closed", "unterminated remark"),
    ] {
        let message = match Schema::parse(src.as_bytes()) {
            Err(e) => e.to_string(),
            Ok(_) => panic!("{src}: accepted"),
        };
        assert!(message.contains(needle), "{src}: {message}");
    }
}

#[test]
fn errors_have_positions() {
    let src = "SCHEMA s;\nENTITY a;\n  x : SET [1:?] product;\nEND_ENTITY;\nEND_SCHEMA;";
    let Err(Error::Syntax { line, column, .. }) = Schema::parse(src.as_bytes()) else {
        panic!("expected a syntax error");
    };
    assert_eq!((line, column), (3, 17));
}

const CHECKED: &str = "
SCHEMA demo;
TYPE label = STRING; END_TYPE;
TYPE nonempty = SET [1:?] OF label; END_TYPE;
ENTITY named_unit; dimensions : label; END_ENTITY;
ENTITY si_unit SUBTYPE OF (named_unit);
  prefix : OPTIONAL label;
  name : label;
DERIVE
  SELF\\named_unit.dimensions : label := 'x';
END_ENTITY;
ENTITY point; name : label; coordinates : LIST [1:3] OF REAL; END_ENTITY;
ENTITY line SUBTYPE OF (point); tags : nonempty; END_ENTITY;
END_SCHEMA;
";

#[test]
fn problems_are_reported_in_file_order() {
    let schema = Schema::parse(CHECKED.as_bytes()).unwrap();
    let src = "ISO-10303-21;HEADER;FILE_SCHEMA(('DEMO'));ENDSEC;DATA;
#1=POINT('p',(0.,0.,0.));
#2=POINT('short');
#3=(NAMED_UNIT(*)SI_UNIT($,'metre'));
#4=LINE('l',(1.),());
#5=MYSTERY();
#6=(NAMED_UNIT(*)SI_UNIT($));
#7=(NAMED_UNIT(*)MYSTERY());
#8=point('lower case',(2.));
ENDSEC;END-ISO-10303-21;";
    let exchange = parse(src.as_bytes()).unwrap();
    let problems: Vec<String> = check(&schema, &exchange)
        .iter()
        .map(|p| p.to_string())
        .collect();
    assert_eq!(
        problems,
        [
            "#2 POINT: expected 2 attributes, found 1",
            "#4 LINE.TAGS: needs at least 1 element, found 0",
            "#5 MYSTERY: entity type is not in the schema",
            "#6 SI_UNIT: expected 2 attributes, found 1",
            "#7 MYSTERY: entity type is not in the schema",
        ]
    );
}

#[test]
fn the_module_example_reports_an_empty_required_set() {
    let schema = Schema::parse(
        b"
        SCHEMA demo;
        TYPE label = STRING; END_TYPE;
        ENTITY product;
          id, name : label;
          frame_of_reference : SET [1:?] OF product_context;
        END_ENTITY;
        ENTITY product_context; END_ENTITY;
        END_SCHEMA;",
    )
    .unwrap();
    let file = parse(
        b"ISO-10303-21;HEADER;FILE_SCHEMA(('DEMO'));ENDSEC;DATA;
        #1=PRODUCT('p1','bracket',());
        #2=PRODUCT_CONTEXT();
        ENDSEC;END-ISO-10303-21;",
    )
    .unwrap();
    let problems = check(&schema, &file);
    assert_eq!(problems.len(), 1);
    assert_eq!(
        problems[0].to_string(),
        "#1 PRODUCT.FRAME_OF_REFERENCE: needs at least 1 element, found 0"
    );
}

#[test]
fn bounds_too_large_or_written_as_expressions_are_unknown() {
    let schema = Schema::parse(
        b"SCHEMA s;
        ENTITY a; x : LIST [99999999999999999999:?] OF INTEGER; y : BAG [n:3] OF INTEGER; END_ENTITY;
        END_SCHEMA;",
    )
    .unwrap();
    let slots = schema.slots("A").unwrap();
    assert_eq!(slots[0].min_len, None);
    assert_eq!(slots[1].min_len, None);
}
