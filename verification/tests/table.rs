use stepq::info::{EntityCount, Header, Info, Units};
use stepq::model::{Definition, Product};
use stepq::table::{csv_field, definition_label, grouped, info_table, kind_label};

fn sample() -> Info {
    Info {
        bytes: 1234,
        header: Header {
            schemas: vec!["AUTOMOTIVE_DESIGN".to_owned()],
            name: Some("bracket".to_owned()),
            author: vec!["ada".to_owned(), "bob".to_owned()],
            ..Header::default()
        },
        sections: 1,
        instances: 1500,
        complex_instances: 2,
        products: 3,
        assembly_usages: 0,
        unresolved_references: 0,
        units: Units {
            length: vec!["millimetre".to_owned()],
            plane_angle: vec!["radian".to_owned(), "degree".to_owned()],
            solid_angle: vec![],
        },
        entity_types: vec![
            EntityCount { name: "CARTESIAN_POINT".to_owned(), count: 1200 },
            EntityCount { name: "DIRECTION".to_owned(), count: 298 },
            EntityCount { name: "PRODUCT".to_owned(), count: 2 },
        ],
    }
}

fn row(label: &str, value: &str) -> String {
    format!("{label:<20}  {value}\n")
}

#[test]
fn digits_are_grouped_by_three() {
    assert_eq!(grouped(0), "0");
    assert_eq!(grouped(999), "999");
    assert_eq!(grouped(1000), "1,000");
    assert_eq!(grouped(1234567), "1,234,567");
    assert_eq!(grouped(100200), "100,200");
}

#[test]
fn table_lists_the_top_entity_types_and_counts_the_rest() {
    let expected = [
        row("File", "part.stp (1,234 bytes)"),
        row("Schema", "AUTOMOTIVE_DESIGN"),
        row("Name", "bracket"),
        row("Author", "ada, bob"),
        row("Units", "length millimetre; plane angle radian, degree"),
        row("Instances", "1,500 (2 complex) in 1 data section"),
        row("Products", "3 (no assembly structure)"),
        "\n".to_owned(),
        "Entity types (3)\n".to_owned(),
        format!("{:>10}  CARTESIAN_POINT\n", "1,200"),
        format!("{:>10}  … 2 more (--top 0 lists all)\n", ""),
    ]
    .concat();
    assert_eq!(info_table("part.stp", &sample(), 1), expected);
}

#[test]
fn top_zero_lists_every_entity_type() {
    let mut info = sample();
    info.sections = 2;
    info.assembly_usages = 4;
    info.unresolved_references = 1001;
    let table = info_table("part.stp", &info, 0);
    assert!(table.contains(&row("Instances", "1,500 (2 complex) in 2 data sections")));
    assert!(table.contains(&row("Products", "3 (4 assembly usages)")));
    assert!(table.contains(&row("Warning", "1,001 references to undefined instances")));
    assert!(table.ends_with(&format!(
        "Entity types (3)\n{:>10}  CARTESIAN_POINT\n{:>10}  DIRECTION\n{:>10}  PRODUCT\n",
        "1,200", "298", "2"
    )));
    assert!(!table.contains("more (--top 0 lists all)"));
}

#[test]
fn csv_fields_are_quoted_only_when_needed() {
    assert_eq!(csv_field("plain"), "plain");
    assert_eq!(csv_field(""), "");
    assert_eq!(csv_field("a,b"), "\"a,b\"");
    assert_eq!(csv_field("say \"hi\""), "\"say \"\"hi\"\"\"");
    assert_eq!(csv_field("two\nlines"), "\"two\nlines\"");
}

fn definition(instance: u64, id: Option<&str>, product: Option<(Option<&str>, Option<&str>)>) -> Definition {
    Definition {
        instance,
        entity: "PRODUCT_DEFINITION".to_owned(),
        id: id.map(str::to_owned),
        description: None,
        version: None,
        product: product.map(|(pid, name)| Product {
            instance: instance + 1,
            id: pid.map(str::to_owned),
            name: name.map(str::to_owned),
            description: None,
        }),
        shape_representations: Vec::new(),
    }
}

#[test]
fn definitions_are_labelled_by_name_and_id() {
    assert_eq!(definition_label(&definition(5, None, Some((Some("P-1"), Some("plate"))))), "plate [P-1]");
    assert_eq!(definition_label(&definition(5, None, Some((Some("plate"), Some("plate"))))), "plate");
    assert_eq!(definition_label(&definition(5, Some("d"), Some((Some("P-1"), None)))), "P-1");
    assert_eq!(definition_label(&definition(5, Some("d"), None)), "d");
    assert_eq!(definition_label(&definition(5, None, None)), "#5");
    assert_eq!(kind_label(true), "assembly");
    assert_eq!(kind_label(false), "part");
}
