use stepq::model::Graph;
use stepq::p21::parse;
use stepq::Error;

fn file_with(data: &str) -> String {
    format!("ISO-10303-21;HEADER;FILE_SCHEMA(('X'));ENDSEC;DATA;{data}ENDSEC;END-ISO-10303-21;")
}

#[test]
fn forward_and_back_indices() {
    let src = file_with("#1=A(#2,#3,#2);#2=B(#3);#3=C('see #1');#4=D((#3,#1));");
    let graph = Graph::new(parse(src.as_bytes()).unwrap()).unwrap();
    assert_eq!(graph.len(), 4);
    assert_eq!(graph.references(0), [1, 2]);
    assert_eq!(graph.references(1), [2]);
    assert!(
        graph.references(2).is_empty(),
        "'#1' in a string is not a reference"
    );
    assert_eq!(graph.references(3), [0, 2]);
    assert_eq!(graph.referenced_by(0), [3]);
    assert_eq!(graph.referenced_by(2), [0, 1, 3]);
    assert!(graph.referenced_by(3).is_empty());
    assert!(graph.unresolved().is_empty());
}

#[test]
fn nodes_follow_file_order_not_ids() {
    let src = file_with("#10=A(#5);#5=B();");
    let graph = Graph::new(parse(src.as_bytes()).unwrap()).unwrap();
    assert_eq!(graph.node(10), Some(0));
    assert_eq!(graph.node(5), Some(1));
    assert_eq!(graph.instance(1).id, 5);
    assert_eq!(graph.references(0), [1]);
    assert_eq!(graph.node(7), None);
}

#[test]
fn dangling_references() {
    let src = file_with("#1=A(#2,#8);#2=B((#9));");

    let err = match Graph::new(parse(src.as_bytes()).unwrap()) {
        Err(err) => err,
        Ok(_) => panic!("expected a dangling reference"),
    };
    assert!(matches!(err, Error::UnresolvedReference { from: 1, to: 8 }));

    let graph = Graph::build(parse(src.as_bytes()).unwrap());
    assert_eq!(graph.unresolved(), [(0, 8), (1, 9)]);
    assert_eq!(graph.references(0), [1]);
    assert!(graph.references(1).is_empty());
}

#[test]
fn empty_data_section() {
    let src = file_with("");
    let graph = Graph::new(parse(src.as_bytes()).unwrap()).unwrap();
    assert!(graph.is_empty());
}

#[test]
fn back_references_mirror_forward_ones() {
    let src = file_with("#1=A(#2,#3);#2=B(#3,#1);#3=C();");
    let graph = Graph::new(parse(src.as_bytes()).unwrap()).unwrap();
    for n in 0..graph.len() {
        for m in 0..graph.len() {
            assert_eq!(
                graph.references(n).contains(&m),
                graph.referenced_by(m).contains(&n)
            );
        }
    }
    assert_eq!(graph.exchange().instances().len(), 3);
}
