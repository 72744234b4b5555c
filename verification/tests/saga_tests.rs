use saga::dates::Dates;
use saga::events::{Event, LineSetting, Node, Query};
use saga::saga::{parse_to_int_path, SagaDoc, SagaDocError, ScenePrim};
use saga::scalar::Scalar;

#[test]
fn saga_test_node_querying() {
    let ok_queries = ["", "1", "1:2", "1 : 2", "1: 5:5 :3"];
    for query in ok_queries.iter() {
        println!("Testing {}", query);
        assert!(parse_to_int_path(query).is_ok());
    }
}

#[test]
fn test_path_parse_errors() {
    assert!(matches!(parse_to_int_path("1:x"), Err(SagaDocError::PathParse(_))));
    assert!(matches!(parse_to_int_path("3.14"), Err(SagaDocError::PathParse(_))));
    assert_eq!(parse_to_int_path("  ").unwrap(), Vec::<usize>::new());
    assert_eq!(parse_to_int_path("1: 5:5 :3").unwrap(), vec![1usize, 5, 5, 3]);
}

#[test]
fn test_render_empty() {
    // A document with an empty root renders as an empty scene.
    let doc = SagaDoc::blank();
    assert_eq!(doc.draw().len(), 0);
    // So does one whose global range has no width.
    let mut doc = SagaDoc::blank();
    doc.add_event("", Event::new("P", "1/1/1990 0:0".parse().unwrap())).unwrap();
    assert_eq!(doc.draw().len(), 0);
}

fn scenario_doc() -> SagaDoc {
    let mut doc = SagaDoc::blank();
    doc.add_event("", Event::new("First Event", "08/12/1997 0:0 - 26/12/1997 0:0".parse().unwrap()))
        .unwrap();
    doc.add_event(
        "",
        Event::new("Second Event", "01/12/1997 0:0 - 09/12/1997 0:0".parse().unwrap()),
    )
    .unwrap();
    doc.add_node("", Node::from_vec(vec![]).with_line(LineSetting::OnWith(Scalar::from_micros(
        5_000_000,
    ))))
    .unwrap();
    doc.add_event("3", Event::new("Fifth Event", "03/12/1997 0:0 - 04/12/1997 0:0".parse().unwrap()))
        .unwrap();
    doc.add_event("3", Event::new("Point", "04/12/1997 0:0".parse().unwrap())).unwrap();
    doc
}

#[test]
fn test_render_scene() {
    let doc = scenario_doc();
    let scene = doc.draw();
    // Four events (three spans, one mark), then one rule for the inner
    // node's line (the root draws none).
    assert_eq!(scene.len(), 5);
    let spans = scene.iter().filter(|p| matches!(p, ScenePrim::Span { .. })).count();
    let marks = scene.iter().filter(|p| matches!(p, ScenePrim::Mark { .. })).count();
    let rules = scene.iter().filter(|p| matches!(p, ScenePrim::Rule { .. })).count();
    assert_eq!((spans, marks, rules), (3, 1, 1));
    match &scene[0] {
        ScenePrim::Span { x_start, x_end, y_top, height } => {
            // First Event spans 08/12 to 26/12 of a 01/12 .. 26/12 range:
            // it ends exactly at the right edge of the 1920-pixel canvas.
            assert_eq!(x_end.micros, 1_920_000_000);
            assert!(x_start.micros > 0 && x_start.micros < x_end.micros);
            // y_slide is a tenth of the canvas height, the bar a fifth.
            assert_eq!(y_top.micros, 108_000_000);
            assert_eq!(height.micros, 216_000_000);
        },
        _ => panic!("expected a span first"),
    }
}

#[test]
fn test_add_and_query() {
    let mut doc = SagaDoc::blank();
    doc.add_node("", Node::new(Some("inner".to_string()), vec![])).unwrap();
    doc.add_event("1", Event::new("E", "1/1/1990 0:0".parse().unwrap())).unwrap();
    assert!(matches!(doc.query_mut(&[1]), Ok(Query::Node)));
    assert!(matches!(doc.query_mut(&[1, 1]), Ok(Query::Event)));
    assert!(doc.query_mut(&[2]).is_err());
    let r = doc.add_event("1:1", Event::new("X", "1/1/1990 0:0".parse().unwrap()));
    assert!(matches!(r, Err(SagaDocError::AddToEvent)));
    let r = doc.add_event("9", Event::new("X", "1/1/1990 0:0".parse().unwrap()));
    assert!(matches!(r, Err(SagaDocError::PathFind(_))));
}

#[test]
fn test_catenate() {
    let mut a = SagaDoc::blank();
    a.x = Scalar::from_micros(2_000_000_000);
    a.color_schemes.push(("warm".to_string(), vec![saga::saga::Color { r: 1, g: 2, b: 3 }]));
    a.add_event("", Event::new("A", "1/1/1990 0:0".parse().unwrap())).unwrap();
    let mut b = SagaDoc::blank();
    b.y = Scalar::from_micros(2_160_000_000);
    b.color_schemes.push(("warm".to_string(), vec![saga::saga::Color { r: 9, g: 9, b: 9 }]));
    b.color_schemes.push(("cold".to_string(), vec![saga::saga::Color { r: 0, g: 0, b: 9 }]));
    b.add_event("", Event::new("B", "2/1/1990 0:0".parse().unwrap())).unwrap();

    let joined = SagaDoc::catenate(vec![a, b]);
    assert_eq!(joined.x.micros, 2_000_000_000);
    assert_eq!(joined.y.micros, 2_160_000_000);
    assert_eq!(joined.padding.micros, 0);
    // Later documents override earlier schemes with the same key.
    assert_eq!(joined.color_schemes.len(), 2);
    assert_eq!(joined.color_schemes[0].0, "warm");
    assert_eq!(joined.color_schemes[0].1[0].r, 9);
    assert_eq!(joined.color_schemes[1].0, "cold");
    // The roots' children are flattened one level, in input order.
    assert_eq!(joined.data.iter_events().len(), 2);
    assert_eq!(joined.data.iter_events()[0].name(), "A");
    assert_eq!(joined.data.iter_events()[1].name(), "B");
}

#[test]
fn test_document_print() {
    let mut doc = SagaDoc::blank();
    doc.add_event("", Event::new("A", "8/12/1997 0:0".parse().unwrap())).unwrap();
    assert_eq!(doc.print(false), "<Node> (No name)\n  <Event> A, [08/12/1997 00:00]");
}

#[test]
fn test_edit_through_document() {
    let mut doc = SagaDoc::blank();
    doc.add_node("", Node::from_vec(vec![])).unwrap();
    let cmd = "line 5".parse::<saga::edit::Command>().unwrap();
    let path = parse_to_int_path("1").unwrap();
    let r = cmd.eval_at(doc.get_data_mut(), &path[..]);
    assert!(matches!(r, Ok(Ok(()))));
    let shown = doc.print(true);
    assert!(shown.contains("Line: 5"));
}

#[test]
fn test_date_via_command() {
    let d1 = Dates::parse("1/1/1990 0:0").unwrap();
    let d2 = Dates::parse("1/1/1990 0:0 - 1/1/1991 0:0").unwrap();
    assert!(d1.end.is_none() && d2.end.is_some());
    let (lo, hi) = d2.expand_range((i64::MAX, i64::MIN));
    assert_eq!(lo, d2.stamps().0);
    assert_eq!(hi, d2.stamps().1.unwrap());
}
