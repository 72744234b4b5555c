use saga::dates::Dates;
use saga::events::{Event, LineSetting, Node, Query};
use saga::scalar::Scalar;

fn scenario_tree() -> Node {
    let mut inner = Node::from_vec(vec![
        Node::from_vec(vec![
            Event::new("Third Event", "03/12/1997 0:0 - 04/12/1997 0:0".parse().unwrap())
                .into_value(),
            Event::new("Fourth Event", "04/12/1997 0:0 - 06/12/1997 0:0".parse().unwrap())
                .into_value(),
        ])
        .into_value(),
        Event::new("Fifth Event", "03/12/1997 0:0 - 04/12/1997 0:0".parse().unwrap()).into_value(),
        Event::new("Sixth Event", "04/12/1997 0:0 - 06/12/1997 0:0".parse().unwrap()).into_value(),
        Event::new("Seventh Event", "07/12/1997 0:0 - 09/12/1997 0:0".parse().unwrap())
            .into_value(),
    ]);
    inner = inner.with_line(LineSetting::OnWith(Scalar::from_micros(5_000_000)));
    Node::from_vec(vec![
        Event::new("First Event", "08/12/1997 0:0 - 26/12/1997 0:0".parse().unwrap()).into_value(),
        Event::new("Second Event", "01/12/1997 0:0 - 09/12/1997 0:0".parse().unwrap())
            .into_value(),
        inner.into_value(),
    ])
    .with_line(LineSetting::On)
}

#[test]
fn test_date_parsing() {
    let ok_tests = ["01/01/1990 0:0", "1/1/1990 0:0"];
    for query in ok_tests.iter() {
        assert!(query.parse::<Dates>().is_ok());
    }
}

#[test]
fn events_test_node_querying() {
    let test_node = scenario_tree();
    println!("{}\n", test_node.print(0, false));
    let range = test_node.range();
    let event_iter = test_node.iter_events();
    let node_iter = test_node.iter_nodes();
    println!("---");
    let lines = test_node.lines(&range);
    println!("Checking iter...");
    assert_eq!(event_iter.len(), 7);
    println!("Checking iter_nodes...");
    assert_eq!(node_iter.len(), 3);
    println!("Checking lines.len()...");
    assert_eq!(lines.len(), 2);
    let ok_queries: Vec<(Vec<usize>, bool)> = vec![
        (vec![], true),
        (vec![1], false),
        (vec![2], false),
        (vec![3], true),
        (vec![3, 1], true),
        (vec![3, 1, 1], false),
        (vec![3, 1, 2], false),
        (vec![3, 2], false),
        (vec![3, 3], false),
        (vec![3, 4], false),
    ];
    for (query, is_node) in ok_queries.iter() {
        println!("Testing Ok case: {:?}", query);
        let query = test_node.query(&query[..]).unwrap();
        let tag = match query {
            Query::Node => true,
            Query::Event => false,
        };
        assert_eq!(*is_node, tag);
    }
    let err_queries: Vec<Vec<usize>> = vec![
        vec![4],
        vec![1, 1],
        vec![2, 1, 1],
        vec![3, 1, 1, 1],
        vec![3, 1, 1, 1, 1],
        vec![3, 1, 3, 1],
        vec![3, 2, 1, 1],
    ];
    for query in err_queries.iter() {
        println!("Testing Err case: {:?}", query);
        assert!(test_node.query(&query[..]).is_err());
    }
}

fn chrono_stamp(day: u32, month: u32, year: i32, hour: u32, minute: u32) -> i64 {
    chrono::NaiveDate::from_ymd_opt(year, month, day)
        .unwrap()
        .and_hms_opt(hour, minute, 0)
        .unwrap()
        .and_utc()
        .timestamp()
}

#[test]
fn test_range_fold() {
    // The scenario tree spans 01/12/1997 00:00 through 26/12/1997 00:00.
    let tree = scenario_tree();
    let range = tree.range();
    assert_eq!(range.0, chrono_stamp(1, 12, 1997, 0, 0));
    assert_eq!(range.1, chrono_stamp(26, 12, 1997, 0, 0));
}

#[test]
fn test_stamps_against_chrono() {
    // The library's epoch arithmetic agrees with chrono's.
    let cases = [
        ("1/1/1990 0:0", (1, 1, 1990, 0, 0)),
        ("29/2/2000 12:30", (29, 2, 2000, 12, 30)),
        ("31/12/9999 23:59", (31, 12, 9999, 23, 59)),
        ("1/1/0001 0:1", (1, 1, 1, 0, 1)),
        ("15/7/1969 20:17", (15, 7, 1969, 20, 17)),
    ];
    for (text, (d, m, y, h, mi)) in cases.iter() {
        let parsed = text.parse::<Dates>().unwrap();
        let (start, end) = parsed.stamps();
        assert_eq!(start, chrono_stamp(*d, *m, *y, *h, *mi), "{}", text);
        assert!(end.is_none());
    }
}

#[test]
fn test_date_matrix() {
    let a = "1/1/1990 0:0".parse::<Dates>().unwrap();
    let b = "01/01/1990 00:00".parse::<Dates>().unwrap();
    assert_eq!(a, b);
    assert!(a.end.is_none());
    let r = "1/1/1990 0:0 - 1/1/1991 0:0".parse::<Dates>().unwrap();
    assert!(r.end.is_some());
    assert_eq!(r.start, a.start);
    assert!("garbage".parse::<Dates>().is_err());
    assert!("32/1/1990 0:0".parse::<Dates>().is_err());
    assert!("29/2/1999 0:0".parse::<Dates>().is_err());
    assert!("1/13/1990 0:0".parse::<Dates>().is_err());
    assert!("1/1/1990 24:0".parse::<Dates>().is_err());
}

#[test]
fn test_date_round_trip() {
    // parse(format(date)) == date, for an instant and for a span.
    let cases = ["4/5/2023 7:9", "1/1/0000 0:0", "31/12/9999 23:59", "3/12/1997 0:0 - 4/12/1997 23:5"];
    for text in cases.iter() {
        let d = text.parse::<Dates>().unwrap();
        let again = d.format().parse::<Dates>().unwrap();
        assert_eq!(d, again, "{}", text);
    }
    assert_eq!("4/5/2023 7:9".parse::<Dates>().unwrap().format(), "04/05/2023 07:09");
}

#[test]
fn test_dates_from_stamps() {
    let t = chrono_stamp(26, 12, 1997, 13, 45);
    let d = Dates::from((t, t + 3600));
    assert_eq!(d.format(), "26/12/1997 13:45 - 26/12/1997 14:45");
    // An end outside the representable window is dropped, and a start
    // outside it falls back to the epoch.
    let d = Dates::from((t, i64::MAX));
    assert!(d.end.is_none());
    let d = Dates::from((i64::MIN, t));
    assert_eq!(d.start.year, 1970);
    assert_eq!((d.start.month, d.start.day, d.start.hour, d.start.minute), (1, 1, 0, 0));
    // The window edges themselves are representable.
    let d = Dates::from((-62_167_219_200, 253_402_300_740 + 59));
    assert_eq!(d.format(), "01/01/0000 00:00 - 31/12/9999 23:59");
}

#[test]
fn test_scalar_text() {
    assert_eq!(Scalar::from_micros(2_000_000).to_text(), "2");
    assert_eq!(Scalar::from_micros(500_000).to_text(), "0.5");
    assert_eq!(Scalar::from_micros(-250_000).to_text(), "-0.25");
    assert_eq!(Scalar::from_micros(0).to_text(), "0");
    assert_eq!(Scalar::from_micros(1_100_000).to_text(), "1.1");
}

#[test]
fn test_descriptions_errors() {
    let mut e = Event::new("E", "1/1/1990 0:0".parse().unwrap());
    assert!(e.change_description(0, "x").is_err());
    assert!(e.delete_description(0).is_err());
    e.add_description("a");
    assert!(e.change_description(0, "b").is_ok());
    assert!(e.delete_description(0).is_ok());
}

#[test]
fn test_print_tree() {
    let tree = Node::new(
        Some("root".to_string()),
        vec![Event::new("A", "8/12/1997 0:0".parse().unwrap()).into_value()],
    );
    assert_eq!(tree.print(0, false), "<Node> root\n  <Event> A, [08/12/1997 00:00]");
}
