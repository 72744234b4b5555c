use saga::dates::Dates;
use saga::edit::{Command, EvalError, Mod, ParseError, ValueType};
use saga::events::{Event, LineSetting, Node};
use saga::scalar::Scalar;

#[test]
fn test_get_mod() {
    let ok_cases = [
        ("hello", (Mod::Edit, "hello")),
        ("+hello", (Mod::Add, "hello")),
        ("-hello", (Mod::Sub, "hello")),
    ];
    for (left, right) in ok_cases.iter() {
        assert_eq!(saga::edit::get_mod(left), *right);
    }
}

#[test]
fn test_command_parsing() {
    let ok_cases = [
        ("exit", Command::Exit),
        ("help", Command::Help),
        ("line", Command::LineEdit(LineSetting::On)),
        ("line 5", Command::LineEdit(LineSetting::OnWith(Scalar::from_micros(5_000_000)))),
        ("+line", Command::LineEdit(LineSetting::On)),
        ("+line 5", Command::LineEdit(LineSetting::OnWith(Scalar::from_micros(5_000_000)))),
        ("-name", Command::NameSub),
        ("name", Command::NameEdit(None)),
        ("name hello", Command::NameEdit(Some("hello".to_string()))),
        ("name hello world", Command::NameEdit(Some("hello world".to_string()))),
        ("+desc", Command::DescAdd(None)),
        ("+desc TEXT", Command::DescAdd(Some("TEXT".to_string()))),
        ("+desc Lorem Ipsum Dolor", Command::DescAdd(Some("Lorem Ipsum Dolor".to_string()))),
        ("desc 5 TEXT", Command::DescEdit(5usize, Some("TEXT".to_string()))),
        ("desc 5", Command::DescEdit(5usize, None)),
        ("-scale", Command::Scale(Scalar::from_micros(1_000_000))),
        ("scale 0.5", Command::Scale(Scalar::from_micros(500_000))),
        ("+scale 0.5", Command::Scale(Scalar::from_micros(500_000))),
        ("-offset", Command::Offset(Scalar::from_micros(0))),
        ("offset 2.0", Command::Offset(Scalar::from_micros(2_000_000))),
        ("+offset 2.0", Command::Offset(Scalar::from_micros(2_000_000))),
        (
            "date 1/1/1990 0:0 - 1/1/1991 0:0",
            Command::DateEdit("1/1/1990 0:0 - 1/1/1991 0:0".parse::<Dates>().unwrap()),
        ),
        ("date 1/1/1990 0:0", Command::DateEdit("1/1/1990 0:0".parse::<Dates>().unwrap())),
    ];
    for (left, right) in ok_cases.iter() {
        println!("{}", left);
        assert_eq!(left.parse::<Command>().unwrap(), *right);
    }
    let err_cases = [
        ("", ParseError::MissingCommand),
        ("+offset", ParseError::MissingArgument),
        (
            "booty buttcheeks",
            ParseError::UnknownCommand("booty".to_string(), Some("buttcheeks".to_string())),
        ),
        ("exit world", ParseError::ExtraArgument("exit".to_string(), "world".to_string())),
        ("help world", ParseError::ExtraArgument("help".to_string(), "world".to_string())),
        ("-name hello", ParseError::ExtraArgument("name".to_string(), "hello".to_string())),
        ("+line 5 4", ParseError::ExtraArgument("line".to_string(), "4".to_string())),
        ("+line hello", ParseError::NotAFloat("hello".to_string())),
        ("desc 3.14", ParseError::NotAInt("3.14".to_string())),
    ];
    for (left, right) in err_cases.iter() {
        println!("{}", left);
        assert_eq!(left.parse::<Command>().unwrap_err(), *right);
    }
}

#[test]
fn test_parse_edges() {
    // Tokens split on any run of ASCII whitespace; the tail is rejoined
    // with single spaces.
    assert_eq!(
        "  name \t hello \n  world  ".parse::<Command>().unwrap(),
        Command::NameEdit(Some("hello world".to_string()))
    );
    // A huge scalar saturates instead of failing.
    assert_eq!(
        "offset 99999999999999999999".parse::<Command>().unwrap(),
        Command::Offset(Scalar::from_micros(i64::MAX))
    );
    assert_eq!(
        "offset -99999999999999999999".parse::<Command>().unwrap(),
        Command::Offset(Scalar::from_micros(i64::MIN))
    );
    // A description index beyond the machine's range is not an index.
    assert_eq!(
        "desc 99999999999999999999999".parse::<Command>().unwrap_err(),
        ParseError::NotAInt("99999999999999999999999".to_string())
    );
    // Signs and fractions of the number grammar.
    assert_eq!(
        "scale +1.25".parse::<Command>().unwrap(),
        Command::Scale(Scalar::from_micros(1_250_000))
    );
    assert_eq!(
        "scale .5".parse::<Command>().unwrap(),
        Command::Scale(Scalar::from_micros(500_000))
    );
    assert_eq!(
        "scale -0.125".parse::<Command>().unwrap(),
        Command::Scale(Scalar::from_micros(-125_000))
    );
}

#[test]
fn test_applicability() {
    let dates = "1/1/1990 0:0".parse::<Dates>().unwrap();
    let mut event = Event::new("E", dates);
    let mut node = Node::from_vec(vec![]);

    let r = Command::NameSub.eval_event(&mut event);
    assert!(matches!(r, Err(EvalError::NotApplicable(ValueType::Event, Command::NameSub))));

    let r = Command::DescAdd(Some("x".to_string())).eval_node(&mut node);
    assert!(matches!(r, Err(EvalError::NotApplicable(ValueType::Node, _))));

    let r = Command::Offset(Scalar::from_micros(2_000_000)).eval_event(&mut event);
    assert!(matches!(r, Err(EvalError::NotApplicable(ValueType::Event, _))));

    // A refusal always names the kind of the element it was aimed at.
    let r = Command::DateEdit(dates).eval_node(&mut node);
    assert!(matches!(r, Err(EvalError::NotApplicable(ValueType::Node, _))));

    let r = Command::Exit.eval_node(&mut node);
    assert!(matches!(r, Err(EvalError::NotApplicable(ValueType::Node, Command::Exit))));

    let r = Command::NameEdit(None).eval_event(&mut event);
    assert!(matches!(r, Err(EvalError::NotApplicable(ValueType::Event, _))));
}

#[test]
fn test_eval_edits() {
    let dates = "1/1/1990 0:0".parse::<Dates>().unwrap();
    let mut event = Event::new("E", dates);

    assert!(Command::DescAdd(Some("first".to_string())).eval_event(&mut event).is_ok());
    assert!(Command::DescAdd(Some("second".to_string())).eval_event(&mut event).is_ok());
    assert!(Command::DescEdit(1, Some("changed".to_string())).eval_event(&mut event).is_ok());
    let r = Command::DescSub(7).eval_event(&mut event);
    assert!(matches!(r, Err(EvalError::IndexError { index: 7, len: 2 })));
    assert!(Command::DescSub(0).eval_event(&mut event).is_ok());
    let shown = event.print(0, true);
    assert_eq!(shown, "<Event> E, [01/01/1990 00:00]\n  - changed");

    let mut node = Node::from_vec(vec![]);
    assert!(Command::NameEdit(Some("root".to_string())).eval_node(&mut node).is_ok());
    assert!(Command::Offset(Scalar::from_micros(250_000)).eval_node(&mut node).is_ok());
    let shown = node.print(0, true);
    assert_eq!(shown, "<Node> root\n  Offset:  0.25\n  Scaling: 1");
}

#[test]
fn test_line_edit_idempotent() {
    // Applying a line clear (or a name clear) twice has the same effect as
    // applying it once.
    let mut once = Node::from_vec(vec![]).with_line(LineSetting::OnWith(Scalar::from_micros(
        3_000_000,
    )));
    once.set_name(Some("n"));
    let mut twice = Node::from_vec(vec![]).with_line(LineSetting::OnWith(Scalar::from_micros(
        3_000_000,
    )));
    twice.set_name(Some("n"));

    assert!(Command::LineEdit(LineSetting::Off).eval_node(&mut once).is_ok());
    assert!(Command::LineEdit(LineSetting::Off).eval_node(&mut twice).is_ok());
    assert!(Command::LineEdit(LineSetting::Off).eval_node(&mut twice).is_ok());
    assert_eq!(once.print(0, true), twice.print(0, true));

    assert!(Command::NameSub.eval_node(&mut once).is_ok());
    assert!(Command::NameSub.eval_node(&mut twice).is_ok());
    assert!(Command::NameSub.eval_node(&mut twice).is_ok());
    assert_eq!(once.print(0, true), twice.print(0, true));
}

#[test]
fn test_eval_at_paths() {
    let mut root = Node::from_vec(vec![
        Event::new("A", "1/1/1990 0:0".parse::<Dates>().unwrap()).into_value(),
        Node::from_vec(vec![]).into_value(),
    ]);
    let cmd = "name inner".parse::<Command>().unwrap();
    let r = cmd.eval_at(&mut root, &[2]);
    assert!(matches!(r, Ok(Ok(()))));
    let cmd = "+desc note".parse::<Command>().unwrap();
    let r = cmd.eval_at(&mut root, &[1]);
    assert!(matches!(r, Ok(Ok(()))));
    let r = cmd.eval_at(&mut root, &[3]);
    assert!(r.is_err());
    assert_eq!(
        root.print(0, true),
        "<Node> (No name)\n  Offset:  0\n  Scaling: 1\n  <Event> A, [01/01/1990 00:00]\n    - note\n  <Node> inner\n    Offset:  0\n    Scaling: 1"
    );
}
