use myu::lts::Lts;
use myu::MyuError;

#[test]
fn parsing() {
    let input = r#"des (0,12,10)
(0,"lock(p2, f2)",1)
(0,"lock(p1, f1)",2)
(1,"lock(p1, f1)",3)
(1,"lock(p2, f1)",4)
(2,"lock(p2, f2)",3)
(2,"lock(p1, f2)",5)
(4,"eat(p2)",6)
(5,"eat(p1)",7)
(6,"free(p2, f2)",8)
(7,"free(p1, f1)",9)
(8,"free(p2, f1)",0)
(9,"free(p1, f2)",0)"#;

    let mut expected = Lts::default();
    expected.add_edge(0, "lock(p2, f2)", 1);
    expected.add_edge(0, "lock(p1, f1)", 2);
    expected.add_edge(1, "lock(p1, f1)", 3);
    expected.add_edge(1, "lock(p2, f1)", 4);
    expected.add_edge(2, "lock(p2, f2)", 3);
    expected.add_edge(2, "lock(p1, f2)", 5);
    expected.add_edge(4, "eat(p2)", 6);
    expected.add_edge(5, "eat(p1)", 7);
    expected.add_edge(6, "free(p2, f2)", 8);
    expected.add_edge(7, "free(p1, f1)", 9);
    expected.add_edge(8, "free(p2, f1)", 0);
    expected.add_edge(9, "free(p1, f2)", 0);

    assert_eq!(input.parse::<Lts>(), Ok(expected));

    let input = "des (0,12,10)        \n\
(0,\"i\",1)
(0,\"i\",2)
(1,\"i\",3)
(1,\"i\",4)
(2,\"i\",5)
(2,\"i\",4)
(3,\"others\",6)
(5,\"plato\",7)
(6,\"i\",8)
(7,\"i\",9)
(8,\"i\",0)
(9,\"i\",0)
";

    let mut expected = Lts::default();
    expected.add_edge(0, "i", 1);
    expected.add_edge(0, "i", 2);
    expected.add_edge(1, "i", 3);
    expected.add_edge(1, "i", 4);
    expected.add_edge(2, "i", 5);
    expected.add_edge(2, "i", 4);
    expected.add_edge(3, "others", 6);
    expected.add_edge(5, "plato", 7);
    expected.add_edge(6, "i", 8);
    expected.add_edge(7, "i", 9);
    expected.add_edge(8, "i", 0);
    expected.add_edge(9, "i", 0);

    let result = input.parse::<Lts>();
    assert_eq!(result, Ok(expected));
}

#[test]
fn states_and_initial_state() {
    let lts = "des (7,2,3)\n(1,\"a\",2)\n(2,\"b\",1)".parse::<Lts>().unwrap();
    assert_eq!(lts.init(), 7);
    let states: Vec<u32> = lts.states().iter().cloned().collect();
    assert_eq!(states, vec![1, 2, 7]);
}

#[test]
fn step_transitions_lists_every_state() {
    let mut lts = Lts::default();
    lts.add_edge(0, "a", 1);
    lts.add_edge(0, "a", 2);
    lts.add_edge(0, "a", 1);
    lts.add_edge(1, "b", 0);
    let mut rows = lts.step_transitions("a");
    rows.sort();
    assert_eq!(rows, vec![(0, vec![1, 2, 1]), (1, vec![]), (2, vec![])]);
    let mut rows = lts.step_transitions("b");
    rows.sort();
    assert_eq!(rows, vec![(0, vec![]), (1, vec![0]), (2, vec![])]);
    let mut rows = lts.step_transitions("c");
    rows.sort();
    assert_eq!(rows, vec![(0, vec![]), (1, vec![]), (2, vec![])]);
}

#[test]
fn edges_may_share_a_line() {
    let one = "des (0,2,2)\n(0,\"a\",1) (1,\"a\",0)\n".parse::<Lts>();
    let two = "des (0,2,2)\n(0,\"a\",1)\n(1,\"a\",0)".parse::<Lts>();
    assert!(one.is_ok());
    assert_eq!(one, two);
}

#[test]
fn head_alone_is_a_system() {
    let lts = "des (5,0,0)".parse::<Lts>().unwrap();
    assert_eq!(lts.init(), 5);
    let states: Vec<u32> = lts.states().iter().cloned().collect();
    assert_eq!(states, vec![5]);
    let mut expected = Lts::new(5);
    assert_ne!(lts, expected);
    expected.add_state(5);
    assert_eq!(lts, expected);
    assert_eq!(lts.step_transitions("a"), vec![(5, vec![])]);
}

#[test]
fn empty_label_is_a_label() {
    let lts = "des (0,1,2)\n(0,\"\",1)".parse::<Lts>().unwrap();
    let mut rows = lts.step_transitions("");
    rows.sort();
    assert_eq!(rows, vec![(0, vec![1]), (1, vec![])]);
}

#[test]
fn broken_systems_are_rejected() {
    for input in [
        "",
        "des",
        "des(0,1,2)",
        " des (0,1,2)",
        "des (0,1)",
        "des (0, 1, 2)",
        "des (a,1,2)",
        "des (0,1,2",
        "des (0,1,2) x",
        "des (0,1,2)\n(0,\"a\",1",
        "des (0,1,2)\n(0,\"a,1)",
        "des (0,1,2)\n(0,a,1)",
        "des (0,1,2)\n(0, \"a\",1)",
        "des (0,1,2)\n(,\"a\",1)",
        "des (4294967296,1,2)",
        "des (0,1,2)\n(0,\"a\",4294967296)",
    ] {
        match input.parse::<Lts>() {
            Err(MyuError::LtsParseError(_)) => {},
            other => panic!("{:?} gave {:?}", input, other),
        }
    }
}

#[test]
fn largest_state_is_read() {
    let lts = "des (4294967295,1,2)\n(4294967295,\"a\",0)".parse::<Lts>().unwrap();
    assert_eq!(lts.init(), 4294967295);
    assert!(lts.states().contains(&4294967295));
    let lts = "des (0000000000004294967295,1,2)".parse::<Lts>().unwrap();
    assert_eq!(lts.init(), 4294967295);
}

#[test]
fn broken_systems_say_where() {
    assert_eq!(
        "dos (0,1,2)".parse::<Lts>(),
        Err(MyuError::LtsParseError("expected the head of a system at offset 0".to_string()))
    );
    assert_eq!(
        "des (0,1,2)\n(0,\"a\";1)".parse::<Lts>(),
        Err(MyuError::LtsParseError("expected an edge at offset 17".to_string()))
    );
    assert_eq!(
        "des (0,1,2)\n(0,\"a\",1)\n\n  (1,\"b\",x)".parse::<Lts>(),
        Err(MyuError::LtsParseError("expected an edge at offset 32".to_string()))
    );
}

#[test]
fn systems_are_copied() {
    let lts = "des (0,2,2)\n(0,\"a\",1)\n(1,\"b\",0)".parse::<Lts>().unwrap();
    let copy = lts.clone();
    assert_eq!(lts, copy);
    let mut more = lts.clone();
    more.add_edge(1, "a", 1);
    assert_ne!(lts, more);
}

#[test]
fn equality_is_that_of_the_transitions() {
    let mut one = Lts::default();
    one.add_edge(0, "b", 1);
    one.add_edge(0, "a", 1);
    one.add_edge(2, "ab", 0);
    one.add_edge(0, "", 2);
    let mut two = Lts::default();
    two.add_edge(0, "", 2);
    two.add_edge(0, "a", 1);
    two.add_edge(2, "ab", 0);
    two.add_edge(0, "b", 1);
    assert_eq!(one, two);

    let mut three = Lts::default();
    three.add_edge(0, "a", 1);
    three.add_edge(0, "a", 2);
    let mut four = Lts::default();
    four.add_edge(0, "a", 2);
    four.add_edge(0, "a", 1);
    assert_ne!(three, four);
    assert_ne!(Lts::new(0), Lts::new(1));
}
