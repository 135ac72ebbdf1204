use pickem::driver::{Driver, DriverCommand, DriverSignal};
use pickem::frontend::{
    handle_input, keeps_running, picked_value, pprint_choice, pprint_choices, Flags, KeyPress,
    Reaction,
};
use pickem::tree::{LeafData, Tree};

fn leaf(name: &str, chord: &str, value: &str) -> Tree {
    Tree::Leaf(LeafData {
        name: String::from(name),
        desc: String::from(name),
        chord: String::from(chord),
        value: String::from(value),
    })
}

#[test]
fn tui_test_pprint_user_input() {
    let data = LeafData {
        name: String::from("name"),
        desc: String::from("desc"),
        chord: String::from("chord"),
        value: String::from("value"),
    };
    let tree = Tree::Leaf(data);
    let trees: Vec<&Tree> = vec![&tree];
    assert_eq!(
        pickem::frontend::pprint_user_input(&trees, &"a"),
        String::from("chord > a")
    );
}

#[test]
fn tui_test_pprint_nodes() {
    let d1 = LeafData {
        name: String::from("root"),
        desc: String::from("root"),
        chord: String::from("root"),
        value: String::from("root"),
    };
    let d2 = LeafData {
        name: String::from("programs"),
        desc: String::from("programs"),
        chord: String::from("programs"),
        value: String::from("programs"),
    };
    let root = Tree::Leaf(d1);
    let programs = Tree::Leaf(d2);
    let trees: Vec<&Tree> = vec![&root, &programs];
    assert_eq!(pickem::frontend::pprint_nodes(&trees), String::from("root > programs"));
}

#[test]
fn util_test_pprint_user_input() {
    let data = LeafData {
        name: String::from("name"),
        desc: String::from("desc"),
        chord: String::from("chord"),
        value: String::from("value"),
    };
    let tree = Tree::Leaf(data);
    let trees: Vec<&Tree> = vec![&tree];
    assert_eq!(pickem::util::pprint_user_input(&trees, &"a"), String::from("chord > a"));
}

#[test]
fn util_test_pprint_nodes() {
    let d1 = LeafData {
        name: String::from("root"),
        desc: String::from("root"),
        chord: String::from("root"),
        value: String::from("root"),
    };
    let d2 = LeafData {
        name: String::from("programs"),
        desc: String::from("programs"),
        chord: String::from("programs"),
        value: String::from("programs"),
    };
    let root = Tree::Leaf(d1);
    let programs = Tree::Leaf(d2);
    let trees: Vec<&Tree> = vec![&root, &programs];
    assert_eq!(pickem::util::pprint_nodes(&trees), String::from("root > programs"));
}

#[test]
fn pprint_of_nothing_and_of_several() {
    let none: Vec<&Tree> = Vec::new();
    assert_eq!(pickem::util::pprint_nodes(&none), "");
    assert_eq!(pickem::util::pprint_user_input(&none, "ab"), " > ab");
    let a = leaf("a", "x", "a");
    let b = leaf("b", "y", "b");
    let c = leaf("c", "z", "c");
    let trees: Vec<&Tree> = vec![&a, &b, &c];
    assert_eq!(pickem::util::pprint_nodes(&trees), "a > b > c");
    assert_eq!(pickem::util::pprint_user_input(&trees, ""), "x > y > z > ");
}

#[test]
fn pprint_choice_puts_the_chord_in_red() {
    let tree = leaf("name", "ch", "value");
    assert_eq!(pprint_choice(&tree), "\x1b[38;5;1mch\x1b[39m - name");
    let other = leaf("other", "o", "value");
    let lines = pprint_choices(&vec![&tree, &other]);
    assert_eq!(lines, vec!["\x1b[38;5;1mch\x1b[39m - name", "\x1b[38;5;1mo\x1b[39m - other"]);
}

#[test]
fn keys_are_mapped_to_reactions() {
    assert_eq!(handle_input(KeyPress::Esc), Reaction::Quit);
    assert_eq!(handle_input(KeyPress::Char('\n')), Reaction::Quit);
    assert_eq!(handle_input(KeyPress::Backspace), Reaction::Backtrack);
    assert_eq!(handle_input(KeyPress::Char('a')), Reaction::Type('a'));
    assert_eq!(handle_input(KeyPress::Other), Reaction::Ignore);
}

#[test]
fn only_picks_have_a_value_to_put_out() {
    let tree = Tree::Node(
        LeafData {
            name: String::from("root"),
            desc: String::from("root"),
            chord: String::from(""),
            value: String::from(""),
        },
        vec![
            Tree::Node(
                LeafData {
                    name: String::from("b"),
                    desc: String::from("b"),
                    chord: String::from("b"),
                    value: String::from("branch value"),
                },
                vec![leaf("l", "l", "leaf value")],
            ),
        ],
    );
    let mut driver = Driver::default(&tree);
    let signal = driver.drive(DriverCommand::Transition("b"));
    assert_eq!(picked_value(&signal), Some("branch value"));
    let signal = driver.drive(DriverCommand::Transition("l"));
    assert_eq!(picked_value(&signal), Some("leaf value"));
    let signal = driver.drive(DriverCommand::Transition("x"));
    assert!(matches!(signal, DriverSignal::DeadEnd(_)));
    assert_eq!(picked_value(&signal), None);
    assert_eq!(picked_value(&driver.drive(DriverCommand::Backtrack)), None);
    assert_eq!(picked_value(&DriverSignal::NoOp), None);
}

#[test]
fn test_pprint_user_input() {
    let data = LeafData {
        name: String::from("name"),
        desc: String::from("desc"),
        chord: String::from("chord"),
        value: String::from("value"),
    };
    let tree = Tree::Leaf(data);
    let trees: Vec<&Tree> = vec![&tree];
    assert_eq!(
        pickem::frontend::pprint_user_input(&trees, &"a"),
        String::from("chord > a")
    );
}

#[test]
fn test_pprint_nodes() {
    let d1 = LeafData {
        name: String::from("root"),
        desc: String::from("root"),
        chord: String::from("root"),
        value: String::from("root"),
    };
    let d2 = LeafData {
        name: String::from("programs"),
        desc: String::from("programs"),
        chord: String::from("programs"),
        value: String::from("programs"),
    };
    let root = Tree::Leaf(d1);
    let programs = Tree::Leaf(d2);
    let trees: Vec<&Tree> = vec![&root, &programs];
    assert_eq!(pickem::frontend::pprint_nodes(&trees), String::from("root > programs"));
}

#[test]
fn flags_decide_when_the_session_ends() {
    let tree = leaf("l", "l", "l");
    let picked = DriverSignal::LeafPicked(&tree);
    let dead = DriverSignal::DeadEnd(String::from("x"));
    let none: Vec<Flags> = Vec::new();
    assert!(!keeps_running(&none, &picked));
    assert!(keeps_running(&none, &dead));
    assert!(keeps_running(&none, &DriverSignal::NoOp));
    assert!(keeps_running(&none, &DriverSignal::Popped));
    assert!(keeps_running(&none, &DriverSignal::NodePicked(&tree)));
    assert!(keeps_running(&none, &DriverSignal::LeafUnpicked(&tree)));
    let looping = vec![Flags::LoopMode];
    assert!(keeps_running(&looping, &picked));
    assert!(keeps_running(&looping, &dead));
    let strict = vec![Flags::OutputOnPick, Flags::QuitDeadEnd];
    assert!(!keeps_running(&strict, &dead));
    assert!(!keeps_running(&strict, &picked));
    assert!(keeps_running(&vec![Flags::QuitDeadEnd, Flags::LoopMode], &picked));
}

#[test]
fn present_result_joins_the_values_selected() {
    let none: Vec<&Tree> = Vec::new();
    assert_eq!(pickem::util::present_result(&none), "");
    let a = leaf("a", "x", "first");
    let b = leaf("b", "y", "second");
    assert_eq!(pickem::util::present_result(&vec![&a]), "first");
    assert_eq!(pickem::util::present_result(&vec![&a, &b, &a]), "first second first");
    assert_eq!(pickem::util::join(&vec!["a", "b", "c"], ", "), "a, b, c");
    assert_eq!(pickem::util::join(&vec!["", ""], "-"), "-");
    assert_eq!(pickem::util::join(&Vec::new(), "-"), "");
}
