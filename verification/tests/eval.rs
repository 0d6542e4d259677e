use myu::env::Env;
use myu::improved;
use myu::lts::Lts;
use myu::mu_calculus::Formula;
use myu::naive;
use myu::ready::Scope;
use myu::work::keeps_step;
use std::collections::BTreeSet;

const LTS: &str = r#"des (0,14,8)
(0,"tau",1)
(0,"tau",2)
(1,"tau",3)
(1,"tau",4)
(2,"tau",5)
(2,"tau",4)
(3,"b",0)
(3,"a",6)
(4,"tau",7)
(4,"tau",6)
(5,"a",0)
(5,"a",7)
(6,"tau",2)
(7,"b",1)"#;

fn check_naive(formula: &str, expected: bool) {
    let lts = LTS.parse::<Lts>().unwrap();
    let f = formula.parse::<Formula>().unwrap();
    let result = naive::eval(&lts, &f);
    assert_eq!(result.contains(&0), expected, "{}", formula)
}

fn check_improved(formula: &str, expected: bool) {
    let lts = LTS.parse::<Lts>().unwrap();
    let f = formula.parse::<Formula>().unwrap();
    let result = improved::eval(&lts, &f);
    assert_eq!(result.contains(&0), expected, "{}", formula)
}

fn set(states: &[u32]) -> BTreeSet<u32> {
    states.iter().cloned().collect()
}

#[test]
fn naive_boolean() {
    check_naive("false", false);
    check_naive("true", true);
    check_naive("(false && true)", false);
    check_naive("(true && false)", false);
    check_naive("(true && true)", true);
    check_naive("(false || true)", true);
    check_naive("(false || false)", false);
    check_naive("(true || false)", true);
    check_naive("(true || true)", true);
}

#[test]
fn naive_modal_operators() {
    check_naive("[tau]true", true);
    check_naive("<tau>[tau]true", true);
    check_naive("[tau]false", false);
    check_naive("<tau>[tau]false", false);
    check_naive("<tau>false", false);
}

#[test]
fn naive_fixpoints() {
    check_naive("nu X. X", true);
    check_naive("mu Y. Y", false);
    check_naive("nu X. mu Y. (X || Y)", true);
    check_naive("nu X. mu Y. (X && Y)", false);
    check_naive("nu X. (X && mu Y. Y)", false);
}

#[test]
fn naive_combined() {
    check_naive("nu X. (<tau>X && mu Y. (<tau>Y || [a]false))", true);
    check_naive("nu X. <tau>X", true);
    check_naive("nu X. mu Y. ( <tau>Y || <a>X)", true);
    check_naive("nu X. mu Y. ( (<tau>Y || <a>Y) || <b>X)", true);
    check_naive("mu X. ([tau]X && (<tau>true || <a>true))", false);
}

#[test]
fn improved_boolean() {
    check_improved("false", false);
    check_improved("true", true);
    check_improved("(false && true)", false);
    check_improved("(true && false)", false);
    check_improved("(true && true)", true);
    check_improved("(false || true)", true);
    check_improved("(false || false)", false);
    check_improved("(true || false)", true);
    check_improved("(true || true)", true);
}

#[test]
fn improved_modal_operators() {
    check_improved("[tau]true", true);
    check_improved("<tau>[tau]true", true);
    check_improved("[tau]false", false);
    check_improved("<tau>[tau]false", false);
    check_improved("<tau>false", false);
}

#[test]
fn improved_fixpoints() {
    check_improved("nu X. X", true);
    check_improved("mu Y. Y", false);
    check_improved("nu X. mu Y. (X || Y)", true);
    check_improved("nu X. mu Y. (X && Y)", false);
    check_improved("nu X. (X && mu Y. Y)", false);
}

#[test]
fn improved_combined() {
    check_improved("nu X. (<tau>X && mu Y. (<tau>Y || [a]false))", true);
    check_improved("nu X. <tau>X", true);
    check_improved("nu X. mu Y. ( <tau>Y || <a>X)", true);
    check_improved("nu X. mu Y. ( (<tau>Y || <a>Y) || <b>X)", true);
    check_improved("mu X. ([tau]X && (<tau>true || <a>true))", false);
}

#[test]
fn exact_sets() {
    let lts = LTS.parse::<Lts>().unwrap();
    for (text, states) in [
        ("true", vec![0, 1, 2, 3, 4, 5, 6, 7]),
        ("false", vec![]),
        ("<a>true", vec![3, 5]),
        ("[a]false", vec![0, 1, 2, 4, 6, 7]),
        ("<b>true", vec![3, 7]),
        ("[tau]false", vec![3, 5, 7]),
        ("nu X. <tau>X", vec![0, 1, 2, 4, 6]),
        ("nu X. (<tau>X && mu Y. (<tau>Y || [a]false))", vec![0, 1, 2, 4, 6]),
        ("nu X. mu Y. ( <tau>Y || <a>X)", vec![0, 1, 2, 3, 4, 5, 6]),
        ("nu X. mu Y. ( (<tau>Y || <a>Y) || <b>X)", vec![0, 1, 2, 3, 4, 5, 6, 7]),
        ("mu X. ([tau]X && (<tau>true || <a>true))", vec![3, 5]),
        ("mu X. (<a>true || <tau>X)", vec![0, 1, 2, 3, 4, 5, 6]),
    ] {
        let f = text.parse::<Formula>().unwrap();
        assert_eq!(naive::eval(&lts, &f), set(&states), "naive {}", text);
        assert_eq!(improved::eval(&lts, &f), set(&states), "improved {}", text);
    }
}

#[test]
fn evaluation_is_repeatable() {
    let lts = LTS.parse::<Lts>().unwrap();
    let f = "nu X. mu Y. ( <tau>Y || <a>X)".parse::<Formula>().unwrap();
    assert_eq!(naive::eval(&lts, &f), naive::eval(&lts, &f));
    assert_eq!(improved::eval(&lts, &f), improved::eval(&lts, &f));
    assert_eq!(naive::eval_counted(&lts, &f), naive::eval_counted(&lts, &f));
    assert_eq!(improved::eval_counted(&lts, &f), improved::eval_counted(&lts, &f));
}

#[test]
fn algorithms_agree() {
    let lts = LTS.parse::<Lts>().unwrap();
    for text in [
        "nu X. mu Y. nu Z. ((<tau>X && <a>Y) || [b]Z)",
        "mu X. nu Y. mu Z. ((<tau>X || [a]Y) && <tau>Z)",
        "nu X. (mu Y. (<tau>Y || <a>X) && mu Z. (Z || [b]X))",
        "mu X. ((<a>true || <tau>X) || nu Y. (Y && <b>X))",
        "(nu X. <tau>X && mu Y. (<b>true || <tau>Y))",
    ] {
        let f = text.parse::<Formula>().unwrap();
        assert_eq!(naive::eval(&lts, &f), improved::eval(&lts, &f), "{}", text);
    }
}

#[test]
fn box_is_dual_to_diamond() {
    let lts = LTS.parse::<Lts>().unwrap();
    let all = set(&[0, 1, 2, 3, 4, 5, 6, 7]);
    for (boxed, diamond) in [
        ("[tau]false", "<tau>true"),
        ("[a]<b>true", "<a>[b]false"),
        ("[tau]nu X. <tau>X", "<tau>mu X. [tau]X"),
        ("[b][tau]false", "<b><tau>true"),
    ] {
        let f = boxed.parse::<Formula>().unwrap();
        let g = diamond.parse::<Formula>().unwrap();
        let left = naive::eval(&lts, &f);
        let right: BTreeSet<u32> = all.difference(&naive::eval(&lts, &g)).cloned().collect();
        assert_eq!(left, right, "{} and {}", boxed, diamond);
    }
}

#[test]
fn iteration_counts() {
    let lts = LTS.parse::<Lts>().unwrap();
    let count = |text: &str| {
        let f = text.parse::<Formula>().unwrap();
        (naive::eval_counted(&lts, &f).1, improved::eval_counted(&lts, &f).1)
    };
    assert_eq!(count("true"), (0, 0));
    assert_eq!(count("<tau>[a]false"), (0, 0));
    assert_eq!(count("nu X. X"), (1, 1));
    assert_eq!(count("mu X. X"), (1, 1));
    assert_eq!(count("mu X. true"), (2, 2));
    assert_eq!(count("nu X. <tau>X"), (2, 2));
    assert_eq!(count("(mu X. X && nu Y. Y)"), (2, 2));
    assert_eq!(count("mu X. mu Y. (X || Y)"), (2, 2));
}

#[test]
fn one_fixed_point_takes_few_iterations() {
    let lts = LTS.parse::<Lts>().unwrap();
    for text in ["mu X. (<a>true || <tau>X)", "nu X. <tau>X", "mu X. [tau]X", "nu X. [b]X"] {
        let f = text.parse::<Formula>().unwrap();
        assert!(naive::eval_counted(&lts, &f).1 <= 9, "{}", text);
        assert!(improved::eval_counted(&lts, &f).1 <= 9, "{}", text);
    }
}

#[test]
fn improved_iterates_less_on_the_examples() {
    let lts = LTS.parse::<Lts>().unwrap();
    for text in [
        "nu X. (<tau>X && mu Y. (<tau>Y || [a]false))",
        "nu X. mu Y. ( <tau>Y || <a>X)",
        "nu X. mu Y. ( (<tau>Y || <a>Y) || <b>X)",
        "mu X. ([tau]X && (<tau>true || <a>true))",
        "mu X. mu Y. ((<a>true || <tau>X) || <tau>Y)",
    ] {
        let f = text.parse::<Formula>().unwrap();
        let n = naive::eval_counted(&lts, &f).1;
        let i = improved::eval_counted(&lts, &f).1;
        assert!(i <= n, "{}: {} > {}", text, i, n);
    }
}

#[test]
fn improved_may_iterate_more() {
    let mut text = String::from("des (0,0,0)\n(0,\"init\",0)\n(1,\"a\",0)\n(1,\"b\",0)\n");
    for i in 2..=8 {
        text.push_str(&format!("({},\"a\",{})\n({},\"b\",0)\n", i, i - 1, i));
    }
    let lts = text.parse::<Lts>().unwrap();
    let f = "mu X. ((<init>true || <b>X) || mu Y. (X || mu Z. (Y || (X && <a>Z))))"
        .parse::<Formula>()
        .unwrap();
    let (naive_set, naive_count) = naive::eval_counted(&lts, &f);
    let (improved_set, improved_count) = improved::eval_counted(&lts, &f);
    assert_eq!(naive_set, improved_set);
    assert_eq!(naive_set, set(&[0, 1, 2, 3, 4, 5, 6, 7, 8]));
    assert_eq!(naive_count, 15);
    assert_eq!(improved_count, 22);
}

#[test]
fn shared_binder_names_mislead_the_improved_evaluator() {
    let lts = LTS.parse::<Lts>().unwrap();
    let f = "(nu X. X && mu X. X)".parse::<Formula>().unwrap();
    assert!(f.is_scoped() && f.is_closed() && !f.has_distinct_binders());
    assert_eq!(naive::eval(&lts, &f), set(&[]));
}

#[test]
fn the_initial_state_satisfies_true() {
    for text in ["des (5,0,6)", "des (7,2,3)\n(1,\"a\",2)\n(2,\"b\",1)"] {
        let lts = text.parse::<Lts>().unwrap();
        assert!(lts.states().contains(&lts.init()));
        assert!(naive::eval(&lts, &Formula::True).contains(&lts.init()));
        assert!(improved::eval(&lts, &Formula::True).contains(&lts.init()));
        assert!(!naive::eval(&lts, &Formula::False).contains(&lts.init()));
    }
}

fn bound(env: &Env) -> Vec<char> {
    ('A'..='Z').filter(|x| env.contains(*x)).collect()
}

#[test]
fn a_binder_leaves_its_variable_bound_to_the_fixed_point() {
    let lts = LTS.parse::<Lts>().unwrap();
    for text in ["mu X. (<a>true || <tau>X)", "nu X. <tau>X", "mu X. nu Y. (<tau>Y || <a>X)"] {
        let f = text.parse::<Formula>().unwrap();
        let mut env = Env::new();
        let mut count = 0;
        let r = naive::eval_inner(&lts, &f, &mut env, &mut count);
        assert_eq!(env.get('X'), &r, "naive {}", text);
        assert_eq!(r, naive::eval(&lts, &f));

        let mut env = Env::new();
        let mut count = 0;
        improved::seed(&lts, &f, &mut env);
        let r = improved::eval_inner(&lts, &f, None, &mut env, &mut count);
        assert_eq!(env.get('X'), &r, "improved {}", text);
        assert_eq!(r, improved::eval(&lts, &f));
    }
    let body = "(<a>true || <tau>X)".parse::<Formula>().unwrap();
    let mut env = Env::new();
    let mut count = 7;
    let r = naive::fixed_point(&lts, true, 'X', &body, &mut env, &mut count);
    assert_eq!(r, set(&[0, 1, 2, 3, 4, 5, 6]));
    assert_eq!(env.get('X'), &r);
    assert_eq!(bound(&env), vec!['X']);
    assert_eq!(count, 7 + 5);
}

#[test]
fn only_the_variables_of_binders_are_bound() {
    let lts = LTS.parse::<Lts>().unwrap();
    let f = "(X && [a]<tau>Y)".parse::<Formula>().unwrap();
    let mut env = Env::new();
    env.insert('X', set(&[0, 3]));
    env.insert('Y', set(&[7]));
    let mut count = 3;
    let r = naive::eval_inner(&lts, &f, &mut env, &mut count);
    assert_eq!(r, set(&[0]));
    assert_eq!(bound(&env), vec!['X', 'Y']);
    assert_eq!(env.get('X'), &set(&[0, 3]));
    assert_eq!(env.get('Y'), &set(&[7]));
    assert_eq!(count, 3);

    let g = "(mu Z. (X || <tau>Z) && nu W. (Y && W))".parse::<Formula>().unwrap();
    let r = naive::eval_inner(&lts, &g, &mut env, &mut count);
    assert_eq!(r, set(&[]));
    assert_eq!(env.get('Z'), &set(&[0, 1, 3]));
    assert_eq!(bound(&env), vec!['W', 'X', 'Y', 'Z']);
    assert_eq!(env.get('X'), &set(&[0, 3]));
    assert_eq!(env.get('Y'), &set(&[7]));
    assert_eq!(env.get('W'), &set(&[7]));
}

#[test]
fn the_evaluators_keep_step_on_many_formulas() {
    let lts = LTS.parse::<Lts>().unwrap();
    for text in [
        "true",
        "mu X. (<a>true || <tau>X)",
        "(nu X. <tau>X && mu Y. (<b>true || <tau>Y))",
        "nu X. mu Y. ( (<tau>Y || <a>Y) || <b>X)",
        "mu X. mu Y. ((<a>true || <tau>X) || <tau>Y)",
        "nu X. mu Y. nu Z. ((<tau>X && <a>Y) || [b]Z)",
        "mu X. nu Y. mu Z. ((<tau>X || [a]Y) && <tau>Z)",
        "nu X. (mu Y. (<tau>Y || <a>X) && mu Z. (Z || [b]X))",
        "nu X. mu Y. (nu Z. (Z && <tau>Y) || mu W. (<a>X || <tau>W))",
    ] {
        let f = text.parse::<Formula>().unwrap();
        assert!(keeps_step(&f, Scope::Top), "{}", text);
        let n = naive::eval_counted(&lts, &f).1;
        let i = improved::eval_counted(&lts, &f).1;
        assert!(i <= n, "{}: {} > {}", text, i, n);
    }
    for text in [
        "mu X. ((<init>true || <b>X) || mu Y. (X || mu Z. (Y || (X && <a>Z))))",
        "nu X. nu Y. nu Z. ((X && Y) && Z)",
        "nu X. mu Y. (<a>X || nu Z. mu W. (Z || W))",
    ] {
        let f = text.parse::<Formula>().unwrap();
        assert!(!keeps_step(&f, Scope::Top), "{}", text);
    }
}
