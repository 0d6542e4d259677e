use myu::mu_calculus::Formula;
use myu::MyuError;

#[test]
fn literals() {
    let f = "false".parse::<Formula>();
    assert_eq!(f, Ok(Formula::False));

    let f = "true".parse::<Formula>();
    assert_eq!(f, Ok(Formula::True));
}

#[test]
fn binary_operators() {
    let f = "(false &&  true)".parse::<Formula>();
    assert_eq!(
        f,
        Ok(Formula::And {
            f1: Box::new(Formula::False),
            f2: Box::new(Formula::True),
        }),
    );

    let f = "( false || (true &&true))".parse::<Formula>();
    assert_eq!(
        f,
        Ok(Formula::Or {
            f1: Box::new(Formula::False),
            f2: Box::new(Formula::And {
                f1: Box::new(Formula::True),
                f2: Box::new(Formula::True),
            }),
        }),
    );

    let f = "( ( false || false) && (true|| false))".parse::<Formula>();
    assert_eq!(
        f,
        Ok(Formula::And {
            f1: Box::new(Formula::Or {
                f1: Box::new(Formula::False),
                f2: Box::new(Formula::False),
            }),
            f2: Box::new(Formula::Or {
                f1: Box::new(Formula::True),
                f2: Box::new(Formula::False),
            }),
        }),
    );
}

#[test]
fn modal_operators() {
    let f = "[tau]true".parse::<Formula>();
    assert_eq!(
        f,
        Ok(Formula::Box {
            step: "tau".to_string(),
            f: Box::new(Formula::True),
        })
    );

    let f = "<tau>false".parse::<Formula>();
    assert_eq!(
        f,
        Ok(Formula::Diamond {
            step: "tau".to_string(),
            f: Box::new(Formula::False),
        })
    );

    let f = "[tau]<tau>true".parse::<Formula>();
    assert_eq!(
        f,
        Ok(Formula::Box {
            step: "tau".to_string(),
            f: Box::new(Formula::Diamond {
                step: "tau".to_string(),
                f: Box::new(Formula::True)
            }),
        })
    );

    let f = "<tau>[tau]false".parse::<Formula>();
    assert_eq!(
        f,
        Ok(Formula::Diamond {
            step: "tau".to_string(),
            f: Box::new(Formula::Box {
                step: "tau".to_string(),
                f: Box::new(Formula::False)
            }),
        })
    );
}

#[test]
fn fixpoints() {
    let f = "mu X. X".parse::<Formula>();
    assert_eq!(
        f,
        Ok(Formula::Mu {
            var: 'X',
            f: Box::new(Formula::Var { name: 'X' }),
        })
    );

    let f = "nu Y. Y".parse::<Formula>();
    assert_eq!(
        f,
        Ok(Formula::Nu {
            var: 'Y',
            f: Box::new(Formula::Var { name: 'Y' }),
        })
    );

    let f = "mu X. <tau>X".parse::<Formula>();
    assert_eq!(
        f,
        Ok(Formula::Mu {
            var: 'X',
            f: Box::new(Formula::Diamond {
                step: "tau".to_string(),
                f: Box::new(Formula::Var { name: 'X' })
            }),
        })
    );

    let f = "mu X. nu Y. (X || Y)".parse::<Formula>();
    assert_eq!(
        f,
        Ok(Formula::Mu {
            var: 'X',
            f: Box::new(Formula::Nu {
                var: 'Y',
                f: Box::new(Formula::Or {
                    f1: Box::new(Formula::Var { name: 'X' }),
                    f2: Box::new(Formula::Var { name: 'Y' })
                })
            }),
        })
    );

    let f = "nu X. (X && mu Y. Y)".parse::<Formula>();
    assert_eq!(
        f,
        Ok(Formula::Nu {
            var: 'X',
            f: Box::new(Formula::And {
                f1: Box::new(Formula::Var { name: 'X' }),
                f2: Box::new(Formula::Mu {
                    var: 'Y',
                    f: Box::new(Formula::Var { name: 'Y' })
                })
            })
        })
    );
}

#[test]
fn depth_measures() {
    let f = "(mu X.nu Y.(X||Y)&& mu V. mu W. (V && mu Z.(true || Z)))"
        .parse::<Formula>()
        .unwrap();
    assert_eq!(f.nesting_depth(), 3);

    let f = "(mu X.nu Y.(X||Y)&& mu V. nu W. (V && mu Z.(true || Z)))"
        .parse::<Formula>()
        .unwrap();
    assert_eq!(f.alternation_depth(), 3);
    assert_eq!(f.dependent_ad(), 2);
}

#[test]
fn depths_are_ordered() {
    for text in [
        "true",
        "X",
        "<a>[b]true",
        "mu X. X",
        "mu X. nu Y. (X || Y)",
        "nu X. (X && mu Y. Y)",
        "mu X. nu Y. mu Z. ((X || Y) || Z)",
        "mu X. nu Y. mu Z. (Y || Z)",
        "(mu X.nu Y.(X||Y)&& mu V. nu W. (V && mu Z.(true || Z)))",
    ] {
        let f = text.parse::<Formula>().unwrap();
        assert!(f.nesting_depth() >= f.alternation_depth(), "{}", text);
        assert!(f.alternation_depth() >= f.dependent_ad(), "{}", text);
    }
}

#[test]
fn leaves_have_depth_zero() {
    for f in [Formula::True, Formula::False, Formula::Var { name: 'X' }] {
        assert_eq!(f.nesting_depth(), 0);
        assert_eq!(f.alternation_depth(), 0);
        assert_eq!(f.dependent_ad(), 0);
    }
}

#[test]
fn exact_depths() {
    let f = "mu X. nu Y. mu Z. ((X || Y) || Z)".parse::<Formula>().unwrap();
    assert_eq!((f.nesting_depth(), f.alternation_depth(), f.dependent_ad()), (3, 3, 3));
    let f = "mu X. nu Y. mu Z. Z".parse::<Formula>().unwrap();
    assert_eq!((f.nesting_depth(), f.alternation_depth(), f.dependent_ad()), (3, 3, 1));
    let f = "mu X. mu Y. mu Z. ((X || Y) || Z)".parse::<Formula>().unwrap();
    assert_eq!((f.nesting_depth(), f.alternation_depth(), f.dependent_ad()), (3, 1, 1));
    let f = "<a>nu X. [b]mu Y. (X || Y)".parse::<Formula>().unwrap();
    assert_eq!((f.nesting_depth(), f.alternation_depth(), f.dependent_ad()), (2, 2, 2));
}

#[test]
fn white_space_and_comments() {
    let plain = "mu X. (X || <a_1>true)".parse::<Formula>();
    assert!(plain.is_ok());
    assert_eq!(" \t\n mu\u{a0}\tX \n . (X||<a_1>true)  \n".parse::<Formula>(), plain);
    assert_eq!("% a comment\nmu X. % another\n (X || <a_1>true)".parse::<Formula>(), plain);
    assert_eq!("%\n%\ntrue".parse::<Formula>(), Ok(Formula::True));
}

#[test]
fn broken_formulas_are_rejected() {
    for text in [
        "",
        " ",
        "tru",
        "truefalse",
        "true false",
        "x",
        "\u{c4}",
        "(true && false",
        "(true & false)",
        "(true)",
        "true && false",
        "<>true",
        "<Tau>true",
        "< tau>true",
        "<tau >true",
        "<tau]true",
        "[tau>true",
        "<1a>true",
        "<tau>",
        "muX. X",
        "mu x. X",
        "mu X X",
        "mu X.",
        "nu . X",
        "% no line ends here",
        "% nothing follows\n",
    ] {
        assert!(text.parse::<Formula>().is_err(), "{:?}", text);
    }
}

#[test]
fn subformulas_come_root_first() {
    let f = "(mu X. X && <a>true)".parse::<Formula>().unwrap();
    let mut walk = f.subformulas();
    let mut seen = Vec::new();
    while let Some(g) = walk.next() {
        seen.push(g.clone());
    }
    assert_eq!(
        seen,
        vec![
            f.clone(),
            "<a>true".parse::<Formula>().unwrap(),
            Formula::True,
            "mu X. X".parse::<Formula>().unwrap(),
            Formula::Var { name: 'X' },
        ]
    );
    assert!(walk.next().is_none());
}

#[test]
fn open_and_closed() {
    assert!("X".parse::<Formula>().unwrap().is_open());
    assert!("mu X. Y".parse::<Formula>().unwrap().is_open());
    assert!("mu X. (X || Y)".parse::<Formula>().unwrap().is_open());
    assert!(!"mu X. X".parse::<Formula>().unwrap().is_open());
    assert!(!"true".parse::<Formula>().unwrap().is_open());
    assert!(!"mu X. nu Y. (X || Y)".parse::<Formula>().unwrap().is_open());
    assert!(!"(mu X. X && X)".parse::<Formula>().unwrap().is_open());
}

#[test]
fn kinds_of_binders() {
    let mu = "mu X. X".parse::<Formula>().unwrap();
    let nu = "nu X. X".parse::<Formula>().unwrap();
    assert!(mu.is_mu() && !mu.is_nu());
    assert!(nu.is_nu() && !nu.is_mu());
    assert!(!Formula::True.is_mu() && !Formula::True.is_nu());
}

#[test]
fn formulas_are_written_as_they_are_read() {
    for text in [
        "true",
        "false",
        "X",
        "(true && false)",
        "(X || (true && Y))",
        "<tau>[a_1]true",
        "mu X. nu Y. (X || <b>Y)",
    ] {
        let f = text.parse::<Formula>().unwrap();
        assert_eq!(f.to_string(), text);
        assert_eq!(f.to_string().parse::<Formula>(), Ok(f));
    }
    let f = " ( mu  Z .Z&&[x9_]  true ) ".parse::<Formula>().unwrap();
    assert_eq!(f.to_string(), "(mu Z. Z && [x9_]true)");
}

#[test]
fn binding_is_tested() {
    let check = |text: &str| {
        let f = text.parse::<Formula>().unwrap();
        (f.is_closed(), f.is_scoped(), f.has_distinct_binders())
    };
    assert_eq!(check("true"), (true, true, true));
    assert_eq!(check("X"), (false, true, true));
    assert_eq!(check("mu X. X"), (true, true, true));
    assert_eq!(check("mu X. (X || Y)"), (false, true, true));
    assert_eq!(check("mu X. nu X. X"), (true, false, false));
    assert_eq!(check("(mu X. X && nu X. X)"), (true, true, false));
    assert_eq!(check("(mu X. X && X)"), (false, false, true));
    assert_eq!(check("nu Y. (mu X. (X || Y) && <a>Y)"), (true, true, true));
    assert_eq!(check("nu Y. (mu X. X && <a>mu X. (X || Y))"), (true, true, false));
}

#[test]
fn nesting_is_bounded() {
    let f = "mu X. (nu Y. Y || mu Z. nu W. (W && Z))".parse::<Formula>().unwrap();
    assert!(f.depth_within(3));
    assert!(f.depth_within(65535));
    assert!(!f.depth_within(2));
    assert!(!f.depth_within(0));
    assert!(Formula::True.depth_within(0));
}

#[test]
fn broken_formulas_say_where() {
    assert_eq!("tru".parse::<Formula>(), Err("expected a formula at offset 0".to_string()));
    assert_eq!(
        "(true && )".parse::<Formula>(),
        Err("expected a formula at offset 9".to_string())
    );
    assert_eq!(
        "true false".parse::<Formula>(),
        Err("expected the end of the formula at offset 5".to_string())
    );
    assert_eq!(
        "mu X. nu Y. (X || <a bc>Y)".parse::<Formula>(),
        Err("expected a formula at offset 20".to_string())
    );
}

#[test]
fn a_broken_formula_is_an_error_of_its_kind() {
    let r = "mu X".parse::<Formula>().map_err(MyuError::McfParseError);
    assert_eq!(r, Err(MyuError::McfParseError("expected a formula at offset 4".to_string())));
    assert_ne!(
        MyuError::McfParseError("x".to_string()),
        MyuError::LtsParseError("x".to_string())
    );
}
