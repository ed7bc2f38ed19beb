use ruler_bv::bv::BV;
use ruler_bv::equality::{Equality, RecExpr, SerializedEq};
use ruler_bv::lang::Math;
use ruler_bv::output::rule_file_lines;

fn var(s: &str) -> Math<4> {
    Math::Var(s.to_string())
}

fn commuted() -> (RecExpr<4>, RecExpr<4>) {
    (
        RecExpr { nodes: vec![var("x"), var("y"), Math::Add(0, 1)] },
        RecExpr { nodes: vec![var("y"), var("x"), Math::Add(0, 1)] },
    )
}

#[test]
fn new_names_variables_by_first_occurrence() {
    let (e1, e2) = commuted();
    let eq = Equality::new(&e1, &e2).unwrap();
    assert_eq!(eq.name, "(+ ?a ?b) ==> (+ ?b ?a)");
    let chars: String = eq.lhs.to_chars().into_iter().collect();
    assert_eq!(chars, "(+ ?a ?b)");
}

#[test]
fn new_prints_literals_and_all_operators() {
    let e1 = RecExpr {
        nodes: vec![
            var("z"),
            Math::Num(BV::new(7)),
            Math::Sub(0, 1),
            Math::Neg(2),
            Math::Shl(3, 0),
            Math::Not(4),
        ],
    };
    let e2 = RecExpr { nodes: vec![var("z"), Math::Num(BV::new(12)), Math::Xor(0, 1)] };
    let eq = Equality::new(&e1, &e2).unwrap();
    assert_eq!(eq.name, "(~ (<< (- (-- ?a 7)) ?a)) ==> (^ ?a 12)");
}

#[test]
fn new_rejects_unbound_right_variable() {
    let e1 = RecExpr { nodes: vec![var("x")] };
    let e2 = RecExpr { nodes: vec![var("y")] };
    assert!(Equality::new(&e1, &e2).is_none());
    let e3 = RecExpr { nodes: vec![var("x"), var("y"), Math::Mul(0, 1)] };
    assert!(Equality::new(&e3, &e1).is_some());
}

#[test]
fn new_rejects_too_many_names() {
    let mut nodes = vec![];
    for i in 0..27 {
        nodes.push(var(&format!("v{}", i)));
        if i > 0 {
            let last = nodes.len() - 1;
            nodes.push(Math::And(last - 1, last));
        }
    }
    let e = RecExpr { nodes };
    assert!(Equality::new(&e, &e).is_none());
}

#[test]
fn generalizing_twice_is_identical() {
    let (e1, e2) = commuted();
    let a = Equality::new(&e1, &e2).unwrap();
    let b = Equality::new(&e1, &e2).unwrap();
    assert_eq!(a.name, b.name);
    assert_eq!(format!("{:?}", a.lhs.nodes), format!("{:?}", b.lhs.nodes));
    assert_eq!(format!("{:?}", a.rhs.nodes), format!("{:?}", b.rhs.nodes));
}

#[test]
fn serialized_round_trip_keeps_name() {
    let e1 = RecExpr { nodes: vec![var("p"), Math::Num(BV::new(8)), Math::Shr(0, 1)] };
    let e2 = RecExpr { nodes: vec![var("p"), Math::Neg(0)] };
    let eq = Equality::new(&e1, &e2).unwrap();
    let ser = eq.to_serialized();
    assert_eq!(ser.lhs, "(>> ?a 8)");
    assert_eq!(ser.rhs, "(- ?a)");
    let back = Equality::<4>::from_serialized_eq(ser).unwrap();
    assert_eq!(back.name, eq.name);
}

#[test]
fn parse_line_splits_at_first_arrow() {
    let eq = Equality::<4>::parse_line("  (+ ?a ?b) => (+ ?b ?a) ").unwrap().unwrap();
    assert_eq!(eq.name, "(+ ?a ?b) ==> (+ ?b ?a)");
    let err = Equality::<4>::parse_line("(+ ?a ?b)").err().unwrap();
    assert_eq!(err, "Failed to split (+ ?a ?b)");
    assert!(Equality::<4>::parse_line("(+ ?a ?b)=>(+ ?a ?c)").unwrap().is_none());
    assert!(Equality::<4>::parse_line("(+ ?a=>?a").unwrap().is_none());
    assert!(Equality::<4>::parse_line("(% ?a ?b)=>?a").unwrap().is_none());
}

#[test]
fn parse_line_trims_each_side() {
    let a = Equality::<4>::parse_line("(* ?a 3)=>(* 3 ?a)").unwrap().unwrap();
    let b = Equality::<4>::parse_line("   (* ?a 3)  =>   (* 3 ?a)  ").unwrap().unwrap();
    assert_eq!(a.name, b.name);
    assert_eq!(a.name, "(* ?a 3) ==> (* 3 ?a)");
}

#[test]
fn from_serialized_eq_with_variable_names() {
    let ser = SerializedEq { lhs: " (+ x ?a) ".to_string(), rhs: "(+ ?a x)".to_string() };
    let eq = Equality::<4>::from_serialized_eq(ser).unwrap();
    assert_eq!(eq.name, "(+ x ?a) ==> (+ ?a x)");
}

#[test]
fn line_round_trip_keeps_name() {
    let (e1, e2) = commuted();
    let eq = Equality::new(&e1, &e2).unwrap();
    let ser = eq.to_serialized();
    let line = format!("{}=>{}", ser.lhs, ser.rhs);
    let back = Equality::<4>::parse_line(&line).unwrap().unwrap();
    assert_eq!(back.name, eq.name);
}

#[test]
fn serialized_eq_parse() {
    let ser = SerializedEq::parse("a=>b=>c").unwrap();
    assert_eq!(ser.lhs, "a");
    assert_eq!(ser.rhs, "b=>c");
    assert!(SerializedEq::parse("a=b").is_err());
}

#[test]
fn rule_file_lines_one_direction() {
    let lines = rule_file_lines("(-- ?a ?b) ==> (+ ?a (- ?b))").unwrap();
    assert_eq!(lines, vec!["(- ?a ?b)".to_string(), "(+ ?a (- ?b))".to_string()]);
}

#[test]
fn rule_file_lines_both_directions() {
    let lines = rule_file_lines("(* ?a ?b) <=> (* ?b ?a)").unwrap();
    assert_eq!(
        lines,
        vec![
            "(* ?a ?b)".to_string(),
            "(* ?b ?a)".to_string(),
            "(* ?b ?a)".to_string(),
            "(* ?a ?b)".to_string()
        ]
    );
    assert!(rule_file_lines("no arrow here").is_none());
}

fn pattern_text(s: &str) -> Option<String> {
    let chars: Vec<char> = s.chars().collect();
    ruler_bv::equality::Pattern::<8>::parse(&chars).map(|p| p.to_chars().into_iter().collect())
}

#[test]
fn pattern_parse_reads_back_printed_text() {
    for text in [
        "?a",
        "0",
        "255",
        "(- ?b)",
        "(~ (+ ?a 1))",
        "(-- (<< ?a ?b) (>> ?c 7))",
        "(& (| ?a ?b) (^ ?a (* ?c 128)))",
    ] {
        assert_eq!(pattern_text(text).as_deref(), Some(text));
    }
    assert_eq!(pattern_text("  (+ ?a ?b)\n").as_deref(), Some("(+ ?a ?b)"));
    assert_eq!(pattern_text("(+ x 3)").as_deref(), Some("(+ x 3)"));
}

#[test]
fn pattern_parse_rejects_malformed_text() {
    for text in ["", "(+ ?a)", "(- ?a ?b)", "(+ ?a ?b", "?A", "(+ ?a ?b) ?c", "(% ?a ?b)"] {
        assert!(pattern_text(text).is_none(), "{text}");
    }
}

#[test]
fn pattern_parse_reads_numerals_and_spacing_as_printed() {
    assert_eq!(pattern_text("256").as_deref(), Some("0"));
    assert_eq!(pattern_text("300").as_deref(), Some("44"));
    assert_eq!(pattern_text("007").as_deref(), Some("7"));
    assert_eq!(pattern_text("+5").as_deref(), Some("5"));
    assert_eq!(pattern_text("(+  ?a ?b)").as_deref(), Some("(+ ?a ?b)"));
    assert_eq!(pattern_text("(&\t?a\n   (<< ?b 009))").as_deref(), Some("(& ?a (<< ?b 9))"));
    assert_eq!(pattern_text("(+ x99 4294967296)").as_deref(), Some("(+ x99 4294967296)"));
}

#[test]
fn lines_differing_in_outer_whitespace_agree() {
    let a = Equality::<4>::parse_line("(+ x ?a)=>(+ ?a x)").unwrap().unwrap();
    let b = Equality::<4>::parse_line("  (+  x   ?a) \t=>\n (+ ?a x)  ").unwrap().unwrap();
    assert_eq!(a.name, b.name);
    assert_eq!(a.name, "(+ x ?a) ==> (+ ?a x)");
}

#[test]
fn unicode_whitespace_is_trimmed() {
    let lines = rule_file_lines("\u{a0}(-- ?a ?b)\u{2003}==>\u{3000}?a\u{85}").unwrap();
    assert_eq!(lines, vec!["(- ?a ?b)".to_string(), "?a".to_string()]);
    let eq = Equality::<4>::parse_line("\u{2028}(+ ?a 1)\u{a0}=>(+ 1 ?a)").unwrap().unwrap();
    assert_eq!(eq.name, "(+ ?a 1) ==> (+ 1 ?a)");
}
