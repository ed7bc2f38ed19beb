use ruler_bv::lang::Math;
use ruler_bv::syntax::{convert_parse, normalize, replaced};

fn text(v: Vec<char>) -> String {
    v.into_iter().collect()
}

#[test]
fn normalize_verbose_operators() {
    assert_eq!(text(normalize("(bvadd a (bvneg b))")), "(+ a (- b))");
    assert_eq!(text(normalize("(bvsub (bvlshr a #b0111) (bvshl b #b1000))")), "(-- (>> a 7) (<< b 8))");
    assert_eq!(text(normalize("(xor (and a b) (or a (not #b0000)))")), "(^ (& a b) (| a (~ 0)))");
    assert_eq!(text(normalize("(bvor (bvnot a) (bvmul a b))")), "(| (~ a) (* a b))");
    assert_eq!(text(normalize("#b0101")), "#b0101");
}

#[test]
fn replaced_reads_left_to_right() {
    let s: Vec<char> = "a---b".chars().collect();
    let from: Vec<char> = "--".chars().collect();
    let to: Vec<char> = "-".chars().collect();
    assert_eq!(text(replaced(&s, &from, &to)), "a--b");
    assert_eq!(text(replaced(&s, &Vec::new(), &to)), "a---b");
}

#[test]
fn convert_parse_builds_terms() {
    let e = convert_parse::<4>("(bvadd a (bvneg #b0111))").unwrap();
    assert_eq!(e.nodes.len(), 4);
    assert!(matches!(e.nodes[0], Math::Var(ref s) if s == "a"));
    assert!(matches!(e.nodes[1], Math::Num(n) if n.value() == 7));
    assert!(matches!(e.nodes[2], Math::Neg(1)));
    assert!(matches!(e.nodes[3], Math::Add(0, 2)));
    let f = convert_parse::<4>("(& x 15)").unwrap();
    assert!(matches!(f.nodes[2], Math::And(0, 1)));
}

#[test]
fn convert_parse_rejects_leftover_markers_and_bad_text() {
    assert!(convert_parse::<4>("(bvadd a #b0101)").is_none());
    assert!(convert_parse::<4>("(bvadd a)").is_none());
}

#[test]
fn convert_parse_reads_placeholder_spelling_as_variable() {
    let e = convert_parse::<4>("(+ ?a b)").unwrap();
    assert!(matches!(e.nodes[0], Math::Var(ref s) if s == "?a"));
    assert!(matches!(e.nodes[1], Math::Var(ref s) if s == "b"));
    let m = convert_parse::<4>("(bvadd a\n    17)").unwrap();
    assert!(matches!(m.nodes[1], Math::Num(n) if n.value() == 1));
}
