use ruler_bv::bv::BV;
use ruler_bv::lang::{CVec, Math};
use ruler_bv::layer::{make_layer, LayerConfig};

type BV4 = BV<4>;

fn cv(vals: &[Option<u32>]) -> CVec<4> {
    vals.iter().map(|v| v.map(BV4::new)).collect()
}

fn raw(c: &CVec<4>) -> Vec<Option<u32>> {
    c.iter().map(|v| v.map(|b| b.value())).collect()
}

fn store() -> Vec<CVec<4>> {
    vec![
        cv(&[Some(1), Some(2), None, Some(8)]),
        cv(&[Some(3), Some(15), Some(1), Some(4)]),
    ]
}

#[test]
fn eval_binary_operators() {
    let s = store();
    assert_eq!(raw(&Math::<4>::Add(0, 1).eval(4, &s)), vec![Some(4), Some(1), None, Some(12)]);
    assert_eq!(raw(&Math::<4>::Sub(0, 1).eval(4, &s)), vec![Some(14), Some(3), None, Some(4)]);
    assert_eq!(raw(&Math::<4>::Mul(0, 1).eval(4, &s)), vec![Some(3), Some(14), None, Some(0)]);
    assert_eq!(raw(&Math::<4>::Shl(0, 1).eval(4, &s)), vec![Some(8), Some(0), None, Some(0)]);
    assert_eq!(raw(&Math::<4>::Shr(0, 1).eval(4, &s)), vec![Some(0), Some(0), None, Some(0)]);
    assert_eq!(raw(&Math::<4>::Shr(1, 0).eval(4, &s)), vec![Some(1), Some(3), None, Some(0)]);
    assert_eq!(raw(&Math::<4>::And(0, 1).eval(4, &s)), vec![Some(1), Some(2), None, Some(0)]);
    assert_eq!(raw(&Math::<4>::Or(0, 1).eval(4, &s)), vec![Some(3), Some(15), None, Some(12)]);
    assert_eq!(raw(&Math::<4>::Xor(0, 1).eval(4, &s)), vec![Some(2), Some(13), None, Some(12)]);
}

#[test]
fn eval_unary_and_leaves() {
    let s = store();
    assert_eq!(raw(&Math::<4>::Neg(0).eval(4, &s)), vec![Some(15), Some(14), None, Some(8)]);
    assert_eq!(raw(&Math::<4>::Not(1).eval(4, &s)), vec![Some(12), Some(0), Some(14), Some(11)]);
    assert_eq!(raw(&Math::<4>::Num(BV4::new(7)).eval(3, &s)), vec![Some(7), Some(7), Some(7)]);
    assert!(Math::<4>::Var("a".to_string()).eval(4, &s).is_empty());
}

#[test]
fn eval_is_deterministic() {
    let s = store();
    let node = Math::<4>::Mul(1, 0);
    assert_eq!(raw(&node.eval(4, &s)), raw(&node.eval(4, &s)));
}

fn key(m: &Math<4>) -> String {
    format!("{:?}", m)
}

fn sorted(mut v: Vec<String>) -> Vec<String> {
    v.sort();
    v
}

#[test]
fn layer_of_small_catalogue() {
    let costs: Vec<usize> = vec![0, 0, 1, 1, 2];
    let cfg = LayerConfig { no_shift: false, with_xor: false };
    let got: Vec<String> = make_layer::<4>(&costs, 2, &cfg).iter().map(key).collect();
    let mut expected = vec![];
    for i in 0..5usize {
        for j in 0..5usize {
            if costs[i] + costs[j] + 1 == 2 {
                expected.push(Math::<4>::Add(i, j));
                expected.push(Math::<4>::Sub(i, j));
                expected.push(Math::<4>::Mul(i, j));
                expected.push(Math::<4>::Shl(i, j));
                expected.push(Math::<4>::Shr(i, j));
                expected.push(Math::<4>::And(i, j));
                expected.push(Math::<4>::Or(i, j));
            }
        }
        if costs[i] + 1 == 2 {
            expected.push(Math::<4>::Not(i));
            expected.push(Math::<4>::Neg(i));
        }
    }
    assert_eq!(got.len(), 60);
    assert_eq!(got.len(), expected.len());
    assert_eq!(sorted(got), sorted(expected.iter().map(key).collect()));
}

#[test]
fn layer_respects_flags() {
    let costs: Vec<usize> = vec![0, 0, 1, 1, 2];
    let plain = LayerConfig { no_shift: true, with_xor: false };
    let got = make_layer::<4>(&costs, 1, &plain);
    // pairs of cost-0 operands: (0,0) (0,1) (1,0) (1,1), five operators each; unary of 0 and 1
    assert_eq!(got.len(), 4 * 5 + 2 * 2);
    assert!(got.iter().all(|m| !matches!(m, Math::Shl(..) | Math::Shr(..) | Math::Xor(..))));
    let xor = LayerConfig { no_shift: true, with_xor: true };
    let got = make_layer::<4>(&costs, 1, &xor);
    assert_eq!(got.len(), 4 * 6 + 2 * 2);
    assert_eq!(got.iter().filter(|m| matches!(m, Math::Xor(..))).count(), 4);
    assert!(make_layer::<4>(&costs, 0, &xor).is_empty());
    assert_eq!(make_layer::<4>(&costs, 3, &xor).iter().filter(|m| matches!(m, Math::Sub(0, 4))).count(), 1);
}

#[test]
fn leaf_accessors() {
    assert_eq!(Math::<4>::Num(BV4::new(5)).to_constant(), Some(BV4::new(5)));
    assert_eq!(Math::<4>::Add(0, 1).to_constant(), None);
    assert_eq!(Math::<4>::Var("b".to_string()).to_var(), Some("b".to_string()));
    assert_eq!(Math::<4>::Neg(0).to_var(), None);
}

#[test]
fn layer_sizes_of_small_catalogue() {
    let costs: Vec<usize> = vec![0, 0, 1, 1, 2];
    let shifts = LayerConfig { no_shift: false, with_xor: false };
    let plain = LayerConfig { no_shift: true, with_xor: false };
    assert_eq!(make_layer::<4>(&costs, 1, &shifts).len(), 32);
    assert_eq!(make_layer::<4>(&costs, 2, &shifts).len(), 60);
    assert_eq!(make_layer::<4>(&costs, 3, &shifts).len(), 58);
    assert_eq!(make_layer::<4>(&costs, 2, &plain).len(), 44);
    assert!(make_layer::<4>(&costs, 3, &shifts).iter().all(|m| !matches!(m, Math::Xor(..))));
}
