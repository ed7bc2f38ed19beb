use crate::lang::{Id, Math};
use vstd::prelude::*;
use vstd::seq_lib::{lemma_no_dup_in_concat, lemma_seq_concat_contains_all_elements};

verus! {

/// Which operators a layer is built from: shifts can be left out, and `Xor`, which the
/// term language evaluates, is only generated when asked for.
pub struct LayerConfig {
    pub no_shift: bool,
    pub with_xor: bool,
}

/// Whether a layer under `cfg` holds the binary operator `m` at all.
pub open spec fn binary_enabled<const N: u32>(m: Math<N>, cfg: LayerConfig) -> bool {
    match m {
        Math::Add(_, _) | Math::Sub(_, _) | Math::Mul(_, _) | Math::And(_, _) | Math::Or(
            _,
            _,
        ) => true,
        Math::Shl(_, _) | Math::Shr(_, _) => !cfg.no_shift,
        Math::Xor(_, _) => cfg.with_xor,
        _ => false,
    }
}

/// `m` is a node of cost exactly `k` over the catalogue: one new operator above operands
/// whose costs, plus one, sum to `k`.
pub open spec fn in_layer<const N: u32>(
    m: Math<N>,
    costs: Seq<usize>,
    k: int,
    cfg: LayerConfig,
) -> bool {
    ||| m.is_binary() && binary_enabled(m, cfg) && m.left() < costs.len() && m.right()
        < costs.len() && costs[m.left() as int] + costs[m.right() as int] + 1 == k
    ||| m.is_unary() && m.left() < costs.len() && costs[m.left() as int] + 1 == k
}

/// The binary nodes over the ordered pair `(i, j)`, in the order they are emitted.
pub open spec fn pair_shapes<const N: u32>(i: Id, j: Id, cfg: LayerConfig) -> Seq<Math<N>> {
    seq![Math::Add(i, j), Math::Sub(i, j), Math::Mul(i, j)] + (if cfg.no_shift {
        Seq::empty()
    } else {
        seq![Math::Shl(i, j), Math::Shr(i, j)]
    }) + seq![Math::And(i, j), Math::Or(i, j)] + (if cfg.with_xor {
        seq![Math::Xor(i, j)]
    } else {
        Seq::empty()
    })
}

proof fn lemma_pair_shapes<const N: u32>(i: Id, j: Id, cfg: LayerConfig)
    ensures
        pair_shapes::<N>(i, j, cfg).no_duplicates(),
        forall|m: Math<N>|
            #[trigger] pair_shapes::<N>(i, j, cfg).contains(m) <==> (m.is_binary()
                && binary_enabled(m, cfg) && m.left() == i && m.right() == j),
{
    let s = pair_shapes::<N>(i, j, cfg);
    assert forall|m: Math<N>|
        (m.is_binary() && binary_enabled(m, cfg) && m.left() == i && m.right() == j) implies #[trigger] s.contains(m) by {
        let k: int = match m {
            Math::Add(_, _) => 0,
            Math::Sub(_, _) => 1,
            Math::Mul(_, _) => 2,
            Math::Shl(_, _) => 3,
            Math::Shr(_, _) => 4,
            Math::And(_, _) => if cfg.no_shift { 3 } else { 5 },
            Math::Or(_, _) => if cfg.no_shift { 4 } else { 6 },
            _ => if cfg.no_shift { 5 } else { 7 },
        };
        assert(s[k] == m);
    }
}

fn push_pair<const N: u32>(r: &mut Vec<Math<N>>, i: Id, j: Id, cfg: &LayerConfig)
    ensures
        final(r)@ == old(r)@ + pair_shapes::<N>(i, j, *cfg),
{
    let mut v: Vec<Math<N>> = Vec::new();
    v.push(Math::Add(i, j));
    v.push(Math::Sub(i, j));
    v.push(Math::Mul(i, j));
    if !cfg.no_shift {
        v.push(Math::Shl(i, j));
        v.push(Math::Shr(i, j));
    }
    v.push(Math::And(i, j));
    v.push(Math::Or(i, j));
    if cfg.with_xor {
        v.push(Math::Xor(i, j));
    }
    assert(v@ =~= pair_shapes::<N>(i, j, *cfg));
    r.append(&mut v);
}

/// `m` is among the shapes that the double loop has passed by the pair `(i, j)`.
pub open spec fn passed<const N: u32>(m: Math<N>, i: int, j: int) -> bool {
    m.left() < i || (m.left() == i && m.is_binary() && m.right() < j)
}

/// Every node of cost exactly `iter` built from the catalogue `costs` (one cost per handle
/// `0..costs.len()`) with one more operator: binary nodes over every ordered pair, then
/// unary ones. Each such node comes exactly once, and nothing else comes.
pub fn make_layer<const N: u32>(costs: &Vec<usize>, iter: usize, cfg: &LayerConfig) -> (r: Vec<
    Math<N>,
>)
    ensures
        forall|k: int| 0 <= k < r@.len() ==> in_layer(#[trigger] r@[k], costs@, iter as int, *cfg),
        forall|m: Math<N>| in_layer(m, costs@, iter as int, *cfg) ==> #[trigger] r@.contains(m),
        r@.no_duplicates(),
{
    let n = costs.len();
    let mut r: Vec<Math<N>> = Vec::new();
    let mut i: usize = 0;
    while i < n
        invariant
            n == costs@.len(),
            i <= n,
            forall|k: int|
                0 <= k < r@.len() ==> in_layer(#[trigger] r@[k], costs@, iter as int, *cfg)
                    && passed(r@[k], i as int, 0),
            forall|m: Math<N>|
                in_layer(m, costs@, iter as int, *cfg) && passed(m, i as int, 0)
                    ==> #[trigger] r@.contains(m),
            r@.no_duplicates(),
        decreases n - i,
    {
        let mut j: usize = 0;
        while j < n
            invariant
                n == costs@.len(),
                i < n,
                j <= n,
                forall|k: int|
                    0 <= k < r@.len() ==> in_layer(#[trigger] r@[k], costs@, iter as int, *cfg)
                        && passed(r@[k], i as int, j as int),
                forall|m: Math<N>|
                    in_layer(m, costs@, iter as int, *cfg) && passed(m, i as int, j as int)
                        ==> #[trigger] r@.contains(m),
                r@.no_duplicates(),
            decreases n - j,
        {
            if costs[i] < iter && iter - 1 - costs[i] == costs[j] {
                let ghost old_r = r@;
                push_pair(&mut r, i, j, cfg);
                proof {
                    let s = pair_shapes::<N>(i, j, *cfg);
                    lemma_pair_shapes::<N>(i, j, *cfg);
                    assert forall|a: int, b: int| 0 <= a < old_r.len() && 0 <= b < s.len() implies old_r[a] != s[b] by {
                        assert(s.contains(s[b]));
                        assert(passed(old_r[a], i as int, j as int));
                    }
                    lemma_no_dup_in_concat(old_r, s);
                    assert forall|k: int| 0 <= k < r@.len() implies in_layer(#[trigger] r@[k], costs@, iter as int, *cfg)
                        && passed(r@[k], i as int, j + 1) by {
                        if k >= old_r.len() {
                            assert(s.contains(s[k - old_r.len()]));
                        }
                    }
                    assert forall|m: Math<N>|
                        in_layer(m, costs@, iter as int, *cfg) && passed(m, i as int, j + 1) implies #[trigger] r@.contains(m) by {
                        lemma_seq_concat_contains_all_elements(old_r, s, m);
                        if !passed(m, i as int, j as int) {
                            assert(s.contains(m));
                        }
                    }
                }
            } else {
                proof {
                    assert forall|m: Math<N>|
                        in_layer(m, costs@, iter as int, *cfg) && passed(m, i as int, j + 1) implies #[trigger] r@.contains(m) by {
                        if !passed(m, i as int, j as int) {
                            assert(m.is_binary() && m.right() == j);
                        }
                    }
                }
            }
            j = j + 1;
        }
        if costs[i] < iter && costs[i] == iter - 1 {
            let ghost old_r = r@;
            r.push(Math::Not(i));
            r.push(Math::Neg(i));
            proof {
                let s = seq![Math::<N>::Not(i), Math::<N>::Neg(i)];
                assert(r@ =~= old_r + s);
                assert forall|a: int, b: int| 0 <= a < old_r.len() && 0 <= b < s.len() implies old_r[a] != s[b] by {
                    assert(passed(old_r[a], i as int, n as int));
                }
                lemma_no_dup_in_concat(old_r, s);
                assert forall|m: Math<N>|
                    in_layer(m, costs@, iter as int, *cfg) && passed(m, i + 1, 0) implies #[trigger] r@.contains(m) by {
                    lemma_seq_concat_contains_all_elements(old_r, s, m);
                    if !passed(m, i as int, n as int) {
                        if m is Not {
                            assert(s[0] == m);
                        } else {
                            assert(s[1] == m);
                        }
                    }
                }
            }
        } else {
            proof {
                assert forall|m: Math<N>|
                    in_layer(m, costs@, iter as int, *cfg) && passed(m, i + 1, 0) implies #[trigger] r@.contains(m) by {
                    if !passed(m, i as int, n as int) {
                        assert(m.is_unary());
                    }
                }
            }
        }
        i = i + 1;
    }
    r
}

} // verus!
