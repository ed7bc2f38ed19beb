use crate::bv::{decimal, BV};
use crate::equality::{
    first_seen, term_vars, RecExpr, chars_to_string, generalizes, holes_bound, holes_of, pair_names, pat_text, pattern_text,
    push_all, rule_name, string_chars, Equality, PatNode, Pattern, SerializedEq, MAX_PLACEHOLDERS,
};
use crate::lang::{Id, Math};
use crate::lexer::{canon, canonical, lemma_canon_trims};
use vstd::prelude::*;

verus! {

/// Whitespace as `char::is_whitespace` has it: the characters of Unicode's `White_Space`.
pub open spec fn is_space(c: char) -> bool {
    ||| '\u{9}' <= c <= '\u{d}'
    ||| c == ' '
    ||| c == '\u{85}'
    ||| c == '\u{a0}'
    ||| c == '\u{1680}'
    ||| '\u{2000}' <= c <= '\u{200a}'
    ||| c == '\u{2028}'
    ||| c == '\u{2029}'
    ||| c == '\u{202f}'
    ||| c == '\u{205f}'
    ||| c == '\u{3000}'
}

/// Whether `c` is whitespace.
pub fn space_char(c: char) -> (r: bool)
    ensures
        r == is_space(c),
{
    ('\u{9}' <= c && c <= '\u{d}') || c == ' ' || c == '\u{85}' || c == '\u{a0}' || c == '\u{1680}'
        || ('\u{2000}' <= c && c <= '\u{200a}') || c == '\u{2028}' || c == '\u{2029}' || c == '\u{202f}'
        || c == '\u{205f}' || c == '\u{3000}'
}

pub open spec fn is_delimiter(c: char) -> bool {
    is_space(c) || c == '(' || c == ')'
}

/// `t` is `s` with whitespace removed from both ends (some of it, at least).
pub open spec fn trims_to(s: Seq<char>, t: Seq<char>) -> bool {
    exists|i: int, j: int|
        0 <= i <= j <= s.len() && s.subrange(i, j) == t && (forall|k: int|
            0 <= k < i ==> is_space(#[trigger] s[k])) && (forall|k: int|
            j <= k < s.len() ==> is_space(#[trigger] s[k]))
}

/// Every node of `p` is well placed: operands point to earlier nodes, placeholders are in range.
pub open spec fn nodes_ok<const N: u32>(p: Seq<PatNode<N>>) -> bool {
    forall|k: int|
        0 <= k < p.len() ==> match #[trigger] p[k] {
            PatNode::Node(m) => m.children_below(k) && (m is Num ==> m->Num_0.wf()),
            PatNode::Hole(h) => h < MAX_PLACEHOLDERS,
        }
}

/// The text of a node depends only on the nodes up to it.
proof fn lemma_pat_text_prefix<const N: u32>(p: Seq<PatNode<N>>, q: Seq<PatNode<N>>, i: int)
    requires
        p.is_prefix_of(q),
        0 <= i < p.len(),
        nodes_ok(p),
    ensures
        pat_text(p, i) == pat_text(q, i),
    decreases i,
{
    assert(p[i] == q[i]);
    if let PatNode::Node(m) = p[i] {
        if m.is_unary() || m.is_binary() {
            lemma_pat_text_prefix(p, q, m.left() as int);
        }
        if m.is_binary() {
            lemma_pat_text_prefix(p, q, m.right() as int);
        }
    }
}

/// Operators with one symbol take the same number of operands.
#[verifier::spinoff_prover]
proof fn lemma_symbol_arity<const N: u32>(m1: Math<N>, m2: Math<N>)
    requires
        m1.is_unary() || m1.is_binary(),
        m2.is_unary() || m2.is_binary(),
        crate::equality::op_symbol(m1) == crate::equality::op_symbol(m2),
    ensures
        m1.is_unary() == m2.is_unary(),
{
    let s1 = crate::equality::op_symbol(m1);
    let s2 = crate::equality::op_symbol(m2);
    assert(s1.len() == s2.len());
    assert(s1[0] == s2[0]);
    if s1.len() > 1 {
        assert(s1[1] == s2[1]);
    }
}

/// The end of the token that starts at `pos`: the first delimiter at or after it.
fn token_end(s: &Vec<char>, pos: usize) -> (e: usize)
    requires
        pos <= s@.len(),
    ensures
        pos <= e <= s@.len(),
        forall|k: int| pos <= k < e ==> !is_delimiter(#[trigger] s@[k]),
        e < s@.len() ==> is_delimiter(s@[e as int]),
{
    let mut e = pos;
    while e < s.len()
        invariant
            pos <= e <= s@.len(),
            forall|k: int| pos <= k < e ==> !is_delimiter(#[trigger] s@[k]),
        decreases s@.len() - e,
    {
        let c = s[e];
        if space_char(c) || c == '(' || c == ')' {
            return e;
        }
        e = e + 1;
    }
    e
}

/// Whether `s[from..to]` is `t`.
pub(crate) fn slice_eq(s: &Vec<char>, from: usize, to: usize, t: &Vec<char>) -> (r: bool)
    requires
        from <= to <= s@.len(),
    ensures
        r == (s@.subrange(from as int, to as int) == t@),
{
    if to - from != t.len() {
        return false;
    }
    let mut k: usize = 0;
    while k < t.len()
        invariant
            to - from == t@.len(),
            from <= to <= s@.len(),
            k <= t@.len(),
            forall|q: int| 0 <= q < k ==> s@[from + q] == t@[q],
        decreases t@.len() - k,
    {
        if s[from + k] != t[k] {
            assert(s@.subrange(from as int, to as int)[k as int] != t@[k as int]);
            return false;
        }
        k = k + 1;
    }
    assert(s@.subrange(from as int, to as int) =~= t@);
    true
}

fn slice_chars(s: &Vec<char>, from: usize, to: usize) -> (r: Vec<char>)
    requires
        from <= to <= s@.len(),
    ensures
        r@ == s@.subrange(from as int, to as int),
{
    let mut r: Vec<char> = Vec::new();
    let mut k = from;
    while k < to
        invariant
            from <= k <= to,
            to <= s@.len(),
            r@ == s@.subrange(from as int, k as int),
        decreases to - k,
    {
        r.push(s[k]);
        k = k + 1;
        assert(r@ =~= s@.subrange(from as int, k as int));
    }
    r
}

/// The operator whose symbol is `s[from..to]`, with operands `a` and `b` (`b` unused by
/// unary ones).
fn op_from_token<const N: u32>(s: &Vec<char>, from: usize, to: usize, a: Id, b: Id) -> (r: Option<Math<N>>)
    requires
        from <= to <= s@.len(),
    ensures
        r is Some ==> {
            let m = r->Some_0;
            &&& m.is_unary() || m.is_binary()
            &&& m.left() == a
            &&& m.is_binary() ==> m.right() == b
            &&& crate::equality::op_symbol(m) == s@.subrange(from as int, to as int)
        },
        forall|m: Math<N>|
            (m.is_unary() || m.is_binary()) && #[trigger] crate::equality::op_symbol(m)
                == s@.subrange(from as int, to as int) ==> r is Some,
{
    let cands: Vec<Math<N>> = vec![
        Math::Add(a, b),
        Math::Sub(a, b),
        Math::Mul(a, b),
        Math::Neg(a),
        Math::Not(a),
        Math::Shl(a, b),
        Math::Shr(a, b),
        Math::And(a, b),
        Math::Or(a, b),
        Math::Xor(a, b),
    ];
    let mut k: usize = 0;
    while k < cands.len()
        invariant
            from <= to <= s@.len(),
            forall|q: int| 0 <= q < cands@.len() ==> {
                let m = #[trigger] cands@[q];
                &&& m.is_unary() || m.is_binary()
                &&& m.left() == a
                &&& m.is_binary() ==> m.right() == b
            },
            cands@.len() == 10,
            cands@[0] is Add && cands@[1] is Sub && cands@[2] is Mul && cands@[3] is Neg
                && cands@[4] is Not && cands@[5] is Shl && cands@[6] is Shr && cands@[7] is And
                && cands@[8] is Or && cands@[9] is Xor,
            k <= cands@.len(),
            forall|q: int|
                0 <= q < k ==> crate::equality::op_symbol(#[trigger] cands@[q]) != s@.subrange(
                    from as int,
                    to as int,
                ),
        decreases cands@.len() - k,
    {
        let m = &cands[k];
        if slice_eq(s, from, to, &crate::equality::op_chars(m)) {
            return Some(crate::equality::copy_node(m));
        }
        k = k + 1;
    }
    proof {
        assert forall|m: Math<N>|
            (m.is_unary() || m.is_binary()) implies #[trigger] crate::equality::op_symbol(m)
                != s@.subrange(from as int, to as int) by {
            let q: int = match m {
                Math::Add(_, _) => 0,
                Math::Sub(_, _) => 1,
                Math::Mul(_, _) => 2,
                Math::Neg(_) => 3,
                Math::Not(_) => 4,
                Math::Shl(_, _) => 5,
                Math::Shr(_, _) => 6,
                Math::And(_, _) => 7,
                Math::Or(_, _) => 8,
                _ => 9,
            };
            assert(crate::equality::op_symbol(cands@[q]) == crate::equality::op_symbol(m));
        }
    }
    None
}

/// The number that a string of decimal digits denotes.
pub open spec fn digits_value(t: Seq<char>) -> nat
    decreases t.len(),
{
    if t.len() == 0 {
        0
    } else {
        digits_value(t.drop_last()) * 10 + ((t.last() as u32) - 48) as nat
    }
}

pub open spec fn is_digit(c: char) -> bool {
    '0' <= c && c <= '9'
}

/// The decimal text of `n` is made of digits and denotes `n`.
pub(crate) proof fn lemma_decimal_digits(n: nat)
    ensures
        digits_value(decimal(n)) == n,
        forall|k: int| 0 <= k < decimal(n).len() ==> is_digit(#[trigger] decimal(n)[k]),
    decreases n,
{
    let d = n % 10;
    let t = decimal(n);
    assert((crate::bv::digit_char(d) as u32) == d + 48);
    assert(t.last() == crate::bv::digit_char(d));
    assert(digits_value(t) == digits_value(t.drop_last()) * 10 + d);
    if n >= 10 {
        lemma_decimal_digits(n / 10);
        assert(decimal(n).drop_last() =~= decimal(n / 10));
        assert(forall|k: int| 0 <= k < decimal(n / 10).len() ==> decimal(n)[k] == decimal(n / 10)[k]);
        assert(decimal(n).last() == crate::bv::digit_char(d));
        assert((n / 10) * 10 + d == n) by (nonlinear_arith)
            requires
                d == n % 10,
        ;
    } else {
        assert(decimal(n).drop_last() =~= Seq::<char>::empty());
        assert(d == n);
    }
}

/// A prefix of a digit string denotes no more than the whole.
proof fn lemma_digits_prefix(t: Seq<char>, k: int)
    requires
        0 <= k <= t.len(),
        forall|q: int| 0 <= q < t.len() ==> is_digit(#[trigger] t[q]),
    ensures
        digits_value(t.take(k)) <= digits_value(t),
    decreases t.len() - k,
{
    if k < t.len() {
        lemma_digits_prefix(t, k + 1);
        assert(t.take(k + 1).drop_last() =~= t.take(k));
    } else {
        assert(t.take(k) =~= t);
    }
}

/// Reads a decimal numeral as a word of `N` bits, if it names one in canonical form; the
/// text of a word of `N` bits always reads back as that word.
fn num_from_token<const N: u32>(
    s: &Vec<char>,
    from: usize,
    to: usize,
    target: Ghost<Option<nat>>,
) -> (r: Option<BV<N>>)
    requires
        from <= to <= s@.len(),
        BV::<N>::width_ok(),
        target@ is Some ==> target@->Some_0 < crate::bv::modulus(N) && s@.subrange(
            from as int,
            to as int,
        ) == decimal(target@->Some_0),
    ensures
        r is Some ==> r->Some_0.wf() && decimal(r->Some_0@ as nat) == s@.subrange(
            from as int,
            to as int,
        ),
        target@ is Some ==> r is Some,
{
    let ghost t = s@.subrange(from as int, to as int);
    proof {
        if let Some(n) = target@ {
            lemma_decimal_digits(n);
            crate::bv::lemma_modulus_bounds(N);
        }
    }
    if from == to {
        return None;
    }
    let mut v: u64 = 0;
    let mut k = from;
    while k < to
        invariant
            from <= k <= to <= s@.len(),
            t == s@.subrange(from as int, to as int),
            v <= 0xffff_ffff,
            v == digits_value(t.take(k - from)),
            target@ is Some ==> digits_value(t) == target@->Some_0 && target@->Some_0 <= 0xffff_ffff
                && forall|q: int| 0 <= q < t.len() ==> is_digit(#[trigger] t[q]),
        decreases to - k,
    {
        let c = s[k];
        assert(t[k - from] == c);
        if !('0' <= c && c <= '9') {
            return None;
        }
        proof {
            assert(t.take(k - from + 1).drop_last() =~= t.take(k - from));
            if target@ is Some {
                lemma_digits_prefix(t, k - from + 1);
            }
        }
        v = v * 10 + (c as u64 - '0' as u64);
        if v > 0xffff_ffff {
            return None;
        }
        k = k + 1;
    }
    assert(t.take(to - from) =~= t);
    let b = BV::<N>::new(v as u32);
    proof {
        if target@ is Some {
            vstd::arithmetic::div_mod::lemma_small_mod(v as nat, crate::bv::modulus(N) as nat);
        }
    }
    if b.value() as u64 == v && slice_eq(s, from, to, &b.to_chars()) {
        Some(b)
    } else {
        None
    }
}

proof fn lemma_holes_push<const N: u32>(p: Seq<PatNode<N>>, x: PatNode<N>)
    ensures
        holes_of(p.push(x)) == holes_of(p).union(
            match x {
                PatNode::Hole(h) => set![h],
                _ => Set::<usize>::empty(),
            },
        ),
{
    let q = p.push(x);
    assert forall|h: usize| holes_of(q).contains(h) <==> holes_of(p).contains(h) || x == PatNode::<N>::Hole(h) by {
        if holes_of(p).contains(h) {
            let k = choose|k: int| 0 <= k < p.len() && p[k] == PatNode::<N>::Hole(h);
            assert(q[k] == p[k]);
        }
        if holes_of(q).contains(h) {
            let k = choose|k: int| 0 <= k < q.len() && q[k] == PatNode::<N>::Hole(h);
            if k < p.len() {
                assert(q[k] == p[k]);
            }
        }
        if x == PatNode::<N>::Hole(h) {
            assert(q[p.len() as int] == x);
        }
    }
    assert(holes_of(q) =~= holes_of(p).union(
        match x {
            PatNode::Hole(h) => set![h],
            _ => Set::<usize>::empty(),
        },
    ));
}

/// The placeholders reachable from a node depend only on the nodes up to it.
proof fn lemma_reach_prefix<const N: u32>(p: Seq<PatNode<N>>, q: Seq<PatNode<N>>, i: int)
    requires
        p.is_prefix_of(q),
        0 <= i < p.len(),
        nodes_ok(p),
    ensures
        reach_holes(p, i) == reach_holes(q, i),
    decreases i,
{
    assert(p[i] == q[i]);
    if let PatNode::Node(m) = p[i] {
        if m.is_unary() || m.is_binary() {
            lemma_reach_prefix(p, q, m.left() as int);
        }
        if m.is_binary() {
            lemma_reach_prefix(p, q, m.right() as int);
        }
    }
}

proof fn lemma_push_ok<const N: u32>(p: Seq<PatNode<N>>, x: PatNode<N>)
    requires
        nodes_ok(p),
        match x {
            PatNode::Node(m) => m.children_below(p.len() as int) && (m is Num ==> m->Num_0.wf()),
            PatNode::Hole(h) => h < MAX_PLACEHOLDERS,
        },
    ensures
        nodes_ok(p.push(x)),
        p.is_prefix_of(p.push(x)),
{
    assert forall|k: int| 0 <= k < p.push(x).len() implies match #[trigger] p.push(x)[k] {
        PatNode::Node(m) => m.children_below(k) && (m is Num ==> m->Num_0.wf()),
        PatNode::Hole(h) => h < MAX_PLACEHOLDERS,
    } by {
        if k < p.len() {
            assert(p.push(x)[k] == p[k]);
        }
    }
}

proof fn lemma_prefix_trans<T>(a: Seq<T>, b: Seq<T>, c: Seq<T>)
    requires
        a.is_prefix_of(b),
        b.is_prefix_of(c),
    ensures
        a.is_prefix_of(c),
{
    assert forall|k: int| 0 <= k < a.len() implies a[k] == c[k] by {
        assert(a[k] == b[k]);
    }
}

/// Every literal of the pattern is a word of `N` bits.
pub open spec fn nums_wf<const N: u32>(p: Seq<PatNode<N>>) -> bool {
    forall|k: int|
        0 <= k < p.len() && #[trigger] p[k] is Node && p[k]->Node_0 is Num
            ==> p[k]->Node_0->Num_0.wf()
}

/// Node `i` of `p` is one whose text the parser must read back.
pub open spec fn readable<const N: u32>(p: Seq<PatNode<N>>, i: int) -> bool {
    nodes_ok(p) && names_ok(p) && nums_wf(p) && 0 <= i < p.len()
}

/// A variable name that reads back as a variable: a non-empty token without whitespace or
/// parentheses that starts with neither a digit nor `?`.
pub open spec fn is_name(t: Seq<char>) -> bool {
    &&& t.len() > 0
    &&& !is_digit(t[0])
    &&& t[0] != '?'
    &&& t[0] != '+'
    &&& forall|k: int| 0 <= k < t.len() ==> !is_delimiter(#[trigger] t[k])
}

/// Every variable node of the pattern has a name that reads back.
pub open spec fn names_ok<const N: u32>(p: Seq<PatNode<N>>) -> bool {
    forall|k: int|
        0 <= k < p.len() && #[trigger] p[k] is Node && p[k]->Node_0 is Var ==> is_name(
            p[k]->Node_0->Var_0@,
        )
}

/// The text of a leaf is one token, and its first character tells its kind.
pub(crate) proof fn lemma_leaf_text<const N: u32>(p: Seq<PatNode<N>>, i: int)
    requires
        nodes_ok(p),
        names_ok(p),
        0 <= i < p.len(),
        !(p[i] is Node && (p[i]->Node_0.is_unary() || p[i]->Node_0.is_binary())),
    ensures
        pat_text(p, i).len() > 0,
        forall|k: int| 0 <= k < pat_text(p, i).len() ==> !is_delimiter(#[trigger] pat_text(p, i)[k]),
        p[i] is Hole ==> pat_text(p, i)[0] == '?',
        p[i] is Node && p[i]->Node_0 is Num ==> is_digit(pat_text(p, i)[0]),
        p[i] is Node && p[i]->Node_0 is Var ==> !is_digit(pat_text(p, i)[0]) && pat_text(p, i)[0] != '?',
{
    let t = pat_text(p, i);
    match p[i] {
        PatNode::Hole(h) => {
            assert((crate::equality::letter(h as nat) as u32) == h + 97);
            assert(t[1] == crate::equality::letter(h as nat));
        },
        PatNode::Node(m) => {
            if let Math::Num(c) = m {
                lemma_decimal_digits(c@ as nat);
            } else {
                assert(m is Var);
                assert(is_name(m->Var_0@));
            }
        },
    }
}

/// `t` stands in `s` at `pos`, followed by a delimiter or the end.
pub open spec fn text_at(s: Seq<char>, pos: int, t: Seq<char>) -> bool {
    &&& 0 <= pos
    &&& pos + t.len() <= s.len()
    &&& s.subrange(pos, pos + t.len()) == t
    &&& (pos + t.len() == s.len() || is_delimiter(s[pos + t.len()]))
}

proof fn lemma_chars_at(s: Seq<char>, pos: int, t: Seq<char>)
    requires
        text_at(s, pos, t),
    ensures
        forall|j: int| 0 <= j < t.len() ==> s[pos + j] == #[trigger] t[j],
{
    assert forall|j: int| 0 <= j < t.len() implies s[pos + j] == #[trigger] t[j] by {
        assert(s.subrange(pos, pos + t.len())[j] == t[j]);
    }
}

/// How the text of an operator node lies in `s`.
pub(crate) proof fn lemma_op_text<const N: u32>(s: Seq<char>, pos: int, p: Seq<PatNode<N>>, i: int)
    requires
        readable(p, i),
        text_at(s, pos, pat_text(p, i)),
        p[i] is Node,
        p[i]->Node_0.is_unary() || p[i]->Node_0.is_binary(),
    ensures
        ({
            let m = p[i]->Node_0;
            let sym = crate::equality::op_symbol(m);
            let a = m.left() as int;
            let ta = pat_text(p, a);
            let ea = pos + 2 + sym.len() + ta.len();
            &&& sym.len() >= 1
            &&& s[pos] == '('
            &&& forall|k: int| 0 <= k < sym.len() ==> !is_delimiter(#[trigger] s[pos + 1 + k])
            &&& s.subrange(pos + 1, pos + 1 + sym.len()) == sym
            &&& s[pos + 1 + sym.len()] == ' '
            &&& readable(p, a)
            &&& text_at(s, pos + 2 + sym.len(), ta)
            &&& m.is_unary() ==> s[ea] == ')' && pat_text(p, i).len() == ea + 1 - pos
            &&& m.is_binary() ==> {
                let b = m.right() as int;
                let tb = pat_text(p, b);
                &&& s[ea] == ' '
                &&& readable(p, b)
                &&& text_at(s, ea + 1, tb)
                &&& s[ea + 1 + tb.len()] == ')'
                &&& pat_text(p, i).len() == ea + 2 + tb.len() - pos
            }
        }),
{
    let m = p[i]->Node_0;
    let sym = crate::equality::op_symbol(m);
    let a = m.left() as int;
    let ta = pat_text(p, a);
    let t = pat_text(p, i);
    let ea = pos + 2 + sym.len() + ta.len();
    assert(m.children_below(i));
    lemma_chars_at(s, pos, t);
    assert(t[0] == '(');
    assert forall|k: int| 0 <= k < sym.len() implies !is_delimiter(#[trigger] s[pos + 1 + k]) && s[pos + 1 + k] == sym[k] by {
        assert(t[1 + k] == sym[k]);
    }
    assert forall|k: int| 0 <= k < sym.len() implies s.subrange(pos + 1, pos + 1 + sym.len())[k]
        == sym[k] by {
        assert(t[(1 + k) as int] == sym[k]);
        assert(s[pos + 1 + k] == t[(1 + k) as int]);
    }
    assert(s.subrange(pos + 1, pos + 1 + sym.len()) =~= sym);
    assert(t[(1 + sym.len()) as int] == ' ');
    assert forall|j: int| 0 <= j < ta.len() implies s[pos + 2 + sym.len() + j] == #[trigger] ta[j] by {
        assert(t[2 + sym.len() + j] == ta[j]);
    }
    assert(s.subrange(pos + 2 + sym.len(), ea) =~= ta);
    assert(t[(2 + sym.len() + ta.len()) as int] == s[ea]);
    if m.is_unary() {
        assert(t[(2 + sym.len() + ta.len()) as int] == ')');
    } else {
        let b = m.right() as int;
        let tb = pat_text(p, b);
        assert(t[(2 + sym.len() + ta.len()) as int] == ' ');
        assert forall|j: int| 0 <= j < tb.len() implies s[ea + 1 + j] == #[trigger] tb[j] by {
            assert(t[3 + sym.len() + ta.len() + j] == tb[j]);
        }
        assert(s.subrange(ea + 1, ea + 1 + tb.len()) =~= tb);
        assert(t[(3 + sym.len() + ta.len() + tb.len()) as int] == ')');
        assert(t[(3 + sym.len() + ta.len() + tb.len()) as int] == s[ea + 1 + tb.len()]);
    }
}

/// Parses a leaf: a placeholder `?x`, a numeral or a variable name.
fn parse_leaf<const N: u32>(
    s: &Vec<char>,
    pos: usize,
    out: &mut Vec<PatNode<N>>,
    target: Ghost<Option<(Seq<PatNode<N>>, int)>>,
) -> (r: Option<usize>)
    requires
        BV::<N>::width_ok(),
        nodes_ok(old(out)@),
        pos < s@.len(),
        target@ is Some ==> {
            let (p, i) = target@->Some_0;
            &&& readable(p, i)
            &&& text_at(s@, pos as int, pat_text(p, i))
            &&& !(p[i] is Node && (p[i]->Node_0.is_unary() || p[i]->Node_0.is_binary()))
        },
    ensures
        nodes_ok(final(out)@),
        old(out)@.is_prefix_of(final(out)@),
        r is Some ==> {
            let e = r->Some_0;
            &&& pos < e <= s@.len()
            &&& final(out)@.len() > old(out)@.len()
            &&& pat_text(final(out)@, final(out)@.len() - 1) == s@.subrange(pos as int, e as int)
        },
        target@ is Some ==> r == Some(
            (pos + pat_text(target@->Some_0.0, target@->Some_0.1).len()) as usize,
        ),
        r is Some ==> holes_of(final(out)@) == holes_of(old(out)@).union(
            reach_holes(final(out)@, final(out)@.len() - 1),
        ),
        r is Some ==> !is_space(s@[pos as int]) && !is_space(s@[r->Some_0 - 1]),
        target@ is Some ==> reach_holes(final(out)@, final(out)@.len() - 1) == reach_holes(
            target@->Some_0.0,
            target@->Some_0.1,
        ),
{
    let ghost o = out@;
    let ghost num: Option<nat> = None;
    proof {
        if let Some((p, i)) = target@ {
            let t = pat_text(p, i);
            lemma_chars_at(s@, pos as int, t);
            lemma_leaf_text(p, i);
            match p[i] {
                PatNode::Hole(h) => {
                    assert((crate::equality::letter(h as nat) as u32) == h + 97);
                    assert(t[0] == '?');
                    assert(t[1] == crate::equality::letter(h as nat));
                },
                PatNode::Node(m) => {
                    if let Math::Num(c) = m {
                        assert(c.wf());
                        num = Some(c@ as nat);
                        assert(s@.subrange(pos as int, pos + t.len()) == decimal(c@ as nat));
                    }
                },
            }
        }
    }
    let c = s[pos];
    if c == '?' {
        if s.len() - pos < 2 {
            return None;
        }
        let l = s[pos + 1];
        if !('a' <= l && l <= 'z') {
            return None;
        }
        let h = (l as u8 - 97u8) as usize;
        proof {
            lemma_push_ok(o, PatNode::<N>::Hole(h));
            lemma_holes_push(o, PatNode::<N>::Hole(h));
            if let Some((p, i)) = target@ {
                let h0 = p[i]->Hole_0;
                assert((crate::equality::letter(h0 as nat) as u32) == h0 + 97);
                assert(h == h0);
            }
        }
        out.push(PatNode::Hole(h));
        assert(pat_text(out@, out@.len() - 1) =~= s@.subrange(pos as int, pos + 2));
        Some(pos + 2)
    } else {
        let te = token_end(s, pos);
        proof {
            if let Some((p, i)) = target@ {
                let t = pat_text(p, i);
                lemma_leaf_text(p, i);
                if te < pos + t.len() {
                    assert(!is_delimiter(t[te - pos]));
                    assert(s@[te as int] == t[te - pos]);
                } else if te > pos + t.len() {
                    assert(!is_delimiter(s@[pos + t.len()]));
                }
            }
        }
        if te == pos {
            return None;
        }
        let node = if '0' <= c && c <= '9' {
            match num_from_token::<N>(s, pos, te, Ghost(num)) {
                Some(b) => Math::Num(b),
                None => Math::Var(crate::equality::chars_to_string(&slice_chars(s, pos, te))),
            }
        } else {
            Math::Var(crate::equality::chars_to_string(&slice_chars(s, pos, te)))
        };
        proof {
            lemma_push_ok(o, PatNode::Node(node));
            lemma_holes_push(o, PatNode::Node(node));
        }
        out.push(PatNode::Node(node));
        assert(holes_of(o).union(Set::<usize>::empty()) =~= holes_of(o));
        Some(te)
    }
}

/// Parses the pattern text that starts at `pos`, appending its nodes to `out` with its root
/// last, and returns where the text ends. What is read is exactly the text of the result,
/// and the text of a generalized pattern is always read.
#[verifier::rlimit(60)]
fn parse_at<const N: u32>(
    s: &Vec<char>,
    pos: usize,
    out: &mut Vec<PatNode<N>>,
    target: Ghost<Option<(Seq<PatNode<N>>, int)>>,
) -> (r: Option<usize>)
    requires
        BV::<N>::width_ok(),
        nodes_ok(old(out)@),
        pos <= s@.len(),
        target@ is Some ==> readable(target@->Some_0.0, target@->Some_0.1) && text_at(
            s@,
            pos as int,
            pat_text(target@->Some_0.0, target@->Some_0.1),
        ),
    ensures
        nodes_ok(final(out)@),
        old(out)@.is_prefix_of(final(out)@),
        r is Some ==> {
            let e = r->Some_0;
            &&& pos < e <= s@.len()
            &&& final(out)@.len() > old(out)@.len()
            &&& pat_text(final(out)@, final(out)@.len() - 1) == s@.subrange(pos as int, e as int)
        },
        target@ is Some ==> r == Some(
            (pos + pat_text(target@->Some_0.0, target@->Some_0.1).len()) as usize,
        ),
        r is Some ==> holes_of(final(out)@) == holes_of(old(out)@).union(
            reach_holes(final(out)@, final(out)@.len() - 1),
        ),
        r is Some ==> !is_space(s@[pos as int]) && !is_space(s@[r->Some_0 - 1]),
        target@ is Some ==> reach_holes(final(out)@, final(out)@.len() - 1) == reach_holes(
            target@->Some_0.0,
            target@->Some_0.1,
        ),
    decreases s@.len() - pos,
{
    let ghost o = out@;
    let ghost is_op = match target@ {
        Some((p, i)) => p[i] is Node && (p[i]->Node_0.is_unary() || p[i]->Node_0.is_binary()),
        None => false,
    };
    proof {
        if let Some((p, i)) = target@ {
            lemma_text_ends(p, i);
            lemma_chars_at(s@, pos as int, pat_text(p, i));
            if is_op {
                lemma_op_text(s@, pos as int, p, i);
            } else {
                lemma_leaf_text(p, i);
            }
        }
    }
    if pos >= s.len() {
        return None;
    }
    if s[pos] != '(' {
        return parse_leaf(s, pos, out, target);
    }
    let ghost sub_a: Option<(Seq<PatNode<N>>, int)> = None;
    let ghost sub_b: Option<(Seq<PatNode<N>>, int)> = None;
    let ghost sym_len: int = 0;
    proof {
        if let Some((p, i)) = target@ {
            let m = p[i]->Node_0;
            sub_a = Some((p, m.left() as int));
            if m.is_binary() {
                sub_b = Some((p, m.right() as int));
            }
            sym_len = crate::equality::op_symbol(m).len() as int;
        }
    }
    let te = token_end(s, pos + 1);
    proof {
        if target@ is Some {
            if te < pos + 1 + sym_len {
                assert(!is_delimiter(s@[pos + 1 + (te - pos - 1)]));
            } else if te > pos + 1 + sym_len {
                assert(!is_delimiter(s@[pos + 1 + sym_len]));
            }
        }
    }
    if te == pos + 1 || te >= s.len() || s[te] != ' ' {
        return None;
    }
    let probe = op_from_token::<N>(s, pos + 1, te, 0, 0);
    if probe.is_none() {
        return None;
    }
    let unary = match probe {
        Some(Math::Neg(_)) | Some(Math::Not(_)) => true,
        _ => false,
    };
    proof {
        if let Some((p, i)) = target@ {
            lemma_symbol_arity(p[i]->Node_0, probe->Some_0);
        }
    }
    let ea = match parse_at(s, te + 1, out, Ghost(sub_a)) {
        Some(e) => e,
        None => return None,
    };
    let a = out.len() - 1;
    let ghost out_a = out@;
    if unary {
        if ea >= s.len() || s[ea] != ')' {
            return None;
        }
        let m = match op_from_token::<N>(s, pos + 1, te, a, a) {
            Some(m) => m,
            None => return None,
        };
        proof {
            lemma_symbol_arity(m, probe->Some_0);
            lemma_push_ok(out_a, PatNode::Node(m));
            lemma_prefix_trans(o, out_a, out_a.push(PatNode::Node(m)));
        }
        out.push(PatNode::Node(m));
        proof {
            lemma_pat_text_prefix(out_a, out@, a as int);
            assert(pat_text(out@, out@.len() - 1) =~= s@.subrange(pos as int, ea + 1));
            lemma_reach_prefix(out_a, out@, a as int);
            lemma_holes_push(out_a, PatNode::Node(m));
            assert(holes_of(out@) =~= holes_of(o).union(reach_holes(out@, out@.len() - 1)));
        }
        Some(ea + 1)
    } else {
        if ea >= s.len() || s[ea] != ' ' {
            return None;
        }
        let eb = match parse_at(s, ea + 1, out, Ghost(sub_b)) {
            Some(e) => e,
            None => return None,
        };
        let b = out.len() - 1;
        let ghost out_b = out@;
        if eb >= s.len() || s[eb] != ')' {
            return None;
        }
        let m = match op_from_token::<N>(s, pos + 1, te, a, b) {
            Some(m) => m,
            None => return None,
        };
        proof {
            lemma_symbol_arity(m, probe->Some_0);
            lemma_push_ok(out_b, PatNode::Node(m));
            lemma_prefix_trans(out_a, out_b, out_b.push(PatNode::Node(m)));
            lemma_prefix_trans(o, out_a, out_b.push(PatNode::Node(m)));
        }
        out.push(PatNode::Node(m));
        proof {
            lemma_pat_text_prefix(out_a, out@, a as int);
            lemma_pat_text_prefix(out_b, out@, b as int);
            assert(pat_text(out@, out@.len() - 1) =~= s@.subrange(pos as int, eb + 1));
            lemma_reach_prefix(out_a, out@, a as int);
            lemma_reach_prefix(out_b, out@, b as int);
            lemma_holes_push(out_b, PatNode::Node(m));
            assert(holes_of(out@) =~= holes_of(o).union(reach_holes(out@, out@.len() - 1)));
        }
        Some(eb + 1)
    }
}

/// `p` is a pattern of generalized terms: placeholders for variables, `N`-bit literals.
pub open spec fn printable<const N: u32>(p: Seq<PatNode<N>>) -> bool {
    crate::equality::pattern_wf(p) && fully_generalized(p) && nums_wf(p)
}

/// `p` is a pattern whose text reads back: literals are `N`-bit words and variable names
/// are tokens.
pub open spec fn readable_pattern<const N: u32>(p: Seq<PatNode<N>>) -> bool {
    p.len() > 0 && nodes_ok(p) && names_ok(p)
}

/// A text that is not empty and neither starts nor ends with whitespace.
pub open spec fn text_clean(t: Seq<char>) -> bool {
    t.len() > 0 && !is_space(t[0]) && !is_space(t.last())
}

/// Two texts without surrounding whitespace that a text trims to are the same.
proof fn lemma_trim_unique(s: Seq<char>, t1: Seq<char>, t2: Seq<char>)
    requires
        trims_to(s, t1),
        trims_to(s, t2),
        t1.len() > 0 && !is_space(t1[0]) && !is_space(t1.last()),
        t2.len() > 0 && !is_space(t2[0]) && !is_space(t2.last()),
    ensures
        t1 == t2,
{
    let (i1, j1) = trim_bounds(s, t1);
    let (i2, j2) = trim_bounds(s, t2);
    if i1 < i2 {
        assert(s[i1] == t1[0]);
    } else if i2 < i1 {
        assert(s[i2] == t2[0]);
    }
    if j1 < j2 {
        assert(s[j2 - 1] == t2.last());
    } else if j2 < j1 {
        assert(s[j1 - 1] == t1.last());
    }
}

/// Where `t` stands in `s` when `s` trims to it.
pub(crate) proof fn trim_bounds(s: Seq<char>, t: Seq<char>) -> (r: (int, int))
    requires
        trims_to(s, t),
    ensures
        0 <= r.0 <= r.1 <= s.len(),
        s.subrange(r.0, r.1) == t,
        r.1 - r.0 == t.len(),
        forall|k: int| 0 <= k < r.0 ==> is_space(#[trigger] s[k]),
        forall|k: int| r.1 <= k < s.len() ==> is_space(#[trigger] s[k]),
        forall|k: int| 0 <= k < t.len() ==> s[r.0 + k] == #[trigger] t[k],
{
    let (i, j) = choose|i: int, j: int|
        0 <= i <= j <= s.len() && s.subrange(i, j) == t && (forall|k: int|
            0 <= k < i ==> is_space(#[trigger] s[k])) && (forall|k: int|
            j <= k < s.len() ==> is_space(#[trigger] s[k]));
    assert forall|k: int| 0 <= k < t.len() implies s[i + k] == #[trigger] t[k] by {
        assert(s.subrange(i, j)[k] == t[k]);
    }
    (i, j)
}

impl<const N: u32> Pattern<N> {
    /// Reads a pattern written in printed form, with whitespace around it.
    #[verifier::rlimit(60)]
    fn parse_exact(s: &Vec<char>) -> (r: Option<Pattern<N>>)
        requires
            BV::<N>::width_ok(),
        ensures
            r is Some ==> r->Some_0.wf() && trims_to(s@, pattern_text(r->Some_0.nodes@)),
            r is Some ==> text_clean(pattern_text(r->Some_0.nodes@)),
            r is Some ==> nodes_ok(r->Some_0.nodes@) && holes_of(r->Some_0.nodes@) == reach_holes(
                r->Some_0.nodes@,
                r->Some_0.nodes@.len() - 1,
            ),
            forall|p: Seq<PatNode<N>>|
                readable_pattern(p) && trims_to(s@, #[trigger] pattern_text(p)) ==> r is Some
                    && holes_of(r->Some_0.nodes@) == text_holes(pattern_text(p)),
    {
        let ghost found = exists|p: Seq<PatNode<N>>|
            readable_pattern(p) && trims_to(s@, #[trigger] pattern_text(p));
        let ghost target: Option<(Seq<PatNode<N>>, int)> = None;
        let ghost i0: int = 0;
        let ghost j0: int = 0;
        proof {
            if found {
                let p = choose|p: Seq<PatNode<N>>|
                    readable_pattern(p) && trims_to(s@, #[trigger] pattern_text(p));
                target = Some((p, p.len() - 1));
                lemma_text_ends(p, p.len() - 1);
                let (a, b) = trim_bounds(s@, pattern_text(p));
                i0 = a;
                j0 = b;
                assert(s@[i0] == pattern_text(p)[0]);
            }
        }
        let mut i: usize = 0;
        while i < s.len() && space_char(s[i])
            invariant
                i <= s@.len(),
                forall|k: int| 0 <= k < i ==> is_space(#[trigger] s@[k]),
                found == exists|p: Seq<PatNode<N>>|
                    readable_pattern(p) && trims_to(s@, #[trigger] pattern_text(p)),
                found ==> target is Some && i <= i0 < j0 <= s@.len() && !is_space(s@[i0]),
            decreases s@.len() - i,
        {
            i = i + 1;
        }
        proof {
            if found {
                let (p, k) = target->Some_0;
                assert(i == i0);
                assert(text_at(s@, i as int, pat_text(p, k))) by {
                    if j0 < s@.len() {
                        assert(is_space(s@[j0]));
                    }
                }
            }
        }
        let mut out: Vec<PatNode<N>> = Vec::new();
        let e = match parse_at(s, i, &mut out, Ghost(target)) {
            Some(e) => e,
            None => {
                assert(!found);
                return None;
            },
        };
        let mut j = e;
        while j < s.len()
            invariant
                e <= j <= s@.len(),
                forall|k: int| e <= k < j ==> is_space(#[trigger] s@[k]),
                found == exists|p: Seq<PatNode<N>>|
                    readable_pattern(p) && trims_to(s@, #[trigger] pattern_text(p)),
                found ==> e == j0 && forall|k: int| j0 <= k < s@.len() ==> is_space(#[trigger] s@[k]),
            decreases s@.len() - j,
        {
            if !space_char(s[j]) {
                assert(!found);
                return None;
            }
            j = j + 1;
        }
        let p = Pattern { nodes: out };
        assert(trims_to(s@, pattern_text(p.nodes@))) by {
            assert(s@.subrange(i as int, e as int) == pattern_text(p.nodes@));
        }
        assert(text_clean(pattern_text(p.nodes@))) by {
            assert(s@.subrange(i as int, e as int) == pattern_text(p.nodes@));
            assert(pattern_text(p.nodes@)[0] == s@[i as int]);
            assert(pattern_text(p.nodes@).last() == s@[e - 1]);
        }
        assert(holes_of(Seq::<PatNode<N>>::empty()) =~= Set::<usize>::empty());
        assert(Set::<usize>::empty().union(reach_holes(out@, out@.len() - 1)) =~= reach_holes(out@, out@.len() - 1));
        proof {
            if let Some((q, k)) = target {
                lemma_text_holes(q, k);
                lemma_text_ends(q, k);
                assert forall|p: Seq<PatNode<N>>|
                    readable_pattern(p) && trims_to(s@, #[trigger] pattern_text(p)) implies holes_of(out@)
                    == text_holes(pattern_text(p)) by {
                    lemma_text_ends(p, p.len() - 1);
                    lemma_trim_unique(s@, pattern_text(p), pattern_text(q));
                }
            }
        }
        Some(p)
    }

    /// Reads a pattern in s-expression form, with whitespace around it. The text is first
    /// brought to printed form: runs of whitespace become one space and numerals, read as
    /// `BV::parse_decimal` reads them, become the decimal text of their low `N` bits.
    /// Whatever is read prints as that printed form, trimmed; and every pattern whose
    /// literals are `N`-bit words and whose variable names are tokens is read from any text
    /// whose printed form trims to its text, with the placeholders written in it.
    pub fn parse(s: &Vec<char>) -> (r: Option<Pattern<N>>)
        requires
            BV::<N>::width_ok(),
        ensures
            r is Some ==> r->Some_0.wf() && trims_to(canon::<N>(s@), pattern_text(r->Some_0.nodes@)),
            r is Some ==> text_clean(pattern_text(r->Some_0.nodes@)),
            r is Some ==> nodes_ok(r->Some_0.nodes@) && holes_of(r->Some_0.nodes@) == reach_holes(
                r->Some_0.nodes@,
                r->Some_0.nodes@.len() - 1,
            ),
            forall|p: Seq<PatNode<N>>|
                readable_pattern(p) && trims_to(canon::<N>(s@), #[trigger] pattern_text(p)) ==> r is Some
                    && holes_of(r->Some_0.nodes@) == text_holes(pattern_text(p)) && pattern_text(
                    r->Some_0.nodes@,
                ) == pattern_text(p),
            forall|p: Seq<PatNode<N>>|
                readable_pattern(p) && trims_to(s@, #[trigger] pattern_text(p)) ==> r is Some
                    && holes_of(r->Some_0.nodes@) == text_holes(pattern_text(p)) && pattern_text(
                    r->Some_0.nodes@,
                ) == pattern_text(p),
    {
        let c = canonical::<N>(s);
        let r = Self::parse_exact(&c);
        proof {
            assert forall|p: Seq<PatNode<N>>|
                readable_pattern(p) && trims_to(canon::<N>(s@), #[trigger] pattern_text(p)) implies r is Some
                    && pattern_text(r->Some_0.nodes@) == pattern_text(p) by {
                lemma_text_ends(p, p.len() - 1);
                lemma_trim_unique(c@, pattern_text(p), pattern_text(r->Some_0.nodes@));
            }
            assert forall|p: Seq<PatNode<N>>|
                readable_pattern(p) && trims_to(s@, #[trigger] pattern_text(p)) implies trims_to(
                canon::<N>(s@),
                pattern_text(p),
            ) by {
                lemma_canon_trims::<N>(s@, p);
            }
        }
        r
    }
}

impl<const N: u32> Equality<N> {
    /// The rule that a stored pair of sides denotes. There is none when a side does not
    /// read as a pattern or when the right side has a placeholder that the left side lacks.
    /// Each side is read by `Pattern::parse`, so a side whose printed form trims to the text
    /// of a readable pattern always reads, as that text; for such sides the placeholder
    /// check alone decides.
    pub fn from_serialized_eq(ser: SerializedEq) -> (r: Option<Self>)
        requires
            BV::<N>::width_ok(),
        ensures
            r is Some ==> {
                let eq = r->Some_0;
                &&& eq.lhs.wf()
                &&& eq.rhs.wf()
                &&& trims_to(canon::<N>(ser.lhs@), pattern_text(eq.lhs.nodes@))
                &&& trims_to(canon::<N>(ser.rhs@), pattern_text(eq.rhs.nodes@))
                &&& text_clean(pattern_text(eq.lhs.nodes@))
                &&& text_clean(pattern_text(eq.rhs.nodes@))
                &&& holes_of(eq.rhs.nodes@).subset_of(holes_of(eq.lhs.nodes@))
                &&& eq.name@ == rule_name(eq.lhs.nodes@, eq.rhs.nodes@)
            },
            forall|pl: Seq<PatNode<N>>, pr: Seq<PatNode<N>>|
                readable_pattern(pl) && readable_pattern(pr) && trims_to(
                    canon::<N>(ser.lhs@),
                    #[trigger] pattern_text(pl),
                ) && trims_to(canon::<N>(ser.rhs@), #[trigger] pattern_text(pr)) ==> (r is Some
                    <==> text_holes(pattern_text(pr)).subset_of(text_holes(pattern_text(pl))))
                    && (r is Some ==> pattern_text(r->Some_0.lhs.nodes@) == pattern_text(pl)
                    && pattern_text(r->Some_0.rhs.nodes@) == pattern_text(pr)),
    {
        let lhs = match Pattern::<N>::parse(&string_chars(&ser.lhs)) {
            Some(p) => p,
            None => return None,
        };
        let rhs = match Pattern::<N>::parse(&string_chars(&ser.rhs)) {
            Some(p) => p,
            None => return None,
        };
        if !holes_bound(&lhs.nodes, &rhs.nodes) {
            return None;
        }
        let mut text = lhs.to_chars();
        text.push(' ');
        text.push('=');
        text.push('=');
        text.push('>');
        text.push(' ');
        push_all(&mut text, &rhs.to_chars());
        let name = chars_to_string(&text);
        assert(name@ =~= rule_name(lhs.nodes@, rhs.nodes@));
        Some(Equality { name, lhs, rhs })
    }

    /// Reads a rule from a line `lhs=>rhs`. A line without `=>` gives the error of
    /// `SerializedEq::parse`; sides that make no rule give `None`. A line `a=>b` whose left
    /// part holds no `=` and whose parts are, in printed form and trimmed, the texts of two
    /// readable patterns gives a rule exactly when every placeholder written on the right is
    /// written on the left, and the rule's sides print as those texts.
    #[verifier::rlimit(60)]
    pub fn parse_line(s: &str) -> (r: Result<Option<Self>, String>)
        requires
            BV::<N>::width_ok(),
        ensures
            r is Ok <==> exists|k: int| crate::equality::is_arrow_at(s@, k),
            r is Err ==> r->Err_0@ == seq!['F', 'a', 'i', 'l', 'e', 'd', ' ', 't', 'o', ' ', 's', 'p', 'l', 'i', 't', ' '] + s@,
            r is Ok && r->Ok_0 is Some ==> {
                let eq = r->Ok_0->Some_0;
                let k = crate::equality::first_arrow(s@)->Some_0;
                &&& eq.lhs.wf()
                &&& eq.rhs.wf()
                &&& trims_to(canon::<N>(s@.take(k)), pattern_text(eq.lhs.nodes@))
                &&& trims_to(canon::<N>(s@.skip(k + 2)), pattern_text(eq.rhs.nodes@))
                &&& text_clean(pattern_text(eq.lhs.nodes@))
                &&& text_clean(pattern_text(eq.rhs.nodes@))
                &&& eq.name@ == rule_name(eq.lhs.nodes@, eq.rhs.nodes@)
            },
            forall|pl: Seq<PatNode<N>>, pr: Seq<PatNode<N>>, a: Seq<char>, b: Seq<char>|
                readable_pattern(pl) && readable_pattern(pr) && s@ == #[trigger] rule_line(a, b)
                    && !a.contains('=') && trims_to(canon::<N>(a), #[trigger] pattern_text(pl))
                    && trims_to(canon::<N>(b), #[trigger] pattern_text(pr)) ==> r is Ok && (r->Ok_0
                    is Some <==> text_holes(pattern_text(pr)).subset_of(text_holes(pattern_text(pl))))
                    && (r->Ok_0 is Some ==> pattern_text(r->Ok_0->Some_0.lhs.nodes@) == pattern_text(pl)
                    && pattern_text(r->Ok_0->Some_0.rhs.nodes@) == pattern_text(pr)),
    {
        match SerializedEq::parse(s) {
            Ok(ser) => {
                let ghost sl = ser.lhs@;
                let ghost sr = ser.rhs@;
                let r = Self::from_serialized_eq(ser);
                proof {
                    assert forall|pl: Seq<PatNode<N>>, pr: Seq<PatNode<N>>, a: Seq<char>, b: Seq<char>|
                        readable_pattern(pl) && readable_pattern(pr) && s@ == #[trigger] rule_line(a, b)
                            && !a.contains('=') && trims_to(canon::<N>(a), #[trigger] pattern_text(pl))
                            && trims_to(canon::<N>(b), #[trigger] pattern_text(pr)) implies sl == a && sr
                        == b by {
                        lemma_line_arrow(a, b, s@);
                    }
                }
                Ok(r)
            },
            Err(e) => {
                proof {
                    assert forall|pl: Seq<PatNode<N>>, pr: Seq<PatNode<N>>, a: Seq<char>, b: Seq<char>|
                        readable_pattern(pl) && readable_pattern(pr) && s@ == #[trigger] rule_line(a, b)
                            && !a.contains('=') && trims_to(canon::<N>(a), #[trigger] pattern_text(pl))
                            && trims_to(canon::<N>(b), #[trigger] pattern_text(pr)) implies false by {
                        lemma_line_arrow(a, b, s@);
                    }
                }
                Err(e)
            },
        }
    }
}

/// In a line `a=>b` whose left part holds no `=`, the first `=>` is the one after `a`.
proof fn lemma_line_arrow(a: Seq<char>, b: Seq<char>, s: Seq<char>)
    requires
        s == rule_line(a, b),
        !a.contains('='),
    ensures
        crate::equality::first_arrow(s) == Some(a.len() as int),
        s.take(a.len() as int) == a,
        s.skip(a.len() + 2int) == b,
{
    assert(crate::equality::is_arrow_at(s, a.len() as int));
    assert forall|k: int| 0 <= k < a.len() implies !crate::equality::is_arrow_at(s, k) by {
        assert(s[k] == a[k]);
        if a[k] == '=' {
            assert(a.contains('='));
        }
    }
    let c = choose|c: int|
        crate::equality::is_arrow_at(s, c) && forall|t: int| 0 <= t < c ==> !crate::equality::is_arrow_at(s, t);
    if c > a.len() {
        assert(!crate::equality::is_arrow_at(s, a.len() as int));
    }
    assert(s.take(a.len() as int) =~= a);
    assert(s.skip(a.len() + 2int) =~= b);
}

proof fn lemma_printable_readable<const N: u32>(p: Seq<PatNode<N>>)
    requires
        printable(p),
    ensures
        readable_pattern(p),
{
    assert forall|k: int| 0 <= k < p.len() implies match #[trigger] p[k] {
        PatNode::Node(m) => m.children_below(k) && (m is Num ==> m->Num_0.wf()),
        PatNode::Hole(h) => h < MAX_PLACEHOLDERS,
    } by {
        assert(crate::equality::pattern_wf(p));
    }
}

/// A pattern has no variable nodes left: all variables are placeholders.
pub open spec fn fully_generalized<const N: u32>(p: Seq<PatNode<N>>) -> bool {
    forall|k: int| 0 <= k < p.len() ==> !(#[trigger] p[k] is Node && p[k]->Node_0 is Var)
}

proof fn lemma_decimal_ends(n: nat)
    ensures
        decimal(n).len() > 0,
        !is_space(decimal(n)[0]),
        !is_space(decimal(n).last()),
    decreases n,
{
    if n >= 10 {
        lemma_decimal_ends(n / 10);
    }
}

/// The text of a generalized pattern is not empty and neither starts nor ends with
/// whitespace.
pub(crate) proof fn lemma_text_ends<const N: u32>(p: Seq<PatNode<N>>, i: int)
    requires
        nodes_ok(p),
        names_ok(p),
        0 <= i < p.len(),
    ensures
        pat_text(p, i).len() > 0,
        !is_space(pat_text(p, i)[0]),
        !is_space(pat_text(p, i).last()),
{
    match p[i] {
        PatNode::Hole(_) => {},
        PatNode::Node(m) => {
            if let Math::Num(c) = m {
                lemma_decimal_ends(c@ as nat);
            } else if let Math::Var(v) = m {
                assert(is_name(v@));
                assert(!is_delimiter(v@[v@.len() - 1]));
            }
        },
    }
}

/// The placeholders reachable from node `i` of `p`.
pub open spec fn reach_holes<const N: u32>(p: Seq<PatNode<N>>, i: int) -> Set<usize>
    decreases i,
{
    if i < 0 || i >= p.len() {
        Set::empty()
    } else {
        match p[i] {
            PatNode::Hole(h) => set![h],
            PatNode::Node(m) => if m.is_unary() && 0 <= m.left() < i {
                reach_holes(p, m.left() as int)
            } else if m.is_binary() && 0 <= m.left() < i && 0 <= m.right() < i {
                reach_holes(p, m.left() as int).union(reach_holes(p, m.right() as int))
            } else {
                Set::empty()
            },
        }
    }
}

/// Placeholder `h` is written at position `k` of `t`.
pub open spec fn hole_at(t: Seq<char>, k: int, h: usize) -> bool {
    &&& 0 <= k
    &&& k + 1 < t.len()
    &&& t[k] == '?'
    &&& t[k + 1] == crate::equality::letter(h as nat)
    &&& (k == 0 || t[k - 1] == ' ' || t[k - 1] == '(')
}

/// The placeholders written in a text.
pub open spec fn text_holes(t: Seq<char>) -> Set<usize> {
    Set::new(|h: usize| h < MAX_PLACEHOLDERS && exists|k: int| #[trigger] hole_at(t, k, h))
}

proof fn lemma_symbol_plain<const N: u32>(m: Math<N>)
    requires
        m.is_unary() || m.is_binary(),
    ensures
        forall|k: int| 0 <= k < crate::equality::op_symbol(m).len() ==> #[trigger] crate::equality::op_symbol(m)[k] != '?',
        forall|k: int| 0 <= k < crate::equality::op_symbol(m).len() ==> #[trigger] crate::equality::op_symbol(m)[k] != '=',
        crate::equality::op_symbol(m).len() >= 1,
{
}

/// The text of a generalized pattern holds no `=`.
proof fn lemma_no_equals<const N: u32>(p: Seq<PatNode<N>>, i: int)
    requires
        nodes_ok(p),
        fully_generalized(p),
        0 <= i < p.len(),
    ensures
        forall|k: int| 0 <= k < pat_text(p, i).len() ==> #[trigger] pat_text(p, i)[k] != '=',
    decreases i,
{
    let t = pat_text(p, i);
    match p[i] {
        PatNode::Hole(h) => {
            assert((crate::equality::letter(h as nat) as u32) == h + 97);
        },
        PatNode::Node(m) => {
            if let Math::Num(c) = m {
                lemma_decimal_digits(c@ as nat);
                assert forall|k: int| 0 <= k < t.len() implies #[trigger] t[k] != '=' by {
                    assert(is_digit(t[k]));
                }
            } else {
                assert(!(m is Var));
                assert(m.children_below(i));
                lemma_symbol_plain(m);
                let sym = crate::equality::op_symbol(m);
                let ta = pat_text(p, m.left() as int);
                let oa = sym.len() + 2int;
                lemma_no_equals(p, m.left() as int);
                assert forall|j: int| 0 <= j < ta.len() implies t[oa + j] == #[trigger] ta[j] by {}
                assert forall|j: int| 1 <= j < oa - 1 implies t[j] == sym[j - 1] by {}
                if m.is_binary() {
                    let tb = pat_text(p, m.right() as int);
                    let ob = oa + ta.len() + 1int;
                    lemma_no_equals(p, m.right() as int);
                    assert forall|j: int| 0 <= j < tb.len() implies t[ob + j] == #[trigger] tb[j] by {}
                    assert forall|k: int| 0 <= k < t.len() implies #[trigger] t[k] != '=' by {
                        if 1 <= k < oa - 1 {
                            assert(sym[k - 1] != '=');
                        } else if oa <= k < oa + ta.len() {
                            assert(ta[k - oa] != '=');
                        } else if ob <= k < ob + tb.len() {
                            assert(tb[k - ob] != '=');
                        }
                    }
                } else {
                    assert forall|k: int| 0 <= k < t.len() implies #[trigger] t[k] != '=' by {
                        if 1 <= k < oa - 1 {
                            assert(sym[k - 1] != '=');
                        } else if oa <= k < oa + ta.len() {
                            assert(ta[k - oa] != '=');
                        }
                    }
                }
            }
        },
    }
}

/// The line `a=>b`.
pub open spec fn rule_line(a: Seq<char>, b: Seq<char>) -> Seq<char> {
    a + seq!['=', '>'] + b
}

/// In the text of a pattern the placeholders written are those reachable.
#[verifier::spinoff_prover]
#[verifier::rlimit(60)]
proof fn lemma_text_holes<const N: u32>(p: Seq<PatNode<N>>, i: int)
    requires
        nodes_ok(p),
        names_ok(p),
        0 <= i < p.len(),
    ensures
        reach_holes(p, i) == text_holes(pat_text(p, i)),
    decreases i,
{
    let t = pat_text(p, i);
    lemma_text_ends(p, i);
    match p[i] {
        PatNode::Hole(h) => {
            assert((crate::equality::letter(h as nat) as u32) == h + 97);
            assert forall|g: usize| text_holes(t).contains(g) <==> reach_holes(p, i).contains(g) by {
                if text_holes(t).contains(g) {
                    let k = choose|k: int| hole_at(t, k, g);
                    assert(k == 0);
                    assert((crate::equality::letter(g as nat) as u32) == g + 97);
                }
                if g == h {
                    assert(hole_at(t, 0, h));
                }
            }
            assert(text_holes(t) =~= reach_holes(p, i));
        },
        PatNode::Node(m) => {
            if !(m.is_unary() || m.is_binary()) {
                lemma_leaf_text(p, i);
                if let Math::Num(c) = m {
                    lemma_decimal_digits(c@ as nat);
                }
                assert forall|g: usize| !text_holes(t).contains(g) by {
                    if text_holes(t).contains(g) {
                        let k = choose|k: int| hole_at(t, k, g);
                        if m is Num {
                            assert(is_digit(t[k]));
                        } else {
                            assert(k > 0);
                            assert(!is_delimiter(t[k - 1]));
                        }
                    }
                }
                assert(text_holes(t) =~= reach_holes(p, i));
            } else {
                assert(m.children_below(i));
                lemma_symbol_plain(m);
                let sym = crate::equality::op_symbol(m);
                let a = m.left() as int;
                let ta = pat_text(p, a);
                let oa = sym.len() + 2int;
                lemma_text_holes(p, a);
                lemma_text_ends(p, a);
                assert forall|j: int| 0 <= j < ta.len() implies t[oa + j] == #[trigger] ta[j] by {}
                assert forall|j: int| 0 <= j < oa implies t[j] != '?' by {
                    if 1 <= j < oa - 1 {
                        assert(t[j] == sym[j - 1]);
                    }
                }
                assert(t[oa - 1] == ' ');
                assert forall|g: usize| g < MAX_PLACEHOLDERS implies (crate::equality::letter(g as nat) as u32) == g + 97 by {}
                if m.is_unary() {
                    assert(t[oa + ta.len()] == ')');
                    assert forall|g: usize| text_holes(t).contains(g) <==> text_holes(ta).contains(g) by {
                        if text_holes(t).contains(g) {
                            let k = choose|k: int| hole_at(t, k, g);
                            assert(oa <= k < oa + ta.len());
                            if k + 1 == oa + ta.len() {
                                assert(t[k + 1] == ')');
                            }
                            if k > oa {
                                assert(t[k - 1] == ta[k - oa - 1]);
                            }
                            assert(hole_at(ta, k - oa, g));
                        }
                        if text_holes(ta).contains(g) {
                            let k = choose|k: int| hole_at(ta, k, g);
                            if k > 0 {
                                assert(t[oa + k - 1] == ta[k - 1]);
                            }
                            assert(hole_at(t, oa + k, g));
                        }
                    }
                    assert(text_holes(t) =~= reach_holes(p, i));
                } else {
                    let b = m.right() as int;
                    let tb = pat_text(p, b);
                    let ob = oa + ta.len() + 1int;
                    lemma_text_holes(p, b);
                    lemma_text_ends(p, b);
                    assert forall|j: int| 0 <= j < tb.len() implies t[ob + j] == #[trigger] tb[j] by {}
                    assert(t[oa + ta.len()] == ' ');
                    assert(t[ob + tb.len()] == ')');
                    assert forall|g: usize| text_holes(t).contains(g) <==> (text_holes(ta).contains(g) || text_holes(tb).contains(g)) by {
                        if text_holes(t).contains(g) {
                            let k = choose|k: int| hole_at(t, k, g);
                            if k < oa + ta.len() {
                                assert(oa <= k);
                                if k + 1 == oa + ta.len() {
                                    assert(t[k + 1] == ' ');
                                }
                                if k > oa {
                                    assert(t[k - 1] == ta[k - oa - 1]);
                                }
                                assert(hole_at(ta, k - oa, g));
                            } else {
                                assert(ob <= k < ob + tb.len());
                                if k + 1 == ob + tb.len() {
                                    assert(t[k + 1] == ')');
                                }
                                if k > ob {
                                    assert(t[k - 1] == tb[k - ob - 1]);
                                }
                                assert(hole_at(tb, k - ob, g));
                            }
                        }
                        if text_holes(ta).contains(g) {
                            let k = choose|k: int| hole_at(ta, k, g);
                            if k > 0 {
                                assert(t[oa + k - 1] == ta[k - 1]);
                            }
                            assert(hole_at(t, oa + k, g));
                        }
                        if text_holes(tb).contains(g) {
                            let k = choose|k: int| hole_at(tb, k, g);
                            if k > 0 {
                                assert(t[ob + k - 1] == tb[k - 1]);
                            }
                            assert(hole_at(t, ob + k, g));
                        }
                    }
                    assert(text_holes(t) =~= reach_holes(p, i));
                }
            }
        },
    }
}


/// The placeholders reachable from a node are placeholders of the pattern.
proof fn lemma_reach_in_holes<const N: u32>(p: Seq<PatNode<N>>, i: int)
    requires
        nodes_ok(p),
        0 <= i < p.len(),
    ensures
        reach_holes(p, i).subset_of(holes_of(p)),
    decreases i,
{
    match p[i] {
        PatNode::Hole(h) => {
            assert(holes_of(p).contains(h)) by {
                assert(p[i] == PatNode::<N>::Hole(h));
            }
        },
        PatNode::Node(m) => {
            if m.is_unary() || m.is_binary() {
                lemma_reach_in_holes(p, m.left() as int);
            }
            if m.is_binary() {
                lemma_reach_in_holes(p, m.right() as int);
            }
        },
    }
}

/// Writing a rule built from two terms as its two sides and reading them back gives a rule:
/// both sides read back, and every placeholder of the right side is written on the left, so
/// the placeholder check passes. The read-back rule has the same display name. This holds
/// where every placeholder of the left side is reachable from its root, that is, where the
/// left term uses every variable it holds, and wherever the right side has no placeholder.
pub proof fn lemma_round_trip<const N: u32>(
    e1: RecExpr<N>,
    e2: RecExpr<N>,
    eq: Equality<N>,
    ser: SerializedEq,
    back: Equality<N>,
)
    requires
        e1.wf(),
        e2.wf(),
        term_vars(e2.nodes@).subset_of(term_vars(e1.nodes@)),
        eq.lhs.wf(),
        eq.rhs.wf(),
        generalizes(eq.lhs.nodes@, e1.nodes@, pair_names(e1.nodes@, e2.nodes@)),
        generalizes(eq.rhs.nodes@, e2.nodes@, pair_names(e1.nodes@, e2.nodes@)),
        eq.name@ == rule_name(eq.lhs.nodes@, eq.rhs.nodes@),
        holes_of(eq.lhs.nodes@) == reach_holes(eq.lhs.nodes@, eq.lhs.nodes@.len() - 1)
            || holes_of(eq.rhs.nodes@) == Set::<usize>::empty(),
        ser.lhs@ == pattern_text(eq.lhs.nodes@),
        ser.rhs@ == pattern_text(eq.rhs.nodes@),
    ensures
        printable(eq.lhs.nodes@),
        printable(eq.rhs.nodes@),
        text_holes(ser.rhs@).subset_of(text_holes(ser.lhs@)),
        trims_to(canon::<N>(ser.lhs@), pattern_text(back.lhs.nodes@)) && text_clean(
            pattern_text(back.lhs.nodes@),
        ) && trims_to(canon::<N>(ser.rhs@), pattern_text(back.rhs.nodes@)) && text_clean(
            pattern_text(back.rhs.nodes@),
        ) && back.name@ == rule_name(back.lhs.nodes@, back.rhs.nodes@) ==> back.name@ == eq.name@,
{
    let l = eq.lhs.nodes@;
    let r = eq.rhs.nodes@;
    let v1 = e1.nodes@;
    let v2 = e2.nodes@;
    let names = pair_names(v1, v2);
    crate::equality::lemma_first_seen_no_dup(Seq::<Seq<char>>::empty(), v1);
    crate::equality::lemma_first_seen_no_dup(first_seen(Seq::<Seq<char>>::empty(), v1), v2);
    assert(fully_generalized(l)) by {
        assert forall|k: int| 0 <= k < l.len() implies !(#[trigger] l[k] is Node && l[k]->Node_0 is Var) by {
            assert(v1[k] is Var ==> l[k] is Hole);
        }
    }
    assert(fully_generalized(r)) by {
        assert forall|k: int| 0 <= k < r.len() implies !(#[trigger] r[k] is Node && r[k]->Node_0 is Var) by {
            assert(v2[k] is Var ==> r[k] is Hole);
        }
    }
    assert(nums_wf(l)) by {
        assert forall|k: int| 0 <= k < l.len() && #[trigger] l[k] is Node && l[k]->Node_0 is Num implies l[k]->Node_0->Num_0.wf() by {
            assert(v1[k] is Num);
        }
    }
    assert(nums_wf(r)) by {
        assert forall|k: int| 0 <= k < r.len() && #[trigger] r[k] is Node && r[k]->Node_0 is Num implies r[k]->Node_0->Num_0.wf() by {
            assert(v2[k] is Num);
        }
    }
    lemma_text_holes(l, l.len() - 1);
    lemma_text_holes(r, r.len() - 1);
    lemma_reach_in_holes(r, r.len() - 1);
    assert forall|h: usize| holes_of(r).contains(h) implies holes_of(l).contains(h) by {
        let k = choose|k: int| 0 <= k < r.len() && r[k] == PatNode::<N>::Hole(h);
        assert(v2[k] is Var);
        let s = v2[k]->Var_0@;
        assert(term_vars(v2).contains(s));
        let k2 = choose|k2: int| 0 <= k2 < v1.len() && v1[k2] is Var && (#[trigger] v1[k2])->Var_0@ == s;
        assert(l[k2] is Hole);
        assert(names[l[k2]->Hole_0 as int] == names[h as int]);
        assert(l[k2] == PatNode::<N>::Hole(h));
    }
    lemma_text_ends(l, l.len() - 1);
    lemma_text_ends(r, r.len() - 1);
    lemma_printable_readable(l);
    lemma_printable_readable(r);
    lemma_trims_to_itself(ser.lhs@);
    lemma_trims_to_itself(ser.rhs@);
    lemma_canon_trims::<N>(ser.lhs@, l);
    lemma_canon_trims::<N>(ser.rhs@, r);
    if trims_to(canon::<N>(ser.lhs@), pattern_text(back.lhs.nodes@)) && text_clean(pattern_text(back.lhs.nodes@))
        && trims_to(canon::<N>(ser.rhs@), pattern_text(back.rhs.nodes@)) && text_clean(pattern_text(back.rhs.nodes@)) {
        lemma_trim_unique(canon::<N>(ser.lhs@), pattern_text(l), pattern_text(back.lhs.nodes@));
        lemma_trim_unique(canon::<N>(ser.rhs@), pattern_text(r), pattern_text(back.rhs.nodes@));
    }
}

/// The same round trip through the one-line form `lhs=>rhs`: the line reads back as a rule
/// with the same display name.
pub proof fn lemma_line_round_trip<const N: u32>(
    e1: RecExpr<N>,
    e2: RecExpr<N>,
    eq: Equality<N>,
    ser: SerializedEq,
    line: Seq<char>,
    back: Equality<N>,
)
    requires
        e1.wf(),
        e2.wf(),
        term_vars(e2.nodes@).subset_of(term_vars(e1.nodes@)),
        eq.lhs.wf(),
        eq.rhs.wf(),
        generalizes(eq.lhs.nodes@, e1.nodes@, pair_names(e1.nodes@, e2.nodes@)),
        generalizes(eq.rhs.nodes@, e2.nodes@, pair_names(e1.nodes@, e2.nodes@)),
        eq.name@ == rule_name(eq.lhs.nodes@, eq.rhs.nodes@),
        holes_of(eq.lhs.nodes@) == reach_holes(eq.lhs.nodes@, eq.lhs.nodes@.len() - 1)
            || holes_of(eq.rhs.nodes@) == Set::<usize>::empty(),
        ser.lhs@ == pattern_text(eq.lhs.nodes@),
        ser.rhs@ == pattern_text(eq.rhs.nodes@),
        line == rule_line(ser.lhs@, ser.rhs@),
    ensures
        printable(eq.lhs.nodes@),
        printable(eq.rhs.nodes@),
        readable_pattern(eq.lhs.nodes@),
        readable_pattern(eq.rhs.nodes@),
        !ser.lhs@.contains('='),
        trims_to(canon::<N>(ser.lhs@), pattern_text(eq.lhs.nodes@)),
        trims_to(canon::<N>(ser.rhs@), pattern_text(eq.rhs.nodes@)),
        text_holes(pattern_text(eq.rhs.nodes@)).subset_of(text_holes(pattern_text(eq.lhs.nodes@))),
        ({
            let k = crate::equality::first_arrow(line)->Some_0;
            trims_to(canon::<N>(line.take(k)), pattern_text(back.lhs.nodes@)) && text_clean(
                pattern_text(back.lhs.nodes@),
            ) && trims_to(canon::<N>(line.skip(k + 2)), pattern_text(back.rhs.nodes@))
                && text_clean(pattern_text(back.rhs.nodes@)) && back.name@ == rule_name(
                back.lhs.nodes@,
                back.rhs.nodes@,
            ) ==> back.name@ == eq.name@
        }),
{
    lemma_round_trip(e1, e2, eq, ser, back);
    let l = eq.lhs.nodes@;
    lemma_printable_readable(l);
    lemma_printable_readable(eq.rhs.nodes@);
    lemma_no_equals(l, l.len() - 1);
    if ser.lhs@.contains('=') {
        let k = choose|k: int| 0 <= k < ser.lhs@.len() && ser.lhs@[k] == '=';
        assert(pat_text(l, l.len() - 1)[k] != '=');
    }
    lemma_line_arrow(ser.lhs@, ser.rhs@, line);
    lemma_trims_to_itself(ser.lhs@);
    lemma_trims_to_itself(ser.rhs@);
    lemma_canon_trims::<N>(ser.lhs@, l);
    lemma_canon_trims::<N>(ser.rhs@, eq.rhs.nodes@);
}

proof fn lemma_trims_to_itself(t: Seq<char>)
    ensures
        trims_to(t, t),
{
    assert(t.subrange(0, t.len() as int) =~= t);
    assert(0 <= 0 <= t.len() <= t.len() && t.subrange(0, t.len() as int) == t && (forall|k: int|
        0 <= k < 0 ==> is_space(#[trigger] t[k])) && (forall|k: int|
        t.len() <= k < t.len() ==> is_space(#[trigger] t[k])));
}

} // verus!
