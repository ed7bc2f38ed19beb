use crate::bv::decimal;
use crate::lang::Math;
use vstd::prelude::*;
use vstd::string::StrSliceExecFns;

verus! {

/// The number of placeholder names, `a` to `z`.
pub const MAX_PLACEHOLDERS: usize = 26;

/// A term as an arena of nodes: every operand handle points to an earlier node, and the
/// last node is the root.
pub struct RecExpr<const N: u32> {
    pub nodes: Vec<Math<N>>,
}

impl<const N: u32> RecExpr<N> {
    pub open spec fn wf(&self) -> bool {
        &&& self.nodes@.len() > 0
        &&& forall|k: int| 0 <= k < self.nodes@.len() ==> (#[trigger] self.nodes@[k]).children_below(k)
        &&& forall|k: int|
            0 <= k < self.nodes@.len() && (#[trigger] self.nodes@[k]) is Num ==> self.nodes@[k]->Num_0.wf()
    }
}

/// One node of a pattern: a node of the term language, or the placeholder with the given
/// number (`?a` is 0).
#[derive(Clone, Debug)]
pub enum PatNode<const N: u32> {
    Node(Math<N>),
    Hole(usize),
}

/// A pattern, laid out as a term is: operands point to earlier nodes, the root is last.
pub struct Pattern<const N: u32> {
    pub nodes: Vec<PatNode<N>>,
}

impl<const N: u32> Pattern<N> {
    pub open spec fn wf(&self) -> bool {
        pattern_wf(self.nodes@)
    }
}

pub open spec fn pattern_wf<const N: u32>(p: Seq<PatNode<N>>) -> bool {
    &&& p.len() > 0
    &&& forall|k: int|
        0 <= k < p.len() ==> match #[trigger] p[k] {
            PatNode::Node(m) => m.children_below(k),
            PatNode::Hole(h) => h < MAX_PLACEHOLDERS,
        }
}

/// The placeholder numbers that occur in a pattern.
pub open spec fn holes_of<const N: u32>(p: Seq<PatNode<N>>) -> Set<usize> {
    Set::new(|h: usize| exists|k: int| 0 <= k < p.len() && p[k] == PatNode::<N>::Hole(h))
}

/// Variable names in order of first occurrence: `names`, then each name of a `Var` node of
/// `nodes` that has not come before.
pub open spec fn first_seen<const N: u32>(names: Seq<Seq<char>>, nodes: Seq<Math<N>>) -> Seq<
    Seq<char>,
>
    decreases nodes.len(),
{
    if nodes.len() == 0 {
        names
    } else {
        let before = first_seen(names, nodes.drop_last());
        match nodes.last() {
            Math::Var(s) => if before.contains(s@) {
                before
            } else {
                before.push(s@)
            },
            _ => before,
        }
    }
}

/// `p` is `nodes` with each variable replaced by the placeholder of its position in `names`.
pub open spec fn generalizes<const N: u32>(
    p: Seq<PatNode<N>>,
    nodes: Seq<Math<N>>,
    names: Seq<Seq<char>>,
) -> bool {
    &&& p.len() == nodes.len()
    &&& forall|k: int|
        0 <= k < nodes.len() ==> match #[trigger] nodes[k] {
            Math::Var(s) => p[k] is Hole && p[k]->Hole_0 < names.len() && names[p[k]->Hole_0 as int]
                == s@,
            m => p[k] == PatNode::Node(m),
        }
}

pub open spec fn names_view(v: Seq<String>) -> Seq<Seq<char>> {
    v.map_values(|s: String| s@)
}

pub open spec fn letter(h: nat) -> char {
    ((h + 97) as u8) as char
}

/// The operator's symbol in the terse notation.
pub open spec fn op_symbol<const N: u32>(m: Math<N>) -> Seq<char> {
    match m {
        Math::Add(_, _) => seq!['+'],
        Math::Sub(_, _) => seq!['-', '-'],
        Math::Mul(_, _) => seq!['*'],
        Math::Neg(_) => seq!['-'],
        Math::Not(_) => seq!['~'],
        Math::Shl(_, _) => seq!['<', '<'],
        Math::Shr(_, _) => seq!['>', '>'],
        Math::And(_, _) => seq!['&'],
        Math::Or(_, _) => seq!['|'],
        Math::Xor(_, _) => seq!['^'],
        _ => seq![],
    }
}

/// The s-expression text of the sub-pattern rooted at node `i`.
pub open spec fn pat_text<const N: u32>(p: Seq<PatNode<N>>, i: int) -> Seq<char>
    decreases i,
{
    if i < 0 || i >= p.len() {
        seq![]
    } else {
        match p[i] {
            PatNode::Hole(h) => seq!['?', letter(h as nat)],
            PatNode::Node(m) => match m {
                Math::Num(c) => decimal(c@ as nat),
                Math::Var(s) => s@,
                _ => if m.is_unary() {
                    let a = m.left() as int;
                    if 0 <= a < i {
                        seq!['('] + op_symbol(m) + seq![' '] + pat_text(p, a) + seq![')']
                    } else {
                        seq![]
                    }
                } else {
                    let a = m.left() as int;
                    let b = m.right() as int;
                    if 0 <= a < i && 0 <= b < i {
                        seq!['('] + op_symbol(m) + seq![' '] + pat_text(p, a) + seq![' ']
                            + pat_text(p, b) + seq![')']
                    } else {
                        seq![]
                    }
                },
            },
        }
    }
}

/// The text of a whole pattern.
pub open spec fn pattern_text<const N: u32>(p: Seq<PatNode<N>>) -> Seq<char> {
    pat_text(p, p.len() - 1)
}

/// The display name of the rule `lhs ==> rhs`.
pub open spec fn rule_name<const N: u32>(lhs: Seq<PatNode<N>>, rhs: Seq<PatNode<N>>) -> Seq<char> {
    pattern_text(lhs) + seq![' ', '=', '=', '>', ' '] + pattern_text(rhs)
}

/// A copy of a node.
pub(crate) fn copy_node<const N: u32>(m: &Math<N>) -> (r: Math<N>)
    ensures
        r == *m,
{
    match m {
        Math::Add(a, b) => Math::Add(*a, *b),
        Math::Sub(a, b) => Math::Sub(*a, *b),
        Math::Mul(a, b) => Math::Mul(*a, *b),
        Math::Neg(a) => Math::Neg(*a),
        Math::Not(a) => Math::Not(*a),
        Math::Shl(a, b) => Math::Shl(*a, *b),
        Math::Shr(a, b) => Math::Shr(*a, *b),
        Math::And(a, b) => Math::And(*a, *b),
        Math::Or(a, b) => Math::Or(*a, *b),
        Math::Xor(a, b) => Math::Xor(*a, *b),
        Math::Num(c) => Math::Num(*c),
        Math::Var(s) => Math::Var(s.clone()),
    }
}

/// The position of `name` in `names`, if it is there.
fn find_name(names: &Vec<String>, name: &String) -> (r: Option<usize>)
    ensures
        r is None ==> !names_view(names@).contains(name@),
        r is Some ==> r->Some_0 < names@.len() && names@[r->Some_0 as int]@ == name@,
{
    let mut k: usize = 0;
    while k < names.len()
        invariant
            k <= names@.len(),
            forall|t: int| 0 <= t < k ==> names@[t]@ != name@,
        decreases names@.len() - k,
    {
        if names[k] == *name {
            return Some(k);
        }
        k = k + 1;
    }
    None
}

/// Replaces the variables of `expr` by placeholders, numbering names in order of first
/// occurrence and extending `map`, which may already hold names from another term.
pub fn generalize<const N: u32>(expr: &RecExpr<N>, map: &mut Vec<String>) -> (r: Pattern<N>)
    requires
        names_view(old(map)@).no_duplicates(),
    ensures
        names_view(final(map)@) == first_seen(names_view(old(map)@), expr.nodes@),
        names_view(final(map)@).no_duplicates(),
        generalizes(r.nodes@, expr.nodes@, names_view(final(map)@)),
{
    let ghost names0 = names_view(map@);
    let mut out: Vec<PatNode<N>> = Vec::new();
    let mut k: usize = 0;
    while k < expr.nodes.len()
        invariant
            k <= expr.nodes@.len(),
            names_view(map@) == first_seen(names0, expr.nodes@.take(k as int)),
            names_view(map@).no_duplicates(),
            generalizes(out@, expr.nodes@.take(k as int), names_view(map@)),
        decreases expr.nodes@.len() - k,
    {
        let ghost before = names_view(map@);
        let ghost prefix = expr.nodes@.take(k as int);
        assert(expr.nodes@.take(k + 1).drop_last() =~= prefix);
        match &expr.nodes[k] {
            Math::Var(name) => {
                match find_name(map, name) {
                    Some(h) => {
                        out.push(PatNode::Hole(h));
                    },
                    None => {
                        let h = map.len();
                        map.push(name.clone());
                        out.push(PatNode::Hole(h));
                        proof {
                            assert(names_view(map@) =~= before.push(name@));
                            assert forall|a: int, b: int|
                                0 <= a < b < names_view(map@).len() implies names_view(map@)[a]
                                != names_view(map@)[b] by {
                                if b == before.len() {
                                    assert(before.contains(before[a]));
                                }
                            }
                        }
                    },
                }
            },
            m => {
                out.push(PatNode::Node(copy_node(m)));
            },
        }
        proof {
            let t = expr.nodes@.take(k + 1);
            let nv = names_view(map@);
            assert(before.is_prefix_of(nv)) by {
                assert forall|a: int| 0 <= a < before.len() implies before[a] == nv[a] by {}
            }
            assert forall|q: int| 0 <= q < t.len() implies match #[trigger] t[q] {
                Math::Var(s) => out@[q] is Hole && out@[q]->Hole_0 < nv.len() && nv[out@[q]->Hole_0 as int] == s@,
                m => out@[q] == PatNode::Node(m),
            } by {
                if q < k {
                    assert(t[q] == prefix[q]);
                }
            }
        }
        k = k + 1;
    }
    assert(expr.nodes@.take(expr.nodes@.len() as int) =~= expr.nodes@);
    Pattern { nodes: out }
}

/// The characters of a string.
pub(crate) fn string_chars(s: &String) -> (r: Vec<char>)
    ensures
        r@ == s@,
{
    let t = s.as_str();
    let n = t.unicode_len();
    let mut r: Vec<char> = Vec::new();
    let mut k: usize = 0;
    while k < n
        invariant
            n == t@.len(),
            t@ == s@,
            k <= n,
            r@ == t@.take(k as int),
        decreases n - k,
    {
        r.push(t.get_char(k));
        k = k + 1;
        assert(r@ =~= t@.take(k as int));
    }
    assert(t@.take(n as int) =~= t@);
    r
}

pub(crate) fn push_all(out: &mut Vec<char>, s: &Vec<char>)
    ensures
        final(out)@ == old(out)@ + s@,
{
    let mut k: usize = 0;
    let ghost o = out@;
    while k < s.len()
        invariant
            k <= s@.len(),
            out@ == o + s@.take(k as int),
        decreases s@.len() - k,
    {
        out.push(s[k]);
        k = k + 1;
        assert(out@ =~= o + s@.take(k as int));
    }
    assert(s@.take(s@.len() as int) =~= s@);
}

pub(crate) fn op_chars<const N: u32>(m: &Math<N>) -> (r: Vec<char>)
    ensures
        r@ == op_symbol(*m),
{
    let r = match m {
        Math::Add(_, _) => vec!['+'],
        Math::Sub(_, _) => vec!['-', '-'],
        Math::Mul(_, _) => vec!['*'],
        Math::Neg(_) => vec!['-'],
        Math::Not(_) => vec!['~'],
        Math::Shl(_, _) => vec!['<', '<'],
        Math::Shr(_, _) => vec!['>', '>'],
        Math::And(_, _) => vec!['&'],
        Math::Or(_, _) => vec!['|'],
        Math::Xor(_, _) => vec!['^'],
        _ => Vec::new(),
    };
    assert(r@ =~= op_symbol(*m));
    r
}

/// Appends the text of the sub-pattern rooted at node `i`.
fn write_node<const N: u32>(p: &Vec<PatNode<N>>, i: usize, out: &mut Vec<char>)
    requires
        pattern_wf(p@),
        i < p@.len(),
    ensures
        final(out)@ == old(out)@ + pat_text(p@, i as int),
    decreases i,
{
    let ghost o = out@;
    match &p[i] {
        PatNode::Hole(h) => {
            out.push('?');
            out.push(((*h as u8) + 97u8) as char);
            assert(out@ =~= o + pat_text(p@, i as int));
        },
        PatNode::Node(m) => {
            assert(m.children_below(i as int));
            match m {
                Math::Num(c) => {
                    push_all(out, &c.to_chars());
                },
                Math::Var(s) => {
                    push_all(out, &string_chars(s));
                },
                Math::Neg(a) | Math::Not(a) => {
                    out.push('(');
                    push_all(out, &op_chars(m));
                    out.push(' ');
                    write_node(p, *a, out);
                    out.push(')');
                    assert(out@ =~= o + pat_text(p@, i as int));
                },
                Math::Add(a, b) | Math::Sub(a, b) | Math::Mul(a, b) | Math::Shl(a, b) | Math::Shr(
                    a,
                    b,
                ) | Math::And(a, b) | Math::Or(a, b) | Math::Xor(a, b) => {
                    out.push('(');
                    push_all(out, &op_chars(m));
                    out.push(' ');
                    write_node(p, *a, out);
                    out.push(' ');
                    write_node(p, *b, out);
                    out.push(')');
                    assert(out@ =~= o + pat_text(p@, i as int));
                },
            }
        },
    }
}

impl<const N: u32> Pattern<N> {
    /// The pattern as an s-expression, placeholders written `?a`, `?b`, ...
    pub fn to_chars(&self) -> (r: Vec<char>)
        requires
            self.wf(),
        ensures
            r@ == pattern_text(self.nodes@),
    {
        let mut r: Vec<char> = Vec::new();
        write_node(&self.nodes, self.nodes.len() - 1, &mut r);
        assert(r@ =~= pattern_text(self.nodes@));
        r
    }
}

/// Relies on `String`'s `FromIterator<char>`: the string holds the characters in order.
#[verifier::external_body]
pub(crate) fn chars_to_string(v: &Vec<char>) -> (r: String)
    ensures
        r@ == v@,
{
    v.iter().collect::<String>()
}

/// The names of the variables of a term.
pub open spec fn term_vars<const N: u32>(nodes: Seq<Math<N>>) -> Set<Seq<char>> {
    Set::new(
        |s: Seq<char>|
            exists|k: int| 0 <= k < nodes.len() && nodes[k] is Var && (#[trigger] nodes[k])->Var_0@ == s,
    )
}

/// The shared naming of a pair of terms: the left term's variables first.
pub open spec fn pair_names<const N: u32>(e1: Seq<Math<N>>, e2: Seq<Math<N>>) -> Seq<Seq<char>> {
    first_seen(first_seen(Seq::empty(), e1), e2)
}

/// Whether every placeholder of `rhs` also occurs in `lhs`.
pub(crate) fn holes_bound<const N: u32>(lhs: &Vec<PatNode<N>>, rhs: &Vec<PatNode<N>>) -> (r: bool)
    ensures
        r == holes_of(rhs@).subset_of(holes_of(lhs@)),
{
    let mut k: usize = 0;
    while k < rhs.len()
        invariant
            k <= rhs@.len(),
            forall|q: int| 0 <= q < k && #[trigger] rhs@[q] is Hole ==> holes_of(lhs@).contains(rhs@[q]->Hole_0),
        decreases rhs@.len() - k,
    {
        if let PatNode::Hole(h) = &rhs[k] {
            let mut found = false;
            let mut t: usize = 0;
            while t < lhs.len()
                invariant
                    t <= lhs@.len(),
                    found ==> holes_of(lhs@).contains(*h),
                    !found ==> forall|q: int| 0 <= q < t ==> lhs@[q] != PatNode::<N>::Hole(*h),
                decreases lhs@.len() - t,
            {
                if let PatNode::Hole(g) = &lhs[t] {
                    if *g == *h {
                        found = true;
                    }
                }
                t = t + 1;
            }
            if !found {
                proof {
                    assert(holes_of(rhs@).contains(*h)) by {
                        assert(rhs@[k as int] == PatNode::<N>::Hole(*h));
                    }
                }
                return false;
            }
        }
        k = k + 1;
    }
    proof {
        assert forall|h: usize| holes_of(rhs@).contains(h) implies holes_of(lhs@).contains(h) by {
            let q = choose|q: int| 0 <= q < rhs@.len() && rhs@[q] == PatNode::<N>::Hole(h);
            assert(rhs@[q] is Hole);
        }
    }
    true
}

/// One rewrite rule `lhs ==> rhs` between patterns, with its display name.
pub struct Equality<const N: u32> {
    pub name: String,
    pub lhs: Pattern<N>,
    pub rhs: Pattern<N>,
}

impl<const N: u32> Equality<N> {
    /// The rule that two terms found equal stand for: both are generalized with one naming,
    /// the left term's variables first. There is no rule when the right side has a variable
    /// that the left side lacks, or when the two use more names than there are placeholders.
    pub fn new(e1: &RecExpr<N>, e2: &RecExpr<N>) -> (r: Option<Self>)
        requires
            e1.wf(),
            e2.wf(),
        ensures
            r is Some <==> pair_names(e1.nodes@, e2.nodes@).len() <= MAX_PLACEHOLDERS
                && term_vars(e2.nodes@).subset_of(term_vars(e1.nodes@)),
            r is Some ==> {
                let eq = r->Some_0;
                let names = pair_names(e1.nodes@, e2.nodes@);
                &&& eq.lhs.wf()
                &&& eq.rhs.wf()
                &&& generalizes(eq.lhs.nodes@, e1.nodes@, names)
                &&& generalizes(eq.rhs.nodes@, e2.nodes@, names)
                &&& eq.name@ == rule_name(eq.lhs.nodes@, eq.rhs.nodes@)
            },
    {
        let mut map: Vec<String> = Vec::new();
        assert(names_view(map@) =~= Seq::<Seq<char>>::empty());
        let lhs = generalize(e1, &mut map);
        let ghost mid = names_view(map@);
        let rhs = generalize(e2, &mut map);
        let ghost names = names_view(map@);
        proof {
            assert(mid.is_prefix_of(names)) by {
                lemma_first_seen_extends(mid, e2.nodes@);
            }
            assert forall|k: int| 0 <= k < e1.nodes@.len() implies match #[trigger] e1.nodes@[k] {
                Math::Var(s) => lhs.nodes@[k] is Hole && lhs.nodes@[k]->Hole_0 < names.len()
                    && names[lhs.nodes@[k]->Hole_0 as int] == s@,
                m => lhs.nodes@[k] == PatNode::Node(m),
            } by {
                if e1.nodes@[k] is Var {
                    assert(mid[lhs.nodes@[k]->Hole_0 as int] == names[lhs.nodes@[k]->Hole_0 as int]);
                }
            }
        }
        let ok = holes_bound(&lhs.nodes, &rhs.nodes);
        proof {
            let l = lhs.nodes@;
            let rr = rhs.nodes@;
            let v1 = e1.nodes@;
            let v2 = e2.nodes@;
            if ok {
                assert forall|s: Seq<char>| term_vars(v2).contains(s) implies term_vars(v1).contains(s) by {
                    let k = choose|k: int| 0 <= k < v2.len() && v2[k] is Var && (#[trigger] v2[k])->Var_0@ == s;
                    let h = rr[k]->Hole_0;
                    assert(holes_of(rr).contains(h));
                    assert(holes_of(l).contains(h));
                    let k2 = choose|k2: int| 0 <= k2 < l.len() && l[k2] == PatNode::<N>::Hole(h);
                    assert(v1[k2] is Var);
                }
            } else {
                let h = choose|h: usize| holes_of(rr).contains(h) && !holes_of(l).contains(h);
                let k = choose|k: int| 0 <= k < rr.len() && rr[k] == PatNode::<N>::Hole(h);
                assert(v2[k] is Var);
                let s = v2[k]->Var_0@;
                assert(term_vars(v2).contains(s));
                if term_vars(v1).contains(s) {
                    let k2 = choose|k2: int| 0 <= k2 < v1.len() && v1[k2] is Var && (#[trigger] v1[k2])->Var_0@ == s;
                    assert(l[k2] is Hole);
                    assert(holes_of(l).contains(l[k2]->Hole_0));
                    assert(names[l[k2]->Hole_0 as int] == names[h as int]);
                }
            }
        }
        if !ok || map.len() > MAX_PLACEHOLDERS {
            return None;
        }
        proof {
            assert forall|k: int| 0 <= k < lhs.nodes@.len() implies match #[trigger] lhs.nodes@[k] {
                PatNode::Node(m) => m.children_below(k),
                PatNode::Hole(h) => h < MAX_PLACEHOLDERS,
            } by {
                assert(e1.nodes@[k].children_below(k));
            }
            assert forall|k: int| 0 <= k < rhs.nodes@.len() implies match #[trigger] rhs.nodes@[k] {
                PatNode::Node(m) => m.children_below(k),
                PatNode::Hole(h) => h < MAX_PLACEHOLDERS,
            } by {
                assert(e2.nodes@[k].children_below(k));
            }
        }
        let mut text = lhs.to_chars();
        text.push(' ');
        text.push('=');
        text.push('=');
        text.push('>');
        text.push(' ');
        push_all(&mut text, &rhs.to_chars());
        let name = chars_to_string(&text);
        assert(name@ =~= rule_name(lhs.nodes@, rhs.nodes@));
        Some(Equality { name, lhs, rhs })
    }
}

/// Naming more terms only adds names after those already given.
proof fn lemma_first_seen_extends<const N: u32>(names: Seq<Seq<char>>, nodes: Seq<Math<N>>)
    ensures
        names.is_prefix_of(first_seen(names, nodes)),
    decreases nodes.len(),
{
    if nodes.len() > 0 {
        lemma_first_seen_extends(names, nodes.drop_last());
    }
}

/// Naming with distinct names gives distinct names.
pub(crate) proof fn lemma_first_seen_no_dup<const N: u32>(names: Seq<Seq<char>>, nodes: Seq<Math<N>>)
    requires
        names.no_duplicates(),
    ensures
        first_seen(names, nodes).no_duplicates(),
    decreases nodes.len(),
{
    if nodes.len() > 0 {
        lemma_first_seen_no_dup(names, nodes.drop_last());
        let before = first_seen(names, nodes.drop_last());
        if let Math::Var(s) = nodes.last() {
            if !before.contains(s@) {
                let after = before.push(s@);
                assert forall|a: int, b: int| 0 <= a < b < after.len() implies after[a] != after[b] by {
                    if b == before.len() {
                        assert(before.contains(before[a]));
                    }
                }
            }
        }
    }
}

/// Under a naming without repeats, a term has one generalization.
proof fn lemma_generalizes_unique<const N: u32>(
    pa: Seq<PatNode<N>>,
    pb: Seq<PatNode<N>>,
    nodes: Seq<Math<N>>,
    names: Seq<Seq<char>>,
)
    requires
        names.no_duplicates(),
        generalizes(pa, nodes, names),
        generalizes(pb, nodes, names),
    ensures
        pa == pb,
{
    assert forall|k: int| 0 <= k < pa.len() implies pa[k] == pb[k] by {
        if nodes[k] is Var {
            assert(names[pa[k]->Hole_0 as int] == names[pb[k]->Hole_0 as int]);
        }
    }
    assert(pa =~= pb);
}

/// Generalizing the same pair of terms twice gives the same patterns, placeholder for
/// placeholder, and the same display name.
pub proof fn lemma_generalize_pair_deterministic<const N: u32>(
    e1: Seq<Math<N>>,
    e2: Seq<Math<N>>,
    a: Equality<N>,
    b: Equality<N>,
)
    requires
        generalizes(a.lhs.nodes@, e1, pair_names(e1, e2)),
        generalizes(a.rhs.nodes@, e2, pair_names(e1, e2)),
        a.name@ == rule_name(a.lhs.nodes@, a.rhs.nodes@),
        generalizes(b.lhs.nodes@, e1, pair_names(e1, e2)),
        generalizes(b.rhs.nodes@, e2, pair_names(e1, e2)),
        b.name@ == rule_name(b.lhs.nodes@, b.rhs.nodes@),
    ensures
        a.lhs.nodes@ == b.lhs.nodes@,
        a.rhs.nodes@ == b.rhs.nodes@,
        a.name@ == b.name@,
{
    lemma_first_seen_no_dup(Seq::<Seq<char>>::empty(), e1);
    lemma_first_seen_no_dup(first_seen(Seq::<Seq<char>>::empty(), e1), e2);
    lemma_generalizes_unique(a.lhs.nodes@, b.lhs.nodes@, e1, pair_names(e1, e2));
    lemma_generalizes_unique(a.rhs.nodes@, b.rhs.nodes@, e2, pair_names(e1, e2));
}

/// A rule as stored: the text of each side.
pub struct SerializedEq {
    pub lhs: String,
    pub rhs: String,
}

/// The position of the first `=>` in `s`, if any.
pub open spec fn first_arrow(s: Seq<char>) -> Option<int> {
    if exists|k: int| is_arrow_at(s, k) {
        Some(choose|k: int| is_arrow_at(s, k) && forall|t: int| 0 <= t < k ==> !is_arrow_at(s, t))
    } else {
        None
    }
}

pub open spec fn is_arrow_at(s: Seq<char>, k: int) -> bool {
    0 <= k && k + 1 < s.len() && s[k] == '=' && s[k + 1] == '>'
}

impl SerializedEq {
    /// Splits a line at its first `=>` into the two sides.
    pub fn parse(s: &str) -> (r: Result<SerializedEq, String>)
        ensures
            r is Ok <==> exists|k: int| is_arrow_at(s@, k),
            r is Ok ==> {
                let k = first_arrow(s@)->Some_0;
                &&& r->Ok_0.lhs@ == s@.take(k)
                &&& r->Ok_0.rhs@ == s@.skip(k + 2)
            },
            r is Err ==> r->Err_0@ == seq!['F', 'a', 'i', 'l', 'e', 'd', ' ', 't', 'o', ' ', 's', 'p', 'l', 'i', 't', ' '] + s@,
    {
        let n = s.unicode_len();
        let mut k: usize = 0;
        while k < n && k + 1 < n
            invariant
                n == s@.len(),
                k <= n,
                forall|t: int| 0 <= t < k ==> !is_arrow_at(s@, t),
            decreases n - k,
        {
            if s.get_char(k) == '=' && s.get_char(k + 1) == '>' {
                proof {
                    assert(is_arrow_at(s@, k as int));
                    let c = choose|c: int| is_arrow_at(s@, c) && forall|t: int| 0 <= t < c ==> !is_arrow_at(s@, t);
                    assert(c == k) by {
                        if c < k {
                        } else if c > k {
                            assert(!is_arrow_at(s@, k as int));
                        }
                    }
                }
                let l = s.substring_char(0, k);
                let r = s.substring_char(k + 2, n);
                assert(s@.subrange(0, k as int) =~= s@.take(k as int));
                assert(s@.subrange(k + 2, n as int) =~= s@.skip(k + 2));
                return Ok(SerializedEq { lhs: l.to_owned(), rhs: r.to_owned() });
            }
            k = k + 1;
        }
        proof {
            assert forall|t: int| !is_arrow_at(s@, t) by {
                if 0 <= t < k {
                }
            }
        }
        let mut msg = string_chars(&"Failed to split ".to_owned());
        proof {
            reveal_strlit("Failed to split ");
        }
        push_all(&mut msg, &string_chars(&s.to_owned()));
        assert(msg@ =~= seq!['F', 'a', 'i', 'l', 'e', 'd', ' ', 't', 'o', ' ', 's', 'p', 'l', 'i', 't', ' '] + s@);
        Err(chars_to_string(&msg))
    }
}

impl<const N: u32> Equality<N> {
    /// The rule as stored: the text of each side.
    pub fn to_serialized(&self) -> (r: SerializedEq)
        requires
            self.lhs.wf(),
            self.rhs.wf(),
        ensures
            r.lhs@ == pattern_text(self.lhs.nodes@),
            r.rhs@ == pattern_text(self.rhs.nodes@),
    {
        SerializedEq {
            lhs: chars_to_string(&self.lhs.to_chars()),
            rhs: chars_to_string(&self.rhs.to_chars()),
        }
    }
}

} // verus!
