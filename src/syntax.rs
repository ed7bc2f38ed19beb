use crate::bv::BV;
use crate::equality::{chars_to_string, letter, pat_text, pattern_text, string_chars, PatNode, Pattern, RecExpr, MAX_PLACEHOLDERS};
use crate::lang::Math;
use crate::lexer::canon;
use crate::parse::{nodes_ok, readable_pattern, slice_eq, trims_to};
use vstd::prelude::*;

verus! {

/// `s` with each occurrence of `from`, read left to right, written `to`.
pub open spec fn replace_all(s: Seq<char>, from: Seq<char>, to: Seq<char>) -> Seq<char>
    decreases s.len(),
{
    if from.len() > 0 && from.len() <= s.len() && s.take(from.len() as int) == from {
        to + replace_all(s.skip(from.len() as int), from, to)
    } else if s.len() > 0 {
        seq![s[0]] + replace_all(s.skip(1), from, to)
    } else {
        s
    }
}

/// The rewrites from the verbose notation to the terse one, applied in this order.
pub open spec fn rewrites() -> Seq<(Seq<char>, Seq<char>)> {
    seq![
        ("bvadd"@, "+"@),
        ("bvsub"@, "--"@),
        ("bvmul"@, "*"@),
        ("bvand"@, "&"@),
        ("bvor"@, "|"@),
        ("bvneg"@, "-"@),
        ("bvnot"@, "~"@),
        ("bvlshr"@, ">>"@),
        ("bvshl"@, "<<"@),
        ("#b0000"@, "0"@),
        ("#b0111"@, "7"@),
        ("#b1000"@, "8"@),
        ("and"@, "&"@),
        ("xor"@, "^"@),
        ("or"@, "|"@),
        ("not"@, "~"@),
    ]
}

/// `s` after the first `n` rewrites.
pub open spec fn rewritten(s: Seq<char>, n: int) -> Seq<char>
    decreases n,
{
    if n <= 0 {
        s
    } else {
        let (from, to) = rewrites()[n - 1];
        replace_all(rewritten(s, n - 1), from, to)
    }
}

/// `s` in the terse notation.
pub open spec fn normalized(s: Seq<char>) -> Seq<char> {
    rewritten(s, rewrites().len() as int)
}

/// Replaces each occurrence of `from`, left to right, by `to`.
pub fn replaced(s: &Vec<char>, from: &Vec<char>, to: &Vec<char>) -> (r: Vec<char>)
    ensures
        r@ == replace_all(s@, from@, to@),
{
    let n = s.len();
    let mut r: Vec<char> = Vec::new();
    let mut k: usize = 0;
    assert(s@.skip(0) =~= s@);
    assert(r@ + replace_all(s@.skip(0), from@, to@) =~= replace_all(s@, from@, to@));
    while k < n
        invariant
            n == s@.len(),
            k <= n,
            r@ + replace_all(s@.skip(k as int), from@, to@) == replace_all(s@, from@, to@),
        decreases n - k,
    {
        let ghost rest = s@.skip(k as int);
        if from.len() > 0 && from.len() <= n - k && slice_eq(s, k, k + from.len(), from) {
            assert(rest.take(from@.len() as int) =~= s@.subrange(k as int, k + from@.len()));
            assert(rest.skip(from@.len() as int) =~= s@.skip(k + from@.len()));
            let mut t: usize = 0;
            let ghost r0 = r@;
            while t < to.len()
                invariant
                    t <= to@.len(),
                    r@ == r0 + to@.take(t as int),
                decreases to@.len() - t,
            {
                r.push(to[t]);
                t = t + 1;
                assert(r@ =~= r0 + to@.take(t as int));
            }
            assert(to@.take(to@.len() as int) =~= to@);
            assert(r@ + replace_all(s@.skip(k + from@.len()), from@, to@) =~= replace_all(s@, from@, to@));
            k = k + from.len();
        } else {
            proof {
                if from@.len() > 0 && from@.len() <= rest.len() {
                    assert(rest.take(from@.len() as int) =~= s@.subrange(k as int, k + from@.len()));
                }
            }
            r.push(s[k]);
            assert(rest.skip(1) =~= s@.skip(k + 1));
            assert(r@ + replace_all(s@.skip(k + 1), from@, to@) =~= replace_all(s@, from@, to@));
            k = k + 1;
        }
    }
    assert(s@.skip(n as int) =~= Seq::<char>::empty());
    assert(r@ =~= replace_all(s@, from@, to@));
    r
}

fn chars_of(s: &str) -> (r: Vec<char>)
    ensures
        r@ == s@,
{
    string_chars(&s.to_owned())
}

/// Rewrites the verbose operator notation into the terse one.
pub fn normalize(s: &str) -> (r: Vec<char>)
    ensures
        r@ == normalized(s@),
{
    let table: Vec<(&str, &str)> = vec![
        ("bvadd", "+"),
        ("bvsub", "--"),
        ("bvmul", "*"),
        ("bvand", "&"),
        ("bvor", "|"),
        ("bvneg", "-"),
        ("bvnot", "~"),
        ("bvlshr", ">>"),
        ("bvshl", "<<"),
        ("#b0000", "0"),
        ("#b0111", "7"),
        ("#b1000", "8"),
        ("and", "&"),
        ("xor", "^"),
        ("or", "|"),
        ("not", "~"),
    ];
    assert(table@.len() == rewrites().len());
    assert(forall|q: int| 0 <= q < table@.len() ==> (#[trigger] table@[q]).0@ == rewrites()[q].0 && table@[q].1@ == rewrites()[q].1);
    let mut r = chars_of(s);
    let mut k: usize = 0;
    while k < table.len()
        invariant
            k <= table@.len(),
            table@.len() == rewrites().len(),
            forall|q: int| 0 <= q < table@.len() ==> (#[trigger] table@[q]).0@ == rewrites()[q].0 && table@[q].1@ == rewrites()[q].1,
            r@ == rewritten(s@, k as int),
        decreases table@.len() - k,
    {
        let (from, to) = table[k];
        r = replaced(&r, &chars_of(from), &chars_of(to));
        k = k + 1;
    }
    r
}

/// The pattern whose nodes are the nodes of a term.
pub open spec fn as_pattern<const N: u32>(nodes: Seq<Math<N>>) -> Seq<PatNode<N>> {
    nodes.map_values(|m: Math<N>| PatNode::Node(m))
}

/// `q` is `p` with each placeholder written as a variable of the same spelling.
pub open spec fn spelled_as<const N: u32>(q: Seq<PatNode<N>>, p: Seq<PatNode<N>>) -> bool {
    &&& q.len() == p.len()
    &&& forall|k: int|
        0 <= k < p.len() ==> match #[trigger] p[k] {
            PatNode::Node(m) => q[k] == PatNode::Node(m),
            PatNode::Hole(h) => q[k] is Node && q[k]->Node_0 is Var && q[k]->Node_0->Var_0@ == seq![
                '?',
                letter(h as nat),
            ],
        }
}

proof fn lemma_spelled_text<const N: u32>(q: Seq<PatNode<N>>, p: Seq<PatNode<N>>, i: int)
    requires
        spelled_as(q, p),
        0 <= i < p.len(),
    ensures
        pat_text(q, i) == pat_text(p, i),
    decreases i,
{
    if let PatNode::Node(m) = p[i] {
        assert(q[i] == p[i]);
        if m.is_unary() || m.is_binary() {
            if 0 <= m.left() < i {
                lemma_spelled_text(q, p, m.left() as int);
            }
        }
        if m.is_binary() {
            if 0 <= m.right() < i {
                lemma_spelled_text(q, p, m.right() as int);
            }
        }
    }
}

/// Reads a term written in either notation. There is none when a `#` is left after the
/// rewrites or when the text does not read; a placeholder `?x` reads as the variable `?x`.
/// Every term whose literals are `N`-bit words and whose variable names are tokens is read
/// from any text whose printed form (see `Pattern::parse`) trims to its text.
pub fn convert_parse<const N: u32>(s: &str) -> (r: Option<RecExpr<N>>)
    requires
        BV::<N>::width_ok(),
    ensures
        normalized(s@).contains('#') ==> r is None,
        r is Some ==> {
            let e = r->Some_0;
            &&& e.wf()
            &&& trims_to(canon::<N>(normalized(s@)), pattern_text(as_pattern(e.nodes@)))
        },
        forall|e: Seq<Math<N>>|
            readable_pattern(as_pattern(e)) && !normalized(s@).contains('#') && trims_to(
                canon::<N>(normalized(s@)),
                #[trigger] pattern_text(as_pattern(e)),
            ) ==> r is Some,
{
    let t = normalize(s);
    let mut k: usize = 0;
    while k < t.len()
        invariant
            t@ == normalized(s@),
            k <= t@.len(),
            forall|q: int| 0 <= q < k ==> t@[q] != '#',
        decreases t@.len() - k,
    {
        if t[k] == '#' {
            assert(t@[k as int] == '#');
            assert(normalized(s@).contains('#'));
            return None;
        }
        k = k + 1;
    }
    let p = match Pattern::<N>::parse(&t) {
        Some(p) => p,
        None => return None,
    };
    let mut nodes: Vec<Math<N>> = Vec::new();
    let mut i: usize = 0;
    while i < p.nodes.len()
        invariant
            BV::<N>::width_ok(),
            p.wf(),
            nodes_ok(p.nodes@),
            i <= p.nodes@.len(),
            nodes@.len() == i,
            forall|q: int|
                0 <= q < i ==> match #[trigger] p.nodes@[q] {
                    PatNode::Node(m) => nodes@[q] == m,
                    PatNode::Hole(h) => nodes@[q] is Var && nodes@[q]->Var_0@ == seq![
                        '?',
                        letter(h as nat),
                    ],
                },
        decreases p.nodes@.len() - i,
    {
        assert(match p.nodes@[i as int] {
            PatNode::Node(m) => m.children_below(i as int) && (m is Num ==> m->Num_0.wf()),
            PatNode::Hole(h) => h < MAX_PLACEHOLDERS,
        });
        match &p.nodes[i] {
            PatNode::Node(m) => {
                nodes.push(crate::equality::copy_node(m));
            },
            PatNode::Hole(h) => {
                let name = vec!['?', ((*h as u8) + 97u8) as char];
                assert(name@ =~= seq!['?', letter(*h as nat)]);
                nodes.push(Math::Var(chars_to_string(&name)));
            },
        }
        i = i + 1;
    }
    let e = RecExpr { nodes };
    proof {
        let q = as_pattern(e.nodes@);
        assert(spelled_as(q, p.nodes@));
        lemma_spelled_text(q, p.nodes@, p.nodes@.len() - 1);
        assert forall|k: int| 0 <= k < e.nodes@.len() implies (#[trigger] e.nodes@[k]).children_below(k) by {
            assert(match p.nodes@[k] {
                PatNode::Node(m) => m.children_below(k) && (m is Num ==> m->Num_0.wf()),
                PatNode::Hole(h) => h < MAX_PLACEHOLDERS,
            });
        }
        assert forall|k: int| 0 <= k < e.nodes@.len() && (#[trigger] e.nodes@[k]) is Num implies e.nodes@[k]->Num_0.wf() by {
            assert(match p.nodes@[k] {
                PatNode::Node(m) => m.children_below(k) && (m is Num ==> m->Num_0.wf()),
                PatNode::Hole(h) => h < MAX_PLACEHOLDERS,
            });
        }
    }
    Some(e)
}

} // verus!
