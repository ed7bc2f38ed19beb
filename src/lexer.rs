use crate::bv::{decimal, modulus, u32_from_text, BV};
use crate::equality::{chars_to_string, push_all};
use crate::equality::{pat_text, pattern_text, PatNode};
use crate::parse::readable_pattern;
use crate::lang::Math;
use crate::parse::{
    is_delimiter, is_space, space_char, lemma_leaf_text, lemma_op_text, lemma_text_ends, readable, text_at,
    trims_to,
};
use vstd::prelude::*;

verus! {

/// A token in its printed form: a numeral (read as `str::parse::<u32>` reads it) becomes
/// the decimal text of its low `N` bits; any other token stays as it is.
pub open spec fn canon_token<const N: u32>(t: Seq<char>) -> Seq<char> {
    match u32_from_text(t) {
        Some(v) => decimal((v as int % modulus(N)) as nat),
        None => t,
    }
}

/// The printed form of `s` from position `i` on, where `start` is where the token that
/// runs up to `i` began (negative when none does): each token in printed form, each run of
/// whitespace before a token as one space, whitespace at the end dropped.
pub open spec fn canon_at<const N: u32>(s: Seq<char>, i: int, start: int) -> Seq<char>
    decreases s.len() - i,
{
    if i < 0 || i >= s.len() {
        if 0 <= start <= s.len() {
            canon_token::<N>(s.subrange(start, s.len() as int))
        } else {
            seq![]
        }
    } else if !is_delimiter(s[i]) {
        canon_at::<N>(s, i + 1, if start >= 0 { start } else { i })
    } else {
        let pre = if 0 <= start <= i {
            canon_token::<N>(s.subrange(start, i))
        } else {
            seq![]
        };
        let here = if is_space(s[i]) {
            if i + 1 < s.len() && !is_space(s[i + 1]) {
                seq![' ']
            } else {
                seq![]
            }
        } else {
            seq![s[i]]
        };
        pre + here + canon_at::<N>(s, i + 1, -1)
    }
}

/// The printed form of a whole text.
pub open spec fn canon<const N: u32>(s: Seq<char>) -> Seq<char> {
    canon_at::<N>(s, 0, -1)
}

fn token_chars<const N: u32>(t: &Vec<char>) -> (r: Vec<char>)
    requires
        BV::<N>::width_ok(),
    ensures
        r@ == canon_token::<N>(t@),
{
    let text = chars_to_string(t);
    match BV::<N>::parse_decimal(text.as_str()) {
        Ok(b) => b.to_chars(),
        Err(_) => {
            let mut r: Vec<char> = Vec::new();
            push_all(&mut r, t);
            assert(r@ =~= t@);
            r
        },
    }
}

/// Brings a text to printed form: whitespace runs become one space, numerals are read with
/// `BV::parse_decimal` and written as the decimal text of the word.
pub fn canonical<const N: u32>(s: &Vec<char>) -> (r: Vec<char>)
    requires
        BV::<N>::width_ok(),
    ensures
        r@ == canon::<N>(s@),
{
    let n = s.len();
    let mut out: Vec<char> = Vec::new();
    let mut tok: Vec<char> = Vec::new();
    let mut i: usize = 0;
    let ghost start: int = -1;
    while i < n
        invariant
            BV::<N>::width_ok(),
            n == s@.len(),
            i <= n,
            -1 <= start <= i,
            start < 0 ==> tok@.len() == 0,
            start >= 0 ==> tok@ == s@.subrange(start, i as int),
            out@ + canon_at::<N>(s@, i as int, start) == canon::<N>(s@),
        decreases n - i,
    {
        let c = s[i];
        if !(space_char(c) || c == '(' || c == ')') {
            proof {
                if start < 0 {
                    start = i as int;
                }
            }
            tok.push(c);
            assert(tok@ =~= s@.subrange(start, i + 1));
        } else {
            let ghost o = out@;
            let ghost st = start;
            if tok.len() > 0 {
                push_all(&mut out, &token_chars::<N>(&tok));
            } else {
                proof {
                    if st >= 0 {
                        assert(s@.subrange(st, i as int) =~= tok@);
                    }
                }
            }
            if space_char(c) {
                if i + 1 < n && !space_char(s[i + 1]) {
                    out.push(' ');
                }
            } else {
                out.push(c);
            }
            tok = Vec::new();
            proof {
                start = -1;
                let pre = if 0 <= st <= i {
                    canon_token::<N>(s@.subrange(st, i as int))
                } else {
                    seq![]
                };
                if st >= 0 && tok@.len() == 0 {
                }
                assert(o + canon_at::<N>(s@, i as int, st) == canon::<N>(s@));
                assert(out@ + canon_at::<N>(s@, i + 1, -1) =~= o + canon_at::<N>(s@, i as int, st));
            }
        }
        i = i + 1;
    }
    let ghost o = out@;
    if tok.len() > 0 {
        push_all(&mut out, &token_chars::<N>(&tok));
    }
    proof {
        if start >= 0 && tok@.len() == 0 {
            assert(s@.subrange(start, n as int) =~= tok@);
        }
        assert(out@ =~= o + canon_at::<N>(s@, n as int, start));
    }
    out
}

proof fn lemma_token_run<const N: u32>(s: Seq<char>, pos: int, e: int, k: int)
    requires
        0 <= pos < k <= e <= s.len(),
        forall|q: int| pos <= q < e ==> !is_delimiter(#[trigger] s[q]),
    ensures
        canon_at::<N>(s, k, pos) == canon_at::<N>(s, e, pos),
    decreases e - k,
{
    if k < e {
        lemma_token_run::<N>(s, pos, e, k + 1);
    }
}

/// A token whose printed form is itself passes through unchanged.
proof fn lemma_token<const N: u32>(s: Seq<char>, pos: int, e: int)
    requires
        0 <= pos < e <= s.len(),
        forall|q: int| pos <= q < e ==> !is_delimiter(#[trigger] s[q]),
        canon_token::<N>(s.subrange(pos, e)) == s.subrange(pos, e),
        e == s.len() || is_delimiter(s[e]),
    ensures
        canon_at::<N>(s, pos, -1) == s.subrange(pos, e) + canon_at::<N>(s, e, -1),
{
    if pos + 1 <= e {
        assert(canon_at::<N>(s, pos, -1) == canon_at::<N>(s, pos + 1, pos));
        lemma_token_run::<N>(s, pos, e, pos + 1);
    }
    if e == s.len() {
        assert(canon_at::<N>(s, e, -1) =~= seq![]);
        assert(s.subrange(pos, e) + seq![] =~= s.subrange(pos, e));
    } else {
        let here = if is_space(s[e]) {
            if e + 1 < s.len() && !is_space(s[e + 1]) {
                seq![' ']
            } else {
                seq![]
            }
        } else {
            seq![s[e]]
        };
        assert(canon_at::<N>(s, e, -1) == seq![] + here + canon_at::<N>(s, e + 1, -1));
        assert(canon_at::<N>(s, e, pos) == s.subrange(pos, e) + here + canon_at::<N>(s, e + 1, -1));
        assert(seq![] + here =~= here);
    }
}

/// A token that starts with neither a digit nor `+` and a digit is no numeral.
proof fn lemma_not_numeral(t: Seq<char>)
    requires
        t.len() > 0,
        !crate::parse::is_digit(t[0]),
        t[0] == '+' ==> t.len() == 1 || !crate::parse::is_digit(t[1]),
    ensures
        u32_from_text(t) is None,
{
    let d = crate::bv::unsigned_digits(t);
    if t[0] == '+' && t.len() > 1 {
        assert(d[0] == t[1]);
    }
    if d.len() > 0 {
        assert(!crate::parse::is_digit(d[0]));
        assert(!crate::bv::all_digits(d));
    }
}

/// The texts of leaves and operator symbols are already in printed form.
proof fn lemma_leaf_fixed<const N: u32>(p: Seq<PatNode<N>>, i: int)
    requires
        readable(p, i),
        !(p[i] is Node && (p[i]->Node_0.is_unary() || p[i]->Node_0.is_binary())),
    ensures
        canon_token::<N>(pat_text(p, i)) == pat_text(p, i),
{
    let t = pat_text(p, i);
    lemma_leaf_text(p, i);
    if let PatNode::Node(m) = p[i] {
        if let Math::Num(c) = m {
            assert(c.wf());
            crate::bv::lemma_modulus_bounds(N);
            crate::bv::lemma_decimal_reads_back(c@ as u32);
            vstd::arithmetic::div_mod::lemma_small_mod(c@ as nat, modulus(N) as nat);
            assert((c@ as u32) as nat == c@ as nat);
            assert(u32_from_text(t) == Some(c@ as u32));
        } else {
            lemma_not_numeral(t);
        }
    } else {
        lemma_not_numeral(t);
    }
}

proof fn lemma_symbol_fixed<const N: u32>(m: Math<N>)
    requires
        m.is_unary() || m.is_binary(),
    ensures
        canon_token::<N>(crate::equality::op_symbol(m)) == crate::equality::op_symbol(m),
{
    let t = crate::equality::op_symbol(m);
    lemma_not_numeral(t);
}

/// Where the text of a readable node stands in `s`, bounded by delimiters, it passes
/// through printing unchanged.
#[verifier::rlimit(100)]
pub proof fn lemma_text_fixed<const N: u32>(s: Seq<char>, pos: int, p: Seq<PatNode<N>>, i: int)
    requires
        readable(p, i),
        text_at(s, pos, pat_text(p, i)),
    ensures
        canon_at::<N>(s, pos, -1) == pat_text(p, i) + canon_at::<N>(s, pos + pat_text(p, i).len(), -1),
    decreases i,
{
    let t = pat_text(p, i);
    let is_op = p[i] is Node && (p[i]->Node_0.is_unary() || p[i]->Node_0.is_binary());
    if !is_op {
        lemma_leaf_text(p, i);
        lemma_leaf_fixed::<N>(p, i);
        assert forall|q: int| pos <= q < pos + t.len() implies !is_delimiter(#[trigger] s[q]) by {
            assert(s.subrange(pos, pos + t.len())[q - pos] == t[q - pos]);
        }
        lemma_token::<N>(s, pos, pos + t.len());
    } else {
        let m = p[i]->Node_0;
        lemma_op_text(s, pos, p, i);
        let sym = crate::equality::op_symbol(m);
        let a = m.left() as int;
        let ta = pat_text(p, a);
        let q = pos + 1 + sym.len();
        let ea = q + 1 + ta.len();
        lemma_symbol_fixed::<N>(m);
        lemma_token::<N>(s, pos + 1, q);
        lemma_text_ends(p, a);
        lemma_text_fixed::<N>(s, q + 1, p, a);
        assert(s[q + 1] == ta[0]);
        assert(canon_at::<N>(s, pos, -1) == seq![] + seq!['('] + canon_at::<N>(s, pos + 1, -1));
        assert(canon_at::<N>(s, q, -1) == seq![] + seq![' '] + canon_at::<N>(s, q + 1, -1));
        if m.is_unary() {
            assert(canon_at::<N>(s, ea, -1) == seq![] + seq![')'] + canon_at::<N>(s, ea + 1, -1));
            assert(canon_at::<N>(s, pos, -1) =~= t + canon_at::<N>(s, pos + t.len(), -1));
        } else {
            let b = m.right() as int;
            let tb = pat_text(p, b);
            let eb = ea + 1 + tb.len();
            lemma_text_ends(p, b);
            lemma_text_fixed::<N>(s, ea + 1, p, b);
            assert(s[ea + 1] == tb[0]);
            assert(canon_at::<N>(s, ea, -1) == seq![] + seq![' '] + canon_at::<N>(s, ea + 1, -1));
            assert(canon_at::<N>(s, eb, -1) == seq![] + seq![')'] + canon_at::<N>(s, eb + 1, -1));
            assert(canon_at::<N>(s, pos, -1) =~= t + canon_at::<N>(s, pos + t.len(), -1));
        }
    }
}

proof fn lemma_lead<const N: u32>(s: Seq<char>, k: int, i0: int)
    requires
        0 <= k <= i0 < s.len(),
        forall|q: int| 0 <= q < i0 ==> is_space(#[trigger] s[q]),
        !is_space(s[i0]),
    ensures
        canon_at::<N>(s, k, -1) == (if k < i0 {
            seq![' ']
        } else {
            seq![]
        }) + canon_at::<N>(s, i0, -1),
    decreases i0 - k,
{
    if k < i0 {
        lemma_lead::<N>(s, k + 1, i0);
        if k + 1 < i0 {
            assert(canon_at::<N>(s, k, -1) == seq![] + seq![] + canon_at::<N>(s, k + 1, -1));
        } else {
            assert(canon_at::<N>(s, k, -1) == seq![] + seq![' '] + canon_at::<N>(s, k + 1, -1));
        }
        assert(canon_at::<N>(s, k, -1) =~= seq![' '] + canon_at::<N>(s, i0, -1));
    } else {
        assert(canon_at::<N>(s, k, -1) =~= seq![] + canon_at::<N>(s, i0, -1));
    }
}

proof fn lemma_trail<const N: u32>(s: Seq<char>, k: int)
    requires
        0 <= k <= s.len(),
        forall|q: int| k <= q < s.len() ==> is_space(#[trigger] s[q]),
    ensures
        canon_at::<N>(s, k, -1) == Seq::<char>::empty(),
    decreases s.len() - k,
{
    if k < s.len() {
        lemma_trail::<N>(s, k + 1);
        assert(canon_at::<N>(s, k, -1) =~= seq![] + seq![] + canon_at::<N>(s, k + 1, -1));
    }
}

/// A text that trims to the text of a readable pattern keeps doing so in printed form.
pub proof fn lemma_canon_trims<const N: u32>(s: Seq<char>, p: Seq<PatNode<N>>)
    requires
        readable_pattern(p),
        trims_to(s, pattern_text(p)),
    ensures
        trims_to(canon::<N>(s), pattern_text(p)),
{
    let t = pattern_text(p);
    let (i0, j0) = crate::parse::trim_bounds(s, t);
    lemma_text_ends(p, p.len() - 1);
    assert(s[i0] == t[0]);
    assert(text_at(s, i0, pat_text(p, p.len() - 1))) by {
        if j0 < s.len() {
            assert(is_space(s[j0]));
        }
    }
    lemma_lead::<N>(s, 0, i0);
    lemma_text_fixed::<N>(s, i0, p, p.len() - 1);
    lemma_trail::<N>(s, j0);
    let pre = if 0 < i0 {
        seq![' ']
    } else {
        seq![]
    };
    let c = canon::<N>(s);
    assert(c =~= pre + t);
    assert(c.subrange(pre.len() as int, c.len() as int) =~= t);
    assert(0 <= pre.len() <= c.len() <= c.len() && c.subrange(pre.len() as int, c.len() as int) == t
        && (forall|k: int| 0 <= k < pre.len() ==> is_space(#[trigger] c[k])) && (forall|k: int|
        c.len() <= k < c.len() ==> is_space(#[trigger] c[k])));
}

} // verus!
