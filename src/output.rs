use crate::equality::{chars_to_string, string_chars};
use crate::parse::{is_space, space_char};
use crate::syntax::{replace_all, replaced};
use vstd::prelude::*;

verus! {

pub open spec fn occurs_at(s: Seq<char>, k: int, pat: Seq<char>) -> bool {
    0 <= k && k + pat.len() <= s.len() && s.subrange(k, k + pat.len()) == pat
}

/// The first position at or after `from` where `pat` occurs in `s`.
pub open spec fn first_occurrence(s: Seq<char>, pat: Seq<char>, from: int) -> Option<int>
    decreases s.len() + 1 - from,
{
    if from < 0 || from + pat.len() > s.len() {
        None
    } else if occurs_at(s, from, pat) {
        Some(from)
    } else {
        first_occurrence(s, pat, from + 1)
    }
}

/// `s` without leading whitespace.
pub open spec fn trim_start(s: Seq<char>) -> Seq<char>
    decreases s.len(),
{
    if s.len() > 0 && is_space(s[0]) {
        trim_start(s.skip(1))
    } else {
        s
    }
}

/// `s` without trailing whitespace.
pub open spec fn trim_end(s: Seq<char>) -> Seq<char>
    decreases s.len(),
{
    if s.len() > 0 && is_space(s.last()) {
        trim_end(s.drop_last())
    } else {
        s
    }
}

pub open spec fn trim(s: Seq<char>) -> Seq<char> {
    trim_end(trim_start(s))
}

/// The second piece of `s` split at every `sep`: what follows the first `sep` up to the next.
pub open spec fn second_piece(s: Seq<char>, sep: Seq<char>, k: int) -> Seq<char> {
    let start = k + sep.len();
    match first_occurrence(s, sep, start) {
        Some(e) => s.subrange(start, e),
        None => s.subrange(start, s.len() as int),
    }
}

/// A side as written to the rule file.
pub open spec fn side_text(s: Seq<char>) -> Seq<char> {
    replace_all(trim(s), seq!['-', '-'], seq!['-'])
}

fn find_from(s: &Vec<char>, pat: &Vec<char>, from: usize) -> (r: Option<usize>)
    requires
        from <= s@.len(),
        pat@.len() > 0,
    ensures
        r is Some ==> first_occurrence(s@, pat@, from as int) == Some(r->Some_0 as int)
            && occurs_at(s@, r->Some_0 as int, pat@) && from <= r->Some_0,
        r is None ==> first_occurrence(s@, pat@, from as int) is None,
        first_occurrence(s@, pat@, from as int) is Some ==> r is Some,
{
    let n = s.len();
    let mut k = from;
    while k < n && pat.len() <= n - k
        invariant
            n == s@.len(),
            from <= k <= s@.len(),
            first_occurrence(s@, pat@, from as int) == first_occurrence(s@, pat@, k as int),
        decreases s@.len() - k,
    {
        let mut t: usize = 0;
        let mut same = true;
        while t < pat.len()
            invariant
                n == s@.len(),
                k + pat@.len() <= s@.len(),
                t <= pat@.len(),
                same == forall|q: int| 0 <= q < t ==> s@[k + q] == pat@[q],
            decreases pat@.len() - t,
        {
            if s[k + t] != pat[t] {
                same = false;
            }
            t = t + 1;
        }
        if same {
            assert(s@.subrange(k as int, k + pat@.len()) =~= pat@);
            return Some(k);
        }
        assert(!occurs_at(s@, k as int, pat@)) by {
            let q = choose|q: int| 0 <= q < pat@.len() && s@[k + q] != pat@[q];
            assert(s@.subrange(k as int, k + pat@.len())[q] != pat@[q]);
        }
        k = k + 1;
    }
    None
}

fn trimmed(s: &Vec<char>, from: usize, to: usize) -> (r: Vec<char>)
    requires
        from <= to <= s@.len(),
    ensures
        r@ == trim(s@.subrange(from as int, to as int)),
{
    let mut i = from;
    while i < to && space_char(s[i])
        invariant
            from <= i <= to <= s@.len(),
            trim_start(s@.subrange(from as int, to as int)) == trim_start(s@.subrange(i as int, to as int)),
        decreases to - i,
    {
        assert(s@.subrange(i as int, to as int).skip(1) =~= s@.subrange(i + 1, to as int));
        i = i + 1;
    }
    assert(trim_start(s@.subrange(i as int, to as int)) == s@.subrange(i as int, to as int));
    let mut j = to;
    while j > i && space_char(s[j - 1])
        invariant
            i <= j <= to <= s@.len(),
            trim_end(s@.subrange(i as int, to as int)) == trim_end(s@.subrange(i as int, j as int)),
        decreases j - i,
    {
        assert(s@.subrange(i as int, j as int).drop_last() =~= s@.subrange(i as int, j - 1));
        j = j - 1;
    }
    let mut r: Vec<char> = Vec::new();
    let mut k = i;
    while k < j
        invariant
            i <= k <= j <= s@.len(),
            r@ == s@.subrange(i as int, k as int),
        decreases j - k,
    {
        r.push(s[k]);
        k = k + 1;
        assert(r@ =~= s@.subrange(i as int, k as int));
    }
    r
}

/// The lines that stand for a rule, given by its display name, in the rule file: for
/// `lhs <=> rhs` the four lines `lhs`, `rhs`, `rhs`, `lhs`; for `lhs ==> rhs` the two lines
/// `lhs`, `rhs`. Each side is trimmed and written with `-` for `--`. A name with neither
/// arrow gives `None`.
pub fn rule_file_lines(name: &str) -> (r: Option<Vec<String>>)
    ensures
        ({
            let s = name@;
            let both = seq!['<', '=', '>'];
            let one = seq!['=', '=', '>'];
            match first_occurrence(s, both, 0) {
                Some(k) => {
                    let l = side_text(s.take(k));
                    let rr = side_text(second_piece(s, both, k));
                    r is Some && r->Some_0@.len() == 4 && r->Some_0@[0]@ == l && r->Some_0@[1]@
                        == rr && r->Some_0@[2]@ == rr && r->Some_0@[3]@ == l
                },
                None => match first_occurrence(s, one, 0) {
                    Some(k) => {
                        let l = side_text(s.take(k));
                        let rr = side_text(second_piece(s, one, k));
                        r is Some && r->Some_0@.len() == 2 && r->Some_0@[0]@ == l && r->Some_0@[1]@
                            == rr
                    },
                    None => r is None,
                },
            }
        }),
{
    let s = string_chars(&name.to_owned());
    let n = s.len();
    let both = vec!['<', '=', '>'];
    let one = vec!['=', '=', '>'];
    assert(both@ =~= seq!['<', '=', '>']);
    assert(one@ =~= seq!['=', '=', '>']);
    let (sep, bidirectional) = match find_from(&s, &both, 0) {
        Some(k) => (k, true),
        None => match find_from(&s, &one, 0) {
            Some(k) => (k, false),
            None => return None,
        },
    };
    let start = sep + 3;
    let pat = if bidirectional {
        &both
    } else {
        &one
    };
    assert(pat@.len() == 3);
    let found = find_from(&s, pat, start);
    let end = match found {
        Some(e) => e,
        None => n,
    };
    assert(found is Some ==> first_occurrence(s@, pat@, start as int) == Some(end as int));
    assert(found is None ==> first_occurrence(s@, pat@, start as int) is None && end == s@.len());
    assert(start as int == sep + pat@.len());
    let dd = vec!['-', '-'];
    let d = vec!['-'];
    assert(dd@ =~= seq!['-', '-']);
    assert(d@ =~= seq!['-']);
    let l = chars_to_string(&replaced(&trimmed(&s, 0, sep), &dd, &d));
    let rr = chars_to_string(&replaced(&trimmed(&s, start, end), &dd, &d));
    assert(s@ == name@);
    assert(s@.subrange(0, sep as int) =~= s@.take(sep as int));
    assert(s@.subrange(start as int, end as int) == second_piece(s@, pat@, sep as int));
    if bidirectional {
        let l2 = l.clone();
        let r2 = rr.clone();
        let mut v: Vec<String> = Vec::new();
        v.push(l);
        v.push(rr);
        v.push(r2);
        v.push(l2);
        Some(v)
    } else {
        let mut v: Vec<String> = Vec::new();
        v.push(l);
        v.push(rr);
        Some(v)
    }
}

} // verus!
