//! Inline markup: strikethrough substitution, substring search, and decimal
//! numbering for list bullets.
use vstd::prelude::*;
use crate::text::{ESCAPE, STRIKE, sub_chars};

verus! {

/// A `~~` delimiter starts at `i`.
pub open spec fn pair_at(s: Seq<char>, i: int) -> bool {
    0 <= i && i + 2 <= s.len() && s[i] == '~' && s[i + 1] == '~'
}

/// First `~~` delimiter at `from` or later.
pub open spec fn find_pair(s: Seq<char>, from: int) -> Option<int>
    decreases s.len() - from when 0 <= from
{
    if from + 2 > s.len() {
        None
    } else if pair_at(s, from) {
        Some(from)
    } else {
        find_pair(s, from + 1)
    }
}

pub proof fn lemma_find_pair(s: Seq<char>, from: int)
    requires
        0 <= from,
        find_pair(s, from) is Some,
    ensures
        from <= find_pair(s, from)->0,
        pair_at(s, find_pair(s, from)->0),
    decreases s.len() - from,
{
    if from + 2 <= s.len() && !pair_at(s, from) {
        lemma_find_pair(s, from + 1);
    }
}

/// `t` with a combining strike mark after every character.
pub open spec fn marked(t: Seq<char>) -> Seq<char>
    decreases t.len()
{
    if t.len() == 0 {
        Seq::empty()
    } else {
        seq![t[0], STRIKE] + marked(t.drop_first())
    }
}

/// There is at least one complete `~~ ... ~~` span in `s`.
pub open spec fn has_strike_span(s: Seq<char>) -> bool {
    match find_pair(s, 0) {
        Some(i) => 0 <= i && i + 2 <= s.len() && find_pair(s.skip(i + 2), 0) is Some,
        None => false,
    }
}

/// Strikethrough substitution: every complete `~~ ... ~~` span is replaced by
/// its content with a strike mark after each character; unmatched delimiters
/// stay literal.
pub open spec fn strike_sub(s: Seq<char>) -> Seq<char>
    decreases s.len()
{
    match find_pair(s, 0) {
        Some(i) => if 0 <= i && i + 2 <= s.len() {
            let rest = s.skip(i + 2);
            match find_pair(rest, 0) {
                Some(j) => if 0 <= j && j + 2 <= rest.len() {
                    s.take(i) + marked(rest.take(j)) + strike_sub(rest.skip(j + 2))
                } else {
                    s
                },
                None => s,
            }
        } else {
            s
        },
        None => s,
    }
}

/// Text without a complete span is left unchanged.
pub proof fn lemma_strike_sub_id(s: Seq<char>)
    requires
        !has_strike_span(s),
    ensures
        strike_sub(s) == s,
{
    if find_pair(s, 0) is Some {
        lemma_find_pair(s, 0);
    }
}

pub proof fn lemma_marked_no_esc(t: Seq<char>)
    requires
        forall|i: int| 0 <= i < t.len() ==> t[i] != ESCAPE,
    ensures
        forall|i: int| 0 <= i < marked(t).len() ==> marked(t)[i] != ESCAPE,
    decreases t.len(),
{
    if t.len() > 0 {
        lemma_marked_no_esc(t.drop_first());
        let m = marked(t);
        let tail = marked(t.drop_first());
        assert forall|i: int| 0 <= i < m.len() implies m[i] != ESCAPE by {
            if i >= 2 {
                assert(m[i] == tail[i - 2]);
            }
        }
    }
}

/// Substitution introduces no escape character.
pub proof fn lemma_strike_sub_no_esc(s: Seq<char>)
    requires
        forall|i: int| 0 <= i < s.len() ==> s[i] != ESCAPE,
    ensures
        forall|i: int| 0 <= i < strike_sub(s).len() ==> strike_sub(s)[i] != ESCAPE,
    decreases s.len(),
{
    match find_pair(s, 0) {
        Some(i) => {
            if 0 <= i && i + 2 <= s.len() {
                let rest = s.skip(i + 2);
                match find_pair(rest, 0) {
                    Some(j) => {
                        if 0 <= j && j + 2 <= rest.len() {
                            lemma_marked_no_esc(rest.take(j));
                            lemma_strike_sub_no_esc(rest.skip(j + 2));
                            let a = s.take(i);
                            let b = marked(rest.take(j));
                            let c = strike_sub(rest.skip(j + 2));
                            let r = strike_sub(s);
                            assert forall|k: int| 0 <= k < r.len() implies r[k] != ESCAPE by {
                                if k < a.len() {
                                    assert(r[k] == s[k]);
                                } else if k < a.len() + b.len() {
                                    assert(r[k] == b[k - a.len()]);
                                } else {
                                    assert(r[k] == c[k - a.len() - b.len()]);
                                }
                            }
                        }
                    },
                    None => {},
                }
            }
        },
        None => {},
    }
}

/// First `~~` delimiter at `from` or later, as a scan.
pub fn find_pair_from(v: &Vec<char>, from: usize) -> (r: Option<usize>)
    ensures
        match r {
            Some(i) => from <= i && i + 2 <= v@.len() && find_pair(v@, from as int) == Some(
                i as int,
            ),
            None => find_pair(v@, from as int) is None,
        },
{
    let n = v.len();
    let mut i: usize = from;
    while n >= 2 && i <= n - 2
        invariant
            from <= i,
            n == v@.len(),
            find_pair(v@, from as int) == find_pair(v@, i as int),
        decreases n - i,
    {
        if v[i] == '~' && v[i + 1] == '~' {
            return Some(i);
        }
        i += 1;
    }
    None
}

/// Exec form of `marked`.
pub fn marked_chars(t: &Vec<char>) -> (r: Vec<char>)
    ensures
        r@ == marked(t@),
{
    let n = t.len();
    let mut out: Vec<char> = Vec::new();
    let mut i: usize = 0;
    proof {
        assert(t@.skip(0) =~= t@);
        assert(Seq::<char>::empty() + marked(t@) =~= marked(t@));
    }
    while i < n
        invariant
            i <= n,
            n == t@.len(),
            marked(t@) == out@ + marked(t@.skip(i as int)),
        decreases n - i,
    {
        let ghost rest = t@.skip(i as int);
        let c = t[i];
        out.push(c);
        out.push(STRIKE);
        proof {
            assert(rest.drop_first() =~= t@.skip(i + 1 as int));
            assert(out@ + marked(t@.skip(i + 1 as int)) =~= marked(t@));
        }
        i += 1;
    }
    proof {
        assert(marked(t@.skip(n as int)) =~= Seq::<char>::empty());
        assert(out@ =~= marked(t@));
    }
    out
}

/// Exec form of `strike_sub`, together with whether any span matched.
pub fn strike_apply(v: &Vec<char>) -> (r: (Vec<char>, bool))
    ensures
        r.0@ == strike_sub(v@),
        r.1 == has_strike_span(v@),
    decreases v@.len(),
{
    match find_pair_from(v, 0) {
        None => {
            let r = sub_chars(v, 0, v.len());
            proof {
                assert(r@ =~= v@);
            }
            (r, false)
        },
        Some(i) => {
            proof {
                lemma_find_pair(v@, 0);
            }
            let n = v.len();
            assert(i + 2 <= n);
            let rest = sub_chars(v, i + 2, n);
            proof {
                assert(rest@ =~= v@.skip(i + 2 as int));
            }
            match find_pair_from(&rest, 0) {
                None => {
                    let r = sub_chars(v, 0, v.len());
                    proof {
                        assert(r@ =~= v@);
                    }
                    (r, false)
                },
                Some(j) => {
                    proof {
                        lemma_find_pair(rest@, 0);
                    }
                    let mut out = sub_chars(v, 0, i);
                    let span = sub_chars(&rest, 0, j);
                    proof {
                        assert(span@ =~= rest@.take(j as int));
                        assert(out@ =~= v@.take(i as int));
                    }
                    let m = marked_chars(&span);
                    let tail = sub_chars(&rest, j + 2, rest.len());
                    proof {
                        assert(tail@ =~= rest@.skip(j + 2 as int));
                    }
                    let (sub_tail, _had) = strike_apply(&tail);
                    let mut k: usize = 0;
                    let ghost out0 = out@;
                    while k < m.len()
                        invariant
                            k <= m@.len(),
                            out@ == out0 + m@.take(k as int),
                        decreases m@.len() - k,
                    {
                        let c = m[k];
                        out.push(c);
                        proof {
                            assert(out@ =~= out0 + m@.take(k + 1 as int));
                        }
                        k += 1;
                    }
                    let ghost out1 = out@;
                    let mut k2: usize = 0;
                    while k2 < sub_tail.len()
                        invariant
                            k2 <= sub_tail@.len(),
                            out@ == out1 + sub_tail@.take(k2 as int),
                        decreases sub_tail@.len() - k2,
                    {
                        let c = sub_tail[k2];
                        out.push(c);
                        proof {
                            assert(out@ =~= out1 + sub_tail@.take(k2 + 1 as int));
                        }
                        k2 += 1;
                    }
                    proof {
                        assert(m@.take(m@.len() as int) =~= m@);
                        assert(sub_tail@.take(sub_tail@.len() as int) =~= sub_tail@);
                        assert(out@ =~= v@.take(i as int) + marked(rest@.take(j as int))
                            + strike_sub(rest@.skip(j + 2 as int)));
                    }
                    (out, true)
                },
            }
        },
    }
}

/// The digit character for `d` in 0 .. 10.
pub open spec fn digit_char(d: int) -> char {
    if d == 0 {
        '0'
    } else if d == 1 {
        '1'
    } else if d == 2 {
        '2'
    } else if d == 3 {
        '3'
    } else if d == 4 {
        '4'
    } else if d == 5 {
        '5'
    } else if d == 6 {
        '6'
    } else if d == 7 {
        '7'
    } else if d == 8 {
        '8'
    } else {
        '9'
    }
}

/// Decimal representation of a non-negative number.
pub open spec fn dec_rep(n: int) -> Seq<char>
    decreases n when n >= 0
{
    if n < 10 {
        seq![digit_char(n)]
    } else {
        dec_rep(n / 10) + seq![digit_char(n % 10)]
    }
}

pub proof fn lemma_dec_rep_plain(n: int)
    requires
        n >= 0,
    ensures
        forall|i: int|
            0 <= i < dec_rep(n).len() ==> dec_rep(n)[i] != ESCAPE && dec_rep(n)[i] != STRIKE
                && dec_rep(n)[i] != '\n',
        dec_rep(n).len() >= 1,
    decreases n,
{
    if n >= 10 {
        lemma_dec_rep_plain(n / 10);
    }
}

fn digit_of(d: u32) -> (c: char)
    requires
        d < 10,
    ensures
        c == digit_char(d as int),
{
    if d == 0 {
        '0'
    } else if d == 1 {
        '1'
    } else if d == 2 {
        '2'
    } else if d == 3 {
        '3'
    } else if d == 4 {
        '4'
    } else if d == 5 {
        '5'
    } else if d == 6 {
        '6'
    } else if d == 7 {
        '7'
    } else if d == 8 {
        '8'
    } else {
        '9'
    }
}

/// The decimal digits of `n`.
pub fn u32_digits(n: u32) -> (r: Vec<char>)
    ensures
        r@ == dec_rep(n as int),
    decreases n,
{
    if n < 10 {
        let mut r: Vec<char> = Vec::new();
        r.push(digit_of(n));
        proof {
            assert(r@ =~= dec_rep(n as int));
        }
        r
    } else {
        let mut r = u32_digits(n / 10);
        r.push(digit_of(n % 10));
        proof {
            assert(r@ =~= dec_rep(n as int));
        }
        r
    }
}

/// `s` contains the four characters of "http" in a row.
pub open spec fn has_http(s: Seq<char>) -> bool {
    exists|i: int|
        0 <= i && i + 4 <= s.len() && #[trigger] s[i] == 'h' && s[i + 1] == 't' && s[i + 2] == 't'
            && s[i + 3] == 'p'
}

/// Scan for "http".
pub fn contains_http(v: &Vec<char>) -> (r: bool)
    ensures
        r == has_http(v@),
{
    let n = v.len();
    let mut i: usize = 0;
    while n >= 4 && i <= n - 4
        invariant
            n == v@.len(),
            forall|k: int|
                0 <= k < i ==> !(#[trigger] v@[k] == 'h' && v@[k + 1] == 't' && v@[k + 2] == 't'
                    && v@[k + 3] == 'p'),
        decreases n - i,
    {
        if v[i] == 'h' && v[i + 1] == 't' && v[i + 2] == 't' && v[i + 3] == 'p' {
            return true;
        }
        i += 1;
    }
    proof {
        assert forall|k: int| 0 <= k && k + 4 <= v@.len() implies !(#[trigger] v@[k] == 'h' && v@[k
            + 1] == 't' && v@[k + 2] == 't' && v@[k + 3] == 'p') by {
            assert(k < i);
        }
    }
    false
}

} // verus!
