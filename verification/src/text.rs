//! Character-level model of terminal text: ANSI escape sequences, visible
//! length, and line structure.
use vstd::prelude::*;
use vstd::string::StrSliceExecFns;

verus! {

/// The escape character that starts an ANSI control sequence.
pub const ESCAPE: char = '\u{1b}';

/// The combining long-stroke-overlay mark used for strikethrough.
pub const STRIKE: char = '\u{336}';

/// Index of the first occurrence of `c` in `s` at position `from` or later.
pub open spec fn find_char(s: Seq<char>, c: char, from: int) -> Option<int>
    decreases s.len() - from when 0 <= from <= s.len()
{
    if from >= s.len() {
        None
    } else if s[from] == c {
        Some(from)
    } else {
        find_char(s, c, from + 1)
    }
}

pub proof fn lemma_find_char(s: Seq<char>, c: char, from: int)
    requires
        0 <= from <= s.len(),
        find_char(s, c, from) is Some,
    ensures
        from <= find_char(s, c, from)->0 < s.len(),
        s[find_char(s, c, from)->0] == c,
        forall|k: int| from <= k < find_char(s, c, from)->0 ==> s[k] != c,
    decreases s.len() - from,
{
    if from < s.len() && s[from] != c {
        lemma_find_char(s, c, from + 1);
    }
}

/// A witness position pins down `find_char`.
pub proof fn lemma_find_char_witness(s: Seq<char>, c: char, from: int, j: int)
    requires
        0 <= from <= j < s.len(),
        s[j] == c,
        forall|k: int| from <= k < j ==> s[k] != c,
    ensures
        find_char(s, c, from) == Some(j),
    decreases j - from,
{
    if s[from] != c {
        lemma_find_char_witness(s, c, from + 1, j);
    }
}

pub proof fn lemma_find_char_none(s: Seq<char>, c: char, from: int)
    requires
        0 <= from <= s.len(),
        forall|k: int| from <= k < s.len() ==> s[k] != c,
    ensures
        find_char(s, c, from) == None::<int>,
    decreases s.len() - from,
{
    if from < s.len() {
        lemma_find_char_none(s, c, from + 1);
    }
}

/// Searching a prefix is searching the whole, while a hit exists.
pub proof fn lemma_find_char_prefix(a: Seq<char>, b: Seq<char>, c: char, from: int)
    requires
        0 <= from <= a.len(),
        find_char(a, c, from) is Some,
    ensures
        find_char(a + b, c, from) == find_char(a, c, from),
    decreases a.len() - from,
{
    lemma_find_char(a, c, from);
    let j = find_char(a, c, from)->0;
    assert(forall|k: int| from <= k < j ==> (a + b)[k] == a[k]);
    lemma_find_char_witness(a + b, c, from, j);
}

/// If `s` begins with a complete ANSI color sequence `ESC [ ... m`, the
/// length of that sequence.
pub open spec fn esc_span(s: Seq<char>) -> Option<int> {
    if s.len() >= 2 && s[0] == ESCAPE && s[1] == '[' && find_char(s, 'm', 2) is Some {
        Some(find_char(s, 'm', 2)->0 + 1)
    } else {
        None
    }
}

/// `s` with every complete ANSI escape sequence removed.
pub open spec fn strip(s: Seq<char>) -> Seq<char>
    decreases s.len()
{
    if s.len() == 0 {
        Seq::empty()
    } else {
        match esc_span(s) {
            Some(k) => if 2 <= k <= s.len() {
                strip(s.skip(k))
            } else {
                seq![s[0]] + strip(s.skip(1))
            },
            None => seq![s[0]] + strip(s.skip(1)),
        }
    }
}

/// Every escape character in `s` starts a complete `ESC [ ... m` sequence.
pub open spec fn esc_clean(s: Seq<char>) -> bool
    decreases s.len()
{
    if s.len() == 0 {
        true
    } else if s[0] == ESCAPE {
        match esc_span(s) {
            Some(k) => 2 <= k <= s.len() && esc_clean(s.skip(k)),
            None => false,
        }
    } else {
        esc_clean(s.skip(1))
    }
}

/// The characters of `s` that remain visible in a terminal cell count:
/// escape sequences and combining strike marks removed.
pub open spec fn visible(s: Seq<char>) -> Seq<char> {
    strip(s).filter(|c: char| c != STRIKE)
}

/// Number of terminal cells `s` occupies on one line.
pub open spec fn visible_len(s: Seq<char>) -> int {
    visible(s).len() as int
}

pub proof fn lemma_esc_span_prefix(a: Seq<char>, b: Seq<char>)
    requires
        esc_span(a) is Some,
    ensures
        esc_span(a + b) == esc_span(a),
{
    lemma_find_char_prefix(a, b, 'm', 2);
}

/// A sequence without escape characters strips to itself and is clean.
pub proof fn lemma_strip_no_esc(s: Seq<char>)
    requires
        forall|i: int| 0 <= i < s.len() ==> s[i] != ESCAPE,
    ensures
        strip(s) == s,
        esc_clean(s),
    decreases s.len(),
{
    if s.len() == 0 {
        assert(strip(s) =~= s);
    } else {
        assert(esc_span(s) is None);
        lemma_strip_no_esc(s.skip(1));
        assert(strip(s) =~= s);
    }
}

/// Stripping distributes over concatenation when the left part is clean.
pub proof fn lemma_strip_concat(a: Seq<char>, b: Seq<char>)
    requires
        esc_clean(a),
    ensures
        strip(a + b) == strip(a) + strip(b),
    decreases a.len(),
{
    if a.len() == 0 {
        assert(a + b =~= b);
        assert(strip(a) + strip(b) =~= strip(b));
    } else if a[0] == ESCAPE {
        let k = esc_span(a)->0;
        lemma_esc_span_prefix(a, b);
        lemma_find_char(a, 'm', 2);
        assert((a + b).skip(k) =~= a.skip(k) + b);
        lemma_strip_concat(a.skip(k), b);
    } else {
        assert(esc_span(a) is None);
        assert(esc_span(a + b) is None);
        assert((a + b).skip(1) =~= a.skip(1) + b);
        lemma_strip_concat(a.skip(1), b);
        assert(strip(a + b) =~= strip(a) + strip(b));
    }
}

/// Cleanliness is preserved by concatenation.
pub proof fn lemma_esc_clean_concat(a: Seq<char>, b: Seq<char>)
    requires
        esc_clean(a),
        esc_clean(b),
    ensures
        esc_clean(a + b),
    decreases a.len(),
{
    if a.len() == 0 {
        assert(a + b =~= b);
    } else if a[0] == ESCAPE {
        let k = esc_span(a)->0;
        lemma_esc_span_prefix(a, b);
        lemma_find_char(a, 'm', 2);
        assert((a + b).skip(k) =~= a.skip(k) + b);
        lemma_esc_clean_concat(a.skip(k), b);
    } else {
        assert((a + b).skip(1) =~= a.skip(1) + b);
        lemma_esc_clean_concat(a.skip(1), b);
        assert(esc_span(a + b) is None ==> !((a + b)[0] == ESCAPE));
    }
}

/// Visible content distributes like `strip` does.
pub proof fn lemma_visible_concat(a: Seq<char>, b: Seq<char>)
    requires
        esc_clean(a),
    ensures
        visible(a + b) == visible(a) + visible(b),
        visible_len(a + b) == visible_len(a) + visible_len(b),
{
    lemma_strip_concat(a, b);
    Seq::<char>::filter_distributes_over_add(strip(a), strip(b), |c: char| c != STRIKE);
}

/// The four characters of the terminal reset sequence.
pub open spec fn reset_seq() -> Seq<char> {
    seq![ESCAPE, '[', '0', 'm']
}

pub proof fn lemma_reset_seq()
    ensures
        strip(reset_seq()) == Seq::<char>::empty(),
        esc_clean(reset_seq()),
        visible_len(reset_seq()) == 0,
{
    let r = reset_seq();
    lemma_find_char_witness(r, 'm', 2, 3);
    assert(esc_span(r) == Some(4int));
    assert(r.skip(4) =~= Seq::<char>::empty());
    assert(esc_clean(Seq::<char>::empty()));
    assert(strip(r) == strip(r.skip(4)));
    assert(strip(r).filter(|c: char| c != STRIKE) =~= Seq::<char>::empty());
}

/// The reset sequence as characters.
pub fn reset_chars() -> (r: Vec<char>)
    ensures
        r@ == reset_seq(),
        esc_clean(r@),
        strip(r@) == Seq::<char>::empty(),
{
    let mut r: Vec<char> = Vec::new();
    r.push(ESCAPE);
    r.push('[');
    r.push('0');
    r.push('m');
    proof {
        assert(r@ =~= reset_seq());
        lemma_reset_seq();
    }
    r
}

/// `n` copies of `c`.
pub open spec fn repeat_char(c: char, n: int) -> Seq<char> {
    Seq::new(if n < 0 { 0 } else { n as nat }, |i: int| c)
}

pub fn repeat_chars(c: char, n: usize) -> (r: Vec<char>)
    ensures
        r@ == repeat_char(c, n as int),
{
    let mut r: Vec<char> = Vec::new();
    let mut i: usize = 0;
    while i < n
        invariant
            i <= n,
            r@ == repeat_char(c, i as int),
        decreases n - i,
    {
        r.push(c);
        proof {
            assert(r@ =~= repeat_char(c, i + 1 as int));
        }
        i += 1;
    }
    r
}

/// The characters of `s` as a vector.
pub fn chars_of(s: &str) -> (r: Vec<char>)
    ensures
        r@ == s@,
{
    let n: usize = s.unicode_len();
    let mut r: Vec<char> = Vec::new();
    let mut i: usize = 0;
    while i < n
        invariant
            i <= n,
            n == s@.len(),
            r@ == s@.take(i as int),
        decreases n - i,
    {
        let c = s.get_char(i);
        r.push(c);
        proof {
            assert(r@ =~= s@.take(i as int + 1));
        }
        i += 1;
    }
    proof {
        assert(s@.take(n as int) =~= s@);
    }
    r
}

/// Relies on `String`'s `FromIterator<char>`: collecting chars yields the
/// string of exactly those characters in order.
#[verifier::external_body]
pub fn string_of(v: &Vec<char>) -> (r: String)
    ensures
        r@ == v@,
{
    v.iter().collect()
}

/// Append all of `piece` to `out`, keeping track of cleanliness and
/// visible content.
pub fn append_chars(out: &mut Vec<char>, piece: &Vec<char>)
    ensures
        final(out)@ == old(out)@ + piece@,
        esc_clean(old(out)@) && esc_clean(piece@) ==> esc_clean(final(out)@),
        esc_clean(old(out)@) ==> strip(final(out)@) == strip(old(out)@) + strip(piece@),
{
    let ghost orig = out@;
    let mut i: usize = 0;
    while i < piece.len()
        invariant
            i <= piece.len(),
            out@ == orig + piece@.take(i as int),
        decreases piece.len() - i,
    {
        let c = piece[i];
        out.push(c);
        proof {
            assert(out@ =~= orig + piece@.take(i + 1 as int));
        }
        i += 1;
    }
    proof {
        assert(out@ =~= orig + piece@);
        if esc_clean(orig) {
            lemma_strip_concat(orig, piece@);
            if esc_clean(piece@) {
                lemma_esc_clean_concat(orig, piece@);
            }
        }
    }
}

/// Exec form of `strip`: remove every complete escape sequence.
pub fn strip_chars(v: &Vec<char>) -> (r: Vec<char>)
    ensures
        r@ == strip(v@),
{
    let n = v.len();
    let mut out: Vec<char> = Vec::new();
    let mut i: usize = 0;
    proof {
        assert(v@.skip(0) =~= v@);
        assert(Seq::<char>::empty() + strip(v@) =~= strip(v@));
    }
    while i < n
        invariant
            i <= n,
            n == v@.len(),
            strip(v@) == out@ + strip(v@.skip(i as int)),
        decreases n - i,
    {
        let ghost rest = v@.skip(i as int);
        if v[i] == ESCAPE && i + 1 < n && v[i + 1] == '[' {
            // look for the terminating 'm'
            let mut j: usize = i + 2;
            let mut found = false;
            while j < n && !found
                invariant
                    i + 2 <= j <= n,
                    n == v@.len(),
                    found ==> j < n && v@[j as int] == 'm',
                    forall|k: int| i + 2 <= k < j ==> v@[k] != 'm',
                decreases n - j, (if found { 0int } else { 1int }),
            {
                if v[j] == 'm' {
                    found = true;
                } else {
                    j += 1;
                }
            }
            if found {
                proof {
                    assert forall|k: int| 2 <= k < j - i implies rest[k] != 'm' by {
                        assert(rest[k] == v@[i + k]);
                        assert(v@[i + k] != 'm');
                    }
                    assert(rest[j - i] == v@[j as int]);
                    lemma_find_char_witness(rest, 'm', 2, j - i);
                    assert(esc_span(rest) == Some(j - i + 1));
                    assert(rest.skip(j - i + 1) =~= v@.skip(j + 1 as int));
                    assert(strip(rest) == strip(v@.skip(j + 1 as int)));
                }
                i = j + 1;
            } else {
                proof {
                    assert(forall|k: int| 2 <= k < rest.len() ==> rest[k] == v@[i + k]);
                    lemma_find_char_none(rest, 'm', 2);
                    assert(esc_span(rest) is None);
                    assert(rest.skip(1) =~= v@.skip(i + 1 as int));
                }
                let c = v[i];
                out.push(c);
                proof {
                    assert(out@ + strip(v@.skip(i + 1 as int)) =~= strip(v@));
                }
                i += 1;
            }
        } else {
            proof {
                if rest.len() >= 2 && rest[0] == ESCAPE && rest[1] == '[' {
                    assert(v@[i + 1 as int] == '[');
                    assert(false);
                }
                assert(esc_span(rest) is None);
                assert(rest.skip(1) =~= v@.skip(i + 1 as int));
            }
            let c = v[i];
            out.push(c);
            proof {
                assert(out@ + strip(v@.skip(i + 1 as int)) =~= strip(v@));
            }
            i += 1;
        }
    }
    proof {
        assert(v@.skip(n as int) =~= Seq::<char>::empty());
        assert(out@ =~= strip(v@));
    }
    out
}

/// The views of a sequence of character vectors.
pub open spec fn seq_views(ls: Seq<Vec<char>>) -> Seq<Seq<char>> {
    Seq::new(ls.len(), |i: int| ls[i]@)
}

/// Split on newline characters, keeping every piece: n newlines give n + 1
/// pieces.
pub open spec fn split_nl(s: Seq<char>) -> Seq<Seq<char>>
    decreases s.len()
{
    match find_char(s, '\n', 0) {
        Some(i) => if 0 <= i < s.len() {
            seq![s.take(i)] + split_nl(s.skip(i + 1))
        } else {
            seq![s]
        },
        None => seq![s],
    }
}

/// The lines of `s` as iteration sees them: split on newlines, with no final
/// empty piece when the text ends in a newline.
pub open spec fn lines_view(s: Seq<char>) -> Seq<Seq<char>> {
    if s.len() == 0 {
        Seq::empty()
    } else if s.last() == '\n' {
        split_nl(s.take(s.len() - 1))
    } else {
        split_nl(s)
    }
}

/// Lines joined back together, a newline after each one.
pub open spec fn cat_lines(ls: Seq<Seq<char>>) -> Seq<char>
    decreases ls.len()
{
    if ls.len() == 0 {
        Seq::empty()
    } else {
        cat_lines(ls.drop_last()) + ls.last() + seq!['\n']
    }
}

pub proof fn lemma_cat_lines_concat(a: Seq<Seq<char>>, b: Seq<Seq<char>>)
    ensures
        cat_lines(a + b) == cat_lines(a) + cat_lines(b),
    decreases b.len(),
{
    if b.len() == 0 {
        assert(a + b =~= a);
        assert(cat_lines(a) + cat_lines(b) =~= cat_lines(a));
    } else {
        assert((a + b).drop_last() =~= a + b.drop_last());
        lemma_cat_lines_concat(a, b.drop_last());
        assert((a + b).last() == b.last());
        assert(cat_lines(a) + (cat_lines(b.drop_last()) + b.last() + seq!['\n']) =~= (cat_lines(a)
            + cat_lines(b.drop_last())) + b.last() + seq!['\n']);
    }
}

pub proof fn lemma_cat_lines_single(x: Seq<char>)
    ensures
        cat_lines(seq![x]) == x + seq!['\n'],
{
    let s = seq![x];
    assert(s.drop_last() =~= Seq::<Seq<char>>::empty());
    assert(cat_lines(s.drop_last()) == Seq::<char>::empty());
    assert(Seq::<char>::empty() + x + seq!['\n'] =~= x + seq!['\n']);
}

/// Joining the raw split of `t` appends exactly one newline.
pub proof fn lemma_cat_split(t: Seq<char>)
    ensures
        cat_lines(split_nl(t)) == t + seq!['\n'],
    decreases t.len(),
{
    match find_char(t, '\n', 0) {
        Some(i) => {
            lemma_find_char(t, '\n', 0);
            lemma_cat_lines_concat(seq![t.take(i)], split_nl(t.skip(i + 1)));
            lemma_cat_split(t.skip(i + 1));
            lemma_cat_lines_single(t.take(i));
            assert(t.take(i) + seq!['\n'] + (t.skip(i + 1) + seq!['\n']) =~= t + seq!['\n']);
        },
        None => {
            lemma_cat_lines_single(t);
        },
    }
}

/// Joining the lines of a newline-terminated text reproduces it.
pub proof fn lemma_cat_lines_id(s: Seq<char>)
    requires
        s.len() == 0 || s.last() == '\n',
    ensures
        cat_lines(lines_view(s)) == s,
{
    if s.len() == 0 {
        assert(cat_lines(lines_view(s)) =~= s);
    } else {
        lemma_cat_split(s.take(s.len() - 1));
        assert(s.take(s.len() - 1) + seq!['\n'] =~= s);
    }
}

/// The longest visible line length.
pub open spec fn max_visible(ls: Seq<Seq<char>>) -> int
    decreases ls.len()
{
    if ls.len() == 0 {
        0
    } else {
        let m = max_visible(ls.drop_last());
        let v = visible_len(ls.last());
        if v > m {
            v
        } else {
            m
        }
    }
}

/// Number of leading spaces.
pub open spec fn count_leading_sp(s: Seq<char>) -> int
    decreases s.len()
{
    if s.len() > 0 && s[0] == ' ' {
        1 + count_leading_sp(s.drop_first())
    } else {
        0
    }
}

pub proof fn lemma_count_leading_sp(s: Seq<char>, i: int)
    requires
        0 <= i <= s.len(),
        forall|k: int| 0 <= k < i ==> s[k] == ' ',
        i == s.len() || s[i] != ' ',
    ensures
        count_leading_sp(s) == i,
    decreases i,
{
    if i > 0 {
        assert(s[0] == ' ');
        lemma_count_leading_sp(s.drop_first(), i - 1);
    }
}

/// The characters of `v` from `from` (inclusive) to `to` (exclusive).
pub fn sub_chars(v: &Vec<char>, from: usize, to: usize) -> (r: Vec<char>)
    requires
        from <= to <= v@.len(),
    ensures
        r@ == v@.subrange(from as int, to as int),
{
    let mut r: Vec<char> = Vec::new();
    let mut i: usize = from;
    while i < to
        invariant
            from <= i <= to <= v@.len(),
            r@ == v@.subrange(from as int, i as int),
        decreases to - i,
    {
        let c = v[i];
        r.push(c);
        proof {
            assert(r@ =~= v@.subrange(from as int, i + 1 as int));
        }
        i += 1;
    }
    r
}

/// Split into raw newline-separated pieces.
pub fn split_all(v: &Vec<char>) -> (r: Vec<Vec<char>>)
    ensures
        seq_views(r@) == split_nl(v@),
{
    let n = v.len();
    let mut done: Vec<Vec<char>> = Vec::new();
    let mut cur: Vec<char> = Vec::new();
    let mut start: usize = 0;
    let mut i: usize = 0;
    proof {
        assert(v@.skip(0) =~= v@);
        assert(seq_views(done@) + split_nl(v@.skip(0)) =~= split_nl(v@));
    }
    while i < n
        invariant
            start <= i <= n,
            n == v@.len(),
            cur@ == v@.subrange(start as int, i as int),
            forall|k: int| start <= k < i ==> v@[k] != '\n',
            split_nl(v@) == seq_views(done@) + split_nl(v@.skip(start as int)),
        decreases n - i,
    {
        let c = v[i];
        if c == '\n' {
            proof {
                let rest = v@.skip(start as int);
                assert forall|k: int| 0 <= k < i - start implies rest[k] != '\n' by {
                    assert(rest[k] == v@[start + k]);
                }
                assert(rest[i - start] == v@[i as int]);
                lemma_find_char_witness(rest, '\n', 0, i - start);
                assert(rest.take(i - start) =~= v@.subrange(start as int, i as int));
                assert(rest.skip(i - start + 1) =~= v@.skip(i + 1 as int));
                assert(seq_views(done@.push(cur)) =~= seq_views(done@) + seq![cur@]);
                assert(seq_views(done@) + (seq![cur@] + split_nl(v@.skip(i + 1 as int))) =~= (
                seq_views(done@) + seq![cur@]) + split_nl(v@.skip(i + 1 as int)));
            }
            done.push(cur);
            cur = Vec::new();
            start = i + 1;
            proof {
                assert(cur@ =~= v@.subrange(start as int, start as int));
            }
        } else {
            cur.push(c);
            proof {
                assert(cur@ =~= v@.subrange(start as int, i + 1 as int));
            }
        }
        i += 1;
    }
    proof {
        let rest = v@.skip(start as int);
        assert forall|k: int| 0 <= k < rest.len() implies rest[k] != '\n' by {
            assert(rest[k] == v@[start + k]);
        }
        lemma_find_char_none(rest, '\n', 0);
        assert(rest =~= v@.subrange(start as int, n as int));
        assert(split_nl(rest) =~= seq![cur@]);
        assert(seq_views(done@.push(cur)) =~= seq_views(done@) + seq![cur@]);
    }
    done.push(cur);
    done
}

/// The lines of `v`, as line iteration sees them.
pub fn lines_of(v: &Vec<char>) -> (r: Vec<Vec<char>>)
    ensures
        seq_views(r@) == lines_view(v@),
{
    let n = v.len();
    if n == 0 {
        let r: Vec<Vec<char>> = Vec::new();
        proof {
            assert(seq_views(r@) =~= lines_view(v@));
        }
        r
    } else if v[n - 1] == '\n' {
        let w = sub_chars(v, 0, n - 1);
        proof {
            assert(w@ =~= v@.take(n - 1 as int));
        }
        split_all(&w)
    } else {
        split_all(v)
    }
}

/// The longest visible line length of a line list.
pub fn max_visible_of(lines: &Vec<Vec<char>>) -> (r: usize)
    ensures
        r as int == max_visible(seq_views(lines@)),
{
    let n = lines.len();
    let mut m: usize = 0;
    let mut i: usize = 0;
    proof {
        assert(seq_views(lines@).take(0) =~= Seq::<Seq<char>>::empty());
    }
    while i < n
        invariant
            i <= n,
            n == lines@.len(),
            m as int == max_visible(seq_views(lines@).take(i as int)),
            m <= usize::MAX,
        decreases n - i,
    {
        let v = visible_count(&lines[i]);
        proof {
            let vs = seq_views(lines@);
            assert(vs.take(i + 1 as int).drop_last() =~= vs.take(i as int));
            assert(vs.take(i + 1 as int).last() == lines@[i as int]@);
        }
        if v > m {
            m = v;
        }
        i += 1;
    }
    proof {
        assert(seq_views(lines@).take(n as int) =~= seq_views(lines@));
    }
    m
}

/// Number of leading spaces of `v`.
pub fn leading_sp_of(v: &Vec<char>) -> (r: usize)
    ensures
        r as int == count_leading_sp(v@),
{
    let n = v.len();
    let mut i: usize = 0;
    while i < n && v[i] == ' '
        invariant
            i <= n,
            n == v@.len(),
            forall|k: int| 0 <= k < i ==> v@[k] == ' ',
        decreases n - i,
    {
        i += 1;
    }
    proof {
        lemma_count_leading_sp(v@, i as int);
    }
    i
}

/// Exec form of `visible_len`.
pub fn visible_count(v: &Vec<char>) -> (r: usize)
    ensures
        r as int == visible_len(v@),
{
    let stripped = strip_chars(v);
    let n = stripped.len();
    let mut count: usize = 0;
    let mut i: usize = 0;
    while i < n
        invariant
            i <= n,
            n == stripped@.len(),
            count as int == stripped@.take(i as int).filter(|c: char| c != STRIKE).len(),
            count <= i,
        decreases n - i,
    {
        proof {
            reveal_with_fuel(Seq::filter, 2);
            assert(stripped@.take(i + 1 as int).drop_last() =~= stripped@.take(i as int));
            assert(stripped@.take(i + 1 as int).last() == stripped@[i as int]);
        }
        if stripped[i] != STRIKE {
            count += 1;
        }
        i += 1;
    }
    proof {
        assert(stripped@.take(n as int) =~= stripped@);
    }
    count
}

} // verus!
