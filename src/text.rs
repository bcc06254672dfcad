//! Character-level text handling: splitting on a delimiter and into lines.
use vstd::prelude::*;

verus! {

/// The pieces of `s` between occurrences of `d`, as `str::split` yields them:
/// always at least one piece, empty pieces kept.
pub open spec fn split_on(s: Seq<char>, d: char) -> Seq<Seq<char>>
    decreases s.len(),
{
    if s.len() == 0 {
        seq![Seq::<char>::empty()]
    } else {
        let p = split_on(s.drop_last(), d);
        if s.last() == d {
            p.push(Seq::<char>::empty())
        } else {
            p.update(p.len() - 1, p.last().push(s.last()))
        }
    }
}

/// The character sequences held by a sequence of character vectors.
pub open spec fn views(v: Seq<Vec<char>>) -> Seq<Seq<char>> {
    v.map_values(|x: Vec<char>| x@)
}

/// A line terminated by `\n` loses a `\r` that stood just before the `\n`.
pub open spec fn strip_cr(l: Seq<char>) -> Seq<char> {
    if l.len() > 0 && l.last() == '\r' {
        l.drop_last()
    } else {
        l
    }
}

/// The lines of `s` as `str::lines` yields them: split at `\n`, a `\r` before
/// the `\n` removed, and no empty line after a final `\n`.
pub open spec fn text_lines(s: Seq<char>) -> Seq<Seq<char>> {
    let pieces = split_on(s, '\n');
    let ended = pieces.drop_last().map_values(|l: Seq<char>| strip_cr(l));
    if s.len() == 0 || s.last() == '\n' {
        ended
    } else {
        ended.push(pieces.last())
    }
}

/// Splitting gives at least one piece.
pub proof fn lemma_split_nonempty(s: Seq<char>, d: char)
    ensures
        split_on(s, d).len() >= 1,
    decreases s.len(),
{
    if s.len() > 0 {
        lemma_split_nonempty(s.drop_last(), d);
    }
}

/// Relies on `str::chars`, collected into a `Vec`: the characters of `s` in order.
#[verifier::external_body]
pub(crate) fn chars_of(s: &str) -> (r: Vec<char>)
    ensures
        r@ == s@,
{
    s.chars().collect()
}

/// Relies on `FromIterator<char>` for `String`: the string of exactly these characters.
#[verifier::external_body]
pub(crate) fn string_of(cs: &[char]) -> (r: String)
    ensures
        r@ == cs@,
{
    cs.iter().collect()
}

/// Splits `s` at every occurrence of `d`.
pub fn split_chars(s: &[char], d: char) -> (r: Vec<Vec<char>>)
    ensures
        views(r@) == split_on(s@, d),
{
    let mut parts: Vec<Vec<char>> = Vec::new();
    let mut cur: Vec<char> = Vec::new();
    let mut i: usize = 0;
    while i < s.len()
        invariant
            i <= s@.len(),
            split_on(s@.take(i as int), d) == views(parts@).push(cur@),
        decreases s.len() - i,
    {
        let c = s[i];
        proof {
            assert(s@.take(i as int + 1).drop_last() == s@.take(i as int));
            assert(s@.take(i as int + 1).last() == c);
        }
        let ghost dv0 = views(parts@);
        let ghost cur0 = cur@;
        if c == d {
            parts.push(cur);
            cur = Vec::new();
            assert(views(parts@) =~= dv0.push(cur0));
            assert(views(parts@).push(cur@) =~= split_on(s@.take(i as int + 1), d));
        } else {
            cur.push(c);
            assert(views(parts@).push(cur@) =~= dv0.push(cur0).update(dv0.len() as int, cur0.push(c)));
        }
        i = i + 1;
    }
    assert(s@.take(s@.len() as int) == s@);
    let ghost dv0 = views(parts@);
    let ghost cur0 = cur@;
    parts.push(cur);
    assert(views(parts@) =~= dv0.push(cur0));
    parts
}


/// The characters `s[lo..hi]`, copied.
pub fn copy_range(s: &[char], lo: usize, hi: usize) -> (r: Vec<char>)
    requires
        lo <= hi <= s@.len(),
    ensures
        r@ == s@.subrange(lo as int, hi as int),
{
    let mut r: Vec<char> = Vec::new();
    let mut i: usize = lo;
    while i < hi
        invariant
            lo <= i <= hi <= s@.len(),
            r@ == s@.subrange(lo as int, i as int),
        decreases hi - i,
    {
        r.push(s[i]);
        assert(s@.subrange(lo as int, i + 1) == s@.subrange(lo as int, i as int).push(s@[i as int]));
        i = i + 1;
    }
    r
}

/// Splits `s` into lines, as `text_lines` describes.
pub fn lines_of(s: &[char]) -> (r: Vec<Vec<char>>)
    ensures
        views(r@) == text_lines(s@),
{
    let pieces = split_chars(s, '\n');
    proof {
        lemma_split_nonempty(s@, '\n');
    }
    let n = pieces.len();
    let ghost ps = views(pieces@);
    let mut r: Vec<Vec<char>> = Vec::new();
    let mut k: usize = 0;
    while k + 1 < n
        invariant
            1 <= n == pieces.len(),
            ps == views(pieces@),
            k + 1 <= n,
            views(r@) == ps.take(k as int).map_values(|l: Seq<char>| strip_cr(l)),
        decreases n - k,
    {
        let p = &pieces[k];
        assert(p@ == ps[k as int]);
        let mut end = p.len();
        if end > 0 && p[end - 1] == '\r' {
            end = end - 1;
        }
        let l = copy_range(p.as_slice(), 0, end);
        assert(l@ == strip_cr(ps[k as int]));
        let ghost r0 = views(r@);
        r.push(l);
        assert(views(r@) =~= r0.push(l@));
        assert(ps.take(k + 1).map_values(|l: Seq<char>| strip_cr(l))
            =~= ps.take(k as int).map_values(|l: Seq<char>| strip_cr(l)).push(strip_cr(ps[k as int])));
        k = k + 1;
    }
    assert(ps.take(k as int) =~= ps.drop_last());
    if !(s.len() == 0 || s[s.len() - 1] == '\n') {
        let last = &pieces[n - 1];
        let l = copy_range(last.as_slice(), 0, last.len());
        assert(l@ == ps.last());
        let ghost r0 = views(r@);
        r.push(l);
        assert(views(r@) =~= r0.push(l@));
    }
    r
}

/// `a` comes strictly before `b` in lexicographic order of code points, the
/// order of `str`'s comparison.
pub open spec fn seq_lt(a: Seq<char>, b: Seq<char>) -> bool
    decreases a.len(),
{
    if a.len() == 0 {
        b.len() > 0
    } else if b.len() == 0 {
        false
    } else if a[0] < b[0] {
        true
    } else if a[0] == b[0] {
        seq_lt(a.drop_first(), b.drop_first())
    } else {
        false
    }
}

/// No sequence comes before itself.
pub proof fn lemma_lt_irreflexive(a: Seq<char>)
    ensures
        !seq_lt(a, a),
    decreases a.len(),
{
    if a.len() > 0 {
        lemma_lt_irreflexive(a.drop_first());
    }
}

/// The lexicographic order is transitive.
pub proof fn lemma_lt_transitive(a: Seq<char>, b: Seq<char>, c: Seq<char>)
    requires
        seq_lt(a, b),
        seq_lt(b, c),
    ensures
        seq_lt(a, c),
    decreases a.len(),
{
    if a.len() > 0 && b.len() > 0 && c.len() > 0 && a[0] == b[0] && b[0] == c[0] {
        lemma_lt_transitive(a.drop_first(), b.drop_first(), c.drop_first());
    }
}

/// Of two different sequences, one comes first.
pub proof fn lemma_lt_total(a: Seq<char>, b: Seq<char>)
    ensures
        a == b || seq_lt(a, b) || seq_lt(b, a),
    decreases a.len(),
{
    if a.len() > 0 && b.len() > 0 {
        if a[0] == b[0] {
            lemma_lt_total(a.drop_first(), b.drop_first());
            if a.drop_first() == b.drop_first() {
                assert(a =~= seq![a[0]] + a.drop_first());
                assert(b =~= seq![b[0]] + b.drop_first());
            }
        }
    } else if a.len() == 0 && b.len() == 0 {
        assert(a =~= b);
    }
}

proof fn lemma_lt_skip(a: Seq<char>, b: Seq<char>, i: int)
    requires
        0 <= i <= a.len(),
        i <= b.len(),
        a.take(i) == b.take(i),
    ensures
        seq_lt(a, b) == seq_lt(a.skip(i), b.skip(i)),
    decreases i,
{
    if i > 0 {
        assert(a[0] == a.take(i)[0] && b[0] == b.take(i)[0]);
        assert(a.drop_first().take(i - 1) =~= a.take(i).drop_first());
        assert(b.drop_first().take(i - 1) =~= b.take(i).drop_first());
        lemma_lt_skip(a.drop_first(), b.drop_first(), i - 1);
        assert(a.drop_first().skip(i - 1) =~= a.skip(i));
        assert(b.drop_first().skip(i - 1) =~= b.skip(i));
    } else {
        assert(a.skip(0) =~= a);
        assert(b.skip(0) =~= b);
    }
}

/// Compares two character sequences: negative when `a` comes first, zero when
/// they are equal, positive when `b` comes first.
pub fn compare_chars(a: &[char], b: &[char]) -> (r: i8)
    ensures
        (r < 0) == seq_lt(a@, b@),
        (r == 0) == (a@ == b@),
        (r > 0) == seq_lt(b@, a@),
{
    let mut i: usize = 0;
    while i < a.len() && i < b.len() && a[i] == b[i]
        invariant
            i <= a@.len() && i <= b@.len(),
            a@.take(i as int) == b@.take(i as int),
        decreases a.len() - i,
    {
        assert(a@.take(i + 1) =~= a@.take(i as int).push(a@[i as int]));
        assert(b@.take(i + 1) =~= b@.take(i as int).push(b@[i as int]));
        i = i + 1;
    }
    proof {
        lemma_lt_skip(a@, b@, i as int);
        lemma_lt_skip(b@, a@, i as int);
        lemma_lt_irreflexive(a@);
        if seq_lt(a@, b@) && seq_lt(b@, a@) {
            lemma_lt_transitive(a@, b@, a@);
        }
    }
    if i < a.len() && i < b.len() {
        proof {
            assert(a@.skip(i as int)[0] == a@[i as int]);
            assert(b@.skip(i as int)[0] == b@[i as int]);
            if a@ == b@ {
                assert(a@[i as int] == b@[i as int]);
            }
        }
        if a[i] < b[i] {
            -1
        } else {
            1
        }
    } else if i < a.len() {
        assert(a@.len() != b@.len());
        1
    } else if i < b.len() {
        assert(a@.len() != b@.len());
        -1
    } else {
        assert(a@ =~= a@.take(i as int));
        assert(b@ =~= b@.take(i as int));
        0
    }
}

/// Whether two character sequences are equal.
pub fn same_chars(a: &[char], b: &[char]) -> (r: bool)
    ensures
        r == (a@ == b@),
{
    compare_chars(a, b) == 0
}

/// `pat` occurs in `s` at position `i`.
pub open spec fn occurs_at(s: Seq<char>, pat: Seq<char>, i: int) -> bool {
    0 <= i && i + pat.len() <= s.len() && s.subrange(i, i + pat.len()) == pat
}

/// `pat` occurs somewhere in `s`.
pub open spec fn contains_sub(s: Seq<char>, pat: Seq<char>) -> bool {
    exists|i: int| occurs_at(s, pat, i)
}

/// Whether `pat` occurs in `s` at position `i`.
fn matches_at(s: &[char], pat: &[char], i: usize) -> (r: bool)
    requires
        i + pat@.len() <= s@.len(),
    ensures
        r == occurs_at(s@, pat@, i as int),
{
    let n = s.len();
    let mut j: usize = 0;
    while j < pat.len()
        invariant
            n == s@.len(),
            i + pat@.len() <= s@.len(),
            j <= pat@.len(),
            s@.subrange(i as int, i + j) == pat@.take(j as int),
        decreases pat.len() - j,
    {
        if s[i + j] != pat[j] {
            assert(s@.subrange(i as int, i + pat@.len())[j as int] != pat@[j as int]);
            return false;
        }
        assert(s@.subrange(i as int, i + j + 1) =~= s@.subrange(i as int, i + j).push(s@[i + j]));
        assert(pat@.take(j + 1) =~= pat@.take(j as int).push(pat@[j as int]));
        j = j + 1;
    }
    assert(pat@.take(j as int) =~= pat@);
    true
}

/// Whether `pat` occurs in `s`.
pub fn has_sub(s: &[char], pat: &[char]) -> (r: bool)
    ensures
        r == contains_sub(s@, pat@),
{
    if pat.len() > s.len() {
        assert forall|i: int| !occurs_at(s@, pat@, i) by {}
        return false;
    }
    if pat.len() == 0 {
        assert(s@.subrange(0, 0) =~= pat@);
        assert(occurs_at(s@, pat@, 0));
        return true;
    }
    let mut i: usize = 0;
    while i <= s.len() - pat.len()
        invariant
            0 < pat@.len() <= s@.len(),
            i <= s@.len() - pat@.len() + 1,
            forall|k: int| 0 <= k < i ==> !occurs_at(s@, pat@, k),
        decreases s.len() - i,
    {
        if matches_at(s, pat, i) {
            return true;
        }
        i = i + 1;
    }
    assert forall|k: int| !occurs_at(s@, pat@, k) by {
        if 0 <= k < i {
        }
    }
    false
}

} // verus!
