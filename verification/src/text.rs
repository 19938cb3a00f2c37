//! Byte-level text utilities: line splitting, trimming, comparison and
//! search-and-replace. Note text is UTF-8, and every character this module
//! inspects is ASCII, so all logic works directly on byte sequences.

use vstd::prelude::*;

verus! {

/// True when the byte is ASCII horizontal whitespace or a carriage return,
/// the characters trimmed from reference targets and headings.
pub open spec fn is_ws(b: u8) -> bool {
    b == 32 || b == 9 || b == 13
}

/// The views of a sequence of byte vectors.
pub open spec fn views_of(ls: Seq<Vec<u8>>) -> Seq<Seq<u8>> {
    ls.map_values(|l: Vec<u8>| l@)
}

/// Index of the first line feed at or after `i`, or `s.len()` if none follows.
pub open spec fn find_nl(s: Seq<u8>, i: int) -> int
    decreases s.len() - i when 0 <= i <= s.len()
{
    if i >= s.len() {
        s.len() as int
    } else if s[i] == 10 {
        i
    } else {
        find_nl(s, i + 1)
    }
}

pub proof fn lemma_find_nl_props(s: Seq<u8>, i: int)
    requires
        0 <= i <= s.len(),
    ensures
        i <= find_nl(s, i) <= s.len(),
        find_nl(s, i) < s.len() ==> s[find_nl(s, i)] == 10,
        forall|m: int| i <= m < find_nl(s, i) ==> s[m] != 10,
    decreases s.len() - i,
{
    if i < s.len() && s[i] != 10 {
        lemma_find_nl_props(s, i + 1);
    }
}

pub proof fn lemma_find_nl_at(s: Seq<u8>, i: int, j: int)
    requires
        0 <= i <= j <= s.len(),
        forall|m: int| i <= m < j ==> s[m] != 10,
        j < s.len() ==> s[j] == 10,
    ensures
        find_nl(s, i) == j,
    decreases j - i,
{
    if i < j {
        lemma_find_nl_at(s, i + 1, j);
    }
}

/// Index of the first occurrence of byte `b` at or after `i`, or `s.len()`.
pub open spec fn find_byte(s: Seq<u8>, i: int, b: u8) -> int
    decreases s.len() - i when 0 <= i <= s.len()
{
    if i >= s.len() {
        s.len() as int
    } else if s[i] == b {
        i
    } else {
        find_byte(s, i + 1, b)
    }
}

pub proof fn lemma_find_byte_at(s: Seq<u8>, i: int, j: int, b: u8)
    requires
        0 <= i <= j <= s.len(),
        forall|m: int| i <= m < j ==> s[m] != b,
        j < s.len() ==> s[j] == b,
    ensures
        find_byte(s, i, b) == j,
    decreases j - i,
{
    if i < j {
        lemma_find_byte_at(s, i + 1, j, b);
    }
}

/// A line with any trailing carriage return removed, as `str::lines` does.
pub open spec fn strip_cr(l: Seq<u8>) -> Seq<u8> {
    if l.len() > 0 && l[l.len() - 1] == 13 {
        l.take(l.len() - 1)
    } else {
        l
    }
}

/// The lines of `s` starting at byte `i`: maximal runs not containing a line
/// feed, each with a trailing carriage return stripped; a final line feed
/// does not open an extra empty line.
pub open spec fn lines_from(s: Seq<u8>, i: int) -> Seq<Seq<u8>>
    decreases s.len() - i when 0 <= i <= s.len()
{
    if i >= s.len() {
        Seq::empty()
    } else {
        let j = find_nl(s, i);
        if i <= j && j < s.len() {
            seq![strip_cr(s.subrange(i, j))].add(lines_from(s, j + 1))
        } else {
            seq![strip_cr(s.subrange(i, s.len() as int))]
        }
    }
}

/// The lines of a whole text.
pub open spec fn spec_lines(s: Seq<u8>) -> Seq<Seq<u8>> {
    lines_from(s, 0)
}

/// Lines joined back into one text, a line feed after every line.
pub open spec fn join_lines(ls: Seq<Seq<u8>>) -> Seq<u8>
    decreases ls.len()
{
    if ls.len() == 0 {
        Seq::empty()
    } else {
        ls[0] + seq![10u8] + join_lines(ls.skip(1))
    }
}

pub proof fn lemma_join_lines_push(ls: Seq<Seq<u8>>, l: Seq<u8>)
    ensures
        join_lines(ls.push(l)) == join_lines(ls) + l + seq![10u8],
    decreases ls.len(),
{
    if ls.len() == 0 {
        assert(ls.push(l).skip(1) =~= Seq::<Seq<u8>>::empty());
        assert(join_lines(ls.push(l)) =~= join_lines(ls) + l + seq![10u8]);
    } else {
        assert(ls.push(l).skip(1) =~= ls.skip(1).push(l));
        lemma_join_lines_push(ls.skip(1), l);
        assert(join_lines(ls.push(l)) == ls.push(l)[0] + seq![10u8] + join_lines(
            ls.push(l).skip(1),
        ));
        assert(join_lines(ls) == ls[0] + seq![10u8] + join_lines(ls.skip(1)));
        assert(join_lines(ls.push(l)) =~= join_lines(ls) + l + seq![10u8]);
    }
}

/// `s` with ASCII whitespace removed from both ends.
pub open spec fn spec_trim(s: Seq<u8>) -> Seq<u8>
    decreases s.len()
{
    if s.len() == 0 {
        s
    } else if is_ws(s[0]) {
        spec_trim(s.skip(1))
    } else if is_ws(s[s.len() - 1]) {
        spec_trim(s.take(s.len() - 1))
    } else {
        s
    }
}

pub proof fn lemma_trim_range(s: Seq<u8>, lo: int, hi: int)
    requires
        0 <= lo <= hi <= s.len(),
        forall|k: int| 0 <= k < lo ==> is_ws(s[k]),
        forall|k: int| hi <= k < s.len() ==> is_ws(s[k]),
        lo < hi ==> !is_ws(s[lo]) && !is_ws(s[hi - 1]),
    ensures
        spec_trim(s) == s.subrange(lo, hi),
    decreases s.len(),
{
    if s.len() == 0 {
        assert(s.subrange(lo, hi) =~= s);
    } else if is_ws(s[0]) {
        if lo == 0 {
            // then lo == hi, and every byte of s is whitespace
            lemma_trim_range(s.skip(1), 0, 0);
            assert(s.subrange(lo, hi) =~= s.skip(1).subrange(0, 0));
        } else {
            lemma_trim_range(s.skip(1), lo - 1, hi - 1);
            assert(s.subrange(lo, hi) =~= s.skip(1).subrange(lo - 1, hi - 1));
        }
    } else if is_ws(s[s.len() - 1]) {
        // hi cannot be s.len(): either lo < hi and s[hi-1] is not whitespace,
        // or lo == hi and then s[0] would be whitespace
        assert(hi < s.len());
        lemma_trim_range(s.take(s.len() - 1), lo, hi);
        assert(s.subrange(lo, hi) =~= s.take(s.len() - 1).subrange(lo, hi));
    } else {
        assert(lo == 0);
        assert(hi == s.len());
        assert(s.subrange(lo, hi) =~= s);
    }
}

/// A byte with an ASCII capital letter folded to lower case.
pub open spec fn lower_byte(b: u8) -> u8 {
    if 65 <= b && b <= 90 {
        (b + 32) as u8
    } else {
        b
    }
}

/// ASCII lower-casing of a whole sequence, the library's collation key.
pub open spec fn spec_lower(s: Seq<u8>) -> Seq<u8> {
    s.map_values(|b: u8| lower_byte(b))
}

/// Strict lexicographic order on byte sequences; a proper prefix comes first.
pub open spec fn lex_lt(a: Seq<u8>, b: Seq<u8>) -> bool
    decreases a.len()
{
    if b.len() == 0 {
        false
    } else if a.len() == 0 {
        true
    } else if a[0] < b[0] {
        true
    } else if a[0] > b[0] {
        false
    } else {
        lex_lt(a.skip(1), b.skip(1))
    }
}

/// True when `p` is a prefix of `s` starting at offset `i`.
pub open spec fn has_prefix_at(s: Seq<u8>, i: int, p: Seq<u8>) -> bool {
    0 <= i && i + p.len() <= s.len() && s.subrange(i, i + p.len() as int) == p
}

/// True when `s` begins with `p`.
pub open spec fn has_prefix(s: Seq<u8>, p: Seq<u8>) -> bool {
    has_prefix_at(s, 0, p)
}

/// Exec mirror of `is_ws`.
pub fn byte_is_ws(b: u8) -> (r: bool)
    ensures
        r == is_ws(b),
{
    b == 32 || b == 9 || b == 13
}

/// True when `a` and `b` hold the same bytes.
pub fn bytes_eq(a: &[u8], b: &[u8]) -> (r: bool)
    ensures
        r == (a@ == b@),
{
    if a.len() != b.len() {
        assert(a@.len() != b@.len());
        return false;
    }
    let mut i: usize = 0;
    while i < a.len()
        invariant
            0 <= i <= a@.len(),
            a@.len() == b@.len(),
            forall|j: int| 0 <= j < i ==> a@[j] == b@[j],
        decreases a@.len() - i,
    {
        if a[i] != b[i] {
            return false;
        }
        i = i + 1;
    }
    assert(a@ =~= b@);
    true
}

/// The bytes of `s` between `from` and `to`, as a fresh vector.
pub fn copy_range(s: &[u8], from: usize, to: usize) -> (r: Vec<u8>)
    requires
        from <= to <= s@.len(),
    ensures
        r@ == s@.subrange(from as int, to as int),
{
    let mut r: Vec<u8> = Vec::new();
    let mut k: usize = from;
    while k < to
        invariant
            from <= k <= to <= s@.len(),
            r@ == s@.subrange(from as int, k as int),
        decreases to - k,
    {
        r.push(s[k]);
        assert(r@ =~= s@.subrange(from as int, k + 1 as int));
        k = k + 1;
    }
    r
}

/// A fresh copy of a byte vector, equal to it.
pub fn clone_bytes(v: &Vec<u8>) -> (r: Vec<u8>)
    ensures
        r@ == v@,
{
    let s = v.as_slice();
    let r = copy_range(s, 0, s.len());
    proof {
        assert(v@.subrange(0, v@.len() as int) =~= v@);
    }
    r
}

/// A fresh copy of a list of byte vectors, with the same views.
pub fn clone_bytes_list(v: &Vec<Vec<u8>>) -> (r: Vec<Vec<u8>>)
    ensures
        views_of(r@) == views_of(v@),
{
    let mut r: Vec<Vec<u8>> = Vec::new();
    let mut i: usize = 0;
    while i < v.len()
        invariant
            0 <= i <= v@.len(),
            views_of(r@) == views_of(v@).take(i as int),
        decreases v@.len() - i,
    {
        let ghost r0 = r@;
        r.push(clone_bytes(&v[i]));
        proof {
            assert(views_of(r@) =~= views_of(r0).push(v@[i as int]@));
            assert(views_of(v@).take(i + 1 as int) =~= views_of(v@).take(i as int).push(
                v@[i as int]@,
            ));
        }
        i = i + 1;
    }
    assert(views_of(v@).take(i as int) =~= views_of(v@));
    r
}

/// The views of a sequence of byte-vector pairs.
pub open spec fn pair_views(ps: Seq<(Vec<u8>, Vec<u8>)>) -> Seq<(Seq<u8>, Seq<u8>)> {
    ps.map_values(|p: (Vec<u8>, Vec<u8>)| (p.0@, p.1@))
}

/// Appends all of `s` to `out`.
pub fn push_bytes(out: &mut Vec<u8>, s: &[u8])
    ensures
        final(out)@ == old(out)@ + s@,
{
    let ghost o0 = out@;
    let mut i: usize = 0;
    proof {
        assert(out@ =~= o0 + s@.take(0));
    }
    while i < s.len()
        invariant
            0 <= i <= s@.len(),
            out@ == o0 + s@.take(i as int),
        decreases s@.len() - i,
    {
        out.push(s[i]);
        assert(out@ =~= o0 + s@.take(i + 1 as int));
        i = i + 1;
    }
    assert(s@.take(i as int) =~= s@);
}

/// A fresh copy of a list of byte-vector pairs, with the same views.
pub fn clone_pairs(v: &Vec<(Vec<u8>, Vec<u8>)>) -> (r: Vec<(Vec<u8>, Vec<u8>)>)
    ensures
        pair_views(r@) == pair_views(v@),
{
    let mut r: Vec<(Vec<u8>, Vec<u8>)> = Vec::new();
    let mut i: usize = 0;
    while i < v.len()
        invariant
            0 <= i <= v@.len(),
            pair_views(r@) == pair_views(v@).take(i as int),
        decreases v@.len() - i,
    {
        let ghost r0 = r@;
        let p = &v[i];
        r.push((clone_bytes(&p.0), clone_bytes(&p.1)));
        proof {
            assert(pair_views(r@) =~= pair_views(r0).push((p.0@, p.1@)));
            assert(pair_views(v@).take(i + 1 as int) =~= pair_views(v@).take(i as int).push(
                (p.0@, p.1@),
            ));
        }
        i = i + 1;
    }
    assert(pair_views(v@).take(i as int) =~= pair_views(v@));
    r
}

/// True when `pat` occurs in `s` starting at offset `i`.
pub fn prefix_at(s: &[u8], i: usize, pat: &[u8]) -> (r: bool)
    requires
        i <= s@.len(),
    ensures
        r == has_prefix_at(s@, i as int, pat@),
{
    if pat.len() > s.len() - i {
        return false;
    }
    let mut k: usize = 0;
    while k < pat.len()
        invariant
            0 <= k <= pat@.len(),
            i + pat@.len() <= s@.len(),
            s@.len() <= usize::MAX,
            forall|j: int| 0 <= j < k ==> s@[i + j] == pat@[j],
        decreases pat@.len() - k,
    {
        assert(i + k < s@.len());
        if s[i + k] != pat[k] {
            assert(s@.subrange(i as int, i + pat@.len() as int)[k as int] != pat@[k as int]);
            return false;
        }
        k = k + 1;
    }
    assert(s@.subrange(i as int, i + pat@.len() as int) =~= pat@);
    true
}

/// True when `s` begins with `p`.
pub fn starts_with(s: &[u8], p: &[u8]) -> (r: bool)
    ensures
        r == has_prefix(s@, p@),
{
    prefix_at(s, 0, p)
}

/// Splits a text into its lines, exactly as `spec_lines` describes.
pub fn split_lines(s: &[u8]) -> (r: Vec<Vec<u8>>)
    ensures
        views_of(r@) == spec_lines(s@),
{
    let mut out: Vec<Vec<u8>> = Vec::new();
    let mut i: usize = 0;
    while i < s.len()
        invariant
            0 <= i <= s@.len(),
            spec_lines(s@) == views_of(out@) + lines_from(s@, i as int),
        decreases s@.len() - i,
    {
        let ghost out0 = out@;
        let ghost i0 = i as int;
        let mut j: usize = i;
        while j < s.len() && s[j] != 10
            invariant
                i <= j <= s@.len(),
                forall|m: int| i <= m < j ==> s@[m] != 10,
            decreases s@.len() - j,
        {
            j = j + 1;
        }
        proof {
            lemma_find_nl_at(s@, i as int, j as int);
        }
        let mut hi: usize = j;
        if hi > i && s[hi - 1] == 13 {
            hi = hi - 1;
        }
        let line = copy_range(s, i, hi);
        proof {
            let raw = s@.subrange(i0, j as int);
            if (hi as int) < j as int {
                assert(raw[raw.len() - 1] == 13);
                assert(raw.take(raw.len() - 1) =~= s@.subrange(i0, hi as int));
                assert(line@ == strip_cr(raw));
            } else {
                assert(line@ =~= raw);
                assert(line@ == strip_cr(raw));
            }
        }
        out.push(line);
        proof {
            assert(views_of(out@) =~= views_of(out0).push(line@));
        }
        if j < s.len() {
            i = j + 1;
            proof {
                assert(lines_from(s@, i0) =~= seq![line@].add(lines_from(s@, i as int)));
                assert(views_of(out@) + lines_from(s@, i as int) =~= views_of(out0) + lines_from(
                    s@,
                    i0,
                ));
            }
        } else {
            i = j;
            proof {
                assert(j == s@.len());
                assert(lines_from(s@, i0) =~= seq![line@]);
                assert(lines_from(s@, i as int) =~= Seq::<Seq<u8>>::empty());
                assert(views_of(out@) + lines_from(s@, i as int) =~= views_of(out0) + lines_from(
                    s@,
                    i0,
                ));
            }
        }
    }
    proof {
        assert(lines_from(s@, i as int) =~= Seq::<Seq<u8>>::empty());
        assert(views_of(out@) =~= views_of(out@) + lines_from(s@, i as int));
    }
    out
}

/// Joins the lines `ls[from..to]`, a line feed after every line.
pub fn join_lines_range(ls: &Vec<Vec<u8>>, from: usize, to: usize) -> (r: Vec<u8>)
    requires
        from <= to <= ls@.len(),
    ensures
        r@ == join_lines(views_of(ls@).subrange(from as int, to as int)),
{
    let mut r: Vec<u8> = Vec::new();
    let mut k: usize = from;
    while k < to
        invariant
            from <= k <= to <= ls@.len(),
            r@ == join_lines(views_of(ls@).subrange(from as int, k as int)),
        decreases to - k,
    {
        let ghost r0 = r@;
        let line = &ls[k];
        let mut m: usize = 0;
        while m < line.len()
            invariant
                0 <= m <= line@.len(),
                r@ == r0 + line@.take(m as int),
            decreases line@.len() - m,
        {
            r.push(line[m]);
            assert(r@ =~= r0 + line@.take(m + 1 as int));
            m = m + 1;
        }
        assert(line@.take(line@.len() as int) =~= line@);
        r.push(10);
        proof {
            let vs = views_of(ls@);
            assert(vs.subrange(from as int, k + 1 as int) =~= vs.subrange(from as int, k as int)
                .push(line@));
            lemma_join_lines_push(vs.subrange(from as int, k as int), line@);
            assert(r@ =~= join_lines(vs.subrange(from as int, k + 1 as int)));
        }
        k = k + 1;
    }
    r
}

/// `s` with ASCII whitespace removed from both ends.
pub fn trim(s: &[u8]) -> (r: Vec<u8>)
    ensures
        r@ == spec_trim(s@),
{
    let mut lo: usize = 0;
    while lo < s.len() && byte_is_ws(s[lo])
        invariant
            0 <= lo <= s@.len(),
            forall|k: int| 0 <= k < lo ==> is_ws(s@[k]),
        decreases s@.len() - lo,
    {
        lo = lo + 1;
    }
    if lo == s.len() {
        proof {
            lemma_trim_range(s@, lo as int, lo as int);
        }
        let r = copy_range(s, lo, lo);
        return r;
    }
    let mut hi: usize = s.len();
    while hi > lo && byte_is_ws(s[hi - 1])
        invariant
            lo <= hi <= s@.len(),
            forall|k: int| hi <= k < s@.len() ==> is_ws(s@[k]),
        decreases hi,
    {
        hi = hi - 1;
    }
    proof {
        lemma_trim_range(s@, lo as int, hi as int);
    }
    copy_range(s, lo, hi)
}

/// ASCII lower-casing of a whole byte vector.
pub fn lower_bytes(s: &[u8]) -> (r: Vec<u8>)
    ensures
        r@ == spec_lower(s@),
{
    let mut r: Vec<u8> = Vec::new();
    let mut i: usize = 0;
    while i < s.len()
        invariant
            0 <= i <= s@.len(),
            r@ == spec_lower(s@.take(i as int)),
        decreases s@.len() - i,
    {
        let b = s[i];
        if 65 <= b && b <= 90 {
            r.push(b + 32);
        } else {
            r.push(b);
        }
        assert(r@ =~= spec_lower(s@.take(i + 1 as int)));
        i = i + 1;
    }
    assert(s@.take(i as int) =~= s@);
    r
}

/// Strict lexicographic comparison of two byte strings.
pub fn lex_lt_bytes(a: &[u8], b: &[u8]) -> (r: bool)
    ensures
        r == lex_lt(a@, b@),
{
    let mut i: usize = 0;
    proof {
        assert(a@.skip(0) =~= a@);
        assert(b@.skip(0) =~= b@);
    }
    while i < a.len() && i < b.len()
        invariant
            0 <= i <= a@.len(),
            i <= b@.len(),
            lex_lt(a@, b@) == lex_lt(a@.skip(i as int), b@.skip(i as int)),
        decreases a@.len() - i,
    {
        if a[i] < b[i] {
            return true;
        }
        if a[i] > b[i] {
            return false;
        }
        proof {
            assert(a@.skip(i as int).skip(1) =~= a@.skip(i + 1));
            assert(b@.skip(i as int).skip(1) =~= b@.skip(i + 1));
        }
        i = i + 1;
    }
    i < b.len()
}

} // verus!
