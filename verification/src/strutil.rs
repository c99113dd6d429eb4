//! Character-level string utilities: every parser in this crate works over
//! `Vec<char>` with `Seq<char>` models, and converts from and to `String` at
//! its boundary.

use vstd::prelude::*;

verus! {

/// The characters `str::trim` treats as whitespace.
pub open spec fn is_space_char(c: char) -> bool {
    c == ' ' || c == '\t' || c == '\n' || c == '\r' || c == '\u{b}' || c == '\u{c}'
        || c == '\u{85}' || c == '\u{a0}' || c == '\u{1680}' || c == '\u{2000}' || c == '\u{2001}'
        || c == '\u{2002}' || c == '\u{2003}' || c == '\u{2004}' || c == '\u{2005}'
        || c == '\u{2006}' || c == '\u{2007}' || c == '\u{2008}' || c == '\u{2009}'
        || c == '\u{200a}' || c == '\u{2028}' || c == '\u{2029}' || c == '\u{202f}'
        || c == '\u{205f}' || c == '\u{3000}'
}

pub fn space_char(c: char) -> (r: bool)
    ensures
        r == is_space_char(c),
{
    c == ' ' || c == '\t' || c == '\n' || c == '\r' || c == '\u{b}' || c == '\u{c}'
        || c == '\u{85}' || c == '\u{a0}' || c == '\u{1680}' || c == '\u{2000}' || c == '\u{2001}'
        || c == '\u{2002}' || c == '\u{2003}' || c == '\u{2004}' || c == '\u{2005}'
        || c == '\u{2006}' || c == '\u{2007}' || c == '\u{2008}' || c == '\u{2009}'
        || c == '\u{200a}' || c == '\u{2028}' || c == '\u{2029}' || c == '\u{202f}'
        || c == '\u{205f}' || c == '\u{3000}'
}

/// A sequence is all whitespace.
pub open spec fn all_space(s: Seq<char>) -> bool {
    forall|i: int| 0 <= i < s.len() ==> is_space_char(s[i])
}

/// What `str::trim` leaves: the sequence with leading and trailing
/// whitespace removed.
pub open spec fn trim_seq(s: Seq<char>) -> Seq<char>
    decreases s.len(),
{
    if s.len() == 0 {
        s
    } else if is_space_char(s[0]) {
        trim_seq(s.drop_first())
    } else if is_space_char(s.last()) {
        trim_seq(s.drop_last())
    } else {
        s
    }
}

/// Trimming only ever happens at the two ends: the result of `trim_seq` on a
/// window `s.subrange(lo, hi)` whose ends are not whitespace is the window
/// itself.
proof fn lemma_trim_window(s: Seq<char>, lo: int, hi: int)
    requires
        0 <= lo <= hi <= s.len(),
        forall|i: int| 0 <= i < lo ==> is_space_char(s[i]),
        forall|i: int| hi <= i < s.len() ==> is_space_char(s[i]),
        lo < hi ==> !is_space_char(s[lo]),
        lo < hi ==> !is_space_char(s[hi - 1]),
    ensures
        trim_seq(s) == s.subrange(lo, hi),
    decreases s.len(),
{
    if s.len() == 0 {
        assert(s.subrange(lo, hi) =~= s);
    } else if lo == hi {
        assert(all_space(s));
        if is_space_char(s[0]) {
            lemma_trim_window(s.drop_first(), 0, 0);
        } else {
            assert(s.len() == 0);
        }
        assert(s.subrange(lo, hi) =~= Seq::<char>::empty());
    } else if is_space_char(s[0]) {
        lemma_trim_window(s.drop_first(), lo - 1, hi - 1);
        assert(s.drop_first().subrange(lo - 1, hi - 1) =~= s.subrange(lo, hi));
    } else if is_space_char(s.last()) {
        assert(lo == 0);
        assert(hi < s.len());
        lemma_trim_window(s.drop_last(), lo, hi);
        assert(s.drop_last().subrange(lo, hi) =~= s.subrange(lo, hi));
    } else {
        assert(lo == 0 && hi == s.len());
        assert(s.subrange(lo, hi) =~= s);
    }
}

/// Trim leading and trailing whitespace from a character vector.
pub fn trim_chars(s: &Vec<char>) -> (r: Vec<char>)
    ensures
        r@ == trim_seq(s@),
{
    let n = s.len();
    let mut lo: usize = 0;
    while lo < n && space_char(s[lo])
        invariant
            n == s@.len(),
            lo <= n,
            forall|i: int| 0 <= i < lo ==> is_space_char(s@[i]),
        decreases n - lo,
    {
        lo = lo + 1;
    }
    let mut hi: usize = n;
    while hi > lo && space_char(s[hi - 1])
        invariant
            n == s@.len(),
            lo <= hi <= n,
            forall|i: int| 0 <= i < lo ==> is_space_char(s@[i]),
            forall|i: int| hi <= i < n ==> is_space_char(s@[i]),
        decreases hi,
    {
        hi = hi - 1;
    }
    let mut r: Vec<char> = Vec::new();
    let mut i: usize = lo;
    while i < hi
        invariant
            lo <= i <= hi <= n,
            n == s@.len(),
            r@ =~= s@.subrange(lo as int, i as int),
        decreases hi - i,
    {
        r.push(s[i]);
        assert(r@ =~= s@.subrange(lo as int, i + 1));
        i = i + 1;
    }
    proof {
        lemma_trim_window(s@, lo as int, hi as int);
        assert(r@ =~= s@.subrange(lo as int, hi as int));
    }
    r
}

/// The characters of a string slice, in order.
pub fn str_chars(s: &str) -> (r: Vec<char>)
    ensures
        r@ == s@,
{
    let n = s.unicode_len();
    let mut r: Vec<char> = Vec::new();
    let mut i: usize = 0;
    while i < n
        invariant
            n == s@.len(),
            i <= n,
            r@ =~= s@.subrange(0, i as int),
        decreases n - i,
    {
        r.push(s.get_char(i));
        assert(r@ =~= s@.subrange(0, i + 1));
        i = i + 1;
    }
    proof {
        assert(r@ =~= s@);
    }
    r
}

/// Relies on `String::from_iter` over `char`: collecting characters yields
/// the string with exactly those characters.
#[verifier::external_body]
pub fn chars_to_string(v: &Vec<char>) -> (r: String)
    ensures
        r@ == v@,
{
    v.iter().collect()
}

/// Whether two string slices hold the same characters.
pub fn str_eq(a: &str, b: &str) -> (r: bool)
    ensures
        r == (a@ == b@),
{
    let an = a.unicode_len();
    let bn = b.unicode_len();
    if an != bn {
        return false;
    }
    let mut i: usize = 0;
    while i < an
        invariant
            an == a@.len(),
            an == b@.len(),
            i <= an,
            forall|j: int| 0 <= j < i ==> a@[j] == b@[j],
        decreases an - i,
    {
        if a.get_char(i) != b.get_char(i) {
            return false;
        }
        i = i + 1;
    }
    proof {
        assert(a@ =~= b@);
    }
    true
}

/// Whether the characters of `s` are exactly `w` followed by something.
pub open spec fn starts_with_seq(s: Seq<char>, w: Seq<char>) -> bool {
    w.len() <= s.len() && s.subrange(0, w.len() as int) == w
}

/// Whether the character vector `s` starts with the string slice `w`.
pub fn chars_start_with(s: &Vec<char>, w: &str) -> (r: bool)
    ensures
        r == starts_with_seq(s@, w@),
{
    let wn = w.unicode_len();
    if wn > s.len() {
        return false;
    }
    let mut i: usize = 0;
    while i < wn
        invariant
            wn == w@.len(),
            wn <= s@.len(),
            i <= wn,
            forall|j: int| 0 <= j < i ==> s@[j] == w@[j],
        decreases wn - i,
    {
        if s[i] != w.get_char(i) {
            assert(s@.subrange(0, wn as int)[i as int] != w@[i as int]);
            return false;
        }
        i = i + 1;
    }
    proof {
        assert(s@.subrange(0, wn as int) =~= w@);
    }
    true
}

/// The needle occurs in the haystack starting at position `i`.
pub open spec fn occurs_at(h: Seq<char>, w: Seq<char>, i: int) -> bool {
    0 <= i && i + w.len() <= h.len() && h.subrange(i, i + w.len()) == w
}

/// The needle occurs somewhere in the haystack.
pub open spec fn contains_seq(h: Seq<char>, w: Seq<char>) -> bool {
    exists|i: int| occurs_at(h, w, i)
}

/// Whether the string slice `w` occurs in the character vector `h`.
pub fn chars_contain(h: &Vec<char>, w: &str) -> (r: bool)
    ensures
        r == contains_seq(h@, w@),
{
    let wn = w.unicode_len();
    let hn = h.len();
    if wn > hn {
        assert(forall|i: int| !occurs_at(h@, w@, i));
        return false;
    }
    if wn == 0 {
        proof {
            assert(h@.subrange(0, 0) =~= w@);
            assert(occurs_at(h@, w@, 0));
        }
        return true;
    }
    let mut start: usize = 0;
    while start <= hn - wn
        invariant
            wn == w@.len(),
            1 <= wn <= hn,
            hn == h@.len(),
            start <= hn - wn + 1,
            forall|i: int| 0 <= i < start ==> !occurs_at(h@, w@, i),
        decreases hn - start,
    {
        let mut i: usize = 0;
        let mut matched = true;
        while i < wn
            invariant
                wn == w@.len(),
                hn == h@.len(),
                start + wn <= hn,
                i <= wn,
                matched ==> forall|j: int| 0 <= j < i ==> h@[start + j] == w@[j],
                !matched ==> !occurs_at(h@, w@, start as int),
            decreases wn - i,
        {
            if h[start + i] != w.get_char(i) {
                proof {
                    if occurs_at(h@, w@, start as int) {
                        assert(h@.subrange(start as int, start + wn)[i as int] == w@[i as int]);
                    }
                }
                matched = false;
                i = wn;
            } else {
                i = i + 1;
            }
        }
        if matched {
            proof {
                assert(h@.subrange(start as int, start + wn) =~= w@);
                assert(occurs_at(h@, w@, start as int));
            }
            return true;
        }
        start = start + 1;
    }
    proof {
        assert forall|i: int| !occurs_at(h@, w@, i) by {
            if occurs_at(h@, w@, i) {
                assert(0 <= i < start);
            }
        }
    }
    false
}

/// The position of the first occurrence of `c` in `s`, or the length of `s`
/// when it does not occur.
pub open spec fn first_index_of(s: Seq<char>, c: char) -> int
    decreases s.len(),
{
    if s.len() == 0 {
        0
    } else if s[0] == c {
        0
    } else {
        1 + first_index_of(s.drop_first(), c)
    }
}

pub proof fn lemma_first_index_of_range(s: Seq<char>, c: char)
    ensures
        0 <= first_index_of(s, c) <= s.len(),
        first_index_of(s, c) < s.len() ==> s[first_index_of(s, c)] == c,
    decreases s.len(),
{
    if s.len() == 0 {
    } else if s[0] == c {
    } else {
        lemma_first_index_of_range(s.drop_first(), c);
    }
}

pub proof fn lemma_first_index_of_from_scan(s: Seq<char>, c: char, i: int)
    requires
        0 <= i <= s.len(),
        forall|j: int| 0 <= j < i ==> s[j] != c,
        i < s.len() ==> s[i] == c,
    ensures
        first_index_of(s, c) == i,
    decreases s.len(),
{
    if s.len() == 0 {
    } else if s[0] == c {
    } else {
        lemma_first_index_of_from_scan(s.drop_first(), c, i - 1);
    }
}

/// Find the first occurrence of `c` in `s` at or after `from`.
pub fn find_char_from(s: &Vec<char>, from: usize, c: char) -> (r: usize)
    requires
        from <= s@.len(),
    ensures
        from <= r <= s@.len(),
        r - from == first_index_of(s@.skip(from as int), c),
        r < s@.len() ==> s@[r as int] == c,
        forall|j: int| from <= j < r ==> s@[j] != c,
    decreases s@.len() - from,
{
    let n = s.len();
    let mut i: usize = from;
    while i < n && s[i] != c
        invariant
            from <= i <= n,
            n == s@.len(),
            forall|j: int| from <= j < i ==> s@[j] != c,
        decreases n - i,
    {
        i = i + 1;
    }
    proof {
        lemma_first_index_of_from_scan(s@.skip(from as int), c, i - from);
    }
    i
}

/// Copy the characters of `s` between `from` and `to`.
pub fn copy_range(s: &Vec<char>, from: usize, to: usize) -> (r: Vec<char>)
    requires
        from <= to <= s@.len(),
    ensures
        r@ == s@.subrange(from as int, to as int),
{
    let mut r: Vec<char> = Vec::new();
    let mut i: usize = from;
    while i < to
        invariant
            from <= i <= to <= s@.len(),
            r@ =~= s@.subrange(from as int, i as int),
        decreases to - i,
    {
        r.push(s[i]);
        assert(r@ =~= s@.subrange(from as int, i + 1));
        i = i + 1;
    }
    proof {
        assert(r@ =~= s@.subrange(from as int, to as int));
    }
    r
}

/// A line as `str::lines` yields it: a carriage return just before the line
/// feed is dropped.
pub open spec fn strip_one_cr(l: Seq<char>) -> Seq<char> {
    if l.len() > 0 && l.last() == '\r' {
        l.drop_last()
    } else {
        l
    }
}

/// What `str::lines` yields: segments split at line feeds, a carriage return
/// before each line feed dropped, and an optional final line ending.
pub open spec fn split_lines(s: Seq<char>) -> Seq<Seq<char>>
    decreases s.len(),
    via split_lines_decreases
{
    if s.len() == 0 {
        Seq::empty()
    } else {
        let i = first_index_of(s, '\n');
        if i == s.len() {
            seq![s]
        } else {
            seq![strip_one_cr(s.subrange(0, i))] + split_lines(s.skip(i + 1))
        }
    }
}

#[via_fn]
proof fn split_lines_decreases(s: Seq<char>) {
    if s.len() != 0 {
        lemma_first_index_of_range(s, '\n');
    }
}

/// Split a character vector into its lines.
pub fn split_lines_chars(s: &Vec<char>) -> (r: Vec<Vec<char>>)
    ensures
        r.deep_view() == split_lines(s@),
{
    let n = s.len();
    let mut out: Vec<Vec<char>> = Vec::new();
    let mut pos: usize = 0;
    proof {
        assert(s@.skip(0) =~= s@);
        assert(out.deep_view() =~= Seq::<Seq<char>>::empty());
    }
    while pos < n
        invariant
            pos <= n,
            n == s@.len(),
            split_lines(s@) == out.deep_view() + split_lines(s@.skip(pos as int)),
        decreases n - pos,
    {
        let ghost rest = s@.skip(pos as int);
        let ghost old_dv = out.deep_view();
        let i = find_char_from(s, pos, '\n');
        if i == n {
            let line = copy_range(s, pos, n);
            proof {
                assert(rest =~= s@.subrange(pos as int, n as int));
                assert(line@ == rest);
                assert(first_index_of(rest, '\n') == rest.len());
                assert(split_lines(rest) == seq![line@]);
            }
            out.push(line);
            pos = n;
            proof {
                assert(out.deep_view() =~~= old_dv + seq![line@]);
                assert(s@.skip(n as int) =~= Seq::<char>::empty());
                assert(split_lines(s@.skip(pos as int)) == Seq::<Seq<char>>::empty());
                assert(out.deep_view() + split_lines(s@.skip(pos as int))
                    =~= old_dv + split_lines(rest));
            }
        } else {
            let mut line = copy_range(s, pos, i);
            if line.len() > 0 && line[line.len() - 1] == '\r' {
                line.pop();
            }
            proof {
                assert(first_index_of(rest, '\n') == i - pos);
                assert(first_index_of(rest, '\n') < rest.len());
                assert(rest.subrange(0, i - pos) =~= s@.subrange(pos as int, i as int));
                assert(line@ =~= strip_one_cr(rest.subrange(0, i - pos)));
                assert(rest.skip(i - pos + 1) =~= s@.skip(i + 1));
                assert(split_lines(rest) == seq![line@] + split_lines(s@.skip(i + 1)));
            }
            out.push(line);
            pos = i + 1;
            proof {
                assert(out.deep_view() =~~= old_dv + seq![line@]);
                assert(out.deep_view() + split_lines(s@.skip(pos as int))
                    =~= old_dv + split_lines(rest));
            }
        }
    }
    proof {
        assert(s@.skip(pos as int) =~= Seq::<char>::empty());
        assert(split_lines(s@.skip(pos as int)) == Seq::<Seq<char>>::empty());
        assert(out.deep_view() + split_lines(s@.skip(pos as int)) =~= out.deep_view());
    }
    out
}

/// Lines joined by a line feed, no trailing line feed.
pub open spec fn join_nl(lines: Seq<Seq<char>>) -> Seq<char>
    decreases lines.len(),
{
    if lines.len() == 0 {
        Seq::empty()
    } else if lines.len() == 1 {
        lines[0]
    } else {
        join_nl(lines.drop_last()) + seq!['\n'] + lines.last()
    }
}

/// Join character vectors with a line feed between each pair.
pub fn join_nl_chars(lines: &Vec<Vec<char>>) -> (r: Vec<char>)
    ensures
        r@ == join_nl(lines.deep_view()),
{
    let n = lines.len();
    let mut out: Vec<char> = Vec::new();
    let mut k: usize = 0;
    while k < n
        invariant
            k <= n,
            n == lines@.len(),
            out@ =~= join_nl(lines.deep_view().take(k as int)),
        decreases n - k,
    {
        if k > 0 {
            out.push('\n');
        }
        let line = &lines[k];
        let mut i: usize = 0;
        let ghost mid = out@;
        while i < line.len()
            invariant
                i <= line@.len(),
                out@ =~= mid + line@.take(i as int),
            decreases line@.len() - i,
        {
            out.push(line[i]);
            assert(out@ =~= mid + line@.take(i + 1));
            i = i + 1;
        }
        proof {
            let lv = lines.deep_view();
            assert(line@.take(line@.len() as int) =~= lv[k as int]);
            assert(lv.take(k + 1).drop_last() =~= lv.take(k as int));
            assert(lv.take(k + 1).last() == lv[k as int]);
            if k == 0 {
                assert(out@ =~= join_nl(lv.take(1)));
            } else {
                assert(out@ =~= join_nl(lv.take(k as int)) + seq!['\n'] + lv[k as int]);
                assert(out@ =~= join_nl(lv.take(k + 1)));
            }
        }
        k = k + 1;
    }
    proof {
        assert(lines.deep_view().take(n as int) =~= lines.deep_view());
    }
    out
}

/// Lexicographic order on character sequences, by code point.
pub open spec fn lex_le(a: Seq<char>, b: Seq<char>) -> bool
    decreases a.len(),
{
    if a.len() == 0 {
        true
    } else if b.len() == 0 {
        false
    } else if (a[0] as u32) < (b[0] as u32) {
        true
    } else if (a[0] as u32) > (b[0] as u32) {
        false
    } else {
        lex_le(a.drop_first(), b.drop_first())
    }
}

/// The order is total.
pub proof fn lemma_lex_total(a: Seq<char>, b: Seq<char>)
    ensures
        lex_le(a, b) || lex_le(b, a),
    decreases a.len(),
{
    if a.len() > 0 && b.len() > 0 && (a[0] as u32) == (b[0] as u32) {
        lemma_lex_total(a.drop_first(), b.drop_first());
    }
}

/// The order is transitive.
pub proof fn lemma_lex_trans(a: Seq<char>, b: Seq<char>, c: Seq<char>)
    requires
        lex_le(a, b),
        lex_le(b, c),
    ensures
        lex_le(a, c),
    decreases a.len(),
{
    if a.len() > 0 && b.len() > 0 && c.len() > 0 && (a[0] as u32) == (b[0] as u32) && (b[0] as u32)
        == (c[0] as u32) {
        lemma_lex_trans(a.drop_first(), b.drop_first(), c.drop_first());
    }
}

/// Whether `a` comes no later than `b` in code-point order.
pub fn chars_lex_le(a: &Vec<char>, b: &Vec<char>) -> (r: bool)
    ensures
        r == lex_le(a@, b@),
{
    let an = a.len();
    let bn = b.len();
    let mut i: usize = 0;
    proof {
        assert(a@.skip(0) =~= a@);
        assert(b@.skip(0) =~= b@);
    }
    loop
        invariant
            i <= an,
            i <= bn,
            an == a@.len(),
            bn == b@.len(),
            lex_le(a@, b@) == lex_le(a@.skip(i as int), b@.skip(i as int)),
        decreases an - i,
    {
        if i >= an {
            proof {
                assert(a@.skip(i as int) =~= Seq::<char>::empty());
            }
            return true;
        }
        if i >= bn {
            proof {
                assert(b@.skip(i as int) =~= Seq::<char>::empty());
                assert(a@.skip(i as int).len() > 0);
            }
            return false;
        }
        let ca = a[i];
        let cb = b[i];
        proof {
            assert(a@.skip(i as int)[0] == a@[i as int]);
            assert(b@.skip(i as int)[0] == b@[i as int]);
        }
        if (ca as u32) < (cb as u32) {
            return true;
        }
        if (ca as u32) > (cb as u32) {
            return false;
        }
        proof {
            assert(a@.skip(i as int).drop_first() =~= a@.skip(i + 1));
            assert(b@.skip(i as int).drop_first() =~= b@.skip(i + 1));
        }
        i = i + 1;
    }
}

/// Segments split at a separator; a trailing separator yields a final
/// empty segment.
pub open spec fn split_sep(s: Seq<char>, sep: char) -> Seq<Seq<char>>
    decreases s.len(),
    via split_sep_decreases
{
    let i = first_index_of(s, sep);
    if i == s.len() {
        seq![s]
    } else {
        seq![s.take(i)] + split_sep(s.skip(i + 1), sep)
    }
}

#[via_fn]
proof fn split_sep_decreases(s: Seq<char>, sep: char) {
    lemma_first_index_of_range(s, sep);
}

/// Split a character vector at a separator.
pub fn split_sep_chars(s: &Vec<char>, sep: char) -> (r: Vec<Vec<char>>)
    ensures
        r.deep_view() == split_sep(s@, sep),
        r@.len() > 0,
{
    let n = s.len();
    let mut out: Vec<Vec<char>> = Vec::new();
    let mut pos: usize = 0;
    proof {
        assert(s@.skip(0) =~= s@);
        assert(out.deep_view() =~= Seq::<Seq<char>>::empty());
    }
    loop
        invariant
            pos <= n,
            n == s@.len(),
            split_sep(s@, sep) == out.deep_view() + split_sep(s@.skip(pos as int), sep),
        decreases n - pos,
    {
        let ghost rest = s@.skip(pos as int);
        let ghost old_dv = out.deep_view();
        let i = find_char_from(s, pos, sep);
        if i == n {
            let seg = copy_range(s, pos, n);
            proof {
                assert(rest =~= s@.subrange(pos as int, n as int));
                assert(seg@ == rest);
                assert(first_index_of(rest, sep) == rest.len());
                assert(split_sep(rest, sep) == seq![seg@]);
            }
            out.push(seg);
            proof {
                assert(out.deep_view() =~~= old_dv + seq![rest]);
                assert(out.deep_view() =~~= old_dv + split_sep(rest, sep));
                assert(split_sep(s@, sep) == out.deep_view());
            }
            return out;
        }
        let seg = copy_range(s, pos, i);
        proof {
            assert(first_index_of(rest, sep) == i - pos);
            assert(first_index_of(rest, sep) < rest.len());
            assert(rest.take(i - pos) =~= s@.subrange(pos as int, i as int));
            assert(seg@ == rest.take(i - pos));
            assert(rest.skip(i - pos + 1) =~= s@.skip(i + 1));
            assert(split_sep(rest, sep) == seq![seg@] + split_sep(s@.skip(i + 1), sep));
        }
        out.push(seg);
        pos = i + 1;
        proof {
            assert(out.deep_view() =~~= old_dv + seq![seg@]);
            assert(out.deep_view() + split_sep(s@.skip(pos as int), sep) =~~= old_dv + split_sep(
                rest,
                sep,
            ));
        }
    }
}

/// Whether a character vector holds exactly the characters of a string
/// slice.
pub fn chars_eq_str(c: &Vec<char>, w: &str) -> (r: bool)
    ensures
        r == (c@ == w@),
{
    let wn = w.unicode_len();
    if c.len() != wn {
        return false;
    }
    let mut i: usize = 0;
    while i < wn
        invariant
            wn == w@.len(),
            wn == c@.len(),
            i <= wn,
            forall|j: int| 0 <= j < i ==> c@[j] == w@[j],
        decreases wn - i,
    {
        if c[i] != w.get_char(i) {
            return false;
        }
        i = i + 1;
    }
    proof {
        assert(c@ =~= w@);
    }
    true
}

/// A data line with at most one leading space stripped.
pub open spec fn strip_one_space(l: Seq<char>) -> Seq<char> {
    if l.len() > 0 && l[0] == ' ' {
        l.drop_first()
    } else {
        l
    }
}

} // verus!
