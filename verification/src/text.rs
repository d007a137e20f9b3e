//! Character-level string helpers used throughout the library: substring search, the
//! lexicographic order of strings, trimming, ASCII case, and splitting into lines.

use vstd::prelude::*;

use crate::config::project::strings_view;

verus! {

/// `needle` occurs as a contiguous run of characters of `hay`, starting at `start`.
pub open spec fn occurs_at(hay: Seq<char>, needle: Seq<char>, start: int) -> bool {
    &&& 0 <= start
    &&& start + needle.len() <= hay.len()
    &&& hay.subrange(start, start + needle.len()) == needle
}

/// `needle` occurs somewhere in `hay`.
pub open spec fn seq_contains_run(hay: Seq<char>, needle: Seq<char>) -> bool {
    exists|i: int| occurs_at(hay, needle, i)
}

/// Two strings hold the same characters.
pub fn string_eq(a: &String, b: &String) -> (r: bool)
    ensures
        r == (a@ == b@),
{
    a.eq(b)
}

/// Whether `hay` holds `needle` as a substring.
pub fn str_contains(hay: &str, needle: &str) -> (r: bool)
    ensures
        r == seq_contains_run(hay@, needle@),
{
    let h = hay.unicode_len();
    let n = needle.unicode_len();
    if n > h {
        proof {
            assert forall|i: int| !occurs_at(hay@, needle@, i) by {}
        }
        return false;
    }
    let mut i: usize = 0;
    while i <= h - n
        invariant
            h == hay@.len(),
            n == needle@.len(),
            n <= h,
            i <= h - n + 1,
            forall|k: int| 0 <= k < i ==> !occurs_at(hay@, needle@, k),
        decreases h - n + 1 - i,
    {
        let mut j: usize = 0;
        let mut ok = true;
        while ok && j < n
            invariant
                h == hay@.len(),
                n == needle@.len(),
                i + n <= h,
                j <= n,
                ok ==> forall|k: int| 0 <= k < j ==> hay@[i + k] == needle@[k],
                !ok ==> exists|k: int| 0 <= k < n && hay@[i + k] != needle@[k],
            decreases n - j + (if ok { 1int } else { 0int }),
        {
            if hay.get_char(i + j) != needle.get_char(j) {
                ok = false;
            } else {
                j = j + 1;
            }
        }
        if ok {
            proof {
                assert(hay@.subrange(i as int, i + n) =~= needle@);
                assert(occurs_at(hay@, needle@, i as int));
            }
            return true;
        }
        proof {
            let k = choose|k: int| 0 <= k < n && hay@[i + k] != needle@[k];
            assert(hay@.subrange(i as int, i + n)[k] != needle@[k]);
        }
        i = i + 1;
    }
    proof {
        assert forall|k: int| !occurs_at(hay@, needle@, k) by {
            if 0 <= k && k + n <= h {
                assert(k < i);
            }
        }
    }
    false
}

/// `String::push`: appends the character `c` to `s`.
#[verifier::external_body]
pub(crate) fn push_char(s: &mut String, c: char)
    ensures
        final(s)@ == old(s)@.push(c),
{
    s.push(c)
}

/// `a` comes before `b` in lexicographic order of characters (the order of `String`).
pub open spec fn seq_lt(a: Seq<char>, b: Seq<char>) -> bool
    decreases a.len(),
{
    if b.len() == 0 {
        false
    } else if a.len() == 0 {
        true
    } else if a[0] != b[0] {
        a[0] < b[0]
    } else {
        seq_lt(a.drop_first(), b.drop_first())
    }
}

/// No string comes before itself.
pub proof fn lemma_lt_irreflexive(a: Seq<char>)
    ensures
        !seq_lt(a, a),
    decreases a.len(),
{
    if a.len() > 0 {
        lemma_lt_irreflexive(a.drop_first());
    }
}

/// Of two different strings, exactly one comes first.
pub proof fn lemma_lt_total(a: Seq<char>, b: Seq<char>)
    ensures
        a != b ==> (seq_lt(a, b) || seq_lt(b, a)),
        !(seq_lt(a, b) && seq_lt(b, a)),
    decreases a.len(),
{
    if a.len() > 0 && b.len() > 0 && a[0] == b[0] {
        lemma_lt_total(a.drop_first(), b.drop_first());
        if a != b {
            assert(a =~= seq![a[0]] + a.drop_first());
            assert(b =~= seq![b[0]] + b.drop_first());
        }
    } else if a.len() == 0 && b.len() == 0 {
        assert(a =~= b);
    }
}

/// The order is transitive.
pub proof fn lemma_lt_transitive(a: Seq<char>, b: Seq<char>, c: Seq<char>)
    requires
        seq_lt(a, b),
        seq_lt(b, c),
    ensures
        seq_lt(a, c),
    decreases a.len(),
{
    if a.len() > 0 && a[0] == b[0] && b[0] == c[0] {
        lemma_lt_transitive(a.drop_first(), b.drop_first(), c.drop_first());
    }
}

/// Whether `a` comes before `b`.
pub fn str_less(a: &str, b: &str) -> (r: bool)
    ensures
        r == seq_lt(a@, b@),
{
    let n = a.unicode_len();
    let m = b.unicode_len();
    let mut i: usize = 0;
    proof {
        assert(a@.skip(0) =~= a@);
        assert(b@.skip(0) =~= b@);
    }
    while i < n && i < m
        invariant
            n == a@.len(),
            m == b@.len(),
            i <= n,
            i <= m,
            seq_lt(a@, b@) == seq_lt(a@.skip(i as int), b@.skip(i as int)),
        decreases n - i,
    {
        let x = a.get_char(i);
        let y = b.get_char(i);
        if x != y {
            proof {
                assert(a@.skip(i as int)[0] == x);
                assert(b@.skip(i as int)[0] == y);
            }
            return x < y;
        }
        proof {
            assert(a@.skip(i as int).drop_first() =~= a@.skip(i + 1));
            assert(b@.skip(i as int).drop_first() =~= b@.skip(i + 1));
        }
        i = i + 1;
    }
    i < m
}

/// Each string comes before the next: sorted, no string twice.
pub open spec fn strictly_sorted(s: Seq<Seq<char>>) -> bool {
    forall|i: int, j: int| 0 <= i < j < s.len() ==> seq_lt(#[trigger] s[i], #[trigger] s[j])
}

/// Adds `x` to the sorted strings of `v`, unless it is there already.
pub fn insert_sorted(v: &mut Vec<String>, x: String)
    requires
        strictly_sorted(strings_view(old(v)@)),
    ensures
        strictly_sorted(strings_view(final(v)@)),
        strings_view(final(v)@).to_set() == strings_view(old(v)@).to_set().insert(x@),
{
    let ghost s0 = strings_view(v@);
    let mut p: usize = 0;
    while p < v.len() && str_less(v[p].as_str(), x.as_str())
        invariant
            s0 == strings_view(v@),
            p <= v.len(),
            forall|i: int| 0 <= i < p ==> seq_lt(#[trigger] s0[i], x@),
        decreases v.len() - p,
    {
        p = p + 1;
    }
    if p < v.len() && v[p].eq(&x) {
        proof {
            assert(s0.to_set().insert(x@) =~= s0.to_set()) by {
                assert(s0[p as int] == x@);
            }
        }
        return;
    }
    proof {
        if p < s0.len() {
            lemma_lt_total(s0[p as int], x@);
        }
    }
    v.insert(p, x);
    proof {
        let s1 = strings_view(v@);
        assert(s1 =~= s0.insert(p as int, x@));
        assert forall|i: int, j: int| 0 <= i < j < s1.len() implies seq_lt(#[trigger] s1[i], #[trigger] s1[j]) by {
            if j == p {
                assert(s1[i] == s0[i]);
            } else if i == p {
                assert(s1[j] == s0[j - 1]);
                if j - 1 > p {
                    assert(seq_lt(s0[p as int], s0[j - 1]));
                    lemma_lt_transitive(x@, s0[p as int], s0[j - 1]);
                }
            } else if i < p && j < p {
                assert(s1[i] == s0[i] && s1[j] == s0[j]);
            } else if i < p {
                assert(s1[i] == s0[i] && s1[j] == s0[j - 1]);
            } else {
                assert(s1[i] == s0[i - 1] && s1[j] == s0[j - 1]);
            }
        }
        assert forall|y: Seq<char>| #[trigger] s1.contains(y) <==> s0.contains(y) || y == x@ by {
            if s1.contains(y) {
                let k = choose|k: int| 0 <= k < s1.len() && s1[k] == y;
                if k < p {
                    assert(s0[k] == y);
                } else if k > p {
                    assert(s0[k - 1] == y);
                }
            }
            if s0.contains(y) {
                let k = choose|k: int| 0 <= k < s0.len() && s0[k] == y;
                if k < p {
                    assert(s1[k] == y);
                } else {
                    assert(s1[k + 1] == y);
                }
            }
            if y == x@ {
                assert(s1[p as int] == y);
            }
        }
        assert(s1.to_set() =~= s0.to_set().insert(x@));
    }
}

/// `s` without the characters satisfying `p` at its start.
pub open spec fn trim_start_by(s: Seq<char>, p: spec_fn(char) -> bool) -> Seq<char>
    decreases s.len(),
{
    if s.len() > 0 && p(s[0]) {
        trim_start_by(s.drop_first(), p)
    } else {
        s
    }
}

/// `s` without the characters satisfying `p` at its end.
pub open spec fn trim_end_by(s: Seq<char>, p: spec_fn(char) -> bool) -> Seq<char>
    decreases s.len(),
{
    if s.len() > 0 && p(s.last()) {
        trim_end_by(s.drop_last(), p)
    } else {
        s
    }
}

/// `s` without the characters satisfying `p` at either end.
pub open spec fn trim_by(s: Seq<char>, p: spec_fn(char) -> bool) -> Seq<char> {
    trim_end_by(trim_start_by(s, p), p)
}

/// A white-space character: one with the Unicode `White_Space` property.
pub open spec fn is_space(c: char) -> bool {
    ||| ('\u{9}' <= c && c <= '\u{d}')
    ||| c == ' '
    ||| c == '\u{85}'
    ||| c == '\u{a0}'
    ||| c == '\u{1680}'
    ||| ('\u{2000}' <= c && c <= '\u{200a}')
    ||| c == '\u{2028}'
    ||| c == '\u{2029}'
    ||| c == '\u{202f}'
    ||| c == '\u{205f}'
    ||| c == '\u{3000}'
}

fn is_space_exec(c: char) -> (r: bool)
    ensures
        r == is_space(c),
{
    ('\u{9}' <= c && c <= '\u{d}') || c == ' ' || c == '\u{85}' || c == '\u{a0}' || c == '\u{1680}' || (
    '\u{2000}' <= c && c <= '\u{200a}') || c == '\u{2028}' || c == '\u{2029}' || c == '\u{202f}' || c
        == '\u{205f}' || c == '\u{3000}'
}

/// White space removed from both ends of `s`.
pub open spec fn trimmed(s: Seq<char>) -> Seq<char> {
    trim_by(s, |c: char| is_space(c))
}

/// `-` removed from both ends of `s`.
pub open spec fn trimmed_dashes(s: Seq<char>) -> Seq<char> {
    trim_by(s, |c: char| c == '-')
}

proof fn lemma_trim_start_skip(s: Seq<char>, p: spec_fn(char) -> bool, i: int)
    requires
        0 <= i <= s.len(),
        forall|k: int| 0 <= k < i ==> p(#[trigger] s[k]),
    ensures
        trim_start_by(s, p) == trim_start_by(s.skip(i), p),
    decreases i,
{
    if i > 0 {
        lemma_trim_start_skip(s.drop_first(), p, i - 1);
        assert(s.drop_first().skip(i - 1) =~= s.skip(i));
    } else {
        assert(s.skip(0) =~= s);
    }
}

proof fn lemma_trim_end_take(s: Seq<char>, p: spec_fn(char) -> bool, j: int)
    requires
        0 <= j <= s.len(),
        forall|k: int| j <= k < s.len() ==> p(#[trigger] s[k]),
    ensures
        trim_end_by(s, p) == trim_end_by(s.take(j), p),
    decreases s.len() - j,
{
    if j < s.len() {
        lemma_trim_end_take(s.drop_last(), p, j);
        assert(s.drop_last().take(j) =~= s.take(j));
    } else {
        assert(s.take(j) =~= s);
    }
}

/// The characters from `a` to `b` of `s`, with those satisfying `p` removed from both ends,
/// given where the first and last characters not satisfying it stand.
proof fn lemma_trim_bounds(s: Seq<char>, p: spec_fn(char) -> bool, a: int, b: int)
    requires
        0 <= a <= b <= s.len(),
        forall|k: int| 0 <= k < a ==> p(#[trigger] s[k]),
        forall|k: int| b <= k < s.len() ==> p(#[trigger] s[k]),
        a < b ==> !p(s[a]) && !p(s[b - 1]),
        a == b ==> b == s.len(),
    ensures
        trim_by(s, p) == s.subrange(a, b),
{
    lemma_trim_start_skip(s, p, a);
    let t = s.skip(a);
    if a < b {
        assert(trim_start_by(t, p) == t);
        lemma_trim_end_take(t, p, b - a);
        assert(t.take(b - a) =~= s.subrange(a, b));
        assert(trim_end_by(t.take(b - a), p) == t.take(b - a));
    } else {
        assert(t.len() == 0);
        assert(t =~= s.subrange(a, b));
    }
}

/// Trimming the start of `s` leaves the part from some position on, which starts with a
/// character that `p` keeps, if it is not empty.
pub proof fn lemma_trim_start_shape(s: Seq<char>, p: spec_fn(char) -> bool) -> (a: int)
    ensures
        0 <= a <= s.len(),
        trim_start_by(s, p) == s.skip(a),
        a < s.len() ==> !p(s[a]),
    decreases s.len(),
{
    if s.len() > 0 && p(s[0]) {
        let a1 = lemma_trim_start_shape(s.drop_first(), p);
        assert(s.drop_first().skip(a1) =~= s.skip(a1 + 1));
        if a1 < s.drop_first().len() {
            assert(s.drop_first()[a1] == s[a1 + 1]);
        }
        a1 + 1
    } else {
        assert(s.skip(0) =~= s);
        0
    }
}

/// Trimming the end of `s` leaves the part up to some position, which ends with a character
/// that `p` keeps, if it is not empty.
pub proof fn lemma_trim_end_shape(s: Seq<char>, p: spec_fn(char) -> bool) -> (b: int)
    ensures
        0 <= b <= s.len(),
        trim_end_by(s, p) == s.take(b),
        b > 0 ==> !p(s[b - 1]),
    decreases s.len(),
{
    if s.len() > 0 && p(s.last()) {
        let b1 = lemma_trim_end_shape(s.drop_last(), p);
        assert(s.drop_last().take(b1) =~= s.take(b1));
        if b1 > 0 {
            assert(s.drop_last()[b1 - 1] == s[b1 - 1]);
        }
        b1
    } else {
        assert(s.take(s.len() as int) =~= s);
        s.len() as int
    }
}

/// Trimming both ends of `s` leaves a part of it that, if not empty, starts and ends with
/// characters that `p` keeps.
pub proof fn lemma_trim_shape(s: Seq<char>, p: spec_fn(char) -> bool) -> (ab: (int, int))
    ensures
        0 <= ab.0 <= ab.1 <= s.len(),
        trim_by(s, p) == s.subrange(ab.0, ab.1),
        ab.0 < ab.1 ==> !p(s[ab.0]) && !p(s[ab.1 - 1]),
{
    let a = lemma_trim_start_shape(s, p);
    let u = s.skip(a);
    let b = lemma_trim_end_shape(u, p);
    assert(u.take(b) =~= s.subrange(a, a + b));
    if b > 0 {
        assert(u[b - 1] == s[a + b - 1]);
        assert(u[0] == s[a]);
    }
    (a, a + b)
}

/// A text that neither starts nor ends with a character that `p` drops is left as it is.
pub proof fn lemma_trim_fixed(s: Seq<char>, p: spec_fn(char) -> bool)
    requires
        s.len() > 0 ==> !p(s[0]) && !p(s.last()),
    ensures
        trim_by(s, p) == s,
{
}

/// `s` with white space removed from both ends.
pub fn trim(s: &str) -> (r: &str)
    ensures
        r@ == trimmed(s@),
{
    let ghost p = |c: char| is_space(c);
    let n = s.unicode_len();
    let mut a: usize = 0;
    while a < n && is_space_exec(s.get_char(a))
        invariant
            n == s@.len(),
            a <= n,
            forall|k: int| 0 <= k < a ==> is_space(#[trigger] s@[k]),
        decreases n - a,
    {
        a = a + 1;
    }
    let mut b: usize = n;
    while b > a && is_space_exec(s.get_char(b - 1))
        invariant
            n == s@.len(),
            a <= b <= n,
            forall|k: int| b <= k < n ==> is_space(#[trigger] s@[k]),
        decreases b,
    {
        b = b - 1;
    }
    proof {
        lemma_trim_bounds(s@, p, a as int, b as int);
    }
    s.substring_char(a, b)
}

/// `s` with `-` removed from both ends.
pub fn trim_dashes(s: &str) -> (r: &str)
    ensures
        r@ == trimmed_dashes(s@),
{
    let ghost p = |c: char| c == '-';
    let n = s.unicode_len();
    let mut a: usize = 0;
    while a < n && s.get_char(a) == '-'
        invariant
            n == s@.len(),
            a <= n,
            forall|k: int| 0 <= k < a ==> #[trigger] s@[k] == '-',
        decreases n - a,
    {
        a = a + 1;
    }
    let mut b: usize = n;
    while b > a && s.get_char(b - 1) == '-'
        invariant
            n == s@.len(),
            a <= b <= n,
            forall|k: int| b <= k < n ==> #[trigger] s@[k] == '-',
        decreases b,
    {
        b = b - 1;
    }
    proof {
        lemma_trim_bounds(s@, p, a as int, b as int);
    }
    s.substring_char(a, b)
}

/// The ASCII lower case of `c`: `A` to `Z` become `a` to `z`, other characters stay.
pub open spec fn ascii_lower(c: char) -> char {
    if 'A' <= c && c <= 'Z' {
        ((c as u32) + 32) as char
    } else {
        c
    }
}

/// The ASCII lower case of `c`: `A` to `Z` become `a` to `z`, other characters stay.
pub(crate) fn to_ascii_lower(c: char) -> (r: char)
    ensures
        r == ascii_lower(c),
{
    if 'A' <= c && c <= 'Z' {
        let b: u8 = (c as u8) + 32;
        b as char
    } else {
        c
    }
}

/// The two strings are equal when ASCII letters are compared without case.
pub open spec fn eq_ignore_ascii_case(a: Seq<char>, b: Seq<char>) -> bool {
    &&& a.len() == b.len()
    &&& forall|i: int| 0 <= i < a.len() ==> ascii_lower(#[trigger] a[i]) == ascii_lower(b[i])
}

/// Whether the two strings are equal when ASCII letters are compared without case.
pub fn str_eq_ignore_ascii_case(a: &str, b: &str) -> (r: bool)
    ensures
        r == eq_ignore_ascii_case(a@, b@),
{
    let n = a.unicode_len();
    if n != b.unicode_len() {
        return false;
    }
    let mut i: usize = 0;
    while i < n
        invariant
            n == a@.len(),
            n == b@.len(),
            i <= n,
            forall|k: int| 0 <= k < i ==> ascii_lower(#[trigger] a@[k]) == ascii_lower(b@[k]),
        decreases n - i,
    {
        if to_ascii_lower(a.get_char(i)) != to_ascii_lower(b.get_char(i)) {
            return false;
        }
        i = i + 1;
    }
    true
}

/// The line of `cur` as ended: without a carriage return at its end.
pub open spec fn strip_cr(cur: Seq<char>) -> Seq<char> {
    if cur.len() > 0 && cur.last() == '\r' {
        cur.drop_last()
    } else {
        cur
    }
}

/// The lines of `s`, the line being read so far being `cur`: each ends at a line feed, which
/// it does not hold, nor a carriage return just before it; a last line without line feed
/// counts unless it is empty.
pub open spec fn lines_from(s: Seq<char>, cur: Seq<char>) -> Seq<Seq<char>>
    decreases s.len(),
{
    if s.len() == 0 {
        if cur.len() == 0 {
            Seq::empty()
        } else {
            seq![cur]
        }
    } else if s[0] == '\n' {
        seq![strip_cr(cur)] + lines_from(s.drop_first(), Seq::empty())
    } else {
        lines_from(s.drop_first(), cur.push(s[0]))
    }
}

/// The lines of `s`, as `str::lines` gives them.
pub open spec fn lines_of(s: Seq<char>) -> Seq<Seq<char>> {
    lines_from(s, Seq::empty())
}

/// The line read so far, ended.
fn end_line(cur: &String) -> (r: String)
    ensures
        r@ == strip_cr(cur@),
{
    let n = cur.as_str().unicode_len();
    if n > 0 && cur.as_str().get_char(n - 1) == '\r' {
        proof {
            assert(cur@.subrange(0, n - 1) =~= cur@.drop_last());
        }
        cur.as_str().substring_char(0, n - 1).to_owned()
    } else {
        cur.clone()
    }
}

/// The lines of `s`.
pub fn split_lines(s: &str) -> (r: Vec<String>)
    ensures
        strings_view(r@) == lines_of(s@),
{
    let n = s.unicode_len();
    let mut out: Vec<String> = Vec::new();
    let mut cur = String::new();
    let mut i: usize = 0;
    proof {
        assert(s@.skip(0) =~= s@);
        assert(strings_view(out@) + lines_from(s@.skip(0), cur@) =~= lines_of(s@));
    }
    while i < n
        invariant
            n == s@.len(),
            i <= n,
            strings_view(out@) + lines_from(s@.skip(i as int), cur@) == lines_of(s@),
        decreases n - i,
    {
        let c = s.get_char(i);
        let ghost rest = s@.skip(i as int);
        proof {
            assert(rest[0] == c);
            assert(rest.drop_first() =~= s@.skip(i + 1));
        }
        if c == '\n' {
            let line = end_line(&cur);
            let ghost old_out = strings_view(out@);
            out.push(line);
            proof {
                assert(strings_view(out@) =~= old_out.push(strip_cr(cur@)));
                assert(lines_from(rest, cur@) == seq![strip_cr(cur@)] + lines_from(s@.skip(i + 1), Seq::empty()));
                assert(old_out + (seq![strip_cr(cur@)] + lines_from(s@.skip(i + 1), Seq::empty())) =~= old_out.push(
                    strip_cr(cur@),
                ) + lines_from(s@.skip(i + 1), Seq::empty()));
            }
            cur = String::new();
        } else {
            push_char(&mut cur, c);
        }
        i = i + 1;
    }
    proof {
        assert(s@.skip(n as int).len() == 0);
    }
    if cur.as_str().unicode_len() > 0 {
        let ghost old_out = strings_view(out@);
        out.push(cur);
        proof {
            assert(strings_view(out@) =~= old_out + seq![cur@]);
        }
    } else {
        proof {
            assert(strings_view(out@) + Seq::<Seq<char>>::empty() =~= strings_view(out@));
        }
    }
    out
}

/// Whether `s` begins with `prefix`.
pub fn str_starts_with(s: &str, prefix: &str) -> (r: bool)
    ensures
        r == (prefix@.len() <= s@.len() && s@.take(prefix@.len() as int) == prefix@),
{
    let n = s.unicode_len();
    let m = prefix.unicode_len();
    if m > n {
        return false;
    }
    let mut i: usize = 0;
    while i < m
        invariant
            n == s@.len(),
            m == prefix@.len(),
            m <= n,
            i <= m,
            forall|k: int| 0 <= k < i ==> s@[k] == prefix@[k],
        decreases m - i,
    {
        if s.get_char(i) != prefix.get_char(i) {
            proof {
                assert(s@.take(m as int)[i as int] != prefix@[i as int]);
            }
            return false;
        }
        i = i + 1;
    }
    proof {
        assert(s@.take(m as int) =~= prefix@);
    }
    true
}

} // verus!
