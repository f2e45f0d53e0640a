//! Small string helpers.
use vstd::prelude::*;
use vstd::string::StrSliceExecFns;
use vstd::utf8::{decode_utf8, encode_utf8, encode_utf8_decode_utf8, valid_utf8};

verus! {

/// What `str::to_lowercase` returns for a string (Unicode lower-case mapping).
pub uninterp spec fn lowercase(s: Seq<char>) -> Seq<char>;

/// Every character is ASCII.
pub open spec fn all_ascii(s: Seq<char>) -> bool {
    forall|i: int| 0 <= i < s.len() ==> (#[trigger] s[i] as u32) < 128
}

/// ASCII lower-casing: `A` to `Z` become `a` to `z`; every other character stays.
pub open spec fn ascii_lower(s: Seq<char>) -> Seq<char> {
    s.map_values(|c: char| if 'A' <= c && c <= 'Z' { ((c as u32) + 32) as char } else { c })
}

/// Lower-casing an ASCII string keeps it ASCII, and lower-casing it again
/// changes nothing.
pub proof fn lemma_ascii_lower_idempotent(s: Seq<char>)
    requires
        all_ascii(s),
    ensures
        all_ascii(ascii_lower(s)),
        ascii_lower(ascii_lower(s)) == ascii_lower(s),
{
    let l = ascii_lower(s);
    assert forall|i: int| 0 <= i < l.len() implies (#[trigger] l[i] as u32) < 128 && !('A' <= l[i] && l[i] <= 'Z') by {
        assert((s[i] as u32) < 128);
    }
    assert(ascii_lower(l) =~= l);
}

/// Calls `str::to_lowercase`; the result is named `lowercase` of the input.
/// Its documentation defines lower case by Unicode, which maps each ASCII
/// upper-case letter to its lower-case letter and leaves the other ASCII
/// characters as they are; so on an all-ASCII string the result is its
/// ASCII lower-casing.
#[verifier::external_body]
pub fn to_lowercase(s: &str) -> (res: String)
    ensures
        res@ == lowercase(s@),
        all_ascii(s@) ==> res@ == ascii_lower(s@),
{
    s.to_lowercase()
}

/// Byte-wise equality of two byte slices.
pub fn bytes_eq(a: &[u8], b: &[u8]) -> (res: bool)
    ensures
        res == (a@ == b@),
{
    if a.len() != b.len() {
        return false;
    }
    let mut i: usize = 0;
    while i < a.len()
        invariant
            a@.len() == b@.len(),
            i <= a@.len(),
            forall|k: int| 0 <= k < i ==> a@[k] == b@[k],
        decreases a@.len() - i,
    {
        if a[i] != b[i] {
            return false;
        }
        i = i + 1;
    }
    assert(a@ =~= b@);
    true
}

/// Equality of two strings.
pub fn str_eq(a: &str, b: &str) -> (res: bool)
    ensures
        res == (a@ == b@),
{
    let r = bytes_eq(a.as_bytes(), b.as_bytes());
    proof {
        encode_utf8_decode_utf8(a@);
        encode_utf8_decode_utf8(b@);
    }
    r
}

/// Calls `String::from_utf8`, which succeeds exactly on valid UTF-8 and then
/// holds the characters that the bytes encode.
#[verifier::external_body]
pub fn str_from_utf8(bytes: Vec<u8>) -> (res: Option<String>)
    ensures
        res is Some <==> valid_utf8(bytes@),
        res matches Some(s) ==> s@ == decode_utf8(bytes@),
{
    String::from_utf8(bytes).ok()
}

/// The UTF-8 bytes of each string.
pub open spec fn strings_bytes(v: Seq<String>) -> Seq<Seq<u8>> {
    v.map_values(|s: String| encode_utf8(s@))
}

/// The characters of each string.
pub open spec fn strings_chars(v: Seq<String>) -> Seq<Seq<char>> {
    v.map_values(|s: String| s@)
}

/// Whether `pat` occurs in `s` as a run of consecutive bytes.
pub open spec fn contains_bytes(s: Seq<u8>, pat: Seq<u8>) -> bool {
    exists|i: int| 0 <= i && i + pat.len() <= s.len() && #[trigger] s.subrange(i, i + pat.len()) == pat
}

/// Whether `pat` occurs in `s`, as `str::contains` decides for a string
/// pattern: by its bytes.
pub fn str_contains(s: &str, pat: &str) -> (res: bool)
    ensures
        res == contains_bytes(encode_utf8(s@), encode_utf8(pat@)),
{
    let a = s.as_bytes();
    let p = pat.as_bytes();
    if p.len() > a.len() {
        return false;
    }
    let last = a.len() - p.len();
    let mut i: usize = 0;
    while i <= last
        invariant
            a@ == encode_utf8(s@),
            p@ == encode_utf8(pat@),
            last == a@.len() - p@.len(),
            p@.len() <= a@.len(),
            i <= last + 1,
            forall|k: int| 0 <= k < i ==> #[trigger] a@.subrange(k, k + p@.len()) != p@,
        decreases last + 1 - i,
    {
        let mut j: usize = 0;
        while j < p.len() && a[i + j] == p[j]
            invariant
                i <= last,
                last == a@.len() - p@.len(),
                p@.len() <= a@.len(),
                i + p@.len() <= a@.len(),
                a@.len() == a.len(),
                j <= p@.len(),
                forall|k: int| 0 <= k < j ==> a@[i + k] == p@[k],
            decreases p@.len() - j,
        {
            j = j + 1;
        }
        if j == p.len() {
            assert(a@.subrange(i as int, i + p@.len()) =~= p@);
            return true;
        }
        assert(a@.subrange(i as int, i + p@.len())[j as int] != p@[j as int]);
        i = i + 1;
    }
    assert forall|k: int| 0 <= k && k + p@.len() <= a@.len() implies #[trigger] a@.subrange(k, k + p@.len()) != p@ by {
        assert(k < i);
    }
    false
}

/// Whether glob pattern `p` matches all of `s`: `*` matches any run of
/// characters (`/` included), `?` any one character, and every other
/// character itself.
pub open spec fn glob_match(p: Seq<char>, s: Seq<char>) -> bool
    decreases p.len(), s.len(),
{
    if p.len() == 0 {
        s.len() == 0
    } else if p[0] == '*' {
        glob_match(p.drop_first(), s) || (s.len() > 0 && glob_match(p, s.drop_first()))
    } else {
        s.len() > 0 && (p[0] == '?' || p[0] == s[0]) && glob_match(p.drop_first(), s.drop_first())
    }
}

/// A pattern without wildcards matches exactly itself.
pub proof fn lemma_glob_literal(p: Seq<char>, s: Seq<char>)
    requires
        !has_wildcard(p),
    ensures
        glob_match(p, s) <==> p == s,
    decreases p.len(),
{
    if p.len() > 0 {
        assert(p[0] != '*' && p[0] != '?') by {
            assert(p.contains(p[0]));
        }
        assert forall|c: char| p.drop_first().contains(c) implies p.contains(c) by {
            let i = choose|i: int| 0 <= i < p.drop_first().len() && p.drop_first()[i] == c;
            assert(p[i + 1] == c);
        }
        if s.len() > 0 {
            lemma_glob_literal(p.drop_first(), s.drop_first());
            if p == s {
                assert(p.drop_first() =~= s.drop_first());
            }
            if p[0] == s[0] && p.drop_first() == s.drop_first() {
                assert forall|i: int| 0 <= i < p.len() implies p[i] == s[i] by {
                    if i > 0 {
                        assert(p[i] == p.drop_first()[i - 1] && s[i] == s.drop_first()[i - 1]);
                    }
                }
                assert(p =~= s);
            }
        }
    } else {
        if s.len() == 0 {
            assert(p =~= s);
        }
    }
}

/// `*` alone matches every path, `/` included.
pub proof fn lemma_glob_star(s: Seq<char>)
    ensures
        glob_match(seq!['*'], s),
    decreases s.len(),
{
    let star = seq!['*'];
    assert(star.len() == 1 && star[0] == '*');
    assert(star.drop_first() =~= Seq::<char>::empty());
    if s.len() > 0 {
        lemma_glob_star(s.drop_first());
        assert(glob_match(star, s.drop_first()));
    } else {
        assert(glob_match(Seq::<char>::empty(), s));
        assert(glob_match(star.drop_first(), s));
    }
}

/// `?` alone matches exactly the one-character paths.
pub proof fn lemma_glob_question(s: Seq<char>)
    ensures
        glob_match(seq!['?'], s) <==> s.len() == 1,
{
    let q = seq!['?'];
    assert(q.len() == 1 && q[0] == '?');
    assert(q.drop_first() =~= Seq::<char>::empty());
    if s.len() > 0 {
        assert(glob_match(Seq::<char>::empty(), s.drop_first()) <==> s.len() == 1);
    }
}

/// `*` followed by a literal suffix matches exactly the paths that end with
/// that suffix, in any directory: `*.log` matches `dir/a.log` and not
/// `a.logger`.
pub proof fn lemma_glob_star_suffix(x: Seq<char>, s: Seq<char>)
    requires
        !has_wildcard(x),
    ensures
        glob_match(seq!['*'] + x, s) <==> s.len() >= x.len() && s.skip(s.len() - x.len()) == x,
    decreases s.len(),
{
    let p = seq!['*'] + x;
    assert(p[0] == '*');
    assert(p.drop_first() =~= x);
    lemma_glob_literal(x, s);
    if s.len() > 0 {
        lemma_glob_star_suffix(x, s.drop_first());
        let d = s.drop_first();
        if s.len() > x.len() {
            assert(s.skip(s.len() - x.len()) =~= d.skip(d.len() - x.len()));
        }
        if s.len() == x.len() {
            assert(s.skip(0) =~= s);
        }
    } else {
        if x.len() == 0 {
            assert(s.skip(0) =~= x);
        }
    }
}

/// Whether a pattern holds a wildcard.
pub open spec fn has_wildcard(p: Seq<char>) -> bool {
    p.contains('*') || p.contains('?')
}

/// The characters of a string.
fn chars_of(s: &str) -> (v: Vec<char>)
    ensures
        v@ == s@,
{
    let n = s.unicode_len();
    let mut v: Vec<char> = Vec::new();
    let mut i: usize = 0;
    while i < n
        invariant
            n == s@.len(),
            i <= n,
            v@ == s@.take(i as int),
        decreases n - i,
    {
        v.push(s.get_char(i));
        i = i + 1;
        assert(v@ =~= s@.take(i as int));
    }
    assert(s@.take(n as int) =~= s@);
    v
}

/// Whether any character of `s` is `*` or `?`.
pub fn str_has_wildcard(s: &str) -> (res: bool)
    ensures
        res == has_wildcard(s@),
{
    let c = chars_of(s);
    let mut i: usize = 0;
    while i < c.len()
        invariant
            c@ == s@,
            i <= c@.len(),
            forall|k: int| 0 <= k < i ==> c@[k] != '*' && c@[k] != '?',
        decreases c@.len() - i,
    {
        if c[i] == '*' || c[i] == '?' {
            assert(s@.contains(c@[i as int]));
            return true;
        }
        i = i + 1;
    }
    assert(!s@.contains('*')) by {
        if s@.contains('*') {
            let k = choose|k: int| 0 <= k < s@.len() && s@[k] == '*';
            assert(c@[k] != '*');
        }
    }
    assert(!s@.contains('?')) by {
        if s@.contains('?') {
            let k = choose|k: int| 0 <= k < s@.len() && s@[k] == '?';
            assert(c@[k] != '?');
        }
    }
    false
}

/// Whether glob `pattern` matches all of `text`.
pub fn glob_matches(pattern: &str, text: &str) -> (res: bool)
    ensures
        res == glob_match(pattern@, text@),
{
    let p = chars_of(pattern);
    let t = chars_of(text);
    let m = p.len();
    let n = t.len();
    let ghost ps = p@;
    let ghost ts = t@;
    // Row `i` holds, for each k, whether the pattern from i matches the
    // text from k; the entry for the empty rest of the text is kept apart.
    let mut next: Vec<bool> = Vec::new();
    let mut next_end = true;
    let mut k: usize = 0;
    proof {
        assert(ps.skip(m as int).len() == 0);
        assert(ts.skip(n as int).len() == 0);
    }
    while k < n
        invariant
            n == ts.len(),
            m == ps.len(),
            k <= n,
            next@.len() == k,
            forall|q: int| 0 <= q < k ==> next@[q] == glob_match(ps.skip(m as int), ts.skip(q)),
        decreases n - k,
    {
        proof {
            assert(ps.skip(m as int).len() == 0);
            assert(ts.skip(k as int).len() > 0);
        }
        next.push(false);
        k = k + 1;
    }
    let mut i = m;
    while i > 0
        invariant
            n == ts.len(),
            m == ps.len(),
            p@ == ps,
            t@ == ts,
            i <= m,
            next@.len() == n,
            forall|q: int| 0 <= q < n ==> next@[q] == glob_match(ps.skip(i as int), ts.skip(q)),
            next_end == glob_match(ps.skip(i as int), ts.skip(n as int)),
        decreases i,
    {
        i = i - 1;
        let star = p[i] == '*';
        let cur_end = star && next_end;
        proof {
            let pp = ps.skip(i as int);
            assert(pp[0] == ps[i as int]);
            assert(pp.drop_first() =~= ps.skip(i + 1));
            assert(ts.skip(n as int).len() == 0);
        }
        let mut cur: Vec<bool> = Vec::new();
        let mut k: usize = 0;
        while k < n
            invariant
                k <= n,
                cur@.len() == k,
            decreases n - k,
        {
            cur.push(false);
            k = k + 1;
        }
        let mut j = n;
        while j > 0
            invariant
                n == ts.len(),
                m == ps.len(),
                p@ == ps,
                t@ == ts,
                i < m,
                j <= n,
                star == (ps[i as int] == '*'),
                next@.len() == n,
                cur@.len() == n,
                forall|q: int| 0 <= q < n ==> next@[q] == glob_match(ps.skip(i + 1), ts.skip(q)),
                next_end == glob_match(ps.skip(i + 1), ts.skip(n as int)),
                cur_end == glob_match(ps.skip(i as int), ts.skip(n as int)),
                forall|q: int| j <= q < n ==> cur@[q] == glob_match(ps.skip(i as int), ts.skip(q)),
            decreases j,
        {
            j = j - 1;
            let after_cur = if j + 1 < n { cur[j + 1] } else { cur_end };
            let after_next = if j + 1 < n { next[j + 1] } else { next_end };
            let v = if star {
                next[j] || after_cur
            } else {
                (p[i] == '?' || p[i] == t[j]) && after_next
            };
            proof {
                let pp = ps.skip(i as int);
                let tt = ts.skip(j as int);
                assert(pp[0] == ps[i as int]);
                assert(pp.drop_first() =~= ps.skip(i + 1));
                assert(tt[0] == ts[j as int]);
                assert(tt.drop_first() =~= ts.skip(j + 1));
                assert(v == glob_match(pp, tt));
            }
            cur.set(j, v);
        }
        next = cur;
        next_end = cur_end;
    }
    assert(ps.skip(0) =~= ps);
    assert(ts.skip(0) =~= ts);
    if n == 0 {
        next_end
    } else {
        next[0]
    }
}

} // verus!
