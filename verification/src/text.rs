//! The text normalizer and the character-level helpers that the parsers share.
//!
//! `clean_text` strips the exact characters `'\n'` and `' '` (no other
//! whitespace) from both ends of a string, one character per pass, in the
//! fixed priority order leading-newline, trailing-newline, leading-space,
//! trailing-space.

use vstd::prelude::*;

verus! {

/// Relies on `core::iter::Iterator::collect` (the `FromIterator` impl of
/// `String`): collecting a sequence of characters yields the string of
/// exactly those characters, in order.
#[verifier::external_body]
pub fn string_from_chars(v: &Vec<char>) -> (r: String)
    ensures
        r@ == v@,
{
    v.iter().collect()
}

/// The characters of `s`, as a vector.
pub fn chars_of(s: &str) -> (r: Vec<char>)
    ensures
        r@ == s@,
{
    let n: usize = s.unicode_len();
    let mut r: Vec<char> = Vec::new();
    let mut i: usize = 0;
    while i < n
        invariant
            0 <= i <= n,
            n == s@.len(),
            r@ == s@.take(i as int),
        decreases n - i,
    {
        let c = s.get_char(i);
        r.push(c);
        proof {
            assert(r@ =~= s@.take(i + 1 as int));
        }
        i = i + 1;
    }
    proof {
        assert(s@.take(n as int) =~= s@);
    }
    r
}

/// The substring of `v` from `a` (inclusive) to `b` (exclusive), as a string.
pub fn string_of_range(v: &Vec<char>, a: usize, b: usize) -> (r: String)
    requires
        a <= b <= v@.len(),
    ensures
        r@ == v@.subrange(a as int, b as int),
{
    let mut chunk: Vec<char> = Vec::new();
    let mut i: usize = a;
    while i < b
        invariant
            a <= i <= b <= v@.len(),
            chunk@ == v@.subrange(a as int, i as int),
        decreases b - i,
    {
        chunk.push(v[i]);
        proof {
            assert(chunk@ =~= v@.subrange(a as int, i + 1 as int));
        }
        i = i + 1;
    }
    string_from_chars(&chunk)
}

/// The characters that `clean_text` strips.
pub open spec fn is_strippable(c: char) -> bool {
    c == '\n' || c == ' '
}

/// The normal form of a string under `clean_text`: strip at most one
/// strippable character per pass, checking leading-newline, trailing-newline,
/// leading-space, trailing-space in that order, until none applies.
pub open spec fn spec_clean(s: Seq<char>) -> Seq<char>
    decreases s.len(),
{
    if s.len() > 0 && s[0] == '\n' {
        spec_clean(s.drop_first())
    } else if s.len() > 0 && s.last() == '\n' {
        spec_clean(s.drop_last())
    } else if s.len() > 0 && s[0] == ' ' {
        spec_clean(s.drop_first())
    } else if s.len() > 0 && s.last() == ' ' {
        spec_clean(s.drop_last())
    } else {
        s
    }
}

/// A cleaned string never begins or ends with a strippable character.
proof fn lemma_clean_is_fixed_point(s: Seq<char>)
    ensures
        spec_clean(s).len() > 0 ==> !is_strippable(spec_clean(s)[0]),
        spec_clean(s).len() > 0 ==> !is_strippable(spec_clean(s).last()),
    decreases s.len(),
{
    if s.len() > 0 && s[0] == '\n' {
        lemma_clean_is_fixed_point(s.drop_first());
    } else if s.len() > 0 && s.last() == '\n' {
        lemma_clean_is_fixed_point(s.drop_last());
    } else if s.len() > 0 && s[0] == ' ' {
        lemma_clean_is_fixed_point(s.drop_first());
    } else if s.len() > 0 && s.last() == ' ' {
        lemma_clean_is_fixed_point(s.drop_last());
    }
}

/// Cleaning is idempotent: cleaning a cleaned string changes nothing.
pub proof fn lemma_clean_idempotent(s: Seq<char>)
    ensures
        spec_clean(spec_clean(s)) == spec_clean(s),
{
    lemma_clean_is_fixed_point(s);
}

/// Strips `'\n'` and `' '` from both ends of `text`.
pub fn clean_text(text: String) -> (r: String)
    ensures
        r@ == spec_clean(text@),
{
    let st: &str = text.as_str();
    let n: usize = st.unicode_len();
    let mut a: usize = 0;
    let mut b: usize = n;
    proof {
        assert(st@.subrange(0, n as int) =~= st@);
    }
    loop
        invariant
            0 <= a <= b <= n,
            n == st@.len(),
            spec_clean(st@) == spec_clean(st@.subrange(a as int, b as int)),
        ensures
            a <= b <= n,
            spec_clean(st@) == st@.subrange(a as int, b as int),
        decreases b - a,
    {
        if a < b && st.get_char(a) == '\n' {
            proof {
                assert(st@.subrange(a as int, b as int).drop_first() =~= st@.subrange(
                    a + 1 as int,
                    b as int,
                ));
            }
            a = a + 1;
        } else if a < b && st.get_char(b - 1) == '\n' {
            proof {
                assert(st@.subrange(a as int, b as int).drop_last() =~= st@.subrange(
                    a as int,
                    b - 1 as int,
                ));
            }
            b = b - 1;
        } else if a < b && st.get_char(a) == ' ' {
            proof {
                assert(st@.subrange(a as int, b as int).drop_first() =~= st@.subrange(
                    a + 1 as int,
                    b as int,
                ));
            }
            a = a + 1;
        } else if a < b && st.get_char(b - 1) == ' ' {
            proof {
                assert(st@.subrange(a as int, b as int).drop_last() =~= st@.subrange(
                    a as int,
                    b - 1 as int,
                ));
            }
            b = b - 1;
        } else {
            proof {
                let sub = st@.subrange(a as int, b as int);
                if a < b {
                    assert(sub[0] == st@[a as int]);
                    assert(sub.last() == st@[b - 1 as int]);
                }
                assert(spec_clean(sub) == sub);
            }
            break ;
        }
    }
    st.substring_char(a, b).to_owned()
}

/// The Unicode white-space characters (the set that `char::is_whitespace`
/// recognizes).
pub open spec fn is_whitespace_char(c: char) -> bool {
    ||| c == '\u{9}'
    ||| c == '\u{A}'
    ||| c == '\u{B}'
    ||| c == '\u{C}'
    ||| c == '\u{D}'
    ||| c == ' '
    ||| c == '\u{85}'
    ||| c == '\u{A0}'
    ||| c == '\u{1680}'
    ||| c == '\u{2000}'
    ||| c == '\u{2001}'
    ||| c == '\u{2002}'
    ||| c == '\u{2003}'
    ||| c == '\u{2004}'
    ||| c == '\u{2005}'
    ||| c == '\u{2006}'
    ||| c == '\u{2007}'
    ||| c == '\u{2008}'
    ||| c == '\u{2009}'
    ||| c == '\u{200A}'
    ||| c == '\u{2028}'
    ||| c == '\u{2029}'
    ||| c == '\u{202F}'
    ||| c == '\u{205F}'
    ||| c == '\u{3000}'
}

/// Whether `c` is a white-space character.
pub fn is_whitespace(c: char) -> (r: bool)
    ensures
        r == is_whitespace_char(c),
{
    c == '\u{9}' || c == '\u{A}' || c == '\u{B}' || c == '\u{C}' || c == '\u{D}' || c == ' ' || c
        == '\u{85}' || c == '\u{A0}' || c == '\u{1680}' || c == '\u{2000}' || c == '\u{2001}' || c
        == '\u{2002}' || c == '\u{2003}' || c == '\u{2004}' || c == '\u{2005}' || c == '\u{2006}'
        || c == '\u{2007}' || c == '\u{2008}' || c == '\u{2009}' || c == '\u{200A}' || c
        == '\u{2028}' || c == '\u{2029}' || c == '\u{202F}' || c == '\u{205F}' || c == '\u{3000}'
}

/// What a generic white-space trim leaves: the string without its leading and
/// trailing white-space characters.
pub open spec fn spec_trim(s: Seq<char>) -> Seq<char>
    decreases s.len(),
{
    if s.len() > 0 && is_whitespace_char(s[0]) {
        spec_trim(s.drop_first())
    } else if s.len() > 0 && is_whitespace_char(s.last()) {
        spec_trim(s.drop_last())
    } else {
        s
    }
}

/// Trims white-space from both ends of `s`.
pub fn trim_str(s: &str) -> (r: String)
    ensures
        r@ == spec_trim(s@),
{
    let n: usize = s.unicode_len();
    let mut a: usize = 0;
    let mut b: usize = n;
    proof {
        assert(s@.subrange(0, n as int) =~= s@);
    }
    loop
        invariant
            0 <= a <= b <= s@.len(),
            spec_trim(s@) == spec_trim(s@.subrange(a as int, b as int)),
        ensures
            a <= b <= s@.len(),
            spec_trim(s@) == s@.subrange(a as int, b as int),
        decreases b - a,
    {
        if a < b && is_whitespace(s.get_char(a)) {
            proof {
                assert(s@.subrange(a as int, b as int).drop_first() =~= s@.subrange(
                    a + 1 as int,
                    b as int,
                ));
            }
            a = a + 1;
        } else if a < b && is_whitespace(s.get_char(b - 1)) {
            proof {
                assert(s@.subrange(a as int, b as int).drop_last() =~= s@.subrange(
                    a as int,
                    b - 1 as int,
                ));
            }
            b = b - 1;
        } else {
            proof {
                let sub = s@.subrange(a as int, b as int);
                if a < b {
                    assert(sub[0] == s@[a as int]);
                    assert(sub.last() == s@[b - 1 as int]);
                }
                assert(spec_trim(sub) == sub);
            }
            break ;
        }
    }
    s.substring_char(a, b).to_owned()
}

/// Whether the pattern occurs at position `i`.
pub open spec fn occ_at(s: Seq<char>, i: int, pat: Seq<char>) -> bool {
    0 <= i && i + pat.len() <= s.len() && s.subrange(i, i + pat.len()) == pat
}

/// The first position at or after `i` where the pattern occurs.
pub open spec fn find_occ(s: Seq<char>, i: int, pat: Seq<char>) -> Option<int>
    decreases s.len() - i,
{
    if i < 0 || i >= s.len() || i + pat.len() > s.len() {
        Option::None
    } else if occ_at(s, i, pat) {
        Option::Some(i)
    } else {
        find_occ(s, i + 1, pat)
    }
}

pub(crate) proof fn lemma_find_occ_from(s: Seq<char>, i: int, e: int, pat: Seq<char>)
    requires
        0 <= i <= e <= s.len(),
        forall|j: int| i <= j < e ==> !occ_at(s, j, pat),
    ensures
        find_occ(s, i, pat) == find_occ(s, e, pat),
    decreases e - i,
{
    if i < e {
        lemma_find_occ_from(s, i + 1, e, pat);
    }
}

/// The text with every occurrence of the pattern replaced, left to right,
/// replacements not rescanned.
pub open spec fn replace_all(s: Seq<char>, pat: Seq<char>, rep: Seq<char>) -> Seq<char>
    decreases s.len(),
{
    if pat.len() == 0 {
        s
    } else {
        match find_occ(s, 0, pat) {
            Option::Some(i) => if 0 <= i && i + pat.len() <= s.len() {
                s.take(i) + rep + replace_all(s.skip(i + pat.len()), pat, rep)
            } else {
                s
            },
            Option::None => s,
        }
    }
}

/// Whether the pattern occurs at position `j` of `v`.
pub(crate) fn exec_occ_at(v: &Vec<char>, j: usize, pat: &Vec<char>) -> (r: bool)
    requires
        j <= v@.len(),
    ensures
        r == occ_at(v@, j as int, pat@),
{
    let m = pat.len();
    let n = v.len();
    if n - j < m {
        return false;
    }
    let mut k: usize = 0;
    while k < m
        invariant
            0 <= k <= m,
            j + m <= n,
            n == v@.len(),
            m == pat@.len(),
            forall|t: int| 0 <= t < k ==> v@[j + t] == pat@[t],
        decreases m - k,
    {
        if v[j + k] != pat[k] {
            proof {
                if v@.subrange(j as int, j + m) == pat@ {
                    assert(v@.subrange(j as int, j + m)[k as int] == pat@[k as int]);
                    assert(false);
                }
            }
            return false;
        }
        k = k + 1;
    }
    proof {
        assert(v@.subrange(j as int, j + m) =~= pat@);
    }
    true
}

/// Replaces every occurrence of `pat` in `s` by `rep`, left to right.
#[verifier::loop_isolation(false)]
#[verifier::rlimit(100)]
pub fn replace_all_str(s: &str, pat: &str, rep: &str) -> (r: String)
    requires
        pat@.len() > 0,
    ensures
        r@ == replace_all(s@, pat@, rep@),
{
    let v = chars_of(s);
    let p = chars_of(pat);
    let rv = chars_of(rep);
    let n = v.len();
    let m = p.len();
    let mut out: Vec<char> = Vec::new();
    let mut pos: usize = 0;
    proof {
        assert(v@.skip(0) =~= v@);
    }
    while pos < n
        invariant
            0 <= pos <= n,
            replace_all(s@, pat@, rep@) == out@ + replace_all(v@.skip(pos as int), pat@, rep@),
        decreases n - pos,
    {
        let ghost tail = v@.skip(pos as int);
        // The next occurrence at or after `pos`.
        let mut i: usize = pos;
        let mut found = false;
        while n - i >= m && !found
            invariant
                pos <= i,
                i <= n,
                forall|j: int| pos <= j < i ==> !occ_at(v@, j, pat@),
                found ==> occ_at(v@, i as int, pat@),
            decreases n - i + (if found {
                0int
            } else {
                1int
            }),
        {
            if exec_occ_at(&v, i, &p) {
                found = true;
            } else {
                i = i + 1;
            }
        }
        proof {
            assert forall|j: int| 0 <= j < i - pos implies !occ_at(tail, j, pat@) by {
                if j + pat@.len() <= tail.len() {
                    assert(tail.subrange(j, j + pat@.len() as int) =~= v@.subrange(
                        pos + j,
                        pos + j + pat@.len() as int,
                    ));
                    assert(!occ_at(v@, pos + j, pat@));
                }
            }
            lemma_find_occ_from(tail, 0, i - pos, pat@);
        }
        if found {
            proof {
                assert(tail.subrange(i - pos, i - pos + pat@.len() as int) =~= v@.subrange(
                    i as int,
                    i + pat@.len() as int,
                ));
                assert(occ_at(tail, i - pos, pat@));
                assert(find_occ(tail, i - pos, pat@) == Option::Some(i - pos));
            }
            let mut j: usize = pos;
            let ghost out_mark = out@;
            while j < i
                invariant
                    pos <= j <= i,
                    out@ == out_mark + v@.subrange(pos as int, j as int),
                decreases i - j,
            {
                out.push(v[j]);
                proof {
                    assert(out@ =~= out_mark + v@.subrange(pos as int, j + 1 as int));
                }
                j = j + 1;
            }
            let mut k: usize = 0;
            let rl = rv.len();
            let ghost out_mark2 = out@;
            while k < rl
                invariant
                    0 <= k <= rl,
                    out@ == out_mark2 + rep@.take(k as int),
                decreases rl - k,
            {
                out.push(rv[k]);
                proof {
                    assert(out@ =~= out_mark2 + rep@.take(k + 1 as int));
                }
                k = k + 1;
            }
            proof {
                assert(rep@.take(rl as int) =~= rep@);
                assert(tail.take(i - pos) =~= v@.subrange(pos as int, i as int));
                assert(tail.skip(i - pos + pat@.len() as int) =~= v@.skip(i + pat@.len() as int));
                assert(out@ =~= (out_mark + tail.take(i - pos)) + rep@);
                assert(replace_all(tail, pat@, rep@) == tail.take(i - pos) + rep@ + replace_all(
                    tail.skip(i - pos + pat@.len() as int),
                    pat@,
                    rep@,
                ));
                assert(out@ + replace_all(v@.skip(i + pat@.len() as int), pat@, rep@)
                    =~= out_mark + replace_all(tail, pat@, rep@));
            }
            pos = i + m;
        } else {
            proof {
                assert(find_occ(tail, i - pos, pat@) is None) by {
                    assert((i - pos) + pat@.len() > tail.len());
                }
                assert(replace_all(tail, pat@, rep@) == tail);
            }
            let mut j: usize = pos;
            let ghost out_mark = out@;
            while j < n
                invariant
                    pos <= j <= n,
                    out@ == out_mark + v@.subrange(pos as int, j as int),
                decreases n - j,
            {
                out.push(v[j]);
                proof {
                    assert(out@ =~= out_mark + v@.subrange(pos as int, j + 1 as int));
                }
                j = j + 1;
            }
            proof {
                assert(v@.subrange(pos as int, n as int) =~= tail);
                assert(v@.skip(n as int) =~= Seq::<char>::empty());
                assert(replace_all(Seq::<char>::empty(), pat@, rep@)
                    == Seq::<char>::empty()) by {
                    assert(find_occ(Seq::<char>::empty(), 0, pat@) is None);
                }
                assert(out@ + Seq::<char>::empty() =~= out@);
            }
            pos = n;
        }
    }
    proof {
        if pos == n {
            assert(v@.skip(n as int) =~= Seq::<char>::empty());
            assert(find_occ(Seq::<char>::empty(), 0, pat@) is None);
            assert(out@ + Seq::<char>::empty() =~= out@);
        }
    }
    string_from_chars(&out)
}

/// The decimal digit character of a value below ten.
pub open spec fn digit_char_of(d: int) -> char {
    if d == 0 {
        '0'
    } else if d == 1 {
        '1'
    } else if d == 2 {
        '2'
    } else if d == 3 {
        '3'
    } else if d == 4 {
        '4'
    } else if d == 5 {
        '5'
    } else if d == 6 {
        '6'
    } else if d == 7 {
        '7'
    } else if d == 8 {
        '8'
    } else {
        '9'
    }
}

/// The decimal writing of a nonnegative number.
pub open spec fn spec_u64_string(n: int) -> Seq<char>
    decreases n,
{
    if n < 10 {
        seq![digit_char_of(n)]
    } else {
        spec_u64_string(n / 10).push(digit_char_of(n % 10))
    }
}

pub(crate) fn exec_digit_char(d: u64) -> (r: char)
    requires
        d < 10,
    ensures
        r == digit_char_of(d as int),
{
    if d == 0 {
        '0'
    } else if d == 1 {
        '1'
    } else if d == 2 {
        '2'
    } else if d == 3 {
        '3'
    } else if d == 4 {
        '4'
    } else if d == 5 {
        '5'
    } else if d == 6 {
        '6'
    } else if d == 7 {
        '7'
    } else if d == 8 {
        '8'
    } else {
        '9'
    }
}

/// The decimal digits of a number.
fn u64_digits(n: u64) -> (r: Vec<char>)
    ensures
        r@ == spec_u64_string(n as int),
    decreases n,
{
    if n < 10 {
        let mut v: Vec<char> = Vec::new();
        v.push(exec_digit_char(n));
        proof {
            assert(v@ =~= seq![digit_char_of(n as int)]);
        }
        v
    } else {
        proof {
            assert(n / 10 < n) by (nonlinear_arith)
                requires
                    n >= 10,
            ;
        }
        let mut v = u64_digits(n / 10);
        v.push(exec_digit_char(n % 10));
        v
    }
}

/// Writes a number in decimal.
pub fn u64_to_string(n: u64) -> (r: String)
    ensures
        r@ == spec_u64_string(n as int),
{
    let v = u64_digits(n);
    string_from_chars(&v)
}

} // verus!
