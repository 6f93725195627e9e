use vstd::prelude::*;
use vstd::utf8::encode_utf8;

verus! {

/// The decimal digit character for a value below ten.
pub open spec fn digit_char(d: nat) -> char {
    if d == 0 { '0' } else if d == 1 { '1' } else if d == 2 { '2' } else if d == 3 { '3' }
    else if d == 4 { '4' } else if d == 5 { '5' } else if d == 6 { '6' } else if d == 7 { '7' }
    else if d == 8 { '8' } else { '9' }
}

/// The decimal notation of a natural number, without leading zeros.
pub open spec fn decimal(n: nat) -> Seq<char>
    decreases n,
{
    if n < 10 {
        seq![digit_char(n)]
    } else {
        decimal(n / 10).push(digit_char(n % 10))
    }
}

fn digit(d: usize) -> (c: char)
    requires
        d < 10,
    ensures
        c == digit_char(d as nat),
{
    if d == 0 { '0' } else if d == 1 { '1' } else if d == 2 { '2' } else if d == 3 { '3' }
    else if d == 4 { '4' } else if d == 5 { '5' } else if d == 6 { '6' } else if d == 7 { '7' }
    else if d == 8 { '8' } else { '9' }
}

/// Builds a `String` holding the given characters.
#[verifier::external_body]
pub(crate) fn string_from_chars(chars: &[char]) -> (s: String)
    ensures
        s@ == chars@,
{
    chars.iter().collect()
}

proof fn lemma_decimal_unfold(m: nat)
    ensures
        m < 10 ==> decimal(m) == seq![digit_char(m)],
        m >= 10 ==> decimal(m) == decimal(m / 10).push(digit_char(m % 10)),
{
}

/// The decimal digits of `n`, most significant first.
pub fn decimal_chars(n: usize) -> (out: Vec<char>)
    ensures
        out@ == decimal(n as nat),
{
    let mut out: Vec<char> = Vec::new();
    let mut m: usize = n;
    assert(decimal(n as nat) + out@ =~= decimal(n as nat));
    loop
        invariant_except_break
            decimal(n as nat) == decimal(m as nat) + out@,
        ensures
            decimal(n as nat) == out@,
        decreases m,
    {
        proof {
            lemma_decimal_unfold(m as nat);
        }
        let ghost old_out = out@;
        let d = digit(m % 10);
        out.insert(0, d);
        assert(out@ =~= seq![d] + old_out);
        if m < 10 {
            assert(decimal(n as nat) =~= out@);
            break;
        }
        assert(decimal(n as nat) =~= decimal((m / 10) as nat) + out@);
        m = m / 10;
    }
    out
}

/// The decimal notation of `n`, as `n.to_string()` writes it.
pub fn decimal_string(n: usize) -> (s: String)
    ensures
        s@ == decimal(n as nat),
{
    let v = decimal_chars(n);
    string_from_chars(v.as_slice())
}

/// Appends the decimal digits of `n` to `out`.
pub fn push_decimal(out: &mut Vec<char>, n: usize)
    ensures
        final(out)@ == old(out)@ + decimal(n as nat),
{
    let mut d = decimal_chars(n);
    out.append(&mut d);
}

/// Appends the characters of `s` to `out`.
pub fn push_str(out: &mut Vec<char>, s: &str)
    ensures
        final(out)@ == old(out)@ + s@,
{
    let mut v = chars_of(s);
    out.append(&mut v);
}


/// The characters of `s`, in order.
pub fn chars_of(s: &str) -> (v: Vec<char>)
    ensures
        v@ == s@,
{
    let n = s.unicode_len();
    let mut v: Vec<char> = Vec::new();
    let mut i: usize = 0;
    while i < n
        invariant
            n == s@.len(),
            i <= n,
            v@ =~= s@.take(i as int),
        decreases n - i,
    {
        v.push(s.get_char(i));
        i = i + 1;
    }
    v
}

/// Whether two strings hold the same characters.
pub fn str_eq(a: &str, b: &str) -> (r: bool)
    ensures
        r == (a@ == b@),
{
    let va = chars_of(a);
    let vb = chars_of(b);
    if va.len() != vb.len() {
        return false;
    }
    let mut i: usize = 0;
    while i < va.len()
        invariant
            va@ == a@,
            vb@ == b@,
            va.len() == vb.len(),
            i <= va.len(),
            forall|j: int| 0 <= j < i ==> va@[j] == vb@[j],
        decreases va.len() - i,
    {
        if va[i] != vb[i] {
            return false;
        }
        i = i + 1;
    }
    assert(va@ =~= vb@);
    true
}

/// The text `s` with every occurrence of `pat` replaced by `rep`, the
/// occurrences found from left to right without overlapping (as `str::replace`
/// does for a non-empty pattern).
pub open spec fn replace_all(s: Seq<char>, pat: Seq<char>, rep: Seq<char>) -> Seq<char>
    decreases s.len(),
{
    if s.len() == 0 {
        seq![]
    } else if 0 < pat.len() <= s.len() && s.take(pat.len() as int) == pat {
        rep + replace_all(s.skip(pat.len() as int), pat, rep)
    } else {
        seq![s[0]] + replace_all(s.skip(1), pat, rep)
    }
}

fn matches_at(v: &Vec<char>, i: usize, pat: &Vec<char>) -> (r: bool)
    requires
        i <= v.len(),
    ensures
        r == (pat.len() <= v.len() - i && v@.skip(i as int).take(pat.len() as int) == pat@),
{
    if pat.len() > v.len() - i {
        return false;
    }
    let mut j: usize = 0;
    while j < pat.len()
        invariant
            i <= v.len(),
            pat.len() <= v.len() - i,
            j <= pat.len(),
            forall|k: int| 0 <= k < j ==> v@[i + k] == pat@[k],
        decreases pat.len() - j,
    {
        if v[i + j] != pat[j] {
            assert(v@.skip(i as int).take(pat.len() as int)[j as int] != pat@[j as int]);
            return false;
        }
        j = j + 1;
    }
    assert(v@.skip(i as int).take(pat.len() as int) =~= pat@);
    true
}

/// `s` with each occurrence of the non-empty `pat` replaced by `rep`.
pub fn replace_str(s: &str, pat: &str, rep: &str) -> (r: String)
    requires
        pat@.len() > 0,
    ensures
        r@ == replace_all(s@, pat@, rep@),
{
    let v = chars_of(s);
    let pv = chars_of(pat);
    let rv = chars_of(rep);
    let mut out: Vec<char> = Vec::new();
    let mut i: usize = 0;
    assert(s@.skip(0) =~= s@);
    assert(out@ + replace_all(s@, pat@, rep@) =~= replace_all(s@, pat@, rep@));
    while i < v.len()
        invariant
            v@ == s@,
            pv@ == pat@,
            rv@ == rep@,
            pv.len() > 0,
            i <= v.len(),
            replace_all(s@, pat@, rep@) == out@ + replace_all(s@.skip(i as int), pat@, rep@),
        decreases v.len() - i,
    {
        let ghost rest = s@.skip(i as int);
        if matches_at(&v, i, &pv) {
            let mut k: usize = 0;
            let ghost out0 = out@;
            while k < rv.len()
                invariant
                    k <= rv.len(),
                    out@ =~= out0 + rv@.take(k as int),
                decreases rv.len() - k,
            {
                out.push(rv[k]);
                k = k + 1;
            }
            assert(rest.skip(pv.len() as int) =~= s@.skip(i + pv.len()));
            assert(out@ =~= out0 + rep@);
            i = i + pv.len();
        } else {
            out.push(v[i]);
            assert(rest.skip(1) =~= s@.skip(i + 1));
            i = i + 1;
        }
    }
    assert(s@.skip(i as int) =~= Seq::<char>::empty());
    assert(out@ =~= replace_all(s@, pat@, rep@));
    string_from_chars(out.as_slice())
}


/// The path that `Path::new(base).join(rel)` names, written as text: a
/// relative `rel` is appended after a separator (none is added after an empty
/// base or one that already ends in `/`), an absolute `rel` replaces `base`.
pub open spec fn path_join(base: Seq<char>, rel: Seq<char>) -> Seq<char> {
    if rel.len() > 0 && rel[0] == '/' {
        rel
    } else if base.len() == 0 || base.last() == '/' {
        base + rel
    } else {
        base + seq!['/'] + rel
    }
}

/// Joins `rel` onto the directory `base` as a path.
pub fn join_path(base: &str, rel: &str) -> (r: String)
    ensures
        r@ == path_join(base@, rel@),
{
    let b = chars_of(base);
    let rv = chars_of(rel);
    if rv.len() > 0 && rv[0] == '/' {
        return string_from_chars(rv.as_slice());
    }
    let mut out = b;
    if out.len() > 0 && out[out.len() - 1] != '/' {
        out.push('/');
    }
    let mut rest = rv;
    out.append(&mut rest);
    proof {
        if base@.len() > 0 && base@.last() != '/' {
            assert(out@ =~= base@ + seq!['/'] + rel@);
        } else {
            assert(out@ =~= base@ + rel@);
        }
    }
    string_from_chars(out.as_slice())
}


/// Each character takes at least one byte in UTF-8, and a single character
/// takes exactly one byte when it is ASCII.
pub proof fn lemma_encode_utf8_len(s: Seq<char>)
    ensures
        encode_utf8(s).len() >= s.len(),
        s.len() == 1 ==> (encode_utf8(s).len() == 1 <==> (s[0] as u32) <= 0x7F),
    decreases s.len(),
{
    if s.len() > 0 {
        lemma_encode_utf8_len(s.drop_first());
        if s.len() == 1 {
            assert(s.drop_first() =~= Seq::<char>::empty());
        }
    }
}

/// Whether `s` is one byte long in UTF-8, as `s.len() == 1` tests.
pub fn is_one_byte(s: &str) -> (r: bool)
    ensures
        r == (encode_utf8(s@).len() == 1),
{
    proof {
        lemma_encode_utf8_len(s@);
    }
    if s.unicode_len() != 1 {
        return false;
    }
    let c = s.get_char(0);
    (c as u32) <= 0x7F
}


/// Different numbers have different decimal notations.
pub proof fn lemma_decimal_injective(a: nat, b: nat)
    ensures
        decimal(a) == decimal(b) ==> a == b,
    decreases a + b,
{
    if decimal(a) == decimal(b) {
        lemma_decimal_len(a);
        lemma_decimal_len(b);
        if a < 10 && b < 10 {
            assert(decimal(a)[0] == digit_char(a));
            assert(decimal(b)[0] == digit_char(b));
        } else if a >= 10 && b >= 10 {
            let da = decimal(a / 10);
            let db = decimal(b / 10);
            assert(decimal(a) == da.push(digit_char(a % 10)));
            assert(decimal(b) == db.push(digit_char(b % 10)));
            assert(da =~= decimal(a).drop_last());
            assert(db =~= decimal(b).drop_last());
            lemma_decimal_injective(a / 10, b / 10);
            assert(decimal(a).last() == digit_char(a % 10));
            assert(decimal(b).last() == digit_char(b % 10));
        } else if a < 10 {
            lemma_decimal_len(b / 10);
            assert(decimal(b).len() >= 2);
        } else {
            lemma_decimal_len(a / 10);
            assert(decimal(a).len() >= 2);
        }
    }
}

/// A decimal notation is never empty, and has one digit exactly below ten.
pub proof fn lemma_decimal_len(n: nat)
    ensures
        decimal(n).len() >= 1,
        n < 10 <==> decimal(n).len() == 1,
    decreases n,
{
    if n >= 10 {
        lemma_decimal_len(n / 10);
    }
}

/// A path joined onto a base ends with the joined path.
pub proof fn lemma_path_join_suffix(base: Seq<char>, rel: Seq<char>)
    ensures
        path_join(base, rel).len() >= rel.len(),
        path_join(base, rel).skip(path_join(base, rel).len() - rel.len()) == rel,
{
    let j = path_join(base, rel);
    if rel.len() > 0 && rel[0] == '/' {
        assert(j.skip(0) =~= rel);
    } else if base.len() == 0 || base.last() == '/' {
        assert(j.skip(j.len() - rel.len()) =~= rel);
    } else {
        assert(j.skip(j.len() - rel.len()) =~= rel);
    }
}


/// Joining `a` and then `b` onto a base is joining the relative path `a/b`.
pub proof fn lemma_path_join_nested(base: Seq<char>, a: Seq<char>, b: Seq<char>)
    requires
        a.len() > 0,
        a[0] != '/',
        a.last() != '/',
        b.len() == 0 || b[0] != '/',
    ensures
        path_join(path_join(base, a), b) == path_join(base, a + seq!['/'] + b),
{
    let ab = a + seq!['/'] + b;
    assert(ab[0] == a[0]);
    let j = path_join(base, a);
    assert(j.last() == a.last());
    if base.len() == 0 || base.last() == '/' {
        assert(j + seq!['/'] + b =~= base + ab);
    } else {
        assert(j + seq!['/'] + b =~= base + seq!['/'] + ab);
    }
}


/// Whether `a` is directly followed by `b` somewhere in `s`.
pub open spec fn has_pair(s: Seq<char>, a: char, b: char) -> bool {
    exists|i: int| 0 <= i < s.len() - 1 && #[trigger] s[i] == a && s[i + 1] == b
}

/// A text in which the pattern's first two characters never stand one right
/// after the other is left as it is by [`replace_all`].
pub proof fn lemma_replace_absent_pair(s: Seq<char>, pat: Seq<char>, rep: Seq<char>)
    requires
        pat.len() >= 2,
        !has_pair(s, pat[0], pat[1]),
    ensures
        replace_all(s, pat, rep) == s,
    decreases s.len(),
{
    if s.len() > 0 {
        if pat.len() <= s.len() {
            let t = s.take(pat.len() as int);
            assert(t[0] == s[0] && t[1] == s[1]);
            if s[0] == pat[0] && s[1] == pat[1] {
                assert(has_pair(s, pat[0], pat[1]));
            }
            assert(t != pat);
        }
        assert(!has_pair(s.skip(1), pat[0], pat[1])) by {
            if has_pair(s.skip(1), pat[0], pat[1]) {
                let i = choose|i: int| 0 <= i < s.skip(1).len() - 1 && #[trigger] s.skip(1)[i] == pat[0] && s.skip(1)[i + 1] == pat[1];
                assert(s[i + 1] == pat[0] && s[i + 2] == pat[1]);
                assert(has_pair(s, pat[0], pat[1]));
            }
        }
        lemma_replace_absent_pair(s.skip(1), pat, rep);
        assert(seq![s[0]] + s.skip(1) =~= s);
    }
}

} // verus!
