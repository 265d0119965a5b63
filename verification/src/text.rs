use vstd::prelude::*;
use vstd::string::StrSliceExecFns;
use core::cmp::Ordering;

verus! {

// ---------------------------------------------------------------------------
// Building and taking apart strings
// ---------------------------------------------------------------------------

/// Relies on `String::push`: appends the given character to the end of
/// this `String`.
#[verifier::external_body]
pub(crate) fn push_char(s: &mut String, c: char)
    ensures
        final(s)@ == old(s)@.push(c),
{
    s.push(c);
}

/// The characters of a string slice, as a vector.
pub fn char_vec(s: &str) -> (v: Vec<char>)
    ensures
        v@ == s@,
{
    let n = s.unicode_len();
    let mut v: Vec<char> = Vec::new();
    let mut i: usize = 0;
    while i < n
        invariant
            i <= n,
            n == s@.len(),
            v@ == s@.take(i as int),
        decreases n - i,
    {
        let c = s.get_char(i);
        v.push(c);
        proof {
            assert(v@ =~= s@.take(i + 1 as int));
        }
        i += 1;
    }
    proof {
        assert(v@ =~= s@);
    }
    v
}

/// A freshly owned string holding exactly the given characters.
pub fn string_from_chars(v: &Vec<char>) -> (s: String)
    ensures
        s@ == v@,
{
    let mut s = String::new();
    let mut i: usize = 0;
    while i < v.len()
        invariant
            i <= v.len(),
            s@ == v@.take(i as int),
        decreases v.len() - i,
    {
        push_char(&mut s, v[i]);
        proof {
            assert(s@ =~= v@.take(i + 1 as int));
        }
        i += 1;
    }
    proof {
        assert(s@ =~= v@);
    }
    s
}

/// A string of `n` spaces.
pub fn spaces(n: usize) -> (s: String)
    ensures
        s@ == Seq::new(n as nat, |i: int| ' '),
{
    let mut s = String::new();
    let mut i: usize = 0;
    while i < n
        invariant
            i <= n,
            s@ == Seq::new(i as nat, |k: int| ' '),
        decreases n - i,
    {
        push_char(&mut s, ' ');
        proof {
            assert(s@ =~= Seq::new((i + 1) as nat, |k: int| ' '));
        }
        i += 1;
    }
    s
}


/// The characters of `v` between two positions, as a fresh vector.
pub fn chars_sub(v: &Vec<char>, i: usize, j: usize) -> (r: Vec<char>)
    requires
        i <= j <= v@.len(),
    ensures
        r@ == v@.subrange(i as int, j as int),
{
    let mut r: Vec<char> = Vec::new();
    let mut k: usize = i;
    while k < j
        invariant
            i <= k <= j <= v@.len(),
            r@ == v@.subrange(i as int, k as int),
        decreases j - k,
    {
        r.push(v[k]);
        proof {
            assert(r@ =~= v@.subrange(i as int, k + 1 as int));
        }
        k += 1;
    }
    r
}

// ---------------------------------------------------------------------------
// Lexicographic comparison of character sequences
// ---------------------------------------------------------------------------

/// The opposite of an ordering outcome.
pub open spec fn flip(o: Ordering) -> Ordering {
    match o {
        Ordering::Less => Ordering::Greater,
        Ordering::Equal => Ordering::Equal,
        Ordering::Greater => Ordering::Less,
    }
}

/// Lexicographic order on character sequences, by code point; a strict
/// prefix sorts before its extensions.
pub open spec fn lex_cmp(a: Seq<char>, b: Seq<char>) -> Ordering
    decreases a.len() + b.len(),
{
    if a.len() == 0 && b.len() == 0 {
        Ordering::Equal
    } else if a.len() == 0 {
        Ordering::Less
    } else if b.len() == 0 {
        Ordering::Greater
    } else if (a[0] as u32) < (b[0] as u32) {
        Ordering::Less
    } else if (a[0] as u32) > (b[0] as u32) {
        Ordering::Greater
    } else {
        lex_cmp(a.skip(1), b.skip(1))
    }
}

/// Two characters with the same code point are the same character.
pub proof fn lemma_char_inj(a: char, b: char)
    requires
        (a as u32) == (b as u32),
    ensures
        a == b,
{
}

pub proof fn lemma_lex_flip(a: Seq<char>, b: Seq<char>)
    ensures
        lex_cmp(a, b) == flip(lex_cmp(b, a)),
    decreases a.len() + b.len(),
{
    if a.len() == 0 || b.len() == 0 {
    } else if (a[0] as u32) < (b[0] as u32) {
    } else if (a[0] as u32) > (b[0] as u32) {
    } else {
        lemma_lex_flip(a.skip(1), b.skip(1));
    }
}

pub proof fn lemma_lex_trans(a: Seq<char>, b: Seq<char>, c: Seq<char>)
    requires
        lex_cmp(a, b) != Ordering::Greater,
        lex_cmp(b, c) != Ordering::Greater,
    ensures
        lex_cmp(a, c) != Ordering::Greater,
    decreases a.len() + b.len() + c.len(),
{
    if a.len() == 0 {
    } else if b.len() == 0 {
        assert(false);
    } else if c.len() == 0 {
        assert(false);
    } else {
        let x = a[0] as u32;
        let y = b[0] as u32;
        let z = c[0] as u32;
        if x < y {
            assert(y <= z);
            assert(lex_cmp(a, c) == Ordering::Less);
        } else if x > y {
            assert(false);
        } else if y < z {
            assert(lex_cmp(a, c) == Ordering::Less);
        } else if y > z {
            assert(false);
        } else {
            lemma_lex_trans(a.skip(1), b.skip(1), c.skip(1));
        }
    }
}

pub proof fn lemma_lex_eq(a: Seq<char>, b: Seq<char>)
    ensures
        lex_cmp(a, b) == Ordering::Equal <==> a == b,
    decreases a.len() + b.len(),
{
    if a.len() == 0 && b.len() == 0 {
        assert(a =~= b);
    } else if a.len() == 0 || b.len() == 0 {
    } else if (a[0] as u32) < (b[0] as u32) {
    } else if (a[0] as u32) > (b[0] as u32) {
    } else {
        lemma_lex_eq(a.skip(1), b.skip(1));
        lemma_char_inj(a[0], b[0]);
        if lex_cmp(a, b) == Ordering::Equal {
            assert(a.skip(1) == b.skip(1));
            assert(a =~= seq![a[0]] + a.skip(1));
            assert(b =~= seq![b[0]] + b.skip(1));
            assert(a == b);
        } else {
            if a == b {
                assert(a.skip(1) == b.skip(1));
            }
        }
    }
}

/// Compares two string slices in the order of `lex_cmp`.
pub fn compare_str(a: &str, b: &str) -> (o: Ordering)
    ensures
        o == lex_cmp(a@, b@),
{
    let an = a.unicode_len();
    let bn = b.unicode_len();
    let mut i: usize = 0;
    proof {
        assert(a@.skip(0) =~= a@);
        assert(b@.skip(0) =~= b@);
    }
    loop
        invariant
            i <= an,
            i <= bn,
            an == a@.len(),
            bn == b@.len(),
            lex_cmp(a@.skip(i as int), b@.skip(i as int)) == lex_cmp(a@, b@),
        decreases an - i,
    {
        if i == an && i == bn {
            return Ordering::Equal;
        } else if i == an {
            return Ordering::Less;
        } else if i == bn {
            return Ordering::Greater;
        }
        let ca = a.get_char(i);
        let cb = b.get_char(i);
        if (ca as u32) < (cb as u32) {
            return Ordering::Less;
        } else if (ca as u32) > (cb as u32) {
            return Ordering::Greater;
        }
        proof {
            assert(a@.skip(i as int).skip(1) =~= a@.skip(i + 1 as int));
            assert(b@.skip(i as int).skip(1) =~= b@.skip(i + 1 as int));
        }
        i += 1;
    }
}

// ---------------------------------------------------------------------------
// ASCII case folding
// ---------------------------------------------------------------------------

/// Maps an ASCII upper-case letter to its lower-case form and leaves every
/// other character alone.
pub open spec fn lower_char(c: char) -> char {
    if 'A' <= c && c <= 'Z' {
        (((c as u8) + 32) as char)
    } else {
        c
    }
}

/// ASCII-lower-cases every character of the sequence.
pub open spec fn lower_seq(s: Seq<char>) -> Seq<char> {
    s.map_values(|c: char| lower_char(c))
}

/// The ASCII lower-case form of a string.
pub fn ascii_lower(s: &str) -> (r: String)
    ensures
        r@ == lower_seq(s@),
{
    let n = s.unicode_len();
    let mut r = String::new();
    let mut i: usize = 0;
    while i < n
        invariant
            i <= n,
            n == s@.len(),
            r@ == lower_seq(s@.take(i as int)),
        decreases n - i,
    {
        let c = s.get_char(i);
        let lc: char = if c >= 'A' && c <= 'Z' {
            (((c as u8) + 32) as char)
        } else {
            c
        };
        push_char(&mut r, lc);
        proof {
            assert(r@ =~= lower_seq(s@.take(i + 1 as int)));
        }
        i += 1;
    }
    proof {
        assert(r@ =~= lower_seq(s@));
    }
    r
}

// ---------------------------------------------------------------------------
// Prefix and suffix tests
// ---------------------------------------------------------------------------

/// Whether `p` is a prefix of `s`.
pub open spec fn has_prefix(s: Seq<char>, p: Seq<char>) -> bool {
    p.len() <= s.len() && s.take(p.len() as int) == p
}

/// Whether `p` is a suffix of `s`.
pub open spec fn has_suffix(s: Seq<char>, p: Seq<char>) -> bool {
    p.len() <= s.len() && s.skip((s.len() - p.len()) as int) == p
}

/// Whether the string begins with the given prefix.
pub fn str_starts_with(s: &str, p: &str) -> (r: bool)
    ensures
        r == has_prefix(s@, p@),
{
    let sn = s.unicode_len();
    let pn = p.unicode_len();
    if pn > sn {
        proof {
            assert(!has_prefix(s@, p@));
        }
        return false;
    }
    let mut i: usize = 0;
    while i < pn
        invariant
            i <= pn,
            pn <= sn,
            sn == s@.len(),
            pn == p@.len(),
            s@.take(i as int) =~= p@.take(i as int),
        decreases pn - i,
    {
        let cs = s.get_char(i);
        let cp = p.get_char(i);
        if cs != cp {
            proof {
                assert(s@.take(pn as int)[i as int] != p@[i as int]);
            }
            return false;
        }
        proof {
            assert(s@.take(i + 1 as int) =~= p@.take(i + 1 as int));
        }
        i += 1;
    }
    proof {
        assert(s@.take(pn as int) =~= p@);
    }
    true
}

/// Whether the string ends with the given suffix.
pub fn str_ends_with(s: &str, p: &str) -> (r: bool)
    ensures
        r == has_suffix(s@, p@),
{
    let sn = s.unicode_len();
    let pn = p.unicode_len();
    if pn > sn {
        proof {
            assert(!has_suffix(s@, p@));
        }
        return false;
    }
    let off = sn - pn;
    let mut i: usize = 0;
    while i < pn
        invariant
            i <= pn,
            pn <= sn,
            off == sn - pn,
            sn == s@.len(),
            pn == p@.len(),
            s@.skip(off as int).take(i as int) =~= p@.take(i as int),
        decreases pn - i,
    {
        let cs = s.get_char(off + i);
        let cp = p.get_char(i);
        if cs != cp {
            proof {
                assert(s@.skip(off as int)[i as int] != p@[i as int]);
            }
            return false;
        }
        proof {
            assert(s@.skip(off as int).take(i + 1 as int) =~= p@.take(i + 1 as int));
        }
        i += 1;
    }
    proof {
        assert(p@.take(pn as int) =~= p@);
        assert(s@.skip(off as int).take(pn as int) =~= s@.skip(off as int));
    }
    true
}

/// Whether two string slices hold the same characters.
pub fn str_eq(a: &str, b: &str) -> (r: bool)
    ensures
        r == (a@ == b@),
{
    let an = a.unicode_len();
    let bn = b.unicode_len();
    if an != bn {
        return false;
    }
    let mut i: usize = 0;
    while i < an
        invariant
            i <= an,
            an == bn,
            an == a@.len(),
            bn == b@.len(),
            a@.take(i as int) =~= b@.take(i as int),
        decreases an - i,
    {
        if a.get_char(i) != b.get_char(i) {
            proof {
                assert(a@[i as int] != b@[i as int]);
            }
            return false;
        }
        proof {
            assert(a@.take(i + 1 as int) =~= b@.take(i + 1 as int));
        }
        i += 1;
    }
    proof {
        assert(a@.take(an as int) =~= a@);
        assert(b@.take(an as int) =~= b@);
    }
    true
}

// ---------------------------------------------------------------------------
// Decimal rendering of integers
// ---------------------------------------------------------------------------

/// The character for one decimal digit.
pub open spec fn digit_char(d: int) -> char {
    if d == 0 {
        '0'
    } else if d == 1 {
        '1'
    } else if d == 2 {
        '2'
    } else if d == 3 {
        '3'
    } else if d == 4 {
        '4'
    } else if d == 5 {
        '5'
    } else if d == 6 {
        '6'
    } else if d == 7 {
        '7'
    } else if d == 8 {
        '8'
    } else {
        '9'
    }
}

/// The decimal form of a non-negative integer, most significant digit first.
pub open spec fn dec_spec(n: int) -> Seq<char>
    decreases n,
{
    if n < 10 {
        seq![digit_char(n)]
    } else {
        dec_spec(n / 10).push(digit_char(n % 10))
    }
}

pub(crate) fn digit_to_char(d: u64) -> (c: char)
    ensures
        c == digit_char(d as int),
{
    match d {
        0 => '0',
        1 => '1',
        2 => '2',
        3 => '3',
        4 => '4',
        5 => '5',
        6 => '6',
        7 => '7',
        8 => '8',
        _ => '9',
    }
}

/// The decimal rendering of `n`.
pub fn u64_to_string(n: u64) -> (s: String)
    ensures
        s@ == dec_spec(n as int),
{
    let mut ds: Vec<char> = Vec::new();
    let mut m = n;
    loop
        invariant_except_break
            m > 0 || ds.len() == 0,
            dec_spec(n as int) == (if ds.len() == 0 {
                dec_spec(m as int)
            } else {
                dec_spec(m as int) + ds@.reverse()
            }),
        ensures
            dec_spec(n as int) == ds@.reverse(),
        decreases m,
    {
        let ghost m0 = m;
        let ghost ds0 = ds@;
        let d = m % 10;
        ds.push(digit_to_char(d));
        m = m / 10;
        proof {
            assert(ds@.drop_last() =~= ds0);
            assert(ds@.reverse() =~= seq![digit_char(d as int)] + ds0.reverse());
            if m0 < 10 {
                assert(dec_spec(m0 as int) == seq![digit_char(m0 as int)]);
                assert(d == m0);
                if ds0.len() == 0 {
                    assert(dec_spec(n as int) =~= ds@.reverse());
                } else {
                    assert(dec_spec(n as int) =~= ds@.reverse());
                }
            } else {
                assert(dec_spec(m0 as int) == dec_spec(m as int).push(digit_char(d as int)));
                assert(dec_spec(m0 as int) =~= dec_spec(m as int) + seq![digit_char(d as int)]);
                assert(dec_spec(n as int) =~= dec_spec(m as int) + ds@.reverse());
            }
        }
        if m == 0 {
            break;
        }
    }
    // build the string from the collected digits, most significant last
    let mut s = String::new();
    let mut i: usize = ds.len();
    while i > 0
        invariant
            i <= ds.len(),
            s@ =~= ds@.skip(i as int).reverse(),
        decreases i,
    {
        i -= 1;
        push_char(&mut s, ds[i]);
        proof {
            assert(s@ =~= ds@.skip(i as int).reverse());
        }
    }
    proof {
        assert(ds@.skip(0) =~= ds@);
        assert(s@ =~= ds@.reverse());
    }
    s
}

} // verus!
