use vstd::prelude::*;
use core::cmp::Ordering;
use crate::{Entry, Timestamp};
use crate::text::{flip, lex_cmp, lemma_lex_flip, lemma_lex_trans, lemma_lex_eq, lemma_char_inj,
    char_vec, compare_str};

verus! {

/// The outcome of comparing two integers.
pub open spec fn int_cmp(x: int, y: int) -> Ordering {
    if x < y {
        Ordering::Less
    } else if x > y {
        Ordering::Greater
    } else {
        Ordering::Equal
    }
}

/// A total preorder on entries. Every strategy carries the proof that
/// its ordering is symmetric under swapping and transitive, so a caller
/// may sort by any strategy without further assumptions.
pub trait SortStrategy: Sized {
    /// The ordering this strategy assigns to a pair of entries.
    spec fn cmp_spec(&self, a: Entry, b: Entry) -> Ordering;

    /// Comparing the two ways round gives opposite outcomes; with the
    /// two entries equal, this forces a reflexive `Equal`.
    proof fn lemma_flip(&self, a: Entry, b: Entry)
        ensures
            self.cmp_spec(a, b) == flip(self.cmp_spec(b, a)),
    ;

    /// The ordering is transitive in its non-strict form.
    proof fn lemma_trans(&self, a: Entry, b: Entry, c: Entry)
        requires
            self.cmp_spec(a, b) != Ordering::Greater,
            self.cmp_spec(b, c) != Ordering::Greater,
        ensures
            self.cmp_spec(a, c) != Ordering::Greater,
    ;

    /// Compares two entries.
    fn compare(&self, a: &Entry, b: &Entry) -> (r: Ordering)
        ensures
            r == self.cmp_spec(*a, *b),
    ;
}

// ---------------------------------------------------------------------------
// Natural ("human") order on names
// ---------------------------------------------------------------------------

/// Whether the character is an ASCII digit.
pub open spec fn is_digit(c: char) -> bool {
    ('0' as u32) <= (c as u32) && (c as u32) <= ('9' as u32)
}

/// The numeric value of one digit character.
pub open spec fn digit_val(c: char) -> int {
    c as u32 - '0' as u32
}

/// How many ASCII digits the sequence begins with.
pub open spec fn digit_run(s: Seq<char>) -> int
    decreases s.len(),
{
    if s.len() == 0 || !is_digit(s[0]) {
        0
    } else {
        1 + digit_run(s.skip(1))
    }
}

/// Whether every character of the sequence is an ASCII digit.
pub open spec fn all_digits(s: Seq<char>) -> bool {
    forall|k: int| 0 <= k < s.len() ==> is_digit(s[k])
}

/// The numeric value of a digit sequence, most significant digit first.
pub open spec fn run_value(s: Seq<char>) -> int
    decreases s.len(),
{
    if s.len() == 0 {
        0
    } else {
        run_value(s.drop_last()) * 10 + digit_val(s.last())
    }
}

/// Powers of ten.
pub open spec fn pow10(n: int) -> int
    decreases n,
{
    if n <= 0 {
        1
    } else {
        10 * pow10(n - 1)
    }
}

pub proof fn lemma_digit_run_bounds(s: Seq<char>)
    ensures
        0 <= digit_run(s) <= s.len(),
        s.len() > 0 && is_digit(s[0]) ==> digit_run(s) >= 1,
    decreases s.len(),
{
    if s.len() > 0 && is_digit(s[0]) {
        lemma_digit_run_bounds(s.skip(1));
    }
}

/// The leading digit run ends exactly where the digits end.
pub proof fn lemma_digit_run_at(s: Seq<char>, r: int)
    requires
        0 <= r <= s.len(),
        forall|k: int| 0 <= k < r ==> is_digit(s[k]),
        r == s.len() || !is_digit(s[r]),
    ensures
        digit_run(s) == r,
    decreases s.len(),
{
    if r == 0 {
    } else {
        assert(is_digit(s[0]));
        assert(forall|k: int| 0 <= k < r - 1 ==> is_digit(s.skip(1)[k]));
        if r < s.len() {
            assert(s.skip(1)[r - 1] == s[r]);
        }
        lemma_digit_run_at(s.skip(1), r - 1);
    }
}

pub proof fn lemma_run_value_bound(s: Seq<char>)
    requires
        all_digits(s),
    ensures
        0 <= run_value(s) < pow10(s.len() as int),
    decreases s.len(),
{
    if s.len() > 0 {
        let dl = s.drop_last();
        assert(all_digits(dl));
        lemma_run_value_bound(dl);
        let d = digit_val(s.last());
        assert(is_digit(s.last()));
        assert(0 <= d <= 9);
        assert(run_value(dl) * 10 <= (pow10(dl.len() as int) - 1) * 10) by (nonlinear_arith)
            requires
                run_value(dl) <= pow10(dl.len() as int) - 1,
        ;
        assert(run_value(dl) * 10 >= 0) by (nonlinear_arith)
            requires
                run_value(dl) >= 0,
        ;
    }
}

/// Peeling the most significant digit off the front.
pub proof fn lemma_run_value_front(s: Seq<char>)
    requires
        all_digits(s),
        s.len() > 0,
    ensures
        run_value(s) == digit_val(s[0]) * pow10(s.len() - 1) + run_value(s.skip(1)),
    decreases s.len(),
{
    if s.len() == 1 {
        assert(s.drop_last() =~= Seq::<char>::empty());
        assert(s.skip(1) =~= Seq::<char>::empty());
        assert(digit_val(s[0]) * 1 == digit_val(s[0])) by (nonlinear_arith);
    } else {
        let dl = s.drop_last();
        assert(all_digits(dl));
        lemma_run_value_front(dl);
        let dv = digit_val(s[0]);
        let p = pow10(s.len() - 2);
        assert(s.skip(1).drop_last() =~= dl.skip(1));
        assert(s.skip(1).last() == s.last());
        assert(run_value(s.skip(1)) == run_value(dl.skip(1)) * 10 + digit_val(s.last()));
        assert(run_value(s) == run_value(dl) * 10 + digit_val(s.last()));
        assert(run_value(dl) == dv * p + run_value(dl.skip(1)));
        assert((dv * p + run_value(dl.skip(1))) * 10 == dv * (10 * p) + run_value(dl.skip(1)) * 10)
            by (nonlinear_arith);
        assert(pow10(s.len() - 1) == 10 * p);
    }
}

/// A leading zero adds nothing to the value.
pub proof fn lemma_strip_zero(s: Seq<char>)
    requires
        all_digits(s),
        s.len() > 0,
        s[0] == '0',
    ensures
        run_value(s.skip(1)) == run_value(s),
{
    lemma_run_value_front(s);
    assert(digit_val('0') == 0);
    assert(0 * pow10(s.len() - 1) == 0) by (nonlinear_arith);
}

pub proof fn lemma_pow10_pos(n: int)
    ensures
        pow10(n) >= 1,
    decreases n,
{
    if n > 0 {
        lemma_pow10_pos(n - 1);
    }
}

pub proof fn lemma_pow10_mono(m: int, n: int)
    requires
        m <= n,
    ensures
        1 <= pow10(m) <= pow10(n),
    decreases n - m,
{
    lemma_pow10_pos(m);
    if m < n {
        lemma_pow10_mono(m, n - 1);
        lemma_pow10_pos(n - 1);
    }
}

/// A digit string without a leading zero outweighs any shorter one.
pub proof fn lemma_value_lt_len(u: Seq<char>, v: Seq<char>)
    requires
        all_digits(u),
        all_digits(v),
        u.len() < v.len(),
        v.len() > 0,
        v[0] != '0',
    ensures
        run_value(u) < run_value(v),
{
    lemma_run_value_bound(u);
    lemma_run_value_front(v);
    assert(all_digits(v.skip(1)));
    lemma_run_value_bound(v.skip(1));
    // the leading digit of v is at least one
    assert(is_digit(v[0]));
    if digit_val(v[0]) == 0 {
        lemma_char_inj(v[0], '0');
        assert(false);
    }
    let dv = digit_val(v[0]);
    let p = pow10(v.len() - 1);
    lemma_pow10_mono(u.len() as int, v.len() - 1);
    assert(dv * p >= 1 * p) by (nonlinear_arith)
        requires
            dv >= 1,
            p >= 1,
    ;
    assert(1 * p == p) by (nonlinear_arith);
}

/// On digit strings of one length, numeric order is lexicographic order.
pub proof fn lemma_value_lex(u: Seq<char>, v: Seq<char>)
    requires
        all_digits(u),
        all_digits(v),
        u.len() == v.len(),
    ensures
        int_cmp(run_value(u), run_value(v)) == lex_cmp(u, v),
    decreases u.len(),
{
    if u.len() == 0 {
    } else {
        lemma_run_value_front(u);
        lemma_run_value_front(v);
        assert(all_digits(u.skip(1)));
        assert(all_digits(v.skip(1)));
        lemma_run_value_bound(u.skip(1));
        lemma_run_value_bound(v.skip(1));
        let du = digit_val(u[0]);
        let dv = digit_val(v[0]);
        let p = pow10(u.len() - 1);
        lemma_pow10_mono(0, u.len() - 1);
        if (u[0] as u32) < (v[0] as u32) {
            assert(du + 1 <= dv);
            assert(du * p + p <= dv * p) by (nonlinear_arith)
                requires
                    du + 1 <= dv,
                    p >= 1,
            ;
            assert(run_value(u) < run_value(v));
        } else if (u[0] as u32) > (v[0] as u32) {
            assert(dv + 1 <= du);
            assert(dv * p + p <= du * p) by (nonlinear_arith)
                requires
                    dv + 1 <= du,
                    p >= 1,
            ;
            assert(run_value(u) > run_value(v));
        } else {
            assert(du == dv);
            lemma_value_lex(u.skip(1), v.skip(1));
        }
    }
}

/// Natural order on character sequences: maximal digit runs weigh in as
/// numbers, everything else compares character by character, and a
/// spent sequence sorts before a longer one.
pub open spec fn nat_cmp(a: Seq<char>, b: Seq<char>) -> Ordering
    decreases a.len() + b.len(),
    via nat_cmp_decreases
{
    if a.len() == 0 && b.len() == 0 {
        Ordering::Equal
    } else if a.len() == 0 {
        Ordering::Less
    } else if b.len() == 0 {
        Ordering::Greater
    } else if is_digit(a[0]) && is_digit(b[0]) {
        let ra = digit_run(a);
        let rb = digit_run(b);
        let va = run_value(a.take(ra));
        let vb = run_value(b.take(rb));
        if va < vb {
            Ordering::Less
        } else if va > vb {
            Ordering::Greater
        } else {
            nat_cmp(a.skip(ra), b.skip(rb))
        }
    } else if (a[0] as u32) < (b[0] as u32) {
        Ordering::Less
    } else if (a[0] as u32) > (b[0] as u32) {
        Ordering::Greater
    } else {
        nat_cmp(a.skip(1), b.skip(1))
    }
}

#[via_fn]
proof fn nat_cmp_decreases(a: Seq<char>, b: Seq<char>) {
    lemma_digit_run_bounds(a);
    lemma_digit_run_bounds(b);
}

pub proof fn lemma_nat_flip(a: Seq<char>, b: Seq<char>)
    ensures
        nat_cmp(a, b) == flip(nat_cmp(b, a)),
    decreases a.len() + b.len(),
{
    lemma_digit_run_bounds(a);
    lemma_digit_run_bounds(b);
    if a.len() == 0 || b.len() == 0 {
    } else if is_digit(a[0]) && is_digit(b[0]) {
        let ra = digit_run(a);
        let rb = digit_run(b);
        let va = run_value(a.take(ra));
        let vb = run_value(b.take(rb));
        if va == vb {
            lemma_nat_flip(a.skip(ra), b.skip(rb));
        }
    } else if (a[0] as u32) < (b[0] as u32) {
    } else if (a[0] as u32) > (b[0] as u32) {
    } else {
        lemma_nat_flip(a.skip(1), b.skip(1));
    }
}

pub proof fn lemma_nat_trans(a: Seq<char>, b: Seq<char>, c: Seq<char>)
    requires
        nat_cmp(a, b) != Ordering::Greater,
        nat_cmp(b, c) != Ordering::Greater,
    ensures
        nat_cmp(a, c) != Ordering::Greater,
    decreases a.len() + b.len() + c.len(),
{
    lemma_digit_run_bounds(a);
    lemma_digit_run_bounds(b);
    lemma_digit_run_bounds(c);
    if a.len() == 0 {
    } else if b.len() == 0 {
        assert(false);
    } else if c.len() == 0 {
        assert(false);
    } else {
        let da = is_digit(a[0]);
        let db = is_digit(b[0]);
        let dc = is_digit(c[0]);
        if da && db && dc {
            let ra = digit_run(a);
            let rb = digit_run(b);
            let rc = digit_run(c);
            let va = run_value(a.take(ra));
            let vb = run_value(b.take(rb));
            let vc = run_value(c.take(rc));
            if va == vb && vb == vc {
                lemma_nat_trans(a.skip(ra), b.skip(rb), c.skip(rc));
            } else {
                assert(va <= vb && vb <= vc);
                assert(va < vc);
            }
        } else if da && db && !dc {
            // the digit opening of b compares as a character against c,
            // and a non-digit above a digit sits above the whole range
            assert((b[0] as u32) < (c[0] as u32));
            assert((c[0] as u32) > ('9' as u32));
            assert((a[0] as u32) < (c[0] as u32));
            assert(nat_cmp(a, c) == Ordering::Less);
        } else if da && !db && dc {
            // a non-digit cannot sit strictly between two digits
            assert((a[0] as u32) < (b[0] as u32));
            assert((b[0] as u32) < (c[0] as u32));
            assert(is_digit(b[0]));
            assert(false);
        } else if da && !db && !dc {
            assert((a[0] as u32) < (b[0] as u32));
            assert((b[0] as u32) <= (c[0] as u32));
            assert(nat_cmp(a, c) == Ordering::Less);
        } else if !da && db && dc {
            assert((a[0] as u32) < (b[0] as u32));
            assert((a[0] as u32) < ('0' as u32));
            assert(nat_cmp(a, c) == Ordering::Less);
        } else if !da && db && !dc {
            assert((a[0] as u32) < (b[0] as u32));
            assert((b[0] as u32) < (c[0] as u32));
            assert(nat_cmp(a, c) == Ordering::Less);
        } else if !da && !db && dc {
            assert((b[0] as u32) < (c[0] as u32));
            assert((a[0] as u32) <= (b[0] as u32));
            assert(nat_cmp(a, c) == Ordering::Less);
        } else {
            // no digits anywhere: plain character comparison
            if (a[0] as u32) == (b[0] as u32) && (b[0] as u32) == (c[0] as u32) {
                lemma_nat_trans(a.skip(1), b.skip(1), c.skip(1));
            } else if (a[0] as u32) == (b[0] as u32) {
                assert((b[0] as u32) < (c[0] as u32));
                assert(nat_cmp(a, c) == Ordering::Less);
            } else {
                assert((a[0] as u32) < (b[0] as u32));
                assert((b[0] as u32) <= (c[0] as u32));
                assert(nat_cmp(a, c) == Ordering::Less);
            }
        }
    }
}

/// Lexicographic comparison of two slices of two character vectors.
fn lex_cmp_range(av: &Vec<char>, ai: usize, aj: usize, bv: &Vec<char>, bi: usize, bj: usize) -> (o:
    Ordering)
    requires
        ai <= aj <= av@.len(),
        bi <= bj <= bv@.len(),
    ensures
        o == lex_cmp(av@.subrange(ai as int, aj as int), bv@.subrange(bi as int, bj as int)),
{
    let ghost sa = av@.subrange(ai as int, aj as int);
    let ghost sb = bv@.subrange(bi as int, bj as int);
    let mut k: usize = 0;
    proof {
        assert(sa.skip(0) =~= sa);
        assert(sb.skip(0) =~= sb);
    }
    loop
        invariant
            k <= aj - ai,
            k <= bj - bi,
            ai <= aj <= av@.len(),
            bi <= bj <= bv@.len(),
            sa == av@.subrange(ai as int, aj as int),
            sb == bv@.subrange(bi as int, bj as int),
            lex_cmp(sa.skip(k as int), sb.skip(k as int)) == lex_cmp(sa, sb),
        decreases aj - ai - k,
    {
        if ai + k == aj && bi + k == bj {
            return Ordering::Equal;
        }
        if ai + k == aj {
            return Ordering::Less;
        }
        if bi + k == bj {
            return Ordering::Greater;
        }
        let ca = av[ai + k];
        let cb = bv[bi + k];
        proof {
            assert(sa.skip(k as int)[0] == av@[ai + k]);
            assert(sb.skip(k as int)[0] == bv@[bi + k]);
        }
        if (ca as u32) < (cb as u32) {
            return Ordering::Less;
        } else if (ca as u32) > (cb as u32) {
            return Ordering::Greater;
        }
        proof {
            assert(sa.skip(k as int).skip(1) =~= sa.skip(k + 1 as int));
            assert(sb.skip(k as int).skip(1) =~= sb.skip(k + 1 as int));
        }
        k += 1;
    }
}

/// Compares two names in natural order.
fn natural_compare(a: &str, b: &str) -> (o: Ordering)
    ensures
        o == nat_cmp(a@, b@),
{
    let av = char_vec(a);
    let bv = char_vec(b);
    let an = av.len();
    let bn = bv.len();
    let mut i: usize = 0;
    let mut j: usize = 0;
    proof {
        assert(a@.skip(0) =~= a@);
        assert(b@.skip(0) =~= b@);
    }
    loop
        invariant
            i <= an,
            j <= bn,
            an == a@.len(),
            bn == b@.len(),
            av@ == a@,
            bv@ == b@,
            nat_cmp(a@.skip(i as int), b@.skip(j as int)) == nat_cmp(a@, b@),
        decreases an - i + bn - j,
    {
        if i == an && j == bn {
            return Ordering::Equal;
        }
        if i == an {
            return Ordering::Less;
        }
        if j == bn {
            return Ordering::Greater;
        }
        let ca = av[i];
        let cb = bv[j];
        let ca_d = (ca as u32) >= ('0' as u32) && (ca as u32) <= ('9' as u32);
        let cb_d = (cb as u32) >= ('0' as u32) && (cb as u32) <= ('9' as u32);
        let ghost sa = a@.skip(i as int);
        let ghost sb = b@.skip(j as int);
        if ca_d && cb_d {
            // the two maximal digit runs
            let mut ri: usize = i;
            while ri < an && (av[ri] as u32) >= ('0' as u32) && (av[ri] as u32) <= ('9' as u32)
                invariant
                    i <= ri <= an,
                    an == a@.len(),
                    av@ == a@,
                    forall|k: int| i <= k < ri ==> is_digit(a@[k]),
                decreases an - ri,
            {
                ri += 1;
            }
            let mut rj: usize = j;
            while rj < bn && (bv[rj] as u32) >= ('0' as u32) && (bv[rj] as u32) <= ('9' as u32)
                invariant
                    j <= rj <= bn,
                    bn == b@.len(),
                    bv@ == b@,
                    forall|k: int| j <= k < rj ==> is_digit(b@[k]),
                decreases bn - rj,
            {
                rj += 1;
            }
            proof {
                assert(forall|k: int| 0 <= k < ri - i ==> is_digit(sa[k]));
                if ri < an {
                    assert(sa[ri - i] == a@[ri as int]);
                }
                lemma_digit_run_at(sa, ri - i);
                assert(forall|k: int| 0 <= k < rj - j ==> is_digit(sb[k]));
                if rj < bn {
                    assert(sb[rj - j] == b@[rj as int]);
                }
                lemma_digit_run_at(sb, rj - j);
                assert(sa.take(ri - i) =~= a@.subrange(i as int, ri as int));
                assert(sb.take(rj - j) =~= b@.subrange(j as int, rj as int));
            }
            let ghost va = run_value(a@.subrange(i as int, ri as int));
            let ghost vb = run_value(b@.subrange(j as int, rj as int));
            // skip leading zeros so lengths can stand in for magnitudes
            let mut zi: usize = i;
            while zi < ri && av[zi] == '0'
                invariant
                    i <= zi <= ri <= an,
                    an == a@.len(),
                    av@ == a@,
                    forall|k: int| i <= k < ri ==> is_digit(a@[k]),
                    run_value(a@.subrange(zi as int, ri as int)) == va,
                decreases ri - zi,
            {
                proof {
                    let cur = a@.subrange(zi as int, ri as int);
                    assert(all_digits(cur));
                    assert(cur[0] == '0');
                    lemma_strip_zero(cur);
                    assert(cur.skip(1) =~= a@.subrange(zi + 1 as int, ri as int));
                }
                zi += 1;
            }
            let mut zj: usize = j;
            while zj < rj && bv[zj] == '0'
                invariant
                    j <= zj <= rj <= bn,
                    bn == b@.len(),
                    bv@ == b@,
                    forall|k: int| j <= k < rj ==> is_digit(b@[k]),
                    run_value(b@.subrange(zj as int, rj as int)) == vb,
                decreases rj - zj,
            {
                proof {
                    let cur = b@.subrange(zj as int, rj as int);
                    assert(all_digits(cur));
                    assert(cur[0] == '0');
                    lemma_strip_zero(cur);
                    assert(cur.skip(1) =~= b@.subrange(zj + 1 as int, rj as int));
                }
                zj += 1;
            }
            let ghost ua = a@.subrange(zi as int, ri as int);
            let ghost ub = b@.subrange(zj as int, rj as int);
            proof {
                assert(all_digits(ua));
                assert(all_digits(ub));
                assert(run_value(ua) == va);
                assert(run_value(ub) == vb);
                if zi < ri {
                    assert(ua[0] == a@[zi as int]);
                    assert(ua[0] != '0');
                }
                if zj < rj {
                    assert(ub[0] == b@[zj as int]);
                    assert(ub[0] != '0');
                }
            }
            let la = ri - zi;
            let lb = rj - zj;
            let ord: Ordering = if la < lb {
                proof {
                    lemma_value_lt_len(ua, ub);
                }
                Ordering::Less
            } else if la > lb {
                proof {
                    lemma_value_lt_len(ub, ua);
                }
                Ordering::Greater
            } else {
                let o = lex_cmp_range(&av, zi, ri, &bv, zj, rj);
                proof {
                    lemma_value_lex(ua, ub);
                }
                o
            };
            proof {
                assert(ord == int_cmp(va, vb));
                assert(nat_cmp(sa, sb) == (if va < vb {
                    Ordering::Less
                } else if va > vb {
                    Ordering::Greater
                } else {
                    nat_cmp(sa.skip(ri - i), sb.skip(rj - j))
                }));
            }
            match ord {
                Ordering::Equal => {
                    proof {
                        assert(sa.skip(ri - i) =~= a@.skip(ri as int));
                        assert(sb.skip(rj - j) =~= b@.skip(rj as int));
                    }
                    i = ri;
                    j = rj;
                },
                _ => {
                    return ord;
                },
            }
        } else {
            proof {
                assert(!(is_digit(sa[0]) && is_digit(sb[0])));
            }
            if (ca as u32) < (cb as u32) {
                return Ordering::Less;
            } else if (ca as u32) > (cb as u32) {
                return Ordering::Greater;
            }
            proof {
                assert(sa.skip(1) =~= a@.skip(i + 1 as int));
                assert(sb.skip(1) =~= b@.skip(j + 1 as int));
            }
            i += 1;
            j += 1;
        }
    }
}

/// Natural sort order: digit runs in names compare as numbers, other
/// characters compare as characters.
#[derive(Default, Debug, Clone, Copy, PartialEq, Eq)]
pub struct Natural;

impl SortStrategy for Natural {
    open spec fn cmp_spec(&self, a: Entry, b: Entry) -> Ordering {
        nat_cmp(a.spec_name(), b.spec_name())
    }

    proof fn lemma_flip(&self, a: Entry, b: Entry) {
        lemma_nat_flip(a.spec_name(), b.spec_name());
    }

    proof fn lemma_trans(&self, a: Entry, b: Entry, c: Entry) {
        lemma_nat_trans(a.spec_name(), b.spec_name(), c.spec_name());
    }

    fn compare(&self, a: &Entry, b: &Entry) -> (r: Ordering) {
        natural_compare(a.file_name(), b.file_name())
    }
}

/// The default strategy orders entries by their canonical path.
impl SortStrategy for () {
    open spec fn cmp_spec(&self, a: Entry, b: Entry) -> Ordering {
        lex_cmp(a.spec_path(), b.spec_path())
    }

    proof fn lemma_flip(&self, a: Entry, b: Entry) {
        lemma_lex_flip(a.spec_path(), b.spec_path());
    }

    proof fn lemma_trans(&self, a: Entry, b: Entry, c: Entry) {
        lemma_lex_trans(a.spec_path(), b.spec_path(), c.spec_path());
    }

    fn compare(&self, a: &Entry, b: &Entry) -> (r: Ordering) {
        compare_str(a.path(), b.path())
    }
}


// ---------------------------------------------------------------------------
// Keyed combinators: compare a key first, fall through to an inner strategy
// ---------------------------------------------------------------------------

/// A primary outcome, refined by a secondary one on ties.
pub open spec fn layered(primary: Ordering, secondary: Ordering) -> Ordering {
    if primary == Ordering::Equal {
        secondary
    } else {
        primary
    }
}

/// The extension key of an entry, as the extension-order combinator
/// sees it: entries without an extension come first, the rest compare
/// lexicographically.
pub open spec fn ext_key_cmp(a: Entry, b: Entry) -> Ordering {
    match (a.spec_extension(), b.spec_extension()) {
        (Some(f), Some(s)) => lex_cmp(f, s),
        (None, Some(s)) => Ordering::Less,
        (Some(f), None) => Ordering::Greater,
        (None, None) => Ordering::Equal,
    }
}

/// Orders by extension, no extension first, and defers ties to an inner
/// strategy.
#[derive(Debug, Clone, Copy, PartialEq, Eq)]
pub struct Extension<T = Natural>(pub T);

impl<T: Default> Default for Extension<T> {
    fn default() -> (r: Self) {
        Extension(T::default())
    }
}

impl<T: SortStrategy> SortStrategy for Extension<T> {
    open spec fn cmp_spec(&self, a: Entry, b: Entry) -> Ordering {
        layered(ext_key_cmp(a, b), self.0.cmp_spec(a, b))
    }

    proof fn lemma_flip(&self, a: Entry, b: Entry) {
        self.0.lemma_flip(a, b);
        match (a.spec_extension(), b.spec_extension()) {
            (Some(f), Some(s)) => {
                lemma_lex_flip(f, s);
            },
            _ => {},
        }
    }

    proof fn lemma_trans(&self, a: Entry, b: Entry, c: Entry) {
        let ea = a.spec_extension();
        let eb = b.spec_extension();
        let ec = c.spec_extension();
        if ext_key_cmp(a, b) == Ordering::Equal && ext_key_cmp(b, c) == Ordering::Equal {
            match (ea, eb, ec) {
                (Some(f), Some(s), Some(t)) => {
                    lemma_lex_eq(f, s);
                    lemma_lex_eq(s, t);
                    lemma_lex_eq(f, t);
                },
                _ => {},
            }
            self.0.lemma_trans(a, b, c);
        } else {
            match (ea, eb, ec) {
                (Some(f), Some(s), Some(t)) => {
                    lemma_lex_trans(f, s, t);
                    lemma_lex_eq(f, s);
                    lemma_lex_eq(s, t);
                    lemma_lex_eq(f, t);
                    if lex_cmp(f, t) == Ordering::Equal {
                        // then f == t, and the two premises squeeze s
                        lemma_lex_flip(f, s);
                        lemma_lex_flip(s, t);
                    }
                },
                _ => {},
            }
        }
    }

    fn compare(&self, a: &Entry, b: &Entry) -> (r: Ordering) {
        let fa = a.extension();
        let fb = b.extension();
        let key: Ordering = match (fa, fb) {
            (Some(f), Some(s)) => crate::text::compare_str(f.as_str(), s.as_str()),
            (None, Some(s)) => Ordering::Less,
            (Some(f), None) => Ordering::Greater,
            (None, None) => Ordering::Equal,
        };
        match key {
            Ordering::Equal => self.0.compare(a, b),
            _ => key,
        }
    }
}

/// The size key: byte counts, ascending.
pub open spec fn size_key_cmp(a: Entry, b: Entry) -> Ordering {
    int_cmp(a.spec_meta().size as int, b.spec_meta().size as int)
}

/// Orders by file size, smallest first, and defers ties to an inner
/// strategy.
#[derive(Debug, Clone, Copy, PartialEq, Eq)]
pub struct Size<T = Natural>(pub T);

impl<T: Default> Default for Size<T> {
    fn default() -> (r: Self) {
        Size(T::default())
    }
}

impl<T: SortStrategy> SortStrategy for Size<T> {
    open spec fn cmp_spec(&self, a: Entry, b: Entry) -> Ordering {
        layered(size_key_cmp(a, b), self.0.cmp_spec(a, b))
    }

    proof fn lemma_flip(&self, a: Entry, b: Entry) {
        self.0.lemma_flip(a, b);
    }

    proof fn lemma_trans(&self, a: Entry, b: Entry, c: Entry) {
        if size_key_cmp(a, b) == Ordering::Equal && size_key_cmp(b, c) == Ordering::Equal {
            self.0.lemma_trans(a, b, c);
        }
    }

    fn compare(&self, a: &Entry, b: &Entry) -> (r: Ordering) {
        let sa = a.metadata().file_size();
        let sb = b.metadata().file_size();
        if sa < sb {
            Ordering::Less
        } else if sa > sb {
            Ordering::Greater
        } else {
            self.0.compare(a, b)
        }
    }
}

/// Calendar-date order on timestamps.
pub open spec fn date_cmp(x: Timestamp, y: Timestamp) -> Ordering {
    if x.year != y.year {
        int_cmp(x.year as int, y.year as int)
    } else if x.month != y.month {
        int_cmp(x.month as int, y.month as int)
    } else {
        int_cmp(x.day as int, y.day as int)
    }
}

/// Time-of-day order on timestamps.
pub open spec fn time_cmp(x: Timestamp, y: Timestamp) -> Ordering {
    if x.hour != y.hour {
        int_cmp(x.hour as int, y.hour as int)
    } else if x.minute != y.minute {
        int_cmp(x.minute as int, y.minute as int)
    } else if x.second != y.second {
        int_cmp(x.second as int, y.second as int)
    } else {
        int_cmp(x.nanos as int, y.nanos as int)
    }
}

/// Instant order on timestamps.
pub open spec fn instant_cmp(x: Timestamp, y: Timestamp) -> Ordering {
    if x.unix != y.unix {
        int_cmp(x.unix as int, y.unix as int)
    } else {
        int_cmp(x.nanos as int, y.nanos as int)
    }
}

/// Compares modified instants under a given order on timestamps; an
/// entry whose modified time is unavailable sorts after one whose time
/// is known.
pub open spec fn modified_key_cmp(
    a: Entry,
    b: Entry,
    order: spec_fn(Timestamp, Timestamp) -> Ordering,
) -> Ordering {
    match (a.spec_meta().modified, b.spec_meta().modified) {
        (Some(x), Some(y)) => order(x, y),
        (Some(x), None) => Ordering::Less,
        (None, Some(y)) => Ordering::Greater,
        (None, None) => Ordering::Equal,
    }
}

/// Orders by the calendar date of the modified time; ties fall through.
#[derive(Debug, Clone, Copy, PartialEq, Eq)]
pub struct Date<T = Natural>(pub T);

impl<T: Default> Default for Date<T> {
    fn default() -> (r: Self) {
        Date(T::default())
    }
}

impl<T: SortStrategy> SortStrategy for Date<T> {
    open spec fn cmp_spec(&self, a: Entry, b: Entry) -> Ordering {
        layered(modified_key_cmp(a, b, |x: Timestamp, y: Timestamp| date_cmp(x, y)), self.0.cmp_spec(a, b))
    }

    proof fn lemma_flip(&self, a: Entry, b: Entry) {
        self.0.lemma_flip(a, b);
    }

    proof fn lemma_trans(&self, a: Entry, b: Entry, c: Entry) {
        let key = |x: Timestamp, y: Timestamp| date_cmp(x, y);
        if modified_key_cmp(a, b, key) == Ordering::Equal && modified_key_cmp(b, c, key)
            == Ordering::Equal {
            self.0.lemma_trans(a, b, c);
        }
    }

    fn compare(&self, a: &Entry, b: &Entry) -> (r: Ordering) {
        let key: Ordering = match (a.metadata().modified(), b.metadata().modified()) {
            (Some(x), Some(y)) => {
                if x.year != y.year {
                    if x.year < y.year { Ordering::Less } else { Ordering::Greater }
                } else if x.month != y.month {
                    if x.month < y.month { Ordering::Less } else { Ordering::Greater }
                } else if x.day != y.day {
                    if x.day < y.day { Ordering::Less } else { Ordering::Greater }
                } else {
                    Ordering::Equal
                }
            },
            (Some(x), None) => Ordering::Less,
            (None, Some(y)) => Ordering::Greater,
            (None, None) => Ordering::Equal,
        };
        match key {
            Ordering::Equal => self.0.compare(a, b),
            _ => key,
        }
    }
}

/// Orders by the time of day of the modified time; ties fall through.
#[derive(Debug, Clone, Copy, PartialEq, Eq)]
pub struct Time<T = Natural>(pub T);

impl<T: Default> Default for Time<T> {
    fn default() -> (r: Self) {
        Time(T::default())
    }
}

impl<T: SortStrategy> SortStrategy for Time<T> {
    open spec fn cmp_spec(&self, a: Entry, b: Entry) -> Ordering {
        layered(modified_key_cmp(a, b, |x: Timestamp, y: Timestamp| time_cmp(x, y)), self.0.cmp_spec(a, b))
    }

    proof fn lemma_flip(&self, a: Entry, b: Entry) {
        self.0.lemma_flip(a, b);
    }

    proof fn lemma_trans(&self, a: Entry, b: Entry, c: Entry) {
        let key = |x: Timestamp, y: Timestamp| time_cmp(x, y);
        if modified_key_cmp(a, b, key) == Ordering::Equal && modified_key_cmp(b, c, key)
            == Ordering::Equal {
            self.0.lemma_trans(a, b, c);
        }
    }

    fn compare(&self, a: &Entry, b: &Entry) -> (r: Ordering) {
        let key: Ordering = match (a.metadata().modified(), b.metadata().modified()) {
            (Some(x), Some(y)) => {
                if x.hour != y.hour {
                    if x.hour < y.hour { Ordering::Less } else { Ordering::Greater }
                } else if x.minute != y.minute {
                    if x.minute < y.minute { Ordering::Less } else { Ordering::Greater }
                } else if x.second != y.second {
                    if x.second < y.second { Ordering::Less } else { Ordering::Greater }
                } else if x.nanos != y.nanos {
                    if x.nanos < y.nanos { Ordering::Less } else { Ordering::Greater }
                } else {
                    Ordering::Equal
                }
            },
            (Some(x), None) => Ordering::Less,
            (None, Some(y)) => Ordering::Greater,
            (None, None) => Ordering::Equal,
        };
        match key {
            Ordering::Equal => self.0.compare(a, b),
            _ => key,
        }
    }
}

/// Orders by the modified instant itself; ties fall through.
#[derive(Debug, Clone, Copy, PartialEq, Eq)]
pub struct DateTime<T = Natural>(pub T);

impl<T: Default> Default for DateTime<T> {
    fn default() -> (r: Self) {
        DateTime(T::default())
    }
}

impl<T: SortStrategy> SortStrategy for DateTime<T> {
    open spec fn cmp_spec(&self, a: Entry, b: Entry) -> Ordering {
        layered(
            modified_key_cmp(a, b, |x: Timestamp, y: Timestamp| instant_cmp(x, y)),
            self.0.cmp_spec(a, b),
        )
    }

    proof fn lemma_flip(&self, a: Entry, b: Entry) {
        self.0.lemma_flip(a, b);
    }

    proof fn lemma_trans(&self, a: Entry, b: Entry, c: Entry) {
        let key = |x: Timestamp, y: Timestamp| instant_cmp(x, y);
        if modified_key_cmp(a, b, key) == Ordering::Equal && modified_key_cmp(b, c, key)
            == Ordering::Equal {
            self.0.lemma_trans(a, b, c);
        }
    }

    fn compare(&self, a: &Entry, b: &Entry) -> (r: Ordering) {
        let key: Ordering = match (a.metadata().modified(), b.metadata().modified()) {
            (Some(x), Some(y)) => {
                if x.unix != y.unix {
                    if x.unix < y.unix { Ordering::Less } else { Ordering::Greater }
                } else if x.nanos != y.nanos {
                    if x.nanos < y.nanos { Ordering::Less } else { Ordering::Greater }
                } else {
                    Ordering::Equal
                }
            },
            (Some(x), None) => Ordering::Less,
            (None, Some(y)) => Ordering::Greater,
            (None, None) => Ordering::Equal,
        };
        match key {
            Ordering::Equal => self.0.compare(a, b),
            _ => key,
        }
    }
}

/// Inverts the ordering of an inner strategy.
#[derive(Debug, Clone, Copy, PartialEq, Eq)]
pub struct Reverse<T = Natural>(pub T);

impl<T: Default> Default for Reverse<T> {
    fn default() -> (r: Self) {
        Reverse(T::default())
    }
}

impl<T: SortStrategy> SortStrategy for Reverse<T> {
    open spec fn cmp_spec(&self, a: Entry, b: Entry) -> Ordering {
        flip(self.0.cmp_spec(a, b))
    }

    proof fn lemma_flip(&self, a: Entry, b: Entry) {
        self.0.lemma_flip(a, b);
    }

    proof fn lemma_trans(&self, a: Entry, b: Entry, c: Entry) {
        self.0.lemma_flip(a, b);
        self.0.lemma_flip(b, c);
        self.0.lemma_flip(a, c);
        self.0.lemma_trans(c, b, a);
    }

    fn compare(&self, a: &Entry, b: &Entry) -> (r: Ordering) {
        match self.0.compare(a, b) {
            Ordering::Less => Ordering::Greater,
            Ordering::Equal => Ordering::Equal,
            Ordering::Greater => Ordering::Less,
        }
    }
}

/// Reversing twice restores the original ordering.
pub proof fn lemma_reverse_involution<S: SortStrategy>(s: S, a: Entry, b: Entry)
    ensures
        Reverse(Reverse(s)).cmp_spec(a, b) == s.cmp_spec(a, b),
{
}


// ---------------------------------------------------------------------------
// Stable sorting under a strategy
// ---------------------------------------------------------------------------

/// Stable insertion: the element goes behind every element it does not
/// have to precede.
pub open spec fn insert_ord<S: SortStrategy>(s: S, x: Entry, t: Seq<Entry>) -> Seq<Entry>
    decreases t.len(),
{
    if t.len() == 0 {
        seq![x]
    } else if s.cmp_spec(x, t[0]) == Ordering::Less {
        seq![x] + t
    } else {
        seq![t[0]] + insert_ord(s, x, t.skip(1))
    }
}

/// Stable insertion sort: what sorting a sequence under a strategy
/// means.
pub open spec fn sort_spec<S: SortStrategy>(s: S, input: Seq<Entry>) -> Seq<Entry>
    decreases input.len(),
{
    if input.len() == 0 {
        input
    } else {
        insert_ord(s, input.last(), sort_spec(s, input.drop_last()))
    }
}

/// A sequence in which no entry must precede an earlier one.
pub open spec fn sorted_by<S: SortStrategy>(s: S, t: Seq<Entry>) -> bool {
    forall|i: int, j: int| 0 <= i < j < t.len() ==> s.cmp_spec(t[i], t[j]) != Ordering::Greater
}

/// Where stable insertion puts an element: before the first entry it
/// must precede.
pub open spec fn ins_pos<S: SortStrategy>(s: S, x: Entry, t: Seq<Entry>) -> int
    decreases t.len(),
{
    if t.len() == 0 {
        0
    } else if s.cmp_spec(x, t[0]) == Ordering::Less {
        0
    } else {
        1 + ins_pos(s, x, t.skip(1))
    }
}

pub proof fn lemma_ins_pos<S: SortStrategy>(s: S, x: Entry, t: Seq<Entry>)
    ensures
        0 <= ins_pos(s, x, t) <= t.len(),
        forall|k: int| 0 <= k < ins_pos(s, x, t) ==> s.cmp_spec(x, t[k]) != Ordering::Less,
        ins_pos(s, x, t) < t.len() ==> s.cmp_spec(x, t[ins_pos(s, x, t)]) == Ordering::Less,
        insert_ord(s, x, t) == t.take(ins_pos(s, x, t)) + seq![x] + t.skip(ins_pos(s, x, t)),
    decreases t.len(),
{
    let p = ins_pos(s, x, t);
    if t.len() == 0 {
        assert(insert_ord(s, x, t) =~= t.take(0) + seq![x] + t.skip(0));
    } else if s.cmp_spec(x, t[0]) == Ordering::Less {
        assert(insert_ord(s, x, t) =~= t.take(0) + seq![x] + t.skip(0));
    } else {
        lemma_ins_pos(s, x, t.skip(1));
        let p1 = ins_pos(s, x, t.skip(1));
        assert(p == p1 + 1);
        assert forall|k: int| 0 <= k < p implies s.cmp_spec(x, t[k]) != Ordering::Less by {
            if k > 0 {
                assert(t.skip(1)[k - 1] == t[k]);
            }
        }
        if p < t.len() {
            assert(t.skip(1)[p1] == t[p]);
        }
        assert(insert_ord(s, x, t) == seq![t[0]] + insert_ord(s, x, t.skip(1)));
        assert(t.skip(1).take(p1) =~= t.subrange(1, p));
        assert(t.skip(1).skip(p1) =~= t.skip(p));
        assert(seq![t[0]] + (t.subrange(1, p) + seq![x] + t.skip(p)) =~= t.take(p) + seq![x]
            + t.skip(p));
    }
}

/// The insertion point is determined by its two defining properties.
pub proof fn lemma_ins_pos_unique<S: SortStrategy>(s: S, x: Entry, t: Seq<Entry>, p: int)
    requires
        0 <= p <= t.len(),
        forall|k: int| 0 <= k < p ==> s.cmp_spec(x, t[k]) != Ordering::Less,
        p < t.len() ==> s.cmp_spec(x, t[p]) == Ordering::Less,
    ensures
        ins_pos(s, x, t) == p,
{
    lemma_ins_pos(s, x, t);
    let q = ins_pos(s, x, t);
    if q < p {
        assert(s.cmp_spec(x, t[q]) == Ordering::Less);
        assert(s.cmp_spec(x, t[q]) != Ordering::Less);
    } else if p < q {
        assert(s.cmp_spec(x, t[p]) != Ordering::Less);
        assert(s.cmp_spec(x, t[p]) == Ordering::Less);
    }
}

/// Stable insertion into a sorted sequence keeps it sorted.
pub proof fn lemma_insert_sorted<S: SortStrategy>(s: S, x: Entry, t: Seq<Entry>)
    requires
        sorted_by(s, t),
    ensures
        sorted_by(s, insert_ord(s, x, t)),
        insert_ord(s, x, t).len() == t.len() + 1,
{
    lemma_ins_pos(s, x, t);
    let p = ins_pos(s, x, t);
    let r = insert_ord(s, x, t);
    assert forall|i: int, j: int| 0 <= i < j < r.len() implies s.cmp_spec(r[i], r[j])
        != Ordering::Greater by {
        if i < p && j == p {
            assert(r[i] == t[i]);
            assert(r[j] == x);
            s.lemma_flip(x, t[i]);
        } else if i == p && j > p {
            assert(r[i] == x);
            assert(r[j] == t[j - 1]);
            if j - 1 > p {
                s.lemma_trans(x, t[p], t[j - 1]);
            }
        } else if i < p && j > p {
            assert(r[i] == t[i]);
            assert(r[j] == t[j - 1]);
        } else if i < p && j < p {
            assert(r[i] == t[i]);
            assert(r[j] == t[j]);
        } else {
            assert(r[i] == t[i - 1]);
            assert(r[j] == t[j - 1]);
        }
    }
}

/// Sorting yields a sorted sequence of the same length.
pub proof fn lemma_sort_sorted<S: SortStrategy>(s: S, input: Seq<Entry>)
    ensures
        sorted_by(s, sort_spec(s, input)),
        sort_spec(s, input).len() == input.len(),
    decreases input.len(),
{
    if input.len() > 0 {
        lemma_sort_sorted(s, input.drop_last());
        lemma_insert_sorted(s, input.last(), sort_spec(s, input.drop_last()));
    }
}

proof fn lemma_filter_none<A>(t: Seq<A>, pred: spec_fn(A) -> bool)
    requires
        forall|k: int| 0 <= k < t.len() ==> !pred(t[k]),
    ensures
        t.filter(pred) == Seq::<A>::empty(),
    decreases t.len(),
{
    reveal(Seq::filter);
    if t.len() > 0 {
        lemma_filter_none(t.drop_last(), pred);
    }
}

proof fn lemma_filter_single<A>(x: A, pred: spec_fn(A) -> bool)
    ensures
        seq![x].filter(pred) == (if pred(x) {
            seq![x]
        } else {
            Seq::<A>::empty()
        }),
{
    reveal(Seq::filter);
    assert(seq![x].drop_last() =~= Seq::<A>::empty());
    assert(Seq::<A>::empty().filter(pred) == Seq::<A>::empty());
    assert(seq![x].last() == x);
    assert(Seq::<A>::empty().push(x) =~= seq![x]);
}

/// Stable insertion appends the new element at the end of its own
/// equivalence class and touches no other class.
pub proof fn lemma_insert_stable<S: SortStrategy>(s: S, x: Entry, t: Seq<Entry>, e: Entry)
    requires
        sorted_by(s, t),
    ensures
        insert_ord(s, x, t).filter(|y: Entry| s.cmp_spec(y, e) == Ordering::Equal) == t.filter(
            |y: Entry| s.cmp_spec(y, e) == Ordering::Equal,
        ) + (if s.cmp_spec(x, e) == Ordering::Equal {
            seq![x]
        } else {
            Seq::<Entry>::empty()
        }),
{
    let pred = |y: Entry| s.cmp_spec(y, e) == Ordering::Equal;
    lemma_ins_pos(s, x, t);
    let p = ins_pos(s, x, t);
    let r = insert_ord(s, x, t);
    let front = t.take(p);
    let back = t.skip(p);
    assert(r == front + seq![x] + back);
    Seq::filter_distributes_over_add(front + seq![x], back, pred);
    Seq::filter_distributes_over_add(front, seq![x], pred);
    Seq::filter_distributes_over_add(front, back, pred);
    assert(front + back =~= t);
    lemma_filter_single(x, pred);
    if s.cmp_spec(x, e) == Ordering::Equal {
        // nothing after the insertion point shares x's class
        assert forall|k: int| 0 <= k < back.len() implies !pred(back[k]) by {
            assert(back[k] == t[p + k]);
            if pred(t[p + k]) {
                // x and t[p + k] would both be equivalent to e, yet
                // x was inserted strictly before t[p + k]
                s.lemma_flip(x, e);
                s.lemma_flip(t[p + k], e);
                if k == 0 {
                    s.lemma_trans(t[p], e, x);
                    s.lemma_flip(x, t[p]);
                } else {
                    s.lemma_trans(t[p], t[p + k], e);
                    s.lemma_trans(t[p], e, x);
                    s.lemma_flip(x, t[p]);
                }
            }
        }
        lemma_filter_none(back, pred);
        assert(r.filter(pred) =~= t.filter(pred) + seq![x]);
    } else {
        assert(r.filter(pred) =~= t.filter(pred));
    }
}

/// Sorting is stable: within each equivalence class of the ordering,
/// entries keep the order the input gave them.
pub proof fn lemma_sort_stable<S: SortStrategy>(s: S, input: Seq<Entry>, e: Entry)
    ensures
        sort_spec(s, input).filter(|y: Entry| s.cmp_spec(y, e) == Ordering::Equal) == input.filter(
            |y: Entry| s.cmp_spec(y, e) == Ordering::Equal,
        ),
    decreases input.len(),
{
    let pred = |y: Entry| s.cmp_spec(y, e) == Ordering::Equal;
    if input.len() > 0 {
        let dl = input.drop_last();
        let x = input.last();
        lemma_sort_stable(s, dl, e);
        lemma_sort_sorted(s, dl);
        lemma_insert_stable(s, x, sort_spec(s, dl), e);
        assert(dl + seq![x] =~= input);
        Seq::filter_distributes_over_add(dl, seq![x], pred);
        lemma_filter_single(x, pred);
        if pred(x) {
            assert(sort_spec(s, input).filter(pred) =~= input.filter(pred));
        } else {
            assert(sort_spec(s, input).filter(pred) =~= input.filter(pred));
        }
    }
}

/// A sorted sequence is its own sort.
pub proof fn lemma_sort_of_sorted<S: SortStrategy>(s: S, t: Seq<Entry>)
    requires
        sorted_by(s, t),
    ensures
        sort_spec(s, t) == t,
    decreases t.len(),
{
    if t.len() > 0 {
        let dl = t.drop_last();
        let x = t.last();
        assert(sorted_by(s, dl)) by {
            assert forall|i: int, j: int| 0 <= i < j < dl.len() implies s.cmp_spec(dl[i], dl[j])
                != Ordering::Greater by {
                assert(dl[i] == t[i]);
                assert(dl[j] == t[j]);
            }
        }
        lemma_sort_of_sorted(s, dl);
        assert forall|k: int| 0 <= k < dl.len() implies s.cmp_spec(x, dl[k]) != Ordering::Less by {
            assert(s.cmp_spec(t[k], x) != Ordering::Greater);
            s.lemma_flip(x, t[k]);
        }
        lemma_ins_pos_unique(s, x, dl, dl.len() as int);
        lemma_ins_pos(s, x, dl);
        assert(dl.take(dl.len() as int) =~= dl);
        assert(dl.skip(dl.len() as int) =~= Seq::<Entry>::empty());
        assert(dl + seq![x] + Seq::<Entry>::empty() =~= t);
    }
}

/// Sorting twice is sorting once.
pub proof fn lemma_sort_idempotent<S: SortStrategy>(s: S, input: Seq<Entry>)
    ensures
        sort_spec(s, sort_spec(s, input)) == sort_spec(s, input),
{
    lemma_sort_sorted(s, input);
    lemma_sort_of_sorted(s, sort_spec(s, input));
}


/// Stable insertion only adds the new element to the collection.
proof fn lemma_insert_multiset<S: SortStrategy>(s: S, x: Entry, t: Seq<Entry>)
    ensures
        insert_ord(s, x, t).to_multiset() == t.to_multiset().insert(x),
{
    broadcast use vstd::seq_lib::group_to_multiset_ensures;
    broadcast use vstd::multiset::group_multiset_axioms;

    lemma_ins_pos(s, x, t);
    let p = ins_pos(s, x, t);
    let r = insert_ord(s, x, t);
    assert(r.remove(p) =~= t);
    assert(r[p] == x);
    assert(t.to_multiset() =~= r.to_multiset().remove(x));
    assert(r.contains(x)) by {
        assert(r[p] == x);
    }
    assert(r.to_multiset().count(x) > 0);
    assert(r.to_multiset() =~= t.to_multiset().insert(x));
}

/// Sorting permutes: the sorted sequence holds exactly the entries of
/// the input, kept with their multiplicities.
pub proof fn lemma_sort_permutation<S: SortStrategy>(s: S, input: Seq<Entry>)
    ensures
        sort_spec(s, input).to_multiset() == input.to_multiset(),
    decreases input.len(),
{
    broadcast use vstd::seq_lib::group_to_multiset_ensures;
    broadcast use vstd::multiset::group_multiset_axioms;

    if input.len() > 0 {
        let dl = input.drop_last();
        let x = input.last();
        lemma_sort_permutation(s, dl);
        lemma_insert_multiset(s, x, sort_spec(s, dl));
        assert(input =~= dl.push(x));
        assert(dl.push(x).to_multiset() =~= dl.to_multiset().insert(x));
    }
}

/// Every strategy is a total preorder: comparison of an entry with
/// itself is `Equal`, the two directions of a comparison mirror each
/// other, and strict order composes transitively.
pub proof fn lemma_total_order<S: SortStrategy>(s: &S, a: Entry, b: Entry, c: Entry)
    ensures
        s.cmp_spec(a, a) == Ordering::Equal,
        s.cmp_spec(a, b) == flip(s.cmp_spec(b, a)),
        s.cmp_spec(a, b) == Ordering::Less <==> s.cmp_spec(b, a) == Ordering::Greater,
        s.cmp_spec(a, b) == Ordering::Less && s.cmp_spec(b, c) == Ordering::Less ==> s.cmp_spec(
            a,
            c,
        ) == Ordering::Less,
{
    s.lemma_flip(a, a);
    s.lemma_flip(a, b);
    s.lemma_flip(b, c);
    s.lemma_flip(a, c);
    if s.cmp_spec(a, b) == Ordering::Less && s.cmp_spec(b, c) == Ordering::Less {
        s.lemma_trans(a, b, c);
        if s.cmp_spec(a, c) == Ordering::Equal {
            s.lemma_trans(c, a, b);
        }
    }
}

/// Sorts entries by the given strategy, stably.
pub fn sort_entries<S: SortStrategy>(entries: Vec<Entry>, sorter: &S) -> (out: Vec<Entry>)
    ensures
        out@ == sort_spec(*sorter, entries@),
{
    let ghost orig = entries@;
    let mut input = entries;
    let mut out: Vec<Entry> = Vec::new();
    let ghost mut done: int = 0;
    proof {
        assert(orig.skip(0) =~= orig);
        assert(orig.take(0) =~= Seq::<Entry>::empty());
    }
    while input.len() > 0
        invariant
            0 <= done <= orig.len(),
            input@ == orig.skip(done),
            out@ == sort_spec(*sorter, orig.take(done)),
        decreases input.len(),
    {
        let x = input.remove(0);
        proof {
            assert(x == orig.skip(done)[0]);
            assert(x == orig[done]);
            assert(orig.skip(done).skip(1) =~= orig.skip(done + 1));
            assert(input@ =~= orig.skip(done + 1));
        }
        let mut p: usize = 0;
        loop
            invariant
                p <= out.len(),
                forall|k: int| 0 <= k < p ==> sorter.cmp_spec(x, out@[k]) != Ordering::Less,
            ensures
                p <= out.len(),
                forall|k: int| 0 <= k < p ==> sorter.cmp_spec(x, out@[k]) != Ordering::Less,
                p == out.len() || sorter.cmp_spec(x, out@[p as int]) == Ordering::Less,
            decreases out.len() - p,
        {
            if p == out.len() {
                break;
            }
            let c = sorter.compare(&x, &out[p]);
            if matches!(c, Ordering::Less) {
                break;
            }
            p += 1;
        }
        proof {
            lemma_ins_pos_unique(*sorter, x, out@, p as int);
            lemma_ins_pos(*sorter, x, out@);
            assert(orig.take(done + 1).drop_last() =~= orig.take(done));
            assert(orig.take(done + 1).last() == orig[done]);
            assert(sort_spec(*sorter, orig.take(done + 1)) == insert_ord(*sorter, x, out@));
        }
        let ghost old_out = out@;
        out.insert(p, x);
        proof {
            assert(out@ =~= old_out.take(p as int) + seq![x] + old_out.skip(p as int));
            done = done + 1;
        }
    }
    proof {
        assert(orig.take(done) =~= orig);
    }
    out
}


// ---------------------------------------------------------------------------
// Grouped ordering
// ---------------------------------------------------------------------------

/// Strategies that also name a group of entries they apply to.
pub trait Matches {
    /// Membership in this strategy's group.
    spec fn matches_spec(entry: Entry) -> bool;

    /// Tests membership.
    fn matches(entry: &Entry) -> (r: bool)
        ensures
            r == Self::matches_spec(*entry),
    ;
}

impl Matches for Natural {
    open spec fn matches_spec(entry: Entry) -> bool {
        true
    }

    fn matches(entry: &Entry) -> (r: bool) {
        true
    }
}

impl Matches for () {
    open spec fn matches_spec(entry: Entry) -> bool {
        true
    }

    fn matches(entry: &Entry) -> (r: bool) {
        true
    }
}

impl<T> Matches for Extension<T> {
    open spec fn matches_spec(entry: Entry) -> bool {
        entry.spec_extension() is Some
    }

    fn matches(entry: &Entry) -> (r: bool) {
        entry.extension().is_some()
    }
}

/// A partition of entries into indexed groups, each with its own
/// ordering.
pub trait Grouping: Sized {
    /// The index of the first group the entry belongs to.
    spec fn group_index_spec(entry: Entry) -> Option<usize>;

    /// Finds that index.
    fn get_group_index(entry: &Entry) -> (r: Option<usize>)
        ensures
            r == Self::group_index_spec(*entry),
    ;

    /// The ordering inside one group.
    spec fn within_spec(&self, index: usize, a: Entry, b: Entry) -> Ordering;

    /// Each group's ordering mirrors under swapping.
    proof fn lemma_within_flip(&self, index: usize, a: Entry, b: Entry)
        ensures
            self.within_spec(index, a, b) == flip(self.within_spec(index, b, a)),
    ;

    /// Each group's ordering is transitive.
    proof fn lemma_within_trans(&self, index: usize, a: Entry, b: Entry, c: Entry)
        requires
            self.within_spec(index, a, b) != Ordering::Greater,
            self.within_spec(index, b, c) != Ordering::Greater,
        ensures
            self.within_spec(index, a, c) != Ordering::Greater,
    ;

    /// Compares two entries of one group.
    fn compare_within_group(&self, index: usize, a: &Entry, b: &Entry) -> (r: Ordering)
        ensures
            r == self.within_spec(index, *a, *b),
    ;
}

/// A pair of group-naming strategies partitions entries into the first
/// group that claims them.
impl<T1: SortStrategy + Matches, T2: SortStrategy + Matches> Grouping for (T1, T2) {
    open spec fn group_index_spec(entry: Entry) -> Option<usize> {
        if T1::matches_spec(entry) {
            Some(0usize)
        } else if T2::matches_spec(entry) {
            Some(1usize)
        } else {
            None
        }
    }

    fn get_group_index(entry: &Entry) -> (r: Option<usize>) {
        if T1::matches(entry) {
            Some(0)
        } else if T2::matches(entry) {
            Some(1)
        } else {
            None
        }
    }

    open spec fn within_spec(&self, index: usize, a: Entry, b: Entry) -> Ordering {
        if index == 0 {
            self.0.cmp_spec(a, b)
        } else if index == 1 {
            self.1.cmp_spec(a, b)
        } else {
            Ordering::Equal
        }
    }

    proof fn lemma_within_flip(&self, index: usize, a: Entry, b: Entry) {
        if index == 0 {
            self.0.lemma_flip(a, b);
        } else if index == 1 {
            self.1.lemma_flip(a, b);
        }
    }

    proof fn lemma_within_trans(&self, index: usize, a: Entry, b: Entry, c: Entry) {
        if index == 0 {
            self.0.lemma_trans(a, b, c);
        } else if index == 1 {
            self.1.lemma_trans(a, b, c);
        }
    }

    fn compare_within_group(&self, index: usize, a: &Entry, b: &Entry) -> (r: Ordering) {
        if index == 0 {
            self.0.compare(a, b)
        } else if index == 1 {
            self.1.compare(a, b)
        } else {
            Ordering::Equal
        }
    }
}

/// Orders by group first: entries of lower-indexed groups come first,
/// each group is ordered by its own strategy, and entries outside every
/// group come last, ordered by the fallback.
#[derive(Debug, Clone, Copy, PartialEq, Eq)]
pub struct Group<T, D = Natural>(pub T, pub D);

impl<T: Default, D: Default> Default for Group<T, D> {
    fn default() -> (r: Self) {
        Group(T::default(), D::default())
    }
}

impl<T: Grouping, D: SortStrategy> SortStrategy for Group<T, D> {
    open spec fn cmp_spec(&self, a: Entry, b: Entry) -> Ordering {
        match (T::group_index_spec(a), T::group_index_spec(b)) {
            (Some(f), Some(s)) => if f < s {
                Ordering::Less
            } else if f > s {
                Ordering::Greater
            } else {
                self.0.within_spec(f, a, b)
            },
            (None, Some(s)) => Ordering::Greater,
            (Some(f), None) => Ordering::Less,
            (None, None) => self.1.cmp_spec(a, b),
        }
    }

    proof fn lemma_flip(&self, a: Entry, b: Entry) {
        self.1.lemma_flip(a, b);
        match (T::group_index_spec(a), T::group_index_spec(b)) {
            (Some(f), Some(s)) => {
                if f == s {
                    self.0.lemma_within_flip(f, a, b);
                }
            },
            _ => {},
        }
    }

    proof fn lemma_trans(&self, a: Entry, b: Entry, c: Entry) {
        match (T::group_index_spec(a), T::group_index_spec(b), T::group_index_spec(c)) {
            (Some(f), Some(s), Some(t)) => {
                if f == s && s == t {
                    self.0.lemma_within_trans(f, a, b, c);
                }
            },
            (None, None, None) => {
                self.1.lemma_trans(a, b, c);
            },
            _ => {},
        }
    }

    fn compare(&self, a: &Entry, b: &Entry) -> (r: Ordering) {
        match (T::get_group_index(a), T::get_group_index(b)) {
            (Some(f), Some(s)) => if f < s {
                Ordering::Less
            } else if f > s {
                Ordering::Greater
            } else {
                self.0.compare_within_group(f, a, b)
            },
            (None, Some(s)) => Ordering::Greater,
            (Some(f), None) => Ordering::Less,
            (None, None) => self.1.compare(a, b),
        }
    }
}


/// Values that may carry one character and can say whether it is an
/// ASCII digit.
pub trait IterChar {
    /// Whether the value holds an ASCII digit.
    spec fn spec_is_ascii_digit(&self) -> bool;

    /// Tests for an ASCII digit.
    fn is_ascii_digit(&self) -> (r: bool)
        ensures
            r == self.spec_is_ascii_digit(),
    ;
}

impl IterChar for Option<char> {
    open spec fn spec_is_ascii_digit(&self) -> bool {
        (*self) matches Some(c) && is_digit(c)
    }

    fn is_ascii_digit(&self) -> (r: bool) {
        match self {
            Some(c) => (*c as u32) >= ('0' as u32) && (*c as u32) <= ('9' as u32),
            None => false,
        }
    }
}

impl<'a> IterChar for Option<&'a char> {
    open spec fn spec_is_ascii_digit(&self) -> bool {
        (*self) matches Some(c) && is_digit(*c)
    }

    fn is_ascii_digit(&self) -> (r: bool) {
        match self {
            Some(c) => (**c as u32) >= ('0' as u32) && (**c as u32) <= ('9' as u32),
            None => false,
        }
    }
}

} // verus!
