use vstd::prelude::*;
use vstd::string::{StrSliceExecFns, StringExecFns};
use crate::regexp::{regex_pattern_ok, regex_matches, regex_valid, regex_is_match};
use crate::text::{char_vec, chars_sub, string_from_chars, str_eq, push_char};

verus! {

// ---------------------------------------------------------------------------
// What an ignore file means
// ---------------------------------------------------------------------------

/// Whitespace that trimming removes from line ends.
pub open spec fn is_space(c: char) -> bool {
    c == ' ' || c == '\t' || c == '\r'
}

/// A line without its leading whitespace.
pub open spec fn trim_front(s: Seq<char>) -> Seq<char>
    decreases s.len(),
{
    if s.len() > 0 && is_space(s[0]) {
        trim_front(s.skip(1))
    } else {
        s
    }
}

/// A line without its trailing whitespace.
pub open spec fn trim_back(s: Seq<char>) -> Seq<char>
    decreases s.len(),
{
    if s.len() > 0 && is_space(s.last()) {
        trim_back(s.drop_last())
    } else {
        s
    }
}

/// A line without leading and trailing whitespace.
pub open spec fn trim_spec(s: Seq<char>) -> Seq<char> {
    trim_back(trim_front(s))
}

/// The position of the first newline, if any.
pub open spec fn first_nl(s: Seq<char>) -> Option<int>
    decreases s.len(),
{
    if s.len() == 0 {
        None
    } else if s[0] == '\n' {
        Some(0)
    } else {
        match first_nl(s.skip(1)) {
            Some(i) => Some(i + 1),
            None => None,
        }
    }
}

pub proof fn lemma_first_nl_bounds(s: Seq<char>)
    ensures
        first_nl(s) matches Some(i) ==> 0 <= i < s.len() && s[i] == '\n',
    decreases s.len(),
{
    if s.len() > 0 && s[0] != '\n' {
        lemma_first_nl_bounds(s.skip(1));
    }
}

/// The text split at its newlines.
pub open spec fn split_lines(s: Seq<char>) -> Seq<Seq<char>>
    decreases s.len(),
    via split_lines_decreases
{
    match first_nl(s) {
        None => seq![s],
        Some(i) => seq![s.take(i)] + split_lines(s.skip(i + 1)),
    }
}

#[via_fn]
proof fn split_lines_decreases(s: Seq<char>) {
    lemma_first_nl_bounds(s);
}

/// The first newline is where the scan says it is.
pub proof fn lemma_first_nl_at(s: Seq<char>, j: int)
    requires
        0 <= j <= s.len(),
        forall|k: int| 0 <= k < j ==> s[k] != '\n',
        j == s.len() || s[j] == '\n',
    ensures
        first_nl(s) == (if j == s.len() {
            None::<int>
        } else {
            Some(j)
        }),
    decreases s.len(),
{
    if s.len() == 0 {
    } else if j == 0 {
    } else {
        assert(s[0] != '\n');
        assert forall|k: int| 0 <= k < j - 1 implies s.skip(1)[k] != '\n' by {
            assert(s.skip(1)[k] == s[k + 1]);
        }
        if j < s.len() {
            assert(s.skip(1)[j - 1] == s[j]);
        }
        lemma_first_nl_at(s.skip(1), j - 1);
    }
}

/// Whether the trimmed line is dropped: empty lines and comments.
pub open spec fn line_skipped(t: Seq<char>) -> bool {
    t.len() == 0 || t[0] == '#'
}

/// Whether the trimmed line names a path to include again.
pub open spec fn line_included(t: Seq<char>) -> bool {
    t.len() > 0 && t[0] == '!'
}

/// A pattern without one leading and one trailing slash.
pub open spec fn strip_slashes(t: Seq<char>) -> Seq<char> {
    let a = if t.len() > 0 && t[0] == '/' {
        t.skip(1)
    } else {
        t
    };
    if a.len() > 0 && a.last() == '/' {
        a.drop_last()
    } else {
        a
    }
}

/// The regex text a pattern turns into: dots are escaped, `**/` may
/// swallow any run of directories, a bare `**` matches anything, and a
/// single `*` matches within one path component.
pub open spec fn translate_spec(p: Seq<char>) -> Seq<char>
    decreases p.len(),
{
    if p.len() == 0 {
        Seq::empty()
    } else if p.len() >= 3 && p[0] == '*' && p[1] == '*' && p[2] == '/' {
        "(?:.*/)?"@ + translate_spec(p.skip(3))
    } else if p.len() >= 2 && p[0] == '*' && p[1] == '*' {
        ".*"@ + translate_spec(p.skip(2))
    } else if p[0] == '*' {
        "[^/\\\\]+"@ + translate_spec(p.skip(1))
    } else if p[0] == '.' {
        "\\."@ + translate_spec(p.skip(1))
    } else {
        seq![p[0]] + translate_spec(p.skip(1))
    }
}

/// The anchored exclusion regex of a pattern line.
pub open spec fn exclude_text(t: Seq<char>) -> Seq<char> {
    seq!['^'] + translate_spec(strip_slashes(t)) + seq!['$']
}

/// The include paths an ignore text names, in order.
pub open spec fn includes_of(lines: Seq<Seq<char>>) -> Seq<Seq<char>>
    decreases lines.len(),
{
    if lines.len() == 0 {
        Seq::empty()
    } else {
        let t = trim_spec(lines[0]);
        let rest = includes_of(lines.skip(1));
        if line_included(t) {
            seq![t.skip(1)] + rest
        } else {
            rest
        }
    }
}

/// The exclusion regexes an ignore text names, in order.
pub open spec fn excludes_of(lines: Seq<Seq<char>>) -> Seq<Seq<char>>
    decreases lines.len(),
{
    if lines.len() == 0 {
        Seq::empty()
    } else {
        let t = trim_spec(lines[0]);
        let rest = excludes_of(lines.skip(1));
        if line_skipped(t) || line_included(t) {
            rest
        } else {
            seq![exclude_text(t)] + rest
        }
    }
}

/// The views of a list of strings.
pub open spec fn seq_views(ss: Seq<String>) -> Seq<Seq<char>> {
    ss.map_values(|s: String| s@)
}

/// Whether one of the strings holds exactly the given characters.
pub open spec fn path_listed(ss: Seq<String>, p: Seq<char>) -> bool {
    exists|i: int| 0 <= i < ss.len() && ss[i]@ == p
}

/// A path with its separators turned forward and one slash stripped
/// from each end.
pub open spec fn normalize_path(p: Seq<char>) -> Seq<char> {
    strip_slashes(p.map_values(|c: char| if c == '\\' { '/' } else { c }))
}

// ---------------------------------------------------------------------------
// Trimming, exec side
// ---------------------------------------------------------------------------

proof fn lemma_trim_front_at(s: Seq<char>, a: int)
    requires
        0 <= a <= s.len(),
        forall|k: int| 0 <= k < a ==> is_space(s[k]),
        a == s.len() || !is_space(s[a]),
    ensures
        trim_front(s) == s.skip(a),
    decreases s.len(),
{
    if a == 0 {
        assert(s.skip(0) =~= s);
    } else {
        assert(is_space(s[0]));
        assert forall|k: int| 0 <= k < a - 1 implies is_space(s.skip(1)[k]) by {
            assert(s.skip(1)[k] == s[k + 1]);
        }
        if a < s.len() {
            assert(s.skip(1)[a - 1] == s[a]);
        }
        lemma_trim_front_at(s.skip(1), a - 1);
        assert(s.skip(1).skip(a - 1) =~= s.skip(a));
    }
}

proof fn lemma_trim_back_at(s: Seq<char>, b: int)
    requires
        0 <= b <= s.len(),
        forall|k: int| b <= k < s.len() ==> is_space(s[k]),
        b == 0 || !is_space(s[b - 1]),
    ensures
        trim_back(s) == s.take(b),
    decreases s.len(),
{
    if b == s.len() {
        assert(s.take(b) =~= s);
    } else {
        assert(is_space(s.last()));
        lemma_trim_back_at(s.drop_last(), b);
        assert(s.drop_last().take(b) =~= s.take(b));
    }
}

// ---------------------------------------------------------------------------
// The rules themselves
// ---------------------------------------------------------------------------

/// Path-exclusion rules in the ignore-file dialect: pattern lines
/// exclude what they match, `!`-lines bring single paths back in.
#[derive(Debug)]
pub struct GitIgnore {
    included: Vec<String>,
    exclude: Vec<String>,
}

impl GitIgnore {
    #[verifier::type_invariant]
    spec fn wf(self) -> bool {
        forall|i: int| 0 <= i < self.exclude@.len() ==> regex_pattern_ok(self.exclude@[i]@)
    }

    pub closed spec fn spec_includes(&self) -> Seq<String> {
        self.included@
    }

    pub closed spec fn spec_excludes(&self) -> Seq<String> {
        self.exclude@
    }

    /// How many exclusion patterns were read.
    pub fn exclude_len(&self) -> (r: usize)
        ensures
            r == self.spec_excludes().len(),
    {
        self.exclude.len()
    }

    /// How many include paths were read.
    pub fn include_len(&self) -> (r: usize)
        ensures
            r == self.spec_includes().len(),
    {
        self.included.len()
    }

    /// Whether the rules let a path through: a path named by an
    /// include line always passes; otherwise the path, normalized to
    /// forward slashes and bare of outer slashes, must match no
    /// exclusion regex.
    pub open spec fn include_spec(self, path: Seq<char>) -> bool {
        if path_listed(self.spec_includes(), path) {
            true
        } else {
            forall|i: int|
                0 <= i < self.spec_excludes().len() ==> !regex_matches(
                    self.spec_excludes()[i]@,
                    normalize_path(path),
                )
        }
    }

    /// Decides whether the rules let the path through.
    pub fn includes(&self, path: &str) -> (r: bool)
        ensures
            r == self.include_spec(path@),
    {
        proof {
            use_type_invariant(self);
        }
        // an explicit include wins
        let mut i: usize = 0;
        while i < self.included.len()
            invariant
                i <= self.spec_includes().len(),
                forall|k: int| 0 <= k < i ==> self.spec_includes()[k]@ != path@,
            decreases self.spec_includes().len() - i,
        {
            if str_eq(self.included[i].as_str(), path) {
                proof {
                    assert(self.spec_includes()[i as int]@ == path@);
                    assert(path_listed(self.spec_includes(), path@));
                }
                return true;
            }
            i += 1;
        }
        proof {
            if path_listed(self.spec_includes(), path@) {
                let k = choose|k: int|
                    0 <= k < self.spec_includes().len() && self.spec_includes()[k]@ == path@;
                assert(self.spec_includes()[k]@ != path@);
            }
        }
        // normalize the path
        let cs = char_vec(path);
        let mut norm: Vec<char> = Vec::new();
        let mut k: usize = 0;
        let ghost mapped = path@.map_values(|c: char| if c == '\\' { '/' } else { c });
        while k < cs.len()
            invariant
                k <= cs.len(),
                cs@ == path@,
                !path_listed(self.spec_includes(), path@),
                mapped == path@.map_values(|c: char| if c == '\\' { '/' } else { c }),
                norm@ == mapped.take(k as int),
            decreases cs.len() - k,
        {
            let c = cs[k];
            norm.push(if c == '\\' { '/' } else { c });
            proof {
                assert(norm@ =~= mapped.take(k + 1 as int));
            }
            k += 1;
        }
        proof {
            assert(norm@ =~= mapped);
        }
        let mut a: usize = 0;
        let mut b: usize = norm.len();
        if b > 0 && norm[0] == '/' {
            a = 1;
        }
        if b > a && norm[b - 1] == '/' {
            b = b - 1;
        }
        let core = chars_sub(&norm, a, b);
        proof {
            assert(core@ =~= strip_slashes(mapped)) by {
                let st1 = if mapped.len() > 0 && mapped[0] == '/' {
                    mapped.skip(1)
                } else {
                    mapped
                };
                assert(st1 =~= mapped.subrange(a as int, mapped.len() as int));
                if st1.len() > 0 && st1.last() == '/' {
                    assert(st1.drop_last() =~= mapped.subrange(a as int, b as int));
                } else {
                    assert(st1 =~= mapped.subrange(a as int, b as int));
                }
            }
        }
        let norm_str = string_from_chars(&core);
        // test every exclusion pattern
        let mut j: usize = 0;
        while j < self.exclude.len()
            invariant
                j <= self.spec_excludes().len(),
                self.wf(),
                !path_listed(self.spec_includes(), path@),
                norm_str@ == normalize_path(path@),
                forall|k2: int|
                    0 <= k2 < j ==> !regex_matches(
                        self.spec_excludes()[k2]@,
                        normalize_path(path@),
                    ),
            decreases self.spec_excludes().len() - j,
        {
            if regex_is_match(self.exclude[j].as_str(), norm_str.as_str()) {
                proof {
                    assert(regex_matches(self.spec_excludes()[j as int]@, normalize_path(path@)));
                }
                return false;
            }
            j += 1;
        }
        true
    }
}

impl Default for GitIgnore {
    /// No rules: everything passes.
    fn default() -> (r: Self)
        ensures
            r.spec_includes() == Seq::<String>::empty(),
            r.spec_excludes() == Seq::<String>::empty(),
    {
        GitIgnore { included: Vec::new(), exclude: Vec::new() }
    }
}


impl GitIgnore {
    /// Reads the rules from an ignore file's text, line by line: blank
    /// lines and `#` comments are dropped, `!`-lines collect include
    /// paths, and every other line becomes an anchored exclusion regex.
    /// A pattern the regex engine refuses is reported as its error text.
    #[verifier::rlimit(100)]
    pub fn parse(s: &str) -> (r: Result<GitIgnore, String>)
        ensures
            r matches Ok(g) ==> {
                &&& seq_views(g.spec_includes()) == includes_of(split_lines(s@))
                &&& seq_views(g.spec_excludes()) == excludes_of(split_lines(s@))
            },
            r is Ok <==> (forall|i: int|
                0 <= i < excludes_of(split_lines(s@)).len() ==> regex_pattern_ok(
                    #[trigger] excludes_of(split_lines(s@))[i],
                )),
    {
        let cs = char_vec(s);
        let n = cs.len();
        let mut included: Vec<String> = Vec::new();
        let mut exclude: Vec<String> = Vec::new();
        let mut pos: usize = 0;
        proof {
            assert(s@.skip(0) =~= s@);
            assert(seq_views(included@) =~= Seq::<Seq<char>>::empty());
            assert(seq_views(exclude@) =~= Seq::<Seq<char>>::empty());
            assert(includes_of(split_lines(s@)) =~= seq_views(included@) + includes_of(
                split_lines(s@.skip(0)),
            ));
            assert(excludes_of(split_lines(s@)) =~= seq_views(exclude@) + excludes_of(
                split_lines(s@.skip(0)),
            ));
        }
        loop
            invariant_except_break
                pos <= n,
                n == s@.len(),
                cs@ == s@,
                includes_of(split_lines(s@)) == seq_views(included@) + includes_of(
                    split_lines(s@.skip(pos as int)),
                ),
                excludes_of(split_lines(s@)) == seq_views(exclude@) + excludes_of(
                    split_lines(s@.skip(pos as int)),
                ),
                forall|k: int| 0 <= k < exclude@.len() ==> regex_pattern_ok(exclude@[k]@),
            ensures
                seq_views(included@) == includes_of(split_lines(s@)),
                seq_views(exclude@) == excludes_of(split_lines(s@)),
                forall|k: int| 0 <= k < exclude@.len() ==> regex_pattern_ok(exclude@[k]@),
            decreases n - pos,
        {
            let ghost rest = s@.skip(pos as int);
            // find the end of the current line
            let mut nl: usize = pos;
            while nl < n && cs[nl] != '\n'
                invariant
                    pos <= nl <= n,
                    n == s@.len(),
                    cs@ == s@,
                    forall|k: int| pos <= k < nl ==> s@[k] != '\n',
                decreases n - nl,
            {
                nl += 1;
            }
            let ghost lines = split_lines(rest);
            let ghost line = s@.subrange(pos as int, nl as int);
            proof {
                assert forall|k: int| 0 <= k < nl - pos implies rest[k] != '\n' by {
                    assert(rest[k] == s@[pos + k]);
                }
                if nl < n {
                    assert(rest[nl - pos] == s@[nl as int]);
                }
                lemma_first_nl_at(rest, nl - pos);
                assert(rest.take(nl - pos) =~= line);
                if nl < n {
                    assert(rest.skip(nl - pos + 1) =~= s@.skip(nl + 1));
                    assert(lines == seq![line] + split_lines(s@.skip(nl + 1)));
                } else {
                    assert(rest =~= line);
                    assert(lines == seq![line]);
                }
            }
            let ghost tail_lines = if nl < n {
                split_lines(s@.skip(nl + 1))
            } else {
                Seq::<Seq<char>>::empty()
            };
            // trim the line
            let mut a: usize = pos;
            while a < nl && (cs[a] == ' ' || cs[a] == '\t' || cs[a] == '\r')
                invariant
                    pos <= a <= nl <= n,
                    n == s@.len(),
                    cs@ == s@,
                    forall|k: int| pos <= k < a ==> is_space(s@[k]),
                decreases nl - a,
            {
                a += 1;
            }
            let mut b: usize = nl;
            while b > a && (cs[b - 1] == ' ' || cs[b - 1] == '\t' || cs[b - 1] == '\r')
                invariant
                    a <= b <= nl <= n,
                    n == s@.len(),
                    cs@ == s@,
                    forall|k: int| b <= k < nl ==> is_space(s@[k]),
                decreases b,
            {
                b -= 1;
            }
            let ghost t = trim_spec(line);
            proof {
                assert forall|k: int| 0 <= k < a - pos implies is_space(line[k]) by {
                    assert(line[k] == s@[pos + k]);
                }
                if a < nl {
                    assert(line[a - pos] == s@[a as int]);
                    assert(!is_space(line[a - pos]));
                }
                lemma_trim_front_at(line, a - pos);
                let mid = s@.subrange(a as int, nl as int);
                assert(line.skip(a - pos) =~= mid);
                assert forall|k: int| b - a <= k < mid.len() implies is_space(mid[k]) by {
                    assert(mid[k] == s@[a + k]);
                }
                if b > a {
                    assert(mid[b - a - 1] == s@[b - 1]);
                    assert(!is_space(mid[b - a - 1]));
                }
                lemma_trim_back_at(mid, b - a);
                assert(t =~= s@.subrange(a as int, b as int));
            }
            // classify the trimmed line
            if a == b || cs[a] == '#' {
                proof {
                    assert(line_skipped(t));
                    assert(includes_of(lines) =~= includes_of(lines.skip(1))) by {
                        assert(lines[0] == line);
                        assert(trim_spec(lines[0]) == t);
                    }
                    assert(excludes_of(lines) =~= excludes_of(lines.skip(1))) by {
                        assert(lines[0] == line);
                        assert(trim_spec(lines[0]) == t);
                    }
                    assert(lines.skip(1) =~= tail_lines);
                }
            } else if cs[a] == '!' {
                let body = chars_sub(&cs, a + 1, b);
                let entry = string_from_chars(&body);
                let ghost inc0 = included@;
                included.push(entry);
                proof {
                    assert(t[0] == s@[a as int]);
                    assert(line_included(t));
                    assert(t.skip(1) =~= s@.subrange(a + 1, b as int));
                    assert(entry@ == t.skip(1));
                    assert(seq_views(included@) =~= seq_views(inc0).push(t.skip(1)));
                    assert(includes_of(lines) =~= seq![t.skip(1)] + includes_of(lines.skip(1))) by {
                        assert(lines[0] == line);
                        assert(trim_spec(lines[0]) == t);
                    }
                    assert(excludes_of(lines) =~= excludes_of(lines.skip(1))) by {
                        assert(lines[0] == line);
                        assert(trim_spec(lines[0]) == t);
                    }
                    assert(lines.skip(1) =~= tail_lines);
                    assert(seq_views(inc0).push(t.skip(1)) + includes_of(tail_lines) =~= seq_views(
                        inc0,
                    ) + (seq![t.skip(1)] + includes_of(tail_lines)));
                }
            } else {
                // a pattern line: strip one slash from each end
                let mut sa: usize = a;
                let mut sb: usize = b;
                if cs[sa] == '/' {
                    sa += 1;
                }
                if sb > sa && cs[sb - 1] == '/' {
                    sb -= 1;
                }
                let ghost core = strip_slashes(t);
                proof {
                    assert(t[0] == s@[a as int]);
                    assert(!line_skipped(t) && !line_included(t));
                    let st1 = if t.len() > 0 && t[0] == '/' {
                        t.skip(1)
                    } else {
                        t
                    };
                    assert(st1 =~= s@.subrange(sa as int, b as int));
                    if st1.len() > 0 && st1.last() == '/' {
                        assert(st1.last() == s@[b - 1]);
                        assert(core =~= s@.subrange(sa as int, sb as int));
                    } else {
                        assert(core =~= s@.subrange(sa as int, sb as int));
                    }
                }
                // translate the pattern into a regex
                let mut pat = String::new();
                push_char(&mut pat, '^');
                let mut k: usize = sa;
                proof {
                    assert(s@.subrange(k as int, sb as int) =~= core);
                    assert(pat@ + translate_spec(core) =~= seq!['^'] + translate_spec(core));
                }
                while k < sb
                    invariant
                        sa <= k <= sb <= n,
                        n == s@.len(),
                        cs@ == s@,
                        core == s@.subrange(sa as int, sb as int),
                        pat@ + translate_spec(s@.subrange(k as int, sb as int)) == seq!['^']
                            + translate_spec(core),
                    decreases sb - k,
                {
                    let ghost cur = s@.subrange(k as int, sb as int);
                    let c = cs[k];
                    proof {
                        assert(cur[0] == s@[k as int]);
                        if k + 1 < sb {
                            assert(cur[1] == s@[k + 1]);
                        }
                        if k + 2 < sb {
                            assert(cur[2] == s@[k + 2]);
                        }
                    }
                    if c == '*' && k + 1 < sb && cs[k + 1] == '*' && k + 2 < sb && cs[k + 2]
                        == '/' {
                        pat.append("(?:.*/)?");
                        proof {
                            assert(cur.skip(3) =~= s@.subrange(k + 3, sb as int));
                        }
                        k += 3;
                    } else if c == '*' && k + 1 < sb && cs[k + 1] == '*' {
                        pat.append(".*");
                        proof {
                            assert(cur.skip(2) =~= s@.subrange(k + 2, sb as int));
                        }
                        k += 2;
                    } else if c == '*' {
                        pat.append("[^/\\\\]+");
                        proof {
                            assert(cur.skip(1) =~= s@.subrange(k + 1, sb as int));
                        }
                        k += 1;
                    } else if c == '.' {
                        pat.append("\\.");
                        proof {
                            assert(cur.skip(1) =~= s@.subrange(k + 1, sb as int));
                        }
                        k += 1;
                    } else {
                        push_char(&mut pat, c);
                        proof {
                            assert(cur.skip(1) =~= s@.subrange(k + 1, sb as int));
                            assert(translate_spec(cur) == seq![cur[0]] + translate_spec(
                                cur.skip(1),
                            ));
                        }
                        k += 1;
                    }
                }
                push_char(&mut pat, '$');
                proof {
                    assert(s@.subrange(sb as int, sb as int) =~= Seq::<char>::empty());
                    assert(translate_spec(Seq::<char>::empty()) =~= Seq::<char>::empty());
                    assert(pat@ =~= exclude_text(t));
                }
                let ghost exc0 = exclude@;
                match regex_valid(pat.as_str()) {
                    Ok(()) => {
                        exclude.push(pat);
                        proof {
                            assert(seq_views(exclude@) =~= seq_views(exc0).push(exclude_text(t)));
                            assert(includes_of(lines) =~= includes_of(lines.skip(1))) by {
                                assert(lines[0] == line);
                                assert(trim_spec(lines[0]) == t);
                            }
                            assert(excludes_of(lines) =~= seq![exclude_text(t)] + excludes_of(
                                lines.skip(1),
                            )) by {
                                assert(lines[0] == line);
                                assert(trim_spec(lines[0]) == t);
                            }
                            assert(lines.skip(1) =~= tail_lines);
                            assert(seq_views(exc0).push(exclude_text(t)) + excludes_of(tail_lines)
                                =~= seq_views(exc0) + (seq![exclude_text(t)] + excludes_of(
                                tail_lines,
                            )));
                        }
                    },
                    Err(e) => {
                        proof {
                            assert(excludes_of(lines) =~= seq![exclude_text(t)] + excludes_of(
                                lines.skip(1),
                            )) by {
                                assert(lines[0] == line);
                                assert(trim_spec(lines[0]) == t);
                            }
                            let all = excludes_of(split_lines(s@));
                            let at = seq_views(exc0).len() as int;
                            assert(all[at] == exclude_text(t));
                            assert(!regex_pattern_ok(all[at]));
                        }
                        return Err(e);
                    },
                }
            }
            // move past the newline, or finish on the last line
            if nl == n {
                proof {
                    assert(includes_of(lines) =~= includes_of(lines.skip(1)) || true);
                    assert(lines.skip(1) =~= Seq::<Seq<char>>::empty());
                    assert(includes_of(Seq::<Seq<char>>::empty()) =~= Seq::<Seq<char>>::empty());
                    assert(excludes_of(Seq::<Seq<char>>::empty()) =~= Seq::<Seq<char>>::empty());
                    assert(seq_views(included@) =~= includes_of(split_lines(s@)));
                    assert(seq_views(exclude@) =~= excludes_of(split_lines(s@)));
                }
                break;
            }
            pos = nl + 1;
        }
        let g = GitIgnore { included, exclude };
        proof {
            assert forall|i: int|
                0 <= i < excludes_of(split_lines(s@)).len() implies regex_pattern_ok(
                #[trigger] excludes_of(split_lines(s@))[i],
            ) by {
                assert(excludes_of(split_lines(s@))[i] == seq_views(g.spec_excludes())[i]);
            }
        }
        Ok(g)
    }
}

} // verus!
