use vstd::prelude::*;
use vstd::string::{StrSliceExecFns, StringExecFns};
use crate::{Entry, EntryType, Timestamp};
use crate::text::{
    ascii_lower, dec_spec, digit_char, has_prefix, has_suffix, lower_seq, spaces, str_ends_with,
    str_eq, str_starts_with, string_from_chars, u64_to_string, push_char,
};

verus! {

// ---------------------------------------------------------------------------
// Styles
// ---------------------------------------------------------------------------

/// A terminal colour, by name; the renderer maps it to escape codes.
#[derive(Debug, Clone, Copy, PartialEq, Eq, Structural)]
pub enum Color {
    Black,
    Red,
    Green,
    Yellow,
    Blue,
    Magenta,
    Cyan,
    White,
    Gray,
    Rose,
}

/// How one cell of output is to be styled.
#[derive(Debug, Clone, Copy, PartialEq, Eq)]
pub struct Style {
    pub fg: Option<Color>,
    pub bold: bool,
    pub underline: bool,
    pub dimmed: bool,
}

impl Style {
    /// The plain style: no colour, no emphasis.
    pub open spec fn spec_default() -> Style {
        Style { fg: None, bold: false, underline: false, dimmed: false }
    }

    pub fn plain() -> (r: Style)
        ensures
            r == Style::spec_default(),
    {
        Style { fg: None, bold: false, underline: false, dimmed: false }
    }

    pub fn fg(self, color: Color) -> (r: Style)
        ensures
            r == (Style { fg: Some(color), ..self }),
    {
        Style { fg: Some(color), ..self }
    }

    pub fn blue(self) -> (r: Style)
        ensures
            r == (Style { fg: Some(Color::Blue), ..self }),
    {
        Style { fg: Some(Color::Blue), ..self }
    }

    pub fn green(self) -> (r: Style)
        ensures
            r == (Style { fg: Some(Color::Green), ..self }),
    {
        Style { fg: Some(Color::Green), ..self }
    }

    pub fn yellow(self) -> (r: Style)
        ensures
            r == (Style { fg: Some(Color::Yellow), ..self }),
    {
        Style { fg: Some(Color::Yellow), ..self }
    }

    pub fn red(self) -> (r: Style)
        ensures
            r == (Style { fg: Some(Color::Red), ..self }),
    {
        Style { fg: Some(Color::Red), ..self }
    }

    pub fn magenta(self) -> (r: Style)
        ensures
            r == (Style { fg: Some(Color::Magenta), ..self }),
    {
        Style { fg: Some(Color::Magenta), ..self }
    }

    pub fn bold(self) -> (r: Style)
        ensures
            r == (Style { bold: true, ..self }),
    {
        Style { bold: true, ..self }
    }

    pub fn underline(self) -> (r: Style)
        ensures
            r == (Style { underline: true, ..self }),
    {
        Style { underline: true, ..self }
    }

    pub fn dimmed(self) -> (r: Style)
        ensures
            r == (Style { dimmed: true, ..self }),
    {
        Style { dimmed: true, ..self }
    }
}

impl Default for Style {
    /// The plain style.
    fn default() -> (r: Style)
        ensures
            r == Style::spec_default(),
    {
        Style::plain()
    }
}

// ---------------------------------------------------------------------------
// Match rules
// ---------------------------------------------------------------------------

/// One classification rule of a group.
#[derive(Debug, Clone, PartialEq)]
pub enum GroupMatch {
    Directory,
    Hidden,
    Executable,
    StartsWith(String),
    EndsWith(String),
    Filename(Vec<String>),
    Extension(Vec<String>),
}

/// Whether two rules are of the same kind.
pub open spec fn same_tag(a: GroupMatch, b: GroupMatch) -> bool {
    match (a, b) {
        (GroupMatch::Directory, GroupMatch::Directory) => true,
        (GroupMatch::Hidden, GroupMatch::Hidden) => true,
        (GroupMatch::Executable, GroupMatch::Executable) => true,
        (GroupMatch::StartsWith(x), GroupMatch::StartsWith(y)) => true,
        (GroupMatch::EndsWith(x), GroupMatch::EndsWith(y)) => true,
        (GroupMatch::Filename(x), GroupMatch::Filename(y)) => true,
        (GroupMatch::Extension(x), GroupMatch::Extension(y)) => true,
        _ => false,
    }
}

/// Whether a rule carries a set that merging unions.
pub open spec fn set_valued(m: GroupMatch) -> bool {
    m is Filename || m is Extension
}

/// Whether one of the names is exactly the given one.
pub open spec fn filename_has(names: Seq<String>, name: Seq<char>) -> bool {
    exists|i: int| 0 <= i < names.len() && names[i]@ == name
}

/// Whether an extension is there and is in the set; both sides carry
/// lower case, the sets since insertion and the extension by the
/// entry model.
pub open spec fn extension_set_has(exts: Seq<String>, ext: Option<Seq<char>>) -> bool {
    match ext {
        Some(e) => exists|i: int| 0 <= i < exts.len() && exts[i]@ == e,
        None => false,
    }
}

impl GroupMatch {
    /// What the rule matches.
    pub open spec fn matches_spec(self, entry: Entry) -> bool {
        match self {
            GroupMatch::Directory => entry.spec_etype() == EntryType::Dir,
            GroupMatch::Hidden => entry.spec_is_hidden(),
            GroupMatch::Executable => entry.spec_perms().spec_any_executable(),
            GroupMatch::StartsWith(s) => has_prefix(entry.spec_name(), s@),
            GroupMatch::EndsWith(s) => has_suffix(entry.spec_name(), s@),
            GroupMatch::Filename(names) => filename_has(names@, entry.spec_name()),
            GroupMatch::Extension(exts) => extension_set_has(exts@, entry.spec_extension()),
        }
    }

    /// A rule on a set of exact file names.
    pub fn filenames(names: Vec<String>) -> (r: Self)
        ensures
            r == GroupMatch::Filename(names),
    {
        GroupMatch::Filename(names)
    }

    /// A rule on a set of extensions, lower-cased as they come in.
    pub fn extensions(exts: Vec<String>) -> (r: Self)
        ensures
            r matches GroupMatch::Extension(v) && v@.len() == exts@.len() && forall|i: int|
                0 <= i < exts@.len() ==> #[trigger] v@[i]@ == lower_seq(exts@[i]@),
    {
        let mut v: Vec<String> = Vec::new();
        let mut i: usize = 0;
        while i < exts.len()
            invariant
                i <= exts.len(),
                v@.len() == i,
                forall|k: int| 0 <= k < i ==> #[trigger] v@[k]@ == lower_seq(exts@[k]@),
            decreases exts.len() - i,
        {
            v.push(ascii_lower(exts[i].as_str()));
            i += 1;
        }
        GroupMatch::Extension(v)
    }

    /// A rule on a name prefix.
    pub fn starts_with(pattern: &str) -> (r: Self)
        ensures
            r matches GroupMatch::StartsWith(s) && s@ == pattern@,
    {
        GroupMatch::StartsWith(String::from_str(pattern))
    }

    /// A rule on a name suffix.
    pub fn ends_with(pattern: &str) -> (r: Self)
        ensures
            r matches GroupMatch::EndsWith(s) && s@ == pattern@,
    {
        GroupMatch::EndsWith(String::from_str(pattern))
    }

    /// The name of the rule's kind.
    pub open spec fn spec_tag(self) -> Seq<char> {
        match self {
            GroupMatch::Directory => "Directory"@,
            GroupMatch::Hidden => "Hidden"@,
            GroupMatch::Executable => "Executable"@,
            GroupMatch::StartsWith(s) => "StartsWith"@,
            GroupMatch::EndsWith(s) => "EndsWith"@,
            GroupMatch::Filename(v) => "Filename"@,
            GroupMatch::Extension(v) => "Extension"@,
        }
    }

    pub fn as_ref(&self) -> (r: &'static str)
        ensures
            r@ == self.spec_tag(),
    {
        match self {
            GroupMatch::Directory => "Directory",
            GroupMatch::Hidden => "Hidden",
            GroupMatch::Executable => "Executable",
            GroupMatch::StartsWith(s) => "StartsWith",
            GroupMatch::EndsWith(s) => "EndsWith",
            GroupMatch::Filename(v) => "Filename",
            GroupMatch::Extension(v) => "Extension",
        }
    }

    /// Whether the rule is of the same kind as another.
    fn tag_eq(&self, other: &GroupMatch) -> (r: bool)
        ensures
            r == same_tag(*self, *other),
    {
        match (self, other) {
            (GroupMatch::Directory, GroupMatch::Directory) => true,
            (GroupMatch::Hidden, GroupMatch::Hidden) => true,
            (GroupMatch::Executable, GroupMatch::Executable) => true,
            (GroupMatch::StartsWith(x), GroupMatch::StartsWith(y)) => true,
            (GroupMatch::EndsWith(x), GroupMatch::EndsWith(y)) => true,
            (GroupMatch::Filename(x), GroupMatch::Filename(y)) => true,
            (GroupMatch::Extension(x), GroupMatch::Extension(y)) => true,
            _ => false,
        }
    }

    /// Decides whether the rule matches the entry.
    pub fn matches(&self, entry: &Entry) -> (r: bool)
        ensures
            r == self.matches_spec(*entry),
    {
        match self {
            GroupMatch::Directory => entry.is_dir(),
            GroupMatch::Hidden => entry.is_hidden(),
            GroupMatch::Executable => entry.is_executable(),
            GroupMatch::StartsWith(s) => str_starts_with(entry.file_name(), s.as_str()),
            GroupMatch::EndsWith(s) => str_ends_with(entry.file_name(), s.as_str()),
            GroupMatch::Filename(names) => {
                let name = entry.file_name();
                let mut i: usize = 0;
                while i < names.len()
                    invariant
                        i <= names.len(),
                        *self == GroupMatch::Filename(*names),
                        name@ == entry.spec_name(),
                        forall|k: int| 0 <= k < i ==> names@[k]@ != entry.spec_name(),
                    decreases names.len() - i,
                {
                    if str_eq(names[i].as_str(), name) {
                        proof {
                            assert(names@[i as int]@ == entry.spec_name());
                            assert(filename_has(names@, entry.spec_name()));
                        }
                        return true;
                    }
                    i += 1;
                }
                false
            },
            GroupMatch::Extension(exts) => {
                match entry.extension() {
                    None => false,
                    Some(e) => {
                        let mut i: usize = 0;
                        while i < exts.len()
                            invariant
                                i <= exts.len(),
                                *self == GroupMatch::Extension(*exts),
                                entry.spec_extension() matches Some(ee) && e@ == ee,
                                forall|k: int| 0 <= k < i ==> #[trigger] exts@[k]@ != e@,
                            decreases exts.len() - i,
                        {
                            if str_eq(exts[i].as_str(), e.as_str()) {
                                proof {
                                    assert(exts@[i as int]@ == e@);
                                    assert(extension_set_has(exts@, entry.spec_extension()));
                                }
                                return true;
                            }
                            i += 1;
                        }
                        false
                    },
                }
            },
        }
    }
}

/// Whether any rule of the list matches the entry.
pub open spec fn any_rule_matches(ms: Seq<GroupMatch>, entry: Entry) -> bool {
    exists|i: int| 0 <= i < ms.len() && ms[i].matches_spec(entry)
}

/// Whether the list already holds a rule of the given rule's kind.
pub open spec fn has_tag(ms: Seq<GroupMatch>, m: GroupMatch) -> bool {
    exists|i: int| 0 <= i < ms.len() && same_tag(ms[i], m)
}

/// Whether an earlier rule of the list is of the same kind.
pub open spec fn tag_seen(rules: Seq<GroupMatch>, i: int) -> bool {
    exists|j: int| 0 <= j < i && same_tag(rules[j], rules[i])
}

/// Whether the rule at a position survives construction's merging:
/// set-valued rules always do, a single-valued rule only as the first
/// of its kind, duplicates of those kinds being disallowed and dropped.
pub open spec fn rule_counted(rules: Seq<GroupMatch>, i: int) -> bool {
    set_valued(rules[i]) || !tag_seen(rules, i)
}

/// What a group built from a rule list matches once construction has
/// merged it: any surviving rule that matches.
pub open spec fn group_rules_match(rules: Seq<GroupMatch>, entry: Entry) -> bool {
    exists|i: int| 0 <= i < rules.len() && rules[i].matches_spec(entry) && rule_counted(rules, i)
}

/// Whether the group matches exactly what the merged rule list matches.
pub open spec fn matches_merged(g: GroupStyle, rules: Seq<GroupMatch>) -> bool {
    forall|e: Entry| g.matches_spec(e) == group_rules_match(rules, e)
}

/// Rule kinds are shared transitively.
proof fn lemma_same_tag_trans(a: GroupMatch, b: GroupMatch, c: GroupMatch)
    requires
        same_tag(a, b),
        same_tag(b, c),
    ensures
        same_tag(a, c),
{
}

/// Taking one more rule in adds exactly that rule's contribution.
proof fn lemma_group_rules_step(rules: Seq<GroupMatch>, done: int, e: Entry)
    requires
        0 <= done < rules.len(),
    ensures
        group_rules_match(rules.take(done + 1), e) == (group_rules_match(rules.take(done), e) || (
        rules[done].matches_spec(e) && rule_counted(rules.take(done + 1), done))),
{
    let t1 = rules.take(done + 1);
    let t0 = rules.take(done);
    if group_rules_match(t1, e) {
        let i = choose|i: int|
            0 <= i < t1.len() && t1[i].matches_spec(e) && rule_counted(t1, i);
        assert(0 <= i < t1.len());
        if i < done {
            assert(t0[i] == rules[i]);
            assert(t1[i] == rules[i]);
            assert(rule_counted(t0, i)) by {
                if !set_valued(t0[i]) {
                    if tag_seen(t0, i) {
                        let j = choose|j: int| 0 <= j < i && same_tag(t0[j], t0[i]);
                        assert(t0[j] == rules[j]);
                        assert(t1[j] == rules[j]);
                        assert(same_tag(t1[j], t1[i]));
                        assert(tag_seen(t1, i));
                    }
                }
            }
            assert(group_rules_match(t0, e));
        } else {
            assert(t1[done] == rules[done]);
        }
    }
    if group_rules_match(t0, e) {
        let i = choose|i: int|
            0 <= i < t0.len() && t0[i].matches_spec(e) && rule_counted(t0, i);
        assert(0 <= i < t0.len());
        assert(t0[i] == rules[i]);
        assert(t1[i] == rules[i]);
        assert(rule_counted(t1, i)) by {
            if !set_valued(t1[i]) {
                if tag_seen(t1, i) {
                    let j = choose|j: int| 0 <= j < i && same_tag(t1[j], t1[i]);
                    assert(t1[j] == rules[j]);
                    assert(t0[j] == rules[j]);
                    assert(same_tag(t0[j], t0[i]));
                    assert(tag_seen(t0, i));
                }
            }
        }
        assert(group_rules_match(t1, e));
    }
    if rules[done].matches_spec(e) && rule_counted(t1, done) {
        assert(t1[done] == rules[done]);
        assert(group_rules_match(t1, e));
    }
}


// ---------------------------------------------------------------------------
// Groups and the classifier
// ---------------------------------------------------------------------------

proof fn lemma_filename_union(x: Seq<String>, y: Seq<String>, name: Seq<char>)
    ensures
        filename_has(x + y, name) == (filename_has(x, name) || filename_has(y, name)),
{
    if filename_has(x + y, name) {
        let i = choose|i: int| 0 <= i < (x + y).len() && (x + y)[i]@ == name;
        if i < x.len() {
            assert(x[i]@ == name);
        } else {
            assert(y[i - x.len()]@ == name);
        }
    }
    if filename_has(x, name) {
        let i = choose|i: int| 0 <= i < x.len() && x[i]@ == name;
        assert((x + y)[i]@ == name);
    }
    if filename_has(y, name) {
        let i = choose|i: int| 0 <= i < y.len() && y[i]@ == name;
        assert((x + y)[x.len() + i]@ == name);
    }
}

proof fn lemma_extension_union(x: Seq<String>, y: Seq<String>, ext: Option<Seq<char>>)
    ensures
        extension_set_has(x + y, ext) == (extension_set_has(x, ext) || extension_set_has(y, ext)),
{
    match ext {
        Some(e) => {
            if extension_set_has(x + y, ext) {
                let i = choose|i: int| 0 <= i < (x + y).len() && (x + y)[i]@ == e;
                if i < x.len() {
                    assert(x[i]@ == e);
                } else {
                    assert(y[i - x.len()]@ == e);
                }
            }
            if extension_set_has(x, ext) {
                let i = choose|i: int| 0 <= i < x.len() && x[i]@ == e;
                assert((x + y)[i]@ == e);
            }
            if extension_set_has(y, ext) {
                let i = choose|i: int| 0 <= i < y.len() && y[i]@ == e;
                assert((x + y)[x.len() + i]@ == e);
            }
        },
        None => {},
    }
}

proof fn lemma_any_push(ms: Seq<GroupMatch>, m: GroupMatch, e: Entry)
    ensures
        any_rule_matches(ms.push(m), e) == (any_rule_matches(ms, e) || m.matches_spec(e)),
{
    if any_rule_matches(ms.push(m), e) {
        let j = choose|j: int| 0 <= j < ms.push(m).len() && ms.push(m)[j].matches_spec(e);
        if j < ms.len() {
            assert(ms[j].matches_spec(e));
        } else {
            assert(ms.push(m)[j] == m);
        }
    }
    if any_rule_matches(ms, e) {
        let j = choose|j: int| 0 <= j < ms.len() && ms[j].matches_spec(e);
        assert(ms.push(m)[j].matches_spec(e));
    }
    if m.matches_spec(e) {
        assert(ms.push(m)[ms.len() as int].matches_spec(e));
    }
}

proof fn lemma_any_update(ms: Seq<GroupMatch>, idx: int, m2: GroupMatch, mm: GroupMatch, e: Entry)
    requires
        0 <= idx < ms.len(),
        m2.matches_spec(e) == (ms[idx].matches_spec(e) || mm.matches_spec(e)),
    ensures
        any_rule_matches(ms.update(idx, m2), e) == (any_rule_matches(ms, e) || mm.matches_spec(e)),
{
    let upd = ms.update(idx, m2);
    if any_rule_matches(upd, e) {
        let j = choose|j: int| 0 <= j < upd.len() && upd[j].matches_spec(e);
        if j == idx {
            if ms[idx].matches_spec(e) {
                assert(any_rule_matches(ms, e));
            }
        } else {
            assert(ms[j].matches_spec(e));
        }
    }
    if any_rule_matches(ms, e) {
        let j = choose|j: int| 0 <= j < ms.len() && ms[j].matches_spec(e);
        if j == idx {
            assert(upd[idx].matches_spec(e));
        } else {
            assert(upd[j].matches_spec(e));
        }
    }
    if mm.matches_spec(e) {
        assert(upd[idx].matches_spec(e));
    }
}

/// Whether the new group matches exactly what the old group matched,
/// plus whatever one more rule matches.
pub open spec fn adds_matches(new: GroupStyle, old: GroupStyle, m: GroupMatch) -> bool {
    forall|e: Entry| new.matches_spec(e) == (old.matches_spec(e) || m.matches_spec(e))
}

/// A named bundle of rules sharing one style; an entry belongs to the
/// group when any of its rules matches.
#[derive(Debug)]
pub struct GroupStyle {
    matchers: Vec<GroupMatch>,
    style: Style,
}

impl GroupStyle {
    pub closed spec fn spec_matchers(&self) -> Seq<GroupMatch> {
        self.matchers@
    }

    pub closed spec fn spec_style(&self) -> Style {
        self.style
    }

    /// Whether any rule of the group matches the entry.
    pub open spec fn matches_spec(self, entry: Entry) -> bool {
        any_rule_matches(self.spec_matchers(), entry)
    }

    /// A group made of the given rules, kept in order.
    pub fn new(matchers: Vec<GroupMatch>, style: Style) -> (r: Self)
        ensures
            r.spec_matchers() == matchers@,
            r.spec_style() == style,
    {
        GroupStyle { matchers, style }
    }

    pub fn style(&self) -> (r: Style)
        ensures
            r == self.spec_style(),
    {
        self.style
    }

    /// Merges one more rule in. A set-valued rule joins the first rule
    /// of its kind, so the group matches the union; a rule of a kind not
    /// yet present is appended; a single-valued rule whose kind is
    /// already present is dropped, since duplicates of those kinds are
    /// disallowed.
    pub fn add_matcher(&mut self, matcher: GroupMatch)
        ensures
            final(self).spec_style() == old(self).spec_style(),
            (set_valued(matcher) || !has_tag(old(self).spec_matchers(), matcher)) ==> adds_matches(
                *final(self),
                *old(self),
                matcher,
            ),
            (!set_valued(matcher) && has_tag(old(self).spec_matchers(), matcher)) ==> *final(self)
                == *old(self),
    {
        let ghost ms0 = self.matchers@;
        let n = self.matchers.len();
        let mut idx: usize = 0;
        loop
            invariant
                idx <= n,
                n == self.matchers@.len(),
                self.matchers@ == ms0,
                forall|k: int| 0 <= k < idx ==> !same_tag(ms0[k], matcher),
            ensures
                idx <= n,
                n == self.matchers@.len(),
                self.matchers@ == ms0,
                forall|k: int| 0 <= k < idx ==> !same_tag(ms0[k], matcher),
                idx == n || same_tag(ms0[idx as int], matcher),
            decreases n - idx,
        {
            if idx == n {
                break;
            }
            if self.matchers[idx].tag_eq(&matcher) {
                break;
            }
            idx += 1;
        }
        if idx == n {
            proof {
                assert(!has_tag(ms0, matcher)) by {
                    if has_tag(ms0, matcher) {
                        let k = choose|k: int| 0 <= k < ms0.len() && same_tag(ms0[k], matcher);
                        assert(!same_tag(ms0[k], matcher));
                    }
                }
            }
            self.matchers.push(matcher);
            proof {
                assert forall|e: Entry|
                    self.matches_spec(e) == (any_rule_matches(ms0, e) || matcher.matches_spec(
                        e,
                    )) by {
                    lemma_any_push(ms0, matcher, e);
                }
                assert(adds_matches(*self, *old(self), matcher));
            }
        } else {
            let is_set = matches!(matcher, GroupMatch::Filename(_) | GroupMatch::Extension(_));
            if is_set {
                let old_rule = self.matchers.remove(idx);
                let ghost or = old_rule;
                let ghost mm = matcher;
                let merged: GroupMatch = match (old_rule, matcher) {
                    (GroupMatch::Filename(mut xs), GroupMatch::Filename(mut ys)) => {
                        let ghost xs0 = xs@;
                        let ghost ys0 = ys@;
                        xs.append(&mut ys);
                        proof {
                            assert(xs@ == xs0 + ys0);
                            assert forall|e: Entry|
                                filename_has(xs@, e.spec_name()) == (filename_has(
                                    xs0,
                                    e.spec_name(),
                                ) || filename_has(ys0, e.spec_name())) by {
                                lemma_filename_union(xs0, ys0, e.spec_name());
                            }
                        }
                        GroupMatch::Filename(xs)
                    },
                    (GroupMatch::Extension(mut xs), GroupMatch::Extension(mut ys)) => {
                        let ghost xs0 = xs@;
                        let ghost ys0 = ys@;
                        xs.append(&mut ys);
                        proof {
                            assert(xs@ == xs0 + ys0);
                            assert forall|e: Entry|
                                extension_set_has(xs@, e.spec_extension()) == (extension_set_has(
                                    xs0,
                                    e.spec_extension(),
                                ) || extension_set_has(ys0, e.spec_extension())) by {
                                lemma_extension_union(xs0, ys0, e.spec_extension());
                            }
                        }
                        GroupMatch::Extension(xs)
                    },
                    (other, _) => other,
                };
                proof {
                    assert(forall|e: Entry|
                        merged.matches_spec(e) == (or.matches_spec(e) || mm.matches_spec(e)));
                }
                self.matchers.insert(idx, merged);
                proof {
                    assert(self.matchers@ =~= ms0.update(idx as int, merged));
                    assert forall|e: Entry|
                        self.matches_spec(e) == (any_rule_matches(ms0, e) || matcher.matches_spec(
                            e,
                        )) by {
                        lemma_any_update(ms0, idx as int, merged, mm, e);
                    }
                    assert(adds_matches(*self, *old(self), matcher));
                }
            } else {
                proof {
                    assert(has_tag(ms0, matcher)) by {
                        assert(same_tag(ms0[idx as int], matcher));
                    }
                }
            }
        }
    }

    /// Decides whether the group matches the entry.
    pub fn matches(&self, entry: &Entry) -> (r: bool)
        ensures
            r == self.matches_spec(*entry),
    {
        let mut i: usize = 0;
        let n = self.matchers.len();
        while i < n
            invariant
                i <= n,
                n == self.spec_matchers().len(),
                forall|k: int| 0 <= k < i ==> !self.spec_matchers()[k].matches_spec(*entry),
            decreases n - i,
        {
            if self.matchers[i].matches(entry) {
                proof {
                    assert(self.spec_matchers()[i as int].matches_spec(*entry));
                }
                return true;
            }
            i += 1;
        }
        proof {
            if any_rule_matches(self.spec_matchers(), *entry) {
                let k = choose|k: int|
                    0 <= k < self.spec_matchers().len() && self.spec_matchers()[k].matches_spec(
                        *entry,
                    );
                assert(!self.spec_matchers()[k].matches_spec(*entry));
            }
        }
        false
    }
}

/// The style of the first group in the list that matches the entry, or
/// the plain default when none does.
pub open spec fn first_style(groups: Seq<GroupStyle>, entry: Entry) -> Style
    decreases groups.len(),
{
    if groups.len() == 0 {
        Style::spec_default()
    } else if groups[0].matches_spec(entry) {
        groups[0].spec_style()
    } else {
        first_style(groups.skip(1), entry)
    }
}

/// The position of the first name equal to the given one, or the length
/// when there is none.
pub open spec fn find_name(names: Seq<String>, name: Seq<char>) -> int
    decreases names.len(),
{
    if names.len() == 0 {
        0
    } else if names[0]@ == name {
        0
    } else {
        1 + find_name(names.skip(1), name)
    }
}

proof fn lemma_find_name_at(names: Seq<String>, name: Seq<char>, j: int)
    requires
        0 <= j <= names.len(),
        forall|k: int| 0 <= k < j ==> names[k]@ != name,
        j == names.len() || names[j]@ == name,
    ensures
        find_name(names, name) == j,
    decreases names.len(),
{
    if names.len() == 0 {
    } else if j == 0 {
    } else {
        assert(names[0]@ != name);
        assert forall|k: int| 0 <= k < j - 1 implies names.skip(1)[k]@ != name by {
            assert(names.skip(1)[k] == names[k + 1]);
        }
        if j < names.len() {
            assert(names.skip(1)[j - 1] == names[j]);
        }
        lemma_find_name_at(names.skip(1), name, j - 1);
    }
}

/// The classifier: an ordered list of named groups; the first group
/// that matches an entry decides its style.
#[derive(Debug)]
pub struct Colorizer {
    names: Vec<String>,
    group_styles: Vec<GroupStyle>,
}

impl Colorizer {
    #[verifier::type_invariant]
    spec fn wf(self) -> bool {
        self.names@.len() == self.group_styles@.len()
    }

    pub closed spec fn spec_names(&self) -> Seq<String> {
        self.names@
    }

    pub closed spec fn spec_groups(&self) -> Seq<GroupStyle> {
        self.group_styles@
    }

    /// The style the classifier assigns to an entry.
    pub open spec fn style_for_spec(self, entry: Entry) -> Style {
        first_style(self.spec_groups(), entry)
    }

    /// Appends a group under the given name. Construction merges the
    /// rules: set-valued rules of one kind union their sets, and a
    /// repeated single-valued kind is dropped, so the group matches
    /// exactly what the merged rule list matches.
    pub fn group(self, name: &str, matchers: Vec<GroupMatch>, style: Style) -> (r: Self)
        ensures
            r.spec_names().len() == self.spec_names().len() + 1,
            forall|i: int|
                0 <= i < self.spec_names().len() ==> r.spec_names()[i] == self.spec_names()[i],
            r.spec_names().last()@ == name@,
            r.spec_groups().len() == self.spec_groups().len() + 1,
            forall|i: int|
                0 <= i < self.spec_groups().len() ==> r.spec_groups()[i] == self.spec_groups()[i],
            r.spec_groups().last().spec_style() == style,
            matches_merged(r.spec_groups().last(), matchers@),
    {
        proof {
            use_type_invariant(&self);
        }
        let ghost rules = matchers@;
        let mut ms: Vec<GroupMatch> = Vec::new();
        let mut input = matchers;
        let ghost mut done: int = 0;
        proof {
            assert(rules.skip(0) =~= rules);
            assert(rules.take(0) =~= Seq::<GroupMatch>::empty());
            assert forall|e: Entry|
                any_rule_matches(ms@, e) == group_rules_match(rules.take(0), e) by {
                if any_rule_matches(ms@, e) {
                    let i = choose|i: int| 0 <= i < ms@.len() && ms@[i].matches_spec(e);
                }
                if group_rules_match(rules.take(0), e) {
                    let i = choose|i: int|
                        0 <= i < rules.take(0).len() && rules.take(0)[i].matches_spec(e)
                            && rule_counted(rules.take(0), i);
                }
            }
            assert forall|m2: GroupMatch|
                has_tag(ms@, m2) == has_tag(rules.take(0), m2) by {
                if has_tag(ms@, m2) {
                    let i = choose|i: int| 0 <= i < ms@.len() && same_tag(ms@[i], m2);
                }
                if has_tag(rules.take(0), m2) {
                    let i = choose|i: int|
                        0 <= i < rules.take(0).len() && same_tag(rules.take(0)[i], m2);
                }
            }
        }
        while input.len() > 0
            invariant
                0 <= done <= rules.len(),
                input@ == rules.skip(done),
                forall|e: Entry|
                    any_rule_matches(ms@, e) == group_rules_match(rules.take(done), e),
                forall|m2: GroupMatch| has_tag(ms@, m2) == has_tag(rules.take(done), m2),
            decreases input.len(),
        {
            let m = input.remove(0);
            let ghost m0 = m;
            proof {
                assert(m == rules.skip(done)[0]);
                assert(m == rules[done]);
                assert(rules.skip(done).skip(1) =~= rules.skip(done + 1));
                assert(input@ =~= rules.skip(done + 1));
                assert(rules.take(done + 1)[done] == rules[done]);
            }
            let ghost ms0 = ms@;
            let ghost t0 = rules.take(done);
            let ghost t1 = rules.take(done + 1);
            let n = ms.len();
            let mut idx: usize = 0;
            loop
                invariant
                    idx <= n,
                    n == ms@.len(),
                    ms@ == ms0,
                    m == m0,
                    forall|k: int| 0 <= k < idx ==> !same_tag(ms0[k], m0),
                ensures
                    idx <= n,
                    ms@ == ms0,
                    m == m0,
                    forall|k: int| 0 <= k < idx ==> !same_tag(ms0[k], m0),
                    idx == n || same_tag(ms0[idx as int], m0),
                decreases n - idx,
            {
                if idx == n {
                    break;
                }
                if ms[idx].tag_eq(&m) {
                    break;
                }
                idx += 1;
            }
            if idx == n {
                // the first rule of its kind joins the list
                proof {
                    assert(!has_tag(ms0, m0)) by {
                        if has_tag(ms0, m0) {
                            let k = choose|k: int| 0 <= k < ms0.len() && same_tag(ms0[k], m0);
                            assert(!same_tag(ms0[k], m0));
                        }
                    }
                    assert(!tag_seen(t1, done)) by {
                        if tag_seen(t1, done) {
                            let j = choose|j: int| 0 <= j < done && same_tag(t1[j], t1[done]);
                            assert(t1[j] == rules[j]);
                            assert(t0[j] == rules[j]);
                            assert(same_tag(t0[j], m0));
                            assert(has_tag(t0, m0));
                            assert(has_tag(ms0, m0));
                        }
                    }
                }
                ms.push(m);
                proof {
                    assert forall|e: Entry|
                        any_rule_matches(ms@, e) == group_rules_match(t1, e) by {
                        lemma_any_push(ms0, m0, e);
                        lemma_group_rules_step(rules, done, e);
                        assert(rule_counted(t1, done));
                    }
                    assert forall|m2: GroupMatch| has_tag(ms@, m2) == has_tag(t1, m2) by {
                        if has_tag(ms@, m2) {
                            let k = choose|k: int| 0 <= k < ms@.len() && same_tag(ms@[k], m2);
                            if k < ms0.len() {
                                assert(same_tag(ms0[k], m2));
                                assert(has_tag(ms0, m2));
                                let j = choose|j: int| 0 <= j < t0.len() && same_tag(t0[j], m2);
                                assert(t1[j] == rules[j]);
                                assert(t0[j] == rules[j]);
                                assert(same_tag(t1[j], m2));
                            } else {
                                assert(ms@[k] == m0);
                                assert(same_tag(t1[done], m2));
                            }
                        }
                        if has_tag(t1, m2) {
                            let j = choose|j: int| 0 <= j < t1.len() && same_tag(t1[j], m2);
                            if j < done {
                                assert(t1[j] == rules[j]);
                                assert(t0[j] == rules[j]);
                                assert(has_tag(t0, m2));
                                assert(has_tag(ms0, m2));
                                let k = choose|k: int| 0 <= k < ms0.len() && same_tag(ms0[k], m2);
                                assert(same_tag(ms@[k], m2));
                            } else {
                                assert(t1[j] == m0);
                                assert(same_tag(ms@[ms0.len() as int], m2));
                            }
                        }
                    }
                }
            } else {
                proof {
                    assert(same_tag(ms0[idx as int], m0));
                    assert(has_tag(ms0, m0));
                    assert(has_tag(t0, m0));
                    assert(tag_seen(t1, done)) by {
                        let j = choose|j: int| 0 <= j < t0.len() && same_tag(t0[j], m0);
                        assert(t0[j] == rules[j]);
                        assert(t1[j] == rules[j]);
                        assert(same_tag(t1[j], t1[done]));
                    }
                }
                let is_set = matches!(m, GroupMatch::Filename(_) | GroupMatch::Extension(_));
                if is_set {
                    // a set-valued rule joins the rule of its kind
                    let old_rule = ms.remove(idx);
                    let ghost or = old_rule;
                    let merged: GroupMatch = match (old_rule, m) {
                        (GroupMatch::Filename(mut xs), GroupMatch::Filename(mut ys)) => {
                            let ghost xs0 = xs@;
                            let ghost ys0 = ys@;
                            xs.append(&mut ys);
                            proof {
                                assert(xs@ == xs0 + ys0);
                                assert forall|e: Entry|
                                    filename_has(xs@, e.spec_name()) == (filename_has(
                                        xs0,
                                        e.spec_name(),
                                    ) || filename_has(ys0, e.spec_name())) by {
                                    lemma_filename_union(xs0, ys0, e.spec_name());
                                }
                            }
                            GroupMatch::Filename(xs)
                        },
                        (GroupMatch::Extension(mut xs), GroupMatch::Extension(mut ys)) => {
                            let ghost xs0 = xs@;
                            let ghost ys0 = ys@;
                            xs.append(&mut ys);
                            proof {
                                assert(xs@ == xs0 + ys0);
                                assert forall|e: Entry|
                                    extension_set_has(xs@, e.spec_extension()) == (
                                    extension_set_has(xs0, e.spec_extension())
                                        || extension_set_has(ys0, e.spec_extension())) by {
                                    lemma_extension_union(xs0, ys0, e.spec_extension());
                                }
                            }
                            GroupMatch::Extension(xs)
                        },
                        (other, _) => other,
                    };
                    proof {
                        assert(forall|e: Entry|
                            merged.matches_spec(e) == (or.matches_spec(e) || m0.matches_spec(e)));
                        assert(forall|m2: GroupMatch|
                            same_tag(merged, m2) == same_tag(or, m2));
                    }
                    ms.insert(idx, merged);
                    proof {
                        assert(ms@ =~= ms0.update(idx as int, merged));
                        assert forall|e: Entry|
                            any_rule_matches(ms@, e) == group_rules_match(t1, e) by {
                            lemma_any_update(ms0, idx as int, merged, m0, e);
                            lemma_group_rules_step(rules, done, e);
                            assert(rule_counted(t1, done));
                        }
                        assert forall|m2: GroupMatch| has_tag(ms@, m2) == has_tag(t1, m2) by {
                            if has_tag(ms@, m2) {
                                let k = choose|k: int| 0 <= k < ms@.len() && same_tag(ms@[k], m2);
                                if k == idx {
                                    assert(same_tag(merged, m2));
                                    assert(same_tag(or, m2));
                                    assert(or == ms0[idx as int]);
                                    assert(has_tag(ms0, m2));
                                } else {
                                    assert(same_tag(ms0[k], m2));
                                    assert(has_tag(ms0, m2));
                                }
                                let j = choose|j: int| 0 <= j < t0.len() && same_tag(t0[j], m2);
                                assert(t1[j] == rules[j]);
                                assert(t0[j] == rules[j]);
                                assert(same_tag(t1[j], m2));
                            }
                            if has_tag(t1, m2) {
                                let j = choose|j: int| 0 <= j < t1.len() && same_tag(t1[j], m2);
                                if j < done {
                                    assert(t1[j] == rules[j]);
                                    assert(t0[j] == rules[j]);
                                    assert(has_tag(t0, m2));
                                    assert(has_tag(ms0, m2));
                                    let k = choose|k: int|
                                        0 <= k < ms0.len() && same_tag(ms0[k], m2);
                                    if k == idx {
                                        assert(same_tag(or, m2));
                                        assert(same_tag(merged, m2));
                                        assert(same_tag(ms@[k], m2));
                                    } else {
                                        assert(same_tag(ms@[k], m2));
                                    }
                                } else {
                                    assert(t1[j] == m0);
                                    lemma_same_tag_trans(ms0[idx as int], m0, m2);
                                    assert(same_tag(or, m2));
                                    assert(same_tag(merged, m2));
                                    assert(same_tag(ms@[idx as int], m2));
                                }
                            }
                        }
                    }
                } else {
                    // a repeated single-valued kind is dropped
                    proof {
                        assert(!set_valued(m0));
                        assert forall|e: Entry|
                            any_rule_matches(ms@, e) == group_rules_match(t1, e) by {
                            lemma_group_rules_step(rules, done, e);
                            assert(!rule_counted(t1, done));
                        }
                        assert forall|m2: GroupMatch| has_tag(ms@, m2) == has_tag(t1, m2) by {
                            if has_tag(ms@, m2) {
                                let k = choose|k: int| 0 <= k < ms0.len() && same_tag(ms0[k], m2);
                                let j = choose|j: int| 0 <= j < t0.len() && same_tag(t0[j], m2);
                                assert(t1[j] == rules[j]);
                                assert(t0[j] == rules[j]);
                                assert(same_tag(t1[j], m2));
                            }
                            if has_tag(t1, m2) {
                                let j = choose|j: int| 0 <= j < t1.len() && same_tag(t1[j], m2);
                                if j < done {
                                    assert(t1[j] == rules[j]);
                                    assert(t0[j] == rules[j]);
                                    assert(has_tag(t0, m2));
                                } else {
                                    assert(t1[j] == m0);
                                    let j0 = choose|j0: int|
                                        0 <= j0 < t0.len() && same_tag(t0[j0], m0);
                                    lemma_same_tag_trans(t0[j0], m0, m2);
                                    assert(has_tag(t0, m2));
                                }
                            }
                        }
                    }
                }
            }
            proof {
                done = done + 1;
            }
        }
        proof {
            assert(rules.take(done) =~= rules);
        }
        let gs = GroupStyle::new(ms, style);
        proof {
            assert(matches_merged(gs, rules)) by {
                assert forall|e: Entry|
                    gs.matches_spec(e) == group_rules_match(rules, e) by {
                    assert(any_rule_matches(gs.spec_matchers(), e) == group_rules_match(rules, e));
                }
            }
        }
        let Colorizer { mut names, mut group_styles } = self;
        names.push(String::from_str(name));
        group_styles.push(gs);
        Colorizer { names, group_styles }
    }

    /// Merges one more rule into the group of the given name, with the
    /// same union and idempotence rules as `add_matcher`; without such a
    /// group the call changes nothing.
    pub fn add(self, name: &str, matcher: GroupMatch) -> (r: Self)
        ensures
            r.spec_names() == self.spec_names(),
            ({
                let i = find_name(self.spec_names(), name@);
                &&& i >= self.spec_names().len() ==> r.spec_groups() == self.spec_groups()
                &&& i < self.spec_names().len() ==> {
                    &&& r.spec_groups().len() == self.spec_groups().len()
                    &&& forall|j: int|
                        0 <= j < self.spec_groups().len() && j != i ==> r.spec_groups()[j]
                            == self.spec_groups()[j]
                    &&& r.spec_groups()[i].spec_style() == self.spec_groups()[i].spec_style()
                    &&& (set_valued(matcher) || !has_tag(
                        self.spec_groups()[i].spec_matchers(),
                        matcher,
                    )) ==> adds_matches(r.spec_groups()[i], self.spec_groups()[i], matcher)
                    &&& (!set_valued(matcher) && has_tag(
                        self.spec_groups()[i].spec_matchers(),
                        matcher,
                    )) ==> r.spec_groups()[i] == self.spec_groups()[i]
                }
            }),
    {
        proof {
            use_type_invariant(&self);
        }
        let ghost names0 = self.names@;
        let Colorizer { names, mut group_styles } = self;
        let n = names.len();
        let mut i: usize = 0;
        loop
            invariant
                i <= n,
                n == names0.len(),
                names@ == names0,
                forall|k: int| 0 <= k < i ==> names0[k]@ != name@,
            ensures
                i <= n,
                names@ == names0,
                forall|k: int| 0 <= k < i ==> names0[k]@ != name@,
                i == n || names0[i as int]@ == name@,
            decreases n - i,
        {
            if i == n {
                break;
            }
            if str_eq(names[i].as_str(), name) {
                break;
            }
            i += 1;
        }
        proof {
            lemma_find_name_at(names0, name@, i as int);
        }
        if i < n {
            let ghost matcher0 = matcher;
            let mut gs = group_styles.remove(i);
            let ghost gs0 = gs;
            proof {
                assert(gs0 == self.spec_groups()[i as int]);
            }
            gs.add_matcher(matcher);
            group_styles.insert(i, gs);
            proof {
                assert(group_styles@ =~= self.spec_groups().update(i as int, gs));
                assert(group_styles@[i as int] == gs);
                if !set_valued(matcher0) && has_tag(gs0.spec_matchers(), matcher0) {
                    assert(gs == gs0);
                }
            }
        }
        Colorizer { names, group_styles }
    }

    /// The style of the first matching group; the plain default when no
    /// group matches.
    pub fn style_for(&self, entry: &Entry) -> (r: Style)
        ensures
            r == self.style_for_spec(*entry),
    {
        let n = self.group_styles.len();
        let mut i: usize = 0;
        proof {
            assert(self.spec_groups().skip(0) =~= self.spec_groups());
        }
        loop
            invariant
                i <= n,
                n == self.spec_groups().len(),
                first_style(self.spec_groups().skip(i as int), *entry) == self.style_for_spec(
                    *entry,
                ),
            decreases n - i,
        {
            if i == n {
                return Style::plain();
            }
            proof {
                assert(self.spec_groups().skip(i as int)[0] == self.spec_groups()[i as int]);
            }
            if self.group_styles[i].matches(entry) {
                return self.group_styles[i].style();
            }
            proof {
                assert(self.spec_groups().skip(i as int).skip(1) =~= self.spec_groups().skip(
                    i + 1 as int,
                ));
            }
            i += 1;
        }
    }
}

impl Default for Colorizer {
    /// A classifier without groups: everything gets the plain style.
    fn default() -> (r: Self)
        ensures
            r.spec_names() == Seq::<String>::empty(),
            r.spec_groups() == Seq::<GroupStyle>::empty(),
    {
        Colorizer { names: Vec::new(), group_styles: Vec::new() }
    }
}



// ---------------------------------------------------------------------------
// Human-readable sizes
// ---------------------------------------------------------------------------

/// The compact byte-count label: a dash for nothing, the raw count
/// below one kibibyte, and above that the count divided down to the
/// matching unit, truncated to a whole number.
pub open spec fn humansize_spec(v: int) -> Seq<char> {
    if v == 0 {
        seq!['-']
    } else if v < 1024 {
        dec_spec(v)
    } else if v < 1048576 {
        dec_spec(v / 1024).push('K')
    } else if v < 1073741824 {
        dec_spec(v / 1048576).push('M')
    } else if v < 1099511627776 {
        dec_spec(v / 1073741824).push('G')
    } else if v < 1125899906842624 {
        dec_spec(v / 1099511627776).push('T')
    } else {
        dec_spec(v / 1125899906842624).push('P')
    }
}

/// Renders a byte count the way listings show it.
pub fn humansize(value: u64) -> (r: String)
    ensures
        r@ == humansize_spec(value as int),
{
    if value == 0 {
        let mut s = String::new();
        push_char(&mut s, '-');
        proof {
            assert(s@ =~= seq!['-']);
        }
        s
    } else if value < 1024 {
        u64_to_string(value)
    } else if value < 1048576 {
        let mut s = u64_to_string(value / 1024);
        push_char(&mut s, 'K');
        s
    } else if value < 1073741824 {
        let mut s = u64_to_string(value / 1048576);
        push_char(&mut s, 'M');
        s
    } else if value < 1099511627776 {
        let mut s = u64_to_string(value / 1073741824);
        push_char(&mut s, 'G');
        s
    } else if value < 1125899906842624 {
        let mut s = u64_to_string(value / 1099511627776);
        push_char(&mut s, 'T');
        s
    } else {
        let mut s = u64_to_string(value / 1125899906842624);
        push_char(&mut s, 'P');
        s
    }
}

// ---------------------------------------------------------------------------
// Date labels
// ---------------------------------------------------------------------------

/// Two decimal digits, zero-padded.
pub open spec fn two_digits(n: int) -> Seq<char> {
    seq![digit_char(n / 10), digit_char(n % 10)]
}

/// The day of the month, space-padded to two characters.
pub open spec fn day_padded(d: int) -> Seq<char> {
    if d < 10 {
        seq![' ', digit_char(d)]
    } else {
        two_digits(d)
    }
}

/// The usual three-letter month names.
pub open spec fn month_abbrev(m: int) -> Seq<char> {
    if m == 1 {
        "Jan"@
    } else if m == 2 {
        "Feb"@
    } else if m == 3 {
        "Mar"@
    } else if m == 4 {
        "Apr"@
    } else if m == 5 {
        "May"@
    } else if m == 6 {
        "Jun"@
    } else if m == 7 {
        "Jul"@
    } else if m == 8 {
        "Aug"@
    } else if m == 9 {
        "Sep"@
    } else if m == 10 {
        "Oct"@
    } else if m == 11 {
        "Nov"@
    } else {
        "Dec"@
    }
}

/// The date column of a long listing: day and month, then the year for
/// entries modified in an earlier year and the time of day otherwise; a
/// dash when no modified time is known.
pub open spec fn modified_label(ts: Option<Timestamp>, current_year: int) -> Seq<char> {
    match ts {
        None => seq!['-'],
        Some(t) => day_padded(t.day as int) + seq![' '] + month_abbrev(t.month as int) + (if (
        t.year as int) < current_year {
            seq![' ', ' '] + (if t.year >= 0 {
                dec_spec(t.year as int)
            } else {
                seq!['-']
            })
        } else {
            seq![' '] + two_digits(t.hour as int) + seq![':'] + two_digits(t.minute as int)
        }),
    }
}

fn two_digit_string(n: u8) -> (r: String)
    ensures
        r@ == two_digits(n as int),
{
    let mut cs: Vec<char> = Vec::new();
    cs.push(crate::text::digit_to_char((n / 10) as u64));
    cs.push(crate::text::digit_to_char((n % 10) as u64));
    proof {
        assert(cs@ =~= two_digits(n as int));
    }
    string_from_chars(&cs)
}

fn month_abbrev_str(m: u8) -> (r: &'static str)
    ensures
        r@ == month_abbrev(m as int),
{
    match m {
        1 => "Jan",
        2 => "Feb",
        3 => "Mar",
        4 => "Apr",
        5 => "May",
        6 => "Jun",
        7 => "Jul",
        8 => "Aug",
        9 => "Sep",
        10 => "Oct",
        11 => "Nov",
        _ => "Dec",
    }
}

/// Renders the date column for a modified instant.
pub fn date_label(ts: &Option<Timestamp>, current_year: i32) -> (r: String)
    ensures
        r@ == modified_label(*ts, current_year as int),
{
    match ts {
        None => {
            let mut s = String::new();
            push_char(&mut s, '-');
            proof {
                assert(s@ =~= seq!['-']);
            }
            s
        },
        Some(t) => {
            let mut s = String::new();
            if t.day < 10 {
                push_char(&mut s, ' ');
                push_char(&mut s, crate::text::digit_to_char(t.day as u64));
                proof {
                    assert(s@ =~= day_padded(t.day as int));
                }
            } else {
                let dd = two_digit_string(t.day);
                s.append(dd.as_str());
                proof {
                    assert(s@ =~= day_padded(t.day as int));
                }
            }
            push_char(&mut s, ' ');
            s.append(month_abbrev_str(t.month));
            if t.year < current_year {
                push_char(&mut s, ' ');
                push_char(&mut s, ' ');
                if t.year >= 0 {
                    let y = u64_to_string(t.year as u64);
                    s.append(y.as_str());
                } else {
                    push_char(&mut s, '-');
                }
            } else {
                push_char(&mut s, ' ');
                let hh = two_digit_string(t.hour);
                s.append(hh.as_str());
                push_char(&mut s, ':');
                let mm = two_digit_string(t.minute);
                s.append(mm.as_str());
            }
            proof {
                assert(s@ =~= modified_label(*ts, current_year as int));
            }
            s
        },
    }
}

/// A sequence padded on the left with spaces up to a width.
pub open spec fn pad_left(s: Seq<char>, w: int) -> Seq<char> {
    if s.len() < w {
        Seq::new((w - s.len()) as nat, |i: int| ' ') + s
    } else {
        s
    }
}

/// Pads a string on the left with spaces up to the width.
pub fn right_align(s: &str, width: usize) -> (r: String)
    ensures
        r@ == pad_left(s@, width as int),
{
    let n = s.unicode_len();
    if n < width {
        let mut pad = spaces(width - n);
        pad.append(s);
        pad
    } else {
        String::from_str(s)
    }
}

// ---------------------------------------------------------------------------
// The columns of a long listing
// ---------------------------------------------------------------------------

impl Colorizer {
    /// The permission column: `d` for a directory, a dot for a file,
    /// then the three access triplets.
    pub fn permissions(&self, entry: &Entry) -> (r: String)
        ensures
            r@ == seq![
                if entry.spec_etype() == EntryType::Dir {
                    'd'
                } else {
                    '.'
                },
            ] + entry.spec_perms().spec_mode_string(),
    {
        let mut s = String::new();
        if entry.is_dir() {
            push_char(&mut s, 'd');
        } else {
            push_char(&mut s, '.');
        }
        let ms = entry.permissions().mode_string();
        s.append(ms.as_str());
        proof {
            assert(s@ =~= seq![
                if entry.spec_etype() == EntryType::Dir {
                    'd'
                } else {
                    '.'
                },
            ] + entry.spec_perms().spec_mode_string());
        }
        s
    }

    /// The size column: a caret for symbolic links, else the compact
    /// byte count.
    pub fn file_size(&self, entry: &Entry) -> (r: String)
        ensures
            r@ == (if entry.spec_meta().is_symlink {
                seq!['^']
            } else {
                humansize_spec(entry.spec_meta().size as int)
            }),
    {
        if entry.metadata().is_symlink() {
            let mut s = String::new();
            push_char(&mut s, '^');
            proof {
                assert(s@ =~= seq!['^']);
            }
            s
        } else {
            humansize(entry.metadata().file_size())
        }
    }

    /// The date column, padded on the left to twelve characters.
    pub fn date_modified(&self, entry: &Entry, current_year: i32) -> (r: String)
        ensures
            r@ == pad_left(modified_label(entry.spec_meta().modified, current_year as int), 12),
    {
        let label = date_label(entry.metadata().modified(), current_year);
        right_align(label.as_str(), 12)
    }
}

// ---------------------------------------------------------------------------
// Spacers
// ---------------------------------------------------------------------------

/// Values that describe a run of spaces.
pub trait Spacer {
    /// The spaces this value stands for.
    spec fn spacer_spec(self) -> Seq<char>;

    /// Renders the spaces.
    fn spacer(self) -> (r: String)
        ensures
            r@ == self.spacer_spec(),
    ;
}

impl Spacer for core::ops::Range<usize> {
    open spec fn spacer_spec(self) -> Seq<char> {
        if self.start <= self.end {
            Seq::new((self.end - self.start) as nat, |i: int| ' ')
        } else {
            Seq::empty()
        }
    }

    fn spacer(self) -> (r: String) {
        if self.start <= self.end {
            spaces(self.end - self.start)
        } else {
            String::new()
        }
    }
}

} // verus!
