pub mod filter;
pub mod ignore;
pub mod sort;
pub mod style;
pub mod permission;
pub mod regexp;
pub mod text;

use vstd::prelude::*;
use vstd::string::StrSliceExecFns;
use chrono::{Datelike, TimeZone, Timelike};
use permission::Perms;
use sort::SortStrategy;

verus! {

/// Why a scan or a pattern was rejected.
#[derive(Debug, Clone, PartialEq, Eq)]
pub enum ScanError {
    /// The root path could not be resolved.
    PathNotFound,
    /// The root, or an entry handed to a sub-scan, is not a directory.
    NotADirectory,
    /// The operating system refused to enumerate or stat the root.
    PermissionDenied,
    /// Any other failure on the root.
    IoError,
    /// A user-supplied pattern does not compile.
    InvalidPattern(String),
}

/// The kind of a directory entry: a plain file or a directory.
#[derive(Debug, Clone, Copy, PartialEq, Eq, Structural)]
pub enum EntryType {
    File,
    Dir,
}

/// A moment in time: the instant as seconds and nanoseconds since the
/// Unix epoch, together with its local calendar rendering.
#[derive(Debug, Clone, Copy, PartialEq, Eq, Structural)]
pub struct Timestamp {
    pub unix: i64,
    pub nanos: u32,
    pub year: i32,
    pub month: u8,
    pub day: u8,
    pub hour: u8,
    pub minute: u8,
    pub second: u8,
}

/// Relies on chrono's `TimeZone::timestamp_opt` for `Local` and on the
/// `Datelike` / `Timelike` accessors: when the instant exists and is
/// unambiguous in the local time zone, yields its local year, month
/// (1 to 12), day (1 to 31), hour (below 24), minute and second (below
/// 60). The values depend on the machine's time zone, so nothing more is
/// claimed about them.
#[verifier::external_body]
fn local_calendar(unix: i64, nanos: u32) -> (r: Option<(i32, u8, u8, u8, u8, u8)>)
    ensures
        r matches Some(t) ==> 1 <= t.1 <= 12 && 1 <= t.2 <= 31 && t.3 < 24 && t.4 < 60 && t.5 < 60,
{
    match chrono::Local.timestamp_opt(unix, nanos) {
        chrono::LocalResult::Single(dt) => Some(
            (
                dt.year(),
                dt.month() as u8,
                dt.day() as u8,
                dt.hour() as u8,
                dt.minute() as u8,
                dt.second() as u8,
            ),
        ),
        _ => None,
    }
}

impl Timestamp {
    /// The timestamp of the given instant, rendered into the local
    /// calendar; `None` when the instant has no unambiguous local form.
    pub fn from_unix(unix: i64, nanos: u32) -> (r: Option<Timestamp>)
        ensures
            r matches Some(t) ==> {
                &&& t.unix == unix
                &&& t.nanos == nanos
                &&& 1 <= t.month <= 12
                &&& 1 <= t.day <= 31
                &&& t.hour < 24
                &&& t.minute < 60
                &&& t.second < 60
            },
    {
        match local_calendar(unix, nanos) {
            Some((year, month, day, hour, minute, second)) => Some(
                Timestamp { unix, nanos, year, month, day, hour, minute, second },
            ),
            None => None,
        }
    }
}

/// The metadata snapshot an entry carries: size in bytes, the modified
/// instant where one is known, and whether the entry is a symbolic link.
#[derive(Debug, Clone, PartialEq)]
pub struct Metadata {
    pub size: u64,
    pub modified: Option<Timestamp>,
    pub is_symlink: bool,
}

impl Metadata {
    /// A snapshot assembled from its parts.
    pub fn new(size: u64, modified: Option<Timestamp>, is_symlink: bool) -> (r: Metadata)
        ensures
            r.size == size,
            r.modified == modified,
            r.is_symlink == is_symlink,
    {
        Metadata { size, modified, is_symlink }
    }

    pub fn file_size(&self) -> (r: u64)
        ensures
            r == self.size,
    {
        self.size
    }

    pub fn is_symlink(&self) -> (r: bool)
        ensures
            r == self.is_symlink,
    {
        self.is_symlink
    }

    pub fn modified(&self) -> (r: &Option<Timestamp>)
        ensures
            *r == self.modified,
    {
        &self.modified
    }
}

/// Whether a character separates path components.
pub open spec fn is_sep(c: char) -> bool {
    c == '/' || c == '\\'
}

/// The final component of a path: the characters after the last
/// separator, or the whole path when it has none.
pub open spec fn last_component(p: Seq<char>) -> Seq<char>
    decreases p.len(),
{
    if p.len() == 0 {
        p
    } else if is_sep(p.last()) {
        Seq::empty()
    } else {
        last_component(p.drop_last()).push(p.last())
    }
}

proof fn lemma_last_component_at(p: Seq<char>, j: int)
    requires
        0 <= j <= p.len(),
        forall|k: int| j <= k < p.len() ==> !is_sep(p[k]),
        j == 0 || is_sep(p[j - 1]),
    ensures
        last_component(p) == p.skip(j),
    decreases p.len(),
{
    if p.len() == 0 {
        assert(p.skip(0) =~= p);
    } else if j == p.len() {
        assert(p.skip(j) =~= Seq::<char>::empty());
    } else {
        assert(!is_sep(p.last()));
        lemma_last_component_at(p.drop_last(), j);
        assert(p.skip(j) =~= p.drop_last().skip(j).push(p.last()));
    }
}

/// The position right after the last dot of the sequence, or `None`
/// when it has no dot.
pub open spec fn last_dot_pos(n: Seq<char>) -> Option<int>
    decreases n.len(),
{
    if n.len() == 0 {
        None
    } else if n.last() == '.' {
        Some(n.len() - 1)
    } else {
        last_dot_pos(n.drop_last())
    }
}

/// The extension hiding in a file name: the characters after the last
/// dot, provided that dot is neither the first nor the last character.
pub open spec fn ext_spec(name: Seq<char>) -> Option<Seq<char>> {
    match last_dot_pos(name) {
        None => None,
        Some(i) => if i > 0 && i + 1 < name.len() {
            Some(name.skip(i + 1))
        } else {
            None
        },
    }
}

proof fn lemma_last_dot_at(n: Seq<char>, j: int)
    requires
        0 <= j <= n.len(),
        forall|k: int| j <= k < n.len() ==> n[k] != '.',
        j == 0 || n[j - 1] == '.',
    ensures
        last_dot_pos(n) == (if j == 0 {
            None
        } else {
            Some(j - 1)
        }),
    decreases n.len(),
{
    if n.len() == 0 {
    } else if j == n.len() {
    } else {
        assert(n.last() != '.');
        lemma_last_dot_at(n.drop_last(), j);
    }
}

/// Finds the final path component of a path string.
fn compute_name(path: &str) -> (r: String)
    ensures
        r@ == last_component(path@),
{
    let n = path.unicode_len();
    let mut j: usize = n;
    loop
        invariant
            0 <= j <= n,
            n == path@.len(),
            forall|k: int| j <= k < n ==> !is_sep(path@[k]),
        ensures
            0 <= j <= n,
            forall|k: int| j <= k < n ==> !is_sep(path@[k]),
            j == 0 || is_sep(path@[j - 1]),
        decreases j,
    {
        if j == 0 {
            break;
        }
        let c = path.get_char(j - 1);
        if c == '/' || c == '\\' {
            break;
        }
        j -= 1;
    }
    proof {
        lemma_last_component_at(path@, j as int);
    }
    let name = path.substring_char(j, n);
    proof {
        assert(name@ =~= path@.skip(j as int));
    }
    String::from_str(name)
}

/// One directory entry: its kind, its permission record, its metadata
/// snapshot, and its path with the name that ends it.
#[derive(Debug, Clone)]
pub struct Entry {
    entry_type: EntryType,
    permissions: Perms,
    meta: Metadata,
    path: String,
    name: String,
}

impl Entry {
    pub closed spec fn spec_etype(&self) -> EntryType {
        self.entry_type
    }

    pub closed spec fn spec_perms(&self) -> Perms {
        self.permissions
    }

    pub closed spec fn spec_meta(&self) -> Metadata {
        self.meta
    }

    pub closed spec fn spec_path(&self) -> Seq<char> {
        self.path@
    }

    pub closed spec fn spec_name(&self) -> Seq<char> {
        self.name@
    }

    /// An entry assembled from plain values; the name is taken from the
    /// final component of the path.
    pub fn new(path: String, entry_type: EntryType, permissions: Perms, meta: Metadata) -> (r:
        Entry)
        ensures
            r.spec_path() == path@,
            r.spec_name() == last_component(path@),
            r.spec_etype() == entry_type,
            r.spec_perms() == permissions,
            r.spec_meta() == meta,
    {
        let name = compute_name(path.as_str());
        Entry { entry_type, permissions, meta, path, name }
    }

    pub fn etype(&self) -> (r: EntryType)
        ensures
            r == self.spec_etype(),
    {
        self.entry_type
    }

    pub fn permissions(&self) -> (r: &Perms)
        ensures
            *r == self.spec_perms(),
    {
        &self.permissions
    }

    pub fn metadata(&self) -> (r: &Metadata)
        ensures
            *r == self.spec_meta(),
    {
        &self.meta
    }

    pub fn path(&self) -> (r: &str)
        ensures
            r@ == self.spec_path(),
    {
        self.path.as_str()
    }

    pub fn file_name(&self) -> (r: &str)
        ensures
            r@ == self.spec_name(),
    {
        self.name.as_str()
    }

    /// The extension the entry shows: absent for directories, and
    /// otherwise the lower-cased characters after the last dot of the
    /// name, when that dot is neither first nor last.
    pub open spec fn spec_extension(&self) -> Option<Seq<char>> {
        if self.spec_etype() == EntryType::Dir {
            None
        } else {
            match ext_spec(self.spec_name()) {
                Some(e) => Some(text::lower_seq(e)),
                None => None,
            }
        }
    }

    /// The entry's extension, when it has one.
    pub fn extension(&self) -> (r: Option<String>)
        ensures
            r is Some <==> self.spec_extension() is Some,
            r matches Some(e) ==> self.spec_extension() matches Some(s) && e@ == s,
    {
        if self.is_dir() {
            return None;
        }
        let name = self.name.as_str();
        let n = name.unicode_len();
        let mut j: usize = n;
        loop
            invariant
                0 <= j <= n,
                n == name@.len(),
                forall|k: int| j <= k < n ==> name@[k] != '.',
            ensures
                0 <= j <= n,
                forall|k: int| j <= k < n ==> name@[k] != '.',
                j == 0 || name@[j - 1] == '.',
            decreases j,
        {
            if j == 0 {
                break;
            }
            let c = name.get_char(j - 1);
            if c == '.' {
                break;
            }
            j -= 1;
        }
        proof {
            lemma_last_dot_at(name@, j as int);
        }
        if j >= 2 && j < n {
            let e = name.substring_char(j, n);
            proof {
                assert(e@ =~= name@.skip(j as int));
            }
            Some(text::ascii_lower(e))
        } else {
            None
        }
    }

    /// Whether the entry's name begins with a dot.
    pub open spec fn spec_is_dot(&self) -> bool {
        self.spec_name().len() > 0 && self.spec_name()[0] == '.'
    }

    pub(crate) fn is_dot(&self) -> (r: bool)
        ensures
            r == self.spec_is_dot(),
    {
        let name = self.name.as_str();
        if name.unicode_len() == 0 {
            false
        } else {
            name.get_char(0) == '.'
        }
    }

    /// Hidden entries: dotfiles, and entries whose platform attributes
    /// mark them hidden.
    pub open spec fn spec_is_hidden(&self) -> bool {
        self.spec_is_dot() || self.spec_perms().spec_attributes().hidden
    }

    pub fn is_hidden(&self) -> (r: bool)
        ensures
            r == self.spec_is_hidden(),
    {
        self.is_dot() || self.permissions.is_hidden()
    }

    /// Whether any principal of the record may execute the entry, or
    /// the platform attributes mark it executable. A platform that
    /// treats certain extensions as executable folds that set into the
    /// attribute when it fills the record in.
    pub fn is_executable(&self) -> (r: bool)
        ensures
            r == self.spec_perms().spec_any_executable(),
    {
        self.permissions.any_executable()
    }

    pub fn is_dir(&self) -> (r: bool)
        ensures
            r == (self.spec_etype() == EntryType::Dir),
    {
        matches!(self.entry_type, EntryType::Dir)
    }

    pub fn is_file(&self) -> (r: bool)
        ensures
            r == (self.spec_etype() == EntryType::File),
    {
        matches!(self.entry_type, EntryType::File)
    }
}

impl PartialEq for Entry {
    /// Two entries are the same entry when they are of the same kind at
    /// the same path.
    fn eq(&self, other: &Self) -> (r: bool) {
        self.entry_type == other.entry_type && self.path == other.path
    }
}

impl vstd::std_specs::cmp::PartialEqSpecImpl for Entry {
    open spec fn obeys_eq_spec() -> bool {
        true
    }

    open spec fn eq_spec(&self, other: &Entry) -> bool {
        self.spec_etype() == other.spec_etype() && self.spec_path() == other.spec_path()
    }
}

impl Eq for Entry {

}


// ---------------------------------------------------------------------------
// Partition combinators and the entry pipeline
// ---------------------------------------------------------------------------

/// Puts directories before files; a sorter and a filter in one.
#[derive(Debug, Clone, Copy, PartialEq, Eq)]
pub struct Directory<T = sort::Natural>(pub T);

impl Default for Directory<sort::Natural> {
    /// Directories first, natural order within each side.
    fn default() -> (r: Self)
        ensures
            r == Directory(sort::Natural),
    {
        Directory(sort::Natural)
    }
}

impl<T: sort::SortStrategy> sort::SortStrategy for Directory<T> {
    open spec fn cmp_spec(&self, a: Entry, b: Entry) -> core::cmp::Ordering {
        let da = a.spec_etype() == EntryType::Dir;
        let db = b.spec_etype() == EntryType::Dir;
        if da && !db {
            core::cmp::Ordering::Less
        } else if !da && db {
            core::cmp::Ordering::Greater
        } else {
            self.0.cmp_spec(a, b)
        }
    }

    proof fn lemma_flip(&self, a: Entry, b: Entry) {
        self.0.lemma_flip(a, b);
    }

    proof fn lemma_trans(&self, a: Entry, b: Entry, c: Entry) {
        let da = a.spec_etype() == EntryType::Dir;
        let db = b.spec_etype() == EntryType::Dir;
        let dc = c.spec_etype() == EntryType::Dir;
        if da == db && db == dc {
            self.0.lemma_trans(a, b, c);
        }
    }

    fn compare(&self, a: &Entry, b: &Entry) -> (r: core::cmp::Ordering) {
        let da = a.is_dir();
        let db = b.is_dir();
        if da && !db {
            core::cmp::Ordering::Less
        } else if !da && db {
            core::cmp::Ordering::Greater
        } else {
            self.0.compare(a, b)
        }
    }
}

impl<T> filter::Filter for Directory<T> {
    open spec fn keep_spec(&self, entry: Entry) -> bool {
        entry.spec_etype() == EntryType::Dir
    }

    fn keep(&self, entry: &Entry) -> (r: bool) {
        entry.is_dir()
    }
}

impl<T> sort::Matches for Directory<T> {
    open spec fn matches_spec(entry: Entry) -> bool {
        entry.spec_etype() == EntryType::Dir
    }

    fn matches(entry: &Entry) -> (r: bool) {
        entry.is_dir()
    }
}

/// Puts hidden entries before the rest; a sorter and a filter in one.
#[derive(Debug, Clone, Copy, PartialEq, Eq)]
pub struct Hidden<T = sort::Natural>(pub T);

impl<T: Default> Default for Hidden<T> {
    fn default() -> (r: Self) {
        Hidden(T::default())
    }
}

impl<T: sort::SortStrategy> sort::SortStrategy for Hidden<T> {
    open spec fn cmp_spec(&self, a: Entry, b: Entry) -> core::cmp::Ordering {
        let ha = a.spec_is_hidden();
        let hb = b.spec_is_hidden();
        if ha && !hb {
            core::cmp::Ordering::Less
        } else if !ha && hb {
            core::cmp::Ordering::Greater
        } else {
            self.0.cmp_spec(a, b)
        }
    }

    proof fn lemma_flip(&self, a: Entry, b: Entry) {
        self.0.lemma_flip(a, b);
    }

    proof fn lemma_trans(&self, a: Entry, b: Entry, c: Entry) {
        let ha = a.spec_is_hidden();
        let hb = b.spec_is_hidden();
        let hc = c.spec_is_hidden();
        if ha == hb && hb == hc {
            self.0.lemma_trans(a, b, c);
        }
    }

    fn compare(&self, a: &Entry, b: &Entry) -> (r: core::cmp::Ordering) {
        let ha = a.is_hidden();
        let hb = b.is_hidden();
        if ha && !hb {
            core::cmp::Ordering::Less
        } else if !ha && hb {
            core::cmp::Ordering::Greater
        } else {
            self.0.compare(a, b)
        }
    }
}

impl<T> filter::Filter for Hidden<T> {
    open spec fn keep_spec(&self, entry: Entry) -> bool {
        entry.spec_is_hidden()
    }

    fn keep(&self, entry: &Entry) -> (r: bool) {
        entry.is_hidden()
    }
}

impl<T> sort::Matches for Hidden<T> {
    open spec fn matches_spec(entry: Entry) -> bool {
        entry.spec_is_hidden()
    }

    fn matches(entry: &Entry) -> (r: bool) {
        entry.is_hidden()
    }
}

/// Under a directory-first strategy every directory precedes every file
/// in the sorted output.
pub proof fn lemma_directory_first<T: sort::SortStrategy>(
    d: Directory<T>,
    input: Seq<Entry>,
    i: int,
    j: int,
)
    requires
        0 <= i < j < sort::sort_spec(d, input).len(),
        sort::sort_spec(d, input)[j].spec_etype() == EntryType::Dir,
    ensures
        sort::sort_spec(d, input)[i].spec_etype() == EntryType::Dir,
{
    sort::lemma_sort_sorted(d, input);
    let out = sort::sort_spec(d, input);
    if out[i].spec_etype() != EntryType::Dir {
        assert(d.cmp_spec(out[i], out[j]) == core::cmp::Ordering::Greater);
    }
}

/// Keeps exactly the entries the filter keeps, in their given order.
pub fn filter_entries<F: filter::Filter>(entries: Vec<Entry>, filters: &F) -> (out: Vec<Entry>)
    ensures
        out@ == entries@.filter(|e: Entry| filters.keep_spec(e)),
{
    let ghost orig = entries@;
    let ghost pred = |e: Entry| filters.keep_spec(e);
    let mut input = entries;
    let mut out: Vec<Entry> = Vec::new();
    let ghost mut done: int = 0;
    proof {
        reveal(Seq::filter);
        assert(orig.skip(0) =~= orig);
        assert(orig.take(0) =~= Seq::<Entry>::empty());
        assert(out@ =~= orig.take(0).filter(pred));
    }
    while input.len() > 0
        invariant
            0 <= done <= orig.len(),
            input@ == orig.skip(done),
            pred == (|e: Entry| filters.keep_spec(e)),
            out@ == orig.take(done).filter(pred),
        decreases input.len(),
    {
        let e = input.remove(0);
        proof {
            assert(e == orig.skip(done)[0]);
            assert(e == orig[done]);
            assert(orig.skip(done).skip(1) =~= orig.skip(done + 1));
            assert(input@ =~= orig.skip(done + 1));
        }
        let kept = filters.keep(&e);
        proof {
            let prev = orig.take(done);
            assert(orig.take(done + 1) =~= prev.push(e));
            reveal(Seq::filter);
            assert(orig.take(done + 1).filter(pred) == (if pred(e) {
                prev.filter(pred).push(e)
            } else {
                prev.filter(pred)
            })) by {
                assert(orig.take(done + 1).drop_last() =~= prev);
                assert(orig.take(done + 1).last() == e);
            }
        }
        if kept {
            out.push(e);
        }
        proof {
            done = done + 1;
        }
    }
    proof {
        assert(orig.take(done) =~= orig);
    }
    out
}

/// The scanner's computing half: keeps what the filter keeps and orders
/// the survivors stably by the strategy.
pub fn organize<F: filter::Filter, S: sort::SortStrategy>(
    entries: Vec<Entry>,
    filters: &F,
    sorter: &S,
) -> (out: Vec<Entry>)
    ensures
        out@ == sort::sort_spec(*sorter, entries@.filter(|e: Entry| filters.keep_spec(e))),
{
    let kept = filter_entries(entries, filters);
    sort::sort_entries(kept, sorter)
}

} // verus!
