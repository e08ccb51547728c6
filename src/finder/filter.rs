//! The filter pipeline: predicates that decide which entries are reported.
//!
//! Name filters match glob patterns (`*`, `?`, character classes) against an
//! entry's base name, through the glob crate. A pipeline keeps an entry when
//! every installed filter accepts it.
use vstd::prelude::*;
use crate::errors::{ErrorView, FindError, FindResult};
use super::entry::{Entry, EntryKind};

verus! {

/// Whether the glob crate accepts `pattern` as a pattern.
pub uninterp spec fn glob_accepts(pattern: Seq<char>) -> bool;

/// Whether the glob crate matches `name` against the pattern `pattern`.
pub uninterp spec fn glob_matches(pattern: Seq<char>, name: Seq<char>) -> bool;

/// The lower-case form of `s`, as `str::to_lowercase` computes it.
pub uninterp spec fn lowercase_of(s: Seq<char>) -> Seq<char>;

/// A glob pattern compiled by the glob crate, with the text it was compiled
/// from. Only [`GlobPattern::compile`] builds one, so the compiled pattern is
/// always glob's compilation of the text.
pub struct GlobPattern {
    compiled: glob::Pattern,
    text: String,
}

impl View for GlobPattern {
    type V = Seq<char>;

    closed spec fn view(&self) -> Seq<char> {
        self.text@
    }
}

#[verifier::external_type_specification]
#[verifier::external_body]
pub struct ExGlobPattern(glob::Pattern);

/// Relies on glob::Pattern::new: compiles `text`, or says in words why glob
/// rejects it.
#[verifier::external_body]
fn compile_glob(text: &str) -> (r: Result<GlobPattern, String>)
    ensures
        r is Ok <==> glob_accepts(text@),
        r is Ok ==> r->Ok_0@ == text@,
{
    match glob::Pattern::new(text) {
        Ok(compiled) => Ok(GlobPattern { compiled, text: text.to_string() }),
        Err(e) => Err(e.to_string()),
    }
}

/// Relies on glob::Pattern::matches: whether `name` matches the compiled pattern.
#[verifier::external_body]
fn glob_pattern_matches(pattern: &GlobPattern, name: &str) -> (r: bool)
    ensures
        r == glob_matches(pattern@, name@),
{
    pattern.compiled.matches(name)
}

/// Relies on str::to_lowercase: the lower-case form of `s`.
#[verifier::external_body]
fn lowercase(s: &str) -> (r: String)
    ensures
        r@ == lowercase_of(s@),
{
    s.to_lowercase()
}

impl GlobPattern {
    /// Compiles `text`; the error is the glob crate's description of the fault.
    pub fn compile(text: &str) -> (r: Result<GlobPattern, String>)
        ensures
            r is Ok <==> glob_accepts(text@),
            r is Ok ==> r->Ok_0@ == text@,
    {
        compile_glob(text)
    }

    /// Whether `name` matches this pattern.
    pub fn matches(&self, name: &str) -> (r: bool)
        ensures
            r == glob_matches(self@, name@),
    {
        glob_pattern_matches(self, name)
    }
}

/// Whether a name filter over `pattern` accepts `name`: a case-sensitive
/// filter matches the name against the pattern; a case-insensitive one
/// matches the lower-cased name against the lower-cased pattern, and accepts
/// nothing if the lower-cased pattern is not a pattern.
pub open spec fn name_accepts(pattern: Seq<char>, ignore_case: bool, name: Seq<char>) -> bool {
    if ignore_case {
        glob_accepts(lowercase_of(pattern)) && glob_matches(lowercase_of(pattern), lowercase_of(name))
    } else {
        glob_matches(pattern, name)
    }
}

/// The error message of a pattern that glob rejects.
pub open spec fn invalid_pattern_message(pattern: Seq<char>, detail: Seq<char>) -> Seq<char> {
    "Invalid pattern '"@ + pattern + "': "@ + detail
}

/// Whether `e` reports that glob rejected `pattern`, with glob's reason.
pub open spec fn is_invalid_pattern_error(e: ErrorView, pattern: Seq<char>) -> bool {
    exists|detail: Seq<char>|
        e == (ErrorView::PatternError { message: #[trigger] invalid_pattern_message(pattern, detail) })
}

/// The description of a name filter over `pattern`.
pub open spec fn name_description(pattern: Seq<char>, ignore_case: bool) -> Seq<char> {
    if ignore_case {
        "name (ignore case) matches '"@ + pattern + "'"@
    } else {
        "name matches '"@ + pattern + "'"@
    }
}

/// A filter over an entry and a description of it.
pub trait FileFilter {
    /// Whether the filter keeps `entry`.
    spec fn accepts(&self, entry: Entry) -> bool;

    /// Whether the filter keeps `entry`.
    fn matches(&self, entry: &Entry) -> (r: bool)
        ensures
            r == self.accepts(*entry),
    ;

    /// A description of the filter, for people.
    fn description(&self) -> String;
}

/// Matches an entry's base name against one glob pattern.
pub struct NameFilter {
    pattern: GlobPattern,
    folded: Option<GlobPattern>,
    original_pattern: String,
    ignore_case: bool,
}

impl NameFilter {
    #[verifier::type_invariant]
    spec fn wf(&self) -> bool {
        &&& self.pattern@ == self.original_pattern@
        &&& (self.folded is Some <==> glob_accepts(lowercase_of(self.original_pattern@)))
        &&& self.folded is Some ==> self.folded->Some_0@ == lowercase_of(self.original_pattern@)
    }

    /// The pattern the filter was built from.
    pub closed spec fn pattern_text(&self) -> Seq<char> {
        self.original_pattern@
    }

    /// Whether the filter ignores case.
    pub closed spec fn is_ignore_case(&self) -> bool {
        self.ignore_case
    }

    /// Whether the filter keeps an entry called `name`.
    pub open spec fn accepts_name(&self, name: Seq<char>) -> bool {
        name_accepts(self.pattern_text(), self.is_ignore_case(), name)
    }

    fn build(pattern: &str, ignore_case: bool) -> (r: FindResult<Self>)
        ensures
            r is Ok <==> glob_accepts(pattern@),
            r is Ok ==> r->Ok_0.pattern_text() == pattern@ && r->Ok_0.is_ignore_case() == ignore_case,
            r is Err ==> is_invalid_pattern_error(r->Err_0@, pattern@),
    {
        match GlobPattern::compile(pattern) {
            Ok(compiled) => {
                let lower = lowercase(pattern);
                let folded = match GlobPattern::compile(lower.as_str()) {
                    Ok(p) => Some(p),
                    Err(_) => None,
                };
                Ok(NameFilter {
                    pattern: compiled,
                    folded,
                    original_pattern: String::from_str(pattern),
                    ignore_case,
                })
            },
            Err(detail) => {
                let mut message = String::from_str("Invalid pattern '");
                message.append(pattern);
                message.append("': ");
                message.append(detail.as_str());
                assert(message@ == invalid_pattern_message(pattern@, detail@));
                Err(FindError::PatternError { message })
            },
        }
    }

    /// A case-sensitive filter over `pattern`; an error if glob rejects the pattern.
    pub fn new(pattern: &str) -> (r: FindResult<Self>)
        ensures
            r is Ok <==> glob_accepts(pattern@),
            r is Ok ==> r->Ok_0.pattern_text() == pattern@ && !r->Ok_0.is_ignore_case(),
            r is Err ==> is_invalid_pattern_error(r->Err_0@, pattern@),
    {
        NameFilter::build(pattern, false)
    }

    /// A case-insensitive filter over `pattern`; an error if glob rejects the pattern.
    pub fn new_ignore_case(pattern: &str) -> (r: FindResult<Self>)
        ensures
            r is Ok <==> glob_accepts(pattern@),
            r is Ok ==> r->Ok_0.pattern_text() == pattern@ && r->Ok_0.is_ignore_case(),
            r is Err ==> is_invalid_pattern_error(r->Err_0@, pattern@),
    {
        NameFilter::build(pattern, true)
    }

    /// Whether the filter keeps an entry called `name`.
    pub fn matches_name(&self, name: &str) -> (r: bool)
        ensures
            r == self.accepts_name(name@),
    {
        proof {
            use_type_invariant(self);
        }
        if self.ignore_case {
            match &self.folded {
                Some(p) => {
                    let lower = lowercase(name);
                    p.matches(lower.as_str())
                },
                None => false,
            }
        } else {
            self.pattern.matches(name)
        }
    }

    /// The pattern the filter was built from.
    pub fn pattern(&self) -> (r: &str)
        ensures
            r@ == self.pattern_text(),
    {
        self.original_pattern.as_str()
    }
}

impl FileFilter for NameFilter {
    open spec fn accepts(&self, entry: Entry) -> bool {
        self.accepts_name(entry.name@)
    }

    fn matches(&self, entry: &Entry) -> (r: bool) {
        self.matches_name(entry.name.as_str())
    }

    fn description(&self) -> (r: String)
        ensures
            r@ == name_description(self.pattern_text(), self.is_ignore_case()),
    {
        let mut s = if self.ignore_case {
            String::from_str("name (ignore case) matches '")
        } else {
            String::from_str("name matches '")
        };
        s.append(self.original_pattern.as_str());
        s.append("'");
        s
    }
}

/// The patterns of `filters`, in order.
pub open spec fn pattern_texts(filters: Seq<NameFilter>) -> Seq<Seq<char>> {
    filters.map_values(|f: NameFilter| f.pattern_text())
}

/// `items` separated by a comma and a space.
pub open spec fn join_comma(items: Seq<Seq<char>>) -> Seq<char>
    decreases items.len(),
{
    if items.len() == 0 {
        Seq::empty()
    } else if items.len() == 1 {
        items[0]
    } else {
        join_comma(items.drop_last()) + ", "@ + items.last()
    }
}

/// Whether every pattern of `patterns` is non-empty.
pub open spec fn all_non_empty(patterns: Seq<String>) -> bool {
    forall|i: int| 0 <= i < patterns.len() ==> (#[trigger] patterns[i])@.len() > 0
}

/// Whether glob accepts every pattern of `patterns`.
pub open spec fn all_accepted(patterns: Seq<String>) -> bool {
    forall|i: int| 0 <= i < patterns.len() ==> glob_accepts((#[trigger] patterns[i])@)
}

/// The message of the error for an empty pattern.
pub open spec fn empty_pattern_message() -> Seq<char> {
    "Empty pattern is not allowed"@
}

/// The description of a several-pattern filter over `patterns`.
pub open spec fn multi_description(patterns: Seq<Seq<char>>, any_match: bool) -> Seq<char> {
    (if any_match { "文件名匹配任一模式 ["@ } else { "文件名匹配所有模式 ["@ }) + join_comma(patterns) + "]"@
}

/// Matches an entry's base name against several glob patterns, keeping it
/// when any pattern matches (the default) or when all of them match. With no
/// pattern every entry is kept.
pub struct MultiNameFilter {
    patterns: Vec<NameFilter>,
    any_match: bool,
}

impl MultiNameFilter {
    /// The name filters, one per pattern, in order.
    pub closed spec fn filters(&self) -> Seq<NameFilter> {
        self.patterns@
    }

    /// Whether one matching pattern suffices.
    pub closed spec fn is_any_match(&self) -> bool {
        self.any_match
    }

    /// Whether the filter keeps an entry called `name`.
    pub open spec fn accepts_name(&self, name: Seq<char>) -> bool {
        let fs = self.filters();
        if fs.len() == 0 {
            true
        } else if self.is_any_match() {
            exists|i: int| 0 <= i < fs.len() && (#[trigger] fs[i]).accepts_name(name)
        } else {
            forall|i: int| 0 <= i < fs.len() ==> (#[trigger] fs[i]).accepts_name(name)
        }
    }

    /// Rejects an empty pattern before anything is compiled.
    fn validate_patterns(patterns: &[String]) -> (r: FindResult<()>)
        ensures
            r is Ok <==> all_non_empty(patterns@),
            r is Err ==> r->Err_0@ == (ErrorView::PatternError { message: empty_pattern_message() }),
    {
        let mut i: usize = 0;
        while i < patterns.len()
            invariant
                i <= patterns@.len(),
                forall|j: int| 0 <= j < i ==> (#[trigger] patterns@[j])@.len() > 0,
            decreases patterns@.len() - i,
        {
            if patterns[i].as_str().unicode_len() == 0 {
                return Err(FindError::PatternError { message: String::from_str("Empty pattern is not allowed") });
            }
            i = i + 1;
        }
        Ok(())
    }

    /// One name filter per pattern, in order; the first pattern that glob
    /// rejects gives the error.
    fn create_filters(patterns: &[String], ignore_case: bool) -> (r: FindResult<Vec<NameFilter>>)
        ensures
            r is Ok <==> all_accepted(patterns@),
            r is Ok ==> pattern_texts(r->Ok_0@) == patterns@.map_values(|p: String| p@),
            r is Ok ==> forall|i: int| 0 <= i < r->Ok_0@.len() ==> (#[trigger] r->Ok_0@[i]).is_ignore_case() == ignore_case,
            r is Err ==> exists|i: int| 0 <= i < patterns@.len() && !glob_accepts(patterns@[i]@)
                && is_invalid_pattern_error(r->Err_0@, (#[trigger] patterns@[i])@),
    {
        let mut filters: Vec<NameFilter> = Vec::new();
        let mut i: usize = 0;
        while i < patterns.len()
            invariant
                i <= patterns@.len(),
                filters@.len() == i,
                forall|j: int| 0 <= j < i ==> glob_accepts((#[trigger] patterns@[j])@),
                forall|j: int| 0 <= j < i ==> (#[trigger] filters@[j]).pattern_text() == patterns@[j]@,
                forall|j: int| 0 <= j < i ==> (#[trigger] filters@[j]).is_ignore_case() == ignore_case,
            decreases patterns@.len() - i,
        {
            let filter = if ignore_case {
                NameFilter::new_ignore_case(patterns[i].as_str())
            } else {
                NameFilter::new(patterns[i].as_str())
            };
            match filter {
                Ok(f) => filters.push(f),
                Err(e) => {
                    return Err(e);
                },
            }
            i = i + 1;
        }
        assert(pattern_texts(filters@) =~= patterns@.map_values(|p: String| p@));
        Ok(filters)
    }

    /// A filter over `patterns` that keeps an entry when any of them matches;
    /// an error if a pattern is empty (checked first) or rejected by glob.
    pub fn new(patterns: &[String], ignore_case: bool) -> (r: FindResult<Self>)
        ensures
            r is Ok <==> all_non_empty(patterns@) && all_accepted(patterns@),
            !all_non_empty(patterns@) ==> r is Err && r->Err_0@ == (ErrorView::PatternError { message: empty_pattern_message() }),
            all_non_empty(patterns@) && r is Err ==> exists|i: int| 0 <= i < patterns@.len() && !glob_accepts(patterns@[i]@)
                && is_invalid_pattern_error(r->Err_0@, (#[trigger] patterns@[i])@),
            r is Ok ==> pattern_texts(r->Ok_0.filters()) == patterns@.map_values(|p: String| p@),
            r is Ok ==> forall|i: int| 0 <= i < r->Ok_0.filters().len() ==> (#[trigger] r->Ok_0.filters()[i]).is_ignore_case() == ignore_case,
            r is Ok ==> r->Ok_0.is_any_match(),
    {
        MultiNameFilter::validate_patterns(patterns)?;
        let patterns = MultiNameFilter::create_filters(patterns, ignore_case)?;
        Ok(MultiNameFilter { patterns, any_match: true })
    }

    /// Sets whether one matching pattern suffices (true) or all must match (false).
    pub fn with_any_match(self, any_match: bool) -> (r: Self)
        ensures
            r.filters() == self.filters(),
            r.is_any_match() == any_match,
    {
        MultiNameFilter { patterns: self.patterns, any_match }
    }

    /// Whether the filter keeps an entry called `name`.
    pub fn matches_name(&self, name: &str) -> (r: bool)
        ensures
            r == self.accepts_name(name@),
    {
        let n = self.patterns.len();
        if n == 0 {
            return true;
        }
        let mut i: usize = 0;
        while i < n
            invariant
                n == self.patterns@.len(),
                i <= n,
                self.any_match ==> forall|j: int| 0 <= j < i ==> !(#[trigger] self.patterns@[j]).accepts_name(name@),
                !self.any_match ==> forall|j: int| 0 <= j < i ==> (#[trigger] self.patterns@[j]).accepts_name(name@),
            decreases n - i,
        {
            let m = self.patterns[i].matches_name(name);
            if self.any_match && m {
                return true;
            }
            if !self.any_match && !m {
                return false;
            }
            i = i + 1;
        }
        !self.any_match
    }
}

impl FileFilter for MultiNameFilter {
    open spec fn accepts(&self, entry: Entry) -> bool {
        self.accepts_name(entry.name@)
    }

    fn matches(&self, entry: &Entry) -> (r: bool) {
        self.matches_name(entry.name.as_str())
    }

    fn description(&self) -> (r: String)
        ensures
            r@ == multi_description(pattern_texts(self.filters()), self.is_any_match()),
    {
        let mut s = if self.any_match {
            String::from_str("文件名匹配任一模式 [")
        } else {
            String::from_str("文件名匹配所有模式 [")
        };
        let ghost head = s@;
        let ghost texts = pattern_texts(self.patterns@);
        let mut i: usize = 0;
        while i < self.patterns.len()
            invariant
                i <= self.patterns@.len(),
                texts == pattern_texts(self.patterns@),
                s@ == head + join_comma(texts.take(i as int)),
            decreases self.patterns@.len() - i,
        {
            let ghost before = s@;
            assert(texts.take(i + 1).drop_last() =~= texts.take(i as int));
            if i > 0 {
                s.append(", ");
            }
            s.append(self.patterns[i].pattern());
            i = i + 1;
            assert(s@ =~= head + join_comma(texts.take(i as int)));
        }
        assert(texts.take(i as int) =~= texts);
        s.append("]");
        s
    }
}

/// The file types a type filter can select.
#[derive(Debug, Clone, Copy, PartialEq, Eq, Structural)]
pub enum FileType {
    /// A regular file.
    File,
    /// A directory.
    Directory,
    /// A symbolic link.
    SymbolicLink,
}

/// The file type that `code` names: `f`, `d` or `l`.
pub open spec fn file_type_of_code(code: Seq<char>) -> Option<FileType> {
    if code == seq!['f'] {
        Some(FileType::File)
    } else if code == seq!['d'] {
        Some(FileType::Directory)
    } else if code == seq!['l'] {
        Some(FileType::SymbolicLink)
    } else {
        None
    }
}

/// The entry kind that a file type selects.
pub open spec fn kind_of_file_type(t: FileType) -> EntryKind {
    match t {
        FileType::File => EntryKind::Regular,
        FileType::Directory => EntryKind::Directory,
        FileType::SymbolicLink => EntryKind::Symlink,
    }
}

/// Keeps the entries of one file type.
pub struct TypeFilter {
    pub file_type: FileType,
}

impl TypeFilter {
    /// The filter for the type that `type_code` names (`f`, `d` or `l`); an
    /// error for any other code.
    pub fn new(type_code: &str) -> (r: Result<Self, FindError>)
        ensures
            file_type_of_code(type_code@) is Some ==> r is Ok && r->Ok_0.file_type == file_type_of_code(type_code@)->Some_0,
            file_type_of_code(type_code@) is None ==> r is Err && r->Err_0@ == ErrorView::InvalidFileType(type_code@),
    {
        if type_code.unicode_len() == 1 {
            let c = type_code.get_char(0);
            assert(type_code@ =~= seq![c]);
            if c == 'f' {
                return Ok(TypeFilter { file_type: FileType::File });
            } else if c == 'd' {
                return Ok(TypeFilter { file_type: FileType::Directory });
            } else if c == 'l' {
                return Ok(TypeFilter { file_type: FileType::SymbolicLink });
            }
        }
        Err(FindError::InvalidFileType(String::from_str(type_code)))
    }
}

impl FileFilter for TypeFilter {
    open spec fn accepts(&self, entry: Entry) -> bool {
        entry.kind == kind_of_file_type(self.file_type)
    }

    fn matches(&self, entry: &Entry) -> (r: bool) {
        match self.file_type {
            FileType::File => entry.kind == EntryKind::Regular,
            FileType::Directory => entry.kind == EntryKind::Directory,
            FileType::SymbolicLink => entry.kind == EntryKind::Symlink,
        }
    }

    fn description(&self) -> (r: String)
        ensures
            r@ == match self.file_type {
                FileType::File => "is a regular file"@,
                FileType::Directory => "is a directory"@,
                FileType::SymbolicLink => "is a symbolic link"@,
            },
    {
        match self.file_type {
            FileType::File => String::from_str("is a regular file"),
            FileType::Directory => String::from_str("is a directory"),
            FileType::SymbolicLink => String::from_str("is a symbolic link"),
        }
    }
}

/// Asks the output stage for absolute or relative paths; keeps every entry.
#[derive(Debug, Clone, Copy, PartialEq, Eq, Structural)]
pub enum PathFormatFilter {
    /// Absolute paths.
    Absolute,
    /// Paths relative to the working directory.
    Relative,
}

impl FileFilter for PathFormatFilter {
    open spec fn accepts(&self, entry: Entry) -> bool {
        true
    }

    fn matches(&self, entry: &Entry) -> (r: bool) {
        true
    }

    fn description(&self) -> (r: String)
        ensures
            r@ == match self {
                PathFormatFilter::Absolute => "output absolute paths"@,
                PathFormatFilter::Relative => "output relative paths"@,
            },
    {
        match self {
            PathFormatFilter::Absolute => String::from_str("output absolute paths"),
            PathFormatFilter::Relative => String::from_str("output relative paths"),
        }
    }
}

/// One filter of a pipeline.
pub enum Filter {
    Name(NameFilter),
    MultiName(MultiNameFilter),
    Type(TypeFilter),
    PathFormat(PathFormatFilter),
}

impl FileFilter for Filter {
    open spec fn accepts(&self, entry: Entry) -> bool {
        match self {
            Filter::Name(f) => f.accepts(entry),
            Filter::MultiName(f) => f.accepts(entry),
            Filter::Type(f) => f.accepts(entry),
            Filter::PathFormat(f) => f.accepts(entry),
        }
    }

    fn matches(&self, entry: &Entry) -> (r: bool) {
        match self {
            Filter::Name(f) => f.matches(entry),
            Filter::MultiName(f) => f.matches(entry),
            Filter::Type(f) => f.matches(entry),
            Filter::PathFormat(f) => f.matches(entry),
        }
    }

    fn description(&self) -> (r: String) {
        match self {
            Filter::Name(f) => f.description(),
            Filter::MultiName(f) => f.description(),
            Filter::Type(f) => f.description(),
            Filter::PathFormat(f) => f.description(),
        }
    }
}

/// Whether every filter of `filters` keeps `entry`.
pub open spec fn pipeline_accepts(filters: Seq<Filter>, entry: Entry) -> bool {
    forall|i: int| 0 <= i < filters.len() ==> (#[trigger] filters[i]).accepts(entry)
}

/// Whether every filter of `filters` keeps `entry`.
pub fn matches_all(filters: &[Filter], entry: &Entry) -> (r: bool)
    ensures
        r == pipeline_accepts(filters@, *entry),
{
    let mut i: usize = 0;
    while i < filters.len()
        invariant
            i <= filters@.len(),
            forall|j: int| 0 <= j < i ==> (#[trigger] filters@[j]).accepts(*entry),
        decreases filters@.len() - i,
    {
        if !filters[i].matches(entry) {
            return false;
        }
        i = i + 1;
    }
    true
}

/// Builds the filters that command-line choices call for.
pub struct FilterFactory;

impl FilterFactory {
    /// A name filter over `name_patterns` when there are any, then a path
    /// format filter when absolute (preferred) or relative paths are asked for.
    pub fn create_filters(
        name_patterns: Option<&[String]>,
        ignore_case: bool,
        absolute_path: bool,
        relative_path: bool,
    ) -> (r: FindResult<Vec<Filter>>)
        ensures
            ({
                let named = name_patterns is Some && name_patterns->Some_0@.len() > 0;
                let ps = name_patterns->Some_0@;
                &&& named ==> (r is Ok <==> all_non_empty(ps) && all_accepted(ps))
                &&& !named ==> r is Ok
                &&& r is Err ==> r->Err_0@ is PatternError
                &&& named && !all_non_empty(ps) ==> r is Err
                    && r->Err_0@ == (ErrorView::PatternError { message: empty_pattern_message() })
                &&& r is Ok ==> {
                    let fs = r->Ok_0@;
                    let nf: int = if named { 1 } else { 0 };
                    let np: int = if absolute_path || relative_path { 1 } else { 0 };
                    &&& fs.len() == nf + np
                    &&& named ==> fs[0] is MultiName
                        && pattern_texts(fs[0]->MultiName_0.filters()) == ps.map_values(|p: String| p@)
                        && fs[0]->MultiName_0.is_any_match()
                        && forall|i: int| 0 <= i < fs[0]->MultiName_0.filters().len()
                            ==> (#[trigger] fs[0]->MultiName_0.filters()[i]).is_ignore_case() == ignore_case
                    &&& absolute_path ==> fs[nf] == Filter::PathFormat(PathFormatFilter::Absolute)
                    &&& !absolute_path && relative_path ==> fs[nf] == Filter::PathFormat(PathFormatFilter::Relative)
                }
            }),
    {
        let mut filters: Vec<Filter> = Vec::new();
        match name_patterns {
            Some(patterns) => {
                if patterns.len() > 0 {
                    let name_filter = MultiNameFilter::new(patterns, ignore_case)?;
                    filters.push(Filter::MultiName(name_filter));
                }
            },
            None => {},
        }
        if absolute_path {
            filters.push(Filter::PathFormat(PathFormatFilter::Absolute));
        } else if relative_path {
            filters.push(Filter::PathFormat(PathFormatFilter::Relative));
        }
        Ok(filters)
    }
}

} // verus!
