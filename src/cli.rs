//! Command-line arguments, as plain values, and their validation.
use vstd::prelude::*;
use crate::errors::{ErrorView, FindError};
use crate::finder::filter::{GlobPattern, glob_accepts};
use crate::finder::options::FindOptions;

verus! {

/// Relies on std::path::Path::exists: whether something exists at `path`
/// now; the answer depends on the filesystem.
#[verifier::external_body]
fn path_exists(path: &str) -> (r: bool) {
    std::path::Path::new(path).exists()
}

/// The arguments of a search.
#[derive(Debug, Clone)]
pub struct Cli {
    /// Roots of the search.
    pub paths: Vec<String>,
    /// Depth bound.
    pub max_depth: Option<usize>,
    /// Follow symbolic links.
    pub follow_links: bool,
    /// Verbose logging.
    pub debug: bool,
    /// Print absolute paths.
    pub absolute: bool,
    /// Print paths relative to the working directory.
    pub relative: bool,
    /// Case-sensitive name patterns.
    pub name: Vec<String>,
    /// Case-insensitive name patterns.
    pub iname: Vec<String>,
    /// Search in parallel.
    pub parallel: bool,
    /// Skip input/output failures.
    pub ignore_io_errors: bool,
    /// Skip permission failures.
    pub ignore_permission_errors: bool,
    /// Report hidden entries too.
    pub no_ignore_hidden: bool,
    /// Greatest number of worker threads.
    pub max_threads: Option<usize>,
    /// Least number of worker threads.
    pub min_threads: Option<usize>,
    /// Directories per worker thread.
    pub dirs_per_thread: Option<usize>,
    /// Keep the worker count fixed.
    pub no_auto_adjust: bool,
}

/// The message of the error for a zero depth bound.
pub open spec fn zero_depth_message() -> Seq<char> {
    "最大深度必须大于0"@
}

/// The message of the error for a pattern that glob rejects on the command line.
pub open spec fn bad_pattern_message(pattern: Seq<char>, detail: Seq<char>) -> Seq<char> {
    "无效的模式 '"@ + pattern + "': "@ + detail
}

impl Cli {
    /// The patterns in use: the case-sensitive ones if any, else the
    /// case-insensitive ones.
    pub open spec fn spec_name_patterns(&self) -> Seq<String> {
        if self.name@.len() > 0 { self.name@ } else { self.iname@ }
    }

    /// Whether the depth bound, if any, is positive.
    pub open spec fn depth_is_valid(&self) -> bool {
        self.max_depth != Some(0usize)
    }

    /// The traversal options these arguments ask for.
    pub fn build_options(&self) -> (r: FindOptions)
        ensures
            r.max_depth == self.max_depth,
            r.follow_links == self.follow_links,
            r.ignore_permission_errors == self.ignore_permission_errors,
            r.ignore_io_errors == self.ignore_io_errors,
            r.ignore_hidden == !self.no_ignore_hidden,
            self.max_threads is Some ==> r.max_threads == self.max_threads->Some_0,
            self.max_threads is None ==> r.max_threads >= 1,
            r.min_threads == (match self.min_threads { Some(n) => n, None => 1 }),
            r.dirs_per_thread == (match self.dirs_per_thread { Some(n) => n, None => 10 }),
            r.auto_adjust == !self.no_auto_adjust,
    {
        FindOptions::from_cli(self)
    }

    /// Checks, in order, that every path exists, that the depth bound is
    /// positive and that glob accepts every pattern in use.
    pub fn validate(&self) -> (r: Result<(), FindError>)
        ensures
            r is Ok ==> self.depth_is_valid(),
            r is Ok ==> forall|i: int| 0 <= i < self.spec_name_patterns().len()
                ==> glob_accepts((#[trigger] self.spec_name_patterns()[i])@),
            !self.depth_is_valid() ==> r is Err,
            (exists|i: int| 0 <= i < self.spec_name_patterns().len()
                && !glob_accepts((#[trigger] self.spec_name_patterns()[i])@)) ==> r is Err,
            (self.paths@.len() == 0 && self.depth_is_valid() && (forall|i: int| 0 <= i < self.spec_name_patterns().len()
                ==> glob_accepts((#[trigger] self.spec_name_patterns()[i])@))) ==> r is Ok,
            r is Err ==> {
                ||| exists|i: int| 0 <= i < self.paths@.len()
                    && r->Err_0@ == ErrorView::FileNotFound((#[trigger] self.paths@[i])@)
                ||| !self.depth_is_valid()
                    && r->Err_0@ == (ErrorView::Other { message: zero_depth_message(), context: None })
                ||| self.depth_is_valid() && exists|i: int, detail: Seq<char>| 0 <= i < self.spec_name_patterns().len()
                    && !glob_accepts(self.spec_name_patterns()[i]@)
                    && r->Err_0@ == (ErrorView::PatternError {
                        message: #[trigger] bad_pattern_message((#[trigger] self.spec_name_patterns()[i])@, detail),
                    })
            },
    {
        self.validate_paths()?;
        self.validate_max_depth()?;
        self.validate_name_patterns()?;
        Ok(())
    }

    /// The first path that does not exist, as an error.
    fn validate_paths(&self) -> (r: Result<(), FindError>)
        ensures
            r is Err ==> exists|i: int| 0 <= i < self.paths@.len()
                && r->Err_0@ == ErrorView::FileNotFound((#[trigger] self.paths@[i])@),
            self.paths@.len() == 0 ==> r is Ok,
    {
        let mut i: usize = 0;
        while i < self.paths.len()
            invariant
                i <= self.paths@.len(),
            decreases self.paths@.len() - i,
        {
            if !path_exists(self.paths[i].as_str()) {
                let e = FindError::FileNotFound(self.paths[i].clone());
                assert(e@ == ErrorView::FileNotFound(self.paths@[i as int]@));
                return Err(e);
            }
            i = i + 1;
        }
        Ok(())
    }

    /// An error for a zero depth bound.
    fn validate_max_depth(&self) -> (r: Result<(), FindError>)
        ensures
            r is Ok <==> self.depth_is_valid(),
            r is Err ==> r->Err_0@ == (ErrorView::Other { message: zero_depth_message(), context: None }),
    {
        match self.max_depth {
            Some(depth) => {
                if depth == 0 {
                    return Err(FindError::Other {
                        message: String::from_str("最大深度必须大于0"),
                        context: None,
                    });
                }
            },
            None => {},
        }
        Ok(())
    }

    /// An error for the first pattern in use that glob rejects.
    fn validate_name_patterns(&self) -> (r: Result<(), FindError>)
        ensures
            r is Ok <==> forall|i: int| 0 <= i < self.spec_name_patterns().len()
                ==> glob_accepts((#[trigger] self.spec_name_patterns()[i])@),
            r is Err ==> exists|i: int, detail: Seq<char>| 0 <= i < self.spec_name_patterns().len()
                && !glob_accepts(self.spec_name_patterns()[i]@)
                && r->Err_0@ == (ErrorView::PatternError {
                    message: #[trigger] bad_pattern_message((#[trigger] self.spec_name_patterns()[i])@, detail),
                }),
    {
        let patterns = self.name_patterns();
        let mut i: usize = 0;
        while i < patterns.len()
            invariant
                patterns@ == self.spec_name_patterns(),
                i <= patterns@.len(),
                forall|j: int| 0 <= j < i ==> glob_accepts((#[trigger] patterns@[j])@),
            decreases patterns@.len() - i,
        {
            match GlobPattern::compile(patterns[i].as_str()) {
                Ok(_) => {},
                Err(detail) => {
                    let mut message = String::from_str("无效的模式 '");
                    message.append(patterns[i].as_str());
                    message.append("': ");
                    message.append(detail.as_str());
                    assert(message@ == bad_pattern_message(patterns@[i as int]@, detail@));
                    return Err(FindError::PatternError { message });
                },
            }
            i = i + 1;
        }
        Ok(())
    }

    /// Whether the case-insensitive patterns are given.
    pub fn ignore_case(&self) -> (r: bool)
        ensures
            r == (self.iname@.len() > 0),
    {
        self.iname.len() > 0
    }

    /// The patterns in use: the case-sensitive ones if any, else the
    /// case-insensitive ones (possibly none).
    pub fn name_patterns(&self) -> (r: &[String])
        ensures
            r@ == self.spec_name_patterns(),
    {
        if self.name.len() > 0 {
            self.name.as_slice()
        } else {
            self.iname.as_slice()
        }
    }
}

} // verus!
