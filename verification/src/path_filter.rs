//! Which paths of a tree are analysed: a built-in list of source-file name
//! patterns (unless all file types are wanted), then the optional `only` and
//! `ignore` glob lists.

use vstd::prelude::*;

use globset::{Glob, GlobSet, GlobSetBuilder};

use crate::analysis::path_views;
use crate::paths::spec_basename;
use crate::text::{chars_of, string_from_chars};
use crate::paths::basename_chars;

verus! {

#[verifier::external_type_specification]
#[verifier::external_body]
pub struct ExGlob(Glob);

#[verifier::external_type_specification]
#[verifier::external_body]
pub struct ExGlobSet(GlobSet);

#[verifier::external_type_specification]
#[verifier::external_body]
pub struct ExGlobSetBuilder(GlobSetBuilder);

#[verifier::external_type_specification]
#[verifier::external_body]
pub struct ExGlobError(globset::Error);

/// Whether `Glob::new` accepts `pattern`, as globset is built for this
/// target (its default escaping depends on the operating system).
pub uninterp spec fn glob_parses(pattern: Seq<char>) -> bool;

/// The pattern text a glob was made from.
pub uninterp spec fn glob_pattern(g: Glob) -> Seq<char>;

/// The patterns added to a builder, in order.
pub uninterp spec fn builder_patterns(b: GlobSetBuilder) -> Seq<Seq<char>>;

/// Whether valid glob patterns compile together into one set.
pub uninterp spec fn set_compiles(patterns: Seq<Seq<char>>) -> bool;

/// The patterns a glob set was built from.
pub uninterp spec fn set_patterns(s: GlobSet) -> Seq<Seq<char>>;

/// Whether glob `pattern` matches `path`, as globset is built for this
/// target (its path normalisation depends on the operating system).
pub uninterp spec fn glob_matches(pattern: Seq<char>, path: Seq<char>) -> bool;

/// `globset::Glob::new`: succeeds exactly for the patterns the crate
/// accepts, and the glob keeps the pattern's text.
#[verifier::external_body]
fn glob_new(pattern: &str) -> (r: Result<Glob, globset::Error>)
    ensures
        r is Ok <==> glob_parses(pattern@),
        r matches Ok(g) ==> glob_pattern(g) == pattern@,
{
    Glob::new(pattern)
}

/// `globset::GlobSetBuilder::new`: a builder with no pattern.
#[verifier::external_body]
fn builder_new() -> (b: GlobSetBuilder)
    ensures
        builder_patterns(b) == Seq::<Seq<char>>::empty(),
{
    GlobSetBuilder::new()
}

/// `globset::GlobSetBuilder::add`: appends the glob's pattern.
#[verifier::external_body]
fn builder_add(b: GlobSetBuilder, g: Glob) -> (r: GlobSetBuilder)
    ensures
        builder_patterns(r) == builder_patterns(b).push(glob_pattern(g)),
{
    let mut b = b;
    b.add(g);
    b
}

/// `globset::GlobSetBuilder::build`: succeeds exactly when the added
/// patterns compile together; the set matches by those patterns.
#[verifier::external_body]
fn builder_build(b: &GlobSetBuilder) -> (r: Result<GlobSet, globset::Error>)
    ensures
        r is Ok <==> set_compiles(builder_patterns(*b)),
        r matches Ok(s) ==> set_patterns(s) == builder_patterns(*b),
{
    b.build()
}

/// `globset::GlobSet::is_match`: whether any of the set's globs matches.
#[verifier::external_body]
fn set_is_match(s: &GlobSet, path: &str) -> (r: bool)
    ensures
        r == (exists|i: int| 0 <= i < set_patterns(*s).len() && glob_matches(#[trigger] set_patterns(*s)[i], path@)),
{
    s.is_match(path)
}

/// Some pattern of `s` matches `path`.
pub open spec fn set_matches(s: GlobSet, path: Seq<char>) -> bool {
    exists|i: int| 0 <= i < set_patterns(s).len() && glob_matches(#[trigger] set_patterns(s)[i], path)
}

/// Every pattern parses and together they compile.
pub open spec fn patterns_compile(patterns: Seq<Seq<char>>) -> bool {
    (forall|i: int| 0 <= i < patterns.len() ==> glob_parses(#[trigger] patterns[i])) && set_compiles(patterns)
}

/// Name patterns of source files analysed by default.
pub open spec fn default_filetype_patterns() -> Seq<Seq<char>> {
    seq![
        "*.c"@,
        "*.h"@,
        "*.cc"@,
        "*.cpp"@,
        "*.cxx"@,
        "*.c++"@,
        "*.hh"@,
        "*.hpp"@,
        "*.hxx"@,
        "*.h++"@,
        "*.cs"@,
        "*.java"@,
        "*.kt"@,
        "*.kts"@,
        "*.scala"@,
        "*.groovy"@,
        "*.go"@,
        "*.rs"@,
        "*.py"@,
        "*.pyw"@,
        "*.pyi"@,
        "*.pyx"@,
        "*.rb"@,
        "*.rake"@,
        "*.php"@,
        "*.pl"@,
        "*.pm"@,
        "*.lua"@,
        "*.js"@,
        "*.jsx"@,
        "*.mjs"@,
        "*.cjs"@,
        "*.ts"@,
        "*.tsx"@,
        "*.coffee"@,
        "*.dart"@,
        "*.swift"@,
        "*.m"@,
        "*.mm"@,
        "*.r"@,
        "*.R"@,
        "*.jl"@,
        "*.hs"@,
        "*.lhs"@,
        "*.ml"@,
        "*.mli"@,
        "*.fs"@,
        "*.fsi"@,
        "*.fsx"@,
        "*.clj"@,
        "*.cljs"@,
        "*.cljc"@,
        "*.el"@,
        "*.lisp"@,
        "*.scm"@,
        "*.rkt"@,
        "*.erl"@,
        "*.hrl"@,
        "*.ex"@,
        "*.exs"@,
        "*.elm"@,
        "*.nim"@,
        "*.zig"@,
        "*.d"@,
        "*.f"@,
        "*.f90"@,
        "*.f95"@,
        "*.pas"@,
        "*.vb"@,
        "*.sh"@,
        "*.bash"@,
        "*.zsh"@,
        "*.ksh"@,
        "*.fish"@,
        "*.ps1"@,
        "*.bat"@,
        "*.cmd"@,
        "*.sql"@,
        "*.html"@,
        "*.htm"@,
        "*.css"@,
        "*.scss"@,
        "*.sass"@,
        "*.less"@,
        "*.vue"@,
        "*.tex"@,
        "*.proto"@,
        "*.thrift"@,
        "*.graphql"@,
        "*.cmake"@,
        "CMakeLists.txt"@,
        "Makefile"@,
        "makefile"@,
        "*.mk"@,
        "Dockerfile"@,
        "*.toml"@,
        "*.ini"@,
        "*.cfg"@,
        "*.gradle"@,
        "*.asm"@,
        "*.s"@,
        "*.S"@,
        "*.v"@,
        "*.sv"@,
        "*.vhd"@,
        "*.vhdl"@,
        "*.tf"@,
        "*.nix"@,
        "*.vim"@
    ]
}

/// The name patterns of source files analysed by default.
pub fn default_patterns() -> (r: Vec<String>)
    ensures
        path_views(r@) == default_filetype_patterns(),
{
    let names: [&str; 109] = [
        "*.c",
        "*.h",
        "*.cc",
        "*.cpp",
        "*.cxx",
        "*.c++",
        "*.hh",
        "*.hpp",
        "*.hxx",
        "*.h++",
        "*.cs",
        "*.java",
        "*.kt",
        "*.kts",
        "*.scala",
        "*.groovy",
        "*.go",
        "*.rs",
        "*.py",
        "*.pyw",
        "*.pyi",
        "*.pyx",
        "*.rb",
        "*.rake",
        "*.php",
        "*.pl",
        "*.pm",
        "*.lua",
        "*.js",
        "*.jsx",
        "*.mjs",
        "*.cjs",
        "*.ts",
        "*.tsx",
        "*.coffee",
        "*.dart",
        "*.swift",
        "*.m",
        "*.mm",
        "*.r",
        "*.R",
        "*.jl",
        "*.hs",
        "*.lhs",
        "*.ml",
        "*.mli",
        "*.fs",
        "*.fsi",
        "*.fsx",
        "*.clj",
        "*.cljs",
        "*.cljc",
        "*.el",
        "*.lisp",
        "*.scm",
        "*.rkt",
        "*.erl",
        "*.hrl",
        "*.ex",
        "*.exs",
        "*.elm",
        "*.nim",
        "*.zig",
        "*.d",
        "*.f",
        "*.f90",
        "*.f95",
        "*.pas",
        "*.vb",
        "*.sh",
        "*.bash",
        "*.zsh",
        "*.ksh",
        "*.fish",
        "*.ps1",
        "*.bat",
        "*.cmd",
        "*.sql",
        "*.html",
        "*.htm",
        "*.css",
        "*.scss",
        "*.sass",
        "*.less",
        "*.vue",
        "*.tex",
        "*.proto",
        "*.thrift",
        "*.graphql",
        "*.cmake",
        "CMakeLists.txt",
        "Makefile",
        "makefile",
        "*.mk",
        "Dockerfile",
        "*.toml",
        "*.ini",
        "*.cfg",
        "*.gradle",
        "*.asm",
        "*.s",
        "*.S",
        "*.v",
        "*.sv",
        "*.vhd",
        "*.vhdl",
        "*.tf",
        "*.nix",
        "*.vim"
    ];
    let mut r: Vec<String> = Vec::new();
    let mut i: usize = 0;
    while i < 109
        invariant
            i <= 109,
            names@ == seq![
                "*.c",
        "*.h",
        "*.cc",
        "*.cpp",
        "*.cxx",
        "*.c++",
        "*.hh",
        "*.hpp",
        "*.hxx",
        "*.h++",
        "*.cs",
        "*.java",
        "*.kt",
        "*.kts",
        "*.scala",
        "*.groovy",
        "*.go",
        "*.rs",
        "*.py",
        "*.pyw",
        "*.pyi",
        "*.pyx",
        "*.rb",
        "*.rake",
        "*.php",
        "*.pl",
        "*.pm",
        "*.lua",
        "*.js",
        "*.jsx",
        "*.mjs",
        "*.cjs",
        "*.ts",
        "*.tsx",
        "*.coffee",
        "*.dart",
        "*.swift",
        "*.m",
        "*.mm",
        "*.r",
        "*.R",
        "*.jl",
        "*.hs",
        "*.lhs",
        "*.ml",
        "*.mli",
        "*.fs",
        "*.fsi",
        "*.fsx",
        "*.clj",
        "*.cljs",
        "*.cljc",
        "*.el",
        "*.lisp",
        "*.scm",
        "*.rkt",
        "*.erl",
        "*.hrl",
        "*.ex",
        "*.exs",
        "*.elm",
        "*.nim",
        "*.zig",
        "*.d",
        "*.f",
        "*.f90",
        "*.f95",
        "*.pas",
        "*.vb",
        "*.sh",
        "*.bash",
        "*.zsh",
        "*.ksh",
        "*.fish",
        "*.ps1",
        "*.bat",
        "*.cmd",
        "*.sql",
        "*.html",
        "*.htm",
        "*.css",
        "*.scss",
        "*.sass",
        "*.less",
        "*.vue",
        "*.tex",
        "*.proto",
        "*.thrift",
        "*.graphql",
        "*.cmake",
        "CMakeLists.txt",
        "Makefile",
        "makefile",
        "*.mk",
        "Dockerfile",
        "*.toml",
        "*.ini",
        "*.cfg",
        "*.gradle",
        "*.asm",
        "*.s",
        "*.S",
        "*.v",
        "*.sv",
        "*.vhd",
        "*.vhdl",
        "*.tf",
        "*.nix",
        "*.vim"
            ],
            r@.len() == i,
            forall|j: int| 0 <= j < i ==> (#[trigger] r@[j])@ == names@[j]@,
        decreases 109 - i,
    {
        r.push(String::from_str(names[i]));
        i += 1;
    }
    assert(path_views(r@) =~= default_filetype_patterns());
    r
}

/// Compiles `patterns` into one glob set.
fn build_globset(patterns: &Vec<String>) -> (r: Result<GlobSet, globset::Error>)
    ensures
        r is Ok <==> patterns_compile(path_views(patterns@)),
        r matches Ok(s) ==> set_patterns(s) == path_views(patterns@),
{
    let mut b = builder_new();
    let mut i: usize = 0;
    while i < patterns.len()
        invariant
            i <= patterns@.len(),
            builder_patterns(b) == path_views(patterns@).take(i as int),
            forall|j: int| 0 <= j < i ==> glob_parses(#[trigger] path_views(patterns@)[j]),
        decreases patterns@.len() - i,
    {
        let g = match glob_new(patterns[i].as_str()) {
            Ok(g) => g,
            Err(e) => {
                assert(path_views(patterns@)[i as int] == patterns@[i as int]@);
                assert(!glob_parses(path_views(patterns@)[i as int]));
                return Err(e);
            },
        };
        b = builder_add(b, g);
        assert(path_views(patterns@).take(i + 1) =~= path_views(patterns@).take(i as int).push(patterns@[i as int]@));
        i += 1;
    }
    assert(path_views(patterns@).take(patterns@.len() as int) =~= path_views(patterns@));
    builder_build(&b)
}

/// The pattern list a filter could not be built from, with the cause.
#[derive(Debug)]
pub enum FilterError {
    Defaults(globset::Error),
    Only(globset::Error),
    Ignore(globset::Error),
}

impl FilterError {
    /// What was being built when the error arose.
    pub fn message(&self) -> (m: String)
        ensures
            m@ == match self {
                FilterError::Defaults(_) => "building default filetype globset"@,
                FilterError::Only(_) => "building --only globset"@,
                FilterError::Ignore(_) => "building --ignore globset"@,
            },
    {
        match self {
            FilterError::Defaults(_) => String::from_str("building default filetype globset"),
            FilterError::Only(_) => String::from_str("building --only globset"),
            FilterError::Ignore(_) => String::from_str("building --ignore globset"),
        }
    }
}

/// Decides whether a tree entry takes part in the analysis.
#[derive(Debug)]
pub struct PathFilter {
    pub defaults: GlobSet,
    pub only: Option<GlobSet>,
    pub ignore: Option<GlobSet>,
    pub all_filetypes: bool,
}

/// `f` admits `path`: its base name matches a default pattern (unless all
/// file types are admitted), it matches an `only` pattern when there are
/// any, and it matches no `ignore` pattern.
pub open spec fn permits(f: PathFilter, path: Seq<char>) -> bool {
    &&& (f.all_filetypes || set_matches(f.defaults, spec_basename(path)))
    &&& (f.only matches Some(s) ==> set_matches(s, path))
    &&& (f.ignore matches Some(s) ==> !set_matches(s, path))
}

/// `g` is absent for an empty pattern list and otherwise built from it.
pub open spec fn optional_set(g: Option<GlobSet>, patterns: Seq<Seq<char>>) -> bool {
    if patterns.len() == 0 {
        g is None
    } else {
        g matches Some(s) && set_patterns(s) == patterns
    }
}

/// Compiles a pattern list, or nothing when it is empty.
fn build_optional(patterns: &Vec<String>) -> (r: Result<Option<GlobSet>, globset::Error>)
    ensures
        r is Ok <==> (patterns@.len() == 0 || patterns_compile(path_views(patterns@))),
        r matches Ok(g) ==> optional_set(g, path_views(patterns@)),
{
    if patterns.len() == 0 {
        Ok(None)
    } else {
        match build_globset(patterns) {
            Ok(s) => Ok(Some(s)),
            Err(e) => Err(e),
        }
    }
}

impl PathFilter {
    /// A filter from `only` and `ignore` glob lists (empty lists impose
    /// nothing); with `all_filetypes` unset, base names must also match a
    /// default source-file pattern.  Fails on the first list, in the order
    /// defaults, only, ignore, whose patterns do not compile.
    pub fn new(only: &Vec<String>, ignore: &Vec<String>, all_filetypes: bool) -> (r: Result<PathFilter, FilterError>)
        ensures
            !patterns_compile(default_filetype_patterns()) ==> r matches Err(FilterError::Defaults(_)),
            patterns_compile(default_filetype_patterns()) && only@.len() > 0 && !patterns_compile(path_views(only@))
                ==> r matches Err(FilterError::Only(_)),
            patterns_compile(default_filetype_patterns()) && (only@.len() == 0 || patterns_compile(path_views(only@)))
                && ignore@.len() > 0 && !patterns_compile(path_views(ignore@)) ==> r matches Err(FilterError::Ignore(_)),
            patterns_compile(default_filetype_patterns()) && (only@.len() == 0 || patterns_compile(path_views(only@)))
                && (ignore@.len() == 0 || patterns_compile(path_views(ignore@))) ==> (r matches Ok(f) && set_patterns(
                f.defaults,
            ) == default_filetype_patterns() && optional_set(f.only, path_views(only@)) && optional_set(
                f.ignore,
                path_views(ignore@),
            ) && f.all_filetypes == all_filetypes),
    {
        let names = default_patterns();
        let defaults = match build_globset(&names) {
            Ok(s) => s,
            Err(e) => {
                return Err(FilterError::Defaults(e));
            },
        };
        let only = match build_optional(only) {
            Ok(g) => g,
            Err(e) => {
                return Err(FilterError::Only(e));
            },
        };
        let ignore = match build_optional(ignore) {
            Ok(g) => g,
            Err(e) => {
                return Err(FilterError::Ignore(e));
            },
        };
        Ok(PathFilter { defaults, only, ignore, all_filetypes })
    }

    /// Whether `path` (forward-slash, relative to the repository root) is
    /// analysed.
    pub fn allows(&self, path: &str) -> (r: bool)
        ensures
            r == permits(*self, path@),
    {
        if !self.all_filetypes {
            let base = string_from_chars(basename_chars(&chars_of(path)).as_slice());
            if !set_is_match(&self.defaults, base.as_str()) {
                return false;
            }
        }
        match &self.only {
            Some(s) => {
                if !set_is_match(s, path) {
                    return false;
                }
            },
            None => {},
        }
        match &self.ignore {
            Some(s) => {
                if set_is_match(s, path) {
                    return false;
                }
            },
            None => {},
        }
        true
    }
}

} // verus!
