//! Configuration: the settings a `lint-quality.toml` file may give, where discovery
//! looks for that file, and how defaults, the file and command-line overrides merge
//! (last wins: built-in defaults, then the file, then the command line; patterns come
//! from the file alone).

use vstd::prelude::*;

use crate::counts::StringSet;
use crate::paths::{lemma_parent_shorter, parent_of, path_join, path_parent};
use crate::text::{chars_of, copy_strings, string_from_chars, string_of, views};

verus! {

/// Configuration for a single detection pattern.
#[derive(Debug, Clone)]
pub struct PatternConfig {
    /// Unique identifier for this pattern (e.g. "eslint-disable-next-line").
    pub name: String,
    /// Regex to match against each line. Capture group 1, if present, holds the rule list.
    pub regex: String,
    /// Category grouping (e.g. "eslint", "typescript").
    pub category: String,
    /// Whether to extract individual rule names from the regex capture group.
    pub extract_rules: bool,
}

/// Content of a `lint-quality.toml` config file. Every field is optional; without
/// patterns nothing will be detected.
#[derive(Debug)]
pub struct ConfigFile {
    pub format: Option<String>,
    pub extensions: Option<Vec<String>>,
    pub codeowners: Option<String>,
    pub scan_paths: Option<Vec<String>>,
    pub patterns: Option<Vec<PatternConfig>>,
}

impl Default for ConfigFile {
    fn default() -> (c: ConfigFile)
        ensures
            c.format is None,
            c.extensions is None,
            c.codeowners is None,
            c.scan_paths is None,
            c.patterns is None,
    {
        ConfigFile {
            format: None,
            extensions: None,
            codeowners: None,
            scan_paths: None,
            patterns: None,
        }
    }
}

/// Configuration after merging defaults, config file, and command-line arguments.
#[derive(Debug)]
pub struct ResolvedConfig {
    pub format: String,
    pub extensions: Vec<String>,
    pub codeowners: Option<String>,
    pub scan_paths: Vec<String>,
    pub patterns: Vec<PatternConfig>,
}

/// The file extensions scanned by default (the JS/TS ecosystem).
pub open spec fn default_extension_list() -> Seq<Seq<char>> {
    seq!["js"@, "jsx"@, "ts"@, "tsx"@, "html"@, "mjs"@, "cjs"@]
}

/// Returns the default set of file extensions to scan.
pub fn default_extensions() -> (v: Vec<String>)
    ensures
        views(v@) == default_extension_list(),
{
    let v = vec![
        string_of("js"),
        string_of("jsx"),
        string_of("ts"),
        string_of("tsx"),
        string_of("html"),
        string_of("mjs"),
        string_of("cjs"),
    ];
    assert(views(v@) =~= default_extension_list());
    v
}

/// What the value of an optional setting is: the command line's, else the file's,
/// else `default`.
pub open spec fn first_given<A>(cli: Option<A>, file: Option<A>, default: A) -> A {
    match cli {
        Some(a) => a,
        None => match file {
            Some(a) => a,
            None => default,
        },
    }
}

/// Command-line values override the config file: a setting given on the command
/// line is that value whatever the file and the default say; one the command line
/// leaves out is the file's when the file sets it, and the default only when neither
/// gives it.
pub proof fn lemma_command_line_wins<A>(cli: A, file: Option<A>, default: A, from_file: A)
    ensures
        first_given(Some(cli), file, default) == cli,
        first_given(None, Some(from_file), default) == from_file,
        first_given(None::<A>, None::<A>, default) == default,
{
}

/// A field of the config file, if there is a file.
pub open spec fn file_format(c: Option<ConfigFile>) -> Option<Seq<char>> {
    match c {
        Some(f) => match f.format {
            Some(s) => Some(s@),
            None => None,
        },
        None => None,
    }
}

/// The extensions the config file lists, if any.
pub open spec fn file_extensions(c: Option<ConfigFile>) -> Option<Seq<Seq<char>>> {
    match c {
        Some(f) => match f.extensions {
            Some(v) => Some(views(v@)),
            None => None,
        },
        None => None,
    }
}

/// The CODEOWNERS path the config file gives, if any.
pub open spec fn file_codeowners(c: Option<ConfigFile>) -> Option<Seq<char>> {
    match c {
        Some(f) => match f.codeowners {
            Some(s) => Some(s@),
            None => None,
        },
        None => None,
    }
}

/// The scan paths the config file lists, if any.
pub open spec fn file_scan_paths(c: Option<ConfigFile>) -> Option<Seq<Seq<char>>> {
    match c {
        Some(f) => match f.scan_paths {
            Some(v) => Some(views(v@)),
            None => None,
        },
        None => None,
    }
}

/// The patterns the config file lists (none when it lists none).
pub open spec fn file_patterns(c: Option<ConfigFile>) -> Seq<PatternConfig> {
    match c {
        Some(f) => match f.patterns {
            Some(v) => v@,
            None => Seq::empty(),
        },
        None => Seq::empty(),
    }
}

/// An optional string, by its characters.
pub open spec fn opt_view(o: Option<&str>) -> Option<Seq<char>> {
    match o {
        Some(s) => Some(s@),
        None => None,
    }
}

/// An optional list of strings, by their characters.
pub open spec fn opt_views(o: Option<&[String]>) -> Option<Seq<Seq<char>>> {
    match o {
        Some(v) => Some(views(v@)),
        None => None,
    }
}

/// Merge defaults, config file, and command-line overrides into a resolved config:
/// format and extensions from the command line, else the file, else `human` and the
/// default extensions; CODEOWNERS from the command line, else the file; scan paths
/// from the command line when it gives any, else the file, else `.`; patterns from
/// the file.
pub fn resolve_config(
    config_file: Option<ConfigFile>,
    cli_format: Option<&str>,
    cli_extensions: Option<&[String]>,
    cli_codeowners: Option<&str>,
    cli_scan_paths: Vec<String>,
) -> (r: ResolvedConfig)
    ensures
        r.format@ == first_given(opt_view(cli_format), file_format(config_file), "human"@),
        views(r.extensions@) == first_given(
            opt_views(cli_extensions),
            file_extensions(config_file),
            default_extension_list(),
        ),
        (match r.codeowners {
            Some(s) => Some(s@),
            None => None,
        }) == (match opt_view(cli_codeowners) {
            Some(s) => Some(s),
            None => file_codeowners(config_file),
        }),
        views(r.scan_paths@) == (if cli_scan_paths@.len() > 0 {
            views(cli_scan_paths@)
        } else {
            match file_scan_paths(config_file) {
                Some(v) => v,
                None => seq!["."@],
            }
        }),
        r.patterns@ == file_patterns(config_file),
        cli_format matches Some(f) ==> r.format@ == f@,
        cli_extensions matches Some(e) ==> views(r.extensions@) == views(e@),
        cli_codeowners matches Some(c) ==> r.codeowners matches Some(o) && o@ == c@,
        cli_scan_paths@.len() > 0 ==> views(r.scan_paths@) == views(cli_scan_paths@),
{
    let cf = match config_file {
        Some(c) => c,
        None => ConfigFile::default(),
    };
    let format = match cli_format {
        Some(f) => string_of(f),
        None => match cf.format {
            Some(f) => f,
            None => string_of("human"),
        },
    };
    let extensions = match cli_extensions {
        Some(e) => copy_strings(e),
        None => match cf.extensions {
            Some(e) => e,
            None => default_extensions(),
        },
    };
    let codeowners = match cli_codeowners {
        Some(c) => Some(string_of(c)),
        None => cf.codeowners,
    };
    let scan_paths = if cli_scan_paths.len() == 0 {
        match cf.scan_paths {
            Some(p) => p,
            None => {
                let v = vec![string_of(".")];
                assert(views(v@) =~= seq!["."@]);
                v
            },
        }
    } else {
        cli_scan_paths
    };
    let patterns = match cf.patterns {
        Some(p) => p,
        None => Vec::new(),
    };
    ResolvedConfig { format, extensions, codeowners, scan_paths, patterns }
}

// ---------------------------------------------------------------------------
// Discovery
// ---------------------------------------------------------------------------

/// `dir`, then each directory that `PathBuf::pop` leads to from it, up to the last
/// one that has no parent.
pub open spec fn parent_chain(dir: Seq<char>) -> Seq<Seq<char>>
    decreases dir.len(),
{
    match path_parent(dir) {
        Some(d) => if d.len() < dir.len() {
            seq![dir] + parent_chain(d)
        } else {
            seq![dir]
        },
        None => seq![dir],
    }
}

/// The name of the config file that discovery looks for.
pub open spec fn config_file_name() -> Seq<char> {
    "lint-quality.toml"@
}

/// Where discovery looks for the config file, nearest first: in the directory of
/// `start` (its parent when `start` is a file) and in each directory above it. None
/// when `start` is a file without a parent.
pub open spec fn config_candidates_of(start: Seq<char>, start_is_file: bool) -> Option<Seq<Seq<char>>> {
    let dir = if start_is_file {
        path_parent(start)
    } else {
        Some(start)
    };
    match dir {
        Some(d) => Some(parent_chain(d).map_values(|x: Seq<char>| path_join(x, config_file_name()))),
        None => None,
    }
}

/// The first of `cands` that is in `found`.
pub open spec fn first_found(cands: Seq<Seq<char>>, found: Set<Seq<char>>) -> Option<Seq<char>>
    decreases cands.len(),
{
    if cands.len() == 0 {
        None
    } else if found.contains(cands[0]) {
        Some(cands[0])
    } else {
        first_found(cands.drop_first(), found)
    }
}

fn join_config_name(dir: &Vec<char>) -> (out: String)
    ensures
        out@ == path_join(dir@, config_file_name()),
{
    let name = chars_of("lint-quality.toml");
    let mut all: Vec<char> = Vec::new();
    let mut i: usize = 0;
    while i < dir.len()
        invariant
            i <= dir@.len(),
            all@ == dir@.take(i as int),
        decreases dir@.len() - i,
    {
        all.push(dir[i]);
        i += 1;
    }
    assert(dir@.take(dir@.len() as int) == dir@);
    if dir.len() > 0 && dir[dir.len() - 1] != '/' {
        all.push('/');
    }
    let ghost base = all@;
    let mut j: usize = 0;
    while j < name.len()
        invariant
            j <= name@.len(),
            all@ == base + name@.take(j as int),
        decreases name@.len() - j,
    {
        all.push(name[j]);
        j += 1;
    }
    assert(name@.take(name@.len() as int) == name@);
    string_from_chars(all.as_slice())
}

/// Where discovery looks for `lint-quality.toml`, nearest first: in the directory of
/// `start` (its parent when `start` is a file) and in each directory above it.
pub fn config_candidates(start: &str, start_is_file: bool) -> (r: Option<Vec<String>>)
    ensures
        (match r {
            Some(v) => Some(views(v@)),
            None => None,
        }) == config_candidates_of(start@, start_is_file),
{
    let s = chars_of(start);
    let first = if start_is_file {
        parent_of(&s)
    } else {
        Some(s)
    };
    match first {
        None => None,
        Some(d0) => {
            let mut dir = d0;
            let mut out: Vec<String> = Vec::new();
            let ghost chain = parent_chain(d0@).map_values(
                |x: Seq<char>| path_join(x, config_file_name()),
            );
            loop
                invariant_except_break
                    views(out@) + parent_chain(dir@).map_values(
                        |x: Seq<char>| path_join(x, config_file_name()),
                    ) == chain,
                ensures
                    views(out@) == chain,
                decreases dir@.len(),
            {
                let ghost before = views(out@);
                let ghost rest = parent_chain(dir@).map_values(
                    |x: Seq<char>| path_join(x, config_file_name()),
                );
                let c = join_config_name(&dir);
                out.push(c);
                assert(views(out@) =~= before.push(path_join(dir@, config_file_name())));
                proof {
                    lemma_parent_shorter(dir@);
                }
                match parent_of(&dir) {
                    Some(p) => {
                        assert(parent_chain(dir@) == seq![dir@] + parent_chain(p@));
                        assert(rest =~= seq![path_join(dir@, config_file_name())]
                            + parent_chain(p@).map_values(
                            |x: Seq<char>| path_join(x, config_file_name()),
                        ));
                        assert(views(out@) + parent_chain(p@).map_values(
                            |x: Seq<char>| path_join(x, config_file_name()),
                        ) =~= before + rest);
                        dir = p;
                    },
                    None => {
                        assert(parent_chain(dir@) == seq![dir@]);
                        assert(rest =~= seq![path_join(dir@, config_file_name())]);
                        assert(views(out@) =~= before + rest);
                        break;
                    },
                }
            }
            Some(out)
        },
    }
}

/// The config file that discovery picks: the nearest candidate (see
/// `config_candidates`) that is among the existing files `found`.
pub fn discover_config(start: &str, start_is_file: bool, found: &StringSet) -> (r: Option<String>)
    ensures
        (match r {
            Some(p) => Some(p@),
            None => None,
        }) == (match config_candidates_of(start@, start_is_file) {
            Some(c) => first_found(c, found.members()),
            None => None,
        }),
{
    match config_candidates(start, start_is_file) {
        None => None,
        Some(cands) => {
            let ghost all = views(cands@);
            assert(all.skip(0) =~= all);
            let mut i: usize = 0;
            while i < cands.len()
                invariant
                    i <= cands@.len(),
                    all == views(cands@),
                    config_candidates_of(start@, start_is_file) == Some(all),
                    first_found(all, found.members()) == first_found(all.skip(i as int), found.members()),
                decreases cands@.len() - i,
            {
                let ghost tail = all.skip(i as int);
                assert(tail[0] == cands@[i as int]@);
                if found.contains(cands[i].as_str()) {
                    assert(first_found(tail, found.members()) == Some(tail[0]));
                    return Some(cands[i].clone());
                }
                assert(tail.drop_first() =~= all.skip(i + 1));
                i += 1;
            }
            assert(all.skip(i as int).len() == 0);
            None
        },
    }
}

/// Where the config file comes from.
#[derive(Debug)]
pub enum ConfigSource {
    /// The path given on the command line.
    Given(String),
    /// The path that discovery found.
    Found(String),
    /// No path given and none found.
    Absent,
}

/// The path discovery starts from: the first scan path, or `.` when there is none.
pub fn discovery_start(scan_paths: &[String]) -> (s: String)
    ensures
        s@ == (if scan_paths@.len() > 0 {
            scan_paths@[0]@
        } else {
            "."@
        }),
{
    if scan_paths.len() > 0 {
        scan_paths[0].clone()
    } else {
        string_of(".")
    }
}

/// Which config file to load: the one given on the command line, else the one
/// discovery finds from `discovery_start(scan_paths)`, whose kind (`start_is_file`) and
/// the existing candidates (`found`) the caller has looked up.
pub fn load_config(
    config_path: Option<&str>,
    scan_paths: &[String],
    start_is_file: bool,
    found: &StringSet,
) -> (r: ConfigSource)
    ensures
        match config_path {
            Some(p) => r matches ConfigSource::Given(g) && g@ == p@,
            None => {
                let start = if scan_paths@.len() > 0 {
                    scan_paths@[0]@
                } else {
                    "."@
                };
                match (match config_candidates_of(start, start_is_file) {
                    Some(c) => first_found(c, found.members()),
                    None => None,
                }) {
                    Some(f) => r matches ConfigSource::Found(g) && g@ == f,
                    None => r is Absent,
                }
            },
        },
{
    match config_path {
        Some(p) => ConfigSource::Given(string_of(p)),
        None => {
            let start = discovery_start(scan_paths);
            match discover_config(start.as_str(), start_is_file, found) {
                Some(f) => ConfigSource::Found(f),
                None => ConfigSource::Absent,
            }
        },
    }
}

impl ConfigSource {
    /// The path to load, if any.
    pub fn path(&self) -> (p: Option<String>)
        ensures
            match self {
                ConfigSource::Given(g) => p matches Some(q) && q@ == g@,
                ConfigSource::Found(g) => p matches Some(q) && q@ == g@,
                ConfigSource::Absent => p is None,
            },
    {
        match self {
            ConfigSource::Given(g) => Some(g.clone()),
            ConfigSource::Found(g) => Some(g.clone()),
            ConfigSource::Absent => None,
        }
    }

    /// What becomes of the outcome of reading and parsing the file at `path()`: a
    /// given file must load, and its error is returned; a discovered file that fails
    /// to load is passed over.
    pub fn accept(&self, loaded: Result<ConfigFile, String>) -> (r: Result<Option<ConfigFile>, String>)
        ensures
            match self {
                ConfigSource::Given(_) => match loaded {
                    Ok(c) => r == Ok::<Option<ConfigFile>, String>(Some(c)),
                    Err(e) => r == Err::<Option<ConfigFile>, String>(e),
                },
                ConfigSource::Found(_) => match loaded {
                    Ok(c) => r == Ok::<Option<ConfigFile>, String>(Some(c)),
                    Err(_) => r == Ok::<Option<ConfigFile>, String>(None),
                },
                ConfigSource::Absent => r == Ok::<Option<ConfigFile>, String>(None),
            },
    {
        match self {
            ConfigSource::Given(_) => match loaded {
                Ok(c) => Ok(Some(c)),
                Err(e) => Err(e),
            },
            ConfigSource::Found(_) => match loaded {
                Ok(c) => Ok(Some(c)),
                Err(_) => Ok(None),
            },
            ConfigSource::Absent => Ok(None),
        }
    }
}

} // verus!
