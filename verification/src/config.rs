//! Choosing the line width: the command line, then `max_width` from a `rustfmt` configuration
//! file found by walking up from the working directory, then the default.
use vstd::prelude::*;

verus! {

/// Fallback line width when no CLI argument or `rustfmt.toml` config is found.
pub const DEFAULT_WIDTH: usize = 100;

/// The integer stored under `key` at the top level of the TOML document `contents`, when the
/// document parses as a table, holds `key`, and the value there is an integer; `None` otherwise.
pub uninterp spec fn toml_integer_entry(contents: Seq<char>, key: Seq<char>) -> Option<i64>;

/// Parses `contents` as a `toml::Table` (its `FromStr` impl, toml's `from_str`), looks `key` up
/// with `toml::map::Map::get` and reads the value with `toml::Value::as_integer`. The contract
/// only names the result as a function of the two texts; what the TOML grammar accepts is left to
/// the toml crate and unstated here.
#[verifier::external_body]
fn toml_integer(contents: &str, key: &str) -> (r: Option<i64>)
    ensures
        r == toml_integer_entry(contents@, key@),
{
    let table: toml::Table = contents.parse().ok()?;
    table.get(key)?.as_integer()
}

/// The width that a `max_width` entry gives: its value converted to `usize` as `as` does.
pub open spec fn width_from_entry(entry: Option<i64>) -> Option<usize> {
    match entry {
        Some(v) => Some(v as usize),
        None => None,
    }
}

/// The width that a `max_width` entry gives, if there is one.
pub fn config_width_from_entry(entry: Option<i64>) -> (r: Option<usize>)
    ensures
        r == width_from_entry(entry),
{
    match entry {
        Some(v) => Some(v as usize),
        None => None,
    }
}

/// The `max_width` that the contents of a `rustfmt` configuration file set, if they parse and set
/// one as an integer.
pub fn config_max_width(contents: &str) -> (r: Option<usize>)
    ensures
        r == width_from_entry(toml_integer_entry(contents@, "max_width"@)),
{
    let entry = toml_integer(contents, "max_width");
    config_width_from_entry(entry)
}

/// The two configuration file names, in the order they are looked for in each directory.
pub enum ConfigFile {
    /// `.rustfmt.toml`
    Dotted,
    /// `rustfmt.toml`
    Plain,
}

impl ConfigFile {
    /// The file name.
    pub fn file_name(&self) -> (r: &'static str)
        ensures
            r@ == match self {
                ConfigFile::Dotted => ".rustfmt.toml"@,
                ConfigFile::Plain => "rustfmt.toml"@,
            },
    {
        match self {
            ConfigFile::Dotted => ".rustfmt.toml",
            ConfigFile::Plain => "rustfmt.toml",
        }
    }
}

/// What the search for a configuration file does next in the directory it is looking at.
pub enum SearchStep {
    /// Read this file of the directory; the search ends with what it holds.
    Read(ConfigFile),
    /// Look in the parent directory.
    Ascend,
    /// Give up: no configuration file.
    Stop,
}

/// The search's decision in one directory: the first configuration file present there (the dotted
/// name first) ends the search; otherwise it stops at the home directory or at the root, and moves
/// up to the parent directory anywhere else.
pub open spec fn next_step(
    dotted_exists: bool,
    plain_exists: bool,
    at_home: bool,
    has_parent: bool,
) -> SearchStep {
    if dotted_exists {
        SearchStep::Read(ConfigFile::Dotted)
    } else if plain_exists {
        SearchStep::Read(ConfigFile::Plain)
    } else if at_home || !has_parent {
        SearchStep::Stop
    } else {
        SearchStep::Ascend
    }
}

/// Decides the next step of the configuration search in one directory.
pub fn search_step(dotted_exists: bool, plain_exists: bool, at_home: bool, has_parent: bool) -> (r:
    SearchStep)
    ensures
        r == next_step(dotted_exists, plain_exists, at_home, has_parent),
{
    if dotted_exists {
        SearchStep::Read(ConfigFile::Dotted)
    } else if plain_exists {
        SearchStep::Read(ConfigFile::Plain)
    } else if at_home || !has_parent {
        SearchStep::Stop
    } else {
        SearchStep::Ascend
    }
}

/// What the search sees in one directory: which configuration files exist there, whether it is the
/// home directory, and whether it has a parent.
pub struct DirProbe {
    pub dotted_exists: bool,
    pub plain_exists: bool,
    pub at_home: bool,
    pub has_parent: bool,
}

pub open spec fn probe_step(p: DirProbe) -> SearchStep {
    next_step(p.dotted_exists, p.plain_exists, p.at_home, p.has_parent)
}

/// The search over the directories probed from the working directory (index 0) upward, from
/// index `k` on: the directory and file it reads, or `None` when it gives up.
pub open spec fn search_from(probes: Seq<DirProbe>, k: int) -> Option<(int, ConfigFile)>
    decreases probes.len() - k,
{
    if k < 0 || k >= probes.len() {
        None
    } else {
        match probe_step(probes[k]) {
            SearchStep::Read(f) => Some((k, f)),
            SearchStep::Stop => None,
            SearchStep::Ascend => search_from(probes, k + 1),
        }
    }
}

/// Runs the configuration search over the probes of the working directory and its ancestors,
/// nearest first, giving the index of the directory and the file to read.
pub fn locate_config(probes: &Vec<DirProbe>) -> (r: Option<(usize, ConfigFile)>)
    ensures
        match r {
            Some((k, f)) => search_from(probes@, 0) == Some((k as int, f)),
            None => search_from(probes@, 0) is None,
        },
{
    let mut k: usize = 0;
    while k < probes.len()
        invariant
            k <= probes.len(),
            search_from(probes@, k as int) == search_from(probes@, 0),
        decreases probes.len() - k,
    {
        let p = &probes[k];
        match search_step(p.dotted_exists, p.plain_exists, p.at_home, p.has_parent) {
            SearchStep::Read(f) => {
                return Some((k, f));
            },
            SearchStep::Stop => {
                return None;
            },
            SearchStep::Ascend => {
                k = k + 1;
            },
        }
    }
    None
}

/// The search reads the configuration file of the nearest directory that has one, preferring
/// `.rustfmt.toml` to `rustfmt.toml`, provided no nearer directory is the home directory or the
/// root; otherwise it finds nothing.
pub proof fn search_finds_nearest_config(probes: Seq<DirProbe>)
    ensures
        match search_from(probes, 0) {
            Some((k, f)) => {
                &&& 0 <= k < probes.len()
                &&& (probes[k].dotted_exists || probes[k].plain_exists)
                &&& f == (if probes[k].dotted_exists {
                    ConfigFile::Dotted
                } else {
                    ConfigFile::Plain
                })
                &&& forall|m: int|
                    0 <= m < k ==> !(#[trigger] probes[m]).dotted_exists && !probes[m].plain_exists
                        && !probes[m].at_home && probes[m].has_parent
            },
            None => forall|k: int|
                0 <= k < probes.len() && ((#[trigger] probes[k]).dotted_exists
                    || probes[k].plain_exists) ==> exists|m: int|
                    0 <= m < k && ((#[trigger] probes[m]).at_home || !probes[m].has_parent),
        },
{
    lemma_search_from(probes, 0);
}

proof fn lemma_search_from(probes: Seq<DirProbe>, i: int)
    requires
        0 <= i <= probes.len(),
    ensures
        match search_from(probes, i) {
            Some((k, f)) => {
                &&& i <= k < probes.len()
                &&& (probes[k].dotted_exists || probes[k].plain_exists)
                &&& f == (if probes[k].dotted_exists {
                    ConfigFile::Dotted
                } else {
                    ConfigFile::Plain
                })
                &&& forall|m: int|
                    i <= m < k ==> !(#[trigger] probes[m]).dotted_exists && !probes[m].plain_exists
                        && !probes[m].at_home && probes[m].has_parent
            },
            None => forall|k: int|
                i <= k < probes.len() && ((#[trigger] probes[k]).dotted_exists
                    || probes[k].plain_exists) ==> exists|m: int|
                    i <= m < k && ((#[trigger] probes[m]).at_home || !probes[m].has_parent),
        },
    decreases probes.len() - i,
{
    if i < probes.len() {
        lemma_search_from(probes, i + 1);
        let p = probes[i];
        if !p.dotted_exists && !p.plain_exists && !(p.at_home || !p.has_parent) {
            match search_from(probes, i + 1) {
                Some((k, f)) => {},
                None => {
                    assert forall|k: int|
                        i <= k < probes.len() && ((#[trigger] probes[k]).dotted_exists
                            || probes[k].plain_exists) implies exists|m: int|
                        i <= m < k && ((#[trigger] probes[m]).at_home || !probes[m].has_parent) by {
                        if k == i {
                        } else {
                            let m = choose|m: int|
                                i + 1 <= m < k && ((#[trigger] probes[m]).at_home
                                    || !probes[m].has_parent);
                            assert(i <= m < k && (probes[m].at_home || !probes[m].has_parent));
                        }
                    }
                },
            }
        } else if !p.dotted_exists && !p.plain_exists {
            assert forall|k: int|
                i <= k < probes.len() && ((#[trigger] probes[k]).dotted_exists
                    || probes[k].plain_exists) implies exists|m: int|
                i <= m < k && ((#[trigger] probes[m]).at_home || !probes[m].has_parent) by {
                assert(probes[i] == p);
            }
        }
    }
}

/// Where the effective width comes from.
pub enum WidthOrigin {
    CommandLine,
    ConfigFile,
    Default,
}

pub open spec fn spec_resolve_width(cli_width: Option<usize>, config_width: Option<usize>) -> usize {
    match cli_width {
        Some(w) => w,
        None => match config_width {
            Some(w) => w,
            None => DEFAULT_WIDTH,
        },
    }
}

/// Resolves the effective line width: CLI argument > `rustfmt.toml` > [`DEFAULT_WIDTH`].
pub fn resolve_width(cli_width: Option<usize>, config_width: Option<usize>) -> (w: usize)
    ensures
        w == spec_resolve_width(cli_width, config_width),
{
    match cli_width {
        Some(w) => w,
        None => match config_width {
            Some(w) => w,
            None => DEFAULT_WIDTH,
        },
    }
}

/// Which source [`resolve_width`] takes the width from.
pub fn width_origin(cli_width: Option<usize>, config_width: Option<usize>) -> (o: WidthOrigin)
    ensures
        o == if cli_width is Some {
            WidthOrigin::CommandLine
        } else if config_width is Some {
            WidthOrigin::ConfigFile
        } else {
            WidthOrigin::Default
        },
{
    if cli_width.is_some() {
        WidthOrigin::CommandLine
    } else if config_width.is_some() {
        WidthOrigin::ConfigFile
    } else {
        WidthOrigin::Default
    }
}

/// Whether output is reduced: `--quiet` counts only without `--verbose`.
pub fn effective_quiet(quiet: bool, verbose: bool) -> (q: bool)
    ensures
        q == (quiet && !verbose),
{
    quiet && !verbose
}

/// A width given on the command line is the width used, whatever the configuration says.
pub proof fn command_line_width_wins(cli: usize, config_width: Option<usize>)
    ensures
        spec_resolve_width(Some(cli), config_width) == cli,
{
}

/// Without a command-line width, a configured width is used as it is; with neither, the width is
/// 100.
pub proof fn configured_width_then_default(config: usize)
    ensures
        spec_resolve_width(None, Some(config)) == config,
        spec_resolve_width(None, None) == 100,
{
}

/// The width resolved is always one of the widths offered: the command line's, the
/// configuration's, or 100.
pub proof fn resolved_width_is_offered(cli_width: Option<usize>, config_width: Option<usize>)
    ensures
        cli_width == Some(spec_resolve_width(cli_width, config_width)) || (cli_width is None
            && config_width == Some(spec_resolve_width(cli_width, config_width))) || (cli_width is None
            && config_width is None && spec_resolve_width(cli_width, config_width) == 100),
{
}

/// An integer `max_width` entry gives exactly that integer as the width (converted as `as`
/// converts, with no bound applied), and no entry gives no width.
pub proof fn entry_gives_its_value(v: i64)
    ensures
        width_from_entry(Some(v)) == Some(v as usize),
        width_from_entry(None) == None::<usize>,
{
}

/// A configuration file whose `max_width` entry holds the integer `v` sets the width `v`.
pub proof fn configured_max_width_is_entry(contents: Seq<char>, v: i64)
    requires
        toml_integer_entry(contents, "max_width"@) == Some(v),
    ensures
        width_from_entry(toml_integer_entry(contents, "max_width"@)) == Some(v as usize),
{
    entry_gives_its_value(v);
}

} // verus!
