//! The options that steer a run, and the skip set that follows from them.

use vstd::prelude::*;
use vstd::string::*;
use crate::names::NameSet;
use crate::text::{lowercase_text, option_text, same_text, split, split_pieces, texts, trim, trimmed};

verus! {

/// How the tree is written out.
#[derive(Debug, Clone, Copy, PartialEq, Eq, Structural)]
pub enum OutputFormat {
    /// Box-drawing text.
    Tree,
    /// A JSON document.
    Json,
}

/// When the tree is coloured.
#[derive(Debug, Clone, Copy, PartialEq, Eq, Structural)]
pub enum ColorMode {
    /// When the output is a terminal.
    Auto,
    /// Always.
    Always,
    /// Never.
    Never,
}

/// What a format name stands for, letter case aside.
pub open spec fn format_named(s: Seq<char>) -> Option<OutputFormat> {
    let lower = lowercase_text(s);
    if lower == "tree"@ || lower == "ascii"@ {
        Some(OutputFormat::Tree)
    } else if lower == "json"@ {
        Some(OutputFormat::Json)
    } else {
        None
    }
}

/// What a colour mode name stands for, letter case aside.
pub open spec fn color_named(s: Seq<char>) -> Option<ColorMode> {
    let lower = lowercase_text(s);
    if lower == "auto"@ {
        Some(ColorMode::Auto)
    } else if lower == "always"@ {
        Some(ColorMode::Always)
    } else if lower == "never"@ {
        Some(ColorMode::Never)
    } else {
        None
    }
}

impl OutputFormat {
    /// Reads a format name: `tree` or `ascii`, or `json`, in any letter
    /// case. Any other text is refused with a sentence that quotes it in
    /// lower case.
    pub fn parse(s: &str) -> (r: Result<OutputFormat, String>)
        ensures
            match format_named(s@) {
                Some(f) => r == Ok::<OutputFormat, String>(f),
                None => r is Err && r->Err_0@ == "Unknown format: "@ + lowercase_text(s@),
            },
    {
        let lower = s.to_lowercase();
        if same_text(lower.as_str(), "tree") || same_text(lower.as_str(), "ascii") {
            Ok(OutputFormat::Tree)
        } else if same_text(lower.as_str(), "json") {
            Ok(OutputFormat::Json)
        } else {
            Err(String::from_str("Unknown format: ").concat(lower.as_str()))
        }
    }
}

impl std::str::FromStr for OutputFormat {
    type Err = String;

    /// Reads a format name as `OutputFormat::parse` does.
    fn from_str(s: &str) -> (r: Result<Self, String>)
        ensures
            match format_named(s@) {
                Some(f) => r == Ok::<OutputFormat, String>(f),
                None => r is Err && r->Err_0@ == "Unknown format: "@ + lowercase_text(s@),
            },
    {
        OutputFormat::parse(s)
    }
}

impl ColorMode {
    /// Reads a colour mode name: `auto`, `always` or `never`, in any
    /// letter case. Any other text is refused with a sentence that quotes
    /// it in lower case.
    pub fn parse(s: &str) -> (r: Result<ColorMode, String>)
        ensures
            match color_named(s@) {
                Some(m) => r == Ok::<ColorMode, String>(m),
                None => r is Err && r->Err_0@ == "Unknown color mode: "@ + lowercase_text(s@),
            },
    {
        let lower = s.to_lowercase();
        if same_text(lower.as_str(), "auto") {
            Ok(ColorMode::Auto)
        } else if same_text(lower.as_str(), "always") {
            Ok(ColorMode::Always)
        } else if same_text(lower.as_str(), "never") {
            Ok(ColorMode::Never)
        } else {
            Err(String::from_str("Unknown color mode: ").concat(lower.as_str()))
        }
    }
}

impl std::str::FromStr for ColorMode {
    type Err = String;

    /// Reads a colour mode name as `ColorMode::parse` does.
    fn from_str(s: &str) -> (r: Result<Self, String>)
        ensures
            match color_named(s@) {
                Some(m) => r == Ok::<ColorMode, String>(m),
                None => r is Err && r->Err_0@ == "Unknown color mode: "@ + lowercase_text(s@),
            },
    {
        ColorMode::parse(s)
    }
}

/// The options of one run.
#[derive(Debug)]
pub struct Args {
    /// Drive letter whose root a forced scan starts from.
    pub drive: char,
    /// Scan system directories too.
    pub admin: bool,
    /// Scan everything again from the filesystem root.
    pub force: bool,
    /// Seconds for which a snapshot counts as fresh.
    pub cache_ttl: Option<u64>,
    /// Directory that holds the cache, in place of the default.
    pub cache_dir: Option<String>,
    /// Neither load nor save a snapshot.
    pub no_cache: bool,
    /// Draw nothing.
    pub quiet: bool,
    /// How the tree is written out.
    pub format: OutputFormat,
    /// When the tree is coloured.
    pub color: ColorMode,
    /// Show directory sizes.
    pub size: bool,
    /// Show the number of files per directory.
    pub file_count: bool,
    /// Depth below which nothing is drawn.
    pub max_depth: Option<usize>,
    /// Further names to pass over, separated by commas.
    pub skip: Option<String>,
    /// Mark hidden entries.
    pub hidden: bool,
    /// Number of workers, in place of the default.
    pub threads: Option<usize>,
    /// Report timings and totals.
    pub stats: bool,
    /// Report what was passed over.
    pub skip_stats: bool,
    /// Install the periodic refresh.
    pub scheduler: bool,
    /// Remove the periodic refresh.
    pub scheduler_uninstall: bool,
    /// Show the state of the periodic refresh.
    pub scheduler_status: bool,
}

/// The names that every scan passes over.
pub open spec fn default_skip_names() -> Seq<Seq<char>> {
    seq!["System Volume Information"@, "$Recycle.Bin"@, ".git"@]
}

/// The names that a scan passes over unless it runs in admin mode.
pub open spec fn system_skip_names() -> Seq<Seq<char>> {
    seq!["System32"@, "WinSxS"@, "Temp"@, "Temporary Internet Files"@]
}

/// Each text without the white space around it.
pub open spec fn all_trimmed(pieces: Seq<Seq<char>>) -> Seq<Seq<char>> {
    Seq::new(pieces.len(), |i: int| trimmed(pieces[i]))
}

/// The names that the `skip` option adds: its pieces between commas, each
/// without the white space around it.
pub open spec fn user_skip_names(skip: Option<Seq<char>>) -> Seq<Seq<char>> {
    match skip {
        Some(s) => all_trimmed(split_pieces(s, ',')),
        None => Seq::empty(),
    }
}

/// The skip set of a run.
pub open spec fn skip_names(admin: bool, skip: Option<Seq<char>>) -> Set<Seq<char>> {
    let base = default_skip_names().to_set();
    let system = if admin {
        base
    } else {
        base.union(system_skip_names().to_set())
    };
    system.union(user_skip_names(skip).to_set())
}

/// Adds every name of `names` to `set`.
pub fn insert_all(set: &mut NameSet, names: Vec<String>)
    ensures
        final(set)@ == old(set)@.union(texts(names@).to_set()),
{
    let ghost all = texts(names@);
    let ghost start = set@;
    assert(start.union(all.take(0).to_set()) =~= start);
    for name in it: names
        invariant
            texts(it.seq()) == all,
            set@ == start.union(all.take(it.index() as int).to_set()),
    {
        let ghost i = it.index() as int;
        assert(all[i] == name@);
        set.insert(name);
        proof {
            let t0 = all.take(i);
            let t1 = all.take(i + 1);
            assert(t1 =~= t0.push(all[i]));
            assert forall|k: Seq<char>| t1.to_set().contains(k) <==> (t0.to_set().contains(k) || k == all[i]) by {
                if t0.contains(k) {
                    let j = choose|j: int| 0 <= j < t0.len() && t0[j] == k;
                    assert(t1[j] == k);
                }
                if k == all[i] {
                    assert(t1[i] == k);
                }
                if t1.contains(k) {
                    let j = choose|j: int| 0 <= j < t1.len() && t1[j] == k;
                    if j < i {
                        assert(t0[j] == k);
                    }
                }
            }
            assert(set@ =~= start.union(t1.to_set()));
        }
    }
    assert(all.take(all.len() as int) =~= all);
}

impl Args {
    /// The options that hold when none is given.
    pub fn new() -> (r: Self)
        ensures
            r.drive == 'C',
            !r.admin && !r.force && !r.no_cache && !r.quiet && !r.size && !r.file_count && !r.hidden && !r.stats
                && !r.skip_stats && !r.scheduler && !r.scheduler_uninstall && !r.scheduler_status,
            r.cache_ttl is None && r.cache_dir is None && r.max_depth is None && r.skip is None && r.threads is None,
            r.format == OutputFormat::Tree,
            r.color == ColorMode::Auto,
    {
        Args {
            drive: 'C',
            admin: false,
            force: false,
            cache_ttl: None,
            cache_dir: None,
            no_cache: false,
            quiet: false,
            format: OutputFormat::Tree,
            color: ColorMode::Auto,
            size: false,
            file_count: false,
            max_depth: None,
            skip: None,
            hidden: false,
            threads: None,
            stats: false,
            skip_stats: false,
            scheduler: false,
            scheduler_uninstall: false,
            scheduler_status: false,
        }
    }

    /// The names that every scan passes over.
    pub fn default_skip_dirs() -> (r: NameSet)
        ensures
            r@ == default_skip_names().to_set(),
    {
        let mut names: Vec<String> = Vec::new();
        names.push(String::from_str("System Volume Information"));
        names.push(String::from_str("$Recycle.Bin"));
        names.push(String::from_str(".git"));
        assert(texts(names@) =~= default_skip_names());
        let mut r = NameSet::new();
        insert_all(&mut r, names);
        assert(r@ =~= default_skip_names().to_set());
        r
    }

    /// The skip set of this run: the default names, the system names
    /// unless in admin mode, and the names of the `skip` option.
    pub fn skip_dirs(&self) -> (r: NameSet)
        ensures
            r@ == skip_names(self.admin, option_text(self.skip)),
    {
        let mut r = Self::default_skip_dirs();
        if !self.admin {
            let mut names: Vec<String> = Vec::new();
            names.push(String::from_str("System32"));
            names.push(String::from_str("WinSxS"));
            names.push(String::from_str("Temp"));
            names.push(String::from_str("Temporary Internet Files"));
            assert(texts(names@) =~= system_skip_names());
            insert_all(&mut r, names);
        }
        match &self.skip {
            Some(skip_str) => {
                let pieces = split(skip_str.as_str(), ',');
                let mut names: Vec<String> = Vec::new();
                let mut i: usize = 0;
                while i < pieces.len()
                    invariant
                        i <= pieces@.len(),
                        names@.len() == i,
                        forall|j: int| 0 <= j < i ==> names@[j]@ == trimmed(pieces@[j]@),
                    decreases pieces@.len() - i,
                {
                    names.push(trim(pieces[i].as_str()));
                    i += 1;
                }
                assert(texts(names@) =~= all_trimmed(texts(pieces@)));
                insert_all(&mut r, names);
            },
            None => {
                assert(r@.union(Seq::<Seq<char>>::empty().to_set()) =~= r@);
            },
        }
        r
    }
}

} // verus!
