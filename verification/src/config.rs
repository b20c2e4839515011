//! TypeScript resolver settings: `baseUrl` and `paths`, merged along `extends` chains.
use vstd::prelude::*;
use crate::paths::{file_name, file_name_of, join_path, parent_path, path_join, path_parent};
use crate::framework::{contains_path, within};
use crate::report::texts;
use crate::text::{chars_equal, chars_of, lit, string_of};

verus! {

/// The settings one `tsconfig.json` file makes, as read from disk.
#[derive(Debug)]
pub struct TsConfigFile {
    /// Where the file is.
    pub path: String,
    /// Its `extends` values, in order (one for a single string).
    pub extends: Vec<String>,
    /// Its `compilerOptions.baseUrl`.
    pub base_url: Option<String>,
    /// Its `compilerOptions.paths`: each alias with its targets.
    pub paths: Option<Vec<(String, Vec<String>)>>,
}

/// The settings that module resolution uses.
#[derive(Debug)]
pub struct ResolverConfig {
    /// The base directory for non-relative imports, resolved against its file.
    pub base_url: Option<String>,
    /// Path aliases and their targets.
    pub paths: Vec<(String, Vec<String>)>,
    /// The directory of the file that set `paths`.
    pub paths_base: Option<String>,
}

/// Resolver settings as text.
pub struct ConfigText {
    pub base_url: Option<Seq<char>>,
    pub paths: Seq<(Seq<char>, Seq<Seq<char>>)>,
    pub paths_base: Option<Seq<char>>,
}

/// The text of an optional string.
pub open spec fn opt_text(o: Option<String>) -> Option<Seq<char>> {
    match o {
        Some(s) => Some(s@),
        None => None,
    }
}

/// The text of a list of aliases.
pub open spec fn alias_texts(p: Seq<(String, Vec<String>)>) -> Seq<(Seq<char>, Seq<Seq<char>>)> {
    p.map_values(|e: (String, Vec<String>)| (e.0@, texts(e.1@)))
}

impl ResolverConfig {
    /// The settings as text.
    pub open spec fn text(self) -> ConfigText {
        ConfigText {
            base_url: opt_text(self.base_url),
            paths: alias_texts(self.paths@),
            paths_base: opt_text(self.paths_base),
        }
    }
}

impl Default for ResolverConfig {
    fn default() -> (r: Self)
        ensures
            r.base_url is None,
            r.paths@.len() == 0,
            r.paths_base is None,
    {
        ResolverConfig { base_url: None, paths: Vec::new(), paths_base: None }
    }
}

/// No settings.
pub open spec fn no_settings() -> ConfigText {
    ConfigText { base_url: None, paths: Seq::empty(), paths_base: None }
}

/// The directory of a config file (`.` when it has none).
pub open spec fn config_dir(path: Seq<char>) -> Seq<char> {
    match path_parent(path) {
        Some(d) => d,
        None => "."@,
    }
}

/// One file's settings over those it inherits: its `baseUrl`, resolved against its own
/// directory, replaces the inherited one; its `paths` replace the inherited aliases and
/// are resolved against its own directory.
pub open spec fn applied(inherited: ConfigText, file: TsConfigFile) -> ConfigText {
    ConfigText {
        base_url: match file.base_url {
            Some(b) => Some(path_join(config_dir(file.path@), b@)),
            None => inherited.base_url,
        },
        paths: match file.paths {
            Some(p) => alias_texts(p@),
            None => inherited.paths,
        },
        paths_base: match file.paths {
            Some(_) => path_parent(file.path@),
            None => inherited.paths_base,
        },
    }
}

/// The settings of a chain of files, each extending the next.
pub open spec fn chained(chain: Seq<TsConfigFile>) -> ConfigText
    decreases chain.len(),
{
    if chain.len() == 0 {
        no_settings()
    } else {
        applied(chained(chain.drop_first()), chain[0])
    }
}

/// What a config file loads to, given what the file it extends loads to: its `baseUrl`
/// taken from its own directory when it sets one, else the inherited one; its `paths`,
/// based at its own directory, when it sets them, else the inherited `paths` and base.
pub proof fn lemma_load_inherits(chain: Seq<TsConfigFile>)
    requires
        chain.len() > 0,
    ensures
        ({
            let file = chain[0];
            let inherited = chained(chain.drop_first());
            let r = chained(chain);
            &&& r.base_url == match file.base_url {
                Some(b) => Some(path_join(config_dir(file.path@), b@)),
                None => inherited.base_url,
            }
            &&& file.paths matches Some(p) ==> r.paths == alias_texts(p@) && r.paths_base == path_parent(file.path@)
            &&& file.paths is None ==> r.paths == inherited.paths && r.paths_base == inherited.paths_base
        }),
{
}

/// How many `extends` levels a chain may have below the project's own config.
pub open spec fn extends_limit() -> nat {
    32
}

/// The file an `extends` value points at, before the `.json` fallback: only relative
/// values (starting with `.`) are followed, from the extending file's directory.
pub open spec fn extends_target(current: Seq<char>, ext: Seq<char>) -> Option<Seq<char>> {
    if ext.len() > 0 && ext[0] == '.' {
        match path_parent(current) {
            Some(d) => Some(path_join(d, ext)),
            None => None,
        }
    } else {
        None
    }
}

/// A copy of a list of strings.
pub(crate) fn copy_strings(v: &Vec<String>) -> (r: Vec<String>)
    ensures
        texts(r@) == texts(v@),
{
    let mut r: Vec<String> = Vec::new();
    let mut i: usize = 0;
    while i < v.len()
        invariant
            i <= v@.len(),
            r@.len() == i,
            forall|k: int| 0 <= k < i ==> (#[trigger] r@[k])@ == v@[k]@,
        decreases v@.len() - i,
    {
        r.push(v[i].clone());
        i = i + 1;
    }
    assert(texts(r@) =~= texts(v@));
    r
}

/// A copy of a list of aliases.
pub fn copy_aliases(p: &Vec<(String, Vec<String>)>) -> (r: Vec<(String, Vec<String>)>)
    ensures
        alias_texts(r@) == alias_texts(p@),
{
    let mut r: Vec<(String, Vec<String>)> = Vec::new();
    let mut i: usize = 0;
    while i < p.len()
        invariant
            i <= p@.len(),
            alias_texts(r@) == alias_texts(p@.subrange(0, i as int)),
        decreases p@.len() - i,
    {
        let name = p[i].0.clone();
        let targets = copy_strings(&p[i].1);
        let ghost before = r@;
        r.push((name, targets));
        assert(alias_texts(r@) =~= alias_texts(before).push((p@[i as int].0@, texts(p@[i as int].1@))));
        i = i + 1;
        assert(alias_texts(r@) =~= alias_texts(p@.subrange(0, i as int)));
    }
    assert(p@.subrange(0, p@.len() as int) =~= p@);
    r
}

impl ResolverConfig {
    /// One file's settings over those it inherits.
    pub fn apply(inherited: ResolverConfig, file: &TsConfigFile) -> (r: ResolverConfig)
        ensures
            r.text() == applied(inherited.text(), *file),
    {
        let path = chars_of(file.path.as_str());
        let dir = parent_path(&path);
        let base_url = match &file.base_url {
            Some(b) => {
                let d = match &dir {
                    Some(d) => crate::text::copy(d),
                    None => lit("."),
                };
                Some(string_of(&join_path(&d, &chars_of(b.as_str()))))
            },
            None => inherited.base_url,
        };
        let (paths, paths_base) = match &file.paths {
            Some(p) => (
                copy_aliases(p),
                match &dir {
                    Some(d) => Some(string_of(d)),
                    None => None,
                },
            ),
            None => (inherited.paths, inherited.paths_base),
        };
        ResolverConfig { base_url, paths, paths_base }
    }

    /// The settings of a project from its config chain: `chain[0]` is the project's
    /// `tsconfig.json` and each next file is the one the previous `extends`.
    pub fn load(chain: &Vec<TsConfigFile>) -> (r: ResolverConfig)
        ensures
            r.text() == chained(chain@),
    {
        let used = chain.len();
        let mut r = ResolverConfig::default();
        assert(chain@.subrange(used as int, used as int) =~= Seq::<TsConfigFile>::empty());
        assert(r.text().paths =~= no_settings().paths);
        let mut k = used;
        while k > 0
            invariant
                k <= used == chain@.len(),
                r.text() == chained(chain@.subrange(k as int, used as int)),
            decreases k,
        {
            k = k - 1;
            proof {
                assert(chain@.subrange(k as int, used as int).drop_first() =~= chain@.subrange(
                    k + 1,
                    used as int,
                ));
            }
            r = ResolverConfig::apply(r, &chain[k]);
        }
        assert(chain@.subrange(0, used as int) =~= chain@);
        r
    }
}

/// The file an `extends` value points at, before the `.json` fallback.
pub fn extends_base(current: &str, ext: &str) -> (r: Option<String>)
    ensures
        opt_text(r) == extends_target(current@, ext@),
{
    let e = chars_of(ext);
    if e.len() > 0 && e[0] == '.' {
        match parent_path(&chars_of(current)) {
            Some(d) => Some(string_of(&join_path(&d, &e))),
            None => None,
        }
    } else {
        None
    }
}

/// The extended file: the target itself when it is a file, else the target with
/// `.json` appended.
pub fn extends_file(target: &str, is_file: bool) -> (r: String)
    ensures
        r@ == if is_file {
            target@
        } else {
            target@ + ".json"@
        },
{
    let mut r = String::from_str(target);
    if !is_file {
        r.append(".json");
    }
    r
}

/// Why a config chain cannot be read.
#[derive(Debug)]
pub enum ConfigError {
    /// A file that a relative `extends` names does not exist.
    Missing(String),
    /// A config file that is not valid JSON with comments.
    Malformed(String),
    /// A file that the chain reaches twice.
    Cycle(String),
    /// A chain with more `extends` levels than allowed.
    TooDeep,
}

impl ConfigError {
    /// The explanation shown for the error.
    pub fn message(&self) -> (m: String)
        ensures
            m@ == match self {
                ConfigError::Missing(p) => "extended TypeScript config does not exist: "@ + p@,
                ConfigError::Malformed(p) => "invalid TypeScript config: "@ + p@,
                ConfigError::Cycle(p) => "TypeScript config extends itself through "@ + p@,
                ConfigError::TooDeep => "TypeScript config extends chain is longer than 32 levels"@,
            },
    {
        match self {
            ConfigError::Missing(p) => crate::text::concat("extended TypeScript config does not exist: ", p.as_str()),
            ConfigError::Malformed(p) => crate::text::concat("invalid TypeScript config: ", p.as_str()),
            ConfigError::Cycle(p) => crate::text::concat("TypeScript config extends itself through ", p.as_str()),
            ConfigError::TooDeep => String::from_str("TypeScript config extends chain is longer than 32 levels"),
        }
    }
}

/// What reading one config file gave.
#[derive(Debug)]
pub enum ConfigRead {
    /// The file does not exist.
    Missing,
    /// The file is not valid JSON with comments, or not a config.
    Malformed,
    /// The file's `extends` values, `compilerOptions.baseUrl` and `compilerOptions.paths`.
    Parsed { extends: Vec<String>, base_url: Option<String>, paths: Option<Vec<(String, Vec<String>)>> },
}

/// What to do after reading a config file.
#[derive(Debug)]
pub enum ConfigStep {
    /// Read the next extended file (the last pending one): this path, or this path with
    /// `.json` appended when no file has this path (see `extends_file`).
    Next(String),
    /// The chain is complete.
    Done,
    /// The chain cannot be read.
    Fail(ConfigError),
}

/// `f` holds what was read at `path`.
pub open spec fn read_into(f: TsConfigFile, path: Seq<char>, read: ConfigRead) -> bool {
    match read {
        ConfigRead::Parsed { extends, base_url, paths } => f.path@ == path && f.extends == extends
            && f.base_url == base_url && f.paths == paths,
        _ => false,
    }
}

/// A step as text.
pub enum StepText {
    Next(Seq<char>),
    Done,
    Missing(Seq<char>),
    Malformed(Seq<char>),
    Cycle(Seq<char>),
    TooDeep,
}

/// The text of a step.
pub open spec fn step_text(step: ConfigStep) -> StepText {
    match step {
        ConfigStep::Next(t) => StepText::Next(t@),
        ConfigStep::Done => StepText::Done,
        ConfigStep::Fail(ConfigError::Missing(p)) => StepText::Missing(p@),
        ConfigStep::Fail(ConfigError::Malformed(p)) => StepText::Malformed(p@),
        ConfigStep::Fail(ConfigError::Cycle(p)) => StepText::Cycle(p@),
        ConfigStep::Fail(ConfigError::TooDeep) => StepText::TooDeep,
    }
}

/// Files still to read, as text: each target with the paths of the files that extend it,
/// from the project's config down.
pub open spec fn pending_view(p: Seq<(String, Vec<String>)>) -> Seq<(Seq<char>, Seq<Seq<char>>)> {
    p.map_values(|e: (String, Vec<String>)| (e.0@, texts(e.1@)))
}

/// The files that the file at `path` (extended by `ancestors`) extends, in order: each
/// relative `extends` value's target, extended by `ancestors` and `path`.
pub open spec fn extends_pending(path: Seq<char>, exts: Seq<Seq<char>>, ancestors: Seq<Seq<char>>) -> Seq<(Seq<char>, Seq<Seq<char>>)>
    decreases exts.len(),
{
    if exts.len() == 0 {
        Seq::empty()
    } else {
        extends_pending(path, exts.drop_last(), ancestors) + match extends_target(path, exts.last()) {
            Some(t) => seq![(t, ancestors.push(path))],
            None => Seq::empty(),
        }
    }
}

/// The step that the pending files call for: read the last one, or stop.
pub open spec fn next_of(pending: Seq<(Seq<char>, Seq<Seq<char>>)>) -> StepText {
    if pending.len() == 0 {
        StepText::Done
    } else {
        StepText::Next(pending.last().0)
    }
}

/// The files pending after reading the last pending file at `path`.
pub open spec fn pending_after(pending: Seq<(Seq<char>, Seq<Seq<char>>)>, path: Seq<char>, read: ConfigRead) -> Seq<(Seq<char>, Seq<Seq<char>>)> {
    match read {
        ConfigRead::Parsed { extends, .. } => pending.drop_last() + extends_pending(path, texts(extends@), pending.last().1),
        _ => pending.drop_last(),
    }
}

/// The step after reading the last pending file (extended by `pending.last().1`) at
/// `path`: a missing project config is skipped; a missing extended file, a malformed file,
/// a file that already extends this one, or one more level than allowed fail; otherwise
/// the file joins the chain, the targets of its relative `extends` values join the pending
/// files (so that later values are read first and end up applied over earlier ones), and
/// the last pending file is read next.
pub open spec fn step_after(pending: Seq<(Seq<char>, Seq<Seq<char>>)>, path: Seq<char>, read: ConfigRead) -> StepText {
    let ancestors = pending.last().1;
    match read {
        ConfigRead::Missing => if ancestors.len() == 0 {
            next_of(pending_after(pending, path, read))
        } else {
            StepText::Missing(path)
        },
        ConfigRead::Malformed => StepText::Malformed(path),
        ConfigRead::Parsed { .. } => if ancestors.contains(path) {
            StepText::Cycle(path)
        } else if ancestors.len() > extends_limit() {
            StepText::TooDeep
        } else {
            next_of(pending_after(pending, path, read))
        },
    }
}

/// Whether `names` holds `path`.
fn holds_text(names: &Vec<String>, path: &str) -> (r: bool)
    ensures
        r == texts(names@).contains(path@),
{
    let p = chars_of(path);
    let mut i: usize = 0;
    while i < names.len()
        invariant
            i <= names@.len(),
            p@ == path@,
            forall|k: int| 0 <= k < i ==> names@[k]@ != path@,
        decreases names@.len() - i,
    {
        if chars_equal(&chars_of(names[i].as_str()), &p) {
            assert(texts(names@)[i as int] == path@);
            return true;
        }
        i = i + 1;
    }
    proof {
        if texts(names@).contains(path@) {
            let k = choose|k: int| 0 <= k < texts(names@).len() && texts(names@)[k] == path@;
            assert(names@[k]@ == path@);
        }
    }
    false
}

/// Adds the targets of the relative `extends` values of the file at `path` to `pending`.
fn push_extends(pending: &mut Vec<(String, Vec<String>)>, path: &str, exts: &Vec<String>, ancestors: &Vec<String>)
    ensures
        pending_view(final(pending)@) == pending_view(old(pending)@) + extends_pending(path@, texts(exts@), texts(ancestors@)),
{
    let ghost start = pending_view(pending@);
    let ghost chain = texts(ancestors@);
    let mut below = copy_strings(ancestors);
    below.push(String::from_str(path));
    assert(texts(below@) =~= chain.push(path@));
    let mut i: usize = 0;
    while i < exts.len()
        invariant
            i <= exts@.len(),
            texts(below@) == chain.push(path@),
            pending_view(pending@) == start + extends_pending(path@, texts(exts@).subrange(0, i as int), chain),
        decreases exts@.len() - i,
    {
        proof {
            assert(texts(exts@).subrange(0, i + 1).drop_last() =~= texts(exts@).subrange(0, i as int));
            assert(texts(exts@).subrange(0, i + 1).last() == exts@[i as int]@);
        }
        let ghost before = pending_view(pending@);
        match extends_base(path, exts[i].as_str()) {
            Some(t) => {
                let ghost tv = t@;
                pending.push((t, copy_strings(&below)));
                assert(pending_view(pending@) =~= before.push((tv, chain.push(path@))));
            },
            None => {
                assert(pending_view(pending@) =~= before);
            },
        }
        i = i + 1;
    }
    assert(texts(exts@).subrange(0, exts@.len() as int) =~= texts(exts@));
}

/// Takes in what reading the last pending file at `path` gave and says what to do next;
/// a parsed file that does not fail joins the chain, and the files it extends join the
/// pending ones.
pub fn config_step(
    chain: &mut Vec<TsConfigFile>,
    pending: &mut Vec<(String, Vec<String>)>,
    path: &str,
    read: ConfigRead,
) -> (step: ConfigStep)
    requires
        old(pending)@.len() > 0,
    ensures
        step_text(step) == step_after(pending_view(old(pending)@), path@, read),
        !(step is Fail) ==> pending_view(final(pending)@) == pending_after(pending_view(old(pending)@), path@, read),
        step is Fail || !(read is Parsed) ==> final(chain)@ == old(chain)@,
        !(step is Fail) && read is Parsed ==> final(chain)@.len() == old(chain)@.len() + 1
            && final(chain)@.subrange(0, old(chain)@.len() as int) == old(chain)@
            && read_into(final(chain)@.last(), path@, read),
{
    let ghost pv = pending_view(pending@);
    let last = pending.len() - 1;
    let ancestors = copy_strings(&pending[last].1);
    assert(pv.last() == (pending@[last as int].0@, texts(ancestors@)));
    pending.truncate(last);
    assert(pending_view(pending@) =~= pv.drop_last());
    let stop = match &read {
        ConfigRead::Missing => {
            if ancestors.len() == 0 {
                None
            } else {
                Some(ConfigError::Missing(String::from_str(path)))
            }
        },
        ConfigRead::Malformed => Some(ConfigError::Malformed(String::from_str(path))),
        ConfigRead::Parsed { .. } => {
            if holds_text(&ancestors, path) {
                Some(ConfigError::Cycle(String::from_str(path)))
            } else if ancestors.len() > 32 {
                Some(ConfigError::TooDeep)
            } else {
                None
            }
        },
    };
    if let Some(e) = stop {
        return ConfigStep::Fail(e);
    }
    match read {
        ConfigRead::Parsed { extends, base_url, paths } => {
            push_extends(pending, path, &extends, &ancestors);
            let ghost before = chain@;
            chain.push(TsConfigFile { path: String::from_str(path), extends, base_url, paths });
            assert(chain@.subrange(0, before.len() as int) =~= before);
        },
        _ => {},
    }
    if pending.len() == 0 {
        ConfigStep::Done
    } else {
        let top = pending.len() - 1;
        assert(pending_view(pending@).last() == (pending@[top as int].0@, texts(pending@[top as int].1@)));
        ConfigStep::Next(pending[top].0.clone())
    }
}

// ---------------------------------------------------------------- which config a source uses

/// A project config file: a `tsconfig.json` or a `jsconfig.json`.
pub open spec fn project_config(p: Seq<char>) -> bool {
    file_name(p) == "tsconfig.json"@ || file_name(p) == "jsconfig.json"@
}

/// The `tsconfig.json` beside a config file.
pub open spec fn sibling_tsconfig(p: Seq<char>) -> Option<Seq<char>> {
    match path_parent(p) {
        Some(d) => Some(path_join(d, "tsconfig.json"@)),
        None => None,
    }
}

/// The config files that sources use: each `tsconfig.json`, and each `jsconfig.json`
/// whose directory has no `tsconfig.json` among the files found.
pub open spec fn used_configs(found: Seq<Seq<char>>) -> Seq<Seq<char>> {
    found.filter(|p: Seq<char>| file_name(p) == "tsconfig.json"@ || (file_name(p) == "jsconfig.json"@ && !(
    sibling_tsconfig(p) matches Some(t) && found.contains(t))))
}

/// The directory of a config file holds `file`.
pub open spec fn covers(config: Seq<char>, file: Seq<char>) -> bool {
    path_parent(config) matches Some(d) && within(d, file)
}

/// The length of a config file's directory.
pub open spec fn dir_len(config: Seq<char>) -> int {
    match path_parent(config) {
        Some(d) => d.len() as int,
        None => 0,
    }
}

/// `k` is the config that `file` uses: the first of those whose directory holds it with
/// the longest directory.
pub open spec fn nearest_config_is(configs: Seq<Seq<char>>, file: Seq<char>, k: int) -> bool {
    &&& 0 <= k < configs.len()
    &&& covers(configs[k], file)
    &&& forall|j: int| 0 <= j < configs.len() && covers(#[trigger] configs[j], file) ==> dir_len(configs[j]) <= dir_len(configs[k])
    &&& forall|j: int| 0 <= j < k && covers(#[trigger] configs[j], file) ==> dir_len(configs[j]) < dir_len(configs[k])
}

/// Whether the path names a project config file.
pub fn is_project_config(path: &str) -> (r: bool)
    ensures
        r == project_config(path@),
{
    let name = file_name_of(&chars_of(path));
    chars_equal(&name, &lit("tsconfig.json")) || chars_equal(&name, &lit("jsconfig.json"))
}

/// The config files that sources use, in the order found: each `tsconfig.json`, and each
/// `jsconfig.json` without a `tsconfig.json` beside it.
pub fn choose_configs(found: &Vec<String>) -> (r: Vec<String>)
    ensures
        texts(r@) == used_configs(texts(found@)),
{
    let ghost tf = texts(found@);
    let ghost keep = |p: Seq<char>| file_name(p) == "tsconfig.json"@ || (file_name(p) == "jsconfig.json"@ && !(
        sibling_tsconfig(p) matches Some(t) && tf.contains(t)));
    let mut r: Vec<String> = Vec::new();
    let mut i: usize = 0;
    while i < found.len()
        invariant
            i <= found@.len(),
            tf == texts(found@),
            keep == (|p: Seq<char>| file_name(p) == "tsconfig.json"@ || (file_name(p) == "jsconfig.json"@ && !(
                sibling_tsconfig(p) matches Some(t) && tf.contains(t)))),
            texts(r@) == tf.subrange(0, i as int).filter(keep),
        decreases found@.len() - i,
    {
        proof {
            assert(tf.subrange(0, i + 1).drop_last() =~= tf.subrange(0, i as int));
            reveal_with_fuel(Seq::filter, 1);
        }
        let p = chars_of(found[i].as_str());
        let name = file_name_of(&p);
        let wanted = if chars_equal(&name, &lit("tsconfig.json")) {
            true
        } else if chars_equal(&name, &lit("jsconfig.json")) {
            match parent_path(&p) {
                Some(d) => {
                    let t = string_of(&join_path(&d, &lit("tsconfig.json")));
                    !listed_text(found, &t)
                },
                None => true,
            }
        } else {
            false
        };
        if wanted {
            let ghost before = texts(r@);
            r.push(found[i].clone());
            assert(texts(r@) =~= before.push(tf[i as int]));
        }
        i = i + 1;
    }
    assert(tf.subrange(0, tf.len() as int) =~= tf);
    r
}

/// Whether `names` holds `x`.
fn listed_text(names: &Vec<String>, x: &String) -> (r: bool)
    ensures
        r == texts(names@).contains(x@),
{
    let xs = chars_of(x.as_str());
    let mut i: usize = 0;
    while i < names.len()
        invariant
            i <= names@.len(),
            xs@ == x@,
            forall|k: int| 0 <= k < i ==> names@[k]@ != x@,
        decreases names@.len() - i,
    {
        if chars_equal(&chars_of(names[i].as_str()), &xs) {
            assert(texts(names@)[i as int] == x@);
            return true;
        }
        i = i + 1;
    }
    proof {
        if texts(names@).contains(x@) {
            let k = choose|k: int| 0 <= k < texts(names@).len() && texts(names@)[k] == x@;
            assert(names@[k]@ == x@);
        }
    }
    false
}

/// The config that a source file uses: among the configs whose directory holds it, the
/// one with the longest directory (the first of those); none when no directory holds it.
pub fn nearest_config(configs: &Vec<String>, file: &str) -> (r: Option<usize>)
    ensures
        r matches Some(k) ==> nearest_config_is(texts(configs@), file@, k as int),
        r is None ==> forall|j: int| 0 <= j < configs@.len() ==> !covers(#[trigger] texts(configs@)[j], file@),
{
    let ghost tc = texts(configs@);
    let f = chars_of(file);
    let mut best: Option<usize> = None;
    let mut best_len: usize = 0;
    let mut i: usize = 0;
    while i < configs.len()
        invariant
            i <= configs@.len(),
            tc == texts(configs@),
            f@ == file@,
            match best {
                None => forall|j: int| 0 <= j < i ==> !covers(#[trigger] tc[j], file@),
                Some(b) => b < i && covers(tc[b as int], file@) && best_len == dir_len(tc[b as int])
                    && (forall|j: int| 0 <= j < i && covers(#[trigger] tc[j], file@) ==> dir_len(tc[j]) <= dir_len(tc[b as int]))
                    && (forall|j: int| 0 <= j < b && covers(#[trigger] tc[j], file@) ==> dir_len(tc[j]) < dir_len(tc[b as int])),
            },
        decreases configs@.len() - i,
    {
        let c = chars_of(configs[i].as_str());
        assert(tc[i as int] == c@);
        match parent_path(&c) {
            Some(d) => {
                if contains_path(&d, &f) {
                    let better = match best {
                        None => true,
                        Some(_) => d.len() > best_len,
                    };
                    if better {
                        best = Some(i);
                        best_len = d.len();
                    }
                }
            },
            None => {},
        }
        i = i + 1;
    }
    best
}

} // verus!
