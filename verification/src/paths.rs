//! Where the tool keeps things in the user's home, and where a project's
//! config file may stand.

use vstd::prelude::*;

use etcetera::BaseStrategy;

use crate::smllm::{join, joined_to, lemma_parent_shorter, parent, parent_of, CONFIG_FILE, PROJECT_DIR};
use crate::text::{append_str, chars_of, string_of};

verus! {

/// The user's base directories, as the platform's conventions place them.
#[derive(Debug)]
pub struct BaseDirs {
    /// The home directory.
    pub home: String,
    /// The configuration directory, e.g. `~/.config`.
    pub config: String,
    /// The data directory, e.g. `~/.local/share`.
    pub data: String,
    /// The state directory, e.g. `~/.local/state`, where the platform has
    /// one.
    pub state: Option<String>,
}

/// The user's base directories, from etcetera's `choose_base_strategy`
/// and the strategy's `home_dir`, `config_dir`, `data_dir` and
/// `state_dir`; the error's text when no home directory is found. They
/// come from the environment: nothing is stated of them.
#[verifier::external_body]
fn base_dirs() -> (r: Result<BaseDirs, String>) {
    match etcetera::choose_base_strategy() {
        Ok(s) => Ok(BaseDirs {
            home: s.home_dir().to_string_lossy().into_owned(),
            config: s.config_dir().to_string_lossy().into_owned(),
            data: s.data_dir().to_string_lossy().into_owned(),
            state: match s.state_dir() {
                Some(p) => Some(p.to_string_lossy().into_owned()),
                None => None,
            },
        }),
        Err(e) => Err(e.to_string()),
    }
}

/// Which of the user's directories the tool uses.
#[derive(Debug, Clone, Copy, PartialEq, Eq, Structural)]
pub enum UserDir {
    /// `<config>/smllm`: the user's config.
    Config,
    /// `<state>/smllm`, or `<data>/smllm` where there is no state
    /// directory: sessions and bindings.
    State,
}

/// The directory `which` under the base directories.
pub open spec fn user_dir_of(dirs: BaseDirs, which: UserDir) -> Seq<char> {
    match which {
        UserDir::Config => joined_to(dirs.config@, "smllm"@),
        UserDir::State => match dirs.state {
            Some(s) => joined_to(s@, "smllm"@),
            None => joined_to(dirs.data@, "smllm"@),
        },
    }
}

/// The refusal when no home directory is found.
pub open spec fn no_home(e: Seq<char>) -> Seq<char> {
    "no home directory: "@ + e
}

/// The directory `which` from the outcome of looking up the base
/// directories, or the refusal.
pub open spec fn user_dir_from(dirs: Result<BaseDirs, String>, which: UserDir) -> Result<Seq<char>, Seq<char>> {
    match dirs {
        Ok(d) => Ok(user_dir_of(d, which)),
        Err(e) => Err(no_home(e@)),
    }
}

/// The plain value of a path or a message.
pub open spec fn text_result(r: Result<String, String>) -> Result<Seq<char>, Seq<char>> {
    match r {
        Ok(s) => Ok(s@),
        Err(e) => Err(e@),
    }
}

/// The directory `which` from the outcome of looking up the base
/// directories: `Err` with `no home directory: <why>` when there are none.
pub fn user_dir_in(dirs: &Result<BaseDirs, String>, which: UserDir) -> (r: Result<String, String>)
    ensures
        text_result(r) == user_dir_from(*dirs, which),
{
    proof {
        reveal_strlit("no home directory: ");
    }
    match dirs {
        Ok(d) => {
            let base = match which {
                UserDir::Config => d.config.as_str(),
                UserDir::State => match &d.state {
                    Some(s) => s.as_str(),
                    None => d.data.as_str(),
                },
            };
            Ok(join(base, "smllm"))
        },
        Err(e) => {
            let mut out = chars_of("no home directory: ");
            append_str(&mut out, e.as_str());
            Err(string_of(&out))
        },
    }
}

/// The user's directory `which`, e.g. `~/.config/smllm`; `no home
/// directory: <why>` when the platform finds no home.
pub fn user_dir(which: UserDir) -> (r: Result<String, String>)
    ensures
        exists|dirs: Result<BaseDirs, String>| text_result(r) == user_dir_from(dirs, which),
{
    let dirs = base_dirs();
    user_dir_in(&dirs, which)
}

/// `$XDG_CONFIG_HOME/smllm` (`~/.config/smllm`).
pub fn user_config_dir() -> (r: Result<String, String>)
    ensures
        exists|dirs: Result<BaseDirs, String>| text_result(r) == user_dir_from(dirs, UserDir::Config),
{
    user_dir(UserDir::Config)
}

/// `$XDG_STATE_HOME/smllm` (`~/.local/state/smllm`): sessions and bindings.
pub fn user_state_dir() -> (r: Result<String, String>)
    ensures
        exists|dirs: Result<BaseDirs, String>| text_result(r) == user_dir_from(dirs, UserDir::State),
{
    user_dir(UserDir::State)
}

/// The home directory joined with `dir`, e.g. a harness's own directory;
/// the refusal when the platform finds no home.
pub open spec fn home_dir_from(dirs: Result<BaseDirs, String>, dir: Seq<char>) -> Result<Seq<char>, Seq<char>> {
    match dirs {
        Ok(d) => Ok(joined_to(d.home@, dir)),
        Err(e) => Err(no_home(e@)),
    }
}

/// `dir` under the home directory, from the outcome of looking up the base
/// directories.
pub fn home_dir_in(dirs: &Result<BaseDirs, String>, dir: &str) -> (r: Result<String, String>)
    ensures
        text_result(r) == home_dir_from(*dirs, dir@),
{
    proof {
        reveal_strlit("no home directory: ");
    }
    match dirs {
        Ok(d) => Ok(join(d.home.as_str(), dir)),
        Err(e) => {
            let mut out = chars_of("no home directory: ");
            append_str(&mut out, e.as_str());
            Err(string_of(&out))
        },
    }
}

/// `dir` under the user's home directory, e.g. a harness's own directory
/// such as `~/.<harness>`.
pub fn harness_user_dir(dir: &str) -> (r: Result<String, String>)
    ensures
        exists|dirs: Result<BaseDirs, String>| text_result(r) == home_dir_from(dirs, dir@),
{
    let dirs = base_dirs();
    home_dir_in(&dirs, dir)
}

/// `p`, its parent, that one's parent and so on, as `Path::ancestors`
/// gives them: up to the path that has no parent.
pub open spec fn ancestors(p: Seq<char>) -> Seq<Seq<char>>
    decreases p.len(),
{
    match parent_of(p) {
        None => seq![p],
        Some(q) => {
            proof {
                lemma_parent_shorter(p);
            }
            seq![p] + ancestors(q)
        },
    }
}

/// The config file of each ancestor of `from`, nearest first.
pub open spec fn config_candidates_of(from: Seq<char>) -> Seq<Seq<char>> {
    ancestors(from).map_values(|d: Seq<char>| joined_to(joined_to(d, ".smllm"@), "config.toml"@))
}

/// Where the nearest project config may stand: `.smllm/config.toml` in
/// `from` and in each directory above it, nearest first. The caller takes
/// the first that is a file.
pub fn config_candidates(from: &str) -> (r: Vec<String>)
    ensures
        r@.map_values(|s: String| s@) == config_candidates_of(from@),
{
    let mut out: Vec<String> = Vec::new();
    let mut cur = chars_of(from);
    let ghost start = from@;
    assert(ancestors(start) == ancestors(cur@));
    loop
        invariant
            start == from@,
            out@.map_values(|s: String| s@) + config_candidates_of(cur@) == config_candidates_of(start),
        decreases cur@.len(),
    {
        let dir = string_of(&cur);
        let c = join(join(dir.as_str(), PROJECT_DIR).as_str(), CONFIG_FILE);
        proof {
            reveal_strlit(".smllm");
            reveal_strlit("config.toml");
        }
        let ghost before = out@.map_values(|s: String| s@);
        out.push(c);
        assert(out@.map_values(|s: String| s@) =~= before.push(c@));
        let up = match parent(&cur) {
            None => {
                assert(config_candidates_of(cur@) =~= seq![c@]);
                assert(out@.map_values(|s: String| s@) =~= before + config_candidates_of(cur@));
                return out;
            },
            Some(u) => u,
        };
        proof {
            lemma_parent_shorter(cur@);
            assert(config_candidates_of(cur@) =~= seq![c@] + config_candidates_of(up@));
            assert(before + config_candidates_of(cur@) =~= before.push(c@) + config_candidates_of(up@));
        }
        cur = up;
    }
}

/// Where a config file came from.
#[derive(Debug, Clone, Copy, PartialEq, Eq, Structural)]
pub enum Origin {
    /// `--config` or `SMLLM_CONFIG`, or recorded on a session.
    Explicit,
    /// The user config.
    User,
    /// The nearest project config.
    Project,
}

/// A config file to load.
#[derive(Debug)]
pub struct ConfigFile {
    /// Its path.
    pub path: String,
    /// Where it came from.
    pub origin: Origin,
}

/// A config file as plain values.
pub open spec fn config_view(c: ConfigFile) -> (Seq<char>, Origin) {
    (c.path@, c.origin)
}

/// The plain values of a list of config files.
pub open spec fn configs_view(v: Seq<ConfigFile>) -> Seq<(Seq<char>, Origin)> {
    v.map_values(|c: ConfigFile| config_view(c))
}

/// The explicit config: `--config`, else `SMLLM_CONFIG` when it is set and
/// not empty.
pub open spec fn explicit_of(flag: Option<Seq<char>>, env: Option<Seq<char>>) -> Option<Seq<char>> {
    match flag {
        Some(f) => Some(f),
        None => match env {
            Some(v) => if v.len() > 0 {
                Some(v)
            } else {
                None
            },
            None => None,
        },
    }
}

/// The explicit config: `flag` (`--config`), else `env` (`SMLLM_CONFIG`)
/// when it is set and not empty.
pub fn explicit(flag: Option<&str>, env: Option<&str>) -> (r: Option<String>)
    ensures
        (match r {
            Some(x) => Some(x@),
            None => None,
        }) == explicit_of(crate::harness::region::opt_view(flag), crate::harness::region::opt_view(env)),
{
    match flag {
        Some(f) => Some(f.to_string()),
        None => match env {
            Some(v) => if v.is_empty() {
                None
            } else {
                Some(v.to_string())
            },
            None => None,
        },
    }
}

/// The configs to load. With an explicit config `explicit` (taken from
/// `from` when relative), that one alone, or `Err("config <path> does not
/// exist")` when `explicit_found` says it is not a file; else the user
/// config `user` when it is a file, then the nearest project config
/// `project` when there is one. Empty when none exists.
pub open spec fn lookup_of(
    explicit: Option<Seq<char>>,
    from: Seq<char>,
    explicit_found: bool,
    user: Option<Seq<char>>,
    project: Option<Seq<char>>,
) -> Result<Seq<(Seq<char>, Origin)>, Seq<char>> {
    match explicit {
        Some(p) => {
            let path = joined_to(from, p);
            if explicit_found {
                Ok(seq![(path, Origin::Explicit)])
            } else {
                Err("config "@ + path + " does not exist"@)
            }
        },
        None => Ok(
            (match user {
                Some(u) => seq![(u, Origin::User)],
                None => Seq::empty(),
            }) + (match project {
                Some(q) => seq![(q, Origin::Project)],
                None => Seq::empty(),
            }),
        ),
    }
}

/// The configs to load: the explicit config alone (taken from `from` when
/// relative; `explicit_found` says whether that path is a file, and an
/// error names it when it is not), else the user config `user` (given when
/// it is a file) then the nearest project config `project`.
pub fn lookup(
    explicit: Option<&str>,
    from: &str,
    explicit_found: bool,
    user: Option<&str>,
    project: Option<&str>,
) -> (r: Result<Vec<ConfigFile>, String>)
    ensures
        match lookup_of(
            crate::harness::region::opt_view(explicit),
            from@,
            explicit_found,
            crate::harness::region::opt_view(user),
            crate::harness::region::opt_view(project),
        ) {
            Ok(v) => r is Ok && configs_view(r->Ok_0@) == v,
            Err(e) => r is Err && r->Err_0@ == e,
        },
{
    let mut out: Vec<ConfigFile> = Vec::new();
    match explicit {
        Some(p) => {
            let path = join(from, p);
            if explicit_found {
                out.push(ConfigFile { path, origin: Origin::Explicit });
                assert(configs_view(out@) =~= seq![(path@, Origin::Explicit)]);
                Ok(out)
            } else {
                let mut e: Vec<char> = Vec::new();
                append_str(&mut e, "config ");
                append_str(&mut e, path.as_str());
                append_str(&mut e, " does not exist");
                Err(string_of(&e))
            }
        },
        None => {
            match user {
                Some(u) => out.push(ConfigFile { path: u.to_string(), origin: Origin::User }),
                None => {},
            }
            let ghost mid = out@;
            match project {
                Some(q) => out.push(ConfigFile { path: q.to_string(), origin: Origin::Project }),
                None => {},
            }
            proof {
                let want = lookup_of(
                    crate::harness::region::opt_view(explicit),
                    from@,
                    explicit_found,
                    crate::harness::region::opt_view(user),
                    crate::harness::region::opt_view(project),
                )->Ok_0;
                assert(configs_view(out@) =~= want);
            }
            Ok(out)
        },
    }
}

/// The configs recorded on a session, each as an explicit config.
pub fn recorded(paths: &Vec<String>) -> (r: Vec<ConfigFile>)
    ensures
        configs_view(r@) == paths@.map_values(|p: String| (p@, Origin::Explicit)),
{
    let mut out: Vec<ConfigFile> = Vec::new();
    let mut i: usize = 0;
    while i < paths.len()
        invariant
            i <= paths.len(),
            configs_view(out@) == paths@.take(i as int).map_values(|p: String| (p@, Origin::Explicit)),
        decreases paths.len() - i,
    {
        let ghost before = out@;
        out.push(ConfigFile { path: paths[i].clone(), origin: Origin::Explicit });
        assert(configs_view(out@) =~= configs_view(before).push((paths@[i as int]@, Origin::Explicit)));
        assert(paths@.take(i + 1).map_values(|p: String| (p@, Origin::Explicit)) =~= paths@.take(
            i as int,
        ).map_values(|p: String| (p@, Origin::Explicit)).push((paths@[i as int]@, Origin::Explicit)));
        i = i + 1;
    }
    assert(paths@.take(i as int) =~= paths@);
    out
}

} // verus!
