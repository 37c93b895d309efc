//! Server configuration and the data-directory layout derived from it:
//! `<data dir>/sde-<build>` for an unpacked build and `<data dir>/meta.json` for
//! the cached build metadata. Creating directories and reading them back is the
//! application's; the paths themselves are decided here.

use vstd::prelude::*;
use crate::text::{spec_parse_u64, parse_u64};

verus! {

/// How the server is reached.
#[derive(Debug, Clone, Copy, PartialEq, Eq)]
pub enum Transport {
    /// A local client spawns the binary and speaks over stdin/stdout.
    Stdio,
    /// A long-lived process serves Streamable HTTP.
    Http,
}

/// The command-line / environment settings the server starts from.
pub struct Config {
    /// `--data-dir` / `SDE_DATA_DIR`, as the path's encoded bytes; an empty
    /// value counts as unset.
    pub data_dir: Option<Vec<u8>>,
    /// `--log-level`.
    pub log_level: String,
    /// `--redownload`: fetch the SDE even when the cached build is current.
    pub redownload: bool,
    /// `--language` / `SDE_LANGUAGE`: the language localized names are cut to.
    pub language: Option<String>,
    /// `--transport` / `SDE_TRANSPORT`.
    pub transport: Transport,
    /// `--bind` / `SDE_BIND`, used in HTTP mode.
    pub bind: String,
    /// `--path` / `SDE_PATH`, where the MCP endpoint is mounted in HTTP mode.
    pub path: String,
}

/// Why no data directory could be settled on.
#[derive(Debug, Clone, Copy, PartialEq, Eq)]
pub enum ConfigError {
    /// No directory was configured and the OS offers no home directory to put
    /// the per-OS default under.
    NoHomeDirectory,
}

/// The per-OS default data directory, from `directories::ProjectDirs::from("",
/// "", "eve-sde-mcp")` and its `data_dir()`, as the path's encoded bytes
/// (`OsStr::as_encoded_bytes`), so no path is altered on the way. It depends on
/// the environment (the user's home), so nothing is promised of it.
#[verifier::external_body]
fn default_data_dir() -> Option<Vec<u8>> {
    match directories::ProjectDirs::from("", "", "eve-sde-mcp") {
        Some(dirs) => Some(dirs.data_dir().as_os_str().as_encoded_bytes().to_vec()),
        None => None,
    }
}

/// The directory precedence: an explicit, non-empty setting wins; otherwise the
/// per-OS default, when the OS offers one.
pub open spec fn spec_resolve_data_dir(explicit: Option<Seq<u8>>, per_os_default: Option<Seq<u8>>) -> Result<Seq<u8>, ConfigError> {
    match explicit {
        Some(d) if d.len() > 0 => Ok(d),
        _ => match per_os_default {
            Some(d) => Ok(d),
            None => Err(ConfigError::NoHomeDirectory),
        },
    }
}

/// The view of an optional byte path.
pub open spec fn opt_view(s: Option<Vec<u8>>) -> Option<Seq<u8>> {
    match s {
        Some(x) => Some(x@),
        None => None,
    }
}

fn copy_bytes(v: &Vec<u8>) -> (r: Vec<u8>)
    ensures
        r@ == v@,
{
    let mut out: Vec<u8> = Vec::new();
    let mut i: usize = 0;
    while i < v.len()
        invariant
            0 <= i <= v@.len(),
            out@ == v@.take(i as int),
        decreases v@.len() - i,
    {
        out.push(v[i]);
        assert(v@.take(i + 1) =~= v@.take(i as int).push(v@[i as int]));
        i = i + 1;
    }
    assert(v@.take(v@.len() as int) =~= v@);
    out
}

/// The precedence of [`spec_resolve_data_dir`], given the per-OS default.
pub fn resolve_data_dir(explicit: &Option<Vec<u8>>, per_os_default: Option<Vec<u8>>) -> (r: Result<Vec<u8>, ConfigError>)
    ensures
        match r {
            Ok(d) => spec_resolve_data_dir(opt_view(*explicit), opt_view(per_os_default)) == Ok::<Seq<u8>, ConfigError>(d@),
            Err(e) => spec_resolve_data_dir(opt_view(*explicit), opt_view(per_os_default)) == Err::<Seq<u8>, ConfigError>(e),
        },
{
    match explicit {
        Some(d) => {
            if d.len() > 0 {
                return Ok(copy_bytes(d));
            }
        },
        None => {},
    }
    match per_os_default {
        Some(d) => Ok(d),
        None => Err(ConfigError::NoHomeDirectory),
    }
}

/// `base` joined with a relative `name` the way `PathBuf::push` does with `/`:
/// a separator is inserted unless `base` is empty or already ends in one.
pub open spec fn path_join(base: Seq<u8>, name: Seq<u8>) -> Seq<u8> {
    if base.len() == 0 || base.last() == 47u8 {
        base + name
    } else {
        base + seq![47u8] + name
    }
}

fn join_path(base: Vec<u8>, name: &Vec<u8>) -> (r: Vec<u8>)
    ensures
        r@ == path_join(base@, name@),
{
    let mut out = base;
    let n = out.len();
    if n > 0 && out[n - 1] != 47u8 {
        out.push(47u8);
    }
    let ghost before = out@;
    let mut i: usize = 0;
    while i < name.len()
        invariant
            0 <= i <= name@.len(),
            out@ == before + name@.take(i as int),
        decreases name@.len() - i,
    {
        out.push(name[i]);
        assert(name@.take(i + 1) =~= name@.take(i as int).push(name@[i as int]));
        i = i + 1;
    }
    assert(name@.take(name@.len() as int) =~= name@);
    out
}

/// The ASCII digits of `n` in decimal.
pub open spec fn decimal_bytes(n: nat) -> Seq<u8>
    decreases n,
{
    if n < 10 {
        seq![(48 + n) as u8]
    } else {
        decimal_bytes(n / 10).push((48 + n % 10) as u8)
    }
}

fn push_decimal_bytes(v: &mut Vec<u8>, n: u64)
    ensures
        final(v)@ == old(v)@ + decimal_bytes(n as nat),
    decreases n,
{
    if n < 10 {
        v.push((48 + n) as u8);
        assert(decimal_bytes(n as nat) =~= seq![(48 + n) as u8]);
    } else {
        push_decimal_bytes(v, n / 10);
        v.push((48 + n % 10) as u8);
    }
}

/// The name of the directory one build is unpacked into: `sde-<build>`.
pub open spec fn sde_dir_name(build: u64) -> Seq<u8> {
    seq![115u8, 100u8, 101u8, 45u8] + decimal_bytes(build as nat)
}

fn sde_dir_name_bytes(build: u64) -> (r: Vec<u8>)
    ensures
        r@ == sde_dir_name(build),
{
    let mut s: Vec<u8> = Vec::new();
    s.push(115u8);
    s.push(100u8);
    s.push(101u8);
    s.push(45u8);
    assert(s@ =~= seq![115u8, 100u8, 101u8, 45u8]);
    push_decimal_bytes(&mut s, build);
    s
}

/// The bytes of `meta.json`.
pub open spec fn meta_file_name() -> Seq<u8> {
    seq![109u8, 101u8, 116u8, 97u8, 46u8, 106u8, 115u8, 111u8, 110u8]
}

impl Config {
    /// The configured data directory by the precedence of
    /// [`spec_resolve_data_dir`]: the `--data-dir` flag or `SDE_DATA_DIR` (empty
    /// read as unset), else the per-OS default. An explicit, non-empty setting is
    /// returned as given; otherwise the answer rests on what the OS reports.
    pub fn data_dir_setting(&self) -> (r: Result<Vec<u8>, ConfigError>)
        ensures
            match self.data_dir {
                Some(d) if d@.len() > 0 => r matches Ok(x) && x@ == d@,
                _ => r matches Err(e) ==> e == ConfigError::NoHomeDirectory,
            },
    {
        match &self.data_dir {
            Some(d) => {
                if d.len() > 0 {
                    return Ok(copy_bytes(d));
                }
            },
            None => {},
        }
        resolve_data_dir(&self.data_dir, default_data_dir())
    }

    /// `<data dir>/sde-<build>`, where one SDE build is unpacked.
    pub fn sde_dir(&self, build: u64) -> (r: Result<Vec<u8>, ConfigError>)
        ensures
            match self.data_dir {
                Some(d) if d@.len() > 0 => match r {
                    Ok(p) => p@ == path_join(d@, sde_dir_name(build)),
                    Err(_) => false,
                },
                _ => r.is_ok() || r == Err::<Vec<u8>, ConfigError>(ConfigError::NoHomeDirectory),
            },
    {
        let base = self.data_dir_setting()?;
        let name = sde_dir_name_bytes(build);
        Ok(join_path(base, &name))
    }

    /// `<data dir>/meta.json`, where the cached build's metadata lives.
    pub fn meta_path(&self) -> (r: Result<Vec<u8>, ConfigError>)
        ensures
            match self.data_dir {
                Some(d) if d@.len() > 0 => match r {
                    Ok(p) => p@ == path_join(d@, meta_file_name()),
                    Err(_) => false,
                },
                _ => r.is_ok() || r == Err::<Vec<u8>, ConfigError>(ConfigError::NoHomeDirectory),
            },
    {
        let base = self.data_dir_setting()?;
        let name: Vec<u8> = vec![109u8, 101u8, 116u8, 97u8, 46u8, 106u8, 115u8, 111u8, 110u8];
        assert(name@ =~= meta_file_name());
        Ok(join_path(base, &name))
    }
}

/// The build number a data-directory entry name carries, when it is an
/// `sde-<build>` directory (`<build>` parsed as `str::parse::<u64>` does).
pub open spec fn spec_sde_dir_build(name: Seq<u8>) -> Option<u64> {
    if name.len() >= 4 && name.take(4) == seq![115u8, 100, 101, 45] {
        spec_parse_u64(name.subrange(4, name.len() as int))
    } else {
        None
    }
}

/// Whether a data-directory entry is an unpacked build other than the current
/// one, and so removable once the current build is in place.
pub fn is_stale_sde_dir(name: &[u8], current_build: u64) -> (r: bool)
    ensures
        r == match spec_sde_dir_build(name@) {
            Some(b) => b != current_build,
            None => false,
        },
{
    if name.len() >= 4 && name[0] == 115u8 && name[1] == 100u8 && name[2] == 101u8 && name[3] == 45u8 {
        assert(name@.take(4) =~= seq![115u8, 100, 101, 45]);
        let rest = vstd::slice::slice_subrange(name, 4, name.len());
        match parse_u64(rest) {
            Some(b) => b != current_build,
            None => false,
        }
    } else {
        proof {
            if name@.len() >= 4 && name@.take(4) == seq![115u8, 100, 101, 45] {
                assert(name@.take(4)[0] == name@[0]);
                assert(name@.take(4)[1] == name@[1]);
                assert(name@.take(4)[2] == name@[2]);
                assert(name@.take(4)[3] == name@[3]);
            }
        }
        false
    }
}

} // verus!
