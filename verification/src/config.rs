//! The configuration file: named profiles of model endpoints and the profile used by default.
use vstd::prelude::*;
use crate::text::str_eq;

verus! {

/// The `[default]` section.
pub struct DefaultSection {
    pub profile: Option<String>,
}

/// A profile: where a model is served and how to reach it.
pub struct Profile {
    pub host: Option<String>,
    pub port: Option<u16>,
    pub model: Option<String>,
    pub path_prefix: Option<String>,
    pub api_key_env: Option<String>,
}

/// The configuration: the default section and the profiles by name, each name once.
pub struct Config {
    pub default: Option<DefaultSection>,
    pub profile: Option<Vec<(String, Profile)>>,
}

impl Config {
    /// Each profile name occurs once.
    pub open spec fn wf(self) -> bool {
        match self.profile {
            Some(ps) => forall|i: int, j: int|
                0 <= i < j < ps@.len() ==> (#[trigger] ps@[i]).0@ != (#[trigger] ps@[j]).0@,
            None => true,
        }
    }

    /// An empty configuration: no default section and no profile.
    pub fn empty() -> (c: Config)
        ensures
            c.default is None,
            c.profile is None,
            c.wf(),
    {
        Config { default: None, profile: None }
    }
}

/// The profile named `name` among `ps` (the first one, when a name occurs twice).
pub open spec fn profile_named(ps: Seq<(String, Profile)>, name: Seq<char>) -> Option<Profile>
    decreases ps.len(),
{
    if ps.len() == 0 {
        None
    } else if ps[0].0@ == name {
        Some(ps[0].1)
    } else {
        profile_named(ps.drop_first(), name)
    }
}

/// The profile named `name` in a configuration.
pub open spec fn config_profile(config: Config, name: Seq<char>) -> Option<Profile> {
    match config.profile {
        Some(ps) => profile_named(ps@, name),
        None => None,
    }
}

fn copy_opt(s: &Option<String>) -> (r: Option<String>)
    ensures
        r == *s,
{
    match s {
        Some(t) => Some(t.clone()),
        None => None,
    }
}

/// A copy of a profile.
fn copy_profile(p: &Profile) -> (r: Profile)
    ensures
        r == *p,
{
    Profile {
        host: copy_opt(&p.host),
        port: p.port,
        model: copy_opt(&p.model),
        path_prefix: copy_opt(&p.path_prefix),
        api_key_env: copy_opt(&p.api_key_env),
    }
}

/// The profile named `name`, if the configuration has it.
pub fn get_profile(config: &Config, name: &str) -> (r: Option<Profile>)
    ensures
        r == config_profile(*config, name@),
{
    match &config.profile {
        None => None,
        Some(ps) => {
            let n = ps.len();
            let mut i: usize = 0;
            let ghost cp = config_profile(*config, name@);
            assert(cp == profile_named(ps@, name@));
            assert(ps@.skip(0) =~= ps@);
            while i < n
                invariant
                    n == ps@.len(),
                    i <= n,
                    cp == config_profile(*config, name@),
                    cp == profile_named(ps@.skip(i as int), name@),
                decreases n - i,
            {
                assert(ps@.skip(i as int).drop_first() =~= ps@.skip(i + 1));
                assert(ps@.skip(i as int)[0] == ps@[i as int]);
                if str_eq(ps[i].0.as_str(), name) {
                    assert(profile_named(ps@.skip(i as int), name@) == Some(ps@[i as int].1));
                    let r = copy_profile(&ps[i].1);
                    return Some(r);
                }
                i = i + 1;
            }
            None
        },
    }
}

/// The name of the default profile, if the configuration names one.
pub fn get_default_profile_name(config: &Config) -> (r: Option<String>)
    ensures
        r == match config.default {
            Some(d) => d.profile,
            None => None,
        },
{
    match &config.default {
        Some(d) => copy_opt(&d.profile),
        None => None,
    }
}

/// Where the configuration file lies under the home directory `home`.
pub fn config_path_for_home(home: &str) -> (p: String)
    ensures
        p@ == home@ + "/.void/config.toml"@,
{
    let mut p = home.to_owned();
    p.append("/.void/config.toml");
    p
}


/// The profile to use: the one named on the command line, else the configuration's default,
/// else "local".
pub open spec fn chosen_profile(cli: Option<Seq<char>>, config: Config) -> Seq<char> {
    match cli {
        Some(n) => n,
        None => match config.default {
            Some(d) => match d.profile {
                Some(p) => p@,
                None => "local"@,
            },
            None => "local"@,
        },
    }
}

/// The name of the profile to use (see `chosen_profile`).
pub fn profile_name(cli_profile: Option<String>, config: &Config) -> (name: String)
    ensures
        name@ == chosen_profile(match cli_profile {
            Some(n) => Some(n@),
            None => None,
        }, *config),
{
    match cli_profile {
        Some(n) => n,
        None => match get_default_profile_name(config) {
            Some(p) => p,
            None => "local".to_owned(),
        },
    }
}

/// Where and how to reach the model, once the command line and the profile are merged.
pub struct Settings {
    pub host: String,
    pub port: u16,
    pub model: Option<String>,
    pub path_prefix: Option<String>,
}

/// The port given on the command line when it is not the default 7777, else the profile's,
/// else 7777.
pub open spec fn chosen_port(cli_port: u16, profile: Option<Profile>) -> u16 {
    if cli_port != 7777 {
        cli_port
    } else {
        match profile {
            Some(p) => match p.port {
                Some(q) => q,
                None => 7777,
            },
            None => 7777,
        }
    }
}

/// The first of two optional values that is there.
pub open spec fn first_of<T>(a: Option<T>, b: Option<T>) -> Option<T> {
    match a {
        Some(x) => Some(x),
        None => b,
    }
}

/// A field of a profile that may be missing.
pub open spec fn field_of(profile: Option<Profile>, f: spec_fn(Profile) -> Option<String>) -> Option<String> {
    match profile {
        Some(p) => f(p),
        None => None,
    }
}

/// Merges the command line over the profile: the host (else "127.0.0.1"), the port (see
/// `chosen_port`), the model and the path prefix, each from the command line when given.
pub fn merge_settings(
    cli_host: Option<String>,
    cli_port: u16,
    cli_model: Option<String>,
    cli_path_prefix: Option<String>,
    profile: &Option<Profile>,
) -> (s: Settings)
    ensures
        s.host@ == match first_of(cli_host, field_of(*profile, |p: Profile| p.host)) {
            Some(h) => h@,
            None => "127.0.0.1"@,
        },
        s.port == chosen_port(cli_port, *profile),
        s.model == first_of(cli_model, field_of(*profile, |p: Profile| p.model)),
        s.path_prefix == first_of(cli_path_prefix, field_of(*profile, |p: Profile| p.path_prefix)),
{
    let (ph, pp, pm, ppre) = match profile {
        Some(p) => (copy_opt(&p.host), p.port, copy_opt(&p.model), copy_opt(&p.path_prefix)),
        None => (None, None, None, None),
    };
    let host = match cli_host {
        Some(h) => h,
        None => match ph {
            Some(h) => h,
            None => "127.0.0.1".to_owned(),
        },
    };
    let port = if cli_port != 7777 {
        cli_port
    } else {
        match pp {
            Some(q) => q,
            None => 7777,
        }
    };
    let model = match cli_model {
        Some(m) => Some(m),
        None => pm,
    };
    let path_prefix = match cli_path_prefix {
        Some(x) => Some(x),
        None => ppre,
    };
    Settings { host, port, model, path_prefix }
}

/// The API key: from the command line, else from the `VOID_API_KEY` environment variable, else
/// from the variable the profile names (`env_key` and `profile_env_key` are what those
/// variables hold).
pub fn choose_api_key(cli_key: Option<String>, env_key: Option<String>, profile_env_key: Option<String>) -> (k: Option<String>)
    ensures
        k == first_of(cli_key, first_of(env_key, profile_env_key)),
{
    match cli_key {
        Some(k) => Some(k),
        None => match env_key {
            Some(k) => Some(k),
            None => profile_env_key,
        },
    }
}


/// The profile to use comes from the command line when one is given there; otherwise it is the
/// one the configuration's `[default]` section names; only when neither names one is it
/// "local".
pub proof fn law_profile_precedence(cli: Option<Seq<char>>, config: Config)
    ensures
        cli is Some ==> chosen_profile(cli, config) == cli->0,
        cli is None && config.default is Some && config.default->0.profile is Some
            ==> chosen_profile(cli, config) == config.default->0.profile->0@,
        cli is None && !(config.default is Some && config.default->0.profile is Some)
            ==> chosen_profile(cli, config) == "local"@,
{
}


/// A value from the command line wins over the profile's, and the profile's over nothing: the
/// port is the command line's unless it is the default 7777, then the profile's, then 7777.
pub proof fn law_command_line_over_profile<T>(a: Option<T>, b: Option<T>, cli_port: u16, profile: Option<Profile>)
    ensures
        a is Some ==> first_of(a, b) == a,
        a is None ==> first_of(a, b) == b,
        cli_port != 7777 ==> chosen_port(cli_port, profile) == cli_port,
        cli_port == 7777 && profile is Some && profile->0.port is Some
            ==> chosen_port(cli_port, profile) == profile->0.port->0,
        cli_port == 7777 && !(profile is Some && profile->0.port is Some) ==> chosen_port(cli_port, profile) == 7777,
{
}

} // verus!
