use vstd::prelude::*;

use crate::config::Config;

verus! {

/// Where a worker takes its llama.cpp command line from.
#[allow(non_camel_case_types)]
pub enum Profile {
    /// The command line of the default configuration file.
    base,
    /// A command line given argument by argument.
    raw(Vec<String>),
    /// The command line of the given configuration.
    from_config(Config),
}

impl Default for Profile {
    fn default() -> (p: Self)
        ensures
            p is base,
    {
        Profile::base
    }
}

/// Whether `c` is the default configuration: every text empty and the
/// interactive flag off.
pub open spec fn is_default_config(c: Config) -> bool {
    &&& c.matrix.username@.len() == 0
    &&& c.matrix.password@.len() == 0
    &&& c.matrix.homeserver_url@.len() == 0
    &&& c.path@.len() == 0
    &&& c.command_args.model@.len() == 0
    &&& !c.command_args.interactive
    &&& c.command_args.reverse_prompt@.len() == 0
    &&& c.command_args.prompt@.len() == 0
}

/// The command line of a `from_config` profile of the default configuration.
pub open spec fn placeholder_cmd() -> Seq<Seq<char>> {
    seq!["--OwO"@]
}

fn is_default_config_exec(c: &Config) -> (b: bool)
    ensures
        b == is_default_config(*c),
{
    c.matrix.username.as_str().is_empty() && c.matrix.password.as_str().is_empty()
        && c.matrix.homeserver_url.as_str().is_empty() && c.path.as_str().is_empty()
        && c.command_args.model.as_str().is_empty() && !c.command_args.interactive
        && c.command_args.reverse_prompt.as_str().is_empty()
        && c.command_args.prompt.as_str().is_empty()
}

/// A raw profile's launch arguments are its argument list, unchanged; a base
/// profile's are the base configuration's command line; a `from_config`
/// profile's are its configuration's command line, except the placeholder for
/// the default configuration.
pub proof fn lemma_launch_args(v: Vec<String>, c: Config, base: Config)
    ensures
        Profile::raw(v).launch_args(base) == v.deep_view(),
        Profile::base.launch_args(base) == base.cmd(),
        !is_default_config(c) ==> Profile::from_config(c).launch_args(base) == c.cmd(),
        is_default_config(c) ==> Profile::from_config(c).launch_args(base) == seq!["--OwO"@],
{
}

impl Profile {
    /// The command line this profile stands for, where `base` is the
    /// configuration read from the default configuration file. A
    /// `from_config` profile of the default configuration gives the
    /// placeholder command line `["--OwO"]`.
    pub open spec fn launch_args(self, base: Config) -> Seq<Seq<char>> {
        match self {
            Profile::base => base.cmd(),
            Profile::raw(val) => val.deep_view(),
            Profile::from_config(conf) => if is_default_config(conf) {
                placeholder_cmd()
            } else {
                conf.cmd()
            },
        }
    }

    /// Turns the profile into the worker's command line. `base` is the
    /// configuration of the default configuration file, used by `Profile::base`.
    pub fn create_lungh_arg(self, base: &Config) -> (args: Vec<String>)
        ensures
            args.deep_view() == self.launch_args(*base),
    {
        match self {
            Profile::raw(val) => val,
            Profile::from_config(conf) => {
                if is_default_config_exec(&conf) {
                    let cmd = vec!["--OwO".to_string()];
                    proof {
                        assert(cmd.deep_view() =~= placeholder_cmd());
                    }
                    cmd
                } else {
                    conf.build_cmd()
                }
            },
            Profile::base => base.build_cmd(),
        }
    }
}

} // verus!
