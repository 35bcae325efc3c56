//! The configuration, what a client says of itself when it connects, and what a server is known by.

use crate::message::text_view;
use crate::params::pair_views;
use crate::path::{ComponentView, DirPath};
use crate::text::{same_text, same_texts, texts};
use std::path::PathBuf;
use std::sync::Arc;
use vstd::prelude::*;

verus! {

/// A path as the operating system has it. The library only carries it.
#[verifier::external_type_specification]
#[verifier::external_body]
pub struct ExPathBuf(PathBuf);

/// The configuration values.
#[derive(Debug)]
pub struct Config {
    /// The Unix domain socket for the daemon.
    pub socket_path: PathBuf,
    /// The rust analyzer binary.
    pub rust_analyzer_bin: String,
    /// The name of the wakatime-cli binary to use.
    pub wakatime_cli: Option<String>,
}

impl Config {
    /// Where the socket is, given the value of `RAD_SOCKET`. A leading `~` and a relative path are
    /// still to be resolved.
    pub fn socket_setting(rad_socket: Option<String>) -> (path: String)
        ensures
            path@ == match rad_socket {
                Some(p) => p@,
                None => "~/.rad/ipc.sock"@,
            },
    {
        match rad_socket {
            Some(p) => p,
            None => "~/.rad/ipc.sock".to_owned(),
        }
    }

    /// The configuration for a resolved socket path and the values of `RAD_RA` and `RAD_WAKATIME`.
    pub fn new(
        socket_path: PathBuf,
        rad_ra: Option<String>,
        rad_wakatime: Option<String>,
    ) -> (config: Config)
        ensures
            config.socket_path == socket_path,
            config.rust_analyzer_bin@ == match rad_ra {
                Some(bin) => bin@,
                None => "rust-analyzer"@,
            },
            text_view(config.wakatime_cli) == match rad_wakatime {
                Some(cli) => Some(
                    if cli@.len() == 0 {
                        "wakatime-cli"@
                    } else {
                        cli@
                    },
                ),
                None => None,
            },
    {
        Config {
            socket_path,
            rust_analyzer_bin: match rad_ra {
                Some(bin) => bin,
                None => "rust-analyzer".to_owned(),
            },
            wakatime_cli: match rad_wakatime {
                Some(cli) => {
                    if cli.as_str().is_empty() {
                        Some("wakatime-cli".to_owned())
                    } else {
                        Some(cli)
                    }
                },
                None => None,
            },
        }
    }
}

/// The settings decide where they are given. Otherwise the socket is in the home directory, the
/// binary is `rust-analyzer`, and nothing is reported. A tool for reports without a name is
/// `wakatime-cli`.
pub proof fn law_settings_decide(
    rad_socket: Option<String>,
    path: String,
    socket_path: PathBuf,
    rad_ra: Option<String>,
    rad_wakatime: Option<String>,
    config: Config,
)
    requires
        call_ensures(Config::socket_setting, (rad_socket,), path),
        call_ensures(Config::new, (socket_path, rad_ra, rad_wakatime), config),
    ensures
        rad_socket matches Some(p) ==> path@ == p@,
        rad_socket is None ==> path@ == "~/.rad/ipc.sock"@,
        config.socket_path == socket_path,
        rad_ra matches Some(bin) ==> config.rust_analyzer_bin@ == bin@,
        rad_ra is None ==> config.rust_analyzer_bin@ == "rust-analyzer"@,
        rad_wakatime is None ==> config.wakatime_cli is None,
        rad_wakatime matches Some(cli) ==> {
            &&& config.wakatime_cli matches Some(tool)
            &&& cli@.len() > 0 ==> tool@ == cli@
            &&& cli@.len() == 0 ==> tool@ == "wakatime-cli"@
        },
{
}

/// The first message that a client sends: the environment in which it is being executed.
#[derive(Debug)]
pub struct BootstrapMessage {
    /// The current working directory for the client process.
    pub cwd: String,
    /// The arguments passed to the binary.
    pub args: Vec<String>,
    /// All of the environment variables available to the client, each once.
    pub envs: Vec<(String, String)>,
}

/// What a [`BootstrapMessage`] says.
pub struct BootstrapView {
    pub cwd: Seq<char>,
    pub args: Seq<Seq<char>>,
    pub envs: Seq<(Seq<char>, Seq<char>)>,
}

impl View for BootstrapMessage {
    type V = BootstrapView;

    open spec fn view(&self) -> BootstrapView {
        BootstrapView {
            cwd: self.cwd@,
            args: texts(self.args@),
            envs: pair_views(self.envs@),
        }
    }
}

/// The value of an environment variable: that of the first entry with its name.
pub open spec fn env_value(envs: Seq<(Seq<char>, Seq<char>)>, name: Seq<char>) -> Option<Seq<char>>
    decreases envs.len(),
{
    if envs.len() == 0 {
        None
    } else if envs[0].0 == name {
        Some(envs[0].1)
    } else {
        env_value(envs.skip(1), name)
    }
}

impl BootstrapMessage {
    /// The value of an environment variable of the client.
    pub fn env(&self, name: &str) -> (value: Option<String>)
        ensures
            text_view(value) == env_value(self@.envs, name@),
    {
        let mut i: usize = 0;
        proof {
            assert(self@.envs.skip(0) =~= self@.envs);
        }
        while i < self.envs.len()
            invariant
                i <= self.envs.len(),
                env_value(self@.envs.skip(i as int), name@) == env_value(self@.envs, name@),
            decreases self.envs.len() - i,
        {
            proof {
                assert(self@.envs.skip(i as int)[0] == self@.envs[i as int]);
                assert(self@.envs.skip(i as int).skip(1) =~= self@.envs.skip(i + 1));
            }
            if same_text(self.envs[i].0.as_str(), name) {
                return Some(self.envs[i].1.clone());
            }
            i += 1;
        }
        None
    }
}

/// An environment variable has the value `value`: there is an entry with its name, and the first
/// such entry has this value.
pub open spec fn is_set(
    envs: Seq<(Seq<char>, Seq<char>)>,
    name: Seq<char>,
    value: Seq<char>,
) -> bool {
    exists|i: int|
        0 <= i < envs.len() && #[trigger] envs[i] == (name, value) && forall|j: int|
            0 <= j < i ==> #[trigger] envs[j].0 != name
}

/// No entry has the name of an environment variable.
pub open spec fn is_unset(envs: Seq<(Seq<char>, Seq<char>)>, name: Seq<char>) -> bool {
    forall|i: int| 0 <= i < envs.len() ==> #[trigger] envs[i].0 != name
}

/// An environment variable that is set has its value, and one that is not set has none.
pub proof fn law_variable_has_its_value(
    envs: Seq<(Seq<char>, Seq<char>)>,
    name: Seq<char>,
    value: Seq<char>,
)
    ensures
        env_value(envs, name) == Some(value) <==> is_set(envs, name, value),
        env_value(envs, name) is None <==> is_unset(envs, name),
    decreases envs.len(),
{
    if envs.len() > 0 {
        let rest = envs.skip(1);
        law_variable_has_its_value(rest, name, value);
        if envs[0].0 == name {
            if is_set(envs, name, value) {
                let i = choose|i: int|
                    0 <= i < envs.len() && #[trigger] envs[i] == (name, value) && forall|j: int|
                        0 <= j < i ==> #[trigger] envs[j].0 != name;
                assert(i == 0) by {
                    if i > 0 {
                        assert(envs[0].0 != name);
                    }
                }
            }
            if env_value(envs, name) == Some(value) {
                assert(envs[0] == (name, value));
            }
            assert(!is_unset(envs, name)) by {
                assert(envs[0].0 == name);
            }
        } else {
            if is_set(rest, name, value) {
                let i = choose|i: int|
                    0 <= i < rest.len() && #[trigger] rest[i] == (name, value) && forall|j: int|
                        0 <= j < i ==> #[trigger] rest[j].0 != name;
                assert(envs[i + 1] == (name, value));
                assert forall|j: int| 0 <= j < i + 1 implies #[trigger] envs[j].0 != name by {
                    if j > 0 {
                        assert(rest[j - 1] == envs[j]);
                    }
                }
            }
            if is_set(envs, name, value) {
                let i = choose|i: int|
                    0 <= i < envs.len() && #[trigger] envs[i] == (name, value) && forall|j: int|
                        0 <= j < i ==> #[trigger] envs[j].0 != name;
                assert(rest[i - 1] == (name, value));
                assert forall|j: int| 0 <= j < i - 1 implies #[trigger] rest[j].0 != name by {
                    assert(envs[j + 1].0 != name);
                }
            }
            if is_unset(rest, name) {
                assert forall|j: int| 0 <= j < envs.len() implies #[trigger] envs[j].0 != name by {
                    if j > 0 {
                        assert(rest[j - 1] == envs[j]);
                    }
                }
            }
            if is_unset(envs, name) {
                assert forall|j: int| 0 <= j < rest.len() implies #[trigger] rest[j].0 != name by {
                    assert(envs[j + 1].0 != name);
                }
            }
        }
    }
}

/// What a server is known by: clients that agree on it share the server.
#[derive(Debug, PartialEq, Eq, PartialOrd, Ord, Hash)]
pub struct ServerDescriptor {
    pub bin: String,
    pub args: Vec<String>,
    pub workspace: String,
}

/// What a [`ServerDescriptor`] is.
pub struct DescriptorView {
    pub bin: Seq<char>,
    pub args: Seq<Seq<char>>,
    pub workspace: Seq<char>,
}

impl View for ServerDescriptor {
    type V = DescriptorView;

    open spec fn view(&self) -> DescriptorView {
        DescriptorView { bin: self.bin@, args: texts(self.args@), workspace: self.workspace@ }
    }
}

impl ServerDescriptor {
    /// Whether two descriptors are equal.
    pub fn same(&self, other: &ServerDescriptor) -> (same: bool)
        ensures
            same == (self@ == other@),
    {
        same_text(self.bin.as_str(), other.bin.as_str()) && same_texts(&self.args, &other.args)
            && same_text(self.workspace.as_str(), other.workspace.as_str())
    }
}

/// The unique identifier for a session: all the clients with the same session key get connected to
/// the same server.
#[derive(Debug, Clone, PartialEq, Eq, PartialOrd, Ord, Hash)]
pub struct SessionKey {
    pub data: Arc<SessionKeyData>,
}

/// What a session is known by.
#[derive(Debug, Clone, PartialEq, Eq, PartialOrd, Ord, Hash)]
pub struct SessionKeyData {
    pub bin: String,
    pub args: Vec<String>,
    pub workspace: DirPath,
}

/// What a [`SessionKey`] is.
pub struct SessionKeyView {
    pub bin: Seq<char>,
    pub args: Seq<Seq<char>>,
    pub workspace: Seq<ComponentView>,
}

impl View for SessionKeyData {
    type V = SessionKeyView;

    open spec fn view(&self) -> SessionKeyView {
        SessionKeyView { bin: self.bin@, args: texts(self.args@), workspace: self.workspace@ }
    }
}

impl View for SessionKey {
    type V = SessionKeyView;

    open spec fn view(&self) -> SessionKeyView {
        self.data@
    }
}

impl SessionKey {
    /// Whether two keys are equal.
    pub fn same(&self, other: &SessionKey) -> (same: bool)
        ensures
            same == (self@ == other@),
    {
        same_text(self.data.bin.as_str(), other.data.bin.as_str()) && same_texts(
            &self.data.args,
            &other.data.args,
        ) && self.data.workspace.same(&other.data.workspace)
    }
}

} // verus!
