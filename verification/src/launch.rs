//! From what a client says of itself to the server it needs and the command that starts it.

use crate::params::{pair_views, InitializeParams, InitializeView};
use crate::path::{components, DirPath};
use crate::root::{find_project_root, is_absolute, project_root, text_set, RootNotFound};
use crate::text::{copy_texts, texts};
use crate::types::{
    env_value, is_set, is_unset, law_variable_has_its_value, BootstrapMessage, BootstrapView,
    DescriptorView, ServerDescriptor, SessionKey, SessionKeyData, SessionKeyView,
};
use std::sync::Arc;
use vstd::prelude::*;

verus! {

/// How a language server is started.
#[derive(Debug, PartialEq, Eq)]
pub struct SpawnCommand {
    pub bin: String,
    pub args: Vec<String>,
    /// The only environment variables that the process sees.
    pub envs: Vec<(String, String)>,
    pub cwd: String,
}

/// What a [`SpawnCommand`] is.
pub struct SpawnView {
    pub bin: Seq<char>,
    pub args: Seq<Seq<char>>,
    pub envs: Seq<(Seq<char>, Seq<char>)>,
    pub cwd: Seq<char>,
}

impl View for SpawnCommand {
    type V = SpawnView;

    open spec fn view(&self) -> SpawnView {
        SpawnView {
            bin: self.bin@,
            args: texts(self.args@),
            envs: pair_views(self.envs@),
            cwd: self.cwd@,
        }
    }
}

/// The command that starts a server for a client.
pub open spec fn command_for(bin: Seq<char>, bootstrap: BootstrapView) -> SpawnView {
    SpawnView { bin, args: bootstrap.args, envs: bootstrap.envs, cwd: bootstrap.cwd }
}

/// The binary that a client wants: the value of its `RAD_RA`, else the default.
pub open spec fn binary_for(default_bin: Seq<char>, bootstrap: BootstrapView) -> Seq<char> {
    match env_value(bootstrap.envs, "RAD_RA"@) {
        Some(bin) => bin,
        None => default_bin,
    }
}

/// The workspace that a client opens: its `RAD_ROOT`, else the root URI, else the root path of its
/// `initialize` request, else the project that its working directory belongs to. `files` are the
/// files that exist.
pub open spec fn workspace_for(
    bootstrap: BootstrapView,
    init: InitializeView,
    files: Set<Seq<char>>,
) -> Option<Seq<char>> {
    match env_value(bootstrap.envs, "RAD_ROOT"@) {
        Some(root) => Some(root),
        None => match init.root_uri {
            Some(uri) => Some(uri),
            None => match init.root_path {
                Some(path) => Some(path),
                None => project_root(bootstrap.cwd, files),
            },
        },
    }
}

/// Only the working directory can tell which workspace a client opens.
pub open spec fn asks_directory(bootstrap: BootstrapView, init: InitializeView) -> bool {
    &&& env_value(bootstrap.envs, "RAD_ROOT"@) is None
    &&& init.root_uri is None
    &&& init.root_path is None
}

/// Whether only the working directory can tell which workspace a client opens.
pub fn needs_directory(bootstrap: &BootstrapMessage, init: &InitializeParams) -> (yes: bool)
    ensures
        yes == asks_directory(bootstrap@, init@),
{
    bootstrap.env("RAD_ROOT").is_none() && init.root_uri.is_none() && init.root_path.is_none()
}

/// What the server is known by that a client needs.
pub open spec fn descriptor_for(
    default_bin: Seq<char>,
    bootstrap: BootstrapView,
    workspace: Seq<char>,
) -> DescriptorView {
    DescriptorView { bin: binary_for(default_bin, bootstrap), args: bootstrap.args, workspace }
}

/// Maps the information provided by the client during bootstrap and initialization to the
/// descriptor of the server it needs, and to the command that starts such a server.
pub fn extract_server_info(
    default_bin: &str,
    bootstrap: BootstrapMessage,
    init: &InitializeParams,
    files: &Vec<String>,
) -> (r: Result<(ServerDescriptor, SpawnCommand), RootNotFound>)
    requires
        asks_directory(bootstrap@, init@) ==> is_absolute(bootstrap@.cwd),
    ensures
        match r {
            Ok((descriptor, command)) => {
                &&& workspace_for(bootstrap@, init@, text_set(files@)) is Some
                &&& descriptor@ == descriptor_for(
                    default_bin@,
                    bootstrap@,
                    workspace_for(bootstrap@, init@, text_set(files@))->0,
                )
                &&& command@ == command_for(binary_for(default_bin@, bootstrap@), bootstrap@)
            },
            Err(e) => {
                &&& workspace_for(bootstrap@, init@, text_set(files@)) is None
                &&& e.path@ == bootstrap@.cwd
            },
        },
{
    let workspace: String = match bootstrap.env("RAD_ROOT") {
        Some(root) => root,
        None => match &init.root_uri {
            Some(uri) => uri.clone(),
            None => match &init.root_path {
                Some(path) => path.clone(),
                None => match find_project_root(bootstrap.cwd.as_str(), files) {
                    Ok(dir) => dir,
                    Err(e) => {
                        return Err(e);
                    },
                },
            },
        },
    };
    let bin: String = match bootstrap.env("RAD_RA") {
        Some(bin) => bin,
        None => default_bin.to_owned(),
    };
    let descriptor = ServerDescriptor {
        bin: bin.clone(),
        args: copy_texts(&bootstrap.args),
        workspace,
    };
    let command = SpawnCommand {
        bin,
        args: bootstrap.args,
        envs: bootstrap.envs,
        cwd: bootstrap.cwd,
    };
    Ok((descriptor, command))
}

/// The parameters of an `initialize` request as they go to the server. They are those of the
/// client, unchanged.
pub(crate) fn hijack_initialize_params(params: String) -> (sent: String)
    ensures
        sent@ == params@,
{
    params
}

/// A project and the binary that serves it.
#[derive(Debug, Hash, PartialEq, Eq, PartialOrd, Ord)]
pub struct ServerIdentifier {
    /// Absolute path to the project root.
    pub project_root: DirPath,
    /// The rust analyzer binary used for this project.
    pub rust_analyzer_bin: String,
}

/// Given the bootstrap message from a client, builds the server identifier and the command that
/// must be used to spawn the server.
pub fn build_command(default_ra: &str, bootstrap: BootstrapMessage, files: &Vec<String>) -> (r:
    Result<(ServerIdentifier, SpawnCommand), RootNotFound>)
    requires
        is_absolute(bootstrap@.cwd),
    ensures
        match r {
            Ok((identifier, command)) => {
                &&& project_root(bootstrap@.cwd, text_set(files@)) is Some
                &&& identifier.project_root@ == components(
                    project_root(bootstrap@.cwd, text_set(files@))->0,
                )
                &&& identifier.rust_analyzer_bin@ == binary_for(default_ra@, bootstrap@)
                &&& command@ == command_for(binary_for(default_ra@, bootstrap@), bootstrap@)
            },
            Err(e) => {
                &&& project_root(bootstrap@.cwd, text_set(files@)) is None
                &&& e.path@ == bootstrap@.cwd
            },
        },
{
    let project_root: DirPath = match find_project_root(bootstrap.cwd.as_str(), files) {
        Ok(dir) => DirPath::new(dir.as_str()),
        Err(e) => {
            return Err(e);
        },
    };
    let rust_analyzer_bin: String = match bootstrap.env("RAD_RA") {
        Some(bin) => bin,
        None => default_ra.to_owned(),
    };
    let command = SpawnCommand {
        bin: rust_analyzer_bin.clone(),
        args: bootstrap.args,
        envs: bootstrap.envs,
        cwd: bootstrap.cwd,
    };
    Ok((ServerIdentifier { project_root, rust_analyzer_bin }, command))
}

/// What is found out about a client: if its workspace can be told, the server that it needs is known
/// by that workspace, its binary and its arguments, and is started with that binary, with its
/// arguments, its environment and its working directory. `RAD_ROOT` comes before the root URI, that
/// before the root path, and that before the project of the working directory; `RAD_RA` comes before
/// the default binary.
pub proof fn law_client_gets_what_it_asks_for(
    default_bin: &str,
    bootstrap: BootstrapMessage,
    init: &InitializeParams,
    files: &Vec<String>,
    r: Result<(ServerDescriptor, SpawnCommand), RootNotFound>,
    root: Seq<char>,
    bin: Seq<char>,
)
    requires
        call_ensures(extract_server_info, (default_bin, bootstrap, init, files), r),
    ensures
        ({
            let unset = is_unset(bootstrap@.envs, "RAD_ROOT"@);
            let told = init.root_uri is Some || init.root_path is Some;
            &&& r matches Ok((descriptor, command)) ==> {
                &&& is_set(bootstrap@.envs, "RAD_ROOT"@, root) ==> descriptor.workspace@ == root
                &&& unset && init.root_uri is Some ==> descriptor.workspace@ == init.root_uri->0@
                &&& unset && init.root_uri is None && init.root_path is Some
                    ==> descriptor.workspace@ == init.root_path->0@
                &&& unset && !told ==> project_root(bootstrap@.cwd, text_set(files@)) == Some(
                    descriptor.workspace@,
                )
                &&& is_set(bootstrap@.envs, "RAD_RA"@, bin) ==> descriptor.bin@ == bin
                &&& is_unset(bootstrap@.envs, "RAD_RA"@) ==> descriptor.bin@ == default_bin@
                &&& texts(descriptor.args@) == texts(bootstrap.args@)
                &&& command.bin@ == descriptor.bin@
                &&& texts(command.args@) == texts(bootstrap.args@)
                &&& pair_views(command.envs@) == pair_views(bootstrap.envs@)
                &&& command.cwd@ == bootstrap.cwd@
            }
            &&& r matches Err(e) ==> {
                &&& e.path@ == bootstrap.cwd@
                &&& unset && !told && project_root(bootstrap@.cwd, text_set(files@)) is None
            }
        }),
{
    law_workspace_by_precedence(bootstrap@, init@, text_set(files@), root);
    law_binary_by_precedence(default_bin@, bootstrap@, bin);
    law_variable_has_its_value(bootstrap@.envs, "RAD_ROOT"@, root);
    if !is_unset(bootstrap@.envs, "RAD_ROOT"@) {
        let value = env_value(bootstrap@.envs, "RAD_ROOT"@)->0;
        law_variable_has_its_value(bootstrap@.envs, "RAD_ROOT"@, value);
        law_workspace_by_precedence(bootstrap@, init@, text_set(files@), value);
    }
}

/// What the session is known by that a client wishes to connect to.
pub open spec fn key_for(
    default_bin: Seq<char>,
    bootstrap: BootstrapView,
    workspace: Seq<char>,
) -> SessionKeyView {
    SessionKeyView {
        bin: binary_for(default_bin, bootstrap),
        args: bootstrap.args,
        workspace: components(workspace),
    }
}

/// The workspace that a client opens is the value of its `RAD_ROOT` whenever that is set, whatever
/// its `initialize` request says. Without it the root URI decides whenever there is one, whatever
/// the root path is, and without that the root path. Only where there is none of them the working
/// directory has a say.
pub proof fn law_workspace_by_precedence(
    bootstrap: BootstrapView,
    init: InitializeView,
    files: Set<Seq<char>>,
    root: Seq<char>,
)
    ensures
        is_set(bootstrap.envs, "RAD_ROOT"@, root) ==> workspace_for(bootstrap, init, files) == Some(
            root,
        ),
        is_unset(bootstrap.envs, "RAD_ROOT"@) && init.root_uri is Some ==> workspace_for(
            bootstrap,
            init,
            files,
        ) == init.root_uri,
        is_unset(bootstrap.envs, "RAD_ROOT"@) && init.root_uri is None && init.root_path is Some
            ==> workspace_for(bootstrap, init, files) == init.root_path,
        is_unset(bootstrap.envs, "RAD_ROOT"@) && init.root_uri is None && init.root_path is None
            ==> workspace_for(bootstrap, init, files) == project_root(bootstrap.cwd, files),
        asks_directory(bootstrap, init) <==> is_unset(bootstrap.envs, "RAD_ROOT"@)
            && init.root_uri is None && init.root_path is None,
{
    law_variable_has_its_value(bootstrap.envs, "RAD_ROOT"@, root);
}

/// The binary that serves a client is the value of its `RAD_RA` whenever that is set, and the
/// default otherwise.
pub proof fn law_binary_by_precedence(
    default_bin: Seq<char>,
    bootstrap: BootstrapView,
    bin: Seq<char>,
)
    ensures
        is_set(bootstrap.envs, "RAD_RA"@, bin) ==> binary_for(default_bin, bootstrap) == bin,
        is_unset(bootstrap.envs, "RAD_RA"@) ==> binary_for(default_bin, bootstrap) == default_bin,
{
    law_variable_has_its_value(bootstrap.envs, "RAD_RA"@, bin);
}

/// A server is known by its binary, its arguments and its workspace, and by all of them: clients
/// agree on the server that they need if and only if they agree on these three.
pub proof fn law_server_is_known_by_all_three(
    default_bin: Seq<char>,
    a: BootstrapView,
    b: BootstrapView,
    in_a: Seq<char>,
    in_b: Seq<char>,
)
    ensures
        descriptor_for(default_bin, a, in_a) == descriptor_for(default_bin, b, in_b) <==> {
            &&& binary_for(default_bin, a) == binary_for(default_bin, b)
            &&& a.args == b.args
            &&& in_a == in_b
        },
        descriptor_for(default_bin, a, in_a).bin == binary_for(default_bin, a),
        descriptor_for(default_bin, a, in_a).args == a.args,
        descriptor_for(default_bin, a, in_a).workspace == in_a,
{
}

/// A server is started with the arguments of the client, in its working directory, and sees the
/// environment of the client and nothing else.
pub proof fn law_server_is_started_like_the_client(bin: Seq<char>, bootstrap: BootstrapView)
    ensures
        command_for(bin, bootstrap).bin == bin,
        command_for(bin, bootstrap).args == bootstrap.args,
        command_for(bin, bootstrap).envs == bootstrap.envs,
        command_for(bin, bootstrap).cwd == bootstrap.cwd,
{
}

/// A session is known by its binary, its arguments and the components of its workspace.
pub proof fn law_session_is_known_by_all_three(
    default_bin: Seq<char>,
    bootstrap: BootstrapView,
    workspace: Seq<char>,
)
    ensures
        key_for(default_bin, bootstrap, workspace).bin == binary_for(default_bin, bootstrap),
        key_for(default_bin, bootstrap, workspace).args == bootstrap.args,
        key_for(default_bin, bootstrap, workspace).workspace == components(workspace),
{
}

impl BootstrapMessage {
    /// The key of the session that a client wishes to connect to, and the command that would be
    /// required to spawn the server.
    pub fn parse(self, default_ra: &str, files: &Vec<String>) -> (r: Result<
        (SessionKey, SpawnCommand),
        RootNotFound,
    >)
        requires
            is_absolute(self@.cwd),
        ensures
            match r {
                Ok((key, command)) => {
                    &&& project_root(self@.cwd, text_set(files@)) is Some
                    &&& key@ == key_for(
                        default_ra@,
                        self@,
                        project_root(self@.cwd, text_set(files@))->0,
                    )
                    &&& command@ == command_for(binary_for(default_ra@, self@), self@)
                },
                Err(e) => {
                    &&& project_root(self@.cwd, text_set(files@)) is None
                    &&& e.path@ == self@.cwd
                },
            },
    {
        let args: Vec<String> = copy_texts(&self.args);
        match build_command(default_ra, self, files) {
            Ok((identifier, command)) => {
                let data = SessionKeyData {
                    bin: identifier.rust_analyzer_bin,
                    args,
                    workspace: identifier.project_root,
                };
                Ok((SessionKey { data: Arc::new(data) }, command))
            },
            Err(e) => Err(e),
        }
    }
}

} // verus!
