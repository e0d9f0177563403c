//! What a build is made of, before anything is run.
//!
//! The build itself is done by cargo and by tools behind it. Here stands what
//! is decided from the project's configuration: the arguments that cargo
//! gets, where the artifact will lie, and what each message of the build
//! means for its progress.

use vstd::prelude::*;
use vstd::string::*;
use cargo_metadata::diagnostic::Diagnostic;
use crate::text::{chars_of, string_of};

verus! {

/// `cargo_metadata::diagnostic::Diagnostic`, a message of the compiler. It is
/// carried as it is and never looked into.
#[verifier::external_type_specification]
#[verifier::external_body]
pub struct ExDiagnostic(Diagnostic);

/// What is built, by name.
#[derive(Clone, Debug, PartialEq, Eq)]
pub enum ExecutableType {
    Binary(String),
    Lib(String),
    Example(String),
}

/// What a build reads of the project's configuration.
#[derive(Clone, Debug, PartialEq, Eq)]
pub struct CrateConfig {
    pub release: bool,
    pub verbose: bool,
    pub custom_profile: Option<String>,
    pub features: Option<Vec<String>>,
    pub cargo_args: Vec<String>,
    pub target: Option<String>,
    pub executable: ExecutableType,
}

/// What a build came to.
pub struct BuildResult {
    pub warnings: Vec<Diagnostic>,
    pub elapsed_time: u128,
}

/// What is to be run and where its artifact will lie.
#[derive(Debug, PartialEq, Eq)]
pub struct BuildPlan {
    /// The arguments of `cargo`.
    pub cargo_args: Vec<String>,
    /// The path of the artifact below the target directory, part by part.
    pub artifact: Vec<String>,
    /// The name that the artifact gets in the output directory.
    pub file_name: String,
}

/// The views of some strings.
pub open spec fn texts(strings: Seq<String>) -> Seq<Seq<char>> {
    Seq::new(strings.len(), |i: int| strings[i]@)
}

/// `parts`, with `separator` between each two.
pub open spec fn joined(parts: Seq<Seq<char>>, separator: Seq<char>) -> Seq<char>
    decreases parts.len(),
{
    if parts.len() == 0 {
        Seq::empty()
    } else if parts.len() == 1 {
        parts[0]
    } else {
        joined(parts.drop_last(), separator) + separator + parts.last()
    }
}

/// The name of what is built.
pub open spec fn executable_name(executable: ExecutableType) -> Seq<char> {
    match executable {
        ExecutableType::Binary(name) => name@,
        ExecutableType::Lib(name) => name@,
        ExecutableType::Example(name) => name@,
    }
}

/// The arguments that say what is built.
pub open spec fn executable_args(executable: ExecutableType) -> Seq<Seq<char>> {
    match executable {
        ExecutableType::Binary(name) => seq!["--bin"@, name@],
        ExecutableType::Lib(name) => seq!["--lib"@, name@],
        ExecutableType::Example(name) => seq!["--example"@, name@],
    }
}

/// The arguments that both kinds of build share: release or not, verbose or
/// quiet, the profile and the features.
pub open spec fn common_args(config: CrateConfig) -> Seq<Seq<char>> {
    (if config.release {
        seq!["--release"@]
    } else {
        Seq::empty()
    }) + (if config.verbose {
        seq!["--verbose"@]
    } else {
        seq!["--quiet"@]
    }) + (match config.custom_profile {
        Some(profile) => seq!["--profile"@, profile@],
        None => Seq::empty(),
    }) + (match config.features {
        Some(features) => seq!["--features"@, joined(texts(features@), " "@)],
        None => Seq::empty(),
    })
}

/// The arguments of cargo for a build for the web.
pub open spec fn web_args(config: CrateConfig) -> Seq<Seq<char>> {
    seq!["build"@, "--target"@, "wasm32-unknown-unknown"@, "--message-format=json"@]
        + common_args(config) + texts(config.cargo_args@) + executable_args(config.executable)
}

/// The arguments of cargo for a build for the desktop.
pub open spec fn desktop_args(config: CrateConfig) -> Seq<Seq<char>> {
    seq!["build"@, "--message-format=json"@] + common_args(config) + (match config.target {
        Some(target) => seq!["--target"@, target@],
        None => Seq::empty(),
    }) + texts(config.cargo_args@) + executable_args(config.executable)
}

/// The profile that a build for the web is made with: the custom one, or
/// `release`, or `debug`.
pub open spec fn build_profile(config: CrateConfig) -> Seq<char> {
    match config.custom_profile {
        Some(profile) => profile@,
        None => if config.release {
            "release"@
        } else {
            "debug"@
        },
    }
}

/// Where the artifact of a build for the web lies below the target directory.
pub open spec fn web_artifact(config: CrateConfig) -> Seq<Seq<char>> {
    match config.executable {
        ExecutableType::Example(name) => seq![
            "wasm32-unknown-unknown/"@ + build_profile(config) + "/examples"@,
            name@ + ".wasm"@,
        ],
        _ => seq![
            "wasm32-unknown-unknown/"@ + build_profile(config),
            executable_name(config.executable) + ".wasm"@,
        ],
    }
}

/// The place of the dot in front of the extension of a file name: the last
/// dot that is not the first character.
pub open spec fn extension_dot(name: Seq<char>) -> Option<int> {
    if exists|i: int| 0 < i < name.len() && name[i] == '.' {
        Some(
            choose|i: int|
                0 < i < name.len() && name[i] == '.' && forall|j: int|
                    i < j < name.len() ==> name[j] != '.',
        )
    } else {
        None
    }
}

/// A file name with the extension `exe` in place of its own, if it has one.
pub open spec fn with_exe(name: Seq<char>) -> Seq<char> {
    match extension_dot(name) {
        Some(dot) => name.take(dot) + ".exe"@,
        None => name + ".exe"@,
    }
}

/// The file of the artifact of a build for the desktop. On Windows the file
/// has the extension `exe`.
pub open spec fn desktop_artifact_file(config: CrateConfig, windows: bool) -> Seq<char> {
    if windows {
        with_exe(executable_name(config.executable))
    } else {
        executable_name(config.executable)
    }
}

/// Where the artifact of a build for the desktop lies below the target
/// directory.
pub open spec fn desktop_artifact(config: CrateConfig, windows: bool) -> Seq<Seq<char>> {
    let platform = match config.target {
        Some(target) => target@,
        None => Seq::empty(),
    };
    let kind = if config.release {
        "release"@
    } else {
        "debug"@
    };
    let file = desktop_artifact_file(config, windows);
    match config.executable {
        ExecutableType::Example(_) => seq![platform, kind, "examples"@, file],
        _ => seq![platform, kind, file],
    }
}

/// The name that the artifact of a build for the desktop gets in the output
/// directory. On Windows `.exe` is put behind the name.
pub open spec fn desktop_file_name(config: CrateConfig, windows: bool) -> Seq<char> {
    if windows {
        executable_name(config.executable) + ".exe"@
    } else {
        executable_name(config.executable)
    }
}

fn join(parts: &Vec<String>, separator: &str) -> (out: String)
    ensures
        out@ == joined(texts(parts@), separator@),
{
    let mut out = String::new();
    let mut i: usize = 0;
    assert(texts(parts@).take(0) =~= Seq::<Seq<char>>::empty());
    while i < parts.len()
        invariant
            i <= parts.len(),
            out@ == joined(texts(parts@).take(i as int), separator@),
        decreases parts.len() - i,
    {
        let ghost before = texts(parts@).take(i as int);
        let ghost grown = texts(parts@).take(i + 1);
        assert(grown.drop_last() =~= before);
        assert(grown.last() == parts@[i as int]@);
        if i > 0 {
            out.append(separator);
        } else {
            assert(out@ + parts@[i as int]@ =~= parts@[i as int]@);
        }
        out.append(parts[i].as_str());
        i += 1;
    }
    assert(texts(parts@).take(i as int) =~= texts(parts@));
    out
}

fn push_text(args: &mut Vec<String>, text: &str)
    ensures
        texts(final(args)@) == texts(old(args)@).push(text@),
{
    args.push(text.to_owned());
    assert(texts(args@) =~= texts(old(args)@).push(text@));
}

fn push_common(args: &mut Vec<String>, config: &CrateConfig)
    ensures
        texts(final(args)@) == texts(old(args)@) + common_args(*config),
{
    let ghost start = texts(args@);
    if config.release {
        push_text(args, "--release");
    }
    if config.verbose {
        push_text(args, "--verbose");
    } else {
        push_text(args, "--quiet");
    }
    if let Some(profile) = &config.custom_profile {
        push_text(args, "--profile");
        push_text(args, profile.as_str());
    }
    if let Some(features) = &config.features {
        push_text(args, "--features");
        let all = join(features, " ");
        push_text(args, all.as_str());
    }
    assert(texts(args@) =~= start + common_args(*config));
}

fn push_all(args: &mut Vec<String>, more: &Vec<String>)
    ensures
        texts(final(args)@) == texts(old(args)@) + texts(more@),
{
    let mut i: usize = 0;
    assert(texts(more@).take(0) =~= Seq::<Seq<char>>::empty());
    while i < more.len()
        invariant
            i <= more.len(),
            texts(args@) == texts(old(args)@) + texts(more@).take(i as int),
        decreases more.len() - i,
    {
        push_text(args, more[i].as_str());
        assert(texts(more@).take(i + 1) =~= texts(more@).take(i as int).push(more@[i as int]@));
        i += 1;
    }
    assert(texts(more@).take(i as int) =~= texts(more@));
}

fn push_executable(args: &mut Vec<String>, executable: &ExecutableType)
    ensures
        texts(final(args)@) == texts(old(args)@) + executable_args(*executable),
{
    let ghost start = texts(args@);
    match executable {
        ExecutableType::Binary(name) => {
            push_text(args, "--bin");
            push_text(args, name.as_str());
        },
        ExecutableType::Lib(name) => {
            push_text(args, "--lib");
            push_text(args, name.as_str());
        },
        ExecutableType::Example(name) => {
            push_text(args, "--example");
            push_text(args, name.as_str());
        },
    }
    assert(texts(args@) =~= start + executable_args(*executable));
}

/// A file name with the extension `exe` in place of its own.
fn replace_extension(name: &str) -> (out: String)
    ensures
        out@ == with_exe(name@),
{
    let chars = chars_of(name);
    let mut dot: usize = chars.len();
    let mut i: usize = chars.len();
    while i > 1
        invariant
            i <= chars.len(),
            dot == chars.len() || (1 <= dot < chars.len() && i <= dot && chars@[dot as int]
                == '.'),
            i >= 1 || chars.len() == 0,
            dot == chars.len() ==> forall|j: int| i <= j < chars.len() ==> chars@[j] != '.',
            dot < chars.len() ==> forall|j: int| dot < j < chars.len() ==> chars@[j] != '.',
        decreases i,
    {
        i -= 1;
        if dot == chars.len() && chars[i] == '.' {
            dot = i;
        }
    }
    proof {
        if dot < chars.len() {
            let found = extension_dot(chars@)->0;
            assert(0 < dot < chars@.len() && chars@[dot as int] == '.');
            assert(0 < found < chars@.len() && chars@[found] == '.' && forall|j: int|
                found < j < chars@.len() ==> chars@[j] != '.');
            if found < dot {
                assert(chars@[dot as int] != '.');
            }
            if dot < found {
                assert(chars@[found] != '.');
            }
        } else {
            assert(forall|j: int| 0 < j < chars@.len() ==> chars@[j] != '.');
        }
    }
    let mut kept: Vec<char> = Vec::new();
    let mut k: usize = 0;
    while k < dot
        invariant
            k <= dot <= chars.len(),
            kept@ == chars@.take(k as int),
        decreases dot - k,
    {
        kept.push(chars[k]);
        assert(chars@.take(k + 1) =~= chars@.take(k as int).push(chars@[k as int]));
        k += 1;
    }
    assert(chars@.take(chars@.len() as int) =~= chars@);
    string_of(&kept).concat(".exe")
}

fn name_of(executable: &ExecutableType) -> (name: &String)
    ensures
        name@ == executable_name(*executable),
{
    match executable {
        ExecutableType::Binary(name) => name,
        ExecutableType::Lib(name) => name,
        ExecutableType::Example(name) => name,
    }
}

/// Plans a build for the web: cargo builds for `wasm32-unknown-unknown`, and
/// the artifact is the module with the name of what is built.
pub fn build(config: &CrateConfig) -> (plan: BuildPlan)
    ensures
        texts(plan.cargo_args@) == web_args(*config),
        texts(plan.artifact@) == web_artifact(*config),
        plan.file_name@ == executable_name(config.executable) + ".wasm"@,
{
    let mut cargo_args: Vec<String> = Vec::new();
    assert(texts(cargo_args@) =~= Seq::<Seq<char>>::empty());
    push_text(&mut cargo_args, "build");
    push_text(&mut cargo_args, "--target");
    push_text(&mut cargo_args, "wasm32-unknown-unknown");
    push_text(&mut cargo_args, "--message-format=json");
    assert(texts(cargo_args@) =~= seq![
        "build"@,
        "--target"@,
        "wasm32-unknown-unknown"@,
        "--message-format=json"@,
    ]);
    push_common(&mut cargo_args, config);
    push_all(&mut cargo_args, &config.cargo_args);
    push_executable(&mut cargo_args, &config.executable);

    let mut directory = String::from_str("wasm32-unknown-unknown/");
    match &config.custom_profile {
        Some(profile) => {
            directory.append(profile.as_str());
        },
        None => {
            if config.release {
                directory.append("release");
            } else {
                directory.append("debug");
            }
        },
    }
    if let ExecutableType::Example(_) = &config.executable {
        directory.append("/examples");
    }
    let file_name = name_of(&config.executable).clone().concat(".wasm");
    let mut artifact: Vec<String> = Vec::new();
    artifact.push(directory);
    artifact.push(file_name.clone());
    assert(texts(artifact@) =~= web_artifact(*config));
    BuildPlan { cargo_args, artifact, file_name }
}

/// Plans a build for the desktop. `windows` says whether the build is made on
/// Windows, where the artifact has the extension `exe`.
pub fn build_desktop(config: &CrateConfig, windows: bool) -> (plan: BuildPlan)
    ensures
        texts(plan.cargo_args@) == desktop_args(*config),
        texts(plan.artifact@) == desktop_artifact(*config, windows),
        plan.file_name@ == desktop_file_name(*config, windows),
{
    let mut cargo_args: Vec<String> = Vec::new();
    assert(texts(cargo_args@) =~= Seq::<Seq<char>>::empty());
    push_text(&mut cargo_args, "build");
    push_text(&mut cargo_args, "--message-format=json");
    assert(texts(cargo_args@) =~= seq!["build"@, "--message-format=json"@]);
    push_common(&mut cargo_args, config);
    let ghost middle = texts(cargo_args@);
    if let Some(target) = &config.target {
        push_text(&mut cargo_args, "--target");
        push_text(&mut cargo_args, target.as_str());
    }
    assert(texts(cargo_args@) =~= middle + (match config.target {
        Some(target) => seq!["--target"@, target@],
        None => Seq::empty(),
    }));
    push_all(&mut cargo_args, &config.cargo_args);
    push_executable(&mut cargo_args, &config.executable);

    let file_name = if windows {
        name_of(&config.executable).clone().concat(".exe")
    } else {
        name_of(&config.executable).clone()
    };
    let artifact_file = if windows {
        replace_extension(name_of(&config.executable).as_str())
    } else {
        name_of(&config.executable).clone()
    };
    let mut artifact: Vec<String> = Vec::new();
    match &config.target {
        Some(target) => {
            artifact.push(target.clone());
        },
        None => {
            artifact.push(String::new());
        },
    }
    if config.release {
        artifact.push("release".to_owned());
    } else {
        artifact.push("debug".to_owned());
    }
    if let ExecutableType::Example(_) = &config.executable {
        artifact.push("examples".to_owned());
    }
    artifact.push(artifact_file);
    assert(texts(artifact@) =~= desktop_artifact(*config, windows));
    BuildPlan { cargo_args, artifact, file_name }
}

/// How grave a message of the compiler is.
#[derive(Clone, Copy, Debug, PartialEq, Eq, Structural)]
pub enum Level {
    Error,
    Warning,
    Other,
}

/// A message that cargo sends while it builds.
pub enum BuildMessage {
    /// The compiler says something.
    Compiler { level: Level, rendered: Option<String>, diagnostic: Diagnostic },
    /// A package was compiled.
    Artifact { package_id: String },
    /// A build script was run.
    ScriptExecuted { package_id: String },
    /// The build has ended.
    Finished { success: bool },
    /// A message of a kind that is not known.
    Unknown,
}

/// What a message means for the build.
pub enum BuildStep {
    /// Go on with the next message.
    Continue,
    /// Go on, and show that this package was compiled.
    Compiled { package_id: String },
    /// The build is done.
    Done,
    /// The build has failed with this error of the compiler.
    Failed(String),
    /// The build has failed without a word: the process is to end with
    /// status 1.
    Exit,
}

/// The text of an error that has none.
pub open spec fn unknown_error() -> Seq<char> {
    "Unknown"@
}

/// Takes in one message of a build. A warning is kept, an error ends the
/// build with its text, and the last message says whether the build is done
/// or has failed.
pub fn prettier_build(warnings: &mut Vec<Diagnostic>, message: BuildMessage) -> (step: BuildStep)
    ensures
        final(warnings)@ == match message {
            BuildMessage::Compiler { level: Level::Warning, rendered, diagnostic } => old(
                warnings,
            )@.push(diagnostic),
            _ => old(warnings)@,
        },
        match message {
            BuildMessage::Compiler { level, rendered, diagnostic } => match level {
                Level::Error => step matches BuildStep::Failed(text) && text@ == match rendered {
                    Some(shown) => shown@,
                    None => unknown_error(),
                },
                _ => step is Continue,
            },
            BuildMessage::Artifact { package_id } => step matches BuildStep::Compiled {
                package_id: shown,
            } && shown@ == package_id@,
            BuildMessage::ScriptExecuted { package_id } => step is Continue,
            BuildMessage::Finished { success } => if success {
                step is Done
            } else {
                step is Exit
            },
            BuildMessage::Unknown => step is Continue,
        },
{
    match message {
        BuildMessage::Compiler { level, rendered, diagnostic } => match level {
            Level::Error => match rendered {
                Some(text) => BuildStep::Failed(text),
                None => BuildStep::Failed("Unknown".to_owned()),
            },
            Level::Warning => {
                warnings.push(diagnostic);
                BuildStep::Continue
            },
            Level::Other => BuildStep::Continue,
        },
        BuildMessage::Artifact { package_id } => BuildStep::Compiled { package_id },
        BuildMessage::ScriptExecuted { package_id } => BuildStep::Continue,
        BuildMessage::Finished { success } => if success {
            BuildStep::Done
        } else {
            BuildStep::Exit
        },
        BuildMessage::Unknown => BuildStep::Continue,
    }
}

/// What the desktop window reads of the project's configuration.
#[derive(Clone, Copy, Debug, PartialEq, Eq, Structural)]
pub struct DesktopConfig {
    /// Whether the window of an application that is being developed stays on
    /// top of the others.
    pub always_on_top: bool,
}

impl Default for DesktopConfig {
    /// A window that stays on top.
    fn default() -> (config: Self)
        ensures
            config.always_on_top,
    {
        Self { always_on_top: true }
    }
}

} // verus!
