use plugin_host::builder::{
    build, build_desktop, prettier_build, BuildMessage, BuildStep, CrateConfig, DesktopConfig,
    ExecutableType, Level,
};
use plugin_host::document::LiveviewDocument;
use plugin_host::page::{gen_page, replace_or_insert_before, DioxusConfig};
use plugin_host::text::{
    chars_of, contains, matches_at, replace, str_contains, str_eq, str_replace,
};

fn replaced(text: &str, pattern: &str, with: &str) -> String {
    let out: String =
        replace(&chars_of(text), &chars_of(pattern), &chars_of(with)).iter().collect();
    assert_eq!(out, str_replace(text, pattern, with));
    out
}

#[test]
fn the_characters_of_a_text_are_its_characters() {
    assert_eq!(chars_of("hé✓"), vec!['h', 'é', '✓']);
    assert!(chars_of("").is_empty());
}

#[test]
fn replacing_is_what_the_standard_library_does() {
    let cases = [
        ("", "", "-"),
        ("ab", "", "-"),
        ("aaa", "aa", "b"),
        ("abcabc", "bc", "é✓"),
        ("abc", "abcd", "x"),
        ("ababab", "aba", "x"),
        ("héllo wörld", "ö", ""),
        ("</body></body", "</body", "<s></body"),
        ("xyz", "z", "zz"),
    ];
    for (text, pattern, with) in cases {
        assert_eq!(replaced(text, pattern, with), text.replace(pattern, with));
        assert_eq!(contains(&chars_of(text), &chars_of(pattern)), text.contains(pattern));
        assert_eq!(str_contains(text, pattern), text.contains(pattern));
    }
    assert_eq!(replaced("aaa", "aa", "b"), "ba");
    assert_eq!(replaced("ab", "", "-"), "-a-b-");
    assert!(matches_at(&chars_of("abc"), &chars_of("bc"), 1));
    assert!(!matches_at(&chars_of("abc"), &chars_of("bc"), 2));
    assert!(!matches_at(&chars_of("abc"), &chars_of("bc"), 9));
    assert!(str_eq("héllo", "héllo"));
    assert!(!str_eq("héllo", "hello"));
    assert!(!str_eq("a", "ab"));
}

#[test]
fn a_placeholder_is_filled_or_the_part_is_put_before_the_tag() {
    let mut html = String::from("<head>{style_include}</head>");
    replace_or_insert_before("{style_include}", "<link>", "</head", &mut html);
    assert_eq!(html, "<head><link></head>");
    let mut html = String::from("<head></head>");
    replace_or_insert_before("{style_include}", "<link>", "</head", &mut html);
    assert_eq!(html, "<head><link></head>");
}

fn config() -> DioxusConfig {
    DioxusConfig {
        name: "demo".to_string(),
        base_path: None,
        title: None,
        style: vec!["a.css".to_string()],
        script: vec!["a.js".to_string()],
        dev_style: vec!["dev.css".to_string()],
        dev_script: vec!["dev.js".to_string()],
    }
}

#[test]
fn a_page_without_placeholders_gets_every_part() {
    let template = "<html><head><title></title></head><body></body></html>";
    let page = gen_page(template, &config(), false, "reload()");
    let expected = "<html><head><title>dioxus | \u{26fa}</title><link rel=\"stylesheet\" href=\"a.css\">\n</head><body><script src=\"a.js\"></script>\n<script type=\"module\">\n    import init from \"/./assets/dioxus/demo.js\";\n    init(\"/./assets/dioxus/demo_bg.wasm\").then(wasm => {\n      if (wasm.__wbindgen_start == undefined) {\n        wasm.main();\n      }\n    });\n    </script>\n    </body></html>";
    assert_eq!(page, expected);
}

#[test]
fn a_served_page_fills_placeholders_and_reloads() {
    let template = "<head><title>{app_title}</title>{style_include}</head><body><div id=\"main\"></div><script src=\"/{base_path}/{app_name}.js\"></script>{script_include}</body>";
    let mut config = config();
    config.base_path = Some("app".to_string());
    config.title = Some("Demo".to_string());
    let page = gen_page(template, &config, true, "reload()");
    let expected = "<head><title>Demo</title><link rel=\"stylesheet\" href=\"a.css\">\n<link rel=\"stylesheet\" href=\"dev.css\">\n</head><body><div id=\"main\"></div><script src=\"/app/demo.js\"></script><script src=\"a.js\"></script>\n<script src=\"dev.js\"></script>\n</body><script>reload()</script>";
    assert_eq!(page, expected);
}

fn crate_config(executable: ExecutableType) -> CrateConfig {
    CrateConfig {
        release: false,
        verbose: false,
        custom_profile: None,
        features: None,
        cargo_args: vec![],
        target: None,
        executable,
    }
}

fn strings(items: &[&str]) -> Vec<String> {
    items.iter().map(|item| item.to_string()).collect()
}

#[test]
fn a_web_build_is_planned_from_the_configuration() {
    let plan = build(&crate_config(ExecutableType::Binary("demo".to_string())));
    assert_eq!(
        plan.cargo_args,
        strings(&[
            "build",
            "--target",
            "wasm32-unknown-unknown",
            "--message-format=json",
            "--quiet",
            "--bin",
            "demo"
        ])
    );
    assert_eq!(plan.artifact, strings(&["wasm32-unknown-unknown/debug", "demo.wasm"]));
    assert_eq!(plan.file_name, "demo.wasm");

    let mut config = crate_config(ExecutableType::Example("ex".to_string()));
    config.release = true;
    config.verbose = true;
    config.custom_profile = Some("fast".to_string());
    config.features = Some(strings(&["a", "b", "c"]));
    config.cargo_args = strings(&["--offline", "-j4"]);
    let plan = build(&config);
    assert_eq!(
        plan.cargo_args,
        strings(&[
            "build",
            "--target",
            "wasm32-unknown-unknown",
            "--message-format=json",
            "--release",
            "--verbose",
            "--profile",
            "fast",
            "--features",
            "a b c",
            "--offline",
            "-j4",
            "--example",
            "ex"
        ])
    );
    assert_eq!(plan.artifact, strings(&["wasm32-unknown-unknown/fast/examples", "ex.wasm"]));

    let mut config = crate_config(ExecutableType::Lib("l".to_string()));
    config.release = true;
    config.features = Some(vec![]);
    let plan = build(&config);
    assert_eq!(plan.artifact, strings(&["wasm32-unknown-unknown/release", "l.wasm"]));
    assert_eq!(plan.cargo_args[4..], strings(&["--release", "--quiet", "--features", "", "--lib", "l"])[..]);
}

#[test]
fn a_desktop_build_is_planned_from_the_configuration() {
    let mut config = crate_config(ExecutableType::Binary("demo".to_string()));
    config.target = Some("x86_64-pc-windows-msvc".to_string());
    config.release = true;
    config.custom_profile = Some("fast".to_string());
    let plan = build_desktop(&config, true);
    assert_eq!(
        plan.cargo_args,
        strings(&[
            "build",
            "--message-format=json",
            "--release",
            "--quiet",
            "--profile",
            "fast",
            "--target",
            "x86_64-pc-windows-msvc",
            "--bin",
            "demo"
        ])
    );
    // The custom profile does not decide where the artifact lies.
    assert_eq!(plan.artifact, strings(&["x86_64-pc-windows-msvc", "release", "demo.exe"]));
    assert_eq!(plan.file_name, "demo.exe");

    // On Windows the artifact has `exe` in place of an extension of its own.
    for (name, file) in [("my.app", "my.exe"), (".app", ".app.exe"), ("a.b.c", "a.b.exe"), ("a.", "a.exe")] {
        let plan = build_desktop(&crate_config(ExecutableType::Binary(name.to_string())), true);
        assert_eq!(plan.artifact[2], file);
        assert_eq!(plan.artifact[2], std::path::Path::new(name).with_extension("exe").to_str().unwrap());
        assert_eq!(plan.file_name, format!("{}.exe", name));
    }

    let plan = build_desktop(&crate_config(ExecutableType::Example("ex".to_string())), false);
    assert_eq!(plan.artifact, strings(&["", "debug", "examples", "ex"]));
    assert_eq!(plan.file_name, "ex");
    assert_eq!(
        plan.cargo_args,
        strings(&["build", "--message-format=json", "--quiet", "--example", "ex"])
    );
}

fn diagnostic(message: &str) -> cargo_metadata::diagnostic::Diagnostic {
    let line = format!(
        "{{\"reason\":\"compiler-message\",\"package_id\":\"demo 0.1.0 (path+file:///demo)\",\"target\":{{\"name\":\"demo\",\"kind\":[\"bin\"],\"src_path\":\"/demo/src/main.rs\"}},\"message\":{{\"message\":\"{}\",\"code\":null,\"level\":\"warning\",\"spans\":[],\"children\":[],\"rendered\":null}}}}\n",
        message
    );
    match cargo_metadata::Message::parse_stream(line.as_bytes()).next().unwrap().unwrap() {
        cargo_metadata::Message::CompilerMessage(message) => message.message,
        _ => panic!("not a message of the compiler"),
    }
}

#[test]
fn each_message_of_a_build_means_a_step() {
    let mut warnings = Vec::new();
    let step = prettier_build(
        &mut warnings,
        BuildMessage::Compiler {
            level: Level::Warning,
            rendered: None,
            diagnostic: diagnostic("unused"),
        },
    );
    assert!(matches!(step, BuildStep::Continue));
    assert_eq!(warnings.len(), 1);
    assert_eq!(warnings[0].message, "unused");

    let step = prettier_build(
        &mut warnings,
        BuildMessage::Compiler { level: Level::Other, rendered: None, diagnostic: diagnostic("n") },
    );
    assert!(matches!(step, BuildStep::Continue));
    assert_eq!(warnings.len(), 1);

    let step = prettier_build(
        &mut warnings,
        BuildMessage::Compiler {
            level: Level::Error,
            rendered: Some("error: no".to_string()),
            diagnostic: diagnostic("no"),
        },
    );
    assert!(matches!(step, BuildStep::Failed(text) if text == "error: no"));
    let step = prettier_build(
        &mut warnings,
        BuildMessage::Compiler { level: Level::Error, rendered: None, diagnostic: diagnostic("no") },
    );
    assert!(matches!(step, BuildStep::Failed(text) if text == "Unknown"));
    assert_eq!(warnings.len(), 1);

    let step =
        prettier_build(&mut warnings, BuildMessage::Artifact { package_id: "demo 0.1".to_string() });
    assert!(matches!(step, BuildStep::Compiled { package_id } if package_id == "demo 0.1"));
    let step = prettier_build(
        &mut warnings,
        BuildMessage::ScriptExecuted { package_id: "demo 0.1".to_string() },
    );
    assert!(matches!(step, BuildStep::Continue));
    assert!(matches!(prettier_build(&mut warnings, BuildMessage::Unknown), BuildStep::Continue));
    assert!(matches!(
        prettier_build(&mut warnings, BuildMessage::Finished { success: true }),
        BuildStep::Done
    ));
    assert!(matches!(
        prettier_build(&mut warnings, BuildMessage::Finished { success: false }),
        BuildStep::Exit
    ));
}

#[test]
fn the_window_stays_on_top_unless_told_otherwise() {
    assert!(DesktopConfig::default().always_on_top);
}

#[test]
fn the_title_is_set_by_a_script() {
    let document = LiveviewDocument::new();
    assert_eq!(document.set_title("Home".to_string()), "window.document.title = 'Home';");
    assert_eq!(document.set_title(String::new()), "window.document.title = '';");
}
