use blob_wrangler::error::{Error, ErrorKind};
use blob_wrangler::settings::{
    configs_dir, default_extract_path, detect_device, device_compatibles, device_config_path, execute,
    kernel_release, mounts_dir, postprocess_command, Execution, MainConfig, PostProcess,
    CONFIG_DIR_PATH, DEFAULT_EXTRACT_PATH, MOUNTS_DIR_PATH,
};
use serde_norway::Value;

fn main_config_of(text: &str) -> MainConfig {
    let value: Value = serde_norway::from_str(text).unwrap();
    MainConfig {
        extract_path: value.get("extract-path").and_then(Value::as_str).map(str::to_string),
        postprocess: match value.get("postprocess") {
            Some(commands) => commands
                .as_sequence()
                .unwrap()
                .iter()
                .map(|command| command.as_str().unwrap().to_string())
                .collect(),
            None => Vec::new(),
        },
    }
}

#[test]
fn default_main_config() {
    for firmware_class_path in ["", "\n", "/lib/firmware/postmarketos\n", " /x "] {
        assert_eq!(
            main_config_of("{}"),
            MainConfig {
                extract_path: None,
                postprocess: Vec::new(),
            }
        );

        let expected_extract_path = if firmware_class_path.trim().is_empty() {
            DEFAULT_EXTRACT_PATH.to_string()
        } else {
            firmware_class_path.trim().to_string()
        };
        assert_eq!(
            main_config_of("{}").extract_path(Some(firmware_class_path)),
            expected_extract_path
        );
    }
    assert_eq!(MainConfig::default(), main_config_of("{}"));
}

#[test]
fn custom_main_config() {
    let config_text = r#"
extract-path: /var/lib/firmware-extract
postprocess:
  - /usr/bin/true
"#;

    let expected_config = MainConfig {
        extract_path: Some("/var/lib/firmware-extract".to_string()),
        postprocess: vec!["/usr/bin/true".to_string()],
    };

    assert_eq!(main_config_of(config_text), expected_config);
    assert_eq!(
        expected_config.extract_path(Some("/lib/else")),
        "/var/lib/firmware-extract"
    );
}

#[test]
fn extract_path_defaults() {
    assert_eq!(default_extract_path(None), "/lib/firmware/updates");
    assert_eq!(default_extract_path(Some(" \n")), "/lib/firmware/updates");
    assert_eq!(default_extract_path(Some("/opt/fw\n")), "/opt/fw");
}

#[test]
fn kernel_release_is_trimmed() {
    assert_eq!(kernel_release(Some("6.12.0\n")), "6.12.0");
    assert_eq!(kernel_release(Some(" x ")), " x");
    assert_eq!(kernel_release(None), "all");
}

#[test]
fn devices_are_detected_by_file() {
    let files: Vec<String> = ["README.md", "b,two.yaml", "a,one.yaml"]
        .iter()
        .map(|name| name.to_string())
        .collect();
    assert_eq!(device_compatibles("a,one\0b,two\0\0"), ["a,one", "b,two"]);
    assert_eq!(detect_device(&files, "a,one\0b,two\0").unwrap(), "b,two");
    assert_eq!(detect_device(&files, "a,one\0").unwrap(), "a,one");
    for unknown in ["", "c,three\0", "a,one.yaml\0"] {
        let error = detect_device(&files, unknown).unwrap_err();
        assert_eq!(error.kind, ErrorKind::NotFound);
        assert_eq!(error.message(), "Unable to detect device!");
    }
}

#[test]
fn device_config_is_read_from_the_directory() {
    assert_eq!(device_config_path("/configs", "oneplus,fajita"), "/configs/oneplus,fajita.yaml");
    assert_eq!(device_config_path("/configs/", "v1.0"), "/configs/v1.0.yaml");
    assert_eq!(device_config_path("/configs", "a,b.yaml"), "/configs/a,b.yaml");
    assert_eq!(device_config_path("/configs", "a,b/"), "/configs/a,b.yaml");
    assert_eq!(device_config_path("/configs", "v1.0/"), "/configs/v1.0.yaml");
    assert_eq!(device_config_path("/configs", ".."), "/configs/..");
    assert_eq!(device_config_path("/configs", "/else/a,b"), "/else/a,b.yaml");
    for device in ["a,b", "a,b.yaml", "a,b/", "x/y", ".a", ".yaml", "", ".", ".."] {
        let mut expected = std::path::PathBuf::from("/configs.d");
        expected.push(device);
        expected.set_extension("yaml");
        assert_eq!(device_config_path("/configs.d", device), expected.to_str().unwrap());
    }
    let files = vec!["v1.0.yaml".to_string()];
    let device = detect_device(&files, "v1.0\0").unwrap();
    assert_eq!(device_config_path("/configs", &device), "/configs/v1.0.yaml");
}

#[test]
fn postprocess_commands_are_split() {
    let split = |command: &str, arguments: Option<&[&str]>| PostProcess {
        command: command.to_string(),
        arguments: arguments.map(|all| all.iter().map(|word| word.to_string()).collect()),
    };
    assert_eq!(postprocess_command("/usr/bin/true", "6.1"), split("/usr/bin/true", None));
    assert_eq!(
        postprocess_command("run -k %k  x%k", "6.1"),
        split("run", Some(&["-k", "6.1", "", "x6.1"]))
    );
    assert_eq!(postprocess_command("", "6.1"), split("", None));
}

#[test]
fn executions_succeed_or_explain() {
    let ended = |success: bool| Execution::Ended { success, status: "exit status: 3".to_string() };
    assert!(execute("cmd", ended(true)).is_ok());
    let error = execute("cmd", ended(false)).unwrap_err();
    assert_eq!(error.kind, ErrorKind::Other);
    assert_eq!(error.message(), "cmd returned with exit code exit status: 3");
    for kind in [ErrorKind::NotADirectory, ErrorKind::ExecutableFileBusy] {
        let error = Error::new(kind, "x".to_string());
        assert_eq!(execute("cmd", Execution::NotStarted { error }).unwrap_err().kind, kind);
    }
    let error = Error::new(ErrorKind::NotFound, "No such file".to_string());
    let error = execute("cmd", Execution::NotStarted { error }).unwrap_err();
    assert_eq!(error.kind, ErrorKind::NotFound);
    assert_eq!(error.message(), "cmd: unable to execute command: No such file");
}

fn options(arguments: &[&str]) -> (String, String) {
    let matches = clap::Command::new("blob-wrangler")
        .arg(clap::Arg::new("configs_dir").long("configs-dir"))
        .arg(clap::Arg::new("mounts_dir").long("mounts-dir"))
        .get_matches_from(arguments.iter().copied());
    let given = |name: &str| matches.get_one::<String>(name).map(|value| value.as_str());
    (configs_dir(given("configs_dir")), mounts_dir(given("mounts_dir")))
}

#[test]
fn default_configs_dir_option() {
    let opt = options(&["blob-wrangler"]);

    assert_eq!(opt.0, CONFIG_DIR_PATH);
    assert_eq!(opt.0, "/usr/share/blob-wrangler/configs");
}

#[test]
fn custom_configs_dir_option() {
    let opt = options(&["blob-wrangler", "--configs-dir", "/tmp/blob-configs"]);

    assert_eq!(opt.0, "/tmp/blob-configs");
}

#[test]
fn default_mounts_dir_option() {
    let opt = options(&["blob-wrangler"]);

    assert_eq!(opt.1, MOUNTS_DIR_PATH);
    assert_eq!(opt.1, "/var/lib/blob-wrangler/mounts");
}

#[test]
fn custom_mounts_dir_option() {
    let opt = options(&["blob-wrangler", "--mounts-dir", "/run/blob-mounts"]);

    assert_eq!(opt.1, "/run/blob-mounts");
}
