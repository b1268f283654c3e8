use bob::builder::{RenderError, generate_dockerfile, render_template};
use bob::config::{BuilderConfig, CustomBuildConfig, PyInstallerBuildConfig, RustBuildConfig};

fn pairs(kvs: &[(&str, &str)]) -> Vec<(Vec<u8>, Vec<u8>)> {
    kvs.iter().map(|(k, v)| (k.as_bytes().to_vec(), v.as_bytes().to_vec())).collect()
}

#[test]
fn template_substitutes_placeholders() {
    let vals = pairs(&[("name", "bot"), ("target", "x86")]);
    let out = render_template(b"FROM rust\nRUN build {name} for {target}\n", &vals).unwrap();
    assert_eq!(out, b"FROM rust\nRUN build bot for x86\n".to_vec());
}

#[test]
fn template_without_placeholders_is_copied() {
    let vals = pairs(&[]);
    let out = render_template(b"plain text", &vals).unwrap();
    assert_eq!(out, b"plain text".to_vec());
}

#[test]
fn template_unknown_key_is_an_error() {
    let vals = pairs(&[("name", "bot")]);
    assert_eq!(render_template(b"x {missing} y", &vals), Err(RenderError::UnknownKey));
}

#[test]
fn template_unclosed_brace_is_an_error() {
    let vals = pairs(&[("name", "bot")]);
    assert_eq!(render_template(b"x {name", &vals), Err(RenderError::UnclosedKey));
}

#[test]
fn dockerfile_for_rust_variant() {
    let config = BuilderConfig::Rust(RustBuildConfig {
        bin_name: b"bot".to_vec(),
        targets: vec![b"x86_64-linux".to_vec(), b"x86_64-windows".to_vec()],
    });
    let out = generate_dockerfile(b"build {bin_name}: {targets}", &config).unwrap();
    assert_eq!(out, b"build bot: x86_64-linux x86_64-windows".to_vec());
}

#[test]
fn dockerfile_for_pyinstaller_variant() {
    let config = BuilderConfig::PyInstaller(PyInstallerBuildConfig {
        entry_file: b"main.py".to_vec(),
    });
    let out = generate_dockerfile(b"RUN pyinstaller {entry_file}", &config).unwrap();
    assert_eq!(out, b"RUN pyinstaller main.py".to_vec());
}

#[test]
fn dockerfile_for_custom_variant() {
    let config = BuilderConfig::Custom(CustomBuildConfig {
        dockerfile: b"my.Dockerfile".to_vec(),
        values: pairs(&[("base", "alpine")]),
    });
    let out = generate_dockerfile(b"FROM {base}", &config).unwrap();
    assert_eq!(out, b"FROM alpine".to_vec());
}
