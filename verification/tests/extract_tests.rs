use bob::botconfig::{BotConfigError, descriptor_within_root, logo_file_name, rel_to_root,
    run_command_updates};
use bob::extract::{BinClass, ExtractError, RawTarEntry, classify, extract_from_tar,
    plan_extraction, sniff_mime};

fn tar_with(entries: &[(&str, u32, &[u8])]) -> Vec<u8> {
    let mut builder = tar::Builder::new(Vec::new());
    for (path, mode, data) in entries {
        let mut header = tar::Header::new_gnu();
        header.set_path(path).unwrap();
        header.set_mode(*mode);
        header.set_size(data.len() as u64);
        header.set_cksum();
        builder.append(&header, &data[..]).unwrap();
    }
    builder.into_inner().unwrap()
}

fn pe_like_bytes() -> Vec<u8> {
    // the two-byte MZ magic that type sniffing keys on
    let mut data = b"MZ".to_vec();
    data.extend_from_slice(&[0u8; 64]);
    data
}

#[test]
fn extraction_plans_files_and_modes() {
    let tar_bytes = tar_with(&[
        ("target/readme.txt", 0o644, b"hi"),
        ("target/bot.exe", 0o755, &pe_like_bytes()),
    ]);
    let plan = extract_from_tar(&tar_bytes).expect("extraction fails");
    assert_eq!(plan.files.len(), 2);
    assert_eq!(plan.files[0].path, b"target/readme.txt".to_vec());
    assert_eq!(plan.files[0].mode, 0o644);
    assert_eq!(plan.files[0].data, b"hi".to_vec());
    assert_eq!(plan.windows_binary, Some(b"target/bot.exe".to_vec()));
    assert_eq!(plan.linux_binary, None);
}

#[test]
fn last_matching_binary_wins() {
    let tar_bytes = tar_with(&[
        ("first.exe", 0o755, &pe_like_bytes()),
        ("second.exe", 0o755, &pe_like_bytes()),
    ]);
    let plan = extract_from_tar(&tar_bytes).expect("extraction fails");
    assert_eq!(plan.windows_binary, Some(b"second.exe".to_vec()));
}

#[test]
fn traversal_paths_are_rejected() {
    for bad in ["../evil", "/abs", "a//b", "a/./b", "up/.."] {
        let entries = vec![RawTarEntry {
            path: bad.as_bytes().to_vec(),
            mode: 0o644,
            is_dir: false,
            data: b"x".to_vec(),
        }];
        assert_eq!(plan_extraction(&entries), Err(ExtractError::UnsafePath), "path {bad}");
    }
}

#[test]
fn duplicate_destinations_are_rejected() {
    let tar_bytes = tar_with(&[("a.txt", 0o644, b"one"), ("a.txt", 0o644, b"two")]);
    assert_eq!(extract_from_tar(&tar_bytes), Err(ExtractError::AlreadyExists));
}

#[test]
fn unparseable_tar_is_rejected() {
    // 512 bytes of garbage make an invalid header
    let junk = vec![1u8; 512];
    assert_eq!(extract_from_tar(&junk), Err(ExtractError::TarRead));
}

#[test]
fn classification_rules() {
    let pe = Some(b"application/vnd.microsoft.portable-executable".to_vec());
    let elf = Some(b"application/x-executable".to_vec());
    assert_eq!(classify(&pe, b"bot.exe"), BinClass::WindowsBinary);
    assert_eq!(classify(&pe, b"bot.bin"), BinClass::NotDesignated);
    assert_eq!(classify(&elf, b"bot"), BinClass::LinuxBinary);
    assert_eq!(classify(&elf, b"libhelper"), BinClass::NotDesignated);
    assert_eq!(classify(&elf, b"helper.so"), BinClass::NotDesignated);
    assert_eq!(classify(&None, b"bot.exe"), BinClass::NotDesignated);
    assert_eq!(classify(&Some(b"image/png".to_vec()), b"bot.exe"), BinClass::NotDesignated);
}

#[test]
fn sniffing_recognizes_pe_magic() {
    let mime = sniff_mime(&pe_like_bytes());
    assert_eq!(mime, Some(b"application/vnd.microsoft.portable-executable".to_vec()));
    assert_eq!(sniff_mime(b"plain text"), None);
}

#[test]
fn descriptor_containment() {
    assert!(descriptor_within_root(b"/proj/bot.toml", b"/proj"));
    assert!(descriptor_within_root(b"/proj", b"/proj"));
    assert!(!descriptor_within_root(b"/other/bot.toml", b"/proj"));
    assert!(!descriptor_within_root(b"/projx/bot.toml", b"/proj"));
}

#[test]
fn relative_path_to_root() {
    assert_eq!(rel_to_root(b"/out/proj/bin/bot.exe", b"/out/proj"), Some(b"bin/bot.exe".to_vec()));
    assert_eq!(rel_to_root(b"/elsewhere/bot.exe", b"/out/proj"), None);
}

#[test]
fn run_commands_require_windows_binary() {
    match run_command_updates(&None, &Some(b"bot".to_vec())) {
        Err(BotConfigError::NoWindowsBinary) => {}
        _ => panic!("expected a missing windows binary error"),
    }
    let rc = run_command_updates(&Some(b"bot.exe".to_vec()), &Some(b"bot".to_vec())).unwrap();
    assert_eq!(rc.run_command, b"bot.exe".to_vec());
    assert_eq!(rc.run_command_linux, Some(b"bot".to_vec()));
    let rc2 = run_command_updates(&Some(b"bot.exe".to_vec()), &None).unwrap();
    assert_eq!(rc2.run_command_linux, None);
}

#[test]
fn logo_defaults_to_logo_png() {
    assert_eq!(logo_file_name(&None), b"logo.png".to_vec());
    assert_eq!(logo_file_name(&Some(b"face.png".to_vec())), b"face.png".to_vec());
}
