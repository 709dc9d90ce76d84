use kb_core::encrypt::{
    decrypt_args, decrypt_step, decrypted_path, encrypt_args, encrypted_path, is_encrypted,
    missing_output_message, password_line, wrong_password_message, DecryptStep, Tool,
};

#[test]
fn reads_the_tool_setting() {
    assert_eq!(Tool::from_setting(None).unwrap(), Tool::OpenSsl);
    assert_eq!(Tool::from_setting(Some("openssl")).unwrap(), Tool::OpenSsl);
    assert_eq!(Tool::from_setting(Some(" gpg ")).unwrap(), Tool::Gpg);
    assert!(Tool::from_setting(Some("rot13")).is_err());
}

#[test]
fn maps_paths_both_ways() {
    let plain = "/n/note.md";
    let encrypted = encrypted_path(plain);
    assert_eq!(encrypted, "/n/note.md.enc");
    assert_eq!(decrypted_path(&encrypted), plain);
    assert!(is_encrypted(&encrypted));
    assert!(!is_encrypted(plain));
    assert_eq!(decrypted_path(plain), plain);
}

#[test]
fn a_blank_setting_means_openssl_and_the_message_names_the_value() {
    assert_eq!(Tool::from_setting(Some("   ")).unwrap(), Tool::OpenSsl);
    assert_eq!(
        Tool::from_setting(Some(" rot13 ")).unwrap_err(),
        "encryption_tool must be 'gpg' or 'openssl', not 'rot13'"
    );
    assert_eq!(Tool::Gpg.program(), "gpg");
    assert_eq!(Tool::OpenSsl.program(), "openssl");
}

#[test]
fn the_extension_is_matched_in_any_case() {
    assert!(is_encrypted("a/B.ENC"));
    assert_eq!(decrypted_path("a/B.md.Enc"), "a/B.md");
    assert!(!is_encrypted("a/.enc"));
    assert_eq!(decrypted_path("a/.enc"), "a/.enc");
}

#[test]
fn command_lines_are_nbs() {
    assert_eq!(
        encrypt_args(Tool::OpenSsl, "in.md", "in.md.enc"),
        vec!["enc", "-aes-256-cbc", "-in", "in.md", "-md", "sha256", "-out", "in.md.enc", "-pass", "stdin"]
    );
    assert_eq!(
        encrypt_args(Tool::Gpg, "in.md", "in.md.enc"),
        vec!["--batch", "--cipher-algo", "AES256", "--quiet", "--output", "in.md.enc", "--passphrase-fd", "0", "--symmetric", "in.md"]
    );
    let attempts = decrypt_args(Tool::OpenSsl, "a.enc", "a");
    assert_eq!(attempts.len(), 2);
    assert_eq!(attempts[0][6], "sha256");
    assert_eq!(attempts[1][6], "md5");
    assert_eq!(
        decrypt_args(Tool::Gpg, "a.enc", "a"),
        vec![vec!["--batch", "--quiet", "--output", "a", "--passphrase-fd", "0", "--decrypt", "a.enc"]]
    );
    assert_eq!(password_line("pw"), "pw\n");
}

#[test]
fn decryption_falls_back_to_md5_then_gives_up() {
    assert_eq!(decrypt_step(Tool::OpenSsl, 0, true, true), DecryptStep::Done);
    assert_eq!(decrypt_step(Tool::OpenSsl, 0, false, false), DecryptStep::RemoveAndRetry);
    assert_eq!(decrypt_step(Tool::OpenSsl, 1, true, false), DecryptStep::RemoveAndGiveUp);
    assert_eq!(decrypt_step(Tool::Gpg, 0, false, false), DecryptStep::RunFailed);
    assert_eq!(decrypt_step(Tool::Gpg, 0, true, false), DecryptStep::Missing);
    assert_eq!(wrong_password_message("x.enc"), "could not decrypt x.enc (wrong password?)");
    assert_eq!(missing_output_message(Tool::Gpg, "o"), "gpg did not produce o");
}
