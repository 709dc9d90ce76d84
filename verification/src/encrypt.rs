//! Encrypted notes.
//!
//! The commands here match `nb`'s exactly, so a note encrypted by one tool
//! decrypts with the other. OpenSSL is the default; GPG is used when
//! `encryption_tool` says so. This module decides the command lines, the
//! paths and what each outcome of running a tool means; running the tools is
//! left to the caller.

use vstd::prelude::*;

use crate::paths::{extension, extension_of, file_name_bounds, file_name_range, last_piece, piece_start, split_dot, split_dot_exec};
use crate::text::{
    chars_of, eq_ignore_case, eq_ignore_case_exec, extend_str, lemma_rfind_char_facts,
    rfind_char_before, slice_vec, string_of, trim, trim_chars,
};

verus! {

/// Extension marking a file as encrypted.
pub const ENCRYPTED_EXT: &'static str = "enc";

/// Which program does the encrypting.
#[derive(Debug, Clone, Copy, PartialEq, Eq, Structural)]
pub enum Tool {
    OpenSsl,
    Gpg,
}

/// The message refusing an `encryption_tool` value.
pub open spec fn tool_message(other: Seq<char>) -> Seq<char> {
    "encryption_tool must be 'gpg' or 'openssl', not '"@ + other + "'"@
}

/// The tool a setting names: OpenSSL when unset or blank, as `nb` does.
pub open spec fn tool_from(value: Option<Seq<char>>) -> Result<Tool, Seq<char>> {
    match value {
        None => Ok(Tool::OpenSsl),
        Some(v) => if trim(v).len() == 0 || trim(v) == "openssl"@ {
            Ok(Tool::OpenSsl)
        } else if trim(v) == "gpg"@ {
            Ok(Tool::Gpg)
        } else {
            Err(tool_message(trim(v)))
        },
    }
}

impl Tool {
    /// Read the tool from a settings value, defaulting to OpenSSL as `nb` does.
    pub fn from_setting(value: Option<&str>) -> (r: Result<Tool, String>)
        ensures
            match tool_from(
                match value {
                    Some(v) => Some(v@),
                    None => None,
                },
            ) {
                Ok(t) => r == Ok::<Tool, String>(t),
                Err(m) => r matches Err(e) && e@ == m,
            },
    {
        match value {
            None => Ok(Tool::OpenSsl),
            Some(v) => {
                let t = trim_chars(&chars_of(v));
                if t.len() == 0 || crate::text::chars_eq(&t, &chars_of("openssl")) {
                    Ok(Tool::OpenSsl)
                } else if crate::text::chars_eq(&t, &chars_of("gpg")) {
                    Ok(Tool::Gpg)
                } else {
                    let mut out: Vec<char> = Vec::new();
                    extend_str(&mut out, "encryption_tool must be 'gpg' or 'openssl', not '");
                    crate::text::extend_chars(&mut out, &t);
                    extend_str(&mut out, "'");
                    Err(string_of(&out))
                }
            },
        }
    }

    pub fn program(self) -> (r: &'static str)
        ensures
            r@ == program_name(self),
    {
        match self {
            Tool::OpenSsl => "openssl",
            Tool::Gpg => "gpg",
        }
    }
}

pub open spec fn program_name(tool: Tool) -> Seq<char> {
    match tool {
        Tool::OpenSsl => "openssl"@,
        Tool::Gpg => "gpg"@,
    }
}

// ───────────────────────── paths ─────────────────────────

/// A path whose extension is `enc`, in any case.
pub open spec fn encrypted_name(path: Seq<char>) -> bool {
    match extension(path) {
        Some(e) => eq_ignore_case(e, "enc"@),
        None => false,
    }
}

pub fn is_encrypted(path: &str) -> (r: bool)
    ensures
        r == encrypted_name(path@),
{
    match extension_of(&chars_of(path)) {
        Some(e) => eq_ignore_case_exec(&e, &chars_of(ENCRYPTED_EXT)),
        None => false,
    }
}

/// The encrypted counterpart of a path: `note.md` → `note.md.enc`.
pub fn encrypted_path(path: &str) -> (r: String)
    ensures
        r@ == path@ + ".enc"@,
{
    let mut out = chars_of(path);
    extend_str(&mut out, ".enc");
    string_of(&out)
}

/// The plaintext counterpart of a path: an `enc` extension dropped with its
/// dot, as `Path::with_extension("")` does; any other path as it is.
pub open spec fn decrypted(path: Seq<char>) -> Seq<char> {
    match file_name_bounds(path) {
        Some((a, b)) => match split_dot(path.subrange(a, b)) {
            (stem, Some(ext)) => if eq_ignore_case(ext, "enc"@) {
                path.take(a + stem.len())
            } else {
                path
            },
            _ => path,
        },
        None => path,
    }
}

/// The plaintext counterpart: `note.md.enc` → `note.md`.
pub fn decrypted_path(path: &str) -> (r: String)
    ensures
        r@ == decrypted(path@),
{
    let p = chars_of(path);
    match file_name_range(&p) {
        Some((a, b)) => {
            let name = slice_vec(&p, a, b);
            match split_dot_exec(&name) {
                Some(k) => {
                    let ext = slice_vec(&name, k + 1, name.len());
                    assert(ext@ == name@.skip(k + 1));
                    if eq_ignore_case_exec(&ext, &chars_of(ENCRYPTED_EXT)) {
                        string_of(&slice_vec(&p, 0, a + k))
                    } else {
                        path.to_owned()
                    }
                },
                None => path.to_owned(),
            }
        },
        None => path.to_owned(),
    }
}

proof fn lemma_rfind_prefix(s: Seq<char>, t: Seq<char>, c: char, to: int)
    requires
        0 <= to <= s.len(),
        to <= t.len(),
        forall|i: int| 0 <= i < to ==> s[i] == t[i],
    ensures
        rfind_char_before(s, c, to) == rfind_char_before(t, c, to),
    decreases to,
{
    if to > 0 {
        lemma_rfind_prefix(s, t, c, to - 1);
    }
}

/// Decrypting undoes encrypting, for every path to a file: `note.md` →
/// `note.md.enc` → `note.md`. (A path that names no file, such as one ending
/// in `/`, gets a file named `.enc` instead, which has no extension to drop.)
pub proof fn lemma_decrypted_encrypted(p: Seq<char>)
    requires
        p.len() > 0,
        p.last() != '/',
    ensures
        decrypted(p + ".enc"@) == p,
{
    reveal_strlit(".enc");
    reveal_strlit("enc");
    let s = p + ".enc"@;
    let n = s.len() as int;
    let m = p.len() as int;
    assert(s[n - 1] == 'c' && s[n - 2] == 'n' && s[n - 3] == 'e' && s[n - 4] == '.');
    lemma_rfind_prefix(s, p, '/', m);
    assert(rfind_char_before(s, '/', n) == rfind_char_before(s, '/', m)) by {
        assert(rfind_char_before(s, '/', n) == rfind_char_before(s, '/', n - 1));
        assert(rfind_char_before(s, '/', n - 1) == rfind_char_before(s, '/', n - 2));
        assert(rfind_char_before(s, '/', n - 2) == rfind_char_before(s, '/', n - 3));
        assert(rfind_char_before(s, '/', n - 3) == rfind_char_before(s, '/', n - 4));
    }
    lemma_rfind_char_facts(p, '/', m);
    let a = piece_start(s, n);
    assert(a == piece_start(p, m));
    assert(a < m) by {
        if a >= m {
            assert(rfind_char_before(p, '/', m) == Some(m - 1));
        }
    }
    assert(s.subrange(a, n).len() >= 4);
    assert(s.subrange(a, n) != seq!['.']) by {
        if s.subrange(a, n) == seq!['.'] {
            assert(s.subrange(a, n).len() == 1);
        }
    }
    assert(last_piece(s, n) == Some((a, n)));
    assert(s.subrange(a, n) != seq!['.', '.']) by {
        if s.subrange(a, n) == seq!['.', '.'] {
            assert(s.subrange(a, n).len() == 2);
        }
    }
    assert(file_name_bounds(s) == Some((a, n)));
    let name = s.subrange(a, n);
    let l = name.len() as int;
    assert(name[l - 1] == 'c' && name[l - 2] == 'n' && name[l - 3] == 'e' && name[l - 4] == '.');
    assert(rfind_char_before(name, '.', l) == Some(l - 4)) by {
        assert(rfind_char_before(name, '.', l) == rfind_char_before(name, '.', l - 1));
        assert(rfind_char_before(name, '.', l - 1) == rfind_char_before(name, '.', l - 2));
        assert(rfind_char_before(name, '.', l - 2) == rfind_char_before(name, '.', l - 3));
    }
    assert(name != seq!['.', '.']) by {
        if name == seq!['.', '.'] {
            assert(name.len() == 2);
        }
    }
    assert(l - 4 == m - a);
    assert(name.skip(l - 3) =~= "enc"@);
    assert(eq_ignore_case("enc"@, "enc"@));
    assert(split_dot(name) == (name.take(l - 4), Some(name.skip(l - 3))));
    assert(s.take(a + (l - 4)) =~= p);
}

// ───────────────────────── command lines ─────────────────────────

fn push_arg(args: &mut Vec<String>, a: &str)
    ensures
        final(args)@.len() == old(args)@.len() + 1,
        forall|i: int| 0 <= i < old(args)@.len() ==> final(args)@[i] == old(args)@[i],
        final(args)@.last()@ == a@,
{
    args.push(a.to_owned());
}

/// The words of a command line.
pub open spec fn words_of(args: Seq<String>) -> Seq<Seq<char>> {
    args.map_values(|a: String| a@)
}

/// `nb`'s arguments for encrypting `source` into `destination`; the password
/// goes on standard input.
pub open spec fn encrypt_words(tool: Tool, source: Seq<char>, destination: Seq<char>) -> Seq<
    Seq<char>,
> {
    match tool {
        Tool::OpenSsl => seq![
            "enc"@,
            "-aes-256-cbc"@,
            "-in"@,
            source,
            "-md"@,
            "sha256"@,
            "-out"@,
            destination,
            "-pass"@,
            "stdin"@,
        ],
        Tool::Gpg => seq![
            "--batch"@,
            "--cipher-algo"@,
            "AES256"@,
            "--quiet"@,
            "--output"@,
            destination,
            "--passphrase-fd"@,
            "0"@,
            "--symmetric"@,
            source,
        ],
    }
}

/// The arguments that encrypt `source` into `destination`.
pub fn encrypt_args(tool: Tool, source: &str, destination: &str) -> (r: Vec<String>)
    ensures
        words_of(r@) == encrypt_words(tool, source@, destination@),
{
    let mut a: Vec<String> = Vec::new();
    match tool {
        Tool::OpenSsl => {
            push_arg(&mut a, "enc");
            push_arg(&mut a, "-aes-256-cbc");
            push_arg(&mut a, "-in");
            push_arg(&mut a, source);
            push_arg(&mut a, "-md");
            push_arg(&mut a, "sha256");
            push_arg(&mut a, "-out");
            push_arg(&mut a, destination);
            push_arg(&mut a, "-pass");
            push_arg(&mut a, "stdin");
        },
        Tool::Gpg => {
            push_arg(&mut a, "--batch");
            push_arg(&mut a, "--cipher-algo");
            push_arg(&mut a, "AES256");
            push_arg(&mut a, "--quiet");
            push_arg(&mut a, "--output");
            push_arg(&mut a, destination);
            push_arg(&mut a, "--passphrase-fd");
            push_arg(&mut a, "0");
            push_arg(&mut a, "--symmetric");
            push_arg(&mut a, source);
        },
    }
    assert(words_of(a@) =~= encrypt_words(tool, source@, destination@));
    a
}

/// The OpenSSL arguments that decrypt with one key digest.
pub open spec fn openssl_decrypt_words(source: Seq<char>, destination: Seq<char>, digest: Seq<char>) -> Seq<Seq<char>> {
    seq![
        "enc"@,
        "-d"@,
        "-aes-256-cbc"@,
        "-in"@,
        source,
        "-md"@,
        digest,
        "-out"@,
        destination,
        "-pass"@,
        "stdin"@,
    ]
}

/// The decryption attempts, in order. OpenSSL notes written by older `nb`
/// releases used an MD5 key derivation, so a SHA-256 attempt is followed by
/// an MD5 one.
pub open spec fn decrypt_words(tool: Tool, source: Seq<char>, destination: Seq<char>) -> Seq<
    Seq<Seq<char>>,
> {
    match tool {
        Tool::Gpg => seq![
            seq![
                "--batch"@,
                "--quiet"@,
                "--output"@,
                destination,
                "--passphrase-fd"@,
                "0"@,
                "--decrypt"@,
                source,
            ],
        ],
        Tool::OpenSsl => seq![
            openssl_decrypt_words(source, destination, "sha256"@),
            openssl_decrypt_words(source, destination, "md5"@),
        ],
    }
}

fn openssl_decrypt_args(source: &str, destination: &str, digest: &str) -> (r: Vec<String>)
    ensures
        words_of(r@) == openssl_decrypt_words(source@, destination@, digest@),
{
    let mut a: Vec<String> = Vec::new();
    push_arg(&mut a, "enc");
    push_arg(&mut a, "-d");
    push_arg(&mut a, "-aes-256-cbc");
    push_arg(&mut a, "-in");
    push_arg(&mut a, source);
    push_arg(&mut a, "-md");
    push_arg(&mut a, digest);
    push_arg(&mut a, "-out");
    push_arg(&mut a, destination);
    push_arg(&mut a, "-pass");
    push_arg(&mut a, "stdin");
    assert(words_of(a@) =~= openssl_decrypt_words(source@, destination@, digest@));
    a
}

/// The command lines to try, in order, to decrypt `source` into
/// `destination`.
pub fn decrypt_args(tool: Tool, source: &str, destination: &str) -> (r: Vec<Vec<String>>)
    ensures
        r@.map_values(|a: Vec<String>| words_of(a@)) == decrypt_words(tool, source@, destination@),
{
    let mut attempts: Vec<Vec<String>> = Vec::new();
    match tool {
        Tool::Gpg => {
            let mut a: Vec<String> = Vec::new();
            push_arg(&mut a, "--batch");
            push_arg(&mut a, "--quiet");
            push_arg(&mut a, "--output");
            push_arg(&mut a, destination);
            push_arg(&mut a, "--passphrase-fd");
            push_arg(&mut a, "0");
            push_arg(&mut a, "--decrypt");
            push_arg(&mut a, source);
            assert(words_of(a@) =~= decrypt_words(tool, source@, destination@)[0]);
            attempts.push(a);
        },
        Tool::OpenSsl => {
            attempts.push(openssl_decrypt_args(source, destination, "sha256"));
            attempts.push(openssl_decrypt_args(source, destination, "md5"));
        },
    }
    assert(attempts@.map_values(|a: Vec<String>| words_of(a@)) =~= decrypt_words(
        tool,
        source@,
        destination@,
    ));
    attempts
}

/// What the tool reads on standard input: the password and a newline.
pub fn password_line(password: &str) -> (r: String)
    ensures
        r@ == password@ + seq!['\n'],
{
    let mut out = chars_of(password);
    out.push('\n');
    string_of(&out)
}

// ───────────────────────── outcomes ─────────────────────────

/// What to do after a decryption attempt.
#[derive(Debug, Clone, Copy, PartialEq, Eq, Structural)]
pub enum DecryptStep {
    /// The plaintext is there.
    Done,
    /// The tool failed: report its own error.
    RunFailed,
    /// The tool succeeded but wrote nothing: the password was wrong.
    Missing,
    /// Remove what the attempt left behind and try the next one.
    RemoveAndRetry,
    /// Remove what the attempt left behind; no attempts are left.
    RemoveAndGiveUp,
}

/// The step after attempt `attempt` (counting from 0) ran, given whether the
/// tool succeeded and whether the plaintext file exists.
pub open spec fn decrypt_step_spec(tool: Tool, attempt: nat, ran: bool, produced: bool) -> DecryptStep {
    match tool {
        Tool::Gpg => if !ran {
            DecryptStep::RunFailed
        } else if produced {
            DecryptStep::Done
        } else {
            DecryptStep::Missing
        },
        Tool::OpenSsl => if ran && produced {
            DecryptStep::Done
        } else if attempt + 1 < 2 {
            DecryptStep::RemoveAndRetry
        } else {
            DecryptStep::RemoveAndGiveUp
        },
    }
}

/// Decide what follows a decryption attempt.
pub fn decrypt_step(tool: Tool, attempt: usize, ran: bool, produced: bool) -> (r: DecryptStep)
    ensures
        r == decrypt_step_spec(tool, attempt as nat, ran, produced),
{
    match tool {
        Tool::Gpg => if !ran {
            DecryptStep::RunFailed
        } else if produced {
            DecryptStep::Done
        } else {
            DecryptStep::Missing
        },
        Tool::OpenSsl => if ran && produced {
            DecryptStep::Done
        } else if attempt < 1 {
            DecryptStep::RemoveAndRetry
        } else {
            DecryptStep::RemoveAndGiveUp
        },
    }
}

/// The error for a note that would not decrypt.
pub fn wrong_password_message(source: &str) -> (r: String)
    ensures
        r@ == "could not decrypt "@ + source@ + " (wrong password?)"@,
{
    let mut out: Vec<char> = Vec::new();
    extend_str(&mut out, "could not decrypt ");
    extend_str(&mut out, source);
    extend_str(&mut out, " (wrong password?)");
    string_of(&out)
}

/// The error for an encryption that wrote nothing.
pub fn missing_output_message(tool: Tool, destination: &str) -> (r: String)
    ensures
        r@ == program_name(tool) + " did not produce "@ + destination@,
{
    let mut out: Vec<char> = Vec::new();
    extend_str(&mut out, tool.program());
    extend_str(&mut out, " did not produce ");
    extend_str(&mut out, destination);
    string_of(&out)
}

} // verus!
