use mdbabel::executor::Executors;
use mdbabel::markdown::CodeBlockBody;

fn body(lang: Option<&str>, code: &str) -> CodeBlockBody {
    CodeBlockBody {
        lang: lang.map(|s| s.to_owned()),
        code: code.to_owned(),
    }
}

#[test]
fn dispatch_bash_appends_code_last() {
    let exs = Executors::default_executors();
    let inv = exs
        .execute(&body(Some("bash"), "echo hi"))
        .expect("bash is registered");
    assert_eq!("bash", inv.program);
    assert_eq!(vec!["-c".to_owned(), "echo hi".to_owned()], inv.args);
}

#[test]
fn dispatch_sh_and_shell_share_a_program() {
    let exs = Executors::default_executors();
    let sh = exs
        .execute(&body(Some("sh"), "echo a"))
        .expect("sh is registered");
    let shell = exs
        .execute(&body(Some("shell"), "echo a"))
        .expect("shell is registered");
    assert_eq!("sh", sh.program);
    assert_eq!(sh.program, shell.program);
    assert_eq!(sh.args, shell.args);
}

#[test]
fn dispatch_unknown_or_absent_lang_is_a_silent_skip() {
    let exs = Executors::default_executors();
    assert_eq!(None, exs.execute(&body(None, "echo hi")));
    assert_eq!(None, exs.execute(&body(Some("python"), "print(1)")));
    // The lookup is exact: an empty tag resolves to nothing.
    assert_eq!(None, exs.execute(&body(Some(""), "echo hi")));
}
