use efistub_update::template::build;
use efistub_update::version::ParseError;

#[test]
fn simple_substitution() {
    let ps = build("echo %v", "5.10.0").unwrap();
    assert_eq!(ps.program, "echo");
    assert_eq!(ps.args, vec![String::from("5.10.0")]);
}

#[test]
fn quoted_block_stays_one_argument() {
    let ps = build("echo 'kernel %v here' --flag", "5.10.0").unwrap();
    assert_eq!(ps.program, "echo");
    assert_eq!(
        ps.args,
        vec![String::from("kernel 5.10.0 here"), String::from("--flag")]
    );
}

#[test]
fn several_placeholders_in_one_token() {
    let ps = build("run a%v%vb", "X").unwrap();
    assert_eq!(ps.args, vec![String::from("aXXb")]);
}

#[test]
fn placeholder_in_the_program_name() {
    let ps = build("%v --help", "prog").unwrap();
    assert_eq!(ps.program, "prog");
    assert_eq!(ps.args, vec![String::from("--help")]);
}

#[test]
fn empty_template_is_refused() {
    assert_eq!(build("", "5.10.0").unwrap_err(), ParseError::EmptyCommand);
}

#[test]
fn whitespace_only_template_is_refused() {
    assert_eq!(build("  \t ", "5.10.0").unwrap_err(), ParseError::EmptyCommand);
}

#[test]
fn dangling_quote_keeps_the_tail_literal() {
    let ps = build("echo 'a b", "v").unwrap();
    assert_eq!(ps.program, "echo");
    assert_eq!(ps.args, vec![String::from("a b")]);
}

#[test]
fn trailing_quote_yields_an_empty_argument() {
    let ps = build("echo abc'", "v").unwrap();
    assert_eq!(ps.program, "echo");
    assert_eq!(ps.args, vec![String::from("abc"), String::new()]);
}

#[test]
fn empty_quoted_block_is_an_empty_argument() {
    let ps = build("run ''", "v").unwrap();
    assert_eq!(ps.program, "run");
    assert_eq!(ps.args, vec![String::new()]);
}

#[test]
fn words_after_a_quoted_block_are_split_again() {
    let ps = build("a'b c'd e", "v").unwrap();
    assert_eq!(ps.program, "a");
    assert_eq!(
        ps.args,
        vec![String::from("b c"), String::from("d"), String::from("e")]
    );
}

#[test]
fn realistic_boot_entry_command() {
    let ps = build(
        "efibootmgr -c -d /dev/sda -p 1 -L 'Linux %v' -l vmlinuz-%v",
        "5.10.1",
    )
    .unwrap();
    assert_eq!(ps.program, "efibootmgr");
    assert_eq!(
        ps.args,
        vec![
            String::from("-c"),
            String::from("-d"),
            String::from("/dev/sda"),
            String::from("-p"),
            String::from("1"),
            String::from("-L"),
            String::from("Linux 5.10.1"),
            String::from("-l"),
            String::from("vmlinuz-5.10.1"),
        ]
    );
}
