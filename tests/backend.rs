use reader::split_command;

#[test]
fn backend_command_line_is_split_shell_style() {
    let (program, args) = split_command("python3 '/tmp/mock piper.py' --x").unwrap();
    assert_eq!(program, "python3");
    assert_eq!(args, vec!["/tmp/mock piper.py".to_string(), "--x".to_string()]);
}

#[test]
fn empty_command_line_has_no_program() {
    assert_eq!(split_command("   "), None);
    assert_eq!(split_command(""), None);
}
