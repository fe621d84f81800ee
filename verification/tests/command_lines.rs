use perfdiff::command_line::{build_command_line, split_command};

#[test]
fn splits_template_words() {
    let words = split_command(&b"wasmtime run --dir .".to_vec());
    assert_eq!(words.len(), 4);
    assert_eq!(words[0], b"wasmtime".to_vec());
    assert_eq!(words[1], b"run".to_vec());
    assert_eq!(words[2], b"--dir".to_vec());
    assert_eq!(words[3], b".".to_vec());
}

#[test]
fn collapses_blank_runs() {
    let words = split_command(&b"  a \t\t b  \n".to_vec());
    assert_eq!(words.len(), 2);
    assert_eq!(words[0], b"a".to_vec());
    assert_eq!(words[1], b"b".to_vec());
}

#[test]
fn appends_input_file_last() {
    let cl = build_command_line(&b"wasmtime run".to_vec(), &b"x.wat".to_vec()).unwrap();
    assert_eq!(cl.program, b"wasmtime".to_vec());
    assert_eq!(cl.args.len(), 2);
    assert_eq!(cl.args[0], b"run".to_vec());
    assert_eq!(cl.args[1], b"x.wat".to_vec());
}

#[test]
fn bare_program_gets_only_the_file() {
    let cl = build_command_line(&b"wasmtime".to_vec(), &b"y.wat".to_vec()).unwrap();
    assert_eq!(cl.program, b"wasmtime".to_vec());
    assert_eq!(cl.args.len(), 1);
    assert_eq!(cl.args[0], b"y.wat".to_vec());
}

#[test]
fn empty_template_yields_none() {
    assert!(build_command_line(&Vec::new(), &b"x.wat".to_vec()).is_none());
    assert!(build_command_line(&b"   \t ".to_vec(), &b"x.wat".to_vec()).is_none());
}
