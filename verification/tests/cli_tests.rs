use brainfuck_interpreter::cli::source_file_extension;

#[test]
fn bin_source_file_extension_valid() {
    let result = source_file_extension("test.bf");
    assert!(
        result.is_ok(),
        "source file extension failed, value was {:?}",
        result
    );
}

#[test]
fn bin_source_file_extension_invalid() {
    let result = source_file_extension("test.txt");
    assert!(
        result.is_err(),
        "source file extension failed, value was {:?}",
        result
    );
}

#[test]
fn main_source_file_extension_valid() {
    let result = source_file_extension("test.bf");
    assert!(
        result.is_ok(),
        "source file extension failed, value was {:?}",
        result
    );
}

#[test]
fn main_source_file_extension_invalid() {
    let result = source_file_extension("test.txt");
    assert!(
        result.is_err(),
        "source file extension failed, value was {:?}",
        result
    );
}

#[test]
fn source_file_extension_keeps_path() {
    let result = source_file_extension("dir/test.bf");
    assert_eq!(result, Ok(String::from("dir/test.bf")));
}

#[test]
fn source_file_extension_rejects_bare_extension() {
    assert!(source_file_extension(".bf").is_err());
    assert!(source_file_extension("dir/.bf").is_err());
    assert_eq!(
        source_file_extension("x.txt"),
        Err(String::from("source file extension is not valid"))
    );
}
