use idem::ast::{
    IdemParamType, IdemPath, IdemPathLocalPartType, IdemRawCommandType, IdemRawCommandWithPaths,
    IdemResourceType, IdemValueType,
};
use idem::errors::ErrorType;
use idem::parser::{
    parse_param_flag_keyword, parse_param_key_value, parse_path, parse_raw_command_each,
    parse_raw_command_with_block, parse_raw_command_with_paths, parse_raw_script, parse_resource,
    parse_value, parse_value_litstring, parse_value_path_spec,
};

fn dir(s: &str) -> IdemPath {
    IdemPath(None, IdemPathLocalPartType::Directory(s.to_string()))
}

fn file(s: &str) -> IdemPath {
    IdemPath(None, IdemPathLocalPartType::File(s.to_string()))
}

fn with_paths(paths: Vec<IdemPath>, params: Vec<IdemParamType>) -> IdemRawCommandType {
    IdemRawCommandType::WithPaths(IdemRawCommandWithPaths { paths, params })
}

fn kv(k: &str, v: &str) -> IdemParamType {
    IdemParamType::KeyValue(k.to_string(), IdemValueType::LitString(v.to_string()))
}

fn flag(f: &str) -> IdemParamType {
    IdemParamType::FlagKeyword(f.to_string())
}

#[test]
fn test_parse_path1() {
    assert_eq!(parse_path("path/").unwrap().1, dir("path"));
}

#[test]
fn test_parse_path2() {
    assert_eq!(parse_path("path").unwrap().1, file("path"));
}

#[test]
fn test_parse_path3() {
    assert_eq!(parse_path("path/to/path/").unwrap().1, dir("path/to/path"));
}

#[test]
fn test_parse_path4() {
    assert_eq!(parse_path("path/to/path").unwrap().1, file("path/to/path"));
}

#[test]
fn test_parse_value_litstring() {
    assert_eq!(
        parse_value_litstring(r#""value""#).unwrap().1,
        IdemValueType::LitString("value".to_string())
    );
}

#[test]
fn test_parse_value_path_spec1() {
    assert_eq!(
        parse_value_path_spec("./path").unwrap().1,
        IdemValueType::PathSpec(file("./path"))
    );
}

#[test]
fn test_parse_value_path_spec2() {
    assert_eq!(
        parse_value_path_spec("./path/").unwrap().1,
        IdemValueType::PathSpec(dir("./path"))
    );
}

#[test]
fn test_parse_param_key_value() {
    assert_eq!(parse_param_key_value(r#"key="value""#).unwrap().1, kv("key", "value"));
}

#[test]
fn test_parse_param_flag_keyword() {
    assert_eq!(parse_param_flag_keyword("copied").unwrap().1, flag("copied"));
}

#[test]
fn test_parse_raw_command_with_paths1() {
    assert_eq!(
        parse_raw_command_with_paths(r#"./path1 ./path2 (key="value")"#).unwrap().1,
        IdemRawCommandWithPaths {
            paths: vec![file("./path1"), file("./path2")],
            params: vec![kv("key", "value")],
        }
    );
}

#[test]
fn test_parse_raw_command_with_paths2() {
    assert_eq!(
        parse_raw_command_with_paths("./path1/ ./path2/ (copied)").unwrap().1,
        IdemRawCommandWithPaths {
            paths: vec![dir("./path1"), dir("./path2")],
            params: vec![flag("copied")],
        }
    );
}

fn each_dir_body() -> IdemRawCommandType {
    IdemRawCommandType::Each(
        "i".to_string(),
        IdemValueType::PathSpec(dir("./dir")),
        vec![
            Box::new(with_paths(vec![file("./a")], vec![kv("mode", "755")])),
            Box::new(with_paths(vec![file("./b")], vec![kv("mode", "600")])),
        ],
    )
}

#[test]
fn test_parse_raw_command_each() {
    let src = "\neach i in ./dir/\n    ./a (mode=\"755\")\n    ./b (mode=\"600\")\nend\n";
    assert_eq!(parse_raw_command_each(src).unwrap().1, each_dir_body());
}

#[test]
fn test_parse_raw_command_with_block() {
    let src = "\nwith ./dir/\n    ./child/ (exists)\nend\n";
    assert_eq!(
        parse_raw_command_with_block(src).unwrap().1,
        IdemRawCommandType::WithBlock(
            IdemResourceType::Directory("./dir".to_string()),
            None,
            vec![Box::new(with_paths(vec![dir("./child")], vec![flag("exists")]))],
        )
    );
}

#[test]
fn test_parse_raw_script1() {
    let src = "\neach i in ./dir/\n    ./a (mode=\"755\")\n    ./b (mode=\"600\")\nend\n./x/ ./y/ (copied)\n";
    assert_eq!(
        parse_raw_script(src).unwrap().1,
        vec![
            each_dir_body(),
            with_paths(vec![dir("./x"), dir("./y")], vec![flag("copied")]),
        ]
    );
}

#[test]
fn path_classification_strips_every_trailing_separator() {
    assert_eq!(parse_path("dir//").unwrap(), (5, dir("dir")));
    assert_eq!(parse_path("a\\b\\").unwrap(), (4, dir("a\\b")));
    assert_eq!(parse_path("  ./f.txt rest").unwrap(), (9, file("./f.txt")));
}

#[test]
fn path_needs_a_path_character() {
    assert_eq!(parse_path("  (x)").unwrap_err().repr, ErrorType::Parse(2));
    assert_eq!(parse_path("").unwrap_err().repr, ErrorType::Parse(0));
}

#[test]
fn resource_keeps_directory_and_file_apart() {
    assert_eq!(
        parse_resource("./d/").unwrap().1,
        IdemResourceType::Directory("./d".to_string())
    );
    assert_eq!(parse_resource("./f").unwrap().1, IdemResourceType::File("./f".to_string()));
}

#[test]
fn literal_is_tried_before_path() {
    assert_eq!(
        parse_value(" \"./p\"").unwrap(),
        (6, IdemValueType::LitString("./p".to_string()))
    );
    assert_eq!(parse_value(" ./p").unwrap(), (4, IdemValueType::PathSpec(file("./p"))));
}

#[test]
fn unterminated_literal_is_a_parse_error() {
    assert_eq!(parse_value_litstring("\"abc").unwrap_err().repr, ErrorType::Parse(4));
}

#[test]
fn unknown_flag_is_a_parse_error() {
    assert!(matches!(parse_param_flag_keyword("moved").unwrap_err().repr, ErrorType::Parse(_)));
    assert!(matches!(parse_param_flag_keyword("existsx").unwrap_err().repr, ErrorType::Parse(_)));
}

#[test]
fn empty_parameter_list_parses() {
    assert_eq!(
        parse_raw_command_with_paths("./a ( )").unwrap().1,
        IdemRawCommandWithPaths { paths: vec![file("./a")], params: vec![] }
    );
}

#[test]
fn malformed_parameter_list_is_a_parse_error() {
    assert!(matches!(
        parse_raw_command_with_paths("./a (exists,)").unwrap_err().repr,
        ErrorType::Parse(_)
    ));
    assert!(matches!(
        parse_raw_command_with_paths("./a (exists").unwrap_err().repr,
        ErrorType::Parse(_)
    ));
}

#[test]
fn scenario_two_files_with_key_value() {
    let script = parse_raw_script("./path1 ./path2 (key=\"value\")").unwrap().1;
    assert_eq!(script, vec![with_paths(vec![file("./path1"), file("./path2")], vec![kv("key", "value")])]);
}

#[test]
fn scenario_each_without_end_is_a_parse_error() {
    let r = parse_raw_script("each i in ./dir/\n    ./a (exists)\n");
    assert_eq!(r.unwrap_err().repr, ErrorType::Parse(34));
    let r = parse_raw_command_each("each i in ./dir/\n    ./a (exists)\n");
    assert_eq!(r.unwrap_err().repr, ErrorType::Parse(34));
}

#[test]
fn scenario_two_directories_copied() {
    let script = parse_raw_script("./x/ ./y/ (copied)").unwrap().1;
    assert_eq!(script, vec![with_paths(vec![dir("./x"), dir("./y")], vec![flag("copied")])]);
}

#[test]
fn nested_blocks_close_at_their_own_end() {
    let src = "with ./a/ as top\n  each i in \"x\"\n    ./b/ (exists)\n  end\n  ./c (exists)\nend\n./d (exists)\n";
    let script = parse_raw_script(src).unwrap().1;
    assert_eq!(
        script,
        vec![
            IdemRawCommandType::WithBlock(
                IdemResourceType::Directory("./a".to_string()),
                Some("top".to_string()),
                vec![
                    Box::new(IdemRawCommandType::Each(
                        "i".to_string(),
                        IdemValueType::LitString("x".to_string()),
                        vec![Box::new(with_paths(vec![dir("./b")], vec![flag("exists")]))],
                    )),
                    Box::new(with_paths(vec![file("./c")], vec![flag("exists")])),
                ],
            ),
            with_paths(vec![file("./d")], vec![flag("exists")]),
        ]
    );
}

#[test]
fn stray_end_is_a_parse_error() {
    assert_eq!(parse_raw_script("./a (exists)\nend\n").unwrap_err().repr, ErrorType::Parse(13));
}

#[test]
fn empty_script_has_no_commands() {
    assert_eq!(parse_raw_script("  \n").unwrap(), (3, vec![]));
}
