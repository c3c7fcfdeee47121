use idem::ast::{
    IdemParamType, IdemPath, IdemPathLocalPartType, IdemRawCommandType, IdemRawCommandWithPaths,
    IdemResourceType,
};
use idem::errors::ErrorType;
use idem::handle_exec::HandleExec;
use idem::memory_exec::MemoryExec;
use idem::parser::parse_raw_script;
use idem::traits::{Exec, FileContents};

fn run(cwd: &str, src: &str) -> (HandleExec<MemoryExec>, Vec<Result<(), ErrorType>>) {
    let script = parse_raw_script(src).unwrap().1;
    let mut h = HandleExec::new(MemoryExec::new(cwd));
    let mut results = Vec::new();
    for cmd in script.iter() {
        results.push(h.execute_raw_script_command(cmd).map_err(|e| e.repr));
    }
    (h, results)
}

#[test]
fn test_file_exists() {
    let script = parse_raw_script("\n./afile (exists)\n").unwrap().1;
    assert_eq!(
        script,
        vec![IdemRawCommandType::WithPaths(IdemRawCommandWithPaths {
            paths: vec![IdemPath(None, IdemPathLocalPartType::File("./afile".to_string()))],
            params: vec![IdemParamType::FlagKeyword("exists".to_string())],
        })]
    );
    let (h, results) = run("./testing", "\n./afile (exists)\n");
    assert_eq!(results, vec![Ok(())]);
    assert_eq!(*h.driver().created_files(), vec!["testing/afile"]);
}

#[test]
fn handle_exec_test_directory_exists() {
    let script = parse_raw_script("\n./adir/ (exists)\n").unwrap().1;
    assert_eq!(
        script,
        vec![IdemRawCommandType::WithPaths(IdemRawCommandWithPaths {
            paths: vec![IdemPath(None, IdemPathLocalPartType::Directory("./adir".to_string()))],
            params: vec![IdemParamType::FlagKeyword("exists".to_string())],
        })]
    );
    let (h, results) = run("./testing", "\n./adir/ (exists)\n");
    assert_eq!(results, vec![Ok(())]);
    assert_eq!(*h.driver().created_dirs(), vec!["testing/adir"]);
}

#[test]
fn scenario_single_file_only() {
    let (h, _) = run("./testing", "./afile (exists)");
    assert_eq!(*h.driver().created_files(), vec!["testing/afile"]);
    assert!(h.driver().created_dirs().is_empty());
}

#[test]
fn scenario_single_directory_only() {
    let (h, _) = run("./testing", "./adir/ (exists)");
    assert_eq!(*h.driver().created_dirs(), vec!["testing/adir"]);
    assert!(h.driver().created_files().is_empty());
}

#[test]
fn exists_applies_to_every_path() {
    let (h, results) = run("./t", "./a/ ./b ./c/ (exists)");
    assert_eq!(results, vec![Ok(())]);
    assert_eq!(*h.driver().created_dirs(), vec!["t/a", "t/c"]);
    assert_eq!(*h.driver().created_files(), vec!["t/b"]);
}

#[test]
fn scenario_copied_is_unsupported() {
    let (h, results) = run("./t", "./x/ ./y/ (copied)");
    assert!(matches!(results[0], Err(ErrorType::Unsupported(_))));
    assert!(h.driver().created_dirs().is_empty());
}

#[test]
fn key_value_only_is_unsupported() {
    let (_, results) = run("./t", "./x (mode=\"755\")");
    assert!(matches!(results[0], Err(ErrorType::Unsupported(_))));
}

#[test]
fn blocks_resolve_paths_and_restore_scope() {
    let src = "with ./a/ as top\n  each i in \"x\"\n    ./b/ (exists)\n  end\n  ./c (exists)\nend\n./d (exists)\n";
    let (h, results) = run("./t", src);
    assert_eq!(results, vec![Ok(()), Ok(())]);
    assert_eq!(*h.driver().created_dirs(), vec!["t/a/b"]);
    assert_eq!(*h.driver().created_files(), vec!["t/a/c", "t/d"]);
    assert_eq!(h.base_path(), "./");
    assert!(h.alias_names().is_empty());
}

#[test]
fn scope_is_restored_after_a_failure() {
    let src = "with ./a/ as outer\n  with ./b/ as inner\n    ./c/ (exists)\n    ./z (copied)\n    ./never/ (exists)\n  end\nend\n";
    let (h, results) = run("./t", src);
    assert!(matches!(results[0], Err(ErrorType::Unsupported(_))));
    assert_eq!(*h.driver().created_dirs(), vec!["t/a/b/c"]);
    assert_eq!(h.base_path(), "./");
    assert!(h.alias_names().is_empty());
}

#[test]
fn each_over_a_directory_is_unsupported() {
    let (h, results) = run("./t", "each i in ./dir/\n  ./a (exists)\nend\n");
    assert!(matches!(results[0], Err(ErrorType::Unsupported(_))));
    assert!(h.driver().created_files().is_empty());
}

#[test]
fn host_block_is_unsupported() {
    let mut h = HandleExec::new(MemoryExec::new("./t"));
    let cmd = IdemRawCommandType::WithBlock(IdemResourceType::Host("example".to_string()), None, vec![]);
    let r = h.execute_raw_script_command(&cmd);
    assert!(matches!(r.unwrap_err().repr, ErrorType::Unsupported(_)));
}

#[test]
fn backend_failure_stops_the_command() {
    let (h, results) = run("./t", "./x (exists)\n./x/ ./y/ (exists)\n");
    assert_eq!(results[0], Ok(()));
    assert_eq!(results[1], Err(ErrorType::Backend("a file is in the way".to_string())));
    assert!(h.driver().created_dirs().is_empty());
    assert_eq!(*h.driver().created_files(), vec!["t/x"]);
}

#[test]
fn backend_failure_inside_each_is_returned_as_given() {
    let src = "./x (exists)\neach i in \"v\"\n  ./x/ (exists)\n  ./y (exists)\nend\n./z (exists)\n";
    let script = parse_raw_script(src).unwrap().1;
    let mut h = HandleExec::new(MemoryExec::new("./t"));
    let r = h.execute_raw_script(&script);
    assert_eq!(r.unwrap_err().repr, ErrorType::Backend("a file is in the way".to_string()));
    assert_eq!(*h.driver().created_files(), vec!["t/x"]);
    assert!(h.driver().created_dirs().is_empty());
}

#[test]
fn ensure_directory_twice_is_idempotent() {
    let mut m = MemoryExec::new("./t");
    assert!(m.ensure_directory("./d").is_ok());
    let first = m.created_dirs().clone();
    assert!(m.ensure_directory("./d").is_ok());
    assert_eq!(*m.created_dirs(), first);
    assert_eq!(first, vec!["t/d"]);
}

#[test]
fn ensure_file_exists_twice_keeps_contents() {
    let mut m = MemoryExec::new("./t");
    assert!(m.ensure_file_contents("./f", FileContents::StaticString("hi".to_string())).is_ok());
    assert!(m.ensure_file_exists("./f").is_ok());
    assert!(m.ensure_file_exists("./f").is_ok());
    assert_eq!(*m.created_files(), vec!["t/f"]);
    assert_eq!(m.file_contents("t/f"), Some("hi".to_string()));
}

#[test]
fn new_file_is_empty() {
    let mut m = MemoryExec::new("t/");
    assert!(m.ensure_file_exists("/f").is_ok());
    assert_eq!(m.file_contents("t/f"), Some(String::new()));
    assert_eq!(m.file_contents("t/g"), None);
}

#[test]
fn ensure_file_contents_is_idempotent_and_overwrites() {
    let mut m = MemoryExec::new("./t");
    let c = |s: &str| FileContents::StaticString(s.to_string());
    assert!(m.ensure_file_contents("./f", c("one")).is_ok());
    assert!(m.ensure_file_contents("./f", c("one")).is_ok());
    assert_eq!(*m.created_files(), vec!["t/f"]);
    assert_eq!(m.file_contents("t/f"), Some("one".to_string()));
    assert!(m.ensure_file_contents("./f", c("two")).is_ok());
    assert_eq!(m.file_contents("t/f"), Some("two".to_string()));
    assert_eq!(*m.created_files(), vec!["t/f"]);
}

#[test]
fn directory_and_file_collide() {
    let mut m = MemoryExec::new("./t");
    assert!(m.ensure_directory("./p").is_ok());
    assert!(matches!(m.ensure_file_exists("./p").unwrap_err().repr, ErrorType::Backend(_)));
    let c = FileContents::StaticString("x".to_string());
    assert!(matches!(m.ensure_file_contents("./p", c).unwrap_err().repr, ErrorType::Backend(_)));
}

#[test]
fn cwd_is_reported_and_kept() {
    let mut m = MemoryExec::new("./t");
    assert!(m.change_directory("./elsewhere").is_ok());
    assert_eq!(m.get_cwd().unwrap(), "./t");
}

#[test]
fn paths_are_joined_without_dot_segments() {
    let mut m = MemoryExec::new("././t//");
    assert!(m.ensure_directory("//./a/./b").is_ok());
    assert_eq!(*m.created_dirs(), vec!["t/a/b"]);
}

#[test]
fn script_runs_in_order_and_stops_at_first_error() {
    let script = parse_raw_script("./a/ (exists)\n./b (copied)\n./c (exists)\n").unwrap().1;
    let mut h = HandleExec::new(MemoryExec::new("./t"));
    let r = h.execute_raw_script(&script);
    assert!(matches!(r.unwrap_err().repr, ErrorType::Unsupported(_)));
    assert_eq!(*h.driver().created_dirs(), vec!["t/a"]);
    assert!(h.driver().created_files().is_empty());
}

#[test]
fn script_applies_every_command() {
    let script = parse_raw_script("./a/ (exists)\nwith ./a/\n  ./f (exists)\nend\n").unwrap().1;
    let mut h = HandleExec::new(MemoryExec::new("./t"));
    assert!(h.execute_raw_script(&script).is_ok());
    let m = h.into_driver();
    assert_eq!(*m.created_dirs(), vec!["t/a"]);
    assert_eq!(*m.created_files(), vec!["t/a/f"]);
}
