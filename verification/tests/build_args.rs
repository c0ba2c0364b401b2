use foundry::build_args::{stack_remappings, BuildArgs, CompilerArgs, Remapping, Value};

fn remapping(name: &str, path: &str) -> Remapping {
    Remapping { name: name.to_string(), path: path.to_string() }
}

fn pairs(remappings: &[Remapping]) -> Vec<(&str, &str)> {
    remappings.iter().map(|r| (r.name.as_str(), r.path.as_str())).collect()
}

fn args() -> BuildArgs {
    BuildArgs {
        root: None,
        contracts: None,
        remappings: vec![],
        cache_path: None,
        lib_paths: vec![],
        out_path: None,
        compiler: CompilerArgs { optimize: false, extra_output: None, extra_output_files: None },
        names: false,
        sizes: false,
        ignored_error_codes: vec![],
        no_auto_detect: false,
        use_solc: None,
        offline: false,
        force: false,
        hardhat: false,
        libraries: vec![],
        watch: None,
        via_ir: false,
        config_path: None,
    }
}

fn strings(items: &[&str]) -> Vec<String> {
    items.iter().map(|item| item.to_string()).collect()
}

fn show(value: &Value) -> String {
    match value {
        Value::Text(text) => format!("text {}", text),
        Value::Flag(flag) => format!("flag {}", flag),
        Value::List(list) => format!("list {}", list.join(",")),
        Value::Codes(codes) => format!("codes {:?}", codes),
    }
}

fn shown(args: &BuildArgs) -> Vec<(String, String)> {
    args.data().iter().map(|(name, value)| (name.clone(), show(value))).collect()
}

fn setting(name: &str, value: &str) -> (String, String) {
    (name.to_string(), value.to_string())
}

#[test]
fn remappings_stack() {
    let stacked = stack_remappings(
        &[remapping("z/", "args-z"), remapping("a/", "args-a"), remapping("z/", "args-z2")],
        &[remapping("m/", "conf-m"), remapping("a/", "conf-a")],
    );
    assert_eq!(pairs(&stacked), vec![("a/", "args-a"), ("m/", "conf-m"), ("z/", "args-z")]);
}

#[test]
fn remappings_are_ordered_by_their_bytes() {
    let stacked = stack_remappings(
        &[],
        &[remapping("é", "4"), remapping("b", "3"), remapping("aa", "2"), remapping("a", "1")],
    );
    assert_eq!(pairs(&stacked), vec![("a", "1"), ("aa", "2"), ("b", "3"), ("é", "4")]);
}

#[test]
fn no_remappings_stack_to_none() {
    assert!(stack_remappings(&[], &[]).is_empty());
}

#[test]
fn remappings_agree_with_sort_and_dedup() {
    let names = ["ds", "oz", "ds-test", "oz", "forge", "ds", "a", "forge"];
    for split in 0..=names.len() {
        let numbered: Vec<(String, String)> = names
            .iter()
            .enumerate()
            .map(|(i, name)| (name.to_string(), i.to_string()))
            .collect();
        let all: Vec<Remapping> = numbered.iter().map(|(n, p)| remapping(n, p)).collect();
        let stacked = stack_remappings(&all[..split], &all[split..]);
        let mut expected = numbered.clone();
        expected.sort_by(|a, b| a.0.cmp(&b.0));
        expected.dedup_by(|a, b| a.0.eq(&b.0));
        let found: Vec<(String, String)> =
            stacked.into_iter().map(|r| (r.name, r.path)).collect();
        assert_eq!(found, expected);
    }
}

#[test]
fn remappings_of_the_environment_follow() {
    let mut args = args();
    args.remappings = vec![remapping("b", "1"), remapping("a", "2")];
    assert_eq!(pairs(&args.get_remappings(None)), vec![("b", "1"), ("a", "2")]);
    let env = Some(vec![remapping("c", "3")]);
    assert_eq!(pairs(&args.get_remappings(env)), vec![("b", "1"), ("a", "2"), ("c", "3")]);
}

#[test]
fn config_path_names_a_foundry_toml() {
    assert!(BuildArgs::is_config_file(&strings(&["foundry.toml"])));
    assert!(BuildArgs::is_config_file(&strings(&["/", "project", "foundry.toml"])));
    assert!(!BuildArgs::is_config_file(&strings(&["foundry.toml", "project"])));
    assert!(!BuildArgs::is_config_file(&strings(&["my-foundry.toml"])));
    assert!(!BuildArgs::is_config_file(&strings(&["foundry"])));
    assert!(!BuildArgs::is_config_file(&[]));
}

#[test]
fn plain_arguments_override_nothing() {
    assert!(shown(&args()).is_empty());
}

#[test]
fn every_argument_overrides_its_setting() {
    let mut args = args();
    args.contracts = Some("sources".to_string());
    args.cache_path = Some("cache".to_string());
    args.lib_paths = strings(&["lib", "deps"]);
    args.out_path = Some("out".to_string());
    args.libraries = strings(&["src/Math.sol:Math:0x01"]);
    args.ignored_error_codes = vec![1878, 2018];
    args.no_auto_detect = true;
    args.use_solc = Some("solc:0.8.13".to_string());
    args.offline = true;
    args.via_ir = true;
    args.names = true;
    args.sizes = true;
    args.force = true;
    args.compiler.optimize = true;
    args.compiler.extra_output = Some(strings(&["metadata", "ir"]));
    args.compiler.extra_output_files = Some(strings(&[]));
    assert_eq!(
        shown(&args),
        vec![
            setting("src", "text sources"),
            setting("cache_path", "text cache"),
            setting("libs", "list lib,deps"),
            setting("out", "text out"),
            setting("libraries", "list src/Math.sol:Math:0x01"),
            setting("auto_detect_solc", "flag false"),
            setting("solc", "text 0.8.13"),
            setting("offline", "flag true"),
            setting("via_ir", "flag true"),
            setting("names", "flag true"),
            setting("sizes", "flag true"),
            setting("force", "flag true"),
            setting("ignored_error_codes", "codes [1878, 2018]"),
            setting("optimizer", "flag true"),
            setting("extra_output", "list metadata,ir"),
            setting("extra_output_files", "list "),
        ]
    );
}

#[test]
fn no_setting_is_overridden_twice() {
    let mut args = args();
    args.hardhat = true;
    args.names = true;
    args.sizes = true;
    args.force = true;
    let mut names: Vec<String> = args.data().into_iter().map(|(name, _)| name).collect();
    names.sort();
    names.dedup();
    assert_eq!(names, strings(&["force", "libs", "names", "sizes", "src"]));
}

#[test]
fn hardhat_is_a_shorthand() {
    let mut hardhat = args();
    hardhat.hardhat = true;
    hardhat.lib_paths = strings(&["lib"]);
    let mut plain = args();
    plain.contracts = Some("contracts".to_string());
    plain.lib_paths = strings(&["lib", "node_modules"]);
    assert_eq!(shown(&hardhat), shown(&plain));
    assert_eq!(
        shown(&hardhat),
        vec![setting("src", "text contracts"), setting("libs", "list lib,node_modules")]
    );
}

#[test]
fn solc_prefix_is_taken_off() {
    let solc = |value: &str| {
        let mut args = args();
        args.use_solc = Some(value.to_string());
        shown(&args)
    };
    assert_eq!(solc("0.8.1"), vec![setting("solc", "text 0.8.1")]);
    assert_eq!(solc("solc:0.8.1"), vec![setting("solc", "text 0.8.1")]);
    assert_eq!(solc("solc:solc:0.8.1"), vec![setting("solc", "text 0.8.1")]);
    assert_eq!(solc("path/to/solc"), vec![setting("solc", "text path/to/solc")]);
    assert_eq!(solc("solc"), vec![setting("solc", "text solc")]);
    assert_eq!(solc("solc:"), vec![setting("solc", "text ")]);
    assert_eq!(solc("/µ/solc:x"), vec![setting("solc", "text /µ/solc:x")]);
}

#[test]
fn root_argument_wins() {
    let mut args = args();
    assert_eq!(args.project_root("found".to_string()), "found");
    args.root = Some("given".to_string());
    assert_eq!(args.project_root("found".to_string()), "given");
}

#[test]
fn config_path_moves_the_root_to_the_project() {
    let mut args = args();
    let root = |args: &BuildArgs| args.config_root("parent".to_string(), "found".to_string());
    assert_eq!(root(&args), "parent");
    args.config_path = Some("conf/foundry.toml".to_string());
    assert_eq!(root(&args), "found");
    args.root = Some("given".to_string());
    assert_eq!(root(&args), "given");
    args.config_path = None;
    assert_eq!(root(&args), "parent");
}

#[test]
fn watch_is_noticed() {
    let mut args = args();
    assert!(!args.is_watch());
    args.watch = Some(vec![]);
    assert!(args.is_watch());
}
