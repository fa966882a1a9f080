use iforgor::keyset::KeySet;
use iforgor::registry::{
    filter_only_in_dir, register_scripts, Command, CommandMap, CommandsSource, History, Platform,
    Shell, UserCommand,
};

fn cmd(name: &str, script: &str) -> UserCommand {
    UserCommand {
        name: name.to_string(),
        script: script.to_string(),
        args: Vec::new(),
        only_on: None,
        shell: Shell::Sh,
        only_in_dir: None,
        risky: false,
    }
}

#[test]
fn generate_id_is_the_sha3_hex_of_the_script() {
    let c = cmd("hello", "echo hello");
    assert_eq!(
        c.generate_id(),
        "ec3cbeb365768f79a38c0354cfa89115e76fa7a52b3efbab4bf33f8faa4ba9b2"
    );
    let empty = cmd("empty", "");
    assert_eq!(
        empty.generate_id(),
        "a7ffc6f8bf1ed76651c14756a061d662f580ff4de43b49fa82d80a4b80f8434a"
    );
}

#[test]
fn generate_id_depends_only_on_the_script() {
    let c1 = cmd("one name", "echo hello");
    let c2 = cmd("another name", "echo hello");
    assert_eq!(c1.generate_id(), c2.generate_id());
    let c3 = cmd("one name", "echo other");
    assert_ne!(c1.generate_id(), c3.generate_id());
}

#[test]
fn history_add_entry_dedupes_and_appends() {
    let mut h = History { history: vec!["x".to_string(), "y".to_string(), "x".to_string()] };
    h.add_entry(&"x".to_string());
    assert_eq!(h.history, vec!["y".to_string(), "x".to_string()]);
    h.add_entry(&"z".to_string());
    assert_eq!(h.history, vec!["y".to_string(), "x".to_string(), "z".to_string()]);
}

#[test]
fn command_map_orders_keys_and_replaces() {
    let mut m: CommandMap<u32> = CommandMap::new();
    m.insert("beta".to_string(), 2);
    m.insert("alpha".to_string(), 1);
    m.insert("gamma".to_string(), 3);
    assert_eq!(m.len(), 3);
    assert_eq!(m.key_at(0).as_str(), "alpha");
    assert_eq!(m.key_at(1).as_str(), "beta");
    assert_eq!(m.key_at(2).as_str(), "gamma");
    assert_eq!(m.get(&"beta".to_string()), Some(&2));
    assert_eq!(m.get(&"delta".to_string()), None);
    m.insert("beta".to_string(), 20);
    assert_eq!(m.len(), 3);
    assert_eq!(m.get(&"beta".to_string()), Some(&20));
}

#[test]
fn register_scripts_skips_other_platforms() {
    let mut everywhere = cmd("everywhere", "echo a");
    everywhere.only_on = None;
    let mut linux_only = cmd("linux only", "echo b");
    linux_only.only_on = Some(Platform::Linux);
    let mut windows_only = cmd("windows only", "echo c");
    windows_only.only_on = Some(Platform::Windows);
    let ids = [
        everywhere.generate_id(),
        linux_only.generate_id(),
        windows_only.generate_id(),
    ];
    let source = CommandsSource { entries: vec![everywhere, linux_only, windows_only] };
    let mut m: CommandMap<UserCommand> = CommandMap::new();
    register_scripts(&mut m, source, Platform::Linux);
    assert_eq!(m.len(), 2);
    assert!(m.get(&ids[0]).is_some());
    assert!(m.get(&ids[1]).is_some());
    assert!(m.get(&ids[2]).is_none());
}

#[test]
fn register_scripts_later_script_wins_on_same_id() {
    let first = cmd("first name", "echo same");
    let second = cmd("second name", "echo same");
    let id = first.generate_id();
    let source = CommandsSource { entries: vec![first, second] };
    let mut m: CommandMap<UserCommand> = CommandMap::new();
    register_scripts(&mut m, source, Platform::Linux);
    assert_eq!(m.len(), 1);
    assert_eq!(m.get(&id).unwrap().name, "second name");
}

#[test]
fn filter_only_in_dir_honours_the_pattern() {
    let anywhere = cmd("anywhere", "echo");
    assert_eq!(filter_only_in_dir("/tmp", &anywhere), Some(true));
    let mut here = cmd("here", "echo");
    here.only_in_dir = Some("/home/*".to_string());
    assert_eq!(filter_only_in_dir("/home/someone", &here), Some(true));
    assert_eq!(filter_only_in_dir("/tmp/elsewhere", &here), Some(false));
    let mut broken = cmd("broken", "echo");
    broken.only_in_dir = Some("[".to_string());
    assert_eq!(filter_only_in_dir("/home/someone", &broken), None);
}

#[test]
fn command_name_reads_the_inner_name() {
    let c = Command::UserCommand(cmd("shown name", "echo"));
    assert_eq!(c.name(), "shown name");
}

#[test]
fn key_set_is_sorted_and_duplicate_free() {
    let mut s = KeySet::new();
    assert!(s.is_empty());
    s.insert("mango".to_string());
    s.insert("apple".to_string());
    s.insert("zebra".to_string());
    s.insert("apple".to_string());
    assert_eq!(s.len(), 3);
    assert!(s.contains(&"mango".to_string()));
    assert!(!s.contains(&"pear".to_string()));
    s.remove(&"mango".to_string());
    assert!(!s.contains(&"mango".to_string()));
    assert_eq!(
        s.into_keys(),
        vec!["apple".to_string(), "zebra".to_string()]
    );
}

#[test]
fn shell_defaults_to_sh() {
    assert_eq!(Shell::default(), Shell::Sh);
}
