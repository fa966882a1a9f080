use iforgor::cli::{commands_to_entries, history_to_entries};
use iforgor::interrupt::{interrupt_kills, Mode};
use iforgor::ondisk::OnDisk;
use iforgor::registry::{CommandMap, History, Shell, UserCommand};

fn cmd(name: &str) -> UserCommand {
    UserCommand {
        name: name.to_string(),
        script: format!("echo {name}"),
        args: Vec::new(),
        only_on: None,
        shell: Shell::Sh,
        only_in_dir: None,
        risky: false,
    }
}

fn sample_map() -> CommandMap<UserCommand> {
    let mut m = CommandMap::new();
    m.insert("id-b".to_string(), cmd("Bravo"));
    m.insert("id-a".to_string(), cmd("Alpha"));
    m
}

#[test]
fn commands_to_entries_lists_ascending_by_id() {
    let m = sample_map();
    let entries = commands_to_entries(&m, "/tmp").unwrap();
    let pairs: Vec<(String, String)> =
        entries.iter().map(|e| (e.key.clone(), e.name.clone())).collect();
    assert_eq!(
        pairs,
        vec![
            ("id-a".to_string(), "Alpha".to_string()),
            ("id-b".to_string(), "Bravo".to_string()),
        ]
    );
}

#[test]
fn commands_to_entries_drops_commands_for_other_directories() {
    let mut m = sample_map();
    let mut homebound = cmd("Homebound");
    homebound.only_in_dir = Some("/home/*".to_string());
    m.insert("id-c".to_string(), homebound);
    let entries = commands_to_entries(&m, "/tmp").unwrap();
    assert_eq!(entries.len(), 2);
    let entries = commands_to_entries(&m, "/home/someone").unwrap();
    assert_eq!(entries.len(), 3);
}

#[test]
fn commands_to_entries_refuses_a_broken_pattern() {
    let mut m = sample_map();
    let mut broken = cmd("Broken");
    broken.only_in_dir = Some("[".to_string());
    m.insert("id-c".to_string(), broken);
    assert!(commands_to_entries(&m, "/tmp").is_none());
}

#[test]
fn history_to_entries_resolves_and_reverses() {
    let m = sample_map();
    let history = vec!["id-a".to_string(), "ghost".to_string(), "id-b".to_string()];
    let entries = history_to_entries(&history, &m, "/tmp").unwrap();
    let names: Vec<String> = entries.iter().map(|e| e.name.clone()).collect();
    // most recent first; the unknown id is dropped
    assert_eq!(names, vec!["Bravo".to_string(), "Alpha".to_string()]);
}

#[test]
fn on_disk_default_keeps_the_path() {
    let d: OnDisk<History> = OnDisk::new_from_default("some/where.toml".to_string());
    assert_eq!(d.path, "some/where.toml");
    let inner = d.into_inner();
    assert!(inner.history.is_empty());
}

#[test]
fn interrupt_policy_decides_killing() {
    assert!(interrupt_kills(Mode::Kill));
    assert!(!interrupt_kills(Mode::Ignore));
}
