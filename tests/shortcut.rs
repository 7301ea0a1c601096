use automata::shortcut::Action;
use automata::shortcut::ActionType;
use automata::shortcut::Command;
use automata::shortcut::Condition;
use automata::shortcut::Handle;
use automata::shortcut::KeyMask;
use automata::shortcut::Provider;
use automata::shortcut::Registry;
use automata::shortcut::RegistryModel;
use automata::shortcut::Rule;
use automata::shortcut::Shortcut;

fn mask(keys: &[u32]) -> KeyMask {
    KeyMask { keys: keys.to_vec() }
}

fn command(name: &str) -> Command {
    Command { name: String::from(name) }
}

fn provider(label: &str, status: &[(&str, bool)], commands: &[&str]) -> Provider {
    Provider {
        label: String::from(label),
        status: status.iter().map(|(n, v)| (String::from(*n), *v)).collect(),
        commands: commands.iter().map(|c| String::from(*c)).collect(),
    }
}

#[test]
fn constructors_keep_their_parts() {
    let press = Action::press(mask(&[1, 2]));
    assert_eq!(press.tp, ActionType::Press);
    assert_eq!(press.key_mask.keys, vec![1, 2]);
    assert_eq!(Action::release(mask(&[3])).tp, ActionType::Release);
    assert_eq!(Action::new(ActionType::Release, mask(&[])).tp, ActionType::Release);
    let rule = Rule::new(String::from("editor"), command("save"));
    assert_eq!(rule.target, "editor");
    assert!(matches!(rule.when, Condition::Always));
    let shortcut = Shortcut::new_when(
        Action::press(mask(&[5])),
        String::from("editor"),
        command("undo"),
        Condition::Simple(String::from("focused")),
    );
    assert_eq!(shortcut.rule.command.name, "undo");
    assert!(matches!(shortcut.rule.when, Condition::Simple(ref s) if s == "focused"));
    let plain = Shortcut::new(Action::press(mask(&[5])), String::from("editor"), command("redo"));
    assert!(matches!(plain.rule.when, Condition::Always));
    let handle = Handle::new(Rule::new_when(String::from("t"), command("c"), Condition::Always));
    assert_eq!(handle.rule.target, "t");
    assert_eq!(Registry::new().model.shortcuts.len(), 0);
}

#[test]
fn key_masks_compare_as_sets() {
    assert!(mask(&[1, 2, 2]).same_keys(&mask(&[2, 1])));
    assert!(!mask(&[1, 2]).same_keys(&mask(&[1])));
    assert!(mask(&[]).same_keys(&mask(&[])));
}

#[test]
fn conditions_read_the_first_matching_status() {
    let status = vec![(String::from("a"), true), (String::from("b"), false), (String::from("a"), false)];
    assert!(RegistryModel::condition_checker(&Condition::Always, &vec![]));
    assert!(RegistryModel::condition_checker(&Condition::Simple(String::from("a")), &status));
    assert!(!RegistryModel::condition_checker(&Condition::Simple(String::from("b")), &status));
    assert!(!RegistryModel::condition_checker(&Condition::Simple(String::from("c")), &status));
}

#[test]
fn actions_fire_matching_rules_in_order() {
    let mut registry = RegistryModel::new();
    registry.add(Shortcut::new(Action::press(mask(&[1, 2])), String::from("editor"), command("save")));
    registry.add(Shortcut::new_when(
        Action::press(mask(&[2, 1])),
        String::from("editor"),
        command("close"),
        Condition::Simple(String::from("focused")),
    ));
    registry.add(Shortcut::new(Action::release(mask(&[1, 2])), String::from("editor"), command("save")));
    registry.add(Shortcut::new(Action::press(mask(&[1, 2])), String::from("graph"), command("save")));
    let providers = vec![
        provider("editor", &[("focused", false)], &["save", "close"]),
        provider("graph", &[], &["zoom"]),
        provider("editor", &[("focused", true)], &["close"]),
    ];
    let fired = registry.process_action(ActionType::Press, &mask(&[2, 1]), &providers);
    assert_eq!(fired, vec![(0, String::from("save")), (2, String::from("close"))]);
    let released = registry.process_action(ActionType::Release, &mask(&[1, 2]), &providers);
    assert_eq!(released, vec![(0, String::from("save"))]);
    assert!(registry.process_action(ActionType::Press, &mask(&[3]), &providers).is_empty());
}
