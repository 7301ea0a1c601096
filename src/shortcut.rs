//! Keyboard shortcuts: rules that map a key action to a command on a target, guarded by
//! a condition, and the registry that decides which commands an action fires.

use std::rc::Rc;

use vstd::prelude::*;

verus! {

/// Whether keys went down or up.
#[derive(Clone, Copy, Debug, PartialEq, Eq, Structural)]
pub enum ActionType {
    Press,
    Release,
}

/// A set of keys, by key code.
#[derive(Clone, Debug)]
pub struct KeyMask {
    pub keys: Vec<u32>,
}

impl KeyMask {
    /// The keys held in the mask.
    pub open spec fn key_set(&self) -> Set<u32> {
        self.keys@.to_set()
    }

    /// Whether the two masks hold the same keys, whatever their order.
    pub fn same_keys(&self, other: &KeyMask) -> (r: bool)
        ensures
            r == (self.key_set() == other.key_set()),
    {
        let a = contains_all(&self.keys, &other.keys);
        let b = contains_all(&other.keys, &self.keys);
        proof {
            if a && b {
                assert(self.key_set() =~= other.key_set());
            }
        }
        a && b
    }
}

/// Whether every key of `b` is in `a`.
fn contains_all(a: &Vec<u32>, b: &Vec<u32>) -> (r: bool)
    ensures
        r == b@.to_set().subset_of(a@.to_set()),
{
    let mut i: usize = 0;
    while i < b.len()
        invariant
            0 <= i <= b@.len(),
            forall|k: int| 0 <= k < i ==> a@.contains(#[trigger] b@[k]),
        decreases b@.len() - i,
    {
        let mut found = false;
        let mut j: usize = 0;
        while j < a.len()
            invariant
                0 <= j <= a@.len(),
                i < b@.len(),
                found == exists|k: int| 0 <= k < j && a@[k] == b@[i as int],
            decreases a@.len() - j,
        {
            if a[j] == b[i] {
                found = true;
            }
            j = j + 1;
        }
        if !found {
            assert(!a@.to_set().contains(b@[i as int]));
            assert(b@.to_set().contains(b@[i as int]));
            return false;
        }
        i = i + 1;
    }
    assert forall|x: u32| b@.to_set().contains(x) implies a@.to_set().contains(x) by {
        let k = choose|k: int| 0 <= k < b@.len() && b@[k] == x;
        assert(a@.contains(b@[k]));
    }
    true
}

/// A key action: a kind and a mask.
#[derive(Clone, Debug)]
pub struct Action {
    pub tp: ActionType,
    pub key_mask: KeyMask,
}

impl Action {
    /// Constructor.
    pub fn new(tp: ActionType, key_mask: KeyMask) -> (r: Self)
        ensures
            r.tp == tp,
            r.key_mask == key_mask,
    {
        Action { tp, key_mask }
    }

    /// The action of pressing the keys of `key_mask`.
    pub fn press(key_mask: KeyMask) -> (r: Self)
        ensures
            r.tp == ActionType::Press,
            r.key_mask == key_mask,
    {
        Self::new(ActionType::Press, key_mask)
    }

    /// The action of releasing the keys of `key_mask`.
    pub fn release(key_mask: KeyMask) -> (r: Self)
        ensures
            r.tp == ActionType::Release,
            r.key_mask == key_mask,
    {
        Self::new(ActionType::Release, key_mask)
    }
}

/// A command name.
#[derive(Clone, Debug)]
pub struct Command {
    pub name: String,
}

/// What must hold for a rule to fire.
#[derive(Clone, Debug)]
pub enum Condition {
    /// Always holds.
    Always,
    /// Holds when the target reports the named status as set.
    Simple(String),
}

/// A rule: the command to run on a target, and the condition under which it runs.
#[derive(Clone, Debug)]
pub struct Rule {
    pub target: String,
    pub command: Command,
    pub when: Condition,
}

impl Rule {
    /// A rule without a condition.
    pub fn new(target: String, command: Command) -> (r: Self)
        ensures
            r.target == target,
            r.command == command,
            r.when == Condition::Always,
    {
        Self::new_when(target, command, Condition::Always)
    }

    /// A rule that fires only when `when` holds.
    pub fn new_when(target: String, command: Command, when: Condition) -> (r: Self)
        ensures
            r.target == target,
            r.command == command,
            r.when == when,
    {
        Rule { target, command, when }
    }
}

/// A keyboard shortcut: a rule together with the action that triggers it.
#[derive(Clone, Debug)]
pub struct Shortcut {
    pub rule: Rule,
    pub action: Action,
}

impl Shortcut {
    /// A shortcut without a condition.
    pub fn new(action: Action, target: String, command: Command) -> (r: Self)
        ensures
            r.action == action,
            r.rule.target == target,
            r.rule.command == command,
            r.rule.when == Condition::Always,
    {
        let rule = Rule::new(target, command);
        Shortcut { rule, action }
    }

    /// A shortcut that fires only when `condition` holds.
    pub fn new_when(action: Action, target: String, command: Command, condition: Condition) -> (r:
        Self)
        ensures
            r.action == action,
            r.rule.target == target,
            r.rule.command == command,
            r.rule.when == condition,
    {
        let rule = Rule::new_when(target, command, condition);
        Shortcut { rule, action }
    }
}

/// A shared handle to a registered rule.
#[derive(Clone, Debug)]
pub struct Handle {
    pub rule: Rc<Rule>,
}

impl Handle {
    /// Constructor.
    pub fn new(rule: Rule) -> (r: Self)
        ensures
            *r.rule == rule,
    {
        Handle { rule: Rc::new(rule) }
    }
}

/// One live instance of a command provider: its label, its status flags and the commands
/// it offers.
#[derive(Clone, Debug)]
pub struct Provider {
    pub label: String,
    pub status: Vec<(String, bool)>,
    pub commands: Vec<String>,
}

/// The value of the first status entry named `name`, or `false` if there is none.
pub open spec fn status_of(status: Seq<(String, bool)>, name: Seq<char>) -> bool
    decreases status.len(),
{
    if status.len() == 0 {
        false
    } else if status[0].0@ == name {
        status[0].1
    } else {
        status_of(status.drop_first(), name)
    }
}

/// Whether `condition` holds for a provider with the given status flags.
pub open spec fn holds(condition: Condition, status: Seq<(String, bool)>) -> bool {
    match condition {
        Condition::Always => true,
        Condition::Simple(name) => status_of(status, name@),
    }
}

/// Whether the provider offers a command named `name`.
pub open spec fn offers(p: Provider, name: Seq<char>) -> bool {
    exists|k: int| 0 <= k < p.commands@.len() && #[trigger] p.commands@[k]@ == name
}

/// The commands that `rule` fires on the first `k` providers: for each provider with the
/// rule's target as label, whose status satisfies the condition and which offers the
/// command, its index and the command's name.
pub open spec fn rule_fires(rule: Rule, providers: Seq<Provider>, k: int) -> Seq<(usize, Seq<char>)>
    decreases k,
{
    if k <= 0 {
        Seq::empty()
    } else {
        let p = providers[k - 1];
        let rest = rule_fires(rule, providers, k - 1);
        if p.label@ == rule.target@ && holds(rule.when, p.status@) && offers(p, rule.command.name@) {
            rest.push(((k - 1) as usize, rule.command.name@))
        } else {
            rest
        }
    }
}

/// The commands that the first `k` shortcuts fire for the action (`tp`, `keys`), in the
/// order in which the shortcuts were added.
pub open spec fn action_fires(
    shortcuts: Seq<Shortcut>,
    tp: ActionType,
    keys: Set<u32>,
    providers: Seq<Provider>,
    k: int,
) -> Seq<(usize, Seq<char>)>
    decreases k,
{
    if k <= 0 {
        Seq::empty()
    } else {
        let s = shortcuts[k - 1];
        let rest = action_fires(shortcuts, tp, keys, providers, k - 1);
        if s.action.tp == tp && s.action.key_mask.key_set() == keys {
            rest + rule_fires(s.rule, providers, providers.len() as int)
        } else {
            rest
        }
    }
}

/// The shortcuts registered so far, in the order they were added.
#[derive(Clone, Debug)]
pub struct RegistryModel {
    pub shortcuts: Vec<Shortcut>,
}

impl RegistryModel {
    /// An empty registry.
    pub fn new() -> (r: Self)
        ensures
            r.shortcuts@.len() == 0,
    {
        RegistryModel { shortcuts: Vec::new() }
    }

    /// Registers `shortcut` after the existing ones.
    pub fn add(&mut self, shortcut: Shortcut)
        ensures
            final(self).shortcuts@ == old(self).shortcuts@.push(shortcut),
    {
        self.shortcuts.push(shortcut);
    }

    /// Whether `condition` holds for a provider with status flags `status_map`.
    pub fn condition_checker(condition: &Condition, status_map: &Vec<(String, bool)>) -> (r: bool)
        ensures
            r == holds(*condition, status_map@),
    {
        match condition {
            Condition::Always => true,
            Condition::Simple(name) => {
                let mut i: usize = 0;
                assert(status_map@.subrange(0, status_map@.len() as int) =~= status_map@);
                while i < status_map.len()
                    invariant
                        0 <= i <= status_map@.len(),
                        holds(*condition, status_map@) == status_of(status_map@, name@),
                        status_of(status_map@, name@) == status_of(
                            status_map@.subrange(i as int, status_map@.len() as int),
                            name@,
                        ),
                    decreases status_map@.len() - i,
                {
                    let ghost rest = status_map@.subrange(i as int, status_map@.len() as int);
                    assert(rest.drop_first() =~= status_map@.subrange(
                        i + 1,
                        status_map@.len() as int,
                    ));
                    assert(rest[0] == status_map@[i as int]);
                    if status_map[i].0 == *name {
                        assert(rest[0].0@ == name@);
                        assert(status_of(rest, name@) == rest[0].1);
                        return status_map[i].1;
                    }
                    i = i + 1;
                }
                false
            },
        }
    }

    /// Appends to `out` the commands that `rule` fires on `providers`.
    fn process_rules(rule: &Rule, providers: &Vec<Provider>, out: &mut Vec<(usize, String)>)
        ensures
            final(out)@.map_values(|e: (usize, String)| (e.0, e.1@)) == old(out)@.map_values(
                |e: (usize, String)| (e.0, e.1@),
            ) + rule_fires(*rule, providers@, providers@.len() as int),
    {
        let ghost head = old(out)@.map_values(|e: (usize, String)| (e.0, e.1@));
        let mut k: usize = 0;
        while k < providers.len()
            invariant
                0 <= k <= providers@.len(),
                out@.map_values(|e: (usize, String)| (e.0, e.1@)) == head + rule_fires(
                    *rule,
                    providers@,
                    k as int,
                ),
            decreases providers@.len() - k,
        {
            let p = &providers[k];
            let ghost before = out@;
            let mut fire = false;
            if p.label == rule.target && Self::condition_checker(&rule.when, &p.status) {
                let mut j: usize = 0;
                while j < p.commands.len()
                    invariant
                        0 <= j <= p.commands@.len(),
                        fire == exists|i: int|
                            0 <= i < j && #[trigger] p.commands@[i]@ == rule.command.name@,
                    decreases p.commands@.len() - j,
                {
                    if p.commands[j] == rule.command.name {
                        fire = true;
                    }
                    j = j + 1;
                }
            }
            assert(fire == (p.label@ == rule.target@ && holds(rule.when, p.status@) && offers(
                *p,
                rule.command.name@,
            )));
            if fire {
                let name = rule.command.name.clone();
                out.push((k, name));
                assert(out@.map_values(|e: (usize, String)| (e.0, e.1@)) =~= before.map_values(
                    |e: (usize, String)| (e.0, e.1@),
                ).push((k, rule.command.name@)));
            }
            k = k + 1;
        }
    }

    /// The commands that the action (`tp`, `key_mask`) fires on `providers`: for each
    /// provider index, the command name, in the order of registration.
    pub fn process_action(&self, tp: ActionType, key_mask: &KeyMask, providers: &Vec<Provider>) -> (r:
        Vec<(usize, String)>)
        ensures
            r@.map_values(|e: (usize, String)| (e.0, e.1@)) == action_fires(
                self.shortcuts@,
                tp,
                key_mask.key_set(),
                providers@,
                self.shortcuts@.len() as int,
            ),
    {
        let mut out: Vec<(usize, String)> = Vec::new();
        let mut k: usize = 0;
        assert(out@.map_values(|e: (usize, String)| (e.0, e.1@)) =~= Seq::empty());
        while k < self.shortcuts.len()
            invariant
                0 <= k <= self.shortcuts@.len(),
                out@.map_values(|e: (usize, String)| (e.0, e.1@)) == action_fires(
                    self.shortcuts@,
                    tp,
                    key_mask.key_set(),
                    providers@,
                    k as int,
                ),
            decreases self.shortcuts@.len() - k,
        {
            let s = &self.shortcuts[k];
            if s.action.tp == tp && s.action.key_mask.same_keys(key_mask) {
                Self::process_rules(&s.rule, providers, &mut out);
            }
            k = k + 1;
        }
        out
    }
}

/// The shortcut registry.
#[derive(Clone, Debug)]
pub struct Registry {
    pub model: RegistryModel,
}

impl Registry {
    /// An empty registry.
    pub fn new() -> (r: Self)
        ensures
            r.model.shortcuts@.len() == 0,
    {
        Registry { model: RegistryModel::new() }
    }
}

} // verus!
