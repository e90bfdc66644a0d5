//! The settings the layout and the editors read.
pub mod opts;

use crate::settings::opts::Opts;
use crate::text::find_char;
use crate::text::position_of;
use crate::text::same_text;
use crate::text::starts_with;
use vstd::prelude::*;

verus! {

/// The pixel sizes a frame lays its tabs out with.
#[derive(Debug, Clone, Copy, PartialEq, Eq, Structural)]
pub struct Metrics {
    /// The margin kept free on every side of the frame.
    pub outer_gaps: i32,
    /// The gap between neighbouring windows.
    pub window_gaps: i32,
    /// The height kept free for the tab line, under the top margin.
    pub tabline_size: i32,
    /// The height kept free for the status bar and command line, above the
    /// bottom margin.
    pub cmd_size: i32,
}

impl Default for Metrics {
    /// The sizes that go with a font of size 40 and gaps of 4.
    fn default() -> (m: Metrics)
        ensures
            m == (Metrics { outer_gaps: 4, window_gaps: 4, tabline_size: 34, cmd_size: 44 }),
    {
        Metrics { outer_gaps: 4, window_gaps: 4, tabline_size: 34, cmd_size: 44 }
    }
}

/// What the frame and its editors are set up with.
pub struct Settings {
    pub opts: Opts,
    pub metrics: Metrics,
    /// The key bindings of the editors, by (mode, keys).
    pub keymaps: Keymaps,
}

impl Settings {
    /// The settings in force when nothing is configured: the default
    /// options and sizes, and no key bindings.
    pub fn new() -> (s: Settings)
        ensures
            s.opts == (Opts {
                auto_candidate_elimination: false,
                auto_fill_candidates: false,
                check_input: true,
                highlight_square_instead_of_note: false,
            }),
            s.metrics == (Metrics { outer_gaps: 4, window_gaps: 4, tabline_size: 34, cmd_size: 44 }),
            s.keymaps@ == Map::<(Seq<char>, Seq<char>), Seq<char>>::empty(),
    {
        Settings { opts: Opts::default(), metrics: Metrics::default(), keymaps: Keymaps::new() }
    }
}

/// One key binding: in `mode`, the keys `keybind` run `action`.
pub struct Keymap {
    pub mode: String,
    pub keybind: String,
    pub action: String,
}

/// The key bindings, by mode and keys. A binding entered later replaces an
/// earlier one for the same mode and keys.
pub struct Keymaps {
    pub entries: Vec<Keymap>,
}

/// The bindings that a list of entries stands for: later entries win.
pub open spec fn bindings_of(entries: Seq<Keymap>) -> Map<(Seq<char>, Seq<char>), Seq<char>>
    decreases entries.len(),
{
    if entries.len() == 0 {
        Map::empty()
    } else {
        bindings_of(entries.drop_last()).insert(
            (entries.last().mode@, entries.last().keybind@),
            entries.last().action@,
        )
    }
}

/// The bound keys are those of the entries.
pub proof fn lemma_bindings_dom(entries: Seq<Keymap>, key: (Seq<char>, Seq<char>))
    ensures
        bindings_of(entries).dom().contains(key) <==> exists|i: int|
            0 <= i < entries.len() && (#[trigger] entries[i].mode@, entries[i].keybind@) == key,
    decreases entries.len(),
{
    if entries.len() > 0 {
        let front = entries.drop_last();
        lemma_bindings_dom(front, key);
        if bindings_of(entries).dom().contains(key) {
            if (entries.last().mode@, entries.last().keybind@) == key {
                assert((entries[entries.len() - 1].mode@, entries[entries.len() - 1].keybind@)
                    == key);
            } else {
                let i = choose|i: int|
                    0 <= i < front.len() && (#[trigger] front[i].mode@, front[i].keybind@) == key;
                assert((entries[i].mode@, entries[i].keybind@) == key);
            }
        }
        if exists|i: int|
            0 <= i < entries.len() && (#[trigger] entries[i].mode@, entries[i].keybind@) == key {
            let i = choose|i: int|
                0 <= i < entries.len() && (#[trigger] entries[i].mode@, entries[i].keybind@) == key;
            if i < entries.len() - 1 {
                assert((front[i].mode@, front[i].keybind@) == key);
            }
        }
    }
}

impl View for Keymaps {
    type V = Map<(Seq<char>, Seq<char>), Seq<char>>;

    open spec fn view(&self) -> Map<(Seq<char>, Seq<char>), Seq<char>> {
        bindings_of(self.entries@)
    }
}

impl Keymaps {
    /// No bindings.
    pub fn new() -> (k: Keymaps)
        ensures
            k@ == Map::<(Seq<char>, Seq<char>), Seq<char>>::empty(),
    {
        Keymaps { entries: Vec::new() }
    }

    /// Binds `keybind` in `mode` to `action`.
    pub fn insert(&mut self, mode: String, keybind: String, action: String)
        ensures
            final(self)@ == old(self)@.insert((mode@, keybind@), action@),
    {
        self.entries.push(Keymap { mode, keybind, action });
        assert(self.entries@.drop_last() =~= old(self).entries@);
    }

    /// The action bound to `keybind` in `mode`, if any.
    pub fn get(&self, mode: &str, keybind: &str) -> (action: Option<&String>)
        ensures
            action is Some <==> self@.dom().contains((mode@, keybind@)),
            action matches Some(a) ==> a@ == self@[(mode@, keybind@)],
    {
        let ghost key = (mode@, keybind@);
        let mut i: usize = self.entries.len();
        assert(self.entries@.take(i as int) =~= self.entries@);
        while i > 0
            invariant
                i <= self.entries@.len(),
                key == (mode@, keybind@),
                self@.dom().contains(key) <==> bindings_of(
                    self.entries@.take(i as int),
                ).dom().contains(key),
                self@.dom().contains(key) ==> self@[key] == bindings_of(
                    self.entries@.take(i as int),
                )[key],
            decreases i,
        {
            assert(self.entries@.take(i as int).drop_last() =~= self.entries@.take(i - 1));
            assert(self.entries@.take(i as int).last() == self.entries@[i - 1]);
            i -= 1;
            let entry = &self.entries[i];
            if same_text(entry.mode.as_str(), mode) && same_text(entry.keybind.as_str(), keybind) {
                return Some(&entry.action);
            }
        }
        assert(self.entries@.take(0) =~= Seq::<Keymap>::empty());
        None
    }

    /// Some binding of `mode` begins with the keys `typed`.
    pub open spec fn spec_has_prefix(self, mode: Seq<char>, typed: Seq<char>) -> bool {
        exists|key: (Seq<char>, Seq<char>)|
            #[trigger] self@.dom().contains(key) && key.0 == mode && typed.len() <= key.1.len()
                && key.1.take(typed.len() as int) == typed
    }

    /// Whether some binding of `mode` begins with the keys `typed`.
    pub fn has_prefix(&self, mode: &str, typed: &str) -> (found: bool)
        ensures
            found == self.spec_has_prefix(mode@, typed@),
    {
        let mut i: usize = 0;
        while i < self.entries.len()
            invariant
                i <= self.entries@.len(),
                forall|k: int|
                    0 <= k < i ==> !((#[trigger] self.entries@[k]).mode@ == mode@ && typed@.len()
                        <= self.entries@[k].keybind@.len() && self.entries@[k].keybind@.take(
                        typed@.len() as int,
                    ) == typed@),
            decreases self.entries@.len() - i,
        {
            let entry = &self.entries[i];
            if same_text(entry.mode.as_str(), mode) && starts_with(entry.keybind.as_str(), typed) {
                proof {
                    let key = (entry.mode@, entry.keybind@);
                    lemma_bindings_dom(self.entries@, key);
                    assert((self.entries@[i as int].mode@, self.entries@[i as int].keybind@)
                        == key);
                    assert(self@.dom().contains(key));
                }
                return true;
            }
            i += 1;
        }
        proof {
            if self.spec_has_prefix(mode@, typed@) {
                let key = choose|key: (Seq<char>, Seq<char>)|
                    #[trigger] self@.dom().contains(key) && key.0 == mode@ && typed@.len()
                        <= key.1.len() && key.1.take(typed@.len() as int) == typed@;
                lemma_bindings_dom(self.entries@, key);
                let k = choose|k: int|
                    0 <= k < self.entries@.len() && (
                    #[trigger] self.entries@[k].mode@,
                    self.entries@[k].keybind@,
                    ) == key;
                assert(self.entries@[k].mode@ == mode@);
            }
        }
        false
    }
}

/// The keys of a configured binding: what follows the first `;` of its
/// name, up to the next `;` if there is one.
pub open spec fn config_bind(name: Seq<char>) -> Seq<char> {
    let rest = name.skip(position_of(name, ';') + 1);
    if position_of(rest, ';') < 0 {
        rest
    } else {
        rest.take(position_of(rest, ';'))
    }
}

/// `map` with `bind` bound to `action` in each of the modes that `modes`
/// lists, separated by commas.
pub open spec fn with_modes(
    map: Map<(Seq<char>, Seq<char>), Seq<char>>,
    modes: Seq<char>,
    bind: Seq<char>,
    action: Seq<char>,
) -> Map<(Seq<char>, Seq<char>), Seq<char>>
    decreases modes.len(),
{
    let comma = position_of(modes, ',');
    if comma < 0 || comma >= modes.len() {
        map.insert((modes, bind), action)
    } else {
        with_modes(
            map.insert((modes.take(comma), bind), action),
            modes.skip(comma + 1),
            bind,
            action,
        )
    }
}

/// The bindings that a configuration stands for. Each of its entries names
/// modes and keys as `modes;keys`, the modes separated by commas, and gives
/// the action. `None` if a name holds no `;`.
pub open spec fn config_bindings(config: Seq<(String, String)>) -> Option<
    Map<(Seq<char>, Seq<char>), Seq<char>>,
>
    decreases config.len(),
{
    if config.len() == 0 {
        Some(Map::empty())
    } else {
        let name = config.last().0@;
        match config_bindings(config.drop_last()) {
            None => None,
            Some(map) => if position_of(name, ';') < 0 {
                None
            } else {
                Some(
                    with_modes(
                        map,
                        name.take(position_of(name, ';')),
                        config_bind(name),
                        config.last().1@,
                    ),
                )
            },
        }
    }
}

/// Binds `bind` to `action` in each of the modes listed in `modes`.
fn insert_modes(keymaps: &mut Keymaps, modes: &str, bind: &str, action: &String)
    ensures
        final(keymaps)@ == with_modes(old(keymaps)@, modes@, bind@, action@),
    decreases modes@.len(),
{
    proof {
        crate::text::lemma_position_of(modes@, ',');
    }
    match find_char(modes, ',') {
        None => {
            keymaps.insert(String::from_str(modes), String::from_str(bind), action.clone());
        },
        Some(comma) => {
            let len: usize = modes.unicode_len();
            let mode = modes.substring_char(0, comma);
            let rest = modes.substring_char(comma + 1, len);
            assert(mode@ =~= modes@.take(comma as int));
            assert(rest@ =~= modes@.skip(comma + 1));
            keymaps.insert(String::from_str(mode), String::from_str(bind), action.clone());
            insert_modes(keymaps, rest, bind, action);
        },
    }
}

/// Reads the key bindings of a configuration: `config_bindings`. Fails if
/// the name of an entry holds no `;`.
pub fn parse_config_keymaps(keymaps: &Vec<(String, String)>) -> (res: Result<
    Keymaps,
    &'static str,
>)
    ensures
        res is Ok <==> config_bindings(keymaps@) is Some,
        res matches Ok(parsed) ==> Some(parsed@) == config_bindings(keymaps@),
        res matches Err(message) ==> message@ == "No mode/keybind specified"@,
{
    let mut res = Keymaps::new();
    let mut i: usize = 0;
    while i < keymaps.len()
        invariant
            i <= keymaps@.len(),
            config_bindings(keymaps@.take(i as int)) == Some(res@),
        decreases keymaps@.len() - i,
    {
        let ghost done = keymaps@.take(i as int);
        let ghost next = keymaps@.take(i + 1);
        assert(next.drop_last() =~= done);
        assert(next.last() == keymaps@[i as int]);
        let name: &str = keymaps[i].0.as_str();
        let action: &String = &keymaps[i].1;
        proof {
            crate::text::lemma_position_of(name@, ';');
        }
        match find_char(name, ';') {
            None => {
                proof {
                    lemma_config_fails(keymaps@, i + 1);
                }
                return Err("No mode/keybind specified");
            },
            Some(semi) => {
                let len: usize = name.unicode_len();
                let modes = name.substring_char(0, semi);
                let rest = name.substring_char(semi + 1, len);
                assert(modes@ =~= name@.take(semi as int));
                assert(rest@ =~= name@.skip(semi + 1));
                proof {
                    crate::text::lemma_position_of(rest@, ';');
                }
                let bind = match find_char(rest, ';') {
                    None => rest,
                    Some(end) => {
                        let cut = rest.substring_char(0, end);
                        assert(cut@ =~= rest@.take(end as int));
                        cut
                    },
                };
                insert_modes(&mut res, modes, bind, action);
            },
        }
        i += 1;
    }
    assert(keymaps@.take(i as int) =~= keymaps@);
    Ok(res)
}

/// A configuration fails as a whole if one of its beginnings fails.
proof fn lemma_config_fails(config: Seq<(String, String)>, upto: int)
    requires
        0 <= upto <= config.len(),
        config_bindings(config.take(upto)) is None,
    ensures
        config_bindings(config) is None,
    decreases config.len() - upto,
{
    if upto < config.len() {
        assert(config.take(upto + 1).drop_last() =~= config.take(upto));
        lemma_config_fails(config, upto + 1);
    } else {
        assert(config.take(upto) =~= config);
    }
}

/// The bindings in force when the configuration names none: the keys
/// `h`, `j`, `k` and `l` move the cursor, the space bar marks a cell, and
/// `g`, `i`, `n` and `v` change the mode.
pub open spec fn default_bindings() -> Map<(Seq<char>, Seq<char>), Seq<char>> {
    Map::<(Seq<char>, Seq<char>), Seq<char>>::empty().insert(
        ("normal"@, "h"@),
        "move left"@,
    ).insert(
        ("note"@, "h"@),
        "move left"@,
    ).insert(
        ("insert"@, "h"@),
        "move left"@,
    ).insert(
        ("normal"@, "j"@),
        "move down"@,
    ).insert(
        ("note"@, "j"@),
        "move down"@,
    ).insert(
        ("insert"@, "j"@),
        "move down"@,
    ).insert(
        ("normal"@, "k"@),
        "move up"@,
    ).insert(
        ("note"@, "k"@),
        "move up"@,
    ).insert(
        ("insert"@, "k"@),
        "move up"@,
    ).insert(
        ("normal"@, "l"@),
        "move right"@,
    ).insert(
        ("note"@, "l"@),
        "move right"@,
    ).insert(
        ("insert"@, "l"@),
        "move right"@,
    ).insert(
        ("normal"@, " "@),
        "mark"@,
    ).insert(
        ("note"@, " "@),
        "mark"@,
    ).insert(
        ("insert"@, " "@),
        "mark"@,
    ).insert(
        ("go"@, " "@),
        "mark"@,
    ).insert(
        ("normal"@, "g"@),
        "go"@,
    ).insert(
        ("normal"@, "i"@),
        "insert"@,
    ).insert(
        ("normal"@, "n"@),
        "note"@,
    ).insert(
        ("visual"@, "n"@),
        "note"@,
    ).insert(
        ("normal"@, "v"@),
        "mode visual"@,
    ).insert(
        ("note"@, "v"@),
        "mode visual"@,
    ).insert(
        ("visual"@, "h"@),
        "mark; move left"@,
    ).insert(
        ("visual"@, "j"@),
        "mark; move down"@,
    ).insert(
        ("visual"@, "k"@),
        "mark; move up"@,
    ).insert(
        ("visual"@, "l"@),
        "mark; move right"@,
    )
}

/// Binds `keybind` in `mode` to `action`.
fn bind(keymaps: &mut Keymaps, mode: &str, keybind: &str, action: &str)
    ensures
        final(keymaps)@ == old(keymaps)@.insert((mode@, keybind@), action@),
{
    keymaps.insert(String::from_str(mode), String::from_str(keybind), String::from_str(action));
}

/// Makes `default_bindings`.
pub fn default_keymaps() -> (keymaps: Keymaps)
    ensures
        keymaps@ == default_bindings(),
{
    let mut keymaps = Keymaps::new();
    bind(&mut keymaps, "normal", "h", "move left");
    bind(&mut keymaps, "note", "h", "move left");
    bind(&mut keymaps, "insert", "h", "move left");
    bind(&mut keymaps, "normal", "j", "move down");
    bind(&mut keymaps, "note", "j", "move down");
    bind(&mut keymaps, "insert", "j", "move down");
    bind(&mut keymaps, "normal", "k", "move up");
    bind(&mut keymaps, "note", "k", "move up");
    bind(&mut keymaps, "insert", "k", "move up");
    bind(&mut keymaps, "normal", "l", "move right");
    bind(&mut keymaps, "note", "l", "move right");
    bind(&mut keymaps, "insert", "l", "move right");
    bind(&mut keymaps, "normal", " ", "mark");
    bind(&mut keymaps, "note", " ", "mark");
    bind(&mut keymaps, "insert", " ", "mark");
    bind(&mut keymaps, "go", " ", "mark");
    bind(&mut keymaps, "normal", "g", "go");
    bind(&mut keymaps, "normal", "i", "insert");
    bind(&mut keymaps, "normal", "n", "note");
    bind(&mut keymaps, "visual", "n", "note");
    bind(&mut keymaps, "normal", "v", "mode visual");
    bind(&mut keymaps, "note", "v", "mode visual");
    bind(&mut keymaps, "visual", "h", "mark; move left");
    bind(&mut keymaps, "visual", "j", "mark; move down");
    bind(&mut keymaps, "visual", "k", "mark; move up");
    bind(&mut keymaps, "visual", "l", "mark; move right");
    keymaps
}

} // verus!
