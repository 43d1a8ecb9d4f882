//! Keyboard bindings: the configured key names for each action and how a
//! pressed key is matched against them.

use vstd::prelude::*;

verus! {

/// A key, as the bindings name them.
#[derive(Debug, Clone, Copy, PartialEq, Eq, Structural)]
pub enum Key {
    Up,
    Down,
    Left,
    Right,
    Enter,
    Esc,
    Tab,
    BackTab,
    Backspace,
    F(u8),
    Char(char),
}

/// All key bindings.
#[derive(Debug, Clone)]
pub struct KeyboardConfig {
    pub gameplay: GameplayKeys,
    pub worldmap: WorldMapKeys,
    pub menus: MenuKeys,
    pub debug: DebugKeys,
}

/// Key names for play on a map.
#[derive(Debug, Clone)]
pub struct GameplayKeys {
    pub move_up: String,
    pub move_down: String,
    pub move_left: String,
    pub move_right: String,
    pub move_up_arrow: String,
    pub move_down_arrow: String,
    pub move_left_arrow: String,
    pub move_right_arrow: String,
    pub wait: String,
    pub look: String,
    pub examine: String,
    pub interact: String,
    pub auto_explore: String,
    pub inventory: String,
    pub quest_log: String,
    pub crafting: String,
    pub wiki: String,
    pub psychic_menu: String,
    pub faction_menu: String,
    pub void_menu: String,
    pub crystal_menu: String,
    pub light_menu: String,
    pub skills_menu: String,
    pub ranged_attack: String,
    pub target_mode: String,
    pub use_stairs: String,
    pub use_item_1: String,
    pub use_item_2: String,
    pub use_item_3: String,
    pub save: String,
    pub load: String,
    pub pause_menu: String,
}

/// Key names on the world map.
#[derive(Debug, Clone)]
pub struct WorldMapKeys {
    pub move_up: String,
    pub move_down: String,
    pub move_left: String,
    pub move_right: String,
    pub move_up_arrow: String,
    pub move_down_arrow: String,
    pub move_left_arrow: String,
    pub move_right_arrow: String,
    pub inspect_toggle: String,
    pub set_target: String,
    pub auto_move: String,
    pub center_on_player: String,
    pub travel: String,
    pub close: String,
}

/// Key names in menus.
#[derive(Debug, Clone)]
pub struct MenuKeys {
    pub close: String,
    pub navigate_up: String,
    pub navigate_down: String,
    pub navigate_up_arrow: String,
    pub navigate_down_arrow: String,
    pub select: String,
    pub tab_next: String,
    pub tab_prev: String,
}

/// Key names for the debug tools.
#[derive(Debug, Clone)]
pub struct DebugKeys {
    pub console_toggle: String,
    pub debug_menu: String,
}

/// The value of a string of decimal digits, if all are digits.
pub open spec fn digits_value(s: Seq<char>) -> Option<nat>
    decreases s.len(),
{
    if s.len() == 0 {
        Some(0)
    } else if '0' <= s.last() <= '9' {
        match digits_value(s.drop_last()) {
            Some(v) => Some((v * 10 + (s.last() as int - '0' as int)) as nat),
            None => None,
        }
    } else {
        None
    }
}

/// `u8`'s parse: an optional `+`, then at least one digit, for a value of
/// at most 255.
pub open spec fn parse_u8(s: Seq<char>) -> Option<u8> {
    let digits = if s.len() > 0 && s[0] == '+' { s.subrange(1, s.len() as int) } else { s };
    if digits.len() == 0 {
        None
    } else {
        match digits_value(digits) {
            Some(v) => if v <= 255 { Some(v as u8) } else { None },
            None => None,
        }
    }
}

/// The first character, or a space for an empty name.
pub open spec fn first_char(s: Seq<char>) -> char {
    if s.len() > 0 { s[0] } else { ' ' }
}

/// Length in bytes of the UTF-8 encoding of a key name.
pub open spec fn name_bytes(s: Seq<char>) -> int {
    vstd::utf8::encode_utf8(s).len() as usize as int
}

/// The key a configured name stands for: a named key, a function key `F`
/// followed by a number, a single character, or a space for anything else.
pub open spec fn key_of(s: Seq<char>) -> Key {
    if s == "Up"@ {
        Key::Up
    } else if s == "Down"@ {
        Key::Down
    } else if s == "Left"@ {
        Key::Left
    } else if s == "Right"@ {
        Key::Right
    } else if s == "Enter"@ {
        Key::Enter
    } else if s == "Esc"@ {
        Key::Esc
    } else if s == "Tab"@ {
        Key::Tab
    } else if s == "BackTab"@ {
        Key::BackTab
    } else if s == "Backspace"@ {
        Key::Backspace
    } else if s.len() > 0 && s[0] == 'F' && name_bytes(s) > 1 {
        match parse_u8(s.subrange(1, s.len() as int)) {
            Some(n) => Key::F(n),
            None => Key::Char(first_char(s)),
        }
    } else if name_bytes(s) == 1 {
        Key::Char(first_char(s))
    } else {
        Key::Char(' ')
    }
}

/// The name a configuration gives a named key; other keys have none.
pub open spec fn key_label(k: Key) -> Option<Seq<char>> {
    match k {
        Key::Up => Some("Up"@),
        Key::Down => Some("Down"@),
        Key::Left => Some("Left"@),
        Key::Right => Some("Right"@),
        Key::Enter => Some("Enter"@),
        Key::Esc => Some("Esc"@),
        Key::Tab => Some("Tab"@),
        Key::BackTab => Some("BackTab"@),
        Key::Backspace => Some("Backspace"@),
        _ => None,
    }
}

/// Every named key is read back from its own name, and no two named keys
/// share a name.
pub proof fn law_named_keys_read_back(k: Key, j: Key)
    ensures
        key_label(k) matches Some(name) ==> key_of(name) == k,
        (key_label(k) matches Some(a) && key_label(j) matches Some(b) && a == b) ==> k == j,
{
    reveal_strlit("Up");
    reveal_strlit("Down");
    reveal_strlit("Left");
    reveal_strlit("Right");
    reveal_strlit("Enter");
    reveal_strlit("Esc");
    reveal_strlit("Tab");
    reveal_strlit("BackTab");
    reveal_strlit("Backspace");
}

/// A one-character ASCII name stands for that character's key.
pub proof fn law_single_ascii_key(c: char)
    requires
        (c as u32) <= 0x7F,
    ensures
        key_of(seq![c]) == Key::Char(c),
{
    let s = seq![c];
    assert(s.drop_first() =~= Seq::<char>::empty());
    assert(vstd::utf8::encode_utf8(s.drop_first()) =~= Seq::<u8>::empty());
    assert(vstd::utf8::encode_utf8(s) =~= vstd::utf8::encode_scalar(c as u32) + Seq::<u8>::empty());
    assert(name_bytes(s) == 1);
    reveal_strlit("Up");
    reveal_strlit("Down");
    reveal_strlit("Left");
    reveal_strlit("Right");
    reveal_strlit("Enter");
    reveal_strlit("Esc");
    reveal_strlit("Tab");
    reveal_strlit("BackTab");
    reveal_strlit("Backspace");
}

proof fn lemma_digits_of_decimal(n: nat)
    ensures
        digits_value(crate::text::decimal(n)) == Some(n),
        crate::text::decimal(n).len() > 0,
        forall|i: int| 0 <= i < crate::text::decimal(n).len() ==> '0' <= #[trigger] crate::text::decimal(n)[i] <= '9',
    decreases n,
{
    let d = crate::text::decimal(n);
    if n < 10 {
        assert(d == seq![crate::text::digit_char(n as int)]);
        assert(d.drop_last() =~= Seq::<char>::empty());
        assert(digits_value(d.drop_last()) == Some(0nat));
        assert(d.last() as int - '0' as int == n);
        assert('0' <= d.last() <= '9');
        assert(digits_value(d) == Some(n));
    } else {
        lemma_digits_of_decimal(n / 10);
        assert(d.drop_last() =~= crate::text::decimal(n / 10));
        assert((n / 10) * 10 + n % 10 == n) by (nonlinear_arith);
        assert(d.last() as int - '0' as int == n % 10);
        assert(d[d.len() - 1] == d.last());
    }
}

proof fn lemma_ascii_encoding_len(cs: Seq<char>)
    requires
        forall|i: int| 0 <= i < cs.len() ==> (#[trigger] cs[i] as u32) <= 0x7F,
    ensures
        vstd::utf8::encode_utf8(cs).len() == cs.len(),
    decreases cs.len(),
{
    if cs.len() > 0 {
        assert forall|i: int| 0 <= i < cs.drop_first().len() implies (#[trigger] cs.drop_first()[i] as u32) <= 0x7F by {
            assert(cs.drop_first()[i] == cs[i + 1]);
        }
        lemma_ascii_encoding_len(cs.drop_first());
        assert((cs[0] as u32) <= 0x7F);
    }
}

proof fn lemma_short_decimal(n: nat)
    requires
        n <= 255,
    ensures
        crate::text::decimal(n).len() <= 3,
{
    let m = n / 10;
    if n >= 10 {
        assert(crate::text::decimal(n).len() == crate::text::decimal(m).len() + 1);
        if m >= 10 {
            assert(m / 10 < 10);
            assert(crate::text::decimal(m).len() == crate::text::decimal(m / 10).len() + 1);
            assert(crate::text::decimal(m / 10).len() == 1);
        } else {
            assert(crate::text::decimal(m).len() == 1);
        }
    }
}

/// `F` followed by the decimal digits of `n` (at most 255) stands for the
/// function key `n`.
pub proof fn law_function_key(n: u8)
    ensures
        key_of(seq!['F'] + crate::text::decimal(n as nat)) == Key::F(n),
{
    let digits = crate::text::decimal(n as nat);
    lemma_digits_of_decimal(n as nat);
    let s = seq!['F'] + digits;
    assert(s.subrange(1, s.len() as int) =~= digits);
    assert(s[0] == 'F');
    assert(digits[0] != '+');
    let bytes = vstd::utf8::encode_utf8(s);
    assert(s.drop_first() =~= digits);
    assert(bytes =~= vstd::utf8::encode_scalar('F' as u32) + vstd::utf8::encode_utf8(digits));
    assert forall|i: int| 0 <= i < s.len() implies (#[trigger] s[i] as u32) <= 0x7F by {
        if i > 0 {
            assert(s[i] == digits[i - 1]);
            assert('0' <= digits[i - 1] <= '9');
        }
    }
    lemma_short_decimal(n as nat);
    lemma_ascii_encoding_len(s);
    assert(name_bytes(s) > 1);
    reveal_strlit("Up");
    reveal_strlit("Down");
    reveal_strlit("Left");
    reveal_strlit("Right");
    reveal_strlit("Enter");
    reveal_strlit("Esc");
    reveal_strlit("Tab");
    reveal_strlit("BackTab");
    reveal_strlit("Backspace");
    assert(s != "Up"@ && s != "Esc"@ && s != "Tab"@) by {
        assert(s[0] == 'F');
    }
}

fn parse_u8_from(s: &str, start: usize) -> (r: Option<u8>)
    requires
        start <= s@.len(),
    ensures
        r == parse_u8(s@.subrange(start as int, s@.len() as int)),
{
    let n = s.unicode_len();
    let ghost t = s@.subrange(start as int, n as int);
    let mut i = start;
    if i < n && s.get_char(i) == '+' {
        i = i + 1;
    }
    let ghost digits = s@.subrange(i as int, n as int);
    proof {
        if start < n && s@[start as int] == '+' {
            assert(digits =~= t.subrange(1, t.len() as int));
        } else {
            assert(digits =~= t);
        }
    }
    if i == n {
        return None;
    }
    assert(parse_u8(t) == match digits_value(digits) {
        Some(v) => if v <= 255 { Some(v as u8) } else { None },
        None => None,
    });
    let d0 = i;
    let mut v: u32 = 0;
    proof {
        assert(s@.subrange(d0 as int, i as int) =~= Seq::<char>::empty());
    }
    while i < n
        invariant
            n == s@.len(),
            d0 <= i <= n,
            digits == s@.subrange(d0 as int, n as int),
            t == s@.subrange(start as int, n as int),
            parse_u8(t) == match digits_value(digits) {
                Some(v) => if v <= 255 { Some(v as u8) } else { None },
                None => None,
            },
            digits_value(s@.subrange(d0 as int, i as int)) == Some(v as nat),
            v <= 255,
        decreases n - i,
    {
        let c = s.get_char(i);
        let ghost pre = s@.subrange(d0 as int, i + 1);
        proof {
            assert(pre.drop_last() =~= s@.subrange(d0 as int, i as int));
            assert(pre.last() == c);
        }
        proof {
            assert(digits.subrange(0, i + 1 - d0) =~= pre);
        }
        if c < '0' || c > '9' {
            proof {
                lemma_digits_none_extends(digits, (i - d0) as int);
            }
            return None;
        }
        let d = (c as u32) - ('0' as u32);
        let nv = v * 10 + d;
        if nv > 255 {
            proof {
                lemma_digits_grow(digits, (i + 1 - d0) as int);
            }
            return None;
        }
        v = nv;
        i = i + 1;
    }
    proof {
        assert(s@.subrange(d0 as int, n as int) =~= digits);
    }
    Some(v as u8)
}

/// A non-digit in the prefix makes the whole string no number.
proof fn lemma_digits_none_extends(s: Seq<char>, k: int)
    requires
        0 <= k < s.len(),
        digits_value(s.subrange(0, k + 1)) is None,
    ensures
        digits_value(s) is None,
    decreases s.len() - k,
{
    if k + 1 < s.len() {
        assert(s.subrange(0, k + 2).drop_last() =~= s.subrange(0, k + 1));
        lemma_digits_none_extends(s, k + 1);
    } else {
        assert(s.subrange(0, k + 1) =~= s);
    }
}

/// A digit prefix worth more than 255 leaves the whole string worth more,
/// or no number at all.
proof fn lemma_digits_grow(s: Seq<char>, k: int)
    requires
        0 < k <= s.len(),
        digits_value(s.subrange(0, k)) matches Some(v) && v > 255,
    ensures
        match digits_value(s) {
            Some(v) => v > 255,
            None => true,
        },
    decreases s.len() - k,
{
    if k < s.len() {
        let p = s.subrange(0, k + 1);
        assert(p.drop_last() =~= s.subrange(0, k));
        if '0' <= p.last() <= '9' {
            lemma_digits_grow(s, k + 1);
        } else {
            lemma_digits_none_extends(s, k);
        }
    } else {
        assert(s.subrange(0, k) =~= s);
    }
}

/// The key a configured name stands for.
pub fn parse_key(key_str: &str) -> (k: Key)
    ensures
        k == key_of(key_str@),
{
    let s = String::from_str(key_str);
    let n = key_str.unicode_len();
    let first = if n > 0 { key_str.get_char(0) } else { ' ' };
    if s == String::from_str("Up") {
        Key::Up
    } else if s == String::from_str("Down") {
        Key::Down
    } else if s == String::from_str("Left") {
        Key::Left
    } else if s == String::from_str("Right") {
        Key::Right
    } else if s == String::from_str("Enter") {
        Key::Enter
    } else if s == String::from_str("Esc") {
        Key::Esc
    } else if s == String::from_str("Tab") {
        Key::Tab
    } else if s == String::from_str("BackTab") {
        Key::BackTab
    } else if s == String::from_str("Backspace") {
        Key::Backspace
    } else if n > 0 && first == 'F' && key_str.len() > 1 {
        match parse_u8_from(key_str, 1) {
            Some(v) => Key::F(v),
            None => Key::Char(first),
        }
    } else if key_str.len() == 1 {
        Key::Char(first)
    } else {
        Key::Char(' ')
    }
}

/// The configured name for a gameplay action.
pub open spec fn gameplay_binding(keys: GameplayKeys, action: Seq<char>) -> Option<Seq<char>> {
    if action == "move_up"@ {
        Some(keys.move_up@)
    }     else if action == "move_down"@ {
        Some(keys.move_down@)
    }     else if action == "move_left"@ {
        Some(keys.move_left@)
    }     else if action == "move_right"@ {
        Some(keys.move_right@)
    }     else if action == "wait"@ {
        Some(keys.wait@)
    }     else if action == "look"@ {
        Some(keys.look@)
    }     else if action == "examine"@ {
        Some(keys.examine@)
    }     else if action == "interact"@ {
        Some(keys.interact@)
    }     else if action == "auto_explore"@ {
        Some(keys.auto_explore@)
    }     else if action == "inventory"@ {
        Some(keys.inventory@)
    }     else if action == "quest_log"@ {
        Some(keys.quest_log@)
    }     else if action == "crafting"@ {
        Some(keys.crafting@)
    }     else if action == "wiki"@ {
        Some(keys.wiki@)
    }     else if action == "psychic_menu"@ {
        Some(keys.psychic_menu@)
    }     else if action == "faction_menu"@ {
        Some(keys.faction_menu@)
    }     else if action == "void_menu"@ {
        Some(keys.void_menu@)
    }     else if action == "crystal_menu"@ {
        Some(keys.crystal_menu@)
    }     else if action == "light_menu"@ {
        Some(keys.light_menu@)
    }     else if action == "skills_menu"@ {
        Some(keys.skills_menu@)
    }     else if action == "ranged_attack"@ {
        Some(keys.ranged_attack@)
    }     else if action == "target_mode"@ {
        Some(keys.target_mode@)
    }     else if action == "use_stairs"@ {
        Some(keys.use_stairs@)
    }     else if action == "use_item_1"@ {
        Some(keys.use_item_1@)
    }     else if action == "use_item_2"@ {
        Some(keys.use_item_2@)
    }     else if action == "use_item_3"@ {
        Some(keys.use_item_3@)
    }     else if action == "save"@ {
        Some(keys.save@)
    }     else if action == "load"@ {
        Some(keys.load@)
    }     else if action == "pause_menu"@ {
        Some(keys.pause_menu@)
    } else {
        None
    }
}

/// The configured name for a world map action.
pub open spec fn worldmap_binding(keys: WorldMapKeys, action: Seq<char>) -> Option<Seq<char>> {
    if action == "move_up"@ {
        Some(keys.move_up@)
    }     else if action == "move_down"@ {
        Some(keys.move_down@)
    }     else if action == "move_left"@ {
        Some(keys.move_left@)
    }     else if action == "move_right"@ {
        Some(keys.move_right@)
    }     else if action == "inspect_toggle"@ {
        Some(keys.inspect_toggle@)
    }     else if action == "set_target"@ {
        Some(keys.set_target@)
    }     else if action == "auto_move"@ {
        Some(keys.auto_move@)
    }     else if action == "center_on_player"@ {
        Some(keys.center_on_player@)
    }     else if action == "travel"@ {
        Some(keys.travel@)
    }     else if action == "close"@ {
        Some(keys.close@)
    } else {
        None
    }
}

/// The configured name for a menu action.
pub open spec fn menu_binding(keys: MenuKeys, action: Seq<char>) -> Option<Seq<char>> {
    if action == "close"@ {
        Some(keys.close@)
    }     else if action == "navigate_up"@ {
        Some(keys.navigate_up@)
    }     else if action == "navigate_down"@ {
        Some(keys.navigate_down@)
    }     else if action == "select"@ {
        Some(keys.select@)
    }     else if action == "tab_next"@ {
        Some(keys.tab_next@)
    }     else if action == "tab_prev"@ {
        Some(keys.tab_prev@)
    } else {
        None
    }
}

/// The configured name for a debug action.
pub open spec fn debug_binding(keys: DebugKeys, action: Seq<char>) -> Option<Seq<char>> {
    if action == "console_toggle"@ {
        Some(keys.console_toggle@)
    }     else if action == "debug_menu"@ {
        Some(keys.debug_menu@)
    } else {
        None
    }
}

impl KeyboardConfig {
    /// Whether the key is bound to the gameplay action; unknown actions match nothing.
    pub fn matches_gameplay(&self, key: Key, action: &str) -> (b: bool)
        ensures
            b == match gameplay_binding(self.gameplay, action@) {
                Some(k) => key == key_of(k),
                None => false,
            },
    {
        let a = String::from_str(action);
        let keys = &self.gameplay;
        if a == String::from_str("move_up") {
            proof { reveal_strlit("move_up"); }
            key == parse_key(keys.move_up.as_str())
        }         else if a == String::from_str("move_down") {
            proof { reveal_strlit("move_down"); }
            key == parse_key(keys.move_down.as_str())
        }         else if a == String::from_str("move_left") {
            proof { reveal_strlit("move_left"); }
            key == parse_key(keys.move_left.as_str())
        }         else if a == String::from_str("move_right") {
            proof { reveal_strlit("move_right"); }
            key == parse_key(keys.move_right.as_str())
        }         else if a == String::from_str("wait") {
            proof { reveal_strlit("wait"); }
            key == parse_key(keys.wait.as_str())
        }         else if a == String::from_str("look") {
            proof { reveal_strlit("look"); }
            key == parse_key(keys.look.as_str())
        }         else if a == String::from_str("examine") {
            proof { reveal_strlit("examine"); }
            key == parse_key(keys.examine.as_str())
        }         else if a == String::from_str("interact") {
            proof { reveal_strlit("interact"); }
            key == parse_key(keys.interact.as_str())
        }         else if a == String::from_str("auto_explore") {
            proof { reveal_strlit("auto_explore"); }
            key == parse_key(keys.auto_explore.as_str())
        }         else if a == String::from_str("inventory") {
            proof { reveal_strlit("inventory"); }
            key == parse_key(keys.inventory.as_str())
        }         else if a == String::from_str("quest_log") {
            proof { reveal_strlit("quest_log"); }
            key == parse_key(keys.quest_log.as_str())
        }         else if a == String::from_str("crafting") {
            proof { reveal_strlit("crafting"); }
            key == parse_key(keys.crafting.as_str())
        }         else if a == String::from_str("wiki") {
            proof { reveal_strlit("wiki"); }
            key == parse_key(keys.wiki.as_str())
        }         else if a == String::from_str("psychic_menu") {
            proof { reveal_strlit("psychic_menu"); }
            key == parse_key(keys.psychic_menu.as_str())
        }         else if a == String::from_str("faction_menu") {
            proof { reveal_strlit("faction_menu"); }
            key == parse_key(keys.faction_menu.as_str())
        }         else if a == String::from_str("void_menu") {
            proof { reveal_strlit("void_menu"); }
            key == parse_key(keys.void_menu.as_str())
        }         else if a == String::from_str("crystal_menu") {
            proof { reveal_strlit("crystal_menu"); }
            key == parse_key(keys.crystal_menu.as_str())
        }         else if a == String::from_str("light_menu") {
            proof { reveal_strlit("light_menu"); }
            key == parse_key(keys.light_menu.as_str())
        }         else if a == String::from_str("skills_menu") {
            proof { reveal_strlit("skills_menu"); }
            key == parse_key(keys.skills_menu.as_str())
        }         else if a == String::from_str("ranged_attack") {
            proof { reveal_strlit("ranged_attack"); }
            key == parse_key(keys.ranged_attack.as_str())
        }         else if a == String::from_str("target_mode") {
            proof { reveal_strlit("target_mode"); }
            key == parse_key(keys.target_mode.as_str())
        }         else if a == String::from_str("use_stairs") {
            proof { reveal_strlit("use_stairs"); }
            key == parse_key(keys.use_stairs.as_str())
        }         else if a == String::from_str("use_item_1") {
            proof { reveal_strlit("use_item_1"); }
            key == parse_key(keys.use_item_1.as_str())
        }         else if a == String::from_str("use_item_2") {
            proof { reveal_strlit("use_item_2"); }
            key == parse_key(keys.use_item_2.as_str())
        }         else if a == String::from_str("use_item_3") {
            proof { reveal_strlit("use_item_3"); }
            key == parse_key(keys.use_item_3.as_str())
        }         else if a == String::from_str("save") {
            proof { reveal_strlit("save"); }
            key == parse_key(keys.save.as_str())
        }         else if a == String::from_str("load") {
            proof { reveal_strlit("load"); }
            key == parse_key(keys.load.as_str())
        }         else if a == String::from_str("pause_menu") {
            proof { reveal_strlit("pause_menu"); }
            key == parse_key(keys.pause_menu.as_str())
        } else {
            false
        }
    }

    /// Whether the key is bound to the world map action; unknown actions match nothing.
    pub fn matches_worldmap(&self, key: Key, action: &str) -> (b: bool)
        ensures
            b == match worldmap_binding(self.worldmap, action@) {
                Some(k) => key == key_of(k),
                None => false,
            },
    {
        let a = String::from_str(action);
        let keys = &self.worldmap;
        if a == String::from_str("move_up") {
            proof { reveal_strlit("move_up"); }
            key == parse_key(keys.move_up.as_str())
        }         else if a == String::from_str("move_down") {
            proof { reveal_strlit("move_down"); }
            key == parse_key(keys.move_down.as_str())
        }         else if a == String::from_str("move_left") {
            proof { reveal_strlit("move_left"); }
            key == parse_key(keys.move_left.as_str())
        }         else if a == String::from_str("move_right") {
            proof { reveal_strlit("move_right"); }
            key == parse_key(keys.move_right.as_str())
        }         else if a == String::from_str("inspect_toggle") {
            proof { reveal_strlit("inspect_toggle"); }
            key == parse_key(keys.inspect_toggle.as_str())
        }         else if a == String::from_str("set_target") {
            proof { reveal_strlit("set_target"); }
            key == parse_key(keys.set_target.as_str())
        }         else if a == String::from_str("auto_move") {
            proof { reveal_strlit("auto_move"); }
            key == parse_key(keys.auto_move.as_str())
        }         else if a == String::from_str("center_on_player") {
            proof { reveal_strlit("center_on_player"); }
            key == parse_key(keys.center_on_player.as_str())
        }         else if a == String::from_str("travel") {
            proof { reveal_strlit("travel"); }
            key == parse_key(keys.travel.as_str())
        }         else if a == String::from_str("close") {
            proof { reveal_strlit("close"); }
            key == parse_key(keys.close.as_str())
        } else {
            false
        }
    }

    /// Whether the key is bound to the menu action; unknown actions match nothing.
    pub fn matches_menu(&self, key: Key, action: &str) -> (b: bool)
        ensures
            b == match menu_binding(self.menus, action@) {
                Some(k) => key == key_of(k),
                None => false,
            },
    {
        let a = String::from_str(action);
        let keys = &self.menus;
        if a == String::from_str("close") {
            proof { reveal_strlit("close"); }
            key == parse_key(keys.close.as_str())
        }         else if a == String::from_str("navigate_up") {
            proof { reveal_strlit("navigate_up"); }
            key == parse_key(keys.navigate_up.as_str())
        }         else if a == String::from_str("navigate_down") {
            proof { reveal_strlit("navigate_down"); }
            key == parse_key(keys.navigate_down.as_str())
        }         else if a == String::from_str("select") {
            proof { reveal_strlit("select"); }
            key == parse_key(keys.select.as_str())
        }         else if a == String::from_str("tab_next") {
            proof { reveal_strlit("tab_next"); }
            key == parse_key(keys.tab_next.as_str())
        }         else if a == String::from_str("tab_prev") {
            proof { reveal_strlit("tab_prev"); }
            key == parse_key(keys.tab_prev.as_str())
        } else {
            false
        }
    }

    /// Whether the key is bound to the debug action; unknown actions match nothing.
    pub fn matches_debug(&self, key: Key, action: &str) -> (b: bool)
        ensures
            b == match debug_binding(self.debug, action@) {
                Some(k) => key == key_of(k),
                None => false,
            },
    {
        let a = String::from_str(action);
        let keys = &self.debug;
        if a == String::from_str("console_toggle") {
            proof { reveal_strlit("console_toggle"); }
            key == parse_key(keys.console_toggle.as_str())
        }         else if a == String::from_str("debug_menu") {
            proof { reveal_strlit("debug_menu"); }
            key == parse_key(keys.debug_menu.as_str())
        } else {
            false
        }
    }
}

} // verus!

verus! {

/// Each movement action reads the key configured under its own name, so a
/// key matches "move_down" exactly when it is the key `move_down` names.
pub proof fn law_movement_bindings(g: GameplayKeys, w: WorldMapKeys, m: MenuKeys)
    ensures
        gameplay_binding(g, "move_up"@) == Some(g.move_up@),
        gameplay_binding(g, "move_down"@) == Some(g.move_down@),
        gameplay_binding(g, "move_left"@) == Some(g.move_left@),
        gameplay_binding(g, "move_right"@) == Some(g.move_right@),
        worldmap_binding(w, "move_up"@) == Some(w.move_up@),
        worldmap_binding(w, "move_down"@) == Some(w.move_down@),
        worldmap_binding(w, "move_left"@) == Some(w.move_left@),
        worldmap_binding(w, "move_right"@) == Some(w.move_right@),
        menu_binding(m, "navigate_up"@) == Some(m.navigate_up@),
        menu_binding(m, "navigate_down"@) == Some(m.navigate_down@),
{
    reveal_strlit("move_up");
    reveal_strlit("move_down");
    reveal_strlit("move_left");
    reveal_strlit("move_right");
    reveal_strlit("close");
    reveal_strlit("navigate_up");
    reveal_strlit("navigate_down");
    assert("move_down"@.len() != "move_up"@.len());
    assert("move_left"@ != "move_up"@ && "move_left"@ != "move_down"@) by {
        assert("move_left"@[5] != "move_up"@[5]);
        assert("move_left"@[5] != "move_down"@[5]);
    }
    assert("move_right"@.len() != "move_up"@.len() && "move_right"@.len() != "move_down"@.len());
    assert("move_right"@[5] != "move_left"@[5]);
    assert("navigate_up"@.len() != "close"@.len());
    assert("navigate_down"@.len() != "close"@.len() && "navigate_down"@.len() != "navigate_up"@.len());
}

} // verus!
