//! Combinations: the canonical descriptor of modifier keys plus one key or
//! pointer button, and the parser of their textual form `MOD-MOD-...-TARGET`.

use crate::error::ErrorKind;
use vstd::prelude::*;
use vstd::string::*;

verus! {

/// The modifier keys held with a combination. `no_repeat` asks the system not
/// to fire again while a key is held; every combination carries it.
#[derive(Clone, Copy, Debug, PartialEq, Eq, Structural)]
pub struct Modifiers {
    pub ctrl: bool,
    pub alt: bool,
    pub shift: bool,
    pub win: bool,
    pub no_repeat: bool,
}

/// A pointer button or wheel axis. Which wheel direction or which side button
/// is meant is told apart by the `extra` of the combination.
#[derive(Clone, Copy, Debug, PartialEq, Eq, Structural)]
pub enum Button {
    Left,
    Right,
    Middle,
    WheelVertical,
    WheelHorizontal,
    Side,
}

/// What triggers a shortcut.
#[derive(Clone, Copy, Debug, PartialEq, Eq, Structural)]
pub enum Combination {
    Key { modifiers: Modifiers, key: u32 },
    Button { modifiers: Modifiers, button: Button, extra: i32 },
}

impl Modifiers {
    /// The modifier set with the given keys held and the no-repeat flag set.
    pub fn new(ctrl: bool, alt: bool, shift: bool, win: bool) -> (m: Modifiers)
        ensures
            m == (Modifiers { ctrl, alt, shift, win, no_repeat: true }),
    {
        Modifiers { ctrl, alt, shift, win, no_repeat: true }
    }
}

/// Key code of the digit `0`; the digits follow in order.
pub const KEY_0: u32 = 0x30;

/// Key code of the letter `A`; the letters follow in order.
pub const KEY_A: u32 = 0x41;

/// Key code of the function key `F1`; `F2` to `F12` follow in order.
pub const KEY_F1: u32 = 0x70;

/// The segments of `s` between its dashes, in order. The empty string has one
/// segment, the empty one; a dash closes a segment and opens the next.
pub open spec fn tokens(s: Seq<char>) -> Seq<Seq<char>>
    decreases s.len(),
{
    if s.len() == 0 {
        seq![Seq::<char>::empty()]
    } else {
        let init = tokens(s.drop_last());
        if s.last() == '-' {
            init.push(Seq::<char>::empty())
        } else {
            init.drop_last().push(init.last().push(s.last()))
        }
    }
}

/// `t` is the one-letter token `c`.
pub open spec fn is_letter(t: Seq<char>, c: char) -> bool {
    t.len() == 1 && t[0] == c
}

/// `t` names a modifier: `C`, `M`, `S` or `W`.
pub open spec fn is_modifier(t: Seq<char>) -> bool {
    is_letter(t, 'C') || is_letter(t, 'M') || is_letter(t, 'S') || is_letter(t, 'W')
}

/// One of the tokens `ts` is the letter `c`.
pub open spec fn names(ts: Seq<Seq<char>>, c: char) -> bool {
    exists|i: int| 0 <= i < ts.len() && is_letter(#[trigger] ts[i], c)
}

/// The modifier set that the modifier tokens `ts` describe.
pub open spec fn modifiers_of(ts: Seq<Seq<char>>) -> Modifiers {
    Modifiers {
        ctrl: names(ts, 'C'),
        alt: names(ts, 'M'),
        shift: names(ts, 'S'),
        win: names(ts, 'W'),
        no_repeat: true,
    }
}

/// The pointer button that `t` names, with its `extra`.
pub open spec fn button_named(t: Seq<char>) -> Option<(Button, i32)> {
    if t == "Left"@ {
        Some((Button::Left, 0i32))
    } else if t == "Right"@ {
        Some((Button::Right, 0i32))
    } else if t == "Middle"@ {
        Some((Button::Middle, 0i32))
    } else if t == "WheelUp"@ {
        Some((Button::WheelVertical, 0i32))
    } else if t == "WheelDown"@ {
        Some((Button::WheelVertical, 1i32))
    } else if t == "WheelRight"@ {
        Some((Button::WheelHorizontal, 0i32))
    } else if t == "WheelLeft"@ {
        Some((Button::WheelHorizontal, 1i32))
    } else if t == "Side1"@ {
        Some((Button::Side, 0i32))
    } else if t == "Side2"@ {
        Some((Button::Side, 1i32))
    } else {
        None
    }
}

/// `c` lies between `lo` and `hi`, both included.
pub open spec fn in_range(c: char, lo: char, hi: char) -> bool {
    lo as int <= c as int <= hi as int
}

/// What the target token `t` resolves to under the modifiers `modifiers`:
/// a digit, an upper-case letter, `F1` to `F12`, or a pointer button by name.
pub open spec fn resolve_target(t: Seq<char>, modifiers: Modifiers) -> Result<
    Combination,
    ErrorKind,
> {
    if t.len() == 1 && in_range(t[0], '0', '9') {
        Ok(Combination::Key { modifiers, key: (KEY_0 + (t[0] as int - '0' as int)) as u32 })
    } else if t.len() == 1 && in_range(t[0], 'A', 'Z') {
        Ok(Combination::Key { modifiers, key: (KEY_A + (t[0] as int - 'A' as int)) as u32 })
    } else if t.len() == 2 && t[0] == 'F' && in_range(t[1], '1', '9') {
        Ok(Combination::Key { modifiers, key: (KEY_F1 + (t[1] as int - '1' as int)) as u32 })
    } else if t.len() == 3 && t[0] == 'F' && t[1] == '1' {
        if in_range(t[2], '0', '2') {
            Ok(
                Combination::Key {
                    modifiers,
                    key: (KEY_F1 + 9 + (t[2] as int - '0' as int)) as u32,
                },
            )
        } else {
            Err(ErrorKind::InvalidKey)
        }
    } else {
        match button_named(t) {
            Some((button, extra)) => Ok(Combination::Button { modifiers, button, extra }),
            None => Err(ErrorKind::InvalidButton),
        }
    }
}

/// What the description `s` compiles to. The last token is the target, the
/// tokens before it are the modifiers; the empty description names nothing.
pub open spec fn parse_combination(s: Seq<char>) -> Result<Combination, ErrorKind> {
    let held = tokens(s).drop_last();
    if s.len() == 0 {
        Err(ErrorKind::InvalidCombination)
    } else if exists|i: int| 0 <= i < held.len() && !is_modifier(#[trigger] held[i]) {
        Err(ErrorKind::InvalidModifier)
    } else {
        resolve_target(tokens(s).last(), modifiers_of(held))
    }
}

/// A description always has at least one token.
pub proof fn lemma_tokens_nonempty(s: Seq<char>)
    ensures
        tokens(s).len() >= 1,
    decreases s.len(),
{
    if s.len() > 0 {
        lemma_tokens_nonempty(s.drop_last());
    }
}

/// A description without a dash is its own single token.
pub proof fn lemma_tokens_plain(s: Seq<char>)
    requires
        !s.contains('-'),
    ensures
        tokens(s) == seq![s],
    decreases s.len(),
{
    if s.len() == 0 {
        assert(s =~= Seq::<char>::empty());
    } else {
        let init = s.drop_last();
        assert forall|i: int| 0 <= i < init.len() implies init[i] != '-' by {
            assert(s.contains(s[i]));
        }
        lemma_tokens_plain(init);
        assert(init.push(s.last()) =~= s);
    }
}

/// The tokens of two descriptions joined by a dash are the tokens of the
/// first followed by the tokens of the second.
pub proof fn lemma_tokens_dash(a: Seq<char>, b: Seq<char>)
    ensures
        tokens(a + seq!['-'] + b) == tokens(a) + tokens(b),
    decreases b.len(),
{
    let whole = a + seq!['-'] + b;
    lemma_tokens_nonempty(a);
    if b.len() == 0 {
        assert(whole.drop_last() =~= a);
    } else {
        let init = b.drop_last();
        lemma_tokens_dash(a, init);
        lemma_tokens_nonempty(init);
        assert(whole.drop_last() =~= a + seq!['-'] + init);
    }
}

/// Reading one more character either opens a new token, at a dash, or
/// lengthens the last one.
proof fn lemma_tokens_step(s: Seq<char>, i: int)
    requires
        0 <= i < s.len(),
    ensures
        tokens(s.take(i)).len() >= 1,
        s[i] == '-' ==> tokens(s.take(i + 1)) == tokens(s.take(i)).push(Seq::<char>::empty()),
        s[i] != '-' ==> tokens(s.take(i + 1)) == tokens(s.take(i)).drop_last().push(
            tokens(s.take(i)).last().push(s[i]),
        ),
{
    lemma_tokens_nonempty(s.take(i));
    assert(s.take(i + 1).drop_last() =~= s.take(i));
}

/// The closed tokens of a prefix of `s` are tokens of `s`, at the same places.
proof fn lemma_tokens_prefix(s: Seq<char>, i: int)
    requires
        0 <= i <= s.len(),
    ensures
        1 <= tokens(s.take(i)).len() <= tokens(s).len(),
        forall|k: int|
            0 <= k < tokens(s.take(i)).len() - 1 ==> tokens(s.take(i))[k] == #[trigger] tokens(
                s,
            )[k],
    decreases s.len() - i,
{
    lemma_tokens_nonempty(s.take(i));
    if i == s.len() {
        assert(s.take(i) =~= s);
    } else {
        lemma_tokens_step(s, i);
        lemma_tokens_prefix(s, i + 1);
    }
}

/// The characters of `s`, one by one.
pub(crate) fn chars_of(s: &str) -> (v: Vec<char>)
    ensures
        v@ == s@,
{
    let n = s.unicode_len();
    let mut v: Vec<char> = Vec::new();
    let mut i: usize = 0;
    while i < n
        invariant
            n == s@.len(),
            i <= n,
            v@ == s@.take(i as int),
        decreases n - i,
    {
        v.push(s.get_char(i));
        i += 1;
    }
    v
}

/// Whether the characters of `chars` from `start` on spell `word`.
fn spells(chars: &Vec<char>, start: usize, word: &str) -> (r: bool)
    requires
        start <= chars.len(),
    ensures
        r == (chars@.subrange(start as int, chars.len() as int) == word@),
{
    let n = word.unicode_len();
    let ghost tail = chars@.subrange(start as int, chars.len() as int);
    if chars.len() - start != n {
        return false;
    }
    let mut i: usize = 0;
    while i < n
        invariant
            n == word@.len(),
            start + n == chars.len(),
            i <= n,
            tail == chars@.subrange(start as int, chars.len() as int),
            tail.take(i as int) == word@.take(i as int),
        decreases n - i,
    {
        if chars[start + i] != word.get_char(i) {
            return false;
        }
        i += 1;
    }
    assert(tail.take(n as int) =~= tail);
    assert(word@.take(n as int) =~= word@);
    true
}

fn char_in_range(c: char, lo: char, hi: char) -> (r: bool)
    ensures
        r == in_range(c, lo, hi),
{
    let u: u32 = c as u32;
    lo as u32 <= u && u <= hi as u32
}

/// Resolves the target token, which runs from `start` to the end of `chars`.
fn resolve(chars: &Vec<char>, start: usize, modifiers: Modifiers) -> (r: Result<
    Combination,
    ErrorKind,
>)
    requires
        start <= chars.len(),
    ensures
        r == resolve_target(chars@.subrange(start as int, chars.len() as int), modifiers),
{
    let len: usize = chars.len() - start;
    if len == 1 && char_in_range(chars[start], '0', '9') {
        Ok(Combination::Key { modifiers, key: KEY_0 + (chars[start] as u32 - '0' as u32) })
    } else if len == 1 && char_in_range(chars[start], 'A', 'Z') {
        Ok(Combination::Key { modifiers, key: KEY_A + (chars[start] as u32 - 'A' as u32) })
    } else if len == 2 && chars[start] == 'F' && char_in_range(chars[start + 1], '1', '9') {
        Ok(Combination::Key { modifiers, key: KEY_F1 + (chars[start + 1] as u32 - '1' as u32) })
    } else if len == 3 && chars[start] == 'F' && chars[start + 1] == '1' {
        if char_in_range(chars[start + 2], '0', '2') {
            Ok(
                Combination::Key {
                    modifiers,
                    key: KEY_F1 + 9 + (chars[start + 2] as u32 - '0' as u32),
                },
            )
        } else {
            Err(ErrorKind::InvalidKey)
        }
    } else if spells(chars, start, "Left") {
        Ok(Combination::Button { modifiers, button: Button::Left, extra: 0 })
    } else if spells(chars, start, "Right") {
        Ok(Combination::Button { modifiers, button: Button::Right, extra: 0 })
    } else if spells(chars, start, "Middle") {
        Ok(Combination::Button { modifiers, button: Button::Middle, extra: 0 })
    } else if spells(chars, start, "WheelUp") {
        Ok(Combination::Button { modifiers, button: Button::WheelVertical, extra: 0 })
    } else if spells(chars, start, "WheelDown") {
        Ok(Combination::Button { modifiers, button: Button::WheelVertical, extra: 1 })
    } else if spells(chars, start, "WheelRight") {
        Ok(Combination::Button { modifiers, button: Button::WheelHorizontal, extra: 0 })
    } else if spells(chars, start, "WheelLeft") {
        Ok(Combination::Button { modifiers, button: Button::WheelHorizontal, extra: 1 })
    } else if spells(chars, start, "Side1") {
        Ok(Combination::Button { modifiers, button: Button::Side, extra: 0 })
    } else if spells(chars, start, "Side2") {
        Ok(Combination::Button { modifiers, button: Button::Side, extra: 1 })
    } else {
        Err(ErrorKind::InvalidButton)
    }
}

/// Adding a token to `ts` adds the letter it spells, and nothing else.
proof fn lemma_names_push(ts: Seq<Seq<char>>, t: Seq<char>, c: char)
    ensures
        names(ts.push(t), c) == (names(ts, c) || is_letter(t, c)),
{
    let longer = ts.push(t);
    if names(ts, c) {
        let i = choose|i: int| 0 <= i < ts.len() && is_letter(#[trigger] ts[i], c);
        assert(is_letter(longer[i], c));
    }
    if is_letter(t, c) {
        assert(is_letter(longer[ts.len() as int], c));
    }
    if names(longer, c) {
        let i = choose|i: int| 0 <= i < longer.len() && is_letter(#[trigger] longer[i], c);
        if i < ts.len() {
            assert(is_letter(ts[i], c));
        }
    }
}

/// The modifiers `m` with the modifier that the token `t` names.
pub open spec fn with_token(m: Modifiers, t: Seq<char>) -> Modifiers {
    Modifiers {
        ctrl: m.ctrl || is_letter(t, 'C'),
        alt: m.alt || is_letter(t, 'M'),
        shift: m.shift || is_letter(t, 'S'),
        win: m.win || is_letter(t, 'W'),
        no_repeat: m.no_repeat,
    }
}

/// The outcome `r` with the modifier that the token `t` names held as well.
pub open spec fn held_with(r: Result<Combination, ErrorKind>, t: Seq<char>) -> Result<
    Combination,
    ErrorKind,
> {
    match r {
        Ok(Combination::Key { modifiers, key }) => Ok(
            Combination::Key { modifiers: with_token(modifiers, t), key },
        ),
        Ok(Combination::Button { modifiers, button, extra }) => Ok(
            Combination::Button { modifiers: with_token(modifiers, t), button, extra },
        ),
        Err(kind) => Err(kind),
    }
}

/// A description without a dash is a target with no modifier held.
pub proof fn lemma_parse_plain(target: Seq<char>)
    requires
        target.len() > 0,
        !target.contains('-'),
    ensures
        parse_combination(target) == resolve_target(
            target,
            Modifiers { ctrl: false, alt: false, shift: false, win: false, no_repeat: true },
        ),
{
    lemma_tokens_plain(target);
}

/// A description `head-rest` whose first token `head` names a modifier is
/// `rest` with that modifier held as well; if `head` names none, the
/// description is refused for its modifier.
pub proof fn lemma_parse_modified(head: Seq<char>, rest: Seq<char>)
    requires
        !head.contains('-'),
        rest.len() > 0,
    ensures
        parse_combination(head + seq!['-'] + rest) == if is_modifier(head) {
            held_with(parse_combination(rest), head)
        } else {
            Err(ErrorKind::InvalidModifier)
        },
{
    let whole = head + seq!['-'] + rest;
    lemma_tokens_plain(head);
    lemma_tokens_dash(head, rest);
    lemma_tokens_nonempty(rest);
    let held = tokens(rest).drop_last();
    let all = tokens(whole).drop_last();
    assert(all =~= seq![head] + held);
    assert(all[0] == head);
    if is_modifier(head) {
        if exists|i: int| 0 <= i < held.len() && !is_modifier(#[trigger] held[i]) {
            let i = choose|i: int| 0 <= i < held.len() && !is_modifier(#[trigger] held[i]);
            assert(all[i + 1] == held[i]);
        } else {
            assert forall|i: int| 0 <= i < all.len() implies is_modifier(#[trigger] all[i]) by {
                if i > 0 {
                    assert(all[i] == held[i - 1]);
                }
            }
            lemma_names_front(head, held, 'C');
            lemma_names_front(head, held, 'M');
            lemma_names_front(head, held, 'S');
            lemma_names_front(head, held, 'W');
        }
    }
}

/// Putting a token before `ts` adds the letter it spells, and nothing else.
proof fn lemma_names_front(t: Seq<char>, ts: Seq<Seq<char>>, c: char)
    ensures
        names(seq![t] + ts, c) == (is_letter(t, c) || names(ts, c)),
{
    let longer = seq![t] + ts;
    if names(ts, c) {
        let i = choose|i: int| 0 <= i < ts.len() && is_letter(#[trigger] ts[i], c);
        assert(is_letter(longer[i + 1], c));
    }
    if is_letter(t, c) {
        assert(is_letter(longer[0], c));
    }
    if names(longer, c) {
        let i = choose|i: int| 0 <= i < longer.len() && is_letter(#[trigger] longer[i], c);
        if i > 0 {
            assert(is_letter(ts[i - 1], c));
        }
    }
}

impl Combination {
    /// Compiles the description `spec`, of the form `MOD-MOD-...-TARGET`.
    pub fn parse(spec: &str) -> (r: Result<Combination, ErrorKind>)
        ensures
            r == parse_combination(spec@),
    {
        let chars = chars_of(spec);
        let n = chars.len();
        if n == 0 {
            return Err(ErrorKind::InvalidCombination);
        }
        let mut ctrl = false;
        let mut alt = false;
        let mut shift = false;
        let mut win = false;
        let mut start: usize = 0;
        let mut i: usize = 0;
        let ghost mut held: Seq<Seq<char>> = Seq::empty();
        assert(chars@.take(0) =~= Seq::<char>::empty());
        while i < n
            invariant
                n == chars.len(),
                chars@ == spec@,
                start <= i <= n,
                tokens(chars@.take(i as int)) == held.push(
                    chars@.subrange(start as int, i as int),
                ),
                forall|k: int| 0 <= k < held.len() ==> is_modifier(#[trigger] held[k]),
                ctrl == names(held, 'C'),
                alt == names(held, 'M'),
                shift == names(held, 'S'),
                win == names(held, 'W'),
            decreases n - i,
        {
            let ghost token = chars@.subrange(start as int, i as int);
            proof {
                lemma_tokens_step(chars@, i as int);
            }
            if chars[i] == '-' {
                let known = i - start == 1 && (chars[start] == 'C' || chars[start] == 'M'
                    || chars[start] == 'S' || chars[start] == 'W');
                if !known {
                    proof {
                        lemma_tokens_prefix(chars@, i + 1);
                        assert(tokens(chars@).drop_last()[held.len() as int] == token);
                    }
                    return Err(ErrorKind::InvalidModifier);
                }
                proof {
                    lemma_names_push(held, token, 'C');
                    lemma_names_push(held, token, 'M');
                    lemma_names_push(held, token, 'S');
                    lemma_names_push(held, token, 'W');
                }
                ctrl = ctrl || chars[start] == 'C';
                alt = alt || chars[start] == 'M';
                shift = shift || chars[start] == 'S';
                win = win || chars[start] == 'W';
                proof {
                    held = held.push(token);
                    assert(chars@.subrange(i + 1, i + 1) =~= Seq::<char>::empty());
                }
                start = i + 1;
            } else {
                assert(chars@.subrange(start as int, i + 1) =~= token.push(chars@[i as int]));
            }
            i += 1;
        }
        assert(chars@.take(n as int) =~= chars@);
        assert(tokens(chars@).drop_last() =~= held);
        resolve(&chars, start, Modifiers { ctrl, alt, shift, win, no_repeat: true })
    }
}

} // verus!
