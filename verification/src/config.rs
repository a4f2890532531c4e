//! The shortcut table: what the configuration maps each description to, and
//! the compilation of that mapping into an ordered table of shortcuts.

use crate::combination::{parse_combination, Combination, Modifiers};
use crate::error::{ConfigError, ErrorKind};
use crate::raw::{RawConfig, RawShortcut};
use vstd::prelude::*;

verus! {

/// The unmagnified zoom factor, 1.0, in thousandths.
pub const UNIT: i64 = 1000;

/// What a shortcut does. Factors are in thousandths.
#[derive(Clone, Copy, Debug, PartialEq, Eq, Structural)]
pub enum Action {
    SetTo(i64),
    Add(i64),
    Toggle(i64),
    Exit,
}

/// A compiled shortcut. `last_run` is the time in milliseconds at which its
/// action last ran, `cooltime` the least time between two runs.
#[derive(Clone, Copy, Debug, PartialEq, Eq, Structural)]
pub struct Shortcut {
    pub combination: Combination,
    pub action: Action,
    pub last_run: u64,
    pub cooltime: u64,
}

/// The shortcut table. The index of a shortcut identifies it to the host.
#[derive(Debug)]
pub struct Config {
    shortcuts: Vec<Shortcut>,
}

/// A request to the host: bind the key `key` under `modifiers` to the
/// shortcut at `index`.
#[derive(Clone, Copy, Debug, PartialEq, Eq, Structural)]
pub struct Hotkey {
    pub index: usize,
    pub modifiers: Modifiers,
    pub key: u32,
}

impl Action {
    /// The action keeps the zoom factor at 1.0 or above.
    pub open spec fn valid(self) -> bool {
        match self {
            Action::SetTo(factor) => factor >= UNIT,
            Action::Toggle(factor) => factor >= UNIT,
            _ => true,
        }
    }
}

/// What the entry `raw` under the description `spec` compiles to at time
/// `now`: the combination is compiled first, then the action is checked.
pub open spec fn compile_entry(spec: Seq<char>, raw: RawShortcut, now: u64) -> Result<
    Shortcut,
    ErrorKind,
> {
    match parse_combination(spec) {
        Err(kind) => Err(kind),
        Ok(combination) => match raw.action() {
            Err(kind) => Err(kind),
            Ok(action) => Ok(
                Shortcut { combination, action, last_run: now, cooltime: raw.cooltime() as u64 },
            ),
        },
    }
}

/// Compiles one entry of the configuration.
fn compile(spec: &str, raw: RawShortcut, now: u64) -> (r: Result<Shortcut, ErrorKind>)
    ensures
        r == compile_entry(spec@, raw, now),
{
    let combination = match Combination::parse(spec) {
        Ok(combination) => combination,
        Err(kind) => {
            return Err(kind);
        },
    };
    let (action, cooltime) = match raw {
        RawShortcut::SetTo { factor, cooltime } => {
            if factor < UNIT {
                return Err(ErrorKind::InvalidFactor);
            }
            (Action::SetTo(factor), cooltime)
        },
        RawShortcut::Add { factor, cooltime } => (Action::Add(factor), cooltime),
        RawShortcut::Toggle { factor, cooltime } => {
            if factor < UNIT {
                return Err(ErrorKind::InvalidFactor);
            }
            (Action::Toggle(factor), cooltime)
        },
        RawShortcut::Exit { cooltime } => (Action::Exit, cooltime),
    };
    Ok(Shortcut { combination, action, last_run: now, cooltime: cooltime as u64 })
}

/// What the entries compile to at time `now`, taken in their order: the table
/// with one shortcut for each entry, or the first refusal with the entry that
/// it is about. No part of a table is made when an entry is refused.
pub open spec fn compile_table(entries: Seq<(Seq<char>, RawShortcut)>, now: u64) -> Result<
    Seq<Shortcut>,
    (ErrorKind, (Seq<char>, RawShortcut)),
>
    decreases entries.len(),
{
    if entries.len() == 0 {
        Ok(Seq::empty())
    } else {
        match compile_table(entries.drop_last(), now) {
            Err(refusal) => Err(refusal),
            Ok(table) => match compile_entry(entries.last().0, entries.last().1, now) {
                Err(kind) => Err((kind, entries.last())),
                Ok(shortcut) => Ok(table.push(shortcut)),
            },
        }
    }
}

impl Shortcut {
    /// The time that has passed at `now` since the action last ran; none if
    /// `now` lies before that run.
    pub open spec fn elapsed(self, now: u64) -> int {
        if now >= self.last_run {
            now - self.last_run
        } else {
            0
        }
    }

    /// The shortcut may run at `now`: its cool-down time has passed.
    pub open spec fn ready(self, now: u64) -> bool {
        self.elapsed(now) >= self.cooltime
    }
}

impl View for Config {
    type V = Seq<Shortcut>;

    /// The shortcuts in the order of their indices.
    closed spec fn view(&self) -> Seq<Shortcut> {
        self.shortcuts@
    }
}

/// The index of the first shortcut of `table` whose combination is
/// `combination`, if there is one.
pub open spec fn first_match(table: Seq<Shortcut>, combination: Combination) -> Option<int>
    decreases table.len(),
{
    if table.len() == 0 {
        None
    } else {
        match first_match(table.drop_last(), combination) {
            Some(i) => Some(i),
            None => if table.last().combination == combination {
                Some(table.len() - 1)
            } else {
                None
            },
        }
    }
}

/// The indices below `n` of the shortcuts of `table` that are shadowed: an
/// earlier shortcut has the same combination, and the first match wins.
pub open spec fn shadowed_below(table: Seq<Shortcut>, n: int) -> Seq<usize>
    decreases n,
{
    if n <= 0 {
        Seq::empty()
    } else {
        let before = shadowed_below(table, n - 1);
        if first_match(table, table[n - 1].combination) != Some(n - 1) {
            before.push((n - 1) as usize)
        } else {
            before
        }
    }
}

/// The bindings that `table` asks of the host: one for each shortcut that a
/// key triggers, in the order of the table.
pub open spec fn hotkeys_of(table: Seq<Shortcut>) -> Seq<Hotkey>
    decreases table.len(),
{
    if table.len() == 0 {
        Seq::empty()
    } else {
        let before = hotkeys_of(table.drop_last());
        match table.last().combination {
            Combination::Key { modifiers, key } => before.push(
                Hotkey { index: (table.len() - 1) as usize, modifiers, key },
            ),
            _ => before,
        }
    }
}

/// First match wins: the match is a shortcut with the combination, and no
/// shortcut before it has the combination; there is none only if no shortcut
/// has the combination.
pub proof fn lemma_first_match(table: Seq<Shortcut>, combination: Combination)
    ensures
        match first_match(table, combination) {
            Some(i) => {
                &&& 0 <= i < table.len()
                &&& table[i].combination == combination
                &&& forall|j: int| 0 <= j < i ==> (#[trigger] table[j]).combination != combination
            },
            None => forall|j: int|
                0 <= j < table.len() ==> (#[trigger] table[j]).combination != combination,
        },
    decreases table.len(),
{
    if table.len() > 0 {
        let init = table.drop_last();
        lemma_first_match(init, combination);
        match first_match(init, combination) {
            Some(i) => {
                assert(init[i] == table[i]);
                assert forall|j: int| 0 <= j < i implies (#[trigger] table[j]).combination
                    != combination by {
                    assert(init[j] == table[j]);
                }
            },
            None => {
                assert forall|j: int| 0 <= j < table.len() - 1 implies (#[trigger] table[j]).combination
                    != combination by {
                    assert(init[j] == table[j]);
                }
            },
        }
    }
}

/// Every action of `table` keeps the zoom factor at 1.0 or above.
pub open spec fn valid_table(table: Seq<Shortcut>) -> bool {
    forall|i: int| 0 <= i < table.len() ==> (#[trigger] table[i]).action.valid()
}

impl Config {
    /// The table is well formed: each of its actions is valid, and its
    /// indices can be held.
    pub open spec fn wf(&self) -> bool {
        valid_table(self@) && self@.len() <= usize::MAX
    }

    /// Compiles the configuration `raw` at time `now`. The shortcuts stand in
    /// the order of the entries of `raw`, which is the order of dictionaries
    /// of their descriptions; the first entry that is refused aborts.
    pub fn new(raw: &RawConfig, now: u64) -> (r: Result<Config, ConfigError>)
        requires
            raw.wf(),
        ensures
            match r {
                Ok(config) => compile_table(raw@, now) == Ok::<
                    Seq<Shortcut>,
                    (ErrorKind, (Seq<char>, RawShortcut)),
                >(config@) && config.wf(),
                Err(error) => compile_table(raw@, now) == Err::<
                    Seq<Shortcut>,
                    (ErrorKind, (Seq<char>, RawShortcut)),
                >((error.kind, (error.spec@, error.shortcut))),
            },
    {
        let n = raw.len();
        let mut shortcuts: Vec<Shortcut> = Vec::new();
        let mut i: usize = 0;
        while i < n
            invariant
                n == raw@.len(),
                i <= n,
                compile_table(raw@.take(i as int), now) == Ok::<
                    Seq<Shortcut>,
                    (ErrorKind, (Seq<char>, RawShortcut)),
                >(shortcuts@),
                valid_table(shortcuts@),
            decreases n - i,
        {
            let (spec, shortcut) = raw.get(i);
            assert(raw@.take(i + 1).drop_last() =~= raw@.take(i as int));
            match compile(spec, shortcut, now) {
                Ok(shortcut) => {
                    shortcuts.push(shortcut);
                },
                Err(kind) => {
                    proof {
                        lemma_refusal_stays(raw@, i + 1, now);
                    }
                    return Err(ConfigError { kind, spec: spec.to_owned(), shortcut });
                },
            }
            i += 1;
        }
        assert(raw@.take(n as int) =~= raw@);
        assert(shortcuts@.len() == shortcuts.len());
        Ok(Config { shortcuts })
    }

    /// The number of shortcuts.
    pub fn len(&self) -> (n: usize)
        ensures
            n == self@.len(),
    {
        self.shortcuts.len()
    }

    /// The shortcut at `index`.
    pub fn get(&self, index: usize) -> (shortcut: Shortcut)
        requires
            index < self@.len(),
        ensures
            shortcut == self@[index as int],
    {
        self.shortcuts[index]
    }

    /// The first shortcut that `combination` triggers.
    pub fn find(&self, combination: &Combination) -> (found: Option<usize>)
        ensures
            match found {
                Some(i) => first_match(self@, *combination) == Some(i as int),
                None => first_match(self@, *combination) is None,
            },
    {
        let n = self.shortcuts.len();
        let mut i: usize = 0;
        while i < n
            invariant
                n == self.shortcuts.len(),
                i <= n,
                first_match(self@.take(i as int), *combination) is None,
            decreases n - i,
        {
            assert(self@.take(i + 1).drop_last() =~= self@.take(i as int));
            if self.shortcuts[i].combination == *combination {
                proof {
                    lemma_match_stays(self@, i + 1, *combination);
                }
                return Some(i);
            }
            i += 1;
        }
        assert(self@.take(n as int) =~= self@);
        None
    }

    /// The bindings to ask of the host.
    pub fn hotkeys(&self) -> (bindings: Vec<Hotkey>)
        ensures
            bindings@ == hotkeys_of(self@),
    {
        let n = self.shortcuts.len();
        let mut bindings: Vec<Hotkey> = Vec::new();
        let mut i: usize = 0;
        while i < n
            invariant
                n == self.shortcuts.len(),
                i <= n,
                bindings@ == hotkeys_of(self@.take(i as int)),
            decreases n - i,
        {
            assert(self@.take(i + 1).drop_last() =~= self@.take(i as int));
            match self.shortcuts[i].combination {
                Combination::Key { modifiers, key } => {
                    bindings.push(Hotkey { index: i, modifiers, key });
                },
                _ => {},
            }
            i += 1;
        }
        assert(self@.take(n as int) =~= self@);
        bindings
    }

    /// The indices of the shortcuts that an earlier shortcut with the same
    /// combination shadows, in ascending order. The table keeps them, and the
    /// first match goes on winning; the host may warn of them.
    pub fn shadowed(&self) -> (indices: Vec<usize>)
        ensures
            indices@ == shadowed_below(self@, self@.len() as int),
    {
        let n = self.shortcuts.len();
        let mut indices: Vec<usize> = Vec::new();
        let mut i: usize = 0;
        while i < n
            invariant
                n == self.shortcuts.len(),
                i <= n,
                indices@ == shadowed_below(self@, i as int),
            decreases n - i,
        {
            let first = self.find(&self.shortcuts[i].combination);
            if first != Some(i) {
                indices.push(i);
            }
            i += 1;
        }
        indices
    }

    /// Records that the shortcut at `index` runs at `now`.
    pub(crate) fn mark_run(&mut self, index: usize, now: u64)
        requires
            index < old(self)@.len(),
        ensures
            final(self)@ == old(self)@.update(
                index as int,
                (Shortcut { last_run: now, ..old(self)@[index as int] }),
            ),
    {
        let shortcut = self.shortcuts[index];
        self.shortcuts[index] = Shortcut { last_run: now, ..shortcut };
    }
}

/// A match among the first `i` shortcuts is the match in the whole table.
proof fn lemma_match_stays(table: Seq<Shortcut>, i: int, combination: Combination)
    requires
        0 <= i <= table.len(),
        first_match(table.take(i), combination) is Some,
    ensures
        first_match(table, combination) == first_match(table.take(i), combination),
    decreases table.len() - i,
{
    if i == table.len() {
        assert(table.take(i) =~= table);
    } else {
        assert(table.take(i + 1).drop_last() =~= table.take(i));
        lemma_match_stays(table, i + 1, combination);
    }
}

/// The table has one shortcut for each entry, at the place of the entry. A
/// refusal is that of the first entry, in their order, that does not compile.
pub proof fn lemma_compile_table(entries: Seq<(Seq<char>, RawShortcut)>, now: u64)
    ensures
        match compile_table(entries, now) {
            Ok(table) => {
                &&& table.len() == entries.len()
                &&& forall|i: int|
                    0 <= i < entries.len() ==> compile_entry(
                        (#[trigger] entries[i]).0,
                        entries[i].1,
                        now,
                    ) == Ok::<Shortcut, ErrorKind>(table[i])
            },
            Err((kind, entry)) => exists|i: int|
                {
                    &&& 0 <= i < entries.len()
                    &&& #[trigger] entries[i] == entry
                    &&& compile_entry(entry.0, entry.1, now) == Err::<Shortcut, ErrorKind>(kind)
                    &&& forall|j: int|
                        0 <= j < i ==> compile_entry(
                            (#[trigger] entries[j]).0,
                            entries[j].1,
                            now,
                        ) is Ok
                },
        },
    decreases entries.len(),
{
    if entries.len() > 0 {
        let init = entries.drop_last();
        let last = entries.len() - 1;
        lemma_compile_table(init, now);
        match compile_table(init, now) {
            Ok(table) => {
                match compile_entry(entries[last].0, entries[last].1, now) {
                    Ok(shortcut) => {
                        assert forall|i: int| 0 <= i < entries.len() implies compile_entry(
                            (#[trigger] entries[i]).0,
                            entries[i].1,
                            now,
                        ) == Ok::<Shortcut, ErrorKind>(table.push(shortcut)[i]) by {
                            if i < last {
                                assert(init[i] == entries[i]);
                            }
                        }
                    },
                    Err(kind) => {
                        assert forall|j: int| 0 <= j < last implies compile_entry(
                            (#[trigger] entries[j]).0,
                            entries[j].1,
                            now,
                        ) is Ok by {
                            assert(init[j] == entries[j]);
                        }
                    },
                }
            },
            Err((kind, entry)) => {
                let i = choose|i: int|
                    {
                        &&& 0 <= i < init.len()
                        &&& #[trigger] init[i] == entry
                        &&& compile_entry(entry.0, entry.1, now) == Err::<Shortcut, ErrorKind>(kind)
                        &&& forall|j: int|
                            0 <= j < i ==> compile_entry(
                                (#[trigger] init[j]).0,
                                init[j].1,
                                now,
                            ) is Ok
                    };
                assert(entries[i] == init[i]);
                assert forall|j: int| 0 <= j < i implies compile_entry(
                    (#[trigger] entries[j]).0,
                    entries[j].1,
                    now,
                ) is Ok by {
                    assert(init[j] == entries[j]);
                }
            },
        }
    }
}

/// A refusal among the first `i` entries is the refusal of the whole.
proof fn lemma_refusal_stays(entries: Seq<(Seq<char>, RawShortcut)>, i: int, now: u64)
    requires
        0 <= i <= entries.len(),
        compile_table(entries.take(i), now) is Err,
    ensures
        compile_table(entries, now) == compile_table(entries.take(i), now),
    decreases entries.len() - i,
{
    if i == entries.len() {
        assert(entries.take(i) =~= entries);
    } else {
        assert(entries.take(i + 1).drop_last() =~= entries.take(i));
        lemma_refusal_stays(entries, i + 1, now);
    }
}

impl Default for Config {
    /// The empty table.
    fn default() -> (config: Config)
        ensures
            config@ == Seq::<Shortcut>::empty(),
            config.wf(),
    {
        Config { shortcuts: Vec::new() }
    }
}

} // verus!
