//! The configuration before it is compiled: a mapping from descriptions to
//! what each shortcut shall do, kept in the order of dictionaries.

use crate::combination::chars_of;
use crate::config::{Action, UNIT};
use crate::error::ErrorKind;
use vstd::prelude::*;

verus! {

/// What the configuration says of one shortcut. Factors are in thousandths,
/// cool-down times in milliseconds.
#[derive(Clone, Copy, Debug, PartialEq, Eq, Structural)]
pub enum RawShortcut {
    SetTo { factor: i64, cooltime: u32 },
    Add { factor: i64, cooltime: u32 },
    Toggle { factor: i64, cooltime: u32 },
    Exit { cooltime: u32 },
}

/// One entry of the configuration: a description and what it is mapped to.
#[derive(Debug)]
struct RawEntry {
    spec: String,
    shortcut: RawShortcut,
}

/// The configuration: a mapping from descriptions to entries, held in the
/// order of dictionaries so that the place of each shortcut in the table does
/// not depend on the order in which the mapping was read.
#[derive(Debug)]
pub struct RawConfig {
    entries: Vec<RawEntry>,
}

impl RawShortcut {
    /// The cool-down time of the entry.
    pub open spec fn cooltime(self) -> u32 {
        match self {
            RawShortcut::SetTo { cooltime, .. } => cooltime,
            RawShortcut::Add { cooltime, .. } => cooltime,
            RawShortcut::Toggle { cooltime, .. } => cooltime,
            RawShortcut::Exit { cooltime } => cooltime,
        }
    }

    /// The action of the entry. A factor to set or to toggle to must be at
    /// least 1.0; an amount to add may be anything.
    pub open spec fn action(self) -> Result<Action, ErrorKind> {
        match self {
            RawShortcut::SetTo { factor, .. } => if factor < UNIT {
                Err(ErrorKind::InvalidFactor)
            } else {
                Ok(Action::SetTo(factor))
            },
            RawShortcut::Add { factor, .. } => Ok(Action::Add(factor)),
            RawShortcut::Toggle { factor, .. } => if factor < UNIT {
                Err(ErrorKind::InvalidFactor)
            } else {
                Ok(Action::Toggle(factor))
            },
            RawShortcut::Exit { .. } => Ok(Action::Exit),
        }
    }
}

/// `a` comes before `b` in the order of dictionaries, character by character.
pub open spec fn lex_less(a: Seq<char>, b: Seq<char>) -> bool
    decreases a.len(),
{
    if b.len() == 0 {
        false
    } else if a.len() == 0 {
        true
    } else if a[0] != b[0] {
        (a[0] as int) < (b[0] as int)
    } else {
        lex_less(a.drop_first(), b.drop_first())
    }
}

/// The descriptions of `entries` strictly ascend.
pub open spec fn ascending(entries: Seq<(Seq<char>, RawShortcut)>) -> bool {
    forall|i: int, j: int|
        0 <= i < j < entries.len() ==> lex_less(#[trigger] entries[i].0, #[trigger] entries[j].0)
}

/// One of `entries` has the description `spec`.
pub open spec fn has_entry(entries: Seq<(Seq<char>, RawShortcut)>, spec: Seq<char>) -> bool {
    exists|i: int| 0 <= i < entries.len() && (#[trigger] entries[i]).0 == spec
}

/// `after` holds `entry`, and of the entries of `before` those with another
/// description, and nothing else.
pub open spec fn is_insertion(
    before: Seq<(Seq<char>, RawShortcut)>,
    after: Seq<(Seq<char>, RawShortcut)>,
    entry: (Seq<char>, RawShortcut),
) -> bool {
    forall|e: (Seq<char>, RawShortcut)|
        #![trigger after.contains(e)]
        #![trigger before.contains(e)]
        after.contains(e) <==> (e == entry || (before.contains(e) && e.0 != entry.0))
}

/// No description comes before itself.
pub proof fn lemma_lex_irreflexive(a: Seq<char>)
    ensures
        !lex_less(a, a),
    decreases a.len(),
{
    if a.len() > 0 {
        lemma_lex_irreflexive(a.drop_first());
    }
}

/// Of two different descriptions one comes before the other.
pub proof fn lemma_lex_total(a: Seq<char>, b: Seq<char>)
    ensures
        a == b || lex_less(a, b) || lex_less(b, a),
    decreases a.len(),
{
    if a.len() > 0 && b.len() > 0 && a[0] == b[0] {
        lemma_lex_total(a.drop_first(), b.drop_first());
        if a.drop_first() == b.drop_first() {
            assert(a =~= seq![a[0]] + a.drop_first());
            assert(b =~= seq![b[0]] + b.drop_first());
        }
    } else if a.len() == 0 && b.len() == 0 {
        assert(a =~= b);
    }
}

/// The order of dictionaries is transitive.
pub proof fn lemma_lex_transitive(a: Seq<char>, b: Seq<char>, c: Seq<char>)
    requires
        lex_less(a, b),
        lex_less(b, c),
    ensures
        lex_less(a, c),
    decreases a.len(),
{
    if a.len() > 0 && a[0] == b[0] && b[0] == c[0] {
        lemma_lex_transitive(a.drop_first(), b.drop_first(), c.drop_first());
    }
}

/// A mapping has one order: two ascending sequences with the same entries
/// are the same sequence. So the place of an entry does not depend on the
/// order in which the entries were inserted.
pub proof fn lemma_order_is_unique(
    a: Seq<(Seq<char>, RawShortcut)>,
    b: Seq<(Seq<char>, RawShortcut)>,
)
    requires
        ascending(a),
        ascending(b),
        forall|e: (Seq<char>, RawShortcut)| a.contains(e) <==> b.contains(e),
    ensures
        a == b,
    decreases a.len(),
{
    if a.len() == 0 {
        if b.len() > 0 {
            assert(b.contains(b[0]));
        }
        assert(a =~= b);
    } else {
        let top = a.last();
        assert(a.contains(top));
        let k = choose|k: int| 0 <= k < b.len() && b[k] == top;
        assert(b.contains(b.last()));
        let m = choose|m: int| 0 <= m < a.len() && a[m] == b.last();
        lemma_lex_irreflexive(top.0);
        assert(b.last() == top) by {
            if k < b.len() - 1 && m < a.len() - 1 {
                lemma_lex_transitive(top.0, b.last().0, top.0);
            }
        }
        let x = a.drop_last();
        let y = b.drop_last();
        assert forall|e: (Seq<char>, RawShortcut)| x.contains(e) <==> y.contains(e) by {
            if x.contains(e) {
                let i = choose|i: int| 0 <= i < x.len() && x[i] == e;
                assert(a[i] == e && a.contains(e));
                let j = choose|j: int| 0 <= j < b.len() && b[j] == e;
                assert(lex_less(a[i].0, top.0));
                assert(y[j] == e);
            }
            if y.contains(e) {
                let j = choose|j: int| 0 <= j < y.len() && y[j] == e;
                assert(b[j] == e && b.contains(e));
                let i = choose|i: int| 0 <= i < a.len() && a[i] == e;
                assert(lex_less(b[j].0, top.0));
                assert(x[i] == e);
            }
        }
        assert(ascending(x)) by {
            assert forall|i: int, j: int| 0 <= i < j < x.len() implies lex_less(
                #[trigger] x[i].0,
                #[trigger] x[j].0,
            ) by {
                assert(lex_less(a[i].0, a[j].0));
            }
        }
        assert(ascending(y)) by {
            assert forall|i: int, j: int| 0 <= i < j < y.len() implies lex_less(
                #[trigger] y[i].0,
                #[trigger] y[j].0,
            ) by {
                assert(lex_less(b[i].0, b[j].0));
            }
        }
        lemma_order_is_unique(x, y);
        assert(a =~= x.push(top));
        assert(b =~= y.push(top));
    }
}

fn char_before(c: char, d: char) -> (r: bool)
    ensures
        r == ((c as int) < (d as int)),
{
    (c as u32) < (d as u32)
}

/// Whether `a` comes before `b` in the order of dictionaries.
fn comes_before(a: &str, b: &str) -> (r: bool)
    ensures
        r == lex_less(a@, b@),
{
    let x = chars_of(a);
    let y = chars_of(b);
    let mut i: usize = 0;
    assert(x@.skip(0) =~= x@ && y@.skip(0) =~= y@);
    loop
        invariant
            x@ == a@,
            y@ == b@,
            i <= x.len(),
            i <= y.len(),
            lex_less(a@, b@) == lex_less(x@.skip(i as int), y@.skip(i as int)),
        decreases x.len() - i,
    {
        if i == y.len() {
            return false;
        }
        if i == x.len() {
            return true;
        }
        if x[i] != y[i] {
            return char_before(x[i], y[i]);
        }
        assert(x@.skip(i as int).drop_first() =~= x@.skip(i + 1));
        assert(y@.skip(i as int).drop_first() =~= y@.skip(i + 1));
        i += 1;
    }
}

impl View for RawConfig {
    type V = Seq<(Seq<char>, RawShortcut)>;

    /// The entries in their order, each as its description and what it is
    /// mapped to.
    closed spec fn view(&self) -> Seq<(Seq<char>, RawShortcut)> {
        Seq::new(
            self.entries@.len(),
            |i: int| (self.entries@[i].spec@, self.entries@[i].shortcut),
        )
    }
}

impl RawConfig {
    /// The entries are in the order of dictionaries, each description once.
    pub open spec fn wf(&self) -> bool {
        ascending(self@)
    }

    /// The empty configuration.
    pub fn new() -> (raw: RawConfig)
        ensures
            raw@ == Seq::<(Seq<char>, RawShortcut)>::empty(),
            raw.wf(),
    {
        RawConfig { entries: Vec::new() }
    }

    /// The number of entries.
    pub fn len(&self) -> (n: usize)
        ensures
            n == self@.len(),
    {
        self.entries.len()
    }

    /// The entry at `index`: its description and what it is mapped to.
    pub fn get(&self, index: usize) -> (entry: (&str, RawShortcut))
        requires
            index < self@.len(),
        ensures
            (entry.0@, entry.1) == self@[index as int],
    {
        (self.entries[index].spec.as_str(), self.entries[index].shortcut)
    }

    /// Maps `spec` to `shortcut`. An entry that `spec` already had is
    /// replaced; the other entries stay, and the order is kept.
    pub fn insert(&mut self, spec: String, shortcut: RawShortcut)
        requires
            old(self).wf(),
        ensures
            final(self).wf(),
            is_insertion(old(self)@, final(self)@, (spec@, shortcut)),
            final(self)@.len() == old(self)@.len() + if has_entry(old(self)@, spec@) {
                0int
            } else {
                1int
            },
    {
        let ghost before = self@;
        let n = self.entries.len();
        let mut at: usize = 0;
        while at < n && comes_before(self.entries[at].spec.as_str(), spec.as_str())
            invariant
                n == self.entries.len(),
                self@ == before,
                at <= n,
                forall|k: int| 0 <= k < at ==> lex_less(#[trigger] before[k].0, spec@),
            decreases n - at,
        {
            at += 1;
        }
        let ghost pair = (spec@, shortcut);
        let entry = RawEntry { spec, shortcut };
        proof {
            lemma_lex_irreflexive(pair.0);
        }
        if at < n && self.entries[at].spec == entry.spec {
            // the description is there already: its entry is replaced
            assert(before[at as int].0 == pair.0);
            self.entries[at] = entry;
            proof {
                assert(self@ =~= before.update(at as int, pair));
                assert forall|e: (Seq<char>, RawShortcut)|
                    #![trigger self@.contains(e)]
                    #![trigger before.contains(e)]
                    self@.contains(e) <==> (e == pair || (before.contains(e) && e.0 != pair.0)) by {
                    if self@.contains(e) {
                        let k = choose|k: int| 0 <= k < self@.len() && self@[k] == e;
                        assert(k < at ==> lex_less(before[k].0, before[at as int].0));
                        assert(k > at ==> lex_less(before[at as int].0, before[k].0));
                    }
                    if e == pair {
                        assert(self@[at as int] == e);
                    }
                    if before.contains(e) && e.0 != pair.0 {
                        let k = choose|k: int| 0 <= k < before.len() && before[k] == e;
                        assert(self@[k] == e);
                    }
                }
                assert forall|i: int, j: int| 0 <= i < j < self@.len() implies lex_less(
                    #[trigger] self@[i].0,
                    #[trigger] self@[j].0,
                ) by {
                    assert(lex_less(before[i].0, before[j].0));
                }
            }
        } else {
            // the description is new: its entry goes before the first that
            // comes after it
            self.entries.insert(at, entry);
            proof {
                assert(self@ =~= before.insert(at as int, pair));
                assert forall|k: int| at <= k < before.len() implies lex_less(
                    pair.0,
                    #[trigger] before[k].0,
                ) by {
                    lemma_lex_total(before[at as int].0, pair.0);
                    if k > at {
                        assert(lex_less(before[at as int].0, before[k].0));
                        lemma_lex_transitive(pair.0, before[at as int].0, before[k].0);
                    }
                }
                assert(!has_entry(before, pair.0));
                assert forall|i: int, j: int| 0 <= i < j < self@.len() implies lex_less(
                    #[trigger] self@[i].0,
                    #[trigger] self@[j].0,
                ) by {
                    if i < at && j > at {
                        assert(lex_less(before[i].0, before[j - 1].0));
                    } else if i > at {
                        assert(lex_less(before[i - 1].0, before[j - 1].0));
                    } else if j < at {
                        assert(lex_less(before[i].0, before[j].0));
                    }
                }
                assert forall|e: (Seq<char>, RawShortcut)|
                    #![trigger self@.contains(e)]
                    #![trigger before.contains(e)]
                    self@.contains(e) <==> (e == pair || (before.contains(e) && e.0 != pair.0)) by {
                    if self@.contains(e) {
                        let k = choose|k: int| 0 <= k < self@.len() && self@[k] == e;
                        assert(k < at ==> before[k] == e);
                        assert(k > at ==> before[k - 1] == e);
                    }
                    if e == pair {
                        assert(self@[at as int] == e);
                    }
                    if before.contains(e) && e.0 != pair.0 {
                        let k = choose|k: int| 0 <= k < before.len() && before[k] == e;
                        if k < at {
                            assert(self@[k] == e);
                        } else {
                            assert(self@[k + 1] == e);
                        }
                    }
                }
            }
        }
    }
}

} // verus!
