//! The order of texts, and tables whose entries stand in the order of their names.

use crate::text::{characters, same, same_text};
use vstd::prelude::*;

verus! {

// ---------------------------------------------------------------------------
// The order of texts
// ---------------------------------------------------------------------------

/// Whether a text stands before another: by its first characters, and where
/// they are the same by those behind them.
pub open spec fn text_less(a: Seq<char>, b: Seq<char>) -> bool
    decreases a.len(),
{
    if b.len() == 0 {
        false
    } else if a.len() == 0 {
        true
    } else if a[0] != b[0] {
        a[0] < b[0]
    } else {
        text_less(a.skip(1), b.skip(1))
    }
}

/// No text stands before itself.
pub proof fn lemma_text_irreflexive(a: Seq<char>)
    ensures
        !text_less(a, a),
    decreases a.len(),
{
    if a.len() > 0 {
        lemma_text_irreflexive(a.skip(1));
    }
}

/// Of two texts that differ one stands before the other.
pub proof fn lemma_text_total(a: Seq<char>, b: Seq<char>)
    ensures
        text_less(a, b) || text_less(b, a) || a == b,
        !(text_less(a, b) && text_less(b, a)),
    decreases a.len(),
{
    if a.len() > 0 && b.len() > 0 && a[0] == b[0] {
        lemma_text_total(a.skip(1), b.skip(1));
        if a.skip(1) == b.skip(1) {
            assert(a =~= seq![a[0]] + a.skip(1));
            assert(b =~= seq![b[0]] + b.skip(1));
        }
    } else if a.len() == 0 && b.len() == 0 {
        assert(a =~= b);
    }
}

/// What stands before a text that stands before a third stands before that.
pub proof fn lemma_text_transitive(a: Seq<char>, b: Seq<char>, c: Seq<char>)
    requires
        text_less(a, b),
        text_less(b, c),
    ensures
        text_less(a, c),
    decreases a.len(),
{
    if a.len() > 0 && b.len() > 0 && c.len() > 0 && a[0] == b[0] && b[0] == c[0] {
        lemma_text_transitive(a.skip(1), b.skip(1), c.skip(1));
    }
}

/// Whether a row of characters stands before another.
pub fn characters_less(a: &[char], b: &[char]) -> (result: bool)
    ensures
        result == text_less(a@, b@),
{
    let mut i: usize = 0;
    assert(a@.skip(0) =~= a@);
    assert(b@.skip(0) =~= b@);
    while i < a.len() && i < b.len()
        invariant
            i <= a@.len(),
            i <= b@.len(),
            text_less(a@, b@) == text_less(a@.skip(i as int), b@.skip(i as int)),
        decreases a@.len() - i,
    {
        assert(a@.skip(i as int).skip(1) =~= a@.skip(i + 1));
        assert(b@.skip(i as int).skip(1) =~= b@.skip(i + 1));
        if a[i] != b[i] {
            return a[i] < b[i];
        }
        i += 1;
    }
    i < b.len()
}

/// Whether a text stands before another.
pub fn precedes(a: &str, b: &str) -> (result: bool)
    ensures
        result == text_less(a@, b@),
{
    let left: Vec<char> = characters(a);
    let right: Vec<char> = characters(b);
    characters_less(left.as_slice(), right.as_slice())
}

// ---------------------------------------------------------------------------
// Tables
// ---------------------------------------------------------------------------

/// One entry of a table.
#[derive(Clone, Debug)]
pub struct Named<V> {
    pub name: String,
    pub value: V,
}

/// Values by their names, in the order of the names.
#[derive(Clone, Debug)]
pub struct Table<V> {
    pub entries: Vec<Named<V>>,
}

impl<V> View for Table<V> {
    type V = Seq<(Seq<char>, V)>;

    open spec fn view(&self) -> Seq<(Seq<char>, V)> {
        self.entries@.map_values(|entry: Named<V>| (entry.name@, entry.value))
    }
}

/// The value of a name.
pub open spec fn lookup<V>(table: Seq<(Seq<char>, V)>, name: Seq<char>) -> Option<V>
    decreases table.len(),
{
    if table.len() == 0 {
        None
    } else if table[0].0 == name {
        Some(table[0].1)
    } else {
        lookup(table.skip(1), name)
    }
}

/// A table with a value put under a name, in the place of one that it had there.
pub open spec fn inserted<V>(
    table: Seq<(Seq<char>, V)>,
    name: Seq<char>,
    value: V,
) -> Seq<(Seq<char>, V)>
    decreases table.len(),
{
    if table.len() == 0 {
        seq![(name, value)]
    } else if table[0].0 == name {
        seq![(name, value)] + table.skip(1)
    } else if text_less(name, table[0].0) {
        seq![(name, value)] + table
    } else {
        seq![table[0]] + inserted(table.skip(1), name, value)
    }
}

/// Whether the names of a table stand in order, each once.
pub open spec fn in_order<V>(table: Seq<(Seq<char>, V)>) -> bool {
    forall|i: int, j: int|
        0 <= i < j < table.len() ==> text_less(#[trigger] table[i].0, #[trigger] table[j].0)
}

/// A name that has just been put into a table in order has the value that was
/// put, and every other name keeps its own.
pub proof fn lemma_inserted_lookup<V>(
    table: Seq<(Seq<char>, V)>,
    name: Seq<char>,
    value: V,
    other: Seq<char>,
)
    requires
        in_order(table),
    ensures
        lookup(inserted(table, name, value), other) == if other == name {
            Some(value)
        } else {
            lookup(table, other)
        },
    decreases table.len(),
{
    let after = inserted(table, name, value);
    if table.len() == 0 {
        assert(after.skip(1) =~= table);
    } else {
        let rest = table.skip(1);
        assert(in_order(rest)) by {
            assert forall|i: int, j: int| 0 <= i < j < rest.len() implies text_less(
                #[trigger] rest[i].0,
                #[trigger] rest[j].0,
            ) by {
                assert(rest[i] == table[i + 1]);
                assert(rest[j] == table[j + 1]);
            }
        }
        if table[0].0 == name {
            assert(after.skip(1) =~= rest);
        } else if text_less(name, table[0].0) {
            assert(after.skip(1) =~= table);
        } else {
            lemma_inserted_lookup(rest, name, value, other);
            assert(after.skip(1) =~= inserted(rest, name, value));
        }
    }
}

/// Putting a value under a name keeps a table in order.
pub proof fn lemma_inserted_in_order<V>(table: Seq<(Seq<char>, V)>, name: Seq<char>, value: V)
    requires
        in_order(table),
    ensures
        in_order(inserted(table, name, value)),
        forall|i: int|
            0 <= i < inserted(table, name, value).len() ==> (#[trigger] inserted(
                table,
                name,
                value,
            )[i]).0 == name || exists|k: int|
                0 <= k < table.len() && (#[trigger] table[k]).0 == inserted(
                    table,
                    name,
                    value,
                )[i].0,
    decreases table.len(),
{
    let after = inserted(table, name, value);
    if table.len() > 0 {
        let rest = table.skip(1);
        assert forall|i: int, j: int| 0 <= i < j < rest.len() implies text_less(
            #[trigger] rest[i].0,
            #[trigger] rest[j].0,
        ) by {
            assert(rest[i] == table[i + 1]);
            assert(rest[j] == table[j + 1]);
        }
        lemma_inserted_in_order(rest, name, value);
        lemma_text_total(name, table[0].0);
        if table[0].0 == name {
            assert forall|i: int| 0 <= i < after.len() implies (#[trigger] after[i]).0
                == table[i].0 by {}
        } else if text_less(name, table[0].0) {
            assert forall|i: int, j: int| 0 <= i < j < after.len() implies text_less(
                #[trigger] after[i].0,
                #[trigger] after[j].0,
            ) by {
                assert(after[j] == table[j - 1]);
                if i > 0 {
                    assert(after[i] == table[i - 1]);
                } else if j > 1 {
                    lemma_text_transitive(name, table[0].0, table[j - 1].0);
                }
            }
            assert forall|i: int| 0 <= i < after.len() implies (#[trigger] after[i]).0 == name
                || exists|k: int|
                0 <= k < table.len() && (#[trigger] table[k]).0 == after[i].0 by {
                if i > 0 {
                    assert(after[i] == table[i - 1]);
                }
            }
        } else {
            let tail = inserted(rest, name, value);
            assert forall|i: int| 0 <= i < tail.len() implies text_less(
                table[0].0,
                (#[trigger] tail[i]).0,
            ) && (tail[i].0 == name || exists|k: int|
                0 <= k < table.len() && (#[trigger] table[k]).0 == tail[i].0) by {
                if tail[i].0 != name {
                    let k = choose|k: int|
                        0 <= k < rest.len() && (#[trigger] rest[k]).0 == tail[i].0;
                    assert(rest[k] == table[k + 1]);
                }
            }
            assert forall|i: int, j: int| 0 <= i < j < after.len() implies text_less(
                #[trigger] after[i].0,
                #[trigger] after[j].0,
            ) by {
                assert(after[j] == tail[j - 1]);
                if i > 0 {
                    assert(after[i] == tail[i - 1]);
                }
            }
            assert forall|i: int| 0 <= i < after.len() implies (#[trigger] after[i]).0 == name
                || exists|k: int|
                0 <= k < table.len() && (#[trigger] table[k]).0 == after[i].0 by {
                if i > 0 {
                    assert(after[i] == tail[i - 1]);
                } else {
                    assert(after[i] == table[0]);
                }
            }
        }
    }
}

/// The last name of a table in order has its value, and is not found before it.
pub proof fn lemma_lookup_last<V>(table: Seq<(Seq<char>, V)>, name: Seq<char>)
    requires
        in_order(table),
        table.len() > 0,
    ensures
        in_order(table.drop_last()),
        lookup(table, name) == if table.last().0 == name {
            Some(table.last().1)
        } else {
            lookup(table.drop_last(), name)
        },
        lookup(table.drop_last(), table.last().0) is None,
    decreases table.len(),
{
    let less = table.drop_last();
    let rest = table.skip(1);
    if table.len() > 1 {
        assert(in_order(rest)) by {
            assert forall|i: int, j: int| 0 <= i < j < rest.len() implies text_less(
                #[trigger] rest[i].0,
                #[trigger] rest[j].0,
            ) by {
                assert(rest[i] == table[i + 1]);
                assert(rest[j] == table[j + 1]);
            }
        }
        lemma_lookup_last(rest, name);
        assert(rest.drop_last() =~= less.skip(1));
        assert(text_less(table[0].0, table[table.len() - 1].0));
        lemma_text_irreflexive(table[0].0);
    } else {
        assert(lookup(rest, name) is None);
    }
}

/// A name has a value exactly where it is one of the names of the table.
pub proof fn lemma_lookup_finds<V>(table: Seq<(Seq<char>, V)>, name: Seq<char>)
    ensures
        lookup(table, name) is Some <==> exists|i: int|
            0 <= i < table.len() && (#[trigger] table[i]).0 == name,
    decreases table.len(),
{
    if table.len() > 0 {
        let rest = table.skip(1);
        lemma_lookup_finds(rest, name);
        if exists|i: int| 0 <= i < rest.len() && (#[trigger] rest[i]).0 == name {
            let i = choose|i: int| 0 <= i < rest.len() && (#[trigger] rest[i]).0 == name;
            assert(table[i + 1].0 == name);
        }
        if exists|i: int| 0 <= i < table.len() && (#[trigger] table[i]).0 == name {
            let i = choose|i: int| 0 <= i < table.len() && (#[trigger] table[i]).0 == name;
            if i > 0 {
                assert(rest[i - 1].0 == name);
            }
        }
    }
}

proof fn lemma_lookup_skips<V>(table: Seq<(Seq<char>, V)>, name: Seq<char>, n: int)
    requires
        0 <= n <= table.len(),
        forall|k: int| 0 <= k < n ==> (#[trigger] table[k]).0 != name,
    ensures
        lookup(table, name) == lookup(table.skip(n), name),
    decreases n,
{
    if n == 0 {
        assert(table.skip(0) =~= table);
    } else {
        let rest = table.skip(1);
        assert(table[0].0 != name);
        assert forall|k: int| 0 <= k < n - 1 implies (#[trigger] rest[k]).0 != name by {
            assert(rest[k] == table[k + 1]);
        }
        lemma_lookup_skips(rest, name, n - 1);
        assert(rest.skip(n - 1) =~= table.skip(n));
    }
}

proof fn lemma_inserted_behind<V>(
    table: Seq<(Seq<char>, V)>,
    name: Seq<char>,
    value: V,
    n: int,
)
    requires
        0 <= n <= table.len(),
        forall|k: int|
            0 <= k < n ==> (#[trigger] table[k]).0 != name && !text_less(name, table[k].0),
    ensures
        inserted(table, name, value) == table.take(n) + inserted(table.skip(n), name, value),
    decreases n,
{
    if n == 0 {
        assert(table.skip(0) =~= table);
        assert(table.take(0) + inserted(table, name, value) =~= inserted(table, name, value));
    } else {
        let rest = table.skip(1);
        assert(table[0].0 != name && !text_less(name, table[0].0));
        assert forall|k: int| 0 <= k < n - 1 implies (#[trigger] rest[k]).0 != name && !text_less(
            name,
            rest[k].0,
        ) by {
            assert(rest[k] == table[k + 1]);
        }
        lemma_inserted_behind(rest, name, value, n - 1);
        assert(rest.skip(n - 1) =~= table.skip(n));
        assert(seq![table[0]] + rest.take(n - 1) =~= table.take(n));
        assert(inserted(table, name, value) =~= table.take(n) + inserted(
            table.skip(n),
            name,
            value,
        ));
    }
}

impl<V: Copy> Table<V> {
    pub fn new() -> (result: Self)
        ensures
            result@ == Seq::<(Seq<char>, V)>::empty(),
    {
        let result: Table<V> = Table { entries: Vec::new() };
        assert(result@ =~= Seq::<(Seq<char>, V)>::empty());
        result
    }

    pub fn len(&self) -> (result: usize)
        ensures
            result == self@.len(),
    {
        self.entries.len()
    }

    pub fn is_empty(&self) -> (result: bool)
        ensures
            result == (self@.len() == 0),
    {
        self.entries.len() == 0
    }

    /// The value of a name.
    pub fn get(&self, name: &str) -> (result: Option<V>)
        ensures
            result == lookup(self@, name@),
    {
        let mut i: usize = 0;
        while i < self.entries.len()
            invariant
                i <= self.entries@.len(),
                self@.len() == self.entries@.len(),
                forall|k: int| 0 <= k < i ==> (#[trigger] self@[k]).0 != name@,
            decreases self.entries@.len() - i,
        {
            assert(self@[i as int].0 == self.entries@[i as int].name@);
            if same_text(self.entries[i].name.as_str(), name) {
                proof {
                    lemma_lookup_skips(self@, name@, i as int);
                }
                return Some(self.entries[i].value);
            }
            i += 1;
        }
        proof {
            lemma_lookup_skips(self@, name@, i as int);
        }
        None
    }

    pub fn contains_key(&self, name: &str) -> (result: bool)
        ensures
            result == (lookup(self@, name@) is Some),
    {
        self.get(name).is_some()
    }

    /// Puts a value under a name, in the place of one that is there.
    pub fn insert(&mut self, name: String, value: V)
        ensures
            final(self)@ == inserted(old(self)@, name@, value),
    {
        let ghost before = self@;
        let wanted: Vec<char> = characters(name.as_str());
        let mut i: usize = 0;
        while i < self.entries.len()
            invariant
                i <= self.entries@.len(),
                self@ == before,
                before.len() == self.entries@.len(),
                wanted@ == name@,
                forall|k: int|
                    0 <= k < i ==> (#[trigger] before[k]).0 != name@ && !text_less(
                        name@,
                        before[k].0,
                    ),
                *self == *old(self),
            decreases self.entries@.len() - i,
        {
            let here: Vec<char> = characters(self.entries[i].name.as_str());
            assert(before[i as int].0 == here@);
            if same(here.as_slice(), wanted.as_slice()) {
                proof {
                    lemma_inserted_behind(before, name@, value, i as int);
                }
                self.entries.set(i, Named { name, value });
                assert(self@ =~= inserted(before, name@, value));
                return;
            }
            if characters_less(wanted.as_slice(), here.as_slice()) {
                proof {
                    lemma_inserted_behind(before, name@, value, i as int);
                }
                self.entries.insert(i, Named { name, value });
                assert(self@ =~= inserted(before, name@, value));
                return;
            }
            i += 1;
        }
        proof {
            lemma_inserted_behind(before, name@, value, i as int);
        }
        self.entries.push(Named { name, value });
        assert(self@ =~= inserted(before, name@, value));
    }
}

} // verus!
