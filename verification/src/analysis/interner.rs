//! A table of distinct strings.

use vstd::hash_map::StringHashMap;
use vstd::prelude::*;
use vstd::string::*;

use super::AnalysisError;
use crate::text;

verus! {

/// A table after a text joins it, at the end unless it is there already.
pub open spec fn joined(table: Seq<Seq<char>>, text: Seq<char>) -> Seq<Seq<char>> {
    if table.contains(text) {
        table
    } else {
        table.push(text)
    }
}

/// A table after texts join it in order.
pub open spec fn all_joined(table: Seq<Seq<char>>, texts: Seq<Seq<char>>) -> Seq<Seq<char>>
    decreases texts.len(),
{
    if texts.len() == 0 {
        table
    } else {
        joined(all_joined(table, texts.drop_last()), texts.last())
    }
}

/// Whether a row of a table holds a text.
pub open spec fn names(table: Seq<Seq<char>>, row: u32, text: Seq<char>) -> bool {
    row < table.len() && table[row as int] == text
}

/// Whether a table begins with another one.
pub open spec fn extends(table: Seq<Seq<char>>, earlier: Seq<Seq<char>>) -> bool {
    earlier.len() <= table.len() && table.take(earlier.len() as int) == earlier
}

/// Texts that join only add rows behind those of a table.
pub proof fn lemma_joining_extends(table: Seq<Seq<char>>, texts: Seq<Seq<char>>)
    ensures
        extends(all_joined(table, texts), table),
    decreases texts.len(),
{
    if texts.len() == 0 {
        assert(table.take(table.len() as int) =~= table);
    } else {
        lemma_joining_extends(table, texts.drop_last());
        let before = all_joined(table, texts.drop_last());
        assert(all_joined(table, texts).take(table.len() as int) =~= before.take(
            table.len() as int,
        ));
    }
}

/// A row keeps its text when a table grows.
pub proof fn lemma_names_stay(
    table: Seq<Seq<char>>,
    earlier: Seq<Seq<char>>,
    row: u32,
    text: Seq<char>,
)
    requires
        extends(table, earlier),
        names(earlier, row, text),
    ensures
        names(table, row, text),
{
    assert(table.take(earlier.len() as int)[row as int] == table[row as int]);
}

/// Growing twice is growing.
pub proof fn lemma_extends_is_transitive(
    a: Seq<Seq<char>>,
    b: Seq<Seq<char>>,
    c: Seq<Seq<char>>,
)
    requires
        extends(a, b),
        extends(b, c),
    ensures
        extends(a, c),
{
    assert(a.take(c.len() as int) =~= a.take(b.len() as int).take(c.len() as int));
}

/// Texts may join in two lots.
pub proof fn lemma_joined_in_lots(
    table: Seq<Seq<char>>,
    first: Seq<Seq<char>>,
    second: Seq<Seq<char>>,
)
    ensures
        all_joined(table, first + second) == all_joined(all_joined(table, first), second),
    decreases second.len(),
{
    if second.len() == 0 {
        assert(first + second =~= first);
    } else {
        lemma_joined_in_lots(table, first, second.drop_last());
        assert((first + second).drop_last() =~= first + second.drop_last());
        assert((first + second).last() == second.last());
    }
}

/// One more text joins.
pub proof fn lemma_joined_push(table: Seq<Seq<char>>, texts: Seq<Seq<char>>, text: Seq<char>)
    ensures
        all_joined(table, texts.push(text)) == joined(all_joined(table, texts), text),
{
    assert(texts.push(text).drop_last() =~= texts);
}

/// The rows of a joined table are distinct.
pub proof fn lemma_joined_is_distinct(table: Seq<Seq<char>>, texts: Seq<Seq<char>>)
    requires
        table.no_duplicates(),
    ensures
        all_joined(table, texts).no_duplicates(),
    decreases texts.len(),
{
    if texts.len() > 0 {
        lemma_joined_is_distinct(table, texts.drop_last());
    }
}

/// Collects distinct strings and numbers them.
pub struct StringInterner {
    values: Vec<String>,
    indexes: StringHashMap<u32>,
}

impl StringInterner {
    /// Whether the index knows exactly the strings of the table.
    pub closed spec fn is_wf(&self) -> bool {
        &&& self.values@.len() <= u32::MAX + 1
        &&& forall|key: Seq<char>|
            self.indexes@.contains_key(key) ==> names(
                self.texts(),
                #[trigger] self.indexes@[key],
                key,
            )
        &&& forall|i: int|
            0 <= i < self.values@.len() ==> self.indexes@.contains_key(
                #[trigger] self.values@[i]@,
            )
    }

    /// The strings so far.
    pub closed spec fn texts(&self) -> Seq<Seq<char>> {
        text::views(self.values@)
    }

    /// Row numbers suffice for the strings so far.
    pub proof fn lemma_row_bound(&self)
        requires
            self.is_wf(),
        ensures
            self.texts().len() <= u32::MAX + 1,
    {
    }

    pub fn new() -> (interner: Self)
        ensures
            interner.is_wf(),
            interner.texts() == Seq::<Seq<char>>::empty(),
    {
        let interner = StringInterner { values: Vec::new(), indexes: StringHashMap::new() };
        assert(interner.texts() =~= Seq::<Seq<char>>::empty());
        interner
    }

    /// The row of a string, which joins the table if it is new.
    pub(crate) fn intern(&mut self, value: &str) -> (r: Result<u32, AnalysisError>)
        requires
            old(self).is_wf(),
        ensures
            final(self).is_wf(),
            match r {
                Ok(row) => final(self).texts() == joined(old(self).texts(), value@) && names(
                    final(self).texts(),
                    row,
                    value@,
                ),
                Err(error) => {
                    &&& error == AnalysisError::TooManyRows
                    &&& final(self).texts() == old(self).texts()
                    &&& joined(old(self).texts(), value@).len() > u32::MAX + 1
                },
            },
    {
        if let Some(index) = self.indexes.get(value) {
            let row: u32 = *index;
            assert(names(self.texts(), row, value@));
            return Ok(row);
        }
        assert(!self.texts().contains(value@)) by {
            if self.texts().contains(value@) {
                let i = choose|i: int| 0 <= i < self.texts().len() && self.texts()[i] == value@;
                assert(self.values@[i]@ == value@);
            }
        }
        if self.values.len() > u32::MAX as usize {
            return Err(AnalysisError::TooManyRows);
        }
        let ghost before = *self;
        let row: u32 = self.values.len() as u32;
        self.values.push(value.to_string());
        self.indexes.insert(value.to_string(), row);
        proof {
            assert(self.texts() =~= before.texts().push(value@));
            assert forall|key: Seq<char>| self.indexes@.contains_key(key) implies names(
                self.texts(),
                #[trigger] self.indexes@[key],
                key,
            ) by {
                if key != value@ {
                    assert(before.indexes@.contains_key(key));
                    assert(names(before.texts(), before.indexes@[key], key));
                }
            }
            assert forall|i: int| 0 <= i < self.values@.len() implies self.indexes@.contains_key(
                #[trigger] self.values@[i]@,
            ) by {
                if i < before.values@.len() {
                    assert(before.values@[i] == self.values@[i]);
                }
            }
        }
        Ok(row)
    }

    /// The table.
    pub fn into_values(self) -> (values: Vec<String>)
        ensures
            text::views(values@) == self.texts(),
    {
        self.values
    }
}

} // verus!
