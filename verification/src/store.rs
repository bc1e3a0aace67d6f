//! The backing table for one entity kind: rows keyed per channel by a
//! lower-cased name, with upsert, counter, rename, visibility and group
//! operations. The table is the source of truth the registry's cache is
//! derived from.

use crate::key::Key;
use vstd::prelude::*;

verus! {

/// A persisted row.
#[derive(Debug)]
pub struct Row {
    /// The channel the entity belongs to.
    pub channel: String,
    /// The entity's name, lower-cased.
    pub name: String,
    /// How often the entity was invoked.
    pub count: u64,
    /// The entity's template text.
    pub text: String,
    /// The group the entity belongs to, if any.
    pub group: Option<String>,
    /// Whether the entity is hidden from ordinary lookup.
    pub disabled: bool,
}

/// The mathematical shape of a row: everything but its key.
pub struct RowModel {
    /// How often the entity was invoked.
    pub count: u64,
    /// The template text.
    pub text: Seq<char>,
    /// The group, if any.
    pub group: Option<Seq<char>>,
    /// Whether the entity is hidden.
    pub disabled: bool,
}

/// The shape of an optional string.
pub open spec fn opt_view(o: Option<String>) -> Option<Seq<char>> {
    match o {
        Some(s) => Some(s@),
        None => None,
    }
}

/// The key of a row.
pub open spec fn row_key(r: Row) -> (Seq<char>, Seq<char>) {
    (r.channel@, r.name@)
}

/// The shape of a row.
pub open spec fn row_model(r: Row) -> RowModel {
    RowModel { count: r.count, text: r.text@, group: opt_view(r.group), disabled: r.disabled }
}

/// The table a list of rows denotes; a later row would win over an earlier
/// one of the same key, but a well-formed table never holds two.
pub open spec fn rows_map(rows: Seq<Row>) -> Map<(Seq<char>, Seq<char>), RowModel>
    decreases rows.len(),
{
    if rows.len() == 0 {
        Map::empty()
    } else {
        rows_map(rows.drop_last()).insert(row_key(rows.last()), row_model(rows.last()))
    }
}

/// Whether no two rows share a key.
pub open spec fn rows_unique(rows: Seq<Row>) -> bool {
    forall|i: int, j: int|
        0 <= i < j < rows.len() ==> row_key(#[trigger] rows[i]) != row_key(#[trigger] rows[j])
}

/// Each row of a well-formed table is in its map.
pub proof fn lemma_rows_map_index(rows: Seq<Row>, i: int)
    requires
        rows_unique(rows),
        0 <= i < rows.len(),
    ensures
        rows_map(rows).contains_key(row_key(rows[i])),
        rows_map(rows)[row_key(rows[i])] == row_model(rows[i]),
    decreases rows.len(),
{
    if i == rows.len() - 1 {
    } else {
        assert(rows_unique(rows.drop_last()));
        lemma_rows_map_index(rows.drop_last(), i);
        assert(rows.drop_last()[i] == rows[i]);
        assert(row_key(rows[i]) != row_key(rows.last()));
    }
}

/// A key no row holds is not in the map.
pub proof fn lemma_rows_map_absent(rows: Seq<Row>, k: (Seq<char>, Seq<char>))
    requires
        forall|i: int| 0 <= i < rows.len() ==> row_key(#[trigger] rows[i]) != k,
    ensures
        !rows_map(rows).contains_key(k),
    decreases rows.len(),
{
    if rows.len() > 0 {
        lemma_rows_map_absent(rows.drop_last(), k);
    }
}

/// Removing the row at `i` removes exactly its key from the map.
pub proof fn lemma_rows_map_remove(rows: Seq<Row>, i: int)
    requires
        rows_unique(rows),
        0 <= i < rows.len(),
    ensures
        rows_map(rows.remove(i)) == rows_map(rows).remove(row_key(rows[i])),
        rows_unique(rows.remove(i)),
    decreases rows.len(),
{
    let k = row_key(rows[i]);
    assert(rows_unique(rows.drop_last()));
    if i == rows.len() - 1 {
        assert(rows.remove(i) =~= rows.drop_last());
        assert(forall|j: int|
            0 <= j < rows.drop_last().len() ==> row_key(#[trigger] rows.drop_last()[j]) != k);
        lemma_rows_map_absent(rows.drop_last(), k);
        assert(rows_map(rows.drop_last()) =~= rows_map(rows.drop_last()).insert(
            k,
            row_model(rows[i]),
        ).remove(k));
    } else {
        lemma_rows_map_remove(rows.drop_last(), i);
        assert(rows.remove(i).drop_last() =~= rows.drop_last().remove(i));
        assert(rows.remove(i).last() == rows.last());
        assert(rows.remove(i).len() == rows.len() - 1);
        assert(rows_map(rows.remove(i)) == rows_map(rows.drop_last().remove(i)).insert(
            row_key(rows.last()),
            row_model(rows.last()),
        ));
        assert(k != row_key(rows.last()));
        assert(rows_map(rows.drop_last()).remove(k).insert(
            row_key(rows.last()),
            row_model(rows.last()),
        ) =~= rows_map(rows).remove(k));
        assert(forall|a: int, b: int|
            0 <= a < b < rows.remove(i).len() ==> row_key(#[trigger] rows.remove(i)[a]) != row_key(
                #[trigger] rows.remove(i)[b],
            )) by {
            assert forall|a: int, b: int| 0 <= a < b < rows.remove(i).len() implies row_key(
                #[trigger] rows.remove(i)[a],
            ) != row_key(#[trigger] rows.remove(i)[b]) by {
                let a0 = if a < i {
                    a
                } else {
                    a + 1
                };
                let b0 = if b < i {
                    b
                } else {
                    b + 1
                };
                assert(rows.remove(i)[a] == rows[a0]);
                assert(rows.remove(i)[b] == rows[b0]);
            }
        }
    }
}

/// What a call of `edit` reports.
#[derive(Debug)]
pub enum EditOutcome {
    /// The key was absent; a fresh row was inserted.
    Fresh,
    /// The key was present and visible; its previous counter and group.
    Existing {
        /// The counter the row already had.
        count: u64,
        /// The group the row already had.
        group: Option<String>,
    },
    /// The key is present but disabled: the text was stored, yet the row
    /// must not become visible through this edit.
    Suppressed,
}

/// Copy an optional string.
pub fn opt_clone(o: &Option<String>) -> (r: Option<String>)
    ensures
        opt_view(r) == opt_view(*o),
{
    match o {
        Some(s) => Some(s.clone()),
        None => None,
    }
}

/// The backing table for one entity kind.
#[derive(Debug)]
pub struct Store {
    rows: Vec<Row>,
}

impl View for Store {
    type V = Map<(Seq<char>, Seq<char>), RowModel>;

    closed spec fn view(&self) -> Map<(Seq<char>, Seq<char>), RowModel> {
        rows_map(self.rows@)
    }
}

impl Store {
    /// No two rows share a key.
    pub closed spec fn wf(&self) -> bool {
        rows_unique(self.rows@)
    }

    /// An empty table.
    pub fn new() -> (r: Store)
        ensures
            r@ == Map::<(Seq<char>, Seq<char>), RowModel>::empty(),
            r.wf(),
    {
        Store { rows: Vec::new() }
    }

    /// The index of the row holding `key`, if one does.
    fn find(&self, key: &Key) -> (r: Option<usize>)
        requires
            self.wf(),
        ensures
            match r {
                Some(i) => i < self.rows@.len() && row_key(self.rows@[i as int]) == key@
                    && self@.contains_key(key@) && self@[key@] == row_model(self.rows@[i as int]),
                None => !self@.contains_key(key@),
            },
    {
        let len = self.rows.len();
        let mut i: usize = 0;
        while i < len
            invariant
                0 <= i <= len == self.rows@.len(),
                rows_unique(self.rows@),
                forall|j: int| 0 <= j < i ==> row_key(#[trigger] self.rows@[j]) != key@,
            decreases len - i,
        {
            if crate::words::str_eq(self.rows[i].channel.as_str(), key.channel())
                && crate::words::str_eq(self.rows[i].name.as_str(), key.name()) {
                proof {
                    lemma_rows_map_index(self.rows@, i as int);
                }
                return Some(i);
            }
            i = i + 1;
        }
        proof {
            lemma_rows_map_absent(self.rows@, key@);
        }
        None
    }

    /// Whether the table holds `key`.
    pub fn contains(&self, key: &Key) -> (r: bool)
        requires
            self.wf(),
        ensures
            r == self@.contains_key(key@),
    {
        self.find(key).is_some()
    }

    /// The rows of the table, in storage order.
    pub fn rows(&self) -> (r: &Vec<Row>)
        requires
            self.wf(),
        ensures
            rows_map(r@) == self@,
            rows_unique(r@),
    {
        &self.rows
    }

    /// An independent copy of the table.
    pub fn duplicate(&self) -> (r: Store)
        requires
            self.wf(),
        ensures
            r@ == self@,
            r.wf(),
    {
        let len = self.rows.len();
        let mut rows: Vec<Row> = Vec::new();
        let mut i: usize = 0;
        while i < len
            invariant
                0 <= i <= len == self.rows@.len(),
                rows@.len() == i,
                forall|j: int|
                    0 <= j < i ==> row_key(#[trigger] rows@[j]) == row_key(self.rows@[j])
                        && row_model(rows@[j]) == row_model(self.rows@[j]),
            decreases len - i,
        {
            let src = &self.rows[i];
            rows.push(
                Row {
                    channel: src.channel.clone(),
                    name: src.name.clone(),
                    count: src.count,
                    text: src.text.clone(),
                    group: opt_clone(&src.group),
                    disabled: src.disabled,
                },
            );
            i = i + 1;
        }
        proof {
            lemma_rows_map_congruent(rows@, self.rows@);
        }
        Store { rows }
    }

    /// Upsert the text at `key`: an absent row is created fresh, a present
    /// row keeps everything but its text. A disabled row takes the text but
    /// reports itself suppressed so the caller does not make it visible.
    pub fn edit(&mut self, key: &Key, text: &str) -> (r: EditOutcome)
        requires
            old(self).wf(),
        ensures
            final(self).wf(),
            !old(self)@.contains_key(key@) ==> r is Fresh && final(self)@ == old(self)@.insert(
                key@,
                RowModel { count: 0, text: text@, group: None, disabled: false },
            ),
            old(self)@.contains_key(key@) ==> final(self)@ == old(self)@.insert(
                key@,
                RowModel { text: text@, ..old(self)@[key@] },
            ) && (if old(self)@[key@].disabled {
                r is Suppressed
            } else {
                r matches EditOutcome::Existing { count, group } && count == old(
                    self,
                )@[key@].count && opt_view(group) == old(self)@[key@].group
            }),
    {
        match self.find(key) {
            None => {
                let ghost prev = self.rows@;
                self.rows.push(
                    Row {
                        channel: String::from_str(key.channel()),
                        name: String::from_str(key.name()),
                        count: 0,
                        text: String::from_str(text),
                        group: None,
                        disabled: false,
                    },
                );
                proof {
                    assert(self.rows@.drop_last() =~= prev);
                    assert forall|a: int, b: int| 0 <= a < b < self.rows@.len() implies row_key(
                        #[trigger] self.rows@[a],
                    ) != row_key(#[trigger] self.rows@[b]) by {
                        if b == self.rows@.len() - 1 {
                            assert(self.rows@[a] == prev[a]);
                            lemma_rows_map_index(prev, a);
                        } else {
                            assert(self.rows@[a] == prev[a]);
                            assert(self.rows@[b] == prev[b]);
                        }
                    }
                }
                EditOutcome::Fresh
            },
            Some(i) => {
                let ghost prev = self.rows@;
                let old_row = self.rows.remove(i);
                proof {
                    lemma_rows_map_remove(prev, i as int);
                }
                let ghost mid = self.rows@;
                let was_disabled = old_row.disabled;
                let count = old_row.count;
                let group = old_row.group;
                let reported = opt_clone(&group);
                self.rows.push(
                    Row {
                        channel: old_row.channel,
                        name: old_row.name,
                        count,
                        text: String::from_str(text),
                        group,
                        disabled: was_disabled,
                    },
                );
                proof {
                    lemma_unique_push(mid, self.rows@.last(), key@);
                    assert(self.rows@.drop_last() =~= mid);
                    assert(final(self)@ =~= old(self)@.insert(
                        key@,
                        RowModel { text: text@, ..old(self)@[key@] },
                    ));
                }
                if was_disabled {
                    EditOutcome::Suppressed
                } else {
                    EditOutcome::Existing { count, group: reported }
                }
            },
        }
    }

    /// Bump the counter at `key`. Reports whether exactly one row was there
    /// to take the bump; a counter at its ceiling refuses it.
    pub fn increment(&mut self, key: &Key) -> (r: bool)
        requires
            old(self).wf(),
        ensures
            final(self).wf(),
            if old(self)@.contains_key(key@) && old(self)@[key@].count < u64::MAX {
                r && final(self)@ == old(self)@.insert(
                    key@,
                    RowModel { count: (old(self)@[key@].count + 1) as u64, ..old(self)@[key@] },
                )
            } else {
                !r && final(self)@ == old(self)@
            },
    {
        match self.find(key) {
            None => false,
            Some(i) => {
                if self.rows[i].count == u64::MAX {
                    return false;
                }
                let ghost prev = self.rows@;
                let mut row = self.rows.remove(i);
                proof {
                    lemma_rows_map_remove(prev, i as int);
                }
                let ghost mid = self.rows@;
                row.count = row.count + 1;
                self.rows.push(row);
                proof {
                    lemma_unique_push(mid, self.rows@.last(), key@);
                    assert(self.rows@.drop_last() =~= mid);
                    assert(final(self)@ =~= old(self)@.insert(
                        key@,
                        RowModel { count: (old(self)@[key@].count + 1) as u64, ..old(self)@[key@] },
                    ));
                }
                true
            },
        }
    }

    /// Delete the row at `key`. Reports whether one was there.
    pub fn delete(&mut self, key: &Key) -> (r: bool)
        requires
            old(self).wf(),
        ensures
            final(self).wf(),
            if old(self)@.contains_key(key@) {
                r && final(self)@ == old(self)@.remove(key@)
            } else {
                !r && final(self)@ == old(self)@
            },
    {
        match self.find(key) {
            None => false,
            Some(i) => {
                let ghost prev = self.rows@;
                let _ = self.rows.remove(i);
                proof {
                    lemma_rows_map_remove(prev, i as int);
                }
                true
            },
        }
    }

    /// Move the row at `from` to the key `to`. Fails with `Missing` when
    /// `from` is absent, and with `Conflict` when `to` is already taken —
    /// renaming a row onto itself conflicts too.
    pub fn rename(&mut self, from: &Key, to: &Key) -> (r: Result<(), RenameError>)
        requires
            old(self).wf(),
        ensures
            final(self).wf(),
            if !old(self)@.contains_key(from@) {
                r == Err::<(), RenameError>(RenameError::Missing) && final(self)@ == old(self)@
            } else if old(self)@.contains_key(to@) {
                r == Err::<(), RenameError>(RenameError::Conflict) && final(self)@ == old(self)@
            } else {
                r is Ok && final(self)@ == old(self)@.remove(from@).insert(
                    to@,
                    old(self)@[from@],
                )
            },
    {
        match self.find(from) {
            None => Err(RenameError::Missing),
            Some(i) => {
                match self.find(to) {
                    Some(_) => Err(RenameError::Conflict),
                    None => {
                        let ghost prev = self.rows@;
                        let row = self.rows.remove(i);
                        proof {
                            lemma_rows_map_remove(prev, i as int);
                        }
                        let ghost mid = self.rows@;
                        self.rows.push(
                            Row {
                                channel: String::from_str(to.channel()),
                                name: String::from_str(to.name()),
                                count: row.count,
                                text: row.text,
                                group: row.group,
                                disabled: row.disabled,
                            },
                        );
                        proof {
                            assert(forall|j: int|
                                0 <= j < mid.len() ==> row_key(#[trigger] mid[j]) != to@) by {
                                assert forall|j: int| 0 <= j < mid.len() implies row_key(
                                    #[trigger] mid[j],
                                ) != to@ by {
                                    let j0 = if j < i {
                                        j
                                    } else {
                                        j + 1
                                    };
                                    assert(mid[j] == prev[j0]);
                                    lemma_rows_map_index(prev, j0);
                                }
                            }
                            lemma_unique_push(mid, self.rows@.last(), to@);
                            assert(self.rows@.drop_last() =~= mid);
                        }
                        Ok(())
                    },
                }
            },
        }
    }

    /// Set the disabled flag at `key`. Reports whether a row was there.
    pub fn set_disabled(&mut self, key: &Key, disabled: bool) -> (r: bool)
        requires
            old(self).wf(),
        ensures
            final(self).wf(),
            if old(self)@.contains_key(key@) {
                r && final(self)@ == old(self)@.insert(
                    key@,
                    RowModel { disabled, ..old(self)@[key@] },
                )
            } else {
                !r && final(self)@ == old(self)@
            },
    {
        match self.find(key) {
            None => false,
            Some(i) => {
                let ghost prev = self.rows@;
                let mut row = self.rows.remove(i);
                proof {
                    lemma_rows_map_remove(prev, i as int);
                }
                let ghost mid = self.rows@;
                row.disabled = disabled;
                self.rows.push(row);
                proof {
                    lemma_unique_push(mid, self.rows@.last(), key@);
                    assert(self.rows@.drop_last() =~= mid);
                    assert(final(self)@ =~= old(self)@.insert(
                        key@,
                        RowModel { disabled, ..old(self)@[key@] },
                    ));
                }
                true
            },
        }
    }

    /// Make the row at `key` visible again.
    pub fn enable(&mut self, key: &Key) -> (r: bool)
        requires
            old(self).wf(),
        ensures
            final(self).wf(),
            if old(self)@.contains_key(key@) {
                r && final(self)@ == old(self)@.insert(
                    key@,
                    RowModel { disabled: false, ..old(self)@[key@] },
                )
            } else {
                !r && final(self)@ == old(self)@
            },
    {
        self.set_disabled(key, false)
    }

    /// Hide the row at `key` from ordinary lookup.
    pub fn disable(&mut self, key: &Key) -> (r: bool)
        requires
            old(self).wf(),
        ensures
            final(self).wf(),
            if old(self)@.contains_key(key@) {
                r && final(self)@ == old(self)@.insert(
                    key@,
                    RowModel { disabled: true, ..old(self)@[key@] },
                )
            } else {
                !r && final(self)@ == old(self)@
            },
    {
        self.set_disabled(key, true)
    }

    /// Set the group of the row at `key`. Reports whether a row was there.
    pub fn edit_group(&mut self, key: &Key, group: Option<String>) -> (r: bool)
        requires
            old(self).wf(),
        ensures
            final(self).wf(),
            if old(self)@.contains_key(key@) {
                r && final(self)@ == old(self)@.insert(
                    key@,
                    RowModel { group: opt_view(group), ..old(self)@[key@] },
                )
            } else {
                !r && final(self)@ == old(self)@
            },
    {
        match self.find(key) {
            None => false,
            Some(i) => {
                let ghost prev = self.rows@;
                let mut row = self.rows.remove(i);
                proof {
                    lemma_rows_map_remove(prev, i as int);
                }
                let ghost mid = self.rows@;
                row.group = group;
                self.rows.push(row);
                proof {
                    lemma_unique_push(mid, self.rows@.last(), key@);
                    assert(self.rows@.drop_last() =~= mid);
                    assert(final(self)@ =~= old(self)@.insert(
                        key@,
                        RowModel { group: opt_view(row.group), ..old(self)@[key@] },
                    ));
                }
                true
            },
        }
    }
}

/// Why a rename failed.
#[derive(Clone, Copy, Debug, PartialEq, Eq, Structural)]
pub enum RenameError {
    /// The target name is already taken.
    Conflict,
    /// There is nothing under the source name.
    Missing,
}

/// Pushing a row whose key no other row holds keeps the table well-formed.
proof fn lemma_unique_push(rows: Seq<Row>, r: Row, k: (Seq<char>, Seq<char>))
    requires
        rows_unique(rows),
        row_key(r) == k,
        forall|i: int| 0 <= i < rows.len() ==> row_key(#[trigger] rows[i]) != k,
    ensures
        rows_unique(rows.push(r)),
        rows_map(rows.push(r)) == rows_map(rows).insert(k, row_model(r)),
{
    assert(rows.push(r).drop_last() =~= rows);
    assert forall|a: int, b: int| 0 <= a < b < rows.push(r).len() implies row_key(
        #[trigger] rows.push(r)[a],
    ) != row_key(#[trigger] rows.push(r)[b]) by {
        if b == rows.len() {
            assert(rows.push(r)[a] == rows[a]);
        } else {
            assert(rows.push(r)[a] == rows[a]);
            assert(rows.push(r)[b] == rows[b]);
        }
    }
}

/// Two row lists equal key-by-key and model-by-model denote the same table.
proof fn lemma_rows_map_congruent(a: Seq<Row>, b: Seq<Row>)
    requires
        a.len() == b.len(),
        forall|j: int|
            0 <= j < a.len() ==> row_key(#[trigger] a[j]) == row_key(b[j]) && row_model(a[j])
                == row_model(b[j]),
    ensures
        rows_map(a) == rows_map(b),
        rows_unique(b) ==> rows_unique(a),
    decreases a.len(),
{
    if a.len() > 0 {
        assert(forall|j: int|
            0 <= j < a.drop_last().len() ==> row_key(#[trigger] a.drop_last()[j]) == row_key(
                b.drop_last()[j],
            ) && row_model(a.drop_last()[j]) == row_model(b.drop_last()[j])) by {
            assert forall|j: int| 0 <= j < a.drop_last().len() implies row_key(
                #[trigger] a.drop_last()[j],
            ) == row_key(b.drop_last()[j]) && row_model(a.drop_last()[j]) == row_model(
                b.drop_last()[j],
            ) by {
                assert(a.drop_last()[j] == a[j]);
                assert(b.drop_last()[j] == b[j]);
            }
        }
        lemma_rows_map_congruent(a.drop_last(), b.drop_last());
        assert(row_key(a.last()) == row_key(b.last()));
        assert(row_model(a.last()) == row_model(b.last()));
    }
}

} // verus!
