//! The entity registry: an in-memory cache of compiled entities in front of
//! the backing table. The cache is derived, never authoritative: every
//! mutation commits to the table first and mirrors into the cache second,
//! and a fresh registry loaded from the same table converges to the same
//! cache.

use crate::key::{key_view, Key};
use crate::store::{
    lemma_rows_map_index, opt_clone, opt_view, row_key, row_model, rows_map, rows_unique,
    EditOutcome, RenameError, Row, RowModel, Store,
};
use crate::template::{segs_view, tpl_parse, CompileError, RenderError, SegView, Segment, Template};
use vstd::prelude::*;

verus! {

/// A named, per-channel entity: a compiled template with a usage counter,
/// an optional group and a visibility flag.
#[derive(Debug)]
pub struct Command {
    /// What identifies the entity.
    pub key: Key,
    /// How often the entity was invoked.
    pub count: u64,
    /// The compiled template.
    pub template: Template,
    /// The group the entity belongs to, if any.
    pub group: Option<String>,
    /// Whether the entity is hidden from ordinary lookup.
    pub disabled: bool,
}

/// The mathematical shape of an entity: everything but its key.
pub struct EntityModel {
    /// How often the entity was invoked.
    pub count: u64,
    /// The template's source text.
    pub src: Seq<char>,
    /// The template's compiled segments.
    pub segs: Seq<SegView>,
    /// The group, if any.
    pub group: Option<Seq<char>>,
    /// Whether the entity is hidden.
    pub disabled: bool,
}

/// The shape of an entity.
pub open spec fn cmd_model(c: Command) -> EntityModel {
    EntityModel {
        count: c.count,
        src: c.template.source@,
        segs: segs_view(c.template.segments@),
        group: opt_view(c.group),
        disabled: c.disabled,
    }
}

/// The cache a list of entities denotes.
pub open spec fn cmds_map(v: Seq<Command>) -> Map<(Seq<char>, Seq<char>), EntityModel>
    decreases v.len(),
{
    if v.len() == 0 {
        Map::empty()
    } else {
        cmds_map(v.drop_last()).insert(v.last().key@, cmd_model(v.last()))
    }
}

/// Whether no two cached entities share a key.
pub open spec fn cmds_unique(v: Seq<Command>) -> bool {
    forall|i: int, j: int|
        0 <= i < j < v.len() ==> (#[trigger] v[i]).key@ != (#[trigger] v[j]).key@
}

/// The entity a row compiles to, assuming its text parses.
pub open spec fn entity_of_row(r: RowModel) -> EntityModel {
    EntityModel {
        count: r.count,
        src: r.text,
        segs: tpl_parse(r.text)->Some_0,
        group: r.group,
        disabled: r.disabled,
    }
}

/// Whether every row of the table compiles.
pub open spec fn store_ok(s: Map<(Seq<char>, Seq<char>), RowModel>) -> bool {
    forall|k: (Seq<char>, Seq<char>)| #[trigger]
        s.contains_key(k) ==> tpl_parse(s[k].text) is Some
}

/// The cache a table loads to.
pub open spec fn load_model(s: Map<(Seq<char>, Seq<char>), RowModel>) -> Map<
    (Seq<char>, Seq<char>),
    EntityModel,
> {
    Map::new(|k: (Seq<char>, Seq<char>)| s.contains_key(k), |k: (Seq<char>, Seq<char>)|
        entity_of_row(s[k]),
    )
}

/// The cache mirrors the table: every cached entity stands for a row that
/// compiles to it.
pub open spec fn covers(
    c: Map<(Seq<char>, Seq<char>), EntityModel>,
    s: Map<(Seq<char>, Seq<char>), RowModel>,
) -> bool {
    forall|k: (Seq<char>, Seq<char>)| #[trigger]
        c.contains_key(k) ==> s.contains_key(k) && tpl_parse(s[k].text) is Some && c[k]
            == entity_of_row(s[k])
}

/// The cache mirrors the table exactly: additionally, every row is cached.
pub open spec fn synced(
    c: Map<(Seq<char>, Seq<char>), EntityModel>,
    s: Map<(Seq<char>, Seq<char>), RowModel>,
) -> bool {
    covers(c, s) && forall|k: (Seq<char>, Seq<char>)| #[trigger]
        s.contains_key(k) ==> c.contains_key(k)
}

/// What ordinary, enabled-only lookup sees in the cache `c` at `k`.
pub open spec fn m_get(c: Map<(Seq<char>, Seq<char>), EntityModel>, k: (Seq<char>, Seq<char>)) -> Option<
    EntityModel,
> {
    if c.contains_key(k) && !c[k].disabled {
        Some(c[k])
    } else {
        None
    }
}

/// What administrative lookup sees in the cache `c` at `k`: disabled
/// entities too.
pub open spec fn m_get_any(
    c: Map<(Seq<char>, Seq<char>), EntityModel>,
    k: (Seq<char>, Seq<char>),
) -> Option<EntityModel> {
    if c.contains_key(k) {
        Some(c[k])
    } else {
        None
    }
}

/// The table after an upsert of `text` at `k`: a fresh row, or the old row
/// with only its text replaced.
pub open spec fn m_edit_store(
    s: Map<(Seq<char>, Seq<char>), RowModel>,
    k: (Seq<char>, Seq<char>),
    text: Seq<char>,
) -> Map<(Seq<char>, Seq<char>), RowModel> {
    if s.contains_key(k) {
        s.insert(k, RowModel { text, ..s[k] })
    } else {
        s.insert(k, RowModel { count: 0, text, group: None, disabled: false })
    }
}

/// The cache after an upsert of `text` at `k` against the old table `s`:
/// a disabled row suppresses the edit and drops any stale entry, any other
/// row keeps its counter and group.
pub open spec fn m_edit_cache(
    c: Map<(Seq<char>, Seq<char>), EntityModel>,
    s: Map<(Seq<char>, Seq<char>), RowModel>,
    k: (Seq<char>, Seq<char>),
    text: Seq<char>,
    segs: Seq<SegView>,
) -> Map<(Seq<char>, Seq<char>), EntityModel> {
    if s.contains_key(k) && s[k].disabled {
        c.remove(k)
    } else if s.contains_key(k) {
        c.insert(
            k,
            EntityModel { count: s[k].count, src: text, segs, group: s[k].group, disabled: false },
        )
    } else {
        c.insert(k, EntityModel { count: 0, src: text, segs, group: None, disabled: false })
    }
}

/// The administrative display line of an entity: its template source, its
/// group or "*none*", and its visibility.
pub open spec fn display_of(e: EntityModel) -> Seq<char> {
    "template = \""@ + e.src + "\", group = "@ + (match e.group {
        Some(g) => g,
        None => "*none*"@,
    }) + ", disabled = "@ + (if e.disabled {
        "true"@
    } else {
        "false"@
    })
}

/// Each cached entity of a well-formed cache is in its map.
proof fn lemma_cmds_map_index(v: Seq<Command>, i: int)
    requires
        cmds_unique(v),
        0 <= i < v.len(),
    ensures
        cmds_map(v).contains_key(v[i].key@),
        cmds_map(v)[v[i].key@] == cmd_model(v[i]),
    decreases v.len(),
{
    if i == v.len() - 1 {
    } else {
        assert(cmds_unique(v.drop_last()));
        lemma_cmds_map_index(v.drop_last(), i);
        assert(v.drop_last()[i] == v[i]);
    }
}

/// A key no cached entity holds is not in the map.
proof fn lemma_cmds_map_absent(v: Seq<Command>, k: (Seq<char>, Seq<char>))
    requires
        forall|i: int| 0 <= i < v.len() ==> (#[trigger] v[i]).key@ != k,
    ensures
        !cmds_map(v).contains_key(k),
    decreases v.len(),
{
    if v.len() > 0 {
        lemma_cmds_map_absent(v.drop_last(), k);
    }
}

/// Removing the entity at `i` removes exactly its key from the map.
proof fn lemma_cmds_map_remove(v: Seq<Command>, i: int)
    requires
        cmds_unique(v),
        0 <= i < v.len(),
    ensures
        cmds_map(v.remove(i)) == cmds_map(v).remove(v[i].key@),
        cmds_unique(v.remove(i)),
    decreases v.len(),
{
    let k = v[i].key@;
    assert(cmds_unique(v.drop_last()));
    if i == v.len() - 1 {
        assert(v.remove(i) =~= v.drop_last());
        assert(forall|j: int|
            0 <= j < v.drop_last().len() ==> (#[trigger] v.drop_last()[j]).key@ != k);
        lemma_cmds_map_absent(v.drop_last(), k);
        assert(cmds_map(v.drop_last()) =~= cmds_map(v.drop_last()).insert(
            k,
            cmd_model(v[i]),
        ).remove(k));
    } else {
        lemma_cmds_map_remove(v.drop_last(), i);
        assert(v.remove(i).drop_last() =~= v.drop_last().remove(i));
        assert(v.remove(i).last() == v.last());
        assert(cmds_map(v.remove(i)) == cmds_map(v.drop_last().remove(i)).insert(
            v.last().key@,
            cmd_model(v.last()),
        ));
        assert(k != v.last().key@);
        assert(cmds_map(v.drop_last()).remove(k).insert(v.last().key@, cmd_model(v.last()))
            =~= cmds_map(v).remove(k));
        assert forall|a: int, b: int| 0 <= a < b < v.remove(i).len() implies (#[trigger] v.remove(
            i,
        )[a]).key@ != (#[trigger] v.remove(i)[b]).key@ by {
            let a0 = if a < i {
                a
            } else {
                a + 1
            };
            let b0 = if b < i {
                b
            } else {
                b + 1
            };
            assert(v.remove(i)[a] == v[a0]);
            assert(v.remove(i)[b] == v[b0]);
        }
    }
}

/// Pushing an entity whose key no other entity holds keeps the cache
/// well-formed.
proof fn lemma_cmds_unique_push(v: Seq<Command>, c: Command, k: (Seq<char>, Seq<char>))
    requires
        cmds_unique(v),
        c.key@ == k,
        forall|i: int| 0 <= i < v.len() ==> (#[trigger] v[i]).key@ != k,
    ensures
        cmds_unique(v.push(c)),
        cmds_map(v.push(c)) == cmds_map(v).insert(k, cmd_model(c)),
    decreases v.len(),
{
    assert(v.push(c).drop_last() =~= v);
    assert forall|a: int, b: int| 0 <= a < b < v.push(c).len() implies (#[trigger] v.push(
        c,
    )[a]).key@ != (#[trigger] v.push(c)[b]).key@ by {
        if b == v.len() {
            assert(v.push(c)[a] == v[a]);
        } else {
            assert(v.push(c)[a] == v[a]);
            assert(v.push(c)[b] == v[b]);
        }
    }
}

/// Loading an extended table is loading the table and the one row more.
proof fn lemma_load_model_insert(
    s: Map<(Seq<char>, Seq<char>), RowModel>,
    k: (Seq<char>, Seq<char>),
    r: RowModel,
)
    ensures
        load_model(s.insert(k, r)) == load_model(s).insert(k, entity_of_row(r)),
{
    assert(load_model(s.insert(k, r)) =~= load_model(s).insert(k, entity_of_row(r)));
}

impl Command {
    /// Compile an entity out of a persisted row. A row's name only ever
    /// came out of a `Key`, which folds it on construction, so the key is
    /// rebuilt from the row as it stands. Fails exactly when the row's
    /// text does not compile.
    pub fn from_db(row: &Row) -> (r: Result<Command, CompileError>)
        ensures
            match r {
                Ok(c) => tpl_parse(row.text@) is Some && c.key@ == row_key(*row) && cmd_model(c)
                    == entity_of_row(row_model(*row)),
                Err(_) => tpl_parse(row.text@) is None,
            },
    {
        let template = match Template::compile(row.text.as_str()) {
            Ok(t) => t,
            Err(e) => {
                return Err(e);
            },
        };
        Ok(
            Command {
                key: Key::from_folded(row.channel.clone(), row.name.clone()),
                count: row.count,
                template,
                group: opt_clone(&row.group),
                disabled: row.disabled,
            },
        )
    }

    /// The current counter.
    pub fn count(&self) -> (r: u64)
        ensures
            r == self.count,
    {
        self.count
    }

    /// Render the entity's template against the bindings `data`.
    pub fn render(&self, data: &Vec<(String, String)>) -> (r: Result<String, RenderError>)
        ensures
            match crate::template::rend(
                segs_view(self.template.segments@),
                crate::template::pairs_map(data@),
            ) {
                Ok(t) => r matches Ok(out) && out@ == t,
                Err(v) => r matches Err(e) && e.var@ == v,
            },
    {
        self.template.render(data)
    }

    /// Whether the entity's template references the variable `var`.
    pub fn has_var(&self, var: &str) -> (r: bool)
        ensures
            r == crate::template::seg_vars(segs_view(self.template.segments@)).contains(var@),
    {
        self.template.has_var(var)
    }

    /// The administrative display line of this entity.
    pub fn display_string(&self) -> (r: String)
        ensures
            r@ == display_of(cmd_model(*self)),
    {
        let mut r = String::from_str("template = \"");
        r.append(self.template.source.as_str());
        r.append("\", group = ");
        match &self.group {
            Some(g) => r.append(g.as_str()),
            None => r.append("*none*"),
        }
        r.append(", disabled = ");
        if self.disabled {
            r.append("true");
        } else {
            r.append("false");
        }
        proof {
            assert(r@ =~= display_of(cmd_model(*self)));
        }
        r
    }

    /// An independent copy of this entity.
    pub fn duplicate(&self) -> (r: Command)
        ensures
            r.key@ == self.key@,
            cmd_model(r) == cmd_model(*self),
    {
        let mut segments: Vec<Segment> = Vec::new();
        let len = self.template.segments.len();
        let mut i: usize = 0;
        while i < len
            invariant
                0 <= i <= len == self.template.segments@.len(),
                segments@.len() == i,
                forall|j: int|
                    0 <= j < i ==> crate::template::seg_view(#[trigger] segments@[j])
                        == crate::template::seg_view(self.template.segments@[j]),
            decreases len - i,
        {
            let seg = match &self.template.segments[i] {
                Segment::Lit(l) => Segment::Lit(l.clone()),
                Segment::Var(v) => Segment::Var(v.clone()),
            };
            segments.push(seg);
            i = i + 1;
        }
        proof {
            assert(segs_view(segments@) =~= segs_view(self.template.segments@));
        }
        Command {
            key: self.key.duplicate(),
            count: self.count,
            template: Template { source: self.template.source.clone(), segments },
            group: opt_clone(&self.group),
            disabled: self.disabled,
        }
    }
}

/// The registry: the cache and the backing table it is derived from.
#[derive(Debug)]
pub struct Commands {
    cache: Vec<Command>,
    db: Store,
}

impl Commands {
    /// The cache as a map.
    pub closed spec fn cache_map(&self) -> Map<(Seq<char>, Seq<char>), EntityModel> {
        cmds_map(self.cache@)
    }

    /// The backing table as a map.
    pub closed spec fn store_map(&self) -> Map<(Seq<char>, Seq<char>), RowModel> {
        self.db@
    }

    /// The registry is well-formed: the table and the cache are, and the
    /// cache mirrors the table.
    pub closed spec fn wf(&self) -> bool {
        &&& self.db.wf()
        &&& cmds_unique(self.cache@)
        &&& covers(self.cache_map(), self.store_map())
    }

    /// Load a registry from the backing table, compiling every row. A
    /// single row that fails to compile aborts the whole load: a corrupt
    /// row must not silently disappear.
    pub fn load(db: Store) -> (r: Result<Commands, CompileError>)
        requires
            db.wf(),
        ensures
            match r {
                Ok(c) => c.wf() && store_ok(db@) && c.store_map() == db@ && c.cache_map()
                    == load_model(db@) && synced(c.cache_map(), c.store_map()),
                Err(_) => !store_ok(db@),
            },
    {
        let rows = db.rows();
        let ghost rv = rows@;
        let len = rows.len();
        let mut cache: Vec<Command> = Vec::new();
        let mut i: usize = 0;
        proof {
            assert(rv.take(0) =~= Seq::<Row>::empty());
            assert(load_model(rows_map(rv.take(0))) =~= Map::<(Seq<char>, Seq<char>),
                EntityModel>::empty());
        }
        while i < len
            invariant
                0 <= i <= len == rv.len(),
                rows@ == rv,
                rows_unique(rv),
                rows_map(rv) == db@,
                cache@.len() == i,
                forall|j: int| 0 <= j < i ==> (#[trigger] cache@[j]).key@ == row_key(rv[j]),
                forall|j: int|
                    0 <= j < i ==> tpl_parse(row_model(#[trigger] rv[j]).text) is Some
                        && cmd_model(cache@[j]) == entity_of_row(row_model(rv[j])),
                cmds_map(cache@) == load_model(rows_map(rv.take(i as int))),
                cmds_unique(cache@),
            decreases len - i,
        {
            let cmd = match Command::from_db(&rows[i]) {
                Ok(c) => c,
                Err(e) => {
                    proof {
                        lemma_rows_map_index(rv, i as int);
                    }
                    return Err(e);
                },
            };
            let ghost prev = cache@;
            proof {
                assert forall|j: int| 0 <= j < prev.len() implies (#[trigger] prev[j]).key@
                    != cmd.key@ by {
                    assert(prev[j].key@ == row_key(rv[j]));
                }
                lemma_cmds_unique_push(prev, cmd, cmd.key@);
            }
            cache.push(cmd);
            proof {
                assert(rv.take(i + 1).drop_last() =~= rv.take(i as int));
                assert(rv.take(i + 1).last() == rv[i as int]);
                lemma_load_model_insert(
                    rows_map(rv.take(i as int)),
                    row_key(rv[i as int]),
                    row_model(rv[i as int]),
                );
            }
            i = i + 1;
        }
        proof {
            assert(rv.take(len as int) =~= rv);
            lemma_store_ok_from_rows(rv);
            assert forall|k: (Seq<char>, Seq<char>)| #[trigger]
                cmds_map(cache@).contains_key(k) implies db@.contains_key(k) && tpl_parse(
                db@[k].text,
            ) is Some && cmds_map(cache@)[k] == entity_of_row(db@[k]) by {
                assert(load_model(db@).contains_key(k));
            }
        }
        Ok(Commands { cache, db })
    }

    /// The index of the cached entity holding `key`, if one does.
    fn find_cached(&self, key: &Key) -> (r: Option<usize>)
        requires
            cmds_unique(self.cache@),
        ensures
            match r {
                Some(i) => i < self.cache@.len() && self.cache@[i as int].key@ == key@
                    && self.cache_map().contains_key(key@) && self.cache_map()[key@] == cmd_model(
                    self.cache@[i as int],
                ),
                None => !self.cache_map().contains_key(key@),
            },
    {
        let len = self.cache.len();
        let mut i: usize = 0;
        while i < len
            invariant
                0 <= i <= len == self.cache@.len(),
                cmds_unique(self.cache@),
                forall|j: int| 0 <= j < i ==> (#[trigger] self.cache@[j]).key@ != key@,
            decreases len - i,
        {
            if self.cache[i].key == *key {
                proof {
                    lemma_cmds_map_index(self.cache@, i as int);
                }
                return Some(i);
            }
            i = i + 1;
        }
        proof {
            lemma_cmds_map_absent(self.cache@, key@);
        }
        None
    }

    /// Look `name` up in `channel`, seeing enabled entities only.
    pub fn get(&self, channel: &str, name: &str) -> (r: Option<&Command>)
        requires
            self.wf(),
        ensures
            ({
                let k = key_view(channel@, name@);
                match r {
                    Some(c) => m_get(self.cache_map(), k) == Some(cmd_model(*c)) && c.key@ == k
                        && !c.disabled,
                    None => m_get(self.cache_map(), k) is None,
                }
            }),
    {
        let key = Key::new(channel, name);
        match self.find_cached(&key) {
            Some(i) => {
                if self.cache[i].disabled {
                    None
                } else {
                    Some(&self.cache[i])
                }
            },
            None => None,
        }
    }

    /// Look `name` up in `channel`, seeing disabled entities too.
    pub fn get_any(&self, channel: &str, name: &str) -> (r: Option<&Command>)
        requires
            self.wf(),
        ensures
            ({
                let k = key_view(channel@, name@);
                match r {
                    Some(c) => m_get_any(self.cache_map(), k) == Some(cmd_model(*c)) && c.key@
                        == k,
                    None => m_get_any(self.cache_map(), k) is None,
                }
            }),
    {
        let key = Key::new(channel, name);
        match self.find_cached(&key) {
            Some(i) => Some(&self.cache[i]),
            None => None,
        }
    }

    /// Every enabled entity of `channel`, in cache order.
    pub fn list(&self, channel: &str) -> (r: Vec<Command>)
        requires
            self.wf(),
        ensures
            forall|i: int|
                0 <= i < r@.len() ==> m_get(self.cache_map(), (#[trigger] r@[i]).key@) == Some(
                    cmd_model(r@[i]),
                ) && r@[i].key@.0 == channel@,
            forall|k: (Seq<char>, Seq<char>)|
                m_get(self.cache_map(), k) is Some && k.0 == channel@ ==> exists|i: int|
                    0 <= i < r@.len() && (#[trigger] r@[i]).key@ == k,
            forall|i: int, j: int|
                0 <= i < j < r@.len() ==> (#[trigger] r@[i]).key@ != (#[trigger] r@[j]).key@,
    {
        let len = self.cache.len();
        let mut out: Vec<Command> = Vec::new();
        let mut i: usize = 0;
        while i < len
            invariant
                0 <= i <= len == self.cache@.len(),
                self.wf(),
                forall|j: int|
                    0 <= j < out@.len() ==> m_get(self.cache_map(), (#[trigger] out@[j]).key@)
                        == Some(cmd_model(out@[j])) && out@[j].key@.0 == channel@,
                forall|j: int|
                    0 <= j < i ==> (!(#[trigger] self.cache@[j]).disabled
                        && self.cache@[j].key@.0 == channel@) ==> exists|n: int|
                        0 <= n < out@.len() && (#[trigger] out@[n]).key@ == self.cache@[j].key@,
                forall|a: int|
                    0 <= a < out@.len() ==> exists|j: int|
                        0 <= j < i && (#[trigger] out@[a]).key@ == self.cache@[j].key@,
                forall|a: int, b: int|
                    0 <= a < b < out@.len() ==> (#[trigger] out@[a]).key@ != (
                    #[trigger] out@[b]).key@,
            decreases len - i,
        {
            let c = &self.cache[i];
            let ghost prevout = out@;
            if !c.disabled && crate::words::str_eq(c.key.channel(), channel) {
                let ghost prevlen = out@.len();
                out.push(c.duplicate());
                proof {
                    lemma_cmds_map_index(self.cache@, i as int);
                    assert(out@[prevlen as int].key@ == self.cache@[i as int].key@);
                    assert forall|j: int|
                        0 <= j < i + 1 && (!(#[trigger] self.cache@[j]).disabled
                            && self.cache@[j].key@.0 == channel@) implies exists|n: int|
                        0 <= n < out@.len() && (#[trigger] out@[n]).key@
                            == self.cache@[j].key@ by {
                        if j < i {
                            let n0 = choose|n: int|
                                0 <= n < prevout.len() && (#[trigger] prevout[n]).key@
                                    == self.cache@[j].key@;
                            assert(out@[n0].key@ == self.cache@[j].key@);
                        } else {
                            assert(out@[prevlen as int].key@ == self.cache@[j].key@);
                        }
                    }
                    assert forall|a: int| 0 <= a < out@.len() implies exists|j: int|
                        0 <= j < i + 1 && (#[trigger] out@[a]).key@ == self.cache@[j].key@ by {
                        if a < prevlen {
                            let j0 = choose|j: int|
                                0 <= j < i && (#[trigger] prevout[a]).key@ == self.cache@[j].key@;
                            assert(out@[a].key@ == self.cache@[j0].key@);
                        } else {
                            assert(out@[a].key@ == self.cache@[i as int].key@);
                        }
                    }
                    assert forall|a: int, b: int| 0 <= a < b < out@.len() implies (
                    #[trigger] out@[a]).key@ != (#[trigger] out@[b]).key@ by {
                        if b == prevlen {
                            let j0 = choose|j: int|
                                0 <= j < i && (#[trigger] prevout[a]).key@ == self.cache@[j].key@;
                            assert(out@[a].key@ == self.cache@[j0].key@);
                            assert(self.cache@[j0].key@ != self.cache@[i as int].key@);
                        } else {
                            assert(out@[a].key@ == prevout[a].key@);
                            assert(out@[b].key@ == prevout[b].key@);
                        }
                    }
                }
            }
            i = i + 1;
        }
        proof {
            assert forall|k: (Seq<char>, Seq<char>)|
                m_get(self.cache_map(), k) is Some && k.0 == channel@ implies exists|n: int|
                0 <= n < out@.len() && (#[trigger] out@[n]).key@ == k by {
                lemma_cmds_map_elem(self.cache@, k);
                let j = choose|j: int|
                    0 <= j < self.cache@.len() && (#[trigger] self.cache@[j]).key@ == k;
                lemma_cmds_map_index(self.cache@, j);
            }
        }
        out
    }

    /// Upsert `template` under `name` in `channel`: commit to the table,
    /// then mirror into the cache. A disabled row takes the text in the
    /// table but stays invisible, and any stale cache entry for it is
    /// dropped rather than refreshed.
    pub fn edit(&mut self, channel: &str, name: &str, template: Template)
        requires
            old(self).wf(),
            template.wf(),
        ensures
            final(self).wf(),
            ({
                let k = key_view(channel@, name@);
                final(self).store_map() == m_edit_store(old(self).store_map(), k, template.source@)
                    && final(self).cache_map() == m_edit_cache(
                    old(self).cache_map(),
                    old(self).store_map(),
                    k,
                    template.source@,
                    segs_view(template.segments@),
                )
            }),
    {
        let key = Key::new(channel, name);
        let ghost k = key@;
        let ghost s0 = self.db@;
        let ghost c0 = cmds_map(self.cache@);
        match self.db.edit(&key, template.source()) {
            EditOutcome::Fresh => {
                let cmd = Command {
                    key,
                    count: 0,
                    template,
                    group: None,
                    disabled: false,
                };
                self.cache_put(cmd);
                proof {
                    self.lemma_covers_after_put(c0, s0, k);
                }
            },
            EditOutcome::Existing { count, group } => {
                let cmd = Command { key, count, template, group, disabled: false };
                self.cache_put(cmd);
                proof {
                    self.lemma_covers_after_put(c0, s0, k);
                }
            },
            EditOutcome::Suppressed => {
                self.cache_drop(&key);
                proof {
                    assert forall|k2: (Seq<char>, Seq<char>)| #[trigger]
                        cmds_map(self.cache@).contains_key(k2) implies self.db@.contains_key(k2)
                        && tpl_parse(self.db@[k2].text) is Some && cmds_map(self.cache@)[k2]
                        == entity_of_row(self.db@[k2]) by {
                        assert(c0.contains_key(k2) && k2 != k);
                    }
                }
            },
        }
    }

    /// Mirror helper: the cache after `cache_put` still covers the table,
    /// for the two visible outcomes of an edit.
    proof fn lemma_covers_after_put(
        &self,
        c0: Map<(Seq<char>, Seq<char>), EntityModel>,
        s0: Map<(Seq<char>, Seq<char>), RowModel>,
        k: (Seq<char>, Seq<char>),
    )
        requires
            covers(c0, s0),
            self.cache_map() == c0.insert(k, self.cache_map()[k]),
            self.cache_map().contains_key(k),
            self.db@.contains_key(k),
            tpl_parse(self.db@[k].text) is Some,
            self.cache_map()[k] == entity_of_row(self.db@[k]),
            forall|k2: (Seq<char>, Seq<char>)|
                k2 != k ==> (#[trigger] self.db@.contains_key(k2) == s0.contains_key(k2)) && (
                s0.contains_key(k2) ==> self.db@[k2] == s0[k2]),
        ensures
            covers(self.cache_map(), self.db@),
    {
        assert forall|k2: (Seq<char>, Seq<char>)| #[trigger]
            self.cache_map().contains_key(k2) implies self.db@.contains_key(k2) && tpl_parse(
            self.db@[k2].text,
        ) is Some && self.cache_map()[k2] == entity_of_row(self.db@[k2]) by {
            if k2 != k {
                assert(c0.contains_key(k2));
            }
        }
    }

    /// Put `cmd` into the cache, replacing any entity of the same key.
    fn cache_put(&mut self, cmd: Command)
        requires
            cmds_unique(old(self).cache@),
        ensures
            cmds_unique(final(self).cache@),
            final(self).cache_map() == old(self).cache_map().insert(cmd.key@, cmd_model(cmd)),
            final(self).db == old(self).db,
    {
        let ghost k = cmd.key@;
        match self.find_cached(&cmd.key) {
            Some(i) => {
                let ghost prev = self.cache@;
                let _ = self.cache.remove(i);
                proof {
                    lemma_cmds_map_remove(prev, i as int);
                }
                let ghost mid = self.cache@;
                proof {
                    assert forall|j: int| 0 <= j < mid.len() implies (#[trigger] mid[j]).key@
                        != k by {
                        let j0 = if j < i {
                            j
                        } else {
                            j + 1
                        };
                        assert(mid[j] == prev[j0]);
                        assert(prev[j0].key@ != prev[i as int].key@);
                    }
                    lemma_cmds_unique_push(mid, cmd, k);
                }
                self.cache.push(cmd);
                proof {
                    assert(final(self).cache_map() =~= old(self).cache_map().insert(
                        k,
                        cmd_model(final(self).cache@.last()),
                    ));
                }
            },
            None => {
                let ghost mid = self.cache@;
                proof {
                    assert forall|j: int| 0 <= j < mid.len() implies (#[trigger] mid[j]).key@
                        != k by {
                        lemma_cmds_map_index(mid, j);
                    }
                    lemma_cmds_unique_push(mid, cmd, k);
                }
                self.cache.push(cmd);
            },
        }
    }

    /// Drop any cached entity of `key`.
    fn cache_drop(&mut self, key: &Key)
        requires
            cmds_unique(old(self).cache@),
        ensures
            cmds_unique(final(self).cache@),
            final(self).cache_map() == old(self).cache_map().remove(key@),
            final(self).db == old(self).db,
    {
        match self.find_cached(key) {
            Some(i) => {
                let ghost prev = self.cache@;
                let _ = self.cache.remove(i);
                proof {
                    lemma_cmds_map_remove(prev, i as int);
                }
            },
            None => {
                proof {
                    assert(cmds_map(self.cache@) =~= cmds_map(self.cache@).remove(key@));
                }
            },
        }
    }

    /// Bump the counter of `name` in `channel`: the table takes the bump
    /// first, and only then the cached counter, so a reader never observes
    /// a count the table has not confirmed. Reports false when the entity
    /// vanished, or its counter cannot grow.
    pub fn increment(&mut self, channel: &str, name: &str) -> (r: bool)
        requires
            old(self).wf(),
        ensures
            final(self).wf(),
            ({
                let k = key_view(channel@, name@);
                let s0 = old(self).store_map();
                let c0 = old(self).cache_map();
                if s0.contains_key(k) && s0[k].count < u64::MAX {
                    r && final(self).store_map() == s0.insert(
                        k,
                        RowModel { count: (s0[k].count + 1) as u64, ..s0[k] },
                    ) && final(self).cache_map() == (if c0.contains_key(k) {
                        c0.insert(
                            k,
                            EntityModel { count: (c0[k].count + 1) as u64, ..c0[k] },
                        )
                    } else {
                        c0
                    })
                } else {
                    !r && final(self).store_map() == s0 && final(self).cache_map() == c0
                }
            }),
    {
        let key = Key::new(channel, name);
        let ghost k = key@;
        let ghost s0 = self.db@;
        let ghost c0 = cmds_map(self.cache@);
        if !self.db.increment(&key) {
            return false;
        }
        match self.find_cached(&key) {
            Some(i) => {
                let ghost prev = self.cache@;
                let mut cmd = self.cache.remove(i);
                proof {
                    lemma_cmds_map_remove(prev, i as int);
                }
                let ghost mid = self.cache@;
                cmd.count = cmd.count + 1;
                proof {
                    assert forall|j: int| 0 <= j < mid.len() implies (#[trigger] mid[j]).key@
                        != k by {
                        let j0 = if j < i {
                            j
                        } else {
                            j + 1
                        };
                        assert(mid[j] == prev[j0]);
                        assert(prev[j0].key@ != prev[i as int].key@);
                    }
                    lemma_cmds_unique_push(mid, cmd, k);
                }
                self.cache.push(cmd);
                proof {
                    assert(final(self).cache_map() =~= c0.insert(
                        k,
                        EntityModel { count: (c0[k].count + 1) as u64, ..c0[k] },
                    ));
                    self.lemma_wf_pointwise(c0, s0, k);
                }
            },
            None => {
                proof {
                    self.lemma_wf_pointwise(c0, s0, k);
                }
            },
        }
        true
    }

    /// Mirror helper: when the table changed at `k` alone and the cache at
    /// most at `k`, matching there, the cache still covers the table.
    proof fn lemma_wf_pointwise(
        &self,
        c0: Map<(Seq<char>, Seq<char>), EntityModel>,
        s0: Map<(Seq<char>, Seq<char>), RowModel>,
        k: (Seq<char>, Seq<char>),
    )
        requires
            covers(c0, s0),
            forall|k2: (Seq<char>, Seq<char>)|
                k2 != k ==> ((#[trigger] self.db@.contains_key(k2)) == s0.contains_key(k2)) && (
                s0.contains_key(k2) ==> self.db@[k2] == s0[k2]),
            forall|k2: (Seq<char>, Seq<char>)|
                k2 != k ==> ((#[trigger] self.cache_map().contains_key(k2)) == c0.contains_key(
                    k2,
                )) && (c0.contains_key(k2) ==> self.cache_map()[k2] == c0[k2]),
            self.cache_map().contains_key(k) ==> self.db@.contains_key(k) && tpl_parse(
                self.db@[k].text,
            ) is Some && self.cache_map()[k] == entity_of_row(self.db@[k]),
        ensures
            covers(self.cache_map(), self.db@),
    {
        assert forall|k2: (Seq<char>, Seq<char>)| #[trigger]
            self.cache_map().contains_key(k2) implies self.db@.contains_key(k2) && tpl_parse(
            self.db@[k2].text,
        ) is Some && self.cache_map()[k2] == entity_of_row(self.db@[k2]) by {
            if k2 != k {
                assert(c0.contains_key(k2));
            }
        }
    }

    /// Delete `name` in `channel` from the table and the cache. Reports
    /// whether a row was there.
    pub fn delete(&mut self, channel: &str, name: &str) -> (r: bool)
        requires
            old(self).wf(),
        ensures
            final(self).wf(),
            ({
                let k = key_view(channel@, name@);
                if old(self).store_map().contains_key(k) {
                    r && final(self).store_map() == old(self).store_map().remove(k) && final(self).cache_map() == old(self).cache_map().remove(k)
                } else {
                    !r && final(self).store_map() == old(self).store_map() && final(self).cache_map() == old(self).cache_map()
                }
            }),
    {
        let key = Key::new(channel, name);
        let ghost k = key@;
        let ghost s0 = self.db@;
        let ghost c0 = cmds_map(self.cache@);
        if !self.db.delete(&key) {
            return false;
        }
        self.cache_drop(&key);
        proof {
            self.lemma_wf_pointwise(c0, s0, k);
        }
        true
    }

    /// Move `from` to `to` in `channel`: the table first; on success the
    /// cached entity, if any, moves under its new key with everything else
    /// unchanged. A failed rename leaves both layers untouched.
    pub fn rename(&mut self, channel: &str, from: &str, to: &str) -> (r: Result<(), RenameError>)
        requires
            old(self).wf(),
        ensures
            final(self).wf(),
            ({
                let kf = key_view(channel@, from@);
                let kt = key_view(channel@, to@);
                let s0 = old(self).store_map();
                let c0 = old(self).cache_map();
                if !s0.contains_key(kf) {
                    r == Err::<(), RenameError>(RenameError::Missing) && final(self).store_map()
                        == s0 && final(self).cache_map() == c0
                } else if s0.contains_key(kt) {
                    r == Err::<(), RenameError>(RenameError::Conflict) && final(self).store_map()
                        == s0 && final(self).cache_map() == c0
                } else {
                    r is Ok && final(self).store_map() == s0.remove(kf).insert(kt, s0[kf]) && final(self).cache_map() == (if c0.contains_key(kf) {
                        c0.remove(kf).insert(kt, c0[kf])
                    } else {
                        c0
                    })
                }
            }),
    {
        let key_from = Key::new(channel, from);
        let key_to = Key::new(channel, to);
        let ghost kf = key_from@;
        let ghost kt = key_to@;
        let ghost s0 = self.db@;
        let ghost c0 = cmds_map(self.cache@);
        match self.db.rename(&key_from, &key_to) {
            Err(e) => Err(e),
            Ok(_) => {
                match self.find_cached(&key_from) {
                    Some(i) => {
                        let ghost prev = self.cache@;
                        let mut cmd = self.cache.remove(i);
                        proof {
                            lemma_cmds_map_remove(prev, i as int);
                        }
                        let ghost mid = self.cache@;
                        cmd.key = key_to;
                        proof {
                            assert forall|j: int| 0 <= j < mid.len() implies (#[trigger] mid[j]).key@
                                != kt by {
                                let j0 = if j < i {
                                    j
                                } else {
                                    j + 1
                                };
                                assert(mid[j] == prev[j0]);
                                lemma_cmds_map_index(prev, j0);
                            }
                            lemma_cmds_unique_push(mid, cmd, kt);
                        }
                        self.cache.push(cmd);
                        proof {
                            assert(final(self).cache_map() =~= c0.remove(kf).insert(kt, c0[kf]));
                            self.lemma_rename_covers(c0, s0, kf, kt);
                        }
                    },
                    None => {
                        proof {
                            self.lemma_rename_covers(c0, s0, kf, kt);
                        }
                    },
                }
                Ok(())
            },
        }
    }

    /// Mirror helper: after a successful rename in both layers the cache
    /// still covers the table.
    proof fn lemma_rename_covers(
        &self,
        c0: Map<(Seq<char>, Seq<char>), EntityModel>,
        s0: Map<(Seq<char>, Seq<char>), RowModel>,
        kf: (Seq<char>, Seq<char>),
        kt: (Seq<char>, Seq<char>),
    )
        requires
            covers(c0, s0),
            s0.contains_key(kf),
            !s0.contains_key(kt),
            self.db@ == s0.remove(kf).insert(kt, s0[kf]),
            self.cache_map() == (if c0.contains_key(kf) {
                c0.remove(kf).insert(kt, c0[kf])
            } else {
                c0
            }),
        ensures
            covers(self.cache_map(), self.db@),
    {
        assert forall|k2: (Seq<char>, Seq<char>)| #[trigger]
            self.cache_map().contains_key(k2) implies self.db@.contains_key(k2) && tpl_parse(
            self.db@[k2].text,
        ) is Some && self.cache_map()[k2] == entity_of_row(self.db@[k2]) by {
            if k2 != kt {
                assert(c0.contains_key(k2));
            }
        }
    }

    /// Make `name` in `channel` visible again, in the table and the cache.
    pub fn enable(&mut self, channel: &str, name: &str) -> (r: bool)
        requires
            old(self).wf(),
        ensures
            final(self).wf(),
            ({
                let k = key_view(channel@, name@);
                set_disabled_post(
                    old(self).store_map(),
                    old(self).cache_map(),
                    final(self).store_map(),
                    final(self).cache_map(),
                    k,
                    false,
                    r,
                )
            }),
    {
        self.set_disabled(channel, name, false)
    }

    /// Hide `name` in `channel` from ordinary lookup, in the table and the
    /// cache. The entity is retained, not deleted.
    pub fn disable(&mut self, channel: &str, name: &str) -> (r: bool)
        requires
            old(self).wf(),
        ensures
            final(self).wf(),
            ({
                let k = key_view(channel@, name@);
                set_disabled_post(
                    old(self).store_map(),
                    old(self).cache_map(),
                    final(self).store_map(),
                    final(self).cache_map(),
                    k,
                    true,
                    r,
                )
            }),
    {
        self.set_disabled(channel, name, true)
    }

    /// Set the disabled flag of `name` in `channel` in both layers.
    fn set_disabled(&mut self, channel: &str, name: &str, disabled: bool) -> (r: bool)
        requires
            old(self).wf(),
        ensures
            final(self).wf(),
            ({
                let k = key_view(channel@, name@);
                set_disabled_post(
                    old(self).store_map(),
                    old(self).cache_map(),
                    final(self).store_map(),
                    final(self).cache_map(),
                    k,
                    disabled,
                    r,
                )
            }),
    {
        let key = Key::new(channel, name);
        let ghost k = key@;
        let ghost s0 = self.db@;
        let ghost c0 = cmds_map(self.cache@);
        if !self.db.set_disabled(&key, disabled) {
            return false;
        }
        match self.find_cached(&key) {
            Some(i) => {
                let ghost prev = self.cache@;
                let mut cmd = self.cache.remove(i);
                proof {
                    lemma_cmds_map_remove(prev, i as int);
                }
                let ghost mid = self.cache@;
                cmd.disabled = disabled;
                proof {
                    assert forall|j: int| 0 <= j < mid.len() implies (#[trigger] mid[j]).key@
                        != k by {
                        let j0 = if j < i {
                            j
                        } else {
                            j + 1
                        };
                        assert(mid[j] == prev[j0]);
                        assert(prev[j0].key@ != prev[i as int].key@);
                    }
                    lemma_cmds_unique_push(mid, cmd, k);
                }
                self.cache.push(cmd);
                proof {
                    assert(final(self).cache_map() =~= c0.insert(
                        k,
                        EntityModel { disabled, ..c0[k] },
                    ));
                    self.lemma_wf_pointwise(c0, s0, k);
                }
            },
            None => {
                proof {
                    self.lemma_wf_pointwise(c0, s0, k);
                }
            },
        }
        true
    }

    /// Set the group of `name` in `channel` in both layers. `None` clears
    /// it.
    pub fn edit_group(&mut self, channel: &str, name: &str, group: Option<String>) -> (r: bool)
        requires
            old(self).wf(),
        ensures
            final(self).wf(),
            ({
                let k = key_view(channel@, name@);
                let s0 = old(self).store_map();
                let c0 = old(self).cache_map();
                if s0.contains_key(k) {
                    r && final(self).store_map() == s0.insert(
                        k,
                        RowModel { group: opt_view(group), ..s0[k] },
                    ) && final(self).cache_map() == (if c0.contains_key(k) {
                        c0.insert(k, EntityModel { group: opt_view(group), ..c0[k] })
                    } else {
                        c0
                    })
                } else {
                    !r && final(self).store_map() == s0 && final(self).cache_map() == c0
                }
            }),
    {
        let key = Key::new(channel, name);
        let ghost k = key@;
        let ghost s0 = self.db@;
        let ghost c0 = cmds_map(self.cache@);
        let mirrored = opt_clone(&group);
        if !self.db.edit_group(&key, group) {
            return false;
        }
        match self.find_cached(&key) {
            Some(i) => {
                let ghost prev = self.cache@;
                let mut cmd = self.cache.remove(i);
                proof {
                    lemma_cmds_map_remove(prev, i as int);
                }
                let ghost mid = self.cache@;
                cmd.group = mirrored;
                proof {
                    assert forall|j: int| 0 <= j < mid.len() implies (#[trigger] mid[j]).key@
                        != k by {
                        let j0 = if j < i {
                            j
                        } else {
                            j + 1
                        };
                        assert(mid[j] == prev[j0]);
                        assert(prev[j0].key@ != prev[i as int].key@);
                    }
                    lemma_cmds_unique_push(mid, cmd, k);
                }
                self.cache.push(cmd);
                proof {
                    assert(final(self).cache_map() =~= c0.insert(
                        k,
                        EntityModel { group: opt_view(cmd.group), ..c0[k] },
                    ));
                    self.lemma_wf_pointwise(c0, s0, k);
                }
            },
            None => {
                proof {
                    self.lemma_wf_pointwise(c0, s0, k);
                }
            },
        }
        true
    }

    /// A reference to the backing table.
    pub fn db(&self) -> (r: &Store)
        requires
            self.wf(),
        ensures
            r@ == self.store_map(),
            r.wf(),
    {
        &self.db
    }
}

/// What `enable` and `disable` leave behind: the flag set in the table, and
/// mirrored into the cache exactly where an entry was cached.
pub open spec fn set_disabled_post(
    s0: Map<(Seq<char>, Seq<char>), RowModel>,
    c0: Map<(Seq<char>, Seq<char>), EntityModel>,
    s1: Map<(Seq<char>, Seq<char>), RowModel>,
    c1: Map<(Seq<char>, Seq<char>), EntityModel>,
    k: (Seq<char>, Seq<char>),
    disabled: bool,
    r: bool,
) -> bool {
    if s0.contains_key(k) {
        r && s1 == s0.insert(k, RowModel { disabled, ..s0[k] }) && c1 == (if c0.contains_key(k) {
            c0.insert(k, EntityModel { disabled, ..c0[k] })
        } else {
            c0
        })
    } else {
        !r && s1 == s0 && c1 == c0
    }
}

/// A key of the cache map is the key of some cached entity.
proof fn lemma_cmds_map_elem(v: Seq<Command>, k: (Seq<char>, Seq<char>))
    requires
        cmds_map(v).contains_key(k),
    ensures
        exists|j: int| 0 <= j < v.len() && (#[trigger] v[j]).key@ == k,
    decreases v.len(),
{
    if v.len() > 0 {
        if v.last().key@ == k {
            assert(v[v.len() - 1].key@ == k);
        } else {
            lemma_cmds_map_elem(v.drop_last(), k);
            let j = choose|j: int| 0 <= j < v.drop_last().len() && (#[trigger] v.drop_last()[j]).key@ == k;
            assert(v[j].key@ == k);
        }
    }
}

/// Every key of a row table is the key of some row, so a table whose rows
/// all compile is entirely well-formed.
proof fn lemma_store_ok_from_rows(rows: Seq<Row>)
    requires
        forall|j: int| 0 <= j < rows.len() ==> tpl_parse(row_model(#[trigger] rows[j]).text) is Some,
    ensures
        store_ok(rows_map(rows)),
    decreases rows.len(),
{
    if rows.len() > 0 {
        assert(forall|j: int|
            0 <= j < rows.drop_last().len() ==> tpl_parse(
                row_model(#[trigger] rows.drop_last()[j]).text,
            ) is Some) by {
            assert forall|j: int| 0 <= j < rows.drop_last().len() implies tpl_parse(
                row_model(#[trigger] rows.drop_last()[j]).text,
            ) is Some by {
                assert(rows.drop_last()[j] == rows[j]);
            }
        }
        lemma_store_ok_from_rows(rows.drop_last());
        assert(rows[rows.len() - 1] == rows.last());
    }
}

} // verus!
