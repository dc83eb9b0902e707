//! A snapshot of the catalog: the tables, and of each table the chunks with
//! the schema that each of them declares.
//!
//! The planner never reads rows. It reads what each chunk says of itself:
//! its columns, and its own verdict on whether any of its rows can match
//! the filters and the time range of the predicate at hand. A chunk whose
//! verdict is that none can is left out of the table's schema; a chunk that
//! cannot tell stays in.
use vstd::prelude::*;
use crate::name_map::{index_of, lemma_binding, NameMap};
use crate::name_order::{name_lt, strictly_ascending};
use crate::schema::{DataType, FieldColumn, FieldColumnView};

verus! {

/// The role of a column in a table.
#[derive(Clone, Copy, Debug, PartialEq, Eq, Structural)]
pub enum ColumnKind {
    /// A label by which rows are filtered; never part of a field list.
    Tag,
    /// A measured value of the given type.
    Field(DataType),
    /// The timestamp of the row.
    Timestamp,
}

/// A column as a chunk declares it.
#[derive(Clone, Debug, PartialEq, Eq)]
pub struct Column {
    pub name: String,
    pub kind: ColumnKind,
}

/// The mathematical value of a [`Column`].
pub struct ColumnView {
    pub name: Seq<char>,
    pub kind: ColumnKind,
}

impl View for Column {
    type V = ColumnView;

    open spec fn view(&self) -> ColumnView {
        ColumnView { name: self.name@, kind: self.kind }
    }
}

/// A chunk's own verdict, from its metadata alone, on whether any of its
/// rows can match a predicate.
#[derive(Clone, Copy, Debug, PartialEq, Eq, Structural)]
pub enum PredicateMatch {
    /// At least one row matches.
    AtLeastOne,
    /// No row matches.
    Zero,
    /// The chunk cannot tell.
    Unknown,
}

/// One chunk of a table.
#[derive(Clone, Debug, PartialEq, Eq)]
pub struct Chunk {
    /// The columns that the chunk declares.
    pub columns: Vec<Column>,
    /// The chunk's verdict on the filters and time range of the predicate.
    pub verdict: PredicateMatch,
}

/// The mathematical value of a [`Chunk`].
pub struct ChunkView {
    pub columns: Seq<ColumnView>,
    pub verdict: PredicateMatch,
}

impl View for Chunk {
    type V = ChunkView;

    open spec fn view(&self) -> ChunkView {
        ChunkView {
            columns: Seq::new(self.columns@.len(), |k: int| self.columns@[k]@),
            verdict: self.verdict,
        }
    }
}

/// A table and its chunks.
#[derive(Clone, Debug, PartialEq, Eq)]
pub struct Table {
    pub name: String,
    pub chunks: Vec<Chunk>,
}

/// The mathematical value of a [`Table`].
pub struct TableView {
    pub name: Seq<char>,
    pub chunks: Seq<ChunkView>,
}

impl View for Table {
    type V = TableView;

    open spec fn view(&self) -> TableView {
        TableView {
            name: self.name@,
            chunks: Seq::new(self.chunks@.len(), |c: int| self.chunks@[c]@),
        }
    }
}

/// The tables of a database, in the order in which the catalog lists them.
#[derive(Clone, Debug, PartialEq, Eq)]
pub struct Database {
    pub tables: Vec<Table>,
}

impl View for Database {
    type V = Seq<TableView>;

    open spec fn view(&self) -> Seq<TableView> {
        Seq::new(self.tables@.len(), |i: int| self.tables@[i]@)
    }
}

/// The chunk is not excluded by its own verdict.
pub open spec fn survives(chunk: ChunkView) -> bool {
    chunk.verdict != PredicateMatch::Zero
}

/// Column `k` of chunk `c` of the table declares the field `f`, and the
/// chunk survives.
pub open spec fn declares_at(table: TableView, c: int, k: int, f: FieldColumnView) -> bool {
    &&& 0 <= c < table.chunks.len()
    &&& survives(table.chunks[c])
    &&& 0 <= k < table.chunks[c].columns.len()
    &&& table.chunks[c].columns[k].name == f.name
    &&& table.chunks[c].columns[k].kind == ColumnKind::Field(f.data_type)
}

/// The fields declared before column `k_lim` of chunk `c_lim`.
pub open spec fn declarations_before(table: TableView, c_lim: int, k_lim: int) -> Set<
    FieldColumnView,
> {
    Set::new(
        |f: FieldColumnView|
            exists|c: int, k: int|
                (c < c_lim || (c == c_lim && k < k_lim)) && #[trigger] declares_at(table, c, k, f),
    )
}

/// The fields that the surviving chunks of a table declare.
pub open spec fn declarations(table: TableView) -> Set<FieldColumnView> {
    Set::new(|f: FieldColumnView| exists|c: int, k: int| #[trigger] declares_at(table, c, k, f))
}

/// Two declarations give one name two types.
pub open spec fn schema_conflict(decls: Set<FieldColumnView>) -> bool {
    exists|f: FieldColumnView, g: FieldColumnView|
        #![trigger decls.contains(f), decls.contains(g)]
        decls.contains(f) && decls.contains(g) && f.name == g.name && f.data_type != g.data_type
}

/// The names of some columns, in their order.
pub open spec fn column_names(columns: Seq<FieldColumnView>) -> Seq<Seq<char>> {
    Seq::new(columns.len(), |i: int| columns[i].name)
}

/// The views of some field columns.
pub open spec fn columns_view(columns: Seq<FieldColumn>) -> Seq<FieldColumnView> {
    Seq::new(columns.len(), |i: int| columns[i]@)
}

/// `columns` is the merged schema of the declarations: exactly the fields
/// declared, each once, in strictly ascending order of their names.
pub open spec fn is_merged_schema(
    columns: Seq<FieldColumnView>,
    decls: Set<FieldColumnView>,
) -> bool {
    &&& strictly_ascending(column_names(columns))
    &&& forall|i: int| 0 <= i < columns.len() ==> #[trigger] decls.contains(columns[i])
    &&& forall|f: FieldColumnView| #[trigger]
        decls.contains(f) ==> exists|i: int| 0 <= i < columns.len() && #[trigger] columns[i] == f
}

/// The types `m` summarise the declarations `decls`.
pub open spec fn schema_summarizes(m: Map<Seq<char>, DataType>, decls: Set<FieldColumnView>) -> bool {
    &&& forall|f: FieldColumnView| #[trigger]
        decls.contains(f) ==> m.dom().contains(f.name) && m[f.name] == f.data_type
    &&& forall|n: Seq<char>| #[trigger]
        m.dom().contains(n) ==> decls.contains(FieldColumnView { name: n, data_type: m[n] })
}

/// Two chunks of one table declare a field under different types.
#[derive(Clone, Debug, PartialEq, Eq)]
pub struct SchemaConflict {
    /// The field declared twice.
    pub column: String,
    /// The type of the declaration met first.
    pub existing: DataType,
    /// The type of the declaration that contradicts it.
    pub incoming: DataType,
}

impl SchemaConflict {
    /// The conflict names two of the declarations `decls`.
    pub open spec fn witnesses(&self, decls: Set<FieldColumnView>) -> bool {
        &&& self.existing != self.incoming
        &&& decls.contains(FieldColumnView { name: self.column@, data_type: self.existing })
        &&& decls.contains(FieldColumnView { name: self.column@, data_type: self.incoming })
    }
}

/// Merges the field schemas of the surviving chunks of a table into one:
/// every field that some surviving chunk declares, once, ascending by name.
/// A field declared under two types is an error.
pub fn merge_field_schemas(table: &Table) -> (r: Result<Vec<FieldColumn>, SchemaConflict>)
    ensures
        r is Err <==> schema_conflict(declarations(table@)),
        r matches Ok(columns) ==> is_merged_schema(columns_view(columns@), declarations(table@)),
        r matches Err(e) ==> e.witnesses(declarations(table@)),
{
    let ghost t = table@;
    let mut types: NameMap<DataType> = NameMap::new();
    let mut c: usize = 0;
    while c < table.chunks.len()
        invariant
            t == table@,
            c <= table.chunks@.len(),
            schema_summarizes(types@, declarations_before(t, c as int, 0)),
        decreases table.chunks@.len() - c,
    {
        let chunk = &table.chunks[c];
        assert(t.chunks[c as int] == chunk@);
        let mut k: usize = 0;
        let excluded = match chunk.verdict {
            PredicateMatch::Zero => true,
            _ => false,
        };
        if !excluded {
            while k < chunk.columns.len()
                invariant
                    t == table@,
                    c < table.chunks@.len(),
                    *chunk == table.chunks@[c as int],
                    survives(chunk@),
                    k <= chunk.columns@.len(),
                    schema_summarizes(types@, declarations_before(t, c as int, k as int)),
                decreases chunk.columns@.len() - k,
            {
                let column = &chunk.columns[k];
                let ghost seen = declarations_before(t, c as int, k as int);
                let ghost more = declarations_before(t, c as int, k + 1);
                assert(t.chunks[c as int].columns[k as int] == column@);
                match column.kind {
                    ColumnKind::Field(data_type) => {
                        let ghost f = FieldColumnView { name: column.name@, data_type };
                        proof {
                            assert(declares_at(t, c as int, k as int, f));
                            assert(more.contains(f));
                            assert forall|g: FieldColumnView| #[trigger] more.contains(g) implies (
                            seen.contains(g) || g == f) by {
                                let (x, y) = choose|x: int, y: int|
                                    (x < c || (x == c && y < k + 1)) && #[trigger] declares_at(
                                        t,
                                        x,
                                        y,
                                        g,
                                    );
                                if x == c && y == k {
                                } else {
                                    assert(declares_at(t, x, y, g));
                                }
                            }
                            assert forall|g: FieldColumnView| #[trigger]
                                seen.contains(g) implies more.contains(g) by {
                                let (x, y) = choose|x: int, y: int|
                                    (x < c || (x == c && y < k)) && #[trigger] declares_at(
                                        t,
                                        x,
                                        y,
                                        g,
                                    );
                                assert(declares_at(t, x, y, g));
                            }
                        }
                        let existing: Option<DataType> = match types.get(column.name.as_str()) {
                            Some(held) => Some(*held),
                            None => None,
                        };
                        match existing {
                            Some(held) => {
                                if held != data_type {
                                    proof {
                                        let g = FieldColumnView {
                                            name: column.name@,
                                            data_type: held,
                                        };
                                        assert(seen.contains(g));
                                        let (x, y) = choose|x: int, y: int|
                                            (x < c || (x == c && y < k)) && #[trigger] declares_at(
                                                t,
                                                x,
                                                y,
                                                g,
                                            );
                                        assert(declares_at(t, x, y, g));
                                        assert(declarations(t).contains(g));
                                        assert(declarations(t).contains(f));
                                    }
                                    return Err(
                                        SchemaConflict {
                                            column: column.name.clone(),
                                            existing: held,
                                            incoming: data_type,
                                        },
                                    );
                                }
                            },
                            None => {
                                types.insert(column.name.clone(), data_type);
                            },
                        }
                    },
                    _ => {
                        proof {
                            assert forall|g: FieldColumnView| #[trigger]
                                more.contains(g) implies seen.contains(g) by {
                                let (x, y) = choose|x: int, y: int|
                                    (x < c || (x == c && y < k + 1)) && #[trigger] declares_at(
                                        t,
                                        x,
                                        y,
                                        g,
                                    );
                                assert(declares_at(t, x, y, g));
                            }
                            assert forall|g: FieldColumnView| #[trigger]
                                seen.contains(g) implies more.contains(g) by {
                                let (x, y) = choose|x: int, y: int|
                                    (x < c || (x == c && y < k)) && #[trigger] declares_at(
                                        t,
                                        x,
                                        y,
                                        g,
                                    );
                                assert(declares_at(t, x, y, g));
                            }
                            assert(more =~= seen);
                        }
                    },
                }
                k += 1;
            }
        }
        proof {
            assert(declarations_before(t, c as int, k as int) =~= declarations_before(
                t,
                c + 1,
                0,
            ));
        }
        c += 1;
    }
    proof {
        assert(declarations_before(t, c as int, 0) =~= declarations(t));
    }
    let ghost held = types@;
    let entries = types.into_entries();
    let mut columns: Vec<FieldColumn> = Vec::new();
    let mut i: usize = 0;
    while i < entries.len()
        invariant
            i <= entries@.len(),
            columns@.len() == i,
            forall|j: int|
                0 <= j < i ==> (#[trigger] columns@[j])@ == (FieldColumnView {
                    name: entries@[j].name@,
                    data_type: entries@[j].value,
                }),
        decreases entries@.len() - i,
    {
        columns.push(FieldColumn { name: entries[i].name.clone(), data_type: entries[i].value });
        i += 1;
    }
    proof {
        let cols = columns_view(columns@);
        let decls = declarations(t);
        assert forall|a: int, b: int| 0 <= a < b < column_names(cols).len() implies name_lt(
            #[trigger] column_names(cols)[a],
            #[trigger] column_names(cols)[b],
        ) by {
            assert(cols[a].name == entries@[a].name@);
            assert(cols[b].name == entries@[b].name@);
        }
        assert forall|j: int| 0 <= j < cols.len() implies #[trigger] decls.contains(cols[j]) by {
            lemma_binding(entries@, j);
            assert(held.dom().contains(cols[j].name));
        }
        assert forall|f: FieldColumnView| #[trigger] decls.contains(f) implies exists|j: int|
            0 <= j < cols.len() && #[trigger] cols[j] == f by {
            assert(held.dom().contains(f.name));
            let j = index_of(entries@, f.name);
            lemma_binding(entries@, j);
            assert(cols[j] == f);
        }
        if schema_conflict(decls) {
            let (f, g) = choose|f: FieldColumnView, g: FieldColumnView|
                #![trigger decls.contains(f), decls.contains(g)]
                decls.contains(f) && decls.contains(g) && f.name == g.name && f.data_type
                    != g.data_type;
            assert(held[f.name] == f.data_type && held[g.name] == g.data_type);
        }
    }
    Ok(columns)
}

} // verus!
