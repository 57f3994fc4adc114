//! Column-level tracking of SQL statement effects: change records, filtered
//! queries over them, and summary aggregation.
//!
//! Decomposing a raw statement into column changes is the work of an outside
//! parser; this module owns the records once they are decoded into plain
//! values, which is where `record_change` hands them in.

use vstd::prelude::*;

use crate::clone_opt_string;
use crate::decimal::{dec_digits, dec_digits_signed, i64_to_string, u64_to_string};

verus! {

/// The kind of SQL statement a change record came from.
#[derive(Clone, Copy, Debug, PartialEq, Eq, Structural)]
pub enum SQLOperation {
    Unknown,
    Insert,
    Update,
    Delete,
    Select,
}

/// The upper-case keyword for an operation.
pub open spec fn op_name(op: SQLOperation) -> Seq<char> {
    match op {
        SQLOperation::Insert => "INSERT"@,
        SQLOperation::Update => "UPDATE"@,
        SQLOperation::Delete => "DELETE"@,
        SQLOperation::Select => "SELECT"@,
        SQLOperation::Unknown => "UNKNOWN"@,
    }
}

impl SQLOperation {
    /// The operation's upper-case keyword.
    pub fn as_str(&self) -> (r: &'static str)
        ensures
            r@ == op_name(*self),
    {
        match self {
            SQLOperation::Insert => "INSERT",
            SQLOperation::Update => "UPDATE",
            SQLOperation::Delete => "DELETE",
            SQLOperation::Select => "SELECT",
            SQLOperation::Unknown => "UNKNOWN",
        }
    }
}

/// One column-level change extracted from a SQL statement.
#[derive(Debug)]
pub struct SQLChange {
    pub timestamp_ns: u64,
    pub table_name: String,
    pub column_name: String,
    pub operation: SQLOperation,
    pub old_value: Option<String>,
    pub new_value: Option<String>,
    pub rows_affected: i32,
    pub database: Option<String>,
    pub full_query: String,
}

/// The key/value rows of `to_dict`, in their fixed order: the optional fields
/// appear only when present.
pub open spec fn spec_dict(c: SQLChange) -> Seq<(Seq<char>, Seq<char>)> {
    let base = seq![
        ("timestamp_ns"@, dec_digits(c.timestamp_ns as nat)),
        ("table_name"@, c.table_name@),
        ("column_name"@, c.column_name@),
        ("operation"@, op_name(c.operation)),
    ];
    let with_old = if c.old_value is Some {
        base.push(("old_value"@, c.old_value->0@))
    } else {
        base
    };
    let with_new = if c.new_value is Some {
        with_old.push(("new_value"@, c.new_value->0@))
    } else {
        with_old
    };
    let with_rows = with_new.push(("rows_affected"@, dec_digits_signed(c.rows_affected as int)));
    let with_db = if c.database is Some {
        with_rows.push(("database"@, c.database->0@))
    } else {
        with_rows
    };
    with_db.push(("full_query"@, c.full_query@))
}

/// The views of the key/value pairs held in `v`.
pub open spec fn pairs_view(v: Seq<(String, String)>) -> Seq<(Seq<char>, Seq<char>)> {
    v.map_values(|p: (String, String)| (p.0@, p.1@))
}

impl SQLChange {
    /// An exact copy of the record.
    pub fn duplicate(&self) -> (c: SQLChange)
        ensures
            c == *self,
    {
        SQLChange {
            timestamp_ns: self.timestamp_ns,
            table_name: self.table_name.clone(),
            column_name: self.column_name.clone(),
            operation: self.operation,
            old_value: clone_opt_string(&self.old_value),
            new_value: clone_opt_string(&self.new_value),
            rows_affected: self.rows_affected,
            database: clone_opt_string(&self.database),
            full_query: self.full_query.clone(),
        }
    }

    /// The record as key/value text pairs; fields that are absent contribute
    /// no pair.
    pub fn to_dict(&self) -> (v: Vec<(String, String)>)
        ensures
            pairs_view(v@) == spec_dict(*self),
    {
        let mut v: Vec<(String, String)> = Vec::new();
        v.push((String::from_str("timestamp_ns"), u64_to_string(self.timestamp_ns)));
        v.push((String::from_str("table_name"), self.table_name.clone()));
        v.push((String::from_str("column_name"), self.column_name.clone()));
        v.push((String::from_str("operation"), String::from_str(self.operation.as_str())));
        if let Some(old) = &self.old_value {
            v.push((String::from_str("old_value"), old.clone()));
        }
        if let Some(new) = &self.new_value {
            v.push((String::from_str("new_value"), new.clone()));
        }
        v.push((String::from_str("rows_affected"), i64_to_string(self.rows_affected as i64)));
        if let Some(db) = &self.database {
            v.push((String::from_str("database"), db.clone()));
        }
        v.push((String::from_str("full_query"), self.full_query.clone()));
        proof {
            assert(pairs_view(v@) =~= spec_dict(*self));
        }
        v
    }
}

/// Whether a record passes the optional table, column and operation filters.
pub open spec fn spec_passes(
    c: SQLChange,
    table_filter: Option<Seq<char>>,
    column_filter: Option<Seq<char>>,
    operation_filter: Option<Seq<char>>,
) -> bool {
    &&& (table_filter is Some ==> c.table_name@ == table_filter->0)
    &&& (column_filter is Some ==> c.column_name@ == column_filter->0)
    &&& (operation_filter is Some ==> op_name(c.operation) == operation_filter->0)
}

/// The number of records in `s` whose operation is `op`.
pub open spec fn count_op(s: Seq<SQLChange>, op: SQLOperation) -> nat {
    s.filter(|c: SQLChange| c.operation == op).len()
}

/// The number of records in `s` on the table named `t`.
pub open spec fn count_table(s: Seq<SQLChange>, t: Seq<char>) -> nat {
    s.filter(|c: SQLChange| c.table_name@ == t).len()
}

/// The `table.column` key of a record.
pub open spec fn col_key(c: SQLChange) -> Seq<char> {
    c.table_name@ + "."@ + c.column_name@
}

/// Extending the counted prefix by one record raises the count of that
/// record's operation by one and no other.
proof fn lemma_count_op_step(s: Seq<SQLChange>, i: int, op: SQLOperation)
    requires
        0 <= i < s.len(),
    ensures
        count_op(s.take(i + 1), op) == count_op(s.take(i), op) + if s[i].operation == op {
            1int
        } else {
            0int
        },
{
    reveal(Seq::filter);
    assert(s.take(i + 1).drop_last() =~= s.take(i));
    assert(s.take(i + 1).last() == s[i]);
}

/// Extending the counted prefix by one record raises the count of that
/// record's table by one and no other.
proof fn lemma_count_table_step(s: Seq<SQLChange>, i: int, t: Seq<char>)
    requires
        0 <= i < s.len(),
    ensures
        count_table(s.take(i + 1), t) == count_table(s.take(i), t) + if s[i].table_name@ == t {
            1int
        } else {
            0int
        },
{
    reveal(Seq::filter);
    assert(s.take(i + 1).drop_last() =~= s.take(i));
    assert(s.take(i + 1).last() == s[i]);
}

/// A table name that no record carries has count zero.
proof fn lemma_count_table_zero(s: Seq<SQLChange>, t: Seq<char>)
    requires
        forall|k: int| 0 <= k < s.len() ==> (#[trigger] s[k]).table_name@ != t,
    ensures
        count_table(s, t) == 0,
    decreases s.len(),
{
    reveal(Seq::filter);
    if s.len() > 0 {
        assert(forall|k: int|
            0 <= k < s.drop_last().len() ==> (#[trigger] s.drop_last()[k]).table_name@ != t);
        lemma_count_table_zero(s.drop_last(), t);
    }
}

/// No count exceeds the number of records counted over.
proof fn lemma_count_table_le(s: Seq<SQLChange>, t: Seq<char>)
    ensures
        count_table(s, t) <= s.len(),
    decreases s.len(),
{
    reveal(Seq::filter);
    if s.len() > 0 {
        lemma_count_table_le(s.drop_last(), t);
    }
}

/// No count exceeds the number of records counted over.
proof fn lemma_count_op_le(s: Seq<SQLChange>, op: SQLOperation)
    ensures
        count_op(s, op) <= s.len(),
    decreases s.len(),
{
    reveal(Seq::filter);
    if s.len() > 0 {
        lemma_count_op_le(s.drop_last(), op);
    }
}

/// The records of `s` that pass the given filters, oldest first.
pub open spec fn spec_get_changes(
    s: Seq<SQLChange>,
    table_filter: Option<Seq<char>>,
    column_filter: Option<Seq<char>>,
    operation_filter: Option<Seq<char>>,
) -> Seq<SQLChange> {
    s.filter(|c: SQLChange| spec_passes(c, table_filter, column_filter, operation_filter))
}

/// Extending the filtered prefix by one record appends it exactly when it
/// passes the filters.
proof fn lemma_get_changes_step(
    s: Seq<SQLChange>,
    i: int,
    tf: Option<Seq<char>>,
    cf: Option<Seq<char>>,
    of: Option<Seq<char>>,
)
    requires
        0 <= i < s.len(),
    ensures
        spec_get_changes(s.take(i + 1), tf, cf, of) == if spec_passes(s[i], tf, cf, of) {
            spec_get_changes(s.take(i), tf, cf, of).push(s[i])
        } else {
            spec_get_changes(s.take(i), tf, cf, of)
        },
{
    reveal(Seq::filter);
    assert(s.take(i + 1).drop_last() =~= s.take(i));
    assert(s.take(i + 1).last() == s[i]);
}

/// Whether some table entry carries the name `t`.
pub open spec fn table_listed(ts: Seq<(String, usize)>, t: Seq<char>) -> bool {
    exists|a: int| 0 <= a < ts.len() && (#[trigger] ts[a]).0@ == t
}

/// Whether some column entry reads `key`.
pub open spec fn column_listed(cs: Seq<String>, key: Seq<char>) -> bool {
    exists|a: int| 0 <= a < cs.len() && (#[trigger] cs[a])@ == key
}

/// Whether one of the first `upto` records has the `table.column` key `key`.
pub open spec fn key_recorded(s: Seq<SQLChange>, upto: int, key: Seq<char>) -> bool {
    exists|k: int| 0 <= k < upto && col_key(#[trigger] s[k]) == key
}

/// Per-operation and per-table counts over a set of change records.
#[derive(Debug)]
pub struct Summary {
    pub total_changes: usize,
    pub insert_count: usize,
    pub update_count: usize,
    pub delete_count: usize,
    pub select_count: usize,
    /// One entry per distinct table name, with its record count.
    pub tables: Vec<(String, usize)>,
    /// One entry per distinct `table.column` pair.
    pub columns: Vec<String>,
}

impl Summary {
    /// Whether the summary states exactly the counts of `s`.
    pub open spec fn describes(self, s: Seq<SQLChange>) -> bool {
        &&& self.total_changes == s.len()
        &&& self.insert_count == count_op(s, SQLOperation::Insert)
        &&& self.update_count == count_op(s, SQLOperation::Update)
        &&& self.delete_count == count_op(s, SQLOperation::Delete)
        &&& self.select_count == count_op(s, SQLOperation::Select)
        &&& (forall|i: int, j: int|
            0 <= i < j < self.tables@.len() ==> self.tables@[i].0@ != self.tables@[j].0@)
        &&& (forall|i: int|
            0 <= i < self.tables@.len() ==> #[trigger] self.tables@[i].1
                == count_table(s, self.tables@[i].0@) && self.tables@[i].1 > 0)
        &&& (forall|k: int|
            0 <= k < s.len() ==> table_listed(self.tables@, (#[trigger] s[k]).table_name@))
        &&& (forall|i: int, j: int|
            0 <= i < j < self.columns@.len() ==> self.columns@[i]@ != self.columns@[j]@)
        &&& (forall|i: int|
            0 <= i < self.columns@.len() ==> key_recorded(s, s.len() as int, (
            #[trigger] self.columns@[i])@))
        &&& (forall|k: int|
            0 <= k < s.len() ==> column_listed(self.columns@, col_key(#[trigger] s[k])))
    }
}

/// Holds the change records decoded from tracked SQL statements.
#[derive(Debug)]
pub struct SQLTracker {
    storage_path: Option<String>,
    changes: Vec<SQLChange>,
}

impl SQLTracker {
    /// The records held, in the order they were recorded.
    pub closed spec fn changes_seq(self) -> Seq<SQLChange> {
        self.changes@
    }

    /// The path the outside tracker persists to, when one was given.
    pub closed spec fn spec_storage_path(self) -> Option<String> {
        self.storage_path
    }

    /// A tracker with no records yet.
    pub fn new(storage_path: Option<&str>) -> (t: SQLTracker)
        ensures
            t.changes_seq() == Seq::<SQLChange>::empty(),
            match storage_path {
                Some(p) => t.spec_storage_path() is Some && t.spec_storage_path()->0@ == p@,
                None => t.spec_storage_path() is None,
            },
    {
        SQLTracker {
            storage_path: match storage_path {
                Some(p) => Some(p.to_owned()),
                None => None,
            },
            changes: Vec::new(),
        }
    }

    /// Appends one decoded change record.
    pub fn record_change(&mut self, change: SQLChange)
        ensures
            final(self).changes_seq() == old(self).changes_seq().push(change),
            final(self).spec_storage_path() == old(self).spec_storage_path(),
    {
        self.changes.push(change);
    }

    /// The records that pass the given filters, oldest first.
    #[verifier::loop_isolation(false)]
    pub fn get_changes(
        &self,
        table_filter: Option<&str>,
        column_filter: Option<&str>,
        operation_filter: Option<&str>,
    ) -> (r: Vec<SQLChange>)
        ensures
            r@ == spec_get_changes(
                self.changes_seq(),
                match table_filter {
                    Some(t) => Some(t@),
                    None => None,
                },
                match column_filter {
                    Some(t) => Some(t@),
                    None => None,
                },
                match operation_filter {
                    Some(t) => Some(t@),
                    None => None,
                },
            ),
    {
        let ghost tf: Option<Seq<char>> = match table_filter {
            Some(t) => Some(t@),
            None => None,
        };
        let ghost cf: Option<Seq<char>> = match column_filter {
            Some(t) => Some(t@),
            None => None,
        };
        let ghost of: Option<Seq<char>> = match operation_filter {
            Some(t) => Some(t@),
            None => None,
        };
        let table_want: Option<String> = match table_filter {
            Some(t) => Some(t.to_owned()),
            None => None,
        };
        let column_want: Option<String> = match column_filter {
            Some(t) => Some(t.to_owned()),
            None => None,
        };
        let operation_want: Option<String> = match operation_filter {
            Some(t) => Some(t.to_owned()),
            None => None,
        };
        let mut r: Vec<SQLChange> = Vec::new();
        let n = self.changes.len();
        let mut i: usize = 0;
        while i < n
            invariant
                i <= n,
                r@ == spec_get_changes(self.changes@.take(i as int), tf, cf, of),
                match (table_filter, table_want) {
                    (Some(t), Some(w)) => w@ == t@,
                    (None, None) => true,
                    _ => false,
                },
                match (column_filter, column_want) {
                    (Some(t), Some(w)) => w@ == t@,
                    (None, None) => true,
                    _ => false,
                },
                match (operation_filter, operation_want) {
                    (Some(t), Some(w)) => w@ == t@,
                    (None, None) => true,
                    _ => false,
                },
            decreases n - i,
        {
            let change = &self.changes[i];
            let mut keep = true;
            if let Some(w) = &table_want {
                if !(change.table_name == *w) {
                    keep = false;
                }
            }
            if let Some(w) = &column_want {
                if !(change.column_name == *w) {
                    keep = false;
                }
            }
            if let Some(w) = &operation_want {
                if !(String::from_str(change.operation.as_str()) == *w) {
                    keep = false;
                }
            }
            proof {
                assert(keep == spec_passes(self.changes@[i as int], tf, cf, of));
                lemma_get_changes_step(self.changes@, i as int, tf, cf, of);
            }
            if keep {
                r.push(change.duplicate());
            }
            i += 1;
        }
        proof {
            assert(self.changes@.take(n as int) =~= self.changes@);
        }
        r
    }

    /// All records, oldest first.
    pub fn all_changes(&self) -> (r: &Vec<SQLChange>)
        ensures
            r@ == self.changes_seq(),
    {
        &self.changes
    }

    /// Counts the records per operation, per table, and per `table.column`
    /// pair.
    #[verifier::loop_isolation(false)]
    pub fn summary(&self) -> (s: Summary)
        ensures
            s.describes(self.changes_seq()),
    {
        let mut total: usize = 0;
        let mut inserts: usize = 0;
        let mut updates: usize = 0;
        let mut deletes: usize = 0;
        let mut selects: usize = 0;
        let mut tables: Vec<(String, usize)> = Vec::new();
        let mut columns: Vec<String> = Vec::new();
        let n = self.changes.len();
        let ghost all = self.changes@;
        let mut i: usize = 0;
        while i < n
            invariant
                n == all.len(),
                all == self.changes@,
                i <= n,
                total == i,
                inserts == count_op(all.take(i as int), SQLOperation::Insert),
                updates == count_op(all.take(i as int), SQLOperation::Update),
                deletes == count_op(all.take(i as int), SQLOperation::Delete),
                selects == count_op(all.take(i as int), SQLOperation::Select),
                forall|a: int, b: int|
                    0 <= a < b < tables@.len() ==> tables@[a].0@ != tables@[b].0@,
                forall|a: int|
                    0 <= a < tables@.len() ==> #[trigger] tables@[a].1 == count_table(
                        all.take(i as int),
                        tables@[a].0@,
                    ) && tables@[a].1 > 0,
                forall|k: int|
                    0 <= k < i ==> table_listed(tables@, (#[trigger] all[k]).table_name@),
                forall|a: int, b: int|
                    0 <= a < b < columns@.len() ==> columns@[a]@ != columns@[b]@,
                forall|a: int|
                    0 <= a < columns@.len() ==> key_recorded(all, i as int, (
                    #[trigger] columns@[a])@),
                forall|k: int|
                    0 <= k < i ==> column_listed(columns@, col_key(#[trigger] all[k])),
            decreases n - i,
        {
            let change = &self.changes[i];
            proof {
                lemma_count_op_step(all, i as int, SQLOperation::Insert);
                lemma_count_op_step(all, i as int, SQLOperation::Update);
                lemma_count_op_step(all, i as int, SQLOperation::Delete);
                lemma_count_op_step(all, i as int, SQLOperation::Select);
                lemma_count_op_le(all.take(i as int), SQLOperation::Insert);
                lemma_count_op_le(all.take(i as int), SQLOperation::Update);
                lemma_count_op_le(all.take(i as int), SQLOperation::Delete);
                lemma_count_op_le(all.take(i as int), SQLOperation::Select);
            }
            total += 1;
            match change.operation {
                SQLOperation::Insert => {
                    inserts += 1;
                },
                SQLOperation::Update => {
                    updates += 1;
                },
                SQLOperation::Delete => {
                    deletes += 1;
                },
                SQLOperation::Select => {
                    selects += 1;
                },
                SQLOperation::Unknown => {},
            }
            Self::bump_table(&mut tables, &change.table_name, Ghost(all), Ghost(i as int));
            let mut key = change.table_name.clone();
            key.append(".");
            key.append(change.column_name.as_str());
            proof {
                assert(key@ == col_key(all[i as int]));
            }
            Self::add_column(&mut columns, key, Ghost(all), Ghost(i as int));
            i += 1;
        }
        proof {
            assert(all.take(n as int) =~= all);
        }
        Summary {
            total_changes: total,
            insert_count: inserts,
            update_count: updates,
            delete_count: deletes,
            select_count: selects,
            tables,
            columns,
        }
    }

    #[verifier::loop_isolation(false)]
    fn bump_table(tables: &mut Vec<(String, usize)>, name: &String, all: Ghost<Seq<SQLChange>>, i: Ghost<int>)
        requires
            0 <= i@ < all@.len(),
            i@ < usize::MAX,
            all@[i@].table_name@ == name@,
            forall|a: int, b: int|
                0 <= a < b < old(tables)@.len() ==> old(tables)@[a].0@ != old(tables)@[b].0@,
            forall|a: int|
                0 <= a < old(tables)@.len() ==> #[trigger] old(tables)@[a].1 == count_table(
                    all@.take(i@),
                    old(tables)@[a].0@,
                ) && old(tables)@[a].1 > 0,
            forall|k: int|
                0 <= k < i@ ==> table_listed(old(tables)@, (#[trigger] all@[k]).table_name@),
        ensures
            forall|a: int, b: int|
                0 <= a < b < final(tables)@.len() ==> final(tables)@[a].0@ != final(tables)@[b].0@,
            forall|a: int|
                0 <= a < final(tables)@.len() ==> #[trigger] final(tables)@[a].1 == count_table(
                    all@.take(i@ + 1),
                    final(tables)@[a].0@,
                ) && final(tables)@[a].1 > 0,
            forall|k: int|
                0 <= k < i@ + 1 ==> table_listed(final(tables)@, (#[trigger] all@[k]).table_name@),
    {
        let n = tables.len();
        let mut j: usize = 0;
        while j < n
            invariant
                n == tables@.len(),
                j <= n,
                tables@ == old(tables)@,
                forall|a: int| 0 <= a < j ==> (#[trigger] tables@[a]).0@ != name@,
            decreases n - j,
        {
            let hit = tables[j].0 == *name;
            if hit {
                let count = tables[j].1;
                proof {
                    lemma_count_table_le(all@.take(i@), name@);
                    lemma_count_table_step(all@, i@, name@);
                }
                let new_count = count + 1;
                let key = tables[j].0.clone();
                tables.set(j, (key, new_count));
                proof {
                    let ghost fin = tables@;
                    let ghost prior = old(tables)@;
                    assert(fin =~= prior.update(j as int, (key, new_count)));
                    assert(forall|a: int|
                        0 <= a < fin.len() ==> (#[trigger] fin[a]).0@ == prior[a].0@);
                    assert forall|a: int| 0 <= a < fin.len() implies #[trigger] fin[a].1
                        == count_table(all@.take(i@ + 1), fin[a].0@) && fin[a].1 > 0 by {
                        lemma_count_table_step(all@, i@, fin[a].0@);
                        if a != j {
                            assert(prior[a].0@ != name@);
                        }
                    }
                    assert forall|k: int| 0 <= k < i@ + 1 implies table_listed(
                        fin,
                        (#[trigger] all@[k]).table_name@,
                    ) by {
                        if k < i@ {
                            assert(table_listed(prior, all@[k].table_name@));
                            let a = choose|a: int|
                                0 <= a < prior.len() && (#[trigger] prior[a]).0@
                                    == all@[k].table_name@;
                            assert(fin[a].0@ == all@[k].table_name@);
                        } else {
                            assert(fin[j as int].0@ == all@[i@].table_name@);
                        }
                    }
                }
                return ;
            }
            j += 1;
        }
        proof {
            assert(forall|k: int|
                0 <= k < i@ ==> (#[trigger] all@.take(i@)[k]).table_name@ != name@);
            lemma_count_table_zero(all@.take(i@), name@);
            lemma_count_table_step(all@, i@, name@);
        }
        tables.push((name.clone(), 1));
        proof {
            let ghost fin = tables@;
            let ghost prior = old(tables)@;
            assert(fin =~= prior.push((fin[fin.len() - 1].0, 1)));
            assert(fin[fin.len() - 1].0@ == name@);
            assert forall|a: int| 0 <= a < fin.len() implies #[trigger] fin[a].1 == count_table(
                all@.take(i@ + 1),
                fin[a].0@,
            ) && fin[a].1 > 0 by {
                lemma_count_table_step(all@, i@, fin[a].0@);
                if a < fin.len() - 1 {
                    assert(fin[a] == prior[a]);
                    assert(prior[a].0@ != name@);
                }
            }
            assert forall|k: int| 0 <= k < i@ + 1 implies table_listed(
                fin,
                (#[trigger] all@[k]).table_name@,
            ) by {
                if k < i@ {
                    assert(table_listed(prior, all@[k].table_name@));
                    let a = choose|a: int|
                        0 <= a < prior.len() && (#[trigger] prior[a]).0@ == all@[k].table_name@;
                    assert(fin[a].0@ == all@[k].table_name@);
                } else {
                    assert(fin[fin.len() - 1].0@ == all@[i@].table_name@);
                }
            }
        }
    }

    #[verifier::loop_isolation(false)]
    fn add_column(columns: &mut Vec<String>, key: String, all: Ghost<Seq<SQLChange>>, i: Ghost<int>)
        requires
            0 <= i@ < all@.len(),
            col_key(all@[i@]) == key@,
            forall|a: int, b: int|
                0 <= a < b < old(columns)@.len() ==> old(columns)@[a]@ != old(columns)@[b]@,
            forall|a: int|
                0 <= a < old(columns)@.len() ==> key_recorded(all@, i@, (
                #[trigger] old(columns)@[a])@),
            forall|k: int|
                0 <= k < i@ ==> column_listed(old(columns)@, col_key(#[trigger] all@[k])),
        ensures
            forall|a: int, b: int|
                0 <= a < b < final(columns)@.len() ==> final(columns)@[a]@ != final(columns)@[b]@,
            forall|a: int|
                0 <= a < final(columns)@.len() ==> key_recorded(all@, i@ + 1, (
                #[trigger] final(columns)@[a])@),
            forall|k: int|
                0 <= k < i@ + 1 ==> column_listed(final(columns)@, col_key(#[trigger] all@[k])),
    {
        let n = columns.len();
        let mut j: usize = 0;
        while j < n
            invariant
                n == columns@.len(),
                j <= n,
                columns@ == old(columns)@,
                forall|a: int| 0 <= a < j ==> (#[trigger] columns@[a])@ != key@,
            decreases n - j,
        {
            let hit = columns[j] == key;
            if hit {
                proof {
                    let ghost fin = columns@;
                    assert forall|a: int| 0 <= a < fin.len() implies key_recorded(
                        all@,
                        i@ + 1,
                        (#[trigger] fin[a])@,
                    ) by {
                        assert(key_recorded(all@, i@, fin[a]@));
                        let k = choose|k: int|
                            0 <= k < i@ && col_key(#[trigger] all@[k]) == fin[a]@;
                        assert(col_key(all@[k]) == fin[a]@);
                    }
                    assert forall|k: int| 0 <= k < i@ + 1 implies column_listed(
                        fin,
                        col_key(#[trigger] all@[k]),
                    ) by {
                        if k == i@ {
                            assert(fin[j as int]@ == col_key(all@[i@]));
                        }
                    }
                }
                return ;
            }
            j += 1;
        }
        columns.push(key);
        proof {
            let ghost fin = columns@;
            let ghost prior = old(columns)@;
            assert(fin =~= prior.push(fin[fin.len() - 1]));
            assert forall|a: int| 0 <= a < fin.len() implies key_recorded(
                all@,
                i@ + 1,
                (#[trigger] fin[a])@,
            ) by {
                if a < fin.len() - 1 {
                    assert(key_recorded(all@, i@, prior[a]@));
                    let k = choose|k: int| 0 <= k < i@ && col_key(#[trigger] all@[k]) == prior[a]@;
                    assert(col_key(all@[k]) == fin[a]@);
                } else {
                    assert(col_key(all@[i@]) == fin[a]@);
                }
            }
            assert forall|k: int| 0 <= k < i@ + 1 implies column_listed(
                fin,
                col_key(#[trigger] all@[k]),
            ) by {
                if k < i@ {
                    assert(column_listed(prior, col_key(all@[k])));
                    let a = choose|a: int|
                        0 <= a < prior.len() && (#[trigger] prior[a])@ == col_key(all@[k]);
                    assert(fin[a]@ == col_key(all@[k]));
                } else {
                    assert(fin[fin.len() - 1]@ == col_key(all@[i@]));
                }
            }
        }
    }
}

} // verus!
