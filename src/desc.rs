//! Descriptions of PostgreSQL schemas and tables, and when a table may be
//! read as it was first described.
use vstd::prelude::*;

verus! {

/// A PostgreSQL object identifier.
pub type Oid = u32;

/// A schema in a PostgreSQL database.
#[derive(Clone, Debug, PartialEq, Eq)]
pub struct PostgresSchemaDesc {
    /// The OID of the schema.
    pub oid: Oid,
    /// The name of the schema.
    pub name: String,
    /// The owner of the namespace.
    pub owner: Oid,
}

/// A column of a [`PostgresTableDesc`].
#[derive(Clone, Debug, PartialEq, Eq)]
pub struct PostgresColumnDesc {
    /// The name of the column.
    pub name: String,
    /// The column's monotonic position in its table: "this was the i-th
    /// column created", whatever the current number of columns.
    pub col_num: Option<u16>,
    /// The OID of the column's type.
    pub type_oid: Oid,
    /// The modifier of the column's type.
    pub type_mod: i32,
    /// True if the column lacks a `NOT NULL` constraint.
    pub nullable: bool,
}

pub struct ColumnView {
    pub name: Seq<char>,
    pub col_num: Option<u16>,
    pub type_oid: Oid,
    pub type_mod: i32,
    pub nullable: bool,
}

impl View for PostgresColumnDesc {
    type V = ColumnView;

    open spec fn view(&self) -> ColumnView {
        ColumnView {
            name: self.name@,
            col_num: self.col_num,
            type_oid: self.type_oid,
            type_mod: self.type_mod,
            nullable: self.nullable,
        }
    }
}

/// A key of a [`PostgresTableDesc`]: its primary key or a unique constraint.
#[derive(Clone, Debug, PartialEq, Eq)]
pub struct PostgresKeyDesc {
    /// The OID of the `pg_constraint` that the key comes from.
    pub oid: Oid,
    /// The name of the constraint.
    pub name: String,
    /// The `attnum` of each column of the key.
    pub cols: Vec<u16>,
    /// Whether this key is the primary key.
    pub is_primary: bool,
    /// Whether the constraint was made with `NULLS NOT DISTINCT`.
    pub nulls_not_distinct: bool,
}

pub struct KeyView {
    pub oid: Oid,
    pub name: Seq<char>,
    pub cols: Seq<u16>,
    pub is_primary: bool,
    pub nulls_not_distinct: bool,
}

impl View for PostgresKeyDesc {
    type V = KeyView;

    open spec fn view(&self) -> KeyView {
        KeyView {
            oid: self.oid,
            name: self.name@,
            cols: self.cols@,
            is_primary: self.is_primary,
            nulls_not_distinct: self.nulls_not_distinct,
        }
    }
}

/// A table in a PostgreSQL database.
#[derive(Clone, Debug, PartialEq, Eq)]
pub struct PostgresTableDesc {
    /// The OID of the table.
    pub oid: Oid,
    /// The name of the schema that the table belongs to.
    pub namespace: String,
    /// The name of the table.
    pub name: String,
    /// Each column, in the order of their position in the table.
    pub columns: Vec<PostgresColumnDesc>,
    /// The keys of the table (its primary key and unique constraints);
    /// their order carries no meaning.
    pub keys: Vec<PostgresKeyDesc>,
}

pub struct TableView {
    pub oid: Oid,
    pub namespace: Seq<char>,
    pub name: Seq<char>,
    pub columns: Seq<ColumnView>,
    pub keys: Seq<KeyView>,
}

impl View for PostgresTableDesc {
    type V = TableView;

    open spec fn view(&self) -> TableView {
        TableView {
            oid: self.oid,
            namespace: self.namespace@,
            name: self.name@,
            columns: self.columns@.map_values(|c: PostgresColumnDesc| c@),
            keys: self.keys@.map_values(|k: PostgresKeyDesc| k@),
        }
    }
}

/// The failure of [`PostgresTableDesc::determine_compatibility`]: the
/// source table with this name and OID has been altered.
#[derive(Clone, Debug, PartialEq, Eq)]
pub struct TableAltered {
    pub name: String,
    pub oid: Oid,
}

/// Whether data of a column shaped as `other` can be treated as data of
/// `s`: all is the same, but a nullable column may have gained a
/// `NOT NULL` constraint.
pub open spec fn column_compatible(s: ColumnView, other: ColumnView) -> bool {
    &&& s.name == other.name
    &&& s.col_num == other.col_num
    &&& s.type_oid == other.type_oid
    &&& s.type_mod == other.type_mod
    &&& (s.nullable || s.nullable == other.nullable)
}

/// Whether a table now described as `other` can still be read as `s`:
/// same OID, schema and name; the columns of `s` a compatible prefix of
/// those of `other`; and each key of `s` still a key of `other`.
pub open spec fn table_compatible(s: TableView, other: TableView) -> bool {
    &&& s.columns.len() <= other.columns.len()
    &&& forall|i: int| 0 <= i < s.columns.len() ==> column_compatible(#[trigger] s.columns[i], other.columns[i])
    &&& s.name == other.name
    &&& s.oid == other.oid
    &&& s.namespace == other.namespace
    &&& forall|i: int| 0 <= i < s.keys.len() ==> #[trigger] other.keys.contains(s.keys[i])
}

impl PostgresColumnDesc {
    /// Whether data of a column shaped as `other` can be treated as data of
    /// this column. Names must match too, though that could be relaxed.
    pub fn is_compatible(&self, other: &PostgresColumnDesc) -> (r: bool)
        ensures
            r == column_compatible(self@, other@),
    {
        self.name == other.name && self.col_num == other.col_num && self.type_oid == other.type_oid
            && self.type_mod == other.type_mod && (self.nullable || self.nullable == other.nullable)
    }
}

fn same_cols(a: &Vec<u16>, b: &Vec<u16>) -> (r: bool)
    ensures
        r == (a@ == b@),
{
    if a.len() != b.len() {
        return false;
    }
    let mut i: usize = 0;
    while i < a.len()
        invariant
            0 <= i <= a@.len(),
            a@.len() == b@.len(),
            forall|j: int| 0 <= j < i ==> a@[j] == b@[j],
        decreases a.len() - i,
    {
        if a[i] != b[i] {
            return false;
        }
        i = i + 1;
    }
    assert(a@ =~= b@);
    true
}

impl PostgresKeyDesc {
    /// Whether two keys are described alike.
    pub fn same(&self, other: &PostgresKeyDesc) -> (r: bool)
        ensures
            r == (self@ == other@),
    {
        self.oid == other.oid && self.name == other.name && same_cols(&self.cols, &other.cols)
            && self.is_primary == other.is_primary && self.nulls_not_distinct == other.nulls_not_distinct
    }
}

fn has_key(keys: &Vec<PostgresKeyDesc>, key: &PostgresKeyDesc) -> (r: bool)
    ensures
        r == keys@.map_values(|k: PostgresKeyDesc| k@).contains(key@),
{
    let ghost kv = keys@.map_values(|k: PostgresKeyDesc| k@);
    let mut i: usize = 0;
    while i < keys.len()
        invariant
            0 <= i <= keys@.len(),
            kv == keys@.map_values(|k: PostgresKeyDesc| k@),
            forall|j: int| 0 <= j < i ==> kv[j] != key@,
        decreases keys.len() - i,
    {
        if keys[i].same(key) {
            assert(kv[i as int] == key@);
            return true;
        }
        i = i + 1;
    }
    false
}

impl PostgresTableDesc {
    /// Whether the table, now described as `other`, can still be read as
    /// this description says: the two are alike, except that this table's
    /// columns may be a compatible prefix of `other`'s (see
    /// [`PostgresColumnDesc::is_compatible`]) and `other` may have more keys.
    pub fn determine_compatibility(&self, other: &PostgresTableDesc) -> (r: Result<(), TableAltered>)
        ensures
            r is Ok <==> table_compatible(self@, other@),
            r matches Err(e) ==> e.name@ == self.name@ && e.oid == self.oid,
    {
        let ghost sv = self@;
        let ghost ov = other@;
        let mut ok = self.columns.len() <= other.columns.len() && self.name == other.name && self.oid == other.oid
            && self.namespace == other.namespace;
        let mut i: usize = 0;
        while ok && i < self.columns.len()
            invariant
                0 <= i <= self.columns@.len(),
                sv == self@,
                ov == other@,
                ok ==> self.columns@.len() <= other.columns@.len(),
                ok ==> forall|j: int| 0 <= j < i ==> column_compatible(#[trigger] sv.columns[j], ov.columns[j]),
                ok ==> sv.name == ov.name && sv.oid == ov.oid && sv.namespace == ov.namespace,
                ok <== table_compatible(sv, ov),
            decreases self.columns.len() - i,
        {
            if !self.columns[i].is_compatible(&other.columns[i]) {
                assert(sv.columns[i as int] == self.columns@[i as int]@);
                ok = false;
            }
            i = i + 1;
        }
        let mut k: usize = 0;
        while ok && k < self.keys.len()
            invariant
                0 <= k <= self.keys@.len(),
                sv == self@,
                ov == other@,
                ok ==> self.columns@.len() <= other.columns@.len(),
                ok ==> forall|j: int| 0 <= j < sv.columns.len() ==> column_compatible(#[trigger] sv.columns[j], ov.columns[j]),
                ok ==> sv.name == ov.name && sv.oid == ov.oid && sv.namespace == ov.namespace,
                ok ==> forall|j: int| 0 <= j < k ==> #[trigger] ov.keys.contains(sv.keys[j]),
                ok <== table_compatible(sv, ov),
            decreases self.keys.len() - k,
        {
            if !has_key(&other.keys, &self.keys[k]) {
                assert(sv.keys[k as int] == self.keys@[k as int]@);
                assert(!ov.keys.contains(sv.keys[k as int]));
                ok = false;
            }
            k = k + 1;
        }
        if ok {
            Ok(())
        } else {
            Err(TableAltered { name: self.name.clone(), oid: self.oid })
        }
    }
}

} // verus!
