//! What the definition records of the journal carry: the databases, tables and indexes of an
//! instance, as payloads that read back.
//!
//! A drop carries the identifier, four bytes. A `CreateDatabase` carries the identifier then the
//! name in UTF-8. A `CreateTable` and a `CreateIndex` carry a run of 8-byte words, described at
//! [`table_words`] and [`index_words`].

use vstd::prelude::*;

use super::bytes::{
    le_bytes, le_value, lemma_byte_ranges, lemma_le_round_trip, put_bytes, put_u32, put_u64,
    read_u32, read_u64,
};
use super::encode::utf8_text;
use super::page::PageId;
use crate::error::{Corruption, InternalError};
use crate::ids::{DbId, IndexId, TableId};
use crate::shape::{IndexShape, IndexShapeModel, KeyColumn, TableShape, TableShapeModel};
use crate::value::{Collation, Len, SqlType, TypeInfo};
use vstd::utf8::{decode_utf8, encode_utf8, valid_utf8};

verus! {

/// The bytes of a run of words, 8 little-endian bytes each.
pub open spec fn words_bytes(ws: Seq<u64>) -> Seq<u8>
    decreases ws.len(),
{
    if ws.len() == 0 {
        Seq::empty()
    } else {
        words_bytes(ws.drop_last()) + le_bytes(ws.last() as nat, 8)
    }
}

/// The words of a run of bytes.
pub open spec fn words_in(s: Seq<u8>) -> Seq<u64> {
    Seq::new((s.len() / 8) as nat, |i: int| le_value(s.subrange(8 * i, 8 * i + 8)) as u64)
}

/// Words read back from their bytes.
pub proof fn lemma_words_read_back(ws: Seq<u64>)
    ensures
        words_bytes(ws).len() == 8 * ws.len(),
        words_in(words_bytes(ws)) == ws,
    decreases ws.len(),
{
    lemma_byte_ranges();
    if ws.len() > 0 {
        let init = ws.drop_last();
        let s = words_bytes(ws);
        let t = words_bytes(init);
        lemma_words_read_back(init);
        lemma_le_round_trip(ws.last() as nat, 8);
        assert(s.len() == 8 * ws.len());
        assert forall|i: int| 0 <= i < ws.len() implies #[trigger] words_in(s)[i] == ws[i] by {
            if i < init.len() {
                assert(s.subrange(8 * i, 8 * i + 8) =~= t.subrange(8 * i, 8 * i + 8));
                assert(words_in(t)[i] == init[i]);
            } else {
                assert(s.subrange(8 * i, 8 * i + 8) =~= le_bytes(ws.last() as nat, 8));
            }
        }
        assert(words_in(s) =~= ws);
    } else {
        assert(words_in(words_bytes(ws)) =~= ws);
    }
}

/// The bytes of a run of words.
fn put_words(ws: &Vec<u64>) -> (r: Vec<u8>)
    ensures
        r@ == words_bytes(ws@),
{
    let mut out: Vec<u8> = Vec::new();
    assert(ws@.take(0) =~= Seq::<u64>::empty());
    assert(out@ =~= words_bytes(ws@.take(0)));
    for i in 0..ws.len()
        invariant
            out@ == words_bytes(ws@.take(i as int)),
    {
        put_u64(&mut out, ws[i]);
        assert(ws@.take(i + 1).drop_last() =~= ws@.take(i as int));
    }
    assert(ws@.take(ws@.len() as int) =~= ws@);
    out
}

/// The words of a run of bytes, `None` when the bytes are no whole number of words.
fn read_words(bytes: &[u8]) -> (r: Option<Vec<u64>>)
    ensures
        match r {
            Some(ws) => bytes@.len() % 8 == 0 && ws@ == words_in(bytes@),
            None => bytes@.len() % 8 != 0,
        },
{
    let size: usize = bytes.len();
    if size % 8 != 0 {
        return None;
    }
    let n: usize = size / 8;
    let mut ws: Vec<u64> = Vec::new();
    for i in 0..n
        invariant
            n == bytes@.len() / 8,
            bytes@.len() <= usize::MAX,
            ws@.len() == i,
            forall|j: int| 0 <= j < i ==> #[trigger] ws@[j] == words_in(bytes@)[j],
    {
        ws.push(read_u64(bytes, i * 8));
    }
    assert(ws@ =~= words_in(bytes@));
    Some(ws)
}

/// The word of a length: the count, or one past the largest count for `max`.
pub open spec fn len_word(len: Len) -> u64 {
    match len {
        Len::Fixed(count) => count as u64,
        Len::Max => 0x1_0000,
    }
}

/// The length a word stands for.
pub open spec fn len_in(w: u64) -> Option<Len> {
    if w < 0x1_0000 {
        Some(Len::Fixed(w as u16))
    } else if w == 0x1_0000 {
        Some(Len::Max)
    } else {
        None
    }
}

/// The three words of a type: its tag and its two parameters.
pub open spec fn type_words(ty: SqlType) -> (u64, u64, u64) {
    match ty {
        SqlType::Bit => (0, 0, 0),
        SqlType::TinyInt => (1, 0, 0),
        SqlType::SmallInt => (2, 0, 0),
        SqlType::Int => (3, 0, 0),
        SqlType::BigInt => (4, 0, 0),
        SqlType::Real => (5, 0, 0),
        SqlType::Float => (6, 0, 0),
        SqlType::Money => (7, 0, 0),
        SqlType::SmallMoney => (8, 0, 0),
        SqlType::Decimal { precision, scale } => (9, precision as u64, scale as u64),
        SqlType::Numeric { precision, scale } => (10, precision as u64, scale as u64),
        SqlType::Char(len) => (11, len_word(len), 0),
        SqlType::VarChar(len) => (12, len_word(len), 0),
        SqlType::NChar(len) => (13, len_word(len), 0),
        SqlType::NVarChar(len) => (14, len_word(len), 0),
        SqlType::Binary(len) => (15, len_word(len), 0),
        SqlType::VarBinary(len) => (16, len_word(len), 0),
        SqlType::Date => (17, 0, 0),
        SqlType::Time(scale) => (18, scale as u64, 0),
        SqlType::DateTime => (19, 0, 0),
        SqlType::SmallDateTime => (20, 0, 0),
        SqlType::DateTime2(scale) => (21, scale as u64, 0),
        SqlType::DateTimeOffset(scale) => (22, scale as u64, 0),
        SqlType::UniqueIdentifier => (23, 0, 0),
    }
}

/// The type of a tag that takes a length.
pub open spec fn run_type_in(tag: u64, len: Len) -> Option<SqlType> {
    match tag {
        11 => Some(SqlType::Char(len)),
        12 => Some(SqlType::VarChar(len)),
        13 => Some(SqlType::NChar(len)),
        14 => Some(SqlType::NVarChar(len)),
        15 => Some(SqlType::Binary(len)),
        16 => Some(SqlType::VarBinary(len)),
        _ => None,
    }
}

/// The type three words stand for.
pub open spec fn type_in(tag: u64, a: u64, b: u64) -> Option<SqlType> {
    match tag {
        0 => Some(SqlType::Bit),
        1 => Some(SqlType::TinyInt),
        2 => Some(SqlType::SmallInt),
        3 => Some(SqlType::Int),
        4 => Some(SqlType::BigInt),
        5 => Some(SqlType::Real),
        6 => Some(SqlType::Float),
        7 => Some(SqlType::Money),
        8 => Some(SqlType::SmallMoney),
        9 => if a < 256 && b < 256 {
            Some(SqlType::Decimal { precision: a as u8, scale: b as u8 })
        } else {
            None
        },
        10 => if a < 256 && b < 256 {
            Some(SqlType::Numeric { precision: a as u8, scale: b as u8 })
        } else {
            None
        },
        17 => Some(SqlType::Date),
        18 => if a < 256 {
            Some(SqlType::Time(a as u8))
        } else {
            None
        },
        19 => Some(SqlType::DateTime),
        20 => Some(SqlType::SmallDateTime),
        21 => if a < 256 {
            Some(SqlType::DateTime2(a as u8))
        } else {
            None
        },
        22 => if a < 256 {
            Some(SqlType::DateTimeOffset(a as u8))
        } else {
            None
        },
        23 => Some(SqlType::UniqueIdentifier),
        _ => match len_in(a) {
            Some(len) => run_type_in(tag, len),
            None => None,
        },
    }
}

/// The word of the nullability and of the collation of a column.
pub open spec fn flags_word(info: TypeInfo) -> u64 {
    let nullable: u64 = if info.nullable {
        1
    } else {
        0
    };
    match info.collation {
        None => nullable,
        Some(Collation::CaseInsensitive) => (2 + nullable) as u64,
        Some(Collation::CaseSensitive) => (4 + nullable) as u64,
    }
}

/// The column four words stand for.
pub open spec fn column_in(tag: u64, a: u64, b: u64, flags: u64) -> Option<TypeInfo> {
    match type_in(tag, a, b) {
        None => None,
        Some(ty) => if flags >= 6 {
            None
        } else {
            Some(
                TypeInfo {
                    ty,
                    nullable: flags % 2 == 1,
                    collation: if flags < 2 {
                        None
                    } else if flags < 4 {
                        Some(Collation::CaseInsensitive)
                    } else {
                        Some(Collation::CaseSensitive)
                    },
                },
            )
        },
    }
}

/// A column reads back from its words.
proof fn lemma_column_reads_back(info: TypeInfo)
    ensures
        ({
            let w = type_words(info.ty);
            column_in(w.0, w.1, w.2, flags_word(info)) == Some(info)
        }),
{
    let w = type_words(info.ty);
    assert(type_in(w.0, w.1, w.2) == Some(info.ty));
}

/// The words of the columns of a shape, four each.
pub open spec fn columns_words(columns: Seq<TypeInfo>) -> Seq<u64> {
    Seq::new(
        4 * columns.len(),
        |i: int|
            {
                let info = columns[i / 4];
                let w = type_words(info.ty);
                if i % 4 == 0 {
                    w.0
                } else if i % 4 == 1 {
                    w.1
                } else if i % 4 == 2 {
                    w.2
                } else {
                    flags_word(info)
                }
            },
    )
}

/// The words of a key, two for each column.
pub open spec fn key_words(key: Seq<KeyColumn>) -> Seq<u64> {
    Seq::new(
        2 * key.len(),
        |i: int|
            if i % 2 == 0 {
                key[i / 2].column as u64
            } else if key[i / 2].descending {
                1
            } else {
                0
            },
    )
}

/// The key column two words stand for.
pub open spec fn key_column_in(column: u64, descending: u64) -> Option<KeyColumn> {
    if column < 0x1_0000 && descending < 2 {
        Some(KeyColumn { column: column as u16, descending: descending == 1 })
    } else {
        None
    }
}

/// A table as the catalogue keeps it.
#[derive(Debug)]
pub struct TableEntry {
    /// The table.
    pub table: TableId,
    /// The database it belongs to.
    pub db: DbId,
    /// Its shape.
    pub shape: TableShape,
    /// The head page of its heap.
    pub first_page: PageId,
}

/// What a [`TableEntry`] stands for.
#[verifier::ext_equal]
pub struct TableEntryModel {
    /// The table.
    pub table: TableId,
    /// The database it belongs to.
    pub db: DbId,
    /// Its shape.
    pub shape: TableShapeModel,
    /// The head page of its heap.
    pub first_page: PageId,
}

impl View for TableEntry {
    type V = TableEntryModel;

    open spec fn view(&self) -> TableEntryModel {
        TableEntryModel {
            table: self.table,
            db: self.db,
            shape: self.shape@,
            first_page: self.first_page,
        }
    }
}

impl DeepView for TableEntry {
    type V = TableEntryModel;

    open spec fn deep_view(&self) -> TableEntryModel {
        self@
    }
}

/// The words of a table: its identifier, its database, its head page, whether it is clustered,
/// how many columns and how many key columns it has, then the columns and the key.
pub open spec fn table_words(e: TableEntryModel) -> Seq<u64> {
    let key = match e.shape.clustered_key {
        Some(key) => key,
        None => Seq::empty(),
    };
    seq![
        e.table.0 as u64,
        e.db.0 as u64,
        e.first_page.0,
        if e.shape.clustered_key is Some { 1 } else { 0 },
        e.shape.columns.len() as u64,
        key.len() as u64,
    ] + columns_words(e.shape.columns) + key_words(key)
}

/// The column at the position `at` of a run of words.
pub open spec fn column_at(ws: Seq<u64>, at: int) -> Option<TypeInfo> {
    column_in(ws[at], ws[at + 1], ws[at + 2], ws[at + 3])
}

/// Whether `n` columns are readable from the position `at` on.
pub open spec fn columns_readable(ws: Seq<u64>, at: int, n: nat) -> bool {
    forall|i: int| 0 <= i < n ==> #[trigger] column_at(ws, at + 4 * i) is Some
}

/// The columns from the position `at` on.
pub open spec fn columns_at(ws: Seq<u64>, at: int, n: nat) -> Seq<TypeInfo> {
    Seq::new(n, |i: int| column_at(ws, at + 4 * i)->0)
}

/// The key column at the position `at` of a run of words.
pub open spec fn key_column_at(ws: Seq<u64>, at: int) -> Option<KeyColumn> {
    key_column_in(ws[at], ws[at + 1])
}

/// Whether `n` key columns are readable from the position `at` on.
pub open spec fn key_readable(ws: Seq<u64>, at: int, n: nat) -> bool {
    forall|i: int| 0 <= i < n ==> #[trigger] key_column_at(ws, at + 2 * i) is Some
}

/// The key columns from the position `at` on.
pub open spec fn key_at(ws: Seq<u64>, at: int, n: nat) -> Seq<KeyColumn> {
    Seq::new(n, |i: int| key_column_at(ws, at + 2 * i)->0)
}

/// Whether words stand for a table.
pub open spec fn is_table(ws: Seq<u64>) -> bool {
    &&& ws.len() >= 6
    &&& ws[0] <= u32::MAX
    &&& ws[1] <= u32::MAX
    &&& ws[3] < 2
    &&& ws[3] == 0 ==> ws[5] == 0
    &&& ws.len() == 6 + 4 * ws[4] + 2 * ws[5]
    &&& columns_readable(ws, 6, ws[4] as nat)
    &&& key_readable(ws, 6 + 4 * ws[4], ws[5] as nat)
}

/// The table words stand for.
pub open spec fn table_in(ws: Seq<u64>) -> TableEntryModel {
    TableEntryModel {
        table: TableId(ws[0] as u32),
        db: DbId(ws[1] as u32),
        first_page: PageId(ws[2]),
        shape: TableShapeModel {
            columns: columns_at(ws, 6, ws[4] as nat),
            clustered_key: if ws[3] == 1 {
                Some(key_at(ws, 6 + 4 * ws[4], ws[5] as nat))
            } else {
                None
            },
        },
    }
}

/// A table reads back from its words.
pub proof fn law_table_definition_reads_back(e: TableEntryModel)
    requires
        e.shape.columns.len() <= u64::MAX,
        e.shape.clustered_key matches Some(key) ==> key.len() <= u64::MAX,
    ensures
        words_bytes(table_words(e)).len() % 8 == 0,
        words_in(words_bytes(table_words(e))) == table_words(e),
        is_table(table_words(e)),
        table_in(table_words(e)) == e,
{
    let ws = table_words(e);
    lemma_words_read_back(ws);
    let key = match e.shape.clustered_key {
        Some(key) => key,
        None => Seq::empty(),
    };
    let n = e.shape.columns.len();
    let at = 6 + 4 * n;
    assert forall|i: int| 0 <= i < n implies #[trigger] column_at(ws, 6 + 4 * i) == Some(
        e.shape.columns[i],
    ) by {
        let w = columns_words(e.shape.columns);
        assert(ws[6 + 4 * i] == w[4 * i]);
        assert(ws[6 + 4 * i + 1] == w[4 * i + 1]);
        assert(ws[6 + 4 * i + 2] == w[4 * i + 2]);
        assert(ws[6 + 4 * i + 3] == w[4 * i + 3]);
        assert((4 * i) / 4 == i && (4 * i + 1) / 4 == i && (4 * i + 2) / 4 == i && (4 * i + 3) / 4
            == i);
        lemma_column_reads_back(e.shape.columns[i]);
    }
    assert forall|i: int| 0 <= i < key.len() implies #[trigger] key_column_at(ws, at + 2 * i)
        == Some(key[i]) by {
        let w = key_words(key);
        assert(ws[at + 2 * i] == w[2 * i]);
        assert(ws[at + 2 * i + 1] == w[2 * i + 1]);
        assert((2 * i) / 2 == i && (2 * i + 1) / 2 == i);
    }
    assert(columns_at(ws, 6, n) =~= e.shape.columns);
    assert(key_at(ws, at as int, key.len()) =~= key);
}

/// An index as the catalogue keeps it.
#[derive(Debug)]
pub struct IndexEntry {
    /// The index.
    pub index: IndexId,
    /// The table it is on.
    pub table: TableId,
    /// Its shape.
    pub shape: IndexShape,
    /// Whether it shares the order of the clustered key of its table.
    pub shared: bool,
}

/// What an [`IndexEntry`] stands for.
#[verifier::ext_equal]
pub struct IndexEntryModel {
    /// The index.
    pub index: IndexId,
    /// The table it is on.
    pub table: TableId,
    /// Its shape.
    pub shape: IndexShapeModel,
    /// Whether it shares the order of the clustered key of its table.
    pub shared: bool,
}

impl View for IndexEntry {
    type V = IndexEntryModel;

    open spec fn view(&self) -> IndexEntryModel {
        IndexEntryModel {
            index: self.index,
            table: self.table,
            shape: self.shape@,
            shared: self.shared,
        }
    }
}

impl DeepView for IndexEntry {
    type V = IndexEntryModel;

    open spec fn deep_view(&self) -> IndexEntryModel {
        self@
    }
}

/// The words of an index: its identifier, its table, whether it shares the clustered order and
/// whether it is unique, how many key columns and how many included columns it has, then the key
/// and the included columns.
pub open spec fn index_words(e: IndexEntryModel) -> Seq<u64> {
    seq![
        e.index.0 as u64,
        e.table.0 as u64,
        if e.shared { 1 } else { 0 },
        if e.shape.unique { 1 } else { 0 },
        e.shape.columns.len() as u64,
        e.shape.included.len() as u64,
    ] + key_words(e.shape.columns) + Seq::new(
        e.shape.included.len(),
        |i: int| e.shape.included[i] as u64,
    )
}

/// Whether words stand for an index.
pub open spec fn is_index(ws: Seq<u64>) -> bool {
    &&& ws.len() >= 6
    &&& ws[0] <= u32::MAX
    &&& ws[1] <= u32::MAX
    &&& ws[2] < 2
    &&& ws[3] < 2
    &&& ws.len() == 6 + 2 * ws[4] + ws[5]
    &&& key_readable(ws, 6, ws[4] as nat)
    &&& forall|i: int| 6 + 2 * ws[4] <= i < ws.len() ==> #[trigger] ws[i] < 0x1_0000
}

/// The index words stand for.
pub open spec fn index_in(ws: Seq<u64>) -> IndexEntryModel {
    IndexEntryModel {
        index: IndexId(ws[0] as u32),
        table: TableId(ws[1] as u32),
        shared: ws[2] == 1,
        shape: IndexShapeModel {
            columns: key_at(ws, 6, ws[4] as nat),
            unique: ws[3] == 1,
            included: Seq::new(ws[5] as nat, |i: int| ws[6 + 2 * ws[4] + i] as u16),
        },
    }
}

/// An index reads back from its words.
pub proof fn law_index_definition_reads_back(e: IndexEntryModel)
    requires
        e.shape.columns.len() <= u64::MAX,
        e.shape.included.len() <= u64::MAX,
    ensures
        words_bytes(index_words(e)).len() % 8 == 0,
        words_in(words_bytes(index_words(e))) == index_words(e),
        is_index(index_words(e)),
        index_in(index_words(e)) == e,
{
    let ws = index_words(e);
    lemma_words_read_back(ws);
    let n = e.shape.columns.len();
    let m = e.shape.included.len();
    assert forall|i: int| 0 <= i < n implies #[trigger] key_column_at(ws, 6 + 2 * i) == Some(
        e.shape.columns[i],
    ) by {
        let w = key_words(e.shape.columns);
        assert(ws[6 + 2 * i] == w[2 * i]);
        assert(ws[6 + 2 * i + 1] == w[2 * i + 1]);
        assert((2 * i) / 2 == i && (2 * i + 1) / 2 == i);
    }
    assert forall|i: int| 0 <= i < m implies #[trigger] ws[6 + 2 * n + i]
        == e.shape.included[i] as u64 by {}
    assert(key_at(ws, 6, n) =~= e.shape.columns);
    assert(index_in(ws).shape.included =~= e.shape.included);
    assert forall|i: int| 6 + 2 * ws[4] <= i < ws.len() implies #[trigger] ws[i] < 0x1_0000 by {
        assert(ws[6 + 2 * n + (i - 6 - 2 * n)] == e.shape.included[i - 6 - 2 * n] as u64);
    }
}

/// The word of a length.
fn put_len(len: &Len) -> (r: u64)
    ensures
        r == len_word(*len),
{
    match len {
        Len::Fixed(count) => *count as u64,
        Len::Max => 0x1_0000,
    }
}

/// The three words of a type.
fn put_type(ty: &SqlType) -> (r: (u64, u64, u64))
    ensures
        r == type_words(*ty),
{
    match ty {
        SqlType::Bit => (0, 0, 0),
        SqlType::TinyInt => (1, 0, 0),
        SqlType::SmallInt => (2, 0, 0),
        SqlType::Int => (3, 0, 0),
        SqlType::BigInt => (4, 0, 0),
        SqlType::Real => (5, 0, 0),
        SqlType::Float => (6, 0, 0),
        SqlType::Money => (7, 0, 0),
        SqlType::SmallMoney => (8, 0, 0),
        SqlType::Decimal { precision, scale } => (9, *precision as u64, *scale as u64),
        SqlType::Numeric { precision, scale } => (10, *precision as u64, *scale as u64),
        SqlType::Char(len) => (11, put_len(len), 0),
        SqlType::VarChar(len) => (12, put_len(len), 0),
        SqlType::NChar(len) => (13, put_len(len), 0),
        SqlType::NVarChar(len) => (14, put_len(len), 0),
        SqlType::Binary(len) => (15, put_len(len), 0),
        SqlType::VarBinary(len) => (16, put_len(len), 0),
        SqlType::Date => (17, 0, 0),
        SqlType::Time(scale) => (18, *scale as u64, 0),
        SqlType::DateTime => (19, 0, 0),
        SqlType::SmallDateTime => (20, 0, 0),
        SqlType::DateTime2(scale) => (21, *scale as u64, 0),
        SqlType::DateTimeOffset(scale) => (22, *scale as u64, 0),
        SqlType::UniqueIdentifier => (23, 0, 0),
    }
}

/// The type three words stand for.
fn read_type(tag: u64, a: u64, b: u64) -> (r: Option<SqlType>)
    ensures
        r == type_in(tag, a, b),
{
    match tag {
        0 => Some(SqlType::Bit),
        1 => Some(SqlType::TinyInt),
        2 => Some(SqlType::SmallInt),
        3 => Some(SqlType::Int),
        4 => Some(SqlType::BigInt),
        5 => Some(SqlType::Real),
        6 => Some(SqlType::Float),
        7 => Some(SqlType::Money),
        8 => Some(SqlType::SmallMoney),
        9 => if a < 256 && b < 256 {
            Some(SqlType::Decimal { precision: a as u8, scale: b as u8 })
        } else {
            None
        },
        10 => if a < 256 && b < 256 {
            Some(SqlType::Numeric { precision: a as u8, scale: b as u8 })
        } else {
            None
        },
        17 => Some(SqlType::Date),
        18 => if a < 256 {
            Some(SqlType::Time(a as u8))
        } else {
            None
        },
        19 => Some(SqlType::DateTime),
        20 => Some(SqlType::SmallDateTime),
        21 => if a < 256 {
            Some(SqlType::DateTime2(a as u8))
        } else {
            None
        },
        22 => if a < 256 {
            Some(SqlType::DateTimeOffset(a as u8))
        } else {
            None
        },
        23 => Some(SqlType::UniqueIdentifier),
        _ => {
            let len: Len = if a < 0x1_0000 {
                Len::Fixed(a as u16)
            } else if a == 0x1_0000 {
                Len::Max
            } else {
                return None;
            };
            match tag {
                11 => Some(SqlType::Char(len)),
                12 => Some(SqlType::VarChar(len)),
                13 => Some(SqlType::NChar(len)),
                14 => Some(SqlType::NVarChar(len)),
                15 => Some(SqlType::Binary(len)),
                16 => Some(SqlType::VarBinary(len)),
                _ => None,
            }
        },
    }
}

/// The column four words stand for.
fn read_column(tag: u64, a: u64, b: u64, flags: u64) -> (r: Option<TypeInfo>)
    ensures
        r == column_in(tag, a, b, flags),
{
    match read_type(tag, a, b) {
        None => None,
        Some(ty) => if flags >= 6 {
            None
        } else {
            Some(
                TypeInfo {
                    ty,
                    nullable: flags % 2 == 1,
                    collation: if flags < 2 {
                        None
                    } else if flags < 4 {
                        Some(Collation::CaseInsensitive)
                    } else {
                        Some(Collation::CaseSensitive)
                    },
                },
            )
        },
    }
}

/// Appends the words of the columns of a shape.
fn put_columns(out: &mut Vec<u64>, columns: &Vec<TypeInfo>)
    ensures
        final(out)@ == old(out)@ + columns_words(columns@),
{
    let ghost before = out@;
    let ghost all = columns_words(columns@);
    assert(out@ =~= before + all.take(0));
    for i in 0..columns.len()
        invariant
            all == columns_words(columns@),
            out@ == before + all.take(4 * i),
    {
        let info: TypeInfo = columns[i];
        let w: (u64, u64, u64) = put_type(&info.ty);
        let nullable: u64 = if info.nullable {
            1
        } else {
            0
        };
        let flags: u64 = match info.collation {
            None => nullable,
            Some(Collation::CaseInsensitive) => 2 + nullable,
            Some(Collation::CaseSensitive) => 4 + nullable,
        };
        out.push(w.0);
        out.push(w.1);
        out.push(w.2);
        out.push(flags);
        proof {
            let n = i as int;
            assert((4 * n) / 4 == n && (4 * n + 1) / 4 == n && (4 * n + 2) / 4 == n && (4 * n + 3)
                / 4 == n);
            assert((4 * n) % 4 == 0 && (4 * n + 1) % 4 == 1 && (4 * n + 2) % 4 == 2 && (4 * n + 3)
                % 4 == 3);
            assert(out@ =~= before + all.take(4 * (n + 1)));
        }
    }
    assert(all.take(4 * columns@.len() as int) =~= all);
}

/// Appends the words of a key.
fn put_key(out: &mut Vec<u64>, key: &Vec<KeyColumn>)
    ensures
        final(out)@ == old(out)@ + key_words(key@),
{
    let ghost before = out@;
    let ghost all = key_words(key@);
    assert(out@ =~= before + all.take(0));
    for i in 0..key.len()
        invariant
            all == key_words(key@),
            out@ == before + all.take(2 * i),
    {
        out.push(key[i].column as u64);
        out.push(
            if key[i].descending {
                1
            } else {
                0
            },
        );
        proof {
            let n = i as int;
            assert((2 * n) / 2 == n && (2 * n + 1) / 2 == n);
            assert((2 * n) % 2 == 0 && (2 * n + 1) % 2 == 1);
            assert(out@ =~= before + all.take(2 * (n + 1)));
        }
    }
    assert(all.take(2 * key@.len() as int) =~= all);
}

/// The columns of a run of words, from the position `at` on; `None` if one is not readable.
fn read_columns(ws: &Vec<u64>, at: usize, n: usize) -> (r: Option<Vec<TypeInfo>>)
    requires
        at + 4 * n <= ws@.len(),
    ensures
        match r {
            Some(columns) => columns_readable(ws@, at as int, n as nat) && columns@ == columns_at(
                ws@,
                at as int,
                n as nat,
            ),
            None => !columns_readable(ws@, at as int, n as nat),
        },
{
    let size: usize = ws.len();
    let mut columns: Vec<TypeInfo> = Vec::new();
    for i in 0..n
        invariant
            at + 4 * n <= size,
            size == ws@.len(),
            columns@.len() == i,
            forall|j: int|
                0 <= j < i ==> #[trigger] column_at(ws@, at + 4 * j) == Some(columns@[j]),
    {
        let p: usize = at + 4 * i;
        match read_column(ws[p], ws[p + 1], ws[p + 2], ws[p + 3]) {
            Some(info) => {
                columns.push(info);
                assert(column_at(ws@, at + 4 * i) == Some(info));
            },
            None => {
                assert(column_at(ws@, at + 4 * i) is None);
                return None;
            },
        }
    }
    assert(columns@ =~= columns_at(ws@, at as int, n as nat)) by {
        assert forall|j: int| 0 <= j < n implies #[trigger] columns@[j] == column_at(
            ws@,
            at + 4 * j,
        )->0 by {}
    }
    Some(columns)
}

/// The key columns of a run of words, from the position `at` on; `None` if one is not readable.
fn read_key(ws: &Vec<u64>, at: usize, n: usize) -> (r: Option<Vec<KeyColumn>>)
    requires
        at + 2 * n <= ws@.len(),
    ensures
        match r {
            Some(key) => key_readable(ws@, at as int, n as nat) && key@ == key_at(
                ws@,
                at as int,
                n as nat,
            ),
            None => !key_readable(ws@, at as int, n as nat),
        },
{
    let size: usize = ws.len();
    let mut key: Vec<KeyColumn> = Vec::new();
    for i in 0..n
        invariant
            at + 2 * n <= size,
            size == ws@.len(),
            key@.len() == i,
            forall|j: int| 0 <= j < i ==> #[trigger] key_column_at(ws@, at + 2 * j) == Some(key@[j]),
    {
        let p: usize = at + 2 * i;
        if ws[p] < 0x1_0000 && ws[p + 1] < 2 {
            key.push(KeyColumn { column: ws[p] as u16, descending: ws[p + 1] == 1 });
            assert(key_column_at(ws@, at + 2 * i) == Some(key@[i as int]));
        } else {
            assert(key_column_at(ws@, at + 2 * i) is None);
            return None;
        }
    }
    assert(key@ =~= key_at(ws@, at as int, n as nat)) by {
        assert forall|j: int| 0 <= j < n implies #[trigger] key@[j] == key_column_at(
            ws@,
            at + 2 * j,
        )->0 by {}
    }
    Some(key)
}

impl TableEntry {
    /// The payload of the `CreateTable` record of this table.
    pub fn encode(&self) -> (r: Vec<u8>)
        ensures
            r@ == words_bytes(table_words(self@)),
    {
        let none: Vec<KeyColumn> = Vec::new();
        let (clustered, key): (u64, &Vec<KeyColumn>) = match &self.shape.clustered_key {
            Some(key) => (1, key),
            None => (0, &none),
        };
        let mut ws: Vec<u64> = Vec::new();
        ws.push(self.table.0 as u64);
        ws.push(self.db.0 as u64);
        ws.push(self.first_page.0);
        ws.push(clustered);
        ws.push(self.shape.columns.len() as u64);
        ws.push(key.len() as u64);
        let ghost head = ws@;
        put_columns(&mut ws, &self.shape.columns);
        put_key(&mut ws, key);
        proof {
            assert(none@ =~= Seq::<KeyColumn>::empty());
            assert(ws@ =~= table_words(self@));
        }
        put_words(&ws)
    }

    /// Reads the payload of a `CreateTable` record.
    ///
    /// # Errors
    ///
    /// A corruption for bytes that are no table.
    pub fn decode(bytes: &[u8]) -> (r: Result<Self, InternalError>)
        ensures
            match r {
                Ok(e) => bytes@.len() % 8 == 0 && is_table(words_in(bytes@)) && e@ == table_in(
                    words_in(bytes@),
                ),
                Err(e) => !(bytes@.len() % 8 == 0 && is_table(words_in(bytes@))) && e
                    == InternalError::Corruption(
                    Corruption::NotADefinition { bytes: bytes@.len() as usize },
                ),
            },
    {
        let bad: InternalError = InternalError::Corruption(
            Corruption::NotADefinition { bytes: bytes.len() },
        );
        let ws: Vec<u64> = match read_words(bytes) {
            Some(ws) => ws,
            None => {
                return Err(bad);
            },
        };
        let size: usize = ws.len();
        if size < 6 || ws[0] > u32::MAX as u64 || ws[1] > u32::MAX as u64 || ws[3] > 1 || (ws[3]
            == 0 && ws[5] != 0) {
            return Err(bad);
        }
        let left: usize = size - 6;
        if ws[4] > (left / 4) as u64 {
            return Err(bad);
        }
        let n: usize = ws[4] as usize;
        let rest: usize = left - 4 * n;
        if rest % 2 != 0 || ws[5] != (rest / 2) as u64 {
            return Err(bad);
        }
        let m: usize = ws[5] as usize;
        let columns: Vec<TypeInfo> = match read_columns(&ws, 6, n) {
            Some(columns) => columns,
            None => {
                return Err(bad);
            },
        };
        let key: Vec<KeyColumn> = match read_key(&ws, 6 + 4 * n, m) {
            Some(key) => key,
            None => {
                return Err(bad);
            },
        };
        let clustered_key: Option<Vec<KeyColumn>> = if ws[3] == 1 {
            Some(key)
        } else {
            None
        };
        Ok(
            TableEntry {
                table: TableId(ws[0] as u32),
                db: DbId(ws[1] as u32),
                first_page: PageId(ws[2]),
                shape: TableShape { columns, clustered_key },
            },
        )
    }
}

impl IndexEntry {
    /// The payload of the `CreateIndex` record of this index.
    pub fn encode(&self) -> (r: Vec<u8>)
        ensures
            r@ == words_bytes(index_words(self@)),
    {
        let mut ws: Vec<u64> = Vec::new();
        ws.push(self.index.0 as u64);
        ws.push(self.table.0 as u64);
        ws.push(
            if self.shared {
                1
            } else {
                0
            },
        );
        ws.push(
            if self.shape.unique {
                1
            } else {
                0
            },
        );
        ws.push(self.shape.columns.len() as u64);
        ws.push(self.shape.included.len() as u64);
        put_key(&mut ws, &self.shape.columns);
        let ghost keyed = ws@;
        for i in 0..self.shape.included.len()
            invariant
                ws@ == keyed + Seq::new(i as nat, |k: int| self.shape.included@[k] as u64),
        {
            ws.push(self.shape.included[i] as u64);
            assert(ws@ =~= keyed + Seq::new(
                (i + 1) as nat,
                |k: int| self.shape.included@[k] as u64,
            ));
        }
        assert(ws@ =~= index_words(self@));
        put_words(&ws)
    }

    /// Reads the payload of a `CreateIndex` record.
    ///
    /// # Errors
    ///
    /// A corruption for bytes that are no index.
    pub fn decode(bytes: &[u8]) -> (r: Result<Self, InternalError>)
        ensures
            match r {
                Ok(e) => bytes@.len() % 8 == 0 && is_index(words_in(bytes@)) && e@ == index_in(
                    words_in(bytes@),
                ),
                Err(e) => !(bytes@.len() % 8 == 0 && is_index(words_in(bytes@))) && e
                    == InternalError::Corruption(
                    Corruption::NotADefinition { bytes: bytes@.len() as usize },
                ),
            },
    {
        let bad: InternalError = InternalError::Corruption(
            Corruption::NotADefinition { bytes: bytes.len() },
        );
        let ws: Vec<u64> = match read_words(bytes) {
            Some(ws) => ws,
            None => {
                return Err(bad);
            },
        };
        let size: usize = ws.len();
        if size < 6 || ws[0] > u32::MAX as u64 || ws[1] > u32::MAX as u64 || ws[2] > 1 || ws[3] > 1 {
            return Err(bad);
        }
        let left: usize = size - 6;
        if ws[4] > (left / 2) as u64 {
            return Err(bad);
        }
        let n: usize = ws[4] as usize;
        let rest: usize = left - 2 * n;
        if ws[5] != rest as u64 {
            return Err(bad);
        }
        let columns: Vec<KeyColumn> = match read_key(&ws, 6, n) {
            Some(columns) => columns,
            None => {
                return Err(bad);
            },
        };
        let start: usize = 6 + 2 * n;
        let mut included: Vec<u16> = Vec::new();
        for i in 0..rest
            invariant
                start + rest == size,
                size == ws@.len(),
                start == 6 + 2 * ws@[4],
                included@.len() == i,
                forall|k: int|
                    0 <= k < i ==> (#[trigger] included@[k]) as u64 == ws@[start + k],
                bad == InternalError::Corruption(
                    Corruption::NotADefinition { bytes: bytes@.len() as usize },
                ),
                ws@ == words_in(bytes@),
        {
            if ws[start + i] >= 0x1_0000 {
                assert(!is_index(ws@));
                return Err(bad);
            }
            let column: u16 = ws[start + i] as u16;
            assert(column as u64 == ws@[start + i]);
            included.push(column);
        }
        proof {
            assert forall|i: int| 6 + 2 * ws@[4] <= i < ws@.len() implies #[trigger] ws@[i]
                < 0x1_0000 by {
                assert(included@[i - start] as u64 == ws@[start + (i - start)]);
            }
            assert(included@ =~= index_in(ws@).shape.included);
        }
        Ok(
            IndexEntry {
                index: IndexId(ws[0] as u32),
                table: TableId(ws[1] as u32),
                shared: ws[2] == 1,
                shape: IndexShape { columns, unique: ws[3] == 1, included },
            },
        )
    }
}

/// The payload of a drop record: the identifier.
pub open spec fn identifier_bytes(id: u32) -> Seq<u8> {
    le_bytes(id as nat, 4)
}

/// The payload of a drop record.
pub fn identifier_payload(id: u32) -> (r: Vec<u8>)
    ensures
        r@ == identifier_bytes(id),
{
    let mut out: Vec<u8> = Vec::new();
    put_u32(&mut out, id);
    assert(out@ =~= identifier_bytes(id));
    out
}

/// Reads the payload of a drop record.
///
/// # Errors
///
/// A corruption for anything but four bytes.
pub fn read_identifier(bytes: &[u8]) -> (r: Result<u32, InternalError>)
    ensures
        match r {
            Ok(id) => bytes@.len() == 4 && id as nat == le_value(bytes@),
            Err(e) => bytes@.len() != 4 && e == InternalError::Corruption(
                Corruption::NotADefinition { bytes: bytes@.len() as usize },
            ),
        },
{
    if bytes.len() != 4 {
        return Err(InternalError::Corruption(Corruption::NotADefinition { bytes: bytes.len() }));
    }
    assert(bytes@.subrange(0, 4) =~= bytes@);
    Ok(read_u32(bytes, 0))
}

/// The payload of a `CreateDatabase` record: the identifier then the name.
pub open spec fn database_bytes(db: DbId, name: Seq<char>) -> Seq<u8> {
    le_bytes(db.0 as nat, 4) + encode_utf8(name)
}

/// Whether bytes are the payload of a `CreateDatabase` record.
pub open spec fn is_database(s: Seq<u8>) -> bool {
    s.len() >= 4 && valid_utf8(s.skip(4))
}

/// The identifier and the name a `CreateDatabase` record carries.
pub open spec fn database_in(s: Seq<u8>) -> (DbId, Seq<char>) {
    (DbId(le_value(s.take(4)) as u32), decode_utf8(s.skip(4)))
}

/// A database reads back from its payload.
pub proof fn law_database_definition_reads_back(db: DbId, name: Seq<char>)
    ensures
        is_database(database_bytes(db, name)),
        database_in(database_bytes(db, name)) == (db, name),
{
    let s = database_bytes(db, name);
    lemma_byte_ranges();
    lemma_le_round_trip(db.0 as nat, 4);
    assert(s.take(4) =~= le_bytes(db.0 as nat, 4));
    assert(s.skip(4) =~= encode_utf8(name));
    vstd::utf8::encode_utf8_valid_utf8(name);
    vstd::utf8::encode_utf8_decode_utf8(name);
}

/// The payload of a `CreateDatabase` record.
pub fn database_payload(db: DbId, name: &str) -> (r: Vec<u8>)
    ensures
        r@ == database_bytes(db, name@),
{
    let mut out: Vec<u8> = Vec::new();
    put_u32(&mut out, db.0);
    put_bytes(&mut out, name.as_bytes());
    assert(out@ =~= database_bytes(db, name@));
    out
}

/// Reads the payload of a `CreateDatabase` record.
///
/// # Errors
///
/// A corruption for fewer than four bytes, and for a name that is no UTF-8.
pub fn read_database(bytes: &[u8]) -> (r: Result<(DbId, String), InternalError>)
    ensures
        match r {
            Ok((db, name)) => is_database(bytes@) && database_in(bytes@) == (db, name@),
            Err(e) => !is_database(bytes@) && e == InternalError::Corruption(
                Corruption::NotADefinition { bytes: bytes@.len() as usize },
            ),
        },
{
    let size: usize = bytes.len();
    if size < 4 {
        return Err(InternalError::Corruption(Corruption::NotADefinition { bytes: size }));
    }
    assert(bytes@.subrange(0, 4) =~= bytes@.take(4));
    let db: DbId = DbId(read_u32(bytes, 0));
    let mut text: Vec<u8> = Vec::new();
    put_bytes(&mut text, vstd::slice::slice_subrange(bytes, 4, size));
    assert(text@ =~= bytes@.skip(4));
    match utf8_text(text) {
        Some(name) => Ok((db, name)),
        None => Err(InternalError::Corruption(Corruption::NotADefinition { bytes: size })),
    }
}

} // verus!
