//! The errors in words, and the text of identifiers, values and keys.

use vstd::prelude::*;

use crate::disk::heap::Rid;
use crate::disk::page::{Lsn, PageId};
use crate::disk::wal::{FrameFault, WalRecordKind};
use crate::error::{Bug, Corruption, IdSpace, InternalError, KeyKind, SqlError};
use crate::ids::{DbId, IndexId, RowId, SavepointId, TableId, TxnId};
use crate::snapshot::TxnStatus;
use crate::value::{Len, SqlType, Value, ValueModel};

verus! {

/// The character of a digit, hexadecimal digits in lower case.
pub open spec fn digit(d: int) -> char {
    if d == 0 {
        '0'
    } else if d == 1 {
        '1'
    } else if d == 2 {
        '2'
    } else if d == 3 {
        '3'
    } else if d == 4 {
        '4'
    } else if d == 5 {
        '5'
    } else if d == 6 {
        '6'
    } else if d == 7 {
        '7'
    } else if d == 8 {
        '8'
    } else if d == 9 {
        '9'
    } else if d == 10 {
        'a'
    } else if d == 11 {
        'b'
    } else if d == 12 {
        'c'
    } else if d == 13 {
        'd'
    } else if d == 14 {
        'e'
    } else {
        'f'
    }
}

/// A number in decimal, without a leading zero.
pub open spec fn decimal(n: nat) -> Seq<char>
    decreases n,
{
    if n < 10 {
        seq![digit(n as int)]
    } else {
        decimal(n / 10).push(digit((n % 10) as int))
    }
}

/// The low `width` hexadecimal digits of a number.
pub open spec fn hex(n: nat, width: nat) -> Seq<char>
    decreases width,
{
    if width == 0 {
        Seq::empty()
    } else {
        hex(n / 16, (width - 1) as nat).push(digit((n % 16) as int))
    }
}

/// Appends a digit.
fn put_digit(out: &mut String, d: u128)
    requires
        d < 16,
    ensures
        final(out)@ == old(out)@.push(digit(d as int)),
{
    let ghost before = out@;
    proof {
        reveal_strlit("0");
        reveal_strlit("1");
        reveal_strlit("2");
        reveal_strlit("3");
        reveal_strlit("4");
        reveal_strlit("5");
        reveal_strlit("6");
        reveal_strlit("7");
        reveal_strlit("8");
        reveal_strlit("9");
        reveal_strlit("a");
        reveal_strlit("b");
        reveal_strlit("c");
        reveal_strlit("d");
        reveal_strlit("e");
        reveal_strlit("f");
    }
    if d == 0 {
        out.append("0");
    } else if d == 1 {
        out.append("1");
    } else if d == 2 {
        out.append("2");
    } else if d == 3 {
        out.append("3");
    } else if d == 4 {
        out.append("4");
    } else if d == 5 {
        out.append("5");
    } else if d == 6 {
        out.append("6");
    } else if d == 7 {
        out.append("7");
    } else if d == 8 {
        out.append("8");
    } else if d == 9 {
        out.append("9");
    } else if d == 10 {
        out.append("a");
    } else if d == 11 {
        out.append("b");
    } else if d == 12 {
        out.append("c");
    } else if d == 13 {
        out.append("d");
    } else if d == 14 {
        out.append("e");
    } else {
        out.append("f");
    }
    assert(out@ =~= before.push(digit(d as int)));
}

/// Appends a number in decimal.
pub fn put_num(out: &mut String, n: u128)
    ensures
        final(out)@ == old(out)@ + decimal(n as nat),
    decreases n,
{
    let ghost before = out@;
    if n < 10 {
        put_digit(out, n);
    } else {
        put_num(out, n / 10);
        put_digit(out, n % 10);
    }
    assert(out@ =~= before + decimal(n as nat));
}

/// Appends the low `width` hexadecimal digits of a number.
pub fn put_hex(out: &mut String, n: u64, width: u64)
    ensures
        final(out)@ == old(out)@ + hex(n as nat, width as nat),
    decreases width,
{
    let ghost before = out@;
    if width > 0 {
        put_hex(out, n / 16, width - 1);
        put_digit(out, (n % 16) as u128);
    }
    assert(out@ =~= before + hex(n as nat, width as nat));
}

/// A number in decimal, with its sign when it is below zero.
pub open spec fn signed(n: int) -> Seq<char> {
    if n < 0 {
        Seq::<char>::empty() + "-"@ + decimal((-n) as nat)
    } else {
        decimal(n as nat)
    }
}

/// Appends a number in decimal, with its sign when it is below zero.
fn put_signed(out: &mut String, n: i128)
    ensures
        final(out)@ == old(out)@ + signed(n as int),
{
    let ghost before = out@;
    if n < 0 {
        out.append("-");
        let size: u128 = if n == i128::MIN {
            0x8000_0000_0000_0000_0000_0000_0000_0000
        } else {
            (-n) as u128
        };
        put_num(out, size);
    } else {
        put_num(out, n as u128);
    }
    assert(out@ =~= before + signed(n as int));
}

/// The bytes of a binary value, in decimal, separated by commas.
pub open spec fn bytes_text(b: Seq<u8>) -> Seq<char>
    decreases b.len(),
{
    if b.len() == 0 {
        Seq::empty()
    } else if b.len() == 1 {
        decimal(b[0] as nat)
    } else {
        bytes_text(b.drop_last()) + ", "@ + decimal(b.last() as nat)
    }
}

/// Appends the bytes of a binary value.
fn put_bytes_text(out: &mut String, b: &Vec<u8>)
    ensures
        final(out)@ == old(out)@ + bytes_text(b@),
{
    let ghost before = out@;
    assert(b@.take(0) =~= Seq::<u8>::empty());
    assert(out@ =~= before + bytes_text(b@.take(0)));
    for i in 0..b.len()
        invariant
            out@ == before + bytes_text(b@.take(i as int)),
    {
        let ghost now = out@;
        let ghost longer = b@.take(i + 1);
        assert(longer.drop_last() =~= b@.take(i as int));
        if i > 0 {
            out.append(", ");
        }
        put_num(out, b[i] as u128);
        proof {
            if i == 0 {
                assert(b@.take(0) =~= Seq::<u8>::empty());
                assert(longer[0] == b@[0]);
            }
            assert(out@ =~= before + bytes_text(longer));
        }
    }
    assert(b@.take(b@.len() as int) =~= b@);
}

impl ValueModel {
    /// The value as the errors show it: the name of its variant and its content.
    pub open spec fn text(self) -> Seq<char> {
        match self {
            ValueModel::Null => Seq::<char>::empty() + "Null"@,
            ValueModel::Bit(b) => if b {
                Seq::<char>::empty() + "Bit(true)"@
            } else {
                Seq::<char>::empty() + "Bit(false)"@
            },
            ValueModel::I8(x) => Seq::<char>::empty() + "I8("@ + signed(x as int) + ")"@,
            ValueModel::I16(x) => Seq::<char>::empty() + "I16("@ + signed(x as int) + ")"@,
            ValueModel::I32(x) => Seq::<char>::empty() + "I32("@ + signed(x as int) + ")"@,
            ValueModel::I64(x) => Seq::<char>::empty() + "I64("@ + signed(x as int) + ")"@,
            ValueModel::Decimal(d) => Seq::<char>::empty() + "Decimal("@ + signed(d.whole as int)
                + ", "@ + signed(d.fraction as int) + ")"@,
            ValueModel::F32(x) => Seq::<char>::empty() + "F32("@ + signed(x as int) + ")"@,
            ValueModel::F64(x) => Seq::<char>::empty() + "F64("@ + signed(x as int) + ")"@,
            ValueModel::Money(x) => Seq::<char>::empty() + "Money("@ + signed(x as int) + ")"@,
            ValueModel::String(s) => Seq::<char>::empty() + "String(\""@ + s + "\")"@,
            ValueModel::Bytes(b) => Seq::<char>::empty() + "Bytes(["@ + bytes_text(b) + "])"@,
            ValueModel::Date(x) => Seq::<char>::empty() + "Date("@ + signed(x as int) + ")"@,
            ValueModel::Time(x) => Seq::<char>::empty() + "Time("@ + signed(x as int) + ")"@,
            ValueModel::DateTime(x) => Seq::<char>::empty() + "DateTime("@ + signed(x as int)
                + ")"@,
            ValueModel::DateTime2(x) => Seq::<char>::empty() + "DateTime2("@ + signed(x as int)
                + ")"@,
            ValueModel::DateTimeOffset(x) => Seq::<char>::empty() + "DateTimeOffset("@ + signed(
                x.ticks as int,
            ) + ", "@ + signed(x.offset as int) + ")"@,
            ValueModel::Guid(x) => Seq::<char>::empty() + "Guid("@ + decimal(x as nat) + ")"@,
        }
    }
}

impl Value {
    /// The value as the errors show it.
    pub open spec fn text(self) -> Seq<char> {
        self@.text()
    }

    /// Appends the text to `out`.
    pub fn put(&self, out: &mut String)
        ensures
            final(out)@ == old(out)@ + self.text(),
    {
        let ghost before = out@;
        match self {
            Value::Null => out.append("Null"),
            Value::Bit(b) => if *b {
                out.append("Bit(true)");
            } else {
                out.append("Bit(false)");
            },
            Value::I8(x) => {
                out.append("I8(");
                put_signed(out, *x as i128);
                out.append(")");
            },
            Value::I16(x) => {
                out.append("I16(");
                put_signed(out, *x as i128);
                out.append(")");
            },
            Value::I32(x) => {
                out.append("I32(");
                put_signed(out, *x as i128);
                out.append(")");
            },
            Value::I64(x) => {
                out.append("I64(");
                put_signed(out, *x as i128);
                out.append(")");
            },
            Value::Decimal(d) => {
                out.append("Decimal(");
                put_signed(out, d.whole);
                out.append(", ");
                put_signed(out, d.fraction);
                out.append(")");
            },
            Value::F32(x) => {
                out.append("F32(");
                put_signed(out, *x as i128);
                out.append(")");
            },
            Value::F64(x) => {
                out.append("F64(");
                put_signed(out, *x as i128);
                out.append(")");
            },
            Value::Money(x) => {
                out.append("Money(");
                put_signed(out, *x as i128);
                out.append(")");
            },
            Value::String(s) => {
                out.append("String(\"");
                out.append(s.text.as_str());
                out.append("\")");
            },
            Value::Bytes(b) => {
                out.append("Bytes([");
                put_bytes_text(out, b);
                out.append("])");
            },
            Value::Date(x) => {
                out.append("Date(");
                put_signed(out, *x as i128);
                out.append(")");
            },
            Value::Time(x) => {
                out.append("Time(");
                put_signed(out, *x as i128);
                out.append(")");
            },
            Value::DateTime(x) => {
                out.append("DateTime(");
                put_signed(out, *x as i128);
                out.append(")");
            },
            Value::DateTime2(x) => {
                out.append("DateTime2(");
                put_signed(out, *x as i128);
                out.append(")");
            },
            Value::DateTimeOffset(x) => {
                out.append("DateTimeOffset(");
                put_signed(out, x.ticks as i128);
                out.append(", ");
                put_signed(out, x.offset as i128);
                out.append(")");
            },
            Value::Guid(x) => {
                out.append("Guid(");
                put_num(out, *x);
                out.append(")");
            },
        }
        assert(out@ =~= before + self.text());
    }
}

/// The values of a key, separated by commas.
pub open spec fn values_text(key: Seq<ValueModel>) -> Seq<char>
    decreases key.len(),
{
    if key.len() == 0 {
        Seq::empty()
    } else if key.len() == 1 {
        key[0].text()
    } else {
        values_text(key.drop_last()) + ", "@ + key.last().text()
    }
}

/// A key as the errors show it: its values in brackets.
pub open spec fn key_text(key: Seq<ValueModel>) -> Seq<char> {
    Seq::<char>::empty() + "("@ + values_text(key) + ")"@
}

/// Appends a key as the errors show it.
pub fn put_key_text(out: &mut String, key: &Vec<Value>)
    ensures
        final(out)@ == old(out)@ + key_text(key.deep_view()),
{
    let ghost first = out@;
    let ghost all = key.deep_view();
    out.append("(");
    let ghost before = out@;
    assert(all.take(0) =~= Seq::<ValueModel>::empty());
    assert(out@ =~= before + values_text(all.take(0)));
    for i in 0..key.len()
        invariant
            all == key.deep_view(),
            out@ == before + values_text(all.take(i as int)),
    {
        let ghost longer = all.take(i + 1);
        assert(longer.drop_last() =~= all.take(i as int));
        assert(all[i as int] == key@[i as int]@);
        if i > 0 {
            out.append(", ");
        }
        key[i].put(out);
        proof {
            if i == 0 {
                assert(all.take(0) =~= Seq::<ValueModel>::empty());
                assert(longer[0] == all[0]);
            }
            assert(out@ =~= before + values_text(longer));
        }
    }
    assert(all.take(all.len() as int) =~= all);
    out.append(")");
    assert(out@ =~= first + key_text(all));
}

impl DbId {
    /// The identifier as a bare integer.
    pub fn to_string(&self) -> (r: String)
        ensures
            r@ == decimal(self.0 as nat),
    {
        let mut out = String::new();
        put_num(&mut out, self.0 as u128);
        assert(out@ =~= decimal(self.0 as nat));
        out
    }
}

impl TableId {
    /// The identifier as a bare integer.
    pub fn to_string(&self) -> (r: String)
        ensures
            r@ == decimal(self.0 as nat),
    {
        let mut out = String::new();
        put_num(&mut out, self.0 as u128);
        assert(out@ =~= decimal(self.0 as nat));
        out
    }
}

impl IndexId {
    /// The identifier as a bare integer.
    pub fn to_string(&self) -> (r: String)
        ensures
            r@ == decimal(self.0 as nat),
    {
        let mut out = String::new();
        put_num(&mut out, self.0 as u128);
        assert(out@ =~= decimal(self.0 as nat));
        out
    }
}

impl RowId {
    /// The identifier as a bare integer.
    pub fn to_string(&self) -> (r: String)
        ensures
            r@ == decimal(self.0 as nat),
    {
        let mut out = String::new();
        put_num(&mut out, self.0 as u128);
        assert(out@ =~= decimal(self.0 as nat));
        out
    }
}

impl TxnId {
    /// The identifier as a bare integer.
    pub fn to_string(&self) -> (r: String)
        ensures
            r@ == decimal(self.0 as nat),
    {
        let mut out = String::new();
        put_num(&mut out, self.0 as u128);
        assert(out@ =~= decimal(self.0 as nat));
        out
    }
}

impl SavepointId {
    /// The identifier as a bare integer.
    pub fn to_string(&self) -> (r: String)
        ensures
            r@ == decimal(self.0 as nat),
    {
        let mut out = String::new();
        put_num(&mut out, self.0 as u128);
        assert(out@ =~= decimal(self.0 as nat));
        out
    }
}

impl PageId {
    /// The identifier as a bare integer.
    pub fn to_string(&self) -> (r: String)
        ensures
            r@ == decimal(self.0 as nat),
    {
        let mut out = String::new();
        put_num(&mut out, self.0 as u128);
        assert(out@ =~= decimal(self.0 as nat));
        out
    }
}

impl Lsn {
    /// The number as a bare integer.
    pub fn to_string(&self) -> (r: String)
        ensures
            r@ == decimal(self.0 as nat),
    {
        let mut out = String::new();
        put_num(&mut out, self.0 as u128);
        assert(out@ =~= decimal(self.0 as nat));
        out
    }
}

impl Rid {
    /// The address as a bare integer.
    pub fn to_string(&self) -> (r: String)
        ensures
            r@ == decimal(self.0 as nat),
    {
        let mut out = String::new();
        put_num(&mut out, self.0 as u128);
        assert(out@ =~= decimal(self.0 as nat));
        out
    }
}

impl TxnStatus {
    /// The name of the status.
    pub open spec fn text(self) -> Seq<char> {
        self.told(Seq::empty())
    }

    /// `before`, then the text.
    pub open spec fn told(self, before: Seq<char>) -> Seq<char> {
        match self {
            TxnStatus::InProgress => before + "InProgress"@,
            TxnStatus::Committed => before + "Committed"@,
            TxnStatus::Aborted => before + "Aborted"@,
        }
    }

    /// Appends the text to `out`.
    pub fn put(&self, out: &mut String)
        ensures
            final(out)@ == self.told(old(out)@),
    {
        match self {
            TxnStatus::InProgress => {
                out.append("InProgress");
            },
            TxnStatus::Committed => {
                out.append("Committed");
            },
            TxnStatus::Aborted => {
                out.append("Aborted");
            },
        }
    }

    /// The text.
    pub fn to_string(&self) -> (r: String)
        ensures
            r@ == self.text(),
    {
        let mut out = String::new();
        assert(out@ =~= Seq::<char>::empty());
        self.put(&mut out);
        out
    }
}

impl WalRecordKind {
    /// The name of the kind.
    pub open spec fn text(self) -> Seq<char> {
        self.told(Seq::empty())
    }

    /// `before`, then the text.
    pub open spec fn told(self, before: Seq<char>) -> Seq<char> {
        match self {
            WalRecordKind::Begin => before + "Begin"@,
            WalRecordKind::Insert => before + "Insert"@,
            WalRecordKind::Update => before + "Update"@,
            WalRecordKind::Delete => before + "Delete"@,
            WalRecordKind::Commit => before + "Commit"@,
            WalRecordKind::Abort => before + "Abort"@,
            WalRecordKind::Checkpoint => before + "Checkpoint"@,
            WalRecordKind::CreateDatabase => before + "CreateDatabase"@,
            WalRecordKind::DropDatabase => before + "DropDatabase"@,
            WalRecordKind::CreateTable => before + "CreateTable"@,
            WalRecordKind::DropTable => before + "DropTable"@,
            WalRecordKind::CreateIndex => before + "CreateIndex"@,
            WalRecordKind::DropIndex => before + "DropIndex"@,
            WalRecordKind::Savepoint => before + "Savepoint"@,
            WalRecordKind::RollbackTo => before + "RollbackTo"@,
        }
    }

    /// Appends the text to `out`.
    pub fn put(&self, out: &mut String)
        ensures
            final(out)@ == self.told(old(out)@),
    {
        match self {
            WalRecordKind::Begin => {
                out.append("Begin");
            },
            WalRecordKind::Insert => {
                out.append("Insert");
            },
            WalRecordKind::Update => {
                out.append("Update");
            },
            WalRecordKind::Delete => {
                out.append("Delete");
            },
            WalRecordKind::Commit => {
                out.append("Commit");
            },
            WalRecordKind::Abort => {
                out.append("Abort");
            },
            WalRecordKind::Checkpoint => {
                out.append("Checkpoint");
            },
            WalRecordKind::CreateDatabase => {
                out.append("CreateDatabase");
            },
            WalRecordKind::DropDatabase => {
                out.append("DropDatabase");
            },
            WalRecordKind::CreateTable => {
                out.append("CreateTable");
            },
            WalRecordKind::DropTable => {
                out.append("DropTable");
            },
            WalRecordKind::CreateIndex => {
                out.append("CreateIndex");
            },
            WalRecordKind::DropIndex => {
                out.append("DropIndex");
            },
            WalRecordKind::Savepoint => {
                out.append("Savepoint");
            },
            WalRecordKind::RollbackTo => {
                out.append("RollbackTo");
            },
        }
    }

    /// The text.
    pub fn to_string(&self) -> (r: String)
        ensures
            r@ == self.text(),
    {
        let mut out = String::new();
        assert(out@ =~= Seq::<char>::empty());
        self.put(&mut out);
        out
    }
}

impl KeyKind {
    /// What the errors call the key.
    pub open spec fn text(self) -> Seq<char> {
        self.told(Seq::empty())
    }

    /// `before`, then the text.
    pub open spec fn told(self, before: Seq<char>) -> Seq<char> {
        match self {
            KeyKind::Clustered => before + "clustered key"@,
            KeyKind::Index => before + "index key"@,
        }
    }

    /// Appends the text to `out`.
    pub fn put(&self, out: &mut String)
        ensures
            final(out)@ == self.told(old(out)@),
    {
        match self {
            KeyKind::Clustered => {
                out.append("clustered key");
            },
            KeyKind::Index => {
                out.append("index key");
            },
        }
    }

    /// The text.
    pub fn to_string(&self) -> (r: String)
        ensures
            r@ == self.text(),
    {
        let mut out = String::new();
        assert(out@ =~= Seq::<char>::empty());
        self.put(&mut out);
        out
    }
}

impl IdSpace {
    /// What the errors call the identified.
    pub open spec fn text(self) -> Seq<char> {
        self.told(Seq::empty())
    }

    /// `before`, then the text.
    pub open spec fn told(self, before: Seq<char>) -> Seq<char> {
        match self {
            IdSpace::Database => before + "database"@,
            IdSpace::Table => before + "table"@,
            IdSpace::Index => before + "index"@,
            IdSpace::Savepoint => before + "savepoint"@,
        }
    }

    /// Appends the text to `out`.
    pub fn put(&self, out: &mut String)
        ensures
            final(out)@ == self.told(old(out)@),
    {
        match self {
            IdSpace::Database => {
                out.append("database");
            },
            IdSpace::Table => {
                out.append("table");
            },
            IdSpace::Index => {
                out.append("index");
            },
            IdSpace::Savepoint => {
                out.append("savepoint");
            },
        }
    }

    /// The text.
    pub fn to_string(&self) -> (r: String)
        ensures
            r@ == self.text(),
    {
        let mut out = String::new();
        assert(out@ =~= Seq::<char>::empty());
        self.put(&mut out);
        out
    }
}

impl Len {
    /// The text of the length.
    pub open spec fn text(self) -> Seq<char> {
        self.told(Seq::empty())
    }

    /// `before`, then the text.
    pub open spec fn told(self, before: Seq<char>) -> Seq<char> {
        match self {
            Len::Fixed(n) => before + "Fixed("@ + decimal(n as nat) + ")"@,
            Len::Max => before + "Max"@,
        }
    }

    /// Appends the text to `out`.
    pub fn put(&self, out: &mut String)
        ensures
            final(out)@ == self.told(old(out)@),
    {
        match self {
            Len::Fixed(n) => {
                out.append("Fixed(");
                put_num(out, *n as u128);
                out.append(")");
            },
            Len::Max => {
                out.append("Max");
            },
        }
    }

    /// The text.
    pub fn to_string(&self) -> (r: String)
        ensures
            r@ == self.text(),
    {
        let mut out = String::new();
        assert(out@ =~= Seq::<char>::empty());
        self.put(&mut out);
        out
    }
}

impl SqlType {
    /// The text of the type.
    pub open spec fn text(self) -> Seq<char> {
        self.told(Seq::empty())
    }

    /// `before`, then the text.
    pub open spec fn told(self, before: Seq<char>) -> Seq<char> {
        match self {
            SqlType::Bit => before + "Bit"@,
            SqlType::TinyInt => before + "TinyInt"@,
            SqlType::SmallInt => before + "SmallInt"@,
            SqlType::Int => before + "Int"@,
            SqlType::BigInt => before + "BigInt"@,
            SqlType::Real => before + "Real"@,
            SqlType::Float => before + "Float"@,
            SqlType::Money => before + "Money"@,
            SqlType::SmallMoney => before + "SmallMoney"@,
            SqlType::Date => before + "Date"@,
            SqlType::DateTime => before + "DateTime"@,
            SqlType::SmallDateTime => before + "SmallDateTime"@,
            SqlType::UniqueIdentifier => before + "UniqueIdentifier"@,
            SqlType::Decimal { precision, scale } => before + "Decimal { precision: "@
                + decimal(precision as nat) + ", scale: "@ + decimal(scale as nat) + " }"@,
            SqlType::Numeric { precision, scale } => before + "Numeric { precision: "@
                + decimal(precision as nat) + ", scale: "@ + decimal(scale as nat) + " }"@,
            SqlType::Char(len) => len.told(before + "Char("@) + ")"@,
            SqlType::VarChar(len) => len.told(before + "VarChar("@) + ")"@,
            SqlType::NChar(len) => len.told(before + "NChar("@) + ")"@,
            SqlType::NVarChar(len) => len.told(before + "NVarChar("@) + ")"@,
            SqlType::Binary(len) => len.told(before + "Binary("@) + ")"@,
            SqlType::VarBinary(len) => len.told(before + "VarBinary("@) + ")"@,
            SqlType::Time(scale) => before + "Time("@ + decimal(scale as nat) + ")"@,
            SqlType::DateTime2(scale) => before + "DateTime2("@ + decimal(scale as nat) + ")"@,
            SqlType::DateTimeOffset(scale) => before + "DateTimeOffset("@ + decimal(scale as nat)
                + ")"@,
        }
    }

    /// Appends the text to `out`.
    pub fn put(&self, out: &mut String)
        ensures
            final(out)@ == self.told(old(out)@),
    {
        match self {
            SqlType::Bit => {
                out.append("Bit");
            },
            SqlType::TinyInt => {
                out.append("TinyInt");
            },
            SqlType::SmallInt => {
                out.append("SmallInt");
            },
            SqlType::Int => {
                out.append("Int");
            },
            SqlType::BigInt => {
                out.append("BigInt");
            },
            SqlType::Real => {
                out.append("Real");
            },
            SqlType::Float => {
                out.append("Float");
            },
            SqlType::Money => {
                out.append("Money");
            },
            SqlType::SmallMoney => {
                out.append("SmallMoney");
            },
            SqlType::Date => {
                out.append("Date");
            },
            SqlType::DateTime => {
                out.append("DateTime");
            },
            SqlType::SmallDateTime => {
                out.append("SmallDateTime");
            },
            SqlType::UniqueIdentifier => {
                out.append("UniqueIdentifier");
            },
            SqlType::Decimal { precision, scale } => {
                out.append("Decimal { precision: ");
                put_num(out, *precision as u128);
                out.append(", scale: ");
                put_num(out, *scale as u128);
                out.append(" }");
            },
            SqlType::Numeric { precision, scale } => {
                out.append("Numeric { precision: ");
                put_num(out, *precision as u128);
                out.append(", scale: ");
                put_num(out, *scale as u128);
                out.append(" }");
            },
            SqlType::Char(len) => {
                out.append("Char(");
                len.put(out);
                out.append(")");
            },
            SqlType::VarChar(len) => {
                out.append("VarChar(");
                len.put(out);
                out.append(")");
            },
            SqlType::NChar(len) => {
                out.append("NChar(");
                len.put(out);
                out.append(")");
            },
            SqlType::NVarChar(len) => {
                out.append("NVarChar(");
                len.put(out);
                out.append(")");
            },
            SqlType::Binary(len) => {
                out.append("Binary(");
                len.put(out);
                out.append(")");
            },
            SqlType::VarBinary(len) => {
                out.append("VarBinary(");
                len.put(out);
                out.append(")");
            },
            SqlType::Time(scale) => {
                out.append("Time(");
                put_num(out, *scale as u128);
                out.append(")");
            },
            SqlType::DateTime2(scale) => {
                out.append("DateTime2(");
                put_num(out, *scale as u128);
                out.append(")");
            },
            SqlType::DateTimeOffset(scale) => {
                out.append("DateTimeOffset(");
                put_num(out, *scale as u128);
                out.append(")");
            },
        }
    }

    /// The text.
    pub fn to_string(&self) -> (r: String)
        ensures
            r@ == self.text(),
    {
        let mut out = String::new();
        assert(out@ =~= Seq::<char>::empty());
        self.put(&mut out);
        out
    }
}

impl FrameFault {
    /// The text of the fault.
    pub open spec fn text(self) -> Seq<char> {
        self.told(Seq::empty())
    }

    /// `before`, then the text.
    pub open spec fn told(self, before: Seq<char>) -> Seq<char> {
        match self {
            FrameFault::ShortLength { offset, remaining } => before + "offset "@
                + decimal(offset as nat) + " of the journal holds "@ + decimal(remaining as nat)
                + " bytes, fewer than the 4 of a length field"@,
            FrameFault::OutOfBounds { offset, length } => before + "the record at offset "@
                + decimal(offset as nat) + " of the journal announces "@ + decimal(length as nat)
                + " bytes, outside the 30..=1048572 a record carries"@,
            FrameFault::Torn { offset, len, remaining } => before + "the record at offset "@
                + decimal(offset as nat) + " of the journal announces "@ + decimal(len as nat)
                + " bytes, the journal holds "@ + decimal(remaining as nat) + " from there"@,
            FrameFault::Checksum { offset, stored, computed } => before + "the record at offset "@
                + decimal(offset as nat) + " of the journal carries checksum 0x"@
                + hex(stored as nat, 8) + ", its bytes hash to 0x"@ + hex(computed as nat, 8),
            FrameFault::Version { offset, version } => before + "the record at offset "@
                + decimal(offset as nat) + " of the journal declares format version "@
                + decimal(version as nat) + ", this build reads 1"@,
            FrameFault::Kind { offset, kind } => before + "the record at offset "@
                + decimal(offset as nat) + " of the journal carries unknown wal record kind "@
                + decimal(kind as nat),
        }
    }

    /// Appends the text to `out`.
    pub fn put(&self, out: &mut String)
        ensures
            final(out)@ == self.told(old(out)@),
    {
        match self {
            FrameFault::ShortLength { offset, remaining } => {
                out.append("offset ");
                put_num(out, *offset as u128);
                out.append(" of the journal holds ");
                put_num(out, *remaining as u128);
                out.append(" bytes, fewer than the 4 of a length field");
            },
            FrameFault::OutOfBounds { offset, length } => {
                out.append("the record at offset ");
                put_num(out, *offset as u128);
                out.append(" of the journal announces ");
                put_num(out, *length as u128);
                out.append(" bytes, outside the 30..=1048572 a record carries");
            },
            FrameFault::Torn { offset, len, remaining } => {
                out.append("the record at offset ");
                put_num(out, *offset as u128);
                out.append(" of the journal announces ");
                put_num(out, *len as u128);
                out.append(" bytes, the journal holds ");
                put_num(out, *remaining as u128);
                out.append(" from there");
            },
            FrameFault::Checksum { offset, stored, computed } => {
                out.append("the record at offset ");
                put_num(out, *offset as u128);
                out.append(" of the journal carries checksum 0x");
                put_hex(out, *stored as u64, 8);
                out.append(", its bytes hash to 0x");
                put_hex(out, *computed as u64, 8);
            },
            FrameFault::Version { offset, version } => {
                out.append("the record at offset ");
                put_num(out, *offset as u128);
                out.append(" of the journal declares format version ");
                put_num(out, *version as u128);
                out.append(", this build reads 1");
            },
            FrameFault::Kind { offset, kind } => {
                out.append("the record at offset ");
                put_num(out, *offset as u128);
                out.append(" of the journal carries unknown wal record kind ");
                put_num(out, *kind as u128);
            },
        }
    }

    /// The text.
    pub fn to_string(&self) -> (r: String)
        ensures
            r@ == self.text(),
    {
        let mut out = String::new();
        assert(out@ =~= Seq::<char>::empty());
        self.put(&mut out);
        out
    }
}

impl Bug {
    /// What went wrong, in words.
    pub open spec fn text(self) -> Seq<char> {
        self.told(Seq::empty())
    }

    /// `before`, then the text.
    pub open spec fn told(self, before: Seq<char>) -> Seq<char> {
        match self {
            Bug::UnknownDatabase(db) => before + "unknown database "@ + decimal(db.0 as nat),
            Bug::UnknownTable(table) => before + "unknown table "@ + decimal(table.0 as nat),
            Bug::UnknownIndex(index) => before + "unknown index "@ + decimal(index.0 as nat),
            Bug::NotInInstance(space, id) => space.told(before) + " "@ + decimal(id as nat)
                + " is unknown to instance"@,
            Bug::FinishedTxn { txn, status } => status.told(before + "transaction "@
                + decimal(txn.0 as nat) + " is already "@),
            Bug::UnknownRow { table, row } => before + "unknown row "@ + decimal(row.0 as nat)
                + " in table "@ + decimal(table.0 as nat),
            Bug::StaleRow { table, row, by } => before + "row "@ + decimal(row.0 as nat)
                + " of table "@ + decimal(table.0 as nat)
                + " is stale: its latest version was replaced or deleted by transaction "@
                + decimal(by.0 as nat),
            Bug::RowBeingWritten { table, row, by, status } => status.told(before + "row "@
                + decimal(row.0 as nat) + " of table "@ + decimal(table.0 as nat)
                + " is being written by transaction "@ + decimal(by.0 as nat) + ", which is "@),
            Bug::WrongArity { table, values, columns } => before + "row has "@
                + decimal(values as nat) + " values, table "@ + decimal(table.0 as nat) + " has "@
                + decimal(columns as nat) + " columns"@,
            Bug::NoColumn => before + "table shape has no column"@,
            Bug::EmptyKey(key) => key.told(before) + " has no column"@,
            Bug::KeyColumnOutOfRange { key, column, columns } => key.told(before) + " column "@
                + decimal(column as nat) + " out of range ("@ + decimal(columns as nat)
                + " columns)"@,
            Bug::IncludedColumnOutOfRange { column, columns } => before + "included column "@
                + decimal(column as nat) + " out of range ("@ + decimal(columns as nat)
                + " columns)"@,
            Bug::IdsExhausted(space) => space.told(before) + " id space exhausted"@,
            Bug::SavepointOfUnknownTxn { txn, savepoint } => before + "unknown transaction "@
                + decimal(txn.0 as nat) + " for savepoint "@ + decimal(savepoint.0 as nat),
            Bug::UnknownSavepoint { txn, savepoint } => before + "savepoint "@
                + decimal(savepoint.0 as nat)
                + " is unknown, invalidated or not owned by transaction "@ + decimal(txn.0 as nat),
            Bug::NoFrame => before + "a buffer pool of 0 frames holds no page"@,
            Bug::RowIdsExhausted(table) => before + "row id space of table "@
                + decimal(table.0 as nat) + " exhausted"@,
            Bug::SerialsExhausted(table) => before + "version serial space of table "@
                + decimal(table.0 as nat) + " exhausted"@,
            Bug::HeapFull(table) => before + "heap of table "@ + decimal(table.0 as nat)
                + " has no address left"@,
            Bug::ReservedTxn(txn) => before + "transaction "@ + decimal(txn.0 as nat)
                + " is the reserved id the xmax field uses for 'no xmax'"@,
            Bug::PayloadTooLong { kind, bytes } => kind.told(before + "a wal record of kind "@)
                + " carries "@ + decimal(bytes as nat)
                + " payload bytes, more than the 1048542 that fit in a record of 1048576 bytes"@,
            Bug::LsnsExhausted => before
                + "the journal has handed out lsn 18446744073709551615, the largest a u64 holds"@,
            Bug::PrefixTooLong { values, columns } => before + "key prefix has "@
                + decimal(values as nat) + " values, the key has "@ + decimal(columns as nat)
                + " columns"@,
            Bug::PrefixValueMismatch { position, value, ty } => ty.told(before + "key value "@
                + decimal(position as nat) + " ("@ + value.text()
                + ") does not match the column type "@),
        }
    }

    /// Appends the text to `out`.
    pub fn put(&self, out: &mut String)
        ensures
            final(out)@ == self.told(old(out)@),
    {
        match self {
            Bug::UnknownDatabase(db) => {
                out.append("unknown database ");
                put_num(out, db.0 as u128);
            },
            Bug::UnknownTable(table) => {
                out.append("unknown table ");
                put_num(out, table.0 as u128);
            },
            Bug::UnknownIndex(index) => {
                out.append("unknown index ");
                put_num(out, index.0 as u128);
            },
            Bug::NotInInstance(space, id) => {
                space.put(out);
                out.append(" ");
                put_num(out, *id as u128);
                out.append(" is unknown to instance");
            },
            Bug::FinishedTxn { txn, status } => {
                out.append("transaction ");
                put_num(out, txn.0 as u128);
                out.append(" is already ");
                status.put(out);
            },
            Bug::UnknownRow { table, row } => {
                out.append("unknown row ");
                put_num(out, row.0 as u128);
                out.append(" in table ");
                put_num(out, table.0 as u128);
            },
            Bug::StaleRow { table, row, by } => {
                out.append("row ");
                put_num(out, row.0 as u128);
                out.append(" of table ");
                put_num(out, table.0 as u128);
                out.append(" is stale: its latest version was replaced or deleted by transaction ");
                put_num(out, by.0 as u128);
            },
            Bug::RowBeingWritten { table, row, by, status } => {
                out.append("row ");
                put_num(out, row.0 as u128);
                out.append(" of table ");
                put_num(out, table.0 as u128);
                out.append(" is being written by transaction ");
                put_num(out, by.0 as u128);
                out.append(", which is ");
                status.put(out);
            },
            Bug::WrongArity { table, values, columns } => {
                out.append("row has ");
                put_num(out, *values as u128);
                out.append(" values, table ");
                put_num(out, table.0 as u128);
                out.append(" has ");
                put_num(out, *columns as u128);
                out.append(" columns");
            },
            Bug::NoColumn => {
                out.append("table shape has no column");
            },
            Bug::EmptyKey(key) => {
                key.put(out);
                out.append(" has no column");
            },
            Bug::KeyColumnOutOfRange { key, column, columns } => {
                key.put(out);
                out.append(" column ");
                put_num(out, *column as u128);
                out.append(" out of range (");
                put_num(out, *columns as u128);
                out.append(" columns)");
            },
            Bug::IncludedColumnOutOfRange { column, columns } => {
                out.append("included column ");
                put_num(out, *column as u128);
                out.append(" out of range (");
                put_num(out, *columns as u128);
                out.append(" columns)");
            },
            Bug::IdsExhausted(space) => {
                space.put(out);
                out.append(" id space exhausted");
            },
            Bug::SavepointOfUnknownTxn { txn, savepoint } => {
                out.append("unknown transaction ");
                put_num(out, txn.0 as u128);
                out.append(" for savepoint ");
                put_num(out, savepoint.0 as u128);
            },
            Bug::UnknownSavepoint { txn, savepoint } => {
                out.append("savepoint ");
                put_num(out, savepoint.0 as u128);
                out.append(" is unknown, invalidated or not owned by transaction ");
                put_num(out, txn.0 as u128);
            },
            Bug::NoFrame => {
                out.append("a buffer pool of 0 frames holds no page");
            },
            Bug::RowIdsExhausted(table) => {
                out.append("row id space of table ");
                put_num(out, table.0 as u128);
                out.append(" exhausted");
            },
            Bug::SerialsExhausted(table) => {
                out.append("version serial space of table ");
                put_num(out, table.0 as u128);
                out.append(" exhausted");
            },
            Bug::HeapFull(table) => {
                out.append("heap of table ");
                put_num(out, table.0 as u128);
                out.append(" has no address left");
            },
            Bug::ReservedTxn(txn) => {
                out.append("transaction ");
                put_num(out, txn.0 as u128);
                out.append(" is the reserved id the xmax field uses for 'no xmax'");
            },
            Bug::PayloadTooLong { kind, bytes } => {
                out.append("a wal record of kind ");
                kind.put(out);
                out.append(" carries ");
                put_num(out, *bytes as u128);
                out.append(" payload bytes, more than the 1048542 that fit in a record of 1048576 bytes");
            },
            Bug::LsnsExhausted => {
                out.append("the journal has handed out lsn 18446744073709551615, the largest a u64 holds");
            },
            Bug::PrefixTooLong { values, columns } => {
                out.append("key prefix has ");
                put_num(out, *values as u128);
                out.append(" values, the key has ");
                put_num(out, *columns as u128);
                out.append(" columns");
            },
            Bug::PrefixValueMismatch { position, value, ty } => {
                out.append("key value ");
                put_num(out, *position as u128);
                out.append(" (");
                value.put(out);
                out.append(") does not match the column type ");
                ty.put(out);
            },
        }
    }

    /// The text.
    pub fn to_string(&self) -> (r: String)
        ensures
            r@ == self.text(),
    {
        let mut out = String::new();
        assert(out@ =~= Seq::<char>::empty());
        self.put(&mut out);
        out
    }
}

impl Corruption {
    /// What does not hold, in words.
    pub open spec fn text(self) -> Seq<char> {
        self.told(Seq::empty())
    }

    /// `before`, then the text.
    pub open spec fn told(self, before: Seq<char>) -> Seq<char> {
        match self {
            Corruption::KeyColumnMissing { values, column } => before + "row has "@
                + decimal(values as nat) + " values, key column "@ + decimal(column as nat)
                + " is out of range"@,
            Corruption::NotTheUpdate { table, row, txn } => before + "row "@ + decimal(row.0 as nat)
                + " of table "@ + decimal(table.0 as nat)
                + " does not end with the update of transaction "@ + decimal(txn.0 as nat)
                + " being undone"@,
            Corruption::NotTheDelete { table, row, txn } => before + "row "@ + decimal(row.0 as nat)
                + " of table "@ + decimal(table.0 as nat)
                + " does not end with the delete of transaction "@ + decimal(txn.0 as nat)
                + " being undone"@,
            Corruption::UnknownPageKind(kind) => before + "unknown page kind "@
                + decimal(kind as nat),
            Corruption::PageMagic { page, magic } => before + "page "@ + decimal(page.0 as nat)
                + " starts with magic ["@ + hex(magic.0 as nat, 2) + ", "@ + hex(magic.1 as nat, 2)
                + ", "@ + hex(magic.2 as nat, 2) + ", "@ + hex(magic.3 as nat, 2)
                + "], expected [56, 44, 42, 50]"@,
            Corruption::PageVersion { page, version } => before + "page "@ + decimal(page.0 as nat)
                + " declares format version "@ + decimal(version as nat) + ", this build reads 1"@,
            Corruption::PageChecksum { page, stored, computed } => before + "page "@
                + decimal(page.0 as nat) + " carries checksum 0x"@ + hex(stored as nat, 8)
                + ", its bytes hash to 0x"@ + hex(computed as nat, 8),
            Corruption::UnknownRecordKind(kind) => before + "unknown wal record kind "@
                + decimal(kind as nat),
            Corruption::CheckpointLength(bytes) => before + "a checkpoint record carries "@
                + decimal(bytes as nat) + " payload bytes, expected 24"@,
            Corruption::Frame(fault) => fault.told(before),
            Corruption::Interior { at, reason, sealed } => reason.told(before)
                + "; the record at offset "@ + decimal(sealed as nat)
                + " of the journal carries a checksum that agrees, so offset "@ + decimal(at as nat)
                + " holds an interior record and not the tail of an append that did not finish"@,
            Corruption::BrokenChain { offset, lsn, last, prev } => before + "the record at offset "@
                + decimal(offset as nat) + " of the journal carries lsn "@ + decimal(lsn.0 as nat)
                + " after lsn "@ + decimal(last.0 as nat) + " and names "@ + decimal(prev.0 as nat)
                + " as the record before it; the journal numbers its records from 1 upwards, each naming the one before it"@,
            Corruption::NotARow { bytes } => before + decimal(bytes as nat) + " bytes are no row"@,
            Corruption::VersionTooShort { bytes } => before + "heap record of "@
                + decimal(bytes as nat) + " bytes is shorter than the 32-byte version prefix"@,
            Corruption::ShortChange { bytes } => before + "a row record of the journal carries "@
                + decimal(bytes as nat)
                + " payload bytes, fewer than the 36 of its table and version prefix"@,
            Corruption::BrokenDefinition { id } => before + "the journal defines object "@
                + decimal(id as nat) + ", which cannot be stored"@,
            Corruption::IndexRebuild(index) => before + "the rebuild of index "@
                + decimal(index.0 as nat) + " at the open of the instance failed"@,
            Corruption::NotADefinition { bytes } => before + decimal(bytes as nat)
                + " payload bytes are no definition"@,
            Corruption::ShortSavepoint { kind, lsn, bytes } => before + "the "@
                + decimal(kind as nat) + " record at lsn "@ + decimal(lsn.0 as nat) + " carries "@
                + decimal(bytes as nat) + " payload bytes, fewer than the 8 of a savepoint id"@,
            Corruption::NotTheCreated { table, row, txn } => before + "row "@
                + decimal(row.0 as nat) + " of table "@ + decimal(table.0 as nat)
                + " does not end with a version created and left current by transaction "@
                + decimal(txn.0 as nat) + " being undone"@,
            Corruption::NothingUnderUpdate { table, row, txn } => before + "row "@
                + decimal(row.0 as nat) + " of table "@ + decimal(table.0 as nat)
                + " has no version left under the update of transaction "@ + decimal(txn.0 as nat)
                + " being undone"@,
            Corruption::NotTheReplaced { table, row, seq, txn } => before + "version "@
                + decimal(seq as nat) + " of row "@ + decimal(row.0 as nat) + " of table "@
                + decimal(table.0 as nat) + " does not carry the xmax of transaction "@
                + decimal(txn.0 as nat) + " being undone"@,
            Corruption::HiddenVersionMissing { table, row, seq } => before
                + "the journal hides version "@ + decimal(seq as nat) + " of row "@
                + decimal(row.0 as nat) + " of table "@ + decimal(table.0 as nat)
                + ", which the heap does not hold"@,
            Corruption::ControlLength(bytes) => before + "the control block is "@
                + decimal(bytes as nat) + " bytes, not 128"@,
            Corruption::ControlMagic => before
                + "the control block does not start with the magic VAUBANDB"@,
            Corruption::ControlVersion(version) => before
                + "the control block is of format version "@ + decimal(version as nat)
                + ", this build reads 2"@,
            Corruption::ControlChecksum { stored, computed } => before
                + "the control block carries checksum 0x"@ + hex(stored as nat, 8)
                + ", its bytes hash to 0x"@ + hex(computed as nat, 8),
            Corruption::NoRecord { table, row } => before + "row "@ + decimal(row.0 as nat)
                + " of table "@ + decimal(table.0 as nat)
                + " points at an address that holds no record"@,
            Corruption::NoColumns { row, seq } => before + "version "@ + decimal(seq as nat) + " of row "@
                + decimal(row.0 as nat) + " holds no columns after its prefix"@,
            Corruption::NoControlFile => before
                + "the directory holds data or wal but no vauban.ctl"@,
            Corruption::NoDataFile => before + "the instance has a vauban.ctl but no data"@,
            Corruption::NoJournalFile => before + "the instance has a vauban.ctl but no wal"@,
            Corruption::LockPoisoned => before + "storage lock poisoned"@,
        }
    }

    /// Appends the text to `out`.
    pub fn put(&self, out: &mut String)
        ensures
            final(out)@ == self.told(old(out)@),
    {
        match self {
            Corruption::KeyColumnMissing { values, column } => {
                out.append("row has ");
                put_num(out, *values as u128);
                out.append(" values, key column ");
                put_num(out, *column as u128);
                out.append(" is out of range");
            },
            Corruption::NotTheUpdate { table, row, txn } => {
                out.append("row ");
                put_num(out, row.0 as u128);
                out.append(" of table ");
                put_num(out, table.0 as u128);
                out.append(" does not end with the update of transaction ");
                put_num(out, txn.0 as u128);
                out.append(" being undone");
            },
            Corruption::NotTheDelete { table, row, txn } => {
                out.append("row ");
                put_num(out, row.0 as u128);
                out.append(" of table ");
                put_num(out, table.0 as u128);
                out.append(" does not end with the delete of transaction ");
                put_num(out, txn.0 as u128);
                out.append(" being undone");
            },
            Corruption::UnknownPageKind(kind) => {
                out.append("unknown page kind ");
                put_num(out, *kind as u128);
            },
            Corruption::PageMagic { page, magic } => {
                out.append("page ");
                put_num(out, page.0 as u128);
                out.append(" starts with magic [");
                put_hex(out, magic.0 as u64, 2);
                out.append(", ");
                put_hex(out, magic.1 as u64, 2);
                out.append(", ");
                put_hex(out, magic.2 as u64, 2);
                out.append(", ");
                put_hex(out, magic.3 as u64, 2);
                out.append("], expected [56, 44, 42, 50]");
            },
            Corruption::PageVersion { page, version } => {
                out.append("page ");
                put_num(out, page.0 as u128);
                out.append(" declares format version ");
                put_num(out, *version as u128);
                out.append(", this build reads 1");
            },
            Corruption::PageChecksum { page, stored, computed } => {
                out.append("page ");
                put_num(out, page.0 as u128);
                out.append(" carries checksum 0x");
                put_hex(out, *stored as u64, 8);
                out.append(", its bytes hash to 0x");
                put_hex(out, *computed as u64, 8);
            },
            Corruption::UnknownRecordKind(kind) => {
                out.append("unknown wal record kind ");
                put_num(out, *kind as u128);
            },
            Corruption::CheckpointLength(bytes) => {
                out.append("a checkpoint record carries ");
                put_num(out, *bytes as u128);
                out.append(" payload bytes, expected 24");
            },
            Corruption::Frame(fault) => {
                fault.put(out);
            },
            Corruption::Interior { at, reason, sealed } => {
                reason.put(out);
                out.append("; the record at offset ");
                put_num(out, *sealed as u128);
                out.append(" of the journal carries a checksum that agrees, so offset ");
                put_num(out, *at as u128);
                out.append(" holds an interior record and not the tail of an append that did not finish");
            },
            Corruption::BrokenChain { offset, lsn, last, prev } => {
                out.append("the record at offset ");
                put_num(out, *offset as u128);
                out.append(" of the journal carries lsn ");
                put_num(out, lsn.0 as u128);
                out.append(" after lsn ");
                put_num(out, last.0 as u128);
                out.append(" and names ");
                put_num(out, prev.0 as u128);
                out.append(" as the record before it; the journal numbers its records from 1 upwards, each naming the one before it");
            },
            Corruption::NotARow { bytes } => {
                put_num(out, *bytes as u128);
                out.append(" bytes are no row");
            },
            Corruption::VersionTooShort { bytes } => {
                out.append("heap record of ");
                put_num(out, *bytes as u128);
                out.append(" bytes is shorter than the 32-byte version prefix");
            },
            Corruption::ShortChange { bytes } => {
                out.append("a row record of the journal carries ");
                put_num(out, *bytes as u128);
                out.append(" payload bytes, fewer than the 36 of its table and version prefix");
            },
            Corruption::BrokenDefinition { id } => {
                out.append("the journal defines object ");
                put_num(out, *id as u128);
                out.append(", which cannot be stored");
            },
            Corruption::IndexRebuild(index) => {
                out.append("the rebuild of index ");
                put_num(out, index.0 as u128);
                out.append(" at the open of the instance failed");
            },
            Corruption::NotADefinition { bytes } => {
                put_num(out, *bytes as u128);
                out.append(" payload bytes are no definition");
            },
            Corruption::ShortSavepoint { kind, lsn, bytes } => {
                out.append("the ");
                put_num(out, *kind as u128);
                out.append(" record at lsn ");
                put_num(out, lsn.0 as u128);
                out.append(" carries ");
                put_num(out, *bytes as u128);
                out.append(" payload bytes, fewer than the 8 of a savepoint id");
            },
            Corruption::NotTheCreated { table, row, txn } => {
                out.append("row ");
                put_num(out, row.0 as u128);
                out.append(" of table ");
                put_num(out, table.0 as u128);
                out.append(" does not end with a version created and left current by transaction ");
                put_num(out, txn.0 as u128);
                out.append(" being undone");
            },
            Corruption::NothingUnderUpdate { table, row, txn } => {
                out.append("row ");
                put_num(out, row.0 as u128);
                out.append(" of table ");
                put_num(out, table.0 as u128);
                out.append(" has no version left under the update of transaction ");
                put_num(out, txn.0 as u128);
                out.append(" being undone");
            },
            Corruption::NotTheReplaced { table, row, seq, txn } => {
                out.append("version ");
                put_num(out, *seq as u128);
                out.append(" of row ");
                put_num(out, row.0 as u128);
                out.append(" of table ");
                put_num(out, table.0 as u128);
                out.append(" does not carry the xmax of transaction ");
                put_num(out, txn.0 as u128);
                out.append(" being undone");
            },
            Corruption::HiddenVersionMissing { table, row, seq } => {
                out.append("the journal hides version ");
                put_num(out, *seq as u128);
                out.append(" of row ");
                put_num(out, row.0 as u128);
                out.append(" of table ");
                put_num(out, table.0 as u128);
                out.append(", which the heap does not hold");
            },
            Corruption::ControlLength(bytes) => {
                out.append("the control block is ");
                put_num(out, *bytes as u128);
                out.append(" bytes, not 128");
            },
            Corruption::ControlMagic => {
                out.append("the control block does not start with the magic VAUBANDB");
            },
            Corruption::ControlVersion(version) => {
                out.append("the control block is of format version ");
                put_num(out, *version as u128);
                out.append(", this build reads 2");
            },
            Corruption::ControlChecksum { stored, computed } => {
                out.append("the control block carries checksum 0x");
                put_hex(out, *stored as u64, 8);
                out.append(", its bytes hash to 0x");
                put_hex(out, *computed as u64, 8);
            },
            Corruption::NoRecord { table, row } => {
                out.append("row ");
                put_num(out, row.0 as u128);
                out.append(" of table ");
                put_num(out, table.0 as u128);
                out.append(" points at an address that holds no record");
            },
            Corruption::NoColumns { row, seq } => {
                out.append("version ");
                put_num(out, *seq as u128);
                out.append(" of row ");
                put_num(out, row.0 as u128);
                out.append(" holds no columns after its prefix");
            },
            Corruption::NoControlFile => {
                out.append("the directory holds data or wal but no vauban.ctl");
            },
            Corruption::NoDataFile => {
                out.append("the instance has a vauban.ctl but no data");
            },
            Corruption::NoJournalFile => {
                out.append("the instance has a vauban.ctl but no wal");
            },
            Corruption::LockPoisoned => {
                out.append("storage lock poisoned");
            },
        }
    }

    /// The text.
    pub fn to_string(&self) -> (r: String)
        ensures
            r@ == self.text(),
    {
        let mut out = String::new();
        assert(out@ =~= Seq::<char>::empty());
        self.put(&mut out);
        out
    }
}

impl InternalError {
    /// The error in words.
    pub open spec fn text(self) -> Seq<char> {
        self.told(Seq::empty())
    }

    /// `before`, then the text.
    pub open spec fn told(self, before: Seq<char>) -> Seq<char> {
        match self {
            InternalError::Bug(bug) => bug.told(before + "internal bug: "@),
            InternalError::Corruption(corruption) => corruption.told(before + "data corruption: "@),
        }
    }

    /// Appends the text to `out`.
    pub fn put(&self, out: &mut String)
        ensures
            final(out)@ == self.told(old(out)@),
    {
        match self {
            InternalError::Bug(bug) => {
                out.append("internal bug: ");
                bug.put(out);
            },
            InternalError::Corruption(corruption) => {
                out.append("data corruption: ");
                corruption.put(out);
            },
        }
    }

    /// The text.
    pub fn to_string(&self) -> (r: String)
        ensures
            r@ == self.text(),
    {
        let mut out = String::new();
        assert(out@ =~= Seq::<char>::empty());
        self.put(&mut out);
        out
    }
}

impl SqlError {
    /// The number of the error.
    pub open spec fn code(self) -> u32 {
        match self {
            SqlError::Internal(_) => 50000,
            SqlError::DuplicateKey { .. } => 2601,
            SqlError::ClusteredKeyTooWide(_) => 1946,
            SqlError::IncomparableValues => 206,
        }
    }

    /// The number of the error.
    pub fn number(&self) -> (r: u32)
        ensures
            r == self.code(),
    {
        match self {
            SqlError::Internal(_) => 50000,
            SqlError::DuplicateKey { .. } => 2601,
            SqlError::ClusteredKeyTooWide(_) => 1946,
            SqlError::IncomparableValues => 206,
        }
    }

    /// The severity of the error.
    pub fn severity(&self) -> (r: u8)
        ensures
            r == match *self {
                SqlError::Internal(_) => 20u8,
                SqlError::DuplicateKey { .. } => 14,
                _ => 16,
            },
    {
        match self {
            SqlError::Internal(_) => 20,
            SqlError::DuplicateKey { .. } => 14,
            _ => 16,
        }
    }

    /// The state of the error.
    pub fn state(&self) -> (r: u8)
        ensures
            r == match *self {
                SqlError::ClusteredKeyTooWide(_) => 3u8,
                _ => 1,
            },
    {
        match self {
            SqlError::ClusteredKeyTooWide(_) => 3,
            _ => 1,
        }
    }

    /// The message of the error.
    pub open spec fn text(self) -> Seq<char> {
        match self {
            SqlError::Internal(e) => e.told(Seq::<char>::empty() + "Internal error: "@),
            SqlError::DuplicateKey { table, index, key } => Seq::<char>::empty()
                + "Cannot insert duplicate key row in object '"@ + decimal(table.0 as nat)
                + "' with unique index '"@ + decimal(index.0 as nat)
                + "'. The duplicate key value is "@ + key_text(key.deep_view()) + "."@,
            SqlError::ClusteredKeyTooWide(None) => Seq::<char>::empty()
                + "Operation failed. The index entry of length "@ + "an unbounded number of"@
                + " bytes for the clustered key exceeds the maximum length of 900 bytes."@,
            SqlError::ClusteredKeyTooWide(Some(width)) => Seq::<char>::empty()
                + "Operation failed. The index entry of length "@ + decimal(width as nat)
                + " bytes for the clustered key exceeds the maximum length of 900 bytes."@,
            SqlError::IncomparableValues => Seq::<char>::empty()
                + "Operand type clash: two values of different types were compared."@,
        }
    }

    /// The message of the error.
    pub fn message(&self) -> (r: String)
        ensures
            r@ == self.text(),
    {
        let mut out = String::new();
        match self {
            SqlError::Internal(e) => {
                out.append("Internal error: ");
                assert(out@ =~= Seq::<char>::empty() + "Internal error: "@);
                e.put(&mut out);
            },
            SqlError::DuplicateKey { table, index, key } => {
                out.append("Cannot insert duplicate key row in object '");
                put_num(&mut out, table.0 as u128);
                out.append("' with unique index '");
                put_num(&mut out, index.0 as u128);
                out.append("'. The duplicate key value is ");
                put_key_text(&mut out, key);
                out.append(".");
            },
            SqlError::ClusteredKeyTooWide(None) => {
                out.append("Operation failed. The index entry of length ");
                out.append("an unbounded number of");
                out.append(
                    " bytes for the clustered key exceeds the maximum length of 900 bytes.",
                );
            },
            SqlError::ClusteredKeyTooWide(Some(width)) => {
                out.append("Operation failed. The index entry of length ");
                put_num(&mut out, *width as u128);
                out.append(
                    " bytes for the clustered key exceeds the maximum length of 900 bytes.",
                );
            },
            SqlError::IncomparableValues => {
                out.append("Operand type clash: two values of different types were compared.");
            },
        }
        assert(out@ =~= self.text());
        out
    }
}

} // verus!
